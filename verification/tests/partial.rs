use path_tracer::partial::{
    assemble, parse_count, parse_header, scan, split_fields, split_lines, FormatError, Header,
};

fn fields_of(line: &str) -> Vec<String> {
    split_fields(line.as_bytes()).into_iter().map(|f| String::from_utf8(f).unwrap()).collect()
}

fn lines_of(text: &str) -> Vec<String> {
    split_lines(text.as_bytes()).into_iter().map(|f| String::from_utf8(f).unwrap()).collect()
}

fn numbers(row: &[Vec<u8>]) -> Vec<Option<f64>> {
    row.iter().map(|f| std::str::from_utf8(f).ok().and_then(|s| s.parse::<f64>().ok())).collect()
}

fn load(text: &str) -> Result<path_tracer::film::PartialImage<(f64, f64, f64)>, FormatError> {
    let s = scan(text.as_bytes())?;
    let values: Vec<Vec<Option<f64>>> = s.rows.iter().map(|r| numbers(r)).collect();
    assemble(&s.header, &values, |x, y, z| (x, y, z))
}

#[test]
fn fields_are_what_stands_between_spaces() {
    assert_eq!(fields_of("10 20 4"), vec!["10", "20", "4"]);
    assert_eq!(fields_of("  10   20 4 "), vec!["10", "20", "4"]);
    assert_eq!(fields_of("one"), vec!["one"]);
    assert_eq!(fields_of("a\tb c"), vec!["a\tb", "c"]);
    assert!(fields_of("").is_empty());
    assert!(fields_of("    ").is_empty());
}

#[test]
fn lines_end_at_a_newline() {
    assert_eq!(lines_of("a\nb\n"), vec!["a", "b"]);
    assert_eq!(lines_of("a\nb"), vec!["a", "b"]);
    assert_eq!(lines_of("a\n\nb\n"), vec!["a", "", "b"]);
    assert_eq!(lines_of("\n"), vec![""]);
    assert!(lines_of("").is_empty());
}

#[test]
fn a_return_before_the_newline_is_dropped() {
    assert_eq!(lines_of("a\r\nb\r\n"), vec!["a", "b"]);
    assert_eq!(lines_of("a\r\r\n"), vec!["a\r"]);
    assert_eq!(lines_of("a\rb\n"), vec!["a\rb"]);
    assert_eq!(lines_of("a\r"), vec!["a\r"]);
}

#[test]
fn counts_are_decimal_numerals() {
    assert_eq!(parse_count(b"0"), Some(0));
    assert_eq!(parse_count(b"7"), Some(7));
    assert_eq!(parse_count(b"007"), Some(7));
    assert_eq!(parse_count(b"1024"), Some(1024));
    assert_eq!(parse_count(b"+12"), Some(12));
    assert_eq!(parse_count(usize::MAX.to_string().as_bytes()), Some(usize::MAX));
}

#[test]
fn what_is_no_numeral_is_no_count() {
    assert_eq!(parse_count(b""), None);
    assert_eq!(parse_count(b"+"), None);
    assert_eq!(parse_count(b"-1"), None);
    assert_eq!(parse_count(b"++1"), None);
    assert_eq!(parse_count(b"1+"), None);
    assert_eq!(parse_count(b"12a"), None);
    assert_eq!(parse_count(b"1.5"), None);
    assert_eq!(parse_count(b" 1"), None);
    assert_eq!(parse_count(b"0x10"), None);
}

#[test]
fn a_count_that_does_not_fit_is_no_count() {
    let too_large = format!("{}0", usize::MAX);
    assert_eq!(parse_count(too_large.as_bytes()), None);
    let one_more = (usize::MAX as u128 + 1).to_string();
    assert_eq!(parse_count(one_more.as_bytes()), None);
}

#[test]
fn counts_agree_with_the_standard_library() {
    for s in ["0", "1", "+5", "-5", "", "+", "18446744073709551615", "18446744073709551616", "00", "9a", "٣"] {
        assert_eq!(parse_count(s.as_bytes()), s.parse::<usize>().ok(), "{}", s);
    }
}

#[test]
fn header_holds_three_counts() {
    assert_eq!(parse_header(b"256 192 16"), Some(Header { width: 256, height: 192, samples: 16 }));
    assert_eq!(parse_header(b" 256  192 16 "), Some(Header { width: 256, height: 192, samples: 16 }));
    assert_eq!(parse_header(b"256 x 192 16"), Some(Header { width: 256, height: 192, samples: 16 }));
}

#[test]
fn header_with_other_than_three_counts_is_none() {
    assert_eq!(parse_header(b""), None);
    assert_eq!(parse_header(b"256 192"), None);
    assert_eq!(parse_header(b"256 192 16 1"), None);
    assert_eq!(parse_header(b"256 192 1.5"), None);
    assert_eq!(parse_header(b"256 192 -16"), None);
}

#[test]
fn scan_cuts_a_render_into_header_and_rows() {
    let s = scan(b"2 1 4\n1 2 3 4 5 6\n").unwrap();
    assert_eq!(s.header, Header { width: 2, height: 1, samples: 4 });
    assert_eq!(s.rows.len(), 1);
    let row: Vec<&[u8]> = s.rows[0].iter().map(|f| f.as_slice()).collect();
    assert_eq!(row, vec![&b"1"[..], b"2", b"3", b"4", b"5", b"6"]);
}

#[test]
fn scan_refuses_an_empty_text() {
    assert_eq!(scan(b"").err(), Some(FormatError::BadHeader));
}

#[test]
fn scan_refuses_a_bad_header() {
    assert_eq!(scan(b"2 1\n1 2 3 4 5 6\n").err(), Some(FormatError::BadHeader));
    assert_eq!(scan(b"\n2 1 4\n").err(), Some(FormatError::BadHeader));
}

#[test]
fn load_reads_a_partial_render() {
    let image = load("2 2 8\n0.5 1 1.5 2 2.5 3\n-1 0 1e2 .5 5. 7\n").unwrap();
    assert_eq!(image.width(), 2);
    assert_eq!(image.height(), 2);
    assert_eq!(image.samples(), 8);
    assert_eq!(*image.get(0, 0), (0.5, 1.0, 1.5));
    assert_eq!(*image.get(1, 0), (2.0, 2.5, 3.0));
    assert_eq!(*image.get(0, 1), (-1.0, 0.0, 100.0));
    assert_eq!(*image.get(1, 1), (0.5, 5.0, 7.0));
}

#[test]
fn load_passes_over_what_is_no_number() {
    let image = load("1 1 4\n1 2 x  3\n").unwrap();
    assert_eq!(*image.get(0, 0), (1.0, 2.0, 3.0));
}

#[test]
fn load_reports_a_broken_pixel() {
    assert_eq!(load("1 2 4\n1 2 3\n1 2\n").err(), Some(FormatError::BadLine { row: 1 }));
    assert_eq!(load("1 1 4\n1 2 3 4\n").err(), Some(FormatError::BadLine { row: 0 }));
}

#[test]
fn load_reports_a_row_of_the_wrong_width() {
    assert_eq!(
        load("2 1 4\n1 2 3\n").err(),
        Some(FormatError::BadWidth { row: 0, expected: 2, found: 1 })
    );
    assert_eq!(
        load("1 2 4\n1 2 3\n1 2 3 4 5 6\n").err(),
        Some(FormatError::BadWidth { row: 1, expected: 1, found: 2 })
    );
    assert_eq!(
        load("1 2 4\n1 2 3\n\n").err(),
        Some(FormatError::BadWidth { row: 1, expected: 1, found: 0 })
    );
}

#[test]
fn load_reports_the_wrong_number_of_rows() {
    assert_eq!(
        load("1 2 4\n1 2 3\n").err(),
        Some(FormatError::BadHeight { expected: 2, found: 1 })
    );
    assert_eq!(
        load("1 1 4\n1 2 3\n4 5 6\n").err(),
        Some(FormatError::BadHeight { expected: 1, found: 2 })
    );
}

#[test]
fn load_reports_the_first_fault() {
    assert_eq!(load("1 3 4\n1 2\n1 2 3 4 5 6\n").err(), Some(FormatError::BadLine { row: 0 }));
    assert_eq!(
        load("1 3 4\n1 2 3 4 5 6\n1 2\n").err(),
        Some(FormatError::BadWidth { row: 0, expected: 1, found: 2 })
    );
}

#[test]
fn load_takes_an_image_without_rows() {
    let image = load("3 0 4\n").unwrap();
    assert_eq!(image.width(), 3);
    assert_eq!(image.height(), 0);
    assert_eq!(image.samples(), 4);
}

#[test]
fn errors_have_their_words() {
    assert_eq!(FormatError::BadHeader.message(), "Bad header");
    assert_eq!(FormatError::BadLine { row: 0 }.message(), "Bad line");
    assert_eq!(FormatError::BadWidth { row: 0, expected: 1, found: 2 }.message(), "Bad width");
    assert_eq!(FormatError::BadHeight { expected: 1, found: 2 }.message(), "Bad height");
}

#[test]
fn compose_writes_header_and_rows() {
    let s = path_tracer::partial::Scan {
        header: Header { width: 2, height: 2, samples: 16 },
        rows: vec![
            vec![b"0.5".to_vec(), b"1".to_vec(), b"1.5".to_vec(), b"2".to_vec(), b"2.5".to_vec(), b"3".to_vec()],
            vec![b"0".to_vec(), b"0".to_vec(), b"0".to_vec(), b"1e-3".to_vec(), b"7".to_vec(), b"8".to_vec()],
        ],
    };
    assert_eq!(
        String::from_utf8(s.compose()).unwrap(),
        "2 2 16\n0.5 1 1.5 2 2.5 3\n0 0 0 1e-3 7 8\n"
    );
}

#[test]
fn compose_writes_numerals_without_padding() {
    let s = path_tracer::partial::Scan {
        header: Header { width: 0, height: 10, samples: usize::MAX },
        rows: vec![],
    };
    assert_eq!(String::from_utf8(s.compose()).unwrap(), format!("0 10 {}\n", usize::MAX));
}

#[test]
fn what_is_composed_scans_to_the_same() {
    let s = path_tracer::partial::Scan {
        header: Header { width: 1, height: 3, samples: 4 },
        rows: vec![
            vec![b"1".to_vec(), b"2".to_vec(), b"3".to_vec()],
            vec![],
            vec![b"-4.25".to_vec(), b"inf".to_vec(), b"NaN".to_vec()],
        ],
    };
    let again = scan(&s.compose()).unwrap();
    assert_eq!(again.header, s.header);
    assert_eq!(again.rows, s.rows);
}

#[test]
fn a_render_written_and_read_again_is_the_same() {
    let pixels = vec![vec![(0.25f64, 1e-7, 3.0), (12.5, 0.0, 99.75)], vec![(1.0 / 3.0, 2.0, 5e10), (7.0, 8.0, 9.0)]];
    let rows: Vec<Vec<Vec<u8>>> = pixels
        .iter()
        .map(|row| {
            row.iter()
                .flat_map(|p| [p.0, p.1, p.2])
                .map(|c| format!("{}", c).into_bytes())
                .collect()
        })
        .collect();
    let text = path_tracer::partial::Scan { header: Header { width: 2, height: 2, samples: 8 }, rows }.compose();
    let image = load(std::str::from_utf8(&text).unwrap()).unwrap();
    for y in 0..2 {
        for x in 0..2 {
            assert_eq!(*image.get(x, y), pixels[y][x]);
        }
    }
    assert_eq!(image.samples(), 8);
}
