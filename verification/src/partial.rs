use vstd::prelude::*;
use crate::film::PartialImage;

verus! {

/// The byte that separates the fields of a line.
pub const SPACE: u8 = 32;

/// The byte that ends a line.
pub const NEWLINE: u8 = 10;

/// The byte that may stand before the end of a line and is not part of it.
pub const RETURN: u8 = 13;

/// What stands behind the last separator of `s`: all of `s` if it has none.
pub open spec fn tail(s: Seq<u8>, sep: u8) -> Seq<u8>
    decreases s.len(),
{
    if s.len() == 0 || s.last() == sep {
        Seq::empty()
    } else {
        tail(s.drop_last(), sep).push(s.last())
    }
}

/// The pieces of `s` that a separator ends, in order, with or without those
/// that are empty.
pub open spec fn pieces(s: Seq<u8>, sep: u8, keep_empty: bool) -> Seq<Seq<u8>>
    decreases s.len(),
{
    if s.len() == 0 {
        Seq::empty()
    } else {
        let before = pieces(s.drop_last(), sep, keep_empty);
        let piece = tail(s.drop_last(), sep);
        if s.last() == sep && (keep_empty || piece.len() > 0) {
            before.push(piece)
        } else {
            before
        }
    }
}

/// The fields of a line: what stands between its spaces, but for what is
/// empty.
pub open spec fn fields(line: Seq<u8>) -> Seq<Seq<u8>> {
    let last = tail(line, SPACE);
    if last.len() > 0 {
        pieces(line, SPACE, false).push(last)
    } else {
        pieces(line, SPACE, false)
    }
}

/// A line without the return that may stand at its end.
pub open spec fn without_return(line: Seq<u8>) -> Seq<u8> {
    if line.len() > 0 && line.last() == RETURN {
        line.drop_last()
    } else {
        line
    }
}

/// The lines of a text.  A newline ends a line, and a return just before it
/// belongs to the line's end.  What stands behind the last newline is a line
/// if it is not empty.
pub open spec fn lines(text: Seq<u8>) -> Seq<Seq<u8>> {
    let ended = pieces(text, NEWLINE, true).map_values(|l: Seq<u8>| without_return(l));
    let last = tail(text, NEWLINE);
    if last.len() > 0 {
        ended.push(last)
    } else {
        ended
    }
}

/// What the byte strings of `v` hold.
pub open spec fn texts(v: Seq<Vec<u8>>) -> Seq<Seq<u8>> {
    Seq::new(v.len(), |k: int| v[k]@)
}

/// No piece holds a separator, and so does not the tail.
pub proof fn lemma_pieces_hold_no_separator(s: Seq<u8>, sep: u8, keep_empty: bool)
    ensures
        forall|k: int, i: int|
            0 <= k < pieces(s, sep, keep_empty).len() && 0 <= i < pieces(s, sep, keep_empty)[k].len()
                ==> #[trigger] pieces(s, sep, keep_empty)[k][i] != sep,
        forall|i: int| 0 <= i < tail(s, sep).len() ==> #[trigger] tail(s, sep)[i] != sep,
        !keep_empty ==> forall|k: int|
            0 <= k < pieces(s, sep, keep_empty).len() ==> (#[trigger] pieces(
                s,
                sep,
                keep_empty,
            )[k]).len() > 0,
    decreases s.len(),
{
    if s.len() > 0 {
        lemma_pieces_hold_no_separator(s.drop_last(), sep, keep_empty);
        let all = pieces(s, sep, keep_empty);
        let before = pieces(s.drop_last(), sep, keep_empty);
        let piece = tail(s.drop_last(), sep);
        assert forall|k: int, i: int| 0 <= k < all.len() && 0 <= i < all[k].len() implies #[trigger] all[k][i]
            != sep by {
            if k < before.len() {
                assert(all[k] == before[k]);
                assert(before[k][i] != sep);
            } else {
                assert(all[k] == piece);
                assert(piece[i] != sep);
            }
        }
        if !keep_empty {
            assert forall|k: int| 0 <= k < all.len() implies (#[trigger] all[k]).len() > 0 by {
                if k < before.len() {
                    assert(all[k] == before[k]);
                }
            }
        }
    }
}

/// A field is not empty and holds no space.
pub proof fn lemma_fields_are_words(line: Seq<u8>)
    ensures
        forall|k: int| 0 <= k < fields(line).len() ==> (#[trigger] fields(line)[k]).len() > 0,
        forall|k: int, i: int|
            0 <= k < fields(line).len() && 0 <= i < fields(line)[k].len() ==> #[trigger] fields(
                line,
            )[k][i] != SPACE,
{
    lemma_pieces_hold_no_separator(line, SPACE, false);
}

/// Cuts `s` at each separator.
fn split(s: &[u8], sep: u8, keep_empty: bool) -> (r: (Vec<Vec<u8>>, Vec<u8>))
    ensures
        texts(r.0@) == pieces(s@, sep, keep_empty),
        r.1@ == tail(s@, sep),
{
    let mut done: Vec<Vec<u8>> = Vec::new();
    let mut piece: Vec<u8> = Vec::new();
    let mut i: usize = 0;
    assert(texts(done@) =~= pieces(s@.take(0), sep, keep_empty));
    while i < s.len()
        invariant
            i <= s@.len(),
            texts(done@) == pieces(s@.take(i as int), sep, keep_empty),
            piece@ == tail(s@.take(i as int), sep),
        decreases s@.len() - i,
    {
        let b = s[i];
        proof {
            assert(s@.take(i + 1).drop_last() =~= s@.take(i as int));
            assert(s@.take(i + 1).last() == b);
        }
        if b == sep {
            if keep_empty || piece.len() > 0 {
                let ghost before = texts(done@);
                let ghost p = piece@;
                done.push(piece);
                assert(texts(done@) =~= before.push(p));
            }
            piece = Vec::new();
        } else {
            piece.push(b);
        }
        i += 1;
    }
    assert(s@.take(i as int) =~= s@);
    (done, piece)
}

/// Cuts a line into its fields.
pub fn split_fields(line: &[u8]) -> (r: Vec<Vec<u8>>)
    ensures
        texts(r@) == fields(line@),
{
    let (mut done, last) = split(line, SPACE, false);
    if last.len() > 0 {
        let ghost before = texts(done@);
        let ghost l = last@;
        done.push(last);
        assert(texts(done@) =~= before.push(l));
    }
    done
}

/// Cuts a text into its lines.
pub fn split_lines(text: &[u8]) -> (r: Vec<Vec<u8>>)
    ensures
        texts(r@) == lines(text@),
{
    let (mut ended, last) = split(text, NEWLINE, true);
    let ghost raw = texts(ended@);
    let mut k: usize = 0;
    while k < ended.len()
        invariant
            k <= ended@.len(),
            ended@.len() == raw.len(),
            forall|j: int| 0 <= j < k ==> (#[trigger] ended@[j])@ == without_return(raw[j]),
            forall|j: int| k <= j < raw.len() ==> (#[trigger] ended@[j])@ == raw[j],
        decreases ended@.len() - k,
    {
        let n = ended[k].len();
        if n > 0 && ended[k][n - 1] == RETURN {
            let mut line: Vec<u8> = Vec::new();
            let mut i: usize = 0;
            while i < n - 1
                invariant
                    k < ended@.len(),
                    n == ended@[k as int]@.len(),
                    n > 0,
                    i <= n - 1,
                    line@ == ended@[k as int]@.take(i as int),
                decreases n - 1 - i,
            {
                line.push(ended[k][i]);
                assert(ended@[k as int]@.take(i + 1) =~= ended@[k as int]@.take(i as int).push(
                    ended@[k as int]@[i as int],
                ));
                i += 1;
            }
            assert(line@ =~= ended@[k as int]@.drop_last());
            ended.set(k, line);
        }
        k += 1;
    }
    let ghost stripped = texts(ended@);
    assert(stripped =~= raw.map_values(|l: Seq<u8>| without_return(l)));
    if last.len() > 0 {
        let ghost l = last@;
        ended.push(last);
        assert(texts(ended@) =~= stripped.push(l));
    }
    ended
}

/// The sign that may stand before a number.
pub const PLUS: u8 = 43;

/// Whether a byte is a decimal digit.
pub open spec fn is_digit(b: u8) -> bool {
    48 <= b <= 57
}

/// Whether every byte is a decimal digit.
pub open spec fn all_digits(d: Seq<u8>) -> bool {
    forall|i: int| 0 <= i < d.len() ==> is_digit(#[trigger] d[i])
}

/// The number that a digit stands for.
pub open spec fn digit_value(b: u8) -> nat {
    if is_digit(b) {
        (b - 48) as nat
    } else {
        0
    }
}

/// The number that digits stand for when read as a decimal numeral.
pub open spec fn decimal(d: Seq<u8>) -> nat
    decreases d.len(),
{
    if d.len() == 0 {
        0
    } else {
        decimal(d.drop_last()) * 10 + digit_value(d.last())
    }
}

/// A field without the plus sign that may stand at its front.
pub open spec fn unsigned(field: Seq<u8>) -> Seq<u8> {
    if field.len() > 0 && field[0] == PLUS {
        field.skip(1)
    } else {
        field
    }
}

/// The count that a field stands for: it is made of digits, with or without
/// a plus sign before them, there is at least one digit, and the number fits.
pub open spec fn count(field: Seq<u8>) -> Option<usize> {
    let d = unsigned(field);
    if d.len() > 0 && all_digits(d) && decimal(d) <= usize::MAX {
        Some(decimal(d) as usize)
    } else {
        None
    }
}

/// A numeral stands for no less than any of its beginnings.
pub proof fn lemma_decimal_grows(d: Seq<u8>, n: int)
    requires
        0 <= n <= d.len(),
    ensures
        decimal(d.take(n)) <= decimal(d),
    decreases d.len(),
{
    if n == d.len() {
        assert(d.take(n) =~= d);
    } else {
        lemma_decimal_grows(d.drop_last(), n);
        assert(d.drop_last().take(n) =~= d.take(n));
    }
}

/// Reads a field as a count.
pub fn parse_count(field: &[u8]) -> (r: Option<usize>)
    ensures
        r == count(field@),
{
    let start: usize = if field.len() > 0 && field[0] == PLUS {
        1
    } else {
        0
    };
    let ghost d = unsigned(field@);
    assert(d =~= field@.skip(start as int));
    if start == field.len() {
        return None;
    }
    let mut value: usize = 0;
    let mut i: usize = start;
    while i < field.len()
        invariant
            start <= i <= field@.len(),
            d == field@.skip(start as int),
            d == unsigned(field@),
            d.len() > 0,
            all_digits(d.take(i - start)),
            value == decimal(d.take(i - start)),
        decreases field@.len() - i,
    {
        let b = field[i];
        let ghost n = i - start;
        proof {
            assert(d.take(n + 1).drop_last() =~= d.take(n));
            assert(d.take(n + 1).last() == b);
            lemma_decimal_grows(d, n + 1);
            assert(decimal(d.take(n + 1)) == decimal(d.take(n)) * 10 + digit_value(b));
        }
        if b < 48 || b > 57 {
            assert(!is_digit(d[n]));
            return None;
        }
        let shifted = match value.checked_mul(10) {
            Some(v) => v,
            None => {
                return None;
            },
        };
        value = match shifted.checked_add((b - 48) as usize) {
            Some(v) => v,
            None => {
                return None;
            },
        };
        assert forall|j: int| 0 <= j < n + 1 implies is_digit(#[trigger] d.take(n + 1)[j]) by {
            if j < n {
                assert(d.take(n)[j] == d.take(n + 1)[j]);
            }
        }
        i += 1;
    }
    assert(d.take(i - start) =~= d);
    Some(value)
}

/// The counts among fields: the fields that stand for a count, read as
/// counts, in order.
pub open spec fn counts(fields: Seq<Seq<u8>>) -> Seq<usize>
    decreases fields.len(),
{
    if fields.len() == 0 {
        Seq::empty()
    } else {
        match count(fields.last()) {
            Some(n) => counts(fields.drop_last()).push(n),
            None => counts(fields.drop_last()),
        }
    }
}

/// The first line of a partial render: how wide and how high the image is,
/// and how many samples each of its pixels holds.
#[derive(Clone, Copy, Debug, PartialEq, Eq, Structural)]
pub struct Header {
    pub width: usize,
    pub height: usize,
    pub samples: usize,
}

/// The header that a line stands for: the line holds exactly three counts,
/// whatever else stands between them.
pub open spec fn header(line: Seq<u8>) -> Option<Header> {
    let c = counts(fields(line));
    if c.len() == 3 {
        Some(Header { width: c[0], height: c[1], samples: c[2] })
    } else {
        None
    }
}

/// Reads a line as a header.
pub fn parse_header(line: &[u8]) -> (r: Option<Header>)
    ensures
        r == header(line@),
{
    let fields = split_fields(line);
    let mut found: Vec<usize> = Vec::new();
    let mut k: usize = 0;
    while k < fields.len()
        invariant
            k <= fields@.len(),
            found@ == counts(texts(fields@).take(k as int)),
        decreases fields@.len() - k,
    {
        proof {
            assert(texts(fields@).take(k + 1).drop_last() =~= texts(fields@).take(k as int));
            assert(texts(fields@).take(k + 1).last() == fields@[k as int]@);
        }
        match parse_count(fields[k].as_slice()) {
            Some(n) => {
                found.push(n);
            },
            None => {},
        }
        k += 1;
    }
    assert(texts(fields@).take(k as int) =~= texts(fields@));
    if found.len() == 3 {
        Some(Header { width: found[0], height: found[1], samples: found[2] })
    } else {
        None
    }
}

/// What is wrong with a partial render.
#[derive(Clone, Copy, Debug, PartialEq, Eq, Structural)]
pub enum FormatError {
    /// There is no first line, or it does not hold exactly three counts.
    BadHeader,
    /// The numbers of a row are not a whole number of pixels.
    BadLine { row: usize },
    /// A row has another number of pixels than the header says.
    BadWidth { row: usize, expected: usize, found: usize },
    /// There is another number of rows than the header says.
    BadHeight { expected: usize, found: usize },
}

impl FormatError {
    /// The error in words.
    pub fn message(&self) -> (m: &'static str)
        ensures
            *self is BadHeader ==> m@ == "Bad header"@,
            *self is BadLine ==> m@ == "Bad line"@,
            *self is BadWidth ==> m@ == "Bad width"@,
            *self is BadHeight ==> m@ == "Bad height"@,
    {
        match self {
            FormatError::BadHeader => "Bad header",
            FormatError::BadLine { .. } => "Bad line",
            FormatError::BadWidth { .. } => "Bad width",
            FormatError::BadHeight { .. } => "Bad height",
        }
    }
}

/// A partial render cut into its parts: the header, and for each line after
/// it the fields of that line.
pub struct Scan {
    pub header: Header,
    pub rows: Vec<Vec<Vec<u8>>>,
}

impl Scan {
    /// The fields of the rows as byte strings.
    pub open spec fn row_fields(&self) -> Seq<Seq<Seq<u8>>> {
        Seq::new(self.rows@.len(), |k: int| texts(self.rows@[k]@))
    }
}

/// The parts of a text: the header that its first line stands for, and the
/// fields of each line after the first.  A text without a first line, or
/// whose first line is no header, has no parts.
pub open spec fn scanned(text: Seq<u8>) -> Option<(Header, Seq<Seq<Seq<u8>>>)> {
    let l = lines(text);
    if l.len() == 0 {
        None
    } else {
        match header(l[0]) {
            Some(h) => Some((h, l.skip(1).map_values(|line: Seq<u8>| fields(line)))),
            None => None,
        }
    }
}

/// Cuts a partial render into its parts.
pub fn scan(text: &[u8]) -> (r: Result<Scan, FormatError>)
    ensures
        r.is_ok() ==> scanned(text@) == Some((r.unwrap().header, r.unwrap().row_fields())),
        r.is_err() ==> scanned(text@).is_none() && r == Err::<Scan, FormatError>(
            FormatError::BadHeader,
        ),
{
    let lines = split_lines(text);
    if lines.len() == 0 {
        return Err(FormatError::BadHeader);
    }
    let header = match parse_header(lines[0].as_slice()) {
        Some(h) => h,
        None => {
            return Err(FormatError::BadHeader);
        },
    };
    let mut rows: Vec<Vec<Vec<u8>>> = Vec::new();
    let mut k: usize = 1;
    while k < lines.len()
        invariant
            1 <= k <= lines@.len(),
            rows@.len() == k - 1,
            forall|j: int| 0 <= j < k - 1 ==> texts((#[trigger] rows@[j])@) == fields(lines@[j + 1]@),
        decreases lines@.len() - k,
    {
        let row = split_fields(lines[k].as_slice());
        rows.push(row);
        k += 1;
    }
    let s = Scan { header, rows };
    assert(s.row_fields() =~= texts(lines@).skip(1).map_values(|line: Seq<u8>| fields(line)));
    Ok(s)
}

/// The values that are there, in order.
pub open spec fn present<T>(values: Seq<Option<T>>) -> Seq<T>
    decreases values.len(),
{
    if values.len() == 0 {
        Seq::empty()
    } else {
        match values.last() {
            Some(v) => present(values.drop_last()).push(v),
            None => present(values.drop_last()),
        }
    }
}

/// What is wrong with row `row`, if anything: three numbers make a pixel,
/// and the row is to hold `width` pixels.
pub open spec fn row_fault<T>(values: Seq<Option<T>>, row: usize, width: usize) -> Option<
    FormatError,
> {
    let n = present(values).len();
    if n % 3 != 0 {
        Some(FormatError::BadLine { row })
    } else if n / 3 != width {
        Some(FormatError::BadWidth { row, expected: width, found: (n / 3) as usize })
    } else {
        None
    }
}

/// Whether none of the first `n` rows has a fault.
pub open spec fn rows_sound<T>(rows: Seq<Vec<Option<T>>>, n: int, width: usize) -> bool {
    forall|k: int| 0 <= k < n ==> row_fault((#[trigger] rows[k])@, k as usize, width).is_none()
}

/// Whether row `k` is the first that has a fault.
pub open spec fn first_fault<T>(rows: Seq<Vec<Option<T>>>, k: int, width: usize) -> bool {
    &&& 0 <= k < rows.len()
    &&& rows_sound(rows, k, width)
    &&& row_fault(rows[k]@, k as usize, width).is_some()
}

/// Whether `image` is the image of the header and the numbers: of the size
/// and with the samples that the header states, and with each pixel made of
/// its three numbers.
pub open spec fn is_image_of<T, P, F: Fn(T, T, T) -> P>(
    header: Header,
    values: Seq<Vec<Option<T>>>,
    pixel: F,
    image: PartialImage<P>,
) -> bool {
    &&& image.spec_width() == header.width
    &&& image.spec_height() == header.height
    &&& image.spec_samples() == header.samples
    &&& forall|x: int, y: int|
        0 <= x < header.width && 0 <= y < header.height ==> call_ensures(
            pixel,
            (
                present(values[y]@)[3 * x],
                present(values[y]@)[3 * x + 1],
                present(values[y]@)[3 * x + 2],
            ),
            #[trigger] image.pixel(x, y),
        )
}

/// Whether `r` is what assembling gives: the fault of the first row that
/// has one; then, where there are not as many rows as the header says, that;
/// otherwise the image.
pub open spec fn assembles<T, P, F: Fn(T, T, T) -> P>(
    header: Header,
    values: Seq<Vec<Option<T>>>,
    pixel: F,
    r: Result<PartialImage<P>, FormatError>,
) -> bool {
    if exists|k: int| first_fault(values, k, header.width) {
        exists|k: int|
            first_fault(values, k, header.width) && (r matches Err(e) && Some(e) == row_fault(
                values[k]@,
                k as usize,
                header.width,
            ))
    } else if values.len() != header.height {
        r == Err::<PartialImage<P>, FormatError>(
            FormatError::BadHeight { expected: header.height, found: values.len() as usize },
        )
    } else {
        r.is_ok() && is_image_of(header, values, pixel, r.unwrap())
    }
}

/// Picks the values that are there.
fn pick_present<T: Copy>(values: &Vec<Option<T>>) -> (r: Vec<T>)
    ensures
        r@ == present(values@),
{
    let mut found: Vec<T> = Vec::new();
    let mut i: usize = 0;
    while i < values.len()
        invariant
            i <= values@.len(),
            found@ == present(values@.take(i as int)),
        decreases values@.len() - i,
    {
        proof {
            assert(values@.take(i + 1).drop_last() =~= values@.take(i as int));
            assert(values@.take(i + 1).last() == values@[i as int]);
        }
        match values[i] {
            Some(v) => {
                found.push(v);
            },
            None => {},
        }
        i += 1;
    }
    assert(values@.take(i as int) =~= values@);
    found
}

/// Makes the image of a partial render whose numbers have been read.
///
/// `values` holds, for each row and each field of the row, the number that
/// the field stands for, or `None` where it stands for none: such a field is
/// passed over.  Each three numbers that follow one another make a pixel, by
/// `pixel`.  The first row whose numbers are not a whole number of pixels, or
/// not as many pixels as the header says, is reported; then a number of rows
/// other than the header says.
pub fn assemble<T: Copy, P, F: Fn(T, T, T) -> P>(
    header: &Header,
    values: &Vec<Vec<Option<T>>>,
    pixel: F,
) -> (r: Result<PartialImage<P>, FormatError>)
    requires
        forall|a: T, b: T, c: T| call_requires(pixel, (a, b, c)),
    ensures
        assembles(*header, values@, pixel, r),
{
    let width = header.width;
    let mut rows: Vec<Vec<P>> = Vec::new();
    let mut y: usize = 0;
    while y < values.len()
        invariant
            y <= values@.len(),
            width == header.width,
            rows@.len() == y,
            rows_sound(values@, y as int, width),
            crate::film::rectangular(rows@, width as nat),
            forall|a: T, b: T, c: T| call_requires(pixel, (a, b, c)),
            forall|x: int, k: int|
                0 <= x < width && 0 <= k < y ==> call_ensures(
                    pixel,
                    (
                        present(values@[k]@)[3 * x],
                        present(values@[k]@)[3 * x + 1],
                        present(values@[k]@)[3 * x + 2],
                    ),
                    #[trigger] rows@[k]@[x],
                ),
        decreases values@.len() - y,
    {
        let found = pick_present(&values[y]);
        let n = found.len();
        if n % 3 != 0 {
            assert(first_fault(values@, y as int, width));
            return Err(FormatError::BadLine { row: y });
        }
        if n / 3 != width {
            assert(first_fault(values@, y as int, width));
            return Err(FormatError::BadWidth { row: y, expected: width, found: n / 3 });
        }
        let mut row: Vec<P> = Vec::new();
        let mut x: usize = 0;
        while x < width
            invariant
                x <= width,
                n == found@.len(),
                n == 3 * width,
                row@.len() == x,
                forall|a: T, b: T, c: T| call_requires(pixel, (a, b, c)),
                forall|j: int|
                    0 <= j < x ==> call_ensures(
                        pixel,
                        (found@[3 * j], found@[3 * j + 1], found@[3 * j + 2]),
                        #[trigger] row@[j],
                    ),
            decreases width - x,
        {
            let p = pixel(found[3 * x], found[3 * x + 1], found[3 * x + 2]);
            row.push(p);
            x += 1;
        }
        rows.push(row);
        y += 1;
    }
    if rows.len() != header.height {
        return Err(FormatError::BadHeight { expected: header.height, found: rows.len() });
    }
    Ok(PartialImage::from_grid(width, rows, header.samples))
}

/// Whether a byte string can stand as a field of a line: it is not empty,
/// and holds neither a space nor a byte that ends a line.
pub open spec fn is_word(w: Seq<u8>) -> bool {
    &&& w.len() > 0
    &&& forall|i: int|
        0 <= i < w.len() ==> (#[trigger] w[i]) != SPACE && w[i] != NEWLINE && w[i] != RETURN
}

/// Whether every field of every row can stand as a field.
pub open spec fn all_words(rows: Seq<Seq<Seq<u8>>>) -> bool {
    forall|y: int, k: int|
        0 <= y < rows.len() && 0 <= k < rows[y].len() ==> is_word(#[trigger] rows[y][k])
}

/// The line that holds the given fields, with one space between each two.
pub open spec fn joined(words: Seq<Seq<u8>>) -> Seq<u8>
    decreases words.len(),
{
    if words.len() == 0 {
        Seq::empty()
    } else if words.len() == 1 {
        words[0]
    } else {
        joined(words.drop_last()).push(SPACE) + words.last()
    }
}

/// The decimal numeral of a number, without a sign and without zeros before
/// it.
pub open spec fn digits(n: nat) -> Seq<u8>
    decreases n,
{
    if n < 10 {
        seq![(48 + n) as u8]
    } else {
        digits(n / 10).push((48 + n % 10) as u8)
    }
}

/// The first line of a partial render with the given header.
pub open spec fn header_line(h: Header) -> Seq<u8> {
    joined(seq![digits(h.width as nat), digits(h.height as nat), digits(h.samples as nat)])
}

/// The text of a partial render: the header's line, then one line for each
/// row, each ended by a newline.
pub open spec fn composed(h: Header, rows: Seq<Seq<Seq<u8>>>) -> Seq<u8>
    decreases rows.len(),
{
    if rows.len() == 0 {
        header_line(h).push(NEWLINE)
    } else {
        composed(h, rows.drop_last()) + joined(rows.last()).push(NEWLINE)
    }
}

/// Bytes that hold no separator add no piece, and lengthen the tail.
pub proof fn lemma_append_run(s: Seq<u8>, w: Seq<u8>, sep: u8, keep_empty: bool)
    requires
        forall|i: int| 0 <= i < w.len() ==> w[i] != sep,
    ensures
        tail(s + w, sep) == tail(s, sep) + w,
        pieces(s + w, sep, keep_empty) == pieces(s, sep, keep_empty),
    decreases w.len(),
{
    if w.len() == 0 {
        assert(s + w =~= s);
        assert(tail(s, sep) + w =~= tail(s, sep));
    } else {
        let v = w.drop_last();
        lemma_append_run(s, v, sep, keep_empty);
        assert((s + w).drop_last() =~= s + v);
        assert((s + w).last() == w.last());
        assert(tail(s, sep) + w =~= (tail(s, sep) + v).push(w.last()));
    }
}

/// A separator ends the tail and makes it a piece.
pub proof fn lemma_append_separator(s: Seq<u8>, sep: u8, keep_empty: bool)
    ensures
        tail(s.push(sep), sep) == Seq::<u8>::empty(),
        pieces(s.push(sep), sep, keep_empty) == (if keep_empty || tail(s, sep).len() > 0 {
            pieces(s, sep, keep_empty).push(tail(s, sep))
        } else {
            pieces(s, sep, keep_empty)
        }),
{
    assert(s.push(sep).drop_last() =~= s);
}

/// What is joined holds no byte that ends a line; its tail is the last of
/// the fields, and its pieces are those before.
pub proof fn lemma_joined(words: Seq<Seq<u8>>)
    requires
        forall|k: int| 0 <= k < words.len() ==> is_word(#[trigger] words[k]),
    ensures
        forall|i: int|
            0 <= i < joined(words).len() ==> (#[trigger] joined(words)[i]) != NEWLINE && joined(
                words,
            )[i] != RETURN,
        words.len() > 0 ==> tail(joined(words), SPACE) == words.last() && pieces(
            joined(words),
            SPACE,
            false,
        ) == words.drop_last(),
        fields(joined(words)) == words,
    decreases words.len(),
{
    if words.len() == 0 {
    } else if words.len() == 1 {
        let w = words[0];
        assert(is_word(w));
        lemma_append_run(Seq::empty(), w, SPACE, false);
        assert(Seq::<u8>::empty() + w =~= w);
        assert(tail(Seq::<u8>::empty(), SPACE) + w =~= w);
        assert(words.drop_last() =~= Seq::<Seq<u8>>::empty());
        assert(pieces(w, SPACE, false).push(w) =~= words);
    } else {
        let before = words.drop_last();
        let w = words.last();
        assert(is_word(w));
        assert forall|k: int| 0 <= k < before.len() implies is_word(#[trigger] before[k]) by {
            assert(before[k] == words[k]);
        }
        lemma_joined(before);
        let j = joined(before);
        lemma_append_separator(j, SPACE, false);
        lemma_append_run(j.push(SPACE), w, SPACE, false);
        assert(is_word(before.last()));
        assert(Seq::<u8>::empty() + w =~= w);
        assert(before.drop_last().push(before.last()) =~= before);
        assert(before.push(w) =~= words);
    }
}

/// A numeral is made of digits and stands for its number.
pub proof fn lemma_digits(n: nat)
    ensures
        digits(n).len() > 0,
        all_digits(digits(n)),
        decimal(digits(n)) == n,
        is_word(digits(n)),
        unsigned(digits(n)) == digits(n),
    decreases n,
{
    if n < 10 {
        let d = seq![(48 + n) as u8];
        assert(d.drop_last() =~= Seq::<u8>::empty());
        assert(decimal(d.drop_last()) == 0);
        assert(d.last() == (48 + n) as u8);
    } else {
        lemma_digits(n / 10);
        let d = digits(n);
        assert(d.drop_last() =~= digits(n / 10));
        assert(d.last() == (48 + n % 10) as u8);
        assert(d[0] == digits(n / 10)[0]);
        assert forall|i: int| 0 <= i < d.len() implies is_digit(#[trigger] d[i]) by {
            if i < d.len() - 1 {
                assert(d[i] == digits(n / 10)[i]);
            }
        }
    }
    assert(is_digit(digits(n)[0]));
}

/// A header's line stands for the header.
pub proof fn lemma_header_line(h: Header)
    ensures
        header(header_line(h)) == Some(h),
        forall|i: int|
            0 <= i < header_line(h).len() ==> (#[trigger] header_line(h)[i]) != NEWLINE
                && header_line(h)[i] != RETURN,
        header_line(h).len() > 0,
{
    let a = digits(h.width as nat);
    let b = digits(h.height as nat);
    let c = digits(h.samples as nat);
    let words = seq![a, b, c];
    lemma_digits(h.width as nat);
    lemma_digits(h.height as nat);
    lemma_digits(h.samples as nat);
    lemma_joined(words);
    assert(count(a) == Some(h.width));
    assert(count(b) == Some(h.height));
    assert(count(c) == Some(h.samples));
    let two = words.drop_last();
    let one = two.drop_last();
    assert(one.drop_last() =~= Seq::<Seq<u8>>::empty());
    assert(one.last() == a);
    assert(two.last() == b);
    assert(words.last() == c);
    assert(counts(one.drop_last()) =~= Seq::<usize>::empty());
    assert(counts(one) =~= seq![h.width]);
    assert(counts(two) =~= seq![h.width, h.height]);
    assert(counts(words) =~= seq![h.width, h.height, h.samples]);
    assert(joined(two).len() >= 0);
    assert(header_line(h) == joined(two).push(SPACE) + c);
}

/// A line that ends with a newline adds itself to the lines before it.
pub proof fn lemma_append_line(s: Seq<u8>, line: Seq<u8>)
    requires
        tail(s, NEWLINE).len() == 0,
        forall|i: int| 0 <= i < line.len() ==> line[i] != NEWLINE,
    ensures
        tail(s + line.push(NEWLINE), NEWLINE).len() == 0,
        pieces(s + line.push(NEWLINE), NEWLINE, true) == pieces(s, NEWLINE, true).push(line),
{
    lemma_append_run(s, line, NEWLINE, true);
    lemma_append_separator(s + line, NEWLINE, true);
    assert((s + line).push(NEWLINE) =~= s + line.push(NEWLINE));
    assert(tail(s, NEWLINE) + line =~= line);
}

/// The lines of a composed text are the header's line and the joined rows.
pub proof fn lemma_composed_lines(h: Header, rows: Seq<Seq<Seq<u8>>>)
    requires
        all_words(rows),
    ensures
        tail(composed(h, rows), NEWLINE).len() == 0,
        pieces(composed(h, rows), NEWLINE, true).len() == rows.len() + 1,
        pieces(composed(h, rows), NEWLINE, true)[0] == header_line(h),
        forall|y: int|
            0 <= y < rows.len() ==> #[trigger] pieces(composed(h, rows), NEWLINE, true)[y + 1]
                == joined(rows[y]),
    decreases rows.len(),
{
    lemma_header_line(h);
    if rows.len() == 0 {
        lemma_append_line(Seq::empty(), header_line(h));
        assert(Seq::<u8>::empty() + header_line(h).push(NEWLINE) =~= header_line(h).push(NEWLINE));
    } else {
        let before = rows.drop_last();
        assert(all_words(before)) by {
            assert forall|y: int, k: int|
                0 <= y < before.len() && 0 <= k < before[y].len() implies is_word(
                #[trigger] before[y][k],
            ) by {
                assert(before[y] == rows[y]);
                assert(is_word(rows[y][k]));
            }
        }
        lemma_composed_lines(h, before);
        let row = rows.last();
        assert forall|k: int| 0 <= k < row.len() implies is_word(#[trigger] row[k]) by {
            assert(is_word(rows[rows.len() - 1][k]));
        }
        lemma_joined(row);
        lemma_append_line(composed(h, before), joined(row));
        let all = pieces(composed(h, rows), NEWLINE, true);
        let old = pieces(composed(h, before), NEWLINE, true);
        assert(all == old.push(joined(row)));
        assert forall|y: int| 0 <= y < rows.len() implies #[trigger] all[y + 1] == joined(
            rows[y],
        ) by {
            if y < before.len() {
                assert(all[y + 1] == old[y + 1]);
                assert(before[y] == rows[y]);
            }
        }
    }
}

/// What is written can be read again.
///
/// The text of a partial render that is composed of a header and of rows of
/// fields, none of them empty or with a space or the end of a line in it,
/// has that header and those rows for its parts.
pub proof fn lemma_round_trip(h: Header, rows: Seq<Seq<Seq<u8>>>)
    requires
        all_words(rows),
    ensures
        scanned(composed(h, rows)) == Some((h, rows)),
{
    let text = composed(h, rows);
    lemma_composed_lines(h, rows);
    lemma_header_line(h);
    let raw = pieces(text, NEWLINE, true);
    let l = lines(text);
    assert(l == raw.map_values(|line: Seq<u8>| without_return(line)));
    assert(l[0] == header_line(h));
    let read = l.skip(1).map_values(|line: Seq<u8>| fields(line));
    assert(read.len() == rows.len());
    assert forall|y: int| 0 <= y < rows.len() implies read[y] == rows[y] by {
        assert forall|k: int| 0 <= k < rows[y].len() implies is_word(#[trigger] rows[y][k]) by {}
        lemma_joined(rows[y]);
        assert(raw[y + 1] == joined(rows[y]));
        assert(l[y + 1] == without_return(raw[y + 1]));
        assert(l.skip(1)[y] == l[y + 1]);
    }
    assert(read =~= rows);
}

/// Appends the numeral of `n`.
fn push_decimal(n: usize, out: &mut Vec<u8>)
    ensures
        final(out)@ == old(out)@ + digits(n as nat),
    decreases n,
{
    if n < 10 {
        out.push(48 + n as u8);
        assert(out@ =~= old(out)@ + digits(n as nat));
    } else {
        push_decimal(n / 10, out);
        out.push(48 + (n % 10) as u8);
        assert(out@ =~= old(out)@ + digits(n as nat));
    }
}

/// Appends the fields with one space between each two.
fn push_joined(words: &Vec<Vec<u8>>, out: &mut Vec<u8>)
    ensures
        final(out)@ == old(out)@ + joined(texts(words@)),
{
    let ghost all = texts(words@);
    let mut k: usize = 0;
    assert(out@ =~= old(out)@ + joined(all.take(0)));
    while k < words.len()
        invariant
            k <= words@.len(),
            all == texts(words@),
            out@ == old(out)@ + joined(all.take(k as int)),
        decreases words@.len() - k,
    {
        let ghost start = out@;
        if k > 0 {
            out.push(SPACE);
        }
        let word = &words[k];
        let mut i: usize = 0;
        while i < word.len()
            invariant
                i <= word@.len(),
                out@ == if k > 0 {
                    start.push(SPACE)
                } else {
                    start
                } + word@.take(i as int),
            decreases word@.len() - i,
        {
            out.push(word[i]);
            assert(word@.take(i + 1) =~= word@.take(i as int).push(word@[i as int]));
            i += 1;
        }
        proof {
            assert(word@.take(i as int) =~= word@);
            assert(all.take(k + 1).drop_last() =~= all.take(k as int));
            assert(all.take(k + 1).last() == word@);
            if k == 0 {
                assert(joined(all.take(0)) =~= Seq::<u8>::empty());
                assert(out@ =~= old(out)@ + joined(all.take(1)));
            } else {
                assert(out@ =~= old(out)@ + joined(all.take(k + 1)));
            }
        }
        k += 1;
    }
    assert(all.take(k as int) =~= all);
}

impl Scan {
    /// Writes the partial render out again: the header's line, then one line
    /// for each row, with one space between the fields and a newline at the
    /// end of each line.
    pub fn compose(&self) -> (text: Vec<u8>)
        ensures
            text@ == composed(self.header, self.row_fields()),
    {
        let mut text: Vec<u8> = Vec::new();
        push_decimal(self.header.width, &mut text);
        text.push(SPACE);
        push_decimal(self.header.height, &mut text);
        text.push(SPACE);
        push_decimal(self.header.samples, &mut text);
        proof {
            let a = digits(self.header.width as nat);
            let b = digits(self.header.height as nat);
            let c = digits(self.header.samples as nat);
            let words = seq![a, b, c];
            let two = words.drop_last();
            assert(two.drop_last().len() == 1);
            assert(joined(two.drop_last()) == a);
            assert(joined(two) =~= a.push(SPACE) + b);
            assert(text@ =~= header_line(self.header));
        }
        text.push(NEWLINE);
        let ghost rows = self.row_fields();
        assert(text@ =~= composed(self.header, rows.take(0)));
        let mut y: usize = 0;
        while y < self.rows.len()
            invariant
                y <= self.rows@.len(),
                rows == self.row_fields(),
                text@ == composed(self.header, rows.take(y as int)),
            decreases self.rows@.len() - y,
        {
            push_joined(&self.rows[y], &mut text);
            text.push(NEWLINE);
            proof {
                assert(rows.take(y + 1).drop_last() =~= rows.take(y as int));
                assert(rows.take(y + 1).last() == texts(self.rows@[y as int]@));
                assert(text@ =~= composed(self.header, rows.take(y + 1)));
            }
            y += 1;
        }
        assert(rows.take(y as int) =~= rows);
        text
    }
}

} // verus!
