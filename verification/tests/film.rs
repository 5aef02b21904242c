use path_tracer::film::{MergeError, PartialImage};

fn grid(width: usize, height: usize, fill: i64, samples: usize) -> PartialImage<i64> {
    let rows: Vec<Vec<i64>> = (0..height)
        .map(|y| (0..width).map(|x| fill + (y * width + x) as i64).collect())
        .collect();
    PartialImage::from_rows(width, rows, samples).unwrap()
}

#[test]
fn empty_image_has_nothing() {
    let image: PartialImage<i64> = PartialImage::empty();
    assert_eq!(image.width(), 0);
    assert_eq!(image.height(), 0);
    assert_eq!(image.samples(), 0);
    assert!(image.is_empty());
}

#[test]
fn from_rows_refuses_a_ragged_grid() {
    let rows = vec![vec![1, 2, 3], vec![4, 5]];
    assert!(PartialImage::from_rows(3, rows, 4).is_none());
    let rows = vec![vec![1, 2, 3], vec![4, 5, 6]];
    let image = PartialImage::from_rows(3, rows, 4).unwrap();
    assert_eq!(image.width(), 3);
    assert_eq!(image.height(), 2);
    assert_eq!(image.samples(), 4);
    assert_eq!(*image.get(2, 1), 6);
}

#[test]
fn add_sums_pixels_and_samples() {
    let a = grid(3, 2, 0, 16);
    let b = grid(3, 2, 100, 8);
    let sum = a.add(b, |p, q| p + q).unwrap();
    assert_eq!(sum.samples(), 24);
    assert_eq!(sum.width(), 3);
    assert_eq!(sum.height(), 2);
    for y in 0..2 {
        for x in 0..3 {
            assert_eq!(*sum.get(x, y), 100 + 2 * (y * 3 + x) as i64);
        }
    }
}

#[test]
fn add_to_the_empty_image_gives_the_other() {
    let b = grid(4, 3, 7, 8);
    let sum = PartialImage::empty().add(b, |p: i64, q: i64| p + q).unwrap();
    assert_eq!(sum.samples(), 8);
    assert_eq!(sum.width(), 4);
    assert_eq!(sum.height(), 3);
    assert_eq!(*sum.get(1, 2), 7 + 9);
}

#[test]
fn merge_rejects_mismatched_dimensions() {
    let a = grid(10, 10, 0, 4);
    let b = grid(20, 10, 0, 4);
    let called = std::cell::Cell::new(false);
    let r = a.add(b, |p, q| {
        called.set(true);
        p + q
    });
    assert_eq!(
        r.err(),
        Some(MergeError::DimensionMismatch { width: 10, height: 10, other_width: 20, other_height: 10 })
    );
    assert!(!called.get());
}

#[test]
fn merge_rejects_a_different_height() {
    let r = grid(10, 10, 0, 4).add(grid(10, 9, 0, 4), |p, q| p + q);
    assert_eq!(
        r.err(),
        Some(MergeError::DimensionMismatch { width: 10, height: 10, other_width: 10, other_height: 9 })
    );
}

#[test]
fn merge_rejects_sample_counts_that_overflow() {
    let r = grid(2, 2, 0, usize::MAX).add(grid(2, 2, 0, 1), |p, q| p + q);
    assert_eq!(r.err(), Some(MergeError::TooManySamples));
}

#[test]
fn halves_merge_to_the_whole() {
    let whole = grid(5, 4, 3, 32);
    let half: Vec<Vec<f64>> = (0..4).map(|y| (0..5).map(|x| *whole.get(x, y) as f64 / 2.0).collect()).collect();
    let a = PartialImage::from_rows(5, half.clone(), 16).unwrap();
    let b = PartialImage::from_rows(5, half, 16).unwrap();
    let merged = a.add(b, |p, q| p + q).unwrap();
    assert_eq!(merged.samples(), 32);
    for y in 0..4 {
        for x in 0..5 {
            assert!((*merged.get(x, y) - *whole.get(x, y) as f64).abs() < 1e-9);
        }
    }
}

#[test]
fn merge_of_nothing_is_the_empty_image() {
    let parts: Vec<PartialImage<i64>> = vec![];
    let merged = path_tracer::film::merge(&parts, |p, q| p + q).unwrap();
    assert!(merged.is_empty());
}

#[test]
fn merge_of_one_is_that_one() {
    let merged = path_tracer::film::merge(&vec![grid(3, 2, 5, 8)], |p, q| p + q).unwrap();
    assert_eq!(merged.samples(), 8);
    assert_eq!(merged.width(), 3);
    assert_eq!(merged.height(), 2);
    assert_eq!(*merged.get(2, 1), 10);
}

#[test]
fn merge_sums_all_the_renders() {
    let parts = vec![grid(2, 2, 0, 4), grid(2, 2, 10, 8), grid(2, 2, 100, 16)];
    let merged = path_tracer::film::merge(&parts, |p, q| p + q).unwrap();
    assert_eq!(merged.samples(), 28);
    for y in 0..2 {
        for x in 0..2 {
            assert_eq!(*merged.get(x, y), 110 + 3 * (y * 2 + x) as i64);
        }
    }
}

#[test]
fn merge_adds_up_from_the_first_to_the_last() {
    let parts = vec![grid(1, 1, 1, 1), grid(1, 1, 2, 1), grid(1, 1, 3, 1)];
    let merged = path_tracer::film::merge(&parts, |p, q| 10 * p + q).unwrap();
    assert_eq!(*merged.get(0, 0), 123);
}

#[test]
fn merge_reports_the_first_render_of_another_size() {
    let parts = vec![grid(10, 10, 0, 4), grid(10, 10, 0, 4), grid(20, 10, 0, 4), grid(10, 5, 0, 4)];
    let called = std::cell::Cell::new(false);
    let r = path_tracer::film::merge(&parts, |p, q| {
        called.set(true);
        p + q
    });
    assert_eq!(
        r.err(),
        Some(MergeError::DimensionMismatch { width: 10, height: 10, other_width: 20, other_height: 10 })
    );
    assert!(!called.get());
}

#[test]
fn merge_reports_sample_counts_that_overflow() {
    let parts = vec![grid(1, 1, 0, usize::MAX - 1), grid(1, 1, 0, 1), grid(1, 1, 0, 1)];
    assert_eq!(path_tracer::film::merge(&parts, |p, q| p + q).err(), Some(MergeError::TooManySamples));
}

#[test]
fn merge_of_two_is_add() {
    let merged = path_tracer::film::merge(&vec![grid(3, 3, 1, 2), grid(3, 3, 7, 3)], |p, q| p * q).unwrap();
    let added = grid(3, 3, 1, 2).add(grid(3, 3, 7, 3), |p, q| p * q).unwrap();
    assert_eq!(merged.samples(), added.samples());
    for y in 0..3 {
        for x in 0..3 {
            assert_eq!(merged.get(x, y), added.get(x, y));
        }
    }
}

#[test]
fn map_keeps_size_and_samples() {
    let image = grid(3, 2, 1, 12);
    let doubled = image.map(|p| (*p * 2) as u8);
    assert_eq!(doubled.width(), 3);
    assert_eq!(doubled.height(), 2);
    assert_eq!(doubled.samples(), 12);
    for y in 0..2 {
        for x in 0..3 {
            assert_eq!(*doubled.get(x, y), 2 * (1 + (y * 3 + x) as u8));
        }
    }
}
