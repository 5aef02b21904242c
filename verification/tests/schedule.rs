use path_tracer::schedule::{CollectError, RowCollector};

#[test]
fn collector_starts_with_every_row_missing() {
    let c: RowCollector<u8> = RowCollector::new(3, 4);
    assert_eq!(c.width(), 3);
    assert_eq!(c.height(), 4);
    assert_eq!(c.remaining(), 4);
    assert!(!c.is_complete());
}

#[test]
fn rows_may_come_in_any_order() {
    let rows = vec![vec![1u8, 2], vec![3, 4], vec![5, 6]];
    let mut images = Vec::new();
    for order in [[0usize, 1, 2], [2, 1, 0], [1, 2, 0], [2, 0, 1]] {
        let mut c = RowCollector::new(2, 3);
        for y in order {
            assert_eq!(c.place(y, rows[y].clone()), Ok(()));
        }
        assert!(c.is_complete());
        let image = c.finish(8).unwrap();
        let got: Vec<Vec<u8>> =
            (0..3).map(|y| (0..2).map(|x| *image.get(x, y)).collect()).collect();
        images.push(got);
    }
    for got in &images {
        assert_eq!(*got, rows);
    }
}

#[test]
fn collector_counts_down() {
    let mut c = RowCollector::new(1, 2);
    assert_eq!(c.place(1, vec![9u8]), Ok(()));
    assert_eq!(c.remaining(), 1);
    assert!(!c.is_complete());
    assert_eq!(c.place(0, vec![8u8]), Ok(()));
    assert_eq!(c.remaining(), 0);
    assert!(c.is_complete());
}

#[test]
fn collector_refuses_a_row_outside_the_image() {
    let mut c = RowCollector::new(1, 2);
    assert_eq!(c.place(2, vec![0u8]), Err(CollectError::NoSuchRow));
    assert_eq!(c.remaining(), 2);
}

#[test]
fn collector_refuses_a_row_of_the_wrong_width() {
    let mut c = RowCollector::new(2, 2);
    assert_eq!(c.place(0, vec![0u8]), Err(CollectError::BadWidth));
    assert_eq!(c.remaining(), 2);
}

#[test]
fn collector_refuses_a_row_twice() {
    let mut c = RowCollector::new(1, 2);
    assert_eq!(c.place(0, vec![1u8]), Ok(()));
    assert_eq!(c.place(0, vec![2u8]), Err(CollectError::RowTaken));
    assert_eq!(c.remaining(), 1);
    assert_eq!(c.place(1, vec![3u8]), Ok(()));
    let image = c.finish(4).unwrap();
    assert_eq!(*image.get(0, 0), 1);
    assert_eq!(*image.get(0, 1), 3);
    assert_eq!(image.samples(), 4);
}

#[test]
fn collector_gives_no_image_while_rows_are_missing() {
    let mut c = RowCollector::new(1, 2);
    assert_eq!(c.place(0, vec![1u8]), Ok(()));
    assert_eq!(c.finish(4).err(), Some(CollectError::Incomplete));
}

#[test]
fn collector_of_no_rows_is_complete() {
    let c: RowCollector<u8> = RowCollector::new(5, 0);
    assert!(c.is_complete());
    let image = c.finish(1).unwrap();
    assert_eq!(image.height(), 0);
    assert_eq!(image.width(), 5);
}
