use ppmview::{ByteCursor, PpmError};

#[test]
fn read_byte_walks_the_buffer() {
    let mut c = ByteCursor::new(vec![7, 8]);
    assert_eq!(c.len(), 2);
    assert_eq!(c.read_byte(), Ok(7));
    assert_eq!(c.read_byte(), Ok(8));
    assert_eq!(c.read_byte(), Err(PpmError::IoError));
    assert_eq!(c.position(), 2);
}

#[test]
fn read_exact_takes_n_bytes_or_none() {
    let mut c = ByteCursor::new(vec![1, 2, 3, 4, 5]);
    assert_eq!(c.read_exact(3), Ok(vec![1, 2, 3]));
    assert_eq!(c.position(), 3);
    assert_eq!(c.read_exact(3), Err(PpmError::IoError));
    assert_eq!(c.position(), 3);
    assert_eq!(c.read_exact(2), Ok(vec![4, 5]));
    assert_eq!(c.read_exact(0), Ok(vec![]));
}

#[test]
fn seek_relative_moves_both_ways() {
    let mut c = ByteCursor::new(vec![1, 2, 3, 4]);
    assert_eq!(c.seek_relative(3), Ok(()));
    assert_eq!(c.position(), 3);
    assert_eq!(c.seek_relative(-1), Ok(()));
    assert_eq!(c.position(), 2);
    assert_eq!(c.read_byte(), Ok(3));
    assert_eq!(c.seek_relative(1), Ok(()));
    assert_eq!(c.position(), 4);
}

#[test]
fn seek_relative_refuses_leaving_the_buffer() {
    let mut c = ByteCursor::new(vec![1, 2, 3]);
    assert_eq!(c.seek_relative(-1), Err(PpmError::SeekOutOfBounds));
    assert_eq!(c.seek_relative(4), Err(PpmError::SeekOutOfBounds));
    assert_eq!(c.position(), 0);
    assert_eq!(c.seek_relative(i64::MAX), Err(PpmError::SeekOutOfBounds));
    assert_eq!(c.seek_relative(i64::MIN), Err(PpmError::SeekOutOfBounds));
    assert_eq!(c.seek_relative(3), Ok(()));
    assert_eq!(c.position(), 3);
}
