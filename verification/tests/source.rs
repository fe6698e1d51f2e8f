//! Byte sources.

use rdwarfs::Error;
use rdwarfs::format::source::{FileSource, ImageSource, SliceSource, WindowedSource};

#[test]
fn vec_source_reads_at_offset() {
    let data = b"0123456789".to_vec();
    let mut buf = [0u8; 4];
    data.read_exact_at(&mut buf, 3).unwrap();
    assert_eq!(&buf, b"3456");
    assert_eq!(ImageSource::len(&data), 10);
    assert_eq!(ImageSource::as_slice(&data).unwrap().len(), 10);
}

#[test]
fn vec_source_rejects_out_of_bounds() {
    let data = b"0123".to_vec();
    let mut buf = [0u8; 4];
    let err = data.read_exact_at(&mut buf, 1).unwrap_err();
    assert!(matches!(
        err,
        Error::SourceOutOfBounds {
            offset: 1,
            len: 4,
            source_len: 4
        }
    ));
}

#[test]
fn file_source_matches_vec_source() {
    let data: Vec<u8> = (0u8..=255).collect();
    let copy = data.clone();
    let file = FileSource::new(256, move |offset: u64, len: usize| {
        let start = offset as usize;
        Ok(copy[start..start + len].to_vec())
    });
    assert_eq!(file.len(), 256);
    assert!(file.as_slice().is_none());

    let mut from_file = [0u8; 16];
    let mut from_vec = [0u8; 16];
    file.read_exact_at(&mut from_file, 100).unwrap();
    data.read_exact_at(&mut from_vec, 100).unwrap();
    assert_eq!(from_file, from_vec);

    let mut overrun = [0u8; 8];
    assert!(file.read_exact_at(&mut overrun, 250).is_err());
}

#[test]
fn a_read_out_of_bounds_leaves_the_buffer_alone() {
    let data = b"0123".to_vec();
    let window = WindowedSource::new(data.clone(), 1, 2).unwrap();
    let file = FileSource::new(4, |_: u64, len: usize| Ok(vec![9u8; len]));
    let mut buf = [7u8; 4];
    assert!(data.read_exact_at(&mut buf, 1).is_err());
    assert!(SliceSource { bytes: &data }.read_exact_at(&mut buf, 1).is_err());
    assert!(window.read_exact_at(&mut buf, 0).is_err());
    assert!(file.read_exact_at(&mut buf, 1).is_err());
    assert_eq!(buf, [7u8; 4]);
}

#[test]
fn a_window_is_contiguous_when_its_source_is() {
    let data = b"0123456789".to_vec();
    let window = WindowedSource::new(SliceSource { bytes: &data }, 2, 5).unwrap();
    assert_eq!(window.as_slice(), Some(&b"23456"[..]));
    let inner = WindowedSource::new(window, 1, 3).unwrap();
    assert_eq!(inner.as_slice(), Some(&b"345"[..]));
    let file = FileSource::new(4, |_: u64, len: usize| Ok(vec![9u8; len]));
    let window = WindowedSource::new(file, 1, 2).unwrap();
    assert!(window.as_slice().is_none());
    assert!(matches!(
        WindowedSource::new(data, 8, 3),
        Err(Error::SourceOutOfBounds {
            offset: 8,
            len: 3,
            source_len: 10
        })
    ));
}
