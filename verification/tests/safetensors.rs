use gpt2::safetensors::{header_range, SafeTensors, SafeTensorsError, TensorInfo};

fn info(dtype: &str, shape: &[usize], start: usize, end: usize) -> TensorInfo {
    TensorInfo { dtype: dtype.to_string(), shape: shape.to_vec(), data_offsets: [start, end] }
}

/// A file with a 4-byte header and 24 bytes of data.
fn file() -> Vec<u8> {
    let mut f = vec![4, 0, 0, 0, 0, 0, 0, 0];
    f.extend_from_slice(b"{  }");
    for i in 0..24u8 {
        f.push(i);
    }
    f
}

#[test]
fn header_length_is_little_endian() {
    assert_eq!(header_range(&file()).unwrap(), 12);
    let mut f = vec![0x02, 0x01, 0, 0, 0, 0, 0, 0];
    f.resize(8 + 0x102, 0);
    assert_eq!(header_range(&f).unwrap(), 8 + 0x102);
}

#[test]
fn short_files_are_refused() {
    assert!(matches!(header_range(&[1, 2, 3]), Err(SafeTensorsError::TooShort)));
    assert!(matches!(
        header_range(&[9, 0, 0, 0, 0, 0, 0, 0, 1]),
        Err(SafeTensorsError::HeaderOutOfRange)
    ));
    assert!(matches!(
        header_range(&[0, 0, 0, 0, 0, 0, 0, 0x80]),
        Err(SafeTensorsError::HeaderOutOfRange)
    ));
}

#[test]
fn tensors_are_cut_from_the_data() {
    let entries = vec![
        ("a".to_string(), Ok(info("F32", &[2, 2], 0, 16))),
        ("__metadata__".to_string(), Err("not a tensor".to_string())),
        ("b".to_string(), Ok(info("F32", &[2], 16, 24))),
    ];
    let st = SafeTensors::from_header(file(), entries).unwrap();
    let a = st.tensor("a").unwrap();
    assert_eq!(a.shape, vec![2, 2]);
    assert_eq!(a.bytes, (0..16u8).collect::<Vec<u8>>());
    let b = st.tensor("b").unwrap();
    assert_eq!(b.shape, vec![2]);
    assert_eq!(b.bytes, (16..24u8).collect::<Vec<u8>>());
    assert!(matches!(st.tensor("c"), Err(SafeTensorsError::NotFound(n)) if n == "c"));
}

#[test]
fn shapes_are_checked() {
    let entries = vec![("a".to_string(), Ok(info("F32", &[2, 2], 0, 16)))];
    let st = SafeTensors::from_header(file(), entries).unwrap();
    assert_eq!(st.tensor_with_shape("a", &[2, 2]).unwrap().bytes.len(), 16);
    match st.tensor_with_shape("a", &[4]) {
        Err(SafeTensorsError::WrongShape(n, want, got)) => {
            assert_eq!(n, "a");
            assert_eq!(want, vec![4]);
            assert_eq!(got, vec![2, 2]);
        },
        _ => panic!("wrong shape accepted"),
    }
}

#[test]
fn bad_entries_are_refused() {
    let wrong_type = vec![("a".to_string(), Ok(info("F16", &[2], 0, 8)))];
    assert!(matches!(
        SafeTensors::from_header(file(), wrong_type),
        Err(SafeTensorsError::BadTensor(n)) if n == "a"
    ));
    let wrong_size = vec![("a".to_string(), Ok(info("F32", &[3], 0, 8)))];
    assert!(matches!(
        SafeTensors::from_header(file(), wrong_size),
        Err(SafeTensorsError::BadTensor(_))
    ));
    let backwards = vec![("a".to_string(), Ok(info("F32", &[0], 8, 0)))];
    assert!(matches!(
        SafeTensors::from_header(file(), backwards),
        Err(SafeTensorsError::BadTensor(_))
    ));
    let huge = vec![("a".to_string(), Ok(info("F32", &[usize::MAX, 2], 0, 8)))];
    assert!(matches!(
        SafeTensors::from_header(file(), huge),
        Err(SafeTensorsError::BadTensor(_))
    ));
    let unparsed = vec![("a".to_string(), Err("missing field".to_string()))];
    assert!(matches!(
        SafeTensors::from_header(file(), unparsed),
        Err(SafeTensorsError::BadHeader(m)) if m == "missing field"
    ));
}

#[test]
fn empty_tensors_are_fine() {
    let entries = vec![("z".to_string(), Ok(info("F32", &[0, 5], 4, 4)))];
    let st = SafeTensors::from_header(file(), entries).unwrap();
    let z = st.tensor("z").unwrap();
    assert!(z.bytes.is_empty());
}

#[test]
fn data_past_the_end_is_refused() {
    let entries = vec![("a".to_string(), Ok(info("F32", &[8], 0, 32)))];
    let st = SafeTensors::from_header(file(), entries).unwrap();
    assert!(matches!(st.tensor("a"), Err(SafeTensorsError::DataOutOfRange(n)) if n == "a"));
}

#[test]
fn later_entries_replace_earlier_ones() {
    let entries = vec![
        ("a".to_string(), Ok(info("F32", &[2], 0, 8))),
        ("a".to_string(), Ok(info("F32", &[1], 8, 12))),
    ];
    let st = SafeTensors::from_header(file(), entries).unwrap();
    let a = st.tensor("a").unwrap();
    assert_eq!(a.shape, vec![1]);
    assert_eq!(a.bytes, vec![8, 9, 10, 11]);
}
