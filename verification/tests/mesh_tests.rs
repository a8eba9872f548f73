use geo::mesh::Error;

#[test]
fn errors_convert_from_std() {
    let io = std::io::Error::new(std::io::ErrorKind::Other, "boom");
    match Error::from(io) {
        Error::IoError(e) => assert_eq!(e.kind(), std::io::ErrorKind::Other),
        other => panic!("{:?}", other),
    }
    let pf = "x".parse::<f64>().unwrap_err();
    assert!(matches!(Error::from(pf), Error::InvalidNumber));
    let pi = "x".parse::<isize>().unwrap_err();
    assert!(matches!(Error::from(pi), Error::InvalidNumber));
}

#[test]
fn byteorder_reads_little_endian() {
    assert_eq!(geo::bytes::u32_at(&[0, 1, 2, 3, 4], 1), 0x0403_0201);
    assert_eq!(geo::bytes::u16_at(&[9, 0x34, 0x12], 1), 0x1234);
}
