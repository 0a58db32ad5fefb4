use rs_loged::log_error::{DecodeError, Error};
use rs_loged::log_file::{LogFileHeader, DEFAULT_MAX_SIZE, DEFAULT_START_POS};

#[test]
fn test_as_vec_u8() {
    let h: LogFileHeader = Default::default();
    let b = h.as_vec_u8().unwrap();
    assert_eq!(
        b,
        vec![
            152, 15, 194, 205, 16, 0, 205, 16, 0, 206, 1, 0, 0, 0, 0, 1, 217, 37, 108, 111, 103,
            32, 102, 105, 108, 101, 32, 111, 102, 32, 103, 105, 116, 104, 117, 98, 46, 99, 111,
            109, 47, 103, 106, 118, 110, 113, 47, 114, 115, 45, 108, 111, 103, 101, 100
        ]
    );
}

#[test]
fn test_default_header_fields() {
    let h: LogFileHeader = Default::default();
    assert_eq!(h.lvls, 15);
    assert!(!h.only_audit);
    assert_eq!(h.start_pos, DEFAULT_START_POS);
    assert_eq!(h.cur_pos, DEFAULT_START_POS);
    assert_eq!(h.max_size, DEFAULT_MAX_SIZE);
    assert_eq!(h.seam_pos, 0);
    assert_eq!(h.version, 1);
}

#[test]
fn test_header_round_trip() {
    let h = LogFileHeader {
        lvls: 99,
        only_audit: true,
        start_pos: 8192,
        cur_pos: 123456,
        max_size: 1 << 40,
        seam_pos: 8200,
        version: 1,
        _helper_msg: "some marker text".to_owned(),
    };
    let bytes = h.as_vec_u8().unwrap();
    let h2 = LogFileHeader::from_vec_u8(&bytes).unwrap();
    assert_eq!(h, h2);
}

#[test]
fn test_header_round_trip_default() {
    let h: LogFileHeader = Default::default();
    let bytes = h.as_vec_u8().unwrap();
    let h2 = LogFileHeader::from_vec_u8(&bytes).unwrap();
    assert_eq!(h, h2);
}

#[test]
fn test_header_decode_version_mismatch() {
    let mut h: LogFileHeader = Default::default();
    h.version = 2;
    let bytes = h.as_vec_u8().unwrap();
    let r = LogFileHeader::from_vec_u8(&bytes);
    assert!(matches!(
        r,
        Err(Error::MsgPackDecode(DecodeError::VersionMismatch))
    ));
}

#[test]
fn test_header_decode_truncated() {
    let h: LogFileHeader = Default::default();
    let mut bytes = h.as_vec_u8().unwrap();
    bytes.truncate(10);
    let r = LogFileHeader::from_vec_u8(&bytes);
    assert!(matches!(r, Err(Error::MsgPackDecode(DecodeError::Malformed))));
}

#[test]
fn test_header_decode_garbage() {
    let bytes = vec![0u8, 1, 2, 3];
    let r = LogFileHeader::from_vec_u8(&bytes);
    assert!(matches!(r, Err(Error::MsgPackDecode(DecodeError::Malformed))));
}

#[test]
fn test_header_decode_rejects_bad_invariants() {
    let h = LogFileHeader {
        lvls: 1,
        only_audit: false,
        start_pos: 100,
        cur_pos: 50,
        max_size: 200,
        seam_pos: 0,
        version: 1,
        _helper_msg: "x".to_owned(),
    };
    let bytes = h.as_vec_u8().unwrap();
    let r = LogFileHeader::from_vec_u8(&bytes);
    assert!(matches!(r, Err(Error::MsgPackDecode(DecodeError::Malformed))));
}
