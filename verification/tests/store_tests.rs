use memmap::MmapMut;
use rs_loged::log_entry::LogEntry;
use rs_loged::log_error::Error;
use rs_loged::log_file::{LogFile, LogFileHeader, DEFAULT_START_POS};
use rs_loged::log_level::LogLevel;

fn accepted_entry() -> LogEntry {
    let mut e = LogEntry::default();
    e.lvl = LogLevel::Warning;
    e.msg = "warned".to_owned();
    e
}

fn record_len() -> u64 {
    accepted_entry().as_vec_u8().unwrap().len() as u64 + 4
}

#[test]
fn test_from_map_defaults() {
    let m = MmapMut::map_anon(8192).unwrap();
    let lf = LogFile::from_map(m, 8192);
    let h = lf.header();
    assert_eq!(h.lvls, 15);
    assert_eq!(h.start_pos, DEFAULT_START_POS);
    assert_eq!(h.cur_pos, DEFAULT_START_POS);
    assert_eq!(h.max_size, 8192);
    assert_eq!(h.seam_pos, 0);
    assert_eq!(h.version, 1);
}

#[test]
fn test_append_advances_cursor() {
    let rec = record_len();
    let size = DEFAULT_START_POS + 4 * rec;
    let m = MmapMut::map_anon(size as usize).unwrap();
    let mut lf = LogFile::from_map(m, size);
    lf.add_entry(&accepted_entry()).unwrap();
    assert_eq!(lf.header().cur_pos, DEFAULT_START_POS + rec);
    assert_eq!(lf.header().seam_pos, 0);
    lf.add_entry(&accepted_entry()).unwrap();
    assert_eq!(lf.header().cur_pos, DEFAULT_START_POS + 2 * rec);
    assert_eq!(lf.header().seam_pos, 0);
}

#[test]
fn test_append_wraps_once_over_capacity() {
    let rec = record_len();
    let size = DEFAULT_START_POS + rec + rec / 2;
    let m = MmapMut::map_anon(size as usize).unwrap();
    let mut lf = LogFile::from_map(m, size);
    lf.add_entry(&accepted_entry()).unwrap();
    let cur_before_wrap = lf.header().cur_pos;
    assert_eq!(cur_before_wrap, DEFAULT_START_POS + rec);
    lf.add_entry(&accepted_entry()).unwrap();
    assert_eq!(lf.header().seam_pos, cur_before_wrap);
    assert_eq!(lf.header().cur_pos, DEFAULT_START_POS + rec);
}

#[test]
fn test_append_entry_too_large() {
    let size = DEFAULT_START_POS + 4;
    let m = MmapMut::map_anon(size as usize).unwrap();
    let mut lf = LogFile::from_map(m, size);
    let r = lf.add_entry(&accepted_entry());
    assert!(matches!(r, Err(Error::EntryTooLarge)));
    assert_eq!(lf.header().cur_pos, DEFAULT_START_POS);
    assert_eq!(lf.header().seam_pos, 0);
}

#[test]
fn test_append_audit_only_rejects() {
    let m = MmapMut::map_anon(8192).unwrap();
    let mut lf = LogFile::from_map(m, 8192);
    lf.set_policy(127, true);
    let e = accepted_entry();
    assert!(!e.iau);
    let r = lf.add_entry(&e);
    assert!(matches!(r, Err(Error::PolicyRejected)));
    assert_eq!(lf.header().cur_pos, DEFAULT_START_POS);
    assert_eq!(lf.header().seam_pos, 0);
}

#[test]
fn test_append_level_mask_rejects() {
    let m = MmapMut::map_anon(8192).unwrap();
    let mut lf = LogFile::from_map(m, 8192);
    let mut e = LogEntry::default();
    e.lvl = LogLevel::Info;
    let r = lf.add_entry(&e);
    assert!(matches!(r, Err(Error::PolicyRejected)));
    assert_eq!(lf.header().cur_pos, DEFAULT_START_POS);
}

#[test]
fn test_appended_record_reads_back() {
    let m = MmapMut::map_anon(16384).unwrap();
    let mut lf = LogFile::from_map(m, 16384);
    let e = accepted_entry();
    let enc = e.as_vec_u8().unwrap();
    lf.add_entry(&e).unwrap();
    let prefix = lf.read_bytes(DEFAULT_START_POS as usize, 4);
    let n = enc.len() as u32;
    assert_eq!(prefix, n.to_be_bytes().to_vec());
    let body = lf.read_bytes(DEFAULT_START_POS as usize + 4, enc.len());
    assert_eq!(body, enc);
    let e2 = LogEntry::from_vec_u8(&body).unwrap();
    assert_eq!(e, e2);
}

#[test]
fn test_save_header_writes_front() {
    let m = MmapMut::map_anon(8192).unwrap();
    let mut lf = LogFile::from_map(m, 8192);
    lf.save_header().unwrap();
    let mut expected: LogFileHeader = Default::default();
    expected.max_size = 8192;
    let enc = expected.as_vec_u8().unwrap();
    let back = lf.read_bytes(0, enc.len());
    assert_eq!(back, enc);
    let decoded = LogFileHeader::from_vec_u8(&back).unwrap();
    assert_eq!(decoded, expected);
}

#[test]
fn test_sync_and_close() {
    let m = MmapMut::map_anon(8192).unwrap();
    let mut lf = LogFile::from_map(m, 8192);
    lf.add_entry(&accepted_entry()).unwrap();
    lf.sync().unwrap();
    lf.close().unwrap();
}
