use fwcutter::mpfs::{FileHeader, FwError, Header, read_mpfs};
use fwcutter::scan::{SignalTracker, format_size};

fn sample_image() -> Vec<u8> {
    let mut b: Vec<u8> = Vec::new();
    b.extend_from_slice(b"MPFS"); // signature
    b.push(2); // major
    b.push(1); // minor
    b.extend_from_slice(&[0x00, 0x02]); // two entries, big-endian
    b.extend_from_slice(&[0xAA, 0xBB, 0xCC, 0xDD]); // entry table, 2 * entries bytes
    b.extend_from_slice(b"DCBA"); // filename, stored byte-reversed
    b.extend_from_slice(&[0x00, 0x00, 0x01, 0x00]); // start
    b.extend_from_slice(&[0x00, 0x01, 0x02, 0x03]); // size
    b.extend_from_slice(&[0x5E, 0x0B, 0xE1, 0x00]); // timestamp seconds
    b.extend_from_slice(&[0x00, 0x00, 0x03, 0xE8]); // sub-second ticks
    b.extend_from_slice(&[0x80, 0x01]); // flags
    b
}

#[test]
fn header_decodes_fixed_fields() {
    let b = sample_image();
    let h = Header::new(&b).unwrap();
    assert_eq!(h.sign, *b"MPFS");
    assert_eq!(h.ver.major, 2);
    assert_eq!(h.ver.minor, 1);
    assert_eq!(h.entries, 2);
}

#[test]
fn file_header_decodes_reversed_name_and_big_endian_fields() {
    let b = sample_image();
    let f = FileHeader::new(&b, 12).unwrap();
    assert_eq!(f.filename, *b"ABCD");
    assert_eq!(f.start, 0x100);
    assert_eq!(f.size, 0x00010203);
    assert_eq!(f.timestamp, 0x5E0BE100);
    assert_eq!(f.microtime, 1000);
    assert_eq!(f.flags, 0x8001);
}

#[test]
fn read_mpfs_walks_the_entry_table() {
    let b = sample_image();
    let (h, f) = read_mpfs(&b).unwrap();
    assert_eq!(h.entries, 2);
    assert_eq!(f.filename, *b"ABCD");
    assert_eq!(f.size, 0x00010203);
}

#[test]
fn truncated_headers_are_malformed() {
    assert_eq!(Header::new(&[1, 2, 3]).unwrap_err(), FwError::MalformedHeader);
    let b = sample_image();
    assert_eq!(FileHeader::new(&b, 13).unwrap_err(), FwError::MalformedHeader);
    // a plausible header whose entry table runs past the bytes
    assert_eq!(read_mpfs(&b[..20]).unwrap_err(), FwError::MalformedHeader);
}

#[test]
fn format_size_walks_the_unit_ladder() {
    assert_eq!(format_size(0), "0 ");
    assert_eq!(format_size(500), "500 ");
    assert_eq!(format_size(1023), "1023 ");
    assert_eq!(format_size(1024), "1k");
    assert_eq!(format_size(2048), "2k");
    assert_eq!(format_size(3 * 1024 * 1024 + 5), "3M");
    assert_eq!(format_size(5 * 1024 * 1024 * 1024), "5G");
    assert_eq!(format_size(7 * 1024 * 1024 * 1024 * 1024), "7T");
    assert_eq!(format_size(-5), "-5 ");
    assert_eq!(format_size(1isize << 50), "VALUE TOO BIG");
}

#[test]
fn tracker_emits_once_per_distinct_boundary() {
    let mut t = SignalTracker::new(2);
    // matcher 0 signals at offset 10 with total 4: boundary 6, first line
    assert_eq!(t.note(0, 10, 4), Some((10, true)));
    // the run keeps growing: same boundary, nothing owed
    assert_eq!(t.note(0, 12, 6), None);
    // matcher 1 crosses its own first boundary at offset 20: the elapsed
    // count is its own, unaffected by matcher 0's line
    assert_eq!(t.note(1, 20, 3), Some((20, true)));
    // matcher 0 again, a fresh boundary: elapsed since matcher 0's own
    // previous line at offset 10
    assert_eq!(t.note(0, 33, 4), Some((23, false)));
}
