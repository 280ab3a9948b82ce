use fwcutter::carve::{CarveStep, Carver, get_filename};
use fwcutter::pattern::Pattern;

// One group of a carvable image: the payload, one separator byte, the zero
// byte that recovery looks for, the name of the *next* file, and the marker
// run that confirms the boundary.
fn group(image: &mut Vec<u8>, payload: &[u8], next_name: &[u8], run: usize) {
    image.extend_from_slice(payload);
    image.push(b'X');
    image.push(0);
    image.extend_from_slice(next_name);
    image.extend_from_slice(&vec![0u8; run]);
}

// Carving round-trip: an image of repeated (payload, zero-run, name,
// separator) groups yields one output per group, with byte-identical
// payload and the exact recovered name, including a final group that ends
// at end-of-input with no trailing marker.
#[test]
fn carving_round_trip() {
    let p1 = [1u8, 2, 3];
    let p2 = [4u8, 5];
    let p3 = [6u8, 7, 8, 9];
    let mut image: Vec<u8> = Vec::new();
    image.push(0);
    image.extend_from_slice(b"aa");
    image.extend_from_slice(&[0u8; 3]);
    group(&mut image, &p1, b"bb", 3);
    group(&mut image, &p2, b"cc", 3);
    image.extend_from_slice(&p3);

    let mut carver = Carver::new(b"\0", 8, 3);
    let mut files: Vec<(Vec<u8>, Vec<u8>)> = Vec::new();
    let mut open: Option<Vec<u8>> = None;
    for d in image.iter() {
        match carver.step(*d) {
            CarveStep::Quiet => {}
            CarveStep::NameNotFound { .. } => panic!("every boundary has a name"),
            CarveStep::NameRejected { .. } => panic!("every name is path text"),
            CarveStep::Malformed { .. } => panic!("the image is well formed"),
            CarveStep::NewFile { name, close } => {
                if let Some(content) = close {
                    files.push((open.take().unwrap(), content));
                }
                open = Some(name);
            }
        }
    }
    if let Some(content) = carver.finish() {
        files.push((open.take().unwrap(), content));
    }
    assert_eq!(
        files,
        vec![
            (b"aa".to_vec(), p1.to_vec()),
            (b"bb".to_vec(), p2.to_vec()),
            (b"cc".to_vec(), p3.to_vec()),
        ]
    );
}

// Name-recovery failure: a marker run not preceded by any zero byte within
// the context window opens no file and does not crash; a later boundary
// with a recoverable name still carves correctly.
#[test]
fn name_recovery_failure_is_lossy_not_fatal() {
    let mut image: Vec<u8> = Vec::new();
    image.extend_from_slice(b"qrstu"); // longer than the window, zero-free
    image.extend_from_slice(&[0u8; 3]); // boundary without a name
    image.push(b'X');
    image.push(0);
    image.extend_from_slice(b"bb");
    image.extend_from_slice(&[0u8; 3]);
    image.extend_from_slice(&[4u8, 5]);

    let mut carver = Carver::new(b"\0", 4, 3);
    let mut events: Vec<String> = Vec::new();
    for d in image.iter() {
        match carver.step(*d) {
            CarveStep::Quiet => {}
            CarveStep::NameNotFound { boundary } => {
                events.push(format!("lost@{}", boundary));
            }
            CarveStep::NameRejected { .. } => panic!("every recovered name is path text"),
            CarveStep::Malformed { .. } => panic!("no open file can be malformed here"),
            CarveStep::NewFile { name, close } => {
                assert!(close.is_none());
                events.push(format!("open:{}", String::from_utf8(name).unwrap()));
            }
        }
    }
    assert_eq!(carver.finish(), Some(vec![4u8, 5]));
    assert_eq!(events, vec!["lost@5".to_string(), "open:bb".to_string()]);
}

// The matcher may re-signal on every repeat past the threshold; only the
// first crossing of each distinct boundary acts.
#[test]
fn repeated_signals_same_boundary_ignored() {
    let mut image: Vec<u8> = Vec::new();
    image.push(0);
    image.extend_from_slice(b"nn");
    image.extend_from_slice(&[0u8; 6]); // twice the threshold: extra zeros re-signal
    image.extend_from_slice(&[9u8, 9]);

    let mut carver = Carver::new(b"\0", 8, 3);
    let mut opened: usize = 0;
    for d in image.iter() {
        match carver.step(*d) {
            CarveStep::NewFile { name, close } => {
                assert_eq!(name, b"nn".to_vec());
                assert!(close.is_none());
                opened += 1;
            }
            CarveStep::Quiet => {}
            _ => panic!("unexpected step"),
        }
    }
    assert_eq!(opened, 1);
    assert_eq!(carver.finish(), Some(vec![9u8, 9]));
}

// A boundary whose accumulated bytes cannot contain the implied marker and
// name trailer yields a Malformed step instead of a write, and scanning
// survives it.
#[test]
fn malformed_boundary_is_survivable() {
    // the second boundary follows the first after a single payload byte:
    // far too little for run, name and separator
    let image = b"\0a\0\0b\0\0";
    let mut carver = Carver::new(b"\0", 8, 2);
    let mut events: Vec<String> = Vec::new();
    for d in image.iter() {
        match carver.step(*d) {
            CarveStep::Quiet => {}
            CarveStep::NameNotFound { .. } => panic!("both boundaries carry a name"),
            CarveStep::NameRejected { .. } => panic!("both names are path text"),
            CarveStep::Malformed { name } => {
                events.push(format!("malformed:{}", String::from_utf8(name).unwrap()));
            }
            CarveStep::NewFile { name, close } => {
                assert!(close.is_none());
                events.push(format!("open:{}", String::from_utf8(name).unwrap()));
            }
        }
    }
    assert_eq!(
        events,
        vec!["open:a".to_string(), "malformed:b".to_string()]
    );
}

// Recovered bytes that are not printable ASCII are rejected as a path
// segment: the boundary opens no file, is recorded once, and scanning goes
// on; a later boundary with a clean name still carves.
#[test]
fn non_text_name_is_rejected() {
    let mut image: Vec<u8> = Vec::new();
    image.push(0);
    image.extend_from_slice(&[0x01, b'q']); // a control byte in the name
    image.extend_from_slice(&[0u8; 3]);
    image.push(b'X');
    image.push(0);
    image.extend_from_slice(b"ok");
    image.extend_from_slice(&[0u8; 3]);
    image.extend_from_slice(&[7u8, 8]);

    let mut carver = Carver::new(b"\0", 8, 3);
    let mut events: Vec<String> = Vec::new();
    for d in image.iter() {
        match carver.step(*d) {
            CarveStep::Quiet => {}
            CarveStep::NameNotFound { .. } => panic!("both boundaries recover bytes"),
            CarveStep::Malformed { .. } => panic!("no open file can be malformed here"),
            CarveStep::NameRejected { name } => {
                assert_eq!(name, vec![0x01, b'q']);
                events.push("rejected".to_string());
            }
            CarveStep::NewFile { name, close } => {
                assert!(close.is_none());
                events.push(format!("open:{}", String::from_utf8(name).unwrap()));
            }
        }
    }
    assert_eq!(carver.finish(), Some(vec![7u8, 8]));
    assert_eq!(events, vec!["rejected".to_string(), "open:ok".to_string()]);
}

// Recovery scans backward to the zero byte nearest the end and normalises
// backslashes to forward slashes.
#[test]
fn filename_recovery_and_slash_normalisation() {
    let mut p = Pattern::new(b"zz").lookback(6);
    for d in b"ab\0cd" {
        p.push(*d);
    }
    assert_eq!(get_filename(&p), Some(b"cd".to_vec()));

    let mut q = Pattern::new(b"zz").lookback(5);
    for d in &[0u8, b'x', b'\\', b'y'] {
        q.push(*d);
    }
    assert_eq!(get_filename(&q), Some(b"x/y".to_vec()));

    // no zero byte before the tail: recovery fails
    let mut r = Pattern::new(b"zz").lookback(3);
    for d in b"abcde" {
        r.push(*d);
    }
    assert_eq!(get_filename(&r), None);
}
