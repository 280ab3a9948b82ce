use fwcutter::circular_buffer::CircularBuffer;

#[test]
fn circular_buffer_empty() {
    assert_eq!(CircularBuffer::new(0).len(), 0);
}

#[test]
fn oneelement() {
    let mut b = CircularBuffer::new(1);
    b.push(b'a');
    assert_eq!(b.len(), 1);
    assert_eq!(b.index(0), b'a');
}

#[test]
fn twoelements() {
    let mut b = CircularBuffer::new(2);
    b.push(b'a');
    b.push(b'b');
    assert_eq!(b.len(), 2);
    assert_eq!(b.index(0), b'a');
    assert_eq!(b.index(1), b'b');
}

#[test]
fn twoelementsoverflow() {
    let mut b = CircularBuffer::new(2);
    b.push(b'a');
    b.push(b'b');
    b.push(b'c');
    assert_eq!(b.len(), 2);
    assert_eq!(b.index(0), b'b');
    assert_eq!(b.index(1), b'c');
}

#[test]
fn twoelementscompleteoverflow() {
    let mut b = CircularBuffer::new(2);
    b.push(b'a');
    b.push(b'b');
    b.push(b'c');
    b.push(b'd');
    b.push(b'e');
    assert_eq!(b.len(), 2);
    assert_eq!(b.index(0), b'd');
    assert_eq!(b.index(1), b'e');
}

#[test]
fn sliceone() {
    let mut b = CircularBuffer::new(2);
    b.push(b'a');
    b.push(b'b');
    assert_eq!(b.len(), 2);
    assert_eq!(b.window(0, 2), &b"ab"[..]);
}

#[test]
fn sliceoverflow() {
    let mut b = CircularBuffer::new(2);
    b.push(b'a');
    b.push(b'b');
    b.push(b'c');
    assert_eq!(b.len(), 2);
    assert_eq!(b.window(0, 2), &b"bc"[..]);
}

#[test]
fn slicefulloverflow() {
    let mut b = CircularBuffer::new(2);
    b.push(b'a');
    b.push(b'b');
    b.push(b'c');
    b.push(b'd');
    b.push(b'e');
    assert_eq!(b.len(), 2);
    assert_eq!(b.window(0, 2), &b"de"[..]);
}

// Context capacity 2: after appending a, b, c the window reads "bc"; a
// fourth append makes it read "cd".
#[test]
fn window_is_last_two_appends() {
    let mut b = CircularBuffer::new(2);
    b.push(b'a');
    b.push(b'b');
    b.push(b'c');
    assert_eq!(b.window(0, 2), &b"bc"[..]);
    b.push(b'd');
    assert_eq!(b.window(0, 2), &b"cd"[..]);
}

// Before enough appends have happened, the unwritten remainder of the
// window reads as zero; the capacity is reported throughout.
#[test]
fn window_zero_filled_before_full() {
    let mut b = CircularBuffer::new(4);
    assert_eq!(b.len(), 4);
    assert_eq!(b.window(0, 4), &[0u8, 0, 0, 0][..]);
    b.push(7);
    assert_eq!(b.len(), 4);
    assert_eq!(b.window(0, 4), &[0u8, 0, 0, 7][..]);
    assert!(!b.is_empty());
    assert!(CircularBuffer::new(0).is_empty());
}

// `set` writes one logical slot without advancing the cursor: index 0 is
// the oldest retained byte, positive indices count back from the youngest.
#[test]
fn set_addresses_window_slots() {
    let mut b = CircularBuffer::new(3);
    b.push(b'a');
    b.push(b'b');
    b.push(b'c');
    assert_eq!(b.set(0, b'X'), Some(b'X'));
    assert_eq!(b.window(0, 3), &b"Xbc"[..]);
    assert_eq!(b.set(1, b'Y'), Some(b'Y'));
    assert_eq!(b.window(0, 3), &b"XbY"[..]);
    let mut e = CircularBuffer::new(0);
    assert_eq!(e.set(0, b'Z'), None);
}
