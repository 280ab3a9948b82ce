use fwcutter::pattern::Pattern;

#[test]
fn pattern_empty() {
    let mut p = Pattern::new(&[]);
    assert_eq!(p.push(0), None);
}

#[test]
fn oneinone() {
    let mut p = Pattern::new(b"a");
    assert_eq!(p.push(b'0'), None);
    assert_eq!(p.push(b'a'), Some(1));
    assert_eq!(p.get(), Vec::<u8>::new());
}

#[test]
fn oneintwo() {
    let mut p = Pattern::new(b"b");
    assert_eq!(p.push(0), None);
    assert_eq!(p.push(b'a'), None);
    assert_eq!(p.push(b'b'), Some(1));
    assert_eq!(p.get(), Vec::<u8>::new());
}

#[test]
fn many() {
    let mut p = Pattern::new(b"a");
    assert_eq!(p.push(b'0'), None);
    assert_eq!(p.push(b'a'), Some(1));
    assert_eq!(p.push(b'a'), Some(1));
    assert_eq!(p.get(), Vec::<u8>::new());
}

#[test]
fn manytwo() {
    let mut p = Pattern::new(b"ab");
    assert_eq!(p.push(b'0'), None);
    assert_eq!(p.push(b'a'), None);
    assert_eq!(p.push(b'b'), Some(2));
    assert_eq!(p.push(b'a'), None);
    assert_eq!(p.push(b'b'), Some(2));
    assert_eq!(p.get(), Vec::<u8>::new());
}

#[test]
fn twoinfour() {
    let mut p = Pattern::new(b"bc");
    assert_eq!(p.push(0), None);
    assert_eq!(p.push(b'a'), None);
    assert_eq!(p.push(b'b'), None);
    assert_eq!(p.push(b'c'), Some(2));
    assert_eq!(p.get(), Vec::<u8>::new());
}

#[test]
fn threeinsix() {
    let mut p = Pattern::new(b"cde");
    assert_eq!(p.push(b'0'), None);
    assert_eq!(p.push(b'a'), None);
    assert_eq!(p.push(b'b'), None);
    assert_eq!(p.push(b'c'), None);
    assert_eq!(p.push(b'd'), None);
    assert_eq!(p.push(b'e'), Some(3));
    assert_eq!(p.get(), Vec::<u8>::new());
}

#[test]
fn empty_lookback() {
    let mut p = Pattern::new(&[]).lookback(0);
    assert_eq!(p.push(0), None)
}

#[test]
fn oneinone_lookback() {
    let mut p = Pattern::new(b"a").lookback(1);
    assert_eq!(p.push(b'0'), None);
    assert_eq!(p.push(b'a'), Some(1));
    println!("DEBUG {:#?}", p);
    assert_eq!(p.get(), b"0".to_vec());
}

#[test]
fn oneintwo_lookback() {
    let mut p = Pattern::new(b"b").lookback(2);
    assert_eq!(p.push(0), None);
    assert_eq!(p.push(b'a'), None);
    assert_eq!(p.push(b'b'), Some(1));
}

#[test]
fn twoinfour_lookback() {
    let mut p = Pattern::new(b"bc").lookback(2);
    assert_eq!(p.push(0), None);
    assert_eq!(p.push(b'a'), None);
    assert_eq!(p.push(b'b'), None);
    assert_eq!(p.push(b'c'), Some(2));
    assert_eq!(p.push(b'd'), None);
}

#[test]
fn empty_repeats() {
    let mut p = Pattern::new(&[]).repeats(0);
    assert_eq!(p.push(0), None);
}

#[test]
fn oneinone_repeats() {
    let mut p = Pattern::new(b"a").repeats(2);
    assert_eq!(p.push(b'0'), None);
    assert_eq!(p.push(b'a'), None);
    assert_eq!(p.push(b'a'), Some(2));
    assert_eq!(p.get(), Vec::<u8>::new());
}

#[test]
fn oneintwo_repeats() {
    let mut p = Pattern::new(b"b").repeats(2);
    assert_eq!(p.push(b'0'), None);
    assert_eq!(p.push(b'a'), None);
    assert_eq!(p.push(b'b'), None);
    assert_eq!(p.push(b'b'), Some(2));
    assert_eq!(p.get(), Vec::<u8>::new());
}

#[test]
fn twoinfour_repeats() {
    let mut p = Pattern::new(b"bc").repeats(2);
    assert_eq!(p.push(0), None);
    assert_eq!(p.push(b'a'), None);
    assert_eq!(p.push(b'b'), None);
    assert_eq!(p.push(b'c'), None);
    assert_eq!(p.push(b'b'), None);
    assert_eq!(p.push(b'c'), Some(4));
    assert_eq!(p.get(), Vec::<u8>::new());
}

#[test]
fn twoinfour_repeats_lookback() {
    let mut p = Pattern::new(b"bc").repeats(2).lookback(2);
    assert_eq!(p.push(b'0'), None);
    assert_eq!(p.push(b'a'), None);
    assert_eq!(p.push(b'b'), None);
    assert_eq!(p.push(b'c'), None);
    assert_eq!(p.push(b'b'), None);
    assert_eq!(p.push(b'c'), Some(4));
    assert_eq!(p.get(), b"0a".to_vec());
}

#[test]
fn twoinfour_repeats_lookback_overflow() {
    let mut p = Pattern::new(b"cd").repeats(2).lookback(2);
    assert_eq!(p.push(b'0'), None);
    assert_eq!(p.push(b'a'), None);
    assert_eq!(p.push(b'b'), None);
    assert_eq!(p.push(b'c'), None);
    assert_eq!(p.push(b'd'), None);
    assert_eq!(p.push(b'c'), None);
    assert_eq!(p.push(b'd'), Some(4));
    assert_eq!(p.get(), b"ab".to_vec());
}

#[test]
fn many_almost_many() {
    let mut p = Pattern::new(b"cd").repeats(2).lookback(2);
    let res = b"bcdecdcdf"
        .iter()
        .map(|c| p.push(*c))
        .collect::<Vec<Option<isize>>>();
    assert_eq!(p.get(), b"df".to_vec());

    assert_eq!(
        res,
        //b     c     d     e     c     d     c     d     f
        [None, None, None, None, None, None, None, Some(4), None]
    );
}

#[test]
fn many_many() {
    let mut p = Pattern::new(b"cd").repeats(2).lookback(2);
    let res = b"abccdcdefghcdcdcd"
        .iter()
        .map(|c| p.push(*c))
        .collect::<Vec<Option<isize>>>();

    assert_eq!(p.get(), b"gh".to_vec());
    assert_eq!(
        res,
        [
            None,
            None,
            None,
            None,
            None,
            None,
            Some(4),
            None,
            None,
            None,
            None,
            None,
            None,
            None,
            Some(4),
            None,
            Some(6)
        ]
    );
}

#[test]
fn more_than_you_asked() {
    let mut p = Pattern::new(b"01").repeats(2).lookback(2);
    let res = b"abc0101010101010101010"
        .iter()
        .map(|c| p.push(*c))
        .collect::<Vec<Option<isize>>>();
    assert_eq!(p.get(), b"c0".to_vec());
    assert_eq!(
        res,
        [
            None,
            None,
            None,
            None,
            None,
            None,
            Some(4),
            None,
            Some(6),
            None,
            Some(8),
            None,
            Some(10),
            None,
            Some(12),
            None,
            Some(14),
            None,
            Some(16),
            None,
            Some(18),
            None
        ]
    );
}

#[test]
fn many_many_prefix() {
    let mut p = Pattern::new(b"cd").repeats(2).lookback(2);
    let res = b"abccdcd"
        .iter()
        .map(|c| p.push(*c))
        .collect::<Vec<Option<isize>>>();

    assert_eq!(p.get(), b"bc".to_vec());
    assert_eq!(res, [None, None, None, None, None, None, Some(4)]);
}

#[test]
fn many_in_many() {
    let mut p = Pattern::new(b"cd").repeats(2).lookback(2);
    let res = b"hello darkness my old friend cdcdcdcdcdcdcdcd, I've come to talk to you again ! cdcdcdcdcdcdcd".iter().map(|c| p.push(*c)).collect::<Vec<Option<isize>>>();
    assert_eq!(
        res,
        [
            None,
            None,
            None,
            None,
            None,
            None,
            None,
            None,
            None,
            None,
            None,
            None,
            None,
            None,
            None,
            None,
            None,
            None,
            None,
            None,
            None,
            None,
            None,
            None,
            None,
            None,
            None,
            None,
            None,
            None,
            None,
            None,
            Some(4),
            None,
            Some(6),
            None,
            Some(8),
            None,
            Some(10),
            None,
            Some(12),
            None,
            Some(14),
            None,
            Some(16),
            None,
            None,
            None,
            None,
            None,
            None,
            None,
            None,
            None,
            None,
            None,
            None,
            None,
            None,
            None,
            None,
            None,
            None,
            None,
            None,
            None,
            None,
            None,
            None,
            None,
            None,
            None,
            None,
            None,
            None,
            None,
            None,
            None,
            None,
            None,
            None,
            None,
            None,
            Some(4),
            None,
            Some(6),
            None,
            Some(8),
            None,
            Some(10),
            None,
            Some(12),
            None,
            Some(14)
        ]
    )
}

// A matcher without a threshold reports every single occurrence with the
// pattern's length; the context window afterwards holds exactly the bytes
// that were not absorbed into any match.
#[test]
fn oneshot_occurrences_and_window() {
    let mut p = Pattern::new(b"cd").lookback(4);
    let res = b"acdxcd"
        .iter()
        .map(|c| p.push(*c))
        .collect::<Vec<Option<isize>>>();
    assert_eq!(res, [None, None, Some(2), None, None, Some(2)]);
    assert_eq!(p.get(), b"\0\0ax".to_vec());
}

// The non-flushing peek shows the window as it stands; materialising after
// an interrupted partial match flushes that partial attempt first.
#[test]
fn peek_matches_get_when_no_partial() {
    let mut p = Pattern::new(b"ab").lookback(3);
    p.push(b'x');
    p.push(b'y');
    assert_eq!(p.peek(), b"\0xy".to_vec());
    assert_eq!(p.get(), b"\0xy".to_vec());
}
