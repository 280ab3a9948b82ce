//! Bookkeeping of the diagnostic signature scanner.
//!
//! The scanner drives several independently configured matchers over one
//! byte stream and prints a line for each signal.  The two pieces of logic
//! behind those lines live here, verified: [`format_size`], which scales a
//! byte count through the unit ladder by repeated division, and
//! [`SignalTracker`], which decides for every signal whether it crosses a
//! new boundary and how many bytes have elapsed since that matcher's own
//! previous line.

use vstd::prelude::*;
use vstd::string::StringExecFns;

verus! {

/// The decimal digit `d` as a character.
pub open spec fn dec_digit(d: int) -> char {
    if d == 0 {
        '0'
    } else if d == 1 {
        '1'
    } else if d == 2 {
        '2'
    } else if d == 3 {
        '3'
    } else if d == 4 {
        '4'
    } else if d == 5 {
        '5'
    } else if d == 6 {
        '6'
    } else if d == 7 {
        '7'
    } else if d == 8 {
        '8'
    } else {
        '9'
    }
}

/// The decimal digits of a non-negative integer, most significant first.
pub open spec fn dec_str_nat(n: int) -> Seq<char>
    decreases n,
{
    if n < 10 {
        seq![dec_digit(n)]
    } else {
        dec_str_nat(n / 10).push(dec_digit(n % 10))
    }
}

/// The decimal rendering of an integer, with a leading minus sign when
/// negative.
pub open spec fn dec_str(v: int) -> Seq<char> {
    if v < 0 {
        seq!['-'] + dec_str_nat(-v)
    } else {
        dec_str_nat(v)
    }
}

/// The unit suffix after `step` divisions by 1024: a space for plain bytes,
/// then the ladder k, M, G, T.
pub open spec fn unit_chars(step: int) -> Seq<char> {
    if step == 0 {
        seq![' ']
    } else if step == 1 {
        seq!['k']
    } else if step == 2 {
        seq!['M']
    } else if step == 3 {
        seq!['G']
    } else {
        seq!['T']
    }
}

/// A count scaled through the unit ladder: divide by 1024 while the
/// quotient stays positive and a unit is left, then render the truncated
/// count with the unit reached; a count that survives all five units is out
/// of range.
pub open spec fn scaled(c: int, step: int) -> Seq<char>
    decreases 5 - step,
{
    if step >= 5 {
        "VALUE TOO BIG"@
    } else if c / 1024 > 0 {
        scaled(c / 1024, step + 1)
    } else {
        dec_str(c) + unit_chars(step)
    }
}

fn digit_str(d: u8) -> (r: &'static str)
    requires
        d < 10,
    ensures
        r@ == seq![dec_digit(d as int)],
{
    proof {
        reveal_strlit("0");
        reveal_strlit("1");
        reveal_strlit("2");
        reveal_strlit("3");
        reveal_strlit("4");
        reveal_strlit("5");
        reveal_strlit("6");
        reveal_strlit("7");
        reveal_strlit("8");
        reveal_strlit("9");
    }
    match d {
        0 => "0",
        1 => "1",
        2 => "2",
        3 => "3",
        4 => "4",
        5 => "5",
        6 => "6",
        7 => "7",
        8 => "8",
        _ => "9",
    }
}

fn push_digits(s: &mut String, n: u64)
    ensures
        final(s)@ == old(s)@ + dec_str_nat(n as int),
    decreases n,
{
    if n < 10 {
        s.append(digit_str(n as u8));
    } else {
        push_digits(s, n / 10);
        s.append(digit_str((n % 10) as u8));
        proof {
            assert(old(s)@ + dec_str_nat(n as int) =~= (old(s)@ + dec_str_nat(n as int / 10)).push(
                dec_digit(n as int % 10),
            ));
        }
    }
}

/// The decimal rendering of `v`, sign included.
fn dec_string(v: isize) -> (r: String)
    ensures
        r@ == dec_str(v as int),
{
    let mut s = String::new();
    if v >= 0 {
        push_digits(&mut s, v as u64);
        proof {
            assert(s@ =~= dec_str(v as int));
        }
        s
    } else {
        proof {
            reveal_strlit("-");
        }
        s.append("-");
        let mag: u64 = (-(v as i128)) as u64;
        push_digits(&mut s, mag);
        proof {
            assert(s@ =~= dec_str(v as int));
        }
        s
    }
}

fn unit_str(step: usize) -> (r: &'static str)
    requires
        step < 5,
    ensures
        r@ == unit_chars(step as int),
{
    proof {
        reveal_strlit(" ");
        reveal_strlit("k");
        reveal_strlit("M");
        reveal_strlit("G");
        reveal_strlit("T");
    }
    match step {
        0 => " ",
        1 => "k",
        2 => "M",
        3 => "G",
        _ => "T",
    }
}

/// Scales a byte count to a human-readable magnitude: the count is divided
/// by 1024 while the quotient stays positive, walking the unit ladder
/// space, k, M, G, T, and the truncated remainder is rendered in front of
/// the unit reached.  A count at or above 1024 to the fifth is reported as
/// out of range.
pub fn format_size(i: isize) -> (r: String)
    ensures
        r@ == scaled(i as int, 0),
{
    if i < 0 {
        let mut s = dec_string(i);
        s.append(unit_str(0));
        return s;
    }
    let mut c: u64 = i as u64;
    let mut step: usize = 0;
    while step < 5
        invariant
            step <= 5,
            scaled(i as int, 0) == scaled(c as int, step as int),
        decreases 5 - step,
    {
        if c / 1024 > 0 {
            c = c / 1024;
            step = step + 1;
        } else {
            let mut s = dec_string(c as isize);
            s.append(unit_str(step));
            return s;
        }
    }
    "VALUE TOO BIG".to_owned()
}

/// The abstract state of the tracker: for each matcher, the last boundary
/// it acted on, and the offset at which that matcher's previous line was
/// emitted (zero before its first).
pub struct TrackerModel {
    pub lasts: Seq<int>,
    pub emitted: Seq<int>,
}

/// Decides, for each signal of the scan, whether it crosses a boundary not
/// seen before by that matcher, and if so how many bytes have elapsed since
/// that matcher's own previous emitted line.
pub struct SignalTracker {
    lasts: Vec<usize>,
    emitted: Vec<usize>,
}

impl View for SignalTracker {
    type V = TrackerModel;

    closed spec fn view(&self) -> TrackerModel {
        TrackerModel {
            lasts: self.lasts@.map_values(|v: usize| v as int),
            emitted: self.emitted@.map_values(|v: usize| v as int),
        }
    }
}

/// One tracker decision on the abstract state: a signal of total length `n`
/// from matcher `i` at offset `l` crosses the boundary `l - n`; if that
/// matcher already acted on this boundary nothing is emitted, otherwise a
/// line is owed, carrying the bytes elapsed since matcher `i`'s previous
/// emitted line and whether this is that matcher's first boundary.
pub open spec fn spec_note(t: TrackerModel, i: int, l: int, n: int) -> (
    TrackerModel,
    Option<(int, bool)>,
) {
    let c = l - n;
    if t.lasts[i] != c {
        (
            TrackerModel { lasts: t.lasts.update(i, c), emitted: t.emitted.update(i, l) },
            Some((l - t.emitted[i], t.lasts[i] == 0)),
        )
    } else {
        (t, None)
    }
}

impl SignalTracker {
    /// A tracker for `k` matchers, all boundaries unseen and no line
    /// emitted yet.
    pub fn new(k: usize) -> (r: Self)
        ensures
            r@.lasts == Seq::new(k as nat, |i: int| 0int),
            r@.emitted == Seq::new(k as nat, |i: int| 0int),
    {
        let mut lasts: Vec<usize> = Vec::new();
        let mut j: usize = 0;
        while j < k
            invariant
                j <= k,
                lasts@ == Seq::new(j as nat, |i: int| 0usize),
            decreases k - j,
        {
            lasts.push(0);
            proof {
                assert(lasts@ =~= Seq::new((j + 1) as nat, |i: int| 0usize));
            }
            j = j + 1;
        }
        let mut emitted: Vec<usize> = Vec::new();
        let mut j: usize = 0;
        while j < k
            invariant
                j <= k,
                emitted@ == Seq::new(j as nat, |i: int| 0usize),
            decreases k - j,
        {
            emitted.push(0);
            proof {
                assert(emitted@ =~= Seq::new((j + 1) as nat, |i: int| 0usize));
            }
            j = j + 1;
        }
        let r = SignalTracker { lasts, emitted };
        proof {
            assert(r@.lasts =~= Seq::new(k as nat, |i: int| 0int));
            assert(r@.emitted =~= Seq::new(k as nat, |i: int| 0int));
        }
        r
    }

    /// Notes the signal of total length `n` from matcher `i` at offset `l`
    /// and decides whether a line is owed, exactly as [`spec_note`] says.
    pub fn note(&mut self, i: usize, l: usize, n: usize) -> (r: Option<(usize, bool)>)
        requires
            i < old(self)@.lasts.len(),
            i < old(self)@.emitted.len(),
            n <= l,
            old(self)@.emitted[i as int] <= l,
        ensures
            final(self)@ == spec_note(old(self)@, i as int, l as int, n as int).0,
            ({
                let d = spec_note(old(self)@, i as int, l as int, n as int).1;
                match r {
                    None => d is None,
                    Some((size, fresh)) => d == Some((size as int, fresh)),
                }
            }),
    {
        let c = l - n;
        if self.lasts[i] != c {
            let fresh = self.lasts[i] == 0;
            let size = l - self.emitted[i];
            self.lasts[i] = c;
            self.emitted[i] = l;
            proof {
                assert(final(self)@.lasts =~= spec_note(
                    old(self)@,
                    i as int,
                    l as int,
                    n as int,
                ).0.lasts);
                assert(final(self)@.emitted =~= spec_note(
                    old(self)@,
                    i as int,
                    l as int,
                    n as int,
                ).0.emitted);
            }
            Some((size, fresh))
        } else {
            None
        }
    }
}

} // verus!
