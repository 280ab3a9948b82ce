//! An online byte-pattern matcher.
//!
//! The matcher consumes one byte at a time and signals when the configured
//! pattern has been found; with a repeat threshold it only signals once the
//! pattern has occurred that many times back to back, and again on every
//! further immediate repeat with a strictly larger total length.  An optional
//! context buffer retains the trailing bytes that were *not* absorbed into a
//! confirmed or pending match, so that data sitting right before a marker
//! (such as an embedded file name) can be recovered afterwards.
//!
//! The reset-on-mismatch policy is complete only for patterns without
//! internal self-overlap; see [`crate::matcher_laws`] for what is proved.

use vstd::prelude::*;
use crate::circular_buffer::CircularBuffer;
use crate::circular_buffer::shifted;
use vstd::slice::slice_to_vec;

verus! {

/// The abstract state of a matcher: the pattern searched for, the logical
/// window of the context buffer, how much of the pattern is currently
/// matched (`cursor`), how many back-to-back full matches are pending
/// (`count`), and the configured repeat threshold (`0` = signal on every
/// single match).
pub struct MatcherModel {
    pub pattern: Seq<u8>,
    pub window: Seq<u8>,
    pub cursor: nat,
    pub count: nat,
    pub threshold: nat,
}

/// The window after appending every byte of `s` in order.
pub open spec fn shifted_all(w: Seq<u8>, s: Seq<u8>) -> Seq<u8>
    decreases s.len(),
{
    if s.len() == 0 {
        w
    } else {
        shifted(shifted_all(w, s.drop_last()), s.last())
    }
}

/// `n` back-to-back copies of `p`.
pub open spec fn repeated(p: Seq<u8>, n: nat) -> Seq<u8>
    decreases n,
{
    if n == 0 {
        Seq::<u8>::empty()
    } else {
        repeated(p, (n - 1) as nat) + p
    }
}

/// The window after flushing everything that was optimistically withheld
/// while a match was in progress: `count` full copies of the pattern
/// followed by the first `cursor` bytes of the failed partial attempt.
pub open spec fn flushed(m: MatcherModel) -> Seq<u8> {
    shifted_all(m.window, repeated(m.pattern, m.count) + m.pattern.take(m.cursor as int))
}

/// Continuation of a push whose byte `c` matches the pattern at the cursor:
/// either the cursor advances silently, or the pattern is complete and the
/// matcher signals according to the repeat threshold.
pub open spec fn advance(m: MatcherModel, c: u8) -> (MatcherModel, Option<int>) {
    let l = m.pattern.len() as int;
    if m.cursor + 1 < l {
        (MatcherModel { cursor: (m.cursor + 1) as nat, ..m }, None)
    } else if m.threshold == 0 {
        (MatcherModel { cursor: 0, ..m }, Some(l))
    } else {
        let n = m.count + 1;
        if n < m.threshold {
            (MatcherModel { cursor: 0, count: n, ..m }, None)
        } else {
            (MatcherModel { cursor: 0, count: n, ..m }, Some(l * n))
        }
    }
}

/// One step of the automaton: the new state and the emitted signal, if any.
/// A signal carries the total matched length, i.e. pattern length times the
/// number of pending repeats once the threshold is met.
pub open spec fn spec_push(m: MatcherModel, c: u8) -> (MatcherModel, Option<int>) {
    if m.pattern.len() == 0 {
        (m, None)
    } else if c == m.pattern[m.cursor as int] {
        advance(m, c)
    } else {
        let m1 = MatcherModel { window: flushed(m), cursor: 0, count: 0, ..m };
        if c != m.pattern[0] {
            (MatcherModel { window: shifted(m1.window, c), ..m1 }, None)
        } else {
            advance(m1, c)
        }
    }
}

/// The state after materialising the context: the first `cursor` bytes of
/// the in-progress partial match are flushed into the window.  A disabled
/// context buffer is left untouched.
pub open spec fn materialized(m: MatcherModel) -> MatcherModel {
    if m.window.len() == 0 {
        m
    } else {
        MatcherModel { window: shifted_all(m.window, m.pattern.take(m.cursor as int)), ..m }
    }
}

/// A cursor is meaningful only inside the pattern.
pub open spec fn model_wf(m: MatcherModel) -> bool {
    if m.pattern.len() == 0 {
        m.cursor == 0
    } else {
        m.cursor < m.pattern.len()
    }
}

/// The signal of a push, as a mathematical integer.
pub open spec fn sig_of(r: Option<isize>) -> Option<int> {
    match r {
        None => None,
        Some(n) => Some(n as int),
    }
}

/// The state of a matcher right after construction with pattern `p`,
/// context capacity `cap` and repeat threshold `k`.
pub open spec fn initial_model(p: Seq<u8>, cap: nat, k: nat) -> MatcherModel {
    MatcherModel {
        pattern: p,
        window: Seq::new(cap, |i: int| 0u8),
        cursor: 0,
        count: 0,
        threshold: k,
    }
}

pub proof fn lemma_shifted_all_push(w: Seq<u8>, s: Seq<u8>, c: u8)
    ensures
        shifted_all(w, s.push(c)) == shifted(shifted_all(w, s), c),
{
    assert(s.push(c).drop_last() =~= s);
    assert(s.push(c).last() == c);
}

proof fn lemma_shifted_all_empty(w: Seq<u8>, s: Seq<u8>)
    requires
        w.len() == 0,
    ensures
        shifted_all(w, s) == w,
    decreases s.len(),
{
    if s.len() > 0 {
        lemma_shifted_all_empty(w, s.drop_last());
    }
}

pub proof fn lemma_shifted_all_len(w: Seq<u8>, s: Seq<u8>)
    ensures
        shifted_all(w, s).len() == w.len(),
    decreases s.len(),
{
    if s.len() > 0 {
        lemma_shifted_all_len(w, s.drop_last());
    }
}

/// Bookkeeping facts about one automaton step: pattern, threshold and window
/// capacity never change, the total length of the pending run grows by at
/// most one byte per push, and a signal always reports a positive total no
/// larger than the number of bytes consumed while the run was pending.
pub proof fn lemma_push_progress(m: MatcherModel, c: u8)
    requires
        model_wf(m),
    ensures
        ({
            let (m2, sig) = spec_push(m, c);
            &&& model_wf(m2)
            &&& m2.pattern == m.pattern
            &&& m2.threshold == m.threshold
            &&& m2.window.len() == m.window.len()
            &&& m.pattern.len() * m2.count + m2.cursor <= m.pattern.len() * m.count + m.cursor
                + 1
            &&& (sig is Some ==> m2.cursor == 0)
            &&& (match sig {
                None => true,
                Some(n) => 0 < n <= m.pattern.len() * m.count + m.cursor + 1,
            })
        }),
{
    let (m2, sig) = spec_push(m, c);
    let l = m.pattern.len() as int;
    let ct = m.count as int;
    if l == 0 {
    } else {
        assert(0 <= l * ct) by (nonlinear_arith)
            requires
                0 <= l,
                0 <= ct,
        ;
        assert(l * (ct + 1) == l * ct + l) by (nonlinear_arith);
        assert(l * 1 == l) by (nonlinear_arith);
        assert(l * 0 == 0) by (nonlinear_arith);
        if c == m.pattern[m.cursor as int] {
            if m.cursor + 1 < l {
            } else {
                assert(m.cursor == l - 1);
                if m.threshold == 0 {
                } else {
                    assert(m2.count == m.count + 1);
                    assert(m.pattern.len() * m2.count == l * (ct + 1));
                }
            }
        } else {
            lemma_shifted_all_len(
                m.window,
                repeated(m.pattern, m.count) + m.pattern.take(m.cursor as int),
            );
        }
    }
}

#[derive(Debug)]
pub struct Pattern {
    pattern: Vec<u8>,
    lookback: CircularBuffer,
    i: usize,
    match_count: usize,
    min_match: usize,
}

impl View for Pattern {
    type V = MatcherModel;

    closed spec fn view(&self) -> MatcherModel {
        MatcherModel {
            pattern: self.pattern@,
            window: self.lookback@,
            cursor: self.i as nat,
            count: self.match_count as nat,
            threshold: self.min_match as nat,
        }
    }
}

impl Pattern {
    pub closed spec fn wf(&self) -> bool {
        &&& self.lookback.wf()
        &&& model_wf(self@)
    }

    /// A fresh matcher for `pattern`, with the context buffer disabled and
    /// no repeat threshold.  A pattern of length zero makes the matcher
    /// permanently inert.
    pub fn new(pattern: &[u8]) -> (r: Self)
        ensures
            r.wf(),
            r@ == initial_model(pattern@, 0, 0),
    {
        let r = Pattern {
            pattern: slice_to_vec(pattern),
            lookback: CircularBuffer::new(0),
            i: 0,
            match_count: 0,
            min_match: 0,
        };
        proof {
            assert(r@.window =~= initial_model(pattern@, 0, 0).window);
        }
        r
    }

    /// Replaces the context buffer with a fresh one of capacity `p`.
    pub fn lookback(self, p: usize) -> (r: Self)
        requires
            self.wf(),
            p <= usize::MAX / 2,
        ensures
            r.wf(),
            r@ == (MatcherModel { window: Seq::new(p as nat, |i: int| 0u8), ..self@ }),
    {
        let mut s = self;
        s.lookback = CircularBuffer::new(p);
        s
    }

    /// Sets the repeat threshold: `0` signals on every single match, `r > 0`
    /// stays silent until `r` back-to-back matches have been seen.
    pub fn repeats(self, r: usize) -> (res: Self)
        requires
            self.wf(),
        ensures
            res.wf(),
            res@ == (MatcherModel { threshold: r as nat, ..self@ }),
    {
        let mut s = self;
        s.min_match = r;
        s
    }

    /// Feeds one byte to the automaton.  The new state and the returned
    /// signal are exactly those of [`spec_push`] on the old state.
    pub fn push(&mut self, c: u8) -> (r: Option<isize>)
        requires
            old(self).wf(),
            old(self)@.pattern.len() * (old(self)@.count + 1) <= isize::MAX as int,
        ensures
            final(self).wf(),
            final(self)@ == spec_push(old(self)@, c).0,
            sig_of(r) == spec_push(old(self)@, c).1,
    {
        if self.pattern.len() == 0 {
            return None;
        }
        let l = self.pattern.len();

        if c != self.pattern[self.i] {
            let ghost pat = self.pattern@;
            let ghost w0 = self.lookback@;
            let ghost mc0 = self.match_count as nat;
            let ghost mm0 = self.min_match;
            let ghost i0 = self.i as int;
            if !self.lookback.is_empty() {
                let mut k: usize = 0;
                while k < self.match_count
                    invariant
                        k <= self.match_count,
                        self.pattern@ == pat,
                        self.pattern@.len() == l,
                        self.i == i0,
                        self.match_count == mc0,
                        self.min_match == mm0,
                        self.lookback.wf(),
                        self.lookback@ == shifted_all(w0, repeated(pat, k as nat)),
                    decreases self.match_count - k,
                {
                    let mut j: usize = 0;
                    while j < l
                        invariant
                            j <= l,
                            self.pattern@ == pat,
                            self.pattern@.len() == l,
                            self.i == i0,
                            self.match_count == mc0,
                            self.min_match == mm0,
                            k < mc0,
                            self.lookback.wf(),
                            self.lookback@ == shifted_all(
                                w0,
                                repeated(pat, k as nat) + pat.take(j as int),
                            ),
                        decreases l - j,
                    {
                        self.lookback.push(self.pattern[j]);
                        proof {
                            let s = repeated(pat, k as nat) + pat.take(j as int);
                            assert(s.push(pat[j as int]) =~= repeated(pat, k as nat) + pat.take(
                                j + 1,
                            ));
                            lemma_shifted_all_push(w0, s, pat[j as int]);
                        }
                        j += 1;
                    }
                    proof {
                        let s = repeated(pat, k as nat) + pat.take(l as int);
                        assert(s =~= repeated(pat, (k + 1) as nat));
                    }
                    k += 1;
                }
                // flush the half-baked pattern we were matching
                let mut j: usize = 0;
                while j < self.i
                    invariant
                        j <= self.i,
                        self.pattern@ == pat,
                        self.pattern@.len() == l,
                        self.i == i0,
                        self.i < l,
                        self.match_count == mc0,
                        self.min_match == mm0,
                        self.lookback.wf(),
                        self.lookback@ == shifted_all(
                            w0,
                            repeated(pat, mc0) + pat.take(j as int),
                        ),
                    decreases self.i - j,
                {
                    self.lookback.push(self.pattern[j]);
                    proof {
                        let s = repeated(pat, mc0) + pat.take(j as int);
                        assert(s.push(pat[j as int]) =~= repeated(pat, mc0) + pat.take(j + 1));
                        lemma_shifted_all_push(w0, s, pat[j as int]);
                    }
                    j += 1;
                }
                proof {
                    assert(repeated(pat, mc0) + pat.take(0) =~= repeated(pat, mc0));
                    assert(self.lookback@ == flushed(old(self)@));
                }
            } else {
                proof {
                    lemma_shifted_all_empty(w0, repeated(pat, mc0) + pat.take(i0));
                    assert(self.lookback@ == flushed(old(self)@));
                }
            }

            self.match_count = 0;

            if c != self.pattern[0] {
                self.i = 0;
                let ghost wf1 = self.lookback@;
                self.lookback.push(c);
                proof {
                    let (m2, sig) = spec_push(old(self)@, c);
                    assert(final(self)@.window == m2.window);
                    assert(final(self)@ == m2);
                }
                return None;
            }
            self.i = 0;
        }

        proof {
            // from here on the byte matches the pattern at the cursor
            assert(spec_push(old(self)@, c) == advance(self@, c));
        }

        if self.i + 1 < l {
            self.i = self.i + 1;
            return None;
        }

        self.i = 0;
        proof {
            let lt = old(self)@.pattern.len() as int;
            let ct = old(self)@.count as int;
            assert(lt * 1 <= lt * (ct + 1) && 1 * (ct + 1) <= lt * (ct + 1)) by (nonlinear_arith)
                requires
                    1 <= lt,
                    0 <= ct,
            ;
        }
        if self.min_match == 0 {
            return Some(l as isize);
        }

        self.match_count = self.match_count + 1;

        if self.match_count < self.min_match {
            return None;
        }

        proof {
            let lt = old(self)@.pattern.len() as int;
            let ct = old(self)@.count as int;
            let mc = self.match_count as int;
            assert(lt * mc <= lt * (ct + 1)) by (nonlinear_arith)
                requires
                    0 <= lt,
                    0 <= mc <= ct + 1,
            ;
        }
        Some((l * self.match_count) as isize)
    }

    /// Materialises the context: flushes the in-progress partial match into
    /// the window and returns a copy of the whole window, oldest byte first.
    pub fn get(&mut self) -> (r: Vec<u8>)
        requires
            old(self).wf(),
        ensures
            final(self).wf(),
            final(self)@ == materialized(old(self)@),
            r@ == final(self)@.window,
    {
        if self.lookback.is_empty() {
            let r: Vec<u8> = Vec::new();
            proof {
                assert(r@ =~= final(self)@.window);
            }
            return r;
        }

        let ghost pat = self.pattern@;
        let ghost w0 = self.lookback@;
        let ghost mc0 = self.match_count;
        let ghost mm0 = self.min_match;
        let mut j: usize = 0;
        while j < self.i
            invariant
                j <= self.i,
                self.pattern@ == pat,
                self.i < pat.len() || (pat.len() == 0 && self.i == 0),
                self.i == old(self)@.cursor,
                self.match_count == old(self).match_count,
                self.min_match == mm0,
                self.lookback.wf(),
                self.lookback@.len() == w0.len(),
                w0.len() > 0,
                self.lookback@ == shifted_all(w0, pat.take(j as int)),
            decreases self.i - j,
        {
            self.lookback.push(self.pattern[j]);
            proof {
                let s = pat.take(j as int);
                assert(s.push(pat[j as int]) =~= pat.take(j + 1));
                lemma_shifted_all_push(w0, s, pat[j as int]);
                lemma_shifted_all_len(w0, pat.take(j + 1));
            }
            j += 1;
        }
        let len = self.lookback.len();
        let s = self.lookback.window(0, len);
        let r = slice_to_vec(s);
        proof {
            assert(r@ =~= final(self)@.window);
        }
        r
    }

    /// A copy of the current context window without materialising anything.
    /// Only meaningful when no partial match is pending, which the
    /// precondition demands.
    pub fn peek(&self) -> (r: Vec<u8>)
        requires
            self.wf(),
            self@.cursor == 0,
        ensures
            r@ == self@.window,
    {
        if self.lookback.is_empty() {
            let r: Vec<u8> = Vec::new();
            proof {
                assert(r@ =~= self@.window);
            }
            return r;
        }
        let len = self.lookback.len();
        let s = self.lookback.window(0, len);
        let r = slice_to_vec(s);
        proof {
            assert(r@ =~= self@.window);
        }
        r
    }
}

} // verus!
