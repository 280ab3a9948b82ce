//! Proved properties of the matcher automaton over whole input runs.
//!
//! [`run_from`] folds [`spec_push`] over an input; the lemmas here relate the
//! automaton's state and signals to the literal content of the input: a
//! pending run of `count` repeats really is a suffix of the bytes consumed,
//! a threshold signal occurs only once that many back-to-back copies of the
//! pattern stand at the end of the input, and one-shot signals mark real,
//! mutually non-overlapping occurrences of the pattern.

use vstd::prelude::*;
use crate::circular_buffer::window_model;
use crate::pattern::MatcherModel;
use crate::pattern::spec_push;
use crate::pattern::repeated;
use crate::pattern::shifted_all;
use crate::pattern::initial_model;
use crate::pattern::model_wf;
use crate::pattern::lemma_push_progress;
use crate::pattern::lemma_shifted_all_push;

verus! {

/// The matcher state after consuming every byte of `s` in order.
pub open spec fn run_from(m: MatcherModel, s: Seq<u8>) -> MatcherModel
    decreases s.len(),
{
    if s.len() == 0 {
        m
    } else {
        spec_push(run_from(m, s.drop_last()), s.last()).0
    }
}

/// The signal emitted by the push of `s[j]`, i.e. the `j + 1`-st push.
pub open spec fn signal_at(m: MatcherModel, s: Seq<u8>, j: int) -> Option<int> {
    spec_push(run_from(m, s.take(j)), s[j]).1
}

/// What one step does to the pending-run bookkeeping, stated over the state
/// before the push: a signal is emitted exactly when the byte completes a
/// full copy of the pattern and the count of back-to-back copies reaches or
/// passes the positive threshold; its value is always pattern length times
/// that count.  Any interrupting byte resets the count: to one when the
/// byte alone restarts and completes a one-byte pattern, else to zero.
pub proof fn lemma_threshold_signal(m: MatcherModel, c: u8)
    requires
        model_wf(m),
        m.threshold >= 1,
        m.pattern.len() > 0,
    ensures
        ({
            let (m2, sig) = spec_push(m, c);
            &&& (sig is Some <==> (m2.count >= m.threshold && (
                (c == m.pattern[m.cursor as int] && m.cursor + 1 == m.pattern.len()
                    && m2.count == m.count + 1)
                || (c != m.pattern[m.cursor as int] && c == m.pattern[0]
                    && m.pattern.len() == 1 && m2.count == 1)
            )))
            &&& (sig matches Some(n) ==> n == m.pattern.len() * m2.count)
            &&& (c != m.pattern[m.cursor as int] ==> m2.count <= 1 && (m2.count == 1
                ==> m.pattern.len() == 1 && c == m.pattern[0]))
        }),
{
}

proof fn lemma_push_subrange(s: Seq<u8>, c: u8, y: int)
    requires
        0 <= y <= s.len(),
    ensures
        s.push(c).subrange(y, s.len() as int + 1) == s.subrange(y, s.len() as int).push(c),
{
    assert(s.push(c).subrange(y, s.len() as int + 1) =~= s.subrange(y, s.len() as int).push(c));
}

/// Starting from a freshly configured matcher, the pending bookkeeping is
/// always literal: the last `count * |pattern| + cursor` bytes of the input
/// consumed so far are exactly `count` back-to-back copies of the pattern
/// followed by its first `cursor` bytes.  Without a threshold the count
/// stays zero.
#[verifier::rlimit(50)]
pub proof fn lemma_run_is_suffix(p: Seq<u8>, cap: nat, k: nat, s: Seq<u8>)
    requires
        p.len() > 0,
    ensures
        ({
            let m = run_from(initial_model(p, cap, k), s);
            let tot = p.len() * m.count + m.cursor;
            &&& model_wf(m)
            &&& m.pattern == p
            &&& m.threshold == k
            &&& tot <= s.len()
            &&& s.subrange(s.len() - tot, s.len() as int) == repeated(p, m.count) + p.take(
                m.cursor as int,
            )
            &&& (k == 0 ==> m.count == 0)
        }),
    decreases s.len(),
{
    let m0 = initial_model(p, cap, k);
    if s.len() == 0 {
        assert(s.subrange(0, 0) =~= repeated(p, 0nat) + p.take(0));
    } else {
        let s0 = s.drop_last();
        let c = s.last();
        lemma_run_is_suffix(p, cap, k, s0);
        let m = run_from(m0, s0);
        let m2 = run_from(m0, s);
        lemma_push_progress(m, c);
        let l = p.len() as int;
        let ct = m.count as int;
        let cu = m.cursor as int;
        let tot = l * ct + cu;
        assert(tot <= s0.len());
        assert(l * m2.count + m2.cursor <= tot + 1);
        assert(p.len() * m2.count + m2.cursor <= s.len());
        assert(0 <= l * ct) by (nonlinear_arith)
            requires
                0 <= l,
                0 <= ct,
        ;
        assert(l * (ct + 1) == l * ct + l) by (nonlinear_arith);
        assert(l * 1 == l) by (nonlinear_arith);
        let suffix = repeated(p, m.count) + p.take(cu);
        assert(s0.subrange(s0.len() - tot, s0.len() as int) == suffix);
        if c == p[cu] {
            if cu + 1 < l {
                // the partial match grows by one byte
                lemma_push_subrange(s0, c, s0.len() - tot);
                assert(suffix.push(c) =~= repeated(p, m.count) + p.take(cu + 1));
                assert(s.subrange(s.len() - (tot + 1), s.len() as int) == repeated(p, m.count)
                    + p.take(m2.cursor as int));
            } else {
                // a full copy of the pattern is completed
                assert(cu == l - 1);
                lemma_push_subrange(s0, c, s0.len() - tot);
                assert(p.take(cu).push(c) =~= p);
                assert(suffix.push(c) =~= repeated(p, (m.count + 1) as nat));
                if k == 0 {
                    assert(m2.count == 0);
                    assert(s.subrange(s.len() - 0, s.len() as int) =~= repeated(p, 0nat)
                        + p.take(0));
                } else {
                    assert(s.subrange(s.len() - (tot + 1), s.len() as int) == repeated(
                        p,
                        (m.count + 1) as nat,
                    ));
                    assert(repeated(p, (m.count + 1) as nat) =~= repeated(p, (m.count + 1) as nat)
                        + p.take(0));
                }
            }
        } else {
            if c != p[0] {
                assert(m2.count == 0 && m2.cursor == 0);
                assert(s.subrange(s.len() - 0, s.len() as int) =~= repeated(p, 0nat) + p.take(0));
            } else if l == 1 {
                // the interrupting byte alone is a fresh full copy
                if k == 0 {
                    assert(m2.count == 0 && m2.cursor == 0);
                    assert(s.subrange(s.len() - 0, s.len() as int) =~= repeated(p, 0nat) + p.take(
                        0,
                    ));
                } else {
                    assert(m2.count == 1 && m2.cursor == 0);
                    assert(s.subrange(s.len() - 1, s.len() as int) =~= seq![c]);
                    assert(repeated(p, 1nat) + p.take(0) =~= seq![p[0]]);
                }
            } else {
                // the interrupting byte alone starts a fresh partial match
                assert(m2.count == 0 && m2.cursor == 1);
                assert(s.subrange(s.len() - 1, s.len() as int) =~= seq![c]);
                assert(repeated(p, 0nat) + p.take(1) =~= seq![p[0]]);
            }
        }
    }
}

proof fn lemma_shifted_all_append(w: Seq<u8>, a: Seq<u8>, b: Seq<u8>)
    ensures
        shifted_all(w, a + b) == shifted_all(shifted_all(w, a), b),
    decreases b.len(),
{
    if b.len() == 0 {
        assert(a + b =~= a);
    } else {
        lemma_shifted_all_append(w, a, b.drop_last());
        assert((a + b).drop_last() =~= a + b.drop_last());
        assert((a + b).last() == b.last());
    }
}

/// With a positive repeat threshold, the context window is exactly the
/// recent history of the input: the window of a freshly configured matcher
/// of capacity `cap`, after consuming `s`, is what pushing `s` minus its
/// pending-run suffix through a fresh window of that capacity yields.
/// Together with the context buffer's own law this says the window holds
/// the last `cap` bytes of the input that precede the pending run.
pub proof fn lemma_window_is_recent_history(p: Seq<u8>, cap: nat, k: nat, s: Seq<u8>)
    requires
        p.len() > 0,
        k >= 1,
    ensures
        ({
            let m = run_from(initial_model(p, cap, k), s);
            let tot = p.len() * m.count + m.cursor;
            &&& tot <= s.len()
            &&& m.window == shifted_all(Seq::new(cap, |i: int| 0u8), s.take(s.len() - tot))
        }),
    decreases s.len(),
{
    let m0 = initial_model(p, cap, k);
    let z = Seq::new(cap, |i: int| 0u8);
    lemma_run_is_suffix(p, cap, k, s);
    if s.len() == 0 {
        assert(s.take(0) =~= s);
    } else {
        let s0 = s.drop_last();
        let c = s.last();
        let e = s.len() as int;
        lemma_window_is_recent_history(p, cap, k, s0);
        lemma_run_is_suffix(p, cap, k, s0);
        let m = run_from(m0, s0);
        let m2 = run_from(m0, s);
        let l = p.len() as int;
        let ct = m.count as int;
        let cu = m.cursor as int;
        let tot0 = l * ct + cu;
        assert(l * (ct + 1) == l * ct + l) by (nonlinear_arith);
        assert(l * 1 == l) by (nonlinear_arith);
        if c == p[cu] {
            // matched bytes join the pending run; the window stays as it is
            let tot2 = l * (m2.count as int) + m2.cursor;
            assert(tot2 == tot0 + 1);
            assert(s.take(e - tot2) =~= s0.take(s0.len() - tot0));
        } else {
            // the pending run is flushed: the window has seen all of `s0`
            assert(s0.subrange(s0.len() - tot0, s0.len() as int) == repeated(p, m.count) + p.take(
                cu,
            ));
            lemma_shifted_all_append(z, s0.take(s0.len() - tot0), repeated(p, m.count) + p.take(
                cu,
            ));
            assert(s0.take(s0.len() - tot0) + (repeated(p, m.count) + p.take(cu)) =~= s0);
            if c != p[0] {
                lemma_shifted_all_push(z, s0, c);
                assert(s0.push(c) =~= s);
                assert(s.take(e - 0) =~= s);
            } else {
                assert(s.take(e - 1) =~= s0);
            }
        }
    }
}

/// The context buffer's append law and the matcher's window law are the
/// same fold over a fresh, zero-filled window.
pub proof fn lemma_window_model_is_shifted_all(cap: nat, s: Seq<u8>)
    ensures
        window_model(cap, s) == shifted_all(Seq::new(cap, |i: int| 0u8), s),
    decreases s.len(),
{
    if s.len() > 0 {
        lemma_window_model_is_shifted_all(cap, s.drop_last());
    }
}

/// With `min_match = K > 0`: whenever the push of `s[j]` signals `n`, at
/// least `K` back-to-back copies of the pattern stand literally at the end
/// of the input consumed so far, and `n` is exactly pattern length times
/// the number of those copies.
pub proof fn lemma_signals_need_run(p: Seq<u8>, cap: nat, k: nat, s: Seq<u8>, j: int)
    requires
        p.len() > 0,
        k >= 1,
        0 <= j < s.len(),
    ensures
        ({
            let m0 = initial_model(p, cap, k);
            let m2 = run_from(m0, s.take(j + 1));
            match signal_at(m0, s, j) {
                None => true,
                Some(n) => {
                    &&& m2.count >= k
                    &&& n == p.len() * m2.count
                    &&& p.len() * m2.count <= j + 1
                    &&& s.take(j + 1).subrange(j + 1 - p.len() * m2.count, j + 1) == repeated(
                        p,
                        m2.count,
                    )
                },
            }
        }),
{
    let m0 = initial_model(p, cap, k);
    let m = run_from(m0, s.take(j));
    lemma_run_is_suffix(p, cap, k, s.take(j));
    lemma_run_is_suffix(p, cap, k, s.take(j + 1));
    assert(s.take(j + 1).drop_last() =~= s.take(j));
    assert(s.take(j + 1).last() == s[j]);
    lemma_threshold_signal(m, s[j]);
    let m2 = run_from(m0, s.take(j + 1));
    if signal_at(m0, s, j) is Some {
        assert(m2.cursor == 0) by {
            lemma_push_progress(m, s[j]);
        }
        assert(repeated(p, m2.count) + p.take(0) =~= repeated(p, m2.count));
    }
}

/// With `min_match = 0`, a signal from the push of `s[j]` always reports the
/// pattern length, and the pattern itself stands literally at positions
/// `j + 1 - |pattern| .. j + 1` of the input: every signal marks a real
/// occurrence ending right there.
pub proof fn lemma_oneshot_signal_is_occurrence(p: Seq<u8>, cap: nat, s: Seq<u8>, j: int)
    requires
        p.len() > 0,
        0 <= j < s.len(),
    ensures
        ({
            let m0 = initial_model(p, cap, 0);
            match signal_at(m0, s, j) {
                None => true,
                Some(n) => {
                    &&& n == p.len()
                    &&& p.len() <= j + 1
                    &&& s.take(j + 1).subrange(j + 1 - p.len(), j + 1) == p
                },
            }
        }),
{
    let m0 = initial_model(p, cap, 0);
    let m = run_from(m0, s.take(j));
    lemma_run_is_suffix(p, cap, 0, s.take(j));
    assert(s.take(j + 1).drop_last() =~= s.take(j));
    assert(s.take(j + 1).last() == s[j]);
    let c = s[j];
    let l = p.len() as int;
    let cu = m.cursor as int;
    if signal_at(m0, s, j) is Some {
        let tail = s.take(j + 1);
        if c == p[cu] {
            // the byte completes a direct full match
            assert(cu == l - 1);
            lemma_push_subrange(s.take(j), c, j - cu);
            assert(p.take(cu).push(c) =~= p);
            assert(tail.subrange(j + 1 - l, j + 1) == p);
        } else {
            // only a one-byte pattern can signal on a restart
            assert(l == 1 && c == p[0]);
            assert(tail.subrange(j + 1 - 1, j + 1) =~= seq![c]);
            assert(seq![p[0]] =~= p);
        }
    }
}

proof fn lemma_oneshot_cursor_creep(p: Seq<u8>, cap: nat, s: Seq<u8>, j1: int, t: int)
    requires
        p.len() > 0,
        0 <= j1 < s.len(),
        signal_at(initial_model(p, cap, 0), s, j1) is Some,
        j1 + 1 <= t <= s.len(),
    ensures
        run_from(initial_model(p, cap, 0), s.take(t)).cursor <= t - (j1 + 1),
    decreases t,
{
    let m0 = initial_model(p, cap, 0);
    if t == j1 + 1 {
        assert(s.take(t).drop_last() =~= s.take(j1));
        assert(s.take(t).last() == s[j1]);
        lemma_push_progress(run_from(m0, s.take(j1)), s[j1]);
        lemma_run_is_suffix(p, cap, 0, s.take(j1));
    } else {
        lemma_oneshot_cursor_creep(p, cap, s, j1, t - 1);
        assert(s.take(t).drop_last() =~= s.take(t - 1));
        assert(s.take(t).last() == s[t - 1]);
        let m = run_from(m0, s.take(t - 1));
        lemma_run_is_suffix(p, cap, 0, s.take(t - 1));
        lemma_push_progress(m, s[t - 1]);
        let l = p.len() as int;
        assert(l * 0 == 0) by (nonlinear_arith);
    }
}

/// A pattern without internal self-overlap: no prefix of it has a proper,
/// non-empty border (a string that is both a proper prefix and a proper
/// suffix of that prefix).  The reset-on-mismatch policy finds every
/// occurrence only for such patterns.
pub open spec fn overlap_free(p: Seq<u8>) -> bool {
    forall|i: int, j: int|
        1 <= j < i <= p.len() ==> p.subrange(j, i) != #[trigger] p.take(i - j)
}

/// The end positions of the non-overlapping left-to-right occurrences of
/// `p` in `s`: scanning left to right, an occurrence is taken whenever it
/// does not overlap the one taken before it.
pub open spec fn greedy_ends(p: Seq<u8>, s: Seq<u8>) -> Seq<int>
    decreases s.len(),
{
    if p.len() == 0 || s.len() < p.len() {
        Seq::empty()
    } else {
        let g = greedy_ends(p, s.drop_last());
        let e = s.len() as int;
        if s.subrange(e - p.len(), e) == p && (g.len() == 0 || g.last() <= e - p.len()) {
            g.push(e)
        } else {
            g
        }
    }
}

/// The end of the last occurrence taken so far, or zero.
pub open spec fn last_end(g: Seq<int>) -> int {
    if g.len() == 0 {
        0
    } else {
        g.last()
    }
}

proof fn lemma_greedy_bounds(p: Seq<u8>, s: Seq<u8>)
    ensures
        0 <= last_end(greedy_ends(p, s)) <= s.len(),
    decreases s.len(),
{
    if p.len() != 0 && s.len() >= p.len() {
        lemma_greedy_bounds(p, s.drop_last());
    }
}

proof fn lemma_greedy_last_is_occurrence(p: Seq<u8>, s: Seq<u8>)
    requires
        p.len() > 0,
        greedy_ends(p, s).len() > 0,
    ensures
        ({
            let e = greedy_ends(p, s).last();
            &&& p.len() <= e <= s.len()
            &&& s.subrange(e - p.len(), e) == p
        }),
    decreases s.len(),
{
    if s.len() >= p.len() {
        let s0 = s.drop_last();
        let g0 = greedy_ends(p, s0);
        let e = greedy_ends(p, s).last();
        if e == s.len() && s.subrange(s.len() - p.len(), s.len() as int) == p {
        } else {
            lemma_greedy_last_is_occurrence(p, s0);
            assert(s.subrange(e - p.len(), e) =~= s0.subrange(e - p.len(), e));
        }
    }
}

/// The completeness invariant of the one-shot automaton: the pending
/// partial match starts at or after the end of the last occurrence taken,
/// and no longer usable prefix of the pattern stands at the end of the
/// input than the one the cursor records.
pub open spec fn oneshot_inv(p: Seq<u8>, cap: nat, s: Seq<u8>) -> bool {
    let m = run_from(initial_model(p, cap, 0), s);
    let g = greedy_ends(p, s);
    &&& s.len() - m.cursor >= last_end(g)
    &&& forall|k: int|
        m.cursor < k < p.len() && k <= s.len() && s.len() - k >= last_end(g) ==> s.subrange(
            s.len() - k,
            s.len() as int,
        ) != #[trigger] p.take(k)
}

/// For an overlap-free pattern, a mismatching byte can leave no usable
/// pattern prefix of length `k` at the end of the extended input, for any
/// `k` from two bytes up to the whole pattern.
proof fn lemma_mismatch_kills_suffix(p: Seq<u8>, cap: nat, s0: Seq<u8>, c: u8, k: int)
    requires
        p.len() > 0,
        overlap_free(p),
        oneshot_inv(p, cap, s0),
        c != p[run_from(initial_model(p, cap, 0), s0).cursor as int],
        2 <= k <= p.len(),
        k <= s0.len() + 1,
        s0.len() + 1 - k >= last_end(greedy_ends(p, s0)),
    ensures
        s0.push(c).subrange(s0.len() + 1 - k, s0.len() as int + 1) != p.take(k),
{
    lemma_run_is_suffix(p, cap, 0, s0);
    let m = run_from(initial_model(p, cap, 0), s0);
    let cu = m.cursor as int;
    let l = p.len() as int;
    let n0 = s0.len() as int;
    let s = s0.push(c);
    if s.subrange(n0 + 1 - k, n0 + 1) == p.take(k) {
        assert(c == p[k - 1]) by {
            assert(s.subrange(n0 + 1 - k, n0 + 1)[k - 1] == c);
        }
        assert(s0.subrange(n0 - (k - 1), n0) =~= p.take(k - 1)) by {
            assert forall|t: int| 0 <= t < k - 1 implies #[trigger] s0.subrange(n0 - (k - 1), n0)[t] == p.take(
                k - 1,
            )[t] by {
                assert(s.subrange(n0 + 1 - k, n0 + 1)[t] == p.take(k)[t]);
            }
        }
        if k - 1 == cu {
            assert(false);
        } else if k - 1 > cu {
            // the invariant says no longer prefix than the cursor's stands there
            assert(s0.subrange(n0 - (k - 1), n0) != p.take(k - 1));
            assert(false);
        } else {
            // a shorter prefix would be a border of the cursor's prefix
            assert(m.count == 0 && repeated(p, 0nat) + p.take(cu) =~= p.take(cu));
            assert(s0.subrange(n0 - cu, n0) == p.take(cu));
            assert(p.subrange(cu - (k - 1), cu) =~= p.take(k - 1)) by {
                assert forall|t: int| 0 <= t < k - 1 implies #[trigger] p.subrange(cu - (k - 1), cu)[t]
                    == p.take(k - 1)[t] by {
                    assert(s0.subrange(n0 - cu, n0)[cu - (k - 1) + t] == p.take(cu)[cu - (k - 1)
                        + t]);
                    assert(s0.subrange(n0 - (k - 1), n0)[t] == p.take(k - 1)[t]);
                }
            }
            assert(p.subrange(cu - (k - 1), cu) != p.take(cu - (cu - (k - 1))));
            assert(false);
        }
    }
}

/// For an overlap-free pattern without a repeat threshold, the automaton
/// tracks the greedy non-overlapping occurrence scan exactly: the
/// completeness invariant always holds, and each push signals precisely
/// when it completes the next non-overlapping occurrence.
#[verifier::rlimit(50)]
pub proof fn lemma_oneshot_tracks_greedy(p: Seq<u8>, cap: nat, s: Seq<u8>)
    requires
        p.len() > 0,
        overlap_free(p),
    ensures
        oneshot_inv(p, cap, s),
        s.len() > 0 ==> ({
            let m0 = initial_model(p, cap, 0);
            let sig = spec_push(run_from(m0, s.drop_last()), s.last()).1;
            &&& (sig is Some <==> greedy_ends(p, s) == greedy_ends(p, s.drop_last()).push(
                s.len() as int,
            ))
            &&& (sig is None ==> greedy_ends(p, s) == greedy_ends(p, s.drop_last()))
        }),
    decreases s.len(),
{
    let m0 = initial_model(p, cap, 0);
    let l = p.len() as int;
    if s.len() == 0 {
        assert(last_end(greedy_ends(p, s)) == 0);
    } else {
        let s0 = s.drop_last();
        let c = s.last();
        let e = s.len() as int;
        lemma_oneshot_tracks_greedy(p, cap, s0);
        lemma_run_is_suffix(p, cap, 0, s0);
        lemma_run_is_suffix(p, cap, 0, s);
        lemma_greedy_bounds(p, s0);
        let m = run_from(m0, s0);
        let m2 = run_from(m0, s);
        let cu = m.cursor as int;
        let g0 = greedy_ends(p, s0);
        let g = greedy_ends(p, s);
        assert(s0.push(c) =~= s);
        assert(p.take(l) =~= p);
        assert(m2 == spec_push(m, c).0);
        assert(m.count == 0 && m2.count == 0);
        assert(repeated(p, 0nat) + p.take(cu) =~= p.take(cu));
        assert(repeated(p, 0nat) + p.take(m2.cursor as int) =~= p.take(m2.cursor as int));
        let sig = spec_push(m, c).1;
        let occurrence = e >= l && s.subrange(e - l, e) == p && (g0.len() == 0 || g0.last() <= e
            - l);

        // a signal is exactly the completion of a usable occurrence
        if sig is Some {
            assert(m2.cursor == 0);
            if c == p[cu] {
                assert(cu == l - 1);
            } else {
                assert(l == 1 && c == p[0]);
            }
            assert(s.subrange(e - l, e) =~= p) by {
                assert(s0.subrange(s0.len() - cu, s0.len() as int) == p.take(cu));
                assert forall|t: int| 0 <= t < l implies #[trigger] s.subrange(e - l, e)[t]
                    == p[t] by {
                    if t < l - 1 {
                        assert(s.subrange(e - l, e)[t] == s0.subrange(
                            s0.len() - cu,
                            s0.len() as int,
                        )[t]);
                        assert(p.take(cu)[t] == p[t]);
                    } else {
                        assert(s.subrange(e - l, e)[t] == c);
                    }
                }
            }
            assert(e - l >= last_end(g0));
            assert(occurrence);
            assert(g == g0.push(e));
        } else {
            assert(!occurrence) by {
                if e >= l && s.subrange(e - l, e) == p && (g0.len() == 0 || g0.last() <= e - l) {
                    if c == p[cu] {
                        // a partial match that kept growing: the occurrence
                        // would make a pattern prefix a pattern suffix
                        assert(cu + 1 < l);
                        assert(s.subrange(e - (cu + 1), e) == p.take(cu + 1)) by {
                            assert(m2.cursor == cu + 1);
                            assert(s.subrange(e - (cu + 1), e) == repeated(p, m2.count) + p.take(
                                m2.cursor as int,
                            ));
                        }
                        assert(p.subrange(l - (cu + 1), l) =~= p.take(cu + 1)) by {
                            assert forall|t: int| 0 <= t < cu + 1 implies #[trigger] p.subrange(
                                l - (cu + 1),
                                l,
                            )[t] == p.take(cu + 1)[t] by {
                                assert(s.subrange(e - l, e)[l - (cu + 1) + t] == p[l - (cu + 1)
                                    + t]);
                                assert(s.subrange(e - (cu + 1), e)[t] == p.take(cu + 1)[t]);
                            }
                        }
                        assert(p.subrange(l - (cu + 1), l) != p.take(l - (l - (cu + 1))));
                        assert(false);
                    } else if l == 1 {
                        assert(s.subrange(e - l, e)[0] == c);
                        assert(false);
                    } else {
                        lemma_mismatch_kills_suffix(p, cap, s0, c, l);
                        assert(false);
                    }
                }
            }
            assert(g == g0);
        }

        // the pending match starts at or after the last taken end
        if sig is Some {
            assert(e - m2.cursor >= last_end(g));
        } else {
            assert(last_end(g) == last_end(g0));
            if c == p[cu] {
                assert(m2.cursor == cu + 1);
                assert(e - m2.cursor == s0.len() - cu);
            } else {
                assert(m2.cursor <= 1);
            }
            assert(e - m2.cursor >= last_end(g));
        }

        // no longer usable prefix stands at the end than the cursor records
        assert forall|k: int|
            m2.cursor < k < l && k <= e && e - k >= last_end(g) implies s.subrange(e - k, e)
            != p.take(k) by {
            if s.subrange(e - k, e) == p.take(k) {
                if sig is Some {
                    // impossible: the occurrence was just taken, so
                    // e - k >= last_end(g) == e fails for positive k
                    assert(last_end(g) == e);
                    assert(false);
                } else if c == p[cu] {
                    // the growing partial match is the longest prefix: a
                    // longer one would make a prefix of the pattern overlap
                    // itself
                    assert(k >= 2);
                    assert(c == p[k - 1]) by {
                        assert(s.subrange(e - k, e)[k - 1] == c);
                    }
                    assert(s0.subrange(s0.len() - (k - 1), s0.len() as int) =~= p.take(k - 1)) by {
                        assert forall|t: int| 0 <= t < k - 1 implies #[trigger] s0.subrange(
                            s0.len() - (k - 1),
                            s0.len() as int,
                        )[t] == p.take(k - 1)[t] by {
                            assert(s.subrange(e - k, e)[t] == p.take(k)[t]);
                        }
                    }
                    if k - 1 == cu {
                        assert(p.take(cu + 1)[cu] == p[cu]);
                        assert(p.take(k)[k - 1] == p[k - 1]);
                        assert(m2.cursor == cu + 1);
                        assert(false);
                    } else if k - 1 > cu {
                        assert(s0.subrange(s0.len() - (k - 1), s0.len() as int) != p.take(k - 1));
                        assert(false);
                    } else {
                        assert(k - 1 >= m2.cursor);
                        assert(false);
                    }
                } else {
                    if k == 1 {
                        assert(s.subrange(e - 1, e)[0] == c);
                        assert(c == p[0]);
                        assert(m2.cursor == 1);
                        assert(false);
                    } else {
                        lemma_mismatch_kills_suffix(p, cap, s0, c, k);
                        assert(false);
                    }
                }
            }
        }
    }
}

/// For an overlap-free pattern and `min_match = 0`, the matcher signals the
/// pattern's length exactly once per non-overlapping left-to-right
/// occurrence of the pattern and never otherwise: the push of `s[j]`
/// signals precisely when position `j + 1` ends the next occurrence of the
/// greedy scan.
pub proof fn lemma_oneshot_exactly_greedy(p: Seq<u8>, cap: nat, s: Seq<u8>, j: int)
    requires
        p.len() > 0,
        overlap_free(p),
        0 <= j < s.len(),
    ensures
        ({
            let m0 = initial_model(p, cap, 0);
            let before = greedy_ends(p, s.take(j));
            let after = greedy_ends(p, s.take(j + 1));
            &&& (signal_at(m0, s, j) is Some <==> after == before.push(j + 1))
            &&& (signal_at(m0, s, j) is None <==> after == before)
            &&& (signal_at(m0, s, j) is Some ==> signal_at(m0, s, j) == Some(p.len() as int))
        }),
{
    let m0 = initial_model(p, cap, 0);
    lemma_oneshot_tracks_greedy(p, cap, s.take(j + 1));
    assert(s.take(j + 1).drop_last() =~= s.take(j));
    assert(s.take(j + 1).last() == s[j]);
    if signal_at(m0, s, j) is Some {
        lemma_oneshot_signal_is_occurrence(p, cap, s, j);
    }
    assert(greedy_ends(p, s.take(j)).push(j + 1).len() != greedy_ends(p, s.take(j)).len());
}

/// For an overlap-free pattern and `min_match = 0`, occurrences can never
/// overlap, so the greedy scan takes every one of them and the automaton's
/// signals have a direct reading: the push of `s[j]` signals exactly when
/// the input consumed so far ends with the pattern, and the signal is
/// always the pattern's length — once per occurrence, never otherwise.
pub proof fn lemma_oneshot_signals_iff_suffix(p: Seq<u8>, cap: nat, s: Seq<u8>, j: int)
    requires
        p.len() > 0,
        overlap_free(p),
        0 <= j < s.len(),
    ensures
        ({
            let m0 = initial_model(p, cap, 0);
            &&& (signal_at(m0, s, j) is Some <==> (p.len() <= j + 1 && s.take(j + 1).subrange(
                j + 1 - p.len(),
                j + 1,
            ) == p))
            &&& (signal_at(m0, s, j) is Some ==> signal_at(m0, s, j) == Some(p.len() as int))
        }),
{
    let m0 = initial_model(p, cap, 0);
    let l = p.len() as int;
    lemma_oneshot_signal_is_occurrence(p, cap, s, j);
    lemma_oneshot_exactly_greedy(p, cap, s, j);
    assert(s.take(j + 1).drop_last() =~= s.take(j));
    if l <= j + 1 && s.take(j + 1).subrange(j + 1 - l, j + 1) == p {
        // the ending occurrence cannot overlap the last occurrence the
        // greedy scan took, so the scan takes it — and therefore the
        // automaton signals
        let g0 = greedy_ends(p, s.take(j));
        if g0.len() > 0 {
            lemma_greedy_last_is_occurrence(p, s.take(j));
            let e1 = g0.last();
            if e1 > j + 1 - l {
                let d = j + 1 - e1;
                assert forall|t: int| 0 <= t < l - d implies p[t] == #[trigger] p[t + d] by {
                    assert(s.take(j + 1).subrange(j + 1 - l, j + 1)[t] == p[t]);
                    assert(s.take(j).subrange(e1 - l, e1)[t + d] == p[t + d]);
                    assert(s.take(j + 1)[j + 1 - l + t] == s.take(j)[e1 - l + (t + d)]);
                }
                assert(p.subrange(d, l) =~= p.take(l - d));
                assert(p.subrange(d, l) != p.take(l - d));
                assert(false);
            }
        }
        assert(greedy_ends(p, s.take(j + 1)) == g0.push(j + 1));
    }
}

/// With `min_match = 0`, two signals are always at least a pattern length
/// apart: the occurrences that one-shot signals mark never overlap.
pub proof fn lemma_oneshot_signals_disjoint(p: Seq<u8>, cap: nat, s: Seq<u8>, j1: int, j2: int)
    requires
        p.len() > 0,
        0 <= j1 < j2 < s.len(),
        signal_at(initial_model(p, cap, 0), s, j1) is Some,
        signal_at(initial_model(p, cap, 0), s, j2) is Some,
    ensures
        j2 - j1 >= p.len(),
{
    let m0 = initial_model(p, cap, 0);
    let m = run_from(m0, s.take(j2));
    lemma_oneshot_cursor_creep(p, cap, s, j1, j2);
    lemma_run_is_suffix(p, cap, 0, s.take(j2));
    let c = s[j2];
    let l = p.len() as int;
    let cu = m.cursor as int;
    if c == p[cu] {
        // a direct completion needs the cursor at the end of the pattern,
        // and the cursor can only have crept up one byte per push since the
        // previous signal reset it
        assert(cu == l - 1);
    } else {
        // a restart completion means the pattern has length one
        assert(l == 1);
    }
}

} // verus!
