//! The carving workflow.
//!
//! A [`Carver`] drives one run-counting matcher (context buffer enabled) over
//! an input stream one byte at a time and turns each *distinct* marker-run
//! boundary into a file transition: the previously open output is closed
//! with exactly the payload bytes that belong to it, and a new output named
//! after the recovered trailing context is opened.  The carver itself does
//! no I/O; every [`Carver::step`] returns a [`CarveStep`] instruction that a
//! thin driver executes.

use vstd::prelude::*;
use crate::circular_buffer::lemma_window_after_appends;
use crate::circular_buffer::window_model;
use crate::matcher_laws::lemma_run_is_suffix;
use crate::matcher_laws::lemma_window_is_recent_history;
use crate::matcher_laws::lemma_window_model_is_shifted_all;
use crate::matcher_laws::run_from;
use crate::matcher_laws::signal_at;
use crate::pattern::Pattern;
use crate::pattern::MatcherModel;
use crate::pattern::spec_push;
use crate::pattern::model_wf;
use crate::pattern::initial_model;
use crate::pattern::lemma_push_progress;
use vstd::slice::slice_subrange;
use vstd::slice::slice_to_vec;

verus! {

/// Backslash bytes replaced by forward slashes, for portable path
/// construction from a recovered name.
pub open spec fn slashed(s: Seq<u8>) -> Seq<u8> {
    s.map_values(|c: u8| if c == 92 { 47u8 } else { c })
}

/// The smallest back-offset `i` in `[from, w.len() - 1)` such that the byte
/// `i + 1` positions before the end of `w` is zero; `None` when there is no
/// such offset.  The scan starts one byte before the end of the window and
/// stops before its first byte, so neither of those two is ever examined.
pub open spec fn name_split(w: Seq<u8>, from: int) -> Option<int>
    decreases w.len() - from,
{
    if from < 1 || from >= w.len() - 1 {
        None
    } else if w[w.len() - from - 1] == 0 {
        Some(from)
    } else {
        name_split(w, from + 1)
    }
}

/// The name recovered from a context window: the bytes strictly after the
/// zero byte nearest the end, slash-normalised; `None` when no zero byte
/// precedes the tail.
pub open spec fn recovered_name(w: Seq<u8>) -> Option<Seq<u8>> {
    match name_split(w, 1) {
        None => None,
        Some(i) => Some(slashed(w.subrange(w.len() - i, w.len() as int))),
    }
}

proof fn lemma_name_split_walks_name(w: Seq<u8>, nm: Seq<u8>, i: int)
    requires
        1 <= i <= nm.len(),
        nm.len() + 2 <= w.len(),
        w.subrange(w.len() - nm.len() - 1, w.len() as int) == seq![0u8] + nm,
        forall|t: int| 0 <= t < nm.len() ==> nm[t] != 0,
    ensures
        name_split(w, i) == Some(nm.len() as int),
    decreases nm.len() - i,
{
    let l = w.len() as int;
    if i < nm.len() {
        assert(w[l - i - 1] == (seq![0u8] + nm)[nm.len() - i]);
        assert(w[l - i - 1] == nm[nm.len() - i - 1]);
        lemma_name_split_walks_name(w, nm, i + 1);
    } else {
        assert(w[l - i - 1] == (seq![0u8] + nm)[0]);
    }
}

/// When the window ends with a zero byte followed by a zero-free name, the
/// recovery scan finds exactly that name (slash-normalised): the zero is
/// the nearest one to the end, so nothing more and nothing less is taken.
pub proof fn lemma_recovery_finds_trailing_name(w: Seq<u8>, nm: Seq<u8>)
    requires
        1 <= nm.len(),
        nm.len() + 2 <= w.len(),
        w.subrange(w.len() - nm.len() - 1, w.len() as int) == seq![0u8] + nm,
        forall|t: int| 0 <= t < nm.len() ==> nm[t] != 0,
    ensures
        recovered_name(w) == Some(slashed(nm)),
{
    let l = w.len() as int;
    lemma_name_split_walks_name(w, nm, 1);
    assert(w.subrange(l - nm.len(), l) =~= nm) by {
        assert forall|t: int| 0 <= t < nm.len() implies #[trigger] w.subrange(
            l - nm.len(),
            l,
        )[t] == nm[t] by {
            assert(w.subrange(l - nm.len() - 1, l)[t + 1] == (seq![0u8] + nm)[t + 1]);
        }
    }
}

/// The validation policy for recovered names: a name is used as a path
/// segment only when every byte (after backslash normalisation) is
/// printable ASCII, `0x20` through `0x7e`.  Recovered bytes outside that
/// range are never silently turned into a path; the workflow rejects the
/// boundary instead.
pub open spec fn valid_name(nm: Seq<u8>) -> bool {
    forall|t: int| 0 <= t < nm.len() ==> 0x20 <= #[trigger] nm[t] <= 0x7e
}

/// Whether a recovered name passes the [`valid_name`] path-text policy.
pub fn is_valid_name(v: &Vec<u8>) -> (r: bool)
    ensures
        r == valid_name(v@),
{
    let mut j: usize = 0;
    while j < v.len()
        invariant
            j <= v@.len(),
            forall|t: int| 0 <= t < j ==> 0x20 <= #[trigger] v@[t] <= 0x7e,
        decreases v@.len() - j,
    {
        let c = v[j];
        if c < 0x20 || c > 0x7e {
            return false;
        }
        j += 1;
    }
    true
}

/// Scans the matcher's context window backward from the end for the nearest
/// zero byte and returns the bytes strictly after it, with backslashes
/// normalised to slashes.  Must only be called when no partial match is
/// pending (right after a signal, the cursor is always zero).
pub fn get_filename(p: &Pattern) -> (r: Option<Vec<u8>>)
    requires
        p.wf(),
        p@.cursor == 0,
    ensures
        ({
            let rec = recovered_name(p@.window);
            match r {
                None => rec is None,
                Some(v) => rec == Some(v@) && v@.len() < p@.window.len(),
            }
        }),
{
    let b = p.peek();
    let l = b.len();
    if l < 2 {
        return None;
    }
    let mut i: usize = 1;
    let mut found = false;
    while i + 1 < l
        invariant_except_break
            !found,
        invariant
            1 <= i,
            i < l,
            l == b@.len(),
            b@ == p@.window,
            !found ==> name_split(b@, 1) == name_split(b@, i as int),
            found ==> name_split(b@, 1) == Some(i as int),
        ensures
            1 <= i,
            i < l,
            !found ==> name_split(b@, 1) is None,
            found ==> name_split(b@, 1) == Some(i as int),
        decreases l - i,
    {
        if b[l - i - 1] == 0 {
            proof {
                assert(name_split(b@, i as int) == Some(i as int));
            }
            found = true;
            break;
        }
        i += 1;
    }
    if !found {
        return None;
    }
    // the window splits at the zero byte: the name is the last `i` bytes
    let mut v: Vec<u8> = Vec::new();
    let mut j: usize = l - i;
    while j < l
        invariant
            l - i <= j <= l,
            l == b@.len(),
            1 <= i < l,
            b@ == p@.window,
            v@ == slashed(b@.subrange(l - i, j as int)),
        decreases l - j,
    {
        let c = b[j];
        let d = if c == 92 {
            47
        } else {
            c
        };
        v.push(d);
        proof {
            assert(b@.subrange(l - i, j + 1) =~= b@.subrange(l - i, j as int).push(b@[j as int]));
            assert(v@ =~= slashed(b@.subrange(l - i, j + 1)));
        }
        j += 1;
    }
    Some(v)
}

/// The abstract state of the carving workflow.
pub struct CarverModel {
    pub matcher: MatcherModel,
    pub buffer: Seq<u8>,
    pub read: int,
    pub last_p: int,
    pub last_n: int,
    pub file_open: bool,
}

/// What the driver must do after one byte was consumed.
pub enum CarveStep {
    /// Nothing: the byte was payload (now accumulated) or part of a pending
    /// or already handled marker run.
    Quiet,
    /// A new boundary was confirmed but no zero byte precedes the context
    /// tail: no file is closed or opened, scanning simply continues.
    NameNotFound { boundary: usize },
    /// A new boundary with a recovered name: write `close` (if a file was
    /// open) to the current output, close it, and open a fresh output at
    /// the recovered relative path.
    NewFile { name: Vec<u8>, close: Option<Vec<u8>> },
    /// A new boundary whose recovered bytes are not valid path text under
    /// the [`valid_name`] policy: no file is closed or opened, the boundary
    /// is recorded and scanning continues — the same lossy outcome as a
    /// failed recovery, but reported with the offending bytes.
    NameRejected { name: Vec<u8> },
    /// A new boundary with a recovered name, but the accumulated bytes are
    /// too few to contain the implied marker-and-name trailer (or start with
    /// a zero byte where a payload cannot): nothing can be written; the open
    /// output is abandoned and a fresh one is opened at the recovered path.
    Malformed { name: Vec<u8> },
}

pub enum CarveStepModel {
    Quiet,
    NameNotFound { boundary: int },
    NameRejected { name: Seq<u8> },
    NewFile { name: Seq<u8>, close: Option<Seq<u8>> },
    Malformed { name: Seq<u8> },
}

impl View for CarveStep {
    type V = CarveStepModel;

    closed spec fn view(&self) -> CarveStepModel {
        match self {
            CarveStep::Quiet => CarveStepModel::Quiet,
            CarveStep::NameNotFound { boundary } => CarveStepModel::NameNotFound {
                boundary: *boundary as int,
            },
            CarveStep::NameRejected { name } => CarveStepModel::NameRejected { name: name@ },
            CarveStep::NewFile { name, close } => CarveStepModel::NewFile {
                name: name@,
                close: match close {
                    None => None,
                    Some(v) => Some(v@),
                },
            },
            CarveStep::Malformed { name } => CarveStepModel::Malformed { name: name@ },
        }
    }
}

/// One step of the workflow on the abstract state: feed the byte to the
/// matcher; a silent byte is accumulated as payload of the currently open
/// file; a signal whose boundary was already handled is ignored; a new
/// boundary closes the open file with the accumulated payload (its length is
/// the accumulation minus marker run, recovered name and one separator byte)
/// and opens an output at the recovered name, or skips the transition
/// entirely when no name can be recovered or the recovered bytes fail the
/// [`valid_name`] path-text policy.
pub open spec fn spec_carve_step(s: CarverModel, d: u8) -> (CarverModel, CarveStepModel) {
    let (m2, sig) = spec_push(s.matcher, d);
    let read2 = s.read + 1;
    match sig {
        None => (
            CarverModel { matcher: m2, buffer: s.buffer.push(d), read: read2, ..s },
            CarveStepModel::Quiet,
        ),
        Some(n) => {
            let b = read2 - n;
            if b == s.last_p {
                (CarverModel { matcher: m2, read: read2, ..s }, CarveStepModel::Quiet)
            } else {
                match recovered_name(m2.window) {
                    None => (
                        CarverModel { matcher: m2, read: read2, last_p: b, last_n: n, ..s },
                        CarveStepModel::NameNotFound { boundary: b },
                    ),
                    Some(nm) => {
                        let s2 = CarverModel {
                            matcher: m2,
                            buffer: Seq::empty(),
                            read: read2,
                            last_p: b,
                            last_n: n,
                            file_open: true,
                        };
                        if !valid_name(nm) {
                            (
                                CarverModel {
                                    matcher: m2,
                                    read: read2,
                                    last_p: b,
                                    last_n: n,
                                    ..s
                                },
                                CarveStepModel::NameRejected { name: nm },
                            )
                        } else if !s.file_open {
                            (s2, CarveStepModel::NewFile { name: nm, close: None })
                        } else if s.buffer.len() >= s.last_n + nm.len() + 1 && s.buffer[0] != 0 {
                            (
                                s2,
                                CarveStepModel::NewFile {
                                    name: nm,
                                    close: Some(
                                        s.buffer.take(s.buffer.len() - s.last_n - nm.len() - 1),
                                    ),
                                },
                            )
                        } else {
                            (s2, CarveStepModel::Malformed { name: nm })
                        }
                    },
                }
            }
        },
    }
}

/// At a marker-run boundary the workflow recovers exactly the name that the
/// image carries: if the bytes in front of the pending marker run end with
/// a zero byte and then a zero-free name that fits the context window, the
/// window at the signal holds that trailer and the recovery scan returns
/// that very name, slash-normalised.
pub proof fn lemma_boundary_recovers_name(
    p: Seq<u8>,
    cap: nat,
    k: nat,
    s: Seq<u8>,
    j: int,
    nm: Seq<u8>,
)
    requires
        p.len() > 0,
        k >= 1,
        0 <= j < s.len(),
        signal_at(initial_model(p, cap, k), s, j) is Some,
        ({
            let m2 = run_from(initial_model(p, cap, k), s.take(j + 1));
            let pre = s.take(j + 1 - p.len() * m2.count);
            &&& 1 <= nm.len()
            &&& nm.len() + 2 <= cap
            &&& nm.len() + 1 <= pre.len()
            &&& pre.subrange(pre.len() - nm.len() - 1, pre.len() as int) == seq![0u8] + nm
            &&& forall|t: int| 0 <= t < nm.len() ==> nm[t] != 0
        }),
    ensures
        recovered_name(run_from(initial_model(p, cap, k), s.take(j + 1)).window) == Some(
            slashed(nm),
        ),
{
    let m0 = initial_model(p, cap, k);
    let su = s.take(j + 1);
    let m2 = run_from(m0, su);
    assert(su.drop_last() =~= s.take(j));
    assert(su.last() == s[j]);
    lemma_run_is_suffix(p, cap, k, s.take(j));
    lemma_push_progress(run_from(m0, s.take(j)), s[j]);
    assert(m2.cursor == 0);
    lemma_window_is_recent_history(p, cap, k, su);
    let tot = p.len() * m2.count + m2.cursor;
    let pre = s.take(j + 1 - p.len() * m2.count);
    assert(su.take(su.len() - tot) =~= pre);
    lemma_window_model_is_shifted_all(cap, pre);
    lemma_window_after_appends(cap, pre);
    let w = m2.window;
    assert(w == window_model(cap, pre));
    assert(w.len() == cap);
    assert(w.subrange(w.len() - nm.len() - 1, w.len() as int) =~= seq![0u8] + nm) by {
        assert forall|t: int| 0 <= t < nm.len() + 1 implies #[trigger] w.subrange(
            w.len() - nm.len() - 1,
            w.len() as int,
        )[t] == (seq![0u8] + nm)[t] by {
            if pre.len() >= cap {
                assert(w[cap - nm.len() - 1 + t] == pre[pre.len() - nm.len() - 1 + t]);
            } else {
                assert(w[cap - nm.len() - 1 + t] == (Seq::new(
                    (cap - pre.len()) as nat,
                    |i: int| 0u8,
                ) + pre)[cap - nm.len() - 1 + t]);
                assert(w[cap - nm.len() - 1 + t] == pre[pre.len() - nm.len() - 1 + t]);
            }
            assert(pre.subrange(pre.len() - nm.len() - 1, pre.len() as int)[t] == (seq![0u8]
                + nm)[t]);
        }
    }
    lemma_recovery_finds_trailing_name(w, nm);
}

/// A boundary whose name cannot be recovered, or whose recovered bytes are
/// not valid path text, is lossy, never fatal: no output is closed or
/// opened, the accumulated payload is left untouched, and only the boundary
/// bookkeeping moves on — so boundaries that follow are carved as usual,
/// with the unclaimed bytes merging into whichever output is opened next.
pub proof fn lemma_failed_recovery_only_records(s: CarverModel, d: u8)
    ensures
        ({
            let (s2, act) = spec_carve_step(s, d);
            act is NameNotFound || act is NameRejected ==> {
                &&& s2.buffer == s.buffer
                &&& s2.file_open == s.file_open
                &&& s2.matcher == spec_push(s.matcher, d).0
                &&& s2.read == s.read + 1
            }
        }),
{
}

/// The carver state after consuming every byte of `bs` in order.
pub open spec fn carve_run(s: CarverModel, bs: Seq<u8>) -> CarverModel
    decreases bs.len(),
{
    if bs.len() == 0 {
        s
    } else {
        spec_carve_step(carve_run(s, bs.drop_last()), bs.last()).0
    }
}

/// The bytes of `bs` whose push stays silent when a matcher in state `m`
/// consumes `bs`: everything except the bytes of signalling pushes.
pub open spec fn silent_bytes(m: MatcherModel, bs: Seq<u8>) -> Seq<u8>
    decreases bs.len(),
{
    if bs.len() == 0 {
        Seq::empty()
    } else {
        let pre = silent_bytes(m, bs.drop_last());
        if spec_push(run_from(m, bs.drop_last()), bs.last()).1 is None {
            pre.push(bs.last())
        } else {
            pre
        }
    }
}

/// The matcher inside the workflow sees every byte, whatever the workflow
/// does with the outcome, and the offset counts every byte.
pub proof fn lemma_carver_matcher_sees_all(s: CarverModel, bs: Seq<u8>)
    ensures
        carve_run(s, bs).matcher == run_from(s.matcher, bs),
        carve_run(s, bs).read == s.read + bs.len(),
    decreases bs.len(),
{
    if bs.len() > 0 {
        lemma_carver_matcher_sees_all(s, bs.drop_last());
    }
}

/// Between file transitions the accumulation buffer is append-only: as long
/// as no step of the stretch opens a new output, the buffer grows by
/// exactly the bytes whose push stayed silent — the live payload of
/// whichever output is currently open.
pub proof fn lemma_buffer_accumulates_silent_bytes(s: CarverModel, bs: Seq<u8>)
    requires
        forall|i: int|
            0 <= i < bs.len() ==> !((#[trigger] spec_carve_step(
                carve_run(s, bs.take(i)),
                bs[i],
            ).1) is NewFile || spec_carve_step(carve_run(s, bs.take(i)), bs[i]).1 is Malformed),
    ensures
        carve_run(s, bs).buffer == s.buffer + silent_bytes(s.matcher, bs),
        carve_run(s, bs).file_open == s.file_open,
    decreases bs.len(),
{
    if bs.len() == 0 {
        assert(s.buffer + silent_bytes(s.matcher, bs) =~= s.buffer);
    } else {
        let bs0 = bs.drop_last();
        let c = bs.last();
        assert forall|i: int| 0 <= i < bs0.len() implies !((#[trigger] spec_carve_step(
            carve_run(s, bs0.take(i)),
            bs0[i],
        ).1) is NewFile || spec_carve_step(carve_run(s, bs0.take(i)), bs0[i]).1
            is Malformed) by {
            assert(bs0.take(i) =~= bs.take(i));
            assert(bs0[i] == bs[i]);
            assert(!(spec_carve_step(carve_run(s, bs.take(i)), bs[i]).1 is NewFile
                || spec_carve_step(carve_run(s, bs.take(i)), bs[i]).1 is Malformed));
        }
        lemma_buffer_accumulates_silent_bytes(s, bs0);
        lemma_carver_matcher_sees_all(s, bs0);
        let mid = carve_run(s, bs0);
        assert(bs.take(bs0.len() as int) =~= bs0);
        assert(!(spec_carve_step(mid, c).1 is NewFile) && !(spec_carve_step(mid, c).1
            is Malformed));
        if spec_push(mid.matcher, c).1 is None {
            assert(carve_run(s, bs).buffer =~= s.buffer + silent_bytes(s.matcher, bs));
        } else {
            assert(carve_run(s, bs).buffer =~= s.buffer + silent_bytes(s.matcher, bs));
        }
    }
}

/// The carving workflow state right after construction.
pub open spec fn initial_carver(p: Seq<u8>, cap: nat, k: nat) -> CarverModel {
    CarverModel {
        matcher: initial_model(p, cap, k),
        buffer: Seq::empty(),
        read: 0,
        last_p: 0,
        last_n: 0,
        file_open: false,
    }
}

pub struct Carver {
    matcher: Pattern,
    buffer: Vec<u8>,
    read: usize,
    last_p: usize,
    last_n: usize,
    file_open: bool,
}

impl View for Carver {
    type V = CarverModel;

    closed spec fn view(&self) -> CarverModel {
        CarverModel {
            matcher: self.matcher@,
            buffer: self.buffer@,
            read: self.read as int,
            last_p: self.last_p as int,
            last_n: self.last_n as int,
            file_open: self.file_open,
        }
    }
}

/// Everything the workflow relies on between steps: a well-formed matcher,
/// a pending run never longer than what was read, recorded boundary data
/// within the bytes read so far, and sizes small enough that no arithmetic
/// in a step can overflow.
pub open spec fn carver_model_wf(s: CarverModel) -> bool {
    &&& model_wf(s.matcher)
    &&& s.matcher.pattern.len() * s.matcher.count + s.matcher.cursor <= s.read
    &&& 0 <= s.last_p <= s.read
    &&& 0 <= s.last_n <= s.read
    &&& s.matcher.pattern.len() <= isize::MAX as int / 4
    &&& s.matcher.window.len() <= usize::MAX / 2
}

impl Carver {
    pub closed spec fn wf(&self) -> bool {
        &&& self.matcher.wf()
        &&& carver_model_wf(self@)
    }

    /// A workflow over a marker `pattern` that must repeat back-to-back at
    /// least `min_repeats` times, retaining `context` bytes of trailing
    /// context for name recovery.
    pub fn new(pattern: &[u8], context: usize, min_repeats: usize) -> (r: Self)
        requires
            pattern@.len() <= isize::MAX as int / 4,
            context <= usize::MAX / 2,
        ensures
            r.wf(),
            r@ == initial_carver(pattern@, context as nat, min_repeats as nat),
    {
        let matcher = Pattern::new(pattern).lookback(context).repeats(min_repeats);
        let r = Carver {
            matcher,
            buffer: Vec::new(),
            read: 0,
            last_p: 0,
            last_n: 0,
            file_open: false,
        };
        proof {
            let l = pattern@.len();
            assert(l * 0 == 0) by (nonlinear_arith);
            assert(r@.buffer =~= initial_carver(
                pattern@,
                context as nat,
                min_repeats as nat,
            ).buffer);
        }
        r
    }

    /// Consumes one byte of the input and says what the driver must do.
    /// State and instruction are exactly those of [`spec_carve_step`].
    pub fn step(&mut self, d: u8) -> (r: CarveStep)
        requires
            old(self).wf(),
            old(self)@.read < isize::MAX as int / 4,
        ensures
            final(self).wf(),
            final(self)@ == spec_carve_step(old(self)@, d).0,
            r@ == spec_carve_step(old(self)@, d).1,
    {
        proof {
            lemma_push_progress(old(self)@.matcher, d);
            let l: nat = old(self)@.matcher.pattern.len();
            let ct: nat = old(self)@.matcher.count;
            assert(l * (ct + 1) == l * ct + l) by (nonlinear_arith);
            assert(l * ct <= l * ct + old(self)@.matcher.cursor);
            assert(old(self)@.matcher == self.matcher@);
            assert(l * ct + old(self)@.matcher.cursor <= old(self)@.read);
            assert(l * (ct + 1) <= isize::MAX as int);
        }
        let sig = self.matcher.push(d);
        self.read = self.read + 1;
        match sig {
            None => {
                self.buffer.push(d);
                CarveStep::Quiet
            },
            Some(n) => {
                let n = n as usize;
                let boundary = self.read - n;
                if boundary == self.last_p {
                    CarveStep::Quiet
                } else {
                    match get_filename(&self.matcher) {
                        None => {
                            self.last_p = boundary;
                            self.last_n = n;
                            CarveStep::NameNotFound { boundary }
                        },
                        Some(name) => {
                            if !is_valid_name(&name) {
                                self.last_p = boundary;
                                self.last_n = n;
                                return CarveStep::NameRejected { name };
                            }
                            let close: Option<Vec<u8>> = if !self.file_open {
                                None
                            } else if self.buffer.len() >= self.last_n + name.len() + 1
                                && self.buffer[0] != 0 {
                                // the true payload length: everything
                                // accumulated minus marker run, name and one
                                // separator byte
                                let end = self.buffer.len() - self.last_n - name.len() - 1;
                                Some(slice_to_vec(slice_subrange(self.buffer.as_slice(), 0, end)))
                            } else {
                                self.buffer.clear();
                                self.last_p = boundary;
                                self.last_n = n;
                                self.file_open = true;
                                return CarveStep::Malformed { name };
                            };
                            self.buffer.clear();
                            self.last_p = boundary;
                            self.last_n = n;
                            self.file_open = true;
                            CarveStep::NewFile { name, close }
                        },
                    }
                }
            },
        }
    }

    /// At end of input: the bytes still owed to the currently open output,
    /// if one is open.
    pub fn finish(&self) -> (r: Option<Vec<u8>>)
        requires
            self.wf(),
        ensures
            ({
                match r {
                    None => !self@.file_open,
                    Some(v) => self@.file_open && v@ == self@.buffer,
                }
            }),
    {
        if self.file_open {
            Some(slice_to_vec(self.buffer.as_slice()))
        } else {
            None
        }
    }
}

} // verus!
