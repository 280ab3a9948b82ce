//! A fixed-capacity ring of bytes with a mirrored layout.
//!
//! Every logical slot is stored at two physical indices, `i` and
//! `i + capacity`, so any contiguous logical range of length at most the
//! capacity can be read as one contiguous physical slice, no matter where the
//! write cursor currently sits.  All mutation goes through [`CircularBuffer::push`]
//! and [`CircularBuffer::set`], which update both mirror halves together.

use vstd::prelude::*;
use vstd::arithmetic::div_mod::lemma_fundamental_div_mod_converse;
use vstd::slice::slice_subrange;

verus! {

/// The window after appending one byte: everything slides left by one slot
/// and the new byte takes the youngest position.  Appending to a buffer of
/// capacity zero is a no-op.
pub open spec fn shifted(w: Seq<u8>, c: u8) -> Seq<u8> {
    if w.len() == 0 {
        w
    } else {
        w.subrange(1, w.len() as int).push(c)
    }
}

/// The window of a buffer of capacity `cap` after the bytes of `appends`
/// were pushed into it, starting from the all-zero window.
pub open spec fn window_model(cap: nat, appends: Seq<u8>) -> Seq<u8>
    decreases appends.len(),
{
    if appends.len() == 0 {
        Seq::new(cap, |i: int| 0u8)
    } else {
        shifted(window_model(cap, appends.drop_last()), appends.last())
    }
}

#[derive(Debug)]
pub struct CircularBuffer {
    buffer: Vec<u8>,
    p: usize,
}

impl View for CircularBuffer {
    type V = Seq<u8>;

    /// The logical window: the last `capacity` bytes in chronological order,
    /// oldest first, zero-filled for slots not written yet.  Thanks to the
    /// mirror, slot `k` can be read at physical index `p + k` without any
    /// wrap-around.
    closed spec fn view(&self) -> Seq<u8> {
        Seq::new((self.buffer@.len() / 2) as nat, |k: int| self.buffer@[self.p + k])
    }
}

impl CircularBuffer {
    /// Where the next append will land, counted from the start of the
    /// physical storage.  Exposed only so that contracts can state when an
    /// operation does not advance it.
    pub closed spec fn cursor(&self) -> nat {
        self.p as nat
    }

    /// Capacity `0` disables the buffer; the mirror halves then agree and the
    /// write cursor stays inside the first half.
    pub closed spec fn wf(&self) -> bool {
        let cap = self.buffer@.len() / 2;
        &&& self.buffer@.len() == cap * 2
        &&& (cap == 0 ==> self.p == 0)
        &&& (cap > 0 ==> self.p < cap)
        &&& forall|j: int| 0 <= j < cap ==> #[trigger] self.buffer@[j] == self.buffer@[j + cap]
    }

    pub fn new(size: usize) -> (r: Self)
        requires
            size <= usize::MAX / 2,
        ensures
            r.wf(),
            r@ == Seq::new(size as nat, |i: int| 0u8),
    {
        let mut buffer: Vec<u8> = Vec::new();
        let total = size * 2;
        let mut k: usize = 0;
        while k < total
            invariant
                k <= total,
                buffer@ == Seq::new(k as nat, |i: int| 0u8),
            decreases total - k,
        {
            buffer.push(0u8);
            proof {
                assert(buffer@ =~= Seq::new((k + 1) as nat, |i: int| 0u8));
            }
            k = k + 1;
        }
        let r = CircularBuffer { buffer, p: 0 };
        proof {
            assert(r@ =~= Seq::new(size as nat, |i: int| 0u8));
        }
        r
    }

    /// The configured capacity, not the count of bytes written so far.
    pub fn len(&self) -> (r: usize)
        requires
            self.wf(),
        ensures
            r == self@.len(),
    {
        self.buffer.len() / 2
    }

    pub fn is_empty(&self) -> (r: bool)
        requires
            self.wf(),
        ensures
            r == (self@.len() == 0),
    {
        self.buffer.len() == 0
    }

    /// Writes `c` into both mirror halves of one logical slot without moving
    /// the write cursor.  `i == 0` addresses the oldest retained byte; a
    /// positive `i` counts back from just past the youngest, so `i == 1` is
    /// the youngest byte.  Returns `None` when the buffer is disabled.
    pub fn set(&mut self, i: usize, c: u8) -> (r: Option<u8>)
        requires
            old(self).wf(),
            i < old(self)@.len() || old(self)@.len() == 0,
        ensures
            final(self).wf(),
            old(self)@.len() == 0 ==> r == None::<u8> && *final(self) == *old(self),
            old(self)@.len() > 0 ==> r == Some(c) && final(self)@ == old(self)@.update(
                if i == 0 { 0int } else { old(self)@.len() - i },
                c,
            ),
            final(self)@.len() == old(self)@.len(),
            final(self).cursor() == old(self).cursor(),
    {
        if self.buffer.is_empty() {
            return None;
        }
        let l = self.buffer.len() / 2;
        let ghost k: int = if i == 0 { 0int } else { l - i };
        let ghost x: int = self.p + l - i;
        let idx = (self.p + l - i) % l;
        proof {
            lemma_fundamental_div_mod_converse(
                x,
                l as int,
                if x < l { 0int } else { 1int },
                if x < l { x } else { x - l },
            );
        }
        self.buffer[idx] = c;
        self.buffer[idx + l] = c;
        proof {
            assert(final(self)@ =~= old(self)@.update(k, c));
        }
        Some(c)
    }

    /// Appends one byte: it becomes the youngest retained byte and the oldest
    /// falls out of the window.  A no-op when the buffer is disabled.
    pub fn push(&mut self, c: u8)
        requires
            old(self).wf(),
        ensures
            final(self).wf(),
            final(self)@ == shifted(old(self)@, c),
    {
        let empty = self.buffer.is_empty();
        self.set(0, c);
        let ghost mid = *self;
        if !empty {
            let l = self.buffer.len() / 2;
            self.p = if self.p + 1 == l {
                0
            } else {
                self.p + 1
            };
        }
        proof {
            let cap = old(self)@.len() as int;
            if cap > 0 {
                let b = self.buffer@;
                let p = mid.p as int;
                assert forall|k: int| 0 <= k < cap implies final(self)@[k] == shifted(
                    old(self)@,
                    c,
                )[k] by {
                    assert(mid@[0] == c);
                    if self.p == 0 {
                        // the cursor wrapped: p + 1 == cap
                        if k < cap - 1 {
                            assert(b[k] == b[k + cap]);
                            assert(b[p + (k + 1)] == mid@[k + 1]);
                        } else {
                            assert(b[p] == mid@[0]);
                        }
                    } else {
                        if k < cap - 1 {
                            assert(b[p + (k + 1)] == mid@[k + 1]);
                        } else {
                            assert(b[p] == b[p + cap]);
                            assert(b[p] == mid@[0]);
                        }
                    }
                }
                assert(final(self)@ =~= shifted(old(self)@, c));
            }
        }
    }

    /// The byte at logical position `i` of the window, oldest first.
    pub fn index(&self, i: usize) -> (r: u8)
        requires
            self.wf(),
            i < self@.len(),
        ensures
            r == self@[i as int],
    {
        let l = self.buffer.len() / 2;
        let idx = (self.p + i) % l;
        proof {
            lemma_fundamental_div_mod_converse(
                self.p + i,
                l as int,
                if self.p + i < l { 0int } else { 1int },
                if self.p + i < l { self.p + i } else { self.p + i - l },
            );
        }
        self.buffer[idx]
    }

    /// A read-only contiguous view of the logical range `start..end` of the
    /// window, served without copying thanks to the mirrored layout.
    pub fn window(&self, start: usize, end: usize) -> (r: &[u8])
        requires
            self.wf(),
            start <= end,
            end <= self@.len(),
            self@.len() > 0,
        ensures
            r@ == self@.subrange(start as int, end as int),
    {
        let l = self.buffer.len() / 2;
        let offset = self.p % l;
        proof {
            lemma_fundamental_div_mod_converse(self.p as int, l as int, 0int, self.p as int);
        }
        let r = slice_subrange(self.buffer.as_slice(), offset + start, offset + end);
        proof {
            assert(r@ =~= self@.subrange(start as int, end as int));
        }
        r
    }
}

/// After any sequence of appends the window length always equals the
/// capacity; once at least `cap` bytes were appended the window is exactly
/// the last `cap` appended bytes in chronological order; before that, the
/// part not written yet reads as zero.
pub proof fn lemma_window_after_appends(cap: nat, appends: Seq<u8>)
    ensures
        window_model(cap, appends).len() == cap,
        appends.len() >= cap ==> window_model(cap, appends) == appends.subrange(
            appends.len() - cap,
            appends.len() as int,
        ),
        appends.len() < cap ==> window_model(cap, appends) == Seq::new(
            (cap - appends.len()) as nat,
            |i: int| 0u8,
        ) + appends,
    decreases appends.len(),
{
    if appends.len() == 0 {
        assert(window_model(cap, appends) =~= Seq::new(cap, |i: int| 0u8) + appends);
    } else {
        let prefix = appends.drop_last();
        lemma_window_after_appends(cap, prefix);
        if cap == 0 {
            assert(window_model(cap, appends) =~= appends.subrange(
                appends.len() - cap,
                appends.len() as int,
            ));
        } else if prefix.len() >= cap {
            assert(window_model(cap, appends) =~= appends.subrange(
                appends.len() - cap,
                appends.len() as int,
            ));
        } else if appends.len() >= cap {
            // exactly cap bytes now: the last zero slot was just consumed
            assert(window_model(cap, appends) =~= appends.subrange(
                appends.len() - cap,
                appends.len() as int,
            ));
        } else {
            assert(window_model(cap, appends) =~= Seq::new(
                (cap - appends.len()) as nat,
                |i: int| 0u8,
            ) + appends);
        }
    }
}

} // verus!
