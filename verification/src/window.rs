//! A fixed-capacity sliding window over the most recent values.
//!
//! The trees keep the last values they were fed so that the oldest can be
//! taken out again when a new one comes in, and the thresholds keep their
//! last decisions. Both use a ring buffer: a write position that wraps
//! around and a flag that is set once the buffer has been filled.
use vstd::prelude::*;

verus! {

/// The contents of a window, oldest first, and how many values were pushed
/// into it since it was made.
pub struct WindowView<T> {
    pub items: Seq<T>,
    pub pushed: nat,
    pub capacity: nat,
}

/// A ring buffer of the last `capacity` values pushed.
pub struct SlidingWindow<T> {
    buf: Vec<T>,
    pos: usize,
    filled: bool,
    pushed: Ghost<nat>,
}

impl<T> View for SlidingWindow<T> {
    type V = WindowView<T>;

    closed spec fn view(&self) -> WindowView<T> {
        WindowView {
            items: if self.filled {
                self.buf@.subrange(self.pos as int, self.buf@.len() as int) + self.buf@.subrange(
                    0,
                    self.pos as int,
                )
            } else {
                self.buf@.subrange(0, self.pos as int)
            },
            pushed: self.pushed@,
            capacity: self.buf@.len(),
        }
    }
}

impl<T: Copy> SlidingWindow<T> {
    /// The ring buffer is consistent: its write position is the number of
    /// values pushed modulo the capacity, and it counts as filled once that
    /// number reaches the capacity.
    pub closed spec fn wf(&self) -> bool {
        &&& self.buf@.len() > 0
        &&& self.pos < self.buf@.len()
        &&& self.filled <==> self.pushed@ >= self.buf@.len()
        &&& self.pos == self.pushed@ % (self.buf@.len() as nat)
    }

    /// An empty window of `capacity` slots, all holding `fill`.
    pub fn new(capacity: usize, fill: T) -> (w: Self)
        requires
            capacity > 0,
        ensures
            w.wf(),
            w@.items == Seq::<T>::empty(),
            w@.pushed == 0,
            w@.capacity == capacity,
    {
        let mut buf: Vec<T> = Vec::new();
        let mut i: usize = 0;
        while i < capacity
            invariant
                i <= capacity,
                buf@.len() == i,
            decreases capacity - i,
        {
            buf.push(fill);
            i = i + 1;
        }
        let w = SlidingWindow { buf, pos: 0, filled: false, pushed: Ghost(0) };
        assert(w@.items =~= Seq::<T>::empty());
        w
    }

    /// Adds `value` as the newest value. When the window was full, the
    /// oldest value leaves it and is returned.
    pub fn push(&mut self, value: T) -> (evicted: Option<T>)
        requires
            old(self).wf(),
        ensures
            final(self).wf(),
            final(self)@.capacity == old(self)@.capacity,
            final(self)@.pushed == old(self)@.pushed + 1,
            old(self)@.items.len() < old(self)@.capacity ==> {
                &&& evicted is None
                &&& final(self)@.items == old(self)@.items.push(value)
            },
            old(self)@.items.len() == old(self)@.capacity ==> {
                &&& evicted == Some(old(self)@.items[0])
                &&& final(self)@.items == old(self)@.items.drop_first().push(value)
            },
    {
        let cap = self.buf.len();
        let ghost old_buf = self.buf@;
        let ghost old_items = self@.items;
        let evicted = if self.filled {
            Some(self.buf[self.pos])
        } else {
            None
        };
        let p = self.pos;
        self.buf.set(p, value);
        let next = if p + 1 == cap { 0 } else { p + 1 };
        self.pos = next;
        if next == 0 {
            self.filled = true;
        }
        self.pushed = Ghost(self.pushed@ + 1);
        proof {
            let n = old(self).pushed@;
            let c = cap as int;
            let q = n as int / c;
            vstd::arithmetic::div_mod::lemma_fundamental_div_mod(n as int, c);
            assert(n as int == c * q + p);
            if p + 1 == cap {
                assert(n as int + 1 == (q + 1) * c + 0) by (nonlinear_arith)
                    requires n as int == c * q + p, p + 1 == c;
                vstd::arithmetic::div_mod::lemma_fundamental_div_mod_converse(n as int + 1, c, q + 1, 0);
            } else {
                assert(n as int + 1 == q * c + (p + 1)) by (nonlinear_arith)
                    requires n as int == c * q + p;
                vstd::arithmetic::div_mod::lemma_fundamental_div_mod_converse(n as int + 1, c, q, p + 1);
            }
            if !old(self).filled {
                vstd::arithmetic::div_mod::lemma_small_mod(n, cap as nat);
            }
            if old(self).filled {
                assert(old_items[0] == old_buf[p as int]);
                if p + 1 == cap {
                    assert(self@.items =~= old_items.drop_first().push(value));
                } else {
                    assert(self@.items =~= old_items.drop_first().push(value));
                }
            } else {
                if p + 1 == cap {
                    assert(self@.items =~= old_items.push(value));
                } else {
                    assert(self@.items =~= old_items.push(value));
                }
            }
        }
        evicted
    }

    /// A window holds the `min(pushed, capacity)` values pushed last, and has
    /// room for at least one.
    pub proof fn lemma_len(&self)
        requires
            self.wf(),
        ensures
            self@.capacity > 0,
            self@.items.len() == if self@.pushed < self@.capacity {
                self@.pushed
            } else {
                self@.capacity
            },
    {
        if !self.filled {
            vstd::arithmetic::div_mod::lemma_small_mod(self.pushed@, self.buf@.len() as nat);
        }
    }

    /// The `i`-th value held, counting from the oldest.
    pub fn get(&self, i: usize) -> (v: T)
        requires
            self.wf(),
            i < self@.items.len(),
        ensures
            v == self@.items[i as int],
    {
        if self.filled {
            let cap = self.buf.len();
            let k = if i < cap - self.pos {
                self.pos + i
            } else {
                i - (cap - self.pos)
            };
            self.buf[k]
        } else {
            self.buf[i]
        }
    }

    /// The number of values the window holds.
    pub fn len(&self) -> (n: usize)
        requires
            self.wf(),
        ensures
            n == self@.items.len(),
    {
        if self.filled {
            self.buf.len()
        } else {
            self.pos
        }
    }

    /// Whether the window holds `capacity` values.
    pub fn is_full(&self) -> (full: bool)
        requires
            self.wf(),
        ensures
            full == (self@.items.len() == self@.capacity),
    {
        self.filled
    }

    /// Where the next value is written: the number of values pushed so far,
    /// modulo the capacity.
    pub fn position(&self) -> (p: usize)
        requires
            self.wf(),
        ensures
            p == self@.pushed % self@.capacity,
    {
        self.pos
    }
}

/// How many of the flags are set.
pub open spec fn count_true(s: Seq<bool>) -> nat
    decreases s.len(),
{
    if s.len() == 0 {
        0
    } else {
        count_true(s.drop_last()) + if s.last() {
            1nat
        } else {
            0nat
        }
    }
}

/// Counting the set flags of two pieces adds up.
pub proof fn lemma_count_true_add(a: Seq<bool>, b: Seq<bool>)
    ensures
        count_true(a + b) == count_true(a) + count_true(b),
        count_true(a) <= a.len(),
    decreases b.len(),
{
    if b.len() == 0 {
        assert(a + b =~= a);
        lemma_count_true_bound(a);
    } else {
        assert((a + b).drop_last() =~= a + b.drop_last());
        lemma_count_true_add(a, b.drop_last());
    }
}

/// At most every flag is set.
pub proof fn lemma_count_true_bound(s: Seq<bool>)
    ensures
        count_true(s) <= s.len(),
    decreases s.len(),
{
    if s.len() > 0 {
        lemma_count_true_bound(s.drop_last());
    }
}

impl SlidingWindow<bool> {
    /// How many of the flags in the window are set.
    pub fn count_true(&self) -> (n: usize)
        requires
            self.wf(),
        ensures
            n == count_true(self@.items),
    {
        let len = self.len();
        let mut n: usize = 0;
        let mut i: usize = 0;
        while i < len
            invariant
                len <= self.buf@.len(),
                i <= len,
                n == count_true(self.buf@.subrange(0, i as int)),
                n <= i,
            decreases len - i,
        {
            proof {
                assert(self.buf@.subrange(0, i + 1).drop_last() =~= self.buf@.subrange(0, i as int));
            }
            if self.buf[i] {
                n = n + 1;
            }
            i = i + 1;
        }
        proof {
            let b = self.buf@;
            let p = self.pos as int;
            if self.filled {
                assert(b.subrange(0, len as int) =~= b.subrange(0, p) + b.subrange(p, b.len() as int));
                lemma_count_true_add(b.subrange(0, p), b.subrange(p, b.len() as int));
                lemma_count_true_add(b.subrange(p, b.len() as int), b.subrange(0, p));
            }
        }
        n
    }
}

/// The last `n` values of `s` (all of them when there are fewer).
pub open spec fn last_n<T>(s: Seq<T>, n: nat) -> Seq<T> {
    if s.len() <= n {
        s
    } else {
        s.subrange(s.len() - n, s.len() as int)
    }
}

/// A window holds the last `capacity` values pushed into it: pushing onto
/// the last values of a history gives the last values of the longer history,
/// and the value a full window gives up is the one pushed `capacity` pushes
/// before the new one.
pub proof fn lemma_push_keeps_last<T>(s: Seq<T>, v: T, cap: nat)
    requires
        cap > 0,
    ensures
        last_n(s, cap).len() < cap ==> last_n(s.push(v), cap) == last_n(s, cap).push(v),
        last_n(s, cap).len() == cap ==> {
            &&& last_n(s.push(v), cap) == last_n(s, cap).drop_first().push(v)
            &&& last_n(s, cap)[0] == s[s.len() - cap]
        },
{
    let w = last_n(s, cap);
    if s.len() < cap {
        assert(last_n(s.push(v), cap) =~= w.push(v));
    } else {
        assert(last_n(s.push(v), cap) =~= w.drop_first().push(v));
    }
}

/// The count of flags that are set is the number of `true` entries.
pub proof fn lemma_count_true_counts_set_flags(s: Seq<bool>)
    ensures
        count_true(s) == s.filter(|b: bool| b).len(),
    decreases s.len(),
{
    reveal(Seq::filter);
    if s.len() > 0 {
        lemma_count_true_counts_set_flags(s.drop_last());
    }
}

} // verus!
