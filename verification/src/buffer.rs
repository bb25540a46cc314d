//! The buffered lookahead cursor: a pull-based cursor over a source
//! sequence that can look ahead without discarding what it has seen.
//! Elements pulled from the source wait in a FIFO buffer until the
//! caller consumes them, so probing never loses input.

use vstd::prelude::*;
use std::collections::VecDeque;
use vstd::std_specs::cmp::PartialEqSpec;
use vstd::std_specs::vecdeque::VecDequeAdditionalSpecFns;

verus! {

/// The cursor as the contracts see it: the remaining source, the
/// buffered elements, the index of the most recently pulled element,
/// and the two latches of its lifecycle.
#[verifier::ext_equal]
pub struct CursorView<T> {
    /// What the source has not yet produced.
    pub source: Seq<T>,
    /// Pulled but not yet consumed, oldest first.
    pub buffer: Seq<T>,
    /// Index (origin 0) of the most recently pulled element; 0 before
    /// the first pull.
    pub head: nat,
    /// Set by the first successful pull; never reset.
    pub began: bool,
    /// Set once the source reports exhaustion; never reset.
    pub ended: bool,
}

impl<T> CursorView<T> {
    /// Everything the cursor can still hand out, in order: the buffer,
    /// then the source.
    pub open spec fn upcoming(self) -> Seq<T> {
        self.buffer + self.source
    }

    /// The index of the oldest buffered element; one more than `head`
    /// exactly when the buffer is empty.
    pub open spec fn buffer_start(self) -> int {
        self.head + 1 - self.buffer.len()
    }

    /// The invariant every operation preserves: the buffer never holds
    /// more than `head + 1` elements, nothing has happened before the
    /// first pull, exhaustion is only reported when the source is
    /// empty, and the indices stay within machine range.
    pub open spec fn wf(self) -> bool {
        &&& self.buffer.len() <= self.head + 1
        &&& !self.began ==> self.head == 0 && self.buffer.len() == 0
        &&& self.ended ==> self.source.len() == 0
        &&& self.head + self.source.len() <= usize::MAX
        &&& self.began ==> self.head + 1 + self.source.len() <= usize::MAX
        &&& self.buffer.len() + self.source.len() <= usize::MAX
    }
}

/// The state after `k` successful pulls: `k` elements moved from the
/// source to the back of the buffer, and the head advanced — except
/// that the very first pull leaves the head at 0.
pub open spec fn spec_pulled<T>(v: CursorView<T>, k: int) -> CursorView<T>
    recommends
        0 <= k <= v.source.len(),
{
    CursorView {
        source: v.source.skip(k),
        buffer: v.buffer + v.source.take(k),
        head: if k == 0 {
            v.head
        } else if v.began {
            (v.head + k) as nat
        } else {
            (k - 1) as nat
        },
        began: v.began || k > 0,
        ended: v.ended,
    }
}

/// The state after a pull that found the source exhausted.
pub open spec fn spec_mark_ended<T>(v: CursorView<T>) -> CursorView<T> {
    CursorView { ended: true, ..v }
}

/// The state after attempting `n` pulls: all succeed when the source
/// holds enough, otherwise the source is drained and the exhaustion
/// latch set by the first failing pull.
pub open spec fn spec_try_pull<T>(v: CursorView<T>, n: int) -> CursorView<T> {
    if n <= v.source.len() {
        spec_pulled(v, n)
    } else {
        spec_mark_ended(spec_pulled(v, v.source.len() as int))
    }
}

/// The state after one consume: the front of the buffer goes to the
/// caller; an empty buffer is first refilled by one pull, if one is to
/// be had.
pub open spec fn spec_consume<T>(v: CursorView<T>) -> CursorView<T> {
    if v.buffer.len() > 0 {
        CursorView { buffer: v.buffer.drop_first(), ..v }
    } else if v.source.len() > 0 {
        let w = spec_pulled(v, 1);
        CursorView { buffer: w.buffer.drop_first(), ..w }
    } else {
        spec_mark_ended(v)
    }
}

/// The state after `n` consumes in a row.
pub open spec fn spec_consume_n<T>(v: CursorView<T>, n: int) -> CursorView<T>
    decreases n,
{
    if n <= 0 {
        v
    } else {
        spec_consume_n(spec_consume(v), n - 1)
    }
}

/// The state after making the buffer cover `index`, pulling as far as
/// needed: nothing when the buffer already covers it, else pulls up to
/// the one that fails.
pub open spec fn spec_reach<T>(v: CursorView<T>, index: int) -> CursorView<T> {
    if index < v.buffer.len() {
        v
    } else {
        spec_try_pull(v, index + 1 - v.buffer.len())
    }
}

/// Reaching for an element preserves the invariant.
pub proof fn lemma_reach_wf<T>(v: CursorView<T>, index: int)
    requires
        v.wf(),
        0 <= index,
    ensures
        spec_reach(v, index).wf(),
{
    if index >= v.buffer.len() {
        lemma_try_pull_wf(v, index + 1 - v.buffer.len());
    }
}

/// Attempted pulls compose one at a time.
pub proof fn lemma_try_pull_step<T>(v: CursorView<T>, i: int)
    requires
        0 <= i,
    ensures
        spec_try_pull(spec_try_pull(v, i), 1) == spec_try_pull(v, i + 1),
{
    if i <= v.source.len() {
        let w = spec_pulled(v, i);
        assert(w.source =~= v.source.skip(i));
        if i + 1 <= v.source.len() {
            assert(spec_pulled(w, 1) =~= spec_pulled(v, i + 1)) by {
                assert(w.source.skip(1) =~= v.source.skip(i + 1));
                assert(w.buffer + w.source.take(1) =~= v.buffer + v.source.take(i + 1));
            }
        } else {
            // the source holds exactly i elements: the next pull fails
            assert(w.source.len() == 0);
            assert(spec_pulled(w, 0) =~= w) by {
                assert(w.source.skip(0) =~= w.source);
                assert(w.buffer + w.source.take(0) =~= w.buffer);
            }
            assert(spec_pulled(v, v.source.len() as int) == w);
        }
    } else {
        // the source was already drained and marked ended
        let w = spec_try_pull(v, i);
        assert(w == spec_mark_ended(spec_pulled(v, v.source.len() as int)));
        assert(w.source =~= v.source.skip(v.source.len() as int));
        assert(w.source.len() == 0);
        assert(spec_pulled(w, 0) =~= w) by {
            assert(w.source.skip(0) =~= w.source);
            assert(w.buffer + w.source.take(0) =~= w.buffer);
        }
        assert(spec_try_pull(w, 1) =~= spec_try_pull(v, i + 1));
    }
}

/// Attempted pulls preserve the invariant.
pub proof fn lemma_try_pull_wf<T>(v: CursorView<T>, n: int)
    requires
        v.wf(),
        0 <= n,
    ensures
        spec_try_pull(v, n).wf(),
{
    let k = if n <= v.source.len() {
        n
    } else {
        v.source.len() as int
    };
    assert(spec_pulled(v, k).buffer.len() == v.buffer.len() + k);
    assert(spec_pulled(v, k).source.len() == v.source.len() - k);
}

/// Consuming preserves the invariant.
pub proof fn lemma_consume_wf<T>(v: CursorView<T>)
    requires
        v.wf(),
    ensures
        spec_consume(v).wf(),
{
}

/// Attempted pulls compose.
pub proof fn lemma_try_pull_compose<T>(v: CursorView<T>, i: int, j: int)
    requires
        0 <= i,
        0 <= j,
    ensures
        spec_try_pull(spec_try_pull(v, i), j) == spec_try_pull(v, i + j),
    decreases j,
{
    if j == 0 {
        let w = spec_try_pull(v, i);
        assert(spec_pulled(w, 0) =~= w) by {
            assert(w.source.skip(0) =~= w.source);
            assert(w.buffer + w.source.take(0) =~= w.buffer);
        }
    } else {
        lemma_try_pull_compose(v, i, j - 1);
        lemma_try_pull_step(spec_try_pull(v, i), j - 1);
        lemma_try_pull_step(v, i + j - 1);
    }
}

/// Reaching further subsumes having reached less far.
pub proof fn lemma_reach_compose<T>(v: CursorView<T>, a: int, b: int)
    requires
        0 <= a <= b,
    ensures
        spec_reach(spec_reach(v, a), b) == spec_reach(v, b),
{
    let w = spec_reach(v, a);
    let n = v.buffer.len() as int;
    if a < n {
        // nothing was pulled
    } else {
        let k = a + 1 - n;
        lemma_try_pull_wf_len(v, k);
        if b < w.buffer.len() {
            // the pulls for `a` already cover `b`: only possible when
            // they were not cut short and `b` lies within them
            assert(w.buffer.len() <= n + k);
            assert(b == a);
        } else {
            lemma_try_pull_compose(v, k, b + 1 - w.buffer.len());
            if k <= v.source.len() {
                assert(w.buffer.len() == n + k);
            } else {
                assert(w.buffer.len() == n + v.source.len());
                assert(w.source.len() == 0);
                assert(spec_try_pull(v, k) == spec_try_pull(v, b + 1 - n)) by {
                    assert(spec_pulled(v, v.source.len() as int) == spec_pulled(
                        v,
                        v.source.len() as int,
                    ));
                }
                assert(spec_try_pull(w, b + 1 - w.buffer.len()) == spec_try_pull(
                    spec_try_pull(v, k),
                    b + 1 - w.buffer.len(),
                ));
            }
        }
    }
}

/// How long the buffer is after attempted pulls.
pub proof fn lemma_try_pull_wf_len<T>(v: CursorView<T>, n: int)
    requires
        0 <= n,
    ensures
        spec_try_pull(v, n).buffer.len() == v.buffer.len() + (if n <= v.source.len() {
            n
        } else {
            v.source.len() as int
        }),
        spec_try_pull(v, n).source.len() == v.source.len() - (if n <= v.source.len() {
            n
        } else {
            v.source.len() as int
        }),
        spec_try_pull(v, n).upcoming() == v.upcoming(),
{
    let k = if n <= v.source.len() {
        n
    } else {
        v.source.len() as int
    };
    assert(spec_try_pull(v, n).upcoming() =~= v.upcoming());
}

/// The closed form of `n` consumes: the first `m` upcoming elements
/// leave, pulls refill the buffer only as far as the consumption
/// outran it, and the head advances by exactly those pulls.
pub proof fn lemma_consume_n_form<T>(v: CursorView<T>, m: int)
    requires
        v.wf(),
        0 <= m <= v.upcoming().len(),
    ensures
        ({
            let u = v.upcoming();
            let n = v.buffer.len() as int;
            let k = if m > n {
                m - n
            } else {
                0
            };
            spec_consume_n(v, m) == (CursorView {
                source: v.source.skip(k),
                buffer: u.subrange(m, n + k),
                head: if k == 0 {
                    v.head
                } else if v.began {
                    (v.head + k) as nat
                } else {
                    (k - 1) as nat
                },
                began: v.began || k > 0,
                ended: v.ended,
            })
        }),
    decreases m,
{
    let u = v.upcoming();
    let n = v.buffer.len() as int;
    let k = if m > n {
        m - n
    } else {
        0
    };
    if m == 0 {
        assert(spec_consume_n(v, 0) == v);
        assert(u.subrange(0, n) =~= v.buffer);
        assert(v.source.skip(0) =~= v.source);
    } else {
        let w = spec_consume(v);
        assert(spec_consume_n(v, m) == spec_consume_n(w, m - 1));
        lemma_consume_wf(v);
        if n > 0 {
            assert(w == (CursorView { buffer: v.buffer.drop_first(), ..v }));
            assert(w.upcoming() =~= u.drop_first());
            lemma_consume_n_form(w, m - 1);
            let k2 = if m - 1 > n - 1 {
                m - n
            } else {
                0
            };
            assert(k2 == k);
            assert(w.upcoming().subrange(m - 1, (n - 1) + k2) =~= u.subrange(m, n + k));
            if k > 0 {
                assert(v.began);
            }
        } else {
            // the buffer is empty: the first consume pulls one element
            assert(v.source.len() > 0);
            let p1 = spec_pulled(v, 1);
            assert(w == (CursorView { buffer: p1.buffer.drop_first(), ..p1 }));
            assert(w.buffer =~= Seq::<T>::empty()) by {
                assert(p1.buffer =~= v.source.take(1));
            }
            assert(w.upcoming() =~= u.drop_first()) by {
                assert(w.source =~= v.source.skip(1));
            }
            lemma_consume_n_form(w, m - 1);
            let k2 = if m - 1 > 0 {
                m - 1
            } else {
                0
            };
            assert(w.source.skip(k2) =~= v.source.skip(k));
            assert(w.upcoming().subrange(m - 1, 0 + k2) =~= u.subrange(m, n + k));
        }
    }
}

/// Probing for a pattern that is there, then consuming its length, is
/// the same as consuming its length outright: the probe commits
/// nothing.
pub proof fn lemma_skip_commit<T: PartialEq>(v: CursorView<T>, p: Seq<T>)
    requires
        v.wf(),
        spec_matches(v.upcoming(), p),
    ensures
        spec_consume_n(spec_probe(v, p), p.len() as int) == spec_consume_n(v, p.len() as int),
{
    let u = v.upcoming();
    let n = v.buffer.len() as int;
    let m = p.len() as int;
    lemma_match_len_bounds(u, p);
    let w = spec_probe(v, p);
    if m > n {
        assert(w == spec_pulled(v, m - n));
        lemma_try_pull_wf(v, m - n);
        assert(spec_try_pull(v, m - n) == w);
        assert(w.wf());
        assert(w.upcoming() =~= u);
        lemma_consume_n_form(w, m);
        lemma_consume_n_form(v, m);
        assert(w.buffer.len() == m);
        assert(w.buffer =~= u.take(m));
        assert(w.source =~= v.source.skip(m - n));
        assert(w.upcoming().subrange(m, m + 0) =~= u.subrange(m, n + (m - n)));
        assert(w.source.skip(0) =~= v.source.skip(m - n));
    } else {
        assert(w == v);
    }
}

/// Probing is idempotent: probing again with the same pattern reports
/// the same result and moves nothing, because the first probe already
/// buffered everything the comparison walks.
pub proof fn lemma_probe_idempotent<T: PartialEq>(v: CursorView<T>, p: Seq<T>)
    requires
        v.wf(),
    ensures
        spec_probe(spec_probe(v, p), p) == spec_probe(v, p),
        spec_matches(spec_probe(v, p).upcoming(), p) == spec_matches(v.upcoming(), p),
{
    let u = v.upcoming();
    let n = v.buffer.len() as int;
    let m = p.len() as int;
    let ml = spec_match_len(u, p);
    lemma_match_len_bounds(u, p);
    let w = spec_probe(v, p);
    if ml == m {
        if m > n {
            lemma_try_pull_wf_len(v, m - n);
            assert(spec_try_pull(v, m - n) == w);
            assert(w.upcoming() == u);
            assert(w.buffer.len() == n + (m - n));
            assert(spec_probe(w, p) == w);
        } else {
            assert(w == v);
        }
    } else if ml < n {
        assert(w == v);
    } else if ml == u.len() {
        lemma_try_pull_wf_len(v, u.len() - n + 1);
        assert(spec_try_pull(v, u.len() - n + 1) == spec_mark_ended(
            spec_pulled(v, u.len() - n),
        )) by {
            assert(v.source.len() == u.len() - n);
        }
        assert(w == spec_try_pull(v, u.len() - n + 1));
        assert(w.upcoming() == u);
        assert(w.buffer.len() == u.len());
        // the second probe walks to the same exhaustion point
        assert(spec_match_len(w.upcoming(), p) == ml);
        assert(spec_pulled(w, 0) =~= w) by {
            assert(w.source.skip(0) =~= w.source);
            assert(w.buffer + w.source.take(0) =~= w.buffer);
        }
        assert(spec_probe(w, p) == spec_mark_ended(spec_pulled(w, 0)));
        assert(spec_mark_ended(spec_pulled(w, 0)) =~= w);
    } else {
        lemma_try_pull_wf_len(v, ml + 1 - n);
        assert(spec_try_pull(v, ml + 1 - n) == w);
        assert(w.upcoming() == u);
        assert(w.buffer.len() == n + (ml + 1 - n));
        assert(spec_probe(w, p) == w);
    }
}

/// Relies on `VecDeque::back_mut`: the back element, for updating in
/// place, or nothing when the queue is empty.
#[verifier::external_body]
fn deque_back_mut<T>(buffer: &mut VecDeque<T>) -> (r: Option<&mut T>)
    ensures
        old(buffer)@.len() == 0 ==> r is None && final (buffer)@ == old(buffer)@,
        old(buffer)@.len() > 0 ==> (r matches Some(x) && *x == old(buffer)@.last() && final (
        buffer)@ == old(buffer)@.update(old(buffer)@.len() - 1, *final (x))),
{
    buffer.back_mut()
}

/// Relies on `VecDeque::front_mut`: the front element, for updating in
/// place, or nothing when the queue is empty.
#[verifier::external_body]
fn deque_front_mut<T>(buffer: &mut VecDeque<T>) -> (r: Option<&mut T>)
    ensures
        old(buffer)@.len() == 0 ==> r is None && final (buffer)@ == old(buffer)@,
        old(buffer)@.len() > 0 ==> (r matches Some(x) && *x == old(buffer)@[0] && final (
        buffer)@ == old(buffer)@.update(0, *final (x))),
{
    buffer.front_mut()
}

/// A buffered lookahead cursor over an owned source of elements.
pub struct BufferIterator<T> {
    source: Vec<T>,
    buffer: VecDeque<T>,
    head: usize,
    is_began: bool,
    is_ended: bool,
}

impl<T> View for BufferIterator<T> {
    type V = CursorView<T>;

    closed spec fn view(&self) -> CursorView<T> {
        CursorView {
            source: self.source@,
            buffer: self.buffer@,
            head: self.head as nat,
            began: self.is_began,
            ended: self.is_ended,
        }
    }
}

impl<T> BufferIterator<T> {
    /// Wraps a source: the buffer is empty, the head at 0, and neither
    /// lifecycle latch set.
    pub fn new(source: Vec<T>) -> (c: Self)
        ensures
            c@ == (CursorView {
                source: source@,
                buffer: Seq::<T>::empty(),
                head: 0,
                began: false,
                ended: false,
            }),
            c@.wf(),
    {
        let c = BufferIterator {
            source,
            buffer: VecDeque::new(),
            head: 0,
            is_began: false,
            is_ended: false,
        };
        proof {
            assert(c.source.len() == c.source@.len());
        }
        c
    }

    /// The index of the most recently pulled element; 0 before the
    /// first pull.
    pub fn head(&self) -> (r: usize)
        ensures
            r == self@.head,
    {
        self.head
    }

    /// The index of the oldest buffered element; when the buffer is
    /// empty this is one more than `head`.
    pub fn buffer_head(&self) -> (r: usize)
        requires
            self@.wf(),
        ensures
            r == self@.buffer_start(),
    {
        (self.head + 1) - self.buffer.len()
    }

    /// The most recently pulled element, still buffered: the back of
    /// the buffer.
    pub fn head_item(&self) -> (r: Option<&T>)
        ensures
            match r {
                Some(x) => self@.buffer.len() > 0 && *x == self@.buffer.last(),
                None => self@.buffer.len() == 0,
            },
    {
        let n = self.buffer.len();
        if n > 0 {
            Some(&self.buffer[n - 1])
        } else {
            None
        }
    }

    /// The oldest buffered element: the front of the buffer.
    pub fn buffer_head_item(&self) -> (r: Option<&T>)
        ensures
            match r {
                Some(x) => self@.buffer.len() > 0 && *x == self@.buffer[0],
                None => self@.buffer.len() == 0,
            },
    {
        if self.buffer.len() > 0 {
            Some(&self.buffer[0])
        } else {
            None
        }
    }

    /// The most recently pulled element, for updating in place.
    pub fn head_item_mut(&mut self) -> (r: Option<&mut T>)
        ensures
            old(self)@.buffer.len() == 0 ==> r is None && final (self)@ == old(self)@,
            old(self)@.buffer.len() > 0 ==> (r matches Some(x) && *x == old(self)@.buffer.last()
                && final (self)@ == (CursorView {
                buffer: old(self)@.buffer.update(old(self)@.buffer.len() - 1, *final (x)),
                ..old(self)@
            })),
    {
        deque_back_mut(&mut self.buffer)
    }

    /// The oldest buffered element, for updating in place.
    pub fn buffer_head_item_mut(&mut self) -> (r: Option<&mut T>)
        ensures
            old(self)@.buffer.len() == 0 ==> r is None && final (self)@ == old(self)@,
            old(self)@.buffer.len() > 0 ==> (r matches Some(x) && *x == old(self)@.buffer[0]
                && final (self)@ == (CursorView {
                buffer: old(self)@.buffer.update(0, *final (x)),
                ..old(self)@
            })),
    {
        deque_front_mut(&mut self.buffer)
    }

    /// Whether the first pull has happened.
    pub fn is_began(&self) -> (r: bool)
        ensures
            r == self@.began,
    {
        self.is_began
    }

    /// Whether the source has reported exhaustion.
    pub fn is_ended(&self) -> (r: bool)
        ensures
            r == self@.ended,
    {
        self.is_ended
    }

    /// How many elements wait in the buffer.
    pub fn len_buffer(&self) -> (r: usize)
        ensures
            r == self@.buffer.len(),
    {
        self.buffer.len()
    }

    /// Whether the buffer is empty.
    pub fn is_buffer_empty(&self) -> (r: bool)
        ensures
            r == (self@.buffer.len() == 0),
    {
        self.buffer.len() == 0
    }

    /// Pulls one element from the source into the buffer and hands out
    /// a reference to it; on exhaustion sets the latch and returns
    /// nothing. This never removes from the buffer.
    pub fn head_next(&mut self) -> (r: Option<&T>)
        requires
            old(self)@.wf(),
        ensures
            final (self)@ == spec_try_pull(old(self)@, 1),
            final (self)@.wf(),
            match r {
                Some(x) => old(self)@.source.len() > 0 && *x == old(self)@.source[0],
                None => old(self)@.source.len() == 0,
            },
    {
        proof {
            lemma_try_pull_wf(old(self)@, 1);
        }
        if self.source.len() > 0 {
            let item = self.source.remove(0);
            if self.is_began {
                self.head = self.head + 1;
            } else {
                self.is_began = true;
            }
            self.buffer.push_back(item);
            let idx = self.buffer.len() - 1;
            proof {
                assert(self@ =~= spec_try_pull(old(self)@, 1)) by {
                    assert(self.source@ =~= old(self)@.source.skip(1));
                    assert(self.buffer@ =~= old(self)@.buffer + old(self)@.source.take(1));
                }
            }
            Some(&self.buffer[idx])
        } else {
            self.is_ended = true;
            proof {
                assert(self@ =~= spec_try_pull(old(self)@, 1)) by {
                    assert(self.source@ =~= old(self)@.source.skip(0));
                    assert(self.buffer@ =~= old(self)@.buffer + old(self)@.source.take(0));
                }
            }
            None
        }
    }

    /// Takes the next element: the front of the buffer, refilled from
    /// the source when the buffer is empty; nothing once everything is
    /// spent.
    pub fn buffer_next(&mut self) -> (r: Option<T>)
        requires
            old(self)@.wf(),
        ensures
            final (self)@ == spec_consume(old(self)@),
            final (self)@.wf(),
            match r {
                Some(x) => old(self)@.upcoming().len() > 0 && x == old(self)@.upcoming()[0],
                None => old(self)@.upcoming().len() == 0,
            },
    {
        proof {
            lemma_consume_wf(old(self)@);
        }
        if self.buffer.len() == 0 {
            self.head_next();
        }
        let r = self.buffer.pop_front();
        proof {
            let v = old(self)@;
            if v.buffer.len() > 0 {
                assert(self@ =~= spec_consume(v));
                assert(v.upcoming()[0] == v.buffer[0]);
            } else if v.source.len() > 0 {
                let w = spec_pulled(v, 1);
                assert(w.buffer =~= v.source.take(1));
                assert(self@ =~= spec_consume(v));
                assert(v.upcoming()[0] == v.source[0]);
                assert(w.buffer[0] == v.source[0]);
            } else {
                assert(self@ =~= spec_consume(v));
                assert(v.upcoming().len() == 0);
            }
        }
        r
    }

    /// Pulls up to `n` elements; reports whether all `n` pulls found
    /// one.
    pub fn head_next_n(&mut self, n: usize) -> (r: bool)
        requires
            old(self)@.wf(),
        ensures
            final (self)@ == spec_try_pull(old(self)@, n as int),
            final (self)@.wf(),
            r == (n <= old(self)@.source.len()),
    {
        let mut i: usize = 0;
        while i < n
            invariant
                i <= n,
                i <= old(self)@.source.len(),
                old(self)@.wf(),
                self@ == spec_try_pull(old(self)@, i as int),
                self@.wf(),
            decreases n - i,
        {
            proof {
                lemma_try_pull_step(old(self)@, i as int);
            }
            let pulled = self.head_next();
            if pulled.is_none() {
                proof {
                    assert(spec_pulled(old(self)@, i as int).source =~= old(self)@.source.skip(
                        i as int,
                    ));
                    assert(old(self)@.source.len() == i);
                }
                return false;
            }
            i = i + 1;
        }
        true
    }

    /// Pulls up to `n` elements, keeping nothing but the buffer growth.
    pub fn head_consume_n(&mut self, n: usize)
        requires
            old(self)@.wf(),
        ensures
            final (self)@ == spec_try_pull(old(self)@, n as int),
            final (self)@.wf(),
    {
        let mut i: usize = 0;
        while i < n
            invariant
                i <= n,
                old(self)@.wf(),
                self@ == spec_try_pull(old(self)@, i as int),
                self@.wf(),
            decreases n - i,
        {
            proof {
                lemma_try_pull_step(old(self)@, i as int);
            }
            let _ = self.head_next();
            i = i + 1;
        }
    }

    /// Consumes `n` elements, handing each outcome to the handler.
    pub fn buffer_next_n<F: Fn(Option<T>)>(&mut self, n: usize, handler: F)
        requires
            old(self)@.wf(),
            forall|x: Option<T>| call_requires(handler, (x,)),
        ensures
            final (self)@ == spec_consume_n(old(self)@, n as int),
            final (self)@.wf(),
    {
        let mut i: usize = 0;
        while i < n
            invariant
                i <= n,
                old(self)@.wf(),
                self@ == spec_consume_n(old(self)@, i as int),
                self@.wf(),
                forall|x: Option<T>| call_requires(handler, (x,)),
            decreases n - i,
        {
            proof {
                lemma_consume_n_step(old(self)@, i as int);
            }
            handler(self.buffer_next());
            i = i + 1;
        }
    }

    /// Consumes and discards `n` elements.
    pub fn buffer_consume_n(&mut self, n: usize)
        requires
            old(self)@.wf(),
        ensures
            final (self)@ == spec_consume_n(old(self)@, n as int),
            final (self)@.wf(),
    {
        let mut i: usize = 0;
        while i < n
            invariant
                i <= n,
                old(self)@.wf(),
                self@ == spec_consume_n(old(self)@, i as int),
                self@.wf(),
            decreases n - i,
        {
            proof {
                lemma_consume_n_step(old(self)@, i as int);
            }
            let _ = self.buffer_next();
            i = i + 1;
        }
    }

    /// Whether the element `index` places after the oldest buffered
    /// element can be had, pulling from the source as far as needed.
    pub fn buffer_has(&mut self, index: usize) -> (r: bool)
        requires
            old(self)@.wf(),
            index < usize::MAX,
        ensures
            final (self)@ == spec_reach(old(self)@, index as int),
            final (self)@.wf(),
            r == (index < old(self)@.upcoming().len()),
            r ==> index < final (self)@.buffer.len(),
    {
        proof {
            lemma_reach_wf(old(self)@, index as int);
        }
        if index < self.buffer.len() {
            true
        } else {
            let r = self.head_next_n(index - self.buffer.len() + 1);
            proof {
                let v = old(self)@;
                let k = index + 1 - v.buffer.len();
                if k <= v.source.len() {
                    assert(spec_pulled(v, k).buffer.len() == v.buffer.len() + k);
                }
            }
            r
        }
    }

    /// The element `index` places after the oldest buffered element,
    /// pulling from the source as far as needed; nothing when the
    /// remaining input is too short.
    pub fn buffer_get(&mut self, index: usize) -> (r: Option<&T>)
        requires
            old(self)@.wf(),
            index < usize::MAX,
        ensures
            final (self)@ == spec_reach(old(self)@, index as int),
            final (self)@.wf(),
            match r {
                Some(x) => index < old(self)@.upcoming().len() && *x == old(
                    self,
                )@.upcoming()[index as int],
                None => index >= old(self)@.upcoming().len(),
            },
    {
        proof {
            lemma_reach_wf(old(self)@, index as int);
        }
        if index < self.buffer.len() {
            proof {
                assert(old(self)@.upcoming()[index as int] == old(self)@.buffer[index as int]);
            }
            Some(&self.buffer[index])
        } else {
            let pulled_all = self.head_next_n(index - self.buffer.len() + 1);
            proof {
                let v = old(self)@;
                let k = index + 1 - v.buffer.len();
                if k <= v.source.len() {
                    assert(spec_pulled(v, k).buffer.len() == v.buffer.len() + k);
                    assert(spec_pulled(v, k).buffer.last() == v.source[k - 1]);
                    assert(v.upcoming()[index as int] == v.source[k - 1]);
                }
            }
            if pulled_all {
                self.head_item()
            } else {
                None
            }
        }
    }

    /// Whether the upcoming elements start with the pattern: compares
    /// against the buffer first, then pulls and compares live. A probe,
    /// not a consumption: the buffer only grows. The result and the
    /// exact growth follow the comparison, element by element.
    pub fn starts_with(&mut self, pattern: &[T]) -> (r: bool) where T: PartialEq
        requires
            old(self)@.wf(),
        ensures
            final (self)@.wf(),
            exists|k: int|
                0 <= k <= pattern@.len() && final (self)@ == spec_try_pull(old(self)@, k),
            T::obeys_eq_spec() ==> final (self)@ == spec_probe(old(self)@, pattern@),
            T::obeys_eq_spec() ==> r == spec_matches(old(self)@.upcoming(), pattern@),
    {
        let ghost v = old(self)@;
        let ghost u = v.upcoming();
        let ghost p = pattern@;
        proof {
            lemma_match_len_bounds(u, p);
            assert(spec_try_pull(v, 0) =~= v) by {
                assert(v.source.skip(0) =~= v.source);
                assert(v.buffer + v.source.take(0) =~= v.buffer);
            }
        }
        let n = self.buffer.len();
        let mut j: usize = 0;
        // first, what the buffer already holds
        while j < n && j < pattern.len()
            invariant
                v == old(self)@,
                self@ == v,
                v.wf(),
                n == v.buffer.len(),
                j <= n,
                j <= p.len(),
                p == pattern@,
                u == v.upcoming(),
                T::obeys_eq_spec() ==> forall|q: int|
                    0 <= q < j ==> (#[trigger] u[q]).eq_spec(&p[q]),
            decreases pattern@.len() - j,
        {
            proof {
                assert(u[j as int] == v.buffer[j as int]);
            }
            if !(self.buffer[j] == pattern[j]) {
                proof {
                    if T::obeys_eq_spec() {
                        lemma_match_len_mismatch(u, p, j as int);
                    }
                    assert(spec_try_pull(v, 0) == self@);
                }
                return false;
            }
            j = j + 1;
        }
        if j == pattern.len() {
            // the pattern ran out within the buffer
            proof {
                if T::obeys_eq_spec() {
                    lemma_match_len_from_prefix(u, p, j as int);
                }
                assert(spec_try_pull(v, 0) == self@);
            }
            return true;
        }
        // then pull from the source and compare live
        while j < pattern.len()
            invariant
                v == old(self)@,
                v.wf(),
                n == v.buffer.len(),
                n <= j <= p.len(),
                j - n <= v.source.len(),
                p == pattern@,
                u == v.upcoming(),
                pattern@.len() > 0,
                self@ == spec_pulled(v, j - n),
                self@.wf(),
                T::obeys_eq_spec() ==> forall|q: int|
                    0 <= q < j ==> q < u.len() && (#[trigger] u[q]).eq_spec(&p[q]),
            decreases pattern@.len() - j,
        {
            proof {
                lemma_try_pull_step(v, j - n);
                assert(spec_try_pull(v, j - n) == spec_pulled(v, j - n));
            }
            let got = self.head_next();
            match got {
                None => {
                    proof {
                        assert(spec_pulled(v, j - n).source =~= v.source.skip(j - n));
                        assert(v.source.len() == j - n);
                        assert(u.len() == j);
                        assert(self@ == spec_try_pull(v, j - n + 1));
                        if T::obeys_eq_spec() {
                            lemma_match_len_bounds(u, p);
                            lemma_match_len_from_prefix(u, p, j as int);
                            assert(spec_match_len(u, p) >= j);
                            assert(spec_match_len(u, p) <= u.len());
                            assert(spec_match_len(u, p) == j);
                            assert(self@ == spec_probe(v, p));
                        }
                    }
                    return false;
                },
                Some(x) => {
                    proof {
                        assert(spec_pulled(v, j - n).source[0] == v.source[j - n]);
                        assert(u[j as int] == v.source[j - n]);
                    }
                    if !(*x == pattern[j]) {
                        proof {
                            assert(self@ == spec_try_pull(v, j - n + 1));
                            if T::obeys_eq_spec() {
                                lemma_match_len_mismatch(u, p, j as int);
                                assert(self@ == spec_probe(v, p));
                            }
                        }
                        return false;
                    }
                },
            }
            j = j + 1;
        }
        proof {
            assert(self@ == spec_try_pull(v, p.len() - n));
            if T::obeys_eq_spec() {
                lemma_match_len_from_prefix(u, p, p.len() as int);
                assert(spec_match_len(u, p) == p.len());
                assert(self@ == spec_probe(v, p));
            }
        }
        true
    }

    /// Compares the pattern against buffered elements starting at
    /// `offset`, without touching the source.
    fn buffer_matches_at(&self, offset: usize, pattern: &[T]) -> (r: bool) where T: PartialEq
        requires
            offset + pattern@.len() <= self@.buffer.len(),
        ensures
            T::obeys_eq_spec() ==> r == spec_matches_at(self@.buffer, pattern@, offset as int),
    {
        let mut q: usize = 0;
        while q < pattern.len()
            invariant
                offset + pattern@.len() <= self@.buffer.len(),
                q <= pattern@.len(),
                T::obeys_eq_spec() ==> forall|t: int|
                    0 <= t < q ==> (#[trigger] self@.buffer[offset + t]).eq_spec(&pattern@[t]),
            decreases pattern@.len() - q,
        {
            proof {
                assert(self.buffer.len() == self@.buffer.len());
            }
            if !(self.buffer[offset + q] == pattern[q]) {
                return false;
            }
            q = q + 1;
        }
        true
    }

    /// Whether the upcoming elements start with the pattern `offset`
    /// places after the oldest buffered element; an empty pattern
    /// always matches. Like [`Self::starts_with`] this only grows the
    /// buffer, though by a different amount: the anchored probe first
    /// secures the whole window, then compares.
    pub fn starts_with_at(&mut self, buffer_offset: usize, pattern: &[T]) -> (r: bool) where
        T: PartialEq,

        requires
            old(self)@.wf(),
            buffer_offset + pattern@.len() <= usize::MAX,
        ensures
            final (self)@.wf(),
            T::obeys_eq_spec() && buffer_offset == 0 ==> final (self)@ == spec_probe(
                old(self)@,
                pattern@,
            ) && r == spec_matches(old(self)@.upcoming(), pattern@),
            buffer_offset > 0 && pattern@.len() == 0 ==> final (self)@ == old(self)@ && r,
            T::obeys_eq_spec() && buffer_offset > 0 && pattern@.len() > 0 ==> final (self)@
                == spec_reach(old(self)@, buffer_offset + pattern@.len() - 1) && r == (buffer_offset
                + pattern@.len() <= old(self)@.upcoming().len() && spec_matches_at(
                old(self)@.upcoming(),
                pattern@,
                buffer_offset as int,
            )),
    {
        let ghost v = old(self)@;
        let ghost u = v.upcoming();
        let ghost p = pattern@;
        if buffer_offset == 0 {
            return self.starts_with(pattern);
        }
        if pattern.len() == 0 {
            return true;
        }
        let end = buffer_offset + pattern.len() - 1;
        proof {
            lemma_reach_wf(v, end as int);
            if end >= v.buffer.len() {
                lemma_try_pull_wf_len(v, end + 1 - v.buffer.len());
            }
        }
        if !self.buffer_has(end) {
            return false;
        }
        let r = self.buffer_matches_at(buffer_offset, pattern);
        proof {
            if T::obeys_eq_spec() {
                assert forall|t: int| 0 <= t < p.len() implies #[trigger] self@.buffer[buffer_offset
                    + t] == u[buffer_offset + t] by {
                    if end >= v.buffer.len() {
                        let k = end + 1 - v.buffer.len();
                        if buffer_offset + t < v.buffer.len() {
                            assert(self@.buffer[buffer_offset + t] == v.buffer[buffer_offset + t]);
                        } else {
                            assert(self@.buffer[buffer_offset + t] == v.source.take(
                                if k <= v.source.len() {
                                    k
                                } else {
                                    v.source.len() as int
                                },
                            )[buffer_offset + t - v.buffer.len()]);
                        }
                    }
                }
                assert(spec_matches_at(self@.buffer, p, buffer_offset as int) == spec_matches_at(
                    u,
                    p,
                    buffer_offset as int,
                ));
            }
        }
        r
    }

    /// The first offset, counted from the oldest buffered element, at
    /// which the upcoming elements continue with the pattern; nothing
    /// once the remaining input is shorter than the pattern. The
    /// consumption point does not move; the search only grows the
    /// buffer. An empty pattern matches at once.
    pub fn find_next_prefix(&mut self, pattern: &[T]) -> (r: Option<usize>) where T: PartialEq
        requires
            old(self)@.wf(),
            old(self)@.upcoming().len() < usize::MAX,
        ensures
            final (self)@.wf(),
            pattern@.len() == 0 ==> r == Some(0usize) && final (self)@ == old(self)@,
            T::obeys_eq_spec() && pattern@.len() > 0 ==> match r {
                Some(off) => {
                    &&& off + pattern@.len() <= old(self)@.upcoming().len()
                    &&& spec_matches_at(old(self)@.upcoming(), pattern@, off as int)
                    &&& forall|off2: int|
                        0 <= off2 < off ==> !(off2 + pattern@.len() <= old(
                            self,
                        )@.upcoming().len() && spec_matches_at(
                            old(self)@.upcoming(),
                            pattern@,
                            off2,
                        ))
                    &&& final (self)@ == spec_reach(old(self)@, off + pattern@.len() - 1)
                },
                None => {
                    &&& forall|off2: int|
                        0 <= off2 ==> !(off2 + pattern@.len() <= old(self)@.upcoming().len()
                            && spec_matches_at(old(self)@.upcoming(), pattern@, off2))
                    &&& final (self)@ == spec_mark_ended(
                        spec_pulled(old(self)@, old(self)@.source.len() as int),
                    )
                },
            },
    {
        let ghost v = old(self)@;
        let ghost u = v.upcoming();
        let ghost p = pattern@;
        if pattern.len() == 0 {
            return Some(0);
        }
        let m = pattern.len();
        let mut off: usize = 0;
        loop
            invariant
                v == old(self)@,
                v.wf(),
                p == pattern@,
                m == p.len(),
                m > 0,
                u == v.upcoming(),
                u.len() < usize::MAX,
                off == 0 || off + m - 1 <= u.len(),
                self@ == (if off == 0 {
                    v
                } else {
                    spec_reach(v, off + m - 2)
                }),
                self@.wf(),
                T::obeys_eq_spec() ==> forall|off2: int|
                    0 <= off2 < off ==> !(off2 + m <= u.len() && spec_matches_at(u, p, off2)),
            decreases u.len() + 1 - off,
        {
            let end = off + (m - 1);
            proof {
                if off > 0 {
                    lemma_reach_compose(v, off + m - 2, end as int);
                }
                lemma_reach_wf(v, end as int);
                if end >= v.buffer.len() {
                    lemma_try_pull_wf_len(v, end + 1 - v.buffer.len());
                }
            }
            if !self.buffer_has(end) {
                proof {
                    assert(self@ == spec_reach(v, end as int));
                    assert(end >= u.len());
                    assert(end + 1 - v.buffer.len() > v.source.len());
                    assert(self@ == spec_mark_ended(spec_pulled(v, v.source.len() as int)));
                    if T::obeys_eq_spec() {
                        assert forall|off2: int| 0 <= off2 implies !(off2 + m <= u.len()
                            && spec_matches_at(u, p, off2)) by {
                            if off2 >= off {
                                assert(off2 + m > u.len());
                            }
                        }
                    }
                }
                return None;
            }
            let matched = self.buffer_matches_at(off, pattern);
            proof {
                assert(self@ == spec_reach(v, end as int));
                if T::obeys_eq_spec() {
                    assert forall|t: int| 0 <= t < m implies #[trigger] self@.buffer[off + t]
                        == u[off + t] by {
                        if end >= v.buffer.len() {
                            let k = end + 1 - v.buffer.len();
                            if off + t < v.buffer.len() {
                                assert(self@.buffer[off + t] == v.buffer[off + t]);
                            } else {
                                assert(self@.buffer[off + t] == v.source.take(
                                    if k <= v.source.len() {
                                        k
                                    } else {
                                        v.source.len() as int
                                    },
                                )[off + t - v.buffer.len()]);
                            }
                        }
                    }
                    assert(spec_matches_at(self@.buffer, p, off as int) == spec_matches_at(
                        u,
                        p,
                        off as int,
                    ));
                }
            }
            if matched {
                return Some(off);
            }
            off = off + 1;
        }
    }

    /// The substring search under its older name.
    pub fn find_next_substring(&mut self, pattern: &[T]) -> (r: Option<usize>) where T: PartialEq
        requires
            old(self)@.wf(),
            old(self)@.upcoming().len() < usize::MAX,
        ensures
            final (self)@.wf(),
            pattern@.len() == 0 ==> r == Some(0usize) && final (self)@ == old(self)@,
            T::obeys_eq_spec() && pattern@.len() > 0 ==> match r {
                Some(off) => {
                    &&& off + pattern@.len() <= old(self)@.upcoming().len()
                    &&& spec_matches_at(old(self)@.upcoming(), pattern@, off as int)
                    &&& forall|off2: int|
                        0 <= off2 < off ==> !(off2 + pattern@.len() <= old(
                            self,
                        )@.upcoming().len() && spec_matches_at(
                            old(self)@.upcoming(),
                            pattern@,
                            off2,
                        ))
                    &&& final (self)@ == spec_reach(old(self)@, off + pattern@.len() - 1)
                },
                None => {
                    &&& forall|off2: int|
                        0 <= off2 ==> !(off2 + pattern@.len() <= old(self)@.upcoming().len()
                            && spec_matches_at(old(self)@.upcoming(), pattern@, off2))
                    &&& final (self)@ == spec_mark_ended(
                        spec_pulled(old(self)@, old(self)@.source.len() as int),
                    )
                },
            },
    {
        self.find_next_prefix(pattern)
    }

    /// When the upcoming elements start with the pattern, consumes
    /// exactly its length and reports so; otherwise leaves the
    /// consumption point untouched and reports the failed match.
    pub fn skip_when_starts_with(&mut self, pattern: &[T]) -> (r: bool) where T: PartialEq
        requires
            old(self)@.wf(),
        ensures
            final (self)@.wf(),
            T::obeys_eq_spec() ==> r == spec_matches(old(self)@.upcoming(), pattern@),
            T::obeys_eq_spec() && r ==> final (self)@ == spec_consume_n(
                old(self)@,
                pattern@.len() as int,
            ),
            T::obeys_eq_spec() && !r ==> final (self)@ == spec_probe(old(self)@, pattern@),
    {
        let ghost v = old(self)@;
        let ghost p = pattern@;
        if self.starts_with(pattern) {
            proof {
                if T::obeys_eq_spec() {
                    lemma_skip_commit(v, p);
                    lemma_match_len_bounds(v.upcoming(), p);
                    let u = v.upcoming();
                    let n = v.buffer.len() as int;
                    let m = p.len() as int;
                    if m > n {
                        lemma_try_pull_wf(v, m - n);
                        assert(spec_try_pull(v, m - n) == spec_probe(v, p));
                    }
                }
            }
            self.buffer_consume_n(pattern.len());
            true
        } else {
            false
        }
    }

    /// Drops every buffered element; the head does not move.
    pub fn buffer_clear(&mut self)
        requires
            old(self)@.wf(),
        ensures
            final (self)@ == (CursorView { buffer: Seq::<T>::empty(), ..old(self)@ }),
            final (self)@.wf(),
    {
        self.buffer.clear();
        proof {
            assert(self@ =~= (CursorView { buffer: Seq::<T>::empty(), ..old(self)@ }));
        }
    }

    /// Hands every buffered element, oldest first, to `f`, leaving the
    /// buffer empty; the head does not move.
    pub fn buffer_transfer<F: Fn(T)>(&mut self, f: F)
        requires
            old(self)@.wf(),
            forall|x: T| old(self)@.buffer.contains(x) ==> call_requires(f, (x,)),
        ensures
            final (self)@ == (CursorView { buffer: Seq::<T>::empty(), ..old(self)@ }),
            final (self)@.wf(),
    {
        let n = self.buffer.len();
        let mut i: usize = 0;
        while i < n
            invariant
                i <= n,
                n == old(self)@.buffer.len(),
                old(self)@.wf(),
                self@ == (CursorView { buffer: old(self)@.buffer.skip(i as int), ..old(self)@ }),
                forall|x: T| old(self)@.buffer.contains(x) ==> call_requires(f, (x,)),
            decreases n - i,
        {
            let x = self.buffer.pop_front();
            match x {
                Some(item) => {
                    proof {
                        assert(old(self)@.buffer.contains(old(self)@.buffer[i as int]));
                        assert(old(self)@.buffer.skip(i as int)[0] == old(self)@.buffer[i as int]);
                        assert(self@.buffer =~= old(self)@.buffer.skip(i + 1));
                    }
                    f(item);
                },
                None => {
                    proof {
                        assert(false);
                    }
                },
            }
            i = i + 1;
        }
        proof {
            assert(old(self)@.buffer.skip(n as int) =~= Seq::<T>::empty());
        }
    }

    /// Moves every buffered element, oldest first, onto the end of
    /// `out`, leaving the buffer empty; the head does not move.
    pub fn buffer_transfer_mut(&mut self, out: &mut Vec<T>)
        requires
            old(self)@.wf(),
        ensures
            final (self)@ == (CursorView { buffer: Seq::<T>::empty(), ..old(self)@ }),
            final (self)@.wf(),
            final (out)@ == old(out)@ + old(self)@.buffer,
    {
        let n = self.buffer.len();
        let mut i: usize = 0;
        while i < n
            invariant
                i <= n,
                n == old(self)@.buffer.len(),
                old(self)@.wf(),
                self@ == (CursorView { buffer: old(self)@.buffer.skip(i as int), ..old(self)@ }),
                out@ == old(out)@ + old(self)@.buffer.take(i as int),
            decreases n - i,
        {
            let x = self.buffer.pop_front();
            match x {
                Some(item) => {
                    proof {
                        assert(old(self)@.buffer.skip(i as int)[0] == old(self)@.buffer[i as int]);
                        assert(self@.buffer =~= old(self)@.buffer.skip(i + 1));
                    }
                    out.push(item);
                    proof {
                        assert(out@ =~= old(out)@ + old(self)@.buffer.take(i + 1));
                    }
                },
                None => {
                    proof {
                        assert(false);
                    }
                },
            }
            i = i + 1;
        }
        proof {
            assert(old(self)@.buffer.skip(n as int) =~= Seq::<T>::empty());
            assert(old(self)@.buffer.take(n as int) =~= old(self)@.buffer);
        }
    }
}

impl BufferIterator<char> {
    /// Moves the first `len` buffered characters, oldest first, onto
    /// the end of the string; the head does not move.
    pub fn buffer_collect_to_string(&mut self, target: &mut String, len: usize)
        requires
            old(self)@.wf(),
            len <= old(self)@.buffer.len(),
        ensures
            final (self)@ == (CursorView {
                buffer: old(self)@.buffer.skip(len as int),
                ..old(self)@
            }),
            final (self)@.wf(),
            final (target)@ == old(target)@ + old(self)@.buffer.take(len as int),
    {
        let mut i: usize = 0;
        while i < len
            invariant
                i <= len,
                len <= old(self)@.buffer.len(),
                old(self)@.wf(),
                self@ == (CursorView { buffer: old(self)@.buffer.skip(i as int), ..old(self)@ }),
                target@ == old(target)@ + old(self)@.buffer.take(i as int),
            decreases len - i,
        {
            let x = self.buffer.pop_front();
            match x {
                Some(ch) => {
                    proof {
                        assert(old(self)@.buffer.skip(i as int)[0] == old(self)@.buffer[i as int]);
                        assert(self@.buffer =~= old(self)@.buffer.skip(i + 1));
                    }
                    crate::lexical::push_char(target, ch);
                    proof {
                        assert(target@ =~= old(target)@ + old(self)@.buffer.take(i + 1));
                    }
                },
                None => {
                    proof {
                        assert(false);
                    }
                },
            }
            i = i + 1;
        }
    }

    /// Moves the whole buffer, oldest first, onto the end of the
    /// string, leaving the buffer empty.
    pub fn collect_buffer_to_string(&mut self, target: &mut String)
        requires
            old(self)@.wf(),
        ensures
            final (self)@ == (CursorView { buffer: Seq::<char>::empty(), ..old(self)@ }),
            final (self)@.wf(),
            final (target)@ == old(target)@ + old(self)@.buffer,
    {
        let n = self.buffer.len();
        self.buffer_collect_to_string(target, n);
        proof {
            assert(old(self)@.buffer.skip(n as int) =~= Seq::<char>::empty());
            assert(old(self)@.buffer.take(n as int) =~= old(self)@.buffer);
        }
    }

    /// The whole buffer as a fresh string, oldest first; the buffer is
    /// left empty.
    pub fn collect_buffer_to_new_string(&mut self) -> (r: String)
        requires
            old(self)@.wf(),
        ensures
            final (self)@ == (CursorView { buffer: Seq::<char>::empty(), ..old(self)@ }),
            final (self)@.wf(),
            r@ == old(self)@.buffer,
    {
        let mut r = String::new();
        self.collect_buffer_to_string(&mut r);
        proof {
            assert(Seq::<char>::empty() + old(self)@.buffer =~= old(self)@.buffer);
        }
        r
    }
}

/// How many leading elements of the pattern `p` the stream `u` matches,
/// element by element, before the first mismatch, the end of the
/// pattern, or the end of the stream.
pub open spec fn spec_match_len<T: PartialEq>(u: Seq<T>, p: Seq<T>) -> int
    decreases p.len(),
{
    if p.len() == 0 || u.len() == 0 {
        0
    } else if !u[0].eq_spec(&p[0]) {
        0
    } else {
        1 + spec_match_len(u.drop_first(), p.drop_first())
    }
}

/// Whether the stream `u` starts with the whole pattern `p`.
pub open spec fn spec_matches<T: PartialEq>(u: Seq<T>, p: Seq<T>) -> bool {
    spec_match_len(u, p) == p.len()
}

/// Whether the stream `u` continues with the whole pattern `p` from
/// position `off` on.
pub open spec fn spec_matches_at<T: PartialEq>(u: Seq<T>, p: Seq<T>, off: int) -> bool {
    forall|q: int| 0 <= q < p.len() ==> (#[trigger] u[off + q]).eq_spec(&p[q])
}

/// The state after probing the stream against the pattern `p`: pulls
/// grow the buffer exactly as far as the comparison walked beyond it,
/// and a probe that outruns the source sets the exhaustion latch.
pub open spec fn spec_probe<T: PartialEq>(v: CursorView<T>, p: Seq<T>) -> CursorView<T> {
    let u = v.upcoming();
    let n = v.buffer.len() as int;
    let m = p.len() as int;
    let ml = spec_match_len(u, p);
    if ml == m {
        if m > n {
            spec_pulled(v, m - n)
        } else {
            v
        }
    } else if ml < n {
        v
    } else if ml == u.len() {
        spec_mark_ended(spec_pulled(v, u.len() - n))
    } else {
        spec_pulled(v, ml + 1 - n)
    }
}

/// The matched length never exceeds the pattern or the stream.
pub proof fn lemma_match_len_bounds<T: PartialEq>(u: Seq<T>, p: Seq<T>)
    ensures
        0 <= spec_match_len(u, p) <= p.len(),
        spec_match_len(u, p) <= u.len(),
    decreases p.len(),
{
    if p.len() != 0 && u.len() != 0 && u[0].eq_spec(&p[0]) {
        lemma_match_len_bounds(u.drop_first(), p.drop_first());
    }
}

/// A matching leading segment pushes the matched length at least that
/// far.
pub proof fn lemma_match_len_from_prefix<T: PartialEq>(u: Seq<T>, p: Seq<T>, j: int)
    requires
        0 <= j <= p.len(),
        j <= u.len(),
        forall|q: int| 0 <= q < j ==> (#[trigger] u[q]).eq_spec(&p[q]),
    ensures
        spec_match_len(u, p) >= j,
    decreases j,
{
    lemma_match_len_bounds(u, p);
    if j > 0 {
        assert(u[0].eq_spec(&p[0]));
        assert forall|q: int| 0 <= q < j - 1 implies (#[trigger] u.drop_first()[q]).eq_spec(
            &p.drop_first()[q],
        ) by {
            assert(u.drop_first()[q] == u[q + 1]);
            assert(p.drop_first()[q] == p[q + 1]);
        }
        lemma_match_len_from_prefix(u.drop_first(), p.drop_first(), j - 1);
        assert(spec_match_len(u, p) == 1 + spec_match_len(u.drop_first(), p.drop_first()));
    }
}

/// A mismatch right after a matching leading segment pins the matched
/// length exactly.
pub proof fn lemma_match_len_mismatch<T: PartialEq>(u: Seq<T>, p: Seq<T>, j: int)
    requires
        0 <= j < p.len(),
        j < u.len(),
        forall|q: int| 0 <= q < j ==> (#[trigger] u[q]).eq_spec(&p[q]),
        !u[j].eq_spec(&p[j]),
    ensures
        spec_match_len(u, p) == j,
    decreases j,
{
    if j == 0 {
    } else {
        assert(u[0].eq_spec(&p[0]));
        assert forall|q: int| 0 <= q < j - 1 implies (#[trigger] u.drop_first()[q]).eq_spec(
            &p.drop_first()[q],
        ) by {
            assert(u.drop_first()[q] == u[q + 1]);
            assert(p.drop_first()[q] == p[q + 1]);
        }
        assert(u.drop_first()[j - 1] == u[j]);
        assert(p.drop_first()[j - 1] == p[j]);
        lemma_match_len_mismatch(u.drop_first(), p.drop_first(), j - 1);
    }
}

/// The buffer accounting identity: the index of the oldest buffered
/// element is always the head plus one minus the buffer's length, and
/// once pulling has begun, the buffer is empty exactly when that index
/// has moved past the head.
pub proof fn lemma_buffer_accounting<T>(v: CursorView<T>)
    requires
        v.wf(),
    ensures
        v.buffer_start() == v.head + 1 - v.buffer.len(),
        v.began ==> ((v.buffer.len() == 0) <==> v.buffer_start() > v.head),
{
}

/// Consuming `n + 1` times is consuming `n` times, then once more.
pub proof fn lemma_consume_n_step<T>(v: CursorView<T>, i: int)
    requires
        0 <= i,
    ensures
        spec_consume(spec_consume_n(v, i)) == spec_consume_n(v, i + 1),
    decreases i,
{
    if i == 0 {
        assert(spec_consume_n(v, 0) == v);
        assert(spec_consume_n(v, 1) == spec_consume_n(spec_consume(v), 0));
    } else {
        lemma_consume_n_step(spec_consume(v), i - 1);
        assert(spec_consume_n(v, i) == spec_consume_n(spec_consume(v), i - 1));
        assert(spec_consume_n(v, i + 1) == spec_consume_n(spec_consume(v), i));
    }
}

} // verus!
