//! A queue that hands out its items strictly in the order of their ids.
use std::collections::HashMap;
use vstd::prelude::*;

verus! {

broadcast use vstd::std_specs::hash::group_hash_axioms;

/// The abstract state of a [`SequencedQueue`].
pub struct QueueView<T> {
    /// Id of the next item to hand out.
    pub current: u32,
    /// Items waiting in the queue, by id.
    pub items: Map<u32, T>,
    /// Number of items the queue hands out in total (ids `1..=total`).
    pub total: u32,
}

impl<T> QueueView<T> {
    /// The state of a fresh queue for `total` items.
    pub open spec fn init(total: u32) -> Self {
        QueueView { current: 1, items: Map::empty(), total }
    }

    /// All `total` items have been handed out.
    pub open spec fn finished(self) -> bool {
        self.current > self.total
    }

    /// The item with the next id is waiting and may be handed out.
    pub open spec fn has_next(self) -> bool {
        !self.finished() && self.items.contains_key(self.current)
    }

    /// Handing out the next item would move the id counter past `u32::MAX`.
    pub open spec fn next_overflows(self) -> bool {
        self.has_next() && self.current == u32::MAX
    }

    /// The counter lies in `1..=total + 1`: it starts at 1 and only moves past
    /// an id that is at most `total`.
    pub open spec fn counter_in_range(self) -> bool {
        1 <= self.current <= self.total + 1
    }

    /// The state after inserting `value` under `id`.
    pub open spec fn insert(self, id: u32, value: T) -> Self {
        QueueView { items: self.items.insert(id, value), ..self }
    }

    /// One call of `next`: the new state and what it returns.
    pub open spec fn step(self) -> (Self, Option<(u32, T)>) {
        if self.has_next() {
            (
                QueueView {
                    current: (self.current + 1) as u32,
                    items: self.items.remove(self.current),
                    total: self.total,
                },
                Some((self.current, self.items[self.current])),
            )
        } else {
            (self, None)
        }
    }

    /// Calling `next` until it returns `None`: the final state and the items
    /// handed out, in order.
    pub open spec fn drain(self) -> (Self, Seq<(u32, T)>)
        decreases (self.total + 1 - self.current),
    {
        if self.has_next() && self.current < u32::MAX {
            let (rest, out) = self.step().0.drain();
            (rest, seq![(self.current, self.items[self.current])] + out)
        } else {
            (self, Seq::empty())
        }
    }

    /// Every id from `current` to `total` has an item waiting.
    pub open spec fn all_waiting(self) -> bool {
        forall|i: u32| self.current <= i <= self.total ==> #[trigger] self.items.contains_key(i)
    }
}

/// Queue which returns only sequenced events.
///
/// Items are inserted under an id in any order; `next` hands them out with
/// ids `1, 2, 3, ...` up to `total_items`. If the item with the next id is
/// missing, `next` returns `None` until it is inserted.
#[derive(Debug)]
pub struct SequencedQueue<T> {
    current: u32,
    queue: HashMap<u32, T>,
    total_items: u32,
}

impl<T> View for SequencedQueue<T> {
    type V = QueueView<T>;

    closed spec fn view(&self) -> QueueView<T> {
        QueueView { current: self.current, items: self.queue@, total: self.total_items }
    }
}

impl<T> SequencedQueue<T> {
    /// The counter never leaves `1..=total_items + 1`.
    #[verifier::type_invariant]
    spec fn counter_ok(self) -> bool {
        1 <= self.current <= self.total_items + 1
    }

    pub fn new(total_items: u32) -> (q: Self)
        ensures
            q@ == QueueView::<T>::init(total_items),
            q@.counter_in_range(),
    {
        let q = SequencedQueue { current: 1, queue: HashMap::new(), total_items };
        assert(q@.items =~= Map::<u32, T>::empty());
        q
    }

    /// Id of the next item to hand out.
    pub fn current(&self) -> (r: u32)
        ensures
            r == self@.current,
            self@.counter_in_range(),
    {
        proof {
            use_type_invariant(self);
        }
        self.current
    }

    /// Have we iterated over all _total_items_ events
    pub fn finished(&self) -> (r: bool)
        ensures
            r == self@.finished(),
            self@.counter_in_range(),
    {
        proof {
            use_type_invariant(self);
        }
        self.current > self.total_items
    }

    /// Insert event into queue (not necessarily a sequential event)
    pub fn insert(&mut self, id: u32, value: T)
        ensures
            final(self)@ == old(self)@.insert(id, value),
            final(self)@.counter_in_range(),
    {
        proof {
            use_type_invariant(&*self);
        }
        let mut queue = HashMap::new();
        std::mem::swap(&mut queue, &mut self.queue);
        queue.insert(id, value);
        self.queue = queue;
    }

    /// If there is next sequenced event then return it, with its id.
    pub fn next(&mut self) -> (r: Option<(u32, T)>)
        requires
            !old(self)@.next_overflows(),
        ensures
            (final(self)@, r) == old(self)@.step(),
            final(self)@.counter_in_range(),
    {
        proof {
            use_type_invariant(&*self);
        }
        if self.current > self.total_items {
            return None;
        }
        let id = self.current;
        let mut queue = HashMap::new();
        std::mem::swap(&mut queue, &mut self.queue);
        let res = match queue.remove(&id) {
            Some(event) => Some((id, event)),
            None => None,
        };
        self.queue = queue;
        if res.is_some() {
            self.current += 1
        } else {
            assert(self@.items =~= old(self)@.items);
        }
        res
    }
}

/// A fresh queue has its counter in range, and `insert` and `next` keep it
/// there.
pub proof fn lemma_counter_in_range<T>(q: QueueView<T>, id: u32, value: T, total: u32)
    requires
        q.counter_in_range(),
        !q.next_overflows(),
    ensures
        QueueView::<T>::init(total).counter_in_range(),
        q.insert(id, value).counter_in_range(),
        q.step().0.counter_in_range(),
{
}

/// When `next` returns `None` the queue is unchanged, so it keeps returning
/// `None` until an item is inserted.
pub proof fn lemma_none_stalls<T>(q: QueueView<T>)
    requires
        q.step().1 is None,
    ensures
        q.step().0 == q,
        q.step().0.step().1 is None,
{
}

/// Inserting the item with the next id makes `next` hand out exactly that
/// item, whatever else the queue holds.
pub proof fn lemma_insert_then_next<T>(q: QueueView<T>, value: T)
    requires
        !q.finished(),
    ensures
        q.insert(q.current, value).step().1 == Some((q.current, value)),
{
}

/// Two items handed out one after the other carry consecutive ids.
pub proof fn lemma_consecutive_ids<T>(q: QueueView<T>)
    requires
        !q.next_overflows(),
        q.step().1 is Some,
        q.step().0.step().1 is Some,
    ensures
        (q.step().0.step().1->0).0 == (q.step().1->0).0 + 1,
{
}

/// Once finished, a queue stays finished and hands out nothing more.
pub proof fn lemma_finished_is_final<T>(q: QueueView<T>, id: u32, value: T)
    requires
        q.finished(),
    ensures
        q.step().1 is None,
        q.step().0.finished(),
        q.insert(id, value).finished(),
{
}

/// If every remaining id has its item waiting, draining the queue hands out
/// all of them, with ids `current..=total` in order, and finishes it.
pub proof fn lemma_drain_delivers_all<T>(q: QueueView<T>)
    requires
        q.counter_in_range(),
        q.all_waiting(),
        q.total < u32::MAX,
    ensures
        q.drain().0.finished(),
        q.drain().1.len() == q.total + 1 - q.current,
        forall|k: int|
            0 <= k < q.drain().1.len() ==> #[trigger] q.drain().1[k] == (
                (q.current + k) as u32,
                q.items[(q.current + k) as u32],
            ),
    decreases (q.total + 1 - q.current),
{
    if q.has_next() {
        let n = q.step().0;
        assert(n.all_waiting());
        lemma_drain_delivers_all(n);
        let out = q.drain().1;
        let rest = n.drain().1;
        assert forall|k: int| 0 <= k < out.len() implies #[trigger] out[k] == (
            (q.current + k) as u32,
            q.items[(q.current + k) as u32],
        ) by {
            if k > 0 {
                assert(out[k] == rest[k - 1]);
            }
        }
    }
}

/// A call made on a queue: `insert(id, value)` or `next()`.
pub enum QueueOp<T> {
    Insert(u32, T),
    Next,
}

/// Making the calls `ops` in order on a queue in state `q`: the final state
/// and the items that `next` handed out, in order.
pub open spec fn run<T>(q: QueueView<T>, ops: Seq<QueueOp<T>>) -> (QueueView<T>, Seq<(u32, T)>)
    decreases ops.len(),
{
    if ops.len() == 0 {
        (q, Seq::empty())
    } else {
        let (q1, out) = run(q, ops.drop_last());
        match ops.last() {
            QueueOp::Insert(id, value) => (q1.insert(id, value), out),
            QueueOp::Next => match q1.step().1 {
                Some(item) => (q1.step().0, out.push(item)),
                None => (q1, out),
            },
        }
    }
}

/// The value of the last call `insert(id, ..)` among `ops`, if any.
pub open spec fn last_insert<T>(ops: Seq<QueueOp<T>>, id: u32) -> Option<T>
    decreases ops.len(),
{
    if ops.len() == 0 {
        None
    } else {
        match ops.last() {
            QueueOp::Insert(i, value) => if i == id {
                Some(value)
            } else {
                last_insert(ops.drop_last(), id)
            },
            QueueOp::Next => last_insert(ops.drop_last(), id),
        }
    }
}

/// Whatever calls are made on a fresh queue for `total` items:
/// - `next` has handed out ids `1, 2, 3, ...` in this order, each once, never
///   an id outside `1..=total` (so never 0, a handed-out id again, or one past
///   `total`);
/// - the queue is finished exactly when all `total` items have been handed out;
/// - the next call of `next` hands out the id after the last one handed out,
///   with the value of the last `insert` under that id, if there is one.
pub proof fn lemma_history<T>(total: u32, ops: Seq<QueueOp<T>>)
    requires
        total < u32::MAX,
    ensures
        ({
            let (q, out) = run(QueueView::<T>::init(total), ops);
            &&& q.total == total
            &&& q.current == out.len() + 1
            &&& out.len() <= total
            &&& forall|k: int| 0 <= k < out.len() ==> (#[trigger] out[k]).0 == k + 1
            &&& q.finished() <==> out.len() == total
            &&& forall|id: u32|
                q.current <= id ==> (#[trigger] q.items.contains_key(id) <==> last_insert(
                    ops,
                    id,
                ) is Some)
            &&& forall|id: u32|
                q.current <= id && #[trigger] q.items.contains_key(id) ==> Some(q.items[id])
                    == last_insert(ops, id)
            &&& q.step().1 == if q.current <= total && last_insert(ops, q.current) is Some {
                Some((q.current, last_insert(ops, q.current)->0))
            } else {
                None
            }
        }),
    decreases ops.len(),
{
    if ops.len() > 0 {
        lemma_history(total, ops.drop_last());
        let (q1, out1) = run(QueueView::<T>::init(total), ops.drop_last());
        let (q, out) = run(QueueView::<T>::init(total), ops);
        match ops.last() {
            QueueOp::Insert(id, value) => {
                assert forall|i: u32| q.current <= i implies (#[trigger] q.items.contains_key(i)
                    <==> last_insert(ops, i) is Some) by {}
            },
            QueueOp::Next => {
                if q1.step().1 is Some {
                    assert(out =~= out1.push((q1.current, q1.items[q1.current])));
                    assert forall|k: int| 0 <= k < out.len() implies (#[trigger] out[k]).0 == k
                        + 1 by {
                        if k < out1.len() {
                            assert(out[k] == out1[k]);
                        }
                    }
                }
            },
        }
    }
}

/// The item stored under `id` after the calls `ops` on state `q`, if no call
/// of `next` took it: the last inserted value, or else the one already there.
pub open spec fn value_after<T>(q: QueueView<T>, ops: Seq<QueueOp<T>>, id: u32) -> Option<T> {
    match last_insert(ops, id) {
        Some(value) => Some(value),
        None => if q.items.contains_key(id) {
            Some(q.items[id])
        } else {
            None
        },
    }
}

/// Whatever calls are made on any queue: `next` hands out ids `current,
/// current + 1, ...` in this order, and each id not handed out yet holds the
/// last value inserted under it (or the one it held before).
pub proof fn lemma_history_from<T>(q: QueueView<T>, ops: Seq<QueueOp<T>>)
    requires
        q.counter_in_range(),
        q.total < u32::MAX,
    ensures
        ({
            let (p, out) = run(q, ops);
            &&& p.total == q.total
            &&& p.counter_in_range()
            &&& p.current == q.current + out.len()
            &&& forall|k: int| 0 <= k < out.len() ==> (#[trigger] out[k]).0 == q.current + k
            &&& forall|id: u32|
                p.current <= id ==> (#[trigger] p.items.contains_key(id) <==> value_after(
                    q,
                    ops,
                    id,
                ) is Some)
            &&& forall|id: u32|
                p.current <= id && #[trigger] p.items.contains_key(id) ==> Some(p.items[id])
                    == value_after(q, ops, id)
        }),
    decreases ops.len(),
{
    if ops.len() > 0 {
        lemma_history_from(q, ops.drop_last());
        let (q1, out1) = run(q, ops.drop_last());
        let (p, out) = run(q, ops);
        match ops.last() {
            QueueOp::Insert(id, value) => {
                assert forall|i: u32| p.current <= i implies (#[trigger] p.items.contains_key(i)
                    <==> value_after(q, ops, i) is Some) by {}
            },
            QueueOp::Next => {
                if q1.step().1 is Some {
                    assert(out =~= out1.push((q1.current, q1.items[q1.current])));
                    assert forall|k: int| 0 <= k < out.len() implies (#[trigger] out[k]).0
                        == q.current + k by {
                        if k < out1.len() {
                            assert(out[k] == out1[k]);
                        }
                    }
                }
            },
        }
    }
}

/// An id below the counter (already handed out, or 0) or past the total is
/// never handed out, whatever is inserted under it and whatever calls follow.
pub proof fn lemma_stray_ids_never_handed_out<T>(q: QueueView<T>, ops: Seq<QueueOp<T>>, id: u32)
    requires
        q.counter_in_range(),
        q.total < u32::MAX,
        id < q.current || id > q.total,
    ensures
        forall|k: int| 0 <= k < run(q, ops).1.len() ==> (#[trigger] run(q, ops).1[k]).0 != id,
        run(q, ops).0.finished() == (run(q, ops).0.current == q.total + 1),
{
    lemma_history_from(q, ops);
}

/// `n` calls of `next` in a row.
pub open spec fn nexts<T>(n: nat) -> Seq<QueueOp<T>> {
    Seq::new(n, |i: int| QueueOp::Next)
}

proof fn lemma_last_insert_after_nexts<T>(ins: Seq<QueueOp<T>>, n: nat, id: u32)
    ensures
        last_insert(ins + nexts::<T>(n), id) == last_insert(ins, id),
    decreases n,
{
    if n > 0 {
        assert((ins + nexts::<T>(n)).drop_last() =~= ins + nexts::<T>((n - 1) as nat));
        lemma_last_insert_after_nexts(ins, (n - 1) as nat, id);
    } else {
        assert(ins + nexts::<T>(0) =~= ins);
    }
}

/// Calls of `insert` alone hand out nothing.
pub proof fn lemma_inserts_hand_out_nothing<T>(q: QueueView<T>, ins: Seq<QueueOp<T>>)
    requires
        forall|i: int| 0 <= i < ins.len() ==> #[trigger] ins[i] is Insert,
    ensures
        run(q, ins).1 == Seq::<(u32, T)>::empty(),
    decreases ins.len(),
{
    if ins.len() > 0 {
        assert(ins.last() is Insert);
        lemma_inserts_hand_out_nothing(q, ins.drop_last());
    }
}

/// Inserting the items of ids `1..=total` in any order (an id inserted twice
/// keeps its last value), and then calling `next` `k` times for `k <= total`,
/// hands out the items of ids `1..=k` in order.
pub proof fn lemma_any_insert_order<T>(total: u32, ins: Seq<QueueOp<T>>, k: nat)
    requires
        total < u32::MAX,
        k <= total,
        forall|i: int| 0 <= i < ins.len() ==> #[trigger] ins[i] is Insert,
        forall|id: u32| 1 <= id <= total ==> #[trigger] last_insert(ins, id) is Some,
    ensures
        run(QueueView::<T>::init(total), ins + nexts::<T>(k)).1 == Seq::new(
            k,
            |i: int| ((i + 1) as u32, last_insert(ins, (i + 1) as u32)->0),
        ),
    decreases k,
{
    let q0 = QueueView::<T>::init(total);
    if k == 0 {
        assert(ins + nexts::<T>(0) =~= ins);
        lemma_inserts_hand_out_nothing(q0, ins);
        assert(Seq::new(0, |i: int| ((i + 1) as u32, last_insert(ins, (i + 1) as u32)->0))
            =~= Seq::<(u32, T)>::empty());
    } else {
        let prev = ins + nexts::<T>((k - 1) as nat);
        let ops = ins + nexts::<T>(k);
        assert(ops.drop_last() =~= prev);
        assert(ops.last() is Next);
        lemma_any_insert_order(total, ins, (k - 1) as nat);
        lemma_history(total, prev);
        let (q1, out1) = run(q0, prev);
        lemma_last_insert_after_nexts(ins, (k - 1) as nat, k as u32);
        assert(last_insert(ins, k as u32) is Some);
        assert(q1.current == k);
        assert(run(q0, ops).1 =~= Seq::new(
            k,
            |i: int| ((i + 1) as u32, last_insert(ins, (i + 1) as u32)->0),
        ));
    }
}

} // verus!
