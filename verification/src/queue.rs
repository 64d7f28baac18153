//! The queue that hands each change set to every subscribed client.

use vstd::prelude::*;
use crate::changes::{ChangeSet, ChangeView};

verus! {

/// The mathematical value of a [`Subscriber`].
pub struct SubscriberView {
    pub backlog: Seq<Seq<ChangeView>>,
    pub subscribed_at: u64,
    pub last_delivery: Option<u64>,
}

/// What the queue keeps for one client.
#[derive(Debug)]
pub struct Subscriber {
    pub client_id: u64,
    /// The change sets that the client has not fetched yet, oldest first.
    pub backlog: Vec<ChangeSet>,
    /// When the client subscribed, on the caller's clock.
    pub subscribed_at: u64,
    /// When the client last fetched its backlog, on the caller's clock.
    pub last_delivery: Option<u64>,
}

impl View for Subscriber {
    type V = SubscriberView;

    open spec fn view(&self) -> SubscriberView {
        SubscriberView {
            backlog: Seq::new(self.backlog@.len(), |i: int| self.backlog@[i]@),
            subscribed_at: self.subscribed_at,
            last_delivery: self.last_delivery,
        }
    }
}

impl Subscriber {
    /// Every change set of the backlog is well formed.
    pub open spec fn wf(&self) -> bool {
        forall|i: int| 0 <= i < self.backlog@.len() ==> (#[trigger] self.backlog@[i]).wf()
    }
}

/// One operation on a queue.
pub enum QueueOp {
    Subscribe { client: u64, now: u64 },
    Unsubscribe { client: u64 },
    /// A change set for every subscriber but `except`.
    Push { message: Seq<ChangeView>, except: Option<u64> },
    Drain { client: u64, now: u64 },
}

/// The queue after `op`.
pub open spec fn step(queue: Map<u64, SubscriberView>, op: QueueOp) -> Map<u64, SubscriberView> {
    match op {
        QueueOp::Subscribe { client, now } => queue.insert(
            client,
            SubscriberView { backlog: Seq::empty(), subscribed_at: now, last_delivery: None },
        ),
        QueueOp::Unsubscribe { client } => queue.remove(client),
        QueueOp::Push { message, except } => Map::new(
            |client: u64| queue.contains_key(client),
            |client: u64|
                if except == Some(client) {
                    queue[client]
                } else {
                    SubscriberView { backlog: queue[client].backlog.push(message), ..queue[client] }
                },
        ),
        QueueOp::Drain { client, now } => if queue.contains_key(client) {
            queue.insert(
                client,
                SubscriberView { backlog: Seq::empty(), last_delivery: Some(now), ..queue[client] },
            )
        } else {
            queue
        },
    }
}

/// The queue after the operations `ops`, made in order on an empty queue.
pub open spec fn run(ops: Seq<QueueOp>) -> Map<u64, SubscriberView>
    decreases ops.len(),
{
    if ops.len() == 0 {
        Map::empty()
    } else {
        step(run(ops.drop_last()), ops.last())
    }
}

/// The change sets that `ops` pushed for `client`, in order.
pub open spec fn pushed_for(ops: Seq<QueueOp>, client: u64) -> Seq<Seq<ChangeView>>
    decreases ops.len(),
{
    if ops.len() == 0 {
        Seq::empty()
    } else {
        let before = pushed_for(ops.drop_last(), client);
        match ops.last() {
            QueueOp::Push { message, except } => if except == Some(client) {
                before
            } else {
                before.push(message)
            },
            _ => before,
        }
    }
}

/// Whether `tail` is what `whole` ends with.
pub open spec fn is_suffix<A>(tail: Seq<A>, whole: Seq<A>) -> bool {
    tail.len() <= whole.len() && whole.subrange(whole.len() - tail.len(), whole.len() as int) == tail
}

/// The position in `ops` of the last subscription of `client`, or -1.
pub open spec fn last_subscription(ops: Seq<QueueOp>, client: u64) -> int
    decreases ops.len(),
{
    if ops.len() == 0 {
        -1
    } else {
        match ops.last() {
            QueueOp::Subscribe { client: c, now } => if c == client {
                ops.len() - 1
            } else {
                last_subscription(ops.drop_last(), client)
            },
            _ => last_subscription(ops.drop_last(), client),
        }
    }
}

/// Fairness of the queue. After any operations, the backlog of a subscribed
/// client, which is what its next drain returns, is what the change sets
/// pushed for it since it last subscribed end with: nothing is lost from the
/// end, nothing is reordered, and nothing from before the subscription is
/// seen.
pub proof fn lemma_queue_fairness(ops: Seq<QueueOp>, client: u64)
    requires
        run(ops).contains_key(client),
    ensures
        0 <= last_subscription(ops, client) < ops.len(),
        ops[last_subscription(ops, client)] matches QueueOp::Subscribe { client: c, .. } && c == client,
        is_suffix(
            run(ops)[client].backlog,
            pushed_for(ops.subrange(last_subscription(ops, client) + 1, ops.len() as int), client),
        ),
    decreases ops.len(),
{
    if ops.len() == 0 {
    } else {
        let init = ops.drop_last();
        let n = ops.len() as int;
        let k = last_subscription(ops, client);
        match ops.last() {
            QueueOp::Subscribe { client: c, now } => {
                if c == client {
                    let sent = pushed_for(ops.subrange(k + 1, n), client);
                    assert(ops.subrange(k + 1, n) =~= Seq::<QueueOp>::empty());
                    assert(run(ops)[client].backlog =~= Seq::<Seq<ChangeView>>::empty());
                    assert(sent.subrange(0, 0) =~= Seq::<Seq<ChangeView>>::empty());
                } else {
                    assert(run(init).contains_key(client));
                    lemma_queue_fairness(init, client);
                    lemma_pushed_after(ops, k + 1, client);
                }
            },
            QueueOp::Unsubscribe { client: c } => {
                assert(c != client);
                assert(run(init).contains_key(client));
                lemma_queue_fairness(init, client);
                lemma_pushed_after(ops, k + 1, client);
            },
            QueueOp::Push { message, except } => {
                assert(run(init).contains_key(client));
                lemma_queue_fairness(init, client);
                lemma_pushed_after(ops, k + 1, client);
                let sent = pushed_for(init.subrange(k + 1, n - 1), client);
                let backlog = run(init)[client].backlog;
                assert(is_suffix(backlog, sent));
                if except != Some(client) {
                    let sent2 = sent.push(message);
                    let backlog2 = backlog.push(message);
                    assert(sent2.subrange(sent2.len() - backlog2.len(), sent2.len() as int)
                        =~= backlog2) by {
                        assert forall|i: int| 0 <= i < backlog.len() implies sent2[sent2.len()
                            - backlog2.len() + i] == backlog[i] by {
                            assert(sent.subrange(sent.len() - backlog.len(), sent.len() as int)[i]
                                == backlog[i]);
                        }
                    }
                }
            },
            QueueOp::Drain { client: c, now } => {
                assert(run(init).contains_key(client));
                lemma_queue_fairness(init, client);
                lemma_pushed_after(ops, k + 1, client);
                if c == client {
                    let sent = pushed_for(ops.subrange(k + 1, n), client);
                    assert(run(ops)[client].backlog =~= Seq::<Seq<ChangeView>>::empty());
                    assert(sent.subrange(sent.len() as int, sent.len() as int) =~= Seq::<
                        Seq<ChangeView>,
                    >::empty());
                }
            },
        }
    }
}

/// What was pushed after position `from` grows with the last operation as
/// what was pushed in all does.
proof fn lemma_pushed_after(ops: Seq<QueueOp>, from: int, client: u64)
    requires
        0 <= from < ops.len(),
    ensures
        pushed_for(ops.subrange(from, ops.len() as int), client) == match ops.last() {
            QueueOp::Push { message, except } => if except == Some(client) {
                pushed_for(ops.drop_last().subrange(from, ops.len() - 1), client)
            } else {
                pushed_for(ops.drop_last().subrange(from, ops.len() - 1), client).push(message)
            },
            _ => pushed_for(ops.drop_last().subrange(from, ops.len() - 1), client),
        },
{
    let tail = ops.subrange(from, ops.len() as int);
    assert(tail.drop_last() =~= ops.drop_last().subrange(from, ops.len() - 1));
    assert(tail.last() == ops.last());
}

/// The queue: one backlog for each subscribed client.
#[derive(Debug)]
pub struct Queue {
    subscribers: Vec<Subscriber>,
}

impl View for Queue {
    type V = Map<u64, SubscriberView>;

    closed spec fn view(&self) -> Map<u64, SubscriberView> {
        Map::new(
            |client: u64| self.ids().contains(client),
            |client: u64| self.subscribers@[self.ids().index_of(client)]@,
        )
    }
}

impl Queue {
    /// The client identifiers in the order in which they are stored.
    pub closed spec fn ids(&self) -> Seq<u64> {
        Seq::new(self.subscribers@.len(), |i: int| self.subscribers@[i].client_id)
    }

    /// No client is held twice, and every backlog is well formed.
    pub closed spec fn wf(&self) -> bool {
        &&& self.ids().no_duplicates()
        &&& forall|i: int| 0 <= i < self.subscribers@.len() ==> (#[trigger] self.subscribers@[i]).wf()
    }

    proof fn lemma_entry(&self, i: int)
        requires
            self.wf(),
            0 <= i < self.subscribers@.len(),
        ensures
            self@.contains_key(self.subscribers@[i].client_id),
            self@[self.subscribers@[i].client_id] == self.subscribers@[i]@,
    {
        let ids = self.ids();
        assert(ids[i] == self.subscribers@[i].client_id);
        assert(ids.contains(ids[i]));
        let j = ids.index_of(ids[i]);
        assert(0 <= j < ids.len() && ids[j] == ids[i]);
    }

    /// A queue without subscribers.
    pub fn new() -> (queue: Queue)
        ensures
            queue.wf(),
            queue@ == run(Seq::empty()),
    {
        let queue = Queue { subscribers: Vec::new() };
        assert(queue@ =~= Map::<u64, SubscriberView>::empty());
        queue
    }

    fn position(&self, client: u64) -> (found: Option<usize>)
        ensures
            match found {
                Some(i) => i < self.subscribers@.len() && self.subscribers@[i as int].client_id == client,
                None => !self.ids().contains(client),
            },
    {
        let mut i: usize = 0;
        while i < self.subscribers.len()
            invariant
                i <= self.subscribers@.len(),
                forall|j: int| 0 <= j < i ==> self.subscribers@[j].client_id != client,
            decreases self.subscribers@.len() - i,
        {
            if self.subscribers[i].client_id == client {
                return Some(i);
            }
            i += 1;
        }
        None
    }

    /// Whether `client` is subscribed.
    pub fn is_subscribed(&self, client: u64) -> (subscribed: bool)
        requires
            self.wf(),
        ensures
            subscribed == self@.contains_key(client),
    {
        match self.position(client) {
            Some(i) => {
                proof {
                    self.lemma_entry(i as int);
                }
                true
            },
            None => false,
        }
    }

    /// Gives `client` an empty backlog: a new one, or in place of the one it had.
    pub fn subscribe(&mut self, client: u64, now: u64)
        requires
            old(self).wf(),
        ensures
            final(self).wf(),
            final(self)@ == step(old(self)@, QueueOp::Subscribe { client, now }),
    {
        let ghost before = self@;
        let ghost old_ids = self.ids();
        let ghost old_subs = self.subscribers@;
        let fresh = Subscriber { client_id: client, backlog: Vec::new(), subscribed_at: now, last_delivery: None };
        assert(fresh@.backlog =~= Seq::empty());
        match self.position(client) {
            Some(i) => {
                assert(old_ids[i as int] == client);
                self.subscribers.set(i, fresh);
                proof {
                    assert(self.ids() =~= old_ids);
                    assert forall|c: u64| #[trigger] self@.contains_key(c) implies self@[c] == step(
                        before,
                        QueueOp::Subscribe { client, now },
                    )[c] by {
                        let j = self.ids().index_of(c);
                        assert(0 <= j < old_ids.len() && old_ids[j] == c);
                        if j != i as int {
                            assert(self.subscribers@[j] == old_subs[j]);
                        }
                    }
                    assert forall|c: u64| self@.contains_key(c) == step(
                        before,
                        QueueOp::Subscribe { client, now },
                    ).contains_key(c) by {
                        if c == client {
                            assert(old_ids.contains(old_ids[i as int]));
                        }
                    }
                    assert(self@ =~= step(before, QueueOp::Subscribe { client, now }));
                }
            },
            None => {
                self.subscribers.push(fresh);
                proof {
                    let ids = self.ids();
                    assert(ids =~= old_ids.push(client));
                    assert forall|c: u64| ids.contains(c) <==> (old_ids.contains(c) || c == client) by {
                        if old_ids.contains(c) {
                            let j = old_ids.index_of(c);
                            assert(ids[j] == c);
                        }
                        if c == client {
                            assert(ids[ids.len() - 1] == c);
                        }
                    }
                    assert forall|c: u64| #[trigger] self@.contains_key(c) implies self@[c] == step(
                        before,
                        QueueOp::Subscribe { client, now },
                    )[c] by {
                        let j = ids.index_of(c);
                        assert(0 <= j < ids.len() && ids[j] == c);
                        if c != client {
                            let j0 = old_ids.index_of(c);
                            assert(0 <= j0 < old_ids.len() && old_ids[j0] == c);
                            assert(ids[j0] == c);
                            assert(j0 == j);
                        } else {
                            assert(j == ids.len() - 1);
                        }
                    }
                    assert(self@ =~= step(before, QueueOp::Subscribe { client, now }));
                }
            },
        }
    }

    /// Ends the subscription of `client`, and says whether there was one.
    pub fn unsubscribe(&mut self, client: &u64) -> (existed: bool)
        requires
            old(self).wf(),
        ensures
            final(self).wf(),
            existed == old(self)@.contains_key(*client),
            final(self)@ == step(old(self)@, QueueOp::Unsubscribe { client: *client }),
    {
        let ghost before = self@;
        let ghost old_ids = self.ids();
        let ghost old_subs = self.subscribers@;
        match self.position(*client) {
            Some(i) => {
                proof {
                    self.lemma_entry(i as int);
                }
                assert(old_ids[i as int] == *client);
                self.subscribers.remove(i);
                proof {
                    let ids = self.ids();
                    assert(self.subscribers@ =~= old_subs.remove(i as int));
                    assert(ids =~= old_ids.remove(i as int));
                    assert forall|a: int, b: int| 0 <= a < b < ids.len() implies ids[a] != ids[b] by {
                        let a0 = if a < i { a } else { a + 1 };
                        let b0 = if b < i { b } else { b + 1 };
                        assert(ids[a] == old_ids[a0] && ids[b] == old_ids[b0]);
                    }
                    assert forall|c: u64| ids.contains(c) <==> (old_ids.contains(c) && c != *client) by {
                        if ids.contains(c) {
                            let j = ids.index_of(c);
                            let j0 = if j < i { j } else { j + 1 };
                            assert(old_ids[j0] == c);
                        }
                        if old_ids.contains(c) && c != *client {
                            let j0 = old_ids.index_of(c);
                            let j = if j0 < i { j0 } else { j0 - 1 };
                            assert(ids[j] == c);
                        }
                    }
                    assert forall|c: u64| #[trigger] self@.contains_key(c) implies self@[c] == before[c] by {
                        let j = ids.index_of(c);
                        assert(0 <= j < ids.len() && ids[j] == c);
                        let j0 = if j < i { j } else { j + 1 };
                        assert(old_ids[j0] == c);
                        let j1 = old_ids.index_of(c);
                        assert(0 <= j1 < old_ids.len() && old_ids[j1] == c);
                        assert(j1 == j0);
                    }
                    assert(self@ =~= before.remove(*client));
                }
                true
            },
            None => {
                assert(self@ =~= before.remove(*client));
                false
            },
        }
    }

    /// Appends a copy of `message` to the backlog of every subscriber but `except`.
    pub fn push(&mut self, message: &ChangeSet, except: Option<u64>)
        requires
            old(self).wf(),
            message.wf(),
        ensures
            final(self).wf(),
            final(self)@ == step(old(self)@, QueueOp::Push { message: message@, except }),
    {
        let ghost before = self@;
        let ghost old_ids = self.ids();
        let ghost old_subs = self.subscribers@;
        let mut i: usize = 0;
        while i < self.subscribers.len()
            invariant
                message.wf(),
                self.wf(),
                self.ids() == old_ids,
                self.subscribers@.len() == old_subs.len(),
                i <= old_subs.len(),
                forall|j: int|
                    0 <= j < i ==> (#[trigger] self.subscribers@[j])@ == if except == Some(old_ids[j]) {
                        old_subs[j]@
                    } else {
                        SubscriberView { backlog: old_subs[j]@.backlog.push(message@), ..old_subs[j]@ }
                    },
                forall|j: int| i <= j < old_subs.len() ==> (#[trigger] self.subscribers@[j])@ == old_subs[j]@,
            decreases old_subs.len() - i,
        {
            let ghost mid = self.subscribers@;
            let ghost id = self.subscribers@[i as int].client_id;
            assert(old_ids[i as int] == id);
            if except != Some(self.subscribers[i].client_id) {
                let copy = message.duplicate();
                self.subscribers[i].backlog.push(copy);
                proof {
                    assert(self.subscribers@[i as int].client_id == id);
                    assert(self.subscribers@[i as int]@.backlog =~= mid[i as int]@.backlog.push(message@));
                    assert(self.ids() =~= old_ids);
                    assert forall|j: int| 0 <= j < self.subscribers@.len() implies (
                    #[trigger] self.subscribers@[j]).wf() by {
                        if j != i as int {
                            assert(self.subscribers@[j] == mid[j]);
                        }
                    }
                }
            }
            i += 1;
        }
        proof {
            let after = step(before, QueueOp::Push { message: message@, except });
            assert forall|c: u64| #[trigger] self@.contains_key(c) implies self@[c] == after[c] by {
                let j = old_ids.index_of(c);
                assert(0 <= j < old_ids.len() && old_ids[j] == c);
            }
            assert(self@ =~= after);
        }
    }

    /// Takes the backlog of `client` and leaves it empty; `None` if `client`
    /// is not subscribed.
    pub fn drain(&mut self, client: u64, now: u64) -> (backlog: Option<Vec<ChangeSet>>)
        requires
            old(self).wf(),
        ensures
            final(self).wf(),
            final(self)@ == step(old(self)@, QueueOp::Drain { client, now }),
            match backlog {
                Some(list) => old(self)@.contains_key(client) && old(self)@[client].backlog == Seq::new(
                    list@.len(),
                    |i: int| list@[i]@,
                ) && forall|i: int| 0 <= i < list@.len() ==> (#[trigger] list@[i]).wf(),
                None => !old(self)@.contains_key(client),
            },
    {
        let ghost before = self@;
        let ghost old_ids = self.ids();
        let ghost old_subs = self.subscribers@;
        match self.position(client) {
            Some(i) => {
                proof {
                    self.lemma_entry(i as int);
                }
                assert(old_ids[i as int] == client);
                let mut list: Vec<ChangeSet> = Vec::new();
                std::mem::swap(&mut self.subscribers[i].backlog, &mut list);
                self.subscribers[i].last_delivery = Some(now);
                proof {
                    assert(self.ids() =~= old_ids);
                    assert(self.subscribers@[i as int]@.backlog =~= Seq::empty());
                    assert(old_subs[i as int]@.backlog =~= Seq::new(list@.len(), |k: int| list@[k]@));
                    assert forall|j: int| 0 <= j < self.subscribers@.len() implies (
                    #[trigger] self.subscribers@[j]).wf() by {
                        if j != i as int {
                            assert(self.subscribers@[j] == old_subs[j]);
                        }
                    }
                    assert forall|c: u64| #[trigger] self@.contains_key(c) implies self@[c] == step(
                        before,
                        QueueOp::Drain { client, now },
                    )[c] by {
                        let j = old_ids.index_of(c);
                        assert(0 <= j < old_ids.len() && old_ids[j] == c);
                        if j != i as int {
                            assert(self.subscribers@[j] == old_subs[j]);
                        }
                    }
                    assert(self@ =~= step(before, QueueOp::Drain { client, now }));
                }
                Some(list)
            },
            None => None,
        }
    }
}

} // verus!
