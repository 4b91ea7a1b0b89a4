//! First-in, first-out message queues, keyed by where messages travel.
//!
//! The local transport keys its queues by the pair (sender, receiver), the
//! HTTP transport by the sending location; both put a message at the back of
//! one queue and take messages from the front. The laws here hold of any run
//! of such operations.

use vstd::prelude::*;

verus! {

/// The queues after `m` is put at the back of queue `k`.
pub open spec fn push_message<K>(q: Map<K, Seq<String>>, k: K, m: String) -> Map<K, Seq<String>> {
    q.insert(k, q[k].push(m))
}

/// The message at the front of queue `k`, and the queues after it is taken;
/// nothing, and the queues unchanged, where queue `k` is empty.
pub open spec fn pop_message<K>(q: Map<K, Seq<String>>, k: K) -> (
    Option<String>,
    Map<K, Seq<String>>,
) {
    let pending = q[k];
    if pending.len() == 0 {
        (None, q)
    } else {
        (Some(pending[0]), q.insert(k, pending.drop_first()))
    }
}

/// One operation on queue `op.0`: `Some(m)` puts `m` at its back, `None`
/// takes from its front. The result is what was taken, and the queues after.
pub open spec fn apply_op<K>(q: Map<K, Seq<String>>, op: (K, Option<String>)) -> (
    Option<String>,
    Map<K, Seq<String>>,
) {
    match op.1 {
        Some(m) => (None, push_message(q, op.0, m)),
        None => pop_message(q, op.0),
    }
}

/// The queues after a run of operations, in order.
pub open spec fn queues_after<K>(q: Map<K, Seq<String>>, ops: Seq<(K, Option<String>)>) -> Map<
    K,
    Seq<String>,
>
    decreases ops.len(),
{
    if ops.len() == 0 {
        q
    } else {
        apply_op(queues_after(q, ops.drop_last()), ops.last()).1
    }
}

/// The messages that the operations of a run on queue `k` take, in order.
pub open spec fn received_on<K>(q: Map<K, Seq<String>>, ops: Seq<(K, Option<String>)>, k: K) -> Seq<
    String,
>
    decreases ops.len(),
{
    if ops.len() == 0 {
        Seq::empty()
    } else {
        let prev = received_on(q, ops.drop_last(), k);
        let op = ops.last();
        if op.0 == k {
            match apply_op(queues_after(q, ops.drop_last()), op).0 {
                Some(m) => prev.push(m),
                None => prev,
            }
        } else {
            prev
        }
    }
}

/// The messages that the operations of a run put on queue `k`, in order.
pub open spec fn sent_on<K>(ops: Seq<(K, Option<String>)>, k: K) -> Seq<String>
    decreases ops.len(),
{
    if ops.len() == 0 {
        Seq::empty()
    } else {
        let prev = sent_on(ops.drop_last(), k);
        let op = ops.last();
        match op.1 {
            Some(m) => if op.0 == k {
                prev.push(m)
            } else {
                prev
            },
            None => prev,
        }
    }
}

/// Every operation of the run is on an existing queue.
pub open spec fn ops_within<K>(q: Map<K, Seq<String>>, ops: Seq<(K, Option<String>)>) -> bool {
    forall|i: int| 0 <= i < ops.len() ==> q.dom().contains(#[trigger] ops[i].0)
}

/// Operations that put each of `ms`, in order, on queue `k`.
pub open spec fn send_ops<K>(k: K, ms: Seq<String>) -> Seq<(K, Option<String>)> {
    Seq::new(ms.len(), |i: int| (k, Some(ms[i])))
}

/// `n` operations that take from queue `k`.
pub open spec fn receive_ops<K>(k: K, n: nat) -> Seq<(K, Option<String>)> {
    Seq::new(n, |i: int| (k, None::<String>))
}

/// Over any run of operations on existing queues, no queue appears or
/// disappears, and for every queue what was pending at the start followed by
/// what was put on it is exactly what was taken from it followed by what is
/// pending at the end. So every queue hands out its messages first in, first
/// out, a message is only ever taken from the queue it was put on, and none
/// is lost or taken twice.
pub proof fn lemma_queues_keep_order<K>(q: Map<K, Seq<String>>, ops: Seq<(K, Option<String>)>)
    requires
        ops_within(q, ops),
    ensures
        queues_after(q, ops).dom() == q.dom(),
        forall|k: K|
            q.dom().contains(k) ==> q[k] + sent_on(ops, k) == received_on(q, ops, k)
                + #[trigger] queues_after(q, ops)[k],
    decreases ops.len(),
{
    if ops.len() == 0 {
        assert forall|k: K| q.dom().contains(k) implies q[k] + sent_on(ops, k) == received_on(
            q,
            ops,
            k,
        ) + #[trigger] queues_after(q, ops)[k] by {
            assert(q[k] + Seq::<String>::empty() =~= Seq::<String>::empty() + q[k]);
        }
    } else {
        let init = ops.drop_last();
        assert(ops_within(q, init)) by {
            assert forall|i: int| 0 <= i < init.len() implies q.dom().contains(#[trigger] init[i].0) by {
                assert(init[i] == ops[i]);
            }
        }
        lemma_queues_keep_order(q, init);
        let q0 = queues_after(q, init);
        let op = ops.last();
        assert(q.dom().contains(ops[ops.len() - 1].0));
        assert(queues_after(q, ops).dom() =~= q.dom());
        assert forall|k: K| q.dom().contains(k) implies q[k] + sent_on(ops, k) == received_on(
            q,
            ops,
            k,
        ) + #[trigger] queues_after(q, ops)[k] by {
            let s0 = sent_on(init, k);
            let r0 = received_on(q, init, k);
            assert(q[k] + s0 == r0 + q0[k]);
            if op.0 == k {
                match op.1 {
                    Some(m) => {
                        assert(q[k] + s0.push(m) =~= (r0 + q0[k]).push(m));
                        assert(r0 + q0[k].push(m) =~= (r0 + q0[k]).push(m));
                    },
                    None => {
                        if q0[k].len() > 0 {
                            assert(r0.push(q0[k][0]) + q0[k].drop_first() =~= r0 + q0[k]);
                        }
                    },
                }
            }
        }
    }
}

/// Any number of operations that only put messages each add one message at
/// the back of its queue: afterwards every queue holds what it held, then
/// what was put on it, in order.
pub proof fn lemma_sends_append<K>(q: Map<K, Seq<String>>, ops: Seq<(K, Option<String>)>)
    requires
        ops_within(q, ops),
        forall|i: int| 0 <= i < ops.len() ==> (#[trigger] ops[i].1) is Some,
    ensures
        queues_after(q, ops).dom() == q.dom(),
        forall|k: K| q.dom().contains(k) ==> #[trigger] queues_after(q, ops)[k] == q[k] + sent_on(ops, k),
{
    lemma_queues_keep_order(q, ops);
    assert forall|k: K| q.dom().contains(k) implies #[trigger] queues_after(q, ops)[k] == q[k]
        + sent_on(ops, k) by {
        lemma_nothing_received(q, ops, k);
        assert(Seq::<String>::empty() + queues_after(q, ops)[k] =~= queues_after(q, ops)[k]);
    }
}

/// A run without taking operations takes nothing.
proof fn lemma_nothing_received<K>(q: Map<K, Seq<String>>, ops: Seq<(K, Option<String>)>, k: K)
    requires
        forall|i: int| 0 <= i < ops.len() ==> (#[trigger] ops[i].1) is Some,
    ensures
        received_on(q, ops, k) == Seq::<String>::empty(),
    decreases ops.len(),
{
    if ops.len() > 0 {
        let init = ops.drop_last();
        assert forall|i: int| 0 <= i < init.len() implies (#[trigger] init[i].1) is Some by {
            assert(init[i] == ops[i]);
        }
        lemma_nothing_received(q, init, k);
        assert(ops[ops.len() - 1].1 is Some);
    }
}

/// Messages put on an empty queue and then taken, as many times as there are
/// messages, come back in the order they were put, and every queue is then
/// as it was.
pub proof fn lemma_sent_then_received_in_order<K>(q: Map<K, Seq<String>>, k: K, ms: Seq<String>)
    requires
        q.dom().contains(k),
        q[k].len() == 0,
    ensures
        received_on(q, send_ops(k, ms) + receive_ops(k, ms.len()), k) == ms,
        queues_after(q, send_ops(k, ms) + receive_ops(k, ms.len())) == q,
{
    lemma_receives_take_front(q, k, ms, ms.len());
    assert(ms.take(ms.len() as int) =~= ms);
    assert(ms.skip(ms.len() as int) =~= q[k]);
    assert(q.insert(k, q[k]) =~= q);
}

/// After putting `ms` on empty queue `k`, queue `k` holds `ms` and nothing
/// was taken.
proof fn lemma_sends_fill<K>(q: Map<K, Seq<String>>, k: K, ms: Seq<String>)
    requires
        q.dom().contains(k),
        q[k].len() == 0,
    ensures
        queues_after(q, send_ops(k, ms)) == q.insert(k, ms),
        received_on(q, send_ops(k, ms), k) == Seq::<String>::empty(),
    decreases ms.len(),
{
    let ops = send_ops(k, ms);
    if ms.len() == 0 {
        assert(ms =~= q[k]);
        assert(q.insert(k, ms) =~= q);
    } else {
        let init = ms.drop_last();
        lemma_sends_fill(q, k, init);
        assert(ops.drop_last() =~= send_ops(k, init));
        assert(ops.last() == (k, Some(ms.last())));
        assert(init.push(ms.last()) =~= ms);
        assert(q.insert(k, init).insert(k, ms) =~= q.insert(k, ms));
    }
}

/// After putting `ms` on empty queue `k` and taking `n` times, the first `n`
/// were taken in order and the rest are pending.
proof fn lemma_receives_take_front<K>(q: Map<K, Seq<String>>, k: K, ms: Seq<String>, n: nat)
    requires
        q.dom().contains(k),
        q[k].len() == 0,
        n <= ms.len(),
    ensures
        received_on(q, send_ops(k, ms) + receive_ops(k, n), k) == ms.take(n as int),
        queues_after(q, send_ops(k, ms) + receive_ops(k, n)) == q.insert(k, ms.skip(n as int)),
    decreases n,
{
    let sends = send_ops(k, ms);
    let ops = sends + receive_ops(k, n);
    if n == 0 {
        lemma_sends_fill(q, k, ms);
        assert(ops =~= sends);
        assert(ms.take(0) =~= Seq::<String>::empty());
        assert(ms.skip(0) =~= ms);
    } else {
        let m1 = (n - 1) as nat;
        lemma_receives_take_front(q, k, ms, m1);
        assert(ops.drop_last() =~= sends + receive_ops(k, m1));
        assert(ops.last() == (k, None::<String>));
        let q0 = q.insert(k, ms.skip(m1 as int));
        assert(q0[k].len() > 0);
        assert(q0[k][0] == ms[m1 as int]);
        assert(ms.take(m1 as int).push(ms[m1 as int]) =~= ms.take(n as int));
        assert(q0[k].drop_first() =~= ms.skip(n as int));
        assert(q0.insert(k, q0[k].drop_first()) =~= q.insert(k, ms.skip(n as int)));
    }
}

} // verus!
