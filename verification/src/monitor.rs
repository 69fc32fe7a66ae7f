//! The monitor bus and the service-4 session machine.
//!
//! Inventory-changing handlers publish `(flight, status)` events on the
//! bus; the bus is a broadcast topic: every open subscription has a
//! queue of its own, each publication is appended to all of them in
//! first-in-first-out order, and one session draining its queue takes
//! nothing from another. A queue holds at most [`BUS_CAPACITY`] events
//! and silently drops what it cannot accept: monitoring is best-effort.
//!
//! A running session answers events for its own flight with an
//! `Updated` envelope carrying the fresh seat count, ignores events for
//! other flights, and ends when its window elapses. Timers, sockets
//! and task wake-ups stay outside; the machine here is driven with
//! plain events and produces plain envelopes.

use vstd::prelude::*;

use crate::body::Service4MonitorResponseBody;
use crate::envelope::{IdCounter, RPCResponse, ResponseStatus};
use crate::store::{flight_idx, DatabaseService, ReservationStatus};

verus! {

broadcast use vstd::std_specs::vec::group_vec_axioms, vstd::seq::group_seq_axioms;

/// Most events one subscription's queue will hold.
pub const BUS_CAPACITY: usize = 32;

/// The mathematical state of the bus: each subscription's key and its
/// pending events, oldest first.
pub type BusView = Seq<(u64, Seq<(u32, ReservationStatus)>)>;

/// The publish/subscribe topic between mutating handlers and monitor
/// sessions.
pub struct MonitorBus {
    pub queues: Vec<(u64, Vec<(u32, ReservationStatus)>)>,
    pub next_key: u64,
}

impl View for MonitorBus {
    type V = BusView;

    open spec fn view(&self) -> BusView {
        Seq::new(self.queues@.len(), |i: int| (self.queues@[i].0, self.queues@[i].1@))
    }
}

/// Index of the subscription with this key, or -1.
pub open spec fn queue_idx(qs: BusView, key: u64) -> int
    decreases qs,
{
    if qs.len() == 0 {
        -1
    } else if qs.first().0 == key {
        0
    } else {
        let r = queue_idx(qs.drop_first(), key);
        if r < 0 {
            -1
        } else {
            r + 1
        }
    }
}

pub proof fn lemma_queue_idx(qs: BusView, key: u64)
    ensures
        queue_idx(qs, key) == -1 ==> forall|j: int| 0 <= j < qs.len() ==> qs[j].0 != key,
        queue_idx(qs, key) >= 0 ==> 0 <= queue_idx(qs, key) < qs.len() && qs[queue_idx(
            qs,
            key,
        )].0 == key && forall|j: int| 0 <= j < queue_idx(qs, key) ==> qs[j].0 != key,
    decreases qs,
{
    if qs.len() > 0 && qs.first().0 != key {
        lemma_queue_idx(qs.drop_first(), key);
        assert(forall|j: int| 1 <= j < qs.len() ==> #[trigger] qs[j] == qs.drop_first()[j - 1]);
    }
}

/// The bus after one publication: the event appended to every queue
/// below capacity, the full ones left as they are.
pub open spec fn bus_publish(qs: BusView, flight_id: u32, status: ReservationStatus) -> BusView {
    Seq::new(
        qs.len(),
        |i: int|
            (
                qs[i].0,
                if qs[i].1.len() < BUS_CAPACITY {
                    qs[i].1.push((flight_id, status))
                } else {
                    qs[i].1
                },
            ),
    )
}

impl MonitorBus {
    /// One queue per key, every key below the counter.
    pub open spec fn wf(self) -> bool {
        (forall|i: int, j: int| 0 <= i < j < self@.len() ==> self@[i].0 != self@[j].0) && (forall|
            i: int,
        |
            0 <= i < self@.len() ==> self@[i].0 < self.next_key)
    }

    pub fn new() -> (r: MonitorBus)
        ensures
            r@ == Seq::<(u64, Seq<(u32, ReservationStatus)>)>::empty(),
            r.next_key == 0,
            r.wf(),
    {
        let r = MonitorBus { queues: Vec::new(), next_key: 0 };
        proof {
            assert(r@ =~= Seq::<(u64, Seq<(u32, ReservationStatus)>)>::empty());
        }
        r
    }

    /// Whether another subscription can still be keyed.
    pub fn fresh_keys_left(&self) -> (r: bool)
        ensures
            r == (self.next_key < u64::MAX),
    {
        self.next_key < u64::MAX
    }

    /// Opens a subscription under a fresh key with an empty queue.
    pub fn subscribe(&mut self) -> (key: u64)
        requires
            old(self).wf(),
            old(self).next_key < u64::MAX,
        ensures
            final(self).wf(),
            key == old(self).next_key,
            final(self).next_key == old(self).next_key + 1,
            final(self)@ == old(self)@.push((key, Seq::<(u32, ReservationStatus)>::empty())),
    {
        let key: u64 = self.next_key;
        self.next_key = self.next_key + 1;
        self.queues.push((key, Vec::new()));
        proof {
            assert(self@ =~= old(self)@.push((key, Seq::<(u32, ReservationStatus)>::empty())));
        }
        key
    }

    /// Ends a subscription; its pending events go with it. A key that
    /// holds no subscription changes nothing.
    pub fn unsubscribe(&mut self, key: u64)
        requires
            old(self).wf(),
        ensures
            final(self).wf(),
            final(self).next_key == old(self).next_key,
            ({
                let qi = queue_idx(old(self)@, key);
                if qi == -1 {
                    final(self)@ == old(self)@
                } else {
                    final(self)@ == old(self)@.remove(qi)
                }
            }),
    {
        let len: usize = self.queues.len();
        let mut i: usize = 0;
        while i < len
            invariant
                i <= len,
                len == self.queues@.len(),
                self@ == old(self)@,
                self.next_key == old(self).next_key,
                old(self).wf(),
                forall|j: int| 0 <= j < i ==> self@[j].0 != key,
            decreases len - i,
        {
            proof {
                lemma_queue_idx(self@, key);
            }
            if self.queues[i].0 == key {
                proof {
                    assert(self@[i as int].0 == key);
                    assert(queue_idx(self@, key) == i as int);
                }
                let ghost pre = self@;
                self.queues.remove(i);
                proof {
                    assert(self@ =~= pre.remove(i as int));
                    lemma_wf_after_unsubscribe(pre, self@, i as int, old(self).next_key);
                }
                return ;
            }
            i = i + 1;
        }
        proof {
            lemma_queue_idx(self@, key);
        }
    }

    /// Publishes an event to every subscription: appended in order
    /// while the queue has room, silently dropped at capacity.
    pub fn publish(&mut self, flight_id: u32, status: ReservationStatus)
        requires
            old(self).wf(),
        ensures
            final(self).wf(),
            final(self).next_key == old(self).next_key,
            final(self)@ == bus_publish(old(self)@, flight_id, status),
    {
        let ghost target = bus_publish(old(self)@, flight_id, status);
        let len: usize = self.queues.len();
        let mut i: usize = 0;
        while i < len
            invariant
                i <= len,
                len == self.queues@.len(),
                self@.len() == len,
                target == bus_publish(old(self)@, flight_id, status),
                target.len() == len,
                self.next_key == old(self).next_key,
                forall|k: int| 0 <= k < i ==> #[trigger] self@[k] == target[k],
                forall|k: int| i <= k < len ==> #[trigger] self@[k] == old(self)@[k],
            decreases len - i,
        {
            let ghost pre = self@;
            let mut q: (u64, Vec<(u32, ReservationStatus)>) = self.queues.remove(i);
            proof {
                assert((q.0, q.1@) == pre[i as int]);
                assert(pre[i as int] == old(self)@[i as int]);
            }
            if q.1.len() < BUS_CAPACITY {
                q.1.push((flight_id, status));
            }
            self.queues.insert(i, q);
            proof {
                assert(self@ =~= pre.update(i as int, (q.0, q.1@)));
                assert((q.0, q.1@) == target[i as int]);
            }
            i = i + 1;
        }
        proof {
            assert(self@ =~= target);
            lemma_wf_pointwise(old(self)@, self@, old(self).next_key);
        }
    }

    /// Takes the oldest pending event of one subscription.
    pub fn try_recv(&mut self, key: u64) -> (r: Option<(u32, ReservationStatus)>)
        requires
            old(self).wf(),
        ensures
            final(self).wf(),
            final(self).next_key == old(self).next_key,
            ({
                let qi = queue_idx(old(self)@, key);
                if qi == -1 || old(self)@[qi].1.len() == 0 {
                    r is None && final(self)@ == old(self)@
                } else {
                    r == Some(old(self)@[qi].1[0]) && final(self)@ == old(self)@.update(
                        qi,
                        (key, old(self)@[qi].1.drop_first()),
                    )
                }
            }),
    {
        let len: usize = self.queues.len();
        let mut i: usize = 0;
        while i < len
            invariant
                i <= len,
                len == self.queues@.len(),
                self@ == old(self)@,
                self.next_key == old(self).next_key,
                old(self).wf(),
                forall|j: int| 0 <= j < i ==> self@[j].0 != key,
            decreases len - i,
        {
            proof {
                lemma_queue_idx(self@, key);
            }
            if self.queues[i].0 == key {
                proof {
                    assert(self@[i as int].0 == key);
                    assert(queue_idx(self@, key) == i as int);
                }
                let ghost pre = self@;
                let mut q: (u64, Vec<(u32, ReservationStatus)>) = self.queues.remove(i);
                proof {
                    assert((q.0, q.1@) == pre[i as int]);
                }
                if q.1.len() == 0 {
                    self.queues.insert(i, q);
                    proof {
                        assert(self@ =~= pre);
                    }
                    return None;
                }
                let ev: (u32, ReservationStatus) = q.1.remove(0);
                self.queues.insert(i, q);
                proof {
                    assert(self@ =~= pre.update(i as int, (key, pre[i as int].1.drop_first())));
                    lemma_wf_pointwise(pre, self@, old(self).next_key);
                }
                return Some(ev);
            }
            i = i + 1;
        }
        proof {
            lemma_queue_idx(self@, key);
        }
        None
    }
}

/// Key uniqueness survives any change that keeps every queue's key.
proof fn lemma_wf_pointwise(pre: BusView, post: BusView, next_key: u64)
    requires
        (forall|i: int, j: int| 0 <= i < j < pre.len() ==> pre[i].0 != pre[j].0),
        (forall|i: int| 0 <= i < pre.len() ==> pre[i].0 < next_key),
        post.len() == pre.len(),
        forall|i: int| 0 <= i < pre.len() ==> #[trigger] post[i].0 == pre[i].0,
    ensures
        (forall|i: int, j: int| 0 <= i < j < post.len() ==> post[i].0 != post[j].0),
        (forall|i: int| 0 <= i < post.len() ==> post[i].0 < next_key),
{
}

/// Key uniqueness survives removing one subscription.
proof fn lemma_wf_after_unsubscribe(pre: BusView, post: BusView, qi: int, next_key: u64)
    requires
        0 <= qi < pre.len(),
        (forall|i: int, j: int| 0 <= i < j < pre.len() ==> pre[i].0 != pre[j].0),
        (forall|i: int| 0 <= i < pre.len() ==> pre[i].0 < next_key),
        post == pre.remove(qi),
    ensures
        (forall|i: int, j: int| 0 <= i < j < post.len() ==> post[i].0 != post[j].0),
        (forall|i: int| 0 <= i < post.len() ==> post[i].0 < next_key),
{
    assert forall|i: int, j: int| 0 <= i < j < post.len() implies post[i].0 != post[j].0 by {
        let pi: int = if i < qi {
            i
        } else {
            i + 1
        };
        let pj: int = if j < qi {
            j
        } else {
            j + 1
        };
        assert(post[i] == pre[pi]);
        assert(post[j] == pre[pj]);
    }
    assert forall|i: int| 0 <= i < post.len() implies post[i].0 < next_key by {
        let pi: int = if i < qi {
            i
        } else {
            i + 1
        };
        assert(post[i] == pre[pi]);
    }
}

/// One active monitor subscription: which flight it watches and the
/// request it answers to.
pub struct MonitorSession {
    pub flight_id: u32,
    pub request_id: u32,
}

/// What a running session is told.
pub enum MonitorEvent {
    /// A bus event was drained: a flight changed.
    BusEvent(u32, ReservationStatus),
    /// The monitoring window elapsed.
    WindowElapsed,
    /// The bus is gone.
    ChannelClosed,
}

/// What a running session does next.
pub enum MonitorStep {
    /// The event concerned another flight: keep waiting.
    Ignore,
    /// Send this `Updated` envelope, then keep waiting.
    Emit(RPCResponse),
    /// The session is over.
    End,
}

/// Drives one step of a running monitor session.
///
/// An event for another flight is ignored; one for the watched flight
/// reads the fresh seat count and emits an `Updated` envelope echoing
/// the session's request id; the window elapsing or the bus closing
/// ends the session. The watched flight must still exist — handlers
/// never remove flights, so a flight seen at session start stays.
pub fn monitor_step(
    sess: &MonitorSession,
    db: &DatabaseService,
    ev: MonitorEvent,
    response_ids: &mut IdCounter,
) -> (r: MonitorStep)
    requires
        flight_idx(db@.flights, sess.flight_id) >= 0,
    ensures
        ({
            let fi = flight_idx(db@.flights, sess.flight_id);
            match ev {
                MonitorEvent::BusEvent(id, _) => if id != sess.flight_id {
                    r is Ignore
                } else {
                    r is Emit && r->Emit_0@.request_id == sess.request_id && r->Emit_0@.status
                        == ResponseStatus::Updated && r->Emit_0@.body == crate::encode::enc_val(
                        crate::body::monitor_update_val(db@.flights[fi].seat_available),
                    )
                },
                MonitorEvent::WindowElapsed => r is End,
                MonitorEvent::ChannelClosed => r is End,
            }
        }),
{
    match ev {
        MonitorEvent::BusEvent(id, _) => {
            if id != sess.flight_id {
                MonitorStep::Ignore
            } else {
                let info = match db.get_flight_info(sess.flight_id) {
                    Ok(Some(t)) => t,
                    _ => {
                        proof {
                            assert(false);
                        }
                        (0i32, 0u32, 0u32)
                    }
                };
                let mut resp: RPCResponse = RPCResponse::updated(sess.request_id, response_ids);
                let body = Service4MonitorResponseBody { seat_avail: info.2 };
                let node = body.to_json();
                proof {
                    lemma_monitor_update_wf(info.2);
                }
                resp.encode_body(&node);
                MonitorStep::Emit(resp)
            }
        }
        MonitorEvent::WindowElapsed => MonitorStep::End,
        MonitorEvent::ChannelClosed => MonitorStep::End,
    }
}

/// A monitor-notification document is always emittable.
pub proof fn lemma_monitor_update_wf(seat_avail: u32)
    ensures
        crate::encode::enc_wf(crate::body::monitor_update_val(seat_avail)),
{
    let entries = seq![
        (crate::body::key_seat_avail(), crate::json::JsonVal::UInt(seat_avail as u64)),
    ];
    assert(entries.drop_last() =~= Seq::<(Seq<u8>, crate::json::JsonVal)>::empty());
    assert(crate::encode::obj_wf(entries)) by {
        reveal_with_fuel(crate::encode::obj_wf, 3);
        reveal_with_fuel(crate::encode::enc_wf, 2);
    }
}

} // verus!
