//! The broadcast bus: one shared producer, many subscriber endpoints, each
//! with a bounded FIFO queue. Publishing offers the post to every active
//! subscriber; when a queue is full the oldest undelivered post is discarded
//! and the subscriber's lag counter grows, so the loss is visible to that
//! subscriber alone.

use vstd::prelude::*;

use crate::state::{Post, PostView};

verus! {

/// View of one subscriber endpoint: whether it is still connected, the posts
/// queued for it (oldest first), and how many posts were dropped for it since
/// its last delivery.
#[verifier::ext_equal]
pub struct SubView {
    pub active: bool,
    pub queue: Seq<PostView>,
    pub lagged: nat,
}

/// View of the bus: the per-subscriber queue capacity, how many posts were
/// ever published, and every subscriber endpoint created so far.
#[verifier::ext_equal]
pub struct BusView {
    pub capacity: nat,
    pub published: nat,
    pub subs: Seq<SubView>,
}

/// A fresh subscriber endpoint: connected, nothing queued, nothing dropped.
/// In particular it holds no post published before it was created.
pub open spec fn fresh_sub() -> SubView {
    SubView { active: true, queue: Seq::<PostView>::empty(), lagged: 0 }
}

/// What publishing `p` does to one subscriber: nothing when it is gone; an
/// enqueue when there is room; otherwise the oldest queued post makes room and
/// the drop is counted.
pub open spec fn sub_after_publish(s: SubView, p: PostView, capacity: nat) -> SubView {
    if !s.active {
        s
    } else if s.queue.len() < capacity {
        SubView { queue: s.queue.push(p), ..s }
    } else {
        SubView { queue: s.queue.drop_first().push(p), lagged: (s.lagged + 1) as nat, ..s }
    }
}

/// What publishing `p` does to the whole bus: every subscriber is offered the
/// post, independently of all others.
pub open spec fn bus_after_publish(b: BusView, p: PostView) -> BusView {
    BusView {
        published: b.published + 1,
        subs: Seq::new(b.subs.len(), |i: int| sub_after_publish(b.subs[i], p, b.capacity)),
        ..b
    }
}

/// How many subscriber endpoints are still connected.
pub open spec fn active_count(subs: Seq<SubView>) -> nat
    decreases subs.len(),
{
    if subs.len() == 0 {
        0
    } else {
        active_count(subs.drop_last()) + (if subs.last().active {
            1nat
        } else {
            0nat
        })
    }
}

/// One delivery event on a subscriber endpoint: either the next post, or a
/// marker telling the subscriber how many posts it missed.
#[derive(Debug)]
pub enum Delivery {
    Message(Post),
    Lagged(u64),
}

/// Publishing with no subscriber endpoint connected is a benign failure: the
/// post is simply not delivered anywhere.
#[derive(Debug, PartialEq, Eq, Structural)]
pub enum PublishError {
    NoSubscribers,
}

struct Subscriber {
    active: bool,
    queue: Vec<Post>,
    lagged: u64,
}

impl View for Subscriber {
    type V = SubView;

    closed spec fn view(&self) -> SubView {
        SubView { active: self.active, queue: self.queue.deep_view(), lagged: self.lagged as nat }
    }
}

/// The fan-out primitive: a list of per-subscriber bounded queues.
pub struct Bus {
    capacity: usize,
    published: u64,
    subs: Vec<Subscriber>,
}

impl View for Bus {
    type V = BusView;

    closed spec fn view(&self) -> BusView {
        BusView {
            capacity: self.capacity as nat,
            published: self.published as nat,
            subs: Seq::new(self.subs@.len(), |i: int| self.subs@[i]@),
        }
    }
}

impl Bus {
    /// Queues hold at most `capacity` posts, and no subscriber can have missed
    /// more posts than were ever published.
    pub open spec fn wf(self) -> bool {
        &&& self@.capacity >= 1
        &&& forall|i: int|
            0 <= i < self@.subs.len() ==> (#[trigger] self@.subs[i]).queue.len() <= self@.capacity
        &&& forall|i: int|
            0 <= i < self@.subs.len() ==> (#[trigger] self@.subs[i]).lagged <= self@.published
    }

    /// A bus with the given per-subscriber capacity and no subscribers yet.
    pub fn new(capacity: usize) -> (r: Bus)
        requires
            capacity >= 1,
        ensures
            r.wf(),
            r@.capacity == capacity as nat,
            r@.published == 0,
            r@.subs == Seq::<SubView>::empty(),
    {
        let r = Bus { capacity, published: 0, subs: Vec::new() };
        proof {
            assert(r@.subs =~= Seq::<SubView>::empty());
        }
        r
    }

    /// Create a new subscriber endpoint. Only posts published after this call
    /// are eligible for delivery to it: its queue starts empty, so there is no
    /// historical replay.
    pub fn subscribe(&mut self) -> (id: usize)
        requires
            old(self).wf(),
        ensures
            final(self).wf(),
            id == old(self)@.subs.len(),
            final(self)@.subs == old(self)@.subs.push(fresh_sub()),
            final(self)@.capacity == old(self)@.capacity,
            final(self)@.published == old(self)@.published,
    {
        let id = self.subs.len();
        self.subs.push(Subscriber { active: true, queue: Vec::new(), lagged: 0 });
        proof {
            assert(self@.subs =~~= old(self)@.subs.push(fresh_sub()));
        }
        id
    }

    /// Drop a subscriber endpoint: it takes no further deliveries.
    pub fn unsubscribe(&mut self, id: usize)
        requires
            old(self).wf(),
            id < old(self)@.subs.len(),
        ensures
            final(self).wf(),
            final(self)@.subs == old(self)@.subs.update(
                id as int,
                SubView { active: false, queue: Seq::<PostView>::empty(), lagged: 0 },
            ),
            final(self)@.capacity == old(self)@.capacity,
            final(self)@.published == old(self)@.published,
    {
        let sub = &mut self.subs[id];
        sub.active = false;
        sub.queue = Vec::new();
        sub.lagged = 0;
        proof {
            assert(self@.subs =~~= old(self)@.subs.update(
                id as int,
                SubView { active: false, queue: Seq::<PostView>::empty(), lagged: 0 },
            ));
        }
    }

    /// Offer `post` to every connected subscriber, in publication order.
    /// With no subscriber connected nothing changes and the caller is told so;
    /// otherwise every subscriber's queue takes the post (dropping its oldest
    /// entry when full) and the number of subscribers reached comes back.
    pub fn publish(&mut self, post: &Post) -> (r: Result<usize, PublishError>)
        requires
            old(self).wf(),
            old(self)@.published < u64::MAX,
        ensures
            final(self).wf(),
            active_count(old(self)@.subs) == 0 ==> r == Err::<usize, PublishError>(
                PublishError::NoSubscribers,
            ) && final(self)@ == old(self)@,
            active_count(old(self)@.subs) > 0 ==> r == Ok::<usize, PublishError>(
                active_count(old(self)@.subs) as usize,
            ) && final(self)@ == bus_after_publish(old(self)@, post@),
    {
        let n = self.count_active();
        if n == 0 {
            return Err(PublishError::NoSubscribers);
        }
        self.published = self.published + 1;
        let ghost mid = self@;
        let mut i: usize = 0;
        while i < self.subs.len()
            invariant
                old(self).wf(),
                old(self)@.published < u64::MAX,
                mid.subs == old(self)@.subs,
                mid.capacity == old(self)@.capacity,
                mid.published == old(self)@.published + 1,
                self@.capacity == mid.capacity,
                self@.published == mid.published,
                self@.subs.len() == mid.subs.len(),
                self.wf(),
                i <= self@.subs.len(),
                forall|k: int|
                    0 <= k < i ==> self@.subs[k] == sub_after_publish(
                        #[trigger] mid.subs[k],
                        post@,
                        mid.capacity,
                    ),
                forall|k: int| i <= k < self@.subs.len() ==> self@.subs[k] == #[trigger] mid.subs[k],
            decreases self@.subs.len() - i,
        {
            let ghost before = self@.subs[i as int];
            proof {
                assert(before == mid.subs[i as int]);
                assert(before == old(self)@.subs[i as int]);
                assert(before.lagged <= old(self)@.published);
                assert(before.queue.len() <= mid.capacity);
            }
            let ghost subs_pre = self.subs@;
            let cap = self.capacity;
            let sub = &mut self.subs[i];
            if sub.active {
                if sub.queue.len() >= cap {
                    let ghost qb = sub.queue.deep_view();
                    sub.queue.remove(0);
                    proof {
                        assert(sub.queue.deep_view() =~= qb.drop_first());
                    }
                    let ghost qm = sub.queue.deep_view();
                    sub.queue.push(post.clone());
                    sub.lagged = sub.lagged + 1;
                    proof {
                        assert(sub.queue.deep_view() =~= qm.push(post@));
                        assert(sub@ =~~= sub_after_publish(before, post@, mid.capacity));
                    }
                } else {
                    let ghost qb = sub.queue.deep_view();
                    sub.queue.push(post.clone());
                    proof {
                        assert(sub.queue.deep_view() =~= qb.push(post@));
                        assert(sub@ =~~= sub_after_publish(before, post@, mid.capacity));
                    }
                }
            } else {
                proof {
                    assert(sub@ =~~= sub_after_publish(before, post@, mid.capacity));
                }
            }
            proof {
                assert(self.subs@ =~= subs_pre.update(i as int, self.subs@[i as int]));
                assert(self.subs@[i as int]@ == sub_after_publish(before, post@, mid.capacity));
                assert(self@.subs[i as int] == sub_after_publish(
                    mid.subs[i as int],
                    post@,
                    mid.capacity,
                ));
                assert forall|k: int| 0 <= k < self@.subs.len() implies ((#[trigger] self@.subs[k]).queue.len()
                    <= self@.capacity && self@.subs[k].lagged <= self@.published) by {
                    assert(mid.subs[k] == old(self)@.subs[k]);
                    assert(old(self)@.subs[k].queue.len() <= old(self)@.capacity);
                    assert(old(self)@.subs[k].lagged <= old(self)@.published);
                    if k < i as int {
                        assert(self@.subs[k] == sub_after_publish(mid.subs[k], post@, mid.capacity));
                    } else if k > i as int {
                        assert(self@.subs[k] == mid.subs[k]);
                    }
                }
            }
            i = i + 1;
        }
        proof {
            assert(self@.subs =~~= bus_after_publish(old(self)@, post@).subs);
            assert(self@ =~~= bus_after_publish(old(self)@, post@));
        }
        Ok(n)
    }

    /// The next delivery event for subscriber `id`, or `None` when nothing is
    /// pending. A loss is reported before any further post: when posts were
    /// dropped since the last delivery, the subscriber first sees `Lagged(k)`
    /// with the exact count, then resumes with the next live post.
    pub fn receive(&mut self, id: usize) -> (r: Option<Delivery>)
        requires
            old(self).wf(),
            id < old(self)@.subs.len(),
        ensures
            final(self).wf(),
            final(self)@.capacity == old(self)@.capacity,
            final(self)@.published == old(self)@.published,
            ({
                let s = old(self)@.subs[id as int];
                if s.lagged > 0 {
                    &&& r matches Some(d) && d matches Delivery::Lagged(n) && n as nat == s.lagged
                    &&& final(self)@.subs == old(self)@.subs.update(
                        id as int,
                        SubView { lagged: 0, ..s },
                    )
                } else if s.queue.len() > 0 {
                    &&& r matches Some(d) && d matches Delivery::Message(p) && p@ == s.queue[0]
                    &&& final(self)@.subs == old(self)@.subs.update(
                        id as int,
                        SubView { queue: s.queue.drop_first(), ..s },
                    )
                } else {
                    r is None && final(self)@ == old(self)@
                }
            }),
    {
        let ghost s = self@.subs[id as int];
        let sub = &mut self.subs[id];
        if sub.lagged > 0 {
            let n = sub.lagged;
            sub.lagged = 0;
            proof {
                assert(self@.subs =~~= old(self)@.subs.update(id as int, SubView { lagged: 0, ..s }));
            }
            Some(Delivery::Lagged(n))
        } else if sub.queue.len() > 0 {
            let ghost qb = sub.queue.deep_view();
            let p = sub.queue.remove(0);
            proof {
                assert(sub.queue.deep_view() =~= qb.drop_first());
                assert(self@.subs =~~= old(self)@.subs.update(
                    id as int,
                    SubView { queue: s.queue.drop_first(), ..s },
                ));
            }
            Some(Delivery::Message(p))
        } else {
            proof {
                assert(self.subs@ =~= old(self).subs@);
                assert(self@ =~~= old(self)@);
            }
            None
        }
    }

    /// How many posts were ever published on this bus.
    pub fn published(&self) -> (r: u64)
        ensures
            r as nat == self@.published,
    {
        self.published
    }

    /// How many subscriber endpoints are currently connected.
    pub fn count_active(&self) -> (r: usize)
        ensures
            r as nat == active_count(self@.subs),
    {
        let mut i: usize = 0;
        let mut n: usize = 0;
        while i < self.subs.len()
            invariant
                i <= self.subs.len(),
                n <= i,
                n as nat == active_count(self@.subs.subrange(0, i as int)),
            decreases self.subs.len() - i,
        {
            proof {
                let pre = self@.subs.subrange(0, i as int);
                let post = self@.subs.subrange(0, i as int + 1);
                assert(post.drop_last() =~= pre);
                assert(post.last() == self@.subs[i as int]);
            }
            if self.subs[i].active {
                n = n + 1;
            }
            i = i + 1;
        }
        proof {
            assert(self@.subs.subrange(0, self@.subs.len() as int) =~= self@.subs);
        }
        n
    }
}


// ------------------------------------------------------------------
// Laws of the bus
// ------------------------------------------------------------------
/// The bus after publishing each element of `ps`, in order.
pub open spec fn bus_after_publish_all(b: BusView, ps: Seq<PostView>) -> BusView
    decreases ps.len(),
{
    if ps.len() == 0 {
        b
    } else {
        bus_after_publish_all(bus_after_publish(b, ps[0]), ps.drop_first())
    }
}

/// Publish-to-subscriber: a subscriber that joins before a publish receives
/// exactly that post. After subscribing to `b` and then publishing `p`, the
/// new subscriber's queue holds `p` alone and nothing was dropped for it, so
/// its next delivery is `p` itself.
pub proof fn lemma_publish_after_subscribe(b: BusView, p: PostView)
    requires
        b.capacity >= 1,
    ensures
        ({
            let b2 = bus_after_publish(BusView { subs: b.subs.push(fresh_sub()), ..b }, p);
            &&& b2.subs[b.subs.len() as int].queue == seq![p]
            &&& b2.subs[b.subs.len() as int].lagged == 0
            &&& b2.subs[b.subs.len() as int].active
        }),
{
    let b1 = BusView { subs: b.subs.push(fresh_sub()), ..b };
    let b2 = bus_after_publish(b1, p);
    assert(b1.subs[b.subs.len() as int] == fresh_sub());
    assert(b2.subs[b.subs.len() as int] == sub_after_publish(fresh_sub(), p, b.capacity));
    assert(Seq::<PostView>::empty().push(p) =~= seq![p]);
}

/// No historical replay: however many posts were already published on `b`, a
/// subscriber created afterwards starts with an empty queue — none of the
/// earlier posts can ever be delivered to it.
pub proof fn lemma_no_historical_replay(b0: BusView, ps: Seq<PostView>)
    ensures
        ({
            let b = bus_after_publish_all(b0, ps);
            BusView { subs: b.subs.push(fresh_sub()), ..b }.subs.last().queue
                == Seq::<PostView>::empty()
        }),
{
}

/// Fan-out and order preservation: publishing `ps` onto `b` hands every
/// element of `ps`, in publication order, to each subscriber that is active
/// and has room for all of them. Applied to two subscribers at once, both see
/// every post published during their overlapping lifetime.
pub proof fn lemma_fan_out(b: BusView, ps: Seq<PostView>, i: int)
    requires
        0 <= i < b.subs.len(),
        b.subs[i].active,
        b.subs[i].queue.len() + ps.len() <= b.capacity,
    ensures
        bus_after_publish_all(b, ps).subs.len() == b.subs.len(),
        bus_after_publish_all(b, ps).subs[i].queue == b.subs[i].queue + ps,
        bus_after_publish_all(b, ps).subs[i].lagged == b.subs[i].lagged,
        bus_after_publish_all(b, ps).subs[i].active,
    decreases ps.len(),
{
    if ps.len() == 0 {
        assert(b.subs[i].queue + ps =~= b.subs[i].queue);
    } else {
        let b1 = bus_after_publish(b, ps[0]);
        assert(b1.subs[i] == sub_after_publish(b.subs[i], ps[0], b.capacity));
        lemma_fan_out(b1, ps.drop_first(), i);
        assert(b.subs[i].queue.push(ps[0]) + ps.drop_first() =~= b.subs[i].queue + ps);
    }
}

/// A lagging subscriber is isolated: what a publish does to one subscriber
/// depends on that subscriber's own state and the post alone. A neighbour
/// that overflows — or does anything else — cannot change what anyone else
/// receives.
pub proof fn lemma_subscriber_isolated(b1: BusView, b2: BusView, p: PostView, i: int, j: int)
    requires
        b1.capacity == b2.capacity,
        0 <= i < b1.subs.len(),
        0 <= j < b2.subs.len(),
        b1.subs[i] == b2.subs[j],
    ensures
        bus_after_publish(b1, p).subs[i] == bus_after_publish(b2, p).subs[j],
{
}

/// Delivery or visible loss: a post published to an active subscriber either
/// lands at the end of its queue with nothing dropped, or — with a full
/// queue — evicts exactly the oldest entry and adds one to that subscriber's
/// loss count, which the next delivery reports.
pub proof fn lemma_delivered_or_counted(b: BusView, p: PostView, i: int)
    requires
        0 <= i < b.subs.len(),
        b.subs[i].active,
    ensures
        ({
            let s0 = b.subs[i];
            let s1 = bus_after_publish(b, p).subs[i];
            &&& s1.queue.len() >= 1 && s1.queue.last() == p
            &&& s0.queue.len() < b.capacity ==> s1.queue == s0.queue.push(p) && s1.lagged
                == s0.lagged
            &&& s0.queue.len() >= b.capacity ==> s1.queue == s0.queue.drop_first().push(p)
                && s1.lagged == s0.lagged + 1
        }),
{
}

} // verus!
