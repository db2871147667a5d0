//! Broadcast fabric: a memoising multi-subscriber channel for runs that
//! replays its whole buffer to every new subscriber, and a timer
//! channel that suppresses duplicate consecutive clock values.

use vstd::prelude::*;

verus! {

use crate::contest::Run;
use crate::contest::RunV;
use crate::contest::TimerData;
use crate::contest::runs_view;

/// One subscription to the runs channel: messages not yet taken, the
/// messages already taken, and where in the global history the
/// subscription started.
pub struct RunSubscriber {
    pub pending: Vec<Run>,
    pub received: Ghost<Seq<RunV>>,
    pub offset: Ghost<int>,
}

/// Memoising runs broadcast: every message ever sent is kept in a
/// bounded ring buffer and replayed to new subscribers before they go
/// live, so that every subscriber sees the same total order.
pub struct RunsBroadcast {
    pub capacity: usize,
    pub memo: Vec<Run>,
    pub subs: Vec<RunSubscriber>,
    pub history: Ghost<Seq<RunV>>,
}

impl RunsBroadcast {
    /// The full send order, oldest first.
    pub open spec fn hist(&self) -> Seq<RunV> {
        self.history@
    }

    /// What subscriber `i` has taken so far.
    pub open spec fn observed(&self, i: int) -> Seq<RunV> {
        self.subs@[i].received@
    }

    /// The channel's discipline: the memo is the most recent suffix of
    /// the history, and every subscriber's taken-plus-pending stream is
    /// exactly the history from its starting offset.
    pub open spec fn wf(&self) -> bool {
        &&& self.capacity >= 1
        &&& self.memo@.len() <= self.capacity
        &&& self.memo@.len() <= self.hist().len()
        &&& runs_view(self.memo@) == self.hist().subrange(
            self.hist().len() - self.memo@.len(),
            self.hist().len() as int,
        )
        &&& forall|i: int|
            0 <= i < self.subs@.len() ==> {
                let s = #[trigger] self.subs@[i];
                &&& 0 <= s.offset@ <= self.hist().len()
                &&& s.received@ + runs_view(s.pending@) == self.hist().subrange(
                    s.offset@,
                    self.hist().len() as int,
                )
            }
    }

    /// A fresh channel with the given memo bound.
    pub fn new(capacity: usize) -> (b: RunsBroadcast)
        requires
            capacity >= 1,
        ensures
            b.wf(),
            b.hist() =~= Seq::<RunV>::empty(),
            b.subs@.len() == 0,
    {
        let b = RunsBroadcast {
            capacity,
            memo: Vec::new(),
            subs: Vec::new(),
            history: Ghost(Seq::empty()),
        };
        proof {
            assert(runs_view(b.memo@) =~= b.hist().subrange(0, 0));
        }
        b
    }

    /// How many subscriptions are live.
    pub fn receiver_count(&self) -> (n: usize)
        ensures
            n == self.subs@.len(),
    {
        self.subs.len()
    }

    /// Publish one run: append it to the memo (evicting the oldest
    /// entry if the buffer is full) and hand it to every subscriber.
    pub fn send_memo(&mut self, run: &Run)
        requires
            old(self).wf(),
        ensures
            final(self).wf(),
            final(self).hist() == old(self).hist().push(run@),
            final(self).subs@.len() == old(self).subs@.len(),
            final(self).capacity == old(self).capacity,
            forall|i: int|
                0 <= i < old(self).subs@.len() ==> final(self).observed(i) == old(self).observed(
                    i,
                ) && final(self).subs@[i].offset@ == old(self).subs@[i].offset@,
    {
        let ghost h0 = self.hist();
        let ghost m0 = runs_view(self.memo@);
        if self.memo.len() == self.capacity {
            self.memo.remove(0);
        }
        let ghost m1 = self.memo@;
        self.memo.push(run.duplicate());
        proof {
            self.history = Ghost(h0.push(run@));
        }
        let ghost mid = *self;
        proof {
            let h1 = mid.hist();
            let nl = mid.memo@.len() as int;
            assert forall|x: int|
                0 <= x < nl implies runs_view(mid.memo@)[x] == h1.subrange(h1.len() - nl, h1.len() as int)[x] by {
                if x < nl - 1 {
                    assert(mid.memo@[x] == m1[x]);
                    if m0.len() == mid.capacity {
                        assert(runs_view(m1)[x] == m0[x + 1]);
                        assert(m0[x + 1] == h0.subrange(h0.len() - m0.len(), h0.len() as int)[x + 1]);
                    } else {
                        assert(runs_view(m1)[x] == m0[x]);
                        assert(m0[x] == h0.subrange(h0.len() - m0.len(), h0.len() as int)[x]);
                    }
                } else {
                    assert(mid.memo@[x]@ == run@);
                }
            }
            assert(runs_view(mid.memo@) =~= h1.subrange(h1.len() - nl, h1.len() as int));
        }
        let n = self.subs.len();
        let mut i: usize = 0;
        while i < n
            invariant
                n == self.subs@.len(),
                i <= n,
                self.capacity == mid.capacity,
                self.memo == mid.memo,
                self.history == mid.history,
                forall|k: int|
                    0 <= k < i ==> runs_view((#[trigger] self.subs@[k]).pending@) == runs_view(
                        mid.subs@[k].pending@,
                    ).push(run@) && self.subs@[k].received@ == mid.subs@[k].received@
                        && self.subs@[k].offset@ == mid.subs@[k].offset@,
                forall|k: int| i <= k < n ==> #[trigger] self.subs@[k] == mid.subs@[k],
            decreases n - i,
        {
            proof {
                assert(self.subs@[i as int] == mid.subs@[i as int]);
            }
            let s = &mut self.subs[i];
            let d = run.duplicate();
            s.pending.push(d);
            proof {
                assert(runs_view(s.pending@) =~= runs_view(mid.subs@[i as int].pending@).push(
                    run@,
                ));
            }
            i = i + 1;
        }
        proof {
            assert(runs_view(self.memo@) == runs_view(mid.memo@));
            assert(runs_view(self.memo@) =~= self.hist().subrange(
                self.hist().len() - self.memo@.len(),
                self.hist().len() as int,
            ));
            assert forall|k: int|
                0 <= k < self.subs@.len() implies {
                let sv = #[trigger] self.subs@[k];
                0 <= sv.offset@ <= self.hist().len() && sv.received@ + runs_view(sv.pending@)
                    == self.hist().subrange(sv.offset@, self.hist().len() as int)
            } by {
                let ov = old(self).subs@[k];
                assert(self.subs@[k].received@ == ov.received@);
                assert(runs_view(self.subs@[k].pending@) =~= runs_view(ov.pending@).push(run@));
                assert(ov.received@ + runs_view(ov.pending@) == h0.subrange(
                    ov.offset@,
                    h0.len() as int,
                ));
                assert(ov.received@ + runs_view(ov.pending@).push(run@) =~= (ov.received@
                    + runs_view(ov.pending@)).push(run@));
                assert(h0.subrange(ov.offset@, h0.len() as int).push(run@) =~= self.hist(
                ).subrange(ov.offset@, self.hist().len() as int));
                assert(self.subs@[k].received@ + runs_view(self.subs@[k].pending@)
                    =~= self.hist().subrange(self.subs@[k].offset@, self.hist().len() as int));
            }
        }
    }

    /// Open a new subscription: it first replays the whole memo, then
    /// receives everything published afterwards, with no gap and no
    /// duplicate at the boundary.
    pub fn subscribe(&mut self) -> (id: usize)
        requires
            old(self).wf(),
        ensures
            final(self).wf(),
            id == old(self).subs@.len(),
            final(self).subs@.len() == old(self).subs@.len() + 1,
            final(self).hist() == old(self).hist(),
            final(self).observed(id as int) =~= Seq::<RunV>::empty(),
            final(self).subs@[id as int].offset@ == old(self).hist().len() - old(
                self,
            ).memo@.len(),
            forall|i: int|
                0 <= i < old(self).subs@.len() ==> final(self).subs@[i] == old(self).subs@[i],
            final(self).capacity == old(self).capacity,
    {
        let id = self.subs.len();
        let mut pending: Vec<Run> = Vec::new();
        let m = self.memo.len();
        let mut i: usize = 0;
        while i < m
            invariant
                m == self.memo@.len(),
                i <= m,
                pending@.len() == i,
                forall|k: int| 0 <= k < i ==> (#[trigger] pending@[k])@ == self.memo@[k]@,
                *self == *old(self),
            decreases m - i,
        {
            pending.push(self.memo[i].duplicate());
            i = i + 1;
        }
        let sub = RunSubscriber {
            pending,
            received: Ghost(Seq::empty()),
            offset: Ghost(self.hist().len() - self.memo@.len()),
        };
        proof {
            assert(sub.received@ + runs_view(sub.pending@) =~= self.hist().subrange(
                self.hist().len() - self.memo@.len(),
                self.hist().len() as int,
            ));
        }
        self.subs.push(sub);
        id
    }

    /// Take the next message of subscription `id`, if one is waiting.
    pub fn recv(&mut self, id: usize) -> (r: Option<Run>)
        requires
            old(self).wf(),
            id < old(self).subs@.len(),
        ensures
            final(self).wf(),
            final(self).hist() == old(self).hist(),
            final(self).subs@.len() == old(self).subs@.len(),
            final(self).capacity == old(self).capacity,
            forall|i: int|
                0 <= i < old(self).subs@.len() && i != id ==> final(self).subs@[i] == old(
                    self,
                ).subs@[i],
            match r {
                Some(run) => old(self).subs@[id as int].pending@.len() > 0 && run@ == old(
                    self,
                ).subs@[id as int].pending@[0]@ && final(self).observed(id as int) == old(
                    self,
                ).observed(id as int).push(run@),
                None => old(self).subs@[id as int].pending@.len() == 0 && final(self).observed(
                    id as int,
                ) == old(self).observed(id as int),
            },
            final(self).subs@[id as int].offset@ == old(self).subs@[id as int].offset@,
    {
        if self.subs[id].pending.len() == 0 {
            return None;
        }
        let s = &mut self.subs[id];
        let run = s.pending.remove(0);
        proof {
            s.received = Ghost(s.received@.push(run@));
            assert(s.received@ + runs_view(s.pending@) =~= old(self).subs@[id as int].received@
                + runs_view(old(self).subs@[id as int].pending@));
        }
        Some(run)
    }
}

/// Broadcast total order: any subscriber's observed messages are a
/// contiguous slice of the one global send order, and two subscribers
/// that joined before any eviction have each observed a prefix of the
/// same sequence, so the shorter observation is a prefix of the longer.
pub proof fn lemma_broadcast_total_order(b: &RunsBroadcast, i: int, j: int)
    requires
        b.wf(),
        0 <= i < b.subs@.len(),
        0 <= j < b.subs@.len(),
    ensures
        b.observed(i) == b.hist().subrange(
            b.subs@[i].offset@,
            b.subs@[i].offset@ + b.observed(i).len(),
        ),
        b.subs@[i].offset@ == 0 && b.subs@[j].offset@ == 0 ==> (b.observed(i).len() <= b.observed(
            j,
        ).len() ==> b.observed(i) == b.observed(j).subrange(0, b.observed(i).len() as int)),
{
    let s = b.subs@[i];
    let tail = b.hist().subrange(s.offset@, b.hist().len() as int);
    assert(s.received@ + runs_view(s.pending@) == tail);
    assert(s.received@ =~= tail.subrange(0, s.received@.len() as int));
    assert(tail.subrange(0, s.received@.len() as int) =~= b.hist().subrange(
        s.offset@,
        s.offset@ + s.received@.len(),
    ));
    let t = b.subs@[j];
    let tailj = b.hist().subrange(t.offset@, b.hist().len() as int);
    assert(t.received@ + runs_view(t.pending@) == tailj);
    assert(t.received@ =~= tailj.subrange(0, t.received@.len() as int));
    assert(tailj.subrange(0, t.received@.len() as int) =~= b.hist().subrange(
        t.offset@,
        t.offset@ + t.received@.len(),
    ));
    if s.offset@ == 0 && t.offset@ == 0 && s.received@.len() <= t.received@.len() {
        assert(s.received@ =~= t.received@.subrange(0, s.received@.len() as int));
    }
}

/// One subscription to the timer channel.
pub struct TimerSubscriber {
    pub pending: Vec<TimerData>,
    pub received: Ghost<Seq<TimerData>>,
}

/// No two consecutive values of the sequence are equal.
pub open spec fn adjacent_distinct(s: Seq<TimerData>) -> bool {
    forall|i: int| 0 <= i < s.len() - 1 ==> #[trigger] s[i] != s[i + 1]
}

/// Timer broadcast with duplicate suppression: a value equal to the
/// last one published is dropped, so subscribers only ever see
/// changes.
pub struct TimerBroadcast {
    pub last: Option<TimerData>,
    pub subs: Vec<TimerSubscriber>,
}

impl TimerBroadcast {
    /// What subscriber `i` has taken so far.
    pub open spec fn observed(&self, i: int) -> Seq<TimerData> {
        self.subs@[i].received@
    }

    /// The stream subscriber `i` will have seen once it drains its
    /// queue.
    pub open spec fn stream(&self, i: int) -> Seq<TimerData> {
        self.subs@[i].received@ + self.subs@[i].pending@
    }

    /// The channel's discipline: every subscriber's stream changes at
    /// every step, and a nonempty stream ends in the value last
    /// published.
    pub open spec fn wf(&self) -> bool {
        forall|i: int|
            0 <= i < self.subs@.len() ==> {
                &&& adjacent_distinct(#[trigger] self.stream(i))
                &&& self.stream(i).len() > 0 ==> self.last == Some(self.stream(i).last())
            }
    }

    pub fn new() -> (b: TimerBroadcast)
        ensures
            b.wf(),
            b.subs@.len() == 0,
            b.last is None,
    {
        TimerBroadcast { last: None, subs: Vec::new() }
    }

    /// How many subscriptions are live.
    pub fn receiver_count(&self) -> (n: usize)
        ensures
            n == self.subs@.len(),
    {
        self.subs.len()
    }

    /// Open a new subscription; it sees changes from now on.
    pub fn subscribe(&mut self) -> (id: usize)
        requires
            old(self).wf(),
        ensures
            final(self).wf(),
            id == old(self).subs@.len(),
            final(self).subs@.len() == old(self).subs@.len() + 1,
            final(self).last == old(self).last,
            final(self).observed(id as int) =~= Seq::<TimerData>::empty(),
            forall|i: int|
                0 <= i < old(self).subs@.len() ==> final(self).subs@[i] == old(self).subs@[i],
    {
        let id = self.subs.len();
        self.subs.push(TimerSubscriber { pending: Vec::new(), received: Ghost(Seq::empty()) });
        proof {
            assert forall|i: int| 0 <= i < self.subs@.len() implies adjacent_distinct(
                #[trigger] self.stream(i),
            ) && (self.stream(i).len() > 0 ==> self.last == Some(self.stream(i).last())) by {
                if i < self.subs@.len() - 1 {
                    assert(self.subs@[i] == old(self).subs@[i]);
                    assert(self.stream(i) == old(self).stream(i));
                } else {
                    assert(self.stream(i) =~= Seq::<TimerData>::empty());
                }
            }
        }
        id
    }

    /// Publish a clock value. A value equal to the last published one
    /// is suppressed; otherwise every subscriber receives it.
    pub fn send(&mut self, t: TimerData)
        requires
            old(self).wf(),
        ensures
            final(self).wf(),
            final(self).subs@.len() == old(self).subs@.len(),
            final(self).last == Some(t),
            old(self).last == Some(t) ==> *final(self) == *old(self),
            old(self).last != Some(t) ==> forall|i: int|
                0 <= i < old(self).subs@.len() ==> #[trigger] final(self).stream(i) == old(
                    self,
                ).stream(i).push(t),
            forall|i: int|
                0 <= i < old(self).subs@.len() ==> final(self).observed(i) == old(self).observed(
                    i,
                ),
    {
        match &self.last {
            Some(prev) if prev.current_time == t.current_time && prev.score_freeze_time
                == t.score_freeze_time => {
                proof {
                    assert(old(self).last == Some(t));
                }
            },
            _ => {
                let ghost mid = *self;
                let n = self.subs.len();
                let mut i: usize = 0;
                while i < n
                    invariant
                        n == self.subs@.len(),
                        i <= n,
                        self.last == mid.last,
                        mid == *old(self),
                        forall|k: int|
                            0 <= k < i ==> (#[trigger] self.subs@[k]).pending@
                                == mid.subs@[k].pending@.push(t) && self.subs@[k].received@
                                == mid.subs@[k].received@,
                        forall|k: int| i <= k < n ==> #[trigger] self.subs@[k] == mid.subs@[k],
                    decreases n - i,
                {
                    proof {
                        assert(self.subs@[i as int] == mid.subs@[i as int]);
                    }
                    let s = &mut self.subs[i];
                    s.pending.push(t);
                    proof {
                        assert(s.pending@ =~= mid.subs@[i as int].pending@.push(t));
                    }
                    i = i + 1;
                }
                self.last = Some(t);
                proof {
                    assert(old(self).last != Some(t));
                    assert forall|k: int|
                        0 <= k < self.subs@.len() implies #[trigger] self.stream(k) == old(
                        self,
                    ).stream(k).push(t) by {
                        assert(self.stream(k) =~= old(self).stream(k).push(t));
                    }
                    assert forall|k: int| 0 <= k < self.subs@.len() implies adjacent_distinct(
                        #[trigger] self.stream(k),
                    ) && (self.stream(k).len() > 0 ==> self.last == Some(self.stream(k).last())) by {
                        let s0 = old(self).stream(k);
                        assert(adjacent_distinct(s0));
                        assert(self.stream(k) == s0.push(t));
                        assert forall|x: int|
                            0 <= x < self.stream(k).len() - 1 implies #[trigger] self.stream(
                            k,
                        )[x] != self.stream(k)[x + 1] by {
                            if x < s0.len() - 1 {
                                assert(self.stream(k)[x] == s0[x]);
                                assert(self.stream(k)[x + 1] == s0[x + 1]);
                            } else {
                                assert(self.stream(k)[x] == s0.last());
                                assert(self.stream(k)[x + 1] == t);
                                assert(old(self).last == Some(s0.last()));
                            }
                        }
                    }
                }
            },
        }
    }

    /// Take the next value of subscription `id`, if one is waiting.
    pub fn recv(&mut self, id: usize) -> (r: Option<TimerData>)
        requires
            old(self).wf(),
            id < old(self).subs@.len(),
        ensures
            final(self).wf(),
            final(self).subs@.len() == old(self).subs@.len(),
            final(self).last == old(self).last,
            forall|i: int|
                0 <= i < old(self).subs@.len() && i != id ==> final(self).subs@[i] == old(
                    self,
                ).subs@[i],
            match r {
                Some(t) => old(self).subs@[id as int].pending@.len() > 0 && t == old(
                    self,
                ).subs@[id as int].pending@[0] && final(self).observed(id as int) == old(
                    self,
                ).observed(id as int).push(t),
                None => old(self).subs@[id as int].pending@.len() == 0 && final(self).observed(
                    id as int,
                ) == old(self).observed(id as int),
            },
            // Nothing is dropped or reordered: the stream a subscriber
            // will have seen once drained is exactly what it was.
            forall|i: int|
                0 <= i < old(self).subs@.len() ==> final(self).stream(i) == old(self).stream(i),
    {
        if self.subs[id].pending.len() == 0 {
            return None;
        }
        let s = &mut self.subs[id];
        let t = s.pending.remove(0);
        proof {
            s.received = Ghost(s.received@.push(t));
            assert(s.received@ + s.pending@ =~= old(self).subs@[id as int].received@ + old(
                self,
            ).subs@[id as int].pending@);
        }
        proof {
            assert forall|i: int| 0 <= i < self.subs@.len() implies adjacent_distinct(
                #[trigger] self.stream(i),
            ) && (self.stream(i).len() > 0 ==> self.last == Some(self.stream(i).last())) by {
                if i == id {
                    assert(self.subs@[i].received@ + self.subs@[i].pending@ == old(
                        self,
                    ).subs@[i].received@ + old(self).subs@[i].pending@);
                } else {
                    assert(self.subs@[i] == old(self).subs@[i]);
                }
                assert(self.stream(i) == old(self).stream(i));
            }
        }
        Some(t)
    }
}

/// Timer suppression: the values a subscriber takes from the channel
/// never repeat back to back; a new value arrives exactly when it
/// differs from the one before it.
pub proof fn lemma_timer_suppression(b: &TimerBroadcast, i: int)
    requires
        b.wf(),
        0 <= i < b.subs@.len(),
    ensures
        adjacent_distinct(b.observed(i)),
{
    let s = b.stream(i);
    assert(adjacent_distinct(s));
    assert forall|x: int|
        0 <= x < b.observed(i).len() - 1 implies #[trigger] b.observed(i)[x] != b.observed(i)[x
        + 1] by {
        assert(b.observed(i)[x] == s[x]);
        assert(b.observed(i)[x + 1] == s[x + 1]);
    }
}

} // verus!
