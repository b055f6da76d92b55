use vstd::prelude::*;

use crate::status::{status_of_code, Status};

verus! {

/// How many times `x` occurs in `s`.
pub open spec fn count_of(s: Seq<i32>, x: i32) -> int
    decreases s.len(),
{
    if s.len() == 0 {
        0
    } else {
        count_of(s.skip(1), x) + (if s[0] == x {
            1int
        } else {
            0int
        })
    }
}

/// `s` with the first occurrence of `x` taken out.
pub open spec fn remove_first(s: Seq<i32>, x: i32) -> Seq<i32>
    decreases s.len(),
{
    if s.len() == 0 {
        s
    } else if s[0] == x {
        s.skip(1)
    } else {
        seq![s[0]] + remove_first(s.skip(1), x)
    }
}

pub proof fn lemma_count_nonneg(s: Seq<i32>, x: i32)
    ensures
        count_of(s, x) >= 0,
    decreases s.len(),
{
    if s.len() > 0 {
        lemma_count_nonneg(s.skip(1), x);
    }
}

pub proof fn lemma_count_zero_empty(s: Seq<i32>)
    requires
        forall|x: i32| count_of(s, x) == 0,
    ensures
        s.len() == 0,
{
    if s.len() > 0 {
        lemma_count_nonneg(s.skip(1), s[0]);
        assert(count_of(s, s[0]) >= 1);
    }
}

pub proof fn lemma_remove_first(s: Seq<i32>, x: i32)
    requires
        count_of(s, x) >= 1,
    ensures
        remove_first(s, x).len() == s.len() - 1,
        count_of(remove_first(s, x), x) == count_of(s, x) - 1,
        forall|y: i32| y != x ==> count_of(remove_first(s, x), y) == count_of(s, y),
    decreases s.len(),
{
    if s.len() > 0 {
        if s[0] == x {
        } else {
            lemma_remove_first(s.skip(1), x);
            let r = seq![s[0]] + remove_first(s.skip(1), x);
            assert(remove_first(s, x) == r);
            assert(r.skip(1) =~= remove_first(s.skip(1), x));
            assert(r[0] == s[0]);
            assert(r.len() > 0);
            assert forall|y: i32| y != x implies count_of(remove_first(s, x), y) == count_of(
                s,
                y,
            ) by {
                assert(count_of(r, y) == count_of(r.skip(1), y) + (if r[0] == y {
                    1int
                } else {
                    0int
                }));
                assert(count_of(s, y) == count_of(s.skip(1), y) + (if s[0] == y {
                    1int
                } else {
                    0int
                }));
            }
            assert(count_of(r, x) == count_of(r.skip(1), x) + (if r[0] == x {
                1int
            } else {
                0int
            }));
            assert(count_of(s, x) == count_of(s.skip(1), x) + (if s[0] == x {
                1int
            } else {
                0int
            }));
        }
    }
}

pub proof fn lemma_count_contains(s: Seq<i32>, x: i32)
    ensures
        count_of(s, x) >= 1 <==> (exists|i: int| 0 <= i < s.len() && s[i] == x),
    decreases s.len(),
{
    lemma_count_nonneg(s, x);
    if s.len() > 0 {
        lemma_count_contains(s.skip(1), x);
        lemma_count_nonneg(s.skip(1), x);
        if count_of(s, x) >= 1 {
            if s[0] == x {
                assert(0 <= 0 < s.len() && s[0] == x);
            } else {
                assert(count_of(s.skip(1), x) >= 1);
                let i = choose|i: int| 0 <= i < s.skip(1).len() && s.skip(1)[i] == x;
                assert(s[i + 1] == x);
            }
        }
        if exists|i: int| 0 <= i < s.len() && s[i] == x {
            let i = choose|i: int| 0 <= i < s.len() && s[i] == x;
            if i > 0 {
                assert(s.skip(1)[i - 1] == x);
                assert(count_of(s.skip(1), x) >= 1);
            }
        }
    }
}

/// Mathematical image of the reaper.
pub struct ReaperView {
    /// Children spawned and not yet reaped.
    pub pending: Seq<i32>,
    /// The pipeline's last child, whose exit decides the status.
    pub last: i32,
    /// The pipeline status recorded so far.
    pub status: Status,
}

/// One reap: the child leaves the pending set; the last child's report
/// becomes the pipeline status.
pub open spec fn reap_model(r: ReaperView, pid: i32, st: Status) -> ReaperView {
    ReaperView {
        pending: remove_first(r.pending, pid),
        last: r.last,
        status: if pid == r.last {
            st
        } else {
            r.status
        },
    }
}

/// The machine state after a sequence of reaps.
pub open spec fn reap_seq(r: ReaperView, events: Seq<(i32, Status)>) -> ReaperView
    decreases events.len(),
{
    if events.len() == 0 {
        r
    } else {
        reap_seq(reap_model(r, events[0].0, events[0].1), events.skip(1))
    }
}

proof fn lemma_reap_seq_no_last(r: ReaperView, events: Seq<(i32, Status)>)
    requires
        forall|k: int| 0 <= k < events.len() ==> (#[trigger] events[k]).0 != r.last,
    ensures
        reap_seq(r, events).status == r.status,
        reap_seq(r, events).last == r.last,
    decreases events.len(),
{
    if events.len() > 0 {
        let r1 = reap_model(r, events[0].0, events[0].1);
        assert forall|k: int| 0 <= k < events.skip(1).len() implies (#[trigger] events.skip(
            1,
        )[k]).0 != r1.last by {
            assert(events.skip(1)[k] == events[k + 1]);
        }
        lemma_reap_seq_no_last(r1, events.skip(1));
    }
}

/// For a pipeline whose children are reaped each exactly once, the wait
/// loop ends with every child accounted for, and the recorded status is
/// exactly what the last child of the chain reported.
pub proof fn lemma_reap_all(r0: ReaperView, events: Seq<(i32, Status)>)
    requires
        forall|x: i32| count_of(r0.pending, x) <= 1,
        count_of(r0.pending, r0.last) == 1,
        forall|x: i32|
            count_of(events.map_values(|e: (i32, Status)| e.0), x) == count_of(r0.pending, x),
    ensures
        reap_seq(r0, events).pending.len() == 0,
        forall|k: int|
            0 <= k < events.len() && (#[trigger] events[k]).0 == r0.last ==> reap_seq(
                r0,
                events,
            ).status == events[k].1,
        exists|k: int| 0 <= k < events.len() && (#[trigger] events[k]).0 == r0.last,
    decreases events.len(),
{
    let pids = events.map_values(|e: (i32, Status)| e.0);
    lemma_count_contains(pids, r0.last);
    let kk = choose|i: int| 0 <= i < pids.len() && pids[i] == r0.last;
    assert(events[kk].0 == r0.last);
    if events.len() == 0 {
        assert forall|x: i32| count_of(r0.pending, x) == 0 by {
            assert(count_of(pids, x) == 0);
        }
        lemma_count_zero_empty(r0.pending);
    } else {
        let (p, st) = (events[0].0, events[0].1);
        assert(pids[0] == p);
        proof_first_count(events, p);
        lemma_count_nonneg(pids.skip(1), p);
        assert(count_of(r0.pending, p) >= 1);
        let r1 = reap_model(r0, p, st);
        lemma_remove_first(r0.pending, p);
        let tail = events.skip(1);
        let tail_pids = tail.map_values(|e: (i32, Status)| e.0);
        assert(tail_pids =~= pids.skip(1));
        assert forall|x: i32| count_of(tail_pids, x) == count_of(r1.pending, x) by {
            proof_skip_count(pids, x);
            assert(count_of(pids, x) == count_of(r0.pending, x));
            assert(count_of(tail_pids, x) == count_of(pids.skip(1), x));
        }
        if p == r0.last {
            // The last child is reaped now; nothing later names it again.
            assert(count_of(r1.pending, r0.last) == 0);
            assert(count_of(tail_pids, r0.last) == 0);
            assert forall|k: int| 0 <= k < tail.len() implies (#[trigger] tail[k]).0 != r1.last by {
                lemma_count_contains(tail_pids, r0.last);
                assert(tail_pids[k] == tail[k].0);
            }
            lemma_reap_seq_no_last(r1, tail);
            lemma_reap_all_done(r1, tail);
            assert forall|k: int|
                0 <= k < events.len() && (#[trigger] events[k]).0 == r0.last implies reap_seq(
                r0,
                events,
            ).status == events[k].1 by {
                if k > 0 {
                    lemma_count_contains(tail_pids, r0.last);
                    assert(tail_pids[k - 1] == r0.last);
                    assert(count_of(tail_pids, r0.last) >= 1);
                }
            }
        } else {
            assert(count_of(r1.pending, r0.last) == 1);
            assert forall|x: i32| count_of(r1.pending, x) <= 1 by {
                lemma_count_nonneg(remove_first(r0.pending, p), x);
                assert(count_of(r0.pending, x) <= 1);
            }
            lemma_reap_all(r1, tail);
            assert forall|k: int|
                0 <= k < events.len() && (#[trigger] events[k]).0 == r0.last implies reap_seq(
                r0,
                events,
            ).status == events[k].1 by {
                assert(k > 0);
                assert(tail[k - 1] == events[k]);
            }
        }
    }
}

proof fn lemma_reap_all_done(r: ReaperView, events: Seq<(i32, Status)>)
    requires
        forall|x: i32|
            count_of(events.map_values(|e: (i32, Status)| e.0), x) == count_of(r.pending, x),
    ensures
        reap_seq(r, events).pending.len() == 0,
    decreases events.len(),
{
    let pids = events.map_values(|e: (i32, Status)| e.0);
    if events.len() == 0 {
        assert forall|x: i32| count_of(r.pending, x) == 0 by {
            assert(count_of(pids, x) == 0);
        }
        lemma_count_zero_empty(r.pending);
    } else {
        let (p, st) = (events[0].0, events[0].1);
        assert(pids[0] == p);
        proof_first_count(events, p);
        lemma_count_nonneg(pids.skip(1), p);
        assert(count_of(r.pending, p) >= 1);
        let r1 = reap_model(r, p, st);
        lemma_remove_first(r.pending, p);
        let tail = events.skip(1);
        let tail_pids = tail.map_values(|e: (i32, Status)| e.0);
        assert(tail_pids =~= pids.skip(1));
        assert forall|x: i32| count_of(tail_pids, x) == count_of(r1.pending, x) by {
            proof_skip_count(pids, x);
            assert(count_of(pids, x) == count_of(r.pending, x));
            assert(count_of(tail_pids, x) == count_of(pids.skip(1), x));
        }
        lemma_reap_all_done(r1, tail);
    }
}

proof fn proof_first_count(events: Seq<(i32, Status)>, p: i32)
    requires
        events.len() > 0,
        events[0].0 == p,
    ensures
        count_of(events.map_values(|e: (i32, Status)| e.0), p) == count_of(
            events.map_values(|e: (i32, Status)| e.0).skip(1),
            p,
        ) + 1,
{
    let pids = events.map_values(|e: (i32, Status)| e.0);
    assert(pids[0] == p);
}

proof fn proof_skip_count(pids: Seq<i32>, x: i32)
    requires
        pids.len() > 0,
    ensures
        count_of(pids.skip(1), x) == count_of(pids, x) - (if pids[0] == x {
            1int
        } else {
            0int
        }),
{
}

/// The parent's wait loop: which children are still owed a reap, and what
/// the pipeline's status is so far.
pub struct Reaper {
    pending: Vec<i32>,
    last: i32,
    status: Status,
}

impl View for Reaper {
    type V = ReaperView;

    closed spec fn view(&self) -> ReaperView {
        ReaperView { pending: self.pending@, last: self.last, status: self.status }
    }
}

impl Reaper {
    /// Starts waiting for the given children; `last` is the final command
    /// of the chain, whose exit code will become the status.
    pub fn new(pending: Vec<i32>, last: i32) -> (r: Self)
        ensures
            r@.pending == pending@,
            r@.last == last,
            r@.status == Status::Success,
    {
        Self { pending, last, status: Status::Success }
    }

    /// Are all children reaped?
    pub fn is_done(&self) -> (r: bool)
        ensures
            r == (self@.pending.len() == 0),
    {
        self.pending.len() == 0
    }

    /// The pipeline status recorded so far.
    pub fn status(&self) -> (r: Status)
        ensures
            r == self@.status,
    {
        self.status
    }

    /// Records that `pid` exited with `code`.
    pub fn note_exited(&mut self, pid: i32, code: i32) -> (r: bool)
        ensures
            r == (count_of(old(self)@.pending, pid) >= 1),
            r ==> final(self)@ == reap_model(old(self)@, pid, status_of_code(code)),
            !r ==> final(self)@ == old(self)@,
    {
        self.note(pid, if code == 0 {
            Status::Success
        } else {
            Status::Failure
        })
    }

    /// Records that `pid` was ended by a signal, which counts as failure.
    pub fn note_signaled(&mut self, pid: i32) -> (r: bool)
        ensures
            r == (count_of(old(self)@.pending, pid) >= 1),
            r ==> final(self)@ == reap_model(old(self)@, pid, Status::Failure),
            !r ==> final(self)@ == old(self)@,
    {
        self.note(pid, Status::Failure)
    }

    #[verifier::loop_isolation(false)]
    fn note(&mut self, pid: i32, st: Status) -> (r: bool)
        ensures
            r == (count_of(old(self)@.pending, pid) >= 1),
            r ==> final(self)@ == reap_model(old(self)@, pid, st),
            !r ==> final(self)@ == old(self)@,
    {
        let ghost pend0 = self.pending@;
        let mut i: usize = 0;
        while i < self.pending.len()
            invariant
                0 <= i <= self.pending@.len(),
                self.pending@ == pend0,
                self@.last == old(self)@.last,
                self@.status == old(self)@.status,
                forall|j: int| 0 <= j < i ==> pend0[j] != pid,
            decreases self.pending@.len() - i,
        {
            if self.pending[i] == pid {
                self.pending.remove(i);
                proof {
                    assert(pend0[i as int] == pid);
                    lemma_remove_at_first(pend0, pid, i as int);
                    lemma_count_contains(pend0, pid);
                    assert(count_of(pend0, pid) >= 1);
                    assert(pend0.remove(i as int) == pend0.subrange(0, i as int)
                        + pend0.subrange(i + 1, pend0.len() as int));
                    assert(self.pending@ =~= remove_first(pend0, pid));
                }
                if pid == self.last {
                    self.status = st;
                }
                proof {
                    assert(self@.pending == remove_first(old(self)@.pending, pid));
                    assert(self@.last == reap_model(old(self)@, pid, st).last);
                    assert(self@.status == reap_model(old(self)@, pid, st).status);
                    assert(self@ == reap_model(old(self)@, pid, st));
                }
                return true;
            }
            i += 1;
        }
        proof {
            lemma_count_contains(pend0, pid);
            lemma_count_nonneg(pend0, pid);
            assert(self@.pending == old(self)@.pending);
            assert(self@ == old(self)@);
        }
        false
    }
}

proof fn lemma_remove_at_first(s: Seq<i32>, x: i32, i: int)
    requires
        0 <= i < s.len(),
        s[i] == x,
        forall|j: int| 0 <= j < i ==> s[j] != x,
    ensures
        remove_first(s, x) =~= s.subrange(0, i) + s.subrange(i + 1, s.len() as int),
    decreases s.len(),
{
    if i > 0 {
        lemma_remove_at_first(s.skip(1), x, i - 1);
        assert(s.skip(1).subrange(0, i - 1) =~= s.subrange(1, i));
        assert(s.skip(1).subrange(i, s.skip(1).len() as int) =~= s.subrange(
            i + 1,
            s.len() as int,
        ));
        assert(seq![s[0]] + remove_first(s.skip(1), x) =~= s.subrange(0, i) + s.subrange(
            i + 1,
            s.len() as int,
        ));
    }
}

} // verus!
