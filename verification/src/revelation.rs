//! Revelation engine: starting from the frozen scoreboard it uncovers
//! hidden verdicts in the traditional ceremony order, driven by a
//! priority queue of team scores in which the worst-placed unsettled
//! team surfaces first.

use vstd::prelude::*;

verus! {

use crate::contest::ContestError;
use crate::contest::ContestFile;
use crate::contest::ContestV;
use crate::contest::Score;
use crate::contest::ScoreV;
use crate::contest::TeamV;
use crate::contest::ProblemV;
use crate::contest::Run;
use crate::contest::RunV;
use crate::contest::RunsFile;
use crate::contest::contest_apply;
use crate::contest::contest_apply_frozen;
use crate::contest::contest_wf;
use crate::contest::lemma_find_same_logins;
use crate::contest::lemma_sorted_unique;
use crate::contest::recalc_spec;
use crate::contest::runs_sorted;
use crate::contest::runs_sorted_le;
use crate::contest::find_team_idx;
use crate::contest::frozen_total;
use crate::contest::lemma_find_team_idx;
use crate::contest::lemma_frozen_total_nonneg;
use crate::contest::lemma_reveal_frozen_decreases;
use crate::contest::lemma_reveal_order;
use crate::contest::lemma_reveal_pick;
use crate::contest::reveal_before;
use crate::contest::reveal_pick;
use crate::contest::team_has_frozen;
use crate::contest::team_reveal;
use crate::contest::team_score;
use crate::contest::team_wf;

/// The mathematical view of a sequence of scores.
pub open spec fn scores_view(s: Seq<Score>) -> Seq<ScoreV> {
    s.map_values(|x: Score| x@)
}

/// Index of the queue entry that pops first in revelation order,
/// preferring the lowest index on ties; -1 on an empty queue.
pub open spec fn queue_pick(qs: Seq<ScoreV>) -> int
    decreases qs.len(),
{
    if qs.len() == 0 {
        -1
    } else {
        let rest = queue_pick(qs.drop_first());
        if rest < 0 {
            0
        } else if reveal_before(qs.drop_first()[rest], qs[0]) {
            rest + 1
        } else {
            0
        }
    }
}

pub proof fn lemma_queue_pick(qs: Seq<ScoreV>)
    ensures
        qs.len() == 0 ==> queue_pick(qs) == -1,
        qs.len() > 0 ==> {
            let k = queue_pick(qs);
            &&& 0 <= k < qs.len()
            &&& forall|j: int| 0 <= j < qs.len() ==> !reveal_before(qs[j], qs[k])
            &&& forall|j: int| 0 <= j < k ==> reveal_before(qs[k], qs[j])
        },
    decreases qs.len(),
{
    if qs.len() > 0 {
        lemma_queue_pick(qs.drop_first());
        assert forall|j: int| 1 <= j < qs.len() implies qs.drop_first()[j - 1] == qs[j] by {}
        let k = queue_pick(qs);
        let rest = queue_pick(qs.drop_first());
        if rest < 0 {
            assert(qs.drop_first().len() == 0);
            assert(k == 0);
            lemma_reveal_order(qs[0], qs[0], qs[0]);
        } else {
            let rk = qs.drop_first()[rest];
            if reveal_before(rk, qs[0]) {
                assert(k == rest + 1);
                assert forall|j: int| 0 <= j < qs.len() implies !reveal_before(qs[j], qs[k]) by {
                    if j == 0 {
                        lemma_reveal_order(qs[0], rk, rk);
                    }
                }
            } else {
                assert(k == 0);
                assert forall|j: int| 0 <= j < qs.len() implies !reveal_before(qs[j], qs[0]) by {
                    if j == 0 {
                        lemma_reveal_order(qs[0], qs[0], qs[0]);
                    } else {
                        assert(!reveal_before(qs[j], rk));
                        lemma_reveal_order(qs[j], rk, qs[0]);
                    }
                }
            }
        }
    }
}

/// Queue discipline tying a revelation queue to its contest: every
/// entry is the live score of a distinct existing team, and every team
/// that still hides runs has an entry.
pub open spec fn queue_wf(qv: Seq<ScoreV>, cv: ContestV) -> bool {
    &&& forall|k: int|
        0 <= k < qv.len() ==> {
            let ti = find_team_idx(cv.teams, (#[trigger] qv[k]).team_login);
            &&& ti >= 0
            &&& qv[k] == team_score(cv.teams[ti])
        }
    &&& forall|k: int, l: int|
        0 <= k < l < qv.len() ==> qv[k].team_login != qv[l].team_login
    &&& forall|i: int|
        0 <= i < cv.teams.len() && team_has_frozen(#[trigger] cv.teams[i]) ==> exists|k: int|
            0 <= k < qv.len() && qv[k].team_login == cv.teams[i].login
}

/// Effect of one `pop_run` on the queue and the contest: the entry that
/// pops first is removed, its team reveals one hidden run, and the team
/// is re-queued with its new score while hidden runs remain. An empty
/// queue, or an entry whose login is unknown, changes nothing (the
/// latter is reported as an error by the operation itself).
pub open spec fn pop_spec(qv: Seq<ScoreV>, cv: ContestV) -> (Seq<ScoreV>, ContestV) {
    let k = queue_pick(qv);
    if k < 0 {
        (qv, cv)
    } else {
        let ti = find_team_idx(cv.teams, qv[k].team_login);
        if ti < 0 {
            (qv, cv)
        } else {
            let (t2, more) = team_reveal(cv.teams[ti]);
            let cv2 = ContestV { teams: cv.teams.update(ti, t2), ..cv };
            let qv2 = if more {
                qv.remove(k).push(team_score(t2))
            } else {
                qv.remove(k)
            };
            (qv2, cv2)
        }
    }
}

/// Priority queue of team scores, keyed so that the worst-placed team
/// still holding hidden runs pops first.
#[derive(Debug)]
pub struct RunsQueue {
    pub queue: Vec<Score>,
}

impl View for RunsQueue {
    type V = Seq<ScoreV>;

    open spec fn view(&self) -> Seq<ScoreV> {
        scores_view(self.queue@)
    }
}

impl RunsQueue {
    pub fn empty() -> (q: RunsQueue)
        ensures
            q@ =~= Seq::<ScoreV>::empty(),
    {
        RunsQueue { queue: Vec::new() }
    }

    pub fn len(&self) -> (n: usize)
        ensures
            n == self@.len(),
    {
        self.queue.len()
    }

    pub fn is_empty(&self) -> (r: bool)
        ensures
            r == (self@.len() == 0),
    {
        self.queue.len() == 0
    }

    /// Index of the entry that pops first, if the queue is nonempty.
    fn pick(&self) -> (r: Option<usize>)
        ensures
            match r {
                Some(i) => i < self@.len() && queue_pick(self@) == i,
                None => self@.len() == 0 && queue_pick(self@) == -1,
            },
    {
        let ghost qv = self@;
        proof {
            lemma_queue_pick(qv);
        }
        let n = self.queue.len();
        if n == 0 {
            return None;
        }
        let mut best: usize = 0;
        let mut i: usize = 1;
        proof {
            lemma_reveal_order(qv[0], qv[0], qv[0]);
        }
        while i < n
            invariant
                n == self.queue.len(),
                qv == self@,
                best < i <= n,
                forall|j: int| 0 <= j < i ==> !reveal_before(qv[j], qv[best as int]),
                forall|j: int| 0 <= j < best ==> reveal_before(qv[best as int], qv[j]),
            decreases n - i,
        {
            let ghost ob = best as int;
            if self.queue[i].comes_before(&self.queue[best]) {
                best = i;
                proof {
                    lemma_reveal_order(qv[best as int], qv[ob], qv[ob]);
                    assert forall|j: int| 0 <= j < i + 1 implies !reveal_before(
                        qv[j],
                        qv[best as int],
                    ) by {
                        if j == i {
                            lemma_reveal_order(qv[j], qv[j], qv[j]);
                        } else {
                            lemma_reveal_order(qv[j], qv[ob], qv[best as int]);
                        }
                    }
                    assert forall|j: int| 0 <= j < best implies reveal_before(
                        qv[best as int],
                        qv[j],
                    ) by {
                        if j != ob {
                            lemma_reveal_order(qv[best as int], qv[j], qv[ob]);
                        }
                    }
                }
            }
            i = i + 1;
        }
        proof {
            let k = queue_pick(qv);
            if k < best {
                assert(reveal_before(qv[best as int], qv[k]));
                assert(!reveal_before(qv[best as int], qv[k]));
            }
            if best < k {
                assert(reveal_before(qv[k], qv[best as int]));
                assert(!reveal_before(qv[k], qv[best as int]));
            }
        }
        Some(best)
    }

    /// Login of the team that would reveal next. Does not mutate.
    pub fn peek(&self) -> (r: Option<&String>)
        ensures
            match r {
                Some(s) => self@.len() > 0 && s@ == self@[queue_pick(self@)].team_login,
                None => self@.len() == 0,
            },
    {
        match self.pick() {
            Some(i) => Some(&self.queue[i].team_login),
            None => None,
        }
    }

    /// Seed the queue with the current score of every team.
    pub fn setup_queue(contest: &ContestFile) -> (q: RunsQueue)
        ensures
            q@ == contest@.teams.map_values(|t: TeamV| team_score(t)),
            contest.wf() ==> queue_wf(q@, contest@),
    {
        let ghost tsv = contest@.teams;
        let mut queue: Vec<Score> = Vec::new();
        let n = contest.teams.len();
        let mut i: usize = 0;
        while i < n
            invariant
                n == contest.teams.len(),
                tsv == contest@.teams,
                i <= n,
                queue@.len() == i,
                forall|k: int| 0 <= k < i ==> (#[trigger] queue@[k])@ == team_score(tsv[k]),
            decreases n - i,
        {
            let s = contest.teams[i].score();
            queue.push(s);
            i = i + 1;
        }
        let q = RunsQueue { queue };
        proof {
            assert(q@ =~= tsv.map_values(|t: TeamV| team_score(t)));
            if contest.wf() {
                assert forall|k: int|
                    0 <= k < q@.len() implies {
                    let ti = find_team_idx(tsv, (#[trigger] q@[k]).team_login);
                    ti >= 0 && q@[k] == team_score(tsv[ti])
                } by {
                    lemma_find_team_idx(tsv, q@[k].team_login);
                    let ti = find_team_idx(tsv, q@[k].team_login);
                    assert(q@[k].team_login == tsv[k].login);
                    if ti < 0 {
                        assert(tsv[k].login != q@[k].team_login);
                    } else {
                        assert(tsv[ti].login == tsv[k].login);
                        if ti != k {
                            assert(false);
                        }
                    }
                }
                assert forall|i0: int, j0: int|
                    0 <= i0 < j0 < q@.len() implies q@[i0].team_login != q@[j0].team_login by {
                    assert(tsv[i0].login != tsv[j0].login);
                }
                assert forall|i0: int|
                    0 <= i0 < tsv.len() && team_has_frozen(#[trigger] tsv[i0]) implies exists|
                    k: int,
                |
                    0 <= k < q@.len() && q@[k].team_login == tsv[i0].login by {
                    assert(q@[i0].team_login == tsv[i0].login);
                }
            }
        }
        q
    }

    /// Pop the next score and reveal one hidden run of its team,
    /// re-queueing the team while hidden runs remain. An unknown login
    /// surfaces as `ContestError::UnknownTeam` and changes nothing.
    pub fn pop_run(&mut self, contest: &mut ContestFile) -> (r: Result<(), ContestError>)
        ensures
            (final(self)@, final(contest)@) == pop_spec(old(self)@, old(contest)@),
            r is Ok <==> (queue_pick(old(self)@) < 0 || find_team_idx(
                old(contest)@.teams,
                old(self)@[queue_pick(old(self)@)].team_login,
            ) >= 0),
            r is Err ==> final(self)@ == old(self)@ && final(contest)@ == old(contest)@,
            r matches Err(e) ==> (e matches ContestError::UnknownTeam(l) && l@
                == old(self)@[queue_pick(old(self)@)].team_login),
            old(contest).wf() ==> final(contest).wf(),
            old(contest).wf() && queue_wf(old(self)@, old(contest)@) ==> queue_wf(
                final(self)@,
                final(contest)@,
            ),
            final(contest)@.teams.len() == old(contest)@.teams.len(),
            r is Ok ==> frozen_contest(final(contest)@) + final(self)@.len() < frozen_contest(
                old(contest)@,
            ) + old(self)@.len() || (queue_pick(old(self)@) < 0 && final(self)@ == old(self)@
                && final(contest)@ == old(contest)@),
    {
        proof {
            lemma_queue_pick(old(self)@);
        }
        let ghost qv = self@;
        let ghost cv = contest@;
        match self.pick() {
            None => {
                proof {
                    lemma_frozen_contest_nonneg(cv);
                }
                Ok(())
            },
            Some(k) => {
                let ghost ti = find_team_idx(cv.teams, qv[k as int].team_login);
                proof {
                    lemma_find_team_idx(cv.teams, qv[k as int].team_login);
                }
                match contest.find_team(&self.queue[k].team_login) {
                    None => Err(ContestError::UnknownTeam(self.queue[k].team_login.clone())),
                    Some(t_idx) => {
                        let score = self.queue.remove(k);
                        let ghost tv = cv.teams[t_idx as int];
                        let t = &mut contest.teams[t_idx];
                        let more = t.reveal_run_frozen();
                        proof {
                            assert(final(contest)@.teams =~= cv.teams.update(
                                t_idx as int,
                                team_reveal(tv).0,
                            ));
                        }
                        if more {
                            let t2 = &contest.teams[t_idx];
                            let s2 = t2.score();
                            self.queue.push(s2);
                            proof {
                                assert(self@ =~= qv.remove(k as int).push(
                                    team_score(team_reveal(tv).0),
                                ));
                            }
                        } else {
                            proof {
                                assert(self@ =~= qv.remove(k as int));
                            }
                        }
                        proof {
                            lemma_pop_preserves(qv, cv, k as int, t_idx as int);
                        }
                        Ok(())
                    },
                }
            },
        }
    }
}

/// Total number of hidden runs over all teams of a contest.
pub open spec fn frozen_contest(cv: ContestV) -> int
    decreases cv.teams.len(),
{
    if cv.teams.len() == 0 {
        0
    } else {
        frozen_contest(ContestV { teams: cv.teams.drop_last(), ..cv }) + frozen_total(
            cv.teams.last().problems,
        )
    }
}

pub proof fn lemma_frozen_contest_nonneg(cv: ContestV)
    ensures
        frozen_contest(cv) >= 0,
    decreases cv.teams.len(),
{
    if cv.teams.len() > 0 {
        lemma_frozen_contest_nonneg(ContestV { teams: cv.teams.drop_last(), ..cv });
        lemma_frozen_total_nonneg(cv.teams.last().problems);
    }
}

/// How replacing one team changes the contest's hidden-run count.
proof fn lemma_frozen_contest_update(cv: ContestV, i: int, t2: TeamV)
    requires
        0 <= i < cv.teams.len(),
    ensures
        frozen_contest(ContestV { teams: cv.teams.update(i, t2), ..cv }) == frozen_contest(cv)
            - frozen_total(cv.teams[i].problems) + frozen_total(t2.problems),
    decreases cv.teams.len(),
{
    let cv2 = ContestV { teams: cv.teams.update(i, t2), ..cv };
    if i == cv.teams.len() - 1 {
        assert(cv2.teams.drop_last() =~= cv.teams.drop_last());
        assert(cv2.teams.last() == t2);
        assert(frozen_contest(ContestV { teams: cv2.teams.drop_last(), ..cv2 }) == frozen_contest(
            ContestV { teams: cv.teams.drop_last(), ..cv },
        ));
    } else {
        assert(cv2.teams.drop_last() =~= cv.teams.drop_last().update(i, t2));
        assert(cv2.teams.last() == cv.teams.last());
        lemma_frozen_contest_update(ContestV { teams: cv.teams.drop_last(), ..cv }, i, t2);
    }
}

/// A contest with no hidden runs anywhere has `frozen_contest` zero,
/// and conversely.
pub proof fn lemma_frozen_contest_zero(cv: ContestV)
    ensures
        frozen_contest(cv) == 0 <==> forall|i: int|
            0 <= i < cv.teams.len() ==> !team_has_frozen(#[trigger] cv.teams[i]),
    decreases cv.teams.len(),
{
    if cv.teams.len() > 0 {
        let prefix = ContestV { teams: cv.teams.drop_last(), ..cv };
        lemma_frozen_contest_zero(prefix);
        lemma_frozen_contest_nonneg(prefix);
        lemma_frozen_total_nonneg(cv.teams.last().problems);
        lemma_frozen_total_zero(cv.teams.last().problems);
        assert forall|i: int| 0 <= i < cv.teams.len() - 1 implies cv.teams.drop_last()[i]
            == cv.teams[i] by {}
        if frozen_contest(cv) == 0 {
            assert forall|i: int|
                0 <= i < cv.teams.len() implies !team_has_frozen(#[trigger] cv.teams[i]) by {
                if i < cv.teams.len() - 1 {
                    assert(!team_has_frozen(prefix.teams[i]));
                }
            }
        } else {
            if frozen_total(cv.teams.last().problems) > 0 {
                assert(team_has_frozen(cv.teams.last()));
                assert(cv.teams[cv.teams.len() - 1] == cv.teams.last());
            } else {
                assert(frozen_contest(prefix) > 0);
                let wit = choose|i: int|
                    0 <= i < prefix.teams.len() && team_has_frozen(#[trigger] prefix.teams[i]);
                assert(team_has_frozen(cv.teams[wit]));
            }
        }
    }
}

/// A team hides runs exactly when its hidden-run count is positive.
pub proof fn lemma_frozen_total_zero(ps: Seq<ProblemV>)
    ensures
        frozen_total(ps) == 0 <==> forall|i: int|
            0 <= i < ps.len() ==> (#[trigger] ps[i]).frozen_runs.len() == 0,
    decreases ps.len(),
{
    if ps.len() > 0 {
        lemma_frozen_total_zero(ps.drop_last());
        lemma_frozen_total_nonneg(ps.drop_last());
        assert forall|i: int| 0 <= i < ps.len() - 1 implies ps.drop_last()[i] == ps[i] by {}
        if frozen_total(ps) == 0 {
            assert forall|i: int|
                0 <= i < ps.len() implies (#[trigger] ps[i]).frozen_runs.len() == 0 by {
                if i < ps.len() - 1 {
                    assert(ps.drop_last()[i].frozen_runs.len() == 0);
                } else {
                    assert(ps[i] == ps.last());
                }
            }
        } else {
            if ps.last().frozen_runs.len() > 0 {
                assert(ps[ps.len() - 1] == ps.last());
            } else {
                let wit = choose|i: int|
                    0 <= i < ps.drop_last().len() && (#[trigger] ps.drop_last()[i]).frozen_runs.len()
                        > 0;
                assert(ps[wit].frozen_runs.len() > 0);
            }
        }
    }
}

/// `pop_spec` preserves the queue discipline and shrinks the combined
/// hidden-run-plus-queue measure.
proof fn lemma_pop_preserves(qv: Seq<ScoreV>, cv: ContestV, k: int, ti: int)
    requires
        queue_pick(qv) == k,
        0 <= k < qv.len(),
        find_team_idx(cv.teams, qv[k].team_login) == ti,
        0 <= ti < cv.teams.len(),
    ensures
        contest_wf(cv) ==> contest_wf(pop_spec(qv, cv).1),
        contest_wf(cv) && queue_wf(qv, cv) ==> queue_wf(pop_spec(qv, cv).0, pop_spec(qv, cv).1),
        frozen_contest(pop_spec(qv, cv).1) + pop_spec(qv, cv).0.len() < frozen_contest(cv)
            + qv.len(),
{
    lemma_find_team_idx(cv.teams, qv[k].team_login);
    let tv = cv.teams[ti];
    let (t2, more) = team_reveal(tv);
    let cv2 = pop_spec(qv, cv).1;
    let qv2 = pop_spec(qv, cv).0;
    lemma_reveal_frozen_decreases(tv);
    lemma_frozen_contest_update(cv, ti, t2);
    lemma_frozen_total_nonneg(tv.problems);
    lemma_frozen_total_zero(tv.problems);
    if !team_has_frozen(tv) {
        assert(frozen_total(t2.problems) == frozen_total(tv.problems));
    }
    if contest_wf(cv) {
        // The revealed team keeps its login and well-formedness, so the
        // contest stays well-formed.
        assert(team_wf(cv.teams[ti]));
        assert(team_wf(t2)) by {
            let kk = reveal_pick(tv.problems);
            if kk >= 0 {
                lemma_reveal_pick(tv.problems);
                assert forall|a: int, b: int|
                    0 <= a < b < t2.problems.len() implies t2.problems[a].letter
                    != t2.problems[b].letter by {
                    assert(tv.problems[a].letter != tv.problems[b].letter);
                    assert(t2.problems[a].letter == tv.problems[a].letter);
                    assert(t2.problems[b].letter == tv.problems[b].letter);
                }
            }
        }
        assert forall|i: int| 0 <= i < cv2.teams.len() implies #[trigger] team_wf(
            cv2.teams[i],
        ) by {
            if i != ti {
                assert(cv2.teams[i] == cv.teams[i]);
            }
        }
        assert forall|a: int, b: int|
            0 <= a < b < cv2.teams.len() implies cv2.teams[a].login != cv2.teams[b].login by {
            assert(cv2.teams[a].login == cv.teams[a].login);
            assert(cv2.teams[b].login == cv.teams[b].login);
        }
        if queue_wf(qv, cv) {
            lemma_queue_pick(qv);
            assert forall|x: int|
                0 <= x < qv2.len() implies {
                let tix = find_team_idx(cv2.teams, (#[trigger] qv2[x]).team_login);
                tix >= 0 && qv2[x] == team_score(cv2.teams[tix])
            } by {
                if more && x == qv2.len() - 1 {
                    assert(qv2[x] == team_score(t2));
                    assert(t2.login == tv.login);
                    lemma_find_team_idx(cv2.teams, t2.login);
                    let tix = find_team_idx(cv2.teams, t2.login);
                    assert(cv2.teams[ti].login == tv.login);
                    if tix < 0 {
                        assert(cv2.teams[ti].login != t2.login);
                    } else if tix != ti {
                        assert(cv2.teams[tix].login == cv.teams[tix].login);
                        assert(cv.teams[tix].login == cv.teams[ti].login);
                        assert(false);
                    }
                } else {
                    let y = if x < k {
                        x
                    } else {
                        x + 1
                    };
                    assert(0 <= y < qv.len());
                    assert(qv.remove(k)[x] == qv[y]);
                    assert(qv2[x] == qv[y]);
                    let entry = qv[y];
                    let tiy = find_team_idx(cv.teams, entry.team_login);
                    assert(tiy >= 0 && qv[y] == team_score(cv.teams[tiy]));
                    lemma_find_team_idx(cv.teams, qv[y].team_login);
                    lemma_find_team_idx(cv2.teams, qv[y].team_login);
                    let tiy2 = find_team_idx(cv2.teams, qv[y].team_login);
                    assert(cv2.teams[tiy].login == cv.teams[tiy].login || tiy == ti);
                    // The popped entry was the team's only one, so a
                    // remaining entry belongs to a different team.
                    assert(tiy != ti) by {
                        if tiy == ti {
                            assert(qv[y].team_login == qv[k].team_login);
                            assert(y != k);
                        }
                    }
                    assert(cv2.teams[tiy] == cv.teams[tiy]);
                    if tiy2 < 0 {
                        assert(cv2.teams[tiy].login != qv[y].team_login);
                    } else if tiy2 != tiy {
                        assert(cv2.teams[tiy2].login == cv.teams[tiy2].login);
                        assert(false);
                    }
                }
            }
            assert forall|x: int, yy: int|
                0 <= x < yy < qv2.len() implies qv2[x].team_login != qv2[yy].team_login by {
                let mx = if x < k {
                    x
                } else {
                    x + 1
                };
                if more && yy == qv2.len() - 1 {
                    assert(qv2[yy].team_login == tv.login);
                    assert(qv2[x] == qv[mx]);
                    if mx != k {
                        assert(qv[mx].team_login != qv[k].team_login);
                    }
                } else {
                    let my = if yy < k {
                        yy
                    } else {
                        yy + 1
                    };
                    assert(qv2[x] == qv[mx]);
                    assert(qv2[yy] == qv[my]);
                }
            }
            assert forall|i: int|
                0 <= i < cv2.teams.len() && team_has_frozen(#[trigger] cv2.teams[i]) implies exists|
                x: int,
            |
                0 <= x < qv2.len() && qv2[x].team_login == cv2.teams[i].login by {
                if i == ti {
                    assert(more == team_has_frozen(t2));
                    assert(qv2[qv2.len() - 1].team_login == tv.login);
                } else {
                    assert(cv2.teams[i] == cv.teams[i]);
                    let x = choose|x: int|
                        0 <= x < qv.len() && qv[x].team_login == cv.teams[i].login;
                    assert(x != k) by {
                        if x == k {
                            assert(find_team_idx(cv.teams, qv[k].team_login) == ti);
                            lemma_find_team_idx(cv.teams, qv[k].team_login);
                            assert(cv.teams[ti].login == cv.teams[i].login);
                            assert(false);
                        }
                    }
                    let x2 = if x < k {
                        x
                    } else {
                        x - 1
                    };
                    assert(qv2[x2] == qv[x]);
                }
            }
        }
    }
}

/// Effect of loading a run sequence into a contest under a freeze time:
/// runs before the freeze are judged live, later ones are buffered.
pub open spec fn contest_apply_split(cv: ContestV, rs: Seq<RunV>, f: i64) -> ContestV
    decreases rs.len(),
{
    if rs.len() == 0 {
        cv
    } else {
        let prev = contest_apply_split(cv, rs.drop_last(), f);
        if rs.last().time_minutes < f {
            contest_apply(prev, rs.last())
        } else {
            contest_apply_frozen(prev, rs.last())
        }
    }
}

/// Every run names a login the contest has a team for.
pub open spec fn all_logins_known(rs: Seq<RunV>, cv: ContestV) -> bool {
    forall|k: int|
        0 <= k < rs.len() ==> find_team_idx(cv.teams, (#[trigger] rs[k]).team_login) >= 0
}

/// Rearranging runs does not change whether all logins are known.
pub proof fn lemma_logins_known_perm(a: Seq<RunV>, b: Seq<RunV>, cv: ContestV)
    requires
        a.to_multiset() == b.to_multiset(),
        all_logins_known(a, cv),
    ensures
        all_logins_known(b, cv),
{
    broadcast use vstd::seq_lib::group_to_multiset_ensures;

    assert forall|k: int|
        0 <= k < b.len() implies find_team_idx(cv.teams, (#[trigger] b[k]).team_login) >= 0 by {
        assert(b.to_multiset().contains(b[k])) by {
            assert(b[k] == b[k]);
        }
        assert(a.to_multiset().contains(b[k]));
        assert(a.contains(b[k]));
        let j = choose|j: int| 0 <= j < a.len() && a[j] == b[k];
        assert(find_team_idx(cv.teams, a[j].team_login) >= 0);
    }
}

/// Judging or buffering runs never changes the team roster: logins
/// resolve to the same indices before and after.
pub proof fn lemma_split_preserves_roster(cv: ContestV, rs: Seq<RunV>, f: i64)
    ensures
        contest_apply_split(cv, rs, f).teams.len() == cv.teams.len(),
        forall|i: int|
            0 <= i < cv.teams.len() ==> (#[trigger] contest_apply_split(cv, rs, f).teams[i]).login
                == cv.teams[i].login,
        forall|l: Seq<char>|
            find_team_idx(#[trigger] contest_apply_split(cv, rs, f).teams, l) == find_team_idx(
                cv.teams,
                l,
            ),
    decreases rs.len(),
{
    if rs.len() > 0 {
        lemma_split_preserves_roster(cv, rs.drop_last(), f);
        let prev = contest_apply_split(cv, rs.drop_last(), f);
        let nxt = contest_apply_split(cv, rs, f);
        let r = rs.last();
        let ti = find_team_idx(prev.teams, r.team_login);
        if ti >= 0 {
            crate::contest::lemma_find_team_idx(prev.teams, r.team_login);
            if r.time_minutes < f {
                assert(nxt.teams == prev.teams.update(ti, crate::contest::team_apply(
                    prev.teams[ti],
                    r,
                )));
            } else {
                assert(nxt.teams == prev.teams.update(ti, crate::contest::team_apply_frozen(
                    prev.teams[ti],
                    r,
                )));
            }
        } else {
            assert(nxt.teams == prev.teams);
        }
        assert(nxt.teams.len() == prev.teams.len());
        assert forall|i: int|
            0 <= i < cv.teams.len() implies (#[trigger] nxt.teams[i]).login
            == cv.teams[i].login by {
            assert(prev.teams[i].login == cv.teams[i].login);
            if ti >= 0 && i == ti {
                assert(nxt.teams[i].login == prev.teams[i].login);
            } else {
                assert(nxt.teams[i] == prev.teams[i]);
            }
        }
        assert forall|l: Seq<char>|
            find_team_idx(#[trigger] nxt.teams, l) == find_team_idx(cv.teams, l) by {
            lemma_find_same_logins(nxt.teams, cv.teams, l);
        }
    }
}

/// Draining the queue by repeated pops, with explicit fuel. The fuel
/// only serves termination; callers supply at least the combined
/// hidden-run-plus-queue measure, which repeated pops always consume.
pub open spec fn drain_spec(qv: Seq<ScoreV>, cv: ContestV, n: int, fuel: nat) -> (
    Seq<ScoreV>,
    ContestV,
)
    decreases fuel,
{
    if fuel == 0 || qv.len() <= n {
        (qv, cv)
    } else {
        let (q2, c2) = pop_spec(qv, cv);
        drain_spec(q2, c2, n, (fuel - 1) as nat)
    }
}

/// The revelation state: the contest being revealed, the immutable run
/// file it was built from, and the queue of pending reveals.
#[derive(Debug)]
pub struct Revelation {
    pub contest: ContestFile,
    pub runs: RunsFile,
    pub runs_queue: RunsQueue,
}

impl Revelation {
    /// A revelation over the given contest and runs, not yet loaded.
    pub fn new(contest: ContestFile, runs: RunsFile) -> (s: Revelation)
        ensures
            s.contest == contest,
            s.runs == runs,
            s.runs_queue@ =~= Seq::<ScoreV>::empty(),
    {
        Revelation { contest, runs, runs_queue: RunsQueue::empty() }
    }

    /// Load the run file into the contest: runs before the freeze are
    /// judged, later ones buffered; then the queue is seeded with every
    /// team's score and placements are recomputed. Fails with
    /// `ContestError::UnknownTeam` when a run names no team.
    pub fn apply_all_runs_before_frozen(&mut self) -> (r: Result<(), ContestError>)
        requires
            old(self).contest.wf(),
        ensures
            final(self).runs == old(self).runs,
            final(self).contest.wf(),
            r is Ok <==> all_logins_known(old(self).runs@, old(self).contest@),
            r is Ok ==> queue_wf(final(self).runs_queue@, final(self).contest@),
            // The run file is processed in (time, id) order whatever
            // order it arrived in: the contest equals the split
            // application of a sorted arrangement of its runs.
            r is Ok ==> exists|srt: Seq<RunV>|
                #![trigger runs_sorted_le(srt)]
                {
                    &&& runs_sorted_le(srt)
                    &&& srt.to_multiset() == old(self).runs@.to_multiset()
                    &&& final(self).contest@ == recalc_spec(
                        contest_apply_split(
                            old(self).contest@,
                            srt,
                            old(self).contest@.score_freeze_time,
                        ),
                    )
                },
            r is Ok && runs_sorted(old(self).runs@) ==> final(self).contest@ == recalc_spec(
                contest_apply_split(
                    old(self).contest@,
                    old(self).runs@,
                    old(self).contest@.score_freeze_time,
                ),
            ),
            // The queue is seeded with exactly one entry per team: its
            // current score.
            r is Ok ==> final(self).runs_queue@ == final(self).contest@.teams.map_values(
                |t: TeamV| team_score(t),
            ),
            r is Ok ==> final(self).contest@.teams.len() == old(self).contest@.teams.len(),
            r is Err ==> final(self).runs_queue == old(self).runs_queue,
    {
        let ghost cv0 = self.contest@;
        let ghost f = self.contest@.score_freeze_time;
        let srt = self.runs.sorted();
        let ghost srtv = crate::contest::runs_view(srt@);
        let n = srt.len();
        let mut i: usize = 0;
        while i < n
            invariant
                n == srt@.len(),
                srtv == crate::contest::runs_view(srt@),
                i <= n,
                self.runs == old(self).runs,
                self.runs_queue == old(self).runs_queue,
                old(self).contest.wf(),
                self.contest.wf(),
                srtv.to_multiset() == old(self).runs@.to_multiset(),
                runs_sorted_le(srtv),
                self.contest@ == contest_apply_split(cv0, srtv.take(i as int), f),
                cv0 == old(self).contest@,
                f == cv0.score_freeze_time,
                all_logins_known(srtv.take(i as int), cv0),
            decreases n - i,
        {
            proof {
                assert(srtv.take(i + 1).drop_last() =~= srtv.take(i as int));
                assert(srtv.take(i + 1).last() == srtv[i as int]);
                lemma_split_preserves_roster(cv0, srtv.take(i as int), f);
            }
            let run = &srt[i];
            let freeze = self.contest.score_freeze_time;
            proof {
                assert(self.contest@.score_freeze_time == f) by {
                    lemma_split_unchanged_meta(cv0, srtv.take(i as int), f);
                }
            }
            let res = if run.time_minutes < freeze {
                match self.contest.apply_run(run) {
                    Ok(_) => Ok(()),
                    Err(e) => Err(e),
                }
            } else {
                self.contest.apply_run_frozen(run)
            };
            match res {
                Ok(_) => {
                    proof {
                        assert(all_logins_known(srtv.take(i + 1), cv0)) by {
                            assert(find_team_idx(
                                contest_apply_split(cv0, srtv.take(i as int), f).teams,
                                srtv[i as int].team_login,
                            ) >= 0);
                            assert forall|k: int|
                                0 <= k < i + 1 implies find_team_idx(
                                cv0.teams,
                                (#[trigger] srtv.take(i + 1)[k]).team_login,
                            ) >= 0 by {
                                if k < i {
                                    assert(srtv.take(i as int)[k] == srtv.take(i + 1)[k]);
                                }
                            }
                        }
                    }
                    i = i + 1;
                },
                Err(e) => {
                    proof {
                        // The offending login is unknown in the base
                        // contest as well, so not all logins are known.
                        assert(find_team_idx(cv0.teams, srtv[i as int].team_login) < 0);
                        if all_logins_known(old(self).runs@, cv0) {
                            lemma_logins_known_perm(old(self).runs@, srtv, cv0);
                            assert(find_team_idx(cv0.teams, srtv[i as int].team_login) >= 0);
                        }
                    }
                    return Err(e);
                },
            }
        }
        proof {
            assert(srtv.take(n as int) =~= srtv);
            if all_logins_known(old(self).runs@, cv0) {
            } else {
                lemma_logins_known_perm(srtv, old(self).runs@, cv0);
            }
            if runs_sorted(old(self).runs@) {
                lemma_sorted_unique(old(self).runs@, srtv);
            }
        }
        self.runs_queue = RunsQueue::setup_queue(&self.contest);
        let ghost cpre = self.contest@;
        let ghost qpre = self.runs_queue@;
        let res = self.contest.recalculate_placement_no_filter();
        proof {
            lemma_queue_wf_recalc(qpre, cpre);
            lemma_split_preserves_roster(cv0, srtv, f);
            // Recomputing placements changes no score, so the seeded
            // queue still maps the final teams to their scores.
            assert(self.runs_queue@ =~= self.contest@.teams.map_values(
                |t: TeamV| team_score(t),
            )) by {
                assert forall|k: int|
                    0 <= k < cpre.teams.len() implies team_score(#[trigger] self.contest@.teams[k])
                    == team_score(cpre.teams[k]) by {
                    assert(self.contest@.teams[k].problems == cpre.teams[k].problems);
                    assert(self.contest@.teams[k].login == cpre.teams[k].login);
                }
            }
        }
        match res {
            Ok(_) => Ok(()),
            Err(e) => Err(e),
        }
    }

    /// Pop one queue entry and reveal one hidden run of its team.
    pub fn apply_one_run_from_queue(&mut self) -> (r: Result<(), ContestError>)
        ensures
            (final(self).runs_queue@, final(self).contest@) == pop_spec(
                old(self).runs_queue@,
                old(self).contest@,
            ),
            final(self).runs == old(self).runs,
            r matches Err(e) ==> (e matches ContestError::UnknownTeam(l) && l@
                == old(self).runs_queue@[queue_pick(old(self).runs_queue@)].team_login),
            old(self).contest.wf() && queue_wf(old(self).runs_queue@, old(self).contest@) ==> r
                is Ok && final(self).contest.wf() && queue_wf(
                final(self).runs_queue@,
                final(self).contest@,
            ),
    {
        proof {
            if old(self).contest.wf() && queue_wf(old(self).runs_queue@, old(self).contest@) {
                lemma_queue_pick(old(self).runs_queue@);
                let k = queue_pick(old(self).runs_queue@);
                if k >= 0 {
                    assert(find_team_idx(
                        old(self).contest@.teams,
                        old(self).runs_queue@[k].team_login,
                    ) >= 0);
                }
            }
        }
        self.runs_queue.pop_run(&mut self.contest)
    }

    /// Pop and reveal until at most `n` queue entries remain, then
    /// recompute placements once.
    pub fn apply_runs_from_queue_n(&mut self, n: usize) -> (r: Result<(), ContestError>)
        requires
            old(self).contest.wf(),
            queue_wf(old(self).runs_queue@, old(self).contest@),
        ensures
            r is Ok,
            final(self).runs == old(self).runs,
            final(self).contest.wf(),
            queue_wf(final(self).runs_queue@, final(self).contest@),
            ({
                let fuel = (frozen_contest(old(self).contest@) + old(self).runs_queue@.len()) as nat;
                let (q2, c2) = drain_spec(old(self).runs_queue@, old(self).contest@, n as int, fuel);
                final(self).runs_queue@ == q2 && final(self).contest@ == recalc_spec(c2)
            }),
    {
        let ghost fuel0 = (frozen_contest(old(self).contest@) + old(self).runs_queue@.len()) as nat;
        let ghost mut fuel = fuel0;
        proof {
            lemma_frozen_contest_nonneg(old(self).contest@);
        }
        while self.runs_queue.len() > n
            invariant
                self.runs == old(self).runs,
                self.contest.wf(),
                queue_wf(self.runs_queue@, self.contest@),
                fuel >= frozen_contest(self.contest@) + self.runs_queue@.len(),
                drain_spec(self.runs_queue@, self.contest@, n as int, fuel) == drain_spec(
                    old(self).runs_queue@,
                    old(self).contest@,
                    n as int,
                    fuel0,
                ),
            decreases fuel,
        {
            let ghost qv = self.runs_queue@;
            let ghost cv = self.contest@;
            proof {
                lemma_frozen_contest_nonneg(cv);
                lemma_queue_pick(qv);
            }
            let res = self.runs_queue.pop_run(&mut self.contest);
            proof {
                fuel = (fuel - 1) as nat;
            }
        }
        let ghost cpre = self.contest@;
        let ghost qpre = self.runs_queue@;
        let res = self.contest.recalculate_placement_no_filter();
        proof {
            lemma_queue_wf_recalc(qpre, cpre);
            assert(drain_spec(qpre, cpre, n as int, fuel) == (qpre, cpre));
        }
        match res {
            Ok(_) => Ok(()),
            Err(_) => Ok(()),
        }
    }
}

/// Applying runs never changes a contest's metadata, only its teams.
proof fn lemma_split_unchanged_meta(cv: ContestV, rs: Seq<RunV>, f: i64)
    ensures
        contest_apply_split(cv, rs, f).score_freeze_time == cv.score_freeze_time,
        contest_apply_split(cv, rs, f).name == cv.name,
        contest_apply_split(cv, rs, f).duration_minutes == cv.duration_minutes,
    decreases rs.len(),
{
    if rs.len() > 0 {
        lemma_split_unchanged_meta(cv, rs.drop_last(), f);
    }
}

/// Recomputing placements touches no score, login, problem state or
/// hidden run, so it preserves the queue discipline.
proof fn lemma_queue_wf_recalc(qv: Seq<ScoreV>, cv: ContestV)
    requires
        queue_wf(qv, cv),
    ensures
        queue_wf(qv, recalc_spec(cv)),
{
    let cv2 = recalc_spec(cv);
    assert forall|l: Seq<char>|
        #[trigger] find_team_idx(cv2.teams, l) == find_team_idx(cv.teams, l) by {
        lemma_find_same_logins(cv2.teams, cv.teams, l);
    }
    assert forall|k: int|
        0 <= k < qv.len() implies {
        let ti = find_team_idx(cv2.teams, (#[trigger] qv[k]).team_login);
        ti >= 0 && qv[k] == team_score(cv2.teams[ti])
    } by {
        let ti = find_team_idx(cv.teams, qv[k].team_login);
        assert(ti >= 0 && qv[k] == team_score(cv.teams[ti]));
        crate::contest::lemma_find_team_idx(cv.teams, qv[k].team_login);
        assert(0 <= ti < cv.teams.len());
        assert(cv2.teams[ti].problems == cv.teams[ti].problems);
        assert(cv2.teams[ti].login == cv.teams[ti].login);
        assert(team_score(cv2.teams[ti]) == team_score(cv.teams[ti]));
    }
    assert forall|i: int|
        0 <= i < cv2.teams.len() && team_has_frozen(#[trigger] cv2.teams[i]) implies exists|k: int|
        0 <= k < qv.len() && qv[k].team_login == cv2.teams[i].login by {
        assert(cv2.teams[i].problems == cv.teams[i].problems);
        assert(team_has_frozen(cv.teams[i]));
        let k = choose|k: int| 0 <= k < qv.len() && qv[k].team_login == cv.teams[i].login;
        assert(qv[k].team_login == cv2.teams[i].login);
    }
}

/// Interactive driver of a revelation ceremony, as used by the closing
/// ceremony client: construct it over the frozen snapshot, then advance
/// step by step or in bulk.
#[derive(Debug)]
pub struct RevelationDriver {
    revelation: Revelation,
}

impl RevelationDriver {
    /// The contest as the ceremony currently shows it.
    pub closed spec fn contest_v(&self) -> ContestV {
        self.revelation.contest@
    }

    /// The pending revelation queue.
    pub closed spec fn queue_v(&self) -> Seq<ScoreV> {
        self.revelation.runs_queue@
    }

    /// The driver's internal discipline: a well-formed contest and a
    /// queue holding the live score of every unsettled team.
    pub open spec fn wf(&self) -> bool {
        &&& contest_wf(self.contest_v())
        &&& queue_wf(self.queue_v(), self.contest_v())
    }

    /// Build a driver: judge all runs before the freeze, buffer the
    /// rest, seed the queue and compute placements. Fails with
    /// `ContestError::UnknownTeam` when a run names no team.
    pub fn new(contest: ContestFile, runs: RunsFile) -> (r: Result<RevelationDriver, ContestError>)
        requires
            contest.wf(),
        ensures
            r is Ok <==> all_logins_known(runs@, contest@),
            r matches Ok(d) ==> d.wf(),
            // The run file is loaded in (time, id) order whatever order
            // it arrived in.
            r matches Ok(d) ==> exists|srt: Seq<RunV>|
                #![trigger runs_sorted_le(srt)]
                {
                    &&& runs_sorted_le(srt)
                    &&& srt.to_multiset() == runs@.to_multiset()
                    &&& d.contest_v() == recalc_spec(
                        contest_apply_split(contest@, srt, contest@.score_freeze_time),
                    )
                },
            r matches Ok(d) ==> (runs_sorted(runs@) ==> d.contest_v() == recalc_spec(
                contest_apply_split(contest@, runs@, contest@.score_freeze_time),
            )),
            // The queue holds one entry per team: its current score.
            r matches Ok(d) ==> d.queue_v() == d.contest_v().teams.map_values(
                |t: TeamV| team_score(t),
            ) && d.queue_v().len() == contest@.teams.len(),
    {
        let mut revelation = Revelation::new(contest, runs);
        match revelation.apply_all_runs_before_frozen() {
            Ok(_) => Ok(RevelationDriver { revelation }),
            Err(e) => Err(e),
        }
    }

    /// Reveal the next hidden run (of the worst-placed unsettled team)
    /// and recompute placements. A no-op on an exhausted queue.
    pub fn reveal_step(&mut self) -> (r: Result<(), ContestError>)
        requires
            old(self).wf(),
        ensures
            r is Ok,
            final(self).wf(),
            ({
                let (q2, c2) = pop_spec(old(self).queue_v(), old(self).contest_v());
                final(self).queue_v() == q2 && final(self).contest_v() == recalc_spec(c2)
            }),
    {
        let res = self.revelation.apply_one_run_from_queue();
        let ghost cpre = self.revelation.contest@;
        let ghost qpre = self.revelation.runs_queue@;
        let res2 = self.revelation.contest.recalculate_placement_no_filter();
        proof {
            lemma_queue_wf_recalc(qpre, cpre);
        }
        match res2 {
            Ok(_) => Ok(()),
            Err(_) => Ok(()),
        }
    }

    /// Login of the team whose run would be revealed next.
    pub fn peek(&self) -> (r: Option<&String>)
        ensures
            match r {
                Some(s) => self.queue_v().len() > 0 && s@
                    == self.queue_v()[queue_pick(self.queue_v())].team_login,
                None => self.queue_v().len() == 0,
            },
    {
        self.revelation.runs_queue.peek()
    }

    /// Reveal until at most `n` teams remain queued, then recompute
    /// placements once. Revealing with `n` at or above the queue
    /// length is a no-op apart from the placement recomputation.
    pub fn reveal_top_n(&mut self, n: usize) -> (r: Result<(), ContestError>)
        requires
            old(self).wf(),
        ensures
            r is Ok,
            final(self).wf(),
            ({
                let fuel = (frozen_contest(old(self).contest_v())
                    + old(self).queue_v().len()) as nat;
                let (q2, c2) = drain_spec(
                    old(self).queue_v(),
                    old(self).contest_v(),
                    n as int,
                    fuel,
                );
                final(self).queue_v() == q2 && final(self).contest_v() == recalc_spec(c2)
            }),
    {
        self.revelation.apply_runs_from_queue_n(n)
    }

    /// The contest in its current state of revelation.
    pub fn contest(&self) -> (r: &ContestFile)
        ensures
            r@ == self.contest_v(),
    {
        &self.revelation.contest
    }

    /// How many teams are still queued for revelation.
    pub fn len(&self) -> (n: usize)
        ensures
            n == self.queue_v().len(),
    {
        self.revelation.runs_queue.len()
    }

    /// Whether the ceremony is over: no team is queued any more.
    pub fn is_empty(&self) -> (r: bool)
        ensures
            r == (self.queue_v().len() == 0),
    {
        self.revelation.runs_queue.is_empty()
    }
}

/// A full drain empties the queue: with fuel covering the combined
/// hidden-run-plus-queue measure, popping down to zero queued teams
/// leaves no entry behind and keeps contest and queue well-formed.
/// Together with `lemma_empty_all_revealed` this shows that
/// `reveal_top_n(0)` reveals every hidden run.
pub proof fn lemma_drain_all(qv: Seq<ScoreV>, cv: ContestV, fuel: nat)
    requires
        contest_wf(cv),
        queue_wf(qv, cv),
        fuel >= frozen_contest(cv) + qv.len(),
    ensures
        ({
            let (q2, c2) = drain_spec(qv, cv, 0, fuel);
            &&& q2.len() == 0
            &&& contest_wf(c2)
            &&& queue_wf(q2, c2)
        }),
    decreases fuel,
{
    lemma_frozen_contest_nonneg(cv);
    if fuel == 0 || qv.len() == 0 {
    } else {
        lemma_queue_pick(qv);
        let k = queue_pick(qv);
        let ti = find_team_idx(cv.teams, qv[k].team_login);
        assert(ti >= 0 && qv[k] == team_score(cv.teams[ti]));
        lemma_find_team_idx(cv.teams, qv[k].team_login);
        lemma_pop_preserves(qv, cv, k, ti);
        let (q2, c2) = pop_spec(qv, cv);
        lemma_drain_all(q2, c2, (fuel - 1) as nat);
    }
}

/// Queue exhaustion means full revelation: when the driver's queue is
/// empty, every team's every problem has an empty hidden-run buffer.
/// (The converse does not hold: freshly constructed over a contest with
/// no hidden runs at all, the driver still queues every team once.)
pub proof fn lemma_empty_all_revealed(d: &RevelationDriver)
    requires
        d.wf(),
        d.queue_v().len() == 0,
    ensures
        forall|i: int, j: int|
            0 <= i < d.contest_v().teams.len() && 0 <= j
                < d.contest_v().teams[i].problems.len() ==> (#[trigger] d.contest_v(
            ).teams[i].problems[j]).frozen_runs.len() == 0,
{
    let cv = d.contest_v();
    assert forall|i: int, j: int|
        0 <= i < cv.teams.len() && 0 <= j < cv.teams[i].problems.len() implies (#[trigger] cv
        .teams[i].problems[j]).frozen_runs.len() == 0 by {
        if cv.teams[i].problems[j].frozen_runs.len() > 0 {
            assert(team_has_frozen(cv.teams[i]));
            let k = choose|k: int|
                0 <= k < d.queue_v().len() && d.queue_v()[k].team_login == cv.teams[i].login;
        }
    }
}

} // verus!
