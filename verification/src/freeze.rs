//! Freeze equivalence: applying a run sequence live produces the same
//! team state as splitting it at the freeze time, buffering the late
//! runs, and then revealing them all. This is the correctness contract
//! of the whole frozen-scoreboard system.

use vstd::prelude::*;

verus! {

use crate::contest::ProblemV;
use crate::contest::RunV;
use crate::contest::TeamV;
use crate::contest::empty_problem;
use crate::contest::find_problem_idx;
use crate::contest::frozen_total;
use crate::contest::lemma_find_same_letters;
use crate::contest::lemma_frozen_total_nonneg;
use crate::contest::lemma_reveal_frozen_decreases;
use crate::contest::lemma_reveal_pick;
use crate::contest::problem_add_frozen;
use crate::contest::problem_apply;
use crate::contest::reveal_pick;
use crate::contest::run_before;
use crate::contest::runs_sorted;
use crate::contest::team_apply;
use crate::contest::team_apply_frozen;
use crate::contest::team_has_frozen;
use crate::contest::team_reveal;
use crate::contest::team_reveal_all;

/// Judging a whole run sequence live, in order.
pub open spec fn team_apply_all(tv: TeamV, rs: Seq<RunV>) -> TeamV
    decreases rs.len(),
{
    if rs.len() == 0 {
        tv
    } else {
        team_apply(team_apply_all(tv, rs.drop_last()), rs.last())
    }
}

/// Loading a run sequence under a freeze time: runs before the freeze
/// are judged live, later ones are buffered as frozen.
pub open spec fn team_apply_split(tv: TeamV, rs: Seq<RunV>, f: i64) -> TeamV
    decreases rs.len(),
{
    if rs.len() == 0 {
        tv
    } else {
        let prev = team_apply_split(tv, rs.drop_last(), f);
        if rs.last().time_minutes < f {
            team_apply(prev, rs.last())
        } else {
            team_apply_frozen(prev, rs.last())
        }
    }
}

/// Every hidden run of the team comes strictly before `r`.
pub open spec fn frozen_before(tv: TeamV, r: RunV) -> bool {
    forall|i: int, j: int|
        0 <= i < tv.problems.len() && 0 <= j < (#[trigger] tv.problems[i]).frozen_runs.len()
            ==> run_before(#[trigger] tv.problems[i].frozen_runs[j], r)
}

/// Revealing commutes with buffering a run later than everything
/// hidden: the late run simply pops last, so buffering it and revealing
/// everything equals revealing everything and then judging it live.
proof fn lemma_reveal_commutes_late(tv: TeamV, r: RunV)
    requires
        frozen_before(tv, r),
    ensures
        team_reveal_all(team_apply_frozen(tv, r)) == team_apply(team_reveal_all(tv), r),
    decreases frozen_total(tv.problems),
{
    lemma_frozen_total_nonneg(tv.problems);
    let c = r.problem_letter;
    let i = find_problem_idx(tv.problems, c);
    crate::contest::lemma_find_problem_idx(tv.problems, c);
    let yv = team_apply_frozen(tv, r);
    lemma_frozen_total_nonneg(yv.problems);
    lemma_reveal_pick(tv.problems);
    lemma_reveal_pick(yv.problems);
    let kx = reveal_pick(tv.problems);
    let ky = reveal_pick(yv.problems);
    assert(team_has_frozen(yv)) by {
        if i >= 0 {
            assert(yv.problems[i].frozen_runs.len() > 0);
        } else {
            assert(yv.problems[tv.problems.len() as int].frozen_runs.len() > 0);
        }
    }
    assert(ky >= 0) by {
        if ky < 0 {
            let w = choose|w: int|
                0 <= w < yv.problems.len() && yv.problems[w].frozen_runs.len() > 0;
            assert(yv.problems[w].frozen_runs.len() == 0);
        }
    }
    if !team_has_frozen(tv) {
        // Base: the buffered run is the only hidden one. Revealing it
        // is exactly judging it live.
        assert(forall|w: int|
            0 <= w < tv.problems.len() ==> (#[trigger] tv.problems[w]).frozen_runs.len() == 0);
        assert(team_reveal_all(tv) == tv);
        let only = if i >= 0 {
            i
        } else {
            tv.problems.len() as int
        };
        assert(ky == only) by {
            if ky != only {
                assert(yv.problems[ky] == tv.problems[ky]);
            }
        }
        assert(yv.problems[only].frozen_runs[0] == r);
        let (t2, _) = team_reveal(yv);
        assert(t2 == team_apply(tv, r)) by {
            if i >= 0 {
                let base = ProblemV {
                    frozen_runs: yv.problems[only].frozen_runs.drop_first(),
                    ..yv.problems[only]
                };
                assert(base.frozen_runs =~= tv.problems[i].frozen_runs);
                assert(base == tv.problems[i]);
                assert(t2.problems =~= tv.problems.update(i, problem_apply(tv.problems[i], r)));
            } else {
                let base = ProblemV {
                    frozen_runs: yv.problems[only].frozen_runs.drop_first(),
                    ..yv.problems[only]
                };
                assert(base.frozen_runs =~= empty_problem(c).frozen_runs);
                assert(base == empty_problem(c));
                assert(t2.problems =~= tv.problems.push(problem_apply(empty_problem(c), r)));
            }
        }
        assert(!team_has_frozen(t2)) by {
            if team_has_frozen(t2) {
                let w = choose|w: int|
                    0 <= w < t2.problems.len() && t2.problems[w].frozen_runs.len() > 0;
                assert(t2 == team_apply(tv, r));
                if i >= 0 {
                    if w != i {
                        assert(t2.problems[w] == tv.problems[w]);
                    }
                } else {
                    if w < tv.problems.len() {
                        assert(t2.problems[w] == tv.problems[w]);
                    }
                }
            }
        }
        lemma_frozen_total_nonneg(t2.problems);
        assert(team_reveal_all(yv) == team_reveal_all(t2));
        assert(team_reveal_all(t2) == t2);
    } else {
        // Step: the first pop is the same with or without the late run.
        assert(kx >= 0) by {
            if kx < 0 {
                let w = choose|w: int|
                    0 <= w < tv.problems.len() && tv.problems[w].frozen_runs.len() > 0;
                assert(tv.problems[w].frozen_runs.len() == 0);
            }
        }
        let hx = tv.problems[kx].frozen_runs[0];
        // Heads agree except possibly at the run's own problem, where a
        // previously empty buffer now heads with `r`.
        assert(yv.problems[kx].frozen_runs.len() > 0 && yv.problems[kx].frozen_runs[0] == hx) by {
            if i == kx {
                assert(yv.problems[kx].frozen_runs =~= tv.problems[kx].frozen_runs.push(r));
            } else {
                assert(yv.problems[kx] == tv.problems[kx]);
            }
        }
        assert(run_before(hx, r));
        assert(ky == kx) by {
            // kx is minimal-first among heads of yv as well.
            assert forall|j: int|
                0 <= j < yv.problems.len() && (#[trigger] yv.problems[j]).frozen_runs.len() > 0
                    implies !run_before(yv.problems[j].frozen_runs[0], hx) by {
                if j < tv.problems.len() && (i != j || tv.problems[j].frozen_runs.len() > 0) {
                    if i == j {
                        assert(yv.problems[j].frozen_runs =~= tv.problems[j].frozen_runs.push(r));
                        assert(yv.problems[j].frozen_runs[0] == tv.problems[j].frozen_runs[0]);
                    } else {
                        assert(yv.problems[j] == tv.problems[j]);
                    }
                    assert(!run_before(tv.problems[j].frozen_runs[0], hx));
                } else {
                    assert(yv.problems[j].frozen_runs[0] == r);
                }
            }
            assert forall|j: int|
                0 <= j < kx && (#[trigger] yv.problems[j]).frozen_runs.len() > 0
                    implies run_before(hx, yv.problems[j].frozen_runs[0]) by {
                if i == j && tv.problems[j].frozen_runs.len() == 0 {
                    assert(yv.problems[j].frozen_runs[0] == r);
                } else {
                    if i == j {
                        assert(yv.problems[j].frozen_runs =~= tv.problems[j].frozen_runs.push(r));
                        assert(yv.problems[j].frozen_runs[0] == tv.problems[j].frozen_runs[0]);
                    } else {
                        assert(yv.problems[j] == tv.problems[j]);
                    }
                    assert(run_before(hx, tv.problems[j].frozen_runs[0]));
                }
            }
            if ky < kx {
                assert(run_before(hx, yv.problems[ky].frozen_runs[0]));
                assert(!run_before(hx, yv.problems[ky].frozen_runs[0]));
            }
            if kx < ky {
                assert(run_before(yv.problems[ky].frozen_runs[0], yv.problems[kx].frozen_runs[0]));
                assert(!run_before(yv.problems[ky].frozen_runs[0], hx));
            }
        }
        let (x2, _) = team_reveal(tv);
        let (y2, _) = team_reveal(yv);
        // Popping the shared head commutes with buffering `r`.
        assert(y2 == team_apply_frozen(x2, r)) by {
            let basex = ProblemV {
                frozen_runs: tv.problems[kx].frozen_runs.drop_first(),
                ..tv.problems[kx]
            };
            let qx = problem_apply(basex, hx);
            assert(x2.problems == tv.problems.update(kx, qx));
            let basey = ProblemV {
                frozen_runs: yv.problems[kx].frozen_runs.drop_first(),
                ..yv.problems[kx]
            };
            let qy = problem_apply(basey, hx);
            assert(y2.problems == yv.problems.update(kx, qy));
            assert(x2.problems.len() == tv.problems.len());
            assert(find_problem_idx(x2.problems, c) == i) by {
                assert forall|w: int|
                    0 <= w < tv.problems.len() implies (#[trigger] x2.problems[w]).letter
                    == tv.problems[w].letter by {}
                lemma_find_same_letters(x2.problems, tv.problems, c);
            }
            if i >= 0 {
                if i != kx {
                    assert(basey == basex);
                    assert(y2.problems =~= x2.problems.update(
                        i,
                        problem_add_frozen(x2.problems[i], r),
                    ));
                } else {
                    assert(tv.problems[kx].frozen_runs.len() > 0);
                    assert(basey.frozen_runs =~= basex.frozen_runs.push(r));
                    assert(qy == ProblemV { frozen_runs: qx.frozen_runs.push(r), ..qx });
                    assert(y2.problems =~= x2.problems.update(
                        i,
                        problem_add_frozen(x2.problems[i], r),
                    ));
                }
            } else {
                assert(basey == basex);
                assert(y2.problems =~= x2.problems.push(problem_add_frozen(empty_problem(c), r)));
            }
        }
        assert(frozen_before(x2, r)) by {
            let basex = ProblemV {
                frozen_runs: tv.problems[kx].frozen_runs.drop_first(),
                ..tv.problems[kx]
            };
            assert forall|w: int, j: int|
                0 <= w < x2.problems.len() && 0 <= j < (#[trigger] x2.problems[w]).frozen_runs.len()
                    implies run_before(#[trigger] x2.problems[w].frozen_runs[j], r) by {
                if w != kx {
                    assert(x2.problems[w] == tv.problems[w]);
                    assert(run_before(tv.problems[w].frozen_runs[j], r));
                } else {
                    assert(x2.problems[w].frozen_runs == basex.frozen_runs);
                    assert(basex.frozen_runs[j] == tv.problems[kx].frozen_runs[j + 1]);
                    assert(run_before(tv.problems[kx].frozen_runs[j + 1], r));
                }
            }
        }
        lemma_reveal_frozen_decreases(tv);
        lemma_reveal_frozen_decreases(yv);
        lemma_frozen_total_nonneg(x2.problems);
        lemma_frozen_total_nonneg(y2.problems);
        lemma_reveal_commutes_late(x2, r);
        assert(team_has_frozen(yv));
        assert(team_reveal(yv).0 == y2);
        assert(team_reveal_all(yv) == team_reveal_all(team_reveal(yv).0));
        assert(team_reveal_all(yv) == team_reveal_all(y2));
        assert(team_reveal_all(tv) == team_reveal_all(x2));
    }
}

/// With every run before the freeze, the split application is just the
/// live application, and no run is ever buffered.
proof fn lemma_split_all_live(tv: TeamV, rs: Seq<RunV>, f: i64)
    requires
        forall|k: int| 0 <= k < rs.len() ==> (#[trigger] rs[k]).time_minutes < f,
    ensures
        team_apply_split(tv, rs, f) == team_apply_all(tv, rs),
    decreases rs.len(),
{
    if rs.len() > 0 {
        assert(rs[rs.len() - 1].time_minutes < f);
        assert forall|k: int| 0 <= k < rs.len() - 1 implies (#[trigger] rs.drop_last()[k])
            .time_minutes < f by {
            assert(rs.drop_last()[k] == rs[k]);
        }
        lemma_split_all_live(tv, rs.drop_last(), f);
    }
}

/// Live application never buffers a run: a team with no hidden runs
/// stays that way.
proof fn lemma_apply_all_no_frozen(tv: TeamV, rs: Seq<RunV>)
    requires
        !team_has_frozen(tv),
    ensures
        !team_has_frozen(team_apply_all(tv, rs)),
    decreases rs.len(),
{
    if rs.len() > 0 {
        lemma_apply_all_no_frozen(tv, rs.drop_last());
        let prev = team_apply_all(tv, rs.drop_last());
        let r = rs.last();
        let nxt = team_apply(prev, r);
        let i = find_problem_idx(prev.problems, r.problem_letter);
        if team_has_frozen(nxt) {
            let w = choose|w: int|
                0 <= w < nxt.problems.len() && nxt.problems[w].frozen_runs.len() > 0;
            if i >= 0 {
                crate::contest::lemma_find_problem_idx(prev.problems, r.problem_letter);
                if w != i {
                    assert(nxt.problems[w] == prev.problems[w]);
                } else {
                    assert(nxt.problems[w].frozen_runs == prev.problems[i].frozen_runs);
                }
                assert(prev.problems[w].frozen_runs.len() > 0);
            } else {
                if w < prev.problems.len() {
                    assert(nxt.problems[w] == prev.problems[w]);
                    assert(prev.problems[w].frozen_runs.len() > 0);
                } else {
                    assert(nxt.problems[w].frozen_runs.len() == 0);
                }
            }
        }
    }
}

/// Every hidden run buffered by a split application is one of the
/// sequence's own runs.
proof fn lemma_split_frozen_members(tv: TeamV, rs: Seq<RunV>, f: i64)
    requires
        !team_has_frozen(tv),
    ensures
        ({
            let s = team_apply_split(tv, rs, f);
            forall|w: int, j: int|
                0 <= w < s.problems.len() && 0 <= j < (#[trigger] s.problems[w]).frozen_runs.len()
                    ==> exists|k: int|
                    0 <= k < rs.len() && #[trigger] s.problems[w].frozen_runs[j] == rs[k]
        }),
    decreases rs.len(),
{
    let s = team_apply_split(tv, rs, f);
    if rs.len() == 0 {
        assert forall|w: int, j: int|
            0 <= w < s.problems.len() && 0 <= j
                < (#[trigger] s.problems[w]).frozen_runs.len() implies exists|k: int|
            0 <= k < rs.len() && #[trigger] s.problems[w].frozen_runs[j] == rs[k] by {
            assert(s.problems[w].frozen_runs.len() == 0);
        }
    } else {
        lemma_split_frozen_members(tv, rs.drop_last(), f);
        let prev = team_apply_split(tv, rs.drop_last(), f);
        let r = rs.last();
        let i = find_problem_idx(prev.problems, r.problem_letter);
        crate::contest::lemma_find_problem_idx(prev.problems, r.problem_letter);
        assert forall|w: int, j: int|
            0 <= w < s.problems.len() && 0 <= j
                < (#[trigger] s.problems[w]).frozen_runs.len() implies exists|k: int|
            0 <= k < rs.len() && #[trigger] s.problems[w].frozen_runs[j] == rs[k] by {
            let inprev = if w < prev.problems.len() && 0 <= j < prev.problems[w].frozen_runs.len()
                && s.problems[w].frozen_runs[j] == prev.problems[w].frozen_runs[j] {
                true
            } else {
                false
            };
            if inprev {
                assert(exists|k: int|
                    0 <= k < rs.drop_last().len() && #[trigger] prev.problems[w].frozen_runs[j]
                        == rs.drop_last()[k]);
                let k = choose|k: int|
                    0 <= k < rs.drop_last().len() && prev.problems[w].frozen_runs[j]
                        == rs.drop_last()[k];
                assert(rs.drop_last()[k] == rs[k]);
                assert(s.problems[w].frozen_runs[j] == rs[k]);
            } else {
                // The run must be the newly handled one.
                if r.time_minutes < f {
                    if i >= 0 {
                        if w == i {
                            assert(s.problems[w].frozen_runs == prev.problems[w].frozen_runs);
                        } else {
                            assert(s.problems[w] == prev.problems[w]);
                        }
                        assert(false);
                    } else {
                        if w < prev.problems.len() {
                            assert(s.problems[w] == prev.problems[w]);
                            assert(false);
                        } else {
                            assert(s.problems[w].frozen_runs.len() == 0);
                            assert(false);
                        }
                    }
                } else {
                    if i >= 0 {
                        if w == i {
                            assert(s.problems[w].frozen_runs == prev.problems[w].frozen_runs.push(
                                r,
                            ));
                            if j < prev.problems[w].frozen_runs.len() {
                                assert(s.problems[w].frozen_runs[j]
                                    == prev.problems[w].frozen_runs[j]);
                                assert(false);
                            } else {
                                assert(s.problems[w].frozen_runs[j] == r);
                                assert(r == rs[rs.len() - 1]);
                            }
                        } else {
                            assert(s.problems[w] == prev.problems[w]);
                            assert(false);
                        }
                    } else {
                        if w < prev.problems.len() {
                            assert(s.problems[w] == prev.problems[w]);
                            assert(false);
                        } else {
                            assert(s.problems[w].frozen_runs =~= Seq::<RunV>::empty().push(r));
                            assert(s.problems[w].frozen_runs[j] == r);
                            assert(r == rs[rs.len() - 1]);
                        }
                    }
                }
            }
        }
    }
}

/// Freeze equivalence: for a team with no hidden runs and a run
/// sequence in submission order, judging everything live gives exactly
/// the state reached by splitting at any freeze time, buffering the
/// late runs, and revealing them all.
pub proof fn lemma_freeze_equivalence(tv: TeamV, rs: Seq<RunV>, f: i64)
    requires
        !team_has_frozen(tv),
        runs_sorted(rs),
    ensures
        team_reveal_all(team_apply_split(tv, rs, f)) == team_apply_all(tv, rs),
    decreases rs.len(),
{
    if rs.len() == 0 {
        lemma_frozen_total_nonneg(tv.problems);
        assert(team_reveal_all(tv) == tv);
    } else {
        let r = rs.last();
        let init = rs.drop_last();
        assert(runs_sorted(init)) by {
            assert forall|a: int, b: int| 0 <= a < b < init.len() implies run_before(
                init[a],
                init[b],
            ) by {
                assert(init[a] == rs[a] && init[b] == rs[b]);
            }
        }
        if r.time_minutes < f {
            // Everything lies before the freeze: nothing is buffered.
            assert forall|k: int| 0 <= k < rs.len() implies (#[trigger] rs[k]).time_minutes
                < f by {
                if k < rs.len() - 1 {
                    assert(run_before(rs[k], rs[rs.len() - 1]));
                }
            }
            lemma_split_all_live(tv, rs, f);
            lemma_apply_all_no_frozen(tv, rs);
            let s = team_apply_all(tv, rs);
            lemma_frozen_total_nonneg(s.problems);
            assert(team_reveal_all(s) == s);
        } else {
            lemma_freeze_equivalence(tv, init, f);
            let prev = team_apply_split(tv, init, f);
            assert(team_apply_split(tv, rs, f) == team_apply_frozen(prev, r));
            assert(frozen_before(prev, r)) by {
                lemma_split_frozen_members(tv, init, f);
                assert forall|w: int, j: int|
                    0 <= w < prev.problems.len() && 0 <= j < (#[trigger] prev.problems[w])
                        .frozen_runs.len() implies run_before(
                    #[trigger] prev.problems[w].frozen_runs[j],
                    r,
                ) by {
                    let k = choose|k: int|
                        0 <= k < init.len() && prev.problems[w].frozen_runs[j] == init[k];
                    assert(init[k] == rs[k]);
                    assert(run_before(rs[k], rs[rs.len() - 1]));
                }
            }
            lemma_reveal_commutes_late(prev, r);
        }
    }
}

} // verus!
