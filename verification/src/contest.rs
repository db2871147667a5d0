//! Domain model: verdicts, runs, per-team problem state, teams, scores,
//! contest files, run files and timer data, together with the scoring
//! arithmetic and the frozen/unfrozen projection of a team's state.

use vstd::prelude::*;

verus! {

use vstd::multiset::Multiset;

/// Outcome of judging one run. `Pending` stands for a verdict that is
/// still hidden behind the scoreboard freeze.
#[derive(Clone, Debug, PartialEq, Eq)]
pub enum Verdict {
    Accepted,
    Rejected(String),
    Pending,
}

pub ghost enum VerdictV {
    Accepted,
    Rejected(Seq<char>),
    Pending,
}

impl View for Verdict {
    type V = VerdictV;

    open spec fn view(&self) -> VerdictV {
        match self {
            Verdict::Accepted => VerdictV::Accepted,
            Verdict::Rejected(r) => VerdictV::Rejected(r@),
            Verdict::Pending => VerdictV::Pending,
        }
    }
}

impl Verdict {
    /// Structural copy with a fully specified view.
    pub fn duplicate(&self) -> (r: Verdict)
        ensures
            r@ == self@,
    {
        match self {
            Verdict::Accepted => Verdict::Accepted,
            Verdict::Rejected(s) => Verdict::Rejected(s.clone()),
            Verdict::Pending => Verdict::Pending,
        }
    }
}

/// One submission, uniquely identified by `id`.
#[derive(Clone, Debug, PartialEq, Eq)]
pub struct Run {
    pub id: u64,
    pub team_login: String,
    pub problem_letter: char,
    pub time_minutes: i64,
    pub verdict: Verdict,
}

pub ghost struct RunV {
    pub id: u64,
    pub team_login: Seq<char>,
    pub problem_letter: char,
    pub time_minutes: i64,
    pub verdict: VerdictV,
}

impl View for Run {
    type V = RunV;

    open spec fn view(&self) -> RunV {
        RunV {
            id: self.id,
            team_login: self.team_login@,
            problem_letter: self.problem_letter,
            time_minutes: self.time_minutes,
            verdict: self.verdict@,
        }
    }
}

/// Strict submission order: earlier time first, ties broken by id.
pub open spec fn run_before(a: RunV, b: RunV) -> bool {
    a.time_minutes < b.time_minutes || (a.time_minutes == b.time_minutes && a.id < b.id)
}

/// A sequence of runs in strictly ascending `(time, id)` order.
pub open spec fn runs_sorted(s: Seq<RunV>) -> bool {
    forall|i: int, j: int| 0 <= i < j < s.len() ==> run_before(s[i], s[j])
}

impl Run {
    pub fn duplicate(&self) -> (r: Run)
        ensures
            r@ == self@,
    {
        Run {
            id: self.id,
            team_login: self.team_login.clone(),
            problem_letter: self.problem_letter,
            time_minutes: self.time_minutes,
            verdict: self.verdict.duplicate(),
        }
    }

    /// Whether `self` was submitted strictly before `other`.
    pub fn before(&self, other: &Run) -> (r: bool)
        ensures
            r == run_before(self@, other@),
    {
        self.time_minutes < other.time_minutes
            || (self.time_minutes == other.time_minutes && self.id < other.id)
    }
}

/// State of one problem for one team. The letter identifies the problem;
/// `frozen_runs` buffers submissions whose verdict is still hidden.
#[derive(Clone, Debug, PartialEq, Eq)]
pub struct Problem {
    pub letter: char,
    pub attempts_before_accept: u32,
    pub accepted_time: Option<i64>,
    pub frozen_runs: Vec<Run>,
}

pub ghost struct ProblemV {
    pub letter: char,
    pub attempts_before_accept: u32,
    pub accepted_time: Option<i64>,
    pub frozen_runs: Seq<RunV>,
}

impl View for Problem {
    type V = ProblemV;

    open spec fn view(&self) -> ProblemV {
        ProblemV {
            letter: self.letter,
            attempts_before_accept: self.attempts_before_accept,
            accepted_time: self.accepted_time,
            frozen_runs: self.frozen_runs@.map_values(|r: Run| r@),
        }
    }
}

/// A fresh, untouched problem state.
pub open spec fn empty_problem(letter: char) -> ProblemV {
    ProblemV { letter, attempts_before_accept: 0, accepted_time: None, frozen_runs: Seq::empty() }
}

/// Effect of judging one run on a problem state. An accepted run fixes
/// `accepted_time` once and for all; a rejected run before the accept
/// counts as one more penalized attempt; anything after the accept, and
/// any pending verdict, changes nothing. The attempt counter saturates
/// instead of overflowing.
pub open spec fn problem_apply(p: ProblemV, r: RunV) -> ProblemV {
    match r.verdict {
        VerdictV::Accepted => {
            if p.accepted_time is None {
                ProblemV { accepted_time: Some(r.time_minutes), ..p }
            } else {
                p
            }
        },
        VerdictV::Rejected(_) => {
            if p.accepted_time is None {
                ProblemV {
                    attempts_before_accept: if p.attempts_before_accept == u32::MAX {
                        u32::MAX
                    } else {
                        (p.attempts_before_accept + 1) as u32
                    },
                    ..p
                }
            } else {
                p
            }
        },
        VerdictV::Pending => p,
    }
}

/// Whether judging `r` visibly changes the problem state.
pub open spec fn problem_apply_changes(p: ProblemV, r: RunV) -> bool {
    match r.verdict {
        VerdictV::Accepted => p.accepted_time is None,
        VerdictV::Rejected(_) => p.accepted_time is None,
        VerdictV::Pending => false,
    }
}

/// Effect of buffering one frozen run on a problem state.
pub open spec fn problem_add_frozen(p: ProblemV, r: RunV) -> ProblemV {
    ProblemV { frozen_runs: p.frozen_runs.push(r), ..p }
}

/// Judging a whole sequence of runs, in order.
pub open spec fn problem_apply_seq(p: ProblemV, rs: Seq<RunV>) -> ProblemV
    decreases rs.len(),
{
    if rs.len() == 0 {
        p
    } else {
        problem_apply(problem_apply_seq(p, rs.drop_last()), rs.last())
    }
}

/// One competing team: identity, per-problem state and current placement.
#[derive(Clone, Debug, PartialEq, Eq)]
pub struct Team {
    pub login: String,
    pub display_name: String,
    pub site_code: String,
    pub placement: u32,
    pub problems: Vec<Problem>,
}

pub ghost struct TeamV {
    pub login: Seq<char>,
    pub display_name: Seq<char>,
    pub site_code: Seq<char>,
    pub placement: u32,
    pub problems: Seq<ProblemV>,
}

impl View for Team {
    type V = TeamV;

    open spec fn view(&self) -> TeamV {
        TeamV {
            login: self.login@,
            display_name: self.display_name@,
            site_code: self.site_code@,
            placement: self.placement,
            problems: self.problems@.map_values(|p: Problem| p@),
        }
    }
}

/// Each problem letter occurs at most once in a team's state.
pub open spec fn team_wf(tv: TeamV) -> bool {
    forall|i: int, j: int|
        0 <= i < j < tv.problems.len() ==> tv.problems[i].letter != tv.problems[j].letter
}

/// Index of the problem with the given letter, or -1 if the team has not
/// touched it yet.
pub open spec fn find_problem_idx(ps: Seq<ProblemV>, c: char) -> int
    decreases ps.len(),
{
    if ps.len() == 0 {
        -1
    } else if ps[0].letter == c {
        0
    } else {
        let k = find_problem_idx(ps.drop_first(), c);
        if k < 0 {
            -1
        } else {
            k + 1
        }
    }
}

pub proof fn lemma_find_problem_idx(ps: Seq<ProblemV>, c: char)
    ensures
        find_problem_idx(ps, c) < 0 ==> forall|j: int| 0 <= j < ps.len() ==> ps[j].letter != c,
        find_problem_idx(ps, c) >= 0 ==> {
            let k = find_problem_idx(ps, c);
            &&& 0 <= k < ps.len()
            &&& ps[k].letter == c
            &&& forall|j: int| 0 <= j < k ==> ps[j].letter != c
        },
    decreases ps.len(),
{
    if ps.len() > 0 && ps[0].letter != c {
        lemma_find_problem_idx(ps.drop_first(), c);
        assert forall|j: int| 1 <= j < ps.len() implies ps.drop_first()[j - 1] == ps[j] by {}
    }
}

/// Effect of judging one run on a team: the problem named by the run is
/// updated in place, or created first if the team had not touched it.
pub open spec fn team_apply(tv: TeamV, r: RunV) -> TeamV {
    let i = find_problem_idx(tv.problems, r.problem_letter);
    if i >= 0 {
        TeamV { problems: tv.problems.update(i, problem_apply(tv.problems[i], r)), ..tv }
    } else {
        TeamV {
            problems: tv.problems.push(problem_apply(empty_problem(r.problem_letter), r)),
            ..tv
        }
    }
}

/// Whether judging `r` visibly changes the team state.
pub open spec fn team_apply_changes(tv: TeamV, r: RunV) -> bool {
    let i = find_problem_idx(tv.problems, r.problem_letter);
    if i >= 0 {
        problem_apply_changes(tv.problems[i], r)
    } else {
        problem_apply_changes(empty_problem(r.problem_letter), r)
    }
}

/// Effect of buffering one frozen run for the problem it names.
pub open spec fn team_apply_frozen(tv: TeamV, r: RunV) -> TeamV {
    let i = find_problem_idx(tv.problems, r.problem_letter);
    if i >= 0 {
        TeamV { problems: tv.problems.update(i, problem_add_frozen(tv.problems[i], r)), ..tv }
    } else {
        TeamV {
            problems: tv.problems.push(problem_add_frozen(empty_problem(r.problem_letter), r)),
            ..tv
        }
    }
}

/// Whether any problem of the team still holds a hidden run.
pub open spec fn team_has_frozen(tv: TeamV) -> bool {
    exists|i: int| 0 <= i < tv.problems.len() && tv.problems[i].frozen_runs.len() > 0
}

/// Index of the problem whose earliest frozen run comes first in
/// `(time, id)` order, preferring the lowest index on ties; -1 if no
/// problem holds a frozen run.
pub open spec fn reveal_pick(ps: Seq<ProblemV>) -> int
    decreases ps.len(),
{
    if ps.len() == 0 {
        -1
    } else {
        let rest = reveal_pick(ps.drop_first());
        if ps[0].frozen_runs.len() == 0 {
            if rest < 0 {
                -1
            } else {
                rest + 1
            }
        } else if rest < 0 {
            0
        } else if run_before(ps.drop_first()[rest].frozen_runs[0], ps[0].frozen_runs[0]) {
            rest + 1
        } else {
            0
        }
    }
}

pub proof fn lemma_reveal_pick(ps: Seq<ProblemV>)
    ensures
        reveal_pick(ps) < 0 ==> forall|j: int| 0 <= j < ps.len() ==> ps[j].frozen_runs.len() == 0,
        reveal_pick(ps) >= 0 ==> {
            let k = reveal_pick(ps);
            &&& 0 <= k < ps.len()
            &&& ps[k].frozen_runs.len() > 0
            &&& forall|j: int|
                0 <= j < ps.len() && ps[j].frozen_runs.len() > 0 ==> !run_before(
                    ps[j].frozen_runs[0],
                    ps[k].frozen_runs[0],
                )
            &&& forall|j: int|
                0 <= j < k && ps[j].frozen_runs.len() > 0 ==> run_before(
                    ps[k].frozen_runs[0],
                    ps[j].frozen_runs[0],
                )
        },
    decreases ps.len(),
{
    if ps.len() > 0 {
        lemma_reveal_pick(ps.drop_first());
        assert forall|j: int| 1 <= j < ps.len() implies ps.drop_first()[j - 1] == ps[j] by {}
    }
}

/// One revelation step for a team: the earliest hidden run (over all of
/// the team's problems) is removed from its buffer and judged. The flag
/// tells whether hidden runs remain afterwards.
pub open spec fn team_reveal(tv: TeamV) -> (TeamV, bool) {
    let i = reveal_pick(tv.problems);
    if i < 0 {
        (tv, false)
    } else {
        let p = tv.problems[i];
        let p2 = problem_apply(
            ProblemV { frozen_runs: p.frozen_runs.drop_first(), ..p },
            p.frozen_runs[0],
        );
        let tv2 = TeamV { problems: tv.problems.update(i, p2), ..tv };
        (tv2, team_has_frozen(tv2))
    }
}

impl Team {
    pub open spec fn wf(&self) -> bool {
        team_wf(self@)
    }

    /// A team with the given identity and no judged or hidden runs.
    pub fn empty(login: String, display_name: String, site_code: String) -> (t: Team)
        ensures
            t@ == (TeamV {
                login: login@,
                display_name: display_name@,
                site_code: site_code@,
                placement: 0,
                problems: Seq::empty(),
            }),
            t.wf(),
    {
        let t = Team { login, display_name, site_code, placement: 0, problems: Vec::new() };
        proof {
            assert(t@.problems =~= Seq::<ProblemV>::empty());
        }
        t
    }

    /// Index of this team's state for the given problem letter, if any.
    fn find_problem(&self, c: char) -> (r: Option<usize>)
        ensures
            match r {
                Some(i) => i < self.problems.len() && find_problem_idx(self@.problems, c) == i,
                None => find_problem_idx(self@.problems, c) < 0,
            },
    {
        let ghost psv = self@.problems;
        proof {
            lemma_find_problem_idx(psv, c);
        }
        let n = self.problems.len();
        let mut i: usize = 0;
        while i < n
            invariant
                n == self.problems.len(),
                psv == self@.problems,
                i <= n,
                forall|j: int| 0 <= j < i ==> psv[j].letter != c,
            decreases n - i,
        {
            if self.problems[i].letter == c {
                proof {
                    assert(psv[i as int].letter == c);
                    lemma_find_problem_idx(psv, c);
                    let k = find_problem_idx(psv, c);
                    if k < 0 {
                        assert(psv[i as int].letter != c);
                    } else if k < i {
                        assert(psv[k].letter != c);
                    } else if i < k {
                        assert(psv[i as int].letter != c);
                    }
                }
                return Some(i);
            }
            i = i + 1;
        }
        None
    }

    /// Judge one run against this team, as on the live scoreboard.
    /// Returns whether the team's state visibly changed.
    pub fn apply_run(&mut self, run: &Run) -> (changed: bool)
        ensures
            final(self)@ == team_apply(old(self)@, run@),
            changed == team_apply_changes(old(self)@, run@),
            old(self).wf() ==> final(self).wf(),
    {
        proof {
            lemma_find_problem_idx(old(self)@.problems, run@.problem_letter);
        }
        let c = run.problem_letter;
        match self.find_problem(c) {
            Some(i) => {
                let ghost oldps = self@.problems;
                let pr = &mut self.problems[i];
                let changed = apply_verdict(pr, run);
                proof {
                    assert(final(self)@.problems =~= oldps.update(
                        i as int,
                        problem_apply(oldps[i as int], run@),
                    ));
                }
                changed
            },
            None => {
                let ghost oldps = self@.problems;
                let mut np = Problem {
                    letter: c,
                    attempts_before_accept: 0,
                    accepted_time: None,
                    frozen_runs: Vec::new(),
                };
                proof {
                    assert(np@.frozen_runs =~= Seq::<RunV>::empty());
                    assert(np@ == empty_problem(c));
                }
                let changed = apply_verdict(&mut np, run);
                self.problems.push(np);
                proof {
                    assert(final(self)@.problems =~= oldps.push(
                        problem_apply(empty_problem(c), run@),
                    ));
                }
                changed
            },
        }
    }

    /// Buffer one run whose verdict is hidden by the freeze. The run is
    /// stored; attempts and accepted time stay untouched.
    pub fn apply_run_frozen(&mut self, run: &Run)
        ensures
            final(self)@ == team_apply_frozen(old(self)@, run@),
            old(self).wf() ==> final(self).wf(),
    {
        proof {
            lemma_find_problem_idx(old(self)@.problems, run@.problem_letter);
        }
        let c = run.problem_letter;
        match self.find_problem(c) {
            Some(i) => {
                let ghost oldps = self@.problems;
                let pr = &mut self.problems[i];
                let ghost oldp = *pr;
                pr.frozen_runs.push(run.duplicate());
                proof {
                    assert(pr@.frozen_runs =~= oldp@.frozen_runs.push(run@));
                    assert(final(self)@.problems =~= oldps.update(
                        i as int,
                        problem_add_frozen(oldps[i as int], run@),
                    ));
                }
            },
            None => {
                let ghost oldps = self@.problems;
                let mut np = Problem {
                    letter: c,
                    attempts_before_accept: 0,
                    accepted_time: None,
                    frozen_runs: Vec::new(),
                };
                np.frozen_runs.push(run.duplicate());
                self.problems.push(np);
                proof {
                    assert(np@.frozen_runs =~= empty_problem(c).frozen_runs.push(run@));
                    assert(np@ == problem_add_frozen(empty_problem(c), run@));
                    assert(final(self)@.problems =~= oldps.push(
                        problem_add_frozen(empty_problem(c), run@),
                    ));
                }
            },
        }
    }

    /// Whether any of this team's problems still holds a hidden run.
    pub fn wait(&self) -> (r: bool)
        ensures
            r == team_has_frozen(self@),
    {
        let ghost psv = self@.problems;
        let n = self.problems.len();
        let mut i: usize = 0;
        while i < n
            invariant
                n == self.problems.len(),
                psv == self@.problems,
                i <= n,
                forall|j: int| 0 <= j < i ==> psv[j].frozen_runs.len() == 0,
            decreases n - i,
        {
            if self.problems[i].frozen_runs.len() > 0 {
                assert(psv[i as int].frozen_runs.len() > 0);
                return true;
            }
            i = i + 1;
        }
        false
    }

    /// Reveal the earliest hidden run of this team (over all problems)
    /// and judge it. Returns true if hidden runs remain.
    pub fn reveal_run_frozen(&mut self) -> (more: bool)
        ensures
            (final(self)@, more) == team_reveal(old(self)@),
            old(self).wf() ==> final(self).wf(),
    {
        proof {
            lemma_reveal_pick(old(self)@.problems);
        }
        let ghost psv = self@.problems;
        let n = self.problems.len();
        let mut best: usize = 0;
        let mut found = false;
        let mut i: usize = 0;
        while i < n
            invariant
                n == self.problems.len(),
                psv == self@.problems,
                i <= n,
                !found ==> forall|j: int| 0 <= j < i ==> psv[j].frozen_runs.len() == 0,
                found ==> {
                    &&& best < i
                    &&& psv[best as int].frozen_runs.len() > 0
                    &&& forall|j: int|
                        0 <= j < i && psv[j].frozen_runs.len() > 0 ==> !run_before(
                            psv[j].frozen_runs[0],
                            psv[best as int].frozen_runs[0],
                        )
                    &&& forall|j: int|
                        0 <= j < best && psv[j].frozen_runs.len() > 0 ==> run_before(
                            psv[best as int].frozen_runs[0],
                            psv[j].frozen_runs[0],
                        )
                },
            decreases n - i,
        {
            if self.problems[i].frozen_runs.len() > 0 {
                if !found {
                    best = i;
                    found = true;
                } else {
                    let cand = &self.problems[i].frozen_runs[0];
                    let cur = &self.problems[best].frozen_runs[0];
                    if cand.before(cur) {
                        best = i;
                    }
                }
            }
            i = i + 1;
        }
        if !found {
            assert(reveal_pick(psv) < 0) by {
                lemma_reveal_pick(psv);
                if reveal_pick(psv) >= 0 {
                    assert(psv[reveal_pick(psv)].frozen_runs.len() > 0);
                }
            }
            return false;
        }
        proof {
            let k = reveal_pick(psv);
            assert(k >= 0) by {
                if k < 0 {
                    assert(psv[best as int].frozen_runs.len() == 0);
                }
            }
            // Both `best` and `k` are minimal and first among minimal
            // heads, hence equal.
            if k < best {
                assert(run_before(psv[best as int].frozen_runs[0], psv[k].frozen_runs[0]));
                assert(!run_before(psv[best as int].frozen_runs[0], psv[k].frozen_runs[0]));
            }
            if best < k {
                assert(run_before(psv[k].frozen_runs[0], psv[best as int].frozen_runs[0]));
                assert(!run_before(psv[k].frozen_runs[0], psv[best as int].frozen_runs[0]));
            }
            assert(k == best);
        }
        let pr = &mut self.problems[best];
        let ghost oldp = *pr;
        let run = pr.frozen_runs.remove(0);
        proof {
            assert(run@ == oldp@.frozen_runs[0]);
            assert(pr@.frozen_runs =~= oldp@.frozen_runs.drop_first());
        }
        apply_verdict(pr, &run);
        proof {
            let p2 = problem_apply(
                ProblemV { frozen_runs: oldp@.frozen_runs.drop_first(), ..oldp@ },
                oldp@.frozen_runs[0],
            );
            assert(final(self)@.problems =~= psv.update(best as int, p2));
        }
        self.wait()
    }
}

/// Saturating signed 64-bit addition, as a mathematical function.
pub open spec fn sat_add_i64(a: int, b: int) -> i64 {
    if a + b > i64::MAX {
        i64::MAX
    } else if a + b < i64::MIN {
        i64::MIN
    } else {
        (a + b) as i64
    }
}

/// Saturating signed 64-bit addition.
pub fn sat_add(a: i64, b: i64) -> (r: i64)
    ensures
        r == sat_add_i64(a as int, b as int),
{
    if b >= 0 {
        if a > i64::MAX - b {
            i64::MAX
        } else {
            a + b
        }
    } else {
        if a < i64::MIN - b {
            i64::MIN
        } else {
            a + b
        }
    }
}

/// Penalty contributed by one problem: the accept time plus 20 minutes
/// for each prior rejected attempt; nothing while unsolved.
pub open spec fn problem_penalty(p: ProblemV) -> i64 {
    match p.accepted_time {
        Some(t) => sat_add_i64(t as int, 20 * (p.attempts_before_accept as int)),
        None => 0,
    }
}

/// Number of solved problems in a problem sequence.
pub open spec fn solved_of(ps: Seq<ProblemV>) -> int
    decreases ps.len(),
{
    if ps.len() == 0 {
        0
    } else {
        solved_of(ps.drop_last()) + if ps.last().accepted_time is Some {
            1int
        } else {
            0int
        }
    }
}

/// Total penalty of a problem sequence.
pub open spec fn penalty_of(ps: Seq<ProblemV>) -> i64
    decreases ps.len(),
{
    if ps.len() == 0 {
        0
    } else {
        sat_add_i64(penalty_of(ps.drop_last()) as int, problem_penalty(ps.last()) as int)
    }
}

/// Priority key of a team on the scoreboard and in the revelation queue.
#[derive(Clone, Debug, PartialEq, Eq)]
pub struct Score {
    pub solved_count: usize,
    pub penalty_total: i64,
    pub team_login: String,
}

pub ghost struct ScoreV {
    pub solved_count: int,
    pub penalty_total: int,
    pub team_login: Seq<char>,
}

impl View for Score {
    type V = ScoreV;

    open spec fn view(&self) -> ScoreV {
        ScoreV {
            solved_count: self.solved_count as int,
            penalty_total: self.penalty_total as int,
            team_login: self.team_login@,
        }
    }
}

/// The score a team currently shows: solved problems and total penalty.
pub open spec fn team_score(tv: TeamV) -> ScoreV {
    ScoreV {
        solved_count: solved_of(tv.problems),
        penalty_total: penalty_of(tv.problems) as int,
        team_login: tv.login,
    }
}

/// Ranking order on scores: `a` ranks strictly better than `b` when it
/// has more solved problems, or equally many with less penalty.
pub open spec fn score_ranks_above(a: ScoreV, b: ScoreV) -> bool {
    a.solved_count > b.solved_count || (a.solved_count == b.solved_count && a.penalty_total
        < b.penalty_total)
}

/// Strict lexicographic order on character sequences.
pub open spec fn lex_before(a: Seq<char>, b: Seq<char>) -> bool
    decreases a.len(),
{
    if b.len() == 0 {
        false
    } else if a.len() == 0 {
        true
    } else if a[0] != b[0] {
        a[0] < b[0]
    } else {
        lex_before(a.drop_first(), b.drop_first())
    }
}

/// Revelation order on scores: the worse-ranked score is revealed
/// first; on a full ranking tie the lexicographically greater login
/// goes first, which makes the order deterministic.
pub open spec fn reveal_before(a: ScoreV, b: ScoreV) -> bool {
    score_ranks_above(b, a) || (a.solved_count == b.solved_count && a.penalty_total
        == b.penalty_total && lex_before(b.team_login, a.team_login))
}

/// `lex_before` is irreflexive.
pub proof fn lemma_lex_irrefl(a: Seq<char>)
    ensures
        !lex_before(a, a),
    decreases a.len(),
{
    if a.len() > 0 {
        lemma_lex_irrefl(a.drop_first());
    }
}

/// `lex_before` is asymmetric, and sequences unrelated either way are
/// equal: it is a strict total order.
pub proof fn lemma_lex_total(a: Seq<char>, b: Seq<char>)
    ensures
        !(lex_before(a, b) && lex_before(b, a)),
        (!lex_before(a, b) && !lex_before(b, a)) ==> a == b,
    decreases a.len(),
{
    if a.len() > 0 && b.len() > 0 && a[0] == b[0] {
        lemma_lex_total(a.drop_first(), b.drop_first());
        if !lex_before(a, b) && !lex_before(b, a) {
            assert(a.drop_first() == b.drop_first());
            assert(a =~= b) by {
                assert forall|i: int| 0 <= i < a.len() implies a[i] == b[i] by {
                    if i > 0 {
                        assert(a.drop_first()[i - 1] == b.drop_first()[i - 1]);
                    }
                }
            }
        }
    }
}

/// `lex_before` is transitive.
pub proof fn lemma_lex_trans(a: Seq<char>, b: Seq<char>, c: Seq<char>)
    ensures
        lex_before(a, b) && lex_before(b, c) ==> lex_before(a, c),
    decreases a.len(),
{
    if lex_before(a, b) && lex_before(b, c) {
        if a.len() > 0 && b.len() > 0 && c.len() > 0 && a[0] == b[0] && b[0] == c[0] {
            lemma_lex_trans(a.drop_first(), b.drop_first(), c.drop_first());
        }
    }
}

/// The revelation order is a strict total order as far as logins
/// distinguish scores: it is asymmetric, negatively transitive, and
/// scores unrelated either way carry the same login.
pub proof fn lemma_reveal_order(a: ScoreV, b: ScoreV, c: ScoreV)
    ensures
        !(reveal_before(a, b) && reveal_before(b, a)),
        (!reveal_before(a, b) && !reveal_before(b, a)) ==> a.team_login == b.team_login,
        !reveal_before(a, b) && !reveal_before(b, c) ==> !reveal_before(a, c),
{
    lemma_lex_total(a.team_login, b.team_login);
    lemma_lex_total(b.team_login, c.team_login);
    lemma_lex_total(a.team_login, c.team_login);
    lemma_lex_trans(a.team_login, b.team_login, c.team_login);
    lemma_lex_trans(c.team_login, b.team_login, a.team_login);
    lemma_lex_trans(b.team_login, a.team_login, c.team_login);
    lemma_lex_trans(c.team_login, a.team_login, b.team_login);
    lemma_lex_trans(a.team_login, c.team_login, b.team_login);
    lemma_lex_trans(b.team_login, c.team_login, a.team_login);
}

proof fn lemma_lex_skip(a: Seq<char>, b: Seq<char>, i: int)
    requires
        0 <= i <= a.len(),
        i <= b.len(),
        forall|j: int| 0 <= j < i ==> a[j] == b[j],
    ensures
        lex_before(a, b) == lex_before(a.skip(i), b.skip(i)),
    decreases i,
{
    if i > 0 {
        assert(a.len() > 0 && b.len() > 0 && a[0] == b[0]);
        lemma_lex_skip(a.drop_first(), b.drop_first(), i - 1);
        assert(a.drop_first().skip(i - 1) =~= a.skip(i));
        assert(b.drop_first().skip(i - 1) =~= b.skip(i));
    } else {
        assert(a.skip(0) =~= a);
        assert(b.skip(0) =~= b);
    }
}

/// Strict lexicographic comparison of two strings by characters.
pub fn str_lex_before(a: &str, b: &str) -> (r: bool)
    ensures
        r == lex_before(a@, b@),
{
    let an = a.unicode_len();
    let bn = b.unicode_len();
    let mut i: usize = 0;
    loop
        invariant
            i <= an <= a@.len(),
            i <= bn <= b@.len(),
            an == a@.len(),
            bn == b@.len(),
            forall|j: int| 0 <= j < i ==> a@[j] == b@[j],
        decreases an - i,
    {
        if i == an || i == bn {
            proof {
                lemma_lex_skip(a@, b@, i as int);
            }
            return an < bn;
        }
        let ca = a.get_char(i);
        let cb = b.get_char(i);
        if ca != cb {
            proof {
                lemma_lex_skip(a@, b@, i as int);
            }
            return (ca as u32) < (cb as u32);
        }
        i = i + 1;
    }
}

impl Score {
    /// Whether `self` comes before `other` in revelation order.
    pub fn comes_before(&self, other: &Score) -> (r: bool)
        ensures
            r == reveal_before(self@, other@),
    {
        if self.solved_count != other.solved_count {
            self.solved_count < other.solved_count
        } else if self.penalty_total != other.penalty_total {
            self.penalty_total > other.penalty_total
        } else {
            str_lex_before(other.team_login.as_str(), self.team_login.as_str())
        }
    }

    /// Whether `self` ranks strictly better than `other`.
    pub fn ranks_above(&self, other: &Score) -> (r: bool)
        ensures
            r == score_ranks_above(self@, other@),
    {
        self.solved_count > other.solved_count || (self.solved_count == other.solved_count
            && self.penalty_total < other.penalty_total)
    }
}

impl Team {
    /// The score this team currently shows on the scoreboard. Hidden
    /// runs contribute nothing until they are revealed.
    pub fn score(&self) -> (s: Score)
        ensures
            s@ == team_score(self@),
    {
        let ghost psv = self@.problems;
        let n = self.problems.len();
        let mut solved: usize = 0;
        let mut penalty: i64 = 0;
        let mut i: usize = 0;
        while i < n
            invariant
                n == self.problems.len(),
                psv == self@.problems,
                i <= n,
                solved <= i,
                solved == solved_of(psv.take(i as int)),
                penalty == penalty_of(psv.take(i as int)),
            decreases n - i,
        {
            proof {
                assert(psv.take(i + 1).drop_last() =~= psv.take(i as int));
                assert(psv.take(i + 1).last() == psv[i as int]);
            }
            let pr = &self.problems[i];
            if let Some(t) = pr.accepted_time {
                solved = solved + 1;
                let extra: i64 = 20 * (pr.attempts_before_accept as i64);
                penalty = sat_add(penalty, sat_add(t, extra));
                proof {
                    assert(sat_add_i64(t as int, extra as int) == problem_penalty(psv[i as int]));
                }
            }
            i = i + 1;
        }
        proof {
            assert(psv.take(n as int) =~= psv);
        }
        Score { solved_count: solved, penalty_total: penalty, team_login: self.login.clone() }
    }
}

/// Faults of the contest data itself.
#[derive(Clone, Debug, PartialEq, Eq)]
pub enum ContestError {
    /// The contest file is malformed (for instance, the freeze time
    /// lies outside the contest duration).
    MalformedContest,
    /// A run or score refers to a login no team has.
    UnknownTeam(String),
    /// Placements do not match the scores they were computed from.
    InconsistentPlacement,
}

/// All runs of a contest, in submission order on demand.
#[derive(Clone, Debug, PartialEq, Eq)]
pub struct RunsFile {
    pub runs: Vec<Run>,
}

/// The mathematical view of a sequence of runs.
pub open spec fn runs_view(s: Seq<Run>) -> Seq<RunV> {
    s.map_values(|r: Run| r@)
}

impl View for RunsFile {
    type V = Seq<RunV>;

    open spec fn view(&self) -> Seq<RunV> {
        runs_view(self.runs@)
    }
}

/// Non-strict submission order: `(time, id)` of `a` not after `b`.
pub open spec fn run_before_eq(a: RunV, b: RunV) -> bool {
    !run_before(b, a)
}

/// A sequence of runs in non-strict ascending `(time, id)` order.
pub open spec fn runs_sorted_le(s: Seq<RunV>) -> bool {
    forall|i: int, j: int| 0 <= i < j < s.len() ==> run_before_eq(s[i], s[j])
}

impl RunsFile {
    pub fn empty() -> (r: RunsFile)
        ensures
            r@ =~= Seq::<RunV>::empty(),
    {
        RunsFile { runs: Vec::new() }
    }

    pub fn new(runs: Vec<Run>) -> (r: RunsFile)
        ensures
            r@ == runs_view(runs@),
    {
        RunsFile { runs }
    }

    pub fn len(&self) -> (n: usize)
        ensures
            n == self@.len(),
    {
        self.runs.len()
    }

    /// Structural copy with a fully specified view.
    pub fn duplicate(&self) -> (r: RunsFile)
        ensures
            r@ == self@,
    {
        let mut out: Vec<Run> = Vec::new();
        let n = self.runs.len();
        let mut i: usize = 0;
        while i < n
            invariant
                n == self.runs.len(),
                i <= n,
                out@.len() == i,
                forall|k: int| 0 <= k < i ==> (#[trigger] out@[k])@ == self@[k],
            decreases n - i,
        {
            let d = self.runs[i].duplicate();
            out.push(d);
            i = i + 1;
        }
        proof {
            assert(runs_view(out@) =~= self@);
        }
        RunsFile { runs: out }
    }

    /// The same runs, ordered by `(time, id)`. Selection sort; the
    /// result is a permutation of the stored runs.
    pub fn sorted(&self) -> (r: Vec<Run>)
        ensures
            runs_sorted_le(runs_view(r@)),
            runs_view(r@).to_multiset() == self@.to_multiset(),
    {
        let copy = self.duplicate();
        let mut rest: Vec<Run> = copy.runs;
        let mut out: Vec<Run> = Vec::new();
        proof {
            broadcast use vstd::seq_lib::group_to_multiset_ensures;

            assert(runs_view(rest@) == self@);
            assert(runs_view(out@) =~= Seq::<RunV>::empty());
            assert(runs_view(out@).to_multiset().add(runs_view(rest@).to_multiset())
                =~= self@.to_multiset());
        }
        while rest.len() > 0
            invariant
                runs_sorted_le(runs_view(out@)),
                forall|a: int, b: int|
                    0 <= a < out@.len() && 0 <= b < rest@.len() ==> run_before_eq(
                        #[trigger] out@[a]@,
                        #[trigger] rest@[b]@,
                    ),
                runs_view(out@).to_multiset().add(runs_view(rest@).to_multiset())
                    == self@.to_multiset(),
            decreases rest.len(),
        {
            let ghost restv = runs_view(rest@);
            let n = rest.len();
            let mut m: usize = 0;
            let mut i: usize = 1;
            while i < n
                invariant
                    n == rest.len(),
                    restv == runs_view(rest@),
                    m < i <= n,
                    forall|j: int| 0 <= j < i ==> run_before_eq(restv[m as int], restv[j]),
                decreases n - i,
            {
                if rest[i].before(&rest[m]) {
                    m = i;
                }
                i = i + 1;
            }
            let ghost oldrest = rest@;
            let ghost outv = runs_view(out@);
            let picked = rest.remove(m);
            out.push(picked);
            proof {
                broadcast use vstd::seq_lib::group_to_multiset_ensures;

                assert(runs_view(out@) =~= outv.push(picked@));
                assert(runs_view(rest@) =~= restv.remove(m as int));
                assert(outv.push(picked@).to_multiset() =~= outv.to_multiset().insert(picked@));
                assert(restv.remove(m as int).to_multiset() =~= restv.to_multiset().remove(
                    picked@,
                ));
                assert(restv.to_multiset().contains(picked@)) by {
                    assert(restv[m as int] == picked@);
                }
                assert(runs_view(out@).to_multiset().add(runs_view(rest@).to_multiset())
                    =~= outv.to_multiset().add(restv.to_multiset()));
                // The picked run precedes everything left in `rest`.
                assert forall|b: int| 0 <= b < rest@.len() implies run_before_eq(
                    picked@,
                    #[trigger] rest@[b]@,
                ) by {
                    assert(rest@[b]@ == restv.remove(m as int)[b]);
                    if b < m {
                        assert(restv.remove(m as int)[b] == restv[b]);
                    } else {
                        assert(restv.remove(m as int)[b] == restv[b + 1]);
                    }
                }
                // The new tail of `out` keeps both invariants.
                assert forall|a: int, b: int|
                    0 <= a < out@.len() && 0 <= b < rest@.len() implies run_before_eq(
                    #[trigger] out@[a]@,
                    #[trigger] rest@[b]@,
                ) by {
                    if a < outv.len() {
                        assert(out@[a]@ == outv[a]);
                        assert(oldrest[m as int]@ == restv[m as int]);
                        assert(rest@[b]@ == restv.remove(m as int)[b]);
                        if b < m {
                            assert(rest@[b] == oldrest[b]);
                        } else {
                            assert(rest@[b] == oldrest[b + 1]);
                        }
                    } else {
                        assert(out@[a]@ == picked@);
                    }
                }
                assert forall|a: int, b: int|
                    0 <= a < b < runs_view(out@).len() implies run_before_eq(
                    runs_view(out@)[a],
                    runs_view(out@)[b],
                ) by {
                    if b < outv.len() {
                        assert(runs_sorted_le(outv));
                        assert(run_before_eq(outv[a], outv[b]));
                    } else {
                        assert(runs_view(out@)[b] == picked@);
                        assert(outv[a] == out@[a]@);
                        assert(run_before_eq(out@[a]@, oldrest[m as int]@));
                    }
                }
            }
        }
        proof {
            broadcast use vstd::seq_lib::group_to_multiset_ensures;

            assert(runs_view(rest@) =~= Seq::<RunV>::empty());
            assert(runs_view(rest@).to_multiset() =~= Multiset::<RunV>::empty());
            assert(runs_view(out@).to_multiset() =~= runs_view(out@).to_multiset().add(
                runs_view(rest@).to_multiset(),
            ));
        }
        out
    }
}

/// The contest as loaded from a snapshot: metadata and all teams.
#[derive(Clone, Debug, PartialEq, Eq)]
pub struct ContestFile {
    pub name: String,
    pub start: i64,
    pub duration_minutes: i64,
    pub score_freeze_time: i64,
    pub teams: Vec<Team>,
    pub problem_letters: Vec<char>,
}

pub ghost struct ContestV {
    pub name: Seq<char>,
    pub start: i64,
    pub duration_minutes: i64,
    pub score_freeze_time: i64,
    pub teams: Seq<TeamV>,
    pub problem_letters: Seq<char>,
}

impl View for ContestFile {
    type V = ContestV;

    open spec fn view(&self) -> ContestV {
        ContestV {
            name: self.name@,
            start: self.start,
            duration_minutes: self.duration_minutes,
            score_freeze_time: self.score_freeze_time,
            teams: self.teams@.map_values(|t: Team| t@),
            problem_letters: self.problem_letters@,
        }
    }
}

/// Index of the team with the given login, or -1.
pub open spec fn find_team_idx(ts: Seq<TeamV>, login: Seq<char>) -> int
    decreases ts.len(),
{
    if ts.len() == 0 {
        -1
    } else if ts[0].login == login {
        0
    } else {
        let k = find_team_idx(ts.drop_first(), login);
        if k < 0 {
            -1
        } else {
            k + 1
        }
    }
}

pub proof fn lemma_find_team_idx(ts: Seq<TeamV>, login: Seq<char>)
    ensures
        find_team_idx(ts, login) < 0 ==> forall|j: int| 0 <= j < ts.len() ==> ts[j].login != login,
        find_team_idx(ts, login) >= 0 ==> {
            let k = find_team_idx(ts, login);
            &&& 0 <= k < ts.len()
            &&& ts[k].login == login
            &&& forall|j: int| 0 <= j < k ==> ts[j].login != login
        },
    decreases ts.len(),
{
    if ts.len() > 0 && ts[0].login != login {
        lemma_find_team_idx(ts.drop_first(), login);
        assert forall|j: int| 1 <= j < ts.len() implies ts.drop_first()[j - 1] == ts[j] by {}
    }
}

/// Well-formed contest: freeze inside the duration, distinct logins,
/// well-formed teams, and few enough teams for `u32` placements.
pub open spec fn contest_wf(cv: ContestV) -> bool {
    &&& 0 <= cv.score_freeze_time <= cv.duration_minutes
    &&& forall|i: int, j: int| 0 <= i < j < cv.teams.len() ==> cv.teams[i].login != cv.teams[j].login
    &&& forall|i: int| 0 <= i < cv.teams.len() ==> #[trigger] team_wf(cv.teams[i])
    &&& cv.teams.len() < u32::MAX
}

/// Effect of judging one run on a contest: its team's state advances;
/// a run for an unknown login leaves the contest unchanged (the
/// operation reports the error separately).
pub open spec fn contest_apply(cv: ContestV, r: RunV) -> ContestV {
    let i = find_team_idx(cv.teams, r.team_login);
    if i >= 0 {
        ContestV { teams: cv.teams.update(i, team_apply(cv.teams[i], r)), ..cv }
    } else {
        cv
    }
}

/// Effect of buffering one frozen run on a contest.
pub open spec fn contest_apply_frozen(cv: ContestV, r: RunV) -> ContestV {
    let i = find_team_idx(cv.teams, r.team_login);
    if i >= 0 {
        ContestV { teams: cv.teams.update(i, team_apply_frozen(cv.teams[i], r)), ..cv }
    } else {
        cv
    }
}

/// How many teams in `ts` rank strictly above score `s`.
pub open spec fn count_ranking_above(ts: Seq<TeamV>, s: ScoreV) -> int
    decreases ts.len(),
{
    if ts.len() == 0 {
        0
    } else {
        count_ranking_above(ts.drop_last(), s) + if score_ranks_above(team_score(ts.last()), s) {
            1int
        } else {
            0int
        }
    }
}

proof fn lemma_count_ranking_above_bound(ts: Seq<TeamV>, s: ScoreV)
    ensures
        0 <= count_ranking_above(ts, s) <= ts.len(),
    decreases ts.len(),
{
    if ts.len() > 0 {
        lemma_count_ranking_above_bound(ts.drop_last(), s);
    }
}

/// Counting respects the ranking: a better score is ranked above by
/// strictly fewer teams, and tied scores by exactly the same teams.
proof fn lemma_count_ranking_monotone(ts: Seq<TeamV>, a: ScoreV, b: ScoreV, wit: int)
    requires
        score_ranks_above(a, b),
        0 <= wit < ts.len(),
        team_score(ts[wit]).solved_count == a.solved_count,
        team_score(ts[wit]).penalty_total == a.penalty_total,
    ensures
        count_ranking_above(ts, a) < count_ranking_above(ts, b),
    decreases ts.len(),
{
    if ts.len() > 0 {
        if wit == ts.len() - 1 {
            lemma_count_ranking_weak(ts.drop_last(), a, b);
        } else {
            lemma_count_ranking_monotone(ts.drop_last(), a, b, wit);
        }
    }
}

/// Weak form: a better score is never ranked above by more teams.
proof fn lemma_count_ranking_weak(ts: Seq<TeamV>, a: ScoreV, b: ScoreV)
    requires
        score_ranks_above(a, b),
    ensures
        count_ranking_above(ts, a) <= count_ranking_above(ts, b),
    decreases ts.len(),
{
    if ts.len() > 0 {
        lemma_count_ranking_weak(ts.drop_last(), a, b);
    }
}

/// Tied scores are ranked above by exactly the same count.
proof fn lemma_count_ranking_tie(ts: Seq<TeamV>, a: ScoreV, b: ScoreV)
    requires
        a.solved_count == b.solved_count,
        a.penalty_total == b.penalty_total,
    ensures
        count_ranking_above(ts, a) == count_ranking_above(ts, b),
    decreases ts.len(),
{
    if ts.len() > 0 {
        lemma_count_ranking_tie(ts.drop_last(), a, b);
    }
}

/// Placement recomputation as a mathematical function: every team's
/// placement becomes one more than the number of teams ranking above.
pub open spec fn recalc_spec(cv: ContestV) -> ContestV {
    ContestV {
        teams: Seq::new(
            cv.teams.len(),
            |i: int|
                TeamV {
                    placement: (1 + count_ranking_above(cv.teams, team_score(cv.teams[i]))) as u32,
                    ..cv.teams[i]
                },
        ),
        ..cv
    }
}

/// Two team sequences with the same logins resolve logins identically.
pub proof fn lemma_find_same_logins(ts1: Seq<TeamV>, ts2: Seq<TeamV>, login: Seq<char>)
    requires
        ts1.len() == ts2.len(),
        forall|i: int| 0 <= i < ts1.len() ==> (#[trigger] ts1[i]).login == ts2[i].login,
    ensures
        find_team_idx(ts1, login) == find_team_idx(ts2, login),
    decreases ts1.len(),
{
    if ts1.len() > 0 {
        lemma_find_same_logins(ts1.drop_first(), ts2.drop_first(), login);
        assert forall|i: int| 1 <= i < ts1.len() implies ts1.drop_first()[i - 1] == ts1[i]
            && ts2.drop_first()[i - 1] == ts2[i] by {}
    }
}

impl ContestFile {
    pub open spec fn wf(&self) -> bool {
        contest_wf(self@)
    }

    /// A contest with no teams.
    pub fn empty() -> (c: ContestFile)
        ensures
            c@.teams =~= Seq::<TeamV>::empty(),
            c@.score_freeze_time == 0,
            c@.duration_minutes == 0,
            c.wf(),
    {
        let c = ContestFile {
            name: String::new(),
            start: 0,
            duration_minutes: 0,
            score_freeze_time: 0,
            teams: Vec::new(),
            problem_letters: Vec::new(),
        };
        proof {
            assert(c@.teams =~= Seq::<TeamV>::empty());
        }
        c
    }

    /// Index of the team with the given login, if any.
    pub fn find_team(&self, login: &String) -> (r: Option<usize>)
        ensures
            match r {
                Some(i) => i < self.teams.len() && find_team_idx(self@.teams, login@) == i,
                None => find_team_idx(self@.teams, login@) < 0,
            },
    {
        let ghost tsv = self@.teams;
        proof {
            lemma_find_team_idx(tsv, login@);
        }
        let n = self.teams.len();
        let mut i: usize = 0;
        while i < n
            invariant
                n == self.teams.len(),
                tsv == self@.teams,
                i <= n,
                forall|j: int| 0 <= j < i ==> tsv[j].login != login@,
            decreases n - i,
        {
            if self.teams[i].login == *login {
                proof {
                    lemma_find_team_idx(tsv, login@);
                    let k = find_team_idx(tsv, login@);
                    if k < 0 {
                        assert(tsv[i as int].login != login@);
                    } else if k < i {
                        assert(tsv[k].login != login@);
                    } else if i < k {
                        assert(tsv[i as int].login != login@);
                    }
                }
                return Some(i);
            }
            i = i + 1;
        }
        None
    }

    /// Judge one run on the live scoreboard. Unknown logins surface as
    /// `ContestError::UnknownTeam` and leave the contest untouched.
    pub fn apply_run(&mut self, run: &Run) -> (r: Result<bool, ContestError>)
        ensures
            final(self)@ == contest_apply(old(self)@, run@),
            r is Ok <==> find_team_idx(old(self)@.teams, run@.team_login) >= 0,
            r matches Err(e) ==> (e matches ContestError::UnknownTeam(l) && l@
                == run@.team_login) && final(self)@ == old(self)@,
            old(self).wf() ==> final(self).wf(),
    {
        let ghost tsv = self@.teams;
        match self.find_team(&run.team_login) {
            Some(i) => {
                let t = &mut self.teams[i];
                let changed = t.apply_run(run);
                proof {
                    assert(final(self)@.teams =~= tsv.update(
                        i as int,
                        team_apply(tsv[i as int], run@),
                    ));
                }
                Ok(changed)
            },
            None => Err(ContestError::UnknownTeam(run.team_login.clone())),
        }
    }

    /// Buffer one frozen run. Unknown logins surface as
    /// `ContestError::UnknownTeam` and leave the contest untouched.
    pub fn apply_run_frozen(&mut self, run: &Run) -> (r: Result<(), ContestError>)
        ensures
            final(self)@ == contest_apply_frozen(old(self)@, run@),
            r is Ok <==> find_team_idx(old(self)@.teams, run@.team_login) >= 0,
            r matches Err(e) ==> (e matches ContestError::UnknownTeam(l) && l@
                == run@.team_login) && final(self)@ == old(self)@,
            old(self).wf() ==> final(self).wf(),
    {
        let ghost tsv = self@.teams;
        match self.find_team(&run.team_login) {
            Some(i) => {
                let t = &mut self.teams[i];
                t.apply_run_frozen(run);
                proof {
                    assert(final(self)@.teams =~= tsv.update(
                        i as int,
                        team_apply_frozen(tsv[i as int], run@),
                    ));
                }
                Ok(())
            },
            None => Err(ContestError::UnknownTeam(run.team_login.clone())),
        }
    }

    /// Recompute every team's placement from its current score, using
    /// standard competition ranking: a team's placement is one more
    /// than the number of teams ranking strictly above it, so tied
    /// scores share a placement.
    pub fn recalculate_placement_no_filter(&mut self) -> (r: Result<(), ContestError>)
        requires
            old(self).wf(),
        ensures
            r is Ok,
            final(self).wf(),
            final(self)@.teams.len() == old(self)@.teams.len(),
            final(self)@ == (ContestV { teams: final(self)@.teams, ..old(self)@ }),
            forall|i: int|
                0 <= i < old(self)@.teams.len() ==> final(self)@.teams[i] == (TeamV {
                    placement: final(self)@.teams[i].placement,
                    ..old(self)@.teams[i]
                }),
            forall|i: int|
                0 <= i < old(self)@.teams.len() ==> final(self)@.teams[i].placement == 1
                    + count_ranking_above(old(self)@.teams, team_score(old(self)@.teams[i])),
            // Placement correctness: lower placement exactly for a
            // strictly better score; ties share their placement.
            forall|i: int, j: int|
                0 <= i < old(self)@.teams.len() && 0 <= j < old(self)@.teams.len() ==> (
                (final(self)@.teams[i].placement < final(self)@.teams[j].placement)
                    <==> score_ranks_above(
                    team_score(old(self)@.teams[i]),
                    team_score(old(self)@.teams[j]),
                )),
            final(self)@ == recalc_spec(old(self)@),
    {
        let ghost tsv = self@.teams;
        let n = self.teams.len();
        let mut scores: Vec<Score> = Vec::new();
        let mut i: usize = 0;
        while i < n
            invariant
                n == self.teams.len(),
                tsv == self@.teams,
                i <= n,
                scores@.len() == i,
                forall|k: int| 0 <= k < i ==> scores@[k]@ == team_score(tsv[k]),
            decreases n - i,
        {
            let s = self.teams[i].score();
            scores.push(s);
            i = i + 1;
        }
        let mut i: usize = 0;
        while i < n
            invariant
                n == self.teams.len(),
                old(self)@.teams == tsv,
                self@.teams.len() == n,
                tsv.len() == n,
                i <= n,
                scores@.len() == n,
                forall|k: int| 0 <= k < n ==> scores@[k]@ == team_score(tsv[k]),
                old(self).wf(),
                self@ == (ContestV { teams: self@.teams, ..old(self)@ }),
                forall|k: int|
                    0 <= k < n ==> self@.teams[k] == (TeamV {
                        placement: self@.teams[k].placement,
                        ..tsv[k]
                    }),
                forall|k: int|
                    0 <= k < i ==> self@.teams[k].placement == 1 + count_ranking_above(
                        tsv,
                        team_score(tsv[k]),
                    ),
            decreases n - i,
        {
            let mut cnt: usize = 0;
            let mut j: usize = 0;
            while j < n
                invariant
                    n == scores@.len(),
                    tsv.len() == n,
                    forall|k: int| 0 <= k < n ==> scores@[k]@ == team_score(tsv[k]),
                    j <= n,
                    i < n,
                    cnt <= j,
                    cnt == count_ranking_above(tsv.take(j as int), scores@[i as int]@),
                decreases n - j,
            {
                proof {
                    assert(tsv.take(j + 1).drop_last() =~= tsv.take(j as int));
                    assert(tsv.take(j + 1).last() == tsv[j as int]);
                }
                if scores[j].ranks_above(&scores[i]) {
                    cnt = cnt + 1;
                }
                j = j + 1;
            }
            proof {
                assert(tsv.take(n as int) =~= tsv);
                lemma_count_ranking_above_bound(tsv, scores@[i as int]@);
            }
            let ghost prev = self@.teams;
            let t = &mut self.teams[i];
            t.placement = (cnt + 1) as u32;
            proof {
                assert(self@.teams =~= prev.update(
                    i as int,
                    TeamV { placement: (cnt + 1) as u32, ..prev[i as int] },
                ));
            }
            i = i + 1;
        }
        proof {
            assert forall|k: int| 0 <= k < n implies #[trigger] team_wf(self@.teams[k]) by {
                assert(self@.teams[k] == (TeamV { placement: self@.teams[k].placement, ..tsv[k] }));
                assert(team_wf(tsv[k]));
            }
            assert forall|a: int, b: int|
                0 <= a < b < n implies self@.teams[a].login != self@.teams[b].login by {
                assert(self@.teams[a].login == tsv[a].login);
                assert(self@.teams[b].login == tsv[b].login);
            }
            assert forall|a: int, b: int|
                0 <= a < n && 0 <= b < n implies ((self@.teams[a].placement
                < self@.teams[b].placement) <==> score_ranks_above(
                team_score(tsv[a]),
                team_score(tsv[b]),
            )) by {
                let sa = team_score(tsv[a]);
                let sb = team_score(tsv[b]);
                if score_ranks_above(sa, sb) {
                    lemma_count_ranking_monotone(tsv, sa, sb, a);
                } else if sa.solved_count == sb.solved_count && sa.penalty_total
                    == sb.penalty_total {
                    lemma_count_ranking_tie(tsv, sa, sb);
                } else {
                    assert(score_ranks_above(sb, sa));
                    lemma_count_ranking_monotone(tsv, sb, sa, b);
                }
            }
            assert(self@.teams =~= recalc_spec(old(self)@).teams);
        }
        Ok(())
    }
}

/// Total number of hidden runs a team still holds.
pub open spec fn frozen_total(ps: Seq<ProblemV>) -> int
    decreases ps.len(),
{
    if ps.len() == 0 {
        0
    } else {
        frozen_total(ps.drop_last()) + ps.last().frozen_runs.len()
    }
}

pub proof fn lemma_frozen_total_nonneg(ps: Seq<ProblemV>)
    ensures
        frozen_total(ps) >= 0,
    decreases ps.len(),
{
    if ps.len() > 0 {
        lemma_frozen_total_nonneg(ps.drop_last());
    }
}

/// How replacing one problem state changes the solved count.
pub proof fn lemma_solved_update(ps: Seq<ProblemV>, i: int, p2: ProblemV)
    requires
        0 <= i < ps.len(),
    ensures
        solved_of(ps.update(i, p2)) == solved_of(ps) - (if ps[i].accepted_time is Some {
            1int
        } else {
            0int
        }) + (if p2.accepted_time is Some {
            1int
        } else {
            0int
        }),
    decreases ps.len(),
{
    let ps2 = ps.update(i, p2);
    if i == ps.len() - 1 {
        assert(ps2.drop_last() =~= ps.drop_last());
        assert(ps2.last() == p2);
    } else {
        assert(ps2.drop_last() =~= ps.drop_last().update(i, p2));
        assert(ps2.last() == ps.last());
        lemma_solved_update(ps.drop_last(), i, p2);
    }
}

/// How replacing one problem state changes the total penalty.
pub proof fn lemma_penalty_update_same(ps: Seq<ProblemV>, i: int, p2: ProblemV)
    requires
        0 <= i < ps.len(),
        problem_penalty(p2) == problem_penalty(ps[i]),
    ensures
        penalty_of(ps.update(i, p2)) == penalty_of(ps),
    decreases ps.len(),
{
    let ps2 = ps.update(i, p2);
    if i == ps.len() - 1 {
        assert(ps2.drop_last() =~= ps.drop_last());
        assert(ps2.last() == p2);
    } else {
        assert(ps2.drop_last() =~= ps.drop_last().update(i, p2));
        assert(ps2.last() == ps.last());
        lemma_penalty_update_same(ps.drop_last(), i, p2);
    }
}

/// How replacing one problem state changes the hidden-run count.
pub proof fn lemma_frozen_update(ps: Seq<ProblemV>, i: int, p2: ProblemV)
    requires
        0 <= i < ps.len(),
    ensures
        frozen_total(ps.update(i, p2)) == frozen_total(ps) - ps[i].frozen_runs.len()
            + p2.frozen_runs.len(),
    decreases ps.len(),
{
    let ps2 = ps.update(i, p2);
    if i == ps.len() - 1 {
        assert(ps2.drop_last() =~= ps.drop_last());
        assert(ps2.last() == p2);
    } else {
        assert(ps2.drop_last() =~= ps.drop_last().update(i, p2));
        assert(ps2.last() == ps.last());
        lemma_frozen_update(ps.drop_last(), i, p2);
    }
}

/// Revelation monotonicity: one reveal step never worsens the revealed
/// team's score. The solved count never drops, and while it stays the
/// same the penalty stays exactly the same.
pub proof fn lemma_revelation_monotone(tv: TeamV)
    ensures
        ({
            let (tv2, _) = team_reveal(tv);
            &&& team_score(tv2).solved_count >= team_score(tv).solved_count
            &&& team_score(tv2).solved_count == team_score(tv).solved_count ==> team_score(
                tv2,
            ).penalty_total == team_score(tv).penalty_total
            &&& team_score(tv2).team_login == team_score(tv).team_login
        }),
{
    let k = reveal_pick(tv.problems);
    if k >= 0 {
        lemma_reveal_pick(tv.problems);
        let p = tv.problems[k];
        let r = p.frozen_runs[0];
        let base = ProblemV { frozen_runs: p.frozen_runs.drop_first(), ..p };
        let p2 = problem_apply(base, r);
        lemma_solved_update(tv.problems, k, p2);
        match r.verdict {
            VerdictV::Accepted => {
                if p.accepted_time is None {
                    assert(team_score(team_reveal(tv).0).solved_count == team_score(
                        tv,
                    ).solved_count + 1);
                } else {
                    lemma_penalty_update_same(tv.problems, k, p2);
                }
            },
            VerdictV::Rejected(_) => {
                lemma_penalty_update_same(tv.problems, k, p2);
            },
            VerdictV::Pending => {
                lemma_penalty_update_same(tv.problems, k, p2);
            },
        }
    }
}

/// One reveal step consumes exactly one hidden run when any is left.
pub proof fn lemma_reveal_frozen_decreases(tv: TeamV)
    ensures
        team_has_frozen(tv) ==> frozen_total(team_reveal(tv).0.problems) == frozen_total(
            tv.problems,
        ) - 1,
        !team_has_frozen(tv) ==> team_reveal(tv).0 == tv,
        team_reveal(tv).1 == team_has_frozen(team_reveal(tv).0),
        team_reveal(tv).0.login == tv.login,
        team_reveal(tv).0.problems.len() == tv.problems.len(),
{
    let k = reveal_pick(tv.problems);
    lemma_reveal_pick(tv.problems);
    if team_has_frozen(tv) {
        let wit = choose|i: int|
            0 <= i < tv.problems.len() && tv.problems[i].frozen_runs.len() > 0;
        assert(k >= 0) by {
            if k < 0 {
                assert(tv.problems[wit].frozen_runs.len() == 0);
            }
        }
        let p = tv.problems[k];
        let base = ProblemV { frozen_runs: p.frozen_runs.drop_first(), ..p };
        let p2 = problem_apply(base, p.frozen_runs[0]);
        assert(p2.frozen_runs.len() == p.frozen_runs.len() - 1);
        lemma_frozen_update(tv.problems, k, p2);
    } else {
        assert(k < 0) by {
            if k >= 0 {
                assert(0 <= k < tv.problems.len() && tv.problems[k].frozen_runs.len() > 0);
            }
        }
    }
}

/// Exhaustive revelation of a team: reveal hidden runs one at a time
/// until none remain.
pub open spec fn team_reveal_all(tv: TeamV) -> TeamV
    decreases frozen_total(tv.problems)
        when frozen_total(tv.problems) >= 0
        via team_reveal_all_decreases
{
    if !team_has_frozen(tv) {
        tv
    } else {
        team_reveal_all(team_reveal(tv).0)
    }
}

#[via_fn]
proof fn team_reveal_all_decreases(tv: TeamV) {
    lemma_reveal_frozen_decreases(tv);
    if team_has_frozen(tv) {
        lemma_frozen_total_nonneg(team_reveal(tv).0.problems);
    }
}

/// Two problem sequences with the same letters resolve letters
/// identically.
pub proof fn lemma_find_same_letters(ps1: Seq<ProblemV>, ps2: Seq<ProblemV>, c: char)
    requires
        ps1.len() == ps2.len(),
        forall|i: int| 0 <= i < ps1.len() ==> (#[trigger] ps1[i]).letter == ps2[i].letter,
    ensures
        find_problem_idx(ps1, c) == find_problem_idx(ps2, c),
    decreases ps1.len(),
{
    if ps1.len() > 0 {
        lemma_find_same_letters(ps1.drop_first(), ps2.drop_first(), c);
        assert forall|i: int| 1 <= i < ps1.len() implies ps1.drop_first()[i - 1] == ps1[i]
            && ps2.drop_first()[i - 1] == ps2[i] by {}
    }
}

/// A strictly sorted run sequence is the unique non-strictly sorted
/// arrangement of its runs.
pub proof fn lemma_sorted_unique(a: Seq<RunV>, b: Seq<RunV>)
    requires
        runs_sorted(a),
        runs_sorted_le(b),
        a.to_multiset() == b.to_multiset(),
    ensures
        a == b,
    decreases a.len(),
{
    broadcast use vstd::seq_lib::group_to_multiset_ensures;

    assert(a.len() == a.to_multiset().len());
    assert(b.len() == b.to_multiset().len());
    if a.len() == 0 {
        assert(a =~= b);
    } else {
        let la = a.last();
        let lb = b.last();
        assert(a.to_multiset().contains(la)) by {
            assert(a[a.len() - 1] == la);
        }
        assert(b.to_multiset().contains(lb)) by {
            assert(b[b.len() - 1] == lb);
        }
        let j = choose|j: int| 0 <= j < b.len() && b[j] == la;
        assert(b.contains(la));
        let kk = choose|kk: int| 0 <= kk < a.len() && a[kk] == lb;
        assert(a.contains(lb));
        // The strictly greatest run of the multiset ends both sequences.
        assert(la == lb) by {
            if la != lb {
                assert(j < b.len() - 1 || kk < a.len() - 1);
                assert(run_before_eq(b[j], lb));
                assert(run_before_eq(a[kk], la) && (kk == a.len() - 1 || run_before(a[kk], la)));
                assert(kk < a.len() - 1);
                assert(run_before(lb, la));
                assert(!run_before(la, lb));
                if j == b.len() - 1 {
                } else {
                    assert(run_before_eq(la, lb));
                }
            }
        }
        assert(a.drop_last().to_multiset() =~= a.to_multiset().remove(la)) by {
            assert(a.remove(a.len() - 1) =~= a.drop_last());
            assert(a.remove(a.len() - 1).to_multiset() =~= a.to_multiset().remove(la));
        }
        assert(b.drop_last().to_multiset() =~= b.to_multiset().remove(lb)) by {
            assert(b.remove(b.len() - 1) =~= b.drop_last());
            assert(b.remove(b.len() - 1).to_multiset() =~= b.to_multiset().remove(lb));
        }
        assert(runs_sorted(a.drop_last()));
        assert(runs_sorted_le(b.drop_last()));
        lemma_sorted_unique(a.drop_last(), b.drop_last());
        assert(a =~= a.drop_last().push(la));
        assert(b =~= b.drop_last().push(lb));
    }
}

impl Problem {
    /// Structural copy with a fully specified view.
    pub fn duplicate(&self) -> (r: Problem)
        ensures
            r@ == self@,
    {
        let mut frozen: Vec<Run> = Vec::new();
        let n = self.frozen_runs.len();
        let mut i: usize = 0;
        while i < n
            invariant
                n == self.frozen_runs.len(),
                i <= n,
                frozen@.len() == i,
                forall|k: int| 0 <= k < i ==> (#[trigger] frozen@[k])@ == self.frozen_runs@[k]@,
            decreases n - i,
        {
            frozen.push(self.frozen_runs[i].duplicate());
            i = i + 1;
        }
        let r = Problem {
            letter: self.letter,
            attempts_before_accept: self.attempts_before_accept,
            accepted_time: self.accepted_time,
            frozen_runs: frozen,
        };
        proof {
            assert(r@.frozen_runs =~= self@.frozen_runs);
        }
        r
    }
}

impl Team {
    /// Structural copy with a fully specified view.
    pub fn duplicate(&self) -> (r: Team)
        ensures
            r@ == self@,
    {
        let mut problems: Vec<Problem> = Vec::new();
        let n = self.problems.len();
        let mut i: usize = 0;
        while i < n
            invariant
                n == self.problems.len(),
                i <= n,
                problems@.len() == i,
                forall|k: int| 0 <= k < i ==> (#[trigger] problems@[k])@ == self.problems@[k]@,
            decreases n - i,
        {
            problems.push(self.problems[i].duplicate());
            i = i + 1;
        }
        let r = Team {
            login: self.login.clone(),
            display_name: self.display_name.clone(),
            site_code: self.site_code.clone(),
            placement: self.placement,
            problems,
        };
        proof {
            assert(r@.problems =~= self@.problems);
        }
        r
    }
}

/// Clock value shown to spectators: current contest minute and the
/// freeze time. Compared value-wise; duplicate consecutive values are
/// suppressed on the wire.
#[derive(Clone, Copy, Debug, PartialEq, Eq, Structural)]
pub struct TimerData {
    pub current_time: i64,
    pub score_freeze_time: i64,
}

impl TimerData {
    pub fn new(current_time: i64, score_freeze_time: i64) -> (t: TimerData)
        ensures
            t.current_time == current_time,
            t.score_freeze_time == score_freeze_time,
    {
        TimerData { current_time, score_freeze_time }
    }

    /// A sentinel that no real snapshot produces, used before the
    /// first load.
    pub fn fake() -> (t: TimerData)
        ensures
            t.current_time == -1,
            t.score_freeze_time == -1,
    {
        TimerData { current_time: -1, score_freeze_time: -1 }
    }
}

impl ContestFile {
    /// Structural copy with a fully specified view.
    pub fn duplicate(&self) -> (r: ContestFile)
        ensures
            r@ == self@,
    {
        let mut teams: Vec<Team> = Vec::new();
        let n = self.teams.len();
        let mut i: usize = 0;
        while i < n
            invariant
                n == self.teams.len(),
                i <= n,
                teams@.len() == i,
                forall|k: int| 0 <= k < i ==> (#[trigger] teams@[k])@ == self.teams@[k]@,
            decreases n - i,
        {
            teams.push(self.teams[i].duplicate());
            i = i + 1;
        }
        let mut letters: Vec<char> = Vec::new();
        let m = self.problem_letters.len();
        let mut j: usize = 0;
        while j < m
            invariant
                m == self.problem_letters@.len(),
                j <= m,
                letters@ == self.problem_letters@.take(j as int),
            decreases m - j,
        {
            letters.push(self.problem_letters[j]);
            proof {
                assert(self.problem_letters@.take(j + 1) =~= self.problem_letters@.take(
                    j as int,
                ).push(self.problem_letters@[j as int]));
            }
            j = j + 1;
        }
        proof {
            assert(self.problem_letters@.take(m as int) =~= self.problem_letters@);
        }
        let r = ContestFile {
            name: self.name.clone(),
            start: self.start,
            duration_minutes: self.duration_minutes,
            score_freeze_time: self.score_freeze_time,
            teams,
            problem_letters: letters,
        };
        proof {
            assert(r@.teams =~= self@.teams);
        }
        r
    }
}

/// Judge one run's verdict against a problem state, in place. Shared by
/// the live path and the revelation path.
fn apply_verdict(pr: &mut Problem, run: &Run) -> (changed: bool)
    ensures
        final(pr)@ == problem_apply(old(pr)@, run@),
        changed == problem_apply_changes(old(pr)@, run@),
{
    match &run.verdict {
        Verdict::Accepted => {
            if pr.accepted_time.is_none() {
                pr.accepted_time = Some(run.time_minutes);
                true
            } else {
                false
            }
        },
        Verdict::Rejected(_) => {
            if pr.accepted_time.is_none() {
                if pr.attempts_before_accept != u32::MAX {
                    pr.attempts_before_accept = pr.attempts_before_accept + 1;
                }
                true
            } else {
                false
            }
        },
        Verdict::Pending => false,
    }
}

} // verus!
