//! In-memory snapshot store: the latest loaded snapshot, the public and
//! secret run files, and the bookkeeping needed to detect which runs of
//! the next snapshot are new.

use vstd::prelude::*;

verus! {

use crate::contest::ContestError;
use crate::contest::ContestFile;
use crate::contest::ContestV;
use crate::contest::Run;
use crate::contest::RunV;
use crate::contest::RunsFile;
use crate::contest::TimerData;
use crate::contest::Verdict;
use crate::contest::VerdictV;
use crate::contest::recalc_spec;
use crate::contest::runs_sorted_le;
use crate::contest::runs_view;
use crate::revelation::all_logins_known;
use crate::revelation::contest_apply_split;

/// A run as the public sees it: verdicts at or after the freeze are
/// masked to `Pending`.
pub open spec fn mask_run(r: RunV, f: i64) -> RunV {
    if r.time_minutes >= f {
        RunV { verdict: VerdictV::Pending, ..r }
    } else {
        r
    }
}

/// The public projection of a whole run sequence.
pub open spec fn mask_runs(rs: Seq<RunV>, f: i64) -> Seq<RunV> {
    rs.map_values(|r: RunV| mask_run(r, f))
}

/// The snapshot store.
#[derive(Debug)]
pub struct DB {
    pub time_file: i64,
    pub contest_file_begin: ContestFile,
    pub contest_file_current: ContestFile,
    pub run_file: RunsFile,
    pub run_file_secret: RunsFile,
    pub seen_run_ids: Vec<u64>,
}

pub ghost struct DbV {
    pub time_file: i64,
    pub contest_file_begin: ContestV,
    pub contest_file_current: ContestV,
    pub run_file: Seq<RunV>,
    pub run_file_secret: Seq<RunV>,
    pub seen_run_ids: Seq<u64>,
}

impl View for DB {
    type V = DbV;

    open spec fn view(&self) -> DbV {
        DbV {
            time_file: self.time_file,
            contest_file_begin: self.contest_file_begin@,
            contest_file_current: self.contest_file_current@,
            run_file: self.run_file@,
            run_file_secret: self.run_file_secret@,
            seen_run_ids: self.seen_run_ids@,
        }
    }
}

/// What one successful refresh promises: the new store state and the
/// fresh runs it reports, as a function of the old state and the
/// snapshot handed in.
pub open spec fn refresh_rel(
    pre: DbV,
    post: DbV,
    fresh: Seq<RunV>,
    time: i64,
    cv: ContestV,
    rsv: Seq<RunV>,
) -> bool {
    let begin = post.contest_file_begin;
    let f = begin.score_freeze_time;
    &&& post.time_file == time
    &&& begin == if pre.time_file < 0 {
        cv
    } else {
        pre.contest_file_begin
    }
    &&& runs_sorted_le(post.run_file_secret)
    &&& post.run_file_secret.to_multiset() == rsv.to_multiset()
    &&& post.run_file == mask_runs(post.run_file_secret, f)
    &&& post.contest_file_current == recalc_spec(contest_apply_split(begin, post.run_file, f))
    &&& post.seen_run_ids == add_new_ids(
        pre.seen_run_ids,
        post.run_file_secret.map_values(|r: RunV| r.id),
    )
    &&& (forall|id: u64|
        #![trigger post.seen_run_ids.contains(id)]
        #![trigger pre.seen_run_ids.contains(id)]
        post.seen_run_ids.contains(id) <==> (pre.seen_run_ids.contains(id) || exists|k: int|
            0 <= k < rsv.len() && (#[trigger] rsv[k]).id == id))
    &&& fresh == post.run_file.filter(|x: RunV| !pre.seen_run_ids.contains(x.id))
}

impl DB {
    /// The store's internal discipline: a well-formed base contest and
    /// no duplicate ids in the bookkeeping.
    pub open spec fn wf(&self) -> bool {
        &&& self.contest_file_begin.wf()
        &&& forall|i: int, j: int|
            0 <= i < j < self@.seen_run_ids.len() ==> self@.seen_run_ids[i]
                != self@.seen_run_ids[j]
    }

    /// A store that has seen nothing yet; `time_file` is negative
    /// until the first snapshot arrives.
    pub fn empty() -> (db: DB)
        ensures
            db@.time_file == -1,
            db@.run_file =~= Seq::<RunV>::empty(),
            db@.run_file_secret =~= Seq::<RunV>::empty(),
            db@.seen_run_ids =~= Seq::<u64>::empty(),
            db.wf(),
    {
        DB {
            time_file: -1,
            contest_file_begin: ContestFile::empty(),
            contest_file_current: ContestFile::empty(),
            run_file: RunsFile::empty(),
            run_file_secret: RunsFile::empty(),
            seen_run_ids: Vec::new(),
        }
    }

    /// Whether a snapshot has been loaded; endpoints answer not-found
    /// until then.
    pub fn has_data(&self) -> (r: bool)
        ensures
            r == (self@.time_file >= 0),
    {
        self.time_file >= 0
    }

    /// The public run file.
    pub fn latest(&self) -> (r: &RunsFile)
        ensures
            r@ == self@.run_file,
    {
        &self.run_file
    }

    /// The current scoreboard.
    pub fn get_scoreboard(&self) -> (r: &ContestFile)
        ensures
            r@ == self@.contest_file_current,
    {
        &self.contest_file_current
    }

    /// The clock message for the timer channel.
    pub fn timer_data(&self) -> (t: TimerData)
        ensures
            t.current_time == self@.time_file,
            t.score_freeze_time == self@.contest_file_begin.score_freeze_time,
    {
        TimerData::new(self.time_file, self.contest_file_begin.score_freeze_time)
    }

    /// Ingest one snapshot: remember the clock, keep the first contest
    /// file as the base, rebuild the public and secret run files and
    /// the current scoreboard, and report the runs not seen before, in
    /// submission order and publicly masked. A run naming an unknown
    /// team surfaces as `ContestError::UnknownTeam` and leaves the
    /// store untouched.
    pub fn refresh_db(&mut self, time: i64, contest: ContestFile, runs: RunsFile) -> (r: Result<
        Vec<Run>,
        ContestError,
    >)
        requires
            old(self).wf(),
            contest.wf(),
        ensures
            final(self).wf(),
            r matches Ok(fresh) ==> refresh_rel(
                old(self)@,
                final(self)@,
                runs_view(fresh@),
                time,
                contest@,
                runs@,
            ),
            r is Err ==> final(self)@ == old(self)@,
            ({
                let begin = if old(self)@.time_file < 0 {
                    contest@
                } else {
                    old(self)@.contest_file_begin
                };
                r is Ok <==> all_logins_known(runs@, begin)
            }),
            // A failure names an offending login: one of the snapshot's
            // runs refers to a team the base contest does not have.
            r matches Err(e) ==> (e matches ContestError::UnknownTeam(l) && ({
                let begin = if old(self)@.time_file < 0 {
                    contest@
                } else {
                    old(self)@.contest_file_begin
                };
                crate::contest::find_team_idx(begin.teams, l@) < 0 && exists|k: int|
                    0 <= k < runs@.len() && (#[trigger] runs@[k]).team_login == l@
            })),
    {
        let ghost cv_arg = contest@;
        let first_load = self.time_file < 0;
        let begin: ContestFile = if first_load {
            contest
        } else {
            self.contest_file_begin.duplicate()
        };
        let freeze = begin.score_freeze_time;
        let sorted_all = runs.sorted();
        let ghost secv = runs_view(sorted_all@);
        // The public copy, with verdicts after the freeze hidden.
        let mut masked: Vec<Run> = Vec::new();
        let n = sorted_all.len();
        let mut i: usize = 0;
        while i < n
            invariant
                n == sorted_all@.len(),
                secv == runs_view(sorted_all@),
                i <= n,
                *self == *old(self),
                old(self).wf(),
                masked@.len() == i,
                forall|k: int|
                    0 <= k < i ==> (#[trigger] masked@[k])@ == mask_run(secv[k], freeze),
            decreases n - i,
        {
            let mut m = sorted_all[i].duplicate();
            if m.time_minutes >= freeze {
                m.verdict = Verdict::Pending;
            }
            masked.push(m);
            i = i + 1;
        }
        let ghost maskv = runs_view(masked@);
        proof {
            assert(maskv =~= mask_runs(secv, freeze));
        }
        // Rebuild the scoreboard from the base contest.
        let mut current = begin.duplicate();
        let ghost bv = begin@;
        let m2 = masked.len();
        let mut j: usize = 0;
        while j < m2
            invariant
                m2 == masked@.len(),
                maskv == runs_view(masked@),
                maskv == mask_runs(secv, freeze),
                secv.to_multiset() == runs@.to_multiset(),
                *self == *old(self),
                old(self).wf(),
                bv == begin@,
                bv == (if old(self)@.time_file < 0 {
                    cv_arg
                } else {
                    old(self)@.contest_file_begin
                }),
                cv_arg == contest@,
                begin.wf(),
                current.wf(),
                j <= m2,
                freeze == bv.score_freeze_time,
                current@ == contest_apply_split(bv, maskv.take(j as int), freeze),
                crate::revelation::all_logins_known(maskv.take(j as int), bv),
            decreases m2 - j,
        {
            proof {
                assert(maskv.take(j + 1).drop_last() =~= maskv.take(j as int));
                assert(maskv.take(j + 1).last() == maskv[j as int]);
                crate::revelation::lemma_split_preserves_roster(
                    bv,
                    maskv.take(j as int),
                    freeze,
                );
            }
            let run = &masked[j];
            let res = if run.time_minutes < freeze {
                match current.apply_run(run) {
                    Ok(_) => Ok(()),
                    Err(e) => Err(e),
                }
            } else {
                current.apply_run_frozen(run)
            };
            match res {
                Ok(_) => {
                    proof {
                        assert forall|k: int|
                            0 <= k < j + 1 implies crate::contest::find_team_idx(
                            bv.teams,
                            (#[trigger] maskv.take(j + 1)[k]).team_login,
                        ) >= 0 by {
                            if k < j {
                                assert(maskv.take(j as int)[k] == maskv.take(j + 1)[k]);
                            }
                        }
                    }
                    j = j + 1;
                },
                Err(e) => {
                    proof {
                        assert(crate::contest::find_team_idx(bv.teams, maskv[j as int].team_login)
                            < 0);
                        assert(maskv.len() == secv.len());
                        assert(maskv[j as int] == mask_run(secv[j as int], freeze));
                        assert(maskv[j as int].team_login == secv[j as int].team_login);
                        if all_logins_known(runs@, bv) {
                            crate::revelation::lemma_logins_known_perm(runs@, secv, bv);
                            assert(crate::contest::find_team_idx(
                                bv.teams,
                                secv[j as int].team_login,
                            ) >= 0);
                        }
                        // The offending login occurs among the
                        // snapshot's runs.
                        broadcast use vstd::seq_lib::group_to_multiset_ensures;

                        assert(secv.contains(secv[j as int]));
                        assert(runs@.to_multiset().contains(secv[j as int]));
                        assert(runs@.contains(secv[j as int]));
                        let w = choose|w: int|
                            0 <= w < runs@.len() && runs@[w] == secv[j as int];
                        assert((#[trigger] runs@[w]).team_login == secv[j as int].team_login);
                    }
                    return Err(e);
                },
            }
        }
        proof {
            assert(maskv.take(m2 as int) =~= maskv);
            assert(maskv == mask_runs(secv, freeze));
            assert(all_logins_known(maskv, bv)) by {
                assert forall|k: int|
                    0 <= k < maskv.len() implies crate::contest::find_team_idx(
                    bv.teams,
                    (#[trigger] maskv[k]).team_login,
                ) >= 0 by {
                    assert((maskv.take(m2 as int)[k]).team_login == maskv[k].team_login);
                }
            }
            assert(all_logins_known(secv, bv)) by {
                assert forall|k: int|
                    0 <= k < secv.len() implies crate::contest::find_team_idx(
                    bv.teams,
                    (#[trigger] secv[k]).team_login,
                ) >= 0 by {
                    assert(maskv[k] == mask_run(secv[k], freeze));
                    assert(maskv[k].team_login == secv[k].team_login);
                    assert(crate::contest::find_team_idx(bv.teams, maskv[k].team_login) >= 0);
                }
            }
            crate::revelation::lemma_logins_known_perm(secv, runs@, bv);
        }
        let res = current.recalculate_placement_no_filter();
        match res {
            Ok(_) => {},
            Err(_) => {},
        }
        // The fresh runs: public copies of what was never seen before.
        let ghost seen0 = self@.seen_run_ids;
        let mut fresh: Vec<Run> = Vec::new();
        let mut k: usize = 0;
        proof {
            reveal(Seq::filter);
            assert(runs_view(fresh@) =~= maskv.take(0).filter(
                |x: RunV| !seen0.contains(x.id),
            ));
        }
        while k < m2
            invariant
                m2 == masked@.len(),
                maskv == runs_view(masked@),
                seen0 == self@.seen_run_ids,
                *self == *old(self),
                k <= m2,
                runs_view(fresh@) == maskv.take(k as int).filter(
                    |x: RunV| !seen0.contains(x.id),
                ),
            decreases m2 - k,
        {
            proof {
                reveal(Seq::filter);
                assert(maskv.take(k + 1).drop_last() =~= maskv.take(k as int));
                assert(maskv.take(k + 1).last() == maskv[k as int]);
            }
            if !seen_contains(&self.seen_run_ids, masked[k].id) {
                fresh.push(masked[k].duplicate());
                proof {
                    assert(runs_view(fresh@) =~= maskv.take(k as int).filter(
                        |x: RunV| !seen0.contains(x.id),
                    ).push(maskv[k as int]));
                }
            }
            k = k + 1;
        }
        proof {
            assert(maskv.take(m2 as int) =~= maskv);
        }
        // Remember the newly seen ids.
        let ghost idsv = secv.map_values(|r: RunV| r.id);
        let mut w: usize = 0;
        while w < n
            invariant
                n == sorted_all@.len(),
                secv == runs_view(sorted_all@),
                idsv == secv.map_values(|r: RunV| r.id),
                w <= n,
                self@.seen_run_ids == add_new_ids(seen0, idsv.take(w as int)),
                self.time_file == old(self).time_file,
                self.contest_file_begin == old(self).contest_file_begin,
                self.contest_file_current == old(self).contest_file_current,
                self.run_file == old(self).run_file,
                self.run_file_secret == old(self).run_file_secret,
            decreases n - w,
        {
            proof {
                assert(idsv.take(w + 1).drop_last() =~= idsv.take(w as int));
                assert(idsv.take(w + 1).last() == idsv[w as int]);
            }
            let ghost pre_seen = self@.seen_run_ids;
            if !seen_contains(&self.seen_run_ids, sorted_all[w].id) {
                self.seen_run_ids.push(sorted_all[w].id);
                proof {
                    assert(self@.seen_run_ids =~= pre_seen.push(idsv[w as int]));
                }
            }
            w = w + 1;
        }
        proof {
            assert(idsv.take(n as int) =~= idsv);
            lemma_add_new_ids_distinct(seen0, idsv);
            assert forall|id: u64|
                #![trigger add_new_ids(seen0, idsv).contains(id)]
                #![trigger seen0.contains(id)]
                add_new_ids(seen0, idsv).contains(id) <==> (seen0.contains(id) || exists|kk: int|
                    0 <= kk < runs@.len() && (#[trigger] runs@[kk]).id == id) by {
                lemma_add_new_ids_contains(seen0, idsv, id);
                broadcast use vstd::seq_lib::group_to_multiset_ensures;

                if idsv.contains(id) {
                    let x = choose|x: int| 0 <= x < idsv.len() && idsv[x] == id;
                    assert(secv[x].id == id);
                    assert(secv.contains(secv[x]));
                    assert(runs@.to_multiset().contains(secv[x]));
                    assert(runs@.contains(secv[x]));
                    let y = choose|y: int| 0 <= y < runs@.len() && runs@[y] == secv[x];
                }
                if exists|kk: int| 0 <= kk < runs@.len() && (#[trigger] runs@[kk]).id == id {
                    let kk = choose|kk: int| 0 <= kk < runs@.len() && (#[trigger] runs@[kk]).id
                        == id;
                    assert(runs@.contains(runs@[kk]));
                    assert(secv.to_multiset().contains(runs@[kk]));
                    assert(secv.contains(runs@[kk]));
                    let y = choose|y: int| 0 <= y < secv.len() && secv[y] == runs@[kk];
                    assert(idsv[y] == id);
                    assert(idsv.contains(id));
                }
            }
        }
        // Commit.
        self.time_file = time;
        self.contest_file_begin = begin;
        self.contest_file_current = current;
        self.run_file = RunsFile::new(masked);
        self.run_file_secret = RunsFile::new(sorted_all);
        proof {
            let pre = old(self)@;
            let post = self@;
            assert(post.time_file == time);
            assert(post.contest_file_begin == if pre.time_file < 0 {
                contest@
            } else {
                pre.contest_file_begin
            });
            assert(runs_sorted_le(post.run_file_secret));
            assert(post.run_file_secret.to_multiset() == runs@.to_multiset());
            assert(post.run_file == mask_runs(
                post.run_file_secret,
                post.contest_file_begin.score_freeze_time,
            ));
            assert(post.contest_file_current == recalc_spec(
                contest_apply_split(
                    post.contest_file_begin,
                    post.run_file,
                    post.contest_file_begin.score_freeze_time,
                ),
            ));
            assert(post.seen_run_ids == add_new_ids(
                pre.seen_run_ids,
                post.run_file_secret.map_values(|r: RunV| r.id),
            ));
            assert(runs_view(fresh@) == post.run_file.filter(
                |x: RunV| !pre.seen_run_ids.contains(x.id),
            ));
            lemma_add_new_ids_distinct(seen0, idsv);
        }
        Ok(fresh)
    }
}

/// Record each id in turn, skipping those already known: the exact
/// bookkeeping `refresh_db` performs.
pub open spec fn add_new_ids(seen: Seq<u64>, ids: Seq<u64>) -> Seq<u64>
    decreases ids.len(),
{
    if ids.len() == 0 {
        seen
    } else {
        let prev = add_new_ids(seen, ids.drop_last());
        if prev.contains(ids.last()) {
            prev
        } else {
            prev.push(ids.last())
        }
    }
}

/// The bookkeeping records exactly the old and the new ids.
pub proof fn lemma_add_new_ids_contains(seen: Seq<u64>, ids: Seq<u64>, id: u64)
    ensures
        add_new_ids(seen, ids).contains(id) <==> (seen.contains(id) || ids.contains(id)),
    decreases ids.len(),
{
    if ids.len() > 0 {
        lemma_add_new_ids_contains(seen, ids.drop_last(), id);
        let dl = ids.drop_last();
        let prev = add_new_ids(seen, dl);
        let out = add_new_ids(seen, ids);
        assert(ids.contains(id) <==> (dl.contains(id) || ids.last() == id)) by {
            if ids.contains(id) {
                let k = choose|k: int| 0 <= k < ids.len() && ids[k] == id;
                if k < ids.len() - 1 {
                    assert(dl[k] == id);
                }
            }
            if dl.contains(id) {
                let k = choose|k: int| 0 <= k < dl.len() && dl[k] == id;
                assert(ids[k] == id);
            }
            if ids.last() == id {
                assert(ids[ids.len() - 1] == id);
            }
        }
        if prev.contains(ids.last()) {
            assert(out == prev);
        } else {
            assert(out == prev.push(ids.last()));
            assert(out.contains(id) <==> (prev.contains(id) || id == ids.last())) by {
                if prev.contains(id) {
                    let x = choose|x: int| 0 <= x < prev.len() && prev[x] == id;
                    assert(out[x] == id);
                }
                if id == ids.last() {
                    assert(out[out.len() - 1] == id);
                }
                if out.contains(id) {
                    let x = choose|x: int| 0 <= x < out.len() && out[x] == id;
                    if x < prev.len() {
                        assert(prev[x] == id);
                    } else {
                        assert(out[x] == ids.last());
                    }
                }
            }
        }
    }
}

/// The bookkeeping never records an id twice.
pub proof fn lemma_add_new_ids_distinct(seen: Seq<u64>, ids: Seq<u64>)
    requires
        forall|a: int, b: int| 0 <= a < b < seen.len() ==> seen[a] != seen[b],
    ensures
        forall|a: int, b: int|
            0 <= a < b < add_new_ids(seen, ids).len() ==> add_new_ids(seen, ids)[a]
                != add_new_ids(seen, ids)[b],
    decreases ids.len(),
{
    if ids.len() > 0 {
        lemma_add_new_ids_distinct(seen, ids.drop_last());
        let prev = add_new_ids(seen, ids.drop_last());
        let out = add_new_ids(seen, ids);
        if !prev.contains(ids.last()) {
            assert forall|a: int, b: int| 0 <= a < b < out.len() implies out[a] != out[b] by {
                if b == out.len() - 1 {
                    assert(out[a] == prev[a]);
                    assert(out[b] == ids.last());
                }
            }
        }
    }
}

/// Linear membership test used for the id bookkeeping.
fn seen_contains(seen: &Vec<u64>, id: u64) -> (r: bool)
    ensures
        r == seen@.contains(id),
{
    let n = seen.len();
    let mut i: usize = 0;
    while i < n
        invariant
            n == seen@.len(),
            i <= n,
            forall|k: int| 0 <= k < i ==> seen@[k] != id,
        decreases n - i,
    {
        if seen[i] == id {
            assert(seen@[i as int] == id);
            return true;
        }
        i = i + 1;
    }
    proof {
        if seen@.contains(id) {
            let k = choose|k: int| 0 <= k < seen@.len() && seen@[k] == id;
        }
    }
    false
}

/// A permutation keeps run ids pairwise distinct.
proof fn lemma_perm_distinct_ids(a: Seq<RunV>, b: Seq<RunV>)
    requires
        a.to_multiset() == b.to_multiset(),
        forall|i: int, j: int| 0 <= i < j < a.len() ==> a[i].id != a[j].id,
    ensures
        forall|i: int, j: int| 0 <= i < j < b.len() ==> b[i].id != b[j].id,
{
    broadcast use vstd::seq_lib::group_to_multiset_ensures;

    assert forall|i: int, j: int| 0 <= i < j < b.len() implies b[i].id != b[j].id by {
        if b[i].id == b[j].id {
            if b[i] == b[j] {
                // The value occurs twice in `b`, hence twice in `a`.
                assert(b.remove(i).to_multiset() =~= b.to_multiset().remove(b[i]));
                assert(b.remove(i)[j - 1] == b[j]);
                assert(b.remove(i).contains(b[j]));
                assert(b.remove(i).to_multiset().count(b[j]) > 0);
                assert(a.to_multiset().count(b[i]) >= 2);
                assert(a.contains(b[i]));
                let p = choose|p: int| 0 <= p < a.len() && a[p] == b[i];
                assert(a.remove(p).to_multiset() =~= a.to_multiset().remove(a[p]));
                assert(a.remove(p).to_multiset().count(b[i]) >= 1);
                assert(a.remove(p).contains(b[i]));
                let q = choose|q: int| 0 <= q < a.remove(p).len() && a.remove(p)[q] == b[i];
                if q < p {
                    assert(a[q] == b[i]);
                    assert(a[q].id == a[p].id);
                } else {
                    assert(a[q + 1] == b[i]);
                    assert(a[q + 1].id == a[p].id);
                }
            } else {
                assert(b.contains(b[i]) && b.contains(b[j]));
                assert(b.to_multiset().count(b[i]) > 0 && b.to_multiset().count(b[j]) > 0);
                assert(a.to_multiset().count(b[i]) > 0 && a.to_multiset().count(b[j]) > 0);
                assert(a.contains(b[i]) && a.contains(b[j]));
                let p = choose|p: int| 0 <= p < a.len() && a[p] == b[i];
                let q = choose|q: int| 0 <= q < a.len() && a[q] == b[j];
                assert(p != q);
                assert(a[p].id == a[q].id);
            }
        }
    }
}

/// Recording ids that are all known already changes nothing.
proof fn lemma_add_new_ids_noop(seen: Seq<u64>, ids: Seq<u64>)
    requires
        forall|k: int| 0 <= k < ids.len() ==> seen.contains(#[trigger] ids[k]),
    ensures
        add_new_ids(seen, ids) == seen,
    decreases ids.len(),
{
    if ids.len() > 0 {
        assert forall|k: int| 0 <= k < ids.drop_last().len() implies seen.contains(
            #[trigger] ids.drop_last()[k],
        ) by {
            assert(ids.drop_last()[k] == ids[k]);
        }
        lemma_add_new_ids_noop(seen, ids.drop_last());
        assert(seen.contains(ids[ids.len() - 1]));
    }
}

/// Filtering with a predicate that rejects everything yields nothing.
proof fn lemma_filter_none_runs(s: Seq<RunV>, p: spec_fn(RunV) -> bool)
    requires
        forall|k: int| 0 <= k < s.len() ==> !p(#[trigger] s[k]),
    ensures
        s.filter(p) == Seq::<RunV>::empty(),
    decreases s.len(),
{
    reveal(Seq::filter);
    if s.len() > 0 {
        assert forall|k: int| 0 <= k < s.drop_last().len() implies !p(
            #[trigger] s.drop_last()[k],
        ) by {
            assert(s.drop_last()[k] == s[k]);
        }
        lemma_filter_none_runs(s.drop_last(), p);
        assert(!p(s[s.len() - 1]));
    }
}

/// Idempotent refresh: feeding the same snapshot twice leaves the
/// store exactly as after the first refresh and reports no fresh runs.
/// (The snapshot's runs must carry pairwise distinct ids, and its clock
/// must not be negative: a negative clock re-triggers the first-load
/// replacement of the base contest.)
pub proof fn lemma_refresh_idempotent(
    d0: DbV,
    d1: DbV,
    d2: DbV,
    f1: Seq<RunV>,
    f2: Seq<RunV>,
    time: i64,
    cv: ContestV,
    rsv: Seq<RunV>,
)
    requires
        refresh_rel(d0, d1, f1, time, cv, rsv),
        refresh_rel(d1, d2, f2, time, cv, rsv),
        time >= 0,
        forall|i: int, j: int| 0 <= i < j < rsv.len() ==> rsv[i].id != rsv[j].id,
    ensures
        d2 == d1,
        f2 == Seq::<RunV>::empty(),
{
    broadcast use vstd::seq_lib::group_to_multiset_ensures;

    assert(d2.contest_file_begin == d1.contest_file_begin);
    // The secret files are sorted arrangements of the same runs with
    // distinct ids, hence identical.
    lemma_perm_distinct_ids(rsv, d1.run_file_secret);
    assert(crate::contest::runs_sorted(d1.run_file_secret)) by {
        assert forall|i: int, j: int|
            0 <= i < j < d1.run_file_secret.len() implies crate::contest::run_before(
            d1.run_file_secret[i],
            d1.run_file_secret[j],
        ) by {
            assert(crate::contest::run_before_eq(d1.run_file_secret[i], d1.run_file_secret[j]));
            assert(d1.run_file_secret[i].id != d1.run_file_secret[j].id);
        }
    }
    crate::contest::lemma_sorted_unique(d1.run_file_secret, d2.run_file_secret);
    assert(d2.run_file == d1.run_file);
    assert(d2.contest_file_current == d1.contest_file_current);
    // Every id of the snapshot is already on record, so the second
    // refresh records nothing new and reports nothing fresh.
    let ids2 = d2.run_file_secret.map_values(|r: RunV| r.id);
    assert forall|k: int| 0 <= k < ids2.len() implies d1.seen_run_ids.contains(
        #[trigger] ids2[k],
    ) by {
        assert(d2.run_file_secret.contains(d2.run_file_secret[k]));
        assert(rsv.to_multiset().contains(d2.run_file_secret[k]));
        assert(rsv.contains(d2.run_file_secret[k]));
        let y = choose|y: int| 0 <= y < rsv.len() && rsv[y] == d2.run_file_secret[k];
        assert((#[trigger] rsv[y]).id == ids2[k]);
        assert(d1.seen_run_ids.contains(ids2[k]));
    }
    lemma_add_new_ids_noop(d1.seen_run_ids, ids2);
    assert(d2.seen_run_ids == d1.seen_run_ids);
    assert forall|k: int| 0 <= k < d2.run_file.len() implies !(
    |x: RunV| !d1.seen_run_ids.contains(x.id))(#[trigger] d2.run_file[k]) by {
        let x = d2.run_file[k];
        assert(x == mask_run(d2.run_file_secret[k], d2.contest_file_begin.score_freeze_time));
        assert(x.id == ids2[k]);
    }
    lemma_filter_none_runs(d2.run_file, |x: RunV| !d1.seen_run_ids.contains(x.id));
}

} // verus!
