//! Update loop core: what one tick does once the loader has produced a
//! snapshot. The surrounding timer loop and the snapshot fetch are the
//! caller's business; this is the part that mutates the store and
//! publishes to the broadcast channels.

use vstd::prelude::*;

verus! {

use crate::broadcast::RunsBroadcast;
use crate::broadcast::TimerBroadcast;
use crate::contest::ContestError;
use crate::contest::ContestFile;
use crate::contest::RunV;
use crate::contest::RunsFile;
use crate::contest::TimerData;
use crate::contest::runs_view;
use crate::store::DB;
use crate::store::refresh_rel;

/// Ingest one snapshot and fan it out: refresh the store, publish each
/// fresh run on the runs channel in submission order, and offer the new
/// clock value to the timer channel (which suppresses repeats). Errors
/// of the refresh leave the store and both channels untouched so the
/// caller can retry at the next tick.
pub fn update_runs_from_data(
    time: i64,
    contest: ContestFile,
    runs: RunsFile,
    db: &mut DB,
    runs_tx: &mut RunsBroadcast,
    time_tx: &mut TimerBroadcast,
) -> (r: Result<(), ContestError>)
    requires
        old(db).wf(),
        contest.wf(),
        old(runs_tx).wf(),
        old(time_tx).wf(),
    ensures
        final(db).wf(),
        final(runs_tx).wf(),
        final(time_tx).wf(),
        r matches Ok(_) ==> exists|fresh: Seq<RunV>|
            {
                &&& #[trigger] refresh_rel(old(db)@, final(db)@, fresh, time, contest@, runs@)
                &&& final(runs_tx).hist() == old(runs_tx).hist() + fresh
                &&& final(time_tx).last == Some(
                    TimerData {
                        current_time: final(db)@.time_file,
                        score_freeze_time: final(db)@.contest_file_begin.score_freeze_time,
                    },
                )
            },
        r is Err ==> final(db)@ == old(db)@ && *final(runs_tx) == *old(runs_tx)
            && *final(time_tx) == *old(time_tx),
        // Success is owed exactly when the refresh succeeds: every run
        // of the snapshot names a team of the base contest.
        ({
            let begin = if old(db)@.time_file < 0 {
                contest@
            } else {
                old(db)@.contest_file_begin
            };
            r is Ok <==> crate::revelation::all_logins_known(runs@, begin)
        }),
        // A failure is the refresh's own error, carried through
        // unchanged: it names an offending login.
        r matches Err(e) ==> (e matches crate::contest::ContestError::UnknownTeam(l) && ({
            let begin = if old(db)@.time_file < 0 {
                contest@
            } else {
                old(db)@.contest_file_begin
            };
            crate::contest::find_team_idx(begin.teams, l@) < 0 && exists|k: int|
                0 <= k < runs@.len() && (#[trigger] runs@[k]).team_login == l@
        })),
{
    let ghost cv_arg = contest@;
    let ghost rv_arg = runs@;
    let fresh = match db.refresh_db(time, contest, runs) {
        Ok(f) => f,
        Err(e) => {
            return Err(e);
        },
    };
    let ghost dbsnap = *db;
    let ghost freshv = runs_view(fresh@);
    let ghost h0 = runs_tx.hist();
    let n = fresh.len();
    let mut i: usize = 0;
    while i < n
        invariant
            n == fresh@.len(),
            freshv == runs_view(fresh@),
            runs_tx.wf(),
            runs_tx.hist() == h0 + freshv.take(i as int),
            i <= n,
            *db == dbsnap,
            db.wf(),
            refresh_rel(old(db)@, dbsnap@, freshv, time, cv_arg, rv_arg),
        decreases n - i,
    {
        proof {
            assert(freshv.take(i + 1) =~= freshv.take(i as int).push(freshv[i as int]));
        }
        runs_tx.send_memo(&fresh[i]);
        proof {
            assert(runs_tx.hist() =~= h0 + freshv.take(i + 1));
        }
        i = i + 1;
    }
    proof {
        assert(freshv.take(n as int) =~= freshv);
    }
    let t = db.timer_data();
    time_tx.send(t);
    Ok(())
}

} // verus!
