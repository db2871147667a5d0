//! Ceremony client core: the state machine behind the revelation
//! screen. Button presses advance the `RevelationDriver`; the
//! surrounding shell only fetches data, schedules the delayed
//! follow-up messages this machine asks for, and renders the model.

use vstd::prelude::*;

verus! {

use crate::configdata::ConfigContest;
use crate::configdata::Sede;
use crate::configdata::sede_matches;
use crate::contest::ContestFile;
use crate::contest::ContestV;
use crate::contest::RunV;
use crate::contest::RunsFile;
use crate::contest::TeamV;
use crate::contest::recalc_spec;
use crate::contest::runs_sorted_le;
use crate::contest::team_score;
use crate::revelation::RevelationDriver;
use crate::revelation::all_logins_known;
use crate::revelation::contest_apply_split;
use crate::revelation::drain_spec;
use crate::revelation::frozen_contest;
use crate::revelation::pop_spec;
use crate::revelation::queue_pick;

/// What the shell must do after a step: nothing, deliver a follow-up
/// message now, deliver it after a delay in milliseconds, or start
/// fetching the contest data anew.
#[derive(Debug, PartialEq, Eq)]
pub enum Command {
    Nothing,
    Deliver(Followup),
    DeliverAfter(u32, Followup),
    StartFetch,
}

/// The messages the machine schedules for itself.
#[derive(Clone, Copy, Debug, PartialEq, Eq)]
pub enum Followup {
    Scroll1,
    Scroll(usize),
    Unlock,
}

/// Messages handled by the revelation screen.
pub enum Msg {
    /// Reveal one run, scrolling to the team first when the focus
    /// changes.
    Prox1,
    /// Perform the single reveal.
    Scroll1,
    /// Reveal down to the given number of queued teams.
    Prox(usize),
    /// Perform the bulk reveal.
    Scroll(usize),
    /// Re-enable the buttons after a bulk reveal.
    Unlock,
    /// Reload everything.
    Reset,
    /// The fetched run file, contest file and site configuration; a
    /// failed fetch carries its message instead.
    Fetched(Result<RunsFile, String>, Result<ContestFile, String>, Result<ConfigContest, String>),
}

/// The login the screen focuses next: the team that pops first, if
/// any is queued.
pub open spec fn focus_login(d: &RevelationDriver) -> Option<Seq<char>> {
    if d.queue_v().len() > 0 {
        Some(d.queue_v()[queue_pick(d.queue_v())].team_login)
    } else {
        None
    }
}

/// The characters of an optional focus string.
pub open spec fn center_view(c: Option<String>) -> Option<Seq<char>> {
    match c {
        Some(s) => Some(s@),
        None => None,
    }
}

/// The contest the screen reveals: restricted to the configured sede,
/// when there is one.
pub open spec fn fetched_contest(cv: ContestV, sede: Option<Sede>) -> ContestV {
    match sede {
        Some(s) => ContestV { teams: cv.teams.filter(|t: TeamV| sede_matches(s@, t.login)), ..cv },
        None => cv,
    }
}

/// The model of the revelation screen.
pub struct Model {
    pub button_disabled: bool,
    pub secret: String,
    pub center: Option<String>,
    pub revelation: Option<RevelationDriver>,
    pub sede: Option<Sede>,
}

impl Model {
    /// The machine keeps its driver well-formed at all times.
    pub open spec fn wf(&self) -> bool {
        self.revelation matches Some(d) ==> d.wf()
    }

    /// A fresh model that will fetch its data on the first `Reset`.
    pub fn new(secret: String, sede: Option<Sede>) -> (m: Model)
        ensures
            m.wf(),
            m.revelation is None,
            m.center is None,
            !m.button_disabled,
    {
        Model { button_disabled: false, secret, center: None, revelation: None, sede }
    }

    /// How many teams are still queued for revelation.
    pub fn remaining(&self) -> (n: usize)
        ensures
            n == match self.revelation {
                Some(d) => d.queue_v().len(),
                None => 0,
            },
    {
        match &self.revelation {
            Some(r) => r.len(),
            None => 0,
        }
    }

    /// Handle one message: the decision core of the ceremony screen.
    /// Reveal steps run only through `Scroll1` and `Scroll`; `Prox1`
    /// first moves the focus to the next team and delays the reveal
    /// by a second when the focus actually changes.
    pub fn update(&mut self, msg: Msg) -> (cmd: Command)
        requires
            old(self).wf(),
            msg matches Msg::Fetched(r, c, g) ==> (c matches Ok(cf) ==> cf.wf()),
        ensures
            final(self).wf(),
            final(self).secret == old(self).secret,
            final(self).sede == old(self).sede,
            // Prox1: lock the buttons, move the focus to the team that
            // reveals next; the reveal itself is immediate when the
            // focus stands there already, else delayed by a second.
            msg matches Msg::Prox1 ==> final(self).button_disabled && final(self).revelation
                == old(self).revelation && ({
                let nc = match old(self).revelation {
                    Some(d) => focus_login(&d),
                    None => None,
                };
                if nc == center_view(old(self).center) {
                    cmd == Command::Deliver(Followup::Scroll1) && final(self).center == old(
                        self,
                    ).center
                } else {
                    cmd == Command::DeliverAfter(1000, Followup::Scroll1) && center_view(
                        final(self).center,
                    ) == nc
                }
            }),
            // Scroll1: one revelation step on the driver, focus moves
            // to the next team, buttons unlock.
            msg matches Msg::Scroll1 ==> !final(self).button_disabled && cmd == Command::Nothing
                && (match old(self).revelation {
                Some(d) => final(self).revelation matches Some(d2) && {
                    let (q2, c2) = pop_spec(d.queue_v(), d.contest_v());
                    &&& d2.queue_v() == q2
                    &&& d2.contest_v() == recalc_spec(c2)
                    &&& center_view(final(self).center) == focus_login(&d2)
                },
                None => final(self).revelation is None && final(self).center is None,
            }),
            // Scroll(n): reveal until n teams remain queued, focus the
            // next team, and unlock only after five seconds.
            msg matches Msg::Scroll(n) ==> final(self).button_disabled == old(
                self,
            ).button_disabled && cmd == Command::DeliverAfter(5000, Followup::Unlock) && (
            match old(self).revelation {
                Some(d) => final(self).revelation matches Some(d2) && {
                    let fuel = (frozen_contest(d.contest_v()) + d.queue_v().len()) as nat;
                    let (q2, c2) = drain_spec(d.queue_v(), d.contest_v(), n as int, fuel);
                    &&& d2.queue_v() == q2
                    &&& d2.contest_v() == recalc_spec(c2)
                    &&& center_view(final(self).center) == focus_login(&d2)
                },
                None => final(self).revelation is None && final(self).center is None,
            }),
            msg matches Msg::Prox(n) ==> final(self).button_disabled && cmd == Command::Deliver(
                Followup::Scroll(n),
            ) && final(self).revelation == old(self).revelation && final(self).center == old(
                self,
            ).center,
            msg matches Msg::Unlock ==> !final(self).button_disabled && cmd == Command::Nothing
                && final(self).revelation == old(self).revelation && final(self).center == old(
                self,
            ).center,
            msg matches Msg::Reset ==> final(self).button_disabled && cmd == Command::StartFetch
                && final(self).revelation == old(self).revelation && final(self).center == old(
                self,
            ).center,
            // Fetched: on three successes the driver is rebuilt over
            // the (possibly sede-filtered) contest; it exists exactly
            // when every run names a team of that contest, and then it
            // is freshly loaded in (time, id) order with every team
            // queued. A failed fetch changes nothing.
            msg matches Msg::Fetched(rr, cr, gr) ==> match (rr, cr, gr) {
                (Ok(runs), Ok(contest), Ok(_)) => {
                    let fc = fetched_contest(contest@, old(self).sede);
                    &&& cmd == Command::Nothing
                    &&& !final(self).button_disabled
                    &&& final(self).center is None
                    &&& (final(self).revelation is Some <==> all_logins_known(runs@, fc))
                    &&& (final(self).revelation matches Some(d) ==> d.queue_v().len()
                        == fc.teams.len() && exists|srt: Seq<RunV>|
                        #![trigger runs_sorted_le(srt)]
                        {
                            &&& runs_sorted_le(srt)
                            &&& srt.to_multiset() == runs@.to_multiset()
                            &&& d.contest_v() == recalc_spec(
                                contest_apply_split(fc, srt, fc.score_freeze_time),
                            )
                        })
                },
                _ => *final(self) == *old(self) && cmd == Command::Nothing,
            },
    {
        match msg {
            Msg::Prox1 => {
                self.button_disabled = true;
                let next_center = match &self.revelation {
                    Some(r) => match r.peek() {
                        Some(login) => Some(login.clone()),
                        None => None,
                    },
                    None => None,
                };
                let same = match (&next_center, &self.center) {
                    (Some(a), Some(b)) => *a == *b,
                    (None, None) => true,
                    _ => false,
                };
                if same {
                    Command::Deliver(Followup::Scroll1)
                } else {
                    self.center = next_center;
                    Command::DeliverAfter(1000, Followup::Scroll1)
                }
            },
            Msg::Scroll1 => {
                match &mut self.revelation {
                    Some(r) => {
                        let res = r.reveal_step();
                        match res {
                            Ok(_) => {},
                            Err(_) => {},
                        }
                        self.center = match r.peek() {
                            Some(login) => Some(login.clone()),
                            None => None,
                        };
                    },
                    None => {
                        self.center = None;
                    },
                }
                self.button_disabled = false;
                Command::Nothing
            },
            Msg::Prox(n) => {
                self.button_disabled = true;
                Command::Deliver(Followup::Scroll(n))
            },
            Msg::Scroll(n) => {
                match &mut self.revelation {
                    Some(r) => {
                        let res = r.reveal_top_n(n);
                        match res {
                            Ok(_) => {},
                            Err(_) => {},
                        }
                        self.center = match r.peek() {
                            Some(login) => Some(login.clone()),
                            None => None,
                        };
                    },
                    None => {
                        self.center = None;
                    },
                }
                Command::DeliverAfter(5000, Followup::Unlock)
            },
            Msg::Unlock => {
                self.button_disabled = false;
                Command::Nothing
            },
            Msg::Reset => {
                self.button_disabled = true;
                Command::StartFetch
            },
            Msg::Fetched(runs_r, contest_r, config_r) => {
                match (runs_r, contest_r, config_r) {
                    (Ok(runs), Ok(contest), Ok(_config)) => {
                        let ghost cv = contest@;
                        let ghost rsv = runs@;
                        let filtered = match &self.sede {
                            Some(sede) => contest.filter_sede(sede),
                            None => contest,
                        };
                        let ghost fcv = filtered@;
                        proof {
                            assert(fcv == fetched_contest(cv, old(self).sede));
                        }
                        let built = RevelationDriver::new(filtered, runs);
                        self.revelation = match built {
                            Ok(d) => Some(d),
                            Err(_) => None,
                        };
                        self.center = None;
                        self.button_disabled = false;
                        Command::Nothing
                    },
                    _ => Command::Nothing,
                }
            },
        }
    }
}

} // verus!
