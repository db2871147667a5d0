//! Site (sede) configuration: a sede names a venue and filters the
//! scoreboard down to the teams whose login contains one of its codes.

use vstd::prelude::*;

verus! {

use crate::contest::ContestFile;
use crate::contest::ContestV;
use crate::contest::Team;
use crate::contest::TeamV;

/// Whether `f` occurs as a contiguous substring of `t`.
pub open spec fn contains_sub(t: Seq<char>, f: Seq<char>) -> bool {
    exists|i: int| 0 <= i && i + f.len() <= t.len() && #[trigger] t.subrange(i, i + f.len()) == f
}

/// Whether `f` occurs in `t` starting at position `i`.
fn matches_at(t: &str, f: &str, i: usize, tn: usize, fl: usize) -> (r: bool)
    requires
        tn == t@.len(),
        fl == f@.len(),
        i + fl <= tn,
    ensures
        r == (t@.subrange(i as int, i + fl) == f@),
{
    let mut j: usize = 0;
    while j < fl
        invariant
            tn == t@.len(),
            fl == f@.len(),
            i + fl <= tn,
            j <= fl,
            forall|x: int| 0 <= x < j ==> t@[i + x] == f@[x],
        decreases fl - j,
    {
        let ca = t.get_char(i + j);
        let cb = f.get_char(j);
        if ca != cb {
            proof {
                assert(t@.subrange(i as int, i + fl)[j as int] == t@[i + j]);
            }
            return false;
        }
        j = j + 1;
    }
    proof {
        assert(t@.subrange(i as int, i + fl) =~= f@);
    }
    true
}

/// Substring search by direct scanning.
pub fn str_contains(t: &str, f: &str) -> (r: bool)
    ensures
        r == contains_sub(t@, f@),
{
    let tn = t.unicode_len();
    let fl = f.unicode_len();
    if fl == 0 {
        proof {
            let l = f@.len() as int;
            assert(t@.subrange(0, 0 + l) =~= f@);
        }
        return true;
    }
    if fl > tn {
        proof {
            if contains_sub(t@, f@) {
                let i = choose|i: int|
                    0 <= i && i + f@.len() <= t@.len() && #[trigger] t@.subrange(
                        i,
                        i + f@.len(),
                    ) == f@;
            }
        }
        return false;
    }
    let mut i: usize = 0;
    while i <= tn - fl
        invariant
            tn == t@.len(),
            fl == f@.len(),
            1 <= fl <= tn,
            i <= tn - fl + 1,
            forall|x: int| 0 <= x < i ==> #[trigger] t@.subrange(x, x + fl) != f@,
        decreases tn + 1 - i,
    {
        if matches_at(t, f, i, tn, fl) {
            return true;
        }
        i = i + 1;
    }
    proof {
        if contains_sub(t@, f@) {
            let x = choose|x: int|
                0 <= x && x + f@.len() <= t@.len() && #[trigger] t@.subrange(x, x + f@.len())
                    == f@;
            assert(t@.subrange(x, x + fl) != f@);
        }
    }
    false
}

/// The mathematical view of a sequence of strings.
pub open spec fn strings_view(s: Seq<String>) -> Seq<Seq<char>> {
    s.map_values(|x: String| x@)
}

/// A site (venue): a display name, its source identifiers and the
/// login codes that assign teams to it.
#[derive(Debug, Clone, PartialEq, Eq)]
pub struct Sede {
    pub name: String,
    pub source: String,
    pub parent_source: String,
    pub codes: Vec<String>,
}

pub ghost struct SedeV {
    pub name: Seq<char>,
    pub source: Seq<char>,
    pub parent_source: Seq<char>,
    pub codes: Seq<Seq<char>>,
}

impl View for Sede {
    type V = SedeV;

    open spec fn view(&self) -> SedeV {
        SedeV {
            name: self.name@,
            source: self.source@,
            parent_source: self.parent_source@,
            codes: strings_view(self.codes@),
        }
    }
}

/// A team belongs to a sede when some code occurs in its login.
pub open spec fn sede_matches(sv: SedeV, login: Seq<char>) -> bool {
    exists|k: int| 0 <= k < sv.codes.len() && contains_sub(login, #[trigger] sv.codes[k])
}

/// Some code of the filter occurs in the login.
pub open spec fn filter_allows(fs: Seq<String>, t: Seq<char>) -> bool {
    exists|k: int| 0 <= k < fs.len() && contains_sub(t, ((#[trigger] fs[k]))@)
}

impl Sede {
    /// A sede with a single code.
    pub fn new(name: &str, source: &str, parent_source: &str, code: &str) -> (s: Sede)
        ensures
            s@.name == name@,
            s@.source == source@,
            s@.parent_source == parent_source@,
            s@.codes =~= seq![code@],
    {
        let mut codes: Vec<&str> = Vec::new();
        codes.push(code);
        let ghost cv = codes@;
        let s = Self::supersede(name, source, parent_source, codes);
        proof {
            assert((cv[0])@ == code@);
            assert(s@.codes =~= seq![code@]);
        }
        s
    }

    /// A sede with any number of codes.
    pub fn supersede(name: &str, source: &str, parent_source: &str, codes: Vec<&str>) -> (s: Sede)
        ensures
            s@.name == name@,
            s@.source == source@,
            s@.parent_source == parent_source@,
            s@.codes.len() == codes@.len(),
            forall|k: int| 0 <= k < codes@.len() ==> s@.codes[k] == (#[trigger] codes@[k])@,
    {
        let mut owned: Vec<String> = Vec::new();
        let n = codes.len();
        let mut i: usize = 0;
        while i < n
            invariant
                n == codes@.len(),
                i <= n,
                owned@.len() == i,
                forall|k: int| 0 <= k < i ==> (#[trigger] owned@[k])@ == codes@[k]@,
            decreases n - i,
        {
            owned.push(codes[i].to_owned());
            i = i + 1;
        }
        let s = Sede {
            name: name.to_owned(),
            source: source.to_owned(),
            parent_source: parent_source.to_owned(),
            codes: owned,
        };
        s
    }

    /// Whether a login passes an optional code filter: no filter lets
    /// everything through, a filter requires one of its codes to occur.
    /// (See `filter_allows` for the exact condition.)
    pub fn check_filter_login(url_filter: &Option<Vec<String>>, t: &String) -> (r: bool)
        ensures
            match *url_filter {
                None => r == true,
                Some(ref fs) => r == filter_allows(fs@, t@),
            },
    {
        match url_filter {
            None => true,
            Some(tot) => {
                let n = tot.len();
                let mut i: usize = 0;
                while i < n
                    invariant
                        *url_filter matches Some(v) && v == *tot,
                        n == tot@.len(),
                        i <= n,
                        forall|k: int| 0 <= k < i ==> !contains_sub(t@, (#[trigger] tot@[k])@),
                    decreases n - i,
                {
                    if str_contains(t.as_str(), tot[i].as_str()) {
                        proof {
                            assert(contains_sub(t@, (tot@[i as int])@));
                            assert(filter_allows(tot@, t@));
                        }
                        return true;
                    }
                    i = i + 1;
                }
                proof {
                    if filter_allows(tot@, t@) {
                        let k = choose|k: int|
                            0 <= k < tot@.len() && contains_sub(t@, ((#[trigger] tot@[k]))@);
                        assert(!contains_sub(t@, (tot@[k])@));
                    }
                }
                false
            },
        }
    }

    /// Whether the login belongs to this sede.
    pub fn check_login(&self, t: &String) -> (r: bool)
        ensures
            r == sede_matches(self@, t@),
    {
        let n = self.codes.len();
        let mut i: usize = 0;
        while i < n
            invariant
                n == self@.codes.len(),
                i <= n,
                forall|k: int| 0 <= k < i ==> !contains_sub(t@, #[trigger] self@.codes[k]),
            decreases n - i,
        {
            if str_contains(t.as_str(), self.codes[i].as_str()) {
                proof {
                    assert(contains_sub(t@, self@.codes[i as int]));
                }
                return true;
            }
            i = i + 1;
        }
        false
    }
}

/// Contest-level site configuration: the list of sedes.
#[derive(Debug, Clone, PartialEq, Eq)]
pub struct ConfigContest {
    pub sedes: Vec<Sede>,
}

/// Index of the first sede a login belongs to, or -1.
pub open spec fn first_sede_idx(sedes: Seq<SedeV>, login: Seq<char>) -> int
    decreases sedes.len(),
{
    if sedes.len() == 0 {
        -1
    } else if sede_matches(sedes[0], login) {
        0
    } else {
        let k = first_sede_idx(sedes.drop_first(), login);
        if k < 0 {
            -1
        } else {
            k + 1
        }
    }
}

pub proof fn lemma_first_sede_idx(sedes: Seq<SedeV>, login: Seq<char>)
    ensures
        first_sede_idx(sedes, login) < 0 ==> forall|j: int|
            0 <= j < sedes.len() ==> !sede_matches(#[trigger] sedes[j], login),
        first_sede_idx(sedes, login) >= 0 ==> {
            let k = first_sede_idx(sedes, login);
            &&& 0 <= k < sedes.len()
            &&& sede_matches(sedes[k], login)
            &&& forall|j: int| 0 <= j < k ==> !sede_matches(#[trigger] sedes[j], login)
        },
    decreases sedes.len(),
{
    if sedes.len() > 0 && !sede_matches(sedes[0], login) {
        lemma_first_sede_idx(sedes.drop_first(), login);
        assert forall|j: int| 1 <= j < sedes.len() implies sedes.drop_first()[j - 1]
            == sedes[j] by {}
    }
}

impl ConfigContest {
    pub fn new(sedes: Vec<Sede>) -> (c: ConfigContest)
        ensures
            c.sedes == sedes,
    {
        ConfigContest { sedes }
    }

    /// The name of the first sede the team belongs to, if any.
    pub fn get_sede(&self, team: &String) -> (r: Option<String>)
        ensures
            ({
                let sv = strings_view_sedes(self.sedes@);
                match r {
                    Some(name) => {
                        let k = first_sede_idx(sv, team@);
                        k >= 0 && name@ == sv[k].name
                    },
                    None => first_sede_idx(sv, team@) < 0,
                }
            }),
    {
        let ghost sv = strings_view_sedes(self.sedes@);
        proof {
            lemma_first_sede_idx(sv, team@);
        }
        let n = self.sedes.len();
        let mut i: usize = 0;
        while i < n
            invariant
                n == self.sedes@.len(),
                sv == strings_view_sedes(self.sedes@),
                i <= n,
                forall|k: int| 0 <= k < i ==> !sede_matches(#[trigger] sv[k], team@),
            decreases n - i,
        {
            if self.sedes[i].check_login(team) {
                proof {
                    lemma_first_sede_idx(sv, team@);
                    let k = first_sede_idx(sv, team@);
                    if k < 0 {
                        assert(!sede_matches(sv[i as int], team@));
                    } else if k < i {
                        assert(!sede_matches(sv[k], team@));
                    } else if i < k {
                        assert(!sede_matches(sv[i as int], team@));
                    }
                }
                return Some(self.sedes[i].name.clone());
            }
            i = i + 1;
        }
        proof {
            let k = first_sede_idx(sv, team@);
            if k >= 0 {
                assert(!sede_matches(sv[k], team@));
            }
        }
        None
    }
}

/// The mathematical view of a sequence of sedes.
pub open spec fn strings_view_sedes(s: Seq<Sede>) -> Seq<SedeV> {
    s.map_values(|x: Sede| x@)
}

/// Elements of a filtered sequence are elements of the original.
proof fn lemma_filter_member_teams(s: Seq<TeamV>, p: spec_fn(TeamV) -> bool)
    ensures
        forall|a: int| 0 <= a < s.filter(p).len() ==> s.contains(#[trigger] s.filter(p)[a]),
    decreases s.len(),
{
    reveal(Seq::filter);
    if s.len() > 0 {
        lemma_filter_member_teams(s.drop_last(), p);
        assert forall|a: int| 0 <= a < s.filter(p).len() implies s.contains(
            #[trigger] s.filter(p)[a],
        ) by {
            let dl = s.drop_last().filter(p);
            if a < dl.len() {
                assert(s.drop_last().contains(dl[a]));
                let j = choose|j: int| 0 <= j < s.drop_last().len() && s.drop_last()[j] == dl[a];
                assert(s[j] == dl[a]);
            } else {
                assert(s.filter(p)[a] == s.last());
                assert(s[s.len() - 1] == s.last());
            }
        }
    }
}

impl ContestFile {
    /// The same contest restricted to the teams of one sede.
    pub fn filter_sede(&self, sede: &Sede) -> (c: ContestFile)
        ensures
            c@.name == self@.name,
            c@.start == self@.start,
            c@.duration_minutes == self@.duration_minutes,
            c@.score_freeze_time == self@.score_freeze_time,
            c@.problem_letters == self@.problem_letters,
            c@.teams == self@.teams.filter(
                |t: TeamV| sede_matches(sede@, t.login),
            ),
            self.wf() ==> c.wf(),
    {
        let ghost pred = |t: TeamV| sede_matches(sede@, t.login);
        let ghost tsv = self@.teams;
        let mut teams: Vec<Team> = Vec::new();
        let n = self.teams.len();
        let mut i: usize = 0;
        proof {
            reveal(Seq::filter);
            assert(teams@.map_values(|t: Team| t@) =~= tsv.take(0).filter(pred));
        }
        while i < n
            invariant
                n == self.teams.len(),
                tsv == self@.teams,
                pred == (|t: TeamV| sede_matches(sede@, t.login)),
                i <= n,
                teams@.map_values(|t: Team| t@) == tsv.take(i as int).filter(pred),
            decreases n - i,
        {
            proof {
                reveal(Seq::filter);
                assert(tsv.take(i + 1).drop_last() =~= tsv.take(i as int));
                assert(tsv.take(i + 1).last() == tsv[i as int]);
            }
            if sede.check_login(&self.teams[i].login) {
                let t = self.teams[i].duplicate();
                teams.push(t);
                proof {
                    assert(teams@.map_values(|t0: Team| t0@) =~= tsv.take(i as int).filter(
                        pred,
                    ).push(tsv[i as int]));
                }
            }
            i = i + 1;
        }
        proof {
            assert(tsv.take(n as int) =~= tsv);
        }
        let c = ContestFile {
            name: self.name.clone(),
            start: self.start,
            duration_minutes: self.duration_minutes,
            score_freeze_time: self.score_freeze_time,
            teams,
            problem_letters: clone_letters(&self.problem_letters),
        };
        proof {
            if self.wf() {
                let fv = c@.teams;
                lemma_filter_member_teams(tsv, pred);
                broadcast use vstd::seq_lib::group_filter_ensures;

                assert forall|a: int, b: int|
                    0 <= a < b < fv.len() implies fv[a].login != fv[b].login by {
                    lemma_filter_distinct_logins(tsv, pred, a, b);
                }
                assert forall|a: int| 0 <= a < fv.len() implies #[trigger] crate::contest::team_wf(
                    fv[a],
                ) by {
                    assert(tsv.contains(fv[a]));
                    let j = choose|j: int| 0 <= j < tsv.len() && tsv[j] == fv[a];
                    assert(crate::contest::team_wf(tsv[j]));
                }
                assert(fv.len() <= tsv.len());
            }
        }
        c
    }
}

/// In a roster with pairwise distinct logins, two different positions
/// of a filtered sub-roster carry different logins.
proof fn lemma_filter_distinct_logins(
    s: Seq<TeamV>,
    p: spec_fn(TeamV) -> bool,
    a: int,
    b: int,
)
    requires
        forall|i: int, j: int| 0 <= i < j < s.len() ==> s[i].login != s[j].login,
        0 <= a < b < s.filter(p).len(),
    ensures
        s.filter(p)[a].login != s.filter(p)[b].login,
    decreases s.len(),
{
    reveal(Seq::filter);
    if s.len() > 0 {
        let dl = s.drop_last().filter(p);
        assert forall|i: int, j: int|
            0 <= i < j < s.drop_last().len() implies s.drop_last()[i].login != s.drop_last(
        )[j].login by {
            assert(s.drop_last()[i] == s[i] && s.drop_last()[j] == s[j]);
        }
        if b < dl.len() {
            lemma_filter_distinct_logins(s.drop_last(), p, a, b);
        } else {
            assert(s.filter(p)[b] == s.last());
            lemma_filter_member_teams(s.drop_last(), p);
            assert(s.drop_last().contains(dl[a]));
            let j = choose|j: int| 0 <= j < s.drop_last().len() && s.drop_last()[j] == dl[a];
            assert(s[j] == dl[a]);
            assert(s[j].login != s[s.len() - 1].login);
            assert(s.last() == s[s.len() - 1]);
        }
    }
}

/// A structural copy of the problem-letter list.
fn clone_letters(v: &Vec<char>) -> (r: Vec<char>)
    ensures
        r@ == v@,
{
    let mut out: Vec<char> = Vec::new();
    let n = v.len();
    let mut i: usize = 0;
    while i < n
        invariant
            n == v@.len(),
            i <= n,
            out@ == v@.take(i as int),
        decreases n - i,
    {
        out.push(v[i]);
        proof {
            assert(v@.take(i + 1) =~= v@.take(i as int).push(v@[i as int]));
        }
        i = i + 1;
    }
    proof {
        assert(v@.take(n as int) =~= v@);
    }
    out
}

} // verus!
