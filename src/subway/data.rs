//! The loader of line-data listings.
//!
//! A listing names one line. Its first line declares the branches, separated
//! by spaces, after any leading dashes. Every later line is one of:
//! - `----NAME`: the stations that follow form branch NAME, which leaves the
//!   line at the last station before the first branch;
//! - `--- NAME`: the branches join again; the stations that follow are on
//!   NAME and continue from the last station before the branches;
//! - a station name: the station is linked both ways to the one before it.
use vstd::prelude::*;

use crate::subway::{StationId, Subway, SubwayView};
use crate::text::{
    append_str, chars_of, has_prefix, same_chars, marks_end, starts_with, str_eq, strip_marks, trim, trim_bounds,
    trimmed,
};

verus! {

/// Where the loader stands between two lines of a listing.
pub struct LoadState {
    /// The branch of the stations that follow.
    pub branch: Seq<char>,
    /// The station that the next one is linked to.
    pub prev: Option<nat>,
    /// The last station before the branches.
    pub pre_branch: Option<nat>,
    /// Whether the stations that follow belong to a branch.
    pub in_branch: bool,
    /// Whether a branch began and has no station yet.
    pub just_branched: bool,
}

/// The state at the start of a listing of line `tline`.
pub open spec fn initial_state(tline: Seq<char>) -> LoadState {
    LoadState { branch: tline, prev: None, pre_branch: None, in_branch: false, just_branched: false }
}

/// `line` lets branches join again.
pub open spec fn is_converge_line(line: Seq<char>) -> bool {
    starts_with(line, "--- "@)
}

/// `line` begins a branch (and does not let branches join).
pub open spec fn is_branch_line(line: Seq<char>) -> bool {
    !is_converge_line(line) && starts_with(line, "----"@)
}

/// The branch that a marker line names.
pub open spec fn branch_name(line: Seq<char>) -> Seq<char> {
    trim(strip_marks(line))
}

/// The station that a line names. One name stands for two stations, one
/// per branch, and gets the branch added to it.
pub open spec fn station_name(line: Seq<char>, branch: Seq<char>) -> Seq<char> {
    if trim(line) == "St. Paul Street"@ {
        trim(line) + " "@ + branch
    } else {
        trim(line)
    }
}

/// `g` with stations `a` and `b` linked both ways on `line`, `branch`.
pub open spec fn link_both(g: SubwayView, a: int, b: int, line: Seq<char>, branch: Seq<char>) -> SubwayView {
    g.with_connection(a, b, line, branch).with_connection(b, a, line, branch)
}

/// The network and state after one line of a listing of line `tline`.
pub open spec fn load_line(g: SubwayView, st: LoadState, line: Seq<char>, tline: Seq<char>) -> (
    SubwayView,
    LoadState,
) {
    if is_converge_line(line) {
        (
            g,
            LoadState {
                branch: branch_name(line),
                prev: st.pre_branch,
                pre_branch: None,
                in_branch: false,
                just_branched: false,
            },
        )
    } else if is_branch_line(line) {
        (g, LoadState { branch: branch_name(line), in_branch: true, just_branched: true, ..st })
    } else {
        let name = station_name(line, st.branch);
        let g1 = g.with_station(name);
        let id = g1.id_of(name);
        let pre = if st.in_branch {
            st.pre_branch
        } else {
            Some(id as nat)
        };
        let link = if st.in_branch && st.just_branched {
            st.pre_branch
        } else {
            st.prev
        };
        let g2 = match link {
            Some(p) => link_both(g1, p as int, id, tline, st.branch),
            None => g1,
        };
        (
            g2,
            LoadState {
                branch: st.branch,
                prev: Some(id as nat),
                pre_branch: pre,
                in_branch: st.in_branch,
                just_branched: false,
            },
        )
    }
}

/// The network and state after the lines `lines`.
pub open spec fn load_lines(g: SubwayView, st: LoadState, lines: Seq<Seq<char>>, tline: Seq<char>) -> (
    SubwayView,
    LoadState,
)
    decreases lines.len(),
{
    if lines.len() == 0 {
        (g, st)
    } else {
        let prior = load_lines(g, st, lines.drop_last(), tline);
        load_line(prior.0, prior.1, lines.last(), tline)
    }
}

/// The names of the branches that the branch lines among `lines` begin.
pub open spec fn branch_names(lines: Seq<Seq<char>>) -> Seq<Seq<char>>
    decreases lines.len(),
{
    if lines.len() == 0 {
        Seq::empty()
    } else if is_branch_line(lines.last()) {
        branch_names(lines.drop_last()).push(branch_name(lines.last()))
    } else {
        branch_names(lines.drop_last())
    }
}

/// The parts of `s` between single spaces, as `str::split(' ')` gives them.
pub open spec fn words(s: Seq<char>) -> Seq<Seq<char>>
    decreases s.len(),
{
    if s.len() == 0 {
        seq![Seq::empty()]
    } else {
        let w = words(s.drop_last());
        if s.last() == ' ' {
            w.push(Seq::empty())
        } else {
            w.update(w.len() - 1, w.last().push(s.last()))
        }
    }
}

/// The lines after the header.
pub open spec fn body(lines: Seq<Seq<char>>) -> Seq<Seq<char>> {
    if lines.len() == 0 {
        lines
    } else {
        lines.skip(1)
    }
}

/// The branches that the header of `lines` declares.
pub open spec fn declared_names(lines: Seq<Seq<char>>) -> Seq<Seq<char>> {
    words(branch_name(lines[0]))
}

/// `a` and `b` hold the same names, as sets.
pub open spec fn same_names(a: Seq<Seq<char>>, b: Seq<Seq<char>>) -> bool {
    forall|x: Seq<char>| a.contains(x) <==> b.contains(x)
}

/// The listing declares or begins branches, and the names that its header
/// declares are not those of the branches its body begins.
pub open spec fn branches_mismatch(lines: Seq<Seq<char>>) -> bool {
    &&& lines.len() > 0
    &&& declared_names(lines).len() > 1 || branch_names(body(lines)).len() > 0
    &&& !same_names(declared_names(lines), branch_names(body(lines)))
}

/// The error for a listing of line `tline` whose branches do not match.
pub open spec fn malformed_message(tline: Seq<char>) -> Seq<char> {
    "Branches declared in header do not match graph data for "@ + tline + "!"@
}

pub open spec fn lines_view(lines: Seq<String>) -> Seq<Seq<char>> {
    lines.map_values(|l: String| l@)
}

/// The stations that `st` refers to exist in `g`.
pub open spec fn state_in(g: SubwayView, st: LoadState) -> bool {
    &&& (st.prev matches Some(p) ==> p < g.size())
    &&& (st.pre_branch matches Some(p) ==> p < g.size())
}

/// The branch that a marker line names.
fn marker_branch(line: &str) -> (r: String)
    ensures
        r@ == branch_name(line@),
{
    let chars = chars_of(line);
    let p = marks_end(&chars);
    let (a, b) = trim_bounds(&chars, p);
    line.substring_char(a, b).to_string()
}

pub open spec fn chars_view(ws: Seq<Vec<char>>) -> Seq<Seq<char>> {
    ws.map_values(|w: Vec<char>| w@)
}

/// The names of the branches that the body of `lines` begins.
fn collect_branch_names(lines: &Vec<String>) -> (r: Vec<Vec<char>>)
    requires
        lines.len() > 0,
    ensures
        chars_view(r@) == branch_names(body(lines_view(lines@))),
{
    let ghost lv = lines_view(lines@);
    let converge = chars_of("--- ");
    let branch = chars_of("----");
    let mut names: Vec<Vec<char>> = Vec::new();
    let mut i: usize = 1;
    assert(lv.subrange(1, 1) =~= Seq::<Seq<char>>::empty());
    assert(chars_view(names@) =~= Seq::<Seq<char>>::empty());
    while i < lines.len()
        invariant
            1 <= i <= lines.len(),
            lv == lines_view(lines@),
            converge@ == "--- "@,
            branch@ == "----"@,
            chars_view(names@) == branch_names(lv.subrange(1, i as int)),
        decreases lines.len() - i,
    {
        assert(lv.subrange(1, i + 1).drop_last() =~= lv.subrange(1, i as int));
        assert(lv.subrange(1, i + 1).last() == lines[i as int]@);
        let chars = chars_of(lines[i].as_str());
        if !has_prefix(&chars, &converge) && has_prefix(&chars, &branch) {
            let name = marker_branch(lines[i].as_str());
            let ghost before = names@;
            names.push(chars_of(name.as_str()));
            assert(chars_view(names@) =~= chars_view(before).push(name@));
        }
        i = i + 1;
    }
    assert(lv.subrange(1, lines.len() as int) =~= lv.skip(1));
    names
}

/// The parts of `s` between single spaces.
fn split_words(s: &Vec<char>) -> (r: Vec<Vec<char>>)
    ensures
        chars_view(r@) == words(s@),
{
    let mut done: Vec<Vec<char>> = Vec::new();
    let mut cur: Vec<char> = Vec::new();
    let mut i: usize = 0;
    assert(s@.take(0) =~= Seq::<char>::empty());
    assert(chars_view(done@).push(cur@) =~= words(s@.take(0)));
    while i < s.len()
        invariant
            i <= s.len(),
            chars_view(done@).push(cur@) == words(s@.take(i as int)),
        decreases s.len() - i,
    {
        assert(s@.take(i + 1).drop_last() =~= s@.take(i as int));
        let ghost w = words(s@.take(i as int));
        let ghost d0 = done@;
        if s[i] == ' ' {
            done.push(cur);
            cur = Vec::new();
            assert(chars_view(done@) =~= chars_view(d0).push(w.last()));
            assert(chars_view(d0) =~= w.drop_last());
            assert(chars_view(done@).push(cur@) =~= w.push(Seq::empty()));
        } else {
            cur.push(s[i]);
            assert(chars_view(d0) =~= w.drop_last());
            assert(chars_view(done@).push(cur@) =~= w.update(w.len() - 1, w.last().push(s@[i as int])));
        }
        i = i + 1;
    }
    assert(s@.take(s.len() as int) =~= s@);
    let ghost d0 = done@;
    done.push(cur);
    assert(chars_view(done@) =~= chars_view(d0).push(cur@));
    done
}

/// Whether every name of `a` is among those of `b`.
fn all_within(a: &Vec<Vec<char>>, b: &Vec<Vec<char>>) -> (r: bool)
    ensures
        r == (forall|x: Seq<char>| chars_view(a@).contains(x) ==> chars_view(b@).contains(x)),
{
    let mut i: usize = 0;
    while i < a.len()
        invariant
            i <= a.len(),
            forall|k: int| 0 <= k < i ==> chars_view(b@).contains(#[trigger] chars_view(a@)[k]),
        decreases a.len() - i,
    {
        let mut found = false;
        let mut j: usize = 0;
        while j < b.len()
            invariant
                i < a.len(),
                j <= b.len(),
                found ==> chars_view(b@).contains(chars_view(a@)[i as int]),
                !found ==> forall|k: int| 0 <= k < j ==> chars_view(b@)[k] != chars_view(a@)[i as int],
            decreases b.len() - j,
        {
            if !found && same_chars(&a[i], &b[j]) {
                found = true;
                assert(chars_view(b@)[j as int] == chars_view(a@)[i as int]);
            }
            j = j + 1;
        }
        if !found {
            assert(!chars_view(b@).contains(chars_view(a@)[i as int]));
            assert(chars_view(a@).contains(chars_view(a@)[i as int]));
            return false;
        }
        i = i + 1;
    }
    assert forall|x: Seq<char>| chars_view(a@).contains(x) implies chars_view(b@).contains(x) by {
        let k = choose|k: int| 0 <= k < chars_view(a@).len() && chars_view(a@)[k] == x;
    }
    true
}

/// Loads the listing `lines` of line `tline` into `subway`. Where the
/// header declares several branches, or the body begins any, and the names
/// declared are not those of the branches begun, the listing is malformed:
/// nothing is loaded and the error says so.
pub fn load_subway_data(subway: &mut Subway, lines: &Vec<String>, tline: &str) -> (r: Result<(), String>)
    requires
        old(subway).wf(),
    ensures
        final(subway).wf(),
        r is Err <==> branches_mismatch(lines_view(lines@)),
        r matches Err(e) ==> e@ == malformed_message(tline@) && final(subway)@ == old(subway)@,
        r is Ok ==> final(subway)@ == load_lines(
            old(subway)@,
            initial_state(tline@),
            body(lines_view(lines@)),
            tline@,
        ).0,
{
    let ghost lv = lines_view(lines@);
    if lines.len() > 0 {
        let header = marker_branch(lines[0].as_str());
        let declared = split_words(&chars_of(header.as_str()));
        let found = collect_branch_names(lines);
        if (declared.len() > 1 || found.len() > 0) && !(all_within(&declared, &found) && all_within(
            &found,
            &declared,
        )) {
            let mut msg = String::new();
            append_str(&mut msg, "Branches declared in header do not match graph data for ");
            append_str(&mut msg, tline);
            append_str(&mut msg, "!");
            return Err(msg);
        }
    }
    let converge = chars_of("--- ");
    let branch_marker = chars_of("----");
    let saint_paul = "St. Paul Street";
    let mut subway_branch: String = tline.to_string();
    let mut prev_stn_id: Option<StationId> = None;
    let mut pre_branch_stn: Option<StationId> = None;
    let mut in_branch: bool = false;
    let mut just_branched: bool = false;
    let ghost g0 = subway@;
    if lines.len() == 0 {
        assert(!branches_mismatch(lv));
        return Ok(());
    }
    let mut i: usize = 1;
    assert(lv.subrange(1, 1) =~= Seq::<Seq<char>>::empty());
    while i < lines.len()
        invariant
            1 <= i <= lines.len(),
            lv == lines_view(lines@),
            converge@ == "--- "@,
            branch_marker@ == "----"@,
            saint_paul@ == "St. Paul Street"@,
            subway.wf(),
            ({
                let st = LoadState {
                    branch: subway_branch@,
                    prev: match prev_stn_id {
                        Some(p) => Some(p as nat),
                        None => None,
                    },
                    pre_branch: match pre_branch_stn {
                        Some(p) => Some(p as nat),
                        None => None,
                    },
                    in_branch,
                    just_branched,
                };
                &&& (subway@, st) == load_lines(g0, initial_state(tline@), lv.subrange(1, i as int), tline@)
                &&& state_in(subway@, st)
            }),
        decreases lines.len() - i,
    {
        assert(lv.subrange(1, i + 1).drop_last() =~= lv.subrange(1, i as int));
        assert(lv.subrange(1, i + 1).last() == lines[i as int]@);
        let line = lines[i].as_str();
        let chars = chars_of(line);
        if has_prefix(&chars, &converge) {
            subway_branch = marker_branch(line);
            in_branch = false;
            just_branched = false;
            prev_stn_id = pre_branch_stn;
            pre_branch_stn = None;
        } else if has_prefix(&chars, &branch_marker) {
            in_branch = true;
            just_branched = true;
            subway_branch = marker_branch(line);
        } else {
            let name = trimmed(line);
            let mut station: String = name.to_string();
            if str_eq(name, saint_paul) {
                append_str(&mut station, " ");
                append_str(&mut station, subway_branch.as_str());
            }
            assert(station@ == station_name(line@, subway_branch@));
            let ghost g_before = subway@;
            let stn_id = subway.add_station(station.as_str());
            proof {
                let g1 = g_before.with_station(station@);
                assert(subway@ == g1);
                assert(subway@.stations[stn_id as int] == station@);
                assert(g1.id_of(station@) == stn_id as int);
            }
            if !in_branch {
                pre_branch_stn = Some(stn_id);
            }
            let link = if in_branch && just_branched {
                pre_branch_stn
            } else {
                prev_stn_id
            };
            match link {
                Some(id) => {
                    subway.add_connection(id, stn_id, tline, subway_branch.as_str());
                    subway.add_connection(stn_id, id, tline, subway_branch.as_str());
                },
                None => {},
            }
            just_branched = false;
            prev_stn_id = Some(stn_id);
        }
        i = i + 1;
    }
    assert(lv.subrange(1, lines.len() as int) =~= lv.skip(1));
    Ok(())
}

} // verus!
