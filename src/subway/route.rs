//! The route finder: a cost-aware search over the graph store.
use vstd::prelude::*;
use vstd::set_lib::*;

use crate::subway::{lemma_lookup_in_range,
    Connection, ConnectionView, InfoView, StationId, StationInfo, Subway, SubwayView,
};
use crate::text::{append_str, texts_result};

verus! {

/// Added to the weight of a leg over an inactive connection.
pub const DISABLE_COST: usize = 100;

/// The weight of a leg that changes lines.
pub const LINE_CHANGE_COST: usize = 3;

/// The weight of a leg that changes branches within one line.
pub const BRANCH_CHANGE_COST: usize = 2;

/// The weight of taking connection `c` after a leg tagged `prev` (`None` for
/// the first leg of a trip): a line change costs 3, a branch change 2, and
/// otherwise the connection's own cost counts; an inactive connection costs
/// `DISABLE_COST` more.
pub open spec fn leg_weight(prev: Option<InfoView>, c: ConnectionView) -> int {
    let base = match prev {
        None => c.cost as int,
        Some(p) => if p.line != c.info.line {
            LINE_CHANGE_COST as int
        } else if p.branch != c.info.branch {
            BRANCH_CHANGE_COST as int
        } else {
            c.cost as int
        },
    };
    if c.active {
        base
    } else {
        base + DISABLE_COST
    }
}

/// Station `u` has a connection to `v` tagged `info`.
pub open spec fn has_leg(g: SubwayView, u: int, v: int, info: InfoView) -> bool {
    exists|j: int| 0 <= j < g.out(u).len() && g.out(u)[j].to == v && g.out(u)[j].info == info
}

/// A path as station ids with the tags of the legs.
pub open spec fn path_view(p: Seq<(StationId, StationInfo)>) -> Seq<(StationId, InfoView)> {
    p.map_values(|e: (StationId, StationInfo)| (e.0, e.1@))
}

/// `p` is a trip from `start` to `end` that visits no station twice: each
/// station but the last is tagged with the line and branch of a connection
/// to the next station, and the last carries the tag of the leg that
/// reaches it.
pub open spec fn is_itinerary(g: SubwayView, start: int, end: int, p: Seq<(StationId, InfoView)>) -> bool {
    &&& p.len() >= 2
    &&& p[0].0 == start
    &&& p.last().0 == end
    &&& forall|i: int| 0 <= i < p.len() - 1 ==> has_leg(g, p[i].0 as int, p[i + 1].0 as int, p[i].1)
    &&& p.last().1 == p[p.len() - 2].1
    &&& forall|i: int, j: int| 0 <= i < j < p.len() ==> p[i].0 != p[j].0
}

/// `w` is a sequence of stations, each linked to the next.
pub open spec fn is_walk(g: SubwayView, w: Seq<int>) -> bool {
    &&& w.len() >= 1
    &&& forall|i: int| 0 <= i < w.len() - 1 ==> #[trigger] g.linked(w[i], w[i + 1])
}

/// Some sequence of connections leads from `a` to `b`, whatever their state.
pub open spec fn reachable(g: SubwayView, a: int, b: int) -> bool {
    exists|w: Seq<int>| is_walk(g, w) && w[0] == a && w.last() == b
}

/// Every leg over any connection of `g` weighs at most `w`.
pub open spec fn weights_at_most(g: SubwayView, w: int) -> bool {
    &&& LINE_CHANGE_COST + DISABLE_COST <= w
    &&& forall|s: int, j: int|
        0 <= s < g.connections.len() && 0 <= j < g.connections[s].len() ==> g.connections[s][j].cost
            + DISABLE_COST <= w
}

/// The cost of any trip through every station once stays below `usize::MAX`,
/// so that no sum of weights in a search saturates.
pub open spec fn costs_fit(g: SubwayView) -> bool {
    exists|w: int| weights_at_most(g, w) && g.size() * w < usize::MAX
}

proof fn lemma_leg_weight_bounded(g: SubwayView, w: int, prev: Option<InfoView>, s: int, j: int)
    requires
        weights_at_most(g, w),
        0 <= s < g.connections.len(),
        0 <= j < g.connections[s].len(),
    ensures
        0 <= leg_weight(prev, g.connections[s][j]) <= w,
{
}

/// The weight of taking `c` after a leg tagged `prev`, saturated at `usize::MAX`.
fn weight_of(prev: &Option<StationInfo>, c: &Connection) -> (w: usize)
    ensures
        w as int <= leg_weight(
            match prev {
                Some(p) => Some(p@),
                None => None,
            },
            c@,
        ),
        leg_weight(
            match prev {
                Some(p) => Some(p@),
                None => None,
            },
            c@,
        ) <= usize::MAX ==> w == leg_weight(
            match prev {
                Some(p) => Some(p@),
                None => None,
            },
            c@,
        ),
{
    let base = match prev {
        None => c.cost,
        Some(p) => if !(p.line == c.info.line) {
            LINE_CHANGE_COST
        } else if !(p.branch == c.info.branch) {
            BRANCH_CHANGE_COST
        } else {
            c.cost
        },
    };
    if c.active {
        base
    } else {
        base.saturating_add(DISABLE_COST)
    }
}

/// Removes and returns an entry of least cost from the frontier.
fn pop_min(frontier: &mut Vec<(usize, StationId)>) -> (r: (usize, StationId))
    requires
        old(frontier).len() > 0,
    ensures
        exists|m: int|
            0 <= m < old(frontier).len() && r == old(frontier)[m] && final(frontier)@ == old(
                frontier,
            )@.remove(m),
        forall|k: int| 0 <= k < old(frontier).len() ==> r.0 <= old(frontier)[k].0,
{
    let mut best: usize = 0;
    let mut k: usize = 1;
    while k < frontier.len()
        invariant
            1 <= k <= frontier.len(),
            best < frontier.len(),
            forall|i: int| 0 <= i < k ==> frontier[best as int].0 <= frontier[i].0,
        decreases frontier.len() - k,
    {
        if frontier[k].0 < frontier[best].0 {
            best = k;
        }
        k = k + 1;
    }
    let r = frontier.remove(best);
    assert(r == old(frontier)[best as int]);
    r
}

/// Enabling or disabling a station removes no connection and changes no
/// cost: every station that could be reached before still can, so a search
/// that found a route before still finds one (at a higher cost, where it
/// must cross disabled connections). Only where no sequence of connections
/// leads to the goal is there no route.
pub proof fn lemma_station_state_keeps_routes(g: SubwayView, x: int, active: bool, a: int, b: int)
    ensures
        reachable(g.with_station_state(x, active), a, b) == reachable(g, a, b),
        costs_fit(g.with_station_state(x, active)) == costs_fit(g),
{
    let h = g.with_station_state(x, active);
    assert forall|s: int, t: int| #[trigger] h.linked(s, t) == g.linked(s, t) by {
        if h.linked(s, t) {
            let j = choose|j: int| 0 <= j < h.out(s).len() && h.out(s)[j].to == t;
            assert(g.out(s)[j].to == t);
        }
        if g.linked(s, t) {
            let j = choose|j: int| 0 <= j < g.out(s).len() && g.out(s)[j].to == t;
            assert(h.out(s)[j].to == t);
        }
    }
    assert forall|w: Seq<int>| #[trigger] is_walk(h, w) == is_walk(g, w) by {
        if is_walk(h, w) {
            assert forall|i: int| 0 <= i < w.len() - 1 implies #[trigger] g.linked(w[i], w[i + 1]) by {
                assert(h.linked(w[i], w[i + 1]));
            }
        }
        if is_walk(g, w) {
            assert forall|i: int| 0 <= i < w.len() - 1 implies #[trigger] h.linked(w[i], w[i + 1]) by {
                assert(g.linked(w[i], w[i + 1]));
            }
        }
    }
    assert forall|w: int| #[trigger] weights_at_most(h, w) == weights_at_most(g, w) by {
        if weights_at_most(g, w) {
            assert forall|s: int, j: int|
                0 <= s < h.connections.len() && 0 <= j < h.connections[s].len() implies h.connections[s][j].cost
                    + DISABLE_COST <= w by {
                assert(h.connections[s][j].cost == g.connections[s][j].cost);
            }
        }
        if weights_at_most(h, w) {
            assert forall|s: int, j: int|
                0 <= s < g.connections.len() && 0 <= j < g.connections[s].len() implies g.connections[s][j].cost
                    + DISABLE_COST <= w by {
                assert(h.connections[s][j].cost == g.connections[s][j].cost);
            }
        }
    }
    if reachable(g, a, b) {
        let w = choose|w: Seq<int>| is_walk(g, w) && w[0] == a && w.last() == b;
        assert(is_walk(h, w));
    }
    if reachable(h, a, b) {
        let w = choose|w: Seq<int>| is_walk(h, w) && w[0] == a && w.last() == b;
        assert(is_walk(g, w));
    }
    if costs_fit(g) {
        let w = choose|w: int| weights_at_most(g, w) && g.size() * w < usize::MAX;
        assert(weights_at_most(h, w));
    }
    if costs_fit(h) {
        let w = choose|w: int| weights_at_most(h, w) && h.size() * w < usize::MAX;
        assert(weights_at_most(g, w));
    }
}

/// How an itinerary names the line and branch of a leg: by the branch, or
/// by the line where the branch is the line itself.
pub open spec fn label(info: InfoView) -> Seq<char> {
    if info.branch == info.line {
        info.line
    } else {
        info.branch
    }
}

/// The note before a station whose leg is tagged `info`, after a leg tagged
/// `prev`: a change of line is a switch, a change to another branch of the
/// same line is a reminder to be on that branch.
pub open spec fn transfer_note(prev: Option<InfoView>, info: InfoView) -> Seq<char> {
    match prev {
        None => Seq::empty(),
        Some(p) => if p.line != info.line {
            "---switch from "@ + p.line + " to "@ + info.line + "\n"@
        } else if p.branch != info.branch {
            "---ensure you are on "@ + info.branch + "\n"@
        } else {
            Seq::empty()
        },
    }
}

/// The line of a station: its name, and where the line or branch changes
/// (or the trip begins), which one to take.
pub open spec fn stop_line(name: Seq<char>, prev: Option<InfoView>, info: InfoView) -> Seq<char> {
    if prev == Some(info) {
        name + "\n"@
    } else {
        name + ", take "@ + label(info) + "\n"@
    }
}

/// The text of the stations `p`, the leg before them tagged `prev`.
pub open spec fn render_from(g: SubwayView, p: Seq<(StationId, InfoView)>, prev: Option<InfoView>) -> Seq<
    char,
>
    decreases p.len(),
{
    if p.len() == 0 {
        Seq::empty()
    } else {
        transfer_note(prev, p[0].1) + stop_line(g.stations[p[0].0 as int], prev, p[0].1)
            + render_from(g, p.drop_first(), Some(p[0].1))
    }
}

/// The rendered itinerary of the trip `p`.
pub open spec fn itinerary_text(g: SubwayView, p: Seq<(StationId, InfoView)>) -> Seq<char> {
    render_from(g, p, None)
}

/// The error for a trip from `s` to `e` that cannot be made.
pub open spec fn no_path_message(g: SubwayView, s: int, e: int) -> Seq<char> {
    "No path from "@ + g.stations[s] + " to "@ + g.stations[e]
}

/// `r` answers a request for a route from `s` to `e`: the text of an
/// itinerary between them (certified by the search, and on a single line
/// one that no walk beats), or
/// the error for a trip that the search cannot make (never, where `e` can
/// be reached and the costs fit).
pub open spec fn is_route_answer(g: SubwayView, s: int, e: int, r: Result<Seq<char>, Seq<char>>) -> bool {
    match r {
        Ok(text) => exists|p: Seq<(StationId, InfoView)>|
            is_itinerary(g, s, e, p) && text == itinerary_text(g, p) && (costs_fit(g) ==> certified(
                g,
                s,
                e,
                p,
            )) && (single_line(g) && costs_fit(g) ==> cheapest(g, s, e, p)),
        Err(msg) => msg == no_path_message(g, s, e) && !(s != e && costs_fit(g) && reachable(g, s, e)),
    }
}

/// Renders the trip `path_ids` as text, one line per station.
fn build_path_string(graph: &Subway, path_ids: &Vec<(StationId, StationInfo)>) -> (r: String)
    requires
        forall|i: int| 0 <= i < path_ids.len() ==> path_ids@[i].0 < graph@.size(),
    ensures
        r@ == itinerary_text(graph@, path_view(path_ids@)),
{
    let ghost g = graph@;
    let ghost pv = path_view(path_ids@);
    let mut path_string = String::new();
    let mut prev: Option<&StationInfo> = None;
    assert(pv.skip(0) =~= pv);
    assert(path_string@ + itinerary_text(g, pv) =~= itinerary_text(g, pv));
    let mut i: usize = 0;
    while i < path_ids.len()
        invariant
            g == graph@,
            pv == path_view(path_ids@),
            i <= path_ids.len(),
            forall|k: int| 0 <= k < path_ids.len() ==> path_ids@[k].0 < g.size(),
            i == 0 ==> prev is None,
            i > 0 ==> (prev matches Some(q) && q@ == pv[i - 1].1),
            path_string@ + render_from(
                g,
                pv.skip(i as int),
                match prev {
                    Some(q) => Some(q@),
                    None => None,
                },
            ) == itinerary_text(g, pv),
        decreases path_ids.len() - i,
    {
        let ghost prev_view = match prev {
            Some(q) => Some(q@),
            None => None::<InfoView>,
        };
        let ghost before = path_string@;
        let id = path_ids[i].0;
        let info = &path_ids[i].1;
        let stn = &graph.stations[id];
        proof {
            assert(pv.skip(i as int)[0] == pv[i as int]);
            assert(pv.skip(i as int).drop_first() =~= pv.skip(i + 1));
        }
        let mut same = false;
        match prev {
            Some(p) => {
                if !(p.line == info.line) {
                    append_str(&mut path_string, "---switch from ");
                    append_str(&mut path_string, p.line.as_str());
                    append_str(&mut path_string, " to ");
                    append_str(&mut path_string, info.line.as_str());
                    append_str(&mut path_string, "\n");
                } else if !(p.branch == info.branch) {
                    append_str(&mut path_string, "---ensure you are on ");
                    append_str(&mut path_string, info.branch.as_str());
                    append_str(&mut path_string, "\n");
                }
                same = p.line == info.line && p.branch == info.branch;
            },
            None => {},
        }
        let ghost with_note = path_string@;
        assert(with_note == before + transfer_note(prev_view, info@));
        append_str(&mut path_string, stn.as_str());
        if !same {
            append_str(&mut path_string, ", take ");
            if info.branch == info.line {
                append_str(&mut path_string, info.line.as_str());
            } else {
                append_str(&mut path_string, info.branch.as_str());
            }
        }
        append_str(&mut path_string, "\n");
        assert(path_string@ == with_note + stop_line(g.stations[id as int], prev_view, info@));
        prev = Some(info);
        i = i + 1;
    }
    path_string
}

/// The answer to a request for a route between the stations `start` and `end`.
pub fn route_between(graph: &Subway, start: StationId, end: StationId) -> (r: Result<String, String>)
    requires
        graph.wf(),
        start < graph@.size(),
        end < graph@.size(),
    ensures
        is_route_answer(graph@, start as int, end as int, texts_result(r)),
{
    match find_path(graph, start, end) {
        Some(path_ids) => {
            proof {
                let pv = path_view(path_ids@);
                assert forall|i: int| 0 <= i < path_ids.len() implies path_ids@[i].0 < graph@.size() by {
                    if i < pv.len() - 1 {
                        assert(has_leg(graph@, pv[i].0 as int, pv[i + 1].0 as int, pv[i].1));
                    } else {
                        assert(pv[i].0 == end);
                    }
                }
            }
            let text = build_path_string(graph, &path_ids);
            Ok(text)
        },
        None => {
            let mut msg = String::new();
            append_str(&mut msg, "No path from ");
            append_str(&mut msg, graph.stations[start].as_str());
            append_str(&mut msg, " to ");
            append_str(&mut msg, graph.stations[end].as_str());
            Err(msg)
        },
    }
}

/// Finds a route between the stations that `start` and `end` name (see
/// `Subway::find_station`) and renders it. A name that resolves to no
/// station, or to several, is the error; the name `start` is resolved first.
pub fn find_route(graph: &Subway, start: &str, end: &str) -> (r: Result<String, String>)
    requires
        graph.wf(),
    ensures
        match (graph@.lookup(start@), graph@.lookup(end@)) {
            (Err(m), _) => texts_result(r) == Err::<Seq<char>, Seq<char>>(m),
            (Ok(_), Err(m)) => texts_result(r) == Err::<Seq<char>, Seq<char>>(m),
            (Ok(s), Ok(e)) => is_route_answer(graph@, s as int, e as int, texts_result(r)),
        },
{
    let s = match graph.find_station(start) {
        Ok(id) => id,
        Err(e) => {
            return Err(e);
        },
    };
    let e = match graph.find_station(end) {
        Ok(id) => id,
        Err(e) => {
            return Err(e);
        },
    };
    proof {
        assert(graph@.size() == graph.stations.len());
        lemma_lookup_in_range(graph@, start@);
        lemma_lookup_in_range(graph@, end@);
    }
    route_between(graph, s, e)
}

/// Every connection of `g` carries the same line and branch, so that no leg
/// of any trip changes either and a leg's weight depends on its connection
/// alone.
pub open spec fn single_line(g: SubwayView) -> bool {
    forall|s: int, j: int, t: int, k: int|
        #![trigger g.connections[s][j], g.connections[t][k]]
        0 <= s < g.connections.len() && 0 <= j < g.connections[s].len() && 0 <= t
            < g.connections.len() && 0 <= k < g.connections[t].len() ==> g.connections[s][j].info
            == g.connections[t][k].info
}

/// The weight of taking `c` where neither line nor branch changes.
pub open spec fn plain_weight(c: ConnectionView) -> int {
    c.cost + if c.active {
        0int
    } else {
        DISABLE_COST as int
    }
}

/// The connection from `u` to `v` (in a well-formed network there is at
/// most one).
pub open spec fn step_conn(g: SubwayView, u: int, v: int) -> ConnectionView {
    g.out(u)[choose|j: int| 0 <= j < g.out(u).len() && g.out(u)[j].to == v]
}

/// The weight of the leg from `u` to `v` where neither line nor branch changes.
pub open spec fn step_weight(g: SubwayView, u: int, v: int) -> int {
    plain_weight(step_conn(g, u, v))
}

/// The cost of the walk `w` where neither line nor branch changes.
pub open spec fn walk_cost(g: SubwayView, w: Seq<int>) -> int
    decreases w.len(),
{
    if w.len() <= 1 {
        0
    } else {
        walk_cost(g, w.drop_last()) + step_weight(g, w[w.len() - 2], w.last())
    }
}

/// The stations of a trip, in order.
pub open spec fn stations_of(p: Seq<(StationId, InfoView)>) -> Seq<int> {
    p.map_values(|e: (StationId, InfoView)| e.0 as int)
}

/// The cost of the trip `p`, each leg weighed after the leg before it (the
/// first leg after none).
pub open spec fn trip_cost(g: SubwayView, p: Seq<(StationId, InfoView)>) -> int
    decreases p.len(),
{
    if p.len() <= 1 {
        0
    } else {
        let k = p.len() - 1;
        trip_cost(g, p.drop_last()) + leg_weight(
            if k == 1 {
                None
            } else {
                Some(p[k - 2].1)
            },
            step_conn(g, p[k - 1].0 as int, p[k].0 as int),
        )
    }
}

/// What a least-cost-first search leaves behind when it takes `end`: costs
/// `d` and arrival tags `tag` of the stations, and the set `done` of those
/// whose connections it examined. The trip `p` costs `d[end]`; every
/// examined station was reached by one of its connections (but the start);
/// no connection of an examined station leads anywhere more cheaply than
/// `d` says, after the leg by which that station was reached; and every
/// station cheaper than `end` was examined.
pub open spec fn search_certificate(
    g: SubwayView,
    start: int,
    end: int,
    p: Seq<(StationId, InfoView)>,
    d: Seq<int>,
    tag: Seq<Option<InfoView>>,
    done: Set<int>,
) -> bool {
    let n = g.size();
    &&& d.len() == n && tag.len() == n
    &&& d[start] == 0 && tag[start] is None
    &&& trip_cost(g, p) == d[end]
    &&& forall|u: int|
        0 <= u < n && done.contains(u) && u != start ==> tag[u] is Some && exists|w: int|
            has_leg(g, w, u, tag[u]->0)
    &&& forall|u: int, j: int|
        #![trigger done.contains(u), g.out(u)[j]]
        0 <= u < n && done.contains(u) && 0 <= j < g.out(u).len() ==> d[g.out(u)[j].to as int] <= d[u]
            + leg_weight(tag[u], g.out(u)[j])
    &&& forall|v: int| 0 <= v < n && d[v] < d[end] ==> done.contains(v)
}

/// Some search state certifies the trip `p` from `start` to `end`.
pub open spec fn certified(g: SubwayView, start: int, end: int, p: Seq<(StationId, InfoView)>) -> bool {
    exists|d: Seq<int>, tag: Seq<Option<InfoView>>, done: Set<int>|
        #![trigger search_certificate(g, start, end, p, d, tag, done)]
        search_certificate(g, start, end, p, d, tag, done)
}

proof fn lemma_leg_unique(g: SubwayView, u: int, v: int, a: InfoView, b: InfoView)
    requires
        g.wf(),
        has_leg(g, u, v, a),
        has_leg(g, u, v, b),
    ensures
        a == b,
{
    let j = choose|j: int| 0 <= j < g.out(u).len() && g.out(u)[j].to == v && g.out(u)[j].info == a;
    let k = choose|k: int| 0 <= k < g.out(u).len() && g.out(u)[k].to == v && g.out(u)[k].info == b;
    lemma_step_weight(g, u, j);
    lemma_step_weight(g, u, k);
}

/// Along a trip whose every step is the recorded one, the cost of each
/// prefix is the distance of its last station.
proof fn lemma_trip_chain(
    g: SubwayView,
    start: int,
    end: int,
    fits: bool,
    dist: Seq<usize>,
    came: Seq<Option<(StationId, StationInfo)>>,
    settled: Seq<bool>,
    p: Seq<(StationId, InfoView)>,
    k: int,
)
    requires
        opt_inv(g, start, fits, -1, 0, dist, came, settled),
        fits,
        g.wf(),
        dist.len() == g.size(),
        came.len() == g.size(),
        0 <= start < g.size(),
        dist[start] == 0,
        came[start] is None,
        is_itinerary(g, start, end, p),
        0 <= k < p.len(),
        forall|i: int| 0 <= i < p.len() ==> p[i].0 < g.size(),
        forall|i: int|
            #![trigger p[i + 1]]
            0 <= i < p.len() - 1 ==> came[p[i + 1].0 as int] is Some && (came[p[i + 1].0 as int]->0).0
                == p[i].0,
        forall|v: int|
            #![trigger came[v]]
            0 <= v < g.size() && came[v] is Some ==> has_leg(g, (came[v]->0).0 as int, v, (came[v]->0).1@),
    ensures
        trip_cost(g, p.take(k + 1)) == dist[p[k].0 as int],
    decreases k,
{
    reveal(opt_inv);
    let q = p.take(k + 1);
    if k > 0 {
        lemma_trip_chain(g, start, end, fits, dist, came, settled, p, k - 1);
        assert(q.drop_last() =~= p.take(k));
        let v = p[k].0 as int;
        assert(came[p[(k - 1) + 1].0 as int] is Some);
        assert(came[v] is Some);
        if k >= 2 {
            let u = p[k - 1].0 as int;
            assert(came[p[(k - 2) + 1].0 as int] is Some);
            assert(came[u] is Some);
            assert(has_leg(g, p[k - 2].0 as int, u, p[k - 2].1));
            lemma_leg_unique(g, p[k - 2].0 as int, u, p[k - 2].1, (came[u]->0).1@);
        }
    }
}

/// When the search takes `end` at cost `m`, its state is a certificate for
/// the trip retraced.
proof fn lemma_certificate(
    g: SubwayView,
    start: int,
    end: int,
    fits: bool,
    dist: Seq<usize>,
    came: Seq<Option<(StationId, StationInfo)>>,
    settled: Seq<bool>,
    done: Set<int>,
    frontier: Seq<(usize, StationId)>,
    m: int,
    pv: Seq<(StationId, InfoView)>,
)
    requires
        opt_inv(g, start, fits, -1, 0, dist, came, settled),
        fits,
        g.wf(),
        dist.len() == g.size(),
        came.len() == g.size(),
        settled.len() == g.size(),
        forall|v: int| 0 <= v < g.size() ==> (settled[v] <==> done.contains(v)),
        0 <= start < g.size(),
        0 <= end < g.size(),
        dist[start] == 0,
        came[start] is None,
        dist[end] == m,
        m < usize::MAX,
        !settled[end],
        forall|k: int| 0 <= k < frontier.len() ==> frontier[k].0 >= m,
        forall|v: int|
            0 <= v < g.size() && dist[v] < usize::MAX ==> settled[v] || v == end || exists|k: int|
                0 <= k < frontier.len() && frontier[k] == (dist[v], v as StationId),
        forall|v: int| 0 <= v < g.size() && v != start && dist[v] < usize::MAX ==> came[v] is Some,
        forall|v: int| 0 <= v < g.size() && settled[v] ==> dist[v] < usize::MAX,
        forall|v: int|
            #![trigger came[v]]
            0 <= v < g.size() && came[v] is Some ==> has_leg(g, (came[v]->0).0 as int, v, (came[v]->0).1@),
        is_itinerary(g, start, end, pv),
        forall|i: int|
            #![trigger pv[i + 1]]
            0 <= i < pv.len() - 1 ==> came[pv[i + 1].0 as int] is Some && (came[pv[i + 1].0 as int]->0).0
                == pv[i].0,
    ensures
        search_certificate(
            g,
            start,
            end,
            pv,
            Seq::new(g.size(), |v: int| dist[v] as int),
            Seq::new(g.size(), |v: int| prev_of(came, v)),
            done,
        ),
{
    reveal(opt_inv);
    let d = Seq::new(g.size(), |v: int| dist[v] as int);
    let tag = Seq::new(g.size(), |v: int| prev_of(came, v));
    assert forall|i: int| 0 <= i < pv.len() implies pv[i].0 < g.size() by {
        if i < pv.len() - 1 {
            assert(has_leg(g, pv[i].0 as int, pv[i + 1].0 as int, pv[i].1));
            assert(g.out(pv[i].0 as int) == g.connections[pv[i].0 as int]);
        }
    }
    lemma_trip_chain(g, start, end, fits, dist, came, settled, pv, pv.len() - 1);
    assert(pv.take(pv.len() as int) =~= pv);
    assert forall|u: int|
        0 <= u < g.size() && done.contains(u) && u != start implies tag[u] is Some && exists|w: int|
        has_leg(g, w, u, tag[u]->0) by {
        assert(settled[u]);
        assert(came[u] is Some);
        let t = (came[u]->0).1@;
        assert(tag[u] == Some(t));
        let w0 = (came[u]->0).0 as int;
        assert(has_leg(g, w0, u, t));
        assert(tag[u]->0 == t);
        assert(has_leg(g, w0, u, tag[u]->0));
    }
    assert forall|u: int, j: int|
        #![trigger done.contains(u), g.out(u)[j]]
        0 <= u < g.size() && done.contains(u) && 0 <= j < g.out(u).len() implies d[g.out(u)[j].to as int]
        <= d[u] + leg_weight(tag[u], g.out(u)[j]) by {
        assert(settled[u]);
        assert(g.out(u) == g.connections[u]);
        assert(g.out(u)[j].to < g.size());
    }
    assert forall|v: int| 0 <= v < g.size() && d[v] < d[end] implies done.contains(v) by {
        if !settled[v] && v != end {
            let k = choose|k: int| 0 <= k < frontier.len() && frontier[k] == (dist[v], v as StationId);
            assert(frontier[k].0 >= m);
        }
    }
}

/// No walk from `s` to `e` costs less than the trip `p`.
pub open spec fn cheapest(g: SubwayView, s: int, e: int, p: Seq<(StationId, InfoView)>) -> bool {
    forall|w: Seq<int>|
        #![trigger walk_cost(g, w)]
        is_walk(g, w) && w[0] == s && w.last() == e ==> walk_cost(g, stations_of(p)) <= walk_cost(g, w)
}

/// No walk from `start` to `v` costs less than `d`.
pub open spec fn cost_at_least(g: SubwayView, start: int, v: int, d: int) -> bool {
    forall|w: Seq<int>|
        #![trigger walk_cost(g, w)]
        is_walk(g, w) && w[0] == start && w.last() == v ==> walk_cost(g, w) >= d
}

proof fn lemma_step_weight(g: SubwayView, u: int, j: int)
    requires
        g.wf(),
        0 <= j < g.out(u).len(),
    ensures
        step_conn(g, u, g.out(u)[j].to as int) == g.out(u)[j],
        step_weight(g, u, g.out(u)[j].to as int) == plain_weight(g.out(u)[j]),
{
    let v = g.out(u)[j].to as int;
    let k = choose|k: int| 0 <= k < g.out(u).len() && g.out(u)[k].to == v;
    assert(g.out(u) == g.connections[u]);
    if k != j {
        if k < j {
            assert(g.connections[u][k].to != g.connections[u][j].to);
        } else {
            assert(g.connections[u][j].to != g.connections[u][k].to);
        }
    }
}

/// On a single line, a leg after another weighs what its connection does.
proof fn lemma_single_line_weight(g: SubwayView, u: int, j: int, prev: Option<InfoView>, t: int, k: int)
    requires
        single_line(g),
        0 <= u < g.connections.len(),
        0 <= j < g.connections[u].len(),
        prev matches Some(p) ==> 0 <= t < g.connections.len() && 0 <= k < g.connections[t].len()
            && p == g.connections[t][k].info,
    ensures
        leg_weight(prev, g.connections[u][j]) == plain_weight(g.connections[u][j]),
{
    if prev is Some {
        assert(g.connections[t][k].info == g.connections[u][j].info);
    }
}

proof fn lemma_walk_drop_last(g: SubwayView, w: Seq<int>)
    requires
        is_walk(g, w),
        w.len() >= 2,
    ensures
        is_walk(g, w.drop_last()),
        g.linked(w[w.len() - 2], w.last()),
{
    let w1 = w.drop_last();
    assert forall|i: int| 0 <= i < w1.len() - 1 implies #[trigger] g.linked(w1[i], w1[i + 1]) by {
        assert(g.linked(w[i], w[i + 1]));
    }
    assert(g.linked(w[w.len() - 2], w[(w.len() - 2) + 1]));
}

/// The state of a search from `start`.
struct Search {
    /// Best cost found so far for each station; `usize::MAX` where none is.
    dist: Vec<usize>,
    /// The station and the leg tag by which each station was best reached.
    came_from: Vec<Option<(StationId, StationInfo)>>,
    /// Whether each station's connections have been examined.
    settled: Vec<bool>,
    /// Entries (cost, station) still to be examined.
    frontier: Vec<(usize, StationId)>,
    /// The settled stations.
    done: Ghost<Set<int>>,
    /// The order in which stations were settled.
    rank: Ghost<Seq<nat>>,
    /// The cost of the entry taken last.
    last: Ghost<int>,
}

/// The leg tag by which station `v` was reached, if any.
spec fn prev_of(came: Seq<Option<(StationId, StationInfo)>>, v: int) -> Option<InfoView> {
    match came[v] {
        Some(e) => Some(e.1@),
        None => None,
    }
}

impl Search {
    /// The invariant of the search, with the connections of station `cur`
    /// from position `examined` on not yet relaxed, and station `pending`
    /// just taken from the frontier (either is -1 where there is none).
    spec fn inv(
        &self,
        g: SubwayView,
        start: int,
        end: int,
        fits: bool,
        wcap: int,
        cur: int,
        examined: int,
        pending: int,
    ) -> bool {
        let n = g.size();
        let dist = self.dist@;
        let came = self.came_from@;
        let settled = self.settled@;
        let frontier = self.frontier@;
        let done = self.done@;
        let rank = self.rank@;
        let last = self.last@;
        &&& g.wf()
        &&& dist.len() == n && came.len() == n && settled.len() == n && rank.len() == n
        &&& 0 <= start < n && 0 <= end < n && start != end
        &&& dist[start] == 0
        &&& came[start] is None
        &&& done.finite()
        &&& forall|v: int| done.contains(v) ==> 0 <= v < n
        &&& forall|v: int| 0 <= v < n ==> (settled[v] <==> done.contains(v))
        &&& forall|k: int|
            0 <= k < frontier.len() ==> frontier[k].1 < n && dist[frontier[k].1 as int]
                <= frontier[k].0 && frontier[k].0 >= last && frontier[k].0 < usize::MAX
        &&& forall|v: int|
            0 <= v < n && settled[v] ==> dist[v] <= last && v != end && rank[v] < done.len()
                && dist[v] < usize::MAX
        &&& forall|v: int|
            0 <= v < n && dist[v] < usize::MAX ==> settled[v] || v == pending || exists|k: int|
                0 <= k < frontier.len() && frontier[k] == (dist[v], v as StationId)
        &&& forall|v: int| 0 <= v < n && v != start && dist[v] < usize::MAX ==> came[v] is Some
        &&& forall|v: int|
            #![trigger came[v]]
            0 <= v < n && came[v] is Some ==> {
                let u = (came[v]->0).0 as int;
                &&& 0 <= u < n
                &&& settled[u]
                &&& v != start
                &&& has_leg(g, u, v, (came[v]->0).1@)
                &&& (settled[v] ==> rank[u] < rank[v])
            }
        &&& fits ==> weights_at_most(g, wcap) && n * wcap < usize::MAX
        &&& fits ==> forall|v: int|
            0 <= v < n && dist[v] < usize::MAX ==> dist[v] <= done.len() * wcap
        &&& fits ==> forall|v: int|
            0 <= v < n && settled[v] ==> dist[v] + wcap <= done.len() * wcap
        &&& fits ==> forall|u: int, j: int|
            #![trigger settled[u], g.out(u)[j]]
            0 <= u < n && settled[u] && 0 <= j < g.out(u).len() && (u != cur || j < examined)
                ==> dist[g.out(u)[j].to as int] < usize::MAX
        &&& opt_inv(g, start, fits, cur, examined, dist, came, settled)
    }
}

/// What a search keeps where costs fit: each settled station's connections
/// (but those of `cur` from `examined` on) are relaxed exactly, with the
/// leg weight after the leg that reached the station, and each recorded
/// step costs exactly the difference of the distances. On a single line,
/// besides, no walk to a settled station costs less than its distance.
#[verifier::opaque]
spec fn opt_inv(
    g: SubwayView,
    start: int,
    fits: bool,
    cur: int,
    examined: int,
    dist: Seq<usize>,
    came: Seq<Option<(StationId, StationInfo)>>,
    settled: Seq<bool>,
) -> bool {
    let n = g.size();
    &&& fits ==> {
        &&& forall|u: int, j: int|
            #![trigger settled[u], g.out(u)[j]]
            0 <= u < n && settled[u] && 0 <= j < g.out(u).len() && (u != cur || j < examined)
                ==> dist[g.out(u)[j].to as int] <= dist[u] + leg_weight(prev_of(came, u), g.out(u)[j])
        &&& forall|v: int|
            #![trigger came[v]]
            0 <= v < n && came[v] is Some ==> dist[v] == dist[(came[v]->0).0 as int] + leg_weight(
                prev_of(came, (came[v]->0).0 as int),
                step_conn(g, (came[v]->0).0 as int, v),
            )
    }
    &&& single_line(g) && fits ==> {
        &&& forall|u: int, j: int|
            #![trigger settled[u], g.out(u)[j]]
            0 <= u < n && settled[u] && 0 <= j < g.out(u).len() && (u != cur || j < examined)
                ==> dist[g.out(u)[j].to as int] <= dist[u] + plain_weight(g.out(u)[j])
        &&& forall|u: int|
            #![trigger settled[u]]
            0 <= u < n && settled[u] ==> cost_at_least(g, start, u, dist[u] as int)
        &&& forall|v: int|
            #![trigger came[v]]
            0 <= v < n && came[v] is Some ==> dist[v] == dist[(came[v]->0).0 as int] + step_weight(
                g,
                (came[v]->0).0 as int,
                v,
            )
    }
}

/// Relaxing connection `j` of the settled station `cur` keeps `opt_inv`.
proof fn lemma_relax_opt(
    g: SubwayView,
    start: int,
    fits: bool,
    cur: int,
    j: int,
    dist1: Seq<usize>,
    came1: Seq<Option<(StationId, StationInfo)>>,
    settled: Seq<bool>,
    dist2: Seq<usize>,
    came2: Seq<Option<(StationId, StationInfo)>>,
    next: int,
)
    requires
        opt_inv(g, start, fits, cur, j, dist1, came1, settled),
        g.wf(),
        dist1.len() == g.size(),
        came1.len() == g.size(),
        settled.len() == g.size(),
        0 <= cur < g.connections.len(),
        0 <= j < g.out(cur).len(),
        settled[cur],
        single_line(g) && fits ==> next == dist1[cur] + plain_weight(g.out(cur)[j]),
        fits ==> next == dist1[cur] + leg_weight(prev_of(came1, cur), g.out(cur)[j]),
        forall|v: int|
            0 <= v < g.size() && settled[v] ==> dist1[v] <= dist1[cur],
        ({
            let to = g.out(cur)[j].to as int;
            ||| dist2 == dist1 && came2 == came1 && dist1[to] <= next
            ||| next < dist1[to] && dist2 == dist1.update(to, next as usize) && came2.len() == came1.len()
                && (forall|v: int| 0 <= v < g.size() && v != to ==> came2[v] == came1[v])
                && came2[to] is Some && (came2[to]->0).0 == cur && (came2[to]->0).1@ == g.out(cur)[j].info
        }),
        forall|v: int|
            #![trigger came1[v]]
            0 <= v < g.size() && came1[v] is Some ==> 0 <= (came1[v]->0).0 < g.size() && settled[(
            came1[v]->0).0 as int],
    ensures
        opt_inv(g, start, fits, cur, j + 1, dist2, came2, settled),
{
    reveal(opt_inv);
    if fits {
        let to = g.out(cur)[j].to as int;
        lemma_step_weight(g, cur, j);
        if next < dist1[to] {
            assert(!settled[to]);
            assert forall|u: int| 0 <= u < g.size() && settled[u] implies #[trigger] prev_of(came2, u)
                == prev_of(came1, u) by {
                assert(u != to);
                assert(came2[u] == came1[u]);
            }
            assert forall|v: int|
                #![trigger came2[v]]
                0 <= v < g.size() && came2[v] is Some implies dist2[v] == dist2[(came2[v]->0).0 as int]
                + leg_weight(
                prev_of(came2, (came2[v]->0).0 as int),
                step_conn(g, (came2[v]->0).0 as int, v),
            ) by {
                if v != to {
                    assert(came2[v] == came1[v]);
                    assert(settled[(came1[v]->0).0 as int]);
                }
            }
            assert forall|u: int, k: int|
                #![trigger settled[u], g.out(u)[k]]
                0 <= u < g.size() && settled[u] && 0 <= k < g.out(u).len() && (u != cur || k < j + 1)
                    implies dist2[g.out(u)[k].to as int] <= dist2[u] + leg_weight(prev_of(came2, u), g.out(u)[k]) by {
                assert(u != to);
            }
        }
    }
    if single_line(g) && fits {
        let to = g.out(cur)[j].to as int;
        lemma_step_weight(g, cur, j);
        if next < dist1[to] {
            assert(!settled[to]);
            assert forall|v: int|
                #![trigger came2[v]]
                0 <= v < g.size() && came2[v] is Some implies dist2[v] == dist2[(came2[v]->0).0 as int]
                + step_weight(g, (came2[v]->0).0 as int, v) by {
                if v != to {
                    assert(came2[v] == came1[v]);
                    assert(settled[(came1[v]->0).0 as int]);
                }
            }
            assert forall|u: int| #![trigger settled[u]] 0 <= u < g.size() && settled[u] implies cost_at_least(
                g,
                start,
                u,
                dist2[u] as int,
            ) by {
                assert(u != to);
            }
        }
    }
}

/// In a search whose least frontier cost is `m`, with `pending` just taken
/// at cost `m`, every walk from the start to a station not yet settled
/// costs at least `m`.
proof fn lemma_walk_cost_bound(
    g: SubwayView,
    start: int,
    fits: bool,
    dist: Seq<usize>,
    came: Seq<Option<(StationId, StationInfo)>>,
    settled: Seq<bool>,
    frontier: Seq<(usize, StationId)>,
    pending: int,
    m: int,
    w: Seq<int>,
)
    requires
        opt_inv(g, start, fits, -1, 0, dist, came, settled),
        g.wf(),
        single_line(g),
        fits,
        dist.len() == g.size(),
        settled.len() == g.size(),
        0 <= start < g.size(),
        dist[start] == 0,
        0 <= m,
        forall|k: int| 0 <= k < frontier.len() ==> frontier[k].0 >= m,
        0 <= pending < g.size() ==> dist[pending] == m,
        forall|v: int|
            0 <= v < g.size() && dist[v] < usize::MAX ==> settled[v] || v == pending || exists|k: int|
                0 <= k < frontier.len() && frontier[k] == (dist[v], v as StationId),
        forall|u: int, j: int|
            #![trigger settled[u], g.out(u)[j]]
            0 <= u < g.size() && settled[u] && 0 <= j < g.out(u).len() ==> dist[g.out(u)[j].to as int]
                < usize::MAX,
        is_walk(g, w),
        w[0] == start,
        0 <= w.last() < g.size(),
        !settled[w.last()],
    ensures
        walk_cost(g, w) >= m,
    decreases w.len(),
{
    reveal(opt_inv);
    let x = w.last();
    if w.len() == 1 {
        if x != pending {
            let k = choose|k: int|
                0 <= k < frontier.len() && frontier[k] == (dist[x], x as StationId);
            assert(frontier[k].0 >= m);
        }
    } else {
        let w1 = w.drop_last();
        let y = w[w.len() - 2];
        lemma_walk_drop_last(g, w);
        let j = choose|j: int| 0 <= j < g.out(y).len() && g.out(y)[j].to == x;
        assert(0 <= y < g.connections.len());
        lemma_step_weight(g, y, j);
        assert(plain_weight(g.out(y)[j]) >= 0);
        if settled[y] {
            assert(cost_at_least(g, start, y, dist[y] as int));
            assert(w1.last() == y);
            assert(walk_cost(g, w1) >= dist[y]);
            assert(dist[x] <= dist[y] + plain_weight(g.out(y)[j]));
            assert(dist[x] < usize::MAX);
            if x != pending {
                let k = choose|k: int|
                    0 <= k < frontier.len() && frontier[k] == (dist[x], x as StationId);
                assert(frontier[k].0 >= m);
            }
        } else {
            lemma_walk_cost_bound(g, start, fits, dist, came, settled, frontier, pending, m, w1);
        }
    }
}

/// Marks `current`, taken from the frontier at its best cost `cost`, as settled.
fn settle(
    search: &mut Search,
    current: StationId,
    cost: usize,
    Ghost(g): Ghost<SubwayView>,
    Ghost(start): Ghost<int>,
    Ghost(end): Ghost<int>,
    Ghost(fits): Ghost<bool>,
    Ghost(wcap): Ghost<int>,
)
    requires
        old(search).inv(g, start, end, fits, wcap, -1, 0, current as int),
        current < g.size(),
        current != end,
        !old(search).settled@[current as int],
        old(search).dist@[current as int] == cost,
        cost < usize::MAX,
        old(search).last@ == cost,
    ensures
        final(search).inv(g, start, end, fits, wcap, current as int, 0, -1),
        final(search).settled@[current as int],
        final(search).dist@ == old(search).dist@,
        final(search).frontier@ == old(search).frontier@,
        final(search).last@ == cost,
{
    let ghost done0 = search.done@;
    proof {
        if single_line(g) && fits {
            assert forall|w: Seq<int>|
                is_walk(g, w) && w[0] == start && w.last() == current implies #[trigger] walk_cost(g, w)
                >= cost by {
                lemma_walk_cost_bound(
                    g,
                    start,
                    fits,
                    old(search).dist@,
                    old(search).came_from@,
                    old(search).settled@,
                    old(search).frontier@,
                    current as int,
                    cost as int,
                    w,
                );
            }
            assert(cost_at_least(g, start, current as int, cost as int));
        }
        if fits {
            assert(cost <= done0.len() * wcap);
            assert((done0.len() + 1) * wcap == done0.len() * wcap + wcap) by (nonlinear_arith);
            assert(done0.len() * wcap <= (done0.len() + 1) * wcap) by (nonlinear_arith)
                requires
                    wcap >= 0,
            ;
        }
        assert(!done0.contains(current as int));
    }
    search.settled.set(current, true);
    search.rank = Ghost(search.rank@.update(current as int, done0.len()));
    search.done = Ghost(done0.insert(current as int));
    proof {
        assert(search.done@.len() == done0.len() + 1);
        let came = search.came_from@;
        assert forall|v: int|
            #![trigger came[v]]
            0 <= v < g.size() && came[v] is Some implies {
                let u = (came[v]->0).0 as int;
                &&& 0 <= u < g.size()
                &&& search.settled@[u]
                &&& v != start
                &&& has_leg(g, u, v, (came[v]->0).1@)
                &&& (search.settled@[v] ==> search.rank@[u] < search.rank@[v])
            } by {
            let u = (came[v]->0).0 as int;
            assert(old(search).settled@[u]);
            assert(u != current);
        }
        if fits {
            assert forall|v: int|
                0 <= v < g.size() && search.settled@[v] implies search.dist@[v] + wcap
                    <= search.done@.len() * wcap by {
                if v != current {
                    assert(old(search).settled@[v]);
                }
            }
        }
        let n = g.size();
        let dist = search.dist@;
        let settled = search.settled@;
        let frontier = search.frontier@;
        let done = search.done@;
        let rank = search.rank@;
        let last = search.last@;
        assert(done.finite());
        assert(forall|v: int| done.contains(v) ==> 0 <= v < n);
        assert(forall|v: int| 0 <= v < n ==> (settled[v] <==> done.contains(v)));
        assert(forall|v: int|
            0 <= v < n && settled[v] ==> dist[v] <= last && v != end && rank[v] < done.len()
                && dist[v] < usize::MAX);
        assert(forall|v: int|
            0 <= v < n && dist[v] < usize::MAX ==> settled[v] || exists|k: int|
                0 <= k < frontier.len() && frontier[k] == (dist[v], v as StationId));
        assert(fits ==> forall|v: int|
            0 <= v < n && dist[v] < usize::MAX ==> dist[v] <= done.len() * wcap);
        assert(fits ==> forall|u: int, j: int|
            #![trigger settled[u], g.out(u)[j]]
            0 <= u < n && settled[u] && 0 <= j < g.out(u).len() && (u != current || j < 0)
                ==> dist[g.out(u)[j].to as int] < usize::MAX);
        assert(opt_inv(g, start, fits, current as int, 0, dist, search.came_from@, settled)) by {
            reveal(opt_inv);
            if single_line(g) && fits {
                assert forall|u: int| #![trigger settled[u]] 0 <= u < n && settled[u] implies cost_at_least(
                    g,
                    start,
                    u,
                    dist[u] as int,
                ) by {
                    if u != current {
                        assert(old(search).settled@[u]);
                    }
                }
                assert forall|u: int, j: int|
                    #![trigger settled[u], g.out(u)[j]]
                    0 <= u < n && settled[u] && 0 <= j < g.out(u).len() && (u != current || j < 0)
                        implies dist[g.out(u)[j].to as int] <= dist[u] + plain_weight(g.out(u)[j]) by {
                    assert(old(search).settled@[u]);
                }
            }
        }
        assert(search.inv(g, start, end, fits, wcap, current as int, 0, -1));
    }
}

/// Relaxes the connection `c`, at position `j` of the list of `current`:
/// records its target where the leg reaches it more cheaply than known.
#[verifier::rlimit(100)]
fn relax_edge(
    graph: &Subway,
    search: &mut Search,
    current: StationId,
    cost: usize,
    c: &Connection,
    Ghost(j): Ghost<int>,
    prev: &Option<StationInfo>,
    Ghost(start): Ghost<int>,
    Ghost(end): Ghost<int>,
    Ghost(fits): Ghost<bool>,
    Ghost(wcap): Ghost<int>,
)
    requires
        old(search).inv(graph@, start, end, fits, wcap, current as int, j, -1),
        current < graph@.connections.len(),
        0 <= j < graph@.out(current as int).len(),
        c@ == graph@.out(current as int)[j],
        old(search).settled@[current as int],
        old(search).dist@[current as int] == cost,
        old(search).last@ == cost,
        match prev {
            Some(p) => Some(p@),
            None => None::<InfoView>,
        } == prev_of(old(search).came_from@, current as int),
    ensures
        final(search).inv(graph@, start, end, fits, wcap, current as int, j + 1, -1),
        final(search).settled@ == old(search).settled@,
        final(search).done@ == old(search).done@,
        final(search).rank@ == old(search).rank@,
        final(search).last@ == old(search).last@,
        final(search).dist@[current as int] == cost,
        prev_of(final(search).came_from@, current as int) == prev_of(
            old(search).came_from@,
            current as int,
        ),
        2 * total(final(search).dist@) + final(search).frontier.len() <= 2 * total(
            old(search).dist@,
        ) + old(search).frontier.len(),
{
    let ghost g = graph@;
    let w = weight_of(prev, c);
    let next = cost.saturating_add(w);
    let to = c.to;
    proof {
        assert(g.out(current as int) == g.connections[current as int]);
        if fits {
            lemma_leg_weight_bounded(g, wcap, prev_of(search.came_from@, current as int), current as int, j);
            assert(cost + wcap <= search.done@.len() * wcap);
            assert(search.done@.len() <= g.size()) by {
                lemma_done_bounded(search.done@, g.size() as int);
            }
            assert(search.done@.len() * wcap <= g.size() * wcap) by (nonlinear_arith)
                requires
                    search.done@.len() <= g.size(),
                    wcap >= 0,
            ;
            assert(next == cost + leg_weight(prev_of(search.came_from@, current as int), c@));
        }
        if single_line(g) && fits {
            lemma_step_weight(g, current as int, j);
            let came = search.came_from@;
            if came[current as int] is Some {
                let u0 = (came[current as int]->0).0 as int;
                let info = (came[current as int]->0).1@;
                assert(has_leg(g, u0, current as int, info));
                let k = choose|k: int|
                    0 <= k < g.out(u0).len() && g.out(u0)[k].to == current && g.out(u0)[k].info == info;
                assert(g.out(u0) == g.connections[u0]);
                lemma_single_line_weight(g, current as int, j, prev_of(came, current as int), u0, k);
            } else {
                lemma_single_line_weight(g, current as int, j, prev_of(came, current as int), 0, 0);
            }
            assert(next == cost + plain_weight(c@));
        }
    }
    if next < search.dist[to] {
        let ghost old_frontier = search.frontier@;
        let ghost old_dist = search.dist@;
        let ghost old_came = search.came_from@;
        proof {
            lemma_total_update(old_dist, to as int, next);
            assert(!search.settled@[to as int]);
        }
        search.dist.set(to, next);
        search.came_from.set(to, Some((current, c.info.duplicate())));
        search.frontier.push((next, to));
        proof {
            assert(has_leg(g, current as int, to as int, c.info@));
            assert forall|v: int|
                0 <= v < g.size() && search.dist@[v] < usize::MAX implies search.settled@[v] || v
                    == -1 || exists|k: int|
                    0 <= k < search.frontier@.len() && search.frontier@[k] == (
                        search.dist@[v],
                        v as StationId,
                    ) by {
                if v == to {
                    assert(search.frontier@[old_frontier.len() as int] == (
                        search.dist@[v],
                        v as StationId,
                    ));
                } else if !search.settled@[v] {
                    let k = choose|k: int|
                        0 <= k < old_frontier.len() && old_frontier[k] == (old_dist[v], v as StationId);
                    assert(search.frontier@[k] == old_frontier[k]);
                }
            }
            lemma_relax_opt(
                g,
                start,
                fits,
                current as int,
                j,
                old_dist,
                old_came,
                search.settled@,
                search.dist@,
                search.came_from@,
                next as int,
            );
        }
    } else {
        proof {
            lemma_relax_opt(
                g,
                start,
                fits,
                current as int,
                j,
                search.dist@,
                search.came_from@,
                search.settled@,
                search.dist@,
                search.came_from@,
                next as int,
            );
        }
    }
}

/// Examines the connections out of `current`, just settled at cost `cost`,
/// and records every station that they reach more cheaply than known.
fn relax_from(
    graph: &Subway,
    search: &mut Search,
    current: StationId,
    cost: usize,
    Ghost(start): Ghost<int>,
    Ghost(end): Ghost<int>,
    Ghost(fits): Ghost<bool>,
    Ghost(wcap): Ghost<int>,
)
    requires
        old(search).inv(graph@, start, end, fits, wcap, current as int, 0, -1),
        current < graph@.size(),
        old(search).settled@[current as int],
        old(search).dist@[current as int] == cost,
        old(search).last@ == cost,
    ensures
        final(search).inv(graph@, start, end, fits, wcap, -1, 0, -1),
        final(search).settled@ == old(search).settled@,
        final(search).done@ == old(search).done@,
        final(search).rank@ == old(search).rank@,
        final(search).last@ == old(search).last@,
        2 * total(final(search).dist@) + final(search).frontier.len() <= 2 * total(
            old(search).dist@,
        ) + old(search).frontier.len(),
{
    let ghost g = graph@;
    let prev: Option<StationInfo> = match &search.came_from[current] {
        Some(e) => Some(e.1.duplicate()),
        None => None,
    };
    assert(match prev {
        Some(p) => Some(p@),
        None => None::<InfoView>,
    } == prev_of(search.came_from@, current as int));
    if current < graph.connections.len() {
        let conns = &graph.connections[current];
        assert(connections_view_eq(g, current as int, conns@));
        let n = conns.len();
        let mut j: usize = 0;
        while j < n
            invariant
                search.inv(g, start, end, fits, wcap, current as int, j as int, -1),
                g == graph@,
                current < graph@.size(),
                current < graph@.connections.len(),
                g.out(current as int) == g.connections[current as int],
                n == conns.len(),
                n == g.out(current as int).len(),
                forall|k: int| 0 <= k < n ==> conns[k]@ == g.out(current as int)[k],
                j <= n,
                search.settled@[current as int],
                search.dist@[current as int] == cost,
                search.last@ == cost,
                search.settled@ == old(search).settled@,
                search.done@ == old(search).done@,
                search.rank@ == old(search).rank@,
                search.last@ == old(search).last@,
                2 * total(search.dist@) + search.frontier.len() <= 2 * total(old(search).dist@)
                    + old(search).frontier.len(),
                match prev {
                    Some(p) => Some(p@),
                    None => None::<InfoView>,
                } == prev_of(search.came_from@, current as int),
            decreases n - j,
        {
            relax_edge(
                graph,
                search,
                current,
                cost,
                &conns[j],
                Ghost(j as int),
                &prev,
                Ghost(start),
                Ghost(end),
                Ghost(fits),
                Ghost(wcap),
            );
            j = j + 1;
        }
    }
    proof {
        lemma_opt_inv_finished(
            graph@,
            start,
            fits,
            current as int,
            search.dist@,
            search.came_from@,
            search.settled@,
        );
    }
}

/// Once every connection of `cur` is relaxed, no exception remains.
proof fn lemma_opt_inv_finished(
    g: SubwayView,
    start: int,
    fits: bool,
    cur: int,
    dist: Seq<usize>,
    came: Seq<Option<(StationId, StationInfo)>>,
    settled: Seq<bool>,
)
    requires
        opt_inv(g, start, fits, cur, g.out(cur).len() as int, dist, came, settled)
            || (cur >= g.connections.len() && opt_inv(g, start, fits, cur, 0, dist, came, settled)),
    ensures
        opt_inv(g, start, fits, -1, 0, dist, came, settled),
{
    reveal(opt_inv);
}

/// The sum of the entries of `s`.
spec fn total(s: Seq<usize>) -> int
    decreases s.len(),
{
    if s.len() == 0 {
        0
    } else {
        total(s.drop_last()) + s.last()
    }
}

proof fn lemma_total_update(s: Seq<usize>, i: int, x: usize)
    requires
        0 <= i < s.len(),
    ensures
        total(s.update(i, x)) == total(s) - s[i] + x,
    decreases s.len(),
{
    if i == s.len() - 1 {
        assert(s.update(i, x).drop_last() =~= s.drop_last());
    } else {
        assert(s.update(i, x).drop_last() =~= s.drop_last().update(i, x));
        lemma_total_update(s.drop_last(), i, x);
    }
}

proof fn lemma_total_nonneg(s: Seq<usize>)
    ensures
        total(s) >= 0,
    decreases s.len(),
{
    if s.len() > 0 {
        lemma_total_nonneg(s.drop_last());
    }
}

/// Every station of a walk that starts at a finite distance is at a finite
/// distance too, where every finite station is settled and the connections
/// of every settled station lead to finite ones.
proof fn lemma_walk_finite(g: SubwayView, dist: Seq<usize>, settled: Seq<bool>, w: Seq<int>, i: int)
    requires
        g.wf(),
        is_walk(g, w),
        0 <= i < w.len(),
        dist.len() == g.size(),
        settled.len() == g.size(),
        0 <= w[0] < g.size(),
        dist[w[0]] < usize::MAX,
        forall|v: int| 0 <= v < g.size() && dist[v] < usize::MAX ==> settled[v],
        forall|u: int, j: int|
            #![trigger settled[u], g.out(u)[j]]
            0 <= u < g.size() && settled[u] && 0 <= j < g.out(u).len() ==> dist[g.out(u)[j].to as int]
                < usize::MAX,
    ensures
        0 <= w[i] < g.size(),
        dist[w[i]] < usize::MAX,
    decreases i,
{
    if i > 0 {
        lemma_walk_finite(g, dist, settled, w, i - 1);
        let u = w[i - 1];
        assert(g.linked(w[i - 1], w[(i - 1) + 1]));
        let j = choose|j: int| 0 <= j < g.out(u).len() && g.out(u)[j].to == w[i];
        assert(settled[u]);
        assert(g.out(u) == g.connections[u]);
        assert(g.out(u)[j].to < g.size());
    }
}

/// The stations of an itinerary form a walk.
proof fn lemma_itinerary_reachable(g: SubwayView, start: int, end: int, p: Seq<(StationId, InfoView)>)
    requires
        is_itinerary(g, start, end, p),
    ensures
        reachable(g, start, end),
{
    let w = Seq::new(p.len(), |i: int| p[i].0 as int);
    assert forall|i: int| 0 <= i < w.len() - 1 implies #[trigger] g.linked(w[i], w[i + 1]) by {
        assert(has_leg(g, p[i].0 as int, p[i + 1].0 as int, p[i].1));
    }
    assert(is_walk(g, w));
    assert(w.last() == end);
}

/// Along a trip whose every step is the recorded one, the cost of each
/// prefix is the distance of its last station.
proof fn lemma_chain_cost(
    g: SubwayView,
    start: int,
    fits: bool,
    cur: int,
    examined: int,
    dist: Seq<usize>,
    came: Seq<Option<(StationId, StationInfo)>>,
    settled: Seq<bool>,
    p: Seq<(StationId, InfoView)>,
    k: int,
)
    requires
        opt_inv(g, start, fits, cur, examined, dist, came, settled),
        single_line(g),
        fits,
        dist.len() == g.size(),
        came.len() == g.size(),
        p.len() >= 1,
        p[0].0 == start,
        dist[start] == 0,
        0 <= k < p.len(),
        forall|i: int| 0 <= i < p.len() ==> p[i].0 < g.size(),
        forall|i: int|
            #![trigger p[i + 1]]
            0 <= i < p.len() - 1 ==> came[p[i + 1].0 as int] is Some && (came[p[i + 1].0 as int]->0).0
                == p[i].0,
    ensures
        walk_cost(g, stations_of(p.take(k + 1))) == dist[p[k].0 as int],
    decreases k,
{
    reveal(opt_inv);
    let s1 = stations_of(p.take(k + 1));
    if k > 0 {
        lemma_chain_cost(g, start, fits, cur, examined, dist, came, settled, p, k - 1);
        assert(s1.drop_last() =~= stations_of(p.take(k)));
        assert(s1[k - 1] == p[k - 1].0);
        assert(s1.last() == p[k].0);
        assert(came[p[k].0 as int] is Some);
    } else {
        assert(s1.len() == 1);
    }
}

/// The trip retraced when the goal is taken from the frontier costs no more
/// than any walk to the goal, on a single line.
proof fn lemma_found_optimal(
    g: SubwayView,
    start: int,
    end: int,
    fits: bool,
    dist: Seq<usize>,
    came: Seq<Option<(StationId, StationInfo)>>,
    settled: Seq<bool>,
    frontier: Seq<(usize, StationId)>,
    m: int,
    pv: Seq<(StationId, InfoView)>,
)
    requires
        opt_inv(g, start, fits, -1, 0, dist, came, settled),
        g.wf(),
        single_line(g),
        fits,
        dist.len() == g.size(),
        came.len() == g.size(),
        settled.len() == g.size(),
        0 <= start < g.size(),
        0 <= end < g.size(),
        dist[start] == 0,
        0 <= m,
        dist[end] == m,
        !settled[end],
        forall|k: int| 0 <= k < frontier.len() ==> frontier[k].0 >= m,
        forall|v: int|
            0 <= v < g.size() && dist[v] < usize::MAX ==> settled[v] || v == end || exists|k: int|
                0 <= k < frontier.len() && frontier[k] == (dist[v], v as StationId),
        forall|u: int, j: int|
            #![trigger settled[u], g.out(u)[j]]
            0 <= u < g.size() && settled[u] && 0 <= j < g.out(u).len() ==> dist[g.out(u)[j].to as int]
                < usize::MAX,
        is_itinerary(g, start, end, pv),
        forall|i: int|
            #![trigger pv[i + 1]]
            0 <= i < pv.len() - 1 ==> came[pv[i + 1].0 as int] is Some && (came[pv[i + 1].0 as int]->0).0
                == pv[i].0,
    ensures
        cheapest(g, start, end, pv),
{
    assert forall|i: int| 0 <= i < pv.len() implies pv[i].0 < g.size() by {
        if i < pv.len() - 1 {
            assert(has_leg(g, pv[i].0 as int, pv[i + 1].0 as int, pv[i].1));
            assert(g.out(pv[i].0 as int) == g.connections[pv[i].0 as int]);
        }
    }
    lemma_chain_cost(g, start, fits, -1, 0, dist, came, settled, pv, pv.len() - 1);
    assert(pv.take(pv.len() as int) =~= pv);
    assert forall|w: Seq<int>|
        is_walk(g, w) && w[0] == start && w.last() == end implies walk_cost(g, stations_of(pv))
            <= #[trigger] walk_cost(g, w) by {
        lemma_walk_cost_bound(g, start, fits, dist, came, settled, frontier, end, m, w);
    }
}

/// Past the first entry, the stations of `back` are settled and ranked in
/// strictly falling order, all above `cur`.
#[verifier::opaque]
spec fn descending(back: Seq<(StationId, StationInfo)>, cur: int, settled: Seq<bool>, rank: Seq<nat>) -> bool {
    &&& forall|i: int|
        #![trigger back[i]]
        1 <= i < back.len() ==> settled[back[i].0 as int] && rank[cur] < rank[back[i].0 as int]
    &&& forall|i: int, k: int| 1 <= i < k < back.len() ==> rank[back[k].0 as int] < rank[back[i].0 as int]
}

proof fn lemma_descending_push(
    old_back: Seq<(StationId, StationInfo)>,
    back: Seq<(StationId, StationInfo)>,
    cur: int,
    p: int,
    settled: Seq<bool>,
    rank: Seq<nat>,
)
    requires
        descending(old_back, cur, settled, rank),
        old_back.len() >= 1,
        back.len() == old_back.len() + 1,
        forall|i: int| 0 <= i < old_back.len() ==> back[i] == old_back[i],
        back.last().0 == cur,
        settled[cur],
        rank[p] < rank[cur],
    ensures
        descending(back, p, settled, rank),
{
    reveal(descending);
    assert forall|i: int|
        #![trigger back[i]]
        1 <= i < back.len() implies settled[back[i].0 as int] && rank[p] < rank[back[i].0 as int] by {
        if i < old_back.len() {
            assert(back[i] == old_back[i]);
        }
    }
    assert forall|i: int, k: int| 1 <= i < k < back.len() implies rank[back[k].0 as int] < rank[back[i].0 as int] by {
        assert(back[i] == old_back[i]);
        if k < old_back.len() {
            assert(back[k] == old_back[k]);
        }
    }
}

proof fn lemma_descending_distinct(
    old_back: Seq<(StationId, StationInfo)>,
    back: Seq<(StationId, StationInfo)>,
    cur: int,
    settled: Seq<bool>,
    rank: Seq<nat>,
)
    requires
        descending(old_back, cur, settled, rank),
        old_back.len() >= 1,
        back.len() == old_back.len() + 1,
        forall|i: int| 0 <= i < old_back.len() ==> back[i] == old_back[i],
        back.last().0 == cur,
        settled[cur],
        !settled[back[0].0 as int],
    ensures
        forall|i: int, k: int| 0 <= i < k < back.len() ==> back[i].0 != back[k].0,
{
    reveal(descending);
    assert forall|i: int, k: int| 0 <= i < k < back.len() implies back[i].0 != back[k].0 by {
        if k < old_back.len() {
            assert(back[k] == old_back[k]);
        }
        if i > 0 {
            assert(back[i] == old_back[i]);
        }
        if i == 0 {
            assert(settled[back[k].0 as int]);
        }
    }
}

/// Each entry of `back` after the first is the recorded step into the
/// entry before it, and `cur` is the recorded step into the last.
#[verifier::opaque]
spec fn chained(back: Seq<(StationId, StationInfo)>, cur: int, came: Seq<Option<(StationId, StationInfo)>>) -> bool {
    &&& forall|i: int|
        #![trigger back[i]]
        1 <= i < back.len() ==> came[back[i - 1].0 as int] is Some && (came[back[i - 1].0 as int]->0).0
            == back[i].0
    &&& came[back.last().0 as int] is Some && (came[back.last().0 as int]->0).0 == cur
}

#[verifier::rlimit(100)]
proof fn lemma_chained_push(
    old_back: Seq<(StationId, StationInfo)>,
    back: Seq<(StationId, StationInfo)>,
    cur: int,
    p: int,
    came: Seq<Option<(StationId, StationInfo)>>,
)
    requires
        chained(old_back, cur, came),
        old_back.len() >= 1,
        back.len() == old_back.len() + 1,
        forall|i: int| 0 <= i < old_back.len() ==> back[i] == old_back[i],
        back.last().0 == cur,
        came[cur] is Some,
        (came[cur]->0).0 == p,
    ensures
        chained(back, p, came),
{
    reveal(chained);
    assert forall|i: int|
        #![trigger back[i]]
        1 <= i < back.len() implies came[back[i - 1].0 as int] is Some && (came[back[i - 1].0 as int]->0).0
        == back[i].0 by {
        assert(back[i - 1] == old_back[i - 1]);
        if i < old_back.len() {
            assert(back[i] == old_back[i]);
        }
    }
}

/// What the trip retraced when the search takes `end` at cost `m` is known
/// to be: a way there, certified by the search, and on a single line one
/// that no walk beats.
proof fn lemma_found(
    search: &Search,
    g: SubwayView,
    start: int,
    end: int,
    fits: bool,
    wcap: int,
    m: int,
    pv: Seq<(StationId, InfoView)>,
)
    requires
        search.inv(g, start, end, fits, wcap, -1, 0, end),
        fits == costs_fit(g),
        search.dist@[end] == m,
        0 <= m < usize::MAX,
        forall|k: int| 0 <= k < search.frontier@.len() ==> search.frontier@[k].0 >= m,
        is_itinerary(g, start, end, pv),
        forall|i: int|
            #![trigger pv[i + 1]]
            0 <= i < pv.len() - 1 ==> search.came_from@[pv[i + 1].0 as int] is Some && (
            search.came_from@[pv[i + 1].0 as int]->0).0 == pv[i].0,
    ensures
        reachable(g, start, end),
        fits ==> certified(g, start, end, pv),
        single_line(g) && fits ==> cheapest(g, start, end, pv),
{
    lemma_itinerary_reachable(g, start, end, pv);
    let came = search.came_from@;
    assert forall|v: int|
        #![trigger came[v]]
        0 <= v < g.size() && came[v] is Some implies has_leg(g, (came[v]->0).0 as int, v, (came[v]->0).1@) by {
    }
    if fits {
        lemma_certificate(
            g,
            start,
            end,
            fits,
            search.dist@,
            came,
            search.settled@,
            search.done@,
            search.frontier@,
            m,
            pv,
        );
    }
    if single_line(g) && fits {
        lemma_found_optimal(
            g,
            start,
            end,
            fits,
            search.dist@,
            came,
            search.settled@,
            search.frontier@,
            m,
            pv,
        );
    }
}

/// Retraces the steps recorded in `came` from `goal` back to `start` and
/// returns them in travel order.
#[verifier::rlimit(100)]
fn reconstruct_path(
    graph: &Subway,
    came: &Vec<Option<(StationId, StationInfo)>>,
    start: StationId,
    goal: StationId,
    Ghost(settled): Ghost<Seq<bool>>,
    Ghost(rank): Ghost<Seq<nat>>,
) -> (r: Vec<(StationId, StationInfo)>)
    requires
        came.len() == graph@.size(),
        settled.len() == graph@.size(),
        rank.len() == graph@.size(),
        start < graph@.size(),
        goal < graph@.size(),
        goal != start,
        !settled[goal as int],
        came@[goal as int] is Some,
        came@[start as int] is None,
        forall|v: int|
            #![trigger came@[v]]
            0 <= v < graph@.size() && came@[v] is Some ==> {
                let u = (came@[v]->0).0 as int;
                &&& 0 <= u < graph@.size()
                &&& settled[u]
                &&& has_leg(graph@, u, v, (came@[v]->0).1@)
                &&& (settled[v] ==> rank[u] < rank[v])
            },
        forall|v: int|
            0 <= v < graph@.size() && settled[v] && v != start ==> came@[v] is Some,
    ensures
        is_itinerary(graph@, start as int, goal as int, path_view(r@)),
        forall|i: int|
            #![trigger r@[i + 1]]
            0 <= i < r.len() - 1 ==> came@[r@[i + 1].0 as int] is Some && (came@[r@[i + 1].0 as int]->0).0
                == r@[i].0,
{
    let ghost g = graph@;
    let (u0, info0) = match &came[goal] {
        Some(e) => (e.0, e.1.duplicate()),
        None => {
            return Vec::new();
        },
    };
    let mut back: Vec<(StationId, StationInfo)> = Vec::new();
    back.push((goal, info0.duplicate()));
    let mut cur: StationId = u0;
    let mut cur_info: StationInfo = info0;
    assert(descending(back@, cur as int, settled, rank)) by {
        reveal(descending);
    }
    assert(chained(back@, cur as int, came@)) by {
        reveal(chained);
    }
    while came[cur].is_some()
        invariant
            came.len() == g.size(),
            settled.len() == g.size(),
            rank.len() == g.size(),
            cur < g.size(),
            settled[cur as int],
            back.len() >= 1,
            back@[0].0 == goal,
            has_leg(g, cur as int, back@.last().0 as int, cur_info@),
            back.len() == 1 ==> cur_info@ == back@[0].1@,
            back.len() >= 2 ==> back@[1].1@ == back@[0].1@,
            forall|i: int|
                1 <= i < back.len() ==> has_leg(g, back@[i].0 as int, back@[i - 1].0 as int, back@[i].1@),
            chained(back@, cur as int, came@),
            !settled[goal as int],
            descending(back@, cur as int, settled, rank),
            forall|v: int|
                #![trigger came@[v]]
                0 <= v < g.size() && came@[v] is Some ==> {
                    let u = (came@[v]->0).0 as int;
                    &&& 0 <= u < g.size()
                    &&& settled[u]
                    &&& has_leg(g, u, v, (came@[v]->0).1@)
                    &&& (settled[v] ==> rank[u] < rank[v])
                },
        decreases rank[cur as int],
    {
        let (p, pinfo) = match &came[cur] {
            Some(e) => (e.0, e.1.duplicate()),
            None => (cur, cur_info.duplicate()),
        };
        assert(came@[cur as int] is Some);
        let ghost old_back = back@;
        back.push((cur, cur_info));
        proof {
            lemma_chained_push(old_back, back@, cur as int, p as int, came@);
            assert(rank[p as int] < rank[cur as int]);
            lemma_descending_push(old_back, back@, cur as int, p as int, settled, rank);
        }
        cur_info = pinfo;
        cur = p;
    }
    let ghost old_back = back@;
    back.push((cur, cur_info));
    proof {
        lemma_descending_distinct(old_back, back@, cur as int, settled, rank);
        reveal(chained);
        assert forall|i: int|
            #![trigger back@[i]]
            1 <= i < back.len() implies came@[back@[i - 1].0 as int] is Some && (came@[back@[i
            - 1].0 as int]->0).0 == back@[i].0 by {
            assert(back@[i - 1] == old_back[i - 1]);
            if i < old_back.len() {
                assert(back@[i] == old_back[i]);
            }
        }
    }
    let ghost orig = back@;
    let total_len = back.len();
    assert(cur == start);
    let mut out: Vec<(StationId, StationInfo)> = Vec::new();
    while back.len() > 0
        invariant
            total_len == orig.len(),
            back@ == orig.take(back.len() as int),
            out.len() + back.len() == total_len,
            forall|k: int| 0 <= k < out.len() ==> out@[k] == orig[total_len - 1 - k],
        decreases back.len(),
    {
        match back.pop() {
            Some(e) => {
                assert(back@ =~= orig.take(back.len() as int));
                out.push(e);
            },
            None => {},
        }
    }
    let ghost pv = path_view(out@);
    assert forall|i: int| 0 <= i < pv.len() - 1 implies has_leg(g, pv[i].0 as int, pv[i + 1].0 as int, pv[i].1) by {
        let k = total_len - 1 - i;
        assert(out@[i] == orig[k]);
        assert(out@[i + 1] == orig[k - 1]);
    }
    assert forall|i: int|
        #![trigger out@[i + 1]]
        0 <= i < out.len() - 1 implies came@[out@[i + 1].0 as int] is Some && (came@[out@[
        i + 1].0 as int]->0).0 == out@[i].0 by {
        let k = total_len - 1 - i;
        assert(out@[i] == orig[k]);
        assert(out@[i + 1] == orig[k - 1]);
    }
    assert forall|i: int, j: int| 0 <= i < j < pv.len() implies pv[i].0 != pv[j].0 by {
        assert(out@[i] == orig[total_len - 1 - i]);
        assert(out@[j] == orig[total_len - 1 - j]);
    }
    assert(out@[0] == orig[total_len - 1]);
    assert(out@[total_len - 1] == orig[0]);
    assert(out@[total_len - 2] == orig[1]);
    out
}

/// Finds a trip from `start` to `end` with a least-cost-first search whose
/// leg weights depend on the leg taken before (see `leg_weight`). Returns
/// the stations of the trip in order, each tagged with the line and branch
/// of the leg that leaves it (the last one with that of the leg reaching
/// it), or `None` where `end` cannot be reached. A trip found visits no
/// station twice. Disabled connections only weigh more: where `end` can be
/// reached at all (and the costs fit), a trip is found. Where the costs fit,
/// the search's own state certifies the trip (see `search_certificate`):
/// it costs what the search found for `end`, and no connection out of a
/// station examined leads anywhere more cheaply, after the leg by which
/// that station was reached. On a network of a single line, where weights
/// do not depend on the leg before, no walk costs less than the trip found.
#[verifier::rlimit(100)]
pub fn find_path(graph: &Subway, start: StationId, end: StationId) -> (r: Option<
    Vec<(StationId, StationInfo)>,
>)
    requires
        graph.wf(),
    ensures
        r matches Some(p) ==> start < graph@.size() && end < graph@.size() && start != end
            && is_itinerary(graph@, start as int, end as int, path_view(p@)),
        r is Some ==> reachable(graph@, start as int, end as int),
        start < graph@.size() && end < graph@.size() && start != end && costs_fit(graph@)
            && reachable(graph@, start as int, end as int) ==> r is Some,
        costs_fit(graph@) ==> (r matches Some(p) ==> certified(
            graph@,
            start as int,
            end as int,
            path_view(p@),
        )),
        single_line(graph@) && costs_fit(graph@) ==> (r matches Some(p) ==> cheapest(
            graph@,
            start as int,
            end as int,
            path_view(p@),
        )),
{
    let ghost g = graph@;
    let n = graph.size();
    if start >= n || end >= n || start == end {
        return None;
    }
    let mut dist: Vec<usize> = Vec::new();
    let mut came_from: Vec<Option<(StationId, StationInfo)>> = Vec::new();
    let mut settled: Vec<bool> = Vec::new();
    let mut i: usize = 0;
    while i < n
        invariant
            i <= n,
            dist.len() == i,
            came_from.len() == i,
            settled.len() == i,
            forall|k: int| 0 <= k < i ==> dist@[k] == usize::MAX,
            forall|k: int| 0 <= k < i ==> came_from@[k] is None,
            forall|k: int| 0 <= k < i ==> !settled@[k],
        decreases n - i,
    {
        dist.push(usize::MAX);
        came_from.push(None);
        settled.push(false);
        i = i + 1;
    }
    dist.set(start, 0);
    let mut frontier: Vec<(usize, StationId)> = Vec::new();
    frontier.push((0, start));
    let ghost fits = costs_fit(g);
    let ghost wcap: int = if fits {
        choose|w: int| weights_at_most(g, w) && g.size() * w < usize::MAX
    } else {
        0
    };
    let mut search = Search {
        dist,
        came_from,
        settled,
        frontier,
        done: Ghost(Set::empty()),
        rank: Ghost(Seq::new(n as nat, |k: int| 0nat)),
        last: Ghost(0),
    };
    proof {
        assert(search.frontier@[0] == (search.dist@[start as int], start));
        assert(opt_inv(g, start as int, fits, -1, 0, search.dist@, search.came_from@, search.settled@)) by {
            reveal(opt_inv);
        }
    }
    while search.frontier.len() > 0
        invariant
            g == graph@,
            fits == costs_fit(g),
            search.inv(g, start as int, end as int, fits, wcap, -1, 0, -1),
        decreases 2 * total(search.dist@) + search.frontier.len(),
    {
        let ghost f0 = search.frontier@;
        let (cost, current) = pop_min(&mut search.frontier);
        let ghost m = choose|m: int|
            0 <= m < f0.len() && (cost, current) == f0[m] && search.frontier@ == f0.remove(m);
        search.last = Ghost(cost as int);
        proof {
            assert forall|v: int|
                0 <= v < g.size() && search.dist@[v] < usize::MAX && !search.settled@[v] && !(v
                    == current && cost == search.dist@[v]) implies exists|k: int|
                0 <= k < search.frontier@.len() && search.frontier@[k] == (
                    search.dist@[v],
                    v as StationId,
                ) by {
                let k = choose|k: int|
                    0 <= k < f0.len() && f0[k] == (search.dist@[v], v as StationId);
                if k < m {
                    assert(search.frontier@[k] == f0[k]);
                } else {
                    assert(k != m);
                    assert(search.frontier@[k - 1] == f0[k]);
                }
            }
            assert forall|k: int| 0 <= k < search.frontier@.len() implies search.frontier@[k].0
                >= cost by {
                if k < m {
                    assert(search.frontier@[k] == f0[k]);
                } else {
                    assert(search.frontier@[k] == f0[k + 1]);
                }
            }
            lemma_total_nonneg(search.dist@);
        }
        proof {
            assert(search.inv(g, start as int, end as int, fits, wcap, -1, 0, current as int));
        }
        if current == end {
            let path = reconstruct_path(
                graph,
                &search.came_from,
                start,
                end,
                Ghost(search.settled@),
                Ghost(search.rank@),
            );
            proof {
                let k0 = choose|k: int|
                    0 <= k < f0.len() && f0[k] == (search.dist@[end as int], end as StationId);
                assert(search.dist@[end as int] == cost);
                lemma_found(&search, g, start as int, end as int, fits, wcap, cost as int, path_view(path@));
            }
            return Some(path);
        }
        if cost > search.dist[current] || search.settled[current] {
            assert(search.inv(g, start as int, end as int, fits, wcap, -1, 0, -1));
            continue;
        }
        settle(
            &mut search,
            current,
            cost,
            Ghost(g),
            Ghost(start as int),
            Ghost(end as int),
            Ghost(fits),
            Ghost(wcap),
        );
        relax_from(
            graph,
            &mut search,
            current,
            cost,
            Ghost(start as int),
            Ghost(end as int),
            Ghost(fits),
            Ghost(wcap),
        );
        proof {
            lemma_total_nonneg(search.dist@);
        }
    }
    proof {
        if fits && reachable(g, start as int, end as int) {
            let w = choose|w: Seq<int>| is_walk(g, w) && w[0] == start && w.last() == end;
            assert forall|v: int|
                0 <= v < g.size() && search.dist@[v] < usize::MAX implies search.settled@[v] by {
                assert(v != -1);
            }
            lemma_walk_finite(g, search.dist@, search.settled@, w, w.len() - 1);
            assert(w[w.len() - 1] == end);
            assert(search.settled@[end as int]);
        }
    }
    None
}

/// `conns` is the stored list of station `s`.
spec fn connections_view_eq(g: SubwayView, s: int, conns: Seq<Connection>) -> bool {
    &&& g.out(s).len() == conns.len()
    &&& forall|k: int| 0 <= k < conns.len() ==> conns[k]@ == g.out(s)[k]
}

proof fn lemma_done_bounded(done: Set<int>, n: int)
    requires
        done.finite(),
        n >= 0,
        forall|v: int| done.contains(v) ==> 0 <= v < n,
    ensures
        done.len() <= n,
{
    lemma_int_range(0, n);
    assert(done.subset_of(set_int_range(0, n)));
    lemma_len_subset(done, set_int_range(0, n));
}

} // verus!
