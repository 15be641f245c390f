//! The graph store: stations, and the directed connections between them.
use vstd::prelude::*;

use crate::pattern::{regex_accepts, regex_finds, StationPattern};
use crate::text::{append_str, decimal, push_decimal, str_eq, text_result};

pub mod data;
pub mod query;
pub mod route;

verus! {

/// A station's identifier: its index in `Subway::stations`.
pub type StationId = usize;

/// A station's display name.
pub type Station = String;

/// The line a connection belongs to, and the branch of that line.
/// On a line without branches the branch equals the line.
#[derive(Debug)]
pub struct StationInfo {
    pub line: String,
    pub branch: String,
}

/// A directed edge of the graph, stored in the list of the station it leaves.
#[derive(Debug)]
pub struct Connection {
    pub to: StationId,
    pub cost: usize,
    pub active: bool,
    pub info: StationInfo,
}

/// The whole network.
#[derive(Debug)]
pub struct Subway {
    pub stations: Vec<Station>,
    pub connections: Vec<Vec<Connection>>,
}

/// Mathematical model of `StationInfo`.
pub struct InfoView {
    pub line: Seq<char>,
    pub branch: Seq<char>,
}

/// Mathematical model of `Connection`.
pub struct ConnectionView {
    pub to: nat,
    pub cost: usize,
    pub active: bool,
    pub info: InfoView,
}

/// Mathematical model of `Subway`: the station names by id, and the
/// outbound connections by the id of the station they leave.
pub struct SubwayView {
    pub stations: Seq<Seq<char>>,
    pub connections: Seq<Seq<ConnectionView>>,
}

impl View for StationInfo {
    type V = InfoView;

    open spec fn view(&self) -> InfoView {
        InfoView { line: self.line@, branch: self.branch@ }
    }
}

impl View for Connection {
    type V = ConnectionView;

    open spec fn view(&self) -> ConnectionView {
        ConnectionView { to: self.to as nat, cost: self.cost, active: self.active, info: self.info@ }
    }
}

pub open spec fn connections_view(cs: Seq<Connection>) -> Seq<ConnectionView> {
    cs.map_values(|c: Connection| c@)
}

impl View for Subway {
    type V = SubwayView;

    open spec fn view(&self) -> SubwayView {
        SubwayView {
            stations: self.stations@.map_values(|s: String| s@),
            connections: self.connections@.map_values(|cs: Vec<Connection>| connections_view(cs@)),
        }
    }
}

impl StationInfo {
    /// A copy of this line/branch pair.
    pub fn duplicate(&self) -> (r: StationInfo)
        ensures
            r@ == self@,
    {
        StationInfo { line: self.line.clone(), branch: self.branch.clone() }
    }
}

/// The rows of a station listing: each id and name, tab-separated.
pub open spec fn listing_rows(names: Seq<Seq<char>>) -> Seq<char>
    decreases names.len(),
{
    if names.len() == 0 {
        Seq::empty()
    } else {
        listing_rows(names.drop_last()) + decimal((names.len() - 1) as nat) + "\t"@ + names.last()
            + "\n"@
    }
}

/// The error for a pattern that matches no station.
pub open spec fn not_found_message(pattern: Seq<char>) -> Seq<char> {
    "No such station: "@ + pattern
}

/// The error for a pattern that matches the stations `ids`.
pub open spec fn ambiguity_message(g: SubwayView, ids: Seq<usize>) -> Seq<char> {
    "disambiguate your destination:"@ + g.names_list(ids)
}

impl SubwayView {
    pub open spec fn size(self) -> nat {
        self.stations.len()
    }

    /// The outbound connections of station `s` (none where no list was stored).
    pub open spec fn out(self, s: int) -> Seq<ConnectionView> {
        if 0 <= s < self.connections.len() {
            self.connections[s]
        } else {
            Seq::empty()
        }
    }

    /// Station `s` has a connection to station `t`.
    pub open spec fn linked(self, s: int, t: int) -> bool {
        exists|j: int| 0 <= j < self.out(s).len() && self.out(s)[j].to == t
    }

    /// The well-formedness of a network: names are unique, every connection
    /// leads to a station, no list holds two connections to the same station,
    /// and no list is stored for a station that does not exist.
    pub open spec fn wf(self) -> bool {
        &&& self.connections.len() <= self.stations.len()
        &&& forall|i: int, j: int|
            0 <= i < j < self.stations.len() ==> self.stations[i] != self.stations[j]
        &&& forall|s: int, j: int|
            0 <= s < self.connections.len() && 0 <= j < self.connections[s].len()
                ==> self.connections[s][j].to < self.stations.len()
        &&& forall|s: int, j: int, k: int|
            0 <= s < self.connections.len() && 0 <= j < k < self.connections[s].len()
                ==> self.connections[s][j].to != self.connections[s][k].to
    }

    /// The id that a station called `name` has, if there is one.
    pub open spec fn id_of(self, name: Seq<char>) -> int {
        choose|i: int| 0 <= i < self.stations.len() && self.stations[i] == name
    }

    /// The ids of the stations whose names `pattern` matches, in order of id.
    pub open spec fn matching(names: Seq<Seq<char>>, pattern: Seq<char>) -> Seq<usize>
        decreases names.len(),
    {
        if names.len() == 0 {
            Seq::empty()
        } else {
            let rest = SubwayView::matching(names.drop_last(), pattern);
            if regex_finds(pattern, names.last()) {
                rest.push((names.len() - 1) as usize)
            } else {
                rest
            }
        }
    }

    /// The names of the stations `ids`, each after a space.
    pub open spec fn names_list(self, ids: Seq<usize>) -> Seq<char>
        decreases ids.len(),
    {
        if ids.len() == 0 {
            Seq::empty()
        } else {
            self.names_list(ids.drop_last()) + " "@ + self.stations[ids.last() as int]
        }
    }

    /// The outcome of a lookup whose matching stations are `ids`: none is an
    /// unknown station, one is that station, more are ambiguous and listed.
    pub open spec fn select(self, pattern: Seq<char>, ids: Seq<usize>) -> Result<usize, Seq<char>> {
        if ids.len() == 0 {
            Err(not_found_message(pattern))
        } else if ids.len() == 1 {
            Ok(ids[0])
        } else {
            Err(ambiguity_message(self, ids))
        }
    }

    /// The outcome of `find_station(pattern)`. A pattern that does not
    /// compile matches no station.
    pub open spec fn lookup(self, pattern: Seq<char>) -> Result<usize, Seq<char>> {
        if regex_accepts(pattern) {
            self.select(pattern, SubwayView::matching(self.stations, pattern))
        } else {
            Err(not_found_message(pattern))
        }
    }

    /// The network after `add_station(name)`.
    pub open spec fn with_station(self, name: Seq<char>) -> SubwayView {
        if self.stations.contains(name) {
            self
        } else {
            SubwayView { stations: self.stations.push(name), connections: self.connections }
        }
    }

    /// The connection lists with empty lists appended until there are at least `k`.
    pub open spec fn padded(self, k: int) -> Seq<Seq<ConnectionView>> {
        if self.connections.len() < k {
            self.connections + Seq::new(
                (k - self.connections.len()) as nat,
                |i: int| Seq::<ConnectionView>::empty(),
            )
        } else {
            self.connections
        }
    }

    /// The network after `add_connection(f, t, line, branch)`.
    pub open spec fn with_connection(
        self,
        f: int,
        t: int,
        line: Seq<char>,
        branch: Seq<char>,
    ) -> SubwayView {
        if self.linked(f, t) {
            self
        } else {
            let c = ConnectionView {
                to: t as nat,
                cost: 1,
                active: true,
                info: InfoView { line, branch },
            };
            let cs = self.padded(f + 1);
            SubwayView { stations: self.stations, connections: cs.update(f, cs[f].push(c)) }
        }
    }

    /// The network with every connection out of or into station `x` set to `active`.
    pub open spec fn with_station_state(self, x: int, active: bool) -> SubwayView {
        SubwayView {
            stations: self.stations,
            connections: self.connections.map(
                |s: int, cs: Seq<ConnectionView>|
                    cs.map(
                        |j: int, c: ConnectionView|
                            if s == x || c.to == x {
                                ConnectionView { active, ..c }
                            } else {
                                c
                            },
                    ),
            ),
        }
    }
}

/// The ids that a lookup matches are station ids.
pub proof fn lemma_matching_in_range(names: Seq<Seq<char>>, pattern: Seq<char>)
    requires
        names.len() <= usize::MAX,
    ensures
        forall|k: int|
            0 <= k < SubwayView::matching(names, pattern).len() ==> SubwayView::matching(
                names,
                pattern,
            )[k] < names.len(),
    decreases names.len(),
{
    if names.len() > 0 {
        lemma_matching_in_range(names.drop_last(), pattern);
        let rest = SubwayView::matching(names.drop_last(), pattern);
        let all = SubwayView::matching(names, pattern);
        assert forall|k: int| 0 <= k < all.len() implies all[k] < names.len() by {
            if k < rest.len() {
                assert(all[k] == rest[k]);
            }
        }
    }
}

/// A station found by a lookup exists.
pub proof fn lemma_lookup_in_range(g: SubwayView, pattern: Seq<char>)
    requires
        g.size() <= usize::MAX,
    ensures
        g.lookup(pattern) matches Ok(id) ==> id < g.size(),
{
    lemma_matching_in_range(g.stations, pattern);
}

/// Adding a station twice under one name: the second addition changes
/// nothing, and the network holds exactly one station of that name, so both
/// calls return the same id.
pub proof fn lemma_add_station_idempotent(g: SubwayView, name: Seq<char>)
    requires
        g.wf(),
    ensures
        g.with_station(name).with_station(name) == g.with_station(name),
        g.with_station(name).stations.contains(name),
        forall|i: int, j: int|
            0 <= i < g.with_station(name).size() && 0 <= j < g.with_station(name).size()
                && g.with_station(name).stations[i] == name && g.with_station(name).stations[j]
                == name ==> i == j,
{
    let g1 = g.with_station(name);
    if !g.stations.contains(name) {
        assert(g1.stations[g.stations.len() as int] == name);
    }
    assert(g1.stations.contains(name));
    assert forall|i: int, j: int|
        0 <= i < g1.size() && 0 <= j < g1.size() && g1.stations[i] == name && g1.stations[j]
            == name implies i == j by {
        if i != j && !g.stations.contains(name) {
            if i < g.size() {
                assert(g.stations[i] == name);
            } else {
                assert(g.stations[j] == name);
            }
        }
    }
}

/// Adding a connection from `f` to `t` twice, whatever the line and branch
/// of each: the second addition changes nothing, and `f` has exactly one
/// connection to `t`.
pub proof fn lemma_add_connection_once(
    g: SubwayView,
    f: int,
    t: int,
    l1: Seq<char>,
    b1: Seq<char>,
    l2: Seq<char>,
    b2: Seq<char>,
)
    requires
        g.wf(),
        0 <= f < g.size(),
        0 <= t < g.size(),
    ensures
        g.with_connection(f, t, l1, b1).with_connection(f, t, l2, b2) == g.with_connection(
            f,
            t,
            l1,
            b1,
        ),
        g.with_connection(f, t, l1, b1).linked(f, t),
        forall|j: int, k: int|
            0 <= j < g.with_connection(f, t, l1, b1).out(f).len() && 0 <= k < g.with_connection(
                f,
                t,
                l1,
                b1,
            ).out(f).len() && g.with_connection(f, t, l1, b1).out(f)[j].to == t
                && g.with_connection(f, t, l1, b1).out(f)[k].to == t ==> j == k,
{
    let g1 = g.with_connection(f, t, l1, b1);
    lemma_with_connection_wf(g, f, t, l1, b1);
    if !g.linked(f, t) {
        let cs = g.padded(f + 1);
        assert(cs.len() >= f + 1);
        let n = g1.out(f).len();
        assert(g1.out(f) == cs[f].push(g1.out(f).last()));
        assert(g1.out(f)[n - 1].to == t);
    }
    assert(g1.linked(f, t));
}

/// `with_connection` keeps a network well-formed.
pub proof fn lemma_with_connection_wf(g: SubwayView, f: int, t: int, l: Seq<char>, b: Seq<char>)
    requires
        g.wf(),
        0 <= f < g.size(),
        0 <= t < g.size(),
    ensures
        g.with_connection(f, t, l, b).wf(),
{
    let g1 = g.with_connection(f, t, l, b);
    if !g.linked(f, t) {
        let cs = g.padded(f + 1);
        assert(cs.len() >= f + 1);
        assert forall|s: int| 0 <= s < cs.len() implies cs[s] == g.out(s) by {
            if s >= g.connections.len() {
                assert(cs[s] =~= Seq::<ConnectionView>::empty());
            }
        }
        assert forall|s: int, j: int, k: int|
            0 <= s < g1.connections.len() && 0 <= j < k < g1.connections[s].len() implies
            g1.connections[s][j].to != g1.connections[s][k].to by {
            assert(cs[s] == g.out(s));
            if s == f {
                assert(g1.connections[s] == g.out(f).push(g1.connections[s].last()));
                if k == g1.connections[s].len() - 1 {
                    assert(g.out(f)[j].to != t);
                }
            }
        }
        assert forall|s: int, j: int|
            0 <= s < g1.connections.len() && 0 <= j < g1.connections[s].len() implies
            g1.connections[s][j].to < g1.stations.len() by {
            assert(cs[s] == g.out(s));
        }
    }
}

/// Disabling station `x` leaves every connection out of `x` and every
/// connection into `x` inactive; enabling it afterwards makes all of them
/// active again.
pub proof fn lemma_disable_enable(g: SubwayView, x: int)
    ensures
        forall|s: int, j: int|
            0 <= s < g.with_station_state(x, false).connections.len() && 0 <= j
                < g.with_station_state(x, false).connections[s].len() && (s == x
                || g.with_station_state(x, false).connections[s][j].to == x)
                ==> !g.with_station_state(x, false).connections[s][j].active,
        forall|s: int, j: int|
            0 <= s < g.with_station_state(x, false).with_station_state(x, true).connections.len()
                && 0 <= j < g.with_station_state(x, false).with_station_state(
                x,
                true,
            ).connections[s].len() && (s == x || g.with_station_state(x, false).with_station_state(
                x,
                true,
            ).connections[s][j].to == x) ==> g.with_station_state(x, false).with_station_state(
                x,
                true,
            ).connections[s][j].active,
{
}

impl Subway {
    pub open spec fn wf(&self) -> bool {
        self@.wf()
    }

    /// Creates a new `Subway`, without stations.
    pub fn new() -> (r: Subway)
        ensures
            r@.stations == Seq::<Seq<char>>::empty(),
            r@.connections == Seq::<Seq<ConnectionView>>::empty(),
            r.wf(),
    {
        let r = Subway { stations: Vec::new(), connections: Vec::new() };
        assert(r@.stations =~= Seq::<Seq<char>>::empty());
        assert(r@.connections =~= Seq::<Seq<ConnectionView>>::empty());
        r
    }

    /// The id of the station called `station`, found by comparing names.
    pub fn get_station_id(&self, station: &str) -> (r: Option<StationId>)
        ensures
            r is Some <==> self@.stations.contains(station@),
            r matches Some(id) ==> id < self@.size() && self@.stations[id as int] == station@,
    {
        let mut i: usize = 0;
        while i < self.stations.len()
            invariant
                i <= self.stations.len(),
                forall|k: int| 0 <= k < i ==> self@.stations[k] != station@,
            decreases self.stations.len() - i,
        {
            if str_eq(self.stations[i].as_str(), station) {
                assert(self@.stations[i as int] == station@);
                return Some(i);
            }
            i = i + 1;
        }
        None
    }

    /// Adds the station called `station` and returns its id. A station of
    /// that name that is already there keeps its id, and nothing is added.
    pub fn add_station(&mut self, station: &str) -> (r: StationId)
        requires
            old(self).wf(),
        ensures
            final(self).wf(),
            final(self)@ == old(self)@.with_station(station@),
            r < final(self)@.size(),
            final(self)@.stations[r as int] == station@,
    {
        match self.get_station_id(station) {
            Some(id) => id,
            None => {
                let id = self.stations.len();
                let name = station.to_string();
                self.stations.push(name);
                assert(self@.stations =~= old(self)@.stations.push(station@));
                id
            },
        }
    }

    /// Adds a connection from station `f` to station `t` on the line `l` and
    /// branch `b`, with cost 1, active. Where `f` already has a connection to
    /// `t`, nothing changes: the first one stays. Returns `f` and the position
    /// of the connection to `t` in the list of `f`.
    pub fn add_connection(&mut self, f: StationId, t: StationId, l: &str, b: &str) -> (r: (
        StationId,
        usize,
    ))
        requires
            old(self).wf(),
            f < old(self)@.size(),
            t < old(self)@.size(),
        ensures
            final(self).wf(),
            final(self)@ == old(self)@.with_connection(f as int, t as int, l@, b@),
            r.0 == f,
            r.1 < final(self)@.out(f as int).len(),
            final(self)@.out(f as int)[r.1 as int].to == t,
    {
        if f < self.connections.len() {
            let n = self.connections[f].len();
            let mut j: usize = 0;
            while j < n
                invariant
                    self.wf(),
                    f < self.connections.len(),
                    n == self.connections[f as int].len(),
                    j <= n,
                    forall|k: int| 0 <= k < j ==> self@.connections[f as int][k].to != t,
                decreases n - j,
            {
                if self.connections[f][j].to == t {
                    assert(self@.connections[f as int][j as int].to == t);
                    return (f, j);
                }
                j = j + 1;
            }
        }
        assert(!self@.linked(f as int, t as int));
        let ghost g0 = self@;
        while self.connections.len() <= f
            invariant
                self@.stations == g0.stations,
                g0.connections.len() <= self.connections.len(),
                self.connections.len() <= f + 1 || self.connections.len() == g0.connections.len(),
                self@.connections =~= g0.padded(self.connections.len() as int),
            decreases f + 1 - self.connections.len(),
        {
            let ghost before = self@.connections;
            let empty: Vec<Connection> = Vec::new();
            assert(connections_view(empty@) =~= Seq::<ConnectionView>::empty());
            self.connections.push(empty);
            assert(self@.connections =~= before.push(Seq::<ConnectionView>::empty()));
            assert(g0.padded(self.connections.len() as int) =~= before.push(
                Seq::<ConnectionView>::empty(),
            ));
        }
        assert(self@.connections =~= g0.padded(f + 1));
        let info = StationInfo { line: l.to_string(), branch: b.to_string() };
        let c = Connection { to: t, cost: 1, active: true, info };
        let mut list: Vec<Connection> = Vec::new();
        self.connections.set_and_swap(f, &mut list);
        list.push(c);
        let idx = list.len() - 1;
        self.connections.set_and_swap(f, &mut list);
        proof {
            let target = old(self)@.with_connection(f as int, t as int, l@, b@);
            assert(self@.connections[f as int] =~= target.connections[f as int]);
            assert(self@.connections =~= target.connections);
        }
        (f, idx)
    }

    /// Finds the station whose name the regular expression `stn` matches.
    /// No match (or a pattern that does not compile) is an error naming the
    /// pattern; two or more matches are an error listing every matching name.
    pub fn find_station(&self, stn: &str) -> (r: Result<StationId, String>)
        ensures
            text_result(r) == self@.lookup(stn@),
    {
        match StationPattern::new(stn) {
            None => {
                let mut msg = String::new();
                append_str(&mut msg, "No such station: ");
                append_str(&mut msg, stn);
                Err(msg)
            },
            Some(pattern) => {
                let mut found: Vec<StationId> = Vec::new();
                let n = self.stations.len();
                let mut i: usize = 0;
                while i < n
                    invariant
                        n == self.stations.len(),
                        i <= n,
                        pattern.source() == stn@,
                        found@ == SubwayView::matching(self@.stations.take(i as int), stn@),
                        forall|k: int| 0 <= k < found.len() ==> found[k] < n,
                    decreases n - i,
                {
                    assert(self@.stations.take(i + 1).drop_last() =~= self@.stations.take(i as int));
                    if pattern.is_match(self.stations[i].as_str()) {
                        found.push(i);
                    }
                    i = i + 1;
                }
                assert(self@.stations.take(n as int) =~= self@.stations);
                self.pick_station(stn, &found)
            },
        }
    }

    /// The outcome of a lookup of `stn` whose matching stations are `found`.
    pub fn pick_station(&self, stn: &str, found: &Vec<StationId>) -> (r: Result<StationId, String>)
        requires
            forall|k: int| 0 <= k < found.len() ==> found[k] < self@.size(),
        ensures
            text_result(r) == self@.select(stn@, found@),
    {
        if found.len() == 0 {
            let mut msg = String::new();
            append_str(&mut msg, "No such station: ");
            append_str(&mut msg, stn);
            Err(msg)
        } else if found.len() == 1 {
            Ok(found[0])
        } else {
            let mut msg = String::new();
            append_str(&mut msg, "disambiguate your destination:");
            let mut k: usize = 0;
            while k < found.len()
                invariant
                    k <= found.len(),
                    forall|j: int| 0 <= j < found.len() ==> found[j] < self@.size(),
                    msg@ == "disambiguate your destination:"@ + self@.names_list(
                        found@.take(k as int),
                    ),
                decreases found.len() - k,
            {
                assert(found@.take(k + 1).drop_last() =~= found@.take(k as int));
                append_str(&mut msg, " ");
                append_str(&mut msg, self.stations[found[k]].as_str());
                k = k + 1;
            }
            assert(found@.take(found.len() as int) =~= found@);
            Err(msg)
        }
    }

    /// Possibly retrieves the list of connections out of station `from`.
    pub fn get_connections(&self, from: StationId) -> (r: Option<&Vec<Connection>>)
        ensures
            r is Some <==> from < self@.connections.len(),
            r matches Some(cs) ==> connections_view(cs@) == self@.connections[from as int],
    {
        if from < self.connections.len() {
            Some(&self.connections[from])
        } else {
            None
        }
    }

    /// Possibly retrieves the connection from station `from` to station `to`.
    pub fn get_connection(&self, from: StationId, to: StationId) -> (r: Option<&Connection>)
        ensures
            r is Some <==> self@.linked(from as int, to as int),
            r matches Some(c) ==> c@.to == to && exists|j: int|
                0 <= j < self@.out(from as int).len() && self@.out(from as int)[j] == c@,
    {
        if from < self.connections.len() {
            let n = self.connections[from].len();
            let mut j: usize = 0;
            while j < n
                invariant
                    from < self.connections.len(),
                    n == self.connections[from as int].len(),
                    j <= n,
                    forall|k: int| 0 <= k < j ==> self@.connections[from as int][k].to != to,
                decreases n - j,
            {
                if self.connections[from][j].to == to {
                    assert(self@.out(from as int)[j as int] == self.connections[from as int][j as int]@);
                    return Some(&self.connections[from][j]);
                }
                j = j + 1;
            }
        }
        None
    }

    /// Sets every connection out of station `stn_id`, and every connection
    /// into it, to the state `active`.
    fn set_station_state(&mut self, stn_id: StationId, active: bool)
        requires
            old(self).wf(),
        ensures
            final(self).wf(),
            final(self)@ == old(self)@.with_station_state(stn_id as int, active),
    {
        let ghost target = old(self)@.with_station_state(stn_id as int, active);
        let ns = self.connections.len();
        let mut s: usize = 0;
        while s < ns
            invariant
                ns == self.connections.len(),
                ns == old(self)@.connections.len(),
                s <= ns,
                self@.stations == old(self)@.stations,
                target == old(self)@.with_station_state(stn_id as int, active),
                forall|k: int| 0 <= k < s ==> self@.connections[k] == target.connections[k],
                forall|k: int| s <= k < ns ==> self@.connections[k] == old(self)@.connections[k],
            decreases ns - s,
        {
            let mut list: Vec<Connection> = Vec::new();
            self.connections.set_and_swap(s, &mut list);
            let n = list.len();
            let mut j: usize = 0;
            while j < n
                invariant
                    n == list.len(),
                    n == old(self)@.connections[s as int].len(),
                    j <= n,
                    s < ns,
                    ns == old(self)@.connections.len(),
                    target == old(self)@.with_station_state(stn_id as int, active),
                    forall|k: int| 0 <= k < j ==> list[k]@ == target.connections[s as int][k],
                    forall|k: int| j <= k < n ==> list[k]@ == old(self)@.connections[s as int][k],
                decreases n - j,
            {
                if s == stn_id || list[j].to == stn_id {
                    let mut c = Connection {
                        to: 0,
                        cost: 0,
                        active: false,
                        info: StationInfo { line: String::new(), branch: String::new() },
                    };
                    list.set_and_swap(j, &mut c);
                    c.active = active;
                    list.set_and_swap(j, &mut c);
                }
                j = j + 1;
            }
            self.connections.set_and_swap(s, &mut list);
            assert(self@.connections[s as int] =~= target.connections[s as int]);
            s = s + 1;
        }
        assert(self@.connections =~= target.connections);
    }

    /// Disables the station with the given id: every connection out of it
    /// and every connection into it becomes inactive.
    pub fn disable_station(&mut self, stn_id: StationId)
        requires
            old(self).wf(),
        ensures
            final(self).wf(),
            final(self)@ == old(self)@.with_station_state(stn_id as int, false),
    {
        self.set_station_state(stn_id, false);
    }

    /// Enables the station with the given id: every connection out of it
    /// and every connection into it becomes active.
    pub fn enable_station(&mut self, stn_id: StationId)
        requires
            old(self).wf(),
        ensures
            final(self).wf(),
            final(self)@ == old(self)@.with_station_state(stn_id as int, true),
    {
        self.set_station_state(stn_id, true);
    }

    /// Possibly retrieves the name of the station with the given id.
    pub fn get_station(&self, stn_id: StationId) -> (r: Option<&Station>)
        ensures
            r is Some <==> stn_id < self@.size(),
            r matches Some(s) ==> s@ == self@.stations[stn_id as int],
    {
        if stn_id < self.stations.len() {
            Some(&self.stations[stn_id])
        } else {
            None
        }
    }

    /// The stations and their ids, one per line under a heading.
    pub fn stations_listing(&self) -> (r: String)
        ensures
            r@ == "StationID\tStation\n"@ + listing_rows(self@.stations),
    {
        let mut out = String::new();
        append_str(&mut out, "StationID\tStation\n");
        let mut i: usize = 0;
        while i < self.stations.len()
            invariant
                i <= self.stations.len(),
                out@ == "StationID\tStation\n"@ + listing_rows(self@.stations.take(i as int)),
            decreases self.stations.len() - i,
        {
            assert(self@.stations.take(i + 1).drop_last() =~= self@.stations.take(i as int));
            push_decimal(&mut out, i as u64);
            append_str(&mut out, "\t");
            append_str(&mut out, self.stations[i].as_str());
            append_str(&mut out, "\n");
            i = i + 1;
        }
        assert(self@.stations.take(self.stations.len() as int) =~= self@.stations);
        out
    }

    /// Returns the number of stations in the graph.
    pub fn size(&self) -> (r: usize)
        ensures
            r == self@.size(),
    {
        self.stations.len()
    }
}

} // verus!
