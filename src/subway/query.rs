//! The query interpreter: one line of text to a request on the graph.
use vstd::prelude::*;

use crate::subway::{StationId, Subway, SubwayView};
use crate::text::{append_str, chars_of, has_prefix, starts_with, text_result};

verus! {

/// A request to the graph, with the stations resolved to ids.
#[derive(Clone, Copy, Debug, PartialEq, Eq, Structural)]
pub enum Query {
    Route(StationId, StationId),
    Enable(StationId),
    Disable(StationId),
}

/// A request as written, with the station names still as text.
pub enum Request<'a> {
    Route(&'a str, &'a str),
    Disable(&'a str),
    Enable(&'a str),
}

/// Mathematical model of `Request`.
pub enum RequestText {
    Route(Seq<char>, Seq<char>),
    Disable(Seq<char>),
    Enable(Seq<char>),
}

pub open spec fn request_view(r: Option<Request<'_>>) -> Option<RequestText> {
    match r {
        None => None,
        Some(Request::Route(a, b)) => Some(RequestText::Route(a@, b@)),
        Some(Request::Disable(s)) => Some(RequestText::Disable(s@)),
        Some(Request::Enable(s)) => Some(RequestText::Enable(s@)),
    }
}

/// `s` holds no line break.
pub open spec fn one_line(s: Seq<char>) -> bool {
    forall|i: int| 0 <= i < s.len() ==> s[i] != '\n'
}

/// In `r`, the words " to " stand at `k`, with text before and after them.
pub open spec fn separator_at(r: Seq<char>, k: int) -> bool {
    1 <= k && k + " to "@.len() < r.len() && r.subrange(k, k + " to "@.len()) == " to "@
}

/// The last position at most `k` where `separator_at` holds; -1 if none.
pub open spec fn last_separator(r: Seq<char>, k: int) -> int
    decreases k,
{
    if k < 1 {
        -1
    } else if separator_at(r, k) {
        k
    } else {
        last_separator(r, k - 1)
    }
}

/// The request that `line` writes, by the patterns `^from (.+) to (.+)$`,
/// `^disable (.+)$` and `^enable (.+)$`, tried in that order, where `.`
/// is any character but a line break. In the first, the origin takes as
/// much text as it can.
pub open spec fn parse_request_text(line: Seq<char>) -> Option<RequestText> {
    let r = line.skip("from "@.len() as int);
    let k = last_separator(r, r.len() - 1);
    let d = line.skip("disable "@.len() as int);
    let e = line.skip("enable "@.len() as int);
    if starts_with(line, "from "@) && one_line(r) && k >= 1 {
        Some(RequestText::Route(r.take(k), r.skip(k + " to "@.len())))
    } else if starts_with(line, "disable "@) && d.len() > 0 && one_line(d) {
        Some(RequestText::Disable(d))
    } else if starts_with(line, "enable "@) && e.len() > 0 && one_line(e) {
        Some(RequestText::Enable(e))
    } else {
        None
    }
}

/// The error for a line that is no request.
pub open spec fn unparseable_message(line: Seq<char>) -> Seq<char> {
    "unable to parse query: "@ + line
}

/// The outcome of `Query::new(g, line)`: the request, with each station
/// name resolved by `find_station` (the origin first); the first name that
/// does not resolve gives the error.
pub open spec fn interpret(g: SubwayView, line: Seq<char>) -> Result<Query, Seq<char>> {
    match parse_request_text(line) {
        None => Err(unparseable_message(line)),
        Some(RequestText::Route(a, b)) => match g.lookup(a) {
            Err(m) => Err(m),
            Ok(f) => match g.lookup(b) {
                Err(m) => Err(m),
                Ok(t) => Ok(Query::Route(f, t)),
            },
        },
        Some(RequestText::Disable(s)) => match g.lookup(s) {
            Err(m) => Err(m),
            Ok(id) => Ok(Query::Disable(id)),
        },
        Some(RequestText::Enable(s)) => match g.lookup(s) {
            Err(m) => Err(m),
            Ok(id) => Ok(Query::Enable(id)),
        },
    }
}

/// Whether `s` from position `from` on holds no line break.
fn one_line_from(s: &Vec<char>, from: usize) -> (r: bool)
    requires
        from <= s.len(),
    ensures
        r == one_line(s@.skip(from as int)),
{
    let mut i: usize = from;
    while i < s.len()
        invariant
            from <= i <= s.len(),
            forall|k: int| from <= k < i ==> s@[k] != '\n',
        decreases s.len() - i,
    {
        if s[i] == '\n' {
            assert(s@.skip(from as int)[i - from] == '\n');
            return false;
        }
        i = i + 1;
    }
    true
}

/// Whether `sep` stands in `s` at `at`.
fn stands_at(s: &Vec<char>, at: usize, sep: &Vec<char>) -> (r: bool)
    requires
        at + sep.len() <= s.len(),
    ensures
        r == (s@.subrange(at as int, at + sep.len()) == sep@),
{
    let mut i: usize = 0;
    while i < sep.len()
        invariant
            at + sep.len() <= s.len(),
            i <= sep.len(),
            forall|k: int| 0 <= k < i ==> s@[at + k] == sep@[k],
        decreases sep.len() - i,
    {
        if s[at + i] != sep[i] {
            assert(s@.subrange(at as int, at + sep.len())[i as int] != sep@[i as int]);
            return false;
        }
        i = i + 1;
    }
    assert(s@.subrange(at as int, at + sep.len()) =~= sep@);
    true
}

/// The request that `line` writes, if any.
pub fn parse_request(line: &str) -> (r: Option<Request<'_>>)
    ensures
        request_view(r) == parse_request_text(line@),
{
    let chars = chars_of(line);
    let n = chars.len();
    let from_kw = chars_of("from ");
    let sep = chars_of(" to ");
    let disable_kw = chars_of("disable ");
    let enable_kw = chars_of("enable ");
    let ghost rest = line@.skip("from "@.len() as int);
    proof {
        reveal_strlit(" to ");
        reveal_strlit("from ");
    }
    if has_prefix(&chars, &from_kw) && one_line_from(&chars, from_kw.len()) {
        let off = from_kw.len();
        let rlen = n - off;
        assert(rest.len() == rlen);
        // try separator positions from the last possible one down
        if rlen > sep.len() + 1 {
            let mut k: usize = rlen - sep.len() - 1;
            proof {
                lemma_separator_tail(rest, rest.len() - 1, k as int);
            }
            while k >= 1
                invariant
                    off + rlen == n,
                    n == chars.len(),
                    chars@ == line@,
                    rest == line@.skip(off as int),
                    sep@ == " to "@,
                    sep.len() == 4,
                    off == "from "@.len(),
                    starts_with(line@, "from "@),
                    one_line(rest),
                    rlen > sep.len() + 1,
                    k <= rlen - sep.len() - 1,
                    last_separator(rest, rest.len() - 1) == last_separator(rest, k as int),
                decreases k,
            {
                assert(rest.subrange(k as int, k + sep.len()) =~= chars@.subrange(
                    off + k,
                    off + k + sep.len(),
                ));
                if stands_at(&chars, off + k, &sep) {
                    assert(separator_at(rest, k as int));
                    let a = line.substring_char(off, off + k);
                    let b = line.substring_char(off + k + sep.len(), n);
                    assert(a@ =~= rest.take(k as int));
                    assert(b@ =~= rest.skip(k + " to "@.len()));
                    return Some(Request::Route(a, b));
                }
                k = k - 1;
            }
        } else {
            assert forall|j: int| j <= rest.len() - 1 implies last_separator(rest, j) == -1 by {
                lemma_no_separator(rest, j);
            }
        }
    }
    if has_prefix(&chars, &disable_kw) && n > disable_kw.len() && one_line_from(&chars, disable_kw.len()) {
        let s = line.substring_char(disable_kw.len(), n);
        assert(s@ =~= line@.skip("disable "@.len() as int));
        return Some(Request::Disable(s));
    }
    if has_prefix(&chars, &enable_kw) && n > enable_kw.len() && one_line_from(&chars, enable_kw.len()) {
        let s = line.substring_char(enable_kw.len(), n);
        assert(s@ =~= line@.skip("enable "@.len() as int));
        return Some(Request::Enable(s));
    }
    None
}

/// Positions after `lo` leave no room for a separator with text after it.
proof fn lemma_separator_tail(r: Seq<char>, k: int, lo: int)
    requires
        lo <= k,
        lo + " to "@.len() + 1 >= r.len(),
    ensures
        last_separator(r, k) == last_separator(r, lo),
    decreases k - lo,
{
    if k > lo {
        lemma_separator_tail(r, k - 1, lo);
    }
}

/// No separator fits in a text too short for one.
proof fn lemma_no_separator(r: Seq<char>, j: int)
    requires
        r.len() <= " to "@.len() + 1,
    ensures
        last_separator(r, j) == -1,
    decreases j,
{
    if j >= 1 {
        lemma_no_separator(r, j - 1);
    }
}

impl Query {
    /// Interprets the request `line`, resolving its station names on `subway`.
    pub fn new(subway: &Subway, line: &str) -> (r: Result<Query, String>)
        ensures
            text_result(r) == interpret(subway@, line@),
    {
        match parse_request(line) {
            None => {
                let mut msg = String::new();
                append_str(&mut msg, "unable to parse query: ");
                append_str(&mut msg, line);
                Err(msg)
            },
            Some(Request::Route(from, to)) => match subway.find_station(from) {
                Ok(from_id) => match subway.find_station(to) {
                    Ok(to_id) => Ok(Query::Route(from_id, to_id)),
                    Err(e) => Err(e),
                },
                Err(e) => Err(e),
            },
            Some(Request::Disable(stn)) => match subway.find_station(stn) {
                Ok(sid) => Ok(Query::Disable(sid)),
                Err(e) => Err(e),
            },
            Some(Request::Enable(stn)) => match subway.find_station(stn) {
                Ok(sid) => Ok(Query::Enable(sid)),
                Err(e) => Err(e),
            },
        }
    }

    /// Whether this is a request for a route.
    pub fn is_route(&self) -> (r: bool)
        ensures
            r == (self is Route),
    {
        match *self {
            Query::Route(_, _) => true,
            _ => false,
        }
    }

    /// Whether this is a request to disable a station.
    pub fn is_disable(&self) -> (r: bool)
        ensures
            r == (self is Disable),
    {
        match *self {
            Query::Disable(_) => true,
            _ => false,
        }
    }

    /// Whether this is a request to enable a station.
    pub fn is_enable(&self) -> (r: bool)
        ensures
            r == (self is Enable),
    {
        match *self {
            Query::Enable(_) => true,
            _ => false,
        }
    }
}

} // verus!
