//! The serial worker's handling of requests, and the static-file responder.
use vstd::prelude::*;

use crate::subway::query::Query;
use crate::subway::route::{is_route_answer, route_between};
use crate::subway::Subway;
use crate::text::append_str;

pub mod http;

verus! {

/// Handles one request taken from the queue: a route is searched for and
/// rendered (the network stays as it is), a station is enabled or disabled
/// and the answer is `done`, and an error from interpreting the request is
/// passed back as it is.
pub fn handle_query(subway: &mut Subway, query: &Result<Query, String>) -> (r: String)
    requires
        old(subway).wf(),
        query matches Ok(Query::Route(f, t)) ==> f < old(subway)@.size() && t < old(
            subway,
        )@.size(),
    ensures
        final(subway).wf(),
        match query {
            Err(e) => r@ == e@ && final(subway)@ == old(subway)@,
            Ok(Query::Route(f, t)) => final(subway)@ == old(subway)@ && (is_route_answer(
                old(subway)@,
                *f as int,
                *t as int,
                Ok(r@),
            ) || is_route_answer(old(subway)@, *f as int, *t as int, Err(r@))),
            Ok(Query::Enable(x)) => final(subway)@ == old(subway)@.with_station_state(*x as int, true)
                && r@ == "done"@,
            Ok(Query::Disable(x)) => final(subway)@ == old(subway)@.with_station_state(
                *x as int,
                false,
            ) && r@ == "done"@,
        },
{
    match query {
        Err(e) => e.clone(),
        Ok(Query::Route(from, to)) => match route_between(subway, *from, *to) {
            Ok(p) => p,
            Err(e) => e,
        },
        Ok(Query::Enable(stn)) => {
            subway.enable_station(*stn);
            let mut done = String::new();
            append_str(&mut done, "done");
            done
        },
        Ok(Query::Disable(stn)) => {
            subway.disable_station(*stn);
            let mut done = String::new();
            append_str(&mut done, "done");
            done
        },
    }
}

} // verus!
