use t_query::server::handle_query;
use t_query::subway::query::{parse_request, Request};
use t_query::subway::route::{find_path, route_between};
use t_query::subway::{StationId, Subway};
use t_query::{find_route, load_subway_data, Disable, Enable, Query, Route};

fn link(subway: &mut Subway, a: StationId, b: StationId, line: &str, branch: &str) {
    subway.add_connection(a, b, line, branch);
    subway.add_connection(b, a, line, branch);
}

fn ids(path: &[(StationId, t_query::subway::StationInfo)]) -> Vec<StationId> {
    path.iter().map(|(id, _)| *id).collect()
}

#[test]
fn test_new() {
    let mut subway = Subway::new();
    let _a_id = subway.add_station("A");
    let _b_id = subway.add_station("B");
    let _c_id = subway.add_station("C");

    let route_str = "from A to B";
    let maybe_route = Query::new(&subway, route_str);
    assert!(maybe_route.is_ok());
    let route = maybe_route.unwrap();
    assert!(route.is_route());

    let no_route = Query::new(&subway, "from A to D");
    assert!(no_route.is_err());
    let no_route_msg = no_route.err().unwrap();
    assert_eq!(no_route_msg.as_str(), "No such station: D");

    let dis_a = Query::new(&subway, "disable A");
    assert!(dis_a.is_ok());
    let disable_a = dis_a.unwrap();
    assert!(disable_a.is_disable());

    let en_a = Query::new(&subway, "enable A");
    assert!(en_a.is_ok());
    let enable_a = en_a.unwrap();
    assert!(enable_a.is_enable());
}

#[test]
fn test_find_path() {
    let mut subway = Subway::new();
    let a_id = subway.add_station("A");
    let b_id = subway.add_station("B");
    let c_id = subway.add_station("C");
    let d_id = subway.add_station("D");

    subway.add_connection(a_id, b_id, "", "");
    subway.add_connection(a_id, d_id, "", "");

    subway.add_connection(b_id, a_id, "", "");
    subway.add_connection(b_id, d_id, "", "");

    subway.add_connection(d_id, c_id, "", "");

    let maybe_route = find_path(&subway, a_id, d_id);
    assert!(maybe_route.is_some());
    let route = maybe_route.unwrap();

    let route: Vec<StationId> = route.iter().map(|&(id, _)| id).collect();
    assert_eq!(route, vec![0, 3]);
}

#[test]
fn shortest_path_takes_the_direct_edge() {
    let mut subway = Subway::new();
    let a = subway.add_station("A");
    let b = subway.add_station("B");
    let c = subway.add_station("C");
    let d = subway.add_station("D");
    link(&mut subway, a, b, "L", "L");
    link(&mut subway, a, d, "L", "L");
    link(&mut subway, b, d, "L", "L");
    link(&mut subway, d, c, "L", "L");
    let path = find_path(&subway, a, d).unwrap();
    assert_eq!(ids(&path), vec![a, d]);
}

#[test]
fn line_change_costs_more_than_two_hops() {
    let mut subway = Subway::new();
    let a = subway.add_station("A");
    let b = subway.add_station("B");
    let c = subway.add_station("C");
    let p = subway.add_station("P");
    let q = subway.add_station("Q");
    link(&mut subway, a, b, "X", "X");
    link(&mut subway, b, c, "Y", "Y");
    link(&mut subway, a, p, "X", "X");
    link(&mut subway, p, q, "X", "X");
    link(&mut subway, q, c, "X", "X");
    let path = find_path(&subway, a, c).unwrap();
    assert_eq!(ids(&path), vec![a, p, q, c]);
}

#[test]
fn disabled_only_path_still_routes() {
    let mut subway = Subway::new();
    let a = subway.add_station("A");
    let m = subway.add_station("M");
    let z = subway.add_station("Z");
    link(&mut subway, a, m, "X", "X");
    link(&mut subway, m, z, "X", "X");
    subway.disable_station(a);
    subway.disable_station(m);
    subway.disable_station(z);
    let path = find_path(&subway, a, z).unwrap();
    assert_eq!(ids(&path), vec![a, m, z]);
}

#[test]
fn disabled_station_is_avoided_when_possible() {
    let mut subway = Subway::new();
    let a = subway.add_station("A");
    let m = subway.add_station("M");
    let z = subway.add_station("Z");
    let n = subway.add_station("N");
    link(&mut subway, a, m, "X", "X");
    link(&mut subway, m, z, "X", "X");
    link(&mut subway, a, n, "X", "X");
    link(&mut subway, n, z, "X", "X");
    subway.disable_station(m);
    let path = find_path(&subway, a, z).unwrap();
    assert_eq!(ids(&path), vec![a, n, z]);
}

#[test]
fn unreachable_or_degenerate_trips_have_no_path() {
    let mut subway = Subway::new();
    let a = subway.add_station("A");
    let b = subway.add_station("B");
    let c = subway.add_station("C");
    link(&mut subway, a, b, "X", "X");
    assert!(find_path(&subway, a, c).is_none());
    assert!(find_path(&subway, c, a).is_none());
    assert!(find_path(&subway, a, a).is_none());
    assert!(find_path(&subway, a, 9).is_none());
    assert_eq!(route_between(&subway, a, c).unwrap_err(), "No path from A to C");
}

#[test]
fn path_tags_each_station_with_its_leg() {
    let mut subway = Subway::new();
    let a = subway.add_station("A");
    let b = subway.add_station("B");
    let c = subway.add_station("C");
    link(&mut subway, a, b, "X", "X");
    link(&mut subway, b, c, "Y", "Y");
    let path = find_path(&subway, a, c).unwrap();
    assert_eq!(ids(&path), vec![a, b, c]);
    assert_eq!(path[0].1.line.as_str(), "X");
    assert_eq!(path[1].1.line.as_str(), "Y");
    assert_eq!(path[2].1.line.as_str(), "Y");
}

#[test]
fn round_trip_on_one_line() {
    let mut subway = Subway::new();
    let lines: Vec<String> = vec!["X", "A", "B", "C", "D"].into_iter().map(String::from).collect();
    assert_eq!(load_subway_data(&mut subway, &lines, "X"), Ok(()));
    let text = find_route(&subway, "A", "D").unwrap();
    assert_eq!(text, "A, take X\nB\nC\nD\n");
    assert_eq!(text.matches("take X").count(), 1);
    assert!(!text.contains("switch"));
    assert!(!text.contains("ensure"));
}

#[test]
fn itinerary_notes_line_and_branch_changes() {
    let mut subway = Subway::new();
    let a = subway.add_station("A");
    let b = subway.add_station("B");
    let c = subway.add_station("C");
    let d = subway.add_station("D");
    link(&mut subway, a, b, "Green", "Green");
    link(&mut subway, b, c, "Green", "E");
    link(&mut subway, c, d, "Red", "Red");
    let text = find_route(&subway, "^A$", "^D$").unwrap();
    assert_eq!(
        text,
        "A, take Green\n---ensure you are on E\nB, take E\n---switch from Green to Red\nC, take Red\nD\n"
    );
}

#[test]
fn ambiguous_origin_fails_the_query() {
    let mut subway = Subway::new();
    subway.add_station("A1");
    subway.add_station("A2");
    let q = Query::new(&subway, "from A to A1");
    assert_eq!(q.unwrap_err(), "disambiguate your destination: A1 A2");
    assert_eq!(subway.find_station("A1"), Ok(0));
    assert_eq!(Query::new(&subway, "from A1 to A2"), Ok(Route(0, 1)));
    assert_eq!(Query::new(&subway, "from A1 to A").unwrap_err(), "disambiguate your destination: A1 A2");
}

#[test]
fn query_grammar() {
    let mut subway = Subway::new();
    subway.add_station("Park");
    subway.add_station("Harvard");
    assert_eq!(Query::new(&subway, "disable Park"), Ok(Disable(0)));
    assert_eq!(Query::new(&subway, "enable Harvard"), Ok(Enable(1)));
    assert_eq!(Query::new(&subway, "hello").unwrap_err(), "unable to parse query: hello");
    assert_eq!(Query::new(&subway, "enable ").unwrap_err(), "unable to parse query: enable ");
    assert_eq!(Query::new(&subway, "from Park to ").unwrap_err(), "unable to parse query: from Park to ");
    assert_eq!(Query::new(&subway, "From Park to Harvard").unwrap_err(), "unable to parse query: From Park to Harvard");
    assert_eq!(Query::new(&subway, "disable Park\nX").unwrap_err(), "unable to parse query: disable Park\nX");
}

#[test]
fn route_request_splits_at_last_to() {
    match parse_request("from A to B to C") {
        Some(Request::Route(a, b)) => {
            assert_eq!(a, "A to B");
            assert_eq!(b, "C");
        }
        _ => panic!("not a route"),
    }
    match parse_request("from  to  to x") {
        Some(Request::Route(a, b)) => {
            assert_eq!(a, " to ");
            assert_eq!(b, "x");
        }
        _ => panic!("not a route"),
    }
    assert!(parse_request("from to x").is_none());
    match parse_request("disable St. Paul Street") {
        Some(Request::Disable(s)) => assert_eq!(s, "St. Paul Street"),
        _ => panic!("not a disable"),
    }
}

#[test]
fn worker_answers_each_kind_of_request() {
    let mut subway = Subway::new();
    let a = subway.add_station("A");
    let b = subway.add_station("B");
    link(&mut subway, a, b, "X", "X");
    assert_eq!(handle_query(&mut subway, &Ok(Route(a, b))), "A, take X\nB\n");
    assert_eq!(handle_query(&mut subway, &Ok(Disable(a))), "done");
    assert!(!subway.get_connection(b, a).unwrap().active);
    assert_eq!(handle_query(&mut subway, &Ok(Enable(a))), "done");
    assert!(subway.get_connection(b, a).unwrap().active);
    assert_eq!(handle_query(&mut subway, &Err("bad".to_string())), "bad");
    let c = subway.add_station("C");
    assert_eq!(handle_query(&mut subway, &Ok(Route(a, c))), "No path from A to C");
}

#[test]
fn single_line_ring_goes_the_short_way() {
    let mut subway = Subway::new();
    let names = ["S0", "S1", "S2", "S3", "S4", "S5"];
    let ids: Vec<StationId> = names.iter().map(|n| subway.add_station(n)).collect();
    for i in 0..6 {
        link(&mut subway, ids[i], ids[(i + 1) % 6], "R", "R");
    }
    let path = find_path(&subway, ids[0], ids[4]).unwrap();
    assert_eq!(path.iter().map(|(id, _)| *id).collect::<Vec<_>>(), vec![0, 5, 4]);
}

#[test]
fn route_text_through_a_disabled_station() {
    let mut subway = Subway::new();
    let lines: Vec<String> = vec!["Blue", "Airport", "Maverick", "Aquarium"].into_iter().map(String::from).collect();
    assert_eq!(load_subway_data(&mut subway, &lines, "Blue"), Ok(()));
    let m = subway.find_station("Maverick").unwrap();
    subway.disable_station(m);
    assert_eq!(find_route(&subway, "Airport", "Aquarium").unwrap(), "Airport, take Blue\nMaverick\nAquarium\n");
    assert_eq!(find_route(&subway, "Airport", "Nowhere").unwrap_err(), "No such station: Nowhere");
}

#[test]
fn back_to_the_trunk_is_noted() {
    let mut subway = Subway::new();
    let a = subway.add_station("A");
    let b = subway.add_station("B");
    let c = subway.add_station("C");
    link(&mut subway, a, b, "Green", "E");
    link(&mut subway, b, c, "Green", "Green");
    assert_eq!(
        find_route(&subway, "^A$", "^C$").unwrap(),
        "A, take E\n---ensure you are on Green\nB, take Green\nC\n"
    );
}

#[test]
fn trip_to_the_same_station_is_no_path() {
    let mut subway = Subway::new();
    let a = subway.add_station("A");
    let b = subway.add_station("B");
    link(&mut subway, a, b, "X", "X");
    assert_eq!(find_route(&subway, "A", "A").unwrap_err(), "No path from A to A");
}

#[test]
fn fewer_line_changes_beat_fewer_hops() {
    let mut subway = Subway::new();
    let s = subway.add_station("S");
    let m = subway.add_station("M");
    let x = subway.add_station("X");
    let y = subway.add_station("Y");
    let t = subway.add_station("T");
    link(&mut subway, s, m, "R", "R");
    link(&mut subway, m, t, "G", "G");
    link(&mut subway, s, x, "R", "R");
    link(&mut subway, x, y, "R", "R");
    link(&mut subway, y, t, "R", "R");
    let path = find_path(&subway, s, t).unwrap();
    assert_eq!(ids(&path), vec![0, 2, 3, 4]);
}
