use t_query::subway::Subway;

#[test]
fn test_add_station() {
    let mut subway = Subway::new();
    let a_id = subway.add_station("A");
    assert_eq!(a_id, 0);
    assert_eq!(subway.stations[a_id], "A");
    let _b_id = subway.add_station("B");
    let dupe_id = subway.add_station("A");
    assert_eq!(a_id, dupe_id);
}

#[test]
fn test_add_connection() {
    let mut subway = Subway::new();
    let a_id = subway.add_station("A");
    let b_id = subway.add_station("B");
    let (from_id, conn_idx) = subway.add_connection(a_id, b_id, "foo", "bar");
    assert_eq!(from_id, a_id);
    assert_eq!(conn_idx, 0);
    let c = &subway.connections[a_id][conn_idx];
    assert!(c.active);
    assert_eq!(c.cost, 1);
    assert_eq!(c.to, b_id);
    assert_eq!(c.info.line.as_str(), "foo");
    assert_eq!(c.info.branch.as_str(), "bar");
}

#[test]
fn test_get_station() {
    let mut subway = Subway::new();
    let a_id = subway.add_station("A");
    let maybe_a = subway.get_station(a_id);
    assert!(maybe_a.is_some());
    assert_eq!(maybe_a.unwrap().as_str(), "A");
    let definitely_none = subway.get_station(100);
    assert!(definitely_none.is_none());
}

#[test]
fn test_get_station_id() {
    let mut subway = Subway::new();
    let a_id = subway.add_station("A");
    let also_a_id = subway.get_station_id("A");
    assert!(also_a_id.is_some());
    assert_eq!(a_id, also_a_id.unwrap());
    let none = subway.get_station_id("B");
    assert!(none.is_none());
}

#[test]
fn test_find_station() {
    let mut subway = Subway::new();
    let a1_id = subway.add_station("A1");
    let _a2_id = subway.add_station("A2");

    let a1_res = subway.find_station("A1");
    assert!(a1_res.is_ok());
    assert_eq!(a1_id, a1_res.unwrap());

    let multi_a = subway.find_station("A");
    assert!(multi_a.is_err());
    let multi_a_emsg = multi_a.unwrap_err();
    assert!(multi_a_emsg.starts_with("disambiguate your destination"));

    let no_b = subway.find_station("B");
    assert!(no_b.is_err());
    let no_b_emsg = no_b.unwrap_err();
    assert!(no_b_emsg.starts_with("No such station"));
}

#[test]
fn test_get_connections() {
    let mut subway = Subway::new();
    let a_id = subway.add_station("A");
    let b_id = subway.add_station("B");
    let (from_id, _conn_idx) = subway.add_connection(a_id, b_id, "foo", "bar");
    let maybe_cs = subway.get_connections(from_id);
    assert!(maybe_cs.is_some());
    let cs = maybe_cs.unwrap();
    assert!(cs.len() == 1);
    assert_eq!(cs[0].to, b_id);

    let no_cs = subway.get_connections(b_id);
    assert!(no_cs.is_none());
}

#[test]
fn test_get_connection() {
    let mut subway = Subway::new();
    let a_id = subway.add_station("A");
    let b_id = subway.add_station("B");
    let c_id = subway.add_station("C");
    subway.add_connection(a_id, b_id, "foo", "bar");

    let maybe_c = subway.get_connection(a_id, b_id);
    assert!(maybe_c.is_some());
    let c = maybe_c.unwrap();
    assert_eq!(c.to, b_id);

    let no_c = subway.get_connection(a_id, c_id);
    assert!(no_c.is_none());
}

#[test]
fn test_size() {
    let mut subway = Subway::new();
    assert!(subway.size() == 0);
    let _a_id = subway.add_station("A");
    assert!(subway.size() == 1);
    let _b_id = subway.add_station("B");
    assert!(subway.size() == 2);
    let _c_id = subway.add_station("C");
    assert!(subway.size() == 3);
}

#[test]
fn test_disable_enable_station() {
    let mut subway = Subway::new();
    let a_id = subway.add_station("A");
    let b_id = subway.add_station("B");
    let c_id = subway.add_station("C");
    subway.add_connection(a_id, b_id, "", "");
    subway.add_connection(b_id, a_id, "", "");
    subway.add_connection(c_id, b_id, "", "");

    subway.disable_station(a_id);
    {
        let a_b = subway.get_connection(a_id, b_id).unwrap();
        assert_eq!(a_b.active, false);
        let b_a = subway.get_connection(b_id, a_id).unwrap();
        assert_eq!(b_a.active, false);

        let c_b = subway.get_connection(c_id, b_id).unwrap();
        assert_eq!(c_b.active, true);
    }

    subway.enable_station(a_id);
    {
        let a_b = subway.get_connection(a_id, b_id).unwrap();
        assert_eq!(a_b.active, true);
        let b_a = subway.get_connection(b_id, a_id).unwrap();
        assert_eq!(b_a.active, true);
    }
}

#[test]
fn add_station_twice_keeps_one_station() {
    let mut subway = Subway::new();
    let first = subway.add_station("Park Street");
    let second = subway.add_station("Park Street");
    assert_eq!(first, second);
    assert_eq!(subway.size(), 1);
    assert_eq!(subway.add_station("park street"), 1);
}

#[test]
fn add_connection_twice_keeps_first() {
    let mut subway = Subway::new();
    let a = subway.add_station("A");
    let b = subway.add_station("B");
    assert_eq!(subway.add_connection(a, b, "Red", "Red"), (a, 0));
    assert_eq!(subway.add_connection(a, b, "Green", "E"), (a, 0));
    let cs = subway.get_connections(a).unwrap();
    assert_eq!(cs.len(), 1);
    assert_eq!(cs[0].info.line.as_str(), "Red");
}

#[test]
fn add_connection_from_later_station_goes_to_its_own_list() {
    let mut subway = Subway::new();
    let a = subway.add_station("A");
    let _b = subway.add_station("B");
    let c = subway.add_station("C");
    subway.add_connection(c, a, "Red", "Red");
    assert_eq!(subway.get_connections(c).unwrap()[0].to, a);
    assert_eq!(subway.get_connections(1).unwrap().len(), 0);
    assert!(subway.get_connections(a).is_some());
    assert!(subway.get_connection(c, a).is_some());
    assert!(subway.get_connection(a, c).is_none());
}

#[test]
fn disable_reaches_inbound_edges_without_outbound_twin() {
    let mut subway = Subway::new();
    let a = subway.add_station("A");
    let b = subway.add_station("B");
    let c = subway.add_station("C");
    subway.add_connection(b, a, "Red", "Red");
    subway.add_connection(c, b, "Red", "Red");
    subway.disable_station(a);
    assert!(!subway.get_connection(b, a).unwrap().active);
    assert!(subway.get_connection(c, b).unwrap().active);
    subway.enable_station(a);
    assert!(subway.get_connection(b, a).unwrap().active);
}

#[test]
fn disable_unknown_station_changes_nothing() {
    let mut subway = Subway::new();
    let a = subway.add_station("A");
    let b = subway.add_station("B");
    subway.add_connection(a, b, "Red", "Red");
    subway.disable_station(7);
    assert!(subway.get_connection(a, b).unwrap().active);
}

#[test]
fn find_station_lists_every_match() {
    let mut subway = Subway::new();
    subway.add_station("A1");
    subway.add_station("B");
    subway.add_station("A2");
    assert_eq!(subway.find_station("A").unwrap_err(), "disambiguate your destination: A1 A2");
    assert_eq!(subway.find_station("^B$"), Ok(1));
    assert_eq!(subway.find_station("Q").unwrap_err(), "No such station: Q");
}

#[test]
fn find_station_with_invalid_pattern_is_not_found() {
    let mut subway = Subway::new();
    subway.add_station("A(");
    assert_eq!(subway.find_station("A(").unwrap_err(), "No such station: A(");
}

#[test]
fn find_station_on_empty_network() {
    let subway = Subway::new();
    assert_eq!(subway.find_station("").unwrap_err(), "No such station: ");
}

#[test]
fn pick_station_on_given_matches() {
    let mut subway = Subway::new();
    subway.add_station("North");
    subway.add_station("South");
    assert_eq!(subway.pick_station("x", &vec![]).unwrap_err(), "No such station: x");
    assert_eq!(subway.pick_station("x", &vec![1]), Ok(1));
    assert_eq!(
        subway.pick_station("th", &vec![1, 0]).unwrap_err(),
        "disambiguate your destination: South North"
    );
}

#[test]
fn stations_listing_shows_ids_and_names() {
    let mut subway = Subway::new();
    for name in ["a", "b", "c", "d", "e", "f", "g", "h", "i", "j", "k", "l"] {
        subway.add_station(name);
    }
    let listing = subway.stations_listing();
    assert!(listing.starts_with("StationID\tStation\n0\ta\n1\tb\n"));
    assert!(listing.ends_with("10\tk\n11\tl\n"));
    assert_eq!(Subway::new().stations_listing(), "StationID\tStation\n");
}
