use t_query::load_subway_data;
use t_query::subway::Subway;

fn lines(v: &[&str]) -> Vec<String> {
    v.iter().map(|s| s.to_string()).collect()
}

#[test]
fn loads_a_plain_line() {
    let mut subway = Subway::new();
    assert_eq!(load_subway_data(&mut subway, &lines(&["Red", " Alewife ", "Davis\t", "\u{3000}Porter"]), "Red"), Ok(()));
    assert_eq!(subway.size(), 3);
    assert_eq!(subway.stations[1], "Davis");
    assert_eq!(subway.stations[2], "Porter");
    let c = subway.get_connection(0, 1).unwrap();
    assert_eq!(c.info.line.as_str(), "Red");
    assert_eq!(c.info.branch.as_str(), "Red");
    assert!(subway.get_connection(1, 0).is_some());
    assert!(subway.get_connection(0, 2).is_none());
}

#[test]
fn loads_branches_from_the_fork() {
    let mut subway = Subway::new();
    let listing = lines(&["- B1 B2", "A", "B", "----B1", "C", "----B2", "D", "E"]);
    assert_eq!(load_subway_data(&mut subway, &listing, "X"), Ok(()));
    assert_eq!(subway.size(), 5);
    let bc = subway.get_connection(1, 2).unwrap();
    assert_eq!(bc.info.branch.as_str(), "B1");
    let bd = subway.get_connection(1, 3).unwrap();
    assert_eq!(bd.info.branch.as_str(), "B2");
    let de = subway.get_connection(3, 4).unwrap();
    assert_eq!(de.info.branch.as_str(), "B2");
    assert!(subway.get_connection(2, 3).is_none());
}

#[test]
fn branches_join_again() {
    let mut subway = Subway::new();
    let listing = lines(&["-- B1 B2", "A", "----B1", "C", "----B2", "D", "--- X", "E"]);
    assert_eq!(load_subway_data(&mut subway, &listing, "X"), Ok(()));
    let ae = subway.get_connection(0, 3).unwrap();
    assert_eq!(ae.info.branch.as_str(), "X");
}

#[test]
fn same_name_on_two_branches_is_two_stations() {
    let mut subway = Subway::new();
    let listing = lines(&["- B C", "Kenmore", "----B", "St. Paul Street", "----C", "St. Paul Street"]);
    assert_eq!(load_subway_data(&mut subway, &listing, "Green"), Ok(()));
    assert_eq!(subway.stations[1], "St. Paul Street B");
    assert_eq!(subway.stations[2], "St. Paul Street C");
}

#[test]
fn malformed_branch_header_loads_nothing() {
    let mut subway = Subway::new();
    let listing = lines(&["- B1 B2", "A", "----B1", "C"]);
    assert_eq!(
        load_subway_data(&mut subway, &listing, "X"),
        Err("Branches declared in header do not match graph data for X!".to_string())
    );
    assert_eq!(subway.size(), 0);
}

#[test]
fn empty_listing_loads_nothing() {
    let mut subway = Subway::new();
    assert_eq!(load_subway_data(&mut subway, &Vec::new(), "X"), Ok(()));
    assert_eq!(subway.size(), 0);
}

#[test]
fn branch_names_must_match_the_header() {
    let mut subway = Subway::new();
    let listing = lines(&["a", "A", "----b", "B"]);
    assert_eq!(
        load_subway_data(&mut subway, &listing, "X"),
        Err("Branches declared in header do not match graph data for X!".to_string())
    );
    assert_eq!(subway.size(), 0);
    let listing = lines(&["- B1 B2", "A", "----B2", "C", "----B1", "D"]);
    assert_eq!(load_subway_data(&mut subway, &listing, "X"), Ok(()));
    let listing = lines(&["- B1 B3", "E", "----B1", "F", "----B2", "G"]);
    assert!(load_subway_data(&mut subway, &listing, "Y").is_err());
}
