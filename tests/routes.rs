use guangzhou_metro::graph::{Link, MetroMap};
use guangzhou_metro::path::Path;

fn s(x: &str) -> String {
    x.to_string()
}

fn line(map: &mut MetroMap, name: &str, stations: &[&str], costs: &[u32]) {
    let stations: Vec<String> = stations.iter().map(|x| s(x)).collect();
    map.add_line(&s(name), &stations, &costs.to_vec());
}

fn stations_of(path: &Path, i: usize) -> Vec<&str> {
    path.segments[i].stations.iter().map(|x| x.as_str()).collect()
}

fn single_line() -> MetroMap {
    let mut map = MetroMap::new();
    line(&mut map, "L", &["A", "B", "C"], &[1, 2]);
    map
}

#[test]
fn single_line_forward() {
    let map = single_line();
    let path = map.find_path("A", "C").unwrap();
    assert_eq!(path.len, 3);
    assert_eq!(path.segments.len(), 1);
    assert_eq!(path.segments[0].line, "L");
    assert_eq!(path.segments[0].direction, "C");
    assert_eq!(stations_of(&path, 0), vec!["A", "B", "C"]);
    assert_eq!(path.segments[0].len, 3);
}

#[test]
fn single_line_backward() {
    let map = single_line();
    let path = map.find_path("C", "A").unwrap();
    assert_eq!(path.len, 3);
    assert_eq!(path.segments.len(), 1);
    assert_eq!(path.segments[0].line, "L");
    assert_eq!(path.segments[0].direction, "A");
    assert_eq!(stations_of(&path, 0), vec!["C", "B", "A"]);
    assert_eq!(path.segments[0].len, 3);
}

#[test]
fn same_station_gives_empty_path() {
    let map = single_line();
    for name in ["A", "B", "C"] {
        let path = map.find_path(name, name).unwrap();
        assert_eq!(path.len, 0);
        assert!(path.segments.is_empty());
        assert_eq!(map.find_path_raw(name, name).unwrap().len(), 0);
    }
}

#[test]
fn two_lines_share_a_station() {
    let mut map = MetroMap::new();
    line(&mut map, "L1", &["A", "B"], &[1]);
    line(&mut map, "L2", &["B", "C"], &[2]);
    let path = map.find_path("A", "C").unwrap();
    assert_eq!(path.len, 3);
    assert_eq!(path.segments.len(), 2);
    assert_eq!(path.segments[0].line, "L1");
    assert_eq!(path.segments[0].direction, "B");
    assert_eq!(stations_of(&path, 0), vec!["A", "B"]);
    assert_eq!(path.segments[0].len, 1);
    assert_eq!(path.segments[1].line, "L2");
    assert_eq!(path.segments[1].direction, "C");
    assert_eq!(stations_of(&path, 1), vec!["B", "C"]);
    assert_eq!(path.segments[1].len, 2);
    assert_eq!(path.segments[0].stations.last(), path.segments[1].stations.first());
}

#[test]
fn unknown_station_gives_none() {
    let map = single_line();
    assert!(map.find_path("A", "Z").is_none());
    assert!(map.find_path("Z", "A").is_none());
    assert!(map.find_path("Z", "Z").is_none());
    assert!(map.find_path_raw("A", "Z").is_none());
    assert!(map.find_path_raw("Z", "A").is_none());
}

#[test]
fn disconnected_stations_give_none() {
    let mut map = MetroMap::new();
    line(&mut map, "L1", &["A", "B"], &[1]);
    line(&mut map, "L2", &["C", "D"], &[1]);
    assert!(map.find_path("A", "D").is_none());
    assert!(map.find_path_raw("B", "C").is_none());
    assert!(map.find_path("A", "B").is_some());
}

#[test]
fn target_without_own_entry_is_unknown() {
    let mut map = MetroMap::new();
    map.add_link(s("A"), Link { next: s("B"), cost: 4, line: s("L"), direction: s("B") });
    assert!(map.find_path("A", "B").is_none());
    assert!(map.find_path("A", "A").is_some());
}

#[test]
fn cheapest_route_is_chosen() {
    // A-B-C-D on line X costs 1+1+1; the express line Y goes A-D for 5.
    let mut map = MetroMap::new();
    line(&mut map, "X", &["A", "B", "C", "D"], &[1, 1, 1]);
    line(&mut map, "Y", &["A", "D"], &[5]);
    let path = map.find_path("A", "D").unwrap();
    assert_eq!(path.len, 3);
    assert_eq!(path.segments.len(), 1);
    assert_eq!(path.segments[0].line, "X");
    assert_eq!(stations_of(&path, 0), vec!["A", "B", "C", "D"]);
    // Making the express cheaper than any other route switches to it.
    let mut map = MetroMap::new();
    line(&mut map, "X", &["A", "B", "C", "D"], &[1, 1, 1]);
    line(&mut map, "Y", &["A", "D"], &[2]);
    let path = map.find_path("A", "D").unwrap();
    assert_eq!(path.len, 2);
    assert_eq!(path.segments[0].line, "Y");
    assert_eq!(path.segments[0].direction, "D");
}

#[test]
fn cheapest_matches_brute_force_on_a_small_grid() {
    // Stations 0..4 with lines between some pairs; every simple route's cost
    // enumerated by hand: 0-1-3 = 2+2, 0-2-3 = 1+4, 0-2-1-3 = 1+1+2, 0-1-2-3 = 2+1+4.
    let mut map = MetroMap::new();
    line(&mut map, "P", &["S0", "S1", "S3"], &[2, 2]);
    line(&mut map, "Q", &["S0", "S2", "S3"], &[1, 4]);
    line(&mut map, "R", &["S2", "S1"], &[1]);
    let path = map.find_path("S0", "S3").unwrap();
    assert_eq!(path.len, 4);
    let raw = map.find_path_raw("S0", "S3").unwrap();
    let total: u64 = raw.iter().map(|e| e.cost as u64).sum();
    assert_eq!(total, 4);
}

#[test]
fn lengths_add_up() {
    let mut map = MetroMap::new();
    line(&mut map, "L1", &["A", "B", "C"], &[3, 4]);
    line(&mut map, "L2", &["C", "D", "E"], &[5, 6]);
    line(&mut map, "L3", &["E", "F"], &[7]);
    let path = map.find_path("A", "F").unwrap();
    let seg_sum: u64 = path.segments.iter().map(|g| g.len).sum();
    assert_eq!(path.len, 25);
    assert_eq!(seg_sum, 25);
    let raw = map.find_path_raw("A", "F").unwrap();
    let link_sum: u64 = raw.iter().map(|e| e.cost as u64).sum();
    assert_eq!(link_sum, 25);
    assert_eq!(path.segments.len(), 3);
    for w in path.segments.windows(2) {
        assert_ne!(w[0].line, w[1].line);
    }
}

#[test]
fn zero_cost_hops_are_allowed() {
    let mut map = MetroMap::new();
    line(&mut map, "L", &["A", "B", "C"], &[0, 0]);
    let path = map.find_path("A", "C").unwrap();
    assert_eq!(path.len, 0);
    assert_eq!(stations_of(&path, 0), vec!["A", "B", "C"]);
}

#[test]
fn line_listing_keeps_first_seen_order() {
    let mut map = MetroMap::new();
    line(&mut map, "L2", &["X", "Y"], &[1]);
    line(&mut map, "L1", &["A", "B", "C"], &[1, 1]);
    map.add_station(s("D"), s("L2"));
    let listing = map.line_stations();
    let keys: Vec<&str> = listing.keys().map(|k| k.as_str()).collect();
    assert_eq!(keys, vec!["L2", "L1"]);
    assert_eq!(listing["L2"], vec![s("X"), s("Y"), s("D")]);
    assert_eq!(listing["L1"], vec![s("A"), s("B"), s("C")]);
}

#[test]
fn add_link_interns_names() {
    let mut map = MetroMap::new();
    map.add_link(s("A"), Link { next: s("B"), cost: 2, line: s("L"), direction: s("C") });
    assert_eq!(map.station_count(), 3);
    assert_eq!(map.station_name(0), "A");
    assert_eq!(map.station_name(1), "B");
    assert_eq!(map.station_name(2), "C");
    assert!(map.is_keyed(0));
    assert!(!map.is_keyed(1));
    assert_eq!(map.lookup("A"), Some(0));
    assert_eq!(map.lookup("B"), None);
    let e = map.edges(0)[0];
    assert_eq!((e.to, e.cost, e.line, e.direction), (1, 2, 0, 2));
    assert_eq!(map.line_name(0), "L");
    assert_eq!(map.route(0, 0).unwrap().len(), 0);
}

#[test]
fn add_line_builds_mirrored_links() {
    let map = single_line();
    // Names interned in order of first use: A, B, C.
    assert_eq!(map.station_count(), 3);
    let a = map.lookup("A").unwrap();
    let b = map.lookup("B").unwrap();
    let c = map.lookup("C").unwrap();
    let row = |v: usize| -> Vec<(usize, u32, usize)> {
        map.edges(v).iter().map(|e| (e.to, e.cost, e.direction)).collect()
    };
    assert_eq!(row(a), vec![(b, 1, c)]);
    assert_eq!(row(b), vec![(a, 1, a), (c, 2, c)]);
    assert_eq!(row(c), vec![(b, 2, a)]);
    for v in [a, b, c] {
        for e in map.edges(v) {
            assert_eq!(map.line_name(e.line), "L");
        }
    }
}

#[test]
fn lone_station_line_stays_unknown() {
    let mut map = MetroMap::new();
    line(&mut map, "Solo", &["S"], &[]);
    assert!(map.find_path("S", "S").is_none());
    assert_eq!(map.line_stations()["Solo"], vec![s("S")]);
}

#[test]
fn reverse_query_costs_the_same() {
    let mut map = MetroMap::new();
    line(&mut map, "L1", &["A", "B", "C"], &[3, 4]);
    line(&mut map, "L2", &["B", "D", "E"], &[1, 9]);
    for (x, y) in [("A", "E"), ("C", "D"), ("A", "C")] {
        let there = map.find_path(x, y).unwrap();
        let back = map.find_path(y, x).unwrap();
        assert_eq!(there.len, back.len);
    }
}

#[test]
fn zero_cost_route_repeats_no_station() {
    let mut map = MetroMap::new();
    line(&mut map, "L", &["A", "B", "C"], &[0, 0]);
    line(&mut map, "M", &["B", "A"], &[0]);
    let raw = map.find_path_raw("A", "C").unwrap();
    let mut seen = vec![map.lookup("A").unwrap()];
    for e in &raw {
        assert!(!seen.contains(&e.to));
        seen.push(e.to);
    }
}
