use bgp_rib::aspath::{as_path_to_text, push_decimal, AsPathFilter};
use bgp_rib::store::{InMemoryTable, Row, ROWS_PER_TABLE};
use bgp_rib::types::{IpAddress, NetQuery, Prefix, Query, QueryError, Route, SessionId, TableSelector};

fn v4(a: u8, b: u8, c: u8, d: u8, len: u8) -> Prefix {
    let addr = u32::from_be_bytes([a, b, c, d]);
    Prefix::new(IpAddress::V4(addr), len).unwrap()
}

fn route(path: Option<Vec<u32>>) -> Route {
    Route { as_path: path, attributes: vec![1, 2, 3] }
}

fn session(router: u32, peer: u32) -> SessionId {
    SessionId { local_router_id: router, peer_address: IpAddress::V4(peer) }
}

fn query() -> Query {
    Query { table: None, router_id: None, net_query: None, as_path_regex: None }
}

fn run(t: &mut InMemoryTable, q: &Query) -> Vec<Row> {
    t.get_routes(q).unwrap()
}

const X: u32 = 0x0a00_0001;
const Y: u32 = 0x0a00_0002;

#[test]
fn scenario_exact_and_as_path_patterns() {
    let mut t = InMemoryTable::new();
    let a = TableSelector::PrePolicyAdjIn(session(X, 1));
    let net = v4(10, 0, 0, 0, 8);
    t.update_route(net, a, route(Some(vec![65001, 65002])));

    let mut q = query();
    q.table = Some(a);
    q.net_query = Some(NetQuery::Exact(net));
    let rows = run(&mut t, &q);
    assert_eq!(rows.len(), 1);
    assert_eq!(rows[0].0, a);
    assert_eq!(rows[0].1, net);
    assert_eq!(rows[0].2.as_path, Some(vec![65001, 65002]));

    let mut q = query();
    q.table = Some(a);
    q.as_path_regex = Some("65002$".to_string());
    assert_eq!(run(&mut t, &q).len(), 1);

    q.as_path_regex = Some("^65002".to_string());
    assert_eq!(run(&mut t, &q).len(), 0);
}

#[test]
fn scenario_router_teardown_keeps_other_router() {
    let mut t = InMemoryTable::new();
    let a = TableSelector::PrePolicyAdjIn(session(X, 1));
    let b = TableSelector::PostPolicyAdjIn(session(X, 2));
    let c = TableSelector::PrePolicyAdjIn(session(Y, 3));
    let loc_x = TableSelector::LocRib { locrib_router_id: X };
    for s in [a, b, c, loc_x] {
        t.update_route(v4(10, 0, 0, 0, 8), s, route(Some(vec![1])));
        t.update_route(v4(192, 168, 0, 0, 16), s, route(None));
    }
    t.clear_router_table(X);

    let mut q = query();
    q.router_id = Some(X);
    assert_eq!(run(&mut t, &q).len(), 0);

    let mut q = query();
    q.router_id = Some(Y);
    let rows = run(&mut t, &q);
    assert_eq!(rows.len(), 2);
    assert!(rows.iter().all(|r| r.0 == c));

    let mut q = query();
    q.table = Some(c);
    q.net_query = Some(NetQuery::Exact(v4(192, 168, 0, 0, 16)));
    assert_eq!(run(&mut t, &q).len(), 1);
}

#[test]
fn last_writer_wins_and_withdraw() {
    let mut t = InMemoryTable::new();
    let s = TableSelector::LocRib { locrib_router_id: X };
    let net = v4(10, 1, 0, 0, 16);
    let mut q = query();
    q.table = Some(s);
    q.net_query = Some(NetQuery::Exact(net));

    t.update_route(net, s, route(Some(vec![1])));
    t.update_route(net, s, route(Some(vec![2, 3])));
    let rows = run(&mut t, &q);
    assert_eq!(rows.len(), 1);
    assert_eq!(rows[0].2.as_path, Some(vec![2, 3]));

    t.withdraw_route(net, s);
    assert_eq!(run(&mut t, &q).len(), 0);

    // withdrawing an absent prefix is a no-op
    t.withdraw_route(net, s);
    assert_eq!(run(&mut t, &q).len(), 0);

    t.withdraw_route(net, s);
    t.update_route(net, s, route(None));
    let rows = run(&mut t, &q);
    assert_eq!(rows.len(), 1);
    assert_eq!(rows[0].2.as_path, None);

    // the same update twice leaves one entry
    t.update_route(net, s, route(None));
    let mut all = query();
    all.table = Some(s);
    assert_eq!(run(&mut t, &all).len(), 1);
}

#[test]
fn exact_query_on_missing_prefix_and_unknown_table() {
    let mut t = InMemoryTable::new();
    let s = TableSelector::PostPolicyAdjIn(session(X, 9));
    t.update_route(v4(10, 0, 0, 0, 8), s, route(None));
    let mut q = query();
    q.table = Some(s);
    q.net_query = Some(NetQuery::Exact(v4(10, 0, 0, 0, 9)));
    assert_eq!(run(&mut t, &q).len(), 0);
    // host bits make a different prefix
    q.net_query = Some(NetQuery::Exact(Prefix::new(IpAddress::V4(0x0a00_0001), 8).unwrap()));
    assert_eq!(run(&mut t, &q).len(), 0);

    let never = TableSelector::LocRib { locrib_router_id: Y };
    q.table = Some(never);
    q.net_query = Some(NetQuery::Exact(v4(10, 0, 0, 0, 8)));
    assert_eq!(run(&mut t, &q).len(), 0);
    // the router filter is ignored when a table is named
    q.table = Some(s);
    q.router_id = Some(Y);
    q.net_query = Some(NetQuery::Exact(v4(10, 0, 0, 0, 8)));
    assert_eq!(run(&mut t, &q).len(), 1);
}

#[test]
fn router_filter_returns_only_that_router() {
    let mut t = InMemoryTable::new();
    let loc_x = TableSelector::LocRib { locrib_router_id: X };
    let loc_y = TableSelector::LocRib { locrib_router_id: Y };
    let pre_x = TableSelector::PrePolicyAdjIn(session(X, 1));
    for i in 0..5u8 {
        t.update_route(v4(10, i, 0, 0, 16), loc_x, route(None));
        t.update_route(v4(11, i, 0, 0, 16), loc_y, route(None));
    }
    t.update_route(v4(12, 0, 0, 0, 8), pre_x, route(None));
    let mut q = query();
    q.router_id = Some(X);
    let rows = run(&mut t, &q);
    assert_eq!(rows.len(), 6);
    assert_eq!(rows.iter().filter(|r| r.0 == loc_x).count(), 5);
    assert!(rows.iter().all(|r| r.0 == loc_x || r.0 == pre_x));

    assert_eq!(run(&mut t, &query()).len(), 11);
}

#[test]
fn as_path_filter_excludes_routes_without_path() {
    let mut t = InMemoryTable::new();
    let s = TableSelector::LocRib { locrib_router_id: X };
    t.update_route(v4(10, 0, 0, 0, 8), s, route(None));
    t.update_route(v4(10, 1, 0, 0, 16), s, route(Some(vec![])));
    t.update_route(v4(10, 2, 0, 0, 16), s, route(Some(vec![7, 65002])));
    t.update_route(v4(10, 3, 0, 0, 16), s, route(Some(vec![65002, 7])));
    let mut q = query();
    q.as_path_regex = Some(".*".to_string());
    assert_eq!(run(&mut t, &q).len(), 3);
    q.as_path_regex = Some("^7 65002$".to_string());
    let rows = run(&mut t, &q);
    assert_eq!(rows.len(), 1);
    assert_eq!(rows[0].1, v4(10, 2, 0, 0, 16));
    q.as_path_regex = Some("^$".to_string());
    let rows = run(&mut t, &q);
    assert_eq!(rows.len(), 1);
    assert_eq!(rows[0].1, v4(10, 1, 0, 0, 16));
}

#[test]
fn peer_teardown_leaves_other_tables() {
    let mut t = InMemoryTable::new();
    let sa = session(X, 1);
    let sb = session(X, 2);
    let loc = TableSelector::LocRib { locrib_router_id: X };
    for s in [TableSelector::PrePolicyAdjIn(sa), TableSelector::PostPolicyAdjIn(sa),
              TableSelector::PrePolicyAdjIn(sb), loc] {
        t.update_route(v4(10, 0, 0, 0, 8), s, route(None));
    }
    t.clear_peer_table(sa);
    for s in [TableSelector::PrePolicyAdjIn(sa), TableSelector::PostPolicyAdjIn(sa)] {
        let mut q = query();
        q.table = Some(s);
        assert_eq!(run(&mut t, &q).len(), 0);
    }
    for s in [TableSelector::PrePolicyAdjIn(sb), loc] {
        let mut q = query();
        q.table = Some(s);
        assert_eq!(run(&mut t, &q).len(), 1);
    }
}

#[test]
fn full_scan_is_capped_per_table() {
    let mut t = InMemoryTable::new();
    let a = TableSelector::LocRib { locrib_router_id: X };
    let b = TableSelector::LocRib { locrib_router_id: Y };
    for i in 0..250u32 {
        t.update_route(Prefix::new(IpAddress::V4(i << 8), 24).unwrap(), a, route(None));
    }
    for i in 0..10u32 {
        t.update_route(Prefix::new(IpAddress::V4(i << 8), 24).unwrap(), b, route(None));
    }
    let rows = run(&mut t, &query());
    assert_eq!(ROWS_PER_TABLE, 200);
    assert_eq!(rows.iter().filter(|r| r.0 == a).count(), 200);
    assert_eq!(rows.iter().filter(|r| r.0 == b).count(), 10);
}

#[test]
fn invalid_pattern_is_refused() {
    let mut t = InMemoryTable::new();
    let mut q = query();
    q.as_path_regex = Some("(65001".to_string());
    assert!(matches!(t.get_routes(&q), Err(QueryError::InvalidAsPathPattern)));
    q.net_query = Some(NetQuery::MoreSpecifics(v4(10, 0, 0, 0, 8)));
    assert!(matches!(t.get_routes(&q), Err(QueryError::InvalidAsPathPattern)));
}

#[test]
fn unsupported_mode_is_refused() {
    let mut t = InMemoryTable::new();
    let mut q = query();
    q.net_query = Some(NetQuery::MoreSpecifics(v4(10, 0, 0, 0, 8)));
    assert!(matches!(t.get_routes(&q), Err(QueryError::UnsupportedQueryMode)));
    q.net_query = Some(NetQuery::LessSpecifics(v4(10, 0, 0, 0, 8)));
    assert!(matches!(t.get_routes(&q), Err(QueryError::UnsupportedQueryMode)));
}

#[test]
fn plan_and_scan_table() {
    let mut t = InMemoryTable::new();
    let a = TableSelector::PrePolicyAdjIn(session(X, 1));
    let b = TableSelector::PrePolicyAdjIn(session(Y, 1));
    t.update_route(v4(10, 0, 0, 0, 8), a, route(Some(vec![1, 2])));
    t.update_route(v4(10, 0, 0, 0, 8), b, route(Some(vec![3])));
    let mut q = query();
    q.as_path_regex = Some("^1 ".to_string());
    let plan = t.plan(&q).unwrap();
    assert_eq!(plan.targets.len(), 2);
    assert_eq!(t.scan_table(&plan, &a).len(), 1);
    assert_eq!(t.scan_table(&plan, &b).len(), 0);
    let missing = TableSelector::LocRib { locrib_router_id: 5 };
    assert_eq!(t.scan_table(&plan, &missing).len(), 0);

    let mut named = query();
    named.table = Some(missing);
    let plan = t.plan(&named).unwrap();
    assert_eq!(plan.targets, vec![missing]);
    // naming a table creates it empty
    assert_eq!(t.plan(&query()).unwrap().targets.len(), 3);
}

#[test]
fn as_path_text_is_decimal_space_joined() {
    let text: String = as_path_to_text(&vec![65001, 0, 4294967295, 7]).into_iter().collect();
    assert_eq!(text, "65001 0 4294967295 7");
    assert!(as_path_to_text(&vec![]).is_empty());
    let mut out = vec!['x'];
    push_decimal(1200, &mut out);
    assert_eq!(out, vec!['x', '1', '2', '0', '0']);
}

#[test]
fn compiled_filter_matches_text() {
    let f = AsPathFilter::new(&"^650[0-9]+ 7$".to_string()).unwrap();
    assert!(f.matches_text(&"65001 7".chars().collect()));
    assert!(!f.matches_text(&"65001 8".chars().collect()));
    assert!(f.matches(&route(Some(vec![65099, 7]))));
    assert!(!f.matches(&route(None)));
    assert!(matches!(AsPathFilter::new(&"[".to_string()), Err(QueryError::InvalidAsPathPattern)));
}

#[test]
fn prefix_lengths_are_checked() {
    assert!(Prefix::new(IpAddress::V4(0), 33).is_none());
    assert!(Prefix::new(IpAddress::V4(0), 32).is_some());
    assert!(Prefix::new(IpAddress::V6(0), 128).is_some());
    assert!(Prefix::new(IpAddress::V6(0), 129).is_none());
}

#[test]
fn duplicate_keeps_route() {
    let r = route(Some(vec![5, 6]));
    assert_eq!(r.duplicate(), r);
    assert_eq!(TableSelector::PostPolicyAdjIn(session(Y, 4)).router(), Y);
}
