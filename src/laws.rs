//! Laws that relate the store's operations and queries.
use vstd::prelude::*;
use crate::aspath::route_passes;
use crate::assoc::pairs_map;
use crate::store::{table_of, after_plan, after_update, after_withdraw, all_rows, capped, matching_rows,
    peer_cleared, router_cleared, rows_of, selected, table_rows, target_list, targeted, Entries,
    InMemoryTable, RowView, ScanMode, StoreView};
use crate::types::{NetQuery, Prefix, Query, RouteView, RouterId, SessionId, TableSelector};

verus! {

/// One mutation of a single (prefix, table) entry.
pub enum RouteOp {
    Update(RouteView),
    Withdraw,
}

/// The store after one mutation of the entry for `net` in the table for `sel`.
pub open spec fn apply_op(v: StoreView, net: Prefix, sel: TableSelector, op: RouteOp) -> StoreView {
    match op {
        RouteOp::Update(r) => after_update(v, net, sel, r),
        RouteOp::Withdraw => after_withdraw(v, net, sel),
    }
}

/// The store after a sequence of mutations of one entry, in program order.
pub open spec fn apply_ops(v: StoreView, net: Prefix, sel: TableSelector, ops: Seq<RouteOp>) -> StoreView
    decreases ops.len(),
{
    if ops.len() == 0 {
        v
    } else {
        apply_op(apply_ops(v, net, sel, ops.drop_last()), net, sel, ops.last())
    }
}

/// Updates and withdrawals of one (prefix, table) entry: the last one alone
/// decides the outcome. An update leaves its route, a withdrawal leaves no
/// route, whatever came before.
pub proof fn law_last_writer_wins(v: StoreView, net: Prefix, sel: TableSelector, ops: Seq<RouteOp>)
    requires
        ops.len() > 0,
    ensures
        apply_ops(v, net, sel, ops) == apply_op(v, net, sel, ops.last()),
    decreases ops.len(),
{
    if ops.len() > 1 {
        let prev = ops.drop_last();
        law_last_writer_wins(v, net, sel, prev);
        let w = apply_op(v, net, sel, prev.last());
        assert(apply_ops(v, net, sel, ops) == apply_op(w, net, sel, ops.last()));
        let tw = table_of(w, sel);
        let tv = table_of(v, sel);
        match ops.last() {
            RouteOp::Update(r) => {
                assert(tw.insert(net, r) =~= tv.insert(net, r));
                assert(apply_op(w, net, sel, ops.last()) =~= apply_op(v, net, sel, ops.last()));
            },
            RouteOp::Withdraw => {
                assert(tw.remove(net) =~= tv.remove(net));
                assert(apply_op(w, net, sel, ops.last()) =~= apply_op(v, net, sel, ops.last()));
            },
        }
    } else {
        assert(ops.drop_last().len() == 0);
        assert(apply_ops(v, net, sel, ops.drop_last()) == v);
    }
}

proof fn lemma_table_rows_selector(sel: TableSelector, e: Entries, mode: ScanMode, f: Option<Seq<char>>)
    ensures
        forall|i: int| 0 <= i < table_rows(sel, e, mode, f).len() ==> (#[trigger] table_rows(sel, e, mode, f)[i]).0 == sel,
{
    lemma_matching_rows_selector(sel, e, f);
}

proof fn lemma_matching_rows_selector(sel: TableSelector, e: Entries, f: Option<Seq<char>>)
    ensures
        forall|i: int| 0 <= i < matching_rows(sel, e, f).len() ==> (#[trigger] matching_rows(sel, e, f)[i]).0 == sel,
    decreases e.len(),
{
    if e.len() > 0 {
        lemma_matching_rows_selector(sel, e.drop_last(), f);
    }
}

proof fn lemma_all_rows_from_targets(m: Map<TableSelector, Entries>, ts: Seq<TableSelector>, mode: ScanMode, f: Option<Seq<char>>)
    ensures
        forall|i: int| 0 <= i < all_rows(m, ts, mode, f).len() ==> ts.contains((#[trigger] all_rows(m, ts, mode, f)[i]).0),
    decreases ts.len(),
{
    if ts.len() > 0 {
        let prev = ts.drop_last();
        lemma_all_rows_from_targets(m, prev, mode, f);
        lemma_table_rows_selector(ts.last(), m[ts.last()], mode, f);
        let a = all_rows(m, prev, mode, f);
        let b = rows_of(m, ts.last(), mode, f);
        assert forall|i: int| 0 <= i < all_rows(m, ts, mode, f).len() implies ts.contains((#[trigger] all_rows(m, ts, mode, f)[i]).0) by {
            if i < a.len() {
                let j = choose|j: int| 0 <= j < prev.len() && prev[j] == a[i].0;
                assert(ts[j] == prev[j]);
            } else {
                assert(all_rows(m, ts, mode, f)[i] == b[i - a.len()]);
                assert(ts[ts.len() - 1] == ts.last());
            }
        }
    }
}

proof fn lemma_selected_targeted(keys: Seq<TableSelector>, q: Query)
    ensures
        forall|i: int| 0 <= i < selected(keys, q).len() ==> targeted(q, #[trigger] selected(keys, q)[i]),
    decreases keys.len(),
{
    if keys.len() > 0 {
        lemma_selected_targeted(keys.drop_last(), q);
        let rest = selected(keys.drop_last(), q);
        assert forall|i: int| 0 <= i < selected(keys, q).len() implies targeted(q, #[trigger] selected(keys, q)[i]) by {
            if i < rest.len() {
                assert(selected(keys, q)[i] == rest[i]);
            }
        }
    }
}

proof fn lemma_all_rows_absent(m: Map<TableSelector, Entries>, ts: Seq<TableSelector>, mode: ScanMode, f: Option<Seq<char>>)
    requires
        forall|i: int| 0 <= i < ts.len() ==> !m.contains_key(#[trigger] ts[i]),
    ensures
        all_rows(m, ts, mode, f) == Seq::<RowView>::empty(),
    decreases ts.len(),
{
    if ts.len() > 0 {
        lemma_all_rows_absent(m, ts.drop_last(), mode, f);
        assert(!m.contains_key(ts[ts.len() - 1]));
        assert(all_rows(m, ts, mode, f) =~= Seq::<RowView>::empty());
    }
}

/// A query with a router filter and no named table yields only rows of
/// tables that belong to that router.
pub proof fn law_router_filter(t: &InMemoryTable, q: Query, router: RouterId, mode: ScanMode, f: Option<Seq<char>>)
    requires
        q.table is None,
        q.router_id == Some(router),
    ensures
        forall|i: int| 0 <= i < all_rows(t.tables(), target_list(t.selectors(), q), mode, f).len()
            ==> (#[trigger] all_rows(t.tables(), target_list(t.selectors(), q), mode, f)[i]).0.router_of() == router,
{
    let ts = target_list(t.selectors(), q);
    lemma_all_rows_from_targets(t.tables(), ts, mode, f);
    lemma_selected_targeted(t.selectors(), q);
}

/// An exact-prefix query that names a table yields one row, for that prefix
/// and its route, exactly when the table holds the prefix and the route
/// passes the query's AS-path filter; otherwise it yields none.
pub proof fn law_exact_query(t: &InMemoryTable, q: Query, sel: TableSelector, p: Prefix, f: Option<Seq<char>>)
    requires
        q.table == Some(sel),
        q.net_query == Some(NetQuery::Exact(p)),
        t.tables().contains_key(sel),
    ensures
        ({
            let rows = all_rows(t.tables(), target_list(t.selectors(), q), ScanMode::Exact(p), f);
            &&& rows.len() == (if t@[sel].contains_key(p) && route_passes(f, t@[sel][p]) { 1int } else { 0int })
            &&& rows.len() == 1 ==> rows[0] == (sel, p, t@[sel][p])
        }),
{
    let ts = target_list(t.selectors(), q);
    let m = t.tables();
    let mode = ScanMode::Exact(p);
    assert(ts.drop_last() =~= Seq::<TableSelector>::empty());
    assert(all_rows(m, ts.drop_last(), mode, f) == Seq::<RowView>::empty());
    assert(all_rows(m, ts, mode, f) =~= rows_of(m, sel, mode, f));
    assert(t@[sel] == pairs_map(t.tables()[sel]));
}

/// An exact-prefix query that names a table and has no AS-path filter yields
/// exactly one row when the table holds the prefix, and none otherwise.
pub proof fn law_exact_query_unfiltered(t: &InMemoryTable, q: Query, sel: TableSelector, p: Prefix)
    requires
        q.table == Some(sel),
        q.net_query == Some(NetQuery::Exact(p)),
        q.as_path_regex is None,
        t.tables().contains_key(sel),
    ensures
        all_rows(t.tables(), target_list(t.selectors(), q), ScanMode::Exact(p), None).len()
            == (if t@[sel].contains_key(p) { 1int } else { 0int }),
{
    law_exact_query(t, q, sel, p, None);
}

proof fn lemma_matching_rows_pass(sel: TableSelector, e: Entries, f: Option<Seq<char>>)
    ensures
        forall|i: int| 0 <= i < matching_rows(sel, e, f).len() ==> route_passes(f, (#[trigger] matching_rows(sel, e, f)[i]).2),
    decreases e.len(),
{
    if e.len() > 0 {
        lemma_matching_rows_pass(sel, e.drop_last(), f);
        let rest = matching_rows(sel, e.drop_last(), f);
        assert forall|i: int| 0 <= i < matching_rows(sel, e, f).len() implies route_passes(f, (#[trigger] matching_rows(sel, e, f)[i]).2) by {
            if i < rest.len() {
                assert(matching_rows(sel, e, f)[i] == rest[i]);
            }
        }
    }
}

proof fn lemma_all_rows_pass(m: Map<TableSelector, Entries>, ts: Seq<TableSelector>, mode: ScanMode, f: Option<Seq<char>>)
    ensures
        forall|i: int| 0 <= i < all_rows(m, ts, mode, f).len() ==> route_passes(f, (#[trigger] all_rows(m, ts, mode, f)[i]).2),
    decreases ts.len(),
{
    if ts.len() > 0 {
        let prev = ts.drop_last();
        lemma_all_rows_pass(m, prev, mode, f);
        lemma_matching_rows_pass(ts.last(), m[ts.last()], f);
        let a = all_rows(m, prev, mode, f);
        let b = rows_of(m, ts.last(), mode, f);
        assert forall|i: int| 0 <= i < all_rows(m, ts, mode, f).len() implies route_passes(f, (#[trigger] all_rows(m, ts, mode, f)[i]).2) by {
            if i >= a.len() {
                assert(all_rows(m, ts, mode, f)[i] == b[i - a.len()]);
            }
        }
    }
}

/// Every row of a query with an AS-path pattern has an AS path, and the
/// pattern matches its decimal, space-joined text: a route without an AS
/// path never appears.
pub proof fn law_as_path_filter(t: &InMemoryTable, q: Query, mode: ScanMode, pattern: Seq<char>)
    ensures
        forall|i: int| 0 <= i < all_rows(t.tables(), target_list(t.selectors(), q), mode, Some(pattern)).len() ==> {
            let r = (#[trigger] all_rows(t.tables(), target_list(t.selectors(), q), mode, Some(pattern))[i]).2;
            &&& r.as_path is Some
            &&& crate::aspath::pattern_matches(pattern, crate::aspath::as_path_text(r.as_path.unwrap()))
        },
{
    lemma_all_rows_pass(t.tables(), target_list(t.selectors(), q), mode, Some(pattern));
}

proof fn lemma_empty_table_rows(sel: TableSelector, mode: ScanMode, f: Option<Seq<char>>)
    ensures
        table_rows(sel, Seq::empty(), mode, f) == Seq::<RowView>::empty(),
{
    assert(pairs_map(Seq::<(Prefix, RouteView)>::empty()) =~= Map::<Prefix, RouteView>::empty());
    assert(capped(matching_rows(sel, Seq::empty(), f)) =~= Seq::<RowView>::empty());
}

/// After a session's teardown, a query that names either of its tables
/// yields no rows, and every other table is as it was.
pub proof fn law_peer_teardown(
    m: Map<TableSelector, Entries>,
    session: SessionId,
    q: Query,
    keys: Seq<TableSelector>,
    mode: ScanMode,
    f: Option<Seq<char>>,
)
    requires
        q.table == Some(TableSelector::PrePolicyAdjIn(session)) || q.table == Some(TableSelector::PostPolicyAdjIn(session)),
    ensures
        all_rows(after_plan(peer_cleared(m, session), q), target_list(keys, q), mode, f) == Seq::<RowView>::empty(),
        forall|sel: TableSelector| sel != TableSelector::PrePolicyAdjIn(session) && sel != TableSelector::PostPolicyAdjIn(session)
            ==> #[trigger] peer_cleared(m, session).contains_key(sel) == m.contains_key(sel)
                && (m.contains_key(sel) ==> peer_cleared(m, session)[sel] == m[sel]),
{
    let sel = q.table.unwrap();
    let c = after_plan(peer_cleared(m, session), q);
    assert(c.contains_key(sel) && c[sel] == Seq::<(Prefix, RouteView)>::empty());
    lemma_empty_table_rows(sel, mode, f);
    let ts = target_list(keys, q);
    assert(ts.drop_last() =~= Seq::<TableSelector>::empty());
    assert(all_rows(c, ts.drop_last(), mode, f) == Seq::<RowView>::empty());
    assert(all_rows(c, ts, mode, f) =~= Seq::<RowView>::empty());
}

/// After a router's teardown none of its tables exists, a query filtered on
/// that router yields no rows, and every table of another router is as it was
/// and yields the same rows.
pub proof fn law_router_teardown(
    t: &InMemoryTable,
    before: Map<TableSelector, Entries>,
    router: RouterId,
    q: Query,
    mode: ScanMode,
    f: Option<Seq<char>>,
)
    requires
        t.tables() == router_cleared(before, router),
        q.table is None,
        q.router_id == Some(router),
    ensures
        all_rows(t.tables(), target_list(t.selectors(), q), mode, f) == Seq::<RowView>::empty(),
        forall|sel: TableSelector| sel.router_of() == router ==> !(#[trigger] t.tables().contains_key(sel)),
        forall|sel: TableSelector| sel.router_of() != router ==> {
            &&& #[trigger] t.tables().contains_key(sel) == before.contains_key(sel)
            &&& before.contains_key(sel) ==> t.tables()[sel] == before[sel]
            &&& rows_of(t.tables(), sel, mode, f) == rows_of(before, sel, mode, f)
        },
{
    let ts = target_list(t.selectors(), q);
    lemma_selected_targeted(t.selectors(), q);
    assert forall|i: int| 0 <= i < ts.len() implies !t.tables().contains_key(#[trigger] ts[i]) by {
        assert(targeted(q, ts[i]));
    }
    lemma_all_rows_absent(t.tables(), ts, mode, f);
}


/// The rows of `rows` that come from the table for `sel`, in order.
pub open spec fn rows_for(rows: Seq<RowView>, sel: TableSelector) -> Seq<RowView>
    decreases rows.len(),
{
    if rows.len() == 0 {
        Seq::empty()
    } else {
        let rest = rows_for(rows.drop_last(), sel);
        if rows.last().0 == sel {
            rest.push(rows.last())
        } else {
            rest
        }
    }
}

/// Every entry of a table as a row, in scan order.
pub open spec fn entry_rows(sel: TableSelector, e: Entries) -> Seq<RowView> {
    e.map_values(|x: (Prefix, RouteView)| (sel, x.0, x.1))
}

proof fn lemma_rows_for_concat(a: Seq<RowView>, b: Seq<RowView>, sel: TableSelector)
    ensures
        rows_for(a + b, sel) == rows_for(a, sel) + rows_for(b, sel),
    decreases b.len(),
{
    if b.len() == 0 {
        assert(a + b =~= a);
        assert(rows_for(a, sel) + rows_for(b, sel) =~= rows_for(a, sel));
    } else {
        lemma_rows_for_concat(a, b.drop_last(), sel);
        assert((a + b).drop_last() =~= a + b.drop_last());
        assert((a + b).last() == b.last());
        if b.last().0 == sel {
            assert(rows_for(a + b, sel) =~= rows_for(a, sel) + rows_for(b, sel));
        } else {
            assert(rows_for(a + b, sel) =~= rows_for(a, sel) + rows_for(b, sel));
        }
    }
}

proof fn lemma_rows_for_uniform(rows: Seq<RowView>, sel: TableSelector, from: TableSelector)
    requires
        forall|i: int| 0 <= i < rows.len() ==> (#[trigger] rows[i]).0 == from,
    ensures
        rows_for(rows, sel) == (if from == sel { rows } else { Seq::<RowView>::empty() }),
    decreases rows.len(),
{
    if rows.len() > 0 {
        let prev = rows.drop_last();
        assert forall|i: int| 0 <= i < prev.len() implies (#[trigger] prev[i]).0 == from by {
            assert(prev[i] == rows[i]);
        }
        lemma_rows_for_uniform(prev, sel, from);
        assert(rows[rows.len() - 1].0 == from);
        if from == sel {
            assert(prev.push(rows.last()) =~= rows);
        }
    }
}

proof fn lemma_matching_unfiltered(sel: TableSelector, e: Entries)
    ensures
        matching_rows(sel, e, None) == entry_rows(sel, e),
    decreases e.len(),
{
    if e.len() > 0 {
        lemma_matching_unfiltered(sel, e.drop_last());
        assert(entry_rows(sel, e.drop_last()).push((sel, e.last().0, e.last().1)) =~= entry_rows(sel, e));
    } else {
        assert(entry_rows(sel, e) =~= Seq::<RowView>::empty());
    }
}

proof fn lemma_all_rows_for(m: Map<TableSelector, Entries>, ts: Seq<TableSelector>, sel: TableSelector, mode: ScanMode, f: Option<Seq<char>>)
    requires
        ts.no_duplicates(),
    ensures
        rows_for(all_rows(m, ts, mode, f), sel) == (if ts.contains(sel) {
            rows_of(m, sel, mode, f)
        } else {
            Seq::<RowView>::empty()
        }),
    decreases ts.len(),
{
    if ts.len() == 0 {
        assert(rows_for(all_rows(m, ts, mode, f), sel) =~= Seq::<RowView>::empty());
    } else {
        let prev = ts.drop_last();
        let last = ts.last();
        assert(prev.no_duplicates());
        lemma_all_rows_for(m, prev, sel, mode, f);
        lemma_rows_for_concat(all_rows(m, prev, mode, f), rows_of(m, last, mode, f), sel);
        let b = rows_of(m, last, mode, f);
        lemma_table_rows_selector(last, m[last], mode, f);
        lemma_rows_for_uniform(b, sel, last);
        if last == sel {
            assert(!prev.contains(sel)) by {
                if prev.contains(sel) {
                    let j = choose|j: int| 0 <= j < prev.len() && prev[j] == sel;
                    assert(ts[j] == ts[ts.len() - 1]);
                }
            }
            assert(ts.contains(sel)) by {
                assert(ts[ts.len() - 1] == sel);
            }
            assert(Seq::<RowView>::empty() + b =~= b);
        } else {
            assert(prev.contains(sel) == ts.contains(sel)) by {
                if ts.contains(sel) {
                    let j = choose|j: int| 0 <= j < ts.len() && ts[j] == sel;
                    assert(prev[j] == sel);
                }
                if prev.contains(sel) {
                    let j = choose|j: int| 0 <= j < prev.len() && prev[j] == sel;
                    assert(ts[j] == sel);
                }
            }
            let a = rows_for(all_rows(m, prev, mode, f), sel);
            assert(a + Seq::<RowView>::empty() =~= a);
        }
    }
}

proof fn lemma_selected_members(keys: Seq<TableSelector>, q: Query)
    requires
        keys.no_duplicates(),
    ensures
        selected(keys, q).no_duplicates(),
        forall|sel: TableSelector| #[trigger] selected(keys, q).contains(sel) <==> keys.contains(sel) && targeted(q, sel),
    decreases keys.len(),
{
    if keys.len() > 0 {
        let prev = keys.drop_last();
        let last = keys.last();
        assert(prev.no_duplicates());
        lemma_selected_members(prev, q);
        let rest = selected(prev, q);
        assert forall|sel: TableSelector| #[trigger] keys.contains(sel) <==> prev.contains(sel) || sel == last by {
            if keys.contains(sel) {
                let j = choose|j: int| 0 <= j < keys.len() && keys[j] == sel;
                if j < prev.len() {
                    assert(prev[j] == sel);
                }
            }
            if prev.contains(sel) {
                let j = choose|j: int| 0 <= j < prev.len() && prev[j] == sel;
                assert(keys[j] == sel);
            }
            assert(keys[keys.len() - 1] == last);
        }
        assert(!prev.contains(last)) by {
            if prev.contains(last) {
                let j = choose|j: int| 0 <= j < prev.len() && prev[j] == last;
                assert(keys[j] == keys[keys.len() - 1]);
            }
        }
        if targeted(q, last) {
            let s2 = rest.push(last);
            assert forall|sel: TableSelector| #[trigger] s2.contains(sel) <==> rest.contains(sel) || sel == last by {
                if s2.contains(sel) {
                    let j = choose|j: int| 0 <= j < s2.len() && s2[j] == sel;
                    if j < rest.len() {
                        assert(rest[j] == sel);
                    }
                }
                if rest.contains(sel) {
                    let j = choose|j: int| 0 <= j < rest.len() && rest[j] == sel;
                    assert(s2[j] == sel);
                }
                assert(s2[s2.len() - 1] == last);
            }
            assert forall|i: int, j: int| 0 <= i < s2.len() && 0 <= j < s2.len() && i != j implies s2[i] != s2[j] by {
                if i < rest.len() && j < rest.len() {
                } else if i < rest.len() {
                    assert(rest.contains(s2[i]));
                } else if j < rest.len() {
                    assert(rest.contains(s2[j]));
                }
            }
        }
    }
}

/// With a router filter and no AS-path filter, an unrestricted scan yields,
/// for the loc-RIB table of that router, every entry of the table once, as
/// long as the table holds no more than `ROWS_PER_TABLE` entries.
pub proof fn law_loc_rib_complete(t: &InMemoryTable, q: Query, router: RouterId)
    requires
        t.wf(),
        q.table is None,
        q.router_id == Some(router),
        q.net_query is None,
        q.as_path_regex is None,
        t.tables().contains_key(TableSelector::LocRib { locrib_router_id: router }),
        t.tables()[TableSelector::LocRib { locrib_router_id: router }].len() <= crate::store::ROWS_PER_TABLE,
    ensures
        ({
            let sel = TableSelector::LocRib { locrib_router_id: router };
            let rows = rows_for(all_rows(t.tables(), target_list(t.selectors(), q), ScanMode::Full, None), sel);
            &&& rows == entry_rows(sel, t.tables()[sel])
            &&& rows.len() == t@[sel].dom().len()
            &&& forall|i: int| 0 <= i < rows.len() ==> {
                &&& t@[sel].contains_key((#[trigger] rows[i]).1)
                &&& t@[sel][rows[i].1] == rows[i].2
            }
        }),
{
    let sel = TableSelector::LocRib { locrib_router_id: router };
    let keys = t.selectors();
    let e = t.tables()[sel];
    assert(keys.no_duplicates()) by {
        assert forall|i: int, j: int| 0 <= i < keys.len() && 0 <= j < keys.len() && i != j implies keys[i] != keys[j] by {
            assert(keys[i] == t.slots()[i].0);
            assert(keys[j] == t.slots()[j].0);
        }
    }
    assert(keys.contains(sel)) by {
        let j = choose|j: int| 0 <= j < t.slots().len() && t.slots()[j].0 == sel;
        assert(keys[j] == sel);
    }
    lemma_selected_members(keys, q);
    let ts = target_list(keys, q);
    lemma_all_rows_for(t.tables(), ts, sel, ScanMode::Full, None);
    lemma_matching_unfiltered(sel, e);
    let rows = entry_rows(sel, e);
    assert(capped(matching_rows(sel, e, None)) == rows);
    crate::assoc::lemma_pairs_map_len(e);
    assert(t@[sel] == pairs_map(e));
    assert forall|i: int| 0 <= i < rows.len() implies {
        &&& t@[sel].contains_key((#[trigger] rows[i]).1)
        &&& t@[sel][rows[i].1] == rows[i].2
    } by {
        crate::assoc::lemma_pairs_map_at(e, i);
    }
}

} // verus!
