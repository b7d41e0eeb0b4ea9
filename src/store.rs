//! The partitioned store: one route table per selector, created on first use.
use vstd::prelude::*;
use crate::aspath::{filter_pattern, passes, route_passes, AsPathFilter};
use crate::assoc::{has_key, keys_unique, pairs_map, lemma_pairs_map_at, lemma_pairs_map_push,
    lemma_pairs_map_update, lemma_pairs_map_remove};
use crate::table::RouteTable;
use crate::types::{NetQuery, Prefix, Query, QueryError, Route, RouteView, RouterId, SessionId,
    TableSelector};

verus! {

/// Most rows that an unrestricted scan takes from one table.
pub const ROWS_PER_TABLE: usize = 200;

/// A route table as its entries, in scan order.
pub type Entries = Seq<(Prefix, RouteView)>;

/// The whole store as a map from selector to table contents.
pub type StoreView = Map<TableSelector, Map<Prefix, RouteView>>;

/// One result row: the table, the prefix and its route.
pub type Row = (TableSelector, Prefix, Route);

pub type RowView = (TableSelector, Prefix, RouteView);

pub open spec fn rows_view(rows: Seq<Row>) -> Seq<RowView> {
    rows.map_values(|r: Row| (r.0, r.1, r.2@))
}

/// The contents of a table; a table that does not exist reads as empty.
pub open spec fn table_of(v: StoreView, sel: TableSelector) -> Map<Prefix, RouteView> {
    if v.contains_key(sel) {
        v[sel]
    } else {
        Map::empty()
    }
}

/// The store after `update_route(net, sel, r)`.
pub open spec fn after_update(v: StoreView, net: Prefix, sel: TableSelector, r: RouteView) -> StoreView {
    v.insert(sel, table_of(v, sel).insert(net, r))
}

/// The store after `withdraw_route(net, sel)`.
pub open spec fn after_withdraw(v: StoreView, net: Prefix, sel: TableSelector) -> StoreView {
    v.insert(sel, table_of(v, sel).remove(net))
}

/// The tables after a table for `sel` has been made to exist.
pub open spec fn materialized(m: Map<TableSelector, Entries>, sel: TableSelector) -> Map<TableSelector, Entries> {
    if m.contains_key(sel) {
        m
    } else {
        m.insert(sel, Seq::empty())
    }
}

/// The tables after the teardown of one session.
pub open spec fn peer_cleared(m: Map<TableSelector, Entries>, session: SessionId) -> Map<TableSelector, Entries> {
    m.remove(TableSelector::PrePolicyAdjIn(session)).remove(TableSelector::PostPolicyAdjIn(session))
}

/// The tables after the teardown of one router.
pub open spec fn router_cleared(m: Map<TableSelector, Entries>, router: RouterId) -> Map<TableSelector, Entries> {
    Map::new(|sel: TableSelector| m.contains_key(sel) && sel.router_of() != router, |sel: TableSelector| m[sel])
}

/// How the rows of one table are found.
#[derive(PartialEq, Eq, Structural, Clone, Copy, Debug)]
pub enum ScanMode {
    /// A point lookup of one prefix.
    Exact(Prefix),
    /// A filtered pass over the whole table, capped per table.
    Full,
}

/// The scan mode a query asks for; `None` for a mode that is not supported.
pub open spec fn scan_mode(q: Query) -> Option<ScanMode> {
    match q.net_query {
        None => Some(ScanMode::Full),
        Some(NetQuery::Exact(p)) => Some(ScanMode::Exact(p)),
        Some(_) => None,
    }
}

/// The AS-path pattern of a query.
pub open spec fn query_filter(q: Query) -> Option<Seq<char>> {
    match q.as_path_regex {
        Some(s) => Some(s@),
        None => None,
    }
}

/// The query's AS-path pattern, if any, compiles.
pub open spec fn filter_compiles(q: Query) -> bool {
    match query_filter(q) {
        Some(p) => crate::aspath::pattern_compiles(p),
        None => true,
    }
}

/// Whether a table is among those a query reads.
pub open spec fn targeted(q: Query, sel: TableSelector) -> bool {
    match q.table {
        Some(t) => sel == t,
        None => match q.router_id {
            Some(r) => sel.router_of() == r,
            None => true,
        },
    }
}

/// The selectors among `keys` that a query reads, in order.
pub open spec fn selected(keys: Seq<TableSelector>, q: Query) -> Seq<TableSelector>
    decreases keys.len(),
{
    if keys.len() == 0 {
        Seq::empty()
    } else {
        let rest = selected(keys.drop_last(), q);
        if targeted(q, keys.last()) {
            rest.push(keys.last())
        } else {
            rest
        }
    }
}

/// The tables a query reads: the one it names, else those of `keys` that it selects.
pub open spec fn target_list(keys: Seq<TableSelector>, q: Query) -> Seq<TableSelector> {
    match q.table {
        Some(t) => seq![t],
        None => selected(keys, q),
    }
}

/// The entries of a table that pass a filter, in scan order, as rows.
pub open spec fn matching_rows(sel: TableSelector, e: Entries, f: Option<Seq<char>>) -> Seq<RowView>
    decreases e.len(),
{
    if e.len() == 0 {
        Seq::empty()
    } else {
        let rest = matching_rows(sel, e.drop_last(), f);
        if route_passes(f, e.last().1) {
            rest.push((sel, e.last().0, e.last().1))
        } else {
            rest
        }
    }
}

/// At most the first `ROWS_PER_TABLE` rows.
pub open spec fn capped(rows: Seq<RowView>) -> Seq<RowView> {
    if rows.len() <= ROWS_PER_TABLE {
        rows
    } else {
        rows.take(ROWS_PER_TABLE as int)
    }
}

/// The row for one prefix, if the table holds it and its route passes.
pub open spec fn exact_rows(sel: TableSelector, e: Entries, p: Prefix, f: Option<Seq<char>>) -> Seq<RowView> {
    if pairs_map(e).contains_key(p) && route_passes(f, pairs_map(e)[p]) {
        seq![(sel, p, pairs_map(e)[p])]
    } else {
        Seq::empty()
    }
}

/// The rows that one table yields.
pub open spec fn table_rows(sel: TableSelector, e: Entries, mode: ScanMode, f: Option<Seq<char>>) -> Seq<RowView> {
    match mode {
        ScanMode::Exact(p) => exact_rows(sel, e, p, f),
        ScanMode::Full => capped(matching_rows(sel, e, f)),
    }
}

/// The rows that the table for `sel` yields; none where there is no such table.
pub open spec fn rows_of(m: Map<TableSelector, Entries>, sel: TableSelector, mode: ScanMode, f: Option<Seq<char>>) -> Seq<RowView> {
    if m.contains_key(sel) {
        table_rows(sel, m[sel], mode, f)
    } else {
        Seq::empty()
    }
}

/// The rows of all targets, target after target.
pub open spec fn all_rows(m: Map<TableSelector, Entries>, targets: Seq<TableSelector>, mode: ScanMode, f: Option<Seq<char>>) -> Seq<RowView>
    decreases targets.len(),
{
    if targets.len() == 0 {
        Seq::empty()
    } else {
        all_rows(m, targets.drop_last(), mode, f) + rows_of(m, targets.last(), mode, f)
    }
}

/// A query resolved into the tables to read and how to read each.
pub struct QueryPlan {
    pub targets: Vec<TableSelector>,
    pub mode: ScanMode,
    pub filter: Option<AsPathFilter>,
}

/// The store: pre-policy, post-policy and loc-RIB tables, each under its selector.
pub struct InMemoryTable {
    tables: Vec<(TableSelector, RouteTable)>,
}

impl View for InMemoryTable {
    type V = StoreView;

    open spec fn view(&self) -> StoreView {
        self.tables().map_values(|e: Entries| pairs_map(e))
    }
}

impl InMemoryTable {
    /// The tables with their selectors, in the order in which queries visit them.
    pub closed spec fn slots(&self) -> Seq<(TableSelector, Entries)> {
        self.tables@.map_values(|x: (TableSelector, RouteTable)| (x.0, x.1.entries()))
    }

    /// The selectors of the existing tables, in visiting order.
    pub open spec fn selectors(&self) -> Seq<TableSelector> {
        self.slots().map_values(|x: (TableSelector, Entries)| x.0)
    }

    /// Each existing table's entries, by selector.
    pub open spec fn tables(&self) -> Map<TableSelector, Entries> {
        pairs_map(self.slots())
    }

    /// Selectors are distinct and each table holds one route per prefix.
    pub open spec fn wf(&self) -> bool {
        &&& keys_unique(self.slots())
        &&& forall|sel: TableSelector| #[trigger] self.tables().contains_key(sel) ==> keys_unique(self.tables()[sel])
    }

    closed spec fn tables_wf(&self) -> bool {
        forall|i: int| 0 <= i < self.tables@.len() ==> (#[trigger] self.tables@[i]).1.wf()
    }

    proof fn lemma_wf(&self)
        requires
            keys_unique(self.slots()),
            self.tables_wf(),
        ensures
            self.wf(),
    {
        assert forall|sel: TableSelector| #[trigger] self.tables().contains_key(sel) implies keys_unique(self.tables()[sel]) by {
            let i = choose|i: int| 0 <= i < self.slots().len() && self.slots()[i].0 == sel;
            lemma_pairs_map_at(self.slots(), i);
            assert(self.tables@[i].1.wf());
        }
    }

    proof fn lemma_tables_wf(&self)
        requires
            self.wf(),
        ensures
            self.tables_wf(),
    {
        assert forall|i: int| 0 <= i < self.tables@.len() implies (#[trigger] self.tables@[i]).1.wf() by {
            lemma_pairs_map_at(self.slots(), i);
            assert(self.tables().contains_key(self.slots()[i].0));
        }
    }

    /// An empty store.
    pub fn new() -> (r: InMemoryTable)
        ensures
            r.wf(),
            r.tables() == Map::<TableSelector, Entries>::empty(),
            r@ == StoreView::empty(),
    {
        let r = InMemoryTable { tables: Vec::new() };
        assert(r.slots() =~= Seq::<(TableSelector, Entries)>::empty());
        assert(r.tables() =~= Map::<TableSelector, Entries>::empty());
        assert(r@ =~= StoreView::empty());
        r
    }

    /// The position of the table for `sel`, if it exists.
    fn find(&self, sel: &TableSelector) -> (r: Option<usize>)
        requires
            self.wf(),
        ensures
            r is None <==> !self.tables().contains_key(*sel),
            r matches Some(i) ==> i < self.slots().len() && self.slots()[i as int].0 == *sel,
    {
        let mut i: usize = 0;
        while i < self.tables.len()
            invariant
                i <= self.tables@.len(),
                forall|j: int| 0 <= j < i ==> self.slots()[j].0 != *sel,
            decreases self.tables@.len() - i,
        {
            if self.tables[i].0 == *sel {
                return Some(i);
            }
            i = i + 1;
        }
        proof {
            if has_key(self.slots(), *sel) {
                let j = choose|j: int| 0 <= j < self.slots().len() && self.slots()[j].0 == *sel;
                assert(false);
            }
        }
        None
    }

    /// The position of the table for `sel`, created empty if absent.
    fn resolve(&mut self, sel: &TableSelector) -> (i: usize)
        requires
            old(self).wf(),
        ensures
            final(self).wf(),
            i < final(self).slots().len(),
            final(self).slots()[i as int].0 == *sel,
            final(self).tables() == materialized(old(self).tables(), *sel),
            final(self).selectors() == (if old(self).tables().contains_key(*sel) {
                old(self).selectors()
            } else {
                old(self).selectors().push(*sel)
            }),
    {
        match self.find(sel) {
            Some(i) => i,
            None => {
                proof {
                    self.lemma_tables_wf();
                    lemma_pairs_map_push(self.slots(), *sel, Seq::<(Prefix, RouteView)>::empty());
                }
                let t = RouteTable::new();
                self.tables.push((*sel, t));
                assert(self.slots() =~= old(self).slots().push((*sel, Seq::<(Prefix, RouteView)>::empty())));
                assert(self.selectors() =~= old(self).selectors().push(*sel));
                proof {
                    assert(self.tables_wf());
                    self.lemma_wf();
                }
                self.tables.len() - 1
            },
        }
    }

    /// Inserts or replaces the route for `net` in the table for `table`.
    pub fn update_route(&mut self, net: Prefix, table: TableSelector, route: Route)
        requires
            old(self).wf(),
        ensures
            final(self).wf(),
            final(self)@ == after_update(old(self)@, net, table, route@),
            forall|s: TableSelector| s != table ==> #[trigger] final(self).tables().contains_key(s) == old(self).tables().contains_key(s),
            forall|s: TableSelector| s != table && old(self).tables().contains_key(s) ==> #[trigger] final(self).tables()[s] == old(self).tables()[s],
    {
        let ghost rv = route@;
        let i = self.resolve(&table);
        proof {
            self.lemma_tables_wf();
        }
        let ghost mid = *self;
        self.tables[i].1.insert(net, route);
        proof {
            lemma_pairs_map_update(mid.slots(), i as int, self.tables@[i as int].1.entries());
            assert(self.slots() =~= mid.slots().update(i as int, (table, self.tables@[i as int].1.entries())));
            assert(self.tables_wf());
            self.lemma_wf();
            lemma_pairs_map_at(mid.slots(), i as int);
            assert(pairs_map(Seq::<(Prefix, RouteView)>::empty()) =~= Map::<Prefix, RouteView>::empty());
            assert(self@ =~= after_update(old(self)@, net, table, rv));
        }
    }

    /// Removes the route for `net` from the table for `table`; absent is no error.
    pub fn withdraw_route(&mut self, net: Prefix, table: TableSelector)
        requires
            old(self).wf(),
        ensures
            final(self).wf(),
            final(self)@ == after_withdraw(old(self)@, net, table),
            forall|s: TableSelector| s != table ==> #[trigger] final(self).tables().contains_key(s) == old(self).tables().contains_key(s),
            forall|s: TableSelector| s != table && old(self).tables().contains_key(s) ==> #[trigger] final(self).tables()[s] == old(self).tables()[s],
    {
        let i = self.resolve(&table);
        proof {
            self.lemma_tables_wf();
        }
        let ghost mid = *self;
        self.tables[i].1.remove(&net);
        proof {
            lemma_pairs_map_update(mid.slots(), i as int, self.tables@[i as int].1.entries());
            assert(self.slots() =~= mid.slots().update(i as int, (table, self.tables@[i as int].1.entries())));
            assert(self.tables_wf());
            self.lemma_wf();
            lemma_pairs_map_at(mid.slots(), i as int);
            assert(pairs_map(Seq::<(Prefix, RouteView)>::empty()) =~= Map::<Prefix, RouteView>::empty());
            assert(self@ =~= after_withdraw(old(self)@, net, table));
        }
    }

    /// Drops the table for `sel`, if it exists.
    fn drop_table(&mut self, sel: &TableSelector)
        requires
            old(self).wf(),
        ensures
            final(self).wf(),
            final(self).tables() == old(self).tables().remove(*sel),
    {
        match self.find(sel) {
            None => {
                assert(self.tables() =~= old(self).tables().remove(*sel));
            },
            Some(i) => {
                proof {
                    self.lemma_tables_wf();
                    lemma_pairs_map_remove(self.slots(), i as int);
                }
                self.tables.remove(i);
                assert(self.slots() =~= old(self).slots().remove(i as int));
                proof {
                    assert forall|j: int| 0 <= j < self.tables@.len() implies (#[trigger] self.tables@[j]).1.wf() by {
                        if j >= i {
                            assert(self.tables@[j] == old(self).tables@[j + 1]);
                        }
                    }
                    self.lemma_wf();
                }
            },
        }
    }

    /// Removes the pre- and post-policy tables of one session.
    pub fn clear_peer_table(&mut self, session: SessionId)
        requires
            old(self).wf(),
        ensures
            final(self).wf(),
            final(self).tables() == peer_cleared(old(self).tables(), session),
    {
        self.drop_table(&TableSelector::PrePolicyAdjIn(session));
        self.drop_table(&TableSelector::PostPolicyAdjIn(session));
    }

    /// Removes the loc-RIB table of `router` and every session table of that router.
    pub fn clear_router_table(&mut self, router: RouterId)
        requires
            old(self).wf(),
        ensures
            final(self).wf(),
            final(self).tables() == router_cleared(old(self).tables(), router),
    {
        let mut i: usize = 0;
        while i < self.tables.len()
            invariant
                i <= self.tables@.len(),
                self.wf(),
                forall|j: int| 0 <= j < i ==> (#[trigger] self.slots()[j]).0.router_of() != router,
                forall|s: TableSelector| #[trigger] self.tables().contains_key(s) ==>
                    old(self).tables().contains_key(s) && self.tables()[s] == old(self).tables()[s],
                forall|s: TableSelector| #[trigger] old(self).tables().contains_key(s) && s.router_of() != router ==>
                    self.tables().contains_key(s),
            decreases self.tables@.len() - i,
        {
            if self.tables[i].0.router() == router {
                let ghost before = *self;
                proof {
                    before.lemma_tables_wf();
                    lemma_pairs_map_remove(before.slots(), i as int);
                }
                self.tables.remove(i);
                assert(self.slots() =~= before.slots().remove(i as int));
                proof {
                    assert forall|j: int| 0 <= j < self.tables@.len() implies (#[trigger] self.tables@[j]).1.wf() by {
                        if j >= i {
                            assert(self.tables@[j] == before.tables@[j + 1]);
                        } else {
                            assert(self.tables@[j] == before.tables@[j]);
                        }
                    }
                    self.lemma_wf();
                    assert forall|s: TableSelector| #[trigger] self.tables().contains_key(s) implies
                        old(self).tables().contains_key(s) && self.tables()[s] == old(self).tables()[s] by {
                        assert(before.tables().contains_key(s));
                    }
                    assert forall|j: int| 0 <= j < i implies (#[trigger] self.slots()[j]).0.router_of() != router by {
                        assert(self.slots()[j] == before.slots()[j]);
                    }
                }
            } else {
                i = i + 1;
            }
        }
        proof {
            assert forall|s: TableSelector| #[trigger] self.tables().contains_key(s) implies s.router_of() != router by {
                let j = choose|j: int| 0 <= j < self.slots().len() && self.slots()[j].0 == s;
            }
            assert(self.tables() =~= router_cleared(old(self).tables(), router));
        }
    }
}


/// The tables after a query has been planned: a table that the query names exists.
pub open spec fn after_plan(m: Map<TableSelector, Entries>, q: Query) -> Map<TableSelector, Entries> {
    match q.table {
        Some(t) => materialized(m, t),
        None => m,
    }
}

/// Whether a query can be planned: its pattern compiles and its mode is supported.
pub open spec fn plannable(q: Query) -> bool {
    filter_compiles(q) && scan_mode(q) is Some
}

fn is_targeted(q: &Query, sel: &TableSelector) -> (r: bool)
    ensures
        r == targeted(*q, *sel),
{
    match &q.table {
        Some(t) => *sel == *t,
        None => match q.router_id {
            Some(r) => sel.router() == r,
            None => true,
        },
    }
}

proof fn lemma_rows_view_push(rows: Seq<Row>, row: Row)
    ensures
        rows_view(rows.push(row)) == rows_view(rows).push((row.0, row.1, row.2@)),
{
    assert(rows_view(rows.push(row)) =~= rows_view(rows).push((row.0, row.1, row.2@)));
}

/// The matching rows of a shorter part of a table begin those of a longer part.
proof fn lemma_matching_prefix(sel: TableSelector, e: Entries, f: Option<Seq<char>>, i: int, j: int)
    requires
        0 <= i <= j <= e.len(),
    ensures
        matching_rows(sel, e.take(i), f).len() <= matching_rows(sel, e.take(j), f).len(),
        matching_rows(sel, e.take(j), f).take(matching_rows(sel, e.take(i), f).len() as int)
            == matching_rows(sel, e.take(i), f),
    decreases j - i,
{
    let a = matching_rows(sel, e.take(i), f);
    if j > i {
        lemma_matching_prefix(sel, e, f, i, j - 1);
        assert(e.take(j).drop_last() =~= e.take(j - 1));
        let c = matching_rows(sel, e.take(j), f);
        assert(c.take(a.len() as int) =~= a);
    } else {
        assert(a.take(a.len() as int) =~= a);
    }
}

/// The rows of one table's full pass: matching entries in scan order, capped.
/// The pass stops as soon as the cap is reached.
fn full_scan(sel: &TableSelector, t: &RouteTable, filter: &Option<AsPathFilter>) -> (out: Vec<Row>)
    ensures
        rows_view(out@) == capped(matching_rows(*sel, t.entries(), filter_pattern(*filter))),
{
    let ghost f = filter_pattern(*filter);
    let ghost e = t.entries();
    let mut out: Vec<Row> = Vec::new();
    let mut i: usize = 0;
    assert(rows_view(out@) =~= capped(matching_rows(*sel, e.take(0), f)));
    while i < t.len() && out.len() < ROWS_PER_TABLE
        invariant
            i <= e.len(),
            e == t.entries(),
            f == filter_pattern(*filter),
            rows_view(out@) == capped(matching_rows(*sel, e.take(i as int), f)),
        decreases e.len() - i,
    {
        let ghost before = out@;
        let (net, route) = t.entry_at(i);
        if passes(filter, route) {
            out.push((*sel, *net, route.duplicate()));
        }
        proof {
            let e2 = e.take(i as int + 1);
            assert(e2.drop_last() =~= e.take(i as int));
            assert(e2.last() == e[i as int]);
            if route_passes(f, e2.last().1) {
                lemma_rows_view_push(before, out@.last());
                assert(out@ == before.push(out@.last()));
            }
        }
        i = i + 1;
    }
    proof {
        assert(e.take(e.len() as int) =~= e);
        if i < e.len() {
            let a = matching_rows(*sel, e.take(i as int), f);
            let c = matching_rows(*sel, e, f);
            lemma_matching_prefix(*sel, e, f, i as int, e.len() as int);
            assert(c.take(ROWS_PER_TABLE as int) =~= a.take(ROWS_PER_TABLE as int));
        }
    }
    out
}

/// The row of one table for one prefix, if the table holds it and its route passes.
fn exact_scan(sel: &TableSelector, t: &RouteTable, net: &Prefix, filter: &Option<AsPathFilter>) -> (out: Vec<Row>)
    requires
        t.wf(),
    ensures
        rows_view(out@) == exact_rows(*sel, t.entries(), *net, filter_pattern(*filter)),
{
    let mut out: Vec<Row> = Vec::new();
    match t.get(net) {
        None => {
            assert(rows_view(out@) =~= Seq::<RowView>::empty());
        },
        Some(route) => {
            if passes(filter, route) {
                out.push((*sel, *net, route.duplicate()));
                assert(rows_view(out@) =~= seq![(*sel, *net, route@)]);
            } else {
                assert(rows_view(out@) =~= Seq::<RowView>::empty());
            }
        },
    }
    out
}

impl InMemoryTable {
    /// The selectors of the existing tables that a query selects, in visiting order.
    fn select(&self, q: &Query) -> (r: Vec<TableSelector>)
        ensures
            r@ == selected(self.selectors(), *q),
    {
        let ghost keys = self.selectors();
        let mut r: Vec<TableSelector> = Vec::new();
        let mut i: usize = 0;
        assert(keys.take(0) =~= Seq::<TableSelector>::empty());
        while i < self.tables.len()
            invariant
                i <= self.tables@.len(),
                keys == self.selectors(),
                keys.len() == self.tables@.len(),
                r@ == selected(keys.take(i as int), *q),
            decreases self.tables@.len() - i,
        {
            let sel = self.tables[i].0;
            assert(keys.take(i as int + 1).drop_last() =~= keys.take(i as int));
            assert(keys[i as int] == sel);
            if is_targeted(q, &sel) {
                r.push(sel);
            }
            i = i + 1;
        }
        assert(keys.take(keys.len() as int) =~= keys);
        r
    }

    /// Resolves a query into targets, a scan mode and a compiled AS-path filter.
    /// A table that the query names is created if absent. A pattern that does
    /// not compile, or an unsupported mode, is refused before anything changes.
    pub fn plan(&mut self, query: &Query) -> (r: Result<QueryPlan, QueryError>)
        requires
            old(self).wf(),
        ensures
            final(self).wf(),
            r matches Err(e) ==> e == (if !filter_compiles(*query) {
                QueryError::InvalidAsPathPattern
            } else {
                QueryError::UnsupportedQueryMode
            }),
            r is Ok <==> plannable(*query),
            r is Err ==> final(self).tables() == old(self).tables(),
            r matches Ok(p) ==> {
                &&& Some(p.mode) == scan_mode(*query)
                &&& filter_pattern(p.filter) == query_filter(*query)
                &&& final(self).tables() == after_plan(old(self).tables(), *query)
                &&& p.targets@ == target_list(final(self).selectors(), *query)
            },
    {
        let filter = match &query.as_path_regex {
            None => None,
            Some(p) => match AsPathFilter::new(p) {
                Ok(f) => Some(f),
                Err(e) => {
                    return Err(e);
                },
            },
        };
        let mode = match &query.net_query {
            None => ScanMode::Full,
            Some(NetQuery::Exact(p)) => ScanMode::Exact(*p),
            Some(_) => {
                return Err(QueryError::UnsupportedQueryMode);
            },
        };
        let targets = match &query.table {
            Some(t) => {
                self.resolve(t);
                let mut v: Vec<TableSelector> = Vec::new();
                v.push(*t);
                assert(v@ =~= seq![*t]);
                v
            },
            None => self.select(query),
        };
        Ok(QueryPlan { targets, mode, filter })
    }

    /// The rows that the table for `sel` yields under a plan; none if it does not exist.
    pub fn scan_table(&self, plan: &QueryPlan, sel: &TableSelector) -> (rows: Vec<Row>)
        requires
            self.wf(),
        ensures
            rows_view(rows@) == rows_of(self.tables(), *sel, plan.mode, filter_pattern(plan.filter)),
    {
        match self.find(sel) {
            None => Vec::new(),
            Some(i) => {
                proof {
                    self.lemma_tables_wf();
                    lemma_pairs_map_at(self.slots(), i as int);
                }
                let t = &self.tables[i].1;
                match plan.mode {
                    ScanMode::Exact(net) => exact_scan(sel, t, &net, &plan.filter),
                    ScanMode::Full => full_scan(sel, t, &plan.filter),
                }
            },
        }
    }

    /// Answers a query: the rows of every target table, target after target.
    pub fn get_routes(&mut self, query: &Query) -> (r: Result<Vec<Row>, QueryError>)
        requires
            old(self).wf(),
        ensures
            final(self).wf(),
            r matches Err(e) ==> e == (if !filter_compiles(*query) {
                QueryError::InvalidAsPathPattern
            } else {
                QueryError::UnsupportedQueryMode
            }),
            r is Ok <==> plannable(*query),
            r is Err ==> final(self).tables() == old(self).tables(),
            r matches Ok(rows) ==> {
                &&& final(self).tables() == after_plan(old(self).tables(), *query)
                &&& rows_view(rows@) == all_rows(
                    final(self).tables(),
                    target_list(final(self).selectors(), *query),
                    scan_mode(*query).unwrap(),
                    query_filter(*query),
                )
            },
    {
        let plan = match self.plan(query) {
            Ok(p) => p,
            Err(e) => {
                return Err(e);
            },
        };
        let ghost m = self.tables();
        let ghost ts = plan.targets@;
        let ghost f = filter_pattern(plan.filter);
        let mut out: Vec<Row> = Vec::new();
        let mut k: usize = 0;
        assert(rows_view(out@) =~= all_rows(m, ts.take(0), plan.mode, f));
        while k < plan.targets.len()
            invariant
                self.wf(),
                m == self.tables(),
                ts == plan.targets@,
                f == filter_pattern(plan.filter),
                k <= ts.len(),
                rows_view(out@) == all_rows(m, ts.take(k as int), plan.mode, f),
            decreases ts.len() - k,
        {
            let mut rows = self.scan_table(&plan, &plan.targets[k]);
            let ghost a = out@;
            let ghost b = rows@;
            out.append(&mut rows);
            assert(rows_view(out@) =~= rows_view(a) + rows_view(b));
            assert(ts.take(k as int + 1).drop_last() =~= ts.take(k as int));
            k = k + 1;
        }
        assert(ts.take(ts.len() as int) =~= ts);
        Ok(out)
    }
}

} // verus!
