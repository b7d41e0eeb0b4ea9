//! Identities, prefixes, routes and queries.
use vstd::prelude::*;

verus! {

/// An IP address held as its integer value.
#[derive(PartialEq, Eq, Structural, Clone, Copy, Debug, Hash)]
pub enum IpAddress {
    V4(u32),
    V6(u128),
}

/// An IP network: address and mask length. Equality is exact.
#[derive(PartialEq, Eq, Structural, Clone, Copy, Debug, Hash)]
pub struct Prefix {
    pub addr: IpAddress,
    pub len: u8,
}

impl Prefix {
    /// The mask length fits the address family.
    pub open spec fn valid(self) -> bool {
        match self.addr {
            IpAddress::V4(_) => self.len <= 32,
            IpAddress::V6(_) => self.len <= 128,
        }
    }

    /// Builds a prefix when the mask length fits the address family.
    pub fn new(addr: IpAddress, len: u8) -> (r: Option<Prefix>)
        ensures
            r == (if (Prefix { addr, len }).valid() {
                Some(Prefix { addr, len })
            } else {
                None::<Prefix>
            }),
    {
        let ok = match addr {
            IpAddress::V4(_) => len <= 32,
            IpAddress::V6(_) => len <= 128,
        };
        if ok {
            Some(Prefix { addr, len })
        } else {
            None
        }
    }
}

/// A local router, identified by its IPv4 router id as an integer.
pub type RouterId = u32;

/// One peering session: the local router that terminates it and the peer's address.
#[derive(PartialEq, Eq, Structural, Clone, Copy, Debug, Hash)]
pub struct SessionId {
    pub local_router_id: RouterId,
    pub peer_address: IpAddress,
}

/// Names exactly one route table.
#[derive(PartialEq, Eq, Structural, Clone, Copy, Debug, Hash)]
pub enum TableSelector {
    PrePolicyAdjIn(SessionId),
    PostPolicyAdjIn(SessionId),
    LocRib { locrib_router_id: RouterId },
}

impl TableSelector {
    /// The local router that the table belongs to.
    pub open spec fn router_of(self) -> RouterId {
        match self {
            TableSelector::PrePolicyAdjIn(s) => s.local_router_id,
            TableSelector::PostPolicyAdjIn(s) => s.local_router_id,
            TableSelector::LocRib { locrib_router_id } => locrib_router_id,
        }
    }

    pub fn router(&self) -> (r: RouterId)
        ensures
            r == self.router_of(),
    {
        match self {
            TableSelector::PrePolicyAdjIn(s) => s.local_router_id,
            TableSelector::PostPolicyAdjIn(s) => s.local_router_id,
            TableSelector::LocRib { locrib_router_id } => *locrib_router_id,
        }
    }
}

/// The attributes of one route: its AS path, if any, and the remaining
/// protocol attributes, carried as opaque bytes.
#[derive(Clone, Debug, PartialEq, Eq)]
pub struct Route {
    pub as_path: Option<Vec<u32>>,
    pub attributes: Vec<u8>,
}

/// What a route holds, as mathematical values.
pub struct RouteView {
    pub as_path: Option<Seq<u32>>,
    pub attributes: Seq<u8>,
}

impl View for Route {
    type V = RouteView;

    open spec fn view(&self) -> RouteView {
        RouteView {
            as_path: match self.as_path {
                Some(p) => Some(p@),
                None => None,
            },
            attributes: self.attributes@,
        }
    }
}

pub fn copy_u32s(v: &Vec<u32>) -> (r: Vec<u32>)
    ensures
        r@ == v@,
{
    let mut r: Vec<u32> = Vec::with_capacity(v.len());
    let mut i: usize = 0;
    while i < v.len()
        invariant
            i <= v.len(),
            r@ == v@.take(i as int),
        decreases v.len() - i,
    {
        r.push(v[i]);
        i = i + 1;
        assert(r@ =~= v@.take(i as int));
    }
    assert(r@ =~= v@);
    r
}

pub fn copy_bytes(v: &Vec<u8>) -> (r: Vec<u8>)
    ensures
        r@ == v@,
{
    let mut r: Vec<u8> = Vec::with_capacity(v.len());
    let mut i: usize = 0;
    while i < v.len()
        invariant
            i <= v.len(),
            r@ == v@.take(i as int),
        decreases v.len() - i,
    {
        r.push(v[i]);
        i = i + 1;
        assert(r@ =~= v@.take(i as int));
    }
    assert(r@ =~= v@);
    r
}

impl Route {
    /// A copy with the same AS path and attributes.
    pub fn duplicate(&self) -> (r: Route)
        ensures
            r@ == self@,
    {
        let as_path = match &self.as_path {
            Some(p) => Some(copy_u32s(p)),
            None => None,
        };
        Route { as_path, attributes: copy_bytes(&self.attributes) }
    }
}

/// Relation of prefixes that a query asks for.
#[derive(PartialEq, Eq, Structural, Clone, Copy, Debug)]
pub enum NetQuery {
    /// The table's entry for exactly this prefix.
    Exact(Prefix),
    /// Entries for prefixes inside this one; not supported yet.
    MoreSpecifics(Prefix),
    /// Entries for prefixes that contain this one; not supported yet.
    LessSpecifics(Prefix),
}

/// A query over the store. Every part is optional.
#[derive(Clone, Debug)]
pub struct Query {
    /// Restrict to exactly this table.
    pub table: Option<TableSelector>,
    /// Restrict to the tables of this local router (ignored when `table` is set).
    pub router_id: Option<RouterId>,
    pub net_query: Option<NetQuery>,
    /// A regular expression over the AS path written in decimal, joined by spaces.
    pub as_path_regex: Option<String>,
}

/// Why a query was refused before any table was read.
#[derive(PartialEq, Eq, Structural, Clone, Copy, Debug)]
pub enum QueryError {
    InvalidAsPathPattern,
    UnsupportedQueryMode,
}

} // verus!
