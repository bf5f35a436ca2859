//! Connections: undirected edges between two constructions, carrying a
//! signed energy-flow value in thousandths of an energy unit. The endpoint
//! pair is canonicalized (smaller id first), so the two construction orders
//! yield equal, interchangeable edges; a positive flow runs from the first
//! (smaller) endpoint to the second.

use vstd::prelude::*;

verus! {

/// The canonical form of an unordered endpoint pair: smaller id first.
pub open spec fn canonical_pair(a: u64, b: u64) -> (u64, u64) {
    if a < b {
        (a, b)
    } else {
        (b, a)
    }
}

/// An edge between two distinct constructions, stored in canonical order,
/// with its assigned energy flow in thousandths of an energy unit.
#[derive(Clone, Copy, Debug)]
pub struct Connection {
    between: (u64, u64),
    energy_flow: i64,
}

impl Connection {
    /// The endpoint pair, in the order it is stored.
    pub closed spec fn spec_between(&self) -> (u64, u64) {
        self.between
    }

    /// The assigned flow, in thousandths of an energy unit.
    pub closed spec fn spec_energy_flow(&self) -> i64 {
        self.energy_flow
    }

    /// Builds the canonical edge between two distinct constructions.
    /// A self-connection is a programming error and is ruled out here;
    /// `try_new_between` is the checked form.
    pub fn new_between(a: u64, b: u64) -> (c: Connection)
        requires
            a != b,
        ensures
            c.spec_between() == canonical_pair(a, b),
            c.spec_energy_flow() == 0,
    {
        let lo: u64 = if a < b { a } else { b };
        let hi: u64 = if a < b { b } else { a };
        Connection { between: (lo, hi), energy_flow: 0 }
    }

    /// Checked edge construction: fails exactly on a self-connection,
    /// otherwise yields the canonical edge with no flow assigned yet.
    pub fn try_new_between(a: u64, b: u64) -> (c: Option<Connection>)
        ensures
            c is None <==> a == b,
            c is Some ==> c->0.spec_between() == canonical_pair(a, b) && c->0.spec_energy_flow()
                == 0,
    {
        if a == b {
            None
        } else {
            Some(Connection::new_between(a, b))
        }
    }

    /// The endpoint pair: canonical for every connection built by
    /// `new_between` or `try_new_between`.
    pub fn between(&self) -> (pair: &(u64, u64))
        ensures
            *pair == self.spec_between(),
    {
        &self.between
    }

    /// The assigned flow, in thousandths of an energy unit.
    pub fn energy_flow(&self) -> (flow: i64)
        ensures
            flow == self.spec_energy_flow(),
    {
        self.energy_flow
    }

    /// Whether this connection has the given construction as an endpoint.
    pub fn connects_to(&self, id: u64) -> (r: bool)
        ensures
            r == (self.spec_between().0 == id || self.spec_between().1 == id),
    {
        self.between.0 == id || self.between.1 == id
    }

    /// Replaces the flow value, keeping the endpoints.
    pub fn set_energy_flow(&mut self, flow: i64)
        ensures
            final (self).spec_between() == old(self).spec_between(),
            final (self).spec_energy_flow() == flow,
    {
        self.energy_flow = flow;
    }
}

/// Canonicalization: the canonical pair of (a, b) and of (b, a) are one and
/// the same, so edges built from an unordered pair in either order carry
/// equal flow keys.
pub proof fn lemma_canonical_pair_symmetric(a: u64, b: u64)
    ensures
        canonical_pair(a, b) == canonical_pair(b, a),
{
}

} // verus!
