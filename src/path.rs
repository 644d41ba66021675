//! AS paths, the business relationships between ASes, and valley-free
//! classification.

use vstd::prelude::*;

use crate::asset::ASN;
use crate::world::World;

verus! {

/// The business relation of one AS towards another, in increasing order.
#[derive(Debug, Clone, Copy, PartialEq, Eq, Structural)]
pub enum ASRelation {
    No,
    Consumes,
    Peers,
    Provides,
}

impl ASRelation {
    /// Position in the order `No < Consumes < Peers < Provides`.
    pub open spec fn rank(self) -> nat {
        match self {
            ASRelation::No => 0,
            ASRelation::Consumes => 1,
            ASRelation::Peers => 2,
            ASRelation::Provides => 3,
        }
    }

    pub fn level(&self) -> (r: u8)
        ensures
            r == self.rank(),
    {
        match self {
            ASRelation::No => 0,
            ASRelation::Consumes => 1,
            ASRelation::Peers => 2,
            ASRelation::Provides => 3,
        }
    }
}

/// One stored directed relation.
#[derive(Debug, Clone, Copy)]
pub struct Edge {
    pub from: ASN,
    pub to: ASN,
    pub relation: ASRelation,
}

/// The relation recorded last for the ordered pair `(a, b)`, or `No`.
pub open spec fn relation_in(edges: Seq<Edge>, a: ASN, b: ASN) -> ASRelation
    decreases edges.len(),
{
    if edges.len() == 0 {
        ASRelation::No
    } else if edges.last().from == a && edges.last().to == b {
        edges.last().relation
    } else {
        relation_in(edges.drop_last(), a, b)
    }
}

/// The directed relationship graph between ASes.
pub struct Relationships {
    edges: Vec<Edge>,
}

impl Relationships {
    /// The relation of `a` towards `b`; `No` where none is recorded.
    pub closed spec fn relation(&self, a: ASN, b: ASN) -> ASRelation {
        relation_in(self.edges@, a, b)
    }

    pub fn new() -> (r: Relationships)
        ensures
            forall|a: ASN, b: ASN| r.relation(a, b) == ASRelation::No,
    {
        Relationships { edges: Vec::new() }
    }

    /// Records one relationship line: code -1 means `a` provides to `b`,
    /// code 0 means the two peer, and any other code records nothing.
    pub fn add(&mut self, a: ASN, b: ASN, code: i64)
        ensures
            code == -1 ==> forall|x: ASN, y: ASN| #[trigger] final(self).relation(x, y) == if x == b && y == a {
                ASRelation::Consumes
            } else if x == a && y == b {
                ASRelation::Provides
            } else {
                old(self).relation(x, y)
            },
            code == 0 ==> forall|x: ASN, y: ASN| #[trigger] final(self).relation(x, y) == if (x == a && y == b) || (x == b && y == a) {
                ASRelation::Peers
            } else {
                old(self).relation(x, y)
            },
            code != -1 && code != 0 ==> forall|x: ASN, y: ASN| #[trigger] final(self).relation(x, y) == old(self).relation(x, y),
    {
        let ghost e0 = self.edges@;
        if code == -1 {
            self.edges.push(Edge { from: a, to: b, relation: ASRelation::Provides });
            self.edges.push(Edge { from: b, to: a, relation: ASRelation::Consumes });
            proof {
                assert forall|x: ASN, y: ASN| #[trigger] self.relation(x, y) == if x == b && y == a {
                    ASRelation::Consumes
                } else if x == a && y == b {
                    ASRelation::Provides
                } else {
                    relation_in(e0, x, y)
                } by {
                    reveal_with_fuel(relation_in, 3);
                    assert(self.edges@.drop_last().drop_last() =~= e0);
                }
            }
        } else if code == 0 {
            self.edges.push(Edge { from: a, to: b, relation: ASRelation::Peers });
            self.edges.push(Edge { from: b, to: a, relation: ASRelation::Peers });
            proof {
                assert forall|x: ASN, y: ASN| #[trigger] self.relation(x, y) == if (x == a && y == b) || (x == b && y == a) {
                    ASRelation::Peers
                } else {
                    relation_in(e0, x, y)
                } by {
                    reveal_with_fuel(relation_in, 3);
                    assert(self.edges@.drop_last().drop_last() =~= e0);
                }
            }
        }
    }

    /// The relation of `a` towards `b`.
    pub fn get(&self, a: ASN, b: ASN) -> (r: ASRelation)
        ensures
            r == self.relation(a, b),
    {
        let mut i: usize = self.edges.len();
        assert(self.edges@.subrange(0, i as int) =~= self.edges@);
        while i > 0
            invariant
                i <= self.edges.len(),
                relation_in(self.edges@, a, b) == relation_in(self.edges@.subrange(0, i as int), a, b),
            decreases i,
        {
            let e = self.edges[i - 1];
            assert(self.edges@.subrange(0, i as int).drop_last() =~= self.edges@.subrange(0, i - 1));
            if e.from == a && e.to == b {
                return e.relation;
            }
            i = i - 1;
        }
        ASRelation::No
    }
}

/// The relation met at hop `k` of `p`, from `p[k]` towards `p[k + 1]`.
pub open spec fn step(rels: &Relationships, p: Seq<ASN>, k: int) -> ASRelation {
    rels.relation(p[k], p[k + 1])
}

/// Hop `k` has a recorded relation, not below the one of the hop before.
pub open spec fn good_step(rels: &Relationships, p: Seq<ASN>, k: int) -> bool {
    step(rels, p, k) != ASRelation::No && (k > 0 ==> step(rels, p, k - 1).rank() <= step(
        rels,
        p,
        k,
    ).rank())
}

/// Every hop has a recorded relation, and the relations never decrease
/// along the path.
pub open spec fn valley_free(rels: &Relationships, p: Seq<ASN>) -> bool {
    forall|k: int| 0 <= k < p.len() - 1 ==> #[trigger] good_step(rels, p, k)
}

/// A path whose every hop has a recorded relation, with the relations never
/// decreasing along it, is valley-free.
pub proof fn lemma_monotone_accepted(rels: &Relationships, p: Seq<ASN>)
    requires
        forall|k: int| 0 <= k < p.len() - 1 ==> #[trigger] step(rels, p, k) != ASRelation::No,
        forall|k: int| 0 < k < p.len() - 1 ==> step(rels, p, k - 1).rank() <= #[trigger] step(rels, p, k).rank(),
    ensures
        valley_free(rels, p),
{
    assert forall|k: int| 0 <= k < p.len() - 1 implies #[trigger] good_step(rels, p, k) by {
        assert(step(rels, p, k) != ASRelation::No);
    }
}

/// A path with a hop whose relation is below the one of the hop before is
/// not valley-free.
pub proof fn lemma_decrease_rejected(rels: &Relationships, p: Seq<ASN>, k: int)
    requires
        0 < k < p.len() - 1,
        step(rels, p, k).rank() < step(rels, p, k - 1).rank(),
    ensures
        !valley_free(rels, p),
{
    assert(!good_step(rels, p, k));
}

/// An AS path: the ASes that a route crosses, in order.
#[derive(Debug)]
pub struct Path {
    pub path: Vec<ASN>,
}

impl View for Path {
    type V = Seq<ASN>;

    open spec fn view(&self) -> Seq<ASN> {
        self.path@
    }
}

impl Path {
    /// The path without hops.
    pub fn new() -> (r: Path)
        ensures
            r@ == Seq::<ASN>::empty(),
    {
        Path { path: Vec::new() }
    }

    /// A path over the given hops.
    pub fn from_hops(hops: Vec<ASN>) -> (r: Path)
        ensures
            r@ == hops@,
    {
        Path { path: hops }
    }

    /// The hops of the path.
    pub fn hops(&self) -> (r: &Vec<ASN>)
        ensures
            r@ == self@,
    {
        &self.path
    }

    /// A copy of the path.
    pub fn duplicate(&self) -> (r: Path)
        ensures
            r@ == self@,
    {
        Path { path: self.path.clone() }
    }

    /// `asn` followed by the hops of `path`.
    pub fn prepend(path: &Path, asn: &ASN) -> (r: Path)
        ensures
            r@ == seq![*asn] + path@,
    {
        let mut new_path: Vec<ASN> = Vec::new();
        new_path.push(*asn);
        let mut i: usize = 0;
        while i < path.path.len()
            invariant
                i <= path.path.len(),
                new_path@ == seq![*asn] + path@.subrange(0, i as int),
            decreases path.path.len() - i,
        {
            new_path.push(path.path[i]);
            i = i + 1;
            assert(new_path@ =~= seq![*asn] + path@.subrange(0, i as int));
        }
        assert(path@.subrange(0, i as int) =~= path@);
        Path { path: new_path }
    }

    /// Whether the path is valley-free under the relationships of `world`.
    pub fn valleyless(&self, world: &World) -> (r: bool)
        ensures
            r == valley_free(&world.rels(), self@),
    {
        let rels = world.relationships();
        let n = self.path.len();
        if n < 2 {
            return true;
        }
        let mut state: u8 = 0;
        let mut i: usize = 0;
        while i < n - 1
            invariant
                *rels == world.rels(),
                n == self@.len(),
                n >= 2,
                i <= n - 1,
                forall|k: int| 0 <= k < i ==> #[trigger] good_step(rels, self@, k),
                i > 0 ==> state == step(rels, self@, i - 1).rank(),
                i == 0 ==> state == 0,
            decreases n - 1 - i,
        {
            let next = rels.get(self.path[i], self.path[i + 1]);
            let lvl = next.level();
            if lvl == 0 || lvl < state {
                assert(!good_step(rels, self@, i as int));
                return false;
            }
            state = lvl;
            i = i + 1;
        }
        true
    }
}

} // verus!
