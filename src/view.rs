//! One analytical view: the ASes that the paths of its vantages cross, per
//! destination prefix, and two dissimilarity measures between views.

use std::rc::Rc;

use vstd::prelude::*;
use vstd::view::View as _;

use crate::asset::{common_count, distinct, intersect, unite, ASN};
use crate::path::{Path, Relationships};
use crate::splice::{
    best_branch, best_route, can_splice, candidate, is_splice, merged, precedes, shared_at, shortest_path,
};
use crate::world::{weighted_in, Addr, PrefixKey, Weight, World};

verus! {

/// A vantage address, with the most specific stored prefix that covers it
/// where one does.
#[derive(Debug, Clone, Copy)]
pub struct Vantage {
    pub addr: Addr,
    pub anchor: Option<PrefixKey>,
}

/// The ASes seen for one destination prefix: on every path so far
/// (`hard_core`) and on any (`all_seen`).
pub struct Tally {
    pub key: PrefixKey,
    pub hard_core: Vec<ASN>,
    pub all_seen: Vec<ASN>,
}

/// One destination's part of a dissimilarity: `num / den`, counted
/// `weight` times.
#[derive(Debug, Clone, Copy, PartialEq, Eq)]
pub struct Term {
    pub weight: u64,
    pub num: u128,
    pub den: u128,
}

impl vstd::view::View for Term {
    type V = (nat, nat, nat);

    open spec fn view(&self) -> (nat, nat, nat) {
        (self.weight as nat, self.num as nat, self.den as nat)
    }
}

/// `p` is the path chosen from the vantage prefix `anchor` to the
/// destination prefix `k`.
pub open spec fn route(w: &World, anchor: Option<PrefixKey>, k: PrefixKey, p: Seq<ASN>) -> bool {
    &&& anchor matches Some(a)
    &&& w.paths_at(a) matches Some(src)
    &&& w.paths_at(k) matches Some(dst)
    &&& best_route(&w.rels(), src, dst, p)
}

/// The ASes of the path chosen from `anchor` to `k`, if one is.
pub open spec fn route_set(w: &World, anchor: Option<PrefixKey>, k: PrefixKey) -> Option<Set<ASN>> {
    if exists|p: Seq<ASN>| route(w, anchor, k, p) {
        Some((choose|p: Seq<ASN>| route(w, anchor, k, p)).to_set())
    } else {
        None
    }
}

/// `k` is one of the weighted destination prefixes.
pub open spec fn weighted(w: &World, k: PrefixKey) -> bool {
    weighted_in(w.weights(), k)
}

/// The two sets of one destination after one more path with the ASes `s`:
/// the first path sets both.
pub open spec fn merge(t: Option<(Set<ASN>, Set<ASN>)>, s: Set<ASN>) -> (Set<ASN>, Set<ASN>) {
    match t {
        None => (s, s),
        Some((h, a)) => (h.intersect(s), a.union(s)),
    }
}

/// The sets of destination `k` after one more vantage with prefix `anchor`.
pub open spec fn after(w: &World, t: Option<(Set<ASN>, Set<ASN>)>, anchor: Option<PrefixKey>, k: PrefixKey) -> Option<(Set<ASN>, Set<ASN>)> {
    if weighted(w, k) {
        match route_set(w, anchor, k) {
            Some(s) => Some(merge(t, s)),
            None => t,
        }
    } else {
        t
    }
}

/// The sets of destination `k` after the vantages of `anchors`, in order.
pub open spec fn after_all(w: &World, t: Option<(Set<ASN>, Set<ASN>)>, anchors: Seq<Option<PrefixKey>>, k: PrefixKey) -> Option<(Set<ASN>, Set<ASN>)>
    decreases anchors.len(),
{
    if anchors.len() == 0 {
        t
    } else {
        after(w, after_all(w, t, anchors.drop_last(), k), anchors.last(), k)
    }
}

/// One view over a shared knowledge base.
pub struct View {
    world: Rc<World>,
    perspectives: Vec<Addr>,
    tallies: Vec<Tally>,
}

proof fn lemma_tally_at(ts: Seq<Tally>, k: PrefixKey, i: int)
    requires
        forall|a: int, b: int| 0 <= a < b < ts.len() ==> (#[trigger] ts[a]).key != (#[trigger] ts[b]).key,
        0 <= i < ts.len(),
        ts[i].key == k,
    ensures
        (choose|j: int| 0 <= j < ts.len() && #[trigger] ts[j].key == k) == i,
{
    let j = choose|j: int| 0 <= j < ts.len() && #[trigger] ts[j].key == k;
    if j < i {
        assert(ts[j].key != ts[i].key);
    } else if j > i {
        assert(ts[i].key != ts[j].key);
    }
}

/// The sets stored for `k` in `ts`.
pub open spec fn tally_in(ts: Seq<Tally>, k: PrefixKey) -> Option<(Set<ASN>, Set<ASN>)> {
    if exists|i: int| 0 <= i < ts.len() && #[trigger] ts[i].key == k {
        let t = ts[choose|i: int| 0 <= i < ts.len() && #[trigger] ts[i].key == k];
        Some((t.hard_core@.to_set(), t.all_seen@.to_set()))
    } else {
        None
    }
}

impl View {
    /// Keys stored once each; sets without repeats; on each key the hard
    /// core lies within the ASes seen.
    pub closed spec fn wf(&self) -> bool {
        self.world().wf() && tallies_wf(self.tallies@)
    }

    /// The knowledge base that the view is over.
    pub closed spec fn world(&self) -> World {
        *self.world
    }

    /// The vantage addresses added so far.
    pub closed spec fn vantages(&self) -> Seq<Addr> {
        self.perspectives@
    }

    /// The hard core and the ASes seen for destination `k`, where a path
    /// to it was found.
    pub closed spec fn tally(&self, k: PrefixKey) -> Option<(Set<ASN>, Set<ASN>)> {
        tally_in(self.tallies@, k)
    }

    /// The destination prefixes with sets, in order of first path.
    pub closed spec fn keys(&self) -> Seq<PrefixKey> {
        self.tallies@.map_values(|t: Tally| t.key)
    }

    /// The hard core of `k`; empty where no path was found.
    pub open spec fn hard(&self, k: PrefixKey) -> Set<ASN> {
        match self.tally(k) {
            Some((h, a)) => h,
            None => Set::empty(),
        }
    }

    /// The ASes seen on paths to `k`; empty where no path was found.
    pub open spec fn seen(&self, k: PrefixKey) -> Set<ASN> {
        match self.tally(k) {
            Some((h, a)) => a,
            None => Set::empty(),
        }
    }

    /// An empty view over `world`.
    pub fn new(world: Rc<World>) -> (r: View)
        requires
            world.wf(),
        ensures
            r.wf(),
            r.world() == *world,
            r.vantages().len() == 0,
            forall|k: PrefixKey| #[trigger] r.tally(k).is_none(),
            r.keys().len() == 0,
    {
        View { world, perspectives: Vec::new(), tallies: Vec::new() }
    }
}

/// Keys stored once each; sets without repeats; on each key the hard core
/// lies within the ASes seen.
pub open spec fn tallies_wf(ts: Seq<Tally>) -> bool {
    &&& forall|a: int, b: int| 0 <= a < b < ts.len() ==> (#[trigger] ts[a]).key != (#[trigger] ts[b]).key
    &&& forall|i: int|
        0 <= i < ts.len() ==> (#[trigger] ts[i]).hard_core@.no_duplicates() && ts[i].all_seen@.no_duplicates()
            && ts[i].hard_core@.to_set().subset_of(ts[i].all_seen@.to_set())
}

fn find_tally(tallies: &Vec<Tally>, k: PrefixKey) -> (r: Option<usize>)
    ensures
        r matches Some(i) ==> i < tallies@.len() && tallies@[i as int].key == k,
        r.is_none() ==> forall|i: int| 0 <= i < tallies@.len() ==> #[trigger] tallies@[i].key != k,
{
    let mut i: usize = 0;
    while i < tallies.len()
        invariant
            i <= tallies@.len(),
            forall|j: int| 0 <= j < i ==> #[trigger] tallies@[j].key != k,
        decreases tallies@.len() - i,
    {
        if tallies[i].key == k {
            return Some(i);
        }
        i = i + 1;
    }
    None
}

/// Folds the ASes of one more path to `k` into its sets.
fn merge_tally(tallies: &mut Vec<Tally>, k: PrefixKey, hops: &Vec<ASN>)
    requires
        tallies_wf(old(tallies)@),
    ensures
        tallies_wf(final(tallies)@),
        tally_in(final(tallies)@, k) == Some(merge(tally_in(old(tallies)@, k), hops@.to_set())),
        forall|k2: PrefixKey| k2 != k ==> #[trigger] tally_in(final(tallies)@, k2) == tally_in(old(tallies)@, k2),
{
    let ghost ts0 = tallies@;
    match find_tally(tallies, k) {
        None => {
            let h = distinct(hops);
            let a = distinct(hops);
            tallies.push(Tally { key: k, hard_core: h, all_seen: a });
            proof {
                let ts = tallies@;
                let n = ts0.len() as int;
                assert forall|a: int, b: int| 0 <= a < b < ts.len() implies (#[trigger] ts[a]).key != (#[trigger] ts[b]).key by {
                    assert(ts[a] == ts0[a]);
                    if b < n {
                        assert(ts[b] == ts0[b]);
                    }
                }
                assert forall|i: int| 0 <= i < ts.len() implies (#[trigger] ts[i]).hard_core@.no_duplicates()
                    && ts[i].all_seen@.no_duplicates() && ts[i].hard_core@.to_set().subset_of(ts[i].all_seen@.to_set()) by {
                    if i < n {
                        assert(ts[i] == ts0[i]);
                    }
                }
                lemma_tally_at(ts, k, n);
                assert forall|k2: PrefixKey| k2 != k implies #[trigger] tally_in(ts, k2) == tally_in(ts0, k2) by {
                    if exists|j: int| 0 <= j < ts0.len() && #[trigger] ts0[j].key == k2 {
                        let j = choose|j: int| 0 <= j < ts0.len() && #[trigger] ts0[j].key == k2;
                        lemma_tally_at(ts0, k2, j);
                        assert(ts[j] == ts0[j]);
                        lemma_tally_at(ts, k2, j);
                    } else {
                        assert forall|j: int| 0 <= j < ts.len() implies #[trigger] ts[j].key != k2 by {
                            if j < n {
                                assert(ts[j] == ts0[j]);
                            }
                        }
                    }
                }
            }
        },
        Some(i) => {
            proof {
                lemma_tally_at(ts0, k, i as int);
            }
            let h = intersect(&tallies[i].hard_core, hops);
            let a = unite(&tallies[i].all_seen, hops);
            tallies.set(i, Tally { key: k, hard_core: h, all_seen: a });
            proof {
                let ts = tallies@;
                assert forall|a: int, b: int| 0 <= a < b < ts.len() implies (#[trigger] ts[a]).key != (#[trigger] ts[b]).key by {
                    assert(ts[a].key == ts0[a].key);
                    assert(ts[b].key == ts0[b].key);
                }
                assert forall|j: int| 0 <= j < ts.len() implies (#[trigger] ts[j]).hard_core@.no_duplicates()
                    && ts[j].all_seen@.no_duplicates() && ts[j].hard_core@.to_set().subset_of(ts[j].all_seen@.to_set()) by {
                    if j != i {
                        assert(ts[j] == ts0[j]);
                    } else {
                        assert(ts0[j].hard_core@.to_set().subset_of(ts0[j].all_seen@.to_set()));
                    }
                }
                lemma_tally_at(ts, k, i as int);
                assert forall|k2: PrefixKey| k2 != k implies #[trigger] tally_in(ts, k2) == tally_in(ts0, k2) by {
                    if exists|j: int| 0 <= j < ts0.len() && #[trigger] ts0[j].key == k2 {
                        let j = choose|j: int| 0 <= j < ts0.len() && #[trigger] ts0[j].key == k2;
                        lemma_tally_at(ts0, k2, j);
                        assert(ts[j] == ts0[j]);
                        lemma_tally_at(ts, k2, j);
                    } else {
                        assert forall|j: int| 0 <= j < ts.len() implies #[trigger] ts[j].key != k2 by {
                            assert(ts[j].key == ts0[j].key);
                        }
                    }
                }
            }
        },
    }
}

proof fn lemma_route_unique(rels: &Relationships, src: Seq<Path>, dst: Seq<Path>, p: Seq<ASN>, q: Seq<ASN>)
    requires
        best_route(rels, src, dst, p),
        best_route(rels, src, dst, q),
    ensures
        p == q,
{
    assert(precedes(p, q));
    assert(precedes(q, p));
    if p != q {
        let k1 = choose|k: int| 0 <= k < p.len() && p[k] < q[k] && forall|m: int| 0 <= m < k ==> p[m] == q[m];
        let k2 = choose|k: int| 0 <= k < q.len() && q[k] < p[k] && forall|m: int| 0 <= m < k ==> q[m] == p[m];
        if k1 < k2 {
            assert(q[k1] == p[k1]);
        } else if k2 < k1 {
            assert(p[k2] == q[k2]);
        }
    }
}

proof fn lemma_no_candidate(src: Seq<Path>, dst: Seq<Path>, p: Seq<ASN>)
    requires
        forall|x: int, y: int| 0 <= x < src.len() && 0 <= y < dst.len() ==> !can_splice(#[trigger] src[x]@, #[trigger] dst[y]@),
    ensures
        !candidate(src, dst, p),
{
    if candidate(src, dst, p) {
        let (x, y) = choose|x: int, y: int| 0 <= x < src.len() && 0 <= y < dst.len() && #[trigger] is_splice(src[x]@, dst[y]@, p);
        let (i, j) = choose|i: int, j: int| best_branch(src[x]@, dst[y]@, i, j) && p == merged(src[x]@, dst[y]@, i, j);
        assert(shared_at(src[x]@, dst[y]@, i, j));
    }
}

impl View {
    /// Folds the paths of one vantage, whose address falls in `anchor`, into
    /// the sets of every weighted destination.
    fn score_paths(&mut self, anchor: Option<PrefixKey>)
        requires
            old(self).wf(),
        ensures
            final(self).wf(),
            final(self).world() == old(self).world(),
            final(self).vantages() == old(self).vantages(),
            forall|k: PrefixKey| #[trigger] final(self).tally(k) == after(&old(self).world(), old(self).tally(k), anchor, k),
    {
        let w: &World = &*self.world;
        let ghost t0 = self.tallies@;
        let src = match anchor {
            None => None,
            Some(a) => w.exact_match(a),
        };
        let ws = w.weight_list();
        let rels = w.relationships();
        let mut i: usize = 0;
        while i < ws.len()
            invariant
                *w == self.world(),
                self.perspectives@ == old(self).perspectives@,
                w.wf(),
                ws@ == w.weights(),
                *rels == w.rels(),
                anchor matches Some(a) ==> (src matches Some(v) ==> w.paths_at(a) == Some(v@)),
                anchor matches Some(a) ==> (src.is_none() ==> w.paths_at(a).is_none()),
                anchor.is_none() ==> src.is_none(),
                i <= ws.len(),
                tallies_wf(self.tallies@),
                forall|k: PrefixKey| #[trigger] tally_in(self.tallies@, k) == if exists|j: int| 0 <= j < i && #[trigger] ws@[j].key == k {
                    after(w, tally_in(t0, k), anchor, k)
                } else {
                    tally_in(t0, k)
                },
            decreases ws.len() - i,
        {
            let k = ws[i].key;
            let ghost tb = self.tallies@;
            proof {
                assert(weighted(w, k)) by { assert(w.weights()[i as int].key == k); }
                assert(!exists|j: int| 0 <= j < i && #[trigger] ws@[j].key == k) by {
                    assert forall|j: int| 0 <= j < i implies #[trigger] ws@[j].key != k by {
                        crate::world::lemma_weight_keys_unique(w, j, i as int);
                    }
                }
            }
            let mut found = false;
            match src {
                None => {},
                Some(sp) => {
                    match w.exact_match(k) {
                        None => {},
                        Some(dp) => {
                            match shortest_path(sp, dp, w) {
                                None => {
                                    proof {
                                        assert forall|p: Seq<ASN>| !route(w, anchor, k, p) by {
                                            lemma_no_candidate(sp@, dp@, p);
                                        }
                                    }
                                },
                                Some(p) => {
                                    proof {
                                        assert(route(w, anchor, k, p@));
                                        let q = choose|q: Seq<ASN>| route(w, anchor, k, q);
                                        lemma_route_unique(rels, sp@, dp@, p@, q);
                                    }
                                    merge_tally(&mut self.tallies, k, &p.path);
                                    found = true;
                                },
                            }
                        },
                    }
                },
            }
            proof {
                if !found {
                    assert(route_set(w, anchor, k).is_none());
                    assert(self.tallies@ == tb);
                }
                assert forall|k2: PrefixKey| #[trigger] tally_in(self.tallies@, k2) == if exists|j: int| 0 <= j < i + 1 && #[trigger] ws@[j].key == k2 {
                    after(w, tally_in(t0, k2), anchor, k2)
                } else {
                    tally_in(t0, k2)
                } by {
                    if k2 != k {
                        if exists|j: int| 0 <= j < i + 1 && #[trigger] ws@[j].key == k2 {
                            let j = choose|j: int| 0 <= j < i + 1 && #[trigger] ws@[j].key == k2;
                            assert(j < i);
                        }
                    } else {
                        assert(ws@[i as int].key == k2);
                    }
                }
            }
            i = i + 1;
        }
        proof {
            assert forall|k: PrefixKey| #[trigger] tally_in(self.tallies@, k) == after(w, tally_in(t0, k), anchor, k) by {
                if !(exists|j: int| 0 <= j < ws@.len() && #[trigger] ws@[j].key == k) {
                    assert(!weighted(w, k));
                }
            }
        }
    }
}

impl View {
    /// Adds one vantage: its address, and the path from its prefix to every
    /// weighted destination folded into that destination's sets.
    pub fn add_perspective(&mut self, vantage: Vantage)
        requires
            old(self).wf(),
        ensures
            final(self).wf(),
            final(self).world() == old(self).world(),
            final(self).vantages() == old(self).vantages().push(vantage.addr),
            forall|k: PrefixKey| #[trigger] final(self).tally(k) == after(&old(self).world(), old(self).tally(k), vantage.anchor, k),
    {
        self.score_paths(vantage.anchor);
        let ghost mid = *self;
        self.perspectives.push(vantage.addr);
        assert forall|k: PrefixKey| #[trigger] self.tally(k) == mid.tally(k) by {
            assert(self.tallies@ == mid.tallies@);
        }
    }

    /// Adds the vantages in order (see `add_perspective`).
    pub fn add_perspectives(&mut self, perspectives: Vec<Vantage>)
        requires
            old(self).wf(),
        ensures
            final(self).wf(),
            final(self).world() == old(self).world(),
            final(self).vantages() == old(self).vantages() + perspectives@.map_values(|v: Vantage| v.addr),
            forall|k: PrefixKey| #[trigger] final(self).tally(k) == after_all(&old(self).world(), old(self).tally(k), perspectives@.map_values(|v: Vantage| v.anchor), k),
    {
        let mut i: usize = 0;
        let ghost anchors = perspectives@.map_values(|v: Vantage| v.anchor);
        let ghost addrs = perspectives@.map_values(|v: Vantage| v.addr);
        assert(anchors.subrange(0, 0) =~= Seq::<Option<PrefixKey>>::empty());
        assert(old(self).vantages() + addrs.subrange(0, 0) =~= old(self).vantages());
        while i < perspectives.len()
            invariant
                i <= perspectives.len(),
                anchors == perspectives@.map_values(|v: Vantage| v.anchor),
                addrs == perspectives@.map_values(|v: Vantage| v.addr),
                self.wf(),
                self.world() == old(self).world(),
                self.vantages() == old(self).vantages() + addrs.subrange(0, i as int),
                forall|k: PrefixKey| #[trigger] self.tally(k) == after_all(&old(self).world(), old(self).tally(k), anchors.subrange(0, i as int), k),
            decreases perspectives.len() - i,
        {
            let v = perspectives[i];
            self.add_perspective(v);
            proof {
                assert(anchors.subrange(0, i + 1).drop_last() =~= anchors.subrange(0, i as int));
                assert(self.vantages() =~= old(self).vantages() + addrs.subrange(0, i + 1));
            }
            i = i + 1;
        }
        assert(anchors.subrange(0, perspectives.len() as int) =~= anchors);
        assert(addrs.subrange(0, perspectives.len() as int) =~= addrs);
    }
}

/// One destination's term of the hard-core dissimilarity: the size of the
/// symmetric difference over the sum of the sizes.
pub open spec fn core_term(w: u64, a: Set<ASN>, b: Set<ASN>) -> (nat, nat, nat) {
    (w as nat, a.difference(b).len() + b.difference(a).len(), a.len() + b.len())
}

/// One destination's term of the Jaccard dissimilarity: the union less the
/// intersection, over the union.
pub open spec fn jaccard_term(w: u64, a: Set<ASN>, b: Set<ASN>) -> (nat, nat, nat) {
    (w as nat, ((a + b).len() - a.intersect(b).len()) as nat, (a + b).len())
}

/// The hard-core terms of the weighted destinations, leaving out those
/// where both sets are empty.
pub open spec fn core_terms(ws: Seq<Weight>, x: View, y: View) -> Seq<(nat, nat, nat)>
    decreases ws.len(),
{
    if ws.len() == 0 {
        Seq::empty()
    } else {
        let init = core_terms(ws.drop_last(), x, y);
        let k = ws.last().key;
        let t = core_term(ws.last().count, x.hard(k), y.hard(k));
        if t.2 > 0 {
            init.push(t)
        } else {
            init
        }
    }
}

/// The Jaccard terms of the weighted destinations, leaving out those where
/// the union of the sets seen is empty.
pub open spec fn jaccard_terms(ws: Seq<Weight>, x: View, y: View) -> Seq<(nat, nat, nat)>
    decreases ws.len(),
{
    if ws.len() == 0 {
        Seq::empty()
    } else {
        let init = jaccard_terms(ws.drop_last(), x, y);
        let k = ws.last().key;
        let t = jaccard_term(ws.last().count, x.seen(k), y.seen(k));
        if t.2 > 0 {
            init.push(t)
        } else {
            init
        }
    }
}

/// Relies on `Rc::ptr_eq`: true only where both handles point to the same
/// allocation, so to the same value.
#[verifier::external_body]
fn same_world(a: &Rc<World>, b: &Rc<World>) -> (r: bool)
    ensures
        r ==> *a == *b,
{
    Rc::ptr_eq(a, b)
}

impl View {
    fn get_tally(&self, k: PrefixKey) -> (r: Option<&Tally>)
        requires
            self.wf(),
        ensures
            r matches Some(t) ==> self.tally(k) == Some((t.hard_core@.to_set(), t.all_seen@.to_set()))
                && t.hard_core@.no_duplicates() && t.all_seen@.no_duplicates(),
            r.is_none() ==> self.tally(k).is_none(),
    {
        match find_tally(&self.tallies, k) {
            None => None,
            Some(i) => {
                proof {
                    lemma_tally_at(self.tallies@, k, i as int);
                }
                Some(&self.tallies[i])
            },
        }
    }

    /// The hard-core terms against `other`, over the weighted destinations of
    /// this view's knowledge base.
    pub fn core_terms(&self, other: &View) -> (r: Vec<Term>)
        requires
            self.wf(),
            other.wf(),
        ensures
            r@.map_values(|t: Term| t@) == core_terms(self.world().weights(), *self, *other),
    {
        let ws = self.world.weight_list();
        let mut out: Vec<Term> = Vec::new();
        let mut i: usize = 0;
        let empty: Vec<ASN> = Vec::new();
        assert(ws@.subrange(0, 0) =~= Seq::<Weight>::empty());
        assert(out@.map_values(|t: Term| t@) =~= Seq::<(nat, nat, nat)>::empty());
        while i < ws.len()
            invariant
                ws@ == self.world().weights(),
                self.wf(),
                other.wf(),
                empty@.len() == 0,
                i <= ws.len(),
                out@.map_values(|t: Term| t@) == core_terms(ws@.subrange(0, i as int), *self, *other),
            decreases ws.len() - i,
        {
            let k = ws[i].key;
            let sa: &Vec<ASN> = match self.get_tally(k) {
                Some(t) => &t.hard_core,
                None => &empty,
            };
            let sb: &Vec<ASN> = match other.get_tally(k) {
                Some(t) => &t.hard_core,
                None => &empty,
            };
            let c = common_count(sa, sb);
            let ghost a = sa@.to_set();
            let ghost b = sb@.to_set();
            proof {
                assert(empty@.to_set() =~= Set::<ASN>::empty());
                assert(a == self.hard(k));
                assert(b == other.hard(k));
                sa@.unique_seq_to_set();
                sb@.unique_seq_to_set();
                vstd::seq_lib::seq_to_set_is_finite(sa@);
                vstd::seq_lib::seq_to_set_is_finite(sb@);
                vstd::set_lib::lemma_set_difference_len(a, b);
                vstd::set_lib::lemma_set_difference_len(b, a);
                assert(b.intersect(a) =~= a.intersect(b));
                assert(ws@.subrange(0, i + 1).drop_last() =~= ws@.subrange(0, i as int));
            }
            let la = sa.len() as u128;
            let lb = sb.len() as u128;
            let cc = c as u128;
            let den = la + lb;
            if den > 0 {
                let num = (la - cc) + (lb - cc);
                let ghost before = out@.map_values(|t: Term| t@);
                out.push(Term { weight: ws[i].count, num, den });
                assert(out@.map_values(|t: Term| t@) =~= before.push(core_term(ws@[i as int].count, a, b)));
            }
            i = i + 1;
        }
        assert(ws@.subrange(0, ws.len() as int) =~= ws@);
        out
    }

    /// The Jaccard terms against `other`, over the weighted destinations of
    /// this view's knowledge base.
    pub fn jaccard_terms(&self, other: &View) -> (r: Vec<Term>)
        requires
            self.wf(),
            other.wf(),
        ensures
            r@.map_values(|t: Term| t@) == jaccard_terms(self.world().weights(), *self, *other),
    {
        let ws = self.world.weight_list();
        let mut out: Vec<Term> = Vec::new();
        let mut i: usize = 0;
        let empty: Vec<ASN> = Vec::new();
        assert(ws@.subrange(0, 0) =~= Seq::<Weight>::empty());
        assert(out@.map_values(|t: Term| t@) =~= Seq::<(nat, nat, nat)>::empty());
        while i < ws.len()
            invariant
                ws@ == self.world().weights(),
                self.wf(),
                other.wf(),
                empty@.len() == 0,
                i <= ws.len(),
                out@.map_values(|t: Term| t@) == jaccard_terms(ws@.subrange(0, i as int), *self, *other),
            decreases ws.len() - i,
        {
            let k = ws[i].key;
            let sa: &Vec<ASN> = match self.get_tally(k) {
                Some(t) => &t.all_seen,
                None => &empty,
            };
            let sb: &Vec<ASN> = match other.get_tally(k) {
                Some(t) => &t.all_seen,
                None => &empty,
            };
            let c = common_count(sa, sb);
            let ghost a = sa@.to_set();
            let ghost b = sb@.to_set();
            proof {
                assert(empty@.to_set() =~= Set::<ASN>::empty());
                assert(a == self.seen(k));
                assert(b == other.seen(k));
                sa@.unique_seq_to_set();
                sb@.unique_seq_to_set();
                vstd::seq_lib::seq_to_set_is_finite(sa@);
                vstd::seq_lib::seq_to_set_is_finite(sb@);
                vstd::set_lib::lemma_set_intersect_union_lens(a, b);
                vstd::set_lib::lemma_set_difference_len(a, b);
                assert(ws@.subrange(0, i + 1).drop_last() =~= ws@.subrange(0, i as int));
            }
            let la = sa.len() as u128;
            let lb = sb.len() as u128;
            let cc = c as u128;
            let den = la + lb - cc;
            if den > 0 {
                let num = den - cc;
                let ghost before = out@.map_values(|t: Term| t@);
                out.push(Term { weight: ws[i].count, num, den });
                assert(out@.map_values(|t: Term| t@) =~= before.push(jaccard_term(ws@[i as int].count, a, b)));
            }
            i = i + 1;
        }
        assert(ws@.subrange(0, ws.len() as int) =~= ws@);
        out
    }

    /// The hard-core terms against `other` where both views are over the
    /// same knowledge base; `None` where they are not. The dissimilarity is
    /// the weighted mean of the terms' `num / den`.
    pub fn core_dissimilarity(&self, other: &View) -> (r: Option<Vec<Term>>)
        requires
            self.wf(),
            other.wf(),
        ensures
            r matches Some(t) ==> self.world() == other.world() && t@.map_values(|t: Term| t@) == core_terms(
                self.world().weights(),
                *self,
                *other,
            ),
    {
        if !same_world(&self.world, &other.world) {
            return None;
        }
        Some(self.core_terms(other))
    }

    /// The Jaccard terms against `other` where both views are over the same
    /// knowledge base; `None` where they are not. The dissimilarity is the
    /// weighted mean of the terms' `num / den`.
    pub fn jaccard_dissimilarity(&self, other: &View) -> (r: Option<Vec<Term>>)
        requires
            self.wf(),
            other.wf(),
        ensures
            r matches Some(t) ==> self.world() == other.world() && t@.map_values(|t: Term| t@) == jaccard_terms(
                self.world().weights(),
                *self,
                *other,
            ),
    {
        if !same_world(&self.world, &other.world) {
            return None;
        }
        Some(self.jaccard_terms(other))
    }
}

/// On every destination of a well-formed view, the hard core lies within
/// the ASes seen.
pub proof fn lemma_hard_core_within_all_seen(v: &View, k: PrefixKey)
    requires
        v.wf(),
    ensures
        v.hard(k).subset_of(v.seen(k)),
{
    let ts = v.tallies@;
    if exists|i: int| 0 <= i < ts.len() && #[trigger] ts[i].key == k {
        let i = choose|i: int| 0 <= i < ts.len() && #[trigger] ts[i].key == k;
        assert(ts[i].hard_core@.to_set().subset_of(ts[i].all_seen@.to_set()));
    }
}

proof fn lemma_sets_finite(v: &View, k: PrefixKey)
    ensures
        v.hard(k).finite(),
        v.seen(k).finite(),
{
    let ts = v.tallies@;
    if exists|i: int| 0 <= i < ts.len() && #[trigger] ts[i].key == k {
        let i = choose|i: int| 0 <= i < ts.len() && #[trigger] ts[i].key == k;
        vstd::seq_lib::seq_to_set_is_finite(ts[i].hard_core@);
        vstd::seq_lib::seq_to_set_is_finite(ts[i].all_seen@);
    }
}

/// Both dissimilarities are symmetric in the two views, and every term has
/// a positive denominator and a numerator no larger, so each weighted mean
/// lies between 0 and 1.
pub proof fn lemma_dissimilarity_symmetric_bounded(ws: Seq<Weight>, x: View, y: View)
    ensures
        core_terms(ws, x, y) == core_terms(ws, y, x),
        jaccard_terms(ws, x, y) == jaccard_terms(ws, y, x),
        forall|i: int| 0 <= i < core_terms(ws, x, y).len() ==> 0 < (#[trigger] core_terms(ws, x, y)[i]).2
            && core_terms(ws, x, y)[i].1 <= core_terms(ws, x, y)[i].2,
        forall|i: int| 0 <= i < jaccard_terms(ws, x, y).len() ==> 0 < (#[trigger] jaccard_terms(ws, x, y)[i]).2
            && jaccard_terms(ws, x, y)[i].1 <= jaccard_terms(ws, x, y)[i].2,
    decreases ws.len(),
{
    if ws.len() > 0 {
        lemma_dissimilarity_symmetric_bounded(ws.drop_last(), x, y);
        let k = ws.last().key;
        let (a, b) = (x.hard(k), y.hard(k));
        let (c, d) = (x.seen(k), y.seen(k));
        lemma_sets_finite(&x, k);
        lemma_sets_finite(&y, k);
        assert(c + d =~= d + c);
        assert(c.intersect(d) =~= d.intersect(c));
        vstd::set_lib::lemma_len_subset(a.difference(b), a);
        vstd::set_lib::lemma_len_subset(b.difference(a), b);
        vstd::set_lib::lemma_set_intersect_union_lens(c, d);
        assert((c + d).finite());
        vstd::set_lib::lemma_len_subset(c.intersect(d), c + d);
        let t = jaccard_term(ws.last().count, c, d);
        assert(t.1 <= t.2);
    }
}

/// A view compared with itself gives zero in every term of both
/// dissimilarities; where some weighted destination has a path, there is at
/// least one term, so both means are defined and zero.
pub proof fn lemma_self_dissimilarity_zero(ws: Seq<Weight>, x: View)
    ensures
        forall|i: int| 0 <= i < core_terms(ws, x, x).len() ==> (#[trigger] core_terms(ws, x, x)[i]).1 == 0,
        forall|i: int| 0 <= i < jaccard_terms(ws, x, x).len() ==> (#[trigger] jaccard_terms(ws, x, x)[i]).1 == 0,
        (exists|j: int| 0 <= j < ws.len() && #[trigger] x.hard(ws[j].key).len() > 0) ==> core_terms(ws, x, x).len() > 0,
        (exists|j: int| 0 <= j < ws.len() && #[trigger] x.seen(ws[j].key).len() > 0) ==> jaccard_terms(ws, x, x).len() > 0,
    decreases ws.len(),
{
    if ws.len() > 0 {
        lemma_self_dissimilarity_zero(ws.drop_last(), x);
        let k = ws.last().key;
        let (a, c) = (x.hard(k), x.seen(k));
        assert(a.difference(a) =~= Set::<ASN>::empty());
        assert(c + c =~= c);
        assert(c.intersect(c) =~= c);
        if exists|j: int| 0 <= j < ws.len() && #[trigger] x.hard(ws[j].key).len() > 0 {
            let j = choose|j: int| 0 <= j < ws.len() && #[trigger] x.hard(ws[j].key).len() > 0;
            if j < ws.len() - 1 {
                assert(ws.drop_last()[j] == ws[j]);
            }
        }
        if exists|j: int| 0 <= j < ws.len() && #[trigger] x.seen(ws[j].key).len() > 0 {
            let j = choose|j: int| 0 <= j < ws.len() && #[trigger] x.seen(ws[j].key).len() > 0;
            if j < ws.len() - 1 {
                assert(ws.drop_last()[j] == ws[j]);
            }
        }
    }
}

impl View {
    /// The hard core and the ASes seen for `k`, where a path to it was found.
    pub fn sets_of(&self, k: PrefixKey) -> (r: Option<(&Vec<ASN>, &Vec<ASN>)>)
        requires
            self.wf(),
        ensures
            r matches Some((h, a)) ==> self.tally(k) == Some((h@.to_set(), a@.to_set())),
            r.is_none() ==> self.tally(k).is_none(),
    {
        match self.get_tally(k) {
            None => None,
            Some(t) => Some((&t.hard_core, &t.all_seen)),
        }
    }

    /// The vantage addresses added so far.
    pub fn perspectives(&self) -> (r: &Vec<Addr>)
        ensures
            r@ == self.vantages(),
    {
        &self.perspectives
    }

    /// The size of the hard core of each destination with sets, in the order
    /// of `keys`; their mean is the view's hard-core mean.
    pub fn hard_core_sizes(&self) -> (r: Vec<usize>)
        requires
            self.wf(),
        ensures
            self.keys().no_duplicates(),
            forall|k: PrefixKey| #[trigger] self.tally(k).is_some() <==> self.keys().contains(k),
            r@.len() == self.keys().len(),
            forall|i: int| 0 <= i < r@.len() ==> #[trigger] r@[i] == self.hard(self.keys()[i]).len(),
    {
        self.sizes(true)
    }

    /// The number of ASes seen for each destination with sets, in the order
    /// of `keys`; their mean is the view's all-seen mean.
    pub fn all_seen_sizes(&self) -> (r: Vec<usize>)
        requires
            self.wf(),
        ensures
            self.keys().no_duplicates(),
            forall|k: PrefixKey| #[trigger] self.tally(k).is_some() <==> self.keys().contains(k),
            r@.len() == self.keys().len(),
            forall|i: int| 0 <= i < r@.len() ==> #[trigger] r@[i] == self.seen(self.keys()[i]).len(),
    {
        self.sizes(false)
    }

    fn sizes(&self, hard: bool) -> (r: Vec<usize>)
        requires
            self.wf(),
        ensures
            self.keys().no_duplicates(),
            forall|k: PrefixKey| #[trigger] self.tally(k).is_some() <==> self.keys().contains(k),
            r@.len() == self.keys().len(),
            forall|i: int| 0 <= i < r@.len() ==> #[trigger] r@[i] == if hard {
                self.hard(self.keys()[i]).len()
            } else {
                self.seen(self.keys()[i]).len()
            },
    {
        let ts = &self.tallies;
        let mut r: Vec<usize> = Vec::new();
        let mut i: usize = 0;
        while i < ts.len()
            invariant
                self.wf(),
                ts@ == self.tallies@,
                i <= ts.len(),
                r@.len() == i,
                forall|j: int| 0 <= j < i ==> #[trigger] r@[j] == if hard {
                    self.hard(self.keys()[j]).len()
                } else {
                    self.seen(self.keys()[j]).len()
                },
            decreases ts.len() - i,
        {
            proof {
                lemma_tally_at(ts@, ts@[i as int].key, i as int);
                assert(self.keys()[i as int] == ts@[i as int].key);
                ts@[i as int].hard_core@.unique_seq_to_set();
                ts@[i as int].all_seen@.unique_seq_to_set();
            }
            if hard {
                r.push(ts[i].hard_core.len());
            } else {
                r.push(ts[i].all_seen.len());
            }
            i = i + 1;
        }
        proof {
            let ks = self.keys();
            assert forall|a: int, b: int| 0 <= a < ks.len() && 0 <= b < ks.len() && a != b implies ks[a] != ks[b] by {
                if a < b {
                    assert(ts@[a].key != ts@[b].key);
                } else {
                    assert(ts@[b].key != ts@[a].key);
                }
            }
            assert forall|k: PrefixKey| #[trigger] self.tally(k).is_some() <==> ks.contains(k) by {
                if ks.contains(k) {
                    let j = choose|j: int| 0 <= j < ks.len() && ks[j] == k;
                    assert(ts@[j].key == k);
                }
                if self.tally(k).is_some() {
                    let j = choose|j: int| 0 <= j < ts@.len() && #[trigger] ts@[j].key == k;
                    assert(ks[j] == k);
                }
            }
        }
        r
    }
}

} // verus!
