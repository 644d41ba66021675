//! The routing knowledge base: relationships, the AS paths stored for each
//! announced prefix, and the traffic weight of each destination prefix.

use vstd::prelude::*;
use vstd::string::StringSliceAdditionalSpecFns;

use crate::asset::{unite, ASN};
use crate::parse::{alternatives_of, contains_path, distinct_paths, fits, has_path, split_on};
use crate::path::{Path, Relationships};

verus! {

/// A network address of either family.
#[derive(Debug, Clone, Copy, PartialEq, Eq, Structural)]
pub enum Addr {
    V4(u32),
    V6(u128),
}

/// A network block: an address and a prefix length.
#[derive(Debug, Clone, Copy, PartialEq, Eq, Structural)]
pub struct PrefixKey {
    pub addr: Addr,
    pub len: u32,
}

/// The paths stored for one announced prefix.
pub struct PrefixPaths {
    pub key: PrefixKey,
    pub paths: Vec<Path>,
}

/// How many destinations fall in one prefix.
#[derive(Debug, Clone, Copy)]
pub struct Weight {
    pub key: PrefixKey,
    pub count: u64,
}

/// Some entry of `ws` has the key `k`.
pub open spec fn weighted_in(ws: Seq<Weight>, k: PrefixKey) -> bool {
    exists|i: int| 0 <= i < ws.len() && #[trigger] ws[i].key == k
}

/// The routing knowledge base.
pub struct World {
    relationships: Relationships,
    prefixes: Vec<PrefixPaths>,
    weights: Vec<Weight>,
    known_asns: Vec<ASN>,
}

impl World {
    /// No key is stored twice, no path twice under one key, no AS number
    /// twice.
    pub closed spec fn wf(&self) -> bool {
        &&& forall|i: int, j: int|
            0 <= i < j < self.prefixes@.len() ==> (#[trigger] self.prefixes@[i]).key != (
            #[trigger] self.prefixes@[j]).key
        &&& forall|i: int| 0 <= i < self.prefixes@.len() ==> distinct_paths(#[trigger] self.prefixes@[i].paths@)
        &&& forall|i: int, j: int|
            0 <= i < j < self.weights@.len() ==> (#[trigger] self.weights@[i]).key != (
            #[trigger] self.weights@[j]).key
        &&& self.known_asns@.no_duplicates()
    }

    pub closed spec fn rels(&self) -> Relationships {
        self.relationships
    }

    /// The destination prefixes with their weights, in order of first
    /// appearance.
    pub closed spec fn weights(&self) -> Seq<Weight> {
        self.weights@
    }

    /// The paths stored for exactly the prefix `k`.
    pub closed spec fn paths_at(&self, k: PrefixKey) -> Option<Seq<Path>> {
        if exists|i: int| 0 <= i < self.prefixes@.len() && #[trigger] self.prefixes@[i].key == k {
            let i = choose|i: int| 0 <= i < self.prefixes@.len() && #[trigger] self.prefixes@[i].key == k;
            Some(self.prefixes@[i].paths@)
        } else {
            None
        }
    }

    /// The AS numbers met in any announced path.
    pub closed spec fn known(&self) -> Set<ASN> {
        self.known_asns@.to_set()
    }

    /// The weight of `k`, zero where no destination falls in it.
    pub open spec fn weight_at(&self, k: PrefixKey) -> nat {
        if exists|i: int| 0 <= i < self.weights().len() && #[trigger] self.weights()[i].key == k {
            self.weights()[choose|i: int| 0 <= i < self.weights().len() && #[trigger] self.weights()[i].key == k].count as nat
        } else {
            0
        }
    }

    /// The empty knowledge base.
    pub fn new() -> (r: World)
        ensures
            r.wf(),
            forall|a: ASN, b: ASN| r.rels().relation(a, b) == crate::path::ASRelation::No,
            forall|k: PrefixKey| r.paths_at(k).is_none(),
            r.weights().len() == 0,
            r.known() == Set::<ASN>::empty(),
    {
        let r = World {
            relationships: Relationships::new(),
            prefixes: Vec::new(),
            weights: Vec::new(),
            known_asns: Vec::new(),
        };
        assert(r.known() =~= Set::<ASN>::empty());
        r
    }

    /// The AS numbers met in any announced path, each once.
    pub fn known_asns(&self) -> (r: &Vec<ASN>)
        requires
            self.wf(),
        ensures
            r@.to_set() == self.known(),
            r@.no_duplicates(),
    {
        &self.known_asns
    }

    /// The destination prefixes with their weights.
    pub fn weight_list(&self) -> (r: &Vec<Weight>)
        ensures
            r@ == self.weights(),
    {
        &self.weights
    }

    /// The relationship graph.
    pub fn relationships(&self) -> (r: &Relationships)
        ensures
            *r == self.rels(),
    {
        &self.relationships
    }

    /// Records one relationship line (see `Relationships::add`).
    pub fn add_relationship(&mut self, a: ASN, b: ASN, code: i64)
        requires
            old(self).wf(),
        ensures
            final(self).wf(),
            forall|k: PrefixKey| #[trigger] final(self).paths_at(k) == old(self).paths_at(k),
            final(self).weights() == old(self).weights(),
            final(self).known() == old(self).known(),
            code == -1 ==> forall|x: ASN, y: ASN| #[trigger] final(self).rels().relation(x, y) == if x == b && y == a {
                crate::path::ASRelation::Consumes
            } else if x == a && y == b {
                crate::path::ASRelation::Provides
            } else {
                old(self).rels().relation(x, y)
            },
            code == 0 ==> forall|x: ASN, y: ASN| #[trigger] final(self).rels().relation(x, y) == if (x == a && y == b) || (x == b && y == a) {
                crate::path::ASRelation::Peers
            } else {
                old(self).rels().relation(x, y)
            },
            code != -1 && code != 0 ==> forall|x: ASN, y: ASN| #[trigger] final(self).rels().relation(x, y) == old(self).rels().relation(x, y),
    {
        self.relationships.add(a, b, code);
    }

    /// The index of the prefix entry for `k`.
    fn find_prefix(&self, k: PrefixKey) -> (r: Option<usize>)
        ensures
            r matches Some(i) ==> i < self.prefixes@.len() && self.prefixes@[i as int].key == k,
            r.is_none() ==> forall|i: int| 0 <= i < self.prefixes@.len() ==> #[trigger] self.prefixes@[i].key != k,
    {
        let mut i: usize = 0;
        while i < self.prefixes.len()
            invariant
                i <= self.prefixes@.len(),
                forall|j: int| 0 <= j < i ==> #[trigger] self.prefixes@[j].key != k,
            decreases self.prefixes@.len() - i,
        {
            if self.prefixes[i].key == k {
                return Some(i);
            }
            i = i + 1;
        }
        None
    }

    /// The paths stored for exactly the prefix `k`.
    pub fn exact_match(&self, k: PrefixKey) -> (r: Option<&Vec<Path>>)
        requires
            self.wf(),
        ensures
            r matches Some(v) ==> self.paths_at(k) == Some(v@),
            r.is_none() ==> self.paths_at(k).is_none(),
    {
        match self.find_prefix(k) {
            None => None,
            Some(i) => {
                proof {
                    let j = choose|j: int| 0 <= j < self.prefixes@.len() && #[trigger] self.prefixes@[j].key == k;
                    if j != i {
                        if j < i {
                            assert(self.prefixes@[j].key != self.prefixes@[i as int].key);
                        } else {
                            assert(self.prefixes@[i as int].key != self.prefixes@[j].key);
                        }
                    }
                }
                Some(&self.prefixes[i].paths)
            },
        }
    }
}

proof fn lemma_lookup_at(ps: Seq<PrefixPaths>, k: PrefixKey, i: int)
    requires
        forall|a: int, b: int| 0 <= a < b < ps.len() ==> (#[trigger] ps[a]).key != (#[trigger] ps[b]).key,
        0 <= i < ps.len(),
        ps[i].key == k,
    ensures
        (choose|j: int| 0 <= j < ps.len() && #[trigger] ps[j].key == k) == i,
{
    let j = choose|j: int| 0 <= j < ps.len() && #[trigger] ps[j].key == k;
    if j < i {
        assert(ps[j].key != ps[i].key);
    } else if j > i {
        assert(ps[i].key != ps[j].key);
    }
}

impl World {
    /// Adds every concrete path of an AS-path field to the paths stored for
    /// exactly `key`, and its AS numbers to the known ones; returns false,
    /// changing nothing, where the field is not well formed.
    pub fn add_announcement(&mut self, key: PrefixKey, path: &str) -> (r: bool)
        requires
            old(self).wf(),
        ensures
            final(self).wf(),
            final(self).rels() == old(self).rels(),
            final(self).weights() == old(self).weights(),
            r == alternatives_of(split_on(path.spec_bytes(), 32)).is_some(),
            !r ==> forall|k: PrefixKey| #[trigger] final(self).paths_at(k) == old(self).paths_at(k),
            !r ==> final(self).known() == old(self).known(),
            alternatives_of(split_on(path.spec_bytes(), 32)) matches Some(alts) ==> {
                &&& final(self).paths_at(key) matches Some(v) && forall|q: Seq<ASN>|
                    #[trigger] has_path(v, q) <==> ((old(self).paths_at(key) matches Some(o) && has_path(o, q)) || fits(alts, 0, q))
                &&& forall|k: PrefixKey| k != key ==> #[trigger] final(self).paths_at(k) == old(self).paths_at(k)
                &&& forall|x: ASN| #[trigger] final(self).known().contains(x) <==> (old(self).known().contains(x) || exists|q: Seq<ASN>| fits(alts, 0, q) && q.contains(x))
            },
    {
        let parsed = Path::build_from_str(path);
        let v = match parsed {
            None => { return false; },
            Some(v) => v,
        };
        let ghost alts = alternatives_of(split_on(path.spec_bytes(), 32)).unwrap();
        let ghost k0 = self.known();
        let mut i: usize = 0;
        while i < v.len()
            invariant
                i <= v.len(),
                self.prefixes@ == old(self).prefixes@,
                self.weights@ == old(self).weights@,
                self.relationships == old(self).relationships,
                self.known_asns@.no_duplicates(),
                forall|x: ASN| #[trigger] self.known_asns@.to_set().contains(x) <==> (k0.contains(x) || exists|j: int| 0 <= j < i && v@[j]@.contains(x)),
            decreases v.len() - i,
        {
            let ghost prev = self.known_asns@;
            self.known_asns = unite(&self.known_asns, &v[i].path);
            assert forall|x: ASN| #[trigger] self.known_asns@.to_set().contains(x) <==> (k0.contains(x) || exists|j: int| 0 <= j < i + 1 && v@[j]@.contains(x)) by {
                assert(prev.to_set().contains(x) <==> prev.contains(x));
                assert(self.known_asns@.to_set().contains(x) <==> (prev.to_set().contains(x) || v@[i as int]@.to_set().contains(x)));
                if v@[i as int]@.contains(x) {
                    assert(exists|j: int| 0 <= j < i + 1 && v@[j]@.contains(x));
                }
                if exists|j: int| 0 <= j < i + 1 && v@[j]@.contains(x) {
                    let j = choose|j: int| 0 <= j < i + 1 && v@[j]@.contains(x);
                    if j == i {
                        assert(v@[i as int]@.to_set().contains(x));
                    }
                }
            }
            i = i + 1;
        }
        assert forall|x: ASN| #[trigger] self.known_asns@.to_set().contains(x) <==> (k0.contains(x) || exists|q: Seq<ASN>| fits(alts, 0, q) && q.contains(x)) by {
            if exists|j: int| 0 <= j < v@.len() && v@[j]@.contains(x) {
                let j = choose|j: int| 0 <= j < v@.len() && v@[j]@.contains(x);
                assert(has_path(v@, v@[j]@));
            }
            if exists|q: Seq<ASN>| fits(alts, 0, q) && q.contains(x) {
                let q = choose|q: Seq<ASN>| fits(alts, 0, q) && q.contains(x);
                assert(has_path(v@, q));
                let j = choose|j: int| 0 <= j < v@.len() && (#[trigger] v@[j])@ == q;
                assert(v@[j]@.contains(x));
            }
        }
        let ghost ps0 = self.prefixes@;
        let ghost kn = self.known_asns@;
        match self.find_prefix(key) {
            None => {
                let entry = PrefixPaths { key, paths: v };
                self.prefixes.push(entry);
                proof {
                    let n = ps0.len() as int;
                    assert forall|a: int, b: int| 0 <= a < b < self.prefixes@.len() implies (#[trigger] self.prefixes@[a]).key != (#[trigger] self.prefixes@[b]).key by {
                        assert(self.prefixes@[a] == ps0[a]);
                        if b < n {
                            assert(self.prefixes@[b] == ps0[b]);
                        }
                    }
                    lemma_lookup_at(self.prefixes@, key, n);
                    assert(old(self).paths_at(key).is_none());
                    assert forall|q: Seq<ASN>| #[trigger] has_path(v@, q) <==> fits(alts, 0, q) by {}
                    assert forall|k: PrefixKey| k != key implies #[trigger] self.paths_at(k) == old(self).paths_at(k) by {
                        if exists|j: int| 0 <= j < ps0.len() && #[trigger] ps0[j].key == k {
                            let j = choose|j: int| 0 <= j < ps0.len() && #[trigger] ps0[j].key == k;
                            lemma_lookup_at(ps0, k, j);
                            assert(self.prefixes@[j] == ps0[j]);
                            lemma_lookup_at(self.prefixes@, k, j);
                        } else {
                            assert forall|j: int| 0 <= j < self.prefixes@.len() implies #[trigger] self.prefixes@[j].key != k by {
                                if j < n {
                                    assert(self.prefixes@[j] == ps0[j]);
                                }
                            }
                        }
                    }
                }
            },
            Some(idx) => {
                proof {
                    lemma_lookup_at(ps0, key, idx as int);
                }
                let ghost o = ps0[idx as int].paths@;
                let mut j: usize = 0;
                while j < v.len()
                    invariant
                        idx < self.prefixes@.len(),
                        self.weights@ == old(self).weights@,
                        self.relationships == old(self).relationships,
                        self.known_asns@ == kn,
                        kn.no_duplicates(),
                        forall|x: ASN| #[trigger] kn.to_set().contains(x) <==> (k0.contains(x) || exists|q: Seq<ASN>| fits(alts, 0, q) && q.contains(x)),
                        forall|m: int| 0 <= m < ps0.len() ==> distinct_paths(#[trigger] ps0[m].paths@),
                        forall|a: int, b: int| 0 <= a < b < ps0.len() ==> (#[trigger] ps0[a]).key != (#[trigger] ps0[b]).key,
                        self.prefixes@.len() == ps0.len(),
                        forall|m: int| 0 <= m < ps0.len() && m != idx ==> #[trigger] self.prefixes@[m] == ps0[m],
                        self.prefixes@[idx as int].key == key,
                        distinct_paths(self.prefixes@[idx as int].paths@),
                        j <= v.len(),
                        forall|q: Seq<ASN>| #[trigger] has_path(self.prefixes@[idx as int].paths@, q) <==> (has_path(o, q) || exists|m: int| 0 <= m < j && v@[m]@ == q),
                    decreases v.len() - j,
                {
                    let ghost before = self.prefixes@[idx as int].paths@;
                    if !contains_path(&self.prefixes[idx].paths, &v[j]) {
                        let p = v[j].duplicate();
                        self.prefixes[idx].paths.push(p);
                        proof {
                            assert(self.prefixes@[idx as int].paths@ == before.push(p));
                            assert forall|a: int, b: int| 0 <= a < b < before.len() + 1 implies (#[trigger] before.push(p)[a])@ != (#[trigger] before.push(p)[b])@ by {
                                if b == before.len() {
                                    assert(before.push(p)[a] == before[a]);
                                }
                            }
                        }
                    }
                    assert forall|q: Seq<ASN>| #[trigger] has_path(self.prefixes@[idx as int].paths@, q) <==> (has_path(o, q) || exists|m: int| 0 <= m < j + 1 && v@[m]@ == q) by {
                        let now = self.prefixes@[idx as int].paths@;
                        if has_path(before, q) {
                            let a = choose|a: int| 0 <= a < before.len() && (#[trigger] before[a])@ == q;
                            assert(now[a] == before[a]);
                        }
                        if has_path(now, q) && !has_path(before, q) {
                            let a = choose|a: int| 0 <= a < now.len() && (#[trigger] now[a])@ == q;
                            if a < before.len() {
                                assert(now[a] == before[a]);
                            }
                            assert(v@[j as int]@ == q);
                        }
                        if v@[j as int]@ == q && !has_path(before, q) {
                            assert(now[before.len() as int]@ == q);
                        }
                    }
                    j = j + 1;
                }
                proof {
                    let ps = self.prefixes@;
                    assert forall|a: int, b: int| 0 <= a < b < ps.len() implies (#[trigger] ps[a]).key != (#[trigger] ps[b]).key by {
                        assert(ps[a].key == ps0[a].key);
                        assert(ps[b].key == ps0[b].key);
                    }
                    lemma_lookup_at(ps, key, idx as int);
                    assert forall|q: Seq<ASN>| #[trigger] has_path(ps[idx as int].paths@, q) <==> (has_path(o, q) || fits(alts, 0, q)) by {
                        if exists|m: int| 0 <= m < v@.len() && v@[m]@ == q {
                            let m = choose|m: int| 0 <= m < v@.len() && v@[m]@ == q;
                            assert(has_path(v@, q));
                        }
                        if fits(alts, 0, q) {
                            assert(has_path(v@, q));
                        }
                    }
                    assert forall|k: PrefixKey| k != key implies #[trigger] self.paths_at(k) == old(self).paths_at(k) by {
                        if exists|j: int| 0 <= j < ps0.len() && #[trigger] ps0[j].key == k {
                            let j = choose|j: int| 0 <= j < ps0.len() && #[trigger] ps0[j].key == k;
                            lemma_lookup_at(ps0, k, j);
                            assert(ps[j] == ps0[j]);
                            lemma_lookup_at(ps, k, j);
                        } else {
                            assert forall|j: int| 0 <= j < ps.len() implies #[trigger] ps[j].key != k by {
                                assert(ps[j].key == ps0[j].key);
                            }
                        }
                    }
                }
            },
        }
        true
    }

    fn find_weight(&self, k: PrefixKey) -> (r: Option<usize>)
        ensures
            r matches Some(i) ==> i < self.weights@.len() && self.weights@[i as int].key == k,
            r.is_none() ==> forall|i: int| 0 <= i < self.weights@.len() ==> #[trigger] self.weights@[i].key != k,
    {
        let mut i: usize = 0;
        while i < self.weights.len()
            invariant
                i <= self.weights@.len(),
                forall|j: int| 0 <= j < i ==> #[trigger] self.weights@[j].key != k,
            decreases self.weights@.len() - i,
        {
            if self.weights[i].key == k {
                return Some(i);
            }
            i = i + 1;
        }
        None
    }

    /// The weight of `k`.
    pub fn weight_of(&self, k: PrefixKey) -> (r: u64)
        requires
            self.wf(),
        ensures
            r == self.weight_at(k),
    {
        match self.find_weight(k) {
            None => 0,
            Some(i) => {
                proof {
                    lemma_weight_at(self.weights@, k, i as int);
                }
                self.weights[i].count
            },
        }
    }

    /// Counts one destination whose address falls in `matched`, the most
    /// specific stored prefix that covers it.
    pub fn add_destination(&mut self, matched: PrefixKey)
        requires
            old(self).wf(),
            old(self).weight_at(matched) < u64::MAX,
        ensures
            final(self).wf(),
            final(self).rels() == old(self).rels(),
            forall|k: PrefixKey| #[trigger] final(self).paths_at(k) == old(self).paths_at(k),
            final(self).known() == old(self).known(),
            forall|k: PrefixKey| #[trigger] final(self).weight_at(k) == old(self).weight_at(k) + if k == matched { 1int } else { 0int },
            forall|i: int| 0 <= i < old(self).weights().len() ==> #[trigger] final(self).weights()[i].key == old(self).weights()[i].key,
            final(self).weights().len() == old(self).weights().len() + if weighted_in(old(self).weights(), matched) { 0int } else { 1int },
            !weighted_in(old(self).weights(), matched) ==> final(self).weights().last().key == matched,
    {
        let ghost w0 = self.weights@;
        match self.find_weight(matched) {
            None => {
                self.weights.push(Weight { key: matched, count: 1 });
                proof {
                    let n = w0.len() as int;
                    assert forall|a: int, b: int| 0 <= a < b < self.weights@.len() implies (#[trigger] self.weights@[a]).key != (#[trigger] self.weights@[b]).key by {
                        assert(self.weights@[a] == w0[a]);
                        if b < n {
                            assert(self.weights@[b] == w0[b]);
                        }
                    }
                    lemma_weight_at(self.weights@, matched, n);
                    assert forall|k: PrefixKey| #[trigger] self.weight_at(k) == old(self).weight_at(k) + if k == matched { 1int } else { 0int } by {
                        if k != matched {
                            if exists|j: int| 0 <= j < w0.len() && #[trigger] w0[j].key == k {
                                let j = choose|j: int| 0 <= j < w0.len() && #[trigger] w0[j].key == k;
                                lemma_weight_at(w0, k, j);
                                assert(self.weights@[j] == w0[j]);
                                lemma_weight_at(self.weights@, k, j);
                            } else {
                                assert forall|j: int| 0 <= j < self.weights@.len() implies #[trigger] self.weights@[j].key != k by {
                                    if j < n {
                                        assert(self.weights@[j] == w0[j]);
                                    }
                                }
                            }
                        }
                    }
                }
            },
            Some(i) => {
                proof {
                    lemma_weight_at(w0, matched, i as int);
                }
                let c = self.weights[i].count;
                self.weights.set(i, Weight { key: matched, count: c + 1 });
                proof {
                    let ws = self.weights@;
                    assert forall|a: int, b: int| 0 <= a < b < ws.len() implies (#[trigger] ws[a]).key != (#[trigger] ws[b]).key by {
                        assert(ws[a].key == w0[a].key);
                        assert(ws[b].key == w0[b].key);
                    }
                    lemma_weight_at(ws, matched, i as int);
                    assert forall|k: PrefixKey| #[trigger] self.weight_at(k) == old(self).weight_at(k) + if k == matched { 1int } else { 0int } by {
                        if k != matched {
                            if exists|j: int| 0 <= j < w0.len() && #[trigger] w0[j].key == k {
                                let j = choose|j: int| 0 <= j < w0.len() && #[trigger] w0[j].key == k;
                                lemma_weight_at(w0, k, j);
                                assert(ws[j] == w0[j]);
                                lemma_weight_at(ws, k, j);
                            } else {
                                assert forall|j: int| 0 <= j < ws.len() implies #[trigger] ws[j].key != k by {
                                    assert(ws[j].key == w0[j].key);
                                }
                            }
                        }
                    }
                }
            },
        }
    }
}

/// Two weight entries at distinct positions have distinct keys.
pub proof fn lemma_weight_keys_unique(w: &World, i: int, j: int)
    requires
        w.wf(),
        0 <= i < w.weights().len(),
        0 <= j < w.weights().len(),
        i != j,
    ensures
        w.weights()[i].key != w.weights()[j].key,
{
    if i < j {
        assert(w.weights@[i].key != w.weights@[j].key);
    } else {
        assert(w.weights@[j].key != w.weights@[i].key);
    }
}

proof fn lemma_weight_at(ws: Seq<Weight>, k: PrefixKey, i: int)
    requires
        forall|a: int, b: int| 0 <= a < b < ws.len() ==> (#[trigger] ws[a]).key != (#[trigger] ws[b]).key,
        0 <= i < ws.len(),
        ws[i].key == k,
    ensures
        (choose|j: int| 0 <= j < ws.len() && #[trigger] ws[j].key == k) == i,
{
    let j = choose|j: int| 0 <= j < ws.len() && #[trigger] ws[j].key == k;
    if j < i {
        assert(ws[j].key != ws[i].key);
    } else if j > i {
        assert(ws[i].key != ws[j].key);
    }
}

} // verus!
