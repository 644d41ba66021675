//! Finite sets of AS numbers, held as vectors without repeated elements.

use vstd::prelude::*;

verus! {

/// An AS number.
pub type ASN = u64;

/// The set that a duplicate-free vector stands for.
pub open spec fn set_of(v: Seq<ASN>) -> Set<ASN> {
    v.to_set()
}

proof fn lemma_push_contains(s: Seq<ASN>, x: ASN)
    ensures
        forall|y: ASN| #[trigger] s.push(x).contains(y) <==> (s.contains(y) || y == x),
{
    assert forall|y: ASN| #[trigger] s.push(x).contains(y) <==> (s.contains(y) || y == x) by {
        if s.contains(y) {
            let k = choose|k: int| 0 <= k < s.len() && s[k] == y;
            assert(s.push(x)[k] == y);
        }
        if y == x {
            assert(s.push(x)[s.len() as int] == x);
        }
        if s.push(x).contains(y) {
            let k = choose|k: int| 0 <= k < s.len() + 1 && s.push(x)[k] == y;
            if k < s.len() {
                assert(s[k] == y);
            }
        }
    }
}

/// Whether `x` is one of the elements of `v`.
pub fn member(v: &Vec<ASN>, x: ASN) -> (r: bool)
    ensures
        r == v@.contains(x),
{
    let mut i: usize = 0;
    while i < v.len()
        invariant
            0 <= i <= v.len(),
            forall|k: int| 0 <= k < i ==> v@[k] != x,
        decreases v.len() - i,
    {
        if v[i] == x {
            return true;
        }
        i = i + 1;
    }
    false
}

/// The elements of `v`, each once, in order of first appearance.
pub fn distinct(v: &Vec<ASN>) -> (r: Vec<ASN>)
    ensures
        r@.no_duplicates(),
        r@.to_set() == v@.to_set(),
{
    let mut r: Vec<ASN> = Vec::new();
    let mut i: usize = 0;
    while i < v.len()
        invariant
            0 <= i <= v.len(),
            r@.no_duplicates(),
            forall|x: ASN| r@.contains(x) <==> exists|k: int| 0 <= k < i && v@[k] == x,
        decreases v.len() - i,
    {
        let x = v[i];
        let ghost r0 = r@;
        if !member(&r, x) {
            r.push(x);
            proof { lemma_push_contains(r0, x); }
        }
        assert forall|y: ASN| r@.contains(y) <==> exists|k: int| 0 <= k < i + 1 && v@[k] == y by {
            if y == x {
                assert(v@[i as int] == y);
            }
            if exists|k: int| 0 <= k < i + 1 && v@[k] == y {
                let k = choose|k: int| 0 <= k < i + 1 && v@[k] == y;
                if k < i {
                    assert(r0.contains(y));
                }
            }
        }
        i = i + 1;
    }
    assert(r@.to_set() =~= v@.to_set());
    r
}

/// The elements of `a` that are also in `b`.
pub fn intersect(a: &Vec<ASN>, b: &Vec<ASN>) -> (r: Vec<ASN>)
    requires
        a@.no_duplicates(),
    ensures
        r@.no_duplicates(),
        r@.to_set() == a@.to_set().intersect(b@.to_set()),
{
    let mut r: Vec<ASN> = Vec::new();
    let mut i: usize = 0;
    while i < a.len()
        invariant
            0 <= i <= a.len(),
            a@.no_duplicates(),
            r@.no_duplicates(),
            forall|x: ASN| r@.contains(x) <==> (exists|k: int| 0 <= k < i && a@[k] == x && b@.contains(x)),
        decreases a.len() - i,
    {
        let x = a[i];
        let ghost r0 = r@;
        if member(b, x) {
            proof {
                if r@.contains(x) {
                    let k = choose|k: int| 0 <= k < i && a@[k] == x;
                    assert(a@[k] == a@[i as int]);
                }
            }
            r.push(x);
            proof { lemma_push_contains(r0, x); }
        }
        assert forall|y: ASN| r@.contains(y) <==> (exists|k: int| 0 <= k < i + 1 && a@[k] == y && b@.contains(y)) by {
            if y == x {
                assert(a@[i as int] == y);
            }
            if exists|k: int| 0 <= k < i + 1 && a@[k] == y && b@.contains(y) {
                let k = choose|k: int| 0 <= k < i + 1 && a@[k] == y && b@.contains(y);
                if k < i {
                    assert(r0.contains(y));
                }
            }
        }
        i = i + 1;
    }
    assert(r@.to_set() =~= a@.to_set().intersect(b@.to_set()));
    r
}

/// The elements of `a`, followed by those of `b` that are not in `a`.
pub fn unite(a: &Vec<ASN>, b: &Vec<ASN>) -> (r: Vec<ASN>)
    requires
        a@.no_duplicates(),
    ensures
        r@.no_duplicates(),
        r@.to_set() == a@.to_set().union(b@.to_set()),
{
    let mut r: Vec<ASN> = a.clone();
    let mut i: usize = 0;
    while i < b.len()
        invariant
            0 <= i <= b.len(),
            r@.no_duplicates(),
            forall|x: ASN| r@.contains(x) <==> (a@.contains(x) || exists|k: int| 0 <= k < i && b@[k] == x),
        decreases b.len() - i,
    {
        let x = b[i];
        let ghost r0 = r@;
        if !member(&r, x) {
            r.push(x);
            proof { lemma_push_contains(r0, x); }
        }
        assert forall|y: ASN| r@.contains(y) <==> (a@.contains(y) || exists|k: int| 0 <= k < i + 1 && b@[k] == y) by {
            if y == x {
                assert(b@[i as int] == y);
            }
            if exists|k: int| 0 <= k < i + 1 && b@[k] == y {
                let k = choose|k: int| 0 <= k < i + 1 && b@[k] == y;
                if k < i {
                    assert(r0.contains(y));
                }
            }
        }
        i = i + 1;
    }
    assert(r@.to_set() =~= a@.to_set().union(b@.to_set()));
    r
}

/// The number of elements that two sets share.
pub fn common_count(a: &Vec<ASN>, b: &Vec<ASN>) -> (r: usize)
    requires
        a@.no_duplicates(),
    ensures
        r == a@.to_set().intersect(b@.to_set()).len(),
{
    let c = intersect(a, b);
    proof {
        c@.unique_seq_to_set();
    }
    c.len()
}

} // verus!
