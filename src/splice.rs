//! Joining a path out of a vantage with a path towards a destination at a
//! shared AS, and choosing the best joined path.

use vstd::prelude::*;

use crate::asset::ASN;
use crate::path::{valley_free, Path, Relationships};
use crate::world::World;

verus! {

/// `a[i]` and `b[j]` are the same AS.
pub open spec fn shared_at(a: Seq<ASN>, b: Seq<ASN>, i: int, j: int) -> bool {
    0 <= i < a.len() && 0 <= j < b.len() && a[i] == b[j]
}

/// The two paths share at least one AS.
pub open spec fn can_splice(a: Seq<ASN>, b: Seq<ASN>) -> bool {
    exists|i: int, j: int| shared_at(a, b, i, j)
}

/// `(i, j)` is the shared position with the largest `i + j`; among those,
/// the one with the largest `i`.
pub open spec fn best_branch(a: Seq<ASN>, b: Seq<ASN>, i: int, j: int) -> bool {
    shared_at(a, b, i, j) && forall|i2: int, j2: int|
        #[trigger] shared_at(a, b, i2, j2) ==> (i2 + j2 < i + j || (i2 + j2 == i + j && i2 <= i))
}

/// `a[i..]` backwards, then `b[j + 1..]`.
pub open spec fn merged(a: Seq<ASN>, b: Seq<ASN>, i: int, j: int) -> Seq<ASN> {
    Seq::new((a.len() - i) as nat, |k: int| a[a.len() - 1 - k]) + b.subrange(j + 1, b.len() as int)
}

/// `p` is the path that splicing `a` with `b` gives.
pub open spec fn is_splice(a: Seq<ASN>, b: Seq<ASN>, p: Seq<ASN>) -> bool {
    exists|i: int, j: int| best_branch(a, b, i, j) && p == merged(a, b, i, j)
}

/// Some path out of `src` spliced with some path of `dst` gives `p`.
pub open spec fn candidate(src: Seq<Path>, dst: Seq<Path>, p: Seq<ASN>) -> bool {
    exists|x: int, y: int|
        0 <= x < src.len() && 0 <= y < dst.len() && #[trigger] is_splice(src[x]@, dst[y]@, p)
}

/// `p` and `q` have the same length and `p` does not come after `q` in
/// lexicographic order.
pub open spec fn lex_le(p: Seq<ASN>, q: Seq<ASN>) -> bool {
    p.len() == q.len() && (p == q || exists|k: int|
        0 <= k < p.len() && p[k] < q[k] && forall|m: int| 0 <= m < k ==> p[m] == q[m])
}

/// `p` is shorter than `q`, or as long and not after it lexicographically.
pub open spec fn precedes(p: Seq<ASN>, q: Seq<ASN>) -> bool {
    p.len() < q.len() || lex_le(p, q)
}

/// `p` is the path chosen among the candidates: valley-free if any
/// candidate is, and the first in `precedes` order among the candidates of
/// its class.
pub open spec fn best_route(rels: &Relationships, src: Seq<Path>, dst: Seq<Path>, p: Seq<ASN>) -> bool {
    &&& candidate(src, dst, p)
    &&& valley_free(rels, p) <==> exists|q: Seq<ASN>| candidate(src, dst, q) && valley_free(rels, q)
    &&& forall|q: Seq<ASN>|
        candidate(src, dst, q) && valley_free(rels, q) == valley_free(rels, p) ==> precedes(p, q)
}

pub proof fn lemma_best_branch_unique(a: Seq<ASN>, b: Seq<ASN>, i: int, j: int, i2: int, j2: int)
    requires
        best_branch(a, b, i, j),
        best_branch(a, b, i2, j2),
    ensures
        i == i2 && j == j2,
{
    assert(shared_at(a, b, i2, j2));
    assert(shared_at(a, b, i, j));
}

pub proof fn lemma_splice_unique(a: Seq<ASN>, b: Seq<ASN>, p: Seq<ASN>, q: Seq<ASN>)
    requires
        is_splice(a, b, p),
        is_splice(a, b, q),
    ensures
        p == q,
{
    let (i, j) = choose|i: int, j: int| best_branch(a, b, i, j) && p == merged(a, b, i, j);
    let (i2, j2) = choose|i: int, j: int| best_branch(a, b, i, j) && q == merged(a, b, i, j);
    lemma_best_branch_unique(a, b, i, j, i2, j2);
}

pub proof fn lemma_precedes_transitive(p: Seq<ASN>, q: Seq<ASN>, r: Seq<ASN>)
    requires
        precedes(p, q),
        precedes(q, r),
    ensures
        precedes(p, r),
{
    if lex_le(p, q) && lex_le(q, r) && p != q && q != r {
        let k1 = choose|k: int|
            0 <= k < p.len() && p[k] < q[k] && forall|m: int| 0 <= m < k ==> p[m] == q[m];
        let k2 = choose|k: int|
            0 <= k < q.len() && q[k] < r[k] && forall|m: int| 0 <= m < k ==> q[m] == r[m];
        let k = if k1 < k2 {
            k1
        } else {
            k2
        };
        assert(p[k] < r[k] && forall|m: int| 0 <= m < k ==> p[m] == r[m]);
    }
}

/// Splicing a non-empty path with itself succeeds, and gives a path no
/// longer than it: its last AS alone.
pub proof fn lemma_splice_self(a: Seq<ASN>)
    requires
        a.len() > 0,
    ensures
        can_splice(a, a),
        is_splice(a, a, seq![a.last()]),
        forall|p: Seq<ASN>| is_splice(a, a, p) ==> p.len() <= a.len(),
{
    let n = a.len() - 1;
    assert(shared_at(a, a, n, n));
    assert(best_branch(a, a, n, n));
    assert(merged(a, a, n, n) =~= seq![a.last()]);
    assert forall|p: Seq<ASN>| is_splice(a, a, p) implies p.len() <= a.len() by {
        let (i, j) = choose|i: int, j: int| best_branch(a, a, i, j) && p == merged(a, a, i, j);
        lemma_best_branch_unique(a, a, i, j, n, n);
    }
}

/// Of two shared positions, the one with the larger index sum; `pair` on a
/// tie.
fn choose_best_option(pair: (usize, usize), current: (usize, usize)) -> (r: (usize, usize))
    ensures
        (current.0 + current.1 > pair.0 + pair.1) ==> r == current,
        (current.0 + current.1 <= pair.0 + pair.1) ==> r == pair,
{
    if (current.0 as u128) + (current.1 as u128) > (pair.0 as u128) + (pair.1 as u128) {
        current
    } else {
        pair
    }
}

/// The best shared position of `a` and `b`, if they share an AS.
pub fn find_branching_point(a: &Vec<ASN>, b: &Vec<ASN>) -> (r: Option<(usize, usize)>)
    ensures
        r.is_none() <==> !can_splice(a@, b@),
        r matches Some((i, j)) ==> best_branch(a@, b@, i as int, j as int),
{
    let mut ret: Option<(usize, usize)> = None;
    let mut ai: usize = 0;
    while ai < a.len()
        invariant
            ai <= a.len(),
            ret.is_none() ==> forall|i2: int, j2: int| #[trigger] shared_at(a@, b@, i2, j2) ==> i2 >= ai,
            ret matches Some((i, j)) ==> shared_at(a@, b@, i as int, j as int) && i < ai && forall|
                i2: int,
                j2: int,
            | #[trigger] shared_at(a@, b@, i2, j2) && i2 < ai ==> (i2 + j2 < i + j || (i2 + j2
                == i + j && i2 <= i)),
        decreases a.len() - ai,
    {
        let asn = a[ai];
        let mut bj: usize = b.len();
        while bj > 0 && b[bj - 1] != asn
            invariant
                bj <= b.len(),
                ai < a.len(),
                asn == a@[ai as int],
                forall|j2: int| bj <= j2 < b.len() ==> b@[j2] != asn,
            decreases bj,
        {
            bj = bj - 1;
        }
        if bj > 0 {
            let default = (ai, bj - 1);
            ret = match ret {
                None => Some(default),
                Some(cur) => Some(choose_best_option(default, cur)),
            };
        } else {
            assert(forall|j2: int| 0 <= j2 < b.len() ==> b@[j2] != asn);
        }
        ai = ai + 1;
    }
    proof {
        if ret.is_none() && can_splice(a@, b@) {
            let (i2, j2) = choose|i: int, j: int| shared_at(a@, b@, i, j);
            assert(shared_at(a@, b@, i2, j2));
        }
    }
    ret
}

/// Splices `src_in_path` with `dst_in_path` at their best shared AS.
pub fn intersect_paths(src_in_path: &Path, dst_in_path: &Path) -> (r: Option<Path>)
    ensures
        r.is_none() <==> !can_splice(src_in_path@, dst_in_path@),
        r matches Some(p) ==> is_splice(src_in_path@, dst_in_path@, p@),
{
    let a = &src_in_path.path;
    let b = &dst_in_path.path;
    match find_branching_point(a, b) {
        None => None,
        Some((bi, bj)) => {
            assert(shared_at(a@, b@, bi as int, bj as int));
            let mut ret: Vec<ASN> = Vec::new();
            let mut n: usize = a.len();
            while n > bi
                invariant
                    bi < a.len(),
                    bj < b.len(),
                    bi <= n <= a.len(),
                    ret@ =~= Seq::new((a.len() - n) as nat, |k: int| a@[a.len() - 1 - k]),
                decreases n,
            {
                ret.push(a[n - 1]);
                n = n - 1;
            }
            let mut m: usize = bj + 1;
            let ghost head = ret@;
            while m < b.len()
                invariant
                    bj + 1 <= m <= b.len(),
                    ret@ =~= head + b@.subrange(bj + 1, m as int),
                decreases b.len() - m,
            {
                ret.push(b[m]);
                m = m + 1;
            }
            assert(ret@ == merged(a@, b@, bi as int, bj as int));
            Some(Path { path: ret })
        },
    }
}

/// Whether `p` comes first in `precedes` order; where it does not, `q`
/// does.
pub fn precedes_exec(p: &Vec<ASN>, q: &Vec<ASN>) -> (r: bool)
    ensures
        r == precedes(p@, q@),
        !r ==> precedes(q@, p@),
{
    if p.len() != q.len() {
        return p.len() < q.len();
    }
    let mut k: usize = 0;
    while k < p.len()
        invariant
            p.len() == q.len(),
            k <= p.len(),
            forall|m: int| 0 <= m < k ==> p@[m] == q@[m],
        decreases p.len() - k,
    {
        if p[k] != q[k] {
            if p[k] < q[k] {
                return true;
            } else {
                assert(lex_le(q@, p@));
                assert(p@ != q@);
                proof {
                    if exists|k2: int|
                        0 <= k2 < p@.len() && p@[k2] < q@[k2] && forall|m: int|
                            0 <= m < k2 ==> p@[m] == q@[m] {
                        let k2 = choose|k2: int|
                            0 <= k2 < p@.len() && p@[k2] < q@[k2] && forall|m: int|
                                0 <= m < k2 ==> p@[m] == q@[m];
                        if k2 > k {
                            assert(p@[k as int] == q@[k as int]);
                        }
                    }
                }
                return false;
            }
        }
        k = k + 1;
    }
    assert(p@ =~= q@);
    true
}

/// `p` is spliced from a pair of paths that comes before `(x, y)`, rows
/// first.
pub open spec fn cand_upto(src: Seq<Path>, dst: Seq<Path>, p: Seq<ASN>, x: int, y: int) -> bool {
    exists|x2: int, y2: int|
        0 <= x2 < src.len() && 0 <= y2 < dst.len() && (x2 < x || (x2 == x && y2 < y))
            && #[trigger] is_splice(src[x2]@, dst[y2]@, p)
}

proof fn lemma_cand_step(
    src: Seq<Path>,
    dst: Seq<Path>,
    x: int,
    y: int,
    c: Option<Seq<ASN>>,
)
    requires
        0 <= x < src.len(),
        0 <= y < dst.len(),
        c.is_none() <==> !can_splice(src[x]@, dst[y]@),
        c matches Some(p) ==> is_splice(src[x]@, dst[y]@, p),
    ensures
        forall|q: Seq<ASN>|
            #[trigger] cand_upto(src, dst, q, x, y + 1) <==> (cand_upto(src, dst, q, x, y) || c
                == Some(q)),
{
    assert forall|q: Seq<ASN>|
        #[trigger] cand_upto(src, dst, q, x, y + 1) <==> (cand_upto(src, dst, q, x, y) || c
            == Some(q)) by {
        if cand_upto(src, dst, q, x, y + 1) && !cand_upto(src, dst, q, x, y) {
            let (x2, y2) = choose|x2: int, y2: int|
                0 <= x2 < src.len() && 0 <= y2 < dst.len() && (x2 < x || (x2 == x && y2 < y + 1))
                    && #[trigger] is_splice(src[x2]@, dst[y2]@, q);
            assert(x2 == x && y2 == y);
            let (i, j) = choose|i: int, j: int|
                best_branch(src[x]@, dst[y]@, i, j) && q == merged(src[x]@, dst[y]@, i, j);
            assert(shared_at(src[x]@, dst[y]@, i, j));
            lemma_splice_unique(src[x]@, dst[y]@, q, c.unwrap());
        }
        if c == Some(q) {
            assert(is_splice(src[x]@, dst[y]@, q));
        }
    }
}

proof fn lemma_cand_row(src: Seq<Path>, dst: Seq<Path>, x: int)
    ensures
        forall|q: Seq<ASN>|
            #[trigger] cand_upto(src, dst, q, x, dst.len() as int) <==> cand_upto(src, dst, q, x + 1, 0),
{
    assert forall|q: Seq<ASN>|
        #[trigger] cand_upto(src, dst, q, x, dst.len() as int) <==> cand_upto(src, dst, q, x + 1, 0) by {
        if cand_upto(src, dst, q, x + 1, 0) {
            let (x2, y2) = choose|x2: int, y2: int|
                0 <= x2 < src.len() && 0 <= y2 < dst.len() && (x2 < x + 1 || (x2 == x + 1 && y2 < 0))
                    && #[trigger] is_splice(src[x2]@, dst[y2]@, q);
            assert(x2 < x || (x2 == x && y2 < dst.len()));
        }
    }
}

/// `best` is the first in `precedes` order among the candidates seen so far
/// whose valley-freeness is `vf`, and is `None` where there are none.
pub open spec fn best_of_class(
    rels: &Relationships,
    src: Seq<Path>,
    dst: Seq<Path>,
    x: int,
    y: int,
    vf: bool,
    best: Option<Path>,
) -> bool {
    match best {
        None => forall|q: Seq<ASN>|
            #[trigger] cand_upto(src, dst, q, x, y) ==> valley_free(rels, q) != vf,
        Some(p) => cand_upto(src, dst, p@, x, y) && valley_free(rels, p@) == vf && forall|
            q: Seq<ASN>,
        | #[trigger] cand_upto(src, dst, q, x, y) && valley_free(rels, q) == vf ==> precedes(p@, q),
    }
}

proof fn lemma_class_row(
    rels: &Relationships,
    src: Seq<Path>,
    dst: Seq<Path>,
    x: int,
    vf: bool,
    best: Option<Path>,
)
    requires
        best_of_class(rels, src, dst, x, dst.len() as int, vf, best),
    ensures
        best_of_class(rels, src, dst, x + 1, 0, vf, best),
{
    lemma_cand_row(src, dst, x);
    match best {
        None => {
            assert forall|q: Seq<ASN>| #[trigger] cand_upto(src, dst, q, x + 1, 0) implies valley_free(rels, q) != vf by {
                assert(cand_upto(src, dst, q, x, dst.len() as int));
            }
        },
        Some(p) => {
            assert(cand_upto(src, dst, p@, x, dst.len() as int));
            assert forall|q: Seq<ASN>| #[trigger] cand_upto(src, dst, q, x + 1, 0) && valley_free(rels, q) == vf implies precedes(p@, q) by {
                assert(cand_upto(src, dst, q, x, dst.len() as int));
            }
        },
    }
}

fn keep_first(best: Option<Path>, c: Path) -> (r: Path)
    ensures
        best matches Some(b) ==> (r@ == c@ || r@ == b@) && precedes(r@, c@) && precedes(r@, b@),
        best.is_none() ==> r@ == c@,
{
    match best {
        None => c,
        Some(b) => {
            if precedes_exec(&c.path, &b.path) {
                proof {
                    assert(lex_le(c@, c@));
                }
                c
            } else {
                proof {
                    assert(lex_le(b@, b@));
                }
                b
            }
        },
    }
}

/// The path chosen for one vantage and one destination: among the paths
/// spliced from a path of `src_in_paths` and one of `dst_in_paths`, the
/// first valley-free one in `precedes` order, or where none is valley-free,
/// the first of all.
pub fn shortest_path(src_in_paths: &Vec<Path>, dst_in_paths: &Vec<Path>, world: &World) -> (r:
    Option<Path>)
    ensures
        r.is_none() <==> forall|x: int, y: int|
            0 <= x < src_in_paths.len() && 0 <= y < dst_in_paths.len() ==> !can_splice(
                #[trigger] src_in_paths@[x]@,
                #[trigger] dst_in_paths@[y]@,
            ),
        r matches Some(p) ==> best_route(&world.rels(), src_in_paths@, dst_in_paths@, p@),
{
    let rels = world.relationships();
    let ghost src = src_in_paths@;
    let ghost dst = dst_in_paths@;
    let mut shortest: Option<Path> = None;
    let mut shortest_valleyless: Option<Path> = None;
    let mut x: usize = 0;
    while x < src_in_paths.len()
        invariant
            src == src_in_paths@,
            dst == dst_in_paths@,
            *rels == world.rels(),
            x <= src.len(),
            best_of_class(rels, src, dst, x as int, 0, true, shortest_valleyless),
            best_of_class(rels, src, dst, x as int, 0, false, shortest),
            (shortest.is_none() && shortest_valleyless.is_none()) ==> forall|x2: int, y2: int|
                0 <= x2 < x && 0 <= y2 < dst.len() ==> !can_splice(#[trigger] src[x2]@, #[trigger] dst[y2]@),
        decreases src.len() - x,
    {
        let mut y: usize = 0;
        while y < dst_in_paths.len()
            invariant
                src == src_in_paths@,
                dst == dst_in_paths@,
                *rels == world.rels(),
                x < src.len(),
                y <= dst.len(),
                best_of_class(rels, src, dst, x as int, y as int, true, shortest_valleyless),
                best_of_class(rels, src, dst, x as int, y as int, false, shortest),
                (shortest.is_none() && shortest_valleyless.is_none()) ==> forall|x2: int, y2: int|
                    0 <= x2 < src.len() && 0 <= y2 < dst.len() && (x2 < x || (x2 == x && y2 < y)) ==> !can_splice(
                        #[trigger] src[x2]@,
                        #[trigger] dst[y2]@,
                    ),
            decreases dst.len() - y,
        {
            let found = intersect_paths(&src_in_paths[x], &dst_in_paths[y]);
            proof {
                let c = if found.is_some() { Some(found.unwrap()@) } else { None::<Seq<ASN>> };
                lemma_cand_step(src, dst, x as int, y as int, c);
            }
            match found {
                None => {},
                Some(short) => {
                    if short.valleyless(world) {
                        let ghost old_best = shortest_valleyless;
                        let nb = keep_first(shortest_valleyless, short);
                        proof {
                            if let Some(b) = old_best {
                                assert forall|q: Seq<ASN>|
                                    #[trigger] cand_upto(src, dst, q, x as int, y + 1) && valley_free(rels, q)
                                        implies precedes(nb@, q) by {
                                    if cand_upto(src, dst, q, x as int, y as int) {
                                        lemma_precedes_transitive(nb@, b@, q);
                                    }
                                }
                            } else {
                                assert(lex_le(nb@, nb@));
                            }
                        }
                        shortest_valleyless = Some(nb);
                    } else {
                        let ghost old_best = shortest;
                        let nb = keep_first(shortest, short);
                        proof {
                            if let Some(b) = old_best {
                                assert forall|q: Seq<ASN>|
                                    #[trigger] cand_upto(src, dst, q, x as int, y + 1) && !valley_free(rels, q)
                                        implies precedes(nb@, q) by {
                                    if cand_upto(src, dst, q, x as int, y as int) {
                                        lemma_precedes_transitive(nb@, b@, q);
                                    }
                                }
                            } else {
                                assert(lex_le(nb@, nb@));
                            }
                        }
                        shortest = Some(nb);
                    }
                },
            }
            y = y + 1;
        }
        proof {
            lemma_class_row(rels, src, dst, x as int, true, shortest_valleyless);
            lemma_class_row(rels, src, dst, x as int, false, shortest);
        }
        x = x + 1;
    }
    proof {
        assert forall|q: Seq<ASN>| #[trigger] candidate(src, dst, q) <==> cand_upto(src, dst, q, src.len() as int, 0) by {
            if candidate(src, dst, q) {
                let (x2, y2) = choose|x2: int, y2: int|
                    0 <= x2 < src.len() && 0 <= y2 < dst.len() && #[trigger] is_splice(src[x2]@, dst[y2]@, q);
                assert(is_splice(src[x2]@, dst[y2]@, q));
            }
        }
        if shortest.is_some() || shortest_valleyless.is_some() {
            assert(!(forall|x: int, y: int|
                0 <= x < src.len() && 0 <= y < dst.len() ==> !can_splice(
                    #[trigger] src[x]@,
                    #[trigger] dst[y]@,
                ))) by {
                let p = if shortest.is_some() { shortest.unwrap()@ } else { shortest_valleyless.unwrap()@ };
                let (x2, y2) = choose|x2: int, y2: int|
                    0 <= x2 < src.len() && 0 <= y2 < dst.len() && (x2 < src.len() || (x2 == src.len() && y2 < 0))
                        && #[trigger] is_splice(src[x2]@, dst[y2]@, p);
                let (i, j) = choose|i: int, j: int| best_branch(src[x2]@, dst[y2]@, i, j) && p == merged(src[x2]@, dst[y2]@, i, j);
                assert(shared_at(src[x2]@, dst[y2]@, i, j));
            }
        }
    }
    match shortest_valleyless {
        Some(p) => Some(p),
        None => shortest,
    }
}

} // verus!
