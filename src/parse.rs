//! The AS-path field of a routing-table entry: space-separated hops, each a
//! decimal AS number or a bracketed, comma-separated set of them.

use vstd::prelude::*;
use vstd::string::StringSliceAdditionalSpecFns;

use crate::asset::ASN;
use crate::path::Path;

verus! {

/// `s` cut at every `sep`, from left to right.
pub open spec fn split_on(s: Seq<u8>, sep: u8) -> Seq<Seq<u8>>
    decreases s.len(),
{
    if s.len() == 0 {
        seq![Seq::<u8>::empty()]
    } else {
        let init = split_on(s.drop_last(), sep);
        if s.last() == sep {
            init.push(Seq::<u8>::empty())
        } else {
            init.update(init.len() - 1, init.last().push(s.last()))
        }
    }
}

pub open spec fn is_digit(c: u8) -> bool {
    48 <= c <= 57
}

/// The number that a string of decimal digits writes.
pub open spec fn digits_value(s: Seq<u8>) -> nat
    decreases s.len(),
{
    if s.len() == 0 {
        0
    } else {
        digits_value(s.drop_last()) * 10 + (s.last() - 48) as nat
    }
}

/// An AS number written in decimal: one or more digits, at most `u64::MAX`.
pub open spec fn number_of(s: Seq<u8>) -> Option<ASN> {
    if s.len() > 0 && (forall|k: int| 0 <= k < s.len() ==> is_digit(#[trigger] s[k])) && digits_value(
        s,
    ) <= u64::MAX {
        Some(digits_value(s) as ASN)
    } else {
        None
    }
}

pub open spec fn is_bracket(c: u8) -> bool {
    c == 123 || c == 125 || c == 40 || c == 41 || c == 91 || c == 93
}

/// The token opens a set of alternatives: it holds `{`, `(` or `[`.
pub open spec fn opens_set(t: Seq<u8>) -> bool {
    t.contains(123u8) || t.contains(40u8) || t.contains(91u8)
}

pub open spec fn trim_start(t: Seq<u8>) -> Seq<u8>
    decreases t.len(),
{
    if t.len() > 0 && is_bracket(t[0]) {
        trim_start(t.drop_first())
    } else {
        t
    }
}

pub open spec fn trim_end(t: Seq<u8>) -> Seq<u8>
    decreases t.len(),
{
    if t.len() > 0 && is_bracket(t.last()) {
        trim_end(t.drop_last())
    } else {
        t
    }
}

/// Every field is an AS number; their values in order.
pub open spec fn numbers_of(fields: Seq<Seq<u8>>) -> Option<Seq<ASN>>
    decreases fields.len(),
{
    if fields.len() == 0 {
        Some(Seq::<ASN>::empty())
    } else {
        match (numbers_of(fields.drop_last()), number_of(fields.last())) {
            (Some(init), Some(n)) => Some(init.push(n)),
            _ => None,
        }
    }
}

/// The AS numbers that one path token allows at its hop.
pub open spec fn token_asns(t: Seq<u8>) -> Option<Seq<ASN>> {
    if opens_set(t) {
        numbers_of(split_on(trim_end(trim_start(t)), 44))
    } else {
        match number_of(t) {
            Some(n) => Some(seq![n]),
            None => None,
        }
    }
}

/// The AS numbers allowed at each hop of a list of tokens.
pub open spec fn alternatives_of(tokens: Seq<Seq<u8>>) -> Option<Seq<Seq<ASN>>>
    decreases tokens.len(),
{
    if tokens.len() == 0 {
        Some(Seq::<Seq<ASN>>::empty())
    } else {
        match (alternatives_of(tokens.drop_last()), token_asns(tokens.last())) {
            (Some(init), Some(a)) => Some(init.push(a)),
            _ => None,
        }
    }
}

/// `q` picks, at each hop from `from` on, one of the allowed AS numbers.
pub open spec fn fits(alts: Seq<Seq<ASN>>, from: int, q: Seq<ASN>) -> bool {
    q.len() == alts.len() - from && forall|m: int|
        0 <= m < q.len() ==> alts[from + m].contains(#[trigger] q[m])
}

/// Some path of `v` has the hops `q`.
pub open spec fn has_path(v: Seq<Path>, q: Seq<ASN>) -> bool {
    exists|i: int| 0 <= i < v.len() && (#[trigger] v[i])@ == q
}

/// No two paths of `v` have the same hops.
pub open spec fn distinct_paths(v: Seq<Path>) -> bool {
    forall|i: int, j: int| 0 <= i < j < v.len() ==> (#[trigger] v[i])@ != (#[trigger] v[j])@
}

proof fn lemma_split_nonempty(s: Seq<u8>, sep: u8)
    ensures
        split_on(s, sep).len() >= 1,
    decreases s.len(),
{
    if s.len() > 0 {
        lemma_split_nonempty(s.drop_last(), sep);
    }
}

/// Cuts `s` at every `sep`.
pub fn split_bytes(s: &[u8], sep: u8) -> (r: Vec<Vec<u8>>)
    ensures
        r@.map_values(|f: Vec<u8>| f@) == split_on(s@, sep),
{
    let mut fields: Vec<Vec<u8>> = Vec::new();
    let mut cur: Vec<u8> = Vec::new();
    let mut i: usize = 0;
    assert(s@.subrange(0, 0) =~= Seq::<u8>::empty());
    assert(fields@.map_values(|f: Vec<u8>| f@).push(cur@) =~= split_on(s@.subrange(0, 0), sep));
    while i < s.len()
        invariant
            i <= s.len(),
            fields@.map_values(|f: Vec<u8>| f@).push(cur@) == split_on(s@.subrange(0, i as int), sep),
        decreases s.len() - i,
    {
        let c = s[i];
        proof {
            lemma_split_nonempty(s@.subrange(0, i as int), sep);
            assert(s@.subrange(0, i + 1).drop_last() =~= s@.subrange(0, i as int));
        }
        if c == sep {
            let done = cur;
            fields.push(done);
            cur = Vec::new();
        } else {
            cur.push(c);
        }
        i = i + 1;
        assert(fields@.map_values(|f: Vec<u8>| f@).push(cur@) =~= split_on(s@.subrange(0, i as int), sep));
    }
    assert(s@.subrange(0, s.len() as int) =~= s@);
    fields.push(cur);
    assert(fields@.map_values(|f: Vec<u8>| f@) =~= split_on(s@, sep));
    fields
}

proof fn lemma_digits_grow(s: Seq<u8>, k: int)
    requires
        0 <= k <= s.len(),
    ensures
        digits_value(s.subrange(0, k)) <= digits_value(s),
    decreases s.len() - k,
{
    if k < s.len() {
        lemma_digits_grow(s, k + 1);
        assert(s.subrange(0, k + 1).drop_last() =~= s.subrange(0, k));
    } else {
        assert(s.subrange(0, k) =~= s);
    }
}

/// The AS number that `s` writes in decimal.
pub fn parse_number(s: &[u8]) -> (r: Option<ASN>)
    ensures
        r == number_of(s@),
{
    if s.len() == 0 {
        return None;
    }
    let mut v: u64 = 0;
    let mut i: usize = 0;
    while i < s.len()
        invariant
            i <= s.len(),
            v == digits_value(s@.subrange(0, i as int)),
            forall|k: int| 0 <= k < i ==> is_digit(#[trigger] s@[k]),
        decreases s.len() - i,
    {
        let c = s[i];
        assert(s@.subrange(0, i + 1).drop_last() =~= s@.subrange(0, i as int));
        if c < 48 || c > 57 {
            assert(!is_digit(s@[i as int]));
            return None;
        }
        let d = (c - 48) as u64;
        if v > (u64::MAX - d) / 10 {
            proof {
                lemma_digits_grow(s@, i + 1);
            }
            return None;
        }
        v = v * 10 + d;
        i = i + 1;
    }
    assert(s@.subrange(0, s.len() as int) =~= s@);
    Some(v)
}

/// Whether `t` holds `{`, `(` or `[`.
fn opens_set_exec(t: &[u8]) -> (r: bool)
    ensures
        r == opens_set(t@),
{
    let mut i: usize = 0;
    while i < t.len()
        invariant
            i <= t.len(),
            forall|k: int| 0 <= k < i ==> t@[k] != 123u8 && t@[k] != 40u8 && t@[k] != 91u8,
        decreases t.len() - i,
    {
        let c = t[i];
        if c == 123 || c == 40 || c == 91 {
            assert(t@[i as int] == c);
            return true;
        }
        i = i + 1;
    }
    false
}

/// `t` without the brackets at either end.
fn trim_brackets(t: &[u8]) -> (r: Vec<u8>)
    ensures
        r@ == trim_end(trim_start(t@)),
{
    let n = t.len();
    let mut lo: usize = 0;
    assert(t@.subrange(0, n as int) =~= t@);
    while lo < n && (t[lo] == 123 || t[lo] == 125 || t[lo] == 40 || t[lo] == 41 || t[lo] == 91
        || t[lo] == 93)
        invariant
            n == t@.len(),
            lo <= n,
            trim_start(t@) == trim_start(t@.subrange(lo as int, n as int)),
        decreases n - lo,
    {
        assert(t@.subrange(lo as int, n as int).drop_first() =~= t@.subrange(lo + 1, n as int));
        lo = lo + 1;
    }
    let mut hi: usize = n;
    assert(t@.subrange(lo as int, hi as int) =~= t@.subrange(lo as int, n as int));
    while hi > lo && (t[hi - 1] == 123 || t[hi - 1] == 125 || t[hi - 1] == 40 || t[hi - 1] == 41
        || t[hi - 1] == 91 || t[hi - 1] == 93)
        invariant
            n == t@.len(),
            lo <= hi <= n,
            trim_start(t@) == t@.subrange(lo as int, n as int),
            trim_end(trim_start(t@)) == trim_end(t@.subrange(lo as int, hi as int)),
        decreases hi - lo,
    {
        assert(t@.subrange(lo as int, hi as int).drop_last() =~= t@.subrange(lo as int, hi - 1));
        hi = hi - 1;
    }
    let mut r: Vec<u8> = Vec::new();
    let mut k: usize = lo;
    while k < hi
        invariant
            n == t@.len(),
            lo <= k <= hi <= n,
            r@ =~= t@.subrange(lo as int, k as int),
        decreases hi - k,
    {
        r.push(t[k]);
        k = k + 1;
    }
    r
}

/// The AS numbers written in `fields`, if every field writes one.
fn parse_numbers(fields: &Vec<Vec<u8>>) -> (r: Option<Vec<ASN>>)
    ensures
        r matches Some(v) ==> numbers_of(fields@.map_values(|f: Vec<u8>| f@)) == Some(v@),
        r.is_none() ==> numbers_of(fields@.map_values(|f: Vec<u8>| f@)).is_none(),
{
    let ghost fs = fields@.map_values(|f: Vec<u8>| f@);
    let mut out: Vec<ASN> = Vec::new();
    let mut i: usize = 0;
    assert(fs.subrange(0, 0) =~= Seq::<Seq<u8>>::empty());
    while i < fields.len()
        invariant
            fs == fields@.map_values(|f: Vec<u8>| f@),
            i <= fields.len(),
            numbers_of(fs.subrange(0, i as int)) == Some(out@),
        decreases fields.len() - i,
    {
        assert(fs.subrange(0, i + 1).drop_last() =~= fs.subrange(0, i as int));
        match parse_number(fields[i].as_slice()) {
            None => {
                proof {
                    lemma_numbers_prefix_fails(fs, i + 1);
                }
                return None;
            },
            Some(n) => {
                out.push(n);
            },
        }
        i = i + 1;
    }
    assert(fs.subrange(0, fields.len() as int) =~= fs);
    Some(out)
}

proof fn lemma_numbers_prefix_fails(fs: Seq<Seq<u8>>, k: int)
    requires
        0 <= k <= fs.len(),
        numbers_of(fs.subrange(0, k)).is_none(),
    ensures
        numbers_of(fs).is_none(),
    decreases fs.len() - k,
{
    if k < fs.len() {
        assert(fs.subrange(0, k + 1).drop_last() =~= fs.subrange(0, k));
        lemma_numbers_prefix_fails(fs, k + 1);
    } else {
        assert(fs.subrange(0, k) =~= fs);
    }
}

/// `Path::parse_str_to_asns` on the bytes of a token.
pub fn parse_token(t: &[u8]) -> (r: Option<Vec<ASN>>)
    ensures
        r matches Some(v) ==> token_asns(t@) == Some(v@),
        r.is_none() ==> token_asns(t@).is_none(),
{
    if opens_set_exec(t) {
        let inner = trim_brackets(t);
        let fields = split_bytes(inner.as_slice(), 44);
        parse_numbers(&fields)
    } else {
        match parse_number(t) {
            None => None,
            Some(n) => {
                let mut v: Vec<ASN> = Vec::new();
                v.push(n);
                assert(v@ =~= seq![n]);
                Some(v)
            },
        }
    }
}

/// Whether two paths have the same hops.
pub fn same_hops(p: &Path, q: &Path) -> (r: bool)
    ensures
        r == (p@ == q@),
{
    if p.path.len() != q.path.len() {
        return false;
    }
    let mut i: usize = 0;
    while i < p.path.len()
        invariant
            p@.len() == q@.len(),
            i <= p@.len(),
            forall|k: int| 0 <= k < i ==> p@[k] == q@[k],
        decreases p@.len() - i,
    {
        if p.path[i] != q.path[i] {
            return false;
        }
        i = i + 1;
    }
    assert(p@ =~= q@);
    true
}

/// Whether some path of `v` has the hops of `p`.
pub fn contains_path(v: &Vec<Path>, p: &Path) -> (r: bool)
    ensures
        r == has_path(v@, p@),
{
    let mut i: usize = 0;
    while i < v.len()
        invariant
            i <= v.len(),
            forall|k: int| 0 <= k < i ==> (#[trigger] v@[k])@ != p@,
        decreases v.len() - i,
    {
        if same_hops(&v[i], p) {
            return true;
        }
        i = i + 1;
    }
    false
}

/// `q` is some allowed AS of `al` at an index before `a`, followed by some
/// path of `cur`, or `al[a]` followed by a path of `cur` before index `c`.
pub open spec fn made(al: Seq<ASN>, cur: Seq<Path>, a: int, c: int, q: Seq<ASN>) -> bool {
    exists|a2: int, c2: int|
        #![trigger al[a2], cur[c2]]
        0 <= a2 < al.len() && 0 <= c2 < cur.len() && (a2 < a || (a2 == a && c2 < c)) && q == seq![
            al[a2],
        ] + cur[c2]@
}

/// Every path that takes, at each hop, one of the AS numbers that `alts`
/// allows there; each once.
pub fn expand(alts: &Vec<Vec<ASN>>) -> (r: Vec<Path>)
    ensures
        distinct_paths(r@),
        forall|q: Seq<ASN>|
            #[trigger] has_path(r@, q) <==> fits(alts@.map_values(|a: Vec<ASN>| a@), 0, q),
{
    let ghost aa = alts@.map_values(|a: Vec<ASN>| a@);
    let mut cur: Vec<Path> = Vec::new();
    cur.push(Path::new());
    let mut k: usize = alts.len();
    assert forall|q: Seq<ASN>| #[trigger] has_path(cur@, q) <==> fits(aa, k as int, q) by {
        if fits(aa, k as int, q) {
            assert(q =~= cur@[0]@);
        }
    }
    while k > 0
        invariant
            aa == alts@.map_values(|a: Vec<ASN>| a@),
            k <= alts.len(),
            distinct_paths(cur@),
            forall|q: Seq<ASN>| #[trigger] has_path(cur@, q) <==> fits(aa, k as int, q),
        decreases k,
    {
        let al = &alts[k - 1];
        let mut next: Vec<Path> = Vec::new();
        let mut a: usize = 0;
        while a < al.len()
            invariant
                k > 0,
                al@ == aa[k - 1],
                a <= al.len(),
                distinct_paths(next@),
                forall|q: Seq<ASN>| #[trigger] has_path(next@, q) <==> made(al@, cur@, a as int, 0, q),
            decreases al.len() - a,
        {
            let mut c: usize = 0;
            while c < cur.len()
                invariant
                    a < al.len(),
                    c <= cur.len(),
                    distinct_paths(next@),
                    forall|q: Seq<ASN>| #[trigger] has_path(next@, q) <==> made(al@, cur@, a as int, c as int, q),
                decreases cur.len() - c,
            {
                let p = Path::prepend(&cur[c], &al[a]);
                let ghost n0 = next@;
                if !contains_path(&next, &p) {
                    next.push(p);
                }
                assert forall|q: Seq<ASN>| #[trigger] has_path(next@, q) <==> made(al@, cur@, a as int, c + 1, q) by {
                    if made(al@, cur@, a as int, c + 1, q) {
                        let (a2, c2) = choose|a2: int, c2: int|
                            0 <= a2 < al@.len() && 0 <= c2 < cur@.len() && (a2 < a || (a2 == a && c2 < c + 1)) && q == seq![
                                al@[a2],
                            ] + cur@[c2]@;
                        if a2 < a || c2 < c {
                            assert(made(al@, cur@, a as int, c as int, q));
                            assert(has_path(n0, q));
                            let i = choose|i: int| 0 <= i < n0.len() && (#[trigger] n0[i])@ == q;
                            assert(next@[i] == n0[i]);
                        } else {
                            assert(q == p@);
                            if has_path(n0, q) {
                                let i = choose|i: int| 0 <= i < n0.len() && (#[trigger] n0[i])@ == q;
                                assert(next@[i] == n0[i]);
                            } else {
                                assert(next@[n0.len() as int] == p);
                            }
                        }
                    }
                    if has_path(next@, q) {
                        let i = choose|i: int| 0 <= i < next@.len() && (#[trigger] next@[i])@ == q;
                        if i < n0.len() {
                            assert(n0[i] == next@[i]);
                            assert(has_path(n0, q));
                            assert(made(al@, cur@, a as int, c as int, q));
                        } else {
                            assert(q == p@);
                            assert(q == seq![al@[a as int]] + cur@[c as int]@);
                        }
                    }
                }
                c = c + 1;
            }
            assert forall|q: Seq<ASN>| made(al@, cur@, a as int, cur@.len() as int, q) <==> made(al@, cur@, a + 1, 0, q) by {
                if made(al@, cur@, a + 1, 0, q) {
                    let (a2, c2) = choose|a2: int, c2: int|
                        0 <= a2 < al@.len() && 0 <= c2 < cur@.len() && (a2 < a + 1 || (a2 == a + 1 && c2 < 0)) && q == seq![
                            al@[a2],
                        ] + cur@[c2]@;
                    assert(a2 < a || (a2 == a && c2 < cur@.len()));
                }
            }
            a = a + 1;
        }
        assert forall|q: Seq<ASN>| #[trigger] has_path(next@, q) <==> fits(aa, k - 1, q) by {
            if has_path(next@, q) {
                let (a2, c2) = choose|a2: int, c2: int|
                    0 <= a2 < al@.len() && 0 <= c2 < cur@.len() && (a2 < al@.len() || (a2 == al@.len() && c2 < 0)) && q == seq![
                        al@[a2],
                    ] + cur@[c2]@;
                let r = cur@[c2]@;
                assert(has_path(cur@, r));
                assert(fits(aa, k as int, r));
                assert forall|m: int| 0 <= m < q.len() implies aa[k - 1 + m].contains(#[trigger] q[m]) by {
                    if m == 0 {
                        assert(al@[a2] == q[0]);
                    } else {
                        assert(q[m] == r[m - 1]);
                        assert(aa[k + (m - 1)].contains(r[m - 1]));
                    }
                }
            }
            if fits(aa, k - 1, q) {
                assert(aa[k - 1 + 0].contains(q[0]));
                let a2 = choose|a2: int| 0 <= a2 < al@.len() && al@[a2] == q[0];
                let r = q.drop_first();
                assert forall|m: int| 0 <= m < r.len() implies aa[k + m].contains(#[trigger] r[m]) by {
                    assert(aa[k - 1 + (m + 1)].contains(q[m + 1]));
                }
                assert(fits(aa, k as int, r));
                assert(has_path(cur@, r));
                let c2 = choose|c2: int| 0 <= c2 < cur@.len() && (#[trigger] cur@[c2])@ == r;
                assert(q =~= seq![al@[a2]] + cur@[c2]@);
                assert(made(al@, cur@, al@.len() as int, 0, q));
            }
        }
        cur = next;
        k = k - 1;
    }
    cur
}

proof fn lemma_alternatives_prefix_fails(ts: Seq<Seq<u8>>, k: int)
    requires
        0 <= k <= ts.len(),
        alternatives_of(ts.subrange(0, k)).is_none(),
    ensures
        alternatives_of(ts).is_none(),
    decreases ts.len() - k,
{
    if k < ts.len() {
        assert(ts.subrange(0, k + 1).drop_last() =~= ts.subrange(0, k));
        lemma_alternatives_prefix_fails(ts, k + 1);
    } else {
        assert(ts.subrange(0, k) =~= ts);
    }
}

impl Path {
    /// The AS numbers that one path token allows at its hop: the number it
    /// writes, or, for a bracketed token, each comma-separated number inside the
    /// brackets.
    pub fn parse_str_to_asns(string: &str) -> (r: Option<Vec<ASN>>)
        ensures
            r matches Some(v) ==> token_asns(string.spec_bytes()) == Some(v@),
            r.is_none() ==> token_asns(string.spec_bytes()).is_none(),
    {
        parse_token(string.as_bytes())
    }

    /// Every concrete path that the tokens of an AS-path field stand for, each
    /// once; `None` where a token is not well formed.
    pub fn build_from_vec(path: &Vec<Vec<u8>>) -> (r: Option<Vec<Path>>)
        ensures
            alternatives_of(path@.map_values(|f: Vec<u8>| f@)) matches Some(alts) ==> r matches Some(v) && distinct_paths(v@) && forall|q: Seq<ASN>|
                #[trigger] has_path(v@, q) <==> fits(alts, 0, q),
            alternatives_of(path@.map_values(|f: Vec<u8>| f@)).is_none() ==> r.is_none(),
    {
        let ghost ts = path@.map_values(|f: Vec<u8>| f@);
        let mut alts: Vec<Vec<ASN>> = Vec::new();
        let mut i: usize = 0;
        assert(ts.subrange(0, 0) =~= Seq::<Seq<u8>>::empty());
        assert(alts@.map_values(|a: Vec<ASN>| a@) =~= Seq::<Seq<ASN>>::empty());
        while i < path.len()
            invariant
                ts == path@.map_values(|f: Vec<u8>| f@),
                i <= path.len(),
                alternatives_of(ts.subrange(0, i as int)) == Some(alts@.map_values(|a: Vec<ASN>| a@)),
            decreases path.len() - i,
        {
            assert(ts.subrange(0, i + 1).drop_last() =~= ts.subrange(0, i as int));
            match parse_token(path[i].as_slice()) {
                None => {
                    proof {
                        lemma_alternatives_prefix_fails(ts, i + 1);
                    }
                    return None;
                },
                Some(v) => {
                    let ghost a0 = alts@.map_values(|a: Vec<ASN>| a@);
                    alts.push(v);
                    assert(alts@.map_values(|a: Vec<ASN>| a@) =~= a0.push(v@));
                },
            }
            i = i + 1;
        }
        assert(ts.subrange(0, path.len() as int) =~= ts);
        Some(expand(&alts))
    }

    /// Every concrete path that an AS-path field stands for: its tokens are
    /// separated by single spaces.
    pub fn build_from_str(path: &str) -> (r: Option<Vec<Path>>)
        ensures
            alternatives_of(split_on(path.spec_bytes(), 32)) matches Some(alts) ==> r matches Some(v) && distinct_paths(v@) && forall|q: Seq<ASN>|
                #[trigger] has_path(v@, q) <==> fits(alts, 0, q),
            alternatives_of(split_on(path.spec_bytes(), 32)).is_none() ==> r.is_none(),
    {
        let tokens = split_bytes(path.as_bytes(), 32);
        Path::build_from_vec(&tokens)
    }
}

} // verus!
