use aspath::path::{ASRelation, Path, Relationships};
use aspath::world::World;
use aspath::splice::{find_branching_point, intersect_paths, precedes_exec, shortest_path};

fn p(h: &[u64]) -> Path {
    Path::from_hops(h.to_vec())
}

fn sorted_paths(v: &[Path]) -> Vec<Vec<u64>> {
    let mut out: Vec<Vec<u64>> = v.iter().map(|x| x.hops().clone()).collect();
    out.sort();
    out
}

#[test]
fn parse_single_number() {
    assert_eq!(Path::parse_str_to_asns("42"), Some(vec![42]));
}

#[test]
fn parse_bracketed_set() {
    assert_eq!(Path::parse_str_to_asns("{1,2}"), Some(vec![1, 2]));
    assert_eq!(Path::parse_str_to_asns("(7,8,9)"), Some(vec![7, 8, 9]));
    assert_eq!(Path::parse_str_to_asns("[5]"), Some(vec![5]));
}

#[test]
fn parse_rejects_malformed() {
    assert_eq!(Path::parse_str_to_asns("x1"), None);
    assert_eq!(Path::parse_str_to_asns(""), None);
    assert_eq!(Path::parse_str_to_asns("{1,,2}"), None);
}

#[test]
fn parse_largest_number() {
    assert_eq!(Path::parse_str_to_asns("18446744073709551615"), Some(vec![u64::MAX]));
    assert_eq!(Path::parse_str_to_asns("18446744073709551616"), None);
}

#[test]
fn as_set_expands_to_two_paths() {
    let v = Path::build_from_str("{1,2} 3").unwrap();
    assert_eq!(v.len(), 2);
    assert_eq!(sorted_paths(&v), vec![vec![1, 3], vec![2, 3]]);
}

#[test]
fn as_set_expansion_cartesian_product() {
    let v = Path::build_from_str("{1,2} 5 {3,4}").unwrap();
    assert_eq!(
        sorted_paths(&v),
        vec![vec![1, 5, 3], vec![1, 5, 4], vec![2, 5, 3], vec![2, 5, 4]]
    );
}

#[test]
fn as_set_duplicates_removed() {
    let v = Path::build_from_str("{1,1} 3").unwrap();
    assert_eq!(sorted_paths(&v), vec![vec![1, 3]]);
}

#[test]
fn literal_path_is_one_path() {
    let v = Path::build_from_str("200 100").unwrap();
    assert_eq!(sorted_paths(&v), vec![vec![200, 100]]);
    assert!(Path::build_from_str("200  100").is_none());
}

#[test]
fn new_path_is_empty() {
    assert!(Path::new().hops().is_empty());
}

#[test]
fn prepend_puts_hop_first() {
    assert_eq!(Path::prepend(&p(&[2, 3]), &1).hops(), &vec![1, 2, 3]);
}

#[test]
fn relationships_directions() {
    let mut r = Relationships::new();
    r.add(100, 200, -1);
    r.add(1, 2, 0);
    r.add(5, 6, 3);
    assert_eq!(r.get(100, 200), ASRelation::Provides);
    assert_eq!(r.get(200, 100), ASRelation::Consumes);
    assert_eq!(r.get(1, 2), ASRelation::Peers);
    assert_eq!(r.get(2, 1), ASRelation::Peers);
    assert_eq!(r.get(5, 6), ASRelation::No);
}

#[test]
fn valley_free_monotone_accepted() {
    let mut r = World::new();
    r.add_relationship(2, 1, -1); // 1 consumes from 2
    r.add_relationship(2, 3, 0); // 2 peers with 3
    r.add_relationship(3, 4, -1); // 3 provides to 4
    assert!(p(&[1, 2, 3, 4]).valleyless(&r));
    assert!(p(&[1]).valleyless(&r));
    assert!(Path::new().valleyless(&r));
}

#[test]
fn valley_free_decrease_rejected() {
    let mut r = World::new();
    r.add_relationship(1, 2, -1); // 1 provides to 2
    r.add_relationship(3, 2, -1); // 2 consumes from 3
    assert!(!p(&[1, 2, 3]).valleyless(&r));
}

#[test]
fn valley_free_missing_relation_rejected() {
    let mut r = World::new();
    r.add_relationship(1, 2, -1);
    assert!(!p(&[1, 2, 9]).valleyless(&r));
}

#[test]
fn branching_point_prefers_largest_sum() {
    // (0,2), (1,1) and (2,0) all sum to 2: the largest first index wins
    assert_eq!(find_branching_point(&vec![1, 2, 3], &vec![3, 2, 1]), Some((2, 0)));
    assert_eq!(find_branching_point(&vec![5, 6], &vec![7, 8]), None);
    assert_eq!(find_branching_point(&vec![1, 9, 4], &vec![9, 2, 4]), Some((2, 2)));
}

#[test]
fn splice_joins_at_shared_as() {
    let r = intersect_paths(&p(&[300, 200]), &p(&[200, 100])).unwrap();
    assert_eq!(r.hops(), &vec![200, 100]);
    let r2 = intersect_paths(&p(&[1, 2, 3, 4]), &p(&[9, 3, 7, 8])).unwrap();
    assert_eq!(r2.hops(), &vec![4, 3, 7, 8]);
    assert!(intersect_paths(&p(&[1]), &p(&[2])).is_none());
}

#[test]
fn splice_with_itself_is_short() {
    let a = p(&[4, 5, 6]);
    let r = intersect_paths(&a, &a).unwrap();
    assert_eq!(r.hops(), &vec![6]);
    assert!(r.hops().len() <= 3);
}

#[test]
fn precedes_orders_by_length_then_hops() {
    assert!(precedes_exec(&vec![9], &vec![1, 2]));
    assert!(precedes_exec(&vec![1, 2], &vec![1, 3]));
    assert!(!precedes_exec(&vec![1, 3], &vec![1, 2]));
    assert!(precedes_exec(&vec![1, 2], &vec![1, 2]));
}

#[test]
fn shortest_prefers_valley_free() {
    let mut r = World::new();
    r.add_relationship(4, 3, -1);
    r.add_relationship(4, 6, -1);
    let src = vec![p(&[1, 2]), p(&[5, 3])];
    let dst = vec![p(&[2, 7]), p(&[3, 4, 6])];
    // [2, 7] is shorter but has no relation; [3, 4, 6] is valley-free
    let best = shortest_path(&src, &dst, &r).unwrap();
    assert_eq!(best.hops(), &vec![3, 4, 6]);
}

#[test]
fn shortest_without_valley_free_takes_shortest() {
    let r = World::new();
    let src = vec![p(&[1, 2]), p(&[5, 3])];
    let dst = vec![p(&[2, 7]), p(&[3, 4, 6])];
    let best = shortest_path(&src, &dst, &r).unwrap();
    assert_eq!(best.hops(), &vec![2, 7]);
}

#[test]
fn shortest_tie_break_is_lexicographic() {
    let r = World::new();
    let src = vec![p(&[1, 5]), p(&[1, 3])];
    let dst = vec![p(&[5, 9]), p(&[3, 9])];
    let best = shortest_path(&src, &dst, &r).unwrap();
    assert_eq!(best.hops(), &vec![3, 9]);
}

#[test]
fn shortest_none_without_shared_as() {
    let r = World::new();
    assert!(shortest_path(&vec![p(&[1, 2])], &vec![p(&[3, 4])], &r).is_none());
    assert!(shortest_path(&vec![], &vec![p(&[3, 4])], &r).is_none());
}
