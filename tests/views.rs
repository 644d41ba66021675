use std::rc::Rc;

use aspath::view::{Term, Vantage, View};
use aspath::world::{Addr, PrefixKey, World};

fn key4(a: [u8; 4], len: u32) -> PrefixKey {
    PrefixKey { addr: Addr::V4(u32::from_be_bytes(a)), len }
}

fn mean(terms: &[Term]) -> f64 {
    let mut total = 0.0;
    let mut weight = 0.0;
    for t in terms {
        total += t.weight as f64 * t.num as f64 / t.den as f64;
        weight += t.weight as f64;
    }
    total / weight
}

fn sorted(v: &Vec<u64>) -> Vec<u64> {
    let mut s = v.clone();
    s.sort();
    s
}

fn vantage(anchor: PrefixKey) -> Vantage {
    Vantage { addr: anchor.addr, anchor: Some(anchor) }
}

#[test]
fn announcement_rejects_malformed_path() {
    let mut w = World::new();
    assert!(!w.add_announcement(key4([10, 0, 0, 0], 8), "1 x"));
    assert!(w.exact_match(key4([10, 0, 0, 0], 8)).is_none());
}

#[test]
fn announcements_merge_by_prefix() {
    let mut w = World::new();
    let k = key4([10, 0, 0, 0], 8);
    assert!(w.add_announcement(k, "1 2"));
    assert!(w.add_announcement(k, "1 2"));
    assert!(w.add_announcement(k, "{3,4} 2"));
    let mut got: Vec<Vec<u64>> = w.exact_match(k).unwrap().iter().map(|p| p.hops().clone()).collect();
    got.sort();
    assert_eq!(got, vec![vec![1, 2], vec![3, 2], vec![4, 2]]);
    assert!(w.exact_match(key4([10, 0, 0, 0], 16)).is_none());
    let mut known = w.known_asns().clone();
    known.sort();
    assert_eq!(known, vec![1, 2, 3, 4]);
}

#[test]
fn destinations_count_weights() {
    let mut w = World::new();
    let k = key4([10, 0, 0, 0], 8);
    w.add_destination(k);
    w.add_destination(k);
    assert_eq!(w.weight_of(k), 2);
    assert_eq!(w.weight_of(key4([11, 0, 0, 0], 8)), 0);
}

fn scenario_world() -> (World, PrefixKey, PrefixKey) {
    let mut w = World::new();
    w.add_relationship(100, 200, -1);
    let dest = key4([10, 0, 0, 0], 24);
    let own = key4([192, 168, 0, 0], 16);
    assert!(w.add_announcement(dest, "200 100"));
    assert!(w.add_announcement(own, "300 200"));
    w.add_destination(dest);
    (w, dest, own)
}

#[test]
fn single_vantage_scenario() {
    let (w, dest, own) = scenario_world();
    let mut v = View::new(Rc::new(w));
    v.add_perspectives(vec![vantage(own)]);
    let (hard, seen) = v.sets_of(dest).unwrap();
    assert_eq!(sorted(hard), vec![100, 200]);
    assert_eq!(sorted(seen), vec![100, 200]);
    assert_eq!(v.hard_core_sizes(), vec![2]);
    assert_eq!(v.all_seen_sizes(), vec![2]);
    assert_eq!(v.perspectives().len(), 1);
}

#[test]
fn vantage_without_prefix_adds_nothing() {
    let (w, dest, _) = scenario_world();
    let mut v = View::new(Rc::new(w));
    v.add_perspective(Vantage { addr: Addr::V4(1), anchor: None });
    assert!(v.sets_of(dest).is_none());
    assert!(v.hard_core_sizes().is_empty());
}

#[test]
fn hard_core_intersects_and_all_seen_unites() {
    let mut w = World::new();
    let dest = key4([10, 0, 0, 0], 24);
    let a = key4([20, 0, 0, 0], 8);
    let b = key4([30, 0, 0, 0], 8);
    assert!(w.add_announcement(dest, "5 9"));
    assert!(w.add_announcement(a, "1 5"));
    assert!(w.add_announcement(b, "2 9"));
    w.add_destination(dest);
    let mut v = View::new(Rc::new(w));
    v.add_perspectives(vec![vantage(a), vantage(b)]);
    // from a: [5, 9]; from b: [9]
    let (hard, seen) = v.sets_of(dest).unwrap();
    assert_eq!(sorted(hard), vec![9]);
    assert_eq!(sorted(seen), vec![5, 9]);
}

fn two_views() -> (View, View) {
    let mut w = World::new();
    let heavy = key4([10, 0, 0, 0], 24);
    let light = key4([11, 0, 0, 0], 24);
    let pa = key4([20, 0, 0, 0], 8);
    let pb = key4([30, 0, 0, 0], 8);
    assert!(w.add_announcement(heavy, "9"));
    assert!(w.add_announcement(light, "7"));
    assert!(w.add_announcement(light, "8"));
    assert!(w.add_announcement(pa, "1 9"));
    assert!(w.add_announcement(pa, "3 7"));
    assert!(w.add_announcement(pb, "2 9"));
    assert!(w.add_announcement(pb, "4 8"));
    for _ in 0..10 {
        w.add_destination(heavy);
    }
    w.add_destination(light);
    let w = Rc::new(w);
    let mut va = View::new(w.clone());
    va.add_perspective(vantage(pa));
    let mut vb = View::new(w);
    vb.add_perspective(vantage(pb));
    (va, vb)
}

#[test]
fn traffic_weighting_core_dissimilarity() {
    let (va, vb) = two_views();
    let terms = va.core_dissimilarity(&vb).unwrap();
    assert_eq!(
        terms,
        vec![Term { weight: 10, num: 0, den: 2 }, Term { weight: 1, num: 2, den: 2 }]
    );
    assert!((mean(&terms) - 1.0 / 11.0).abs() < 1e-12);
}

#[test]
fn jaccard_dissimilarity_terms() {
    let (va, vb) = two_views();
    let terms = va.jaccard_dissimilarity(&vb).unwrap();
    assert_eq!(
        terms,
        vec![Term { weight: 10, num: 0, den: 1 }, Term { weight: 1, num: 2, den: 2 }]
    );
    assert!((mean(&terms) - 1.0 / 11.0).abs() < 1e-12);
}

#[test]
fn dissimilarity_is_symmetric() {
    let (va, vb) = two_views();
    assert_eq!(va.core_dissimilarity(&vb), vb.core_dissimilarity(&va));
    assert_eq!(va.jaccard_dissimilarity(&vb), vb.jaccard_dissimilarity(&va));
    let m = mean(&va.core_dissimilarity(&vb).unwrap());
    assert!((0.0..=1.0).contains(&m));
}

#[test]
fn view_compared_with_itself_is_zero() {
    let (va, _) = two_views();
    assert_eq!(mean(&va.core_dissimilarity(&va).unwrap()), 0.0);
    assert_eq!(mean(&va.jaccard_dissimilarity(&va).unwrap()), 0.0);
}

#[test]
fn views_over_different_worlds_are_incomparable() {
    let (w1, _, own) = scenario_world();
    let (w2, _, _) = scenario_world();
    let mut a = View::new(Rc::new(w1));
    a.add_perspective(vantage(own));
    let mut b = View::new(Rc::new(w2));
    b.add_perspective(vantage(own));
    assert!(a.core_dissimilarity(&b).is_none());
    assert!(a.jaccard_dissimilarity(&b).is_none());
    assert!(a.core_dissimilarity(&a).is_some());
}
