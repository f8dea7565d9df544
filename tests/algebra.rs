use timely_progress::antichain::Antichain;
use timely_progress::count_map::CountMap;
use timely_progress::mutable_antichain::MutableAntichain;
use timely_progress::order::{PartialOrder, PathSummary, Product};
use timely_progress::summary::Summary;

fn p(a: u64, b: u64) -> Product<u64, u64> {
    Product::new(a, b)
}

#[test]
fn antichain_keeps_incomparable_minima() {
    let mut a: Antichain<Product<u64, u64>> = Antichain::new();
    assert!(a.insert(p(3, 5)));
    assert!(a.insert(p(4, 4)));
    assert!(!a.insert(p(4, 6)));
    let elems = a.elements();
    assert_eq!(elems.len(), 2);
    assert!(elems.contains(&p(3, 5)));
    assert!(elems.contains(&p(4, 4)));
    assert!(!elems.contains(&p(4, 6)));
}

#[test]
fn antichain_insert_removes_dominated() {
    let mut a: Antichain<Product<u64, u64>> = Antichain::from_elem(p(4, 6));
    assert!(a.insert(p(5, 1)));
    assert!(a.insert(p(3, 5)));
    let elems = a.elements();
    assert_eq!(elems.len(), 2);
    assert!(elems.contains(&p(3, 5)));
    assert!(elems.contains(&p(5, 1)));
    assert!(!a.insert(p(3, 5)));
}

#[test]
fn antichain_copied_has_same_elements() {
    let mut a: Antichain<u64> = Antichain::new();
    a.insert(7);
    let b = a.copied();
    assert_eq!(b.elements(), &vec![7u64]);
}

#[test]
fn count_map_coalesces_and_drops_zeros() {
    let mut m: CountMap<u64> = CountMap::new();
    m.update(3, 2);
    m.update(5, 1);
    m.update(3, -2);
    assert_eq!(m.elements(), &vec![(5u64, 1i64)]);
    m.update(5, 0);
    assert_eq!(m.len(), 1);
    m.update(5, -1);
    assert!(m.is_empty());
    m.update(9, 0);
    assert!(m.is_empty());
}

#[test]
fn count_map_saturates() {
    let mut m: CountMap<u64> = CountMap::new();
    m.update(1, i64::MAX);
    m.update(1, 5);
    assert_eq!(m.elements(), &vec![(1u64, i64::MAX)]);
    let mut batch = Vec::new();
    batch.push((2u64, 4i64));
    batch.push((2u64, 6i64));
    m.update_all(&batch);
    assert!(m.elements().contains(&(2u64, 10i64)));
}

#[test]
fn mutable_antichain_reports_frontier_changes() {
    let mut m: MutableAntichain<Product<u64, u64>> = MutableAntichain::new();
    let changes = m.update_iter_and(&vec![(p(2, 2), 1), (p(1, 3), 1)]);
    assert_eq!(changes.len(), 2);
    assert!(changes.contains(&(p(2, 2), 1)));
    assert!(changes.contains(&(p(1, 3), 1)));
    let changes = m.update_iter_and(&vec![(p(1, 1), 1)]);
    assert_eq!(changes.len(), 3);
    assert!(changes.contains(&(p(1, 1), 1)));
    assert!(changes.contains(&(p(2, 2), -1)));
    assert!(changes.contains(&(p(1, 3), -1)));
    assert_eq!(m.elements(), &vec![p(1, 1)]);
    let changes = m.update_iter_and(&vec![(p(1, 1), -1)]);
    assert_eq!(changes.len(), 3);
    assert!(changes.contains(&(p(1, 1), -1)));
    let changes = m.update_iter_and(&vec![]);
    assert!(changes.is_empty());
}

#[test]
fn mutable_antichain_negative_counts_stay_off_the_frontier() {
    let mut m: MutableAntichain<u64> = MutableAntichain::new();
    let changes = m.update_iter_and(&vec![(4, -1), (6, 1)]);
    assert_eq!(changes, vec![(6u64, 1i64)]);
    let changes = m.update_iter_and(&vec![(4, 1)]);
    assert!(changes.is_empty());
    let changes = m.update_iter_and(&vec![(4, 1)]);
    assert_eq!(changes.len(), 2);
    assert!(changes.contains(&(4u64, 1i64)));
    assert!(changes.contains(&(6u64, -1i64)));
}

#[test]
fn mutable_antichain_update_into_cm_accumulates() {
    let mut m: MutableAntichain<u64> = MutableAntichain::new();
    let mut updates: CountMap<u64> = CountMap::new();
    updates.update(3, 1);
    let mut changes: CountMap<u64> = CountMap::new();
    m.update_into_cm(&updates, &mut changes);
    assert_eq!(changes.elements(), &vec![(3u64, 1i64)]);
    let mut retract: CountMap<u64> = CountMap::new();
    retract.update(3, -1);
    m.update_into_cm(&retract, &mut changes);
    assert!(changes.is_empty());
}

#[test]
fn loop_counter_summary() {
    let s: u64 = 3;
    assert_eq!(s.results_in(&4), 7);
    assert_eq!(s.followed_by(&2), 5);
    assert_eq!(u64::MAX.results_in(&1), u64::MAX);
    assert_eq!(<u64 as PathSummary<u64>>::identity(), 0);
}

#[test]
fn nested_summary_results_in() {
    let local: Summary<u64, u64> = Summary::Local(2);
    let outer: Summary<u64, u64> = Summary::Outer(1, 3);
    assert_eq!(local.results_in(&p(5, 4)), p(5, 6));
    assert_eq!(outer.results_in(&p(5, 4)), p(6, 3));
}

#[test]
fn nested_summary_followed_by() {
    let l1: Summary<u64, u64> = Summary::Local(1);
    let l2: Summary<u64, u64> = Summary::Local(2);
    let o1: Summary<u64, u64> = Summary::Outer(1, 4);
    let o2: Summary<u64, u64> = Summary::Outer(2, 5);
    assert_eq!(l1.followed_by(&l2), Summary::Local(3));
    assert_eq!(l1.followed_by(&o1), Summary::Outer(1, 4));
    assert_eq!(o1.followed_by(&l2), Summary::Outer(1, 6));
    assert_eq!(o1.followed_by(&o2), Summary::Outer(3, 5));
    let left = l1.followed_by(&o1).followed_by(&o2);
    let right = l1.followed_by(&o1.followed_by(&o2));
    assert_eq!(left, right);
    let id: Summary<u64, u64> = <Summary<u64, u64> as PathSummary<Product<u64, u64>>>::identity();
    assert_eq!(id, Summary::Local(0));
    assert_eq!(id.followed_by(&o1), o1);
    assert_eq!(o1.followed_by(&id), o1);
}

#[test]
fn nested_summary_order() {
    let l1: Summary<u64, u64> = Summary::Local(1);
    let l2: Summary<u64, u64> = Summary::Local(2);
    let o1: Summary<u64, u64> = Summary::Outer(1, 9);
    let o2: Summary<u64, u64> = Summary::Outer(2, 0);
    let o3: Summary<u64, u64> = Summary::Outer(1, 3);
    assert!(l1.less_equal(&l2));
    assert!(!l2.less_equal(&l1));
    assert!(l2.less_equal(&o1));
    assert!(!o1.less_equal(&l2));
    assert!(o1.less_equal(&o2));
    assert!(o3.less_equal(&o1));
    assert!(!o1.less_equal(&o3));
    assert!(o1.equals(&Summary::Outer(1, 9)));
}

#[test]
fn summary_application_is_monotone() {
    let outer: Summary<u64, u64> = Summary::Outer(2, 1);
    let a = p(1, 7);
    let b = p(2, 9);
    assert!(a.less_equal(&b));
    assert!(outer.results_in(&a).less_equal(&outer.results_in(&b)));
    let local: Summary<u64, u64> = Summary::Local(4);
    assert!(local.results_in(&a).less_equal(&local.results_in(&b)));
}


#[test]
fn mutable_antichain_reports_negative_counts() {
    let mut m: MutableAntichain<u64> = MutableAntichain::new();
    assert!(!m.has_negative());
    m.update_iter_and(&vec![(3, 1)]);
    assert!(!m.has_negative());
    m.update_iter_and(&vec![(5, -1)]);
    assert!(m.has_negative());
    m.update_iter_and(&vec![(5, 1)]);
    assert!(!m.has_negative());
}
