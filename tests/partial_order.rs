use ff_fold::{Pair, PairTable, PartialOrder, ApplyMove};

fn pt(s: &str) -> PairTable {
    PairTable::try_from(s).unwrap()
}

#[test]
fn test_no_precedence() {
    let mut po = PartialOrder::new();
    let _ = po.extend_by_pairtable(&pt("."));
    let _ = po.extend_by_pairtable(&pt("()"));
    let _ = po.extend_by_pairtable(&pt("()."));
    let r = po.extend_by_pairtable(&pt("()()"));
    assert!(r);

    assert!(po.gt(Pair::new(0, 1).key()).is_none());
    assert!(po.lt(Pair::new(0, 1).key()).is_none());
    assert!(po.gt(Pair::new(2, 3).key()).is_none());
    assert!(po.lt(Pair::new(2, 3).key()).is_none());

    let ph = po.pair_hierarchy();
    assert_eq!(ph.get(&Pair::new(0, 1).key()), Some(&1));
    assert_eq!(ph.get(&Pair::new(2, 3).key()), Some(&1));
}

#[test]
fn test_base_precedence_01() {
    let mut po = PartialOrder::new();
    let _ = po.extend_by_pairtable(&pt("."));
    let _ = po.extend_by_pairtable(&pt("()"));
    let r = po.extend_by_pairtable(&pt(".()"));
    assert!(r);

    assert!(po.gt(Pair::new(0, 1).key()).unwrap().contains(&Pair::new(1, 2).key()));
    assert!(po.lt(Pair::new(1, 2).key()).unwrap().contains(&Pair::new(0, 1).key()));

    let ph = po.pair_hierarchy();
    assert_eq!(ph.get(&Pair::new(0, 1).key()), Some(&1));
    assert_eq!(ph.get(&Pair::new(1, 2).key()), Some(&2));
}

#[test]
fn test_base_precedence_02() {
    let mut po = PartialOrder::new();
    let _ = po.extend_by_pairtable(&pt("."));
    let _ = po.extend_by_pairtable(&pt("()"));
    let r = po.extend_by_pairtable(&pt("(.)"));
    assert!(r);
    let p1 = Pair::new(0, 1).key();
    let p2 = Pair::new(0, 2).key();

    assert!(po.gt(p1).unwrap().contains(&p2));
    assert!(po.lt(p2).unwrap().contains(&p1));

    let ph = po.pair_hierarchy();
    assert_eq!(ph.get(&p1), Some(&1));
    assert_eq!(ph.get(&p2), Some(&2));
}

#[test]
fn test_invalid_order_01() {
    let mut po = PartialOrder::new();
    let _ = po.extend_by_pairtable(&pt("."));
    let _ = po.extend_by_pairtable(&pt("()"));
    let _ = po.extend_by_pairtable(&pt("()."));
    let r = po.extend_by_pairtable(&pt("(.)."));
    assert!(!r);
    let p1 = Pair::new(0, 1).key();
    let p2 = Pair::new(0, 2).key();
    assert!(po.gt(p2).unwrap().contains(&p1));
    assert!(po.lt(p1).unwrap().contains(&p2));
}

#[test]
fn test_invalid_circular_propagation() {
    // ., (), .(), ()(), (()).
    let mut po = PartialOrder::new();
    let _ = po.extend_by_pairtable(&pt("."));
    let _ = po.extend_by_pairtable(&pt("()"));
    let _ = po.extend_by_pairtable(&pt(".()"));
    let _ = po.extend_by_pairtable(&pt("()()"));
    let r = po.extend_by_pairtable(&pt("(())."));
    assert!(!r);
}

#[test]
fn test_multiple_orders() {
    // ., (), ()., ()(), (...)
    let mut po = PartialOrder::new();
    let _ = po.extend_by_pairtable(&pt("."));
    let _ = po.extend_by_pairtable(&pt("()"));
    let _ = po.extend_by_pairtable(&pt("()."));
    let _ = po.extend_by_pairtable(&pt("()()"));
    let r = po.extend_by_pairtable(&pt("(...)"));
    assert!(!r);
    let r = po.extend_by_pairtable(&pt("(.())"));
    assert!(r);

    let p1 = Pair::new(0, 1).key();
    let p2 = Pair::new(2, 3).key();
    let p3 = Pair::new(0, 4).key();

    let ph = po.pair_hierarchy();
    assert_eq!(ph.get(&p1), Some(&1));
    assert_eq!(ph.get(&p2), Some(&1));
    assert_eq!(ph.get(&p3), Some(&2));

    let orders = po.all_total_orders();
    assert_eq!(orders.len(), 3);
    assert!(orders.contains(&vec![p2, p1, p3]));
    assert!(orders.contains(&vec![p1, p3, p2]));
    assert!(orders.contains(&vec![p1, p2, p3]));
    assert!(!orders.contains(&vec![p2, p3, p1]));
}

#[test]
fn test_precedence_propagation_01() {
    // ., (), ()., ()(), (().)
    let mut po = PartialOrder::new();
    let _ = po.extend_by_pairtable(&pt("."));
    let _ = po.extend_by_pairtable(&pt("()"));
    let _ = po.extend_by_pairtable(&pt("()."));
    let _ = po.extend_by_pairtable(&pt("()()"));
    let r = po.extend_by_pairtable(&pt("(().)"));
    assert!(r);

    let p1 = Pair::new(0, 1).key();
    let p2 = Pair::new(2, 3).key();
    let p3 = Pair::new(0, 4).key();
    let p4 = Pair::new(1, 2).key();

    let ph = po.pair_hierarchy();
    assert_eq!(ph.get(&p1), Some(&3));
    assert_eq!(ph.get(&p2), Some(&1));
    assert_eq!(ph.get(&p3), Some(&4));
    assert_eq!(ph.get(&p4), Some(&2));

    assert!(po.gt(p1).unwrap().contains(&p3));
    assert!(po.gt(p2).unwrap().contains(&p4));
    assert!(po.gt(p4).unwrap().contains(&p1));
    assert!(po.lt(p3).unwrap().contains(&p1));
    assert!(po.lt(p4).unwrap().contains(&p2));
    assert!(po.lt(p1).unwrap().contains(&p4));

    let orders = po.all_total_orders();
    assert_eq!(orders.len(), 1);
    assert_eq!(orders[0], [p2, p4, p1, p3]);
}

#[test]
fn test_precedence_propagation_02() {
    // . () (.) (.). (.)() ((..))
    let mut po = PartialOrder::new();
    let _ = po.extend_by_pairtable(&pt("."));
    let _ = po.extend_by_pairtable(&pt("()"));
    let _ = po.extend_by_pairtable(&pt("(.)"));
    let _ = po.extend_by_pairtable(&pt("(.)."));
    let _ = po.extend_by_pairtable(&pt("(.)()"));
    let r = po.extend_by_pairtable(&pt("((..))"));
    assert!(r);

    let p1 = Pair::new(0, 1).key();
    let p2 = Pair::new(0, 2).key();
    let p3 = Pair::new(0, 5).key();
    let p4 = Pair::new(3, 4).key();
    let p5 = Pair::new(1, 4).key();

    let ph = po.pair_hierarchy();
    assert_eq!(ph.get(&p1), Some(&1));
    assert_eq!(ph.get(&p2), Some(&2));
    assert_eq!(ph.get(&p3), Some(&3));
    assert_eq!(ph.get(&p4), Some(&1));
    assert_eq!(ph.get(&p5), Some(&2));
}

#[test]
fn test_precedence_propagation_04() {
    // . .. .() ..() (.()) ((()))
    let mut po = PartialOrder::new();
    let _ = po.extend_by_pairtable(&pt("."));
    let _ = po.extend_by_pairtable(&pt(".."));
    let _ = po.extend_by_pairtable(&pt(".()"));
    let _ = po.extend_by_pairtable(&pt("..()"));
    let _ = po.extend_by_pairtable(&pt("(.())"));
    let r = po.extend_by_pairtable(&pt("((()))"));
    assert!(r);

    let p1 = Pair::new(1, 2).key();
    let p2 = Pair::new(2, 3).key();
    let p3 = Pair::new(0, 4).key();
    let p4 = Pair::new(0, 5).key();
    let p5 = Pair::new(1, 4).key();

    let ph = po.pair_hierarchy();
    assert_eq!(ph.get(&p1), Some(&1));
    assert_eq!(ph.get(&p2), Some(&2));
    assert_eq!(ph.get(&p3), Some(&2));
    assert_eq!(ph.get(&p4), Some(&3));
    assert_eq!(ph.get(&p5), Some(&1));
}

#[test]
fn test_precedence_propagation_05() {
    // . () (.) ()() ()(). ()(())
    let mut po = PartialOrder::new();
    let _ = po.extend_by_pairtable(&pt("."));
    let _ = po.extend_by_pairtable(&pt("()"));
    let _ = po.extend_by_pairtable(&pt("(.)"));
    let _ = po.extend_by_pairtable(&pt("()()"));
    let _ = po.extend_by_pairtable(&pt("()()."));
    let r = po.extend_by_pairtable(&pt("()(())"));
    assert!(r);

    let p1 = Pair::new(0, 1).key();
    let p2 = Pair::new(0, 2).key();
    let p3 = Pair::new(2, 3).key();
    let p4 = Pair::new(3, 4).key();
    let p5 = Pair::new(2, 5).key();

    let ph = po.pair_hierarchy();
    assert_eq!(ph.get(&p1), Some(&1));
    assert_eq!(ph.get(&p2), Some(&2));
    assert_eq!(ph.get(&p3), Some(&3));
    assert_eq!(ph.get(&p4), Some(&1));
    assert_eq!(ph.get(&p5), Some(&4));
}

#[test]
fn four_way_migration_is_rejected() {
    // ., (), ()., ()(), (())
    let mut po = PartialOrder::new();
    assert!(po.extend_by_pairtable(&pt(".")));
    assert!(po.extend_by_pairtable(&pt("()")));
    assert!(po.extend_by_pairtable(&pt("().")));
    assert!(po.extend_by_pairtable(&pt("()()")));
    assert!(!po.extend_by_pairtable(&pt("(())")));
}

#[test]
fn duplicate_and_skipped_lengths_are_rejected() {
    let mut po = PartialOrder::new();
    assert!(po.extend_by_pairtable(&pt(".")));
    assert!(!po.extend_by_pairtable(&pt(".")));
    assert!(!po.extend_by_pairtable(&pt("...")));
    assert!(po.extend_by_pairtable(&pt("()")));
}

#[test]
fn total_orders_rebuild_the_last_table() {
    // every linear extension, applied pair by pair to an open chain, yields the final table
    let chain = [".", "()", "().", "()()", "(.())"];
    let mut po = PartialOrder::new();
    for s in chain.iter() {
        let _ = po.extend_by_pairtable(&pt(s));
    }
    let last = pt("(.())");
    let orders = po.all_total_orders();
    assert!(!orders.is_empty());
    for order in orders {
        let mut t = pt(".....");
        for key in order {
            let p = Pair::from_key(key);
            match t.try_move(p) {
                Ok(Some(q)) if q == p => {}
                Ok(old) => t.apply_move(old, p),
                Err(e) => panic!("pair cannot move in: {}", e),
            }
        }
        assert_eq!(t, last);
    }
}
