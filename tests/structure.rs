use ff_fold::{ApplyMove, DotBracketError, LoopInfo, LoopTable, Pair, PairList, PairSet, PairTable};
use ff_fold::LoopInfo::{Paired, Unpaired};

#[test]
fn test_loop_table_valid_structure() {
    // dot-bracket: ((..))
    let pt = PairTable::try_from("((..))").unwrap();
    let lt = LoopTable::from(&pt);
    let expected = [
        LoopInfo::Paired { o: 0, i: 1 },
        LoopInfo::Paired { o: 1, i: 2 },
        LoopInfo::Unpaired { l: 2 },
        LoopInfo::Unpaired { l: 2 },
        LoopInfo::Paired { o: 1, i: 2 },
        LoopInfo::Paired { o: 0, i: 1 },
    ];
    assert_eq!(&lt.0[..], &expected[..]);
}

#[test]
fn test_loop_table_unpaired_structure() {
    let pt = PairTable::try_from("......").unwrap();
    let lt = LoopTable::from(&pt);
    for info in lt.0.iter() {
        assert!(matches!(info, LoopInfo::Unpaired { .. }));
    }
}

#[test]
fn test_deref_loop_table_len_indexing() {
    let pt = PairTable::try_from("((..))").unwrap();
    let lt = LoopTable::from(&pt);
    assert_eq!(lt.len(), 6);
    assert!(matches!(lt.get(2), LoopInfo::Unpaired { .. }));
}

#[test]
fn test_pair_table_to_loop_index_01() {
    let pt = PairTable::try_from(".(((...)).((...))..(.(...)))").unwrap();
    let li = LoopTable(vec![
        Unpaired { l: 0 },
        Paired { o: 0, i: 1 }, Paired { o: 1, i: 2 }, Paired { o: 2, i: 3 },
        Unpaired { l: 3 }, Unpaired { l: 3 }, Unpaired { l: 3 },
        Paired { o: 2, i: 3 }, Paired { o: 1, i: 2 },
        Unpaired { l: 1 },
        Paired { o: 1, i: 4 }, Paired { o: 4, i: 5 },
        Unpaired { l: 5 }, Unpaired { l: 5 }, Unpaired { l: 5 },
        Paired { o: 4, i: 5 }, Paired { o: 1, i: 4 },
        Unpaired { l: 1 }, Unpaired { l: 1 },
        Paired { o: 1, i: 6 },
        Unpaired { l: 6 },
        Paired { o: 6, i: 7 },
        Unpaired { l: 7 }, Unpaired { l: 7 }, Unpaired { l: 7 },
        Paired { o: 6, i: 7 }, Paired { o: 1, i: 6 }, Paired { o: 0, i: 1 },
    ]);
    let re = LoopTable::from(&pt);
    assert_eq!(re, li);
}

#[test]
fn test_pair_table_to_loop_index_02() {
    let pt = PairTable::try_from(".(((...)(...).((.(...))).)).").unwrap();
    let li = LoopTable(vec![
        Unpaired { l: 0 },
        Paired { o: 0, i: 1 },
        Paired { o: 1, i: 2 },
        Paired { o: 2, i: 3 },
        Unpaired { l: 3 },
        Unpaired { l: 3 },
        Unpaired { l: 3 },
        Paired { o: 2, i: 3 },
        Paired { o: 2, i: 4 },
        Unpaired { l: 4 },
        Unpaired { l: 4 },
        Unpaired { l: 4 },
        Paired { o: 2, i: 4 },
        Unpaired { l: 2 },
        Paired { o: 2, i: 5 },
        Paired { o: 5, i: 6 },
        Unpaired { l: 6 },
        Paired { o: 6, i: 7 },
        Unpaired { l: 7 },
        Unpaired { l: 7 },
        Unpaired { l: 7 },
        Paired { o: 6, i: 7 },
        Paired { o: 5, i: 6 },
        Paired { o: 2, i: 5 },
        Unpaired { l: 2 },
        Paired { o: 1, i: 2 },
        Paired { o: 0, i: 1 },
        Unpaired { l: 0 },
    ]);
    let re = LoopTable::from(&pt);
    assert_eq!(re, li);
}

#[test]
fn test_pair_table_to_loop_index_03() {
    let pt = PairTable::try_from(".(((...)(...))).((((.(...))).)).").unwrap();
    let li = LoopTable(vec![
        Unpaired { l: 0 },
        Paired { o: 0, i: 1 }, Paired { o: 1, i: 2 }, Paired { o: 2, i: 3 },
        Unpaired { l: 3 }, Unpaired { l: 3 }, Unpaired { l: 3 },
        Paired { o: 2, i: 3 }, Paired { o: 2, i: 4 },
        Unpaired { l: 4 }, Unpaired { l: 4 }, Unpaired { l: 4 },
        Paired { o: 2, i: 4 }, Paired { o: 1, i: 2 }, Paired { o: 0, i: 1 },
        Unpaired { l: 0 },
        Paired { o: 0, i: 5 }, Paired { o: 5, i: 6 }, Paired { o: 6, i: 7 }, Paired { o: 7, i: 8 },
        Unpaired { l: 8 },
        Paired { o: 8, i: 9 },
        Unpaired { l: 9 }, Unpaired { l: 9 }, Unpaired { l: 9 },
        Paired { o: 8, i: 9 }, Paired { o: 7, i: 8 }, Paired { o: 6, i: 7 },
        Unpaired { l: 6 }, Paired { o: 5, i: 6 }, Paired { o: 0, i: 5 },
        Unpaired { l: 0 },
    ]);
    let re = LoopTable::from(&pt);
    assert_eq!(re, li);
}

#[test]
fn test_loop_table_display() {
    let lt = LoopTable(vec![
        Unpaired { l: 0 },
        Paired { o: 0, i: 1 },
        Paired { o: 1, i: 2 },
        Unpaired { l: 2 },
        Paired { o: 1, i: 2 },
        Paired { o: 0, i: 1 },
    ]);
    let formatted = lt.to_string();
    assert_eq!(formatted, "[0, 0/1, 1/2, 2, 1/2, 0/1]");
}

#[test]
fn pair_set_test_pair_key_roundtrip() {
    let p = Pair::new(1, 42);
    let k = p.key();
    let q = Pair::from_key(k);
    assert_eq!(p, q);
}

#[test]
fn pair_set_test_pair_list_from_pair_table() {
    let pt = PairTable::try_from("((..))").unwrap();
    let pl = PairSet::from(&pt);
    let expected = vec![Pair::new(0, 5), Pair::new(1, 4)];
    assert_eq!(pl.length(), 6);
    assert_eq!(pl.to_vec(), expected);
    for p in &expected {
        assert!(pl.contains(p));
    }
    assert!(!pl.contains(&Pair::new(0, 4)));
}

#[test]
fn pair_set_test_display() {
    let pt = PairTable::try_from("((..))").unwrap();
    let pl = PairSet::from(&pt);
    let s = pl.to_string();
    assert!(s.contains("(0,5)"));
    assert!(s.contains("(1,4)"));
}

#[test]
fn pair_list_test_pair_list_from_pair_table() {
    let pt = PairTable::try_from("((..))").unwrap();
    let pl = PairList::from(&pt);
    assert_eq!(pl.length(), 6);
    assert_eq!(pl.pairs(), &vec![Pair::new(1, 6), Pair::new(2, 5)]);
}

#[test]
fn pair_key_packs_both_indices() {
    let p = Pair::new(3, 7);
    assert_eq!(p.key(), (3u32 << 16) | 7);
    assert_eq!(p.i(), 3);
    assert_eq!(p.j(), 7);
    let q = Pair::from_key(0x0002_0009);
    assert_eq!((q.i(), q.j()), (2, 9));
}

#[test]
fn dot_bracket_round_trip() {
    for s in ["", ".", "()", "(.)", "((..))", ".(((...)(...))).((((.(...))).)).", "()()()"] {
        let pt = PairTable::try_from(s).unwrap();
        assert_eq!(pt.len(), s.len());
        assert_eq!(pt.to_string(), s);
    }
}

#[test]
fn dot_bracket_partners() {
    let pt = PairTable::try_from("(.())").unwrap();
    assert_eq!(pt.get(0), Some(4));
    assert_eq!(pt.get(4), Some(0));
    assert_eq!(pt.get(1), None);
    assert_eq!(pt.get(2), Some(3));
    assert_eq!(pt.get(3), Some(2));
}

#[test]
fn dot_bracket_errors() {
    assert_eq!(PairTable::try_from("(()").err(), Some(DotBracketError::Unbalanced));
    assert_eq!(PairTable::try_from("())(").err(), Some(DotBracketError::Unbalanced));
    assert_eq!(PairTable::try_from(")(").err(), Some(DotBracketError::Unbalanced));
    assert_eq!(PairTable::try_from("(x)").err(), Some(DotBracketError::InvalidCharacter(1)));
    let long = ".".repeat(65536);
    assert_eq!(PairTable::try_from(&long).err(), Some(DotBracketError::TooLong));
    let longest = ".".repeat(65535);
    assert!(PairTable::try_from(&longest).is_ok());
}

#[test]
fn append_unpaired_extends_by_a_dot() {
    let mut pt = PairTable::try_from("()").unwrap();
    pt.append_unpaired();
    assert_eq!(pt.to_string(), "().");
}

#[test]
fn loop_table_laws_on_example() {
    let pt = PairTable::try_from("(()(.))").unwrap();
    let lt = LoopTable::from(&pt);
    assert_eq!(lt.len(), pt.len());
    assert_eq!(lt.get(0), LoopInfo::Paired { o: 0, i: 1 });
    for i in 0..pt.len() {
        if let Some(j) = pt.get(i) {
            assert_eq!(lt.get(i), lt.get(j as usize));
        }
    }
    assert_eq!(lt.to_string(), "[0/1, 1/2, 1/2, 1/3, 3, 1/3, 0/1]");
}

#[test]
fn try_move_cases() {
    let pt = PairTable::try_from("(..)..").unwrap();
    // already present
    assert_eq!(pt.try_move(Pair::new(0, 3)), Ok(Some(Pair::new(0, 3))));
    // both unpaired in the same loop
    assert_eq!(pt.try_move(Pair::new(1, 2)), Ok(None));
    assert_eq!(pt.try_move(Pair::new(4, 5)), Ok(None));
    // both unpaired in different loops
    assert!(pt.try_move(Pair::new(1, 4)).is_err());
    // one end paired: displaces the pair at that end
    assert_eq!(pt.try_move(Pair::new(0, 2)), Ok(Some(Pair::new(0, 3))));
    assert_eq!(pt.try_move(Pair::new(3, 5)), Ok(Some(Pair::new(0, 3))));
    // both paired
    let pt2 = PairTable::try_from("()()").unwrap();
    assert!(pt2.try_move(Pair::new(1, 2)).is_err());
}

#[test]
fn apply_move_replaces_pair() {
    let mut pt = PairTable::try_from("(..)..").unwrap();
    pt.apply_move(Some(Pair::new(0, 3)), Pair::new(3, 5));
    assert_eq!(pt.to_string(), "...(.)");
    pt.apply_move(None, Pair::new(0, 2));
    assert_eq!(pt.to_string(), "(.)(.)");
}
