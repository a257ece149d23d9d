use ff_fold::{display_acfp, DomainRegistry, NussinovDP, Pair, PairTable, RegistryError, ScoreMatrix};

#[test]
fn test_pair_score_simple() {
    let mut registry = DomainRegistry::new();
    registry.intern("a", 1);
    registry.intern("b", 1);
    registry.intern("c", 1);

    let ndp = NussinovDP::try_from(("a a* b b* c", &registry)).unwrap();
    assert_eq!(ndp.pair_scores().get(0, 1), 1);
    assert_eq!(ndp.pair_scores().get(1, 0), 1);
    assert_eq!(ndp.pair_scores().get(2, 3), 1);
    assert_eq!(ndp.pair_scores().get(3, 2), 1);
    assert_eq!(ndp.pair_scores().get(0, 2), 0);
}

#[test]
fn test_nussinov_basic_structure() {
    let mut registry = DomainRegistry::new();
    registry.intern("a", 1);
    registry.intern("b", 2);

    let ndp = NussinovDP::try_from(("a a* b b*", &registry)).unwrap();
    assert_eq!(ndp.dp_table().get(0, 3), 3);
    let pairs = ndp.get_mfe_pairs(None);
    assert!(pairs.contains(&Pair::new(0, 1)));
    assert!(pairs.contains(&Pair::new(2, 3)));
}

#[test]
fn test_traceback_all_variants() {
    let mut registry = DomainRegistry::new();
    registry.intern("a", 1);
    registry.intern("x", 2);

    let ndp = NussinovDP::try_from(("a x a*", &registry)).unwrap();
    assert_eq!(ndp.pair_scores().get(0, 2), 1);
    assert_eq!(ndp.pair_scores().get(2, 0), 1);
    assert_eq!(ndp.dp_table().get(0, 2), 1);

    let structs = ndp.all_mfe_structs(None);
    assert_eq!(structs.len(), 1);
    assert_eq!(structs[0], PairTable::try_from("(.)").unwrap());
}

#[test]
fn test_traceback_all_bifurcation() {
    let mut registry = DomainRegistry::new();
    registry.intern("a", 1);

    let ndp = NussinovDP::try_from(("a a* a a*", &registry)).unwrap();
    assert_eq!(ndp.dp_table().get(0, 3), 2);

    let structs = ndp.all_mfe_structs(None);
    assert_eq!(structs.len(), 2);
    assert!(structs.contains(&PairTable::try_from("(())").unwrap()));
    assert!(structs.contains(&PairTable::try_from("()()").unwrap()));
}

#[test]
fn test_traceback_all_multioutput() {
    let mut registry = DomainRegistry::new();
    registry.intern("a", 1);
    let ndp = NussinovDP::try_from(("a a* a a* a a* a a*", &registry)).unwrap();
    let structs = ndp.all_mfe_structs(None);
    assert_eq!(structs.len(), 14);
}

#[test]
fn unknown_domain_is_reported() {
    let mut registry = DomainRegistry::new();
    registry.intern("a", 1);
    match NussinovDP::try_from(("a b* a*", &registry)) {
        Err(RegistryError::UnknownDomain(name)) => assert_eq!(name, "b*"),
        _ => panic!("expected an unknown domain"),
    }
}

#[test]
fn registry_keeps_first_length() {
    let mut registry = DomainRegistry::new();
    assert_eq!(registry.intern("a", 3), 0);
    assert_eq!(registry.intern("b", 5), 1);
    assert_eq!(registry.intern("a", 9), 0);
    let a = registry.get("a*").unwrap();
    assert_eq!((a.id, a.length, a.complement), (0, 3, true));
    let b = registry.get("b").unwrap();
    assert_eq!((b.id, b.length, b.complement), (1, 5, false));
    assert!(registry.get("c").is_none());
}

#[test]
fn pair_score_is_the_shorter_length() {
    let mut registry = DomainRegistry::new();
    registry.intern("a", 4);
    let ndp = NussinovDP::try_from(("a a*  a", &registry)).unwrap();
    assert_eq!(ndp.pair_scores().get(0, 1), 4);
    assert_eq!(ndp.pair_scores().get(1, 2), 4);
    assert_eq!(ndp.pair_scores().get(0, 2), 0);
    assert_eq!(ndp.dp_table().get(0, 2), 4);
}

#[test]
fn dp_table_from_score_matrix() {
    // scores: (0,3) = 5, (1,2) = 1, (0,1) = 2
    let mut p = ScoreMatrix::zeros(4);
    p.set(0, 3, 5);
    p.set(1, 2, 1);
    p.set(0, 1, 2);
    let ndp = NussinovDP::from(p);
    assert_eq!(ndp.dp_table().get(0, 3), 6);
    assert_eq!(ndp.dp_table().get(0, 2), 2);
    assert_eq!(ndp.dp_table().get(1, 3), 1);
    assert_eq!(ndp.dp_table().get(3, 0), 0);
    let structs = ndp.all_mfe_structs(None);
    assert_eq!(structs, vec![PairTable::try_from("(())").unwrap()]);
    let pairs = ndp.get_mfe_pairs(None);
    assert_eq!(pairs.to_vec(), vec![Pair::new(0, 3), Pair::new(1, 2)]);
    assert_eq!(pairs.to_string(), "(0,3),(1,2)");
}

#[test]
fn dp_table_never_drops_when_widening() {
    let mut registry = DomainRegistry::new();
    registry.intern("a", 2);
    registry.intern("b", 3);
    let ndp = NussinovDP::try_from(("a b a* b* a b*", &registry)).unwrap();
    let d = ndp.dp_table();
    let n = d.dim().0;
    for i in 0..n {
        for j in i + 1..n {
            assert!(d.get(i, j) >= d.get(i + 1, j));
            assert!(d.get(i, j) >= d.get(i, j - 1));
        }
    }
}

#[test]
fn co_optima_score_the_best_score() {
    let mut registry = DomainRegistry::new();
    registry.intern("a", 1);
    registry.intern("b", 2);
    let ndp = NussinovDP::try_from(("a b a* b* a a*", &registry)).unwrap();
    let best = ndp.dp_table().get(0, 5);
    let all = ndp.all_mfe_pairs(None);
    assert!(!all.is_empty());
    for ps in &all {
        let mut total = 0;
        for p in ps.to_vec() {
            total += ndp.pair_scores().get(p.i() as usize, p.j() as usize);
        }
        assert_eq!(total, best);
    }
    for pt in ndp.all_mfe_structs(None) {
        // nested: the table reads back from its own dot-bracket string
        let again = PairTable::try_from(&pt.to_string()).unwrap();
        assert_eq!(again, pt);
    }
}

#[test]
fn prefix_length_query() {
    let mut registry = DomainRegistry::new();
    registry.intern("a", 1);
    let ndp = NussinovDP::try_from(("a a* a a*", &registry)).unwrap();
    let structs = ndp.all_mfe_structs(Some(2));
    assert_eq!(structs, vec![PairTable::try_from("()").unwrap()]);
    let pairs = ndp.get_mfe_pairs(Some(3));
    assert_eq!(pairs.length(), 3);
    assert_eq!(pairs.len(), 1);
}

#[test]
fn display_acfp_joins_with_spaces() {
    let chain = vec![
        PairTable::try_from(".").unwrap(),
        PairTable::try_from("()").unwrap(),
        PairTable::try_from("().").unwrap(),
    ];
    assert_eq!(display_acfp(&chain), ". () ().");
    assert_eq!(display_acfp(&Vec::new()), "");
}

#[test]
fn too_many_domains_is_refused() {
    let mut registry = DomainRegistry::new();
    registry.intern("a", 1);
    let words = vec!["a"; 46341].join(" ");
    assert!(matches!(NussinovDP::try_from((words.as_str(), &registry)), Err(RegistryError::Other(_))));
}

#[test]
fn oversized_lengths_are_refused() {
    let mut registry = DomainRegistry::new();
    registry.intern("a", usize::MAX / 2);
    assert!(matches!(NussinovDP::try_from(("a a* a", &registry)), Err(RegistryError::Other(_))));
    let ok = NussinovDP::try_from(("a a*", &registry)).unwrap();
    assert_eq!(ok.dp_table().get(0, 1), usize::MAX / 2);
}
