use opendefalgsplitting::engines::dispatch::{
    check_engine, open_definability_outcome, renamed, EngineKind, EngineOutcome, EngineRun, ExternalEngine,
    FragmentKind,
};
use opendefalgsplitting::engines::ktypes::{ep_type, fo_type, guarded_type, is_guarded_neighbour};
use opendefalgsplitting::engines::partition::TuplePartition;
use opendefalgsplitting::engines::splits::{type_split, KeyKind};
use opendefalgsplitting::engines::tuple_model_hash::TupleModelHash;
use opendefalgsplitting::engines::types::atomic_pp_type;
use opendefalgsplitting::first_order::models::Model;
use opendefalgsplitting::first_order::relops::{Operation, Relation};

fn leq_model() -> Model {
    let mut leq = Relation::new("leq", 2);
    for t in [(0, 0), (0, 1), (0, 2), (0, 3), (1, 1), (1, 3), (2, 2), (2, 3), (3, 3)] {
        leq.add(vec![t.0, t.1]);
    }
    Model::new(vec![0, 1, 2, 3], vec![leq], Vec::new())
}

fn diag(universe: &[i64]) -> Relation {
    Relation::new("T", 2).with_tuples(universe.iter().map(|&x| vec![x, x]).collect())
}

fn outcome(run: Result<EngineRun, String>) -> EngineOutcome {
    match run {
        Ok(EngineRun::Done(out)) => out,
        other => panic!("expected an outcome, got {:?}", other),
    }
}

#[test]
fn guarded_neighbour_sees_relation_guard() {
    let model = leq_model();
    assert!(is_guarded_neighbour(&model, &[0, 0], 1, 1, 2));
    assert!(!is_guarded_neighbour(&model, &[0, 0], 1, 0, 2));
    assert!(!is_guarded_neighbour(&model, &[0, 0], 2, 1, 2));
}

#[test]
fn compound_term_eq_is_not_a_guard() {
    let mut meet = Operation::new("meet", 2);
    for a in 0..3 {
        for b in 0..3 {
            meet.add(vec![a, b, a.min(b)]);
        }
    }
    let model = Model::new(vec![0, 1, 2], Vec::new(), vec![meet]);
    assert!(!is_guarded_neighbour(&model, &[0, 1], 0, 2, 2));
    // a coordinate equality guards the move
    assert!(is_guarded_neighbour(&model, &[0, 1], 0, 1, 2));
}

#[test]
fn layered_types_extend_the_atomic_type() {
    let model = Model::new(vec![0, 1], Vec::new(), Vec::new());
    let pp: Vec<u8> = atomic_pp_type(&model, &[0, 1], 2).iter().flat_map(|x| x.to_le_bytes()).collect();
    assert_eq!(guarded_type(&model, &[0, 1], 0, 2), pp);
    assert_eq!(fo_type(&model, &[0, 1], 0, 2), pp);
    // two neighbours each, one hash of eight bytes per neighbour
    let g1 = guarded_type(&model, &[0, 1], 1, 2);
    let f1 = fo_type(&model, &[0, 1], 1, 2);
    assert_eq!(g1.len(), pp.len() + 16);
    assert_eq!(f1.len(), pp.len() + 16);
    assert_eq!(&g1[..pp.len()], &pp[..]);
    // (0,1) and (1,0) have the same neighbours' types up to order
    let pp10: Vec<u8> = atomic_pp_type(&model, &[1, 0], 2).iter().flat_map(|x| x.to_le_bytes()).collect();
    assert_eq!(&fo_type(&model, &[1, 0], 1, 2)[pp10.len()..], &f1[pp.len()..]);
}

#[test]
fn guarded_type_without_guards_has_no_neighbours() {
    let model = Model::new(vec![0, 1, 2], Vec::new(), Vec::new());
    // (0,1): moving a coordinate to a value equal to the other one is guarded;
    // moving it to the third value is not
    let g = guarded_type(&model, &[0, 1], 1, 2);
    let pp: Vec<u8> = atomic_pp_type(&model, &[0, 1], 2).iter().flat_map(|x| x.to_le_bytes()).collect();
    assert_eq!(g.len(), pp.len() + 16);
    let f = fo_type(&model, &[0, 1], 1, 2);
    assert_eq!(f.len(), pp.len() + 32);
}

#[test]
fn ep_type_without_operations() {
    let model = Model::new(vec![0, 1], Vec::new(), Vec::new());
    assert_eq!(ep_type(&model, &[0, 1], 1, 0), vec![0]);
    assert_eq!(
        ep_type(&model, &[0, 1], 1, 1),
        vec![0, 0xff, 3, 0, 0, 0, 0, 0, 1, 3, 0, 0, 0, 0, 1, 0]
    );
    assert_eq!(ep_type(&model, &[0, 0], 1, 0), vec![1]);
}

#[test]
fn pp_split_on_the_diagonal() {
    let universe = vec![0, 1, 2];
    let model = Model::new(universe.clone(), Vec::new(), Vec::new());
    let out = outcome(check_engine(&model, &diag(&universe), FragmentKind::Pp, EngineKind::Auto, 0, 1));
    assert!(out.definable);
    assert_eq!(out.fragment, "pp");
    assert_eq!(out.engine, "pp_split_d1");
    let out = outcome(check_engine(&model, &diag(&universe), FragmentKind::AtomicConj, EngineKind::Auto, 3, 1));
    assert_eq!(out.engine, "atomic_split_d3");
    assert_eq!(out.fragment, "atomic_conj");
}

#[test]
fn sparse_edge_fo_rejects_gf_accepts() {
    let universe = vec![0, 1, 2];
    let model = Model::new(universe.clone(), Vec::new(), Vec::new());
    let edge = Relation::new("T_edge", 2).with_tuples(vec![vec![0, 1]]);
    let fo = outcome(check_engine(&model, &edge, FragmentKind::Fo, EngineKind::Split, 2, 1));
    let gf = outcome(check_engine(&model, &edge, FragmentKind::Gf, EngineKind::Split, 2, 1));
    assert!(!fo.definable, "FO must reject the sparse edge");
    assert_eq!(fo.engine, "fo_split_k1");
    assert!(gf.definable, "GF must accept the sparse edge");
    assert_eq!(gf.engine, "guarded_split_k1");
    assert_ne!(fo_type(&model, &[0, 1], 1, 2), guarded_type(&model, &[0, 1], 1, 2));
}

#[test]
fn fo_accepts_the_diagonal() {
    let universe = vec![0, 1, 2];
    let model = Model::new(universe.clone(), Vec::new(), Vec::new());
    let fo = outcome(check_engine(&model, &diag(&universe), FragmentKind::Fo, EngineKind::Auto, 2, 1));
    assert!(fo.definable);
    assert_eq!(fo.fragment, "fo");
}

#[test]
fn ep_ktypes_without_operations_separates_the_diagonal() {
    let universe = vec![0, 1, 2];
    let model = Model::new(universe.clone(), Vec::new(), Vec::new());
    let out = outcome(check_engine(&model, &diag(&universe), FragmentKind::Ep, EngineKind::Ktypes, 2, 1));
    assert!(out.definable);
    assert_eq!(out.engine, "ep_ktypes_d2_e1");
    let half = Relation::new("T", 2).with_tuples(vec![vec![0, 1], vec![1, 2]]);
    let out = outcome(check_engine(&model, &half, FragmentKind::Ep, EngineKind::Ktypes, 2, 1));
    assert!(!out.definable);
}

#[test]
fn ep_ktypes_with_operations_on_a_large_universe_is_marked_incomplete() {
    let universe: Vec<i64> = (0..7).collect();
    let mut f = Operation::new("f", 1);
    for x in 0..7 {
        f.add(vec![x, x]);
    }
    let model = Model::new(universe.clone(), Vec::new(), vec![f]);
    let target = Relation::new("T", 1).with_tuples(vec![vec![0]]);
    let out = outcome(check_engine(&model, &target, FragmentKind::Ep, EngineKind::Ktypes, 1, 1));
    assert_eq!(out.engine, "ep_ktypes_d1_e1_ops_incomplete");
}

#[test]
fn routes_to_outside_engines_and_refusals() {
    let universe = vec![0, 1];
    let mut f = Operation::new("f", 1);
    f.add(vec![0, 1]);
    f.add(vec![1, 0]);
    let model = Model::new(universe.clone(), Vec::new(), vec![f]);
    let t = diag(&universe);
    match check_engine(&model, &t, FragmentKind::Ep, EngineKind::Ktypes, 2, 1) {
        Ok(EngineRun::External(ExternalEngine::MorphSplit, Some(n))) => assert_eq!(n, "ktypes_via_hom_type"),
        other => panic!("unexpected {:?}", other),
    }
    match check_engine(&model, &t, FragmentKind::Ep, EngineKind::HomType, 2, 1) {
        Ok(EngineRun::External(ExternalEngine::MorphSplit, Some(n))) => assert_eq!(n, "hom_type"),
        other => panic!("unexpected {:?}", other),
    }
    assert!(matches!(
        check_engine(&model, &t, FragmentKind::Ep, EngineKind::Cert, 2, 1),
        Ok(EngineRun::External(ExternalEngine::EpCert, None))
    ));
    assert!(matches!(
        check_engine(&model, &t, FragmentKind::Ex, EngineKind::Auto, 2, 1),
        Ok(EngineRun::External(ExternalEngine::EmbeddingSplit, None))
    ));
    assert!(matches!(
        check_engine(&model, &t, FragmentKind::Gf, EngineKind::Merge, 2, 1),
        Ok(EngineRun::External(ExternalEngine::GuardedMerge, None))
    ));
    assert!(matches!(
        check_engine(&model, &t, FragmentKind::Qf, EngineKind::Merge, 2, 1),
        Ok(EngineRun::External(ExternalEngine::MegahitMerge, None))
    ));
    assert!(matches!(
        check_engine(&model, &t, FragmentKind::Qf, EngineKind::Hit, 2, 1),
        Ok(EngineRun::External(ExternalEngine::OpenDefinability, None))
    ));
    match check_engine(&model, &t, FragmentKind::Gf, EngineKind::Hit, 2, 1) {
        Err(e) => assert_eq!(e, "gf has no hit engine"),
        other => panic!("unexpected {:?}", other),
    }
    match check_engine(&model, &t, FragmentKind::Qf, EngineKind::Ktypes, 2, 1) {
        Err(e) => assert_eq!(e, "qf has no ktypes engine"),
        other => panic!("unexpected {:?}", other),
    }
    match check_engine(&model, &t, FragmentKind::Qf, EngineKind::Cert, 2, 1) {
        Err(e) => assert_eq!(e, "qf has no cert engine"),
        other => panic!("unexpected {:?}", other),
    }
}

#[test]
fn dispatch_refuses_too_many_tuples() {
    let universe: Vec<i64> = (0..17).collect();
    let model = Model::new(universe.clone(), Vec::new(), Vec::new());
    let t = diag(&universe);
    match check_engine(&model, &t, FragmentKind::Pp, EngineKind::Auto, 1, 1) {
        Err(e) => assert_eq!(e, "Cannot enumerate 2-tuples: |U|^2 = 289 exceeds MAX=256"),
        other => panic!("unexpected {:?}", other),
    }
}

#[test]
fn outside_outcomes_are_renamed() {
    let out = open_definability_outcome(true);
    assert!(out.definable);
    assert_eq!(out.fragment, "qf");
    assert_eq!(out.engine, "hit_split");
    let r = renamed(EngineOutcome::basic(false, "ep", "morph_split"), Some("hom_type".to_string()));
    assert_eq!(r.engine, "hom_type");
    assert!(!r.definable);
    let r = renamed(EngineOutcome::basic(false, "ep", "morph_split"), None);
    assert_eq!(r.engine, "morph_split");
}

#[test]
fn type_split_by_equality_pattern() {
    let universe = vec![0, 1, 2];
    let model = Model::new(universe.clone(), Vec::new(), Vec::new());
    let out = type_split(&model, &diag(&universe), KeyKind::Ep(1, 0), "ep", "eq").expect("split");
    assert!(out.definable);
    let edge = Relation::new("T", 2).with_tuples(vec![vec![0, 1]]);
    let out = type_split(&model, &edge, KeyKind::Ep(1, 0), "ep", "eq").expect("split");
    assert!(!out.definable);
}

fn cycle_model() -> Model {
    let mut f = Operation::new("f", 1);
    for x in 0..4 {
        f.add(vec![x, (x + 1) % 4]);
    }
    let r = Relation::new("R", 1).with_tuples(vec![vec![0]]);
    Model::new(vec![0, 1, 2, 3], vec![r], vec![f])
}

#[test]
fn isotype_of_a_cycle() {
    let model = cycle_model();
    let h = TupleModelHash::compute(&model, &[0]);
    assert_eq!(h.flat_h, vec![0, 1, 2, 3]);
    assert_eq!(h.type_index_sets, vec![vec![0, 4], vec![1], vec![2], vec![3]]);
    assert_eq!(h.relations_fp, vec![vec![vec![0]]]);
    assert_eq!(h.universe(), vec![0, 1, 2, 3]);
    let other = TupleModelHash::compute(&model, &[1]);
    assert_eq!(other.flat_h, vec![1, 2, 3, 0]);
    // R holds of 0, at position 3 when generating from 1
    assert_eq!(other.relations_fp, vec![vec![vec![3]]]);
    assert!(!h.same_type(&other));
    assert!(h.iso_map(&other).is_none());
}

#[test]
fn isotype_self_eq_and_hash_stable() {
    let model = cycle_model();
    let fa = TupleModelHash::compute(&model, &[0, 2]);
    let fb = TupleModelHash::compute(&model, &[0, 2]);
    assert!(fa.same_type(&fb));
    assert_eq!(fa.iso_map(&fb), Some(vec![(0, 0), (2, 2), (1, 1), (3, 3)]));
    let other = TupleModelHash::compute(&model, &[1, 2]);
    assert!(!fa.same_type(&other));
}

#[test]
fn compact_matches_full_eq() {
    let model = cycle_model();
    let fa = TupleModelHash::compute(&model, &[0, 2]);
    let fb = TupleModelHash::compute(&model, &[0, 2]);
    let other = TupleModelHash::compute(&model, &[1, 2]);
    assert_eq!(fa.to_compact(), fb.to_compact());
    assert_ne!(fa.to_compact(), other.to_compact());
    assert_eq!(TupleModelHash::compute_compact(&model, &[0, 2]), fa.to_compact());
}

#[test]
fn isotype_with_repeated_generators_and_partial_operation() {
    let model = cycle_model();
    let h = TupleModelHash::compute(&model, &[2, 2]);
    assert_eq!(h.flat_h, vec![2, 2, 3, 0, 1]);
    // generator positions 0 and 1 name 2; applications are numbered from 2 on:
    // round 1: f(2)=3 (2), f(2)=3 (3); round 2: f(3)=0 (4); round 3: f(0)=1 (5);
    // round 4: f(1)=2 (6)
    assert_eq!(h.type_index_sets, vec![vec![0, 1, 6], vec![2, 3], vec![4], vec![5]]);
    assert_eq!(h.relations_fp, vec![vec![vec![3]]]);
    let mut g = Operation::new("g", 1);
    g.add(vec![0, 1]);
    let partial = Model::new(vec![0, 1], Vec::new(), vec![g]);
    assert!(TupleModelHash::try_compute(&partial, &[0]).is_none());
    assert!(TupleModelHash::try_compute(&partial, &[1]).is_none());
}

#[test]
fn refinement_is_pure_exactly_when_equal_keys_agree() {
    let target = Relation::new("T", 1).with_tuples(vec![vec![0], vec![2]]);
    let rows = vec![vec![0], vec![1], vec![2], vec![3]];
    // keys agree on the target: {0,2} and {1,3}
    let mut p = TuplePartition { blocks: vec![rows.clone()] };
    p.refine(&vec![vec![vec![7], vec![8], vec![7], vec![8]]]);
    assert_eq!(p.blocks, vec![vec![vec![0], vec![2]], vec![vec![1], vec![3]]]);
    assert!(p.is_target_pure(&target));
    // 0 and 1 share a key but disagree on the target
    let mut q = TuplePartition { blocks: vec![rows] };
    q.refine(&vec![vec![vec![7], vec![7], vec![8], vec![8]]]);
    assert!(!q.is_target_pure(&target));
}

#[test]
fn same_type_is_reflexive_and_symmetric() {
    let model = cycle_model();
    let a = TupleModelHash::compute(&model, &[0, 2]);
    let b = TupleModelHash::compute(&model, &[2, 0]);
    assert!(a.same_type(&a));
    assert_eq!(a.same_type(&b), b.same_type(&a));
}

#[test]
fn guarded_neighbours_are_first_order_neighbours() {
    let model = leq_model();
    let row = [1, 2];
    for i in 0..2 {
        for &u in &[0i64, 1, 2, 3] {
            if is_guarded_neighbour(&model, &row, i, u, 2) {
                assert_ne!(row[i], u);
            }
        }
    }
}

#[test]
fn generated_elements_begin_with_the_generators() {
    let model = cycle_model();
    for gens in [vec![3], vec![1, 1], vec![2, 0, 1]] {
        let h = TupleModelHash::compute(&model, &gens);
        assert_eq!(&h.flat_h[..gens.len()], &gens[..]);
    }
}

#[test]
fn ep_type_without_operations_sees_only_the_pattern() {
    let model = Model::new(vec![0, 1, 2], Vec::new(), Vec::new());
    assert_eq!(ep_type(&model, &[0, 1, 0], 2, 0), ep_type(&model, &[2, 1, 2], 2, 0));
    assert_eq!(ep_type(&model, &[0, 1, 0], 2, 0), vec![0, 1, 0]);
    assert_ne!(ep_type(&model, &[0, 1, 0], 2, 0), ep_type(&model, &[0, 0, 1], 2, 0));
}

#[test]
fn fo_type_adds_one_hash_per_neighbour() {
    let model = Model::new(vec![0, 1, 2, 3], Vec::new(), Vec::new());
    let f0 = fo_type(&model, &[1, 1], 0, 2);
    let f1 = fo_type(&model, &[1, 1], 1, 2);
    // each of the two coordinates can move to three other values
    assert_eq!(f1.len(), f0.len() + 8 * 6);
    assert_eq!(&f1[..f0.len()], &f0[..]);
}
