use opendefalgsplitting::stone::discriminator::discriminator;
use opendefalgsplitting::stone::filter::{filtering_functions, index_j, injective_tuples};
use opendefalgsplitting::stone::gap_filter::gap_driven_filtering;
use opendefalgsplitting::stone::preserve::{
    eval_op, partial_iso_of_lists, permutations, preserves_op_full, subuniverses_of_ops, StoneOp,
};
use opendefalgsplitting::stone::spec::{parse_usize, PartialIso, PartialIsoJson, StoneSpec, StoneSpecJson};

#[test]
fn discriminator_basic() {
    assert_eq!(discriminator(0, 1, 2), 0);
    assert_eq!(discriminator(3, 3, 2), 2);
}

fn fin2_id_family() -> StoneSpec {
    let raw = StoneSpecJson {
        universe_size: 2,
        closure_sets: vec![vec![], vec![0], vec![1], vec![0, 1]],
        sub_isos: Vec::new(),
        id_on_family: true,
    };
    StoneSpec::from_json(raw).expect("spec")
}

#[test]
fn parse_id_on_family() {
    let spec = fin2_id_family();
    assert_eq!(spec.sub_isos.len(), 4);
    assert_eq!(spec.universe, vec![0, 1]);
}

#[test]
fn from_json_rejects_empty_universe() {
    let raw = StoneSpecJson { universe_size: 0, closure_sets: Vec::new(), sub_isos: Vec::new(), id_on_family: false };
    assert_eq!(StoneSpec::from_json(raw).err(), Some("universe_size must be positive".to_string()));
}

#[test]
fn from_json_reads_maps() {
    let raw = StoneSpecJson {
        universe_size: 3,
        closure_sets: vec![vec![2, 0, 2]],
        sub_isos: vec![PartialIsoJson {
            dom: vec![1, 0],
            cod: vec![0, 1],
            map: vec![("0".to_string(), 1), ("+1".to_string(), 0), ("x".to_string(), 2)],
        }],
        id_on_family: false,
    };
    let spec = StoneSpec::from_json(raw).expect("spec");
    assert_eq!(spec.closure_sets[0], vec![0, 2]);
    let iso = &spec.sub_isos[0];
    assert_eq!(iso.dom, vec![0, 1]);
    assert_eq!(iso.apply(0), 1);
    assert_eq!(iso.apply(1), 0);
    assert_eq!(iso.apply(2), 2);
}

#[test]
fn parse_usize_like_from_str() {
    assert_eq!(parse_usize("42"), Some(42));
    assert_eq!(parse_usize("+7"), Some(7));
    assert_eq!(parse_usize("+"), None);
    assert_eq!(parse_usize(""), None);
    assert_eq!(parse_usize("-1"), None);
    assert_eq!(parse_usize("99999999999999999999999"), None);
}

#[test]
fn algebraic_closure_intersects_candidates() {
    let raw = StoneSpecJson {
        universe_size: 4,
        closure_sets: vec![vec![0, 1, 2], vec![0, 1, 3], vec![2, 3]],
        sub_isos: Vec::new(),
        id_on_family: false,
    };
    let spec = StoneSpec::from_json(raw).expect("spec");
    assert_eq!(spec.algebraic_closure(&[1, 0]), vec![0, 1]);
    assert_eq!(spec.algebraic_closure(&[1, 2]), vec![0, 1, 2]);
    assert_eq!(spec.algebraic_closure(&[3, 3]), vec![3]);
    assert_eq!(spec.algebraic_closure(&[2, 1, 3]), vec![1, 2, 3]);
    assert_eq!(spec.all_nonempty_subsets().len(), 15);
}

#[test]
fn combinations_in_order() {
    assert_eq!(injective_tuples(4, 2), vec![vec![0, 1], vec![0, 2], vec![0, 3], vec![1, 2], vec![1, 3], vec![2, 3]]);
    assert_eq!(injective_tuples(2, 0), vec![Vec::<usize>::new()]);
    assert!(injective_tuples(2, 3).is_empty());
    assert_eq!(permutations(&vec![1, 2, 3]).len(), 6);
    assert_eq!(permutations(&vec![1, 2])[1], vec![2, 1]);
}

#[test]
fn operations_and_labels() {
    let spec = fin2_id_family();
    let f = StoneOp::FBar { bar: vec![0], b: 1 };
    assert_eq!(f.arity(), 1);
    assert_eq!(f.label(), "f_[0]_1");
    assert_eq!(StoneOp::GD { domain: vec![1, 0] }.label(), "g_[0, 1]");
    assert_eq!(eval_op(&spec, &StoneOp::Discriminator, &[0, 0, 1]), 1);
    assert_eq!(eval_op(&spec, &StoneOp::Discriminator, &[1, 0, 1]), 1);
    // the identity on {0} sends 0 to 0, so f_[0]_1 gives the image of 1 under it: 1
    assert_eq!(eval_op(&spec, &f, &[0]), 1);
    assert!(preserves_op_full(&spec, &StoneOp::Discriminator, &vec![0]));
    assert!(!preserves_op_full(&spec, &f, &vec![0]));
    let subs = subuniverses_of_ops(&spec, &vec![StoneOp::Discriminator]);
    assert_eq!(subs.len(), 4);
}

#[test]
fn partial_iso_from_lists() {
    let g: PartialIso = partial_iso_of_lists(&[0, 2], &[2, 0]);
    assert_eq!(g.apply(0), 2);
    assert_eq!(g.apply(2), 0);
    let id = partial_iso_of_lists(&[0, 0], &[1, 2]);
    assert_eq!(id.apply(0), 0);
    assert_eq!(id.dom, vec![0]);
}

#[test]
fn filters_start_with_discriminator() {
    let raw = StoneSpecJson {
        universe_size: 2,
        closure_sets: vec![vec![], vec![0, 1]],
        sub_isos: Vec::new(),
        id_on_family: false,
    };
    let spec = StoneSpec::from_json(raw).expect("spec");
    assert_eq!(index_j(&spec), vec![vec![0, 1]]);
    let report = filtering_functions(&spec);
    assert_eq!(report.operations[0], "discriminator");
    assert!(report.filtered_op_count >= 1);
    let gap = gap_driven_filtering(&spec);
    assert_eq!(gap.operations[0], "discriminator");
    assert_eq!(gap.filtered_op_count, gap.operations.len());
}
