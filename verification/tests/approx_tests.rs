use opendefalgsplitting::approx::{generated_elems, labeled_subalgebra_fingerprint, target_breaks_approx_classes};
use opendefalgsplitting::first_order::models::Model;
use opendefalgsplitting::first_order::relops::{Operation, Relation};

fn flip_model() -> Model {
    let mut f = Operation::new("f", 1);
    f.add(vec![0, 1]);
    f.add(vec![1, 0]);
    Model::new(vec![0, 1], Vec::new(), vec![f])
}

#[test]
fn fingerprint_without_operations() {
    let model = Model::new(vec![0, 1], Vec::new(), Vec::new());
    assert_eq!(
        labeled_subalgebra_fingerprint(&model, &[0, 1]),
        vec![2, 0, 0, 0, 2, 0, 0, 0, 0, 0, 0, 0, 1, 0, 0, 0]
    );
    assert_eq!(
        labeled_subalgebra_fingerprint(&model, &[1, 0]),
        labeled_subalgebra_fingerprint(&model, &[0, 1])
    );
    assert_eq!(
        labeled_subalgebra_fingerprint(&model, &[1, 1]),
        vec![2, 0, 0, 0, 1, 0, 0, 0, 0, 0, 0, 0, 0, 0, 0, 0]
    );
}

#[test]
fn fingerprint_with_an_operation() {
    let model = flip_model();
    assert_eq!(
        labeled_subalgebra_fingerprint(&model, &[0]),
        vec![1, 0, 0, 0, 2, 0, 0, 0, b'f', 0, 1, 1, 0, 0, 0, 0, 0, 0, 0, 0, 0, 0, 0]
    );
    // values are listed over the elements in ascending order, so relabelling shows
    assert_eq!(
        labeled_subalgebra_fingerprint(&model, &[1]),
        vec![1, 0, 0, 0, 2, 0, 0, 0, b'f', 0, 1, 0, 0, 0, 0, 1, 0, 0, 0, 0, 0, 0, 0]
    );
}

#[test]
fn generated_subalgebra() {
    let model = flip_model();
    let mut g = generated_elems(&model, &[1]);
    g.sort();
    assert_eq!(g, vec![0, 1]);
    let none = Model::new(vec![0, 1, 2], Vec::new(), Vec::new());
    assert_eq!(generated_elems(&none, &[2, 2]), vec![2]);
}

#[test]
fn approx_classes_reject_and_accept() {
    let model = Model::new(vec![0, 1], Vec::new(), Vec::new());
    let single = Relation::new("T", 2).with_tuples(vec![vec![0, 0]]);
    assert!(target_breaks_approx_classes(&model, &single));
    let diag = Relation::new("T", 2).with_tuples(vec![vec![0, 0], vec![1, 1]]);
    assert!(!target_breaks_approx_classes(&model, &diag));
    let nullary = Relation::new("T", 0);
    assert!(!target_breaks_approx_classes(&model, &nullary));
    let flip = flip_model();
    let one = Relation::new("T", 1).with_tuples(vec![vec![0]]);
    assert!(!target_breaks_approx_classes(&flip, &one));
    let mut id = Operation::new("id", 1);
    id.add(vec![0, 0]);
    id.add(vec![1, 1]);
    let ident = Model::new(vec![0, 1], Vec::new(), vec![id]);
    assert!(target_breaks_approx_classes(&ident, &one));
}

#[test]
fn fingerprint_without_operations_is_the_equality_pattern() {
    let model = Model::new(vec![1, 2, 3, 5], Vec::new(), Vec::new());
    let a = labeled_subalgebra_fingerprint(&model, &[1, 2, 1]);
    assert_eq!(a, labeled_subalgebra_fingerprint(&model, &[3, 5, 3]));
    assert_eq!(a, labeled_subalgebra_fingerprint(&model, &[5, 1, 5]));
    assert_ne!(a, labeled_subalgebra_fingerprint(&model, &[1, 1, 2]));
    assert_ne!(a, labeled_subalgebra_fingerprint(&model, &[1, 2, 3]));
    assert_ne!(a, labeled_subalgebra_fingerprint(&model, &[1, 2]));
}

#[test]
fn approx_check_without_operations_is_the_pattern_check() {
    let model = Model::new(vec![0, 1, 2], Vec::new(), Vec::new());
    let diag = Relation::new("T", 2).with_tuples(vec![vec![0, 0], vec![1, 1], vec![2, 2]]);
    let single = Relation::new("T", 2).with_tuples(vec![vec![0, 1]]);
    let first = Relation::new("T", 1).with_tuples(vec![vec![0]]);
    for r in [&diag, &single, &first] {
        assert_eq!(
            target_breaks_approx_classes(&model, r),
            opendefalgsplitting::strategy::pattern_mixes_target(&model, r)
        );
    }
    assert!(!target_breaks_approx_classes(&model, &diag));
    assert!(target_breaks_approx_classes(&model, &single));
    assert!(target_breaks_approx_classes(&model, &first));
}
