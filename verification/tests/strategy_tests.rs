use opendefalgsplitting::first_order::models::Model;
use opendefalgsplitting::first_order::relops::{Operation, Relation};
use opendefalgsplitting::hit::HitConfig;
use opendefalgsplitting::strategy::{
    extract_features, pattern_mixes_target, saturating_pow, select_strategy, select_strategy_explained,
    should_approx_precheck_auto, StrategyDecision,
};

fn model_no_ops_pattern_mix() -> (Model, Relation) {
    let universe = vec![0, 1];
    let target = Relation::new("T", 2).with_tuples(vec![vec![0, 0]]);
    let model = Model::new(universe, Vec::new(), Vec::new());
    (model, target)
}

fn model_with_op_arity2() -> (Model, Relation) {
    let universe = vec![0, 1];
    let mut f = Operation::new("f", 1);
    f.add(vec![0, 0]);
    f.add(vec![1, 1]);
    let target = Relation::new("T", 2).with_tuples(vec![vec![0, 0]]);
    let model = Model::new(universe, Vec::new(), vec![f]);
    (model, target)
}

#[test]
fn pattern_mix_detects_diagonal() {
    let (model, target) = model_no_ops_pattern_mix();
    assert!(pattern_mixes_target(&model, &target));
}

#[test]
fn select_rejects_pattern_without_ops() {
    let (model, target) = model_no_ops_pattern_mix();
    match select_strategy(&model, &target) {
        StrategyDecision::RejectPattern { .. } => {}
        other => panic!("esperaba RejectPattern, got {:?}", other),
    }
}

#[test]
fn select_always_enables_skip() {
    let (model, target) = model_with_op_arity2();
    match select_strategy(&model, &target) {
        StrategyDecision::Run { config, .. } => {
            assert!(config.skip_useless_candidates);
            assert!(!config.simplify_formula);
        }
        other => panic!("esperaba Run con skip, got {:?}", other),
    }
}

#[test]
fn default_hit_config_has_skip() {
    assert!(HitConfig::default().skip_useless_candidates);
}

#[test]
fn approx_auto_on_small_ops_domain() {
    let (model, target) = model_with_op_arity2();
    let feat = extract_features(&model, &target);
    assert!(should_approx_precheck_auto(&feat));
    match select_strategy(&model, &target) {
        StrategyDecision::Run { config, .. } => {
            assert!(config.approx_precheck);
        }
        other => panic!("esperaba Run, got {:?}", other),
    }
}

#[test]
fn approx_auto_off_without_ops() {
    let universe = vec![0, 1, 2];
    let target = Relation::new("T", 2).with_tuples(vec![vec![0, 0], vec![1, 1], vec![2, 2]]);
    let model = Model::new(universe, Vec::new(), Vec::new());
    let feat = extract_features(&model, &target);
    assert!(!should_approx_precheck_auto(&feat));
}

#[test]
fn saturating_pow_values() {
    assert_eq!(saturating_pow(3, 4), 81);
    assert_eq!(saturating_pow(0, 0), 1);
    assert_eq!(saturating_pow(0, 5), 0);
    assert_eq!(saturating_pow(2, 64), u64::MAX);
    assert_eq!(saturating_pow(10, 19), 10_000_000_000_000_000_000);
}

#[test]
fn pure_diagonal_is_accepted_with_explanation() {
    let universe = vec![0, 1, 2];
    let target = Relation::new("T", 2).with_tuples(vec![vec![0, 0], vec![1, 1], vec![2, 2]]);
    let model = Model::new(universe, Vec::new(), Vec::new());
    let (d, text) = select_strategy_explained(&model, &target);
    assert!(matches!(d, StrategyDecision::AcceptUnary { .. }));
    assert_eq!(
        text,
        "features: |U|=3, arity=2, |T|=3, ops=0, ops_arity>0=0, domain_tuples=9, pattern_mix=Some(false)\n\
         sin ops y sin pattern_mix: acepto equality-definable (Lema 3a conversa)"
    );
}
