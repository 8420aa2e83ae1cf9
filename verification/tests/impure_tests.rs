use opendefalgsplitting::engines::tuple_model_hash::CompactIsoType;
use opendefalgsplitting::hit::TupleHistory;
use opendefalgsplitting::impure::{next_move, split_finished_impure, NextMove};

fn th(x: i64, in_target: bool) -> TupleHistory {
    TupleHistory { t: vec![x], history: vec![x], in_target, has_generated: false }
}

fn ty(n: usize) -> CompactIsoType {
    CompactIsoType { type_index_sets: vec![vec![n]], relations_fp: vec![] }
}

#[test]
fn finished_impure_splits_by_type() {
    let ts = vec![th(0, true), th(1, true), th(2, false)];
    let types = vec![ty(0), ty(0), ty(1)];
    let r = split_finished_impure(&ts, &types, &vec![0, 0, 0]);
    assert_eq!(r, Some(vec![vec![0, 1], vec![2]]));
}

#[test]
fn finished_impure_refuses_a_mixed_class() {
    let ts = vec![th(0, true), th(1, false), th(2, false)];
    let types = vec![ty(0), ty(1), ty(0)];
    assert_eq!(split_finished_impure(&ts, &types, &vec![0, 0, 0]), None);
}

#[test]
fn finished_impure_refuses_a_single_class() {
    let ts = vec![th(0, false), th(1, false)];
    let types = vec![ty(3), ty(3)];
    assert_eq!(split_finished_impure(&ts, &types, &vec![0, 0]), None);
}

#[test]
fn finished_impure_orders_shared_proxies_first() {
    // Tuple 1 has a proxy no tuple of the target has; tuple 2 shares the target's proxy.
    let ts = vec![th(0, true), th(1, false), th(2, false)];
    let types = vec![ty(0), ty(1), ty(2)];
    let r = split_finished_impure(&ts, &types, &vec![7, 9, 7]);
    assert_eq!(r, Some(vec![vec![0], vec![2], vec![1]]));
    let r = split_finished_impure(&ts, &types, &vec![0, 0, 0]);
    assert_eq!(r, Some(vec![vec![0], vec![1], vec![2]]));
}

#[test]
fn next_move_follows_the_sides_of_the_block() {
    assert_eq!(next_move(&vec![th(0, true), th(1, true)], false, false), NextMove::AllIn);
    assert_eq!(next_move(&vec![], true, true), NextMove::AllIn);
    assert_eq!(next_move(&vec![th(0, false)], true, true), NextMove::NoneIn);
    assert_eq!(next_move(&vec![th(0, true), th(1, false)], true, false), NextMove::SplitByType);
    assert_eq!(next_move(&vec![th(0, true), th(1, false)], false, true), NextMove::SplitByType);
    assert_eq!(next_move(&vec![th(0, true), th(1, false)], false, false), NextMove::Step);
}
