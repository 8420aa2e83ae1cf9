//! Choice of the search configuration from cheap features of the model and the target.
//!
//! Without operations of positive arity, a target that mixes an equality pattern (some
//! pattern has tuples inside and outside it) is rejected, and one that mixes none is
//! accepted. The unary decision is consulted next. Otherwise the search runs with the
//! fast configuration, the approximate precheck on only for small domains and few operations.

use vstd::prelude::*;

use crate::first_order::models::Model;
use crate::first_order::relops::{Operation, Relation};
use crate::hit::{ExploreOrder, HitConfig};
use crate::preprocessing::{pattern_name, Pattern};
use crate::strs::{int_text, push_str, push_usize};
use crate::unary::{decide_spec, decide_unary, decision_view, has_positive, UnaryDecision, UnaryDecisionV};
use crate::util::{cartesian_product, is_tuple_over};

verus! {

/// Historical bound on the number of tuples `domain^arity` (manual flags).
pub const APPROX_MAX_DOMAIN_TUPLES: u64 = 50000;
/// Historical bound on the number of operations for the manual approximate check.
pub const APPROX_MAX_OPS: usize = 8;
/// Bound on the number of tuples for the pattern-mix check.
pub const PATTERN_CHECK_MAX_TUPLES: u64 = 200000;
/// Automatic approximate check: bound on the number of tuples.
pub const APPROX_AUTO_MAX_DOMAIN_TUPLES: u64 = 512;
/// Automatic approximate check: bound on the number of operations.
pub const APPROX_AUTO_MAX_OPS: usize = 3;

/// Cheap features of a model and a target.
#[derive(Clone, Debug)]
pub struct ModelFeatures {
    pub universe_size: usize,
    pub target_arity: usize,
    pub target_size: usize,
    pub ops_total: usize,
    pub ops_arity_gt0: usize,
    pub domain_tuples: u64,
    /// Whether an equality pattern is mixed (when the check fitted its budget).
    pub pattern_mix: Option<bool>,
}

/// The strategy chosen.
#[derive(Clone, Debug)]
pub enum StrategyDecision {
    /// The target mixes an equality pattern and there is no operation of positive arity.
    RejectPattern { reason: String },
    /// Definable without running the search.
    AcceptUnary { reason: String },
    /// Not definable by the unary decision.
    RejectUnary { reason: String },
    /// Run the search with this configuration.
    Run { config: HitConfig, reasons: Vec<String> },
}

/// `min(base^exp, u64::MAX)`.
pub open spec fn sat_pow(base: u64, exp: nat) -> u64 {
    let p = vstd::arithmetic::power::pow(base as int, exp);
    if p > u64::MAX {
        u64::MAX
    } else {
        p as u64
    }
}

/// Powers of a non-negative base are non-negative.
pub proof fn lemma_pow_nonneg(b: int, e: nat)
    requires
        b >= 0,
    ensures
        vstd::arithmetic::power::pow(b, e) >= 0,
    decreases e,
{
    reveal(vstd::arithmetic::power::pow);
    if e > 0 {
        lemma_pow_nonneg(b, (e - 1) as nat);
        vstd::arithmetic::mul::lemma_mul_nonnegative(b, vstd::arithmetic::power::pow(b, (e - 1) as nat));
    }
}

/// `base^exp`, saturated at `u64::MAX`.
pub fn saturating_pow(base: u64, exp: usize) -> (r: u64)
    ensures
        r == sat_pow(base, exp as nat),
{
    let mut acc: u64 = 1;
    let mut i: usize = 0;
    proof {
        vstd::arithmetic::power::lemma_pow0(base as int);
    }
    while i < exp
        invariant
            i <= exp,
            acc == sat_pow(base, i as nat),
        decreases exp - i,
    {
        let ghost p = vstd::arithmetic::power::pow(base as int, i as nat);
        let ghost q = vstd::arithmetic::power::pow(base as int, (i + 1) as nat);
        proof {
            vstd::arithmetic::power::lemma_pow_adds(base as int, i as nat, 1);
            vstd::arithmetic::power::lemma_pow1(base as int);
            lemma_pow_nonneg(base as int, i as nat);
            assert(q == p * base);
            if p <= u64::MAX {
                assert(acc == p);
            } else {
                assert(acc == u64::MAX);
            }
        }
        acc = match acc.checked_mul(base) {
            Some(v) => {
                proof {
                    if p > u64::MAX {
                        assert(base <= 1) by (nonlinear_arith)
                            requires
                                acc * base <= u64::MAX,
                                acc == u64::MAX,
                        ;
                        if base == 0 {
                            assert(q == 0) by (nonlinear_arith)
                                requires
                                    q == p * base,
                                    base == 0,
                            ;
                        } else {
                            assert(q == p) by (nonlinear_arith)
                                requires
                                    q == p * base,
                                    base == 1,
                            ;
                        }
                    } else {
                        assert(v == q);
                    }
                }
                v
            },
            None => {
                proof {
                    if p <= u64::MAX {
                        assert(q > u64::MAX);
                    } else {
                        assert(base >= 1);
                        assert(q >= p) by (nonlinear_arith)
                            requires
                                q == p * base,
                                base >= 1,
                                p > u64::MAX,
                        ;
                    }
                }
                u64::MAX
            },
        };
        i += 1;
    }
    acc
}

/// Some equality pattern has realisations inside and outside the target among the `arity`-tuples over `u`.
pub open spec fn pattern_mix_spec(u: Seq<i64>, target: Relation) -> bool {
    target.arity > 0 && exists|t1: Seq<i64>, t2: Seq<i64>|
        #![trigger is_tuple_over(t1, u, target.arity as nat), is_tuple_over(t2, u, target.arity as nat)]
        is_tuple_over(t1, u, target.arity as nat) && is_tuple_over(t2, u, target.arity as nat) && pattern_name(t1)
            == pattern_name(t2) && target.has(t1) && !target.has(t2)
}

/// True when some equality pattern has realisations inside and outside the target.
pub fn pattern_mixes_target(model: &Model, target: &Relation) -> (r: bool)
    ensures
        r == pattern_mix_spec(model.universe@, *target),
{
    let k = target.arity;
    if k == 0 {
        return false;
    }
    let tuples = cartesian_product(&model.universe, k);
    let ghost tv = tuples.deep_view();
    let ghost u = model.universe@;
    let mut names: Vec<String> = Vec::new();
    let mut ins: Vec<bool> = Vec::new();
    let mut outs: Vec<bool> = Vec::new();
    let mut i: usize = 0;
    while i < tuples.len()
        invariant
            i <= tuples.len(),
            k == target.arity,
            k > 0,
            tv == tuples.deep_view(),
            u == model.universe@,
            forall|j: int| 0 <= j < tuples.len() ==> is_tuple_over(#[trigger] tv[j], u, k as nat),
            forall|t: Seq<i64>| is_tuple_over(t, u, k as nat) ==> #[trigger] tv.contains(t),
            names.len() == ins.len(),
            names.len() == outs.len(),
            forall|e: int, f: int| 0 <= e < f < names.len() ==> (#[trigger] names@[e])@ != (#[trigger] names@[f])@,
            forall|e: int| 0 <= e < names.len() ==> !(#[trigger] ins@[e] && outs@[e]),
            forall|e: int| 0 <= e < names.len() ==> (#[trigger] ins@[e] <==> exists|j: int|
                0 <= j < i && target.has(#[trigger] tv[j]) && pattern_name(tv[j]) == names@[e]@),
            forall|e: int| 0 <= e < names.len() ==> (#[trigger] outs@[e] <==> exists|j: int|
                0 <= j < i && !target.has(#[trigger] tv[j]) && pattern_name(tv[j]) == names@[e]@),
            forall|j: int| 0 <= j < i ==> exists|e: int| 0 <= e < names.len() && (#[trigger] names@[e])@ == pattern_name(#[trigger] tv[j]),
        decreases tuples.len() - i,
    {
        proof {
            crate::util::lemma_tuple_deep_view(tuples@[i as int]);
        }
        let in_t = target.contains(tuples[i].as_slice());
        let p = Pattern::new(crate::util::copy_tuple(tuples[i].as_slice()));
        let key = p.name();
        let ghost ti = tv[i as int];
        let mut e: usize = 0;
        while e < names.len() && names[e] != key
            invariant
                e <= names.len(),
                forall|e2: int| 0 <= e2 < e ==> (#[trigger] names@[e2])@ != key@,
            decreases names.len() - e,
        {
            e += 1;
        }
        if e == names.len() {
            let ghost old_names = names@;
            names.push(key);
            ins.push(in_t);
            outs.push(!in_t);
            proof {
                assert forall|e2: int| 0 <= e2 < names.len() implies (#[trigger] ins@[e2] <==> exists|j: int|
                    0 <= j < i + 1 && target.has(#[trigger] tv[j]) && pattern_name(tv[j]) == names@[e2]@) by {
                    if e2 < old_names.len() {
                        assert(names@[e2] == old_names[e2]);
                    } else {
                        if exists|j: int| 0 <= j < i + 1 && target.has(#[trigger] tv[j]) && pattern_name(tv[j]) == names@[e2]@ {
                            let j = choose|j: int| 0 <= j < i + 1 && target.has(#[trigger] tv[j]) && pattern_name(tv[j]) == names@[e2]@;
                            if j < i {
                                let f = choose|f: int| 0 <= f < old_names.len() && (#[trigger] old_names[f])@ == pattern_name(tv[j]);
                                assert(old_names[f]@ != key@);
                            }
                        }
                        if in_t {
                            assert(target.has(tv[i as int]));
                        }
                    }
                }
                assert forall|e2: int| 0 <= e2 < names.len() implies (#[trigger] outs@[e2] <==> exists|j: int|
                    0 <= j < i + 1 && !target.has(#[trigger] tv[j]) && pattern_name(tv[j]) == names@[e2]@) by {
                    if e2 < old_names.len() {
                        assert(names@[e2] == old_names[e2]);
                    } else {
                        if exists|j: int| 0 <= j < i + 1 && !target.has(#[trigger] tv[j]) && pattern_name(tv[j]) == names@[e2]@ {
                            let j = choose|j: int| 0 <= j < i + 1 && !target.has(#[trigger] tv[j]) && pattern_name(tv[j]) == names@[e2]@;
                            if j < i {
                                let f = choose|f: int| 0 <= f < old_names.len() && (#[trigger] old_names[f])@ == pattern_name(tv[j]);
                                assert(old_names[f]@ != key@);
                            }
                        }
                        if !in_t {
                            assert(!target.has(tv[i as int]));
                        }
                    }
                }
                assert forall|j: int| 0 <= j < i + 1 implies exists|e2: int| 0 <= e2 < names.len() && (#[trigger] names@[e2])@ == pattern_name(#[trigger] tv[j]) by {
                    if j < i {
                        let f = choose|f: int| 0 <= f < old_names.len() && (#[trigger] old_names[f])@ == pattern_name(tv[j]);
                        assert(names@[f] == old_names[f]);
                    } else {
                        assert(names@[old_names.len() as int]@ == pattern_name(tv[j]));
                    }
                }
            }
        } else {
            let ghost old_ins = ins@;
            let ghost old_outs = outs@;
            if in_t {
                ins.set(e, true);
            } else {
                outs.set(e, true);
            }
            proof {
                assert forall|e2: int| 0 <= e2 < names.len() implies (#[trigger] ins@[e2] <==> exists|j: int|
                    0 <= j < i + 1 && target.has(#[trigger] tv[j]) && pattern_name(tv[j]) == names@[e2]@) by {
                    if exists|j: int| 0 <= j < i + 1 && target.has(#[trigger] tv[j]) && pattern_name(tv[j]) == names@[e2]@ {
                        let j = choose|j: int| 0 <= j < i + 1 && target.has(#[trigger] tv[j]) && pattern_name(tv[j]) == names@[e2]@;
                        if j == i && e2 != e {
                            assert(names@[e2]@ != names@[e as int]@);
                        }
                    }
                    if e2 == e && in_t {
                        assert(target.has(tv[i as int]));
                    }
                    if old_ins[e2] {
                        let j = choose|j: int| 0 <= j < i && target.has(#[trigger] tv[j]) && pattern_name(tv[j]) == names@[e2]@;
                        assert(0 <= j < i + 1);
                    }
                }
                assert forall|e2: int| 0 <= e2 < names.len() implies (#[trigger] outs@[e2] <==> exists|j: int|
                    0 <= j < i + 1 && !target.has(#[trigger] tv[j]) && pattern_name(tv[j]) == names@[e2]@) by {
                    if exists|j: int| 0 <= j < i + 1 && !target.has(#[trigger] tv[j]) && pattern_name(tv[j]) == names@[e2]@ {
                        let j = choose|j: int| 0 <= j < i + 1 && !target.has(#[trigger] tv[j]) && pattern_name(tv[j]) == names@[e2]@;
                        if j == i && e2 != e {
                            assert(names@[e2]@ != names@[e as int]@);
                        }
                    }
                    if e2 == e && !in_t {
                        assert(!target.has(tv[i as int]));
                    }
                    if old_outs[e2] {
                        let j = choose|j: int| 0 <= j < i && !target.has(#[trigger] tv[j]) && pattern_name(tv[j]) == names@[e2]@;
                        assert(0 <= j < i + 1);
                    }
                }
                assert forall|j: int| 0 <= j < i + 1 implies exists|e2: int| 0 <= e2 < names.len() && (#[trigger] names@[e2])@ == pattern_name(#[trigger] tv[j]) by {
                    if j == i {
                        assert(names@[e as int]@ == pattern_name(tv[j]));
                    }
                }
            }
            if ins[e] && outs[e] {
                proof {
                    let j1 = choose|j: int| 0 <= j < i + 1 && target.has(#[trigger] tv[j]) && pattern_name(tv[j]) == names@[e as int]@;
                    let j2 = choose|j: int| 0 <= j < i + 1 && !target.has(#[trigger] tv[j]) && pattern_name(tv[j]) == names@[e as int]@;
                    assert(is_tuple_over(tv[j1], u, k as nat));
                    assert(is_tuple_over(tv[j2], u, k as nat));
                }
                return true;
            }
        }
        i += 1;
    }
    proof {
        if pattern_mix_spec(u, *target) {
            let (t1, t2) = choose|t1: Seq<i64>, t2: Seq<i64>|
                #![trigger is_tuple_over(t1, u, target.arity as nat), is_tuple_over(t2, u, target.arity as nat)]
                is_tuple_over(t1, u, target.arity as nat) && is_tuple_over(t2, u, target.arity as nat)
                    && pattern_name(t1) == pattern_name(t2) && target.has(t1) && !target.has(t2);
            assert(tv.contains(t1));
            assert(tv.contains(t2));
            let j1 = choose|j: int| 0 <= j < tv.len() && tv[j] == t1;
            let j2 = choose|j: int| 0 <= j < tv.len() && tv[j] == t2;
            let e1 = choose|e: int| 0 <= e < names.len() && (#[trigger] names@[e])@ == pattern_name(tv[j1]);
            let e2 = choose|e: int| 0 <= e < names.len() && (#[trigger] names@[e])@ == pattern_name(tv[j2]);
            if e1 != e2 {
                if e1 < e2 {
                    assert(names@[e1]@ != names@[e2]@);
                } else {
                    assert(names@[e2]@ != names@[e1]@);
                }
            }
            assert(ins@[e1]);
            assert(outs@[e1]);
        }
    }
    false
}

/// Number of operations of positive arity.
pub open spec fn count_positive(ops: Seq<Operation>) -> nat
    decreases ops.len(),
{
    if ops.len() == 0 {
        0
    } else {
        count_positive(ops.drop_last()) + if ops.last().arity > 0 {
            1nat
        } else {
            0nat
        }
    }
}

/// The features of a model and a target.
pub open spec fn features_spec(model: Model, target: Relation) -> ModelFeatures {
    let dt = sat_pow(model.universe.len() as u64, target.arity as nat);
    let gt0 = count_positive(model.operations@);
    ModelFeatures {
        universe_size: model.universe.len(),
        target_arity: target.arity,
        target_size: target.r.len(),
        ops_total: model.operations.len(),
        ops_arity_gt0: gt0 as usize,
        domain_tuples: dt,
        pattern_mix: if gt0 == 0 && dt > 0 && dt <= PATTERN_CHECK_MAX_TUPLES {
            Some(pattern_mix_spec(model.universe@, target))
        } else {
            None
        },
    }
}

/// Cheap features of the model and the target.
pub fn extract_features(model: &Model, target: &Relation) -> (f: ModelFeatures)
    ensures
        f == features_spec(*model, *target),
{
    let universe_size = model.universe.len();
    let target_arity = target.arity;
    let domain_tuples = saturating_pow(universe_size as u64, target_arity);
    let ops_total = model.operations.len();
    let mut gt0: usize = 0;
    let mut i: usize = 0;
    while i < model.operations.len()
        invariant
            i <= model.operations.len(),
            gt0 == count_positive(model.operations@.take(i as int)),
            gt0 <= i,
        decreases model.operations.len() - i,
    {
        proof {
            assert(model.operations@.take(i + 1).drop_last() =~= model.operations@.take(i as int));
        }
        if model.operations[i].arity > 0 {
            gt0 += 1;
        }
        i += 1;
    }
    proof {
        assert(model.operations@.take(model.operations.len() as int) =~= model.operations@);
    }
    let pattern_mix = if gt0 == 0 && domain_tuples > 0 && domain_tuples <= PATTERN_CHECK_MAX_TUPLES {
        Some(pattern_mixes_target(model, target))
    } else {
        None
    };
    ModelFeatures {
        universe_size,
        target_arity,
        target_size: target.r.len(),
        ops_total,
        ops_arity_gt0: gt0,
        domain_tuples,
        pattern_mix,
    }
}

/// Automatic policy for the approximate precheck: small domain, few operations, some of positive arity.
pub open spec fn approx_auto_spec(feat: ModelFeatures) -> bool {
    feat.domain_tuples > 0 && feat.domain_tuples <= APPROX_AUTO_MAX_DOMAIN_TUPLES && feat.ops_total
        <= APPROX_AUTO_MAX_OPS && feat.ops_arity_gt0 > 0
}

/// Conservative automatic policy for the approximate precheck.
pub fn should_approx_precheck_auto(feat: &ModelFeatures) -> (r: bool)
    ensures
        r == approx_auto_spec(*feat),
{
    feat.domain_tuples > 0 && feat.domain_tuples <= APPROX_AUTO_MAX_DOMAIN_TUPLES && feat.ops_total
        <= APPROX_AUTO_MAX_OPS && feat.ops_arity_gt0 > 0
}

/// The fast configuration: skip useless candidates, no simplification, depth first.
pub open spec fn fast_config(approx_precheck: bool) -> HitConfig {
    HitConfig {
        use_information_gain: false,
        ig_sample: Some(20),
        ig_experimental: false,
        skip_useless_candidates: true,
        approx_precheck,
        emit_all_constants: true,
        max_steps: None,
        simplify_formula: false,
        explore_order: ExploreOrder::Dfs,
        max_rayon_children: 1,
        synthesize_formula: true,
        max_rss_kib: None,
        eager_isotype_on_impure: true,
    }
}

fn base_fast_config(approx_precheck: bool) -> (c: HitConfig)
    ensures
        c == fast_config(approx_precheck),
{
    HitConfig {
        use_information_gain: false,
        ig_sample: Some(20),
        ig_experimental: false,
        skip_useless_candidates: true,
        approx_precheck,
        emit_all_constants: true,
        max_steps: None,
        simplify_formula: false,
        explore_order: ExploreOrder::Dfs,
        max_rayon_children: 1,
        synthesize_formula: true,
        max_rss_kib: None,
        eager_isotype_on_impure: true,
    }
}

/// Debug text of an optional boolean.
pub open spec fn opt_bool_text(b: Option<bool>) -> Seq<char> {
    match b {
        Some(true) => "Some(true)"@,
        Some(false) => "Some(false)"@,
        None => "None"@,
    }
}

/// The first line of the explanation.
pub open spec fn features_line(f: ModelFeatures) -> Seq<char> {
    "features: |U|="@ + int_text(f.universe_size as int) + ", arity="@ + int_text(f.target_arity as int) + ", |T|="@
        + int_text(f.target_size as int) + ", ops="@ + int_text(f.ops_total as int) + ", ops_arity>0="@ + int_text(
        f.ops_arity_gt0 as int,
    ) + ", domain_tuples="@ + int_text(f.domain_tuples as int) + ", pattern_mix="@ + opt_bool_text(f.pattern_mix)
}

/// Lines joined by newlines.
pub open spec fn join_lines(ls: Seq<Seq<char>>) -> Seq<char>
    decreases ls.len(),
{
    if ls.len() == 0 {
        Seq::empty()
    } else if ls.len() == 1 {
        ls[0]
    } else {
        join_lines(ls.drop_last()) + "\n"@ + ls.last()
    }
}

/// Mathematical value of a strategy (for `Run`, whether the approximate precheck is on).
pub enum StrategyV {
    RejectPattern(Seq<char>),
    AcceptUnary(Seq<char>),
    RejectUnary(Seq<char>),
    Run(bool),
}

/// View of a strategy.
pub open spec fn strategy_view(d: StrategyDecision) -> StrategyV {
    match d {
        StrategyDecision::RejectPattern { reason } => StrategyV::RejectPattern(reason@),
        StrategyDecision::AcceptUnary { reason } => StrategyV::AcceptUnary(reason@),
        StrategyDecision::RejectUnary { reason } => StrategyV::RejectUnary(reason@),
        StrategyDecision::Run { config, .. } => StrategyV::Run(config.approx_precheck),
    }
}

/// The closing lines of a run, and the run itself.
pub open spec fn run_spec(feat: ModelFeatures, reasons: Seq<Seq<char>>) -> (StrategyV, Seq<Seq<char>>) {
    let approx = approx_auto_spec(feat);
    (
        StrategyV::Run(approx),
        reasons.push("skip_useless=true (Lema 1)"@).push(
            "simplify_formula=false (auto prioriza velocidad; usar --simplify)"@,
        ).push(
            if approx {
                "approx_precheck=true en auto (umbral conservador dominio<=512 ops<=3; M5 residual)"@
            } else {
                "approx_precheck=false en auto (fuera de umbral dominio<=512 ops<=3; manual --approx-precheck)"@
            },
        ),
    )
}

/// The strategy and its reasons.
pub open spec fn strategy_spec(model: Model, target: Relation) -> (StrategyV, Seq<Seq<char>>) {
    let feat = features_spec(model, target);
    let r0 = seq![features_line(feat)];
    if feat.ops_arity_gt0 == 0 && feat.pattern_mix == Some(true) {
        let reason = "pattern_mix sin ops de aridad>0: rechazo sound (Lema 3a)"@;
        (StrategyV::RejectPattern(reason), r0.push(reason))
    } else if feat.ops_arity_gt0 == 0 && feat.pattern_mix == Some(false) {
        let reason = "sin ops y sin pattern_mix: acepto equality-definable (Lema 3a conversa)"@;
        (StrategyV::AcceptUnary(reason), r0.push(reason))
    } else {
        let r1 = if feat.ops_arity_gt0 == 0 {
            r0.push("sin ops de aridad>0 y sin pattern_mix (o check omitido)"@)
        } else {
            r0
        };
        match decide_spec(model.universe@, model.operations@, target.rows(), target.arity as nat) {
            UnaryDecisionV::NotDefinable(reason) => (
                StrategyV::RejectUnary(reason),
                r1.push("unary backend: "@ + reason),
            ),
            UnaryDecisionV::Definable(reason) => if !has_positive(model.operations@) {
                (StrategyV::AcceptUnary(reason), r1.push("unary backend: "@ + reason))
            } else {
                run_spec(
                    feat,
                    r1.push("unary backend: "@ + reason).push(
                        "unary afirma DEFINABLE; se corre HIT+skip para sintetizar f\u{f3}rmula"@,
                    ),
                )
            },
            UnaryDecisionV::Skip => run_spec(feat, r1.push("unary backend: skip (arity!=1 o ops aridad>1)"@)),
        }
    }
}

/// Views of a list of strings.
pub open spec fn string_views(v: Seq<String>) -> Seq<Seq<char>> {
    v.map_values(|s: String| s@)
}

/// Appends a string to a list, as a fresh copy.
fn push_line(lines: &mut Vec<String>, s: &str)
    ensures
        string_views(final(lines)@) == string_views(old(lines)@).push(s@),
{
    lines.push(s.to_owned());
    proof {
        assert(string_views(final(lines)@) =~= string_views(old(lines)@).push(s@));
    }
}

/// The lines joined by newlines.
fn join(lines: &Vec<String>) -> (r: String)
    ensures
        r@ == join_lines(string_views(lines@)),
{
    let mut r = String::new();
    let mut i: usize = 0;
    proof {
        assert(string_views(lines@.take(0)) =~= Seq::<Seq<char>>::empty());
        assert(r@ =~= Seq::<char>::empty());
    }
    while i < lines.len()
        invariant
            i <= lines.len(),
            r@ == join_lines(string_views(lines@.take(i as int))),
        decreases lines.len() - i,
    {
        if i > 0 {
            push_str(&mut r, "\n");
        }
        push_str(&mut r, lines[i].as_str());
        proof {
            let a = string_views(lines@.take(i + 1));
            assert(a.drop_last() =~= string_views(lines@.take(i as int)));
            assert(a.last() == lines@[i as int]@);
            if i == 0 {
                assert(a.len() == 1);
            }
        }
        i += 1;
    }
    proof {
        assert(lines@.take(lines.len() as int) =~= lines@);
    }
    r
}

/// Appends the debug text of an optional boolean.
fn push_opt_bool(s: &mut String, b: Option<bool>)
    ensures
        final(s)@ == old(s)@ + opt_bool_text(b),
{
    match b {
        Some(true) => push_str(s, "Some(true)"),
        Some(false) => push_str(s, "Some(false)"),
        None => push_str(s, "None"),
    }
}

/// Appends the decimal text of a `u64`.
fn push_u64(s: &mut String, n: u64)
    ensures
        final(s)@ == old(s)@ + int_text(n as int),
{
    crate::strs::push_digits(s, n);
}

/// The configuration (or the rejection) chosen from the features.
pub fn select_strategy(model: &Model, target: &Relation) -> (d: StrategyDecision)
    requires
        model.wf(),
    ensures
        strategy_view(d) == strategy_spec(*model, *target).0,
        d is Run ==> d->config == fast_config(strategy_spec(*model, *target).0->Run_0),
        d is Run ==> string_views(d->reasons@) == strategy_spec(*model, *target).1,
{
    select_strategy_explained(model, target).0
}

/// As `select_strategy`, with the reasons joined into a readable explanation.
pub fn select_strategy_explained(model: &Model, target: &Relation) -> (r: (StrategyDecision, String))
    requires
        model.wf(),
    ensures
        strategy_view(r.0) == strategy_spec(*model, *target).0,
        r.0 is Run ==> r.0->config == fast_config(strategy_spec(*model, *target).0->Run_0),
        r.0 is Run ==> string_views(r.0->reasons@) == strategy_spec(*model, *target).1,
        r.1@ == join_lines(strategy_spec(*model, *target).1),
{
    let feat = extract_features(model, target);
    let ghost spec = strategy_spec(*model, *target);
    let mut reasons: Vec<String> = Vec::new();
    let mut line = String::new();
    push_str(&mut line, "features: |U|=");
    push_usize(&mut line, feat.universe_size);
    push_str(&mut line, ", arity=");
    push_usize(&mut line, feat.target_arity);
    push_str(&mut line, ", |T|=");
    push_usize(&mut line, feat.target_size);
    push_str(&mut line, ", ops=");
    push_usize(&mut line, feat.ops_total);
    push_str(&mut line, ", ops_arity>0=");
    push_usize(&mut line, feat.ops_arity_gt0);
    push_str(&mut line, ", domain_tuples=");
    push_u64(&mut line, feat.domain_tuples);
    push_str(&mut line, ", pattern_mix=");
    push_opt_bool(&mut line, feat.pattern_mix);
    proof {
        assert(line@ =~= features_line(feat));
        assert(string_views(reasons@) =~= Seq::<Seq<char>>::empty());
    }
    push_line(&mut reasons, line.as_str());
    if feat.ops_arity_gt0 == 0 {
        if feat.pattern_mix == Some(true) {
            let reason = "pattern_mix sin ops de aridad>0: rechazo sound (Lema 3a)";
            push_line(&mut reasons, reason);
            let text = join(&reasons);
            return (StrategyDecision::RejectPattern { reason: reason.to_owned() }, text);
        }
        if feat.pattern_mix == Some(false) {
            let reason = "sin ops y sin pattern_mix: acepto equality-definable (Lema 3a conversa)";
            push_line(&mut reasons, reason);
            let text = join(&reasons);
            return (StrategyDecision::AcceptUnary { reason: reason.to_owned() }, text);
        }
        push_line(&mut reasons, "sin ops de aridad>0 y sin pattern_mix (o check omitido)");
    }
    proof {
        assert(feat.ops_arity_gt0 == 0 <==> !has_positive(model.operations@)) by {
            lemma_count_positive(model.operations@);
        }
    }
    match decide_unary(model, target) {
        UnaryDecision::NotDefinable { reason } => {
            let mut line = "unary backend: ".to_owned();
            push_str(&mut line, reason.as_str());
            push_line(&mut reasons, line.as_str());
            let text = join(&reasons);
            return (StrategyDecision::RejectUnary { reason }, text);
        },
        UnaryDecision::Definable { reason } => {
            let mut line = "unary backend: ".to_owned();
            push_str(&mut line, reason.as_str());
            push_line(&mut reasons, line.as_str());
            if feat.ops_arity_gt0 == 0 {
                let text = join(&reasons);
                return (StrategyDecision::AcceptUnary { reason }, text);
            }
            push_line(&mut reasons, "unary afirma DEFINABLE; se corre HIT+skip para sintetizar f\u{f3}rmula");
        },
        UnaryDecision::Skip => {
            push_line(&mut reasons, "unary backend: skip (arity!=1 o ops aridad>1)");
        },
    }
    let approx = should_approx_precheck_auto(&feat);
    let config = base_fast_config(approx);
    push_line(&mut reasons, "skip_useless=true (Lema 1)");
    push_line(&mut reasons, "simplify_formula=false (auto prioriza velocidad; usar --simplify)");
    if approx {
        push_line(
            &mut reasons,
            "approx_precheck=true en auto (umbral conservador dominio<=512 ops<=3; M5 residual)",
        );
    } else {
        push_line(
            &mut reasons,
            "approx_precheck=false en auto (fuera de umbral dominio<=512 ops<=3; manual --approx-precheck)",
        );
    }
    let explanation = join(&reasons);
    (StrategyDecision::Run { config, reasons }, explanation)
}

/// No operation has positive arity exactly when none is counted.
pub proof fn lemma_count_positive(ops: Seq<Operation>)
    ensures
        (count_positive(ops) == 0) == !has_positive(ops),
        count_positive(ops) <= ops.len(),
    decreases ops.len(),
{
    if ops.len() > 0 {
        let d = ops.drop_last();
        lemma_count_positive(d);
        if has_positive(d) {
            let i = choose|i: int| 0 <= i < d.len() && (#[trigger] d[i]).arity > 0;
            assert(ops[i].arity > 0);
        }
        if has_positive(ops) {
            let i = choose|i: int| 0 <= i < ops.len() && (#[trigger] ops[i]).arity > 0;
            if i < d.len() {
                assert(d[i].arity > 0);
            }
        }
        if ops.last().arity > 0 {
            assert(ops[ops.len() - 1].arity > 0);
        }
    }
}

} // verus!
