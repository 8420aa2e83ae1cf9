//! Candidate separating operations and the tests of whether they preserve subuniverses
//! and the graphs of partial isomorphisms.

use vstd::prelude::*;

use crate::stone::discriminator::discriminator;
use crate::stone::sets::{contains, copy_elems, elem_leq, increasing, set_of, sort_elems};
use crate::stone::spec::{mask_members, members_of_mask, Elem, PartialIso, StoneSpec};
use crate::strs::{int_text, push_str, push_usize};

verus! {

/// A candidate operation.
#[derive(Debug, Clone, PartialEq, Eq)]
pub enum StoneOp {
    Discriminator,
    FBar { bar: Vec<Elem>, b: Elem },
    GD { domain: Vec<Elem> },
}

/// Mathematical value of an operation.
pub enum StoneOpV {
    Discriminator,
    FBar(Seq<Elem>, Elem),
    GD(Seq<Elem>),
}

/// View of an operation.
pub open spec fn op_view(op: StoneOp) -> StoneOpV {
    match op {
        StoneOp::Discriminator => StoneOpV::Discriminator,
        StoneOp::FBar { bar, b } => StoneOpV::FBar(bar@, b),
        StoneOp::GD { domain } => StoneOpV::GD(domain@),
    }
}

/// Views of a list of operations.
pub open spec fn ops_view(ops: Seq<StoneOp>) -> Seq<StoneOpV> {
    ops.map_values(|o: StoneOp| op_view(o))
}

/// Arity of an operation.
pub open spec fn op_arity(o: StoneOpV) -> nat {
    match o {
        StoneOpV::Discriminator => 3,
        StoneOpV::FBar(bar, _) => bar.len(),
        StoneOpV::GD(domain) => domain.len(),
    }
}

/// Text `a, b, c` of a list of elements.
pub open spec fn elems_text(s: Seq<Elem>) -> Seq<char>
    decreases s.len(),
{
    if s.len() == 0 {
        Seq::empty()
    } else if s.len() == 1 {
        int_text(s[0] as int)
    } else {
        elems_text(s.drop_last()) + ", "@ + int_text(s.last() as int)
    }
}

/// Label of an operation: `discriminator`, `f_[bar]_b`, or `g_[domain]` with the domain sorted.
pub open spec fn label_spec(o: StoneOpV) -> Seq<char> {
    match o {
        StoneOpV::Discriminator => "discriminator"@,
        StoneOpV::FBar(bar, b) => "f_["@ + elems_text(bar) + "]_"@ + int_text(b as int),
        StoneOpV::GD(domain) => "g_["@ + elems_text(domain.sort_by(elem_leq())) + "]"@,
    }
}

/// Appends `a, b, c`.
pub fn push_elems(s: &mut String, v: &Vec<Elem>)
    ensures
        final(s)@ == old(s)@ + elems_text(v@),
{
    let ghost start = s@;
    let mut i: usize = 0;
    proof {
        assert(elems_text(v@.take(0)) =~= Seq::<char>::empty());
        assert(s@ =~= start + elems_text(v@.take(0)));
    }
    while i < v.len()
        invariant
            i <= v.len(),
            s@ == start + elems_text(v@.take(i as int)),
        decreases v.len() - i,
    {
        if i > 0 {
            push_str(s, ", ");
        }
        push_usize(s, v[i]);
        proof {
            let t = v@.take(i + 1);
            assert(t.drop_last() =~= v@.take(i as int));
            assert(t.last() == v@[i as int]);
            if i == 0 {
                assert(elems_text(v@.take(0)) =~= Seq::<char>::empty());
            }
            assert(s@ =~= start + elems_text(t));
        }
        i += 1;
    }
    proof {
        assert(v@.take(v.len() as int) =~= v@);
    }
}

impl StoneOp {
    /// Number of arguments.
    pub fn arity(&self) -> (r: usize)
        ensures
            r == op_arity(op_view(*self)),
    {
        match self {
            StoneOp::Discriminator => 3,
            StoneOp::FBar { bar, .. } => bar.len(),
            StoneOp::GD { domain } => domain.len(),
        }
    }

    /// Readable label.
    pub fn label(&self) -> (r: String)
        ensures
            r@ == label_spec(op_view(*self)),
    {
        match self {
            StoneOp::Discriminator => "discriminator".to_owned(),
            StoneOp::FBar { bar, b } => {
                let mut s = "f_[".to_owned();
                push_elems(&mut s, bar);
                push_str(&mut s, "]_");
                push_usize(&mut s, *b);
                s
            },
            StoneOp::GD { domain } => {
                let d = sort_elems(domain);
                let mut s = "g_[".to_owned();
                push_elems(&mut s, &d);
                push_str(&mut s, "]");
                s
            },
        }
    }
}

/// Equality of operations.
pub fn op_eq(a: &StoneOp, b: &StoneOp) -> (r: bool)
    ensures
        r == (op_view(*a) == op_view(*b)),
{
    match (a, b) {
        (StoneOp::Discriminator, StoneOp::Discriminator) => true,
        (StoneOp::FBar { bar: x, b: y }, StoneOp::FBar { bar: x2, b: y2 }) => {
            crate::stone::sets::elems_eq(x, x2) && *y == *y2
        },
        (StoneOp::GD { domain: x }, StoneOp::GD { domain: x2 }) => crate::stone::sets::elems_eq(x, x2),
        _ => false,
    }
}

/// Copy of an operation.
pub fn copy_op(op: &StoneOp) -> (r: StoneOp)
    ensures
        op_view(r) == op_view(*op),
{
    match op {
        StoneOp::Discriminator => StoneOp::Discriminator,
        StoneOp::FBar { bar, b } => StoneOp::FBar { bar: copy_elems(bar), b: *b },
        StoneOp::GD { domain } => StoneOp::GD { domain: copy_elems(domain) },
    }
}

/// `args` is the image of `bar` under `iso`, with `bar` inside its domain.
pub open spec fn args_match(bar: Seq<Elem>, args: Seq<Elem>, iso: PartialIso) -> bool {
    &&& bar.len() == args.len()
    &&& forall|i: int| 0 <= i < bar.len() ==> iso.dom@.contains(#[trigger] bar[i])
    &&& forall|i: int| 0 <= i < bar.len() ==> iso.spec_apply(#[trigger] bar[i]) == args[i]
}

/// The first partial isomorphism (from position `k` on) under which `args` is the image of `bar`.
pub open spec fn first_match(isos: Seq<PartialIso>, bar: Seq<Elem>, args: Seq<Elem>, k: int) -> Option<int>
    decreases isos.len() - k,
{
    if k < 0 || k >= isos.len() {
        None
    } else if args_match(bar, args, isos[k]) {
        Some(k)
    } else {
        first_match(isos, bar, args, k + 1)
    }
}

/// First argument, or `0` with none.
pub open spec fn first_or_zero(args: Seq<Elem>) -> Elem {
    if args.len() > 0 {
        args[0]
    } else {
        0
    }
}

/// Value of an operation on `args`.
pub open spec fn eval_spec(isos: Seq<PartialIso>, o: StoneOpV, args: Seq<Elem>) -> Elem {
    match o {
        StoneOpV::Discriminator => if args.len() >= 3 {
            if args[0] == args[1] {
                args[2]
            } else {
                args[0]
            }
        } else {
            first_or_zero(args)
        },
        StoneOpV::FBar(bar, b) => match first_match(isos, bar, args, 0) {
            Some(k) => isos[k].spec_apply(b),
            None => first_or_zero(args),
        },
        StoneOpV::GD(domain) => if first_match(isos, domain, args, 0) is Some {
            first_or_zero(args)
        } else if args.len() > 1 {
            args[1]
        } else {
            first_or_zero(args)
        },
    }
}

/// Tells whether `args` is the image of `bar` under `iso`.
fn args_match_iso(bar: &Vec<Elem>, args: &[Elem], iso: &PartialIso) -> (r: bool)
    ensures
        r == args_match(bar@, args@, *iso),
{
    if bar.len() != args.len() {
        return false;
    }
    let mut i: usize = 0;
    while i < bar.len()
        invariant
            i <= bar.len(),
            bar.len() == args.len(),
            forall|k: int| 0 <= k < i ==> iso.dom@.contains(#[trigger] bar@[k]),
            forall|k: int| 0 <= k < i ==> iso.spec_apply(#[trigger] bar@[k]) == args@[k],
        decreases bar.len() - i,
    {
        if !contains(&iso.dom, bar[i]) {
            return false;
        }
        if iso.apply(bar[i]) != args[i] {
            return false;
        }
        i += 1;
    }
    true
}

/// The matching position lies in the list.
pub proof fn lemma_first_match_range(isos: Seq<PartialIso>, bar: Seq<Elem>, args: Seq<Elem>, k: int)
    requires
        0 <= k,
    ensures
        first_match(isos, bar, args, k) matches Some(j) ==> k <= j < isos.len() && args_match(bar, args, isos[j]),
    decreases isos.len() - k,
{
    if k < isos.len() && !args_match(bar, args, isos[k]) {
        lemma_first_match_range(isos, bar, args, k + 1);
    }
}

/// Position of the first partial isomorphism matching.
fn find_match(isos: &Vec<PartialIso>, bar: &Vec<Elem>, args: &[Elem]) -> (r: Option<usize>)
    ensures
        match r {
            Some(k) => k < isos.len() && first_match(isos@, bar@, args@, 0) == Some(k as int),
            None => first_match(isos@, bar@, args@, 0) is None,
        },
{
    proof {
        lemma_first_match_range(isos@, bar@, args@, 0);
    }
    let mut k: usize = 0;
    while k < isos.len()
        invariant
            k <= isos.len(),
            first_match(isos@, bar@, args@, 0) == first_match(isos@, bar@, args@, k as int),
        decreases isos.len() - k,
    {
        if args_match_iso(bar, args, &isos[k]) {
            return Some(k);
        }
        k += 1;
    }
    None
}

/// Value of an operation on `args`.
pub fn eval_op(spec: &StoneSpec, op: &StoneOp, args: &[Elem]) -> (r: Elem)
    ensures
        r == eval_spec(spec.sub_isos@, op_view(*op), args@),
{
    let first: Elem = if args.len() > 0 {
        args[0]
    } else {
        0
    };
    let r = match op {
        StoneOp::Discriminator => {
            if args.len() >= 3 {
                let v = discriminator(args[0], args[1], args[2]);
                proof {
                    assert(v == eval_spec(spec.sub_isos@, op_view(*op), args@));
                }
                v
            } else {
                proof {
                    assert(first == eval_spec(spec.sub_isos@, op_view(*op), args@));
                }
                first
            }
        },
        StoneOp::FBar { bar, b } => {
            match find_match(&spec.sub_isos, bar, args) {
                Some(k) => {
                    let v = spec.sub_isos[k].apply(*b);
                    proof {
                        assert(first_match(spec.sub_isos@, bar@, args@, 0) == Some(k as int));
                        assert(v == spec.sub_isos@[k as int].spec_apply(*b));
                        assert(v == eval_spec(spec.sub_isos@, op_view(*op), args@));
                    }
                    v
                },
                None => {
                    proof {
                        assert(first == eval_spec(spec.sub_isos@, op_view(*op), args@));
                    }
                    first
                },
            }
        },
        StoneOp::GD { domain } => {
            if find_match(&spec.sub_isos, domain, args).is_some() {
                first
            } else if args.len() > 1 {
                args[1]
            } else {
                first
            }
        },
    };
    r
}

/// `t` is a tuple of length `n` with entries in `s`.
pub open spec fn tuple_in(t: Seq<Elem>, s: Seq<Elem>, n: nat) -> bool {
    t.len() == n && forall|i: int| 0 <= i < t.len() ==> s.contains(#[trigger] t[i])
}

/// All tuples of length `n` with entries in `items`.
fn arg_tuples(items: &Vec<Elem>, n: usize) -> (result: Vec<Vec<Elem>>)
    ensures
        forall|k: int|
            0 <= k < result.len() ==> tuple_in(#[trigger] result.deep_view()[k], items@, n as nat),
        forall|t: Seq<Elem>| tuple_in(t, items@, n as nat) ==> #[trigger] result.deep_view().contains(t),
{
    let mut result: Vec<Vec<Elem>> = Vec::new();
    result.push(Vec::new());
    proof {
        assert forall|t: Seq<Elem>| tuple_in(t, items@, 0) implies #[trigger] result.deep_view().contains(t) by {
            assert(t =~= result.deep_view()[0]);
        }
    }
    let mut j: usize = 0;
    while j < n
        invariant
            j <= n,
            forall|k: int|
                0 <= k < result.len() ==> tuple_in(#[trigger] result.deep_view()[k], items@, j as nat),
            forall|t: Seq<Elem>| tuple_in(t, items@, j as nat) ==> #[trigger] result.deep_view().contains(t),
        decreases n - j,
    {
        let mut next: Vec<Vec<Elem>> = Vec::new();
        let mut p: usize = 0;
        while p < result.len()
            invariant
                p <= result.len(),
                forall|k: int|
                    0 <= k < result.len() ==> tuple_in(#[trigger] result.deep_view()[k], items@, j as nat),
                forall|k: int|
                    0 <= k < next.len() ==> tuple_in(#[trigger] next.deep_view()[k], items@, (j + 1) as nat),
                forall|pp: int, x: Elem|
                    0 <= pp < p && items@.contains(x) ==> #[trigger] next.deep_view().contains(
                        result.deep_view()[pp].push(x),
                    ),
            decreases result.len() - p,
        {
            let mut q: usize = 0;
            while q < items.len()
                invariant
                    p < result.len(),
                    q <= items.len(),
                    forall|k: int|
                        0 <= k < result.len() ==> tuple_in(#[trigger] result.deep_view()[k], items@, j as nat),
                    forall|k: int|
                        0 <= k < next.len() ==> tuple_in(#[trigger] next.deep_view()[k], items@, (j + 1) as nat),
                    forall|pp: int, x: Elem|
                        0 <= pp < p && items@.contains(x) ==> #[trigger] next.deep_view().contains(
                            result.deep_view()[pp].push(x),
                        ),
                    forall|qq: int|
                        0 <= qq < q ==> #[trigger] next.deep_view().contains(
                            result.deep_view()[p as int].push(items@[qq]),
                        ),
                decreases items.len() - q,
            {
                let mut row = copy_elems(&result[p]);
                row.push(items[q]);
                let ghost old_next = next.deep_view();
                next.push(row);
                proof {
                    lemma_elems_deep_view(row);
                    lemma_elems_deep_view(result@[p as int]);
                    assert(next.deep_view() =~= old_next.push(row@));
                    assert forall|k: int|
                        0 <= k < next.len() implies tuple_in(#[trigger] next.deep_view()[k], items@, (j + 1) as nat) by {
                        if k < old_next.len() {
                            assert(next.deep_view()[k] == old_next[k]);
                        } else {
                            let t = next.deep_view()[k];
                            let base = result.deep_view()[p as int];
                            assert(t == base.push(items@[q as int]));
                            assert forall|i: int| 0 <= i < t.len() implies items@.contains(#[trigger] t[i]) by {
                                if i < base.len() {
                                    assert(t[i] == base[i]);
                                } else {
                                    assert(t[i] == items@[q as int]);
                                }
                            }
                        }
                    }
                    assert forall|pp: int, x: Elem|
                        0 <= pp < p && items@.contains(x) implies #[trigger] next.deep_view().contains(
                            result.deep_view()[pp].push(x),
                        ) by {
                        assert(old_next.contains(result.deep_view()[pp].push(x)));
                        let w = choose|w: int| 0 <= w < old_next.len() && old_next[w] == result.deep_view()[pp].push(x);
                        assert(next.deep_view()[w] == old_next[w]);
                    }
                    assert forall|qq: int|
                        0 <= qq < q + 1 implies #[trigger] next.deep_view().contains(
                            result.deep_view()[p as int].push(items@[qq]),
                        ) by {
                        if qq < q {
                            assert(old_next.contains(result.deep_view()[p as int].push(items@[qq])));
                            let w = choose|w: int|
                                0 <= w < old_next.len() && old_next[w] == result.deep_view()[p as int].push(items@[qq]);
                            assert(next.deep_view()[w] == old_next[w]);
                        } else {
                            assert(next.deep_view()[old_next.len() as int] == result.deep_view()[p as int].push(items@[qq]));
                        }
                    }
                }
                q += 1;
            }
            proof {
                assert forall|pp: int, x: Elem|
                    0 <= pp < p + 1 && items@.contains(x) implies #[trigger] next.deep_view().contains(
                        result.deep_view()[pp].push(x),
                    ) by {
                    if pp == p {
                        let qq = choose|qq: int| 0 <= qq < items@.len() && items@[qq] == x;
                        assert(next.deep_view().contains(result.deep_view()[p as int].push(items@[qq])));
                    }
                }
            }
            p += 1;
        }
        proof {
            assert forall|t: Seq<Elem>| tuple_in(t, items@, (j + 1) as nat) implies #[trigger] next.deep_view().contains(t) by {
                let pre = t.take(j as int);
                assert(tuple_in(pre, items@, j as nat)) by {
                    assert forall|i: int| 0 <= i < pre.len() implies items@.contains(#[trigger] pre[i]) by {
                        assert(pre[i] == t[i]);
                    }
                }
                assert(result.deep_view().contains(pre));
                let pp = choose|pp: int| 0 <= pp < result.deep_view().len() && result.deep_view()[pp] == pre;
                assert(items@.contains(t[j as int]));
                assert(pre.push(t[j as int]) =~= t);
                assert(next.deep_view().contains(result.deep_view()[pp].push(t[j as int])));
            }
        }
        result = next;
        j += 1;
    }
    result
}

/// The deep view of a list of elements is its view.
proof fn lemma_elems_deep_view(t: Vec<Elem>)
    ensures
        t.deep_view() == t@,
{
    assert(t.deep_view() =~= t@);
}

/// `op` maps every tuple over `sub` into `sub`.
pub open spec fn preserves_full_spec(isos: Seq<PartialIso>, o: StoneOpV, sub: Seq<Elem>) -> bool {
    forall|t: Seq<Elem>| #[trigger] tuple_in(t, sub, op_arity(o)) ==> sub.contains(#[trigger] eval_spec(isos, o, t))
}

/// Full preservation check: every tuple over `sub` evaluates inside `sub`.
pub fn preserves_op_full(spec: &StoneSpec, op: &StoneOp, sub: &Vec<Elem>) -> (r: bool)
    ensures
        r == preserves_full_spec(spec.sub_isos@, op_view(*op), sub@),
{
    let tuples = arg_tuples(sub, op.arity());
    let ghost tv = tuples.deep_view();
    let ghost o = op_view(*op);
    let mut i: usize = 0;
    while i < tuples.len()
        invariant
            i <= tuples.len(),
            tv == tuples.deep_view(),
            o == op_view(*op),
            forall|k: int| 0 <= k < tuples.len() ==> tuple_in(#[trigger] tv[k], sub@, op_arity(o)),
            forall|t: Seq<Elem>| #[trigger] tuple_in(t, sub@, op_arity(o)) ==> tv.contains(t),
            forall|k: int| 0 <= k < i ==> sub@.contains(eval_spec(spec.sub_isos@, o, #[trigger] tv[k])),
        decreases tuples.len() - i,
    {
        proof {
            lemma_elems_deep_view(tuples@[i as int]);
        }
        let v = eval_op(spec, op, tuples[i].as_slice());
        if !contains(sub, v) {
            proof {
                assert(tuple_in(tv[i as int], sub@, op_arity(o)));
                assert(!sub@.contains(eval_spec(spec.sub_isos@, o, tv[i as int])));
            }
            return false;
        }
        i += 1;
    }
    proof {
        assert forall|t: Seq<Elem>| #[trigger] tuple_in(t, sub@, op_arity(o)) implies sub@.contains(eval_spec(spec.sub_isos@, o, t)) by {
            let k = choose|k: int| 0 <= k < tv.len() && tv[k] == t;
            assert(sub@.contains(eval_spec(spec.sub_isos@, o, tv[k])));
        }
    }
    true
}

/// The weaker check: the constant tuple of the least element evaluates inside `sub`.
pub open spec fn preserves_weak_spec(isos: Seq<PartialIso>, o: StoneOpV, sub: Seq<Elem>) -> bool {
    sub.len() == 0 || sub.contains(eval_spec(isos, o, Seq::new(op_arity(o), |i: int| sub[0])))
}

/// Weak check on the constant tuple of the least element.
pub fn preserves_op(spec: &StoneSpec, op: &StoneOp, sub: &Vec<Elem>) -> (r: bool)
    requires
        increasing(sub@),
    ensures
        r == preserves_weak_spec(spec.sub_isos@, op_view(*op), sub@),
{
    if sub.len() == 0 {
        return true;
    }
    let a0 = sub[0];
    let n = op.arity();
    let mut args: Vec<Elem> = Vec::new();
    let mut i: usize = 0;
    while i < n
        invariant
            i <= n,
            args@ == Seq::new(i as nat, |k: int| a0),
        decreases n - i,
    {
        args.push(a0);
        i += 1;
        proof {
            assert(args@ =~= Seq::new(i as nat, |k: int| a0));
        }
    }
    proof {
        assert(args@ =~= Seq::new(op_arity(op_view(*op)), |k: int| sub@[0]));
    }
    contains(sub, eval_op(spec, op, args.as_slice()))
}

/// Some set of the list is not preserved (weak check).
pub fn not_preserves_sub_sq(spec: &StoneSpec, op: &StoneOp, subs: &Vec<Vec<Elem>>) -> (r: bool)
    requires
        forall|i: int| 0 <= i < subs.len() ==> increasing(#[trigger] subs@[i]@),
    ensures
        r == exists|i: int| 0 <= i < subs.len() && !preserves_weak_spec(spec.sub_isos@, op_view(*op), #[trigger] subs@[i]@),
{
    let mut i: usize = 0;
    while i < subs.len()
        invariant
            i <= subs.len(),
            forall|i2: int| 0 <= i2 < subs.len() ==> increasing(#[trigger] subs@[i2]@),
            forall|k: int| 0 <= k < i ==> preserves_weak_spec(spec.sub_isos@, op_view(*op), #[trigger] subs@[k]@),
        decreases subs.len() - i,
    {
        if !preserves_op(spec, op, &subs[i]) {
            return true;
        }
        i += 1;
    }
    false
}

/// `op` fails to preserve `u`.
pub fn fails_preserve_on(spec: &StoneSpec, op: &StoneOp, u: &Vec<Elem>) -> (r: bool)
    ensures
        r == !preserves_full_spec(spec.sub_isos@, op_view(*op), u@),
{
    !preserves_op_full(spec, op, u)
}

/// Every operation of the list preserves `s`.
pub open spec fn all_preserve(isos: Seq<PartialIso>, ops: Seq<StoneOpV>, s: Seq<Elem>) -> bool {
    forall|i: int| 0 <= i < ops.len() ==> preserves_full_spec(isos, #[trigger] ops[i], s)
}

/// The subsets of `0 .. n` (by mask below `m`) that every operation preserves.
pub open spec fn subuniverses_upto(isos: Seq<PartialIso>, ops: Seq<StoneOpV>, n: nat, m: nat) -> Seq<Seq<Elem>>
    decreases m,
{
    if m == 0 {
        Seq::empty()
    } else {
        let rest = subuniverses_upto(isos, ops, n, (m - 1) as nat);
        let s = mask_members((m - 1) as usize, n);
        if all_preserve(isos, ops, s) {
            rest.push(s)
        } else {
            rest
        }
    }
}

/// The subuniverses of the current operations (the empty set included), by mask.
pub open spec fn subuniverses_spec(spec: StoneSpec, ops: Seq<StoneOpV>) -> Seq<Seq<Elem>> {
    subuniverses_upto(spec.sub_isos@, ops, spec.universe.len() as nat, (1usize << spec.universe.len()) as nat)
}

/// Members of a mask form a strictly increasing list.
pub proof fn lemma_mask_members_increasing(mask: usize, k: nat)
    requires
        k <= usize::BITS,
    ensures
        mask_members(mask, k).len() <= k,
        increasing(mask_members(mask, k)),
        forall|i: int| 0 <= i < mask_members(mask, k).len() ==> #[trigger] mask_members(mask, k)[i] < k,
    decreases k,
{
    if k > 0 {
        lemma_mask_members_increasing(mask, (k - 1) as nat);
        let rest = mask_members(mask, (k - 1) as nat);
        if (mask >> ((k - 1) as usize)) & 1usize == 1usize {
            let r = rest.push((k - 1) as Elem);
            assert forall|i: int, j: int| 0 <= i < j < r.len() implies r[i] < r[j] by {
                if j == rest.len() {
                    assert(rest[i] < k - 1);
                }
            }
        }
    }
}

/// The subuniverses of the current list of operations.
pub fn subuniverses_of_ops(spec: &StoneSpec, ops: &Vec<StoneOp>) -> (r: Vec<Vec<Elem>>)
    requires
        spec.universe.len() < usize::BITS,
    ensures
        r.deep_view() == subuniverses_spec(*spec, ops_view(ops@)),
        forall|i: int| 0 <= i < r.len() ==> increasing(#[trigger] r@[i]@),
{
    let n = spec.universe.len();
    let mask_count: usize = 1usize << n;
    let mut out: Vec<Vec<Elem>> = Vec::new();
    let mut mask: usize = 0;
    while mask < mask_count
        invariant
            mask <= mask_count,
            n < usize::BITS,
            n == spec.universe.len(),
            mask_count == 1usize << n,
            out.deep_view() == subuniverses_upto(spec.sub_isos@, ops_view(ops@), n as nat, mask as nat),
            forall|i: int| 0 <= i < out.len() ==> increasing(#[trigger] out@[i]@),
        decreases mask_count - mask,
    {
        let s = members_of_mask(mask, n);
        let mut ok = true;
        let mut k: usize = 0;
        while k < ops.len()
            invariant
                k <= ops.len(),
                ok == forall|i: int| 0 <= i < k ==> preserves_full_spec(spec.sub_isos@, #[trigger] ops_view(ops@)[i], s@),
            decreases ops.len() - k,
        {
            proof {
                assert(ops_view(ops@)[k as int] == op_view(ops@[k as int]));
            }
            if !preserves_op_full(spec, &ops[k], &s) {
                ok = false;
            }
            k += 1;
        }
        let ghost before = out.deep_view();
        if ok {
            proof {
                assert(s.deep_view() =~= s@);
            }
            out.push(s);
            proof {
                assert(out.deep_view() =~= before.push(s@));
            }
        }
        mask += 1;
    }
    out
}

/// Some subuniverse of the current operations is not preserved by `op`.
pub fn not_preserves_current(spec: &StoneSpec, op: &StoneOp, ops: &Vec<StoneOp>) -> (r: bool)
    requires
        spec.universe.len() < usize::BITS,
    ensures
        r == exists|i: int|
            0 <= i < subuniverses_spec(*spec, ops_view(ops@)).len() && !preserves_full_spec(
                spec.sub_isos@,
                op_view(*op),
                #[trigger] subuniverses_spec(*spec, ops_view(ops@))[i],
            ),
{
    let subs = subuniverses_of_ops(spec, ops);
    let ghost sv = subuniverses_spec(*spec, ops_view(ops@));
    let mut i: usize = 0;
    while i < subs.len()
        invariant
            i <= subs.len(),
            subs.deep_view() == sv,
            sv == subuniverses_spec(*spec, ops_view(ops@)),
            forall|k: int| 0 <= k < i ==> preserves_full_spec(spec.sub_isos@, op_view(*op), #[trigger] sv[k]),
        decreases subs.len() - i,
    {
        proof {
            assert(sv[i as int] == subs@[i as int]@);
        }
        if fails_preserve_on(spec, op, &subs[i]) {
            return true;
        }
        i += 1;
    }
    false
}

/// Images of the entries under a partial isomorphism.
pub open spec fn map_args(gamma: PartialIso, args: Seq<Elem>) -> Seq<Elem> {
    args.map_values(|x: Elem| gamma.spec_apply(x))
}

/// `op` does not preserve the graph of `gamma`.
pub open spec fn fails_iso_spec(isos: Seq<PartialIso>, o: StoneOpV, gamma: PartialIso) -> bool {
    exists|t: Seq<Elem>|
        tuple_in(t, gamma.dom@, op_arity(o)) && ({
            let ev = #[trigger] eval_spec(isos, o, t);
            !gamma.dom@.contains(ev) || gamma.spec_apply(ev) != eval_spec(isos, o, map_args(gamma, t))
        })
}

/// `op` does not preserve the graph of the partial isomorphism `gamma`.
pub fn fails_preserve_iso(spec: &StoneSpec, op: &StoneOp, gamma: &PartialIso) -> (r: bool)
    ensures
        r == fails_iso_spec(spec.sub_isos@, op_view(*op), *gamma),
{
    let tuples = arg_tuples(&gamma.dom, op.arity());
    let ghost tv = tuples.deep_view();
    let ghost o = op_view(*op);
    let mut i: usize = 0;
    while i < tuples.len()
        invariant
            i <= tuples.len(),
            tv == tuples.deep_view(),
            o == op_view(*op),
            forall|k: int| 0 <= k < tuples.len() ==> tuple_in(#[trigger] tv[k], gamma.dom@, op_arity(o)),
            forall|t: Seq<Elem>| #[trigger] tuple_in(t, gamma.dom@, op_arity(o)) ==> tv.contains(t),
            forall|k: int| 0 <= k < i ==> ({
                let ev = eval_spec(spec.sub_isos@, o, #[trigger] tv[k]);
                gamma.dom@.contains(ev) && gamma.spec_apply(ev) == eval_spec(spec.sub_isos@, o, map_args(*gamma, tv[k]))
            }),
        decreases tuples.len() - i,
    {
        proof {
            lemma_elems_deep_view(tuples@[i as int]);
        }
        let args = &tuples[i];
        let ev = eval_op(spec, op, args.as_slice());
        let mut mapped: Vec<Elem> = Vec::new();
        let mut q: usize = 0;
        while q < args.len()
            invariant
                q <= args.len(),
                mapped@ == map_args(*gamma, args@.take(q as int)),
            decreases args.len() - q,
        {
            mapped.push(gamma.apply(args[q]));
            q += 1;
            proof {
                assert(mapped@ =~= map_args(*gamma, args@.take(q as int)));
            }
        }
        proof {
            assert(args@.take(args.len() as int) =~= args@);
        }
        if !contains(&gamma.dom, ev) || gamma.apply(ev) != eval_op(spec, op, mapped.as_slice()) {
            proof {
                let t = tv[i as int];
                assert(tuple_in(t, gamma.dom@, op_arity(o)));
                assert(eval_spec(spec.sub_isos@, o, t) == ev);
            }
            return true;
        }
        i += 1;
    }
    proof {
        if fails_iso_spec(spec.sub_isos@, o, *gamma) {
            let t = choose|t: Seq<Elem>|
                tuple_in(t, gamma.dom@, op_arity(o)) && ({
                    let ev = #[trigger] eval_spec(spec.sub_isos@, o, t);
                    !gamma.dom@.contains(ev) || gamma.spec_apply(ev) != eval_spec(spec.sub_isos@, o, map_args(*gamma, t))
                });
            let k = choose|k: int| 0 <= k < tv.len() && tv[k] == t;
            assert(eval_spec(spec.sub_isos@, o, tv[k]) == eval_spec(spec.sub_isos@, o, t));
        }
    }
    false
}

/// Every operation preserves the graph of `gamma`.
pub open spec fn all_preserve_iso(isos: Seq<PartialIso>, ops: Seq<StoneOpV>, gamma: PartialIso) -> bool {
    forall|i: int| 0 <= i < ops.len() ==> !fails_iso_spec(isos, #[trigger] ops[i], gamma)
}

fn ops_preserve_iso_b(spec: &StoneSpec, ops: &Vec<StoneOp>, gamma: &PartialIso) -> (r: bool)
    ensures
        r == all_preserve_iso(spec.sub_isos@, ops_view(ops@), *gamma),
{
    let mut i: usize = 0;
    while i < ops.len()
        invariant
            i <= ops.len(),
            forall|k: int| 0 <= k < i ==> !fails_iso_spec(spec.sub_isos@, #[trigger] ops_view(ops@)[k], *gamma),
        decreases ops.len() - i,
    {
        proof {
            assert(ops_view(ops@)[i as int] == op_view(ops@[i as int]));
        }
        if fails_preserve_iso(spec, &ops[i], gamma) {
            return false;
        }
        i += 1;
    }
    true
}

/// Mathematical value of a partial isomorphism.
pub open spec fn iso_view(i: PartialIso) -> (Seq<Elem>, Seq<Elem>, Seq<(Elem, Elem)>) {
    (i.dom@, i.cod@, i.map@)
}

/// The pairs of two lists, position by position.
pub open spec fn zip_pairs(a: Seq<Elem>, b: Seq<Elem>) -> Seq<(Elem, Elem)> {
    Seq::new(a.len(), |i: int| (a[i], b[i]))
}

/// The partial isomorphism given by two position lists (the identity on the domain list when
/// the lengths differ or either list repeats an entry).
pub open spec fn lists_iso_spec(dom_list: Seq<Elem>, cod_list: Seq<Elem>, r: PartialIso) -> bool {
    if dom_list.len() != cod_list.len() || !dom_list.no_duplicates() || !cod_list.no_duplicates() {
        &&& r.wf()
        &&& r.dom@.to_set() == dom_list.to_set()
        &&& r.cod@ == r.dom@
        &&& r.map@ == zip_pairs(r.dom@, r.dom@)
    } else {
        &&& r.wf()
        &&& r.dom@.to_set() == dom_list.to_set()
        &&& r.cod@.to_set() == cod_list.to_set()
        &&& r.map@ == zip_pairs(dom_list, cod_list)
    }
}

/// Tells whether a list repeats an entry.
fn has_duplicates(v: &[Elem]) -> (r: bool)
    ensures
        r == !v@.no_duplicates(),
{
    let mut i: usize = 0;
    while i < v.len()
        invariant
            i <= v.len(),
            forall|a: int, b: int| 0 <= a < b < v.len() && a < i ==> v@[a] != v@[b],
        decreases v.len() - i,
    {
        let mut j: usize = i + 1;
        while j < v.len()
            invariant
                i < j <= v.len(),
                forall|a: int, b: int| 0 <= a < b < v.len() && a < i ==> v@[a] != v@[b],
                forall|b: int| i < b < j ==> v@[i as int] != v@[b],
            decreases v.len() - j,
        {
            if v[i] == v[j] {
                return true;
            }
            j += 1;
        }
        i += 1;
    }
    false
}

/// The partial isomorphism given by two position lists.
pub fn partial_iso_of_lists(dom_list: &[Elem], cod_list: &[Elem]) -> (r: PartialIso)
    ensures
        lists_iso_spec(dom_list@, cod_list@, r),
{
    let d = crate::stone::sets::copy_elems_slice(dom_list);
    if dom_list.len() != cod_list.len() || has_duplicates(dom_list) || has_duplicates(cod_list) {
        let s = set_of(&d);
        let r = PartialIso::id_on(&s);
        proof {
            assert(r.map@ =~= zip_pairs(r.dom@, r.dom@)) by {
                assert forall|i: int| 0 <= i < r.map@.len() implies r.map@[i] == zip_pairs(r.dom@, r.dom@)[i] by {
                    assert(r.map@[i] == (s@[i], s@[i]));
                }
            }
        }
        return r;
    }
    let c = crate::stone::sets::copy_elems_slice(cod_list);
    let mut map: Vec<(Elem, Elem)> = Vec::new();
    let mut i: usize = 0;
    while i < dom_list.len()
        invariant
            i <= dom_list.len(),
            dom_list.len() == cod_list.len(),
            map@ == zip_pairs(dom_list@.take(i as int), cod_list@.take(i as int)),
        decreases dom_list.len() - i,
    {
        map.push((dom_list[i], cod_list[i]));
        i += 1;
        proof {
            assert(map@ =~= zip_pairs(dom_list@.take(i as int), cod_list@.take(i as int)));
        }
    }
    proof {
        assert(dom_list@.take(dom_list.len() as int) =~= dom_list@);
        assert(cod_list@.take(cod_list.len() as int) =~= cod_list@);
        assert forall|a: int, b: int| 0 <= a < b < map@.len() implies (#[trigger] map@[a]).0 != (#[trigger] map@[b]).0 by {
            assert(map@[a].0 == dom_list@[a]);
            assert(map@[b].0 == dom_list@[b]);
        }
    }
    PartialIso { dom: set_of(&d), cod: set_of(&c), map }
}

/// The permutations of `s`, in the order of the recursive enumeration (first entry chosen
/// by position, then the permutations of the rest).
pub open spec fn perms(s: Seq<Elem>) -> Seq<Seq<Elem>>
    decreases s.len(), 1int, 0int,
{
    if s.len() == 0 {
        seq![Seq::<Elem>::empty()]
    } else {
        perms_from(s, 0)
    }
}

/// The permutations of `s` whose first entry is `s[j]` for some `j >= i`.
pub open spec fn perms_from(s: Seq<Elem>, i: int) -> Seq<Seq<Elem>>
    decreases s.len(), 0int, s.len() - i,
{
    if i < 0 || i >= s.len() {
        Seq::empty()
    } else {
        prepend_all(seq![s[i]], perms(s.remove(i))) + perms_from(s, i + 1)
    }
}

/// `pre` put in front of each list.
pub open spec fn prepend_all(pre: Seq<Elem>, ps: Seq<Seq<Elem>>) -> Seq<Seq<Elem>> {
    ps.map_values(|p: Seq<Elem>| pre + p)
}

/// Prepending twice is prepending the concatenation.
proof fn lemma_prepend_twice(a: Seq<Elem>, b: Seq<Elem>, ps: Seq<Seq<Elem>>)
    ensures
        prepend_all(a, prepend_all(b, ps)) == prepend_all(a + b, ps),
{
    assert forall|i: int| 0 <= i < ps.len() implies prepend_all(a, prepend_all(b, ps))[i] == prepend_all(a + b, ps)[i] by {
        assert(a + (b + ps[i]) =~= (a + b) + ps[i]);
    }
    assert(prepend_all(a, prepend_all(b, ps)) =~= prepend_all(a + b, ps));
}

/// Prepending distributes over concatenation.
proof fn lemma_prepend_concat(a: Seq<Elem>, ps: Seq<Seq<Elem>>, qs: Seq<Seq<Elem>>)
    ensures
        prepend_all(a, ps + qs) == prepend_all(a, ps) + prepend_all(a, qs),
{
    assert(prepend_all(a, ps + qs) =~= prepend_all(a, ps) + prepend_all(a, qs));
}

/// Appends `prefix ++ p` to `out` for every permutation `p` of `rest`.
fn permutations_rec(rest: &mut Vec<Elem>, prefix: &mut Vec<Elem>, out: &mut Vec<Vec<Elem>>)
    ensures
        final(rest)@ == old(rest)@,
        final(prefix)@ == old(prefix)@,
        final(out).deep_view() == old(out).deep_view() + prepend_all(old(prefix)@, perms(old(rest)@)),
    decreases old(rest)@.len(),
{
    if rest.len() == 0 {
        let c = copy_elems(prefix);
        let ghost before = out.deep_view();
        proof {
            lemma_elems_deep_view(c);
        }
        out.push(c);
        proof {
            assert(prefix@ + Seq::<Elem>::empty() =~= prefix@);
            assert(prepend_all(prefix@, perms(rest@)) =~= seq![prefix@]);
            assert(out.deep_view() =~= before + seq![prefix@]);
        }
        return;
    }
    let ghost s = rest@;
    let ghost pre = prefix@;
    let ghost out0 = out.deep_view();
    let n = rest.len();
    let mut i: usize = 0;
    proof {
        assert(perms(s) == perms_from(s, 0));
        assert(out.deep_view() + prepend_all(pre, perms_from(s, 0)) =~= out0 + prepend_all(pre, perms(s)));
    }
    while i < n
        invariant
            i <= n,
            n == s.len(),
            s.len() > 0,
            s == old(rest)@,
            rest@ == s,
            prefix@ == pre,
            out.deep_view() + prepend_all(pre, perms_from(s, i as int)) == out0 + prepend_all(pre, perms(s)),
        decreases n - i,
    {
        let ghost mid = out.deep_view();
        let x = rest.remove(i);
        prefix.push(x);
        proof {
            assert(rest@ == s.remove(i as int));
        }
        permutations_rec(rest, prefix, out);
        let _ = prefix.pop();
        rest.insert(i, x);
        proof {
            assert(rest@ =~= s);
            assert(prefix@ =~= pre);
            lemma_prepend_twice(pre, seq![x], perms(s.remove(i as int)));
            assert(pre.push(x) =~= pre + seq![x]);
            lemma_prepend_concat(pre, prepend_all(seq![s[i as int]], perms(s.remove(i as int))), perms_from(s, i + 1));
            assert(out.deep_view() + prepend_all(pre, perms_from(s, i + 1)) =~= mid + prepend_all(pre, perms_from(s, i as int)));
        }
        i += 1;
    }
    proof {
        assert(perms_from(s, n as int) =~= Seq::<Seq<Elem>>::empty());
        assert(prepend_all(pre, Seq::<Seq<Elem>>::empty()) =~= Seq::<Seq<Elem>>::empty());
        assert(out.deep_view() =~= out0 + prepend_all(pre, perms(s)));
    }
}

/// All permutations of `items`.
pub fn permutations(items: &Vec<Elem>) -> (r: Vec<Vec<Elem>>)
    ensures
        r.deep_view() == perms(items@),
{
    let mut rest = copy_elems(items);
    let mut prefix: Vec<Elem> = Vec::new();
    let mut out: Vec<Vec<Elem>> = Vec::new();
    permutations_rec(&mut rest, &mut prefix, &mut out);
    proof {
        assert(prepend_all(Seq::<Elem>::empty(), perms(items@)) =~= perms(items@)) by {
            assert forall|i: int| 0 <= i < perms(items@).len() implies prepend_all(Seq::<Elem>::empty(), perms(items@))[i] == perms(items@)[i] by {
                assert(Seq::<Elem>::empty() + perms(items@)[i] =~= perms(items@)[i]);
            }
        }
        assert(out.deep_view() =~= perms(items@));
    }
    out
}

/// The pairs `(u, vs)` for `v` among the first `j` sets of `subs` with as many members as `u`,
/// and `vs` a permutation of `v`.
pub open spec fn pairs_for(u: Seq<Elem>, subs: Seq<Seq<Elem>>, j: int) -> Seq<(Seq<Elem>, Seq<Elem>)>
    decreases j,
{
    if j <= 0 || j > subs.len() {
        Seq::empty()
    } else {
        pairs_for(u, subs, j - 1) + if subs[j - 1].len() == u.len() {
            perms(subs[j - 1]).map_values(|vs: Seq<Elem>| (u, vs))
        } else {
            Seq::empty()
        }
    }
}

/// The candidate pairs `(u, vs)` for the first `i` sets `u` of `subs`.
pub open spec fn cand_pairs(subs: Seq<Seq<Elem>>, i: int) -> Seq<(Seq<Elem>, Seq<Elem>)>
    decreases i,
{
    if i <= 0 || i > subs.len() {
        Seq::empty()
    } else {
        cand_pairs(subs, i - 1) + pairs_for(subs[i - 1], subs, subs.len() as int)
    }
}

/// `isos` realise the pairs `ps`, one by one.
pub open spec fn realises(isos: Seq<PartialIso>, ps: Seq<(Seq<Elem>, Seq<Elem>)>) -> bool {
    isos.len() == ps.len() && forall|k: int| 0 <= k < ps.len() ==> lists_iso_spec(ps[k].0, ps[k].1, #[trigger] isos[k])
}

/// Candidate sub-isomorphisms between subuniverses of equal size: for each ordered pair of
/// sets and each permutation of the second, the map sending the first, in order, onto it.
pub fn candidate_isos(subs: &Vec<Vec<Elem>>) -> (r: Vec<PartialIso>)
    requires
        forall|i: int| 0 <= i < subs.len() ==> increasing(#[trigger] subs@[i]@),
    ensures
        realises(r@, cand_pairs(subs.deep_view(), subs.len() as int)),
{
    let ghost sv = subs.deep_view();
    let mut out: Vec<PartialIso> = Vec::new();
    let mut a: usize = 0;
    while a < subs.len()
        invariant
            a <= subs.len(),
            sv == subs.deep_view(),
            realises(out@, cand_pairs(sv, a as int)),
        decreases subs.len() - a,
    {
        let u = &subs[a];
        proof {
            lemma_elems_deep_view(subs@[a as int]);
        }
        let ghost base = out@;
        let mut b: usize = 0;
        while b < subs.len()
            invariant
                a < subs.len(),
                b <= subs.len(),
                sv == subs.deep_view(),
                u@ == sv[a as int],
                out@.len() >= base.len(),
                out@.take(base.len() as int) == base,
                realises(base, cand_pairs(sv, a as int)),
                realises(out@.skip(base.len() as int), pairs_for(u@, sv, b as int)),
            decreases subs.len() - b,
        {
            let v = &subs[b];
            proof {
                lemma_elems_deep_view(subs@[b as int]);
            }
            if u.len() == v.len() {
                let ps = permutations(v);
                let mut k: usize = 0;
                let ghost start = out@;
                while k < ps.len()
                    invariant
                        k <= ps.len(),
                        ps.deep_view() == perms(v@),
                        out@.len() == start.len() + k,
                        out@.take(start.len() as int) == start,
                        forall|q: int| 0 <= q < k ==> lists_iso_spec(u@, perms(v@)[q], #[trigger] out@[start.len() + q]),
                    decreases ps.len() - k,
                {
                    proof {
                        lemma_elems_deep_view(ps@[k as int]);
                    }
                    let iso = partial_iso_of_lists(u.as_slice(), ps[k].as_slice());
                    let ghost before = out@;
                    out.push(iso);
                    proof {
                        assert(out@.take(start.len() as int) =~= before.take(start.len() as int));
                        assert forall|q: int| 0 <= q < k + 1 implies lists_iso_spec(u@, perms(v@)[q], #[trigger] out@[start.len() + q]) by {
                            if q < k {
                                assert(out@[start.len() + q] == before[start.len() + q]);
                            }
                        }
                    }
                    k += 1;
                }
                proof {
                    let added = perms(v@).map_values(|vs: Seq<Elem>| (u@, vs));
                    assert(out@.take(base.len() as int) =~= base) by {
                        assert(out@.take(base.len() as int) =~= start.take(base.len() as int));
                    }
                    let tail = out@.skip(base.len() as int);
                    let prev = start.skip(base.len() as int);
                    assert(pairs_for(u@, sv, b + 1) == pairs_for(u@, sv, b as int) + added);
                    assert forall|q: int| 0 <= q < tail.len() implies lists_iso_spec(
                        (pairs_for(u@, sv, b as int) + added)[q].0,
                        (pairs_for(u@, sv, b as int) + added)[q].1,
                        #[trigger] tail[q],
                    ) by {
                        if q < prev.len() {
                            assert(tail[q] == prev[q]);
                        } else {
                            let qq = q - prev.len();
                            assert(tail[q] == out@[start.len() + qq]);
                        }
                    }
                }
            } else {
                proof {
                    assert(pairs_for(u@, sv, b + 1) =~= pairs_for(u@, sv, b as int));
                }
            }
            b += 1;
        }
        proof {
            assert(cand_pairs(sv, a + 1) == cand_pairs(sv, a as int) + pairs_for(sv[a as int], sv, sv.len() as int));
            assert forall|q: int| 0 <= q < out@.len() implies lists_iso_spec(
                cand_pairs(sv, a + 1)[q].0,
                cand_pairs(sv, a + 1)[q].1,
                #[trigger] out@[q],
            ) by {
                if q < base.len() {
                    assert(out@[q] == out@.take(base.len() as int)[q]);
                } else {
                    assert(out@[q] == out@.skip(base.len() as int)[q - base.len()]);
                }
            }
        }
        a += 1;
    }
    out
}

/// Every partial isomorphism realising the pair preserves the graphs of all `ops`.
pub open spec fn pair_ok(isos: Seq<PartialIso>, ops: Seq<StoneOpV>, p: (Seq<Elem>, Seq<Elem>)) -> bool {
    forall|r: PartialIso| #[trigger] lists_iso_spec(p.0, p.1, r) ==> all_preserve_iso(isos, ops, r)
}

/// `op` breaks the graph of the partial isomorphism realising the pair.
pub open spec fn pair_fails(isos: Seq<PartialIso>, o: StoneOpV, p: (Seq<Elem>, Seq<Elem>)) -> bool {
    forall|r: PartialIso| #[trigger] lists_iso_spec(p.0, p.1, r) ==> fails_iso_spec(isos, o, r)
}

/// The pairs whose partial isomorphism every operation preserves.
pub open spec fn filter_pairs(isos: Seq<PartialIso>, ops: Seq<StoneOpV>, ps: Seq<(Seq<Elem>, Seq<Elem>)>) -> Seq<(Seq<Elem>, Seq<Elem>)>
    decreases ps.len(),
{
    if ps.len() == 0 {
        Seq::empty()
    } else {
        let rest = filter_pairs(isos, ops, ps.drop_last());
        if pair_ok(isos, ops, ps.last()) {
            rest.push(ps.last())
        } else {
            rest
        }
    }
}

/// The current sub-isomorphisms, as pairs.
pub open spec fn current_pairs(spec: StoneSpec, ops: Seq<StoneOpV>) -> Seq<(Seq<Elem>, Seq<Elem>)> {
    let subs = subuniverses_spec(spec, ops);
    filter_pairs(spec.sub_isos@, ops, cand_pairs(subs, subs.len() as int))
}

/// Two partial isomorphisms realising the same pair have the same domain and pairs.
proof fn lemma_realise_unique(a: Seq<Elem>, b: Seq<Elem>, r1: PartialIso, r2: PartialIso, isos: Seq<PartialIso>)
    requires
        lists_iso_spec(a, b, r1),
        lists_iso_spec(a, b, r2),
    ensures
        forall|o: StoneOpV| fails_iso_spec(isos, o, r1) == fails_iso_spec(isos, o, r2),
{
    crate::stone::sets::lemma_increasing_unique(r1.dom@, r2.dom@);
    assert(r1.map@ == r2.map@);
    assert forall|x: Elem| r1.spec_apply(x) == r2.spec_apply(x) by {}
    assert forall|o: StoneOpV| fails_iso_spec(isos, o, r1) == fails_iso_spec(isos, o, r2) by {
        assert forall|t: Seq<Elem>| map_args(r1, t) == map_args(r2, t) by {
            assert(map_args(r1, t) =~= map_args(r2, t));
        }
    }
}

/// Two partial isomorphisms realising the same pair break the same graphs.
pub proof fn lemma_realise_unique_pub(a: Seq<Elem>, b: Seq<Elem>, r1: PartialIso, r2: PartialIso, isos: Seq<PartialIso>)
    requires
        lists_iso_spec(a, b, r1),
        lists_iso_spec(a, b, r2),
    ensures
        forall|o: StoneOpV| fails_iso_spec(isos, o, r1) == fails_iso_spec(isos, o, r2),
{
    lemma_realise_unique(a, b, r1, r2, isos);
}

/// The sub-isomorphisms of the current algebra: candidates whose graph every operation preserves.
pub fn current_sub_isos(spec: &StoneSpec, ops: &Vec<StoneOp>) -> (r: Vec<PartialIso>)
    requires
        spec.universe.len() < usize::BITS,
    ensures
        realises(r@, current_pairs(*spec, ops_view(ops@))),
{
    let subs = subuniverses_of_ops(spec, ops);
    let cands = candidate_isos(&subs);
    let ghost cp = cand_pairs(subs.deep_view(), subs.len() as int);
    let mut out: Vec<PartialIso> = Vec::new();
    let mut i: usize = 0;
    proof {
        assert(subs.deep_view().len() == subs.len());
        assert(cp.take(0) =~= Seq::<(Seq<Elem>, Seq<Elem>)>::empty());
    }
    while i < cands.len()
        invariant
            i <= cands.len(),
            realises(cands@, cp),
            realises(out@, filter_pairs(spec.sub_isos@, ops_view(ops@), cp.take(i as int))),
        decreases cands.len() - i,
    {
        let ok = ops_preserve_iso_b(spec, ops, &cands[i]);
        proof {
            assert(cp.take(i + 1).drop_last() =~= cp.take(i as int));
            assert(cp.take(i + 1).last() == cp[i as int]);
            assert(lists_iso_spec(cp[i as int].0, cp[i as int].1, cands@[i as int]));
            assert(ok == pair_ok(spec.sub_isos@, ops_view(ops@), cp[i as int])) by {
                if ok {
                    assert forall|r: PartialIso| #[trigger] lists_iso_spec(cp[i as int].0, cp[i as int].1, r) implies all_preserve_iso(spec.sub_isos@, ops_view(ops@), r) by {
                        lemma_realise_unique(cp[i as int].0, cp[i as int].1, cands@[i as int], r, spec.sub_isos@);
                        assert forall|k: int| 0 <= k < ops@.len() implies !fails_iso_spec(spec.sub_isos@, #[trigger] ops_view(ops@)[k], r) by {
                            assert(!fails_iso_spec(spec.sub_isos@, ops_view(ops@)[k], cands@[i as int]));
                        }
                    }
                }
            }
        }
        if ok {
            let c = copy_iso(&cands[i]);
            out.push(c);
        }
        i += 1;
    }
    proof {
        assert(cp.take(cands.len() as int) =~= cp);
    }
    out
}

/// Copy of a partial isomorphism.
pub fn copy_iso(g: &PartialIso) -> (r: PartialIso)
    ensures
        r.dom@ == g.dom@,
        r.cod@ == g.cod@,
        r.map@ == g.map@,
{
    let mut map: Vec<(Elem, Elem)> = Vec::new();
    let mut i: usize = 0;
    while i < g.map.len()
        invariant
            i <= g.map.len(),
            map@ == g.map@.take(i as int),
        decreases g.map.len() - i,
    {
        map.push(g.map[i]);
        i += 1;
        proof {
            assert(map@ =~= g.map@.take(i as int));
        }
    }
    proof {
        assert(map@ =~= g.map@);
    }
    PartialIso { dom: copy_elems(&g.dom), cod: copy_elems(&g.cod), map }
}

/// `op` breaks a current subuniverse or the graph of a current sub-isomorphism.
pub open spec fn not_preserves_current_spec(spec: StoneSpec, o: StoneOpV, ops: Seq<StoneOpV>) -> bool {
    let subs = subuniverses_spec(spec, ops);
    let ps = current_pairs(spec, ops);
    (exists|i: int| 0 <= i < subs.len() && !preserves_full_spec(spec.sub_isos@, o, #[trigger] subs[i]))
        || (exists|k: int| 0 <= k < ps.len() && pair_fails(spec.sub_isos@, o, #[trigger] ps[k]))
}

/// The incremental test: `op` fails on a current subuniverse or on the graph of a current
/// sub-isomorphism.
pub fn not_preserves_sub_sq_current(spec: &StoneSpec, op: &StoneOp, ops: &Vec<StoneOp>) -> (r: bool)
    requires
        spec.universe.len() < usize::BITS,
    ensures
        r == not_preserves_current_spec(*spec, op_view(*op), ops_view(ops@)),
{
    if not_preserves_current(spec, op, ops) {
        return true;
    }
    let isos = current_sub_isos(spec, ops);
    let ghost ps = current_pairs(*spec, ops_view(ops@));
    let mut i: usize = 0;
    while i < isos.len()
        invariant
            i <= isos.len(),
            realises(isos@, ps),
            ps == current_pairs(*spec, ops_view(ops@)),
            forall|k: int| 0 <= k < i ==> !pair_fails(spec.sub_isos@, op_view(*op), #[trigger] ps[k]),
        decreases isos.len() - i,
    {
        let f = fails_preserve_iso(spec, op, &isos[i]);
        proof {
            assert(lists_iso_spec(ps[i as int].0, ps[i as int].1, isos@[i as int]));
            if f {
                assert forall|r: PartialIso| #[trigger] lists_iso_spec(ps[i as int].0, ps[i as int].1, r) implies fails_iso_spec(spec.sub_isos@, op_view(*op), r) by {
                    lemma_realise_unique(ps[i as int].0, ps[i as int].1, isos@[i as int], r, spec.sub_isos@);
                }
                assert(pair_fails(spec.sub_isos@, op_view(*op), ps[i as int]));
            } else {
                assert(!pair_fails(spec.sub_isos@, op_view(*op), ps[i as int]));
            }
        }
        if f {
            return true;
        }
        i += 1;
    }
    false
}

/// Law: when every tuple over `sub` evaluates inside `sub`, so does the constant tuple
/// of its least element: the full preservation check implies the weak one.
pub proof fn law_full_preservation_implies_weak(isos: Seq<PartialIso>, o: StoneOpV, sub: Seq<Elem>)
    requires
        preserves_full_spec(isos, o, sub),
    ensures
        preserves_weak_spec(isos, o, sub),
{
    if sub.len() > 0 {
        let t = Seq::new(op_arity(o), |i: int| sub[0]);
        assert(sub.contains(sub[0]));
        assert(tuple_in(t, sub, op_arity(o)));
    }
}

/// With no match from `k` on, no sub-isomorphism from `k` on maps `bar` onto `args`.
proof fn lemma_no_match(isos: Seq<PartialIso>, bar: Seq<Elem>, args: Seq<Elem>, k: int)
    requires
        0 <= k,
    ensures
        first_match(isos, bar, args, k) is None ==> forall|j: int| k <= j < isos.len() ==> !args_match(bar, args, #[trigger] isos[j]),
    decreases isos.len() - k,
{
    if k < isos.len() {
        lemma_no_match(isos, bar, args, k + 1);
    }
}

/// Law: `g_D` returns its first argument when some sub-isomorphism maps the domain `D`
/// position-wise onto the arguments, and its second argument (when there is one) when none
/// does.
pub proof fn law_gd_value(isos: Seq<PartialIso>, domain: Seq<Elem>, args: Seq<Elem>)
    ensures
        (exists|j: int|
            #![trigger isos[j]]
            0 <= j < isos.len() && domain.len() == args.len() && (forall|i: int|
                0 <= i < domain.len() ==> isos[j].dom@.contains(#[trigger] domain[i]) && isos[j].spec_apply(
                    domain[i],
                ) == args[i])) && args.len() > 0 ==> eval_spec(isos, StoneOpV::GD(domain), args) == args[0],
        (forall|j: int|
            #![trigger isos[j]]
            0 <= j < isos.len() ==> !(domain.len() == args.len() && (forall|i: int|
                0 <= i < domain.len() ==> isos[j].dom@.contains(#[trigger] domain[i]) && isos[j].spec_apply(
                    domain[i],
                ) == args[i]))) && args.len() > 1 ==> eval_spec(isos, StoneOpV::GD(domain), args) == args[1],
{
    lemma_first_match_range(isos, domain, args, 0);
    lemma_no_match(isos, domain, args, 0);
    if exists|j: int|
        #![trigger isos[j]]
        0 <= j < isos.len() && domain.len() == args.len() && (forall|i: int|
            0 <= i < domain.len() ==> isos[j].dom@.contains(#[trigger] domain[i]) && isos[j].spec_apply(domain[i])
                == args[i]) {
        let j = choose|j: int|
            #![trigger isos[j]]
            0 <= j < isos.len() && domain.len() == args.len() && (forall|i: int|
                0 <= i < domain.len() ==> isos[j].dom@.contains(#[trigger] domain[i]) && isos[j].spec_apply(
                    domain[i],
                ) == args[i]);
        assert forall|i: int| 0 <= i < domain.len() implies isos[j].dom@.contains(#[trigger] domain[i]) by {}
        assert(args_match(domain, args, isos[j]));
    }
}

/// Law: `f_{b̄,b}` applied to arguments that the first matching sub-isomorphism `σ` maps `b̄`
/// onto returns `σ(b)`; with no match it returns its first argument.
pub proof fn law_fbar_value(isos: Seq<PartialIso>, bar: Seq<Elem>, b: Elem, args: Seq<Elem>, j: int)
    requires
        0 <= j < isos.len(),
        args_match(bar, args, isos[j]),
        forall|j2: int| 0 <= j2 < j ==> !args_match(bar, args, #[trigger] isos[j2]),
    ensures
        eval_spec(isos, StoneOpV::FBar(bar, b), args) == isos[j].spec_apply(b),
{
    lemma_first_match_at(isos, bar, args, 0, j);
}

proof fn lemma_first_match_at(isos: Seq<PartialIso>, bar: Seq<Elem>, args: Seq<Elem>, k: int, j: int)
    requires
        0 <= k <= j < isos.len(),
        args_match(bar, args, isos[j]),
        forall|j2: int| k <= j2 < j ==> !args_match(bar, args, #[trigger] isos[j2]),
    ensures
        first_match(isos, bar, args, k) == Some(j),
    decreases j - k,
{
    if k < j {
        lemma_first_match_at(isos, bar, args, k + 1, j);
    }
}

/// Law: with no matching sub-isomorphism `f_{b̄,b}` returns its first argument.
pub proof fn law_fbar_unmatched(isos: Seq<PartialIso>, bar: Seq<Elem>, b: Elem, args: Seq<Elem>)
    requires
        forall|j: int| 0 <= j < isos.len() ==> !args_match(bar, args, #[trigger] isos[j]),
        args.len() > 0,
    ensures
        eval_spec(isos, StoneOpV::FBar(bar, b), args) == args[0],
{
    lemma_first_match_range(isos, bar, args, 0);
}

/// Law: the discriminator on `(x, y, z)` gives `z` when `x = y` and `x` otherwise.
pub proof fn law_discriminator_value(isos: Seq<PartialIso>, x: Elem, y: Elem, z: Elem)
    ensures
        x == y ==> eval_spec(isos, StoneOpV::Discriminator, seq![x, y, z]) == z,
        x != y ==> eval_spec(isos, StoneOpV::Discriminator, seq![x, y, z]) == x,
{
}


} // verus!
