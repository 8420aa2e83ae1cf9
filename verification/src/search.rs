//! One step of the splitting search on a block: the generator proposes candidates until
//! one is useful (it splits the block or gives a new value), and the block is split on it.

use vstd::prelude::*;

use crate::first_order::formulas::{copy_term, lemma_terms_view, term_view, terms_view, var_name, OpSym, Term, TermV, Variable};
use crate::first_order::relops::Operation;
use crate::generator::{
    below, gen_measure_lt, gen_next, gen_wf, law_generator_none_when_exhausted, law_generator_positions, m_arity, m_op,
    m_perm, m_stage, pool_ok, CandV, CandidateGenerator, GenV, StateV,
};
use crate::hit::{pick, TupleHistory};
use crate::splitting::{block_step, is_split, lemma_hist_index_bound, step_value, step_index, step_new, step_ok, Block, Child};

verus! {

/// The operations, grouped as the generator counts them: group `i` holds `sizes[i]`
/// well-formed operations of arity `keys[i]`.
pub open spec fn ops_fit(ops: Seq<Vec<Operation>>, g: GenV) -> bool {
    &&& ops.len() == g.keys.len()
    &&& forall|i: int| 0 <= i < ops.len() ==> (#[trigger] ops[i]).len() == g.sizes[i]
    &&& forall|i: int, o: int|
        0 <= i < ops.len() && 0 <= o < ops[i].len() ==> (#[trigger] ops[i]@[o]).wf() && ops[i]@[o].arity == g.keys[i]
}

/// The block's histories are well formed and of length `len`.
pub open spec fn block_fits(b: Block, len: nat) -> bool {
    &&& b.wf()
    &&& forall|j: int| 0 <= j < b.tuples.len() ==> (#[trigger] b.tuples@[j]).history@.len() == len
}

/// The candidate is defined on every history of the block.
pub open spec fn defined_on(ts: Seq<TupleHistory>, op: Operation, ti: Seq<usize>) -> bool {
    forall|j: int| 0 <= j < ts.len() ==> (#[trigger] op.spec_call(pick(ts[j].history@, ti))) is Some
}

/// The candidate splits the tuples or gives one of them a new value.
pub open spec fn useful(ts: Seq<TupleHistory>, op: Operation, ti: Seq<usize>) -> bool {
    ||| exists|j: int| 0 <= j < ts.len() && step_new(#[trigger] ts[j], op, ti)
    ||| exists|j: int| 0 <= j < ts.len() && step_index(#[trigger] ts[j], op, ti) != step_index(ts[0], op, ti)
}

/// View of the term of a candidate: the operation applied to the terms named by the positions.
pub open spec fn candidate_term(op: Operation, ti: Seq<usize>, names: Seq<Term>) -> TermV {
    TermV::Op(op.sym@, op.arity as nat, Seq::new(ti.len(), |k: int| term_view(names[ti[k] as int])))
}

/// The generator after proposing candidates until a useful one (every one when
/// `skip` is false), with that candidate, or `None` when it runs out.
pub open spec fn next_useful(g: GenV, ts: Seq<TupleHistory>, ops: Seq<Vec<Operation>>, skip: bool, len: nat) -> (
    GenV,
    Option<CandV>,
)
    decreases g.nuevos.len(), m_stage(g), m_arity(g), m_op(g), m_perm(g),
    when gen_wf(g) && pool_ok(g, len)
{
    let n = gen_next(g);
    proof {
        law_generator_positions(g, len);
        law_generator_none_when_exhausted(g);
    }
    match n.1 {
        None => (n.0, None),
        Some(c) => if !defined_on(ts, ops[c.0]@[c.1], c.2) || !skip || useful(ts, ops[c.0]@[c.1], c.2) {
            (n.0, Some(c))
        } else {
            next_useful(n.0, ts, ops, skip, len)
        },
    }
}

/// The parts of a step, with the candidate and its term.
pub enum StepOutcome {
    /// The generator has no useful candidate left: the block is finished.
    Finished,
    /// The block split on the candidate `(group, operation, positions)` with this term.
    Parts(Vec<Child>, usize, usize, Vec<usize>, Term),
    /// The candidate `(group, operation, positions)` is undefined on a history of the block.
    Undefined(usize, usize, Vec<usize>),
}

/// Whether the candidate is defined on every history of the block.
pub fn defined_on_all(b: &Block, op: &Operation, ti: &Vec<usize>, len: usize) -> (r: bool)
    requires
        block_fits(*b, len as nat),
        op.wf(),
        below(ti@, len as nat),
    ensures
        r == defined_on(b.tuples@, *op, ti@),
{
    let mut j: usize = 0;
    while j < b.tuples.len()
        invariant
            j <= b.tuples.len(),
            block_fits(*b, len as nat),
            op.wf(),
            below(ti@, len as nat),
            forall|j2: int| 0 <= j2 < j ==> (#[trigger] op.spec_call(pick(b.tuples@[j2].history@, ti@))) is Some,
        decreases b.tuples.len() - j,
    {
        let th = &b.tuples[j];
        let mut args: Vec<i64> = Vec::new();
        let mut k: usize = 0;
        while k < ti.len()
            invariant
                k <= ti.len(),
                th.history@.len() == len,
                below(ti@, len as nat),
                args@ == pick(th.history@, ti@.take(k as int)),
            decreases ti.len() - k,
        {
            args.push(th.history[ti[k]]);
            k += 1;
            proof {
                assert(args@ =~= pick(th.history@, ti@.take(k as int)));
            }
        }
        proof {
            assert(ti@.take(ti.len() as int) =~= ti@);
        }
        if op.call(args.as_slice()).is_none() {
            return false;
        }
        j += 1;
    }
    true
}

fn is_useful(b: &Block, op: &Operation, ti: &Vec<usize>) -> (r: bool)
    requires
        b.wf(),
        op.wf(),
        forall|j: int| 0 <= j < b.tuples.len() ==> step_ok(#[trigger] b.tuples@[j], *op, ti@),
    ensures
        r == useful(b.tuples@, *op, ti@),
{
    let n = b.tuples.len();
    if n == 0 {
        return false;
    }
    proof {
        assert(b.tuples@[0].wf());
        assert(step_ok(b.tuples@[0], *op, ti@));
    }
    let fr = b.tuples[0].simulate_step(op, ti.as_slice());
    let first = fr.0;
    proof {
        let th = b.tuples@[0];
        assert(th.history@.len() == th.history.len());
        if th.history@.contains(step_value(th, *op, ti@)) {
            lemma_hist_index_bound(th, step_value(th, *op, ti@));
        }
    }
    let mut j: usize = 0;
    while j < n
        invariant
            j <= n,
            n == b.tuples.len(),
            n > 0,
            b.wf(),
            op.wf(),
            forall|j2: int| 0 <= j2 < n ==> step_ok(#[trigger] b.tuples@[j2], *op, ti@),
            first as int == step_index(b.tuples@[0], *op, ti@),
            forall|j2: int| 0 <= j2 < j ==> !step_new(#[trigger] b.tuples@[j2], *op, ti@) && step_index(b.tuples@[j2], *op, ti@)
                == step_index(b.tuples@[0], *op, ti@),
        decreases n - j,
    {
        proof {
            assert(b.tuples@[j as int].wf());
            assert(step_ok(b.tuples@[j as int], *op, ti@));
        }
        let (idx, is_new) = b.tuples[j].simulate_step(op, ti.as_slice());
        proof {
            let th = b.tuples@[j as int];
            assert(th.history@.len() == th.history.len());
            if th.history@.contains(step_value(th, *op, ti@)) {
                lemma_hist_index_bound(th, step_value(th, *op, ti@));
            }
        }
        if is_new || idx != first {
            return true;
        }
        j += 1;
    }
    false
}

/// The term of a candidate: the operation applied to the terms named by the positions.
pub fn candidate_term_exec(op: &Operation, ti: &Vec<usize>, names: &Vec<Term>) -> (t: Term)
    requires
        forall|k: int| 0 <= k < ti.len() ==> #[trigger] ti@[k] < names.len(),
    ensures
        term_view(t) == candidate_term(*op, ti@, names@),
{
    let mut args: Vec<Term> = Vec::new();
    let mut k: usize = 0;
    while k < ti.len()
        invariant
            k <= ti.len(),
            forall|k2: int| 0 <= k2 < ti.len() ==> #[trigger] ti@[k2] < names.len(),
            args.len() == k,
            forall|k2: int| 0 <= k2 < k ==> term_view(#[trigger] args@[k2]) == term_view(names@[ti@[k2] as int]),
        decreases ti.len() - k,
    {
        let a = copy_term(&names[ti[k]]);
        args.push(a);
        k += 1;
    }
    let t = Term::OpTerm { sym: OpSym::new(op.sym.as_str(), op.arity), args };
    proof {
        lemma_terms_view(args@);
        let sv = Seq::new(ti@.len(), |k: int| term_view(names@[ti@[k] as int]));
        assert forall|k: int| 0 <= k < sv.len() implies terms_view(args@)[k] == sv[k] by {
            assert(term_view(args@[k]) == term_view(names@[ti@[k] as int]));
        }
        assert(terms_view(args@) =~= Seq::new(ti@.len(), |k: int| term_view(names@[ti@[k] as int])));
    }
    t
}

/// One step of the search on block `b` of histories of length `len`:
/// the generator `g` proposes candidates, skipping those that neither split the block
/// nor give a new value when `skip_useless` holds; on the first one taken the block is
/// split (`block_step`), and with none left the block is finished. A candidate that is
/// undefined on some history of the block is reported as such.
pub fn search_step(
    b: &Block,
    g: &mut CandidateGenerator,
    ops: &Vec<Vec<Operation>>,
    names: &Vec<Term>,
    len: usize,
    skip_useless: bool,
) -> (r: StepOutcome)
    requires
        gen_wf(old(g).view_g()),
        pool_ok(old(g).view_g(), len as nat),
        ops_fit(ops@, old(g).view_g()),
        block_fits(*b, len as nat),
        len <= names.len(),
    ensures
        final(g).view_g() == next_useful(old(g).view_g(), b.tuples@, ops@, skip_useless, len as nat).0,
        gen_wf(final(g).view_g()),
        pool_ok(final(g).view_g(), len as nat),
        match r {
            StepOutcome::Finished => next_useful(old(g).view_g(), b.tuples@, ops@, skip_useless, len as nat).1 is None
                && final(g).view_g().finished,
            StepOutcome::Undefined(gi, oi, ti) => {
                &&& next_useful(old(g).view_g(), b.tuples@, ops@, skip_useless, len as nat).1 == Some(
                    (gi as int, oi as int, ti@),
                )
                &&& gi < ops.len() && oi < ops@[gi as int].len()
                &&& !defined_on(b.tuples@, ops@[gi as int]@[oi as int], ti@)
            },
            StepOutcome::Parts(parts, gi, oi, ti, term) => {
                &&& next_useful(old(g).view_g(), b.tuples@, ops@, skip_useless, len as nat).1 == Some(
                    (gi as int, oi as int, ti@),
                )
                &&& gi < ops.len() && oi < ops@[gi as int].len()
                &&& term_view(term) == candidate_term(ops@[gi as int]@[oi as int], ti@, names@)
                &&& is_split(parts@, *b, ops@[gi as int]@[oi as int], ti@, term, names@)
            },
        },
{
    let ghost target = next_useful(g.view_g(), b.tuples@, ops@, skip_useless, len as nat);
    loop
        invariant
            gen_wf(g.view_g()),
            pool_ok(g.view_g(), len as nat),
            ops_fit(ops@, g.view_g()),
            block_fits(*b, len as nat),
            len <= names.len(),
            next_useful(g.view_g(), b.tuples@, ops@, skip_useless, len as nat) == target,
            target == next_useful(old(g).view_g(), b.tuples@, ops@, skip_useless, len as nat),
        decreases g.view_g().nuevos.len(), m_stage(g.view_g()), m_arity(g.view_g()), m_op(g.view_g()), m_perm(g.view_g()),
    {
        let ghost g0 = g.view_g();
        proof {
            law_generator_positions(g0, len as nat);
            law_generator_none_when_exhausted(g0);
        }
        match g.next_candidate() {
            None => {
                return StepOutcome::Finished;
            },
            Some((gi, oi, ti)) => {
                let op = &ops[gi][oi];
                proof {
                    assert(ops@[gi as int]@[oi as int] == *op);
                }
                if !defined_on_all(b, op, &ti, len) {
                    return StepOutcome::Undefined(gi, oi, ti);
                }
                proof {
                    assert forall|j: int| 0 <= j < b.tuples.len() implies step_ok(#[trigger] b.tuples@[j], *op, ti@) by {
                        assert(op.spec_call(pick(b.tuples@[j].history@, ti@)) is Some);
                    }
                }
                let take = !skip_useless || is_useful(b, op, &ti);
                if take {
                    proof {
                        assert forall|k: int| 0 <= k < ti.len() implies #[trigger] ti@[k] < names.len() by {
                            assert(ti@[k] < len);
                        }
                        assert forall|j: int| 0 <= j < b.tuples.len() implies (#[trigger] b.tuples@[j]).history@.len() <= names.len() by {
                        }
                    }
                    let term = candidate_term_exec(op, &ti, names);
                    let parts = block_step(b, op, ti.as_slice(), &term, names);
                    return StepOutcome::Parts(parts, gi, oi, ti, term);
                }
            },
        }
    }
}

/// A block of the search with its generator and the terms that name its positions.
pub struct SearchBlock {
    pub block: Block,
    pub generator: CandidateGenerator,
    pub names: Vec<Term>,
}

/// The names with position `idx` named by `t`, first padded by canonical variables.
pub open spec fn renamed_at(names: Seq<TermV>, idx: int, t: TermV) -> Seq<TermV> {
    let padded = if names.len() > idx {
        names
    } else {
        names + Seq::new((idx + 1 - names.len()) as nat, |k: int| TermV::Var(var_name(names.len() + k)))
    };
    padded.update(idx, t)
}

/// The generator after a new value at the next position.
pub open spec fn marked(g: GenV) -> GenV {
    GenV { nuevos: g.nuevos.push((g.viejos.len() + g.nuevos.len()) as usize), ..g }
}

/// Names position `idx` by `term`, padding the names with canonical variables.
pub fn name_position(names: &mut Vec<Term>, idx: usize, term: &Term)
    requires
        idx < i32::MAX,
    ensures
        terms_view(final(names)@) == renamed_at(terms_view(old(names)@), idx as int, term_view(*term)),
{
    let ghost start = terms_view(names@);
    proof {
        lemma_terms_view(names@);
    }
    while names.len() <= idx
        invariant
            idx < i32::MAX,
            start.len() <= names.len(),
            names.len() > start.len() ==> names.len() <= idx + 1,
            forall|k: int| 0 <= k < start.len() ==> terms_view(names@)[k] == start[k],
            forall|k: int| start.len() <= k < names.len() ==> terms_view(names@)[k] == TermV::Var(var_name(k)),
            terms_view(names@).len() == names.len(),
        decreases idx + 1 - names.len(),
    {
        let k = names.len();
        let v = Variable::from_index(k as i32);
        let ghost before = names@;
        names.push(Term::Variable(v));
        proof {
            assert(names@.drop_last() =~= before);
            lemma_terms_view(names@);
            lemma_terms_view(before);
        }
    }
    let t = copy_term(term);
    let ghost before = names@;
    names.set(idx, t);
    proof {
        lemma_terms_view(names@);
        lemma_terms_view(before);
        let expect = renamed_at(start, idx as int, term_view(*term));
        assert(terms_view(names@).len() == expect.len());
        assert forall|k: int| 0 <= k < expect.len() implies terms_view(names@)[k] == expect[k] by {
            assert(terms_view(names@)[k] == term_view(names@[k]));
            if k != idx {
                assert(names@[k] == before[k]);
                assert(terms_view(before)[k] == term_view(before[k]));
                if k < start.len() {
                    assert(expect[k] == start[k]);
                } else {
                    assert(expect[k] == TermV::Var(var_name(k)));
                }
            } else {
                assert(names@[k] == t);
            }
        }
        assert(terms_view(names@) =~= expect);
    }
}

/// The search blocks of the parts of a split of `sb`, whose histories have length `len`:
/// with one part the generator goes on, with several each part starts over from a copy;
/// a part with a new value marks its generator and names position `len` by `term`.
pub fn part_blocks(sb: &SearchBlock, parts: Vec<Child>, term: &Term, len: usize) -> (r: Vec<SearchBlock>)
    requires
        sb.generator.viejos.len() + sb.generator.nuevos.len() < usize::MAX,
        len < i32::MAX,
    ensures
        r.len() == parts.len(),
        forall|c: int|
            0 <= c < r.len() ==> {
                let base = if parts.len() == 1 {
                    sb.generator.view_g()
                } else {
                    GenV { state: StateV::Init, ..sb.generator.view_g() }
                };
                &&& (#[trigger] r@[c]).block == parts@[c].block
                &&& r@[c].generator.view_g() == if parts@[c].generated {
                    marked(base)
                } else {
                    base
                }
                &&& terms_view(r@[c].names@) == if parts@[c].generated {
                    renamed_at(terms_view(sb.names@), len as int, term_view(*term))
                } else {
                    terms_view(sb.names@)
                }
            },
{
    let n = parts.len();
    let ghost all = parts@;
    let mut parts = parts;
    let mut r: Vec<SearchBlock> = Vec::new();
    let mut c: usize = 0;
    while c < n
        invariant
            c <= n,
            n == all.len(),
            parts@ == all.skip(c as int),
            sb.generator.viejos.len() + sb.generator.nuevos.len() < usize::MAX,
            len < i32::MAX,
            r.len() == c,
            forall|c2: int|
                0 <= c2 < c ==> {
                    let base = if n == 1 {
                        sb.generator.view_g()
                    } else {
                        GenV { state: StateV::Init, ..sb.generator.view_g() }
                    };
                    &&& (#[trigger] r@[c2]).block == all[c2].block
                    &&& r@[c2].generator.view_g() == if all[c2].generated {
                        marked(base)
                    } else {
                        base
                    }
                    &&& terms_view(r@[c2].names@) == if all[c2].generated {
                        renamed_at(terms_view(sb.names@), len as int, term_view(*term))
                    } else {
                        terms_view(sb.names@)
                    }
                },
        decreases n - c,
    {
        proof {
            assert(all.skip(c as int)[0] == all[c as int]);
        }
        let part = parts.remove(0);
        proof {
            assert(parts@ =~= all.skip(c + 1));
        }
        let mut generator = if n == 1 {
            sb.generator.clone_exact()
        } else {
            sb.generator.fork()
        };
        let mut names = copy_names(&sb.names);
        if part.generated {
            generator.mark_new();
            name_position(&mut names, len, term);
        }
        let ghost rb = r@;
        r.push(SearchBlock { block: part.block, generator, names });
        proof {
            assert forall|c2: int| 0 <= c2 < c + 1 implies {
                let base = if n == 1 {
                    sb.generator.view_g()
                } else {
                    GenV { state: StateV::Init, ..sb.generator.view_g() }
                };
                &&& (#[trigger] r@[c2]).block == all[c2].block
                &&& r@[c2].generator.view_g() == if all[c2].generated {
                    marked(base)
                } else {
                    base
                }
                &&& terms_view(r@[c2].names@) == if all[c2].generated {
                    renamed_at(terms_view(sb.names@), len as int, term_view(*term))
                } else {
                    terms_view(sb.names@)
                }
            } by {
                if c2 < c {
                    assert(r@[c2] == rb[c2]);
                }
            }
        }
        c += 1;
    }
    r
}

fn copy_names(names: &Vec<Term>) -> (r: Vec<Term>)
    ensures
        terms_view(r@) == terms_view(names@),
{
    let mut r: Vec<Term> = Vec::new();
    let mut k: usize = 0;
    proof {
        lemma_terms_view(names@);
    }
    while k < names.len()
        invariant
            k <= names.len(),
            r.len() == k,
            terms_view(names@).len() == names.len(),
            forall|k2: int| 0 <= k2 < k ==> term_view(#[trigger] r@[k2]) == term_view(names@[k2]),
        decreases names.len() - k,
    {
        r.push(copy_term(&names[k]));
        k += 1;
    }
    proof {
        lemma_terms_view(r@);
        lemma_terms_view(names@);
        assert forall|k: int| 0 <= k < r.len() implies terms_view(r@)[k] == terms_view(names@)[k] by {
            assert(term_view(r@[k]) == term_view(names@[k]));
        }
        assert(terms_view(r@) =~= terms_view(names@));
    }
    r
}

/// Law: one search step proposes the generator's candidates in order. Without skipping it
/// takes the generator's next candidate as it comes; with skipping, the candidate it takes
/// splits the block, gives a new value or is undefined on some tuple, and every candidate it
/// passes over was defined and did neither. With no candidate taken, the generator is done.
pub proof fn law_next_useful(g: GenV, ts: Seq<TupleHistory>, ops: Seq<Vec<Operation>>, skip: bool, len: nat)
    requires
        gen_wf(g),
        pool_ok(g, len),
    ensures
        !skip ==> next_useful(g, ts, ops, skip, len) == gen_next(g),
        skip ==> (next_useful(g, ts, ops, skip, len).1 matches Some(c) ==> !defined_on(ts, ops[c.0]@[c.1], c.2)
            || useful(ts, ops[c.0]@[c.1], c.2)),
        skip ==> (gen_next(g).1 matches Some(c) ==> (defined_on(ts, ops[c.0]@[c.1], c.2) && !useful(
            ts,
            ops[c.0]@[c.1],
            c.2,
        ) ==> next_useful(g, ts, ops, skip, len) == next_useful(gen_next(g).0, ts, ops, skip, len))),
        next_useful(g, ts, ops, skip, len).1 is None ==> next_useful(g, ts, ops, skip, len).0.finished,
    decreases g.nuevos.len(), m_stage(g), m_arity(g), m_op(g), m_perm(g),
{
    let n = gen_next(g);
    law_generator_positions(g, len);
    law_generator_none_when_exhausted(g);
    match n.1 {
        None => {},
        Some(c) => {
            if !(!defined_on(ts, ops[c.0]@[c.1], c.2) || !skip || useful(ts, ops[c.0]@[c.1], c.2)) {
                law_next_useful(n.0, ts, ops, skip, len);
            }
        },
    }
}

} // verus!
