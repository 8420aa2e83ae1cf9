//! The candidate generator of the splitting search: it enumerates operations applied
//! to positions of the tuple histories, wave after wave, each wave forcing at least one
//! position that the previous wave added.

use vstd::prelude::*;

verus! {

/// The tuple `t` prefixed by `x`.
pub open spec fn cons(x: usize, t: Seq<usize>) -> Seq<usize> {
    seq![x] + t
}

/// The tuples of `rest` prefixed by `pool[i - 1]`, then by `pool[i - 2]`, down to `pool[0]`.
pub open spec fn prefixed(pool: Seq<usize>, i: int, rest: Seq<Seq<usize>>) -> Seq<Seq<usize>>
    decreases i,
{
    if i <= 0 {
        Seq::empty()
    } else {
        rest.map_values(|t: Seq<usize>| cons(pool[i - 1], t)) + prefixed(pool, i - 1, rest)
    }
}

/// The `n`-tuples over `pool`, in descending lexicographic order of pool positions.
pub open spec fn desc_tuples(pool: Seq<usize>, n: nat) -> Seq<Seq<usize>>
    decreases n,
{
    if n == 0 {
        seq![Seq::empty()]
    } else {
        prefixed(pool, pool.len() as int, desc_tuples(pool, (n - 1) as nat))
    }
}

/// The tuple holds one of the forced positions.
pub open spec fn touches(t: Seq<usize>, forced: Seq<usize>) -> bool {
    exists|k: int| 0 <= k < t.len() && forced.contains(#[trigger] t[k])
}

/// The tuples that hold a forced position.
pub open spec fn touch_pred(forced: Seq<usize>) -> spec_fn(Seq<usize>) -> bool {
    |t: Seq<usize>| touches(t, forced)
}

/// Views of a list of index tuples.
pub open spec fn tuples_view(v: Seq<Vec<usize>>) -> Seq<Seq<usize>> {
    v.map_values(|t: Vec<usize>| t@)
}

/// The `n`-tuples over `pool` that hold a forced position, in descending lexicographic
/// order; for `n == 0` the empty tuple alone.
pub open spec fn forced_tuples(pool: Seq<usize>, n: nat, forced: Seq<usize>) -> Seq<Seq<usize>> {
    if n == 0 {
        seq![Seq::empty()]
    } else {
        desc_tuples(pool, n).filter(touch_pred(forced))
    }
}

fn holds_forced(t: &Vec<usize>, forced: &Vec<usize>) -> (r: bool)
    ensures
        r == touches(t@, forced@),
{
    let mut k: usize = 0;
    while k < t.len()
        invariant
            k <= t.len(),
            forall|k2: int| 0 <= k2 < k ==> !forced@.contains(#[trigger] t@[k2]),
        decreases t.len() - k,
    {
        let mut j: usize = 0;
        while j < forced.len()
            invariant
                j <= forced.len(),
                k < t.len(),
                forall|j2: int| 0 <= j2 < j ==> forced@[j2] != t@[k as int],
            decreases forced.len() - j,
        {
            if forced[j] == t[k] {
                proof {
                    assert(forced@.contains(t@[k as int]));
                }
                return true;
            }
            j += 1;
        }
        k += 1;
    }
    false
}

fn cons_vec(x: usize, t: &Vec<usize>) -> (r: Vec<usize>)
    ensures
        r@ == cons(x, t@),
{
    let mut r: Vec<usize> = Vec::new();
    r.push(x);
    let mut k: usize = 0;
    while k < t.len()
        invariant
            k <= t.len(),
            r@ == cons(x, t@.take(k as int)),
        decreases t.len() - k,
    {
        r.push(t[k]);
        k += 1;
        proof {
            assert(r@ =~= cons(x, t@.take(k as int)));
        }
    }
    proof {
        assert(t@.take(t.len() as int) =~= t@);
    }
    r
}

/// The `n`-tuples over `pool` in descending lexicographic order.
fn desc_tuples_exec(pool: &Vec<usize>, n: usize) -> (r: Vec<Vec<usize>>)
    ensures
        tuples_view(r@) == desc_tuples(pool@, n as nat),
{
    let mut cur: Vec<Vec<usize>> = Vec::new();
    let e: Vec<usize> = Vec::new();
    cur.push(e);
    proof {
        assert(tuples_view(cur@).len() == 1);
        assert(tuples_view(cur@)[0] == cur@[0]@);
        assert(cur@[0]@ =~= Seq::<usize>::empty());
        assert(tuples_view(cur@) =~= desc_tuples(pool@, 0));
    }
    let mut level: usize = 0;
    while level < n
        invariant
            level <= n,
            tuples_view(cur@) == desc_tuples(pool@, level as nat),
        decreases n - level,
    {
        let ghost rest = tuples_view(cur@);
        let mut next: Vec<Vec<usize>> = Vec::new();
        let mut i: usize = pool.len();
        proof {
            assert(tuples_view(next@) =~= Seq::<Seq<usize>>::empty());
            assert(prefixed(pool@, pool.len() as int, rest) =~= tuples_view(next@) + prefixed(pool@, i as int, rest));
        }
        while i > 0
            invariant
                i <= pool.len(),
                tuples_view(cur@) == rest,
                tuples_view(next@) + prefixed(pool@, i as int, rest) == prefixed(pool@, pool.len() as int, rest),
            decreases i,
        {
            let x = pool[i - 1];
            let ghost before = tuples_view(next@);
            let mut j: usize = 0;
            while j < cur.len()
                invariant
                    j <= cur.len(),
                    i > 0,
                    i <= pool.len(),
                    x == pool@[i - 1],
                    tuples_view(cur@) == rest,
                    tuples_view(next@) == before + rest.take(j as int).map_values(|t: Seq<usize>| cons(x, t)),
                decreases cur.len() - j,
            {
                let row = cons_vec(x, &cur[j]);
                let ghost np = tuples_view(next@);
                let ghost rv = row@;
                next.push(row);
                proof {
                    assert(tuples_view(next@) =~= np.push(rv));
                    assert(tuples_view(cur@)[j as int] == cur@[j as int]@);
                    assert(rest.take(j + 1) =~= rest.take(j as int).push(rest[j as int]));
                    assert(tuples_view(next@) =~= before + rest.take(j + 1).map_values(|t: Seq<usize>| cons(x, t)));
                }
                j += 1;
            }
            proof {
                assert(rest.take(cur.len() as int) =~= rest);
                let p = prefixed(pool@, i as int, rest);
                assert(p == rest.map_values(|t: Seq<usize>| cons(pool@[i - 1], t)) + prefixed(pool@, i - 1, rest));
                assert(tuples_view(next@) + prefixed(pool@, i - 1, rest) =~= before + p);
            }
            i -= 1;
        }
        proof {
            assert(tuples_view(next@) =~= prefixed(pool@, pool.len() as int, rest));
        }
        cur = next;
        level += 1;
    }
    cur
}

/// The `n`-tuples over `pool` holding a forced position, as the generator enumerates them.
pub fn forced_tuples_exec(pool: &Vec<usize>, n: usize, forced: &Vec<usize>) -> (r: Vec<Vec<usize>>)
    ensures
        tuples_view(r@) == forced_tuples(pool@, n as nat, forced@),
{
    if n == 0 {
        let mut r: Vec<Vec<usize>> = Vec::new();
        let e: Vec<usize> = Vec::new();
        r.push(e);
        proof {
            assert(tuples_view(r@).len() == 1);
            assert(tuples_view(r@)[0] == r@[0]@);
            assert(r@[0]@ =~= Seq::<usize>::empty());
            assert(tuples_view(r@) =~= forced_tuples(pool@, 0, forced@));
        }
        return r;
    }
    let all = desc_tuples_exec(pool, n);
    let ghost av = tuples_view(all@);
    let mut r: Vec<Vec<usize>> = Vec::new();
    let mut k: usize = 0;
    proof {
        reveal(Seq::filter);
        assert(av.take(0).filter(touch_pred(forced@)) =~= Seq::<Seq<usize>>::empty());
        assert(tuples_view(r@) =~= Seq::<Seq<usize>>::empty());
    }
    while k < all.len()
        invariant
            k <= all.len(),
            av == tuples_view(all@),
            tuples_view(r@) == av.take(k as int).filter(touch_pred(forced@)),
        decreases all.len() - k,
    {
        proof {
            reveal(Seq::filter);
            let s1 = av.take(k + 1);
            let pr = touch_pred(forced@);
            assert(s1.len() > 0);
            assert(s1.filter(pr) == if pr(s1.last()) {
                s1.drop_last().filter(pr).push(s1.last())
            } else {
                s1.drop_last().filter(pr)
            });
            assert(pr(av[k as int]) == touches(av[k as int], forced@));
            assert(av.take(k + 1).drop_last() =~= av.take(k as int));
            assert(av[k as int] == all@[k as int]@);
        }
        if holds_forced(&all[k], forced) {
            let row = cons_tail(&all[k]);
            let ghost rb = tuples_view(r@);
            let ghost rv = row@;
            r.push(row);
            proof {
                assert(tuples_view(r@) =~= rb.push(rv));
                assert(av.take(k + 1).last() == av[k as int]);
                assert(tuples_view(r@) =~= av.take(k + 1).filter(touch_pred(forced@)));
            }
        } else {
            proof {
                assert(av.take(k + 1).last() == av[k as int]);
                assert(tuples_view(r@) =~= av.take(k + 1).filter(touch_pred(forced@)));
            }
        }
        k += 1;
    }
    proof {
        assert(av.take(all.len() as int) =~= av);
    }
    r
}

fn cons_tail(t: &Vec<usize>) -> (r: Vec<usize>)
    ensures
        r@ == t@,
{
    let mut r: Vec<usize> = Vec::new();
    let mut k: usize = 0;
    while k < t.len()
        invariant
            k <= t.len(),
            r@ == t@.take(k as int),
        decreases t.len() - k,
    {
        r.push(t[k]);
        k += 1;
        proof {
            assert(r@ =~= t@.take(k as int));
        }
    }
    proof {
        assert(t@.take(t.len() as int) =~= t@);
    }
    r
}

/// Where the generator stands inside a wave.
#[derive(Clone)]
pub enum GenState {
    Init,
    Iter { arities: Vec<usize>, arity_idx: usize, op_idx: usize, perm_idx: usize, perms: Vec<Vec<usize>> },
}

/// The candidate generator: the arities that have operations (ascending) with the
/// number of operations of each, the positions of earlier waves (`viejos`) and of the
/// current one (`nuevos`), and where it stands.
#[derive(Clone)]
pub struct CandidateGenerator {
    pub keys: Vec<usize>,
    pub sizes: Vec<usize>,
    pub viejos: Vec<usize>,
    pub nuevos: Vec<usize>,
    pub finished: bool,
    pub state: GenState,
}

/// View of where the generator stands.
pub enum StateV {
    Init,
    Iter(Seq<usize>, int, int, int, Seq<Seq<usize>>),
}

/// View of the generator.
pub struct GenV {
    pub keys: Seq<usize>,
    pub sizes: Seq<usize>,
    pub viejos: Seq<usize>,
    pub nuevos: Seq<usize>,
    pub finished: bool,
    pub state: StateV,
}

/// A candidate: the arity group, the operation inside it, and the positions.
pub type CandV = (int, int, Seq<usize>);

/// Position of `a` among the keys (`-1` when absent).
pub open spec fn key_index(keys: Seq<usize>, a: usize) -> int
    decreases keys.len(),
{
    if keys.len() == 0 {
        -1
    } else if keys.last() == a {
        keys.len() - 1
    } else {
        key_index(keys.drop_last(), a)
    }
}

/// The positive keys, in order.
pub open spec fn positive_keys(keys: Seq<usize>) -> Seq<usize>
    decreases keys.len(),
{
    if keys.len() == 0 {
        Seq::empty()
    } else if keys.last() > 0 {
        positive_keys(keys.drop_last()).push(keys.last())
    } else {
        positive_keys(keys.drop_last())
    }
}

/// Number of operations of arity `a` (0 when there are none).
pub open spec fn size_of(g: GenV, a: usize) -> int {
    let i = key_index(g.keys, a);
    if 0 <= i < g.sizes.len() {
        g.sizes[i] as int
    } else {
        0
    }
}

pub open spec fn clamp(x: int) -> nat {
    if x < 0 {
        0
    } else {
        x as nat
    }
}

pub open spec fn m_stage(g: GenV) -> nat {
    if g.state is Init {
        1
    } else {
        0
    }
}

pub open spec fn m_arity(g: GenV) -> nat {
    match g.state {
        StateV::Iter(ar, ai, _, _, _) => clamp(ar.len() - ai),
        StateV::Init => 0,
    }
}

pub open spec fn m_op(g: GenV) -> nat {
    match g.state {
        StateV::Iter(ar, ai, oi, _, _) => if 0 <= ai < ar.len() {
            clamp(size_of(g, ar[ai]) - oi)
        } else {
            0
        },
        StateV::Init => 0,
    }
}

pub open spec fn m_perm(g: GenV) -> nat {
    match g.state {
        StateV::Iter(_, _, _, pi, perms) => clamp(perms.len() - pi),
        StateV::Init => 0,
    }
}

/// The generator with a new state.
pub open spec fn with_state(g: GenV, st: StateV) -> GenV {
    GenV { state: st, ..g }
}

/// The generator marked exhausted.
pub open spec fn exhausted(g: GenV) -> GenV {
    GenV { finished: true, ..g }
}

/// Start of the next wave: the positions of this wave join the earlier ones, and the
/// first arity is enumerated over them with at least one position of this wave.
pub open spec fn next_wave(g: GenV, ar: Seq<usize>) -> GenV {
    let v = g.viejos + g.nuevos;
    GenV {
        viejos: v,
        nuevos: Seq::empty(),
        state: StateV::Iter(ar, 0, 0, 0, forced_tuples(v, ar[0] as nat, g.nuevos)),
        ..g
    }
}

/// One call of the generator: its state after the call and the candidate it gives,
/// `None` when it has no more.
pub open spec fn gen_next(g: GenV) -> (GenV, Option<CandV>)
    decreases g.nuevos.len(), m_stage(g), m_arity(g), m_op(g), m_perm(g),
{
    match g.state {
        StateV::Init => {
            let z = key_index(g.keys, 0);
            if 0 <= z < g.sizes.len() && g.sizes[z] > 0 {
                (with_state(g, StateV::Iter(seq![0usize], 0, 1, 0, seq![Seq::empty()])), Some((z, 0, Seq::empty())))
            } else {
                let pos = positive_keys(g.keys);
                if pos.len() == 0 && z < 0 {
                    (exhausted(g), None)
                } else {
                    let perms = if g.nuevos.len() > 0 && pos.len() > 0 {
                        forced_tuples(g.viejos + g.nuevos, pos[0] as nat, g.nuevos)
                    } else {
                        Seq::empty()
                    };
                    gen_next(with_state(g, StateV::Iter(pos, 0, 0, 0, perms)))
                }
            }
        },
        StateV::Iter(ar, ai, oi, pi, perms) => {
            if ar.len() == 0 {
                if g.nuevos.len() == 0 {
                    (exhausted(g), None)
                } else {
                    (g, None)
                }
            } else if ai >= ar.len() || ai < 0 {
                if g.nuevos.len() == 0 {
                    (exhausted(g), None)
                } else {
                    gen_next(next_wave(g, ar))
                }
            } else {
                let gi = key_index(g.keys, ar[ai]);
                if !(0 <= gi < g.sizes.len()) {
                    (g, None)
                } else if oi >= g.sizes[gi] {
                    if ai + 1 >= ar.len() {
                        if g.nuevos.len() == 0 {
                            (exhausted(with_state(g, StateV::Iter(ar, ai + 1, 0, 0, perms))), None)
                        } else {
                            gen_next(next_wave(g, ar))
                        }
                    } else {
                        gen_next(
                            with_state(
                                g,
                                StateV::Iter(ar, ai + 1, 0, 0, forced_tuples(g.viejos + g.nuevos, ar[ai + 1] as nat, g.nuevos)),
                            ),
                        )
                    }
                } else if pi >= perms.len() || pi < 0 {
                    gen_next(with_state(g, StateV::Iter(ar, ai, oi + 1, 0, perms)))
                } else {
                    (with_state(g, StateV::Iter(ar, ai, oi, pi + 1, perms)), Some((gi, oi, perms[pi])))
                }
            }
        },
    }
}

impl CandidateGenerator {
    pub open spec fn view_g(&self) -> GenV {
        GenV {
            keys: self.keys@,
            sizes: self.sizes@,
            viejos: self.viejos@,
            nuevos: self.nuevos@,
            finished: self.finished,
            state: match self.state {
                GenState::Init => StateV::Init,
                GenState::Iter { arities, arity_idx, op_idx, perm_idx, perms } => StateV::Iter(
                    arities@,
                    arity_idx as int,
                    op_idx as int,
                    perm_idx as int,
                    tuples_view(perms@),
                ),
            },
        }
    }
}

proof fn lemma_key_index(keys: Seq<usize>, a: usize)
    ensures
        -1 <= key_index(keys, a) < keys.len(),
        key_index(keys, a) >= 0 ==> keys[key_index(keys, a)] == a,
    decreases keys.len(),
{
    if keys.len() > 0 && keys.last() != a {
        lemma_key_index(keys.drop_last(), a);
    }
}

fn key_index_exec(keys: &Vec<usize>, a: usize) -> (r: Option<usize>)
    ensures
        match r {
            Some(i) => i == key_index(keys@, a) && i < keys.len(),
            None => key_index(keys@, a) < 0,
        },
{
    let mut i: usize = keys.len();
    proof {
        assert(keys@.take(i as int) =~= keys@);
    }
    while i > 0
        invariant
            i <= keys.len(),
            key_index(keys@, a) == key_index(keys@.take(i as int), a),
        decreases i,
    {
        proof {
            assert(keys@.take(i as int).drop_last() =~= keys@.take(i - 1));
            assert(keys@.take(i as int).last() == keys@[i - 1]);
        }
        if keys[i - 1] == a {
            return Some(i - 1);
        }
        i -= 1;
    }
    None
}

fn positive_keys_exec(keys: &Vec<usize>) -> (r: Vec<usize>)
    ensures
        r@ == positive_keys(keys@),
{
    let mut r: Vec<usize> = Vec::new();
    let mut i: usize = 0;
    proof {
        assert(keys@.take(0) =~= Seq::<usize>::empty());
    }
    while i < keys.len()
        invariant
            i <= keys.len(),
            r@ == positive_keys(keys@.take(i as int)),
        decreases keys.len() - i,
    {
        proof {
            assert(keys@.take(i + 1).drop_last() =~= keys@.take(i as int));
            assert(keys@.take(i + 1).last() == keys@[i as int]);
        }
        if keys[i] > 0 {
            r.push(keys[i]);
        }
        i += 1;
    }
    proof {
        assert(keys@.take(keys.len() as int) =~= keys@);
    }
    r
}

fn concat_vec(a: &Vec<usize>, b: &Vec<usize>) -> (r: Vec<usize>)
    ensures
        r@ == a@ + b@,
{
    let mut r = cons_tail(a);
    let mut i: usize = 0;
    while i < b.len()
        invariant
            i <= b.len(),
            r@ == a@ + b@.take(i as int),
        decreases b.len() - i,
    {
        r.push(b[i]);
        i += 1;
        proof {
            assert(r@ =~= a@ + b@.take(i as int));
        }
    }
    proof {
        assert(b@.take(b.len() as int) =~= b@);
    }
    r
}

impl CandidateGenerator {
    /// A generator over operations with the given arities (ascending, each with its
    /// number of operations), starting with the positions `0..arity` as the first wave.
    pub fn new(keys: Vec<usize>, sizes: Vec<usize>, arity: usize) -> (g: Self)
        ensures
            keys.len() == sizes.len() && (forall|i: int| 0 <= i < sizes.len() ==> #[trigger] sizes@[i] > 0) ==> gen_wf(
                g.view_g(),
            ),
            g.view_g() == (GenV {
                keys: keys@,
                sizes: sizes@,
                viejos: Seq::empty(),
                nuevos: Seq::new(arity as nat, |i: int| i as usize),
                finished: false,
                state: StateV::Init,
            }),
    {
        let mut nuevos: Vec<usize> = Vec::new();
        let mut i: usize = 0;
        while i < arity
            invariant
                i <= arity,
                nuevos@ == Seq::new(i as nat, |k: int| k as usize),
            decreases arity - i,
        {
            nuevos.push(i);
            i += 1;
            proof {
                assert(nuevos@ =~= Seq::new(i as nat, |k: int| k as usize));
            }
        }
        let g = CandidateGenerator { keys, sizes, viejos: Vec::new(), nuevos, finished: false, state: GenState::Init };
        proof {
            assert(g.view_g().viejos =~= Seq::<usize>::empty());
        }
        g
    }

    /// The last candidate produced a new value: its position joins the current wave.
    pub fn mark_new(&mut self)
        requires
            old(self).viejos.len() + old(self).nuevos.len() < usize::MAX,
        ensures
            gen_wf(old(self).view_g()) ==> gen_wf(final(self).view_g()),
            forall|len: nat| pool_ok(old(self).view_g(), len) ==> #[trigger] pool_ok(final(self).view_g(), len + 1),
            final(self).view_g() == (GenV {
                nuevos: old(self).view_g().nuevos.push((old(self).viejos.len() + old(self).nuevos.len()) as usize),
                ..old(self).view_g()
            }),
    {
        let n = self.viejos.len() + self.nuevos.len();
        let ghost old_g = self.view_g();
        self.nuevos.push(n);
        proof {
            assert forall|len: nat| pool_ok(old_g, len) implies #[trigger] pool_ok(self.view_g(), len + 1) by {
                let g = self.view_g();
                assert forall|k: int| 0 <= k < g.nuevos.len() implies #[trigger] g.nuevos[k] < len + 1 by {
                    if k < old_g.nuevos.len() {
                        assert(g.nuevos[k] == old_g.nuevos[k]);
                    }
                }
                assert forall|k: int| 0 <= k < g.viejos.len() implies #[trigger] g.viejos[k] < len + 1 by {
                    assert(g.viejos[k] == old_g.viejos[k]);
                }
                match g.state {
                    StateV::Iter(ar, ai, oi, pi, perms) => {
                        assert forall|m: int| 0 <= m < perms.len() implies below(#[trigger] perms[m], len + 1) by {
                            assert(below(perms[m], len));
                        }
                    },
                    StateV::Init => {},
                }
            }
        }
    }

    /// A copy of the generator, standing where it stands.
    pub fn clone_exact(&self) -> (g: Self)
        ensures
            g.view_g() == self.view_g(),
    {
        let state = match &self.state {
            GenState::Init => GenState::Init,
            GenState::Iter { arities, arity_idx, op_idx, perm_idx, perms } => {
                let mut ps: Vec<Vec<usize>> = Vec::new();
                let mut m: usize = 0;
                while m < perms.len()
                    invariant
                        m <= perms.len(),
                        tuples_view(ps@) == tuples_view(perms@).take(m as int),
                    decreases perms.len() - m,
                {
                    let ghost pb = ps@;
                    let row = cons_tail(&perms[m]);
                    let ghost rv = row@;
                    ps.push(row);
                    proof {
                        assert(tuples_view(ps@) =~= tuples_view(pb).push(rv));
                        assert(rv == tuples_view(perms@)[m as int]);
                        assert(tuples_view(perms@).take(m + 1) =~= tuples_view(perms@).take(m as int).push(rv));
                    }
                    m += 1;
                }
                proof {
                    assert(tuples_view(perms@).take(perms.len() as int) =~= tuples_view(perms@));
                }
                GenState::Iter {
                    arities: cons_tail(arities),
                    arity_idx: *arity_idx,
                    op_idx: *op_idx,
                    perm_idx: *perm_idx,
                    perms: ps,
                }
            },
        };
        CandidateGenerator {
            keys: cons_tail(&self.keys),
            sizes: cons_tail(&self.sizes),
            viejos: cons_tail(&self.viejos),
            nuevos: cons_tail(&self.nuevos),
            finished: self.finished,
            state,
        }
    }

    /// A fresh generator for a part of a split block: the same operations and
    /// positions, starting over.
    pub fn fork(&self) -> (g: Self)
        ensures
            gen_wf(self.view_g()) ==> gen_wf(g.view_g()),
            forall|len: nat| pool_ok(self.view_g(), len) ==> #[trigger] pool_ok(g.view_g(), len),
            g.view_g() == (GenV { state: StateV::Init, ..self.view_g() }),
    {
        CandidateGenerator {
            keys: cons_tail(&self.keys),
            sizes: cons_tail(&self.sizes),
            viejos: cons_tail(&self.viejos),
            nuevos: cons_tail(&self.nuevos),
            finished: self.finished,
            state: GenState::Init,
        }
    }

    /// The next candidate in the enumeration order (`gen_next`): the arity group, the
    /// operation in it, and the positions it is applied to; `None` when there is none.
    pub fn next_candidate(&mut self) -> (r: Option<(usize, usize, Vec<usize>)>)
        ensures
            final(self).view_g() == gen_next(old(self).view_g()).0,
            match r {
                Some(c) => gen_next(old(self).view_g()).1 == Some((c.0 as int, c.1 as int, c.2@)),
                None => gen_next(old(self).view_g()).1 is None,
            },
    {
        let ghost target = gen_next(self.view_g());
        loop
            invariant
                gen_next(self.view_g()) == target,
                target == gen_next(old(self).view_g()),
            decreases self.nuevos@.len(), m_stage(self.view_g()), m_arity(self.view_g()), m_op(self.view_g()), m_perm(
                self.view_g(),
            ),
        {
            let ghost g0 = self.view_g();
            let mut st = GenState::Init;
            std::mem::swap(&mut st, &mut self.state);
            match st {
                GenState::Init => {
                    let z = key_index_exec(&self.keys, 0);
                    proof {
                        lemma_key_index(self.keys@, 0);
                    }
                    let zc = match z {
                        Some(zi) => zi < self.sizes.len() && self.sizes[zi] > 0,
                        None => false,
                    };
                    if zc {
                        let zi = z.unwrap();
                        let mut perms: Vec<Vec<usize>> = Vec::new();
                        let e: Vec<usize> = Vec::new();
                        perms.push(e);
                        let mut ar: Vec<usize> = Vec::new();
                        ar.push(0);
                        self.state = GenState::Iter { arities: ar, arity_idx: 0, op_idx: 1, perm_idx: 0, perms };
                        proof {
                            assert(ar@ =~= seq![0usize]);
                            assert(tuples_view(perms@) =~= seq![Seq::<usize>::empty()]);
                            assert(self.view_g() == with_state(g0, StateV::Iter(seq![0usize], 0, 1, 0, seq![Seq::empty()])));
                        }
                        return Some((zi, 0, Vec::new()));
                    }
                    let pos = positive_keys_exec(&self.keys);
                    if pos.len() == 0 && z.is_none() {
                        self.finished = true;
                        return None;
                    }
                    let perms = if self.nuevos.len() > 0 && pos.len() > 0 {
                        let pool = concat_vec(&self.viejos, &self.nuevos);
                        forced_tuples_exec(&pool, pos[0], &self.nuevos)
                    } else {
                        Vec::new()
                    };
                    self.state = GenState::Iter { arities: pos, arity_idx: 0, op_idx: 0, perm_idx: 0, perms };
                    proof {
                        if !(self.nuevos.len() > 0 && pos.len() > 0) {
                            assert(tuples_view(perms@) =~= Seq::<Seq<usize>>::empty());
                        }
                    }
                },
                GenState::Iter { arities, arity_idx, op_idx, perm_idx, perms } => {
                    let ghost pv = tuples_view(perms@);
                    if arities.len() == 0 {
                        self.state = GenState::Iter { arities, arity_idx, op_idx, perm_idx, perms };
                        if self.nuevos.len() == 0 {
                            self.finished = true;
                        }
                        return None;
                    }
                    if arity_idx >= arities.len() {
                        if self.nuevos.len() == 0 {
                            self.state = GenState::Iter { arities, arity_idx, op_idx, perm_idx, perms };
                            self.finished = true;
                            return None;
                        }
                        self.start_wave(arities);
                    } else {
                        let gi = key_index_exec(&self.keys, arities[arity_idx]);
                        proof {
                            lemma_key_index(self.keys@, arities@[arity_idx as int]);
                        }
                        let gok = match gi {
                            Some(i) => i < self.sizes.len(),
                            None => false,
                        };
                        if !gok {
                            self.state = GenState::Iter { arities, arity_idx, op_idx, perm_idx, perms };
                            return None;
                        }
                        let gi = gi.unwrap();
                        if op_idx >= self.sizes[gi] {
                            if arity_idx + 1 >= arities.len() {
                                if self.nuevos.len() == 0 {
                                    self.state = GenState::Iter {
                                        arities,
                                        arity_idx: arity_idx + 1,
                                        op_idx: 0,
                                        perm_idx: 0,
                                        perms,
                                    };
                                    self.finished = true;
                                    return None;
                                }
                                self.start_wave(arities);
                            } else {
                                let pool = concat_vec(&self.viejos, &self.nuevos);
                                let next = forced_tuples_exec(&pool, arities[arity_idx + 1], &self.nuevos);
                                self.state = GenState::Iter {
                                    arities,
                                    arity_idx: arity_idx + 1,
                                    op_idx: 0,
                                    perm_idx: 0,
                                    perms: next,
                                };
                            }
                        } else if perm_idx >= perms.len() {
                            self.state = GenState::Iter { arities, arity_idx, op_idx: op_idx + 1, perm_idx: 0, perms };
                        } else {
                            let ti = cons_tail(&perms[perm_idx]);
                            proof {
                                assert(pv[perm_idx as int] == perms@[perm_idx as int]@);
                            }
                            self.state = GenState::Iter { arities, arity_idx, op_idx, perm_idx: perm_idx + 1, perms };
                            return Some((gi, op_idx, ti));
                        }
                    }
                },
            }
        }
    }

    /// Starts the next wave over the arities `ar` (the current wave must be non-empty).
    fn start_wave(&mut self, ar: Vec<usize>)
        requires
            ar.len() > 0,
            old(self).nuevos.len() > 0,
        ensures
            final(self).view_g() == next_wave(old(self).view_g(), ar@),
    {
        let forced = cons_tail(&self.nuevos);
        let pool = concat_vec(&self.viejos, &self.nuevos);
        let perms = forced_tuples_exec(&pool, ar[0], &forced);
        let pool2 = cons_tail(&pool);
        self.viejos = pool2;
        self.nuevos = Vec::new();
        self.state = GenState::Iter { arities: ar, arity_idx: 0, op_idx: 0, perm_idx: 0, perms };
        proof {
            assert(self.view_g().nuevos =~= Seq::<usize>::empty());
        }
    }
}

/// The generator is well formed: one count per arity, every count positive, and
/// inside a wave the arities it walks are non-empty and all have operations.
pub open spec fn gen_wf(g: GenV) -> bool {
    &&& g.keys.len() == g.sizes.len()
    &&& forall|i: int| 0 <= i < g.sizes.len() ==> #[trigger] g.sizes[i] > 0
    &&& match g.state {
        StateV::Iter(ar, _, _, _, _) => ar.len() > 0 && forall|k: int| 0 <= k < ar.len() ==> key_index(g.keys, #[trigger] ar[k]) >= 0,
        StateV::Init => true,
    }
}

proof fn lemma_key_index_present(keys: Seq<usize>, a: usize)
    requires
        keys.contains(a),
    ensures
        key_index(keys, a) >= 0,
    decreases keys.len(),
{
    if keys.last() != a {
        let w = choose|w: int| 0 <= w < keys.len() && keys[w] == a;
        assert(keys.drop_last()[w] == a);
        lemma_key_index_present(keys.drop_last(), a);
    }
}

proof fn lemma_positive_keys(keys: Seq<usize>)
    ensures
        forall|k: int| 0 <= k < positive_keys(keys).len() ==> keys.contains(#[trigger] positive_keys(keys)[k]),
    decreases keys.len(),
{
    if keys.len() > 0 {
        lemma_positive_keys(keys.drop_last());
        assert forall|k: int| 0 <= k < positive_keys(keys).len() implies keys.contains(#[trigger] positive_keys(keys)[k]) by {
            let p = positive_keys(keys.drop_last());
            if k < p.len() {
                assert(positive_keys(keys)[k] == p[k]);
                let w = choose|w: int| 0 <= w < keys.drop_last().len() && keys.drop_last()[w] == p[k];
                assert(keys[w] == p[k]);
            } else {
                assert(positive_keys(keys)[k] == keys.last());
                assert(keys[keys.len() - 1] == keys.last());
            }
        }
    }
}

/// Law: a well-formed generator stays well formed, and it answers `None` only once
/// it is exhausted.
pub proof fn law_generator_none_when_exhausted(g: GenV)
    requires
        gen_wf(g),
    ensures
        gen_wf(gen_next(g).0),
        gen_next(g).1 is None ==> gen_next(g).0.finished,
    decreases g.nuevos.len(), m_stage(g), m_arity(g), m_op(g), m_perm(g),
{
    match g.state {
        StateV::Init => {
            let z = key_index(g.keys, 0);
            lemma_key_index(g.keys, 0);
            if 0 <= z < g.sizes.len() && g.sizes[z] > 0 {
                let st = StateV::Iter(seq![0usize], 0, 1, 0, seq![Seq::<usize>::empty()]);
                assert(seq![0usize][0] == 0usize);
            } else {
                let pos = positive_keys(g.keys);
                if !(pos.len() == 0 && z < 0) {
                    if pos.len() == 0 {
                        assert(z >= 0);
                        assert(g.sizes[z] > 0);
                    }
                    lemma_positive_keys(g.keys);
                    assert forall|k: int| 0 <= k < pos.len() implies key_index(g.keys, #[trigger] pos[k]) >= 0 by {
                        lemma_key_index_present(g.keys, pos[k]);
                    }
                    let perms = if g.nuevos.len() > 0 && pos.len() > 0 {
                        forced_tuples(g.viejos + g.nuevos, pos[0] as nat, g.nuevos)
                    } else {
                        Seq::empty()
                    };
                    law_generator_none_when_exhausted(with_state(g, StateV::Iter(pos, 0, 0, 0, perms)));
                }
            }
        },
        StateV::Iter(ar, ai, oi, pi, perms) => {
            if ar.len() == 0 {
            } else if ai >= ar.len() || ai < 0 {
                if g.nuevos.len() > 0 {
                    law_generator_none_when_exhausted(next_wave(g, ar));
                }
            } else {
                let gi = key_index(g.keys, ar[ai]);
                lemma_key_index(g.keys, ar[ai]);
                assert(gi >= 0);
                if oi >= g.sizes[gi] {
                    if ai + 1 >= ar.len() {
                        if g.nuevos.len() > 0 {
                            law_generator_none_when_exhausted(next_wave(g, ar));
                        }
                    } else {
                        law_generator_none_when_exhausted(
                            with_state(
                                g,
                                StateV::Iter(ar, ai + 1, 0, 0, forced_tuples(g.viejos + g.nuevos, ar[ai + 1] as nat, g.nuevos)),
                            ),
                        );
                    }
                } else if pi >= perms.len() || pi < 0 {
                    law_generator_none_when_exhausted(with_state(g, StateV::Iter(ar, ai, oi + 1, 0, perms)));
                }
            }
        },
    }
}

/// Every position of the tuple is below `bound`.
pub open spec fn below(t: Seq<usize>, bound: nat) -> bool {
    forall|k: int| 0 <= k < t.len() ==> #[trigger] t[k] < bound
}

/// The positions the generator holds are the positions of histories of length `len`:
/// as many as `len`, all below it, and inside a wave every tuple of positions has the
/// arity walked and positions below `len`.
pub open spec fn pool_ok(g: GenV, len: nat) -> bool {
    &&& g.viejos.len() + g.nuevos.len() == len
    &&& below(g.viejos, len)
    &&& below(g.nuevos, len)
    &&& match g.state {
        StateV::Iter(ar, ai, oi, pi, perms) => ai >= 0 && oi >= 0 && pi >= 0 && forall|m: int|
            0 <= m < perms.len() ==> below(#[trigger] perms[m], len) && (0 <= ai < ar.len() ==> perms[m].len()
                == ar[ai]),
        StateV::Init => true,
    }
}

/// The measure the generator decreases.
pub open spec fn gen_measure_lt(a: GenV, b: GenV) -> bool {
    ||| a.nuevos.len() < b.nuevos.len()
    ||| (a.nuevos.len() == b.nuevos.len() && m_stage(a) < m_stage(b))
    ||| (a.nuevos.len() == b.nuevos.len() && m_stage(a) == m_stage(b) && m_arity(a) < m_arity(b))
    ||| (a.nuevos.len() == b.nuevos.len() && m_stage(a) == m_stage(b) && m_arity(a) == m_arity(b) && m_op(a) < m_op(
        b,
    ))
    ||| (a.nuevos.len() == b.nuevos.len() && m_stage(a) == m_stage(b) && m_arity(a) == m_arity(b) && m_op(a) == m_op(b)
        && m_perm(a) < m_perm(b))
}

proof fn lemma_desc_tuples_shape(pool: Seq<usize>, n: nat, bound: nat)
    requires
        below(pool, bound),
    ensures
        forall|m: int| 0 <= m < desc_tuples(pool, n).len() ==> below(#[trigger] desc_tuples(pool, n)[m], bound) && desc_tuples(
            pool,
            n,
        )[m].len() == n,
    decreases n,
{
    if n > 0 {
        lemma_desc_tuples_shape(pool, (n - 1) as nat, bound);
        lemma_prefixed_shape(pool, pool.len() as int, desc_tuples(pool, (n - 1) as nat), bound, (n - 1) as nat);
    }
}

proof fn lemma_prefixed_shape(pool: Seq<usize>, i: int, rest: Seq<Seq<usize>>, bound: nat, n: nat)
    requires
        below(pool, bound),
        i <= pool.len(),
        forall|m: int| 0 <= m < rest.len() ==> below(#[trigger] rest[m], bound) && rest[m].len() == n,
    ensures
        forall|m: int| 0 <= m < prefixed(pool, i, rest).len() ==> below(#[trigger] prefixed(pool, i, rest)[m], bound)
            && prefixed(pool, i, rest)[m].len() == n + 1,
    decreases i,
{
    if i > 0 {
        lemma_prefixed_shape(pool, i - 1, rest, bound, n);
        let front = rest.map_values(|t: Seq<usize>| cons(pool[i - 1], t));
        let back = prefixed(pool, i - 1, rest);
        assert forall|m: int| 0 <= m < prefixed(pool, i, rest).len() implies below(#[trigger] prefixed(pool, i, rest)[m], bound)
            && prefixed(pool, i, rest)[m].len() == n + 1 by {
            if m < front.len() {
                assert(prefixed(pool, i, rest)[m] == front[m]);
                assert(front[m] == cons(pool[i - 1], rest[m]));
                assert forall|k: int| 0 <= k < front[m].len() implies #[trigger] front[m][k] < bound by {
                    if k > 0 {
                        assert(front[m][k] == rest[m][k - 1]);
                    }
                }
            } else {
                assert(prefixed(pool, i, rest)[m] == back[m - front.len()]);
            }
        }
    }
}

proof fn lemma_forced_tuples_shape(pool: Seq<usize>, n: nat, forced: Seq<usize>, bound: nat)
    requires
        below(pool, bound),
    ensures
        forall|m: int| 0 <= m < forced_tuples(pool, n, forced).len() ==> below(#[trigger] forced_tuples(pool, n, forced)[m], bound)
            && forced_tuples(pool, n, forced)[m].len() == n,
{
    if n > 0 {
        lemma_desc_tuples_shape(pool, n, bound);
        let d = desc_tuples(pool, n);
        let f = forced_tuples(pool, n, forced);
        d.filter_lemma(touch_pred(forced));
        assert forall|m: int| 0 <= m < f.len() implies below(#[trigger] f[m], bound) && f[m].len() == n by {
            assert(f.contains(f[m]));
            d.lemma_filter_contains_rev(touch_pred(forced), f[m]);
            assert(d.contains(f[m]));
            let w = choose|w: int| 0 <= w < d.len() && d[w] == f[m];
            assert(below(d[w], bound));
        }
    } else {
        assert(forced_tuples(pool, n, forced)[0] =~= Seq::<usize>::empty());
    }
}

proof fn lemma_below_concat(a: Seq<usize>, b: Seq<usize>, bound: nat)
    requires
        below(a, bound),
        below(b, bound),
    ensures
        below(a + b, bound),
{
    assert forall|k: int| 0 <= k < (a + b).len() implies #[trigger] (a + b)[k] < bound by {
        if k < a.len() {
            assert((a + b)[k] == a[k]);
        } else {
            assert((a + b)[k] == b[k - a.len()]);
        }
    }
}

/// Law: the generator keeps its positions those of histories of length `len`, gives
/// tuples of positions of the arity of the operation's group and below `len`, and each
/// candidate it gives lowers its measure.
pub proof fn law_generator_positions(g: GenV, len: nat)
    requires
        gen_wf(g),
        pool_ok(g, len),
    ensures
        pool_ok(gen_next(g).0, len),
        gen_next(g).0.viejos + gen_next(g).0.nuevos == g.viejos + g.nuevos || gen_next(g).0.nuevos.len() == 0,
        gen_next(g).1 matches Some(c) ==> 0 <= c.0 < g.keys.len() && c.2.len() == g.keys[c.0] && below(c.2, len) && 0 <= c.1 < g.sizes[c.0],
        gen_next(g).1 is Some ==> gen_measure_lt(gen_next(g).0, g),
        gen_next(g).0.keys == g.keys,
        gen_next(g).0.sizes == g.sizes,
    decreases g.nuevos.len(), m_stage(g), m_arity(g), m_op(g), m_perm(g),
{
    lemma_below_concat(g.viejos, g.nuevos, len);
    match g.state {
        StateV::Init => {
            let z = key_index(g.keys, 0);
            lemma_key_index(g.keys, 0);
            if 0 <= z < g.sizes.len() && g.sizes[z] > 0 {
                assert(seq![0usize][0] == 0usize);
                assert(seq![Seq::<usize>::empty()][0] =~= Seq::<usize>::empty());
                assert(g.keys[z] == 0);
                assert(gen_next(g).1 == Some((z, 0int, Seq::<usize>::empty())));
                assert(below(Seq::<usize>::empty(), len));
            } else {
                let pos = positive_keys(g.keys);
                if !(pos.len() == 0 && z < 0) {
                    if pos.len() == 0 {
                        assert(g.sizes[z] > 0);
                    }
                    lemma_positive_keys(g.keys);
                    assert forall|k: int| 0 <= k < pos.len() implies key_index(g.keys, #[trigger] pos[k]) >= 0 by {
                        lemma_key_index_present(g.keys, pos[k]);
                    }
                    let perms = if g.nuevos.len() > 0 && pos.len() > 0 {
                        forced_tuples(g.viejos + g.nuevos, pos[0] as nat, g.nuevos)
                    } else {
                        Seq::empty()
                    };
                    if g.nuevos.len() > 0 && pos.len() > 0 {
                        lemma_forced_tuples_shape(g.viejos + g.nuevos, pos[0] as nat, g.nuevos, len);
                    }
                    let g1 = with_state(g, StateV::Iter(pos, 0, 0, 0, perms));
                    law_generator_positions(g1, len);
                }
            }
        },
        StateV::Iter(ar, ai, oi, pi, perms) => {
            if ar.len() == 0 {
            } else if ai >= ar.len() || ai < 0 {
                if g.nuevos.len() > 0 {
                    lemma_forced_tuples_shape(g.viejos + g.nuevos, ar[0] as nat, g.nuevos, len);
                    let g1 = next_wave(g, ar);
                    assert(below(g1.nuevos, len));
                    law_generator_positions(g1, len);
                }
            } else {
                let gi = key_index(g.keys, ar[ai]);
                lemma_key_index(g.keys, ar[ai]);
                if oi >= g.sizes[gi] {
                    if ai + 1 >= ar.len() {
                        if g.nuevos.len() > 0 {
                            lemma_forced_tuples_shape(g.viejos + g.nuevos, ar[0] as nat, g.nuevos, len);
                            let g1 = next_wave(g, ar);
                            assert(below(g1.nuevos, len));
                            law_generator_positions(g1, len);
                        }
                    } else {
                        lemma_forced_tuples_shape(g.viejos + g.nuevos, ar[ai + 1] as nat, g.nuevos, len);
                        law_generator_positions(
                            with_state(
                                g,
                                StateV::Iter(ar, ai + 1, 0, 0, forced_tuples(g.viejos + g.nuevos, ar[ai + 1] as nat, g.nuevos)),
                            ),
                            len,
                        );
                    }
                } else if pi >= perms.len() || pi < 0 {
                    law_generator_positions(with_state(g, StateV::Iter(ar, ai, oi + 1, 0, perms)), len);
                } else {
                    assert(below(perms[pi], len));
                }
            }
        },
    }
}

} // verus!




