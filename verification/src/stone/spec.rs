//! A Stone specification: a finite universe, the closure sets that should be the
//! subuniverses, and the partial isomorphisms that should be the sub-isomorphisms.

use vstd::prelude::*;

use crate::stone::sets::{contains, copy_elems, increasing, insert, set_of};

verus! {

/// An element of the universe `0 .. n`.
pub type Elem = usize;

/// A partial isomorphism as read from the specification file (keys of `map` are decimal texts).
#[derive(Debug, Clone)]
pub struct PartialIsoJson {
    pub dom: Vec<Elem>,
    pub cod: Vec<Elem>,
    pub map: Vec<(String, Elem)>,
}

/// A Stone specification as read from its file.
#[derive(Debug, Clone)]
pub struct StoneSpecJson {
    pub universe_size: usize,
    pub closure_sets: Vec<Vec<Elem>>,
    pub sub_isos: Vec<PartialIsoJson>,
    pub id_on_family: bool,
}

/// First value bound to `x` in a list of pairs.
pub open spec fn map_lookup(m: Seq<(Elem, Elem)>, x: Elem) -> Option<Elem>
    decreases m.len(),
{
    if m.len() == 0 {
        None
    } else if m[0].0 == x {
        Some(m[0].1)
    } else {
        map_lookup(m.drop_first(), x)
    }
}

/// A partial isomorphism: domain, codomain (as strictly increasing lists) and its pairs.
#[derive(Debug, Clone)]
pub struct PartialIso {
    pub dom: Vec<Elem>,
    pub cod: Vec<Elem>,
    pub map: Vec<(Elem, Elem)>,
}

impl PartialIso {
    /// Image of `x` (the identity outside the map).
    pub open spec fn spec_apply(&self, x: Elem) -> Elem {
        match map_lookup(self.map@, x) {
            Some(y) => y,
            None => x,
        }
    }

    /// Domain and codomain are strictly increasing and the keys of the map are distinct.
    pub open spec fn wf(&self) -> bool {
        &&& increasing(self.dom@)
        &&& increasing(self.cod@)
        &&& forall|i: int, j: int| 0 <= i < j < self.map@.len() ==> (#[trigger] self.map@[i]).0 != (#[trigger] self.map@[j]).0
    }

    /// The identity on `members`.
    pub fn id_on(members: &Vec<Elem>) -> (r: Self)
        requires
            increasing(members@),
        ensures
            r.wf(),
            r.dom@ == members@,
            r.cod@ == members@,
            r.map@.map_values(|p: (Elem, Elem)| p.0) == members@,
            r.map@.len() == members@.len(),
            forall|k: int| 0 <= k < r.map@.len() ==> #[trigger] r.map@[k] == (members@[k], members@[k]),
            forall|x: Elem| r.spec_apply(x) == x,
    {
        let mut map: Vec<(Elem, Elem)> = Vec::new();
        let mut i: usize = 0;
        while i < members.len()
            invariant
                i <= members.len(),
                increasing(members@),
                map@.len() == i,
                forall|k: int| 0 <= k < i ==> (#[trigger] map@[k]) == (members@[k], members@[k]),
            decreases members.len() - i,
        {
            map.push((members[i], members[i]));
            i += 1;
        }
        proof {
            assert(map@.map_values(|p: (Elem, Elem)| p.0) =~= members@);
            assert forall|i: int, j: int| 0 <= i < j < map@.len() implies (#[trigger] map@[i]).0 != (#[trigger] map@[j]).0 by {
                assert(members@[i] < members@[j]);
            }
            assert forall|x: Elem| #[trigger] map_lookup(map@, x) is None || map_lookup(map@, x) == Some(x) by {
                lemma_lookup_identity(map@, x);
            }
        }
        PartialIso { dom: copy_elems(members), cod: copy_elems(members), map }
    }

    /// Image of `x` (the identity outside the map).
    pub fn apply(&self, x: Elem) -> (r: Elem)
        ensures
            r == self.spec_apply(x),
    {
        let mut i: usize = 0;
        proof {
            assert(self.map@.skip(0) =~= self.map@);
        }
        while i < self.map.len()
            invariant
                i <= self.map.len(),
                map_lookup(self.map@, x) == map_lookup(self.map@.skip(i as int), x),
            decreases self.map.len() - i,
        {
            proof {
                assert(self.map@.skip(i as int).drop_first() =~= self.map@.skip(i + 1));
            }
            if self.map[i].0 == x {
                return self.map[i].1;
            }
            i += 1;
        }
        x
    }
}

/// In a list of identity pairs, every look-up finds `x` itself or nothing.
pub proof fn lemma_lookup_identity(m: Seq<(Elem, Elem)>, x: Elem)
    requires
        forall|k: int| 0 <= k < m.len() ==> (#[trigger] m[k]).0 == m[k].1,
    ensures
        map_lookup(m, x) is None || map_lookup(m, x) == Some(x),
    decreases m.len(),
{
    if m.len() > 0 {
        assert(m[0].0 == m[0].1);
        assert forall|k: int| 0 <= k < m.drop_first().len() implies (#[trigger] m.drop_first()[k]).0 == m.drop_first()[k].1 by {
            assert(m.drop_first()[k] == m[k + 1]);
        }
        lemma_lookup_identity(m.drop_first(), x);
    }
}

/// A Stone specification.
#[derive(Debug, Clone)]
pub struct StoneSpec {
    pub universe: Vec<Elem>,
    pub closure_sets: Vec<Vec<Elem>>,
    pub sub_isos: Vec<PartialIso>,
}

/// The list `0 .. n`.
pub open spec fn range_list(n: nat) -> Seq<Elem> {
    Seq::new(n, |i: int| i as Elem)
}

/// The members `i < k` of the bit set `mask`, in increasing order.
pub open spec fn mask_members(mask: usize, k: nat) -> Seq<Elem>
    decreases k,
{
    if k == 0 {
        Seq::empty()
    } else {
        let rest = mask_members(mask, (k - 1) as nat);
        if (mask >> ((k - 1) as usize)) & 1usize == 1usize {
            rest.push((k - 1) as Elem)
        } else {
            rest
        }
    }
}

/// The members of `mask` below `n`.
pub fn members_of_mask(mask: usize, n: usize) -> (r: Vec<Elem>)
    requires
        n <= usize::BITS,
    ensures
        r@ == mask_members(mask, n as nat),
        increasing(r@),
        forall|k: int| 0 <= k < r@.len() ==> #[trigger] r@[k] < n,
{
    let mut r: Vec<Elem> = Vec::new();
    let mut i: usize = 0;
    while i < n
        invariant
            i <= n,
            n <= usize::BITS,
            r@ == mask_members(mask, i as nat),
            increasing(r@),
            forall|k: int| 0 <= k < r@.len() ==> #[trigger] r@[k] < i,
        decreases n - i,
    {
        if (mask >> i) & 1 == 1 {
            r.push(i);
        }
        i += 1;
    }
    r
}

/// The identities on all subsets of `0 .. n`, by increasing bit mask.
pub open spec fn id_family_doms(n: nat, m: nat) -> Seq<Seq<Elem>>
    decreases m,
{
    if m == 0 {
        Seq::empty()
    } else {
        id_family_doms(n, (m - 1) as nat).push(mask_members((m - 1) as usize, n))
    }
}

/// The family has one member per mask.
pub proof fn lemma_id_family_len(n: nat, m: nat)
    ensures
        id_family_doms(n, m).len() == m,
    decreases m,
{
    if m > 0 {
        lemma_id_family_len(n, (m - 1) as nat);
    }
}

/// Value of a decimal digit.
pub open spec fn digit_value(c: char) -> int {
    c as int - '0' as int
}

/// The character is a decimal digit.
pub open spec fn is_digit(c: char) -> bool {
    '0' <= c && c <= '9'
}

/// Value of a decimal numeral.
pub open spec fn numeral_value(ds: Seq<char>) -> int
    decreases ds.len(),
{
    if ds.len() == 0 {
        0
    } else {
        numeral_value(ds.drop_last()) * 10 + digit_value(ds.last())
    }
}

/// The text without a leading `+`.
pub open spec fn strip_plus(s: Seq<char>) -> Seq<char> {
    if s.len() > 0 && s[0] == '+' {
        s.drop_first()
    } else {
        s
    }
}

/// Every character is a decimal digit.
pub open spec fn all_digits(b: Seq<char>) -> bool {
    forall|i: int| 0 <= i < b.len() ==> is_digit(#[trigger] b[i])
}

/// What `usize::from_str` gives: an optional `+`, then one or more digits, with no overflow.
pub open spec fn parse_usize_spec(s: Seq<char>) -> Option<usize> {
    let body = strip_plus(s);
    if body.len() > 0 && all_digits(body) && numeral_value(body) <= usize::MAX {
        Some(numeral_value(body) as usize)
    } else {
        None
    }
}

/// Numerals grow with their digits.
proof fn lemma_numeral_prefix(ds: Seq<char>, k: int)
    requires
        0 <= k <= ds.len(),
        forall|i: int| 0 <= i < ds.len() ==> is_digit(#[trigger] ds[i]),
    ensures
        numeral_value(ds.take(k)) <= numeral_value(ds),
        numeral_value(ds.take(k)) >= 0,
    decreases ds.len(),
{
    if ds.len() > 0 {
        if k == ds.len() {
            assert(ds.take(k) =~= ds);
            lemma_numeral_prefix(ds.drop_last(), k - 1);
            assert(ds.drop_last().take(k - 1) =~= ds.drop_last());
        } else {
            assert(ds.drop_last().take(k) =~= ds.take(k));
            lemma_numeral_prefix(ds.drop_last(), k);
            assert(is_digit(ds.last()));
        }
    } else {
        assert(ds.take(k) =~= ds);
    }
}

/// Decimal text to `usize`, as `usize::from_str` reads it.
pub fn parse_usize(s: &str) -> (r: Option<usize>)
    ensures
        r == parse_usize_spec(s@),
{
    let cs = crate::strs::chars_of(s);
    let mut start: usize = 0;
    if cs.len() > 0 && cs[0] == '+' {
        start = 1;
    }
    let ghost body = strip_plus(cs@);
    proof {
        assert(body =~= cs@.skip(start as int));
    }
    if start >= cs.len() {
        return None;
    }
    let mut v: usize = 0;
    let mut i: usize = start;
    while i < cs.len()
        invariant
            start <= i <= cs.len(),
            body == cs@.skip(start as int),
            cs@ == s@,
            body == strip_plus(s@),
            forall|k: int| 0 <= k < i - start ==> is_digit(#[trigger] body[k]),
            v == numeral_value(body.take(i - start)),
        decreases cs.len() - i,
    {
        let c = cs[i];
        proof {
            assert(body[i - start] == cs@[i as int]);
        }
        if !('0' <= c && c <= '9') {
            proof {
                assert(!is_digit(body[i - start]));
                assert(!all_digits(body));
                assert(parse_usize_spec(s@) is None);
            }
            return None;
        }
        let d = (c as u32 - '0' as u32) as usize;
        proof {
            assert(d == digit_value(c));
            assert(d <= 9);
        }
        proof {
            assert(body.take(i - start + 1).drop_last() =~= body.take(i - start));
            assert(body[i - start] == c);
        }
        if v > (usize::MAX - d) / 10 {
            proof {
                // the numeral already exceeds the largest value
                if all_digits(body) {
                    lemma_numeral_prefix(body, i - start + 1);
                    assert(numeral_value(body.take(i - start + 1)) == v * 10 + d);
                    assert(v * 10 + d > usize::MAX) by (nonlinear_arith)
                        requires
                            v > (usize::MAX - d) / 10,
                            d <= 9,
                    ;
                    assert(numeral_value(body) > usize::MAX);
                }
                assert(parse_usize_spec(s@) is None);
            }
            return None;
        }
        proof {
            assert(v * 10 + d <= usize::MAX) by (nonlinear_arith)
                requires
                    v <= (usize::MAX - d) / 10,
                    d <= 9,
            ;
        }
        v = v * 10 + d;
        i += 1;
    }
    proof {
        assert(body.take(cs.len() - start) =~= body);
    }
    Some(v)
}

/// The pairs of a map given by decimal keys, with the keys read as elements (keys that do not
/// read are dropped; a later key overrides an earlier equal one).
pub open spec fn json_pairs(m: Seq<(String, Elem)>) -> Seq<(Elem, Elem)>
    decreases m.len(),
{
    if m.len() == 0 {
        Seq::empty()
    } else {
        let rest = json_pairs(m.drop_last());
        match parse_usize_spec(m.last().0@) {
            Some(k) => set_pair(rest, k, m.last().1),
            None => rest,
        }
    }
}

/// Binds `k` to `v`: replaces the pair of key `k`, or appends one.
pub open spec fn set_pair(m: Seq<(Elem, Elem)>, k: Elem, v: Elem) -> Seq<(Elem, Elem)> {
    if exists|i: int| 0 <= i < m.len() && (#[trigger] m[i]).0 == k {
        let i = choose|i: int| 0 <= i < m.len() && (#[trigger] m[i]).0 == k;
        m.update(i, (k, v))
    } else {
        m.push((k, v))
    }
}

/// The partial isomorphism read from its file form.
pub open spec fn iso_of_json(j: PartialIsoJson, iso: PartialIso) -> bool {
    &&& iso.wf()
    &&& iso.dom@.to_set() == j.dom@.to_set()
    &&& iso.cod@.to_set() == j.cod@.to_set()
    &&& iso.map@ == json_pairs(j.map@)
}

/// Keys of a list of pairs are distinct.
pub open spec fn distinct_keys(m: Seq<(Elem, Elem)>) -> bool {
    forall|i: int, j: int| 0 <= i < j < m.len() ==> (#[trigger] m[i]).0 != (#[trigger] m[j]).0
}

/// Binding keeps keys distinct.
proof fn lemma_set_pair_distinct(m: Seq<(Elem, Elem)>, k: Elem, v: Elem)
    requires
        distinct_keys(m),
    ensures
        distinct_keys(set_pair(m, k, v)),
{
    if exists|i: int| 0 <= i < m.len() && (#[trigger] m[i]).0 == k {
        let i = choose|i: int| 0 <= i < m.len() && (#[trigger] m[i]).0 == k;
        let r = m.update(i, (k, v));
        assert forall|a: int, b: int| 0 <= a < b < r.len() implies (#[trigger] r[a]).0 != (#[trigger] r[b]).0 by {
            if a == i {
                assert(m[b].0 != m[i].0);
            } else if b == i {
                assert(m[a].0 != m[i].0);
            }
        }
    } else {
        let r = m.push((k, v));
        assert forall|a: int, b: int| 0 <= a < b < r.len() implies (#[trigger] r[a]).0 != (#[trigger] r[b]).0 by {
            if b == m.len() {
                assert(r[a] == m[a]);
            }
        }
    }
}

/// The pairs of a file map, read.
fn pairs_of_json(m: &Vec<(String, Elem)>) -> (r: Vec<(Elem, Elem)>)
    ensures
        r@ == json_pairs(m@),
        distinct_keys(r@),
{
    let mut r: Vec<(Elem, Elem)> = Vec::new();
    let mut i: usize = 0;
    proof {
        assert(m@.take(0) =~= Seq::<(String, Elem)>::empty());
    }
    while i < m.len()
        invariant
            i <= m.len(),
            r@ == json_pairs(m@.take(i as int)),
            distinct_keys(r@),
        decreases m.len() - i,
    {
        proof {
            assert(m@.take(i + 1).drop_last() =~= m@.take(i as int));
            assert(m@.take(i + 1).last() == m@[i as int]);
        }
        match parse_usize(m[i].0.as_str()) {
            Some(k) => {
                let v = m[i].1;
                let mut p: usize = 0;
                while p < r.len() && r[p].0 != k
                    invariant
                        p <= r.len(),
                        forall|q: int| 0 <= q < p ==> (#[trigger] r@[q]).0 != k,
                    decreases r.len() - p,
                {
                    p += 1;
                }
                let ghost before = r@;
                proof {
                    lemma_set_pair_distinct(before, k, v);
                }
                if p < r.len() {
                    proof {
                        let c = choose|q: int| 0 <= q < before.len() && (#[trigger] before[q]).0 == k;
                        assert(c == p) by {
                            if c != p {
                                if c < p {
                                    assert(before[c].0 != k);
                                } else {
                                    assert(before[p as int].0 != before[c].0);
                                }
                            }
                        }
                    }
                    r.set(p, (k, v));
                } else {
                    r.push((k, v));
                }
            },
            None => {},
        }
        i += 1;
    }
    proof {
        assert(m@.take(m.len() as int) =~= m@);
    }
    r
}

impl StoneSpec {
    /// The universe is `0 .. n`, the closure sets are strictly increasing, and so are the
    /// domains and codomains of the partial isomorphisms.
    pub open spec fn wf(&self) -> bool {
        &&& self.universe@ == range_list(self.universe@.len())
        &&& forall|i: int| 0 <= i < self.closure_sets@.len() ==> increasing(#[trigger] self.closure_sets@[i]@)
        &&& forall|i: int| 0 <= i < self.sub_isos@.len() ==> (#[trigger] self.sub_isos@[i]).wf()
    }

    /// The specification read from its file form; the universe size must be positive.
    pub fn from_json(raw: StoneSpecJson) -> (r: Result<Self, String>)
        requires
            raw.id_on_family ==> raw.universe_size < usize::BITS,
        ensures
            raw.universe_size == 0 <==> r is Err,
            r is Err ==> r->Err_0@ == "universe_size must be positive"@,
            r is Ok ==> ({
                let s = r->Ok_0;
                &&& s.wf()
                &&& s.universe@ == range_list(raw.universe_size as nat)
                &&& s.closure_sets@.len() == raw.closure_sets@.len()
                &&& forall|i: int|
                    0 <= i < raw.closure_sets@.len() ==> (#[trigger] s.closure_sets@[i])@.to_set()
                        == raw.closure_sets@[i]@.to_set()
                &&& raw.id_on_family ==> s.sub_isos@.len() == id_family_doms(
                    raw.universe_size as nat,
                    (1usize << raw.universe_size) as nat,
                ).len() && forall|i: int|
                    0 <= i < s.sub_isos@.len() ==> (#[trigger] s.sub_isos@[i]).dom@ == id_family_doms(
                        raw.universe_size as nat,
                        (1usize << raw.universe_size) as nat,
                    )[i] && s.sub_isos@[i].cod@ == s.sub_isos@[i].dom@ && forall|x: Elem|
                        s.sub_isos@[i].spec_apply(x) == x
                &&& !raw.id_on_family ==> s.sub_isos@.len() == raw.sub_isos@.len() && forall|i: int|
                    0 <= i < s.sub_isos@.len() ==> iso_of_json(raw.sub_isos@[i], #[trigger] s.sub_isos@[i])
            }),
    {
        if raw.universe_size == 0 {
            return Err("universe_size must be positive".to_owned());
        }
        let n = raw.universe_size;
        let mut universe: Vec<Elem> = Vec::new();
        let mut i: usize = 0;
        while i < n
            invariant
                i <= n,
                universe@ == range_list(i as nat),
            decreases n - i,
        {
            universe.push(i);
            i += 1;
            proof {
                assert(universe@ =~= range_list(i as nat));
            }
        }
        let mut closure_sets: Vec<Vec<Elem>> = Vec::new();
        let mut k: usize = 0;
        while k < raw.closure_sets.len()
            invariant
                k <= raw.closure_sets.len(),
                closure_sets@.len() == k,
                forall|j: int| 0 <= j < k ==> increasing(#[trigger] closure_sets@[j]@),
                forall|j: int| 0 <= j < k ==> (#[trigger] closure_sets@[j])@.to_set() == raw.closure_sets@[j]@.to_set(),
            decreases raw.closure_sets.len() - k,
        {
            closure_sets.push(set_of(&raw.closure_sets[k]));
            k += 1;
        }
        let mut sub_isos: Vec<PartialIso> = Vec::new();
        if raw.id_on_family {
            let mask_count: usize = 1usize << n;
            let mut mask: usize = 0;
            while mask < mask_count
                invariant
                    mask <= mask_count,
                    n < usize::BITS,
                    mask_count == 1usize << n,
                    sub_isos@.len() == mask,
                    forall|j: int| 0 <= j < mask ==> (#[trigger] sub_isos@[j]).wf(),
                    forall|j: int|
                        0 <= j < mask ==> (#[trigger] sub_isos@[j]).dom@ == id_family_doms(n as nat, mask as nat)[j]
                            && sub_isos@[j].cod@ == sub_isos@[j].dom@ && forall|x: Elem| sub_isos@[j].spec_apply(x) == x,
                decreases mask_count - mask,
            {
                let members = members_of_mask(mask, n);
                let iso = PartialIso::id_on(&members);
                proof {
                    lemma_id_family_len(n as nat, mask as nat);
                    lemma_id_family_len(n as nat, (mask + 1) as nat);
                    assert forall|j: int| 0 <= j < mask implies id_family_doms(n as nat, (mask + 1) as nat)[j]
                        == id_family_doms(n as nat, mask as nat)[j] by {}
                }
                let ghost before = sub_isos@;
                sub_isos.push(iso);
                proof {
                    assert forall|j: int|
                        0 <= j < mask + 1 implies (#[trigger] sub_isos@[j]).dom@ == id_family_doms(n as nat, (mask + 1) as nat)[j]
                            && sub_isos@[j].cod@ == sub_isos@[j].dom@ && forall|x: Elem| sub_isos@[j].spec_apply(x) == x by {
                        if j < mask {
                            assert(sub_isos@[j] == before[j]);
                        }
                    }
                }
                mask += 1;
            }
            proof {
                lemma_id_family_len(n as nat, mask_count as nat);
            }
        } else {
            let mut j: usize = 0;
            while j < raw.sub_isos.len()
                invariant
                    j <= raw.sub_isos.len(),
                    !raw.id_on_family,
                    sub_isos@.len() == j,
                    forall|q: int| 0 <= q < j ==> iso_of_json(raw.sub_isos@[q], #[trigger] sub_isos@[q]),
                decreases raw.sub_isos.len() - j,
            {
                let js = &raw.sub_isos[j];
                let iso = PartialIso { dom: set_of(&js.dom), cod: set_of(&js.cod), map: pairs_of_json(&js.map) };
                sub_isos.push(iso);
                j += 1;
            }
        }
        Ok(StoneSpec { universe, closure_sets, sub_isos })
    }

    /// The algebraic closure of a tuple: the intersection of the closure sets that contain all
    /// its entries, or the set of its entries when none does.
    pub fn algebraic_closure(&self, tuple: &[Elem]) -> (r: Vec<Elem>)
        requires
            self.wf(),
        ensures
            increasing(r@),
            r@.to_set() == closure_spec(self.closure_sets@, tuple@),
    {
        let mut found = false;
        let mut acc: Vec<Elem> = Vec::new();
        let mut i: usize = 0;
        while i < self.closure_sets.len()
            invariant
                i <= self.closure_sets.len(),
                self.wf(),
                increasing(acc@),
                found == exists|j: int| 0 <= j < i && is_candidate(self.closure_sets@[j]@, tuple@),
                found ==> forall|x: Elem| acc@.contains(x) <==> (forall|j: int|
                    0 <= j < i && #[trigger] is_candidate(self.closure_sets@[j]@, tuple@) ==> self.closure_sets@[j]@.contains(x)),
            decreases self.closure_sets.len() - i,
        {
            let s = &self.closure_sets[i];
            let mut all_in = true;
            let mut t: usize = 0;
            while t < tuple.len()
                invariant
                    t <= tuple.len(),
                    all_in == forall|q: int| 0 <= q < t ==> s@.contains(#[trigger] tuple@[q]),
                decreases tuple.len() - t,
            {
                if !contains(s, tuple[t]) {
                    all_in = false;
                }
                t += 1;
            }
            proof {
                assert(all_in == is_candidate(s@, tuple@)) by {
                    if all_in {
                        assert forall|x: Elem| tuple@.to_set().contains(x) implies s@.to_set().contains(x) by {
                            let q = choose|q: int| 0 <= q < tuple@.len() && tuple@[q] == x;
                            assert(s@.contains(tuple@[q]));
                        }
                    } else {
                        let q = choose|q: int| !(0 <= q < tuple.len() ==> s@.contains(#[trigger] tuple@[q]));
                        assert(tuple@.to_set().contains(tuple@[q]));
                    }
                }
            }
            if all_in {
                if !found {
                    acc = copy_elems(s);
                    found = true;
                    proof {
                        assert forall|x: Elem| acc@.contains(x) <==> (forall|j: int|
                            0 <= j < i + 1 && #[trigger] is_candidate(self.closure_sets@[j]@, tuple@) ==> self.closure_sets@[j]@.contains(x)) by {
                        }
                    }
                } else {
                    let mut next: Vec<Elem> = Vec::new();
                    let mut q: usize = 0;
                    while q < acc.len()
                        invariant
                            q <= acc.len(),
                            increasing(acc@),
                            increasing(next@),
                            forall|x: Elem| next@.contains(x) <==> (acc@.take(q as int).contains(x) && s@.contains(x)),
                            forall|a: int| 0 <= a < next@.len() ==> acc@.take(q as int).contains(#[trigger] next@[a]),
                        decreases acc.len() - q,
                    {
                        let ghost before = next@;
                        proof {
                            assert(acc@.take(q + 1) =~= acc@.take(q as int).push(acc@[q as int]));
                        }
                        if contains(s, acc[q]) {
                            next.push(acc[q]);
                            proof {
                                assert forall|a: int, b: int| 0 <= a < b < next@.len() implies next@[a] < next@[b] by {
                                    if b == next@.len() - 1 {
                                        assert(acc@.take(q as int).contains(next@[a]));
                                        let w = choose|w: int| 0 <= w < q && acc@.take(q as int)[w] == next@[a];
                                        assert(acc@[w] < acc@[q as int]);
                                    }
                                }
                            }
                        }
                        proof {
                            assert forall|x: Elem| next@.contains(x) <==> (acc@.take(q + 1).contains(x) && s@.contains(x)) by {
                                crate::unary::lemma_push_contains_usize(acc@.take(q as int), acc@[q as int], x);
                                if next@ != before {
                                    crate::unary::lemma_push_contains_usize(before, acc@[q as int], x);
                                }
                            }
                            assert forall|a: int| 0 <= a < next@.len() implies acc@.take(q + 1).contains(#[trigger] next@[a]) by {
                                crate::unary::lemma_push_contains_usize(acc@.take(q as int), acc@[q as int], next@[a]);
                                if a < before.len() {
                                    assert(next@[a] == before[a]);
                                }
                            }
                        }
                        q += 1;
                    }
                    proof {
                        assert(acc@.take(acc.len() as int) =~= acc@);
                        assert forall|x: Elem| next@.contains(x) <==> (forall|j: int|
                            0 <= j < i + 1 && #[trigger] is_candidate(self.closure_sets@[j]@, tuple@) ==> self.closure_sets@[j]@.contains(x)) by {
                            if next@.contains(x) {
                                assert forall|j: int|
                                    0 <= j < i + 1 && #[trigger] is_candidate(self.closure_sets@[j]@, tuple@) implies self.closure_sets@[j]@.contains(x) by {
                                    if j < i {
                                    }
                                }
                            }
                        }
                    }
                    acc = next;
                }
            } else {
                proof {
                    if found {
                        assert forall|x: Elem| acc@.contains(x) <==> (forall|j: int|
                            0 <= j < i + 1 && #[trigger] is_candidate(self.closure_sets@[j]@, tuple@) ==> self.closure_sets@[j]@.contains(x)) by {
                            if forall|j: int|
                                0 <= j < i + 1 && #[trigger] is_candidate(self.closure_sets@[j]@, tuple@) ==> self.closure_sets@[j]@.contains(x) {
                                assert forall|j: int|
                                    0 <= j < i && #[trigger] is_candidate(self.closure_sets@[j]@, tuple@) implies self.closure_sets@[j]@.contains(x) by {
                                }
                            }
                        }
                    }
                }
            }
            i += 1;
        }
        if !found {
            let r = set_of(&crate::stone::sets::copy_elems_slice(tuple));
            proof {
                assert(!(exists|j: int| 0 <= j < self.closure_sets@.len() && is_candidate(self.closure_sets@[j]@, tuple@)));
            }
            return r;
        }
        proof {
            assert forall|x: Elem| acc@.to_set().contains(x) <==> closure_spec(self.closure_sets@, tuple@).contains(x) by {}
            assert(acc@.to_set() =~= closure_spec(self.closure_sets@, tuple@));
        }
        acc
    }

    /// The non-empty subsets of the universe, by increasing bit mask.
    pub fn all_nonempty_subsets(&self) -> (r: Vec<Vec<Elem>>)
        requires
            self.universe.len() < usize::BITS,
        ensures
            r.deep_view() == nonempty_subsets(self.universe.len() as nat, (1usize << self.universe.len()) as nat),
    {
        let n = self.universe.len();
        let mask_count: usize = 1usize << n;
        let mut out: Vec<Vec<Elem>> = Vec::new();
        let mut mask: usize = 0;
        while mask < mask_count
            invariant
                mask <= mask_count,
                n < usize::BITS,
                n == self.universe.len(),
                mask_count == 1usize << n,
                out.deep_view() == nonempty_subsets(n as nat, mask as nat),
            decreases mask_count - mask,
        {
            let s = members_of_mask(mask, n);
            let ghost before = out.deep_view();
            if s.len() > 0 {
                proof {
                    assert(s.deep_view() =~= s@);
                }
                out.push(s);
                proof {
                    assert(out.deep_view() =~= before.push(s@));
                }
            }
            mask += 1;
        }
        out
    }

    /// The candidate subuniverses: all non-empty subsets.
    pub fn nonempty_subuniverses(&self) -> (r: Vec<Vec<Elem>>)
        requires
            self.universe.len() < usize::BITS,
        ensures
            r.deep_view() == nonempty_subsets(self.universe.len() as nat, (1usize << self.universe.len()) as nat),
    {
        self.all_nonempty_subsets()
    }
}

/// The entries of `t` all lie in `s`.
pub open spec fn is_candidate(s: Seq<Elem>, t: Seq<Elem>) -> bool {
    t.to_set().subset_of(s.to_set())
}

/// The algebraic closure of `t` under the closure sets.
pub open spec fn closure_spec(sets: Seq<Vec<Elem>>, t: Seq<Elem>) -> Set<Elem> {
    if exists|j: int| 0 <= j < sets.len() && is_candidate(sets[j]@, t) {
        Set::new(|x: Elem| forall|j: int| 0 <= j < sets.len() && #[trigger] is_candidate(sets[j]@, t) ==> sets[j]@.contains(x))
    } else {
        t.to_set()
    }
}

/// The non-empty subsets given by the masks below `m`, in order.
pub open spec fn nonempty_subsets(n: nat, m: nat) -> Seq<Seq<Elem>>
    decreases m,
{
    if m == 0 {
        Seq::empty()
    } else {
        let rest = nonempty_subsets(n, (m - 1) as nat);
        let s = mask_members((m - 1) as usize, n);
        if s.len() > 0 {
            rest.push(s)
        } else {
            rest
        }
    }
}

/// Law: the algebraic closure contains the entries of the tuple, and closing a tuple
/// that lists the closure gives the closure again.
pub proof fn law_algebraic_closure_is_closure(sets: Seq<Vec<Elem>>, t: Seq<Elem>, u: Seq<Elem>)
    requires
        u.to_set() == closure_spec(sets, t),
    ensures
        t.to_set().subset_of(closure_spec(sets, t)),
        closure_spec(sets, u) == closure_spec(sets, t),
{
    let c = closure_spec(sets, t);
    if exists|j: int| 0 <= j < sets.len() && is_candidate(sets[j]@, t) {
        assert forall|x: Elem| t.to_set().contains(x) implies c.contains(x) by {
            assert forall|j: int| 0 <= j < sets.len() && #[trigger] is_candidate(sets[j]@, t) implies sets[j]@.contains(x) by {
                assert(sets[j]@.to_set().contains(x));
            }
        }
        // the tuples t and u have the same candidate sets
        assert forall|j: int| 0 <= j < sets.len() implies #[trigger] is_candidate(sets[j]@, u) == is_candidate(sets[j]@, t) by {
            if is_candidate(sets[j]@, t) {
                assert forall|x: Elem| u.to_set().contains(x) implies sets[j]@.to_set().contains(x) by {
                    assert(c.contains(x));
                    assert(sets[j]@.contains(x));
                }
            }
            if is_candidate(sets[j]@, u) {
                assert forall|x: Elem| t.to_set().contains(x) implies sets[j]@.to_set().contains(x) by {
                    assert(c.contains(x));
                    assert(u.to_set().contains(x));
                }
            }
        }
        let j0 = choose|j: int| 0 <= j < sets.len() && is_candidate(sets[j]@, t);
        assert(is_candidate(sets[j0]@, u));
        assert forall|x: Elem| closure_spec(sets, u).contains(x) == c.contains(x) by {
            if forall|j: int| 0 <= j < sets.len() && #[trigger] is_candidate(sets[j]@, u) ==> sets[j]@.contains(x) {
                assert forall|j: int| 0 <= j < sets.len() && #[trigger] is_candidate(sets[j]@, t) implies sets[j]@.contains(x) by {
                    assert(is_candidate(sets[j]@, u) == is_candidate(sets[j]@, t));
                }
            }
            if forall|j: int| 0 <= j < sets.len() && #[trigger] is_candidate(sets[j]@, t) ==> sets[j]@.contains(x) {
                assert forall|j: int| 0 <= j < sets.len() && #[trigger] is_candidate(sets[j]@, u) implies sets[j]@.contains(x) by {
                    assert(is_candidate(sets[j]@, u) == is_candidate(sets[j]@, t));
                }
            }
        }
        assert(closure_spec(sets, u) =~= c);
    } else {
        assert(t.to_set().subset_of(c));
        assert forall|j: int| 0 <= j < sets.len() implies !#[trigger] is_candidate(sets[j]@, u) by {
            assert(!is_candidate(sets[j]@, t));
        }
    }
}

} // verus!
