//! Text utilities: white space, trimming, tokens and decimal numerals.

use vstd::prelude::*;

use crate::strs::{chars_of, push_char};

verus! {

/// Unicode white space, as `char::is_whitespace` reads it.
pub open spec fn is_ws(c: char) -> bool {
    c == '\t' || c == '\n' || c == '\u{b}' || c == '\u{c}' || c == '\r' || c == ' ' || c == '\u{85}' || c
        == '\u{a0}' || c == '\u{1680}' || ('\u{2000}' <= c && c <= '\u{200a}') || c == '\u{2028}' || c
        == '\u{2029}' || c == '\u{202f}' || c == '\u{205f}' || c == '\u{3000}'
}

/// Tells whether a character is white space.
pub fn ws(c: char) -> (r: bool)
    ensures
        r == is_ws(c),
{
    c == '\t' || c == '\n' || c == '\u{b}' || c == '\u{c}' || c == '\r' || c == ' ' || c == '\u{85}' || c
        == '\u{a0}' || c == '\u{1680}' || ('\u{2000}' <= c && c <= '\u{200a}') || c == '\u{2028}' || c
        == '\u{2029}' || c == '\u{202f}' || c == '\u{205f}' || c == '\u{3000}'
}

/// Number of leading white-space characters.
pub open spec fn lead_ws(s: Seq<char>) -> nat
    decreases s.len(),
{
    if s.len() > 0 && is_ws(s[0]) {
        1 + lead_ws(s.drop_first())
    } else {
        0
    }
}

/// Number of trailing white-space characters.
pub open spec fn trail_ws(s: Seq<char>) -> nat
    decreases s.len(),
{
    if s.len() > 0 && is_ws(s.last()) {
        1 + trail_ws(s.drop_last())
    } else {
        0
    }
}

/// `s` without leading white space.
pub open spec fn trim_start(s: Seq<char>) -> Seq<char> {
    s.skip(lead_ws(s) as int)
}

/// `s` without leading and trailing white space.
pub open spec fn trim(s: Seq<char>) -> Seq<char> {
    let a = trim_start(s);
    a.take(a.len() - trail_ws(a))
}

pub proof fn lemma_lead_ws(s: Seq<char>)
    ensures
        lead_ws(s) <= s.len(),
        forall|i: int| 0 <= i < lead_ws(s) ==> is_ws(#[trigger] s[i]),
        lead_ws(s) < s.len() ==> !is_ws(s[lead_ws(s) as int]),
    decreases s.len(),
{
    if s.len() > 0 && is_ws(s[0]) {
        lemma_lead_ws(s.drop_first());
        assert forall|i: int| 0 <= i < lead_ws(s) implies is_ws(#[trigger] s[i]) by {
            if i > 0 {
                assert(s[i] == s.drop_first()[i - 1]);
            }
        }
        if lead_ws(s) < s.len() {
            assert(s[lead_ws(s) as int] == s.drop_first()[lead_ws(s) - 1]);
        }
    }
}

pub proof fn lemma_trail_ws(s: Seq<char>)
    ensures
        trail_ws(s) <= s.len(),
        forall|i: int| s.len() - trail_ws(s) <= i < s.len() ==> is_ws(#[trigger] s[i]),
        trail_ws(s) < s.len() ==> !is_ws(s[s.len() - trail_ws(s) - 1]),
    decreases s.len(),
{
    if s.len() > 0 && is_ws(s.last()) {
        lemma_trail_ws(s.drop_last());
        assert forall|i: int| s.len() - trail_ws(s) <= i < s.len() implies is_ws(#[trigger] s[i]) by {
            if i < s.len() - 1 {
                assert(s[i] == s.drop_last()[i]);
            }
        }
        if trail_ws(s) < s.len() {
            assert(s[s.len() - trail_ws(s) - 1] == s.drop_last()[s.len() - trail_ws(s) - 1]);
        }
    }
}

/// Trimming never lengthens.
pub proof fn lemma_trim_len(s: Seq<char>)
    ensures
        trim(s).len() <= s.len(),
{
    lemma_lead_ws(s);
    lemma_trail_ws(trim_start(s));
}

/// Trimming twice is trimming once.
pub proof fn lemma_trim_idem(s: Seq<char>)
    ensures
        trim(trim(s)) == trim(s),
{
    let t = trim(s);
    lemma_lead_ws(s);
    let a = trim_start(s);
    lemma_trail_ws(a);
    lemma_lead_ws(t);
    lemma_trail_ws(trim_start(t));
    if t.len() > 0 {
        assert(t[0] == a[0]);
        assert(!is_ws(t[0]));
        assert(t.last() == a[a.len() - trail_ws(a) - 1]);
        assert(!is_ws(t.last()));
    }
    assert(lead_ws(t) == 0) by {
        if t.len() > 0 {
            assert(!is_ws(t[0]));
        }
    }
    assert(trim_start(t) =~= t);
    assert(trail_ws(t) == 0) by {
        if t.len() > 0 {
            assert(!is_ws(t.last()));
        }
    }
    assert(trim(t) =~= t);
}

/// Characters `a .. b` of `cs` as a string.
pub fn substring(cs: &Vec<char>, a: usize, b: usize) -> (r: String)
    requires
        a <= b <= cs.len(),
    ensures
        r@ == cs@.subrange(a as int, b as int),
{
    let mut r = String::new();
    let mut i: usize = a;
    proof {
        assert(r@ =~= cs@.subrange(a as int, a as int));
    }
    while i < b
        invariant
            a <= i <= b <= cs.len(),
            r@ == cs@.subrange(a as int, i as int),
        decreases b - i,
    {
        push_char(&mut r, cs[i]);
        i += 1;
        proof {
            assert(r@ =~= cs@.subrange(a as int, i as int));
        }
    }
    r
}

/// The bounds of the trimmed part of `cs`.
pub fn trim_bounds(cs: &Vec<char>) -> (r: (usize, usize))
    ensures
        r.0 <= r.1 <= cs.len(),
        cs@.subrange(r.0 as int, r.1 as int) == trim(cs@),
{
    proof {
        lemma_lead_ws(cs@);
    }
    let mut a: usize = 0;
    while a < cs.len() && ws(cs[a])
        invariant
            a <= cs.len(),
            a <= lead_ws(cs@),
            forall|i: int| 0 <= i < lead_ws(cs@) ==> is_ws(#[trigger] cs@[i]),
            lead_ws(cs@) < cs@.len() ==> !is_ws(cs@[lead_ws(cs@) as int]),
            lead_ws(cs@) <= cs@.len(),
        decreases cs.len() - a,
    {
        a += 1;
    }
    proof {
        assert(a == lead_ws(cs@));
    }
    let ghost t = trim_start(cs@);
    proof {
        assert(t =~= cs@.subrange(a as int, cs.len() as int));
        lemma_trail_ws(t);
    }
    let mut b: usize = cs.len();
    while b > a && ws(cs[b - 1])
        invariant
            a <= b <= cs.len(),
            t == cs@.subrange(a as int, cs.len() as int),
            cs.len() - b <= trail_ws(t),
            forall|i: int| t.len() - trail_ws(t) <= i < t.len() ==> is_ws(#[trigger] t[i]),
            trail_ws(t) < t.len() ==> !is_ws(t[t.len() - trail_ws(t) - 1]),
            trail_ws(t) <= t.len(),
        decreases b,
    {
        proof {
            assert(t[b - 1 - a] == cs@[b - 1]);
        }
        b -= 1;
    }
    proof {
        if b > a {
            assert(t[b - 1 - a] == cs@[b - 1]);
        }
        assert(cs.len() - b == trail_ws(t));
        assert(cs@.subrange(a as int, b as int) =~= t.take(t.len() - trail_ws(t)));
    }
    (a, b)
}

/// The trimmed string.
pub fn trim_str(s: &str) -> (r: String)
    ensures
        r@ == trim(s@),
{
    let cs = chars_of(s);
    let (a, b) = trim_bounds(&cs);
    substring(&cs, a, b)
}

/// The white-space separated tokens of `s`, in order.
pub open spec fn tokens(s: Seq<char>) -> Seq<Seq<char>>
    decreases s.len(),
{
    tokens_acc(s, Seq::empty())
}

/// Tokens of `s`, with `cur` the token being read before it.
pub open spec fn tokens_acc(s: Seq<char>, cur: Seq<char>) -> Seq<Seq<char>>
    decreases s.len(),
{
    if s.len() == 0 {
        if cur.len() > 0 {
            seq![cur]
        } else {
            Seq::empty()
        }
    } else if is_ws(s[0]) {
        if cur.len() > 0 {
            seq![cur] + tokens_acc(s.drop_first(), Seq::empty())
        } else {
            tokens_acc(s.drop_first(), Seq::empty())
        }
    } else {
        tokens_acc(s.drop_first(), cur.push(s[0]))
    }
}

/// String views of a list of strings.
pub open spec fn views(v: Seq<String>) -> Seq<Seq<char>> {
    v.map_values(|s: String| s@)
}

/// The white-space separated tokens of a string.
pub fn split_ws(s: &str) -> (r: Vec<String>)
    ensures
        views(r@) == tokens(s@),
{
    let cs = chars_of(s);
    let mut out: Vec<String> = Vec::new();
    let mut cur = String::new();
    let mut cur_len: usize = 0;
    let mut i: usize = 0;
    proof {
        assert(cs@.skip(0) =~= cs@);
        assert(views(out@) =~= Seq::<Seq<char>>::empty());
        assert(cur@ =~= Seq::<char>::empty());
    }
    while i < cs.len()
        invariant
            i <= cs.len(),
            cs@ == s@,
            views(out@) + tokens_acc(cs@.skip(i as int), cur@) == tokens(s@),
            cur_len == cur@.len(),
            cur_len <= i,
        decreases cs.len() - i,
    {
        let c = cs[i];
        let ghost rest = cs@.skip(i as int);
        proof {
            assert(rest[0] == c);
            assert(rest.drop_first() =~= cs@.skip(i + 1));
        }
        if ws(c) {
            if cur_len > 0 {
                let ghost before = views(out@);
                let ghost cv = cur@;
                out.push(cur);
                cur = String::new();
                cur_len = 0;
                proof {
                    assert(views(out@) =~= before.push(cv));
                    assert(cur@ =~= Seq::<char>::empty());
                    assert(before + (seq![cv] + tokens_acc(rest.drop_first(), Seq::empty())) =~= before.push(cv)
                        + tokens_acc(rest.drop_first(), Seq::empty()));
                }
            } else {
                proof {
                    assert(cur@.len() == 0);
                    assert(cur@ =~= Seq::<char>::empty());
                }
            }
        } else {
            push_char(&mut cur, c);
            cur_len += 1;
        }
        i += 1;
    }
    proof {
        assert(cs@.skip(cs.len() as int) =~= Seq::<char>::empty());
    }
    if cur_len > 0 {
        let ghost before = views(out@);
        let ghost cv = cur@;
        out.push(cur);
        proof {
            assert(cv.len() > 0);
            assert(views(out@) =~= before.push(cv));
            assert(before + seq![cv] =~= before.push(cv));
        }
    } else {
        proof {
            assert(cur@.len() == 0);
            assert(views(out@) + Seq::<Seq<char>>::empty() =~= views(out@));
        }
    }
    out
}

/// Decimal value of a numeral of digits.
pub open spec fn digits_value(ds: Seq<char>) -> int
    decreases ds.len(),
{
    if ds.len() == 0 {
        0
    } else {
        digits_value(ds.drop_last()) * 10 + (ds.last() as int - '0' as int)
    }
}

/// Every character is an ASCII digit.
pub open spec fn all_digits(ds: Seq<char>) -> bool {
    forall|i: int| 0 <= i < ds.len() ==> '0' <= #[trigger] ds[i] && ds[i] <= '9'
}

/// What `i64::from_str` gives: an optional sign, then one or more digits, in range.
pub open spec fn parse_i64_spec(s: Seq<char>) -> Option<i64> {
    let neg = s.len() > 0 && s[0] == '-';
    let body = if s.len() > 0 && (s[0] == '-' || s[0] == '+') {
        s.drop_first()
    } else {
        s
    };
    let v = if neg {
        -digits_value(body)
    } else {
        digits_value(body)
    };
    if body.len() > 0 && all_digits(body) && i64::MIN <= v && v <= i64::MAX {
        Some(v as i64)
    } else {
        None
    }
}

/// What `usize::from_str` gives: an optional `+`, then one or more digits, in range.
pub open spec fn parse_usize_text(s: Seq<char>) -> Option<usize> {
    let body = if s.len() > 0 && s[0] == '+' {
        s.drop_first()
    } else {
        s
    };
    if body.len() > 0 && all_digits(body) && digits_value(body) <= usize::MAX {
        Some(digits_value(body) as usize)
    } else {
        None
    }
}

proof fn lemma_digits_prefix(ds: Seq<char>, k: int)
    requires
        0 <= k <= ds.len(),
        all_digits(ds),
    ensures
        0 <= digits_value(ds.take(k)) <= digits_value(ds),
    decreases ds.len(),
{
    if ds.len() > 0 {
        if k == ds.len() {
            assert(ds.take(k) =~= ds);
            lemma_digits_prefix(ds.drop_last(), k - 1);
        } else {
            assert(ds.drop_last().take(k) =~= ds.take(k));
            lemma_digits_prefix(ds.drop_last(), k);
        }
    } else {
        assert(ds.take(k) =~= ds);
    }
}

/// Reads the magnitude of a numeral: `None` when it is empty, has a non-digit, or exceeds `bound`.
fn read_magnitude(cs: &Vec<char>, start: usize, bound: u64) -> (r: Option<u64>)
    requires
        start <= cs.len(),
    ensures
        ({
            let body = cs@.skip(start as int);
            match r {
                Some(v) => body.len() > 0 && all_digits(body) && v == digits_value(body) && v <= bound,
                None => !(body.len() > 0 && all_digits(body) && digits_value(body) <= bound),
            }
        }),
{
    let ghost body = cs@.skip(start as int);
    if start >= cs.len() {
        return None;
    }
    let mut v: u64 = 0;
    let mut i: usize = start;
    while i < cs.len()
        invariant
            start <= i <= cs.len(),
            body == cs@.skip(start as int),
            forall|k: int| 0 <= k < i - start ==> '0' <= #[trigger] body[k] && body[k] <= '9',
            v == digits_value(body.take(i - start)),
            v <= bound,
        decreases cs.len() - i,
    {
        let c = cs[i];
        proof {
            assert(body[i - start] == c);
        }
        if !('0' <= c && c <= '9') {
            return None;
        }
        let d = (c as u32 - '0' as u32) as u64;
        proof {
            assert(body.take(i - start + 1).drop_last() =~= body.take(i - start));
        }
        if d > bound || v > (bound - d) / 10 {
            proof {
                if all_digits(body) {
                    lemma_digits_prefix(body, i - start + 1);
                    if d <= bound {
                        assert(v * 10 + d > bound) by (nonlinear_arith)
                            requires
                                v > (bound - d) / 10,
                                d <= 9,
                                d <= bound,
                        ;
                    }
                }
            }
            return None;
        }
        proof {
            assert(v * 10 + d <= bound) by (nonlinear_arith)
                requires
                    v <= (bound - d) / 10,
                    d <= 9,
                    d <= bound,
            ;
        }
        v = v * 10 + d;
        i += 1;
    }
    proof {
        assert(body.take(cs.len() - start) =~= body);
    }
    Some(v)
}

/// Decimal text to `i64`, as `i64::from_str` reads it.
pub fn parse_i64(s: &str) -> (r: Option<i64>)
    ensures
        r == parse_i64_spec(s@),
{
    let cs = chars_of(s);
    let neg = cs.len() > 0 && cs[0] == '-';
    let start: usize = if cs.len() > 0 && (cs[0] == '-' || cs[0] == '+') {
        1
    } else {
        0
    };
    proof {
        assert(cs@.skip(start as int) =~= (if s@.len() > 0 && (s@[0] == '-' || s@[0] == '+') {
            s@.drop_first()
        } else {
            s@
        }));
    }
    if neg {
        match read_magnitude(&cs, start, 9223372036854775808u64) {
            Some(m) => {
                if m == 9223372036854775808u64 {
                    Some(i64::MIN)
                } else {
                    Some(-(m as i64))
                }
            },
            None => None,
        }
    } else {
        match read_magnitude(&cs, start, 9223372036854775807u64) {
            Some(m) => Some(m as i64),
            None => None,
        }
    }
}

/// Decimal text to `usize`, as `usize::from_str` reads it.
pub fn parse_usize_str(s: &str) -> (r: Option<usize>)
    ensures
        r == parse_usize_text(s@),
{
    let cs = chars_of(s);
    let start: usize = if cs.len() > 0 && cs[0] == '+' {
        1
    } else {
        0
    };
    proof {
        assert(cs@.skip(start as int) =~= (if s@.len() > 0 && s@[0] == '+' {
            s@.drop_first()
        } else {
            s@
        }));
    }
    match read_magnitude(&cs, start, usize::MAX as u64) {
        Some(m) => Some(m as usize),
        None => None,
    }
}

} // verus!
