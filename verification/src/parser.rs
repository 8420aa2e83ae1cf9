//! The model file format: a universe line, then declarations of operations,
//! relations and formula-defined relations, each followed by its table.

use vstd::prelude::*;

use crate::first_order::formulas::{
    and_spec, eq, eq_spec, first_op, formula_vars, formula_view, in_extension, is_declaration, neg_spec, or_spec,
    name_set, names, ops_wf, term_view, terms_view, var_name, Formula, FormulaV, OpSym, Term, TermV, Variable,
};
use crate::first_order::models::{sorted, Model};
use crate::first_order::relops::{same_relation, Relation};
use crate::preprocessing::{classes, law_pattern_name_iff_same_pattern, pattern_name, piece_has, preprocesamiento2, pruned};
use crate::engines::dispatch::str_eq;
use crate::first_order::relops::{find_operation, Operation};
use crate::strs::{chars_of, int_text, push_char, push_int, push_str, push_usize};
use crate::text::{
    lemma_trim_len, all_digits, parse_i64, parse_i64_spec, parse_usize_str, parse_usize_text, split_ws, substring, tokens, trim,
    trim_str, views,
};

verus! {

/// A refused model file.
#[derive(Debug)]
pub enum ParseError {
    Parse { line: usize, path: Option<String>, message: String },
}

/// First position of `c` in `s`.
pub open spec fn first_index(s: Seq<char>, c: char) -> Option<int>
    decreases s.len(),
{
    if s.len() == 0 {
        None
    } else if s[0] == c {
        Some(0)
    } else {
        match first_index(s.drop_first(), c) {
            Some(i) => Some(i + 1),
            None => None,
        }
    }
}

proof fn lemma_first_index(s: Seq<char>, c: char, p: int)
    requires
        0 <= p <= s.len(),
        forall|k: int| 0 <= k < p ==> s[k] != c,
        p == s.len() || s[p] == c,
    ensures
        first_index(s, c) == if p == s.len() {
            None::<int>
        } else {
            Some(p)
        },
    decreases p,
{
    if p > 0 {
        let d = s.drop_first();
        assert forall|k: int| 0 <= k < p - 1 implies d[k] != c by {
            assert(d[k] == s[k + 1]);
        }
        if p < s.len() {
            assert(d[p - 1] == s[p]);
        }
        lemma_first_index(d, c, p - 1);
    }
}

/// Position of the first `c` in the characters.
pub fn find_char(cs: &Vec<char>, c: char) -> (r: Option<usize>)
    ensures
        match r {
            Some(i) => first_index(cs@, c) == Some(i as int) && i < cs.len(),
            None => first_index(cs@, c) is None,
        },
{
    let mut i: usize = 0;
    while i < cs.len()
        invariant
            i <= cs.len(),
            forall|k: int| 0 <= k < i ==> cs@[k] != c,
        decreases cs.len() - i,
    {
        if cs[i] == c {
            proof {
                lemma_first_index(cs@, c, i as int);
            }
            return Some(i);
        }
        i += 1;
    }
    proof {
        lemma_first_index(cs@, c, cs.len() as int);
    }
    None
}

/// A line with white space trimmed and a `#` comment cut off.
pub open spec fn c_input_spec(s: Seq<char>) -> Seq<char> {
    let t = trim(s);
    match first_index(t, '#') {
        Some(i) => trim(t.take(i)),
        None => t,
    }
}

/// Trims a line and cuts off a `#` comment.
pub fn c_input(line: &str) -> (r: String)
    ensures
        r@ == c_input_spec(line@),
{
    let t = trim_str(line);
    let cs = chars_of(t.as_str());
    proof {
        assert(cs@ == t@);
    }
    match find_char(&cs, '#') {
        Some(i) => {
            let head = substring(&cs, 0, i);
            proof {
                assert(cs@.subrange(0, i as int) =~= cs@.take(i as int));
            }
            trim_str(head.as_str())
        },
        None => t,
    }
}

/// The numbers among the tokens, in order (tokens that are not numbers are skipped).
pub open spec fn parsed_ints(toks: Seq<Seq<char>>) -> Seq<i64>
    decreases toks.len(),
{
    if toks.len() == 0 {
        Seq::empty()
    } else {
        parsed_ints(toks.drop_last()) + match parse_i64_spec(toks.last()) {
            Some(v) => seq![v],
            None => Seq::empty(),
        }
    }
}

/// The universe line: its numeric tokens.
pub fn parse_universe(line: &str) -> (r: Vec<i64>)
    ensures
        r@ == parsed_ints(tokens(line@)),
{
    let toks = split_ws(line);
    let ghost tv = views(toks@);
    let mut out: Vec<i64> = Vec::new();
    let mut i: usize = 0;
    proof {
        assert(tv.take(0) =~= Seq::<Seq<char>>::empty());
    }
    while i < toks.len()
        invariant
            i <= toks.len(),
            tv == views(toks@),
            out@ == parsed_ints(tv.take(i as int)),
        decreases toks.len() - i,
    {
        proof {
            assert(tv.take(i + 1).drop_last() =~= tv.take(i as int));
            assert(tv.take(i + 1).last() == toks@[i as int]@);
        }
        match parse_i64(toks[i].as_str()) {
            Some(v) => {
                out.push(v);
            },
            None => {},
        }
        i += 1;
        proof {
            assert(out@ =~= parsed_ints(tv.take(i as int)));
        }
    }
    proof {
        assert(tv.take(toks.len() as int) =~= tv);
    }
    out
}

/// A relation declaration `SYM N ARITY`: name, number of tuples, arity.
pub open spec fn defrel_spec(line: Seq<char>) -> Result<(Seq<char>, usize, usize), Seq<char>> {
    let parts = tokens(line);
    if parts.len() != 3 {
        Err("Relation declaration needs SYM N ARITY"@)
    } else {
        match parse_usize_text(parts[1]) {
            None => Err("Invalid ntuples"@),
            Some(n) => match parse_usize_text(parts[2]) {
                None => Err("Invalid arity"@),
                Some(a) => if a == 0 {
                    Err("0-arity relation: use 0-arity operation for constants"@)
                } else {
                    Ok((parts[0], n, a))
                },
            },
        }
    }
}

/// Reads a relation declaration `SYM N ARITY`.
pub fn parse_defrel(line: &str) -> (r: Result<(String, usize, usize), String>)
    ensures
        match defrel_spec(line@) {
            Ok((s, n, a)) => r matches Ok((rs, rn, ra)) && rs@ == s && rn == n && ra == a,
            Err(e) => r matches Err(re) && re@ == e,
        },
{
    let parts = split_ws(line);
    proof {
        assert(views(parts@).len() == parts.len());
    }
    if parts.len() != 3 {
        return Err("Relation declaration needs SYM N ARITY".to_string());
    }
    proof {
        assert(views(parts@)[1] == parts@[1]@);
        assert(views(parts@)[2] == parts@[2]@);
        assert(views(parts@)[0] == parts@[0]@);
    }
    let ntuples = match parse_usize_str(parts[1].as_str()) {
        Some(n) => n,
        None => return Err("Invalid ntuples".to_string()),
    };
    let arity = match parse_usize_str(parts[2].as_str()) {
        Some(a) => a,
        None => return Err("Invalid arity".to_string()),
    };
    if arity == 0 {
        return Err("0-arity relation: use 0-arity operation for constants".to_string());
    }
    Ok((parts[0].clone(), ntuples, arity))
}

/// An operation declaration `SYM ARITY`: name and arity.
pub open spec fn defop_spec(line: Seq<char>) -> Result<(Seq<char>, usize), Seq<char>> {
    let parts = tokens(line);
    if parts.len() != 2 {
        Err("Operation declaration needs SYM ARITY"@)
    } else {
        match parse_usize_text(parts[1]) {
            None => Err("Invalid arity"@),
            Some(a) => Ok((parts[0], a)),
        }
    }
}

/// Reads an operation declaration `SYM ARITY`.
pub fn parse_defop(line: &str) -> (r: Result<(String, usize), String>)
    ensures
        match defop_spec(line@) {
            Ok((s, a)) => r matches Ok((rs, ra)) && rs@ == s && ra == a,
            Err(e) => r matches Err(re) && re@ == e,
        },
{
    let parts = split_ws(line);
    proof {
        assert(views(parts@).len() == parts.len());
    }
    if parts.len() != 2 {
        return Err("Operation declaration needs SYM ARITY".to_string());
    }
    proof {
        assert(views(parts@)[1] == parts@[1]@);
        assert(views(parts@)[0] == parts@[0]@);
    }
    let arity = match parse_usize_str(parts[1].as_str()) {
        Some(a) => a,
        None => return Err("Invalid arity".to_string()),
    };
    Ok((parts[0].clone(), arity))
}

/// Numbers joined by `, `.
pub open spec fn ints_joined(u: Seq<i64>) -> Seq<char>
    decreases u.len(),
{
    if u.len() == 0 {
        Seq::empty()
    } else if u.len() == 1 {
        int_text(u[0] as int)
    } else {
        ints_joined(u.drop_last()) + ", "@ + int_text(u.last() as int)
    }
}

/// A list of numbers as `[a, b, c]`.
pub open spec fn list_text(u: Seq<i64>) -> Seq<char> {
    seq!['['] + ints_joined(u) + seq![']']
}

/// Writes a list of numbers as `[a, b, c]`.
pub fn push_list_text(s: &mut String, u: &[i64])
    ensures
        final(s)@ == old(s)@ + list_text(u@),
{
    let ghost start = old(s)@;
    push_char(s, '[');
    let mut i: usize = 0;
    proof {
        assert(u@.take(0) =~= Seq::<i64>::empty());
        assert(s@ =~= start + seq!['['] + ints_joined(u@.take(0)));
    }
    while i < u.len()
        invariant
            i <= u.len(),
            s@ == start + seq!['['] + ints_joined(u@.take(i as int)),
        decreases u.len() - i,
    {
        if i > 0 {
            push_str(s, ", ");
        }
        push_int(s, u[i]);
        proof {
            let t1 = u@.take(i + 1);
            assert(t1.drop_last() =~= u@.take(i as int));
            assert(t1.last() == u@[i as int]);
            if i == 0 {
                assert(t1.len() == 1);
                assert(t1[0] == u@[0]);
            }
            assert(s@ =~= start + seq!['['] + ints_joined(t1));
        }
        i += 1;
    }
    push_char(s, ']');
    proof {
        assert(u@.take(u.len() as int) =~= u@);
        assert(s@ =~= start + list_text(u@));
    }
}

/// A table row: every token a number of the universe; the first bad token gives the error.
pub open spec fn tuple_spec(toks: Seq<Seq<char>>, u: Seq<i64>) -> Result<Seq<i64>, Seq<char>>
    decreases toks.len(),
{
    if toks.len() == 0 {
        Ok(Seq::empty())
    } else {
        match tuple_spec(toks.drop_last(), u) {
            Err(e) => Err(e),
            Ok(r) => match parse_i64_spec(toks.last()) {
                None => Err("Invalid number: "@ + toks.last()),
                Some(x) => if u.contains(x) {
                    Ok(r.push(x))
                } else {
                    Err(int_text(x as int) + " not in universe "@ + list_text(u))
                },
            },
        }
    }
}

/// Reads a table row of universe elements.
pub fn parse_tuple(line: &str, universe: &[i64]) -> (r: Result<Vec<i64>, String>)
    ensures
        match tuple_spec(tokens(line@), universe@) {
            Ok(t) => r matches Ok(rt) && rt@ == t,
            Err(e) => r matches Err(re) && re@ == e,
        },
{
    let parts = split_ws(line);
    let ghost tv = views(parts@);
    let mut tuple: Vec<i64> = Vec::new();
    let mut i: usize = 0;
    proof {
        assert(tv.take(0) =~= Seq::<Seq<char>>::empty());
    }
    while i < parts.len()
        invariant
            i <= parts.len(),
            tv == views(parts@),
            tv == tokens(line@),
            tuple_spec(tv.take(i as int), universe@) == Ok::<Seq<i64>, Seq<char>>(tuple@),
        decreases parts.len() - i,
    {
        let ghost t1 = tv.take(i + 1);
        proof {
            assert(t1.drop_last() =~= tv.take(i as int));
            assert(t1.last() == parts@[i as int]@);
        }
        let x = match parse_i64(parts[i].as_str()) {
            Some(x) => x,
            None => {
                let mut msg = String::new();
                push_str(&mut msg, "Invalid number: ");
                push_str(&mut msg, parts[i].as_str());
                proof {
                    lemma_tuple_spec_err_prefix(tv, universe@, i + 1);
                }
                return Err(msg);
            },
        };
        if !crate::util::elem_in(universe, x) {
            let mut msg = String::new();
            push_int(&mut msg, x);
            push_str(&mut msg, " not in universe ");
            push_list_text(&mut msg, universe);
            proof {
                lemma_tuple_spec_err_prefix(tv, universe@, i + 1);
            }
            return Err(msg);
        }
        tuple.push(x);
        i += 1;
    }
    proof {
        assert(tv.take(parts.len() as int) =~= tv);
    }
    Ok(tuple)
}

/// An error on a prefix of the tokens is the error on all of them.
proof fn lemma_tuple_spec_err_prefix(toks: Seq<Seq<char>>, u: Seq<i64>, k: int)
    requires
        0 <= k <= toks.len(),
        tuple_spec(toks.take(k), u) is Err,
    ensures
        tuple_spec(toks, u) == tuple_spec(toks.take(k), u),
    decreases toks.len() - k,
{
    if k < toks.len() {
        let t1 = toks.take(k + 1);
        assert(t1.drop_last() =~= toks.take(k));
        lemma_tuple_spec_err_prefix(toks, u, k + 1);
    } else {
        assert(toks.take(k) =~= toks);
    }
}

/// Nesting depth after a closing parenthesis (never below zero).
pub open spec fn close_depth(depth: nat) -> nat {
    if depth == 0 {
        0
    } else {
        (depth - 1) as nat
    }
}

/// First position from `i` on holding `ch` outside parentheses, reading with
/// nesting depth `depth`.
pub open spec fn top_level_from(s: Seq<char>, ch: char, i: int, depth: nat) -> Option<int>
    decreases s.len() - i,
{
    if i < 0 || i >= s.len() {
        None
    } else if s[i] == '(' {
        top_level_from(s, ch, i + 1, depth + 1)
    } else if s[i] == ')' {
        top_level_from(s, ch, i + 1, close_depth(depth))
    } else if s[i] == ch && depth == 0 {
        Some(i)
    } else {
        top_level_from(s, ch, i + 1, depth)
    }
}

/// First position of `ch` outside parentheses.
pub open spec fn top_level_index(s: Seq<char>, ch: char) -> Option<int> {
    top_level_from(s, ch, 0, 0)
}

proof fn lemma_top_level_range(s: Seq<char>, ch: char, i: int, depth: nat)
    requires
        0 <= i,
    ensures
        match top_level_from(s, ch, i, depth) {
            Some(k) => i <= k < s.len(),
            None => true,
        },
    decreases s.len() - i,
{
    if i < s.len() {
        if s[i] == '(' {
            lemma_top_level_range(s, ch, i + 1, depth + 1);
        } else if s[i] == ')' {
            lemma_top_level_range(s, ch, i + 1, close_depth(depth));
        } else if !(s[i] == ch && depth == 0) {
            lemma_top_level_range(s, ch, i + 1, depth);
        }
    }
}

/// Position of the first `ch` outside parentheses.
pub fn find_top_level(cs: &Vec<char>, ch: char) -> (r: Option<usize>)
    ensures
        match r {
            Some(i) => top_level_index(cs@, ch) == Some(i as int) && i < cs.len(),
            None => top_level_index(cs@, ch) is None,
        },
{
    let mut depth: usize = 0;
    let mut i: usize = 0;
    while i < cs.len()
        invariant
            i <= cs.len(),
            depth <= i,
            top_level_index(cs@, ch) == top_level_from(cs@, ch, i as int, depth as nat),
        decreases cs.len() - i,
    {
        let c = cs[i];
        if c == '(' {
            depth += 1;
        } else if c == ')' {
            if depth > 0 {
                depth -= 1;
            }
        } else if c == ch && depth == 0 {
            return Some(i);
        }
        i += 1;
    }
    None
}

/// Pieces of `s` between top-level occurrences of `ch`, each trimmed; reading
/// from `i` with nesting depth `depth`, current piece `cur` and pieces `acc`.
/// A final empty piece is dropped.
pub open spec fn split_from(s: Seq<char>, ch: char, i: int, depth: nat, cur: Seq<char>, acc: Seq<Seq<char>>) -> Seq<Seq<char>>
    decreases s.len() - i,
{
    if i < 0 || i >= s.len() {
        if cur.len() > 0 {
            acc.push(trim(cur))
        } else {
            acc
        }
    } else if s[i] == '(' {
        split_from(s, ch, i + 1, depth + 1, cur.push(s[i]), acc)
    } else if s[i] == ')' {
        split_from(s, ch, i + 1, close_depth(depth), cur.push(s[i]), acc)
    } else if s[i] == ch && depth == 0 {
        split_from(s, ch, i + 1, depth, Seq::empty(), acc.push(trim(cur)))
    } else {
        split_from(s, ch, i + 1, depth, cur.push(s[i]), acc)
    }
}

/// Trimmed pieces of `s` between top-level occurrences of `ch`.
pub open spec fn split_top(s: Seq<char>, ch: char) -> Seq<Seq<char>> {
    split_from(s, ch, 0, 0, Seq::empty(), Seq::empty())
}

proof fn lemma_split_len(s: Seq<char>, ch: char, i: int, depth: nat, cur: Seq<char>, acc: Seq<Seq<char>>)
    requires
        0 <= i <= s.len(),
        cur.len() <= i,
        forall|k: int| 0 <= k < acc.len() ==> (#[trigger] acc[k]).len() <= s.len(),
    ensures
        forall|k: int|
            0 <= k < split_from(s, ch, i, depth, cur, acc).len() ==> (#[trigger] split_from(
                s,
                ch,
                i,
                depth,
                cur,
                acc,
            )[k]).len() <= s.len(),
    decreases s.len() - i,
{
    lemma_trim_len(cur);
    if i >= s.len() {
        if cur.len() > 0 {
            assert forall|k: int| 0 <= k < acc.push(trim(cur)).len() implies (#[trigger] acc.push(trim(cur))[k]).len()
                <= s.len() by {
                if k < acc.len() {
                    assert(acc.push(trim(cur))[k] == acc[k]);
                }
            }
        }
    } else if s[i] == '(' {
        lemma_split_len(s, ch, i + 1, depth + 1, cur.push(s[i]), acc);
        assert(split_from(s, ch, i, depth, cur, acc) == split_from(s, ch, i + 1, depth + 1, cur.push(s[i]), acc));
    } else if s[i] == ')' {
        lemma_split_len(s, ch, i + 1, close_depth(depth), cur.push(s[i]), acc);
        assert(split_from(s, ch, i, depth, cur, acc) == split_from(
            s,
            ch,
            i + 1,
            close_depth(depth),
            cur.push(s[i]),
            acc,
        ));
    } else if s[i] == ch && depth == 0 {
        let acc2 = acc.push(trim(cur));
        assert forall|k: int| 0 <= k < acc2.len() implies (#[trigger] acc2[k]).len() <= s.len() by {
            if k < acc.len() {
                assert(acc2[k] == acc[k]);
            }
        }
        lemma_split_len(s, ch, i + 1, depth, Seq::empty(), acc2);
        assert(split_from(s, ch, i, depth, cur, acc) == split_from(s, ch, i + 1, depth, Seq::empty(), acc2));
    } else {
        lemma_split_len(s, ch, i + 1, depth, cur.push(s[i]), acc);
        assert(split_from(s, ch, i, depth, cur, acc) == split_from(s, ch, i + 1, depth, cur.push(s[i]), acc));
    }
}

/// Trimmed pieces between top-level occurrences of `ch` (a final empty piece is dropped).
pub fn split_top_level(cs: &Vec<char>, ch: char) -> (r: Vec<Vec<char>>)
    ensures
        r.deep_view() == split_top(cs@, ch),
{
    let mut result: Vec<Vec<char>> = Vec::new();
    let mut current: Vec<char> = Vec::new();
    let mut depth: usize = 0;
    let mut i: usize = 0;
    proof {
        assert(result.deep_view() =~= Seq::<Seq<char>>::empty());
        assert(current@ =~= Seq::<char>::empty());
    }
    while i < cs.len()
        invariant
            i <= cs.len(),
            depth <= i,
            split_top(cs@, ch) == split_from(cs@, ch, i as int, depth as nat, current@, result.deep_view()),
        decreases cs.len() - i,
    {
        let c = cs[i];
        if c == '(' {
            depth += 1;
            current.push(c);
        } else if c == ')' {
            if depth > 0 {
                depth -= 1;
            }
            current.push(c);
        } else if c == ch && depth == 0 {
            let piece = trim_chars(&current);
            let ghost before = result.deep_view();
            result.push(piece);
            current = Vec::new();
            proof {
                assert(result.deep_view() =~= before.push(piece@));
                assert(current@ =~= Seq::<char>::empty());
            }
        } else {
            current.push(c);
        }
        i += 1;
    }
    if current.len() > 0 {
        let piece = trim_chars(&current);
        let ghost before = result.deep_view();
        result.push(piece);
        proof {
            assert(result.deep_view() =~= before.push(piece@));
        }
    }
    result
}

/// The characters without leading and trailing white space.
pub fn trim_chars(cs: &Vec<char>) -> (r: Vec<char>)
    ensures
        r@ == trim(cs@),
        r.deep_view() == trim(cs@),
{
    let (a, b) = crate::text::trim_bounds(cs);
    let mut r: Vec<char> = Vec::new();
    let mut i: usize = a;
    proof {
        assert(r@ =~= cs@.subrange(a as int, a as int));
    }
    while i < b
        invariant
            a <= i <= b <= cs.len(),
            r@ == cs@.subrange(a as int, i as int),
        decreases b - i,
    {
        r.push(cs[i]);
        i += 1;
        proof {
            assert(r@ =~= cs@.subrange(a as int, i as int));
        }
    }
    proof {
        assert(r.deep_view() =~= r@);
    }
    r
}

/// First position of `t` in `vs`.
pub open spec fn index_in(vs: Seq<Seq<char>>, t: Seq<char>) -> Option<int>
    decreases vs.len(),
{
    if vs.len() == 0 {
        None
    } else if vs[0] == t {
        Some(0)
    } else {
        match index_in(vs.drop_first(), t) {
            Some(i) => Some(i + 1),
            None => None,
        }
    }
}

/// There is an operation named `name` of arity `k`.
pub open spec fn op_has(ops: Seq<Operation>, name: Seq<char>, k: nat) -> bool {
    match first_op(ops, name) {
        Some(op) => op.arity == k,
        None => false,
    }
}

/// A term: a declared variable, or `f(t1, .., tn)` with `f` an operation of arity `n`.
/// The `i`-th declared name stands for the variable `x_i`.
pub open spec fn term_spec(s: Seq<char>, vars: Seq<Seq<char>>, ops: Seq<Operation>) -> Result<TermV, Seq<char>>
    decreases s.len(), 1nat, 0nat,
{
    let t = trim(s);
    if t.len() == 0 {
        Err("Empty term"@)
    } else if t.len() > s.len() {
        Err(Seq::empty())
    } else {
        match index_in(vars, t) {
            Some(i) => Ok(TermV::Var(var_name((i as i32) as int))),
            None => match first_index(t, '(') {
                None => Err("Unknown symbol in term: "@ + t),
                Some(lp) => if t.last() != ')' || lp < 0 || lp >= t.len() - 1 {
                    Err("Unclosed parenthesis in term: "@ + t)
                } else {
                    let parts = split_top(t.subrange(lp + 1, t.len() - 1), ',');
                    match terms_spec(parts, vars, ops, t.len()) {
                        Err(e) => Err(e),
                        Ok(args) => if op_has(ops, t.take(lp), args.len()) {
                            Ok(TermV::Op(t.take(lp), args.len(), args))
                        } else {
                            Err("Unknown operation "@ + t.take(lp) + " with arity "@ + int_text(args.len() as int))
                        },
                    }
                },
            },
        }
    }
}

/// The terms of the pieces, in order; the first failing piece gives the error.
/// Every piece is shorter than `n`.
pub open spec fn terms_spec(parts: Seq<Seq<char>>, vars: Seq<Seq<char>>, ops: Seq<Operation>, n: nat) -> Result<
    Seq<TermV>,
    Seq<char>,
>
    decreases n, 0nat, parts.len(),
{
    if parts.len() == 0 {
        Ok(Seq::empty())
    } else {
        match terms_spec(parts.drop_last(), vars, ops, n) {
            Err(e) => Err(e),
            Ok(ts) => if parts.last().len() >= n {
                Err(Seq::empty())
            } else {
                match term_spec(parts.last(), vars, ops) {
                    Err(e) => Err(e),
                    Ok(t) => Ok(ts.push(t)),
                }
            },
        }
    }
}

/// Position of the first declared name equal to `t`.
fn find_name(vars: &Vec<Vec<char>>, t: &Vec<char>) -> (r: Option<usize>)
    ensures
        match r {
            Some(i) => index_in(vars.deep_view(), t@) == Some(i as int) && i < vars.len(),
            None => index_in(vars.deep_view(), t@) is None,
        },
{
    let ghost vv = vars.deep_view();
    let mut i: usize = 0;
    proof {
        assert(vv.skip(0) =~= vv);
    }
    while i < vars.len()
        invariant
            i <= vars.len(),
            vv == vars.deep_view(),
            index_in(vv, t@) == match index_in(vv.skip(i as int), t@) {
                Some(k) => Some(k + i),
                None => None::<int>,
            },
        decreases vars.len() - i,
    {
        proof {
            assert(vv.skip(i as int)[0] == vars@[i as int]@);
            assert(vv.skip(i as int).drop_first() =~= vv.skip(i + 1));
        }
        if chars_eq(&vars[i], t) {
            return Some(i);
        }
        i += 1;
    }
    proof {
        assert(vv.skip(vars.len() as int) =~= Seq::<Seq<char>>::empty());
    }
    None
}

/// The characters are equal.
pub fn chars_eq(a: &Vec<char>, b: &Vec<char>) -> (r: bool)
    ensures
        r == (a@ == b@),
{
    if a.len() != b.len() {
        return false;
    }
    let mut i: usize = 0;
    while i < a.len()
        invariant
            i <= a.len(),
            a.len() == b.len(),
            forall|k: int| 0 <= k < i ==> a@[k] == b@[k],
        decreases a.len() - i,
    {
        if a[i] != b[i] {
            return false;
        }
        i += 1;
    }
    proof {
        assert(a@ =~= b@);
    }
    true
}

/// The characters `a .. b` as a new vector.
pub fn sub_chars(cs: &Vec<char>, a: usize, b: usize) -> (r: Vec<char>)
    requires
        a <= b <= cs.len(),
    ensures
        r@ == cs@.subrange(a as int, b as int),
{
    let mut r: Vec<char> = Vec::new();
    let mut i: usize = a;
    proof {
        assert(r@ =~= cs@.subrange(a as int, a as int));
    }
    while i < b
        invariant
            a <= i <= b <= cs.len(),
            r@ == cs@.subrange(a as int, i as int),
        decreases b - i,
    {
        r.push(cs[i]);
        i += 1;
        proof {
            assert(r@ =~= cs@.subrange(a as int, i as int));
        }
    }
    r
}

/// The characters as a string.
pub fn chars_string(cs: &Vec<char>) -> (r: String)
    ensures
        r@ == cs@,
{
    let r = substring(cs, 0, cs.len());
    proof {
        assert(cs@.subrange(0, cs.len() as int) =~= cs@);
    }
    r
}

/// Reads a term.
pub fn parse_term(cs: &Vec<char>, vars: &Vec<Vec<char>>, ops: &Vec<Operation>) -> (r: Result<Term, String>)
    ensures
        match term_spec(cs@, vars.deep_view(), ops@) {
            Ok(t) => r matches Ok(rt) && term_view(rt) == t,
            Err(e) => r matches Err(re) && re@ == e,
        },
    decreases cs.len(),
{
    let t = trim_chars(cs);
    proof {
        lemma_trim_len(cs@);
    }
    if t.len() == 0 {
        return Err("Empty term".to_string());
    }
    match find_name(vars, &t) {
        Some(i) => {
            return Ok(Term::Variable(Variable::from_index(i as i32)));
        },
        None => {},
    }
    let lp = match find_char(&t, '(') {
        Some(lp) => lp,
        None => {
            let mut msg = String::new();
            push_str(&mut msg, "Unknown symbol in term: ");
            let ts = chars_string(&t);
            push_str(&mut msg, ts.as_str());
            return Err(msg);
        },
    };
    if t[t.len() - 1] != ')' || lp >= t.len() - 1 {
        let mut msg = String::new();
        push_str(&mut msg, "Unclosed parenthesis in term: ");
        let ts = chars_string(&t);
        push_str(&mut msg, ts.as_str());
        return Err(msg);
    }
    let name = sub_chars(&t, 0, lp);
    let args_cs = sub_chars(&t, lp + 1, t.len() - 1);
    let parts = split_top_level(&args_cs, ',');
    let ghost pv = parts.deep_view();
    proof {
        assert(name@ =~= t@.take(lp as int));
        lemma_split_len(args_cs@, ',', 0, 0, Seq::empty(), Seq::empty());
        assert(pv.len() == parts.len());
    }
    let mut args: Vec<Term> = Vec::new();
    let mut k: usize = 0;
    proof {
        assert(pv.take(0) =~= Seq::<Seq<char>>::empty());
        assert(terms_view(args@) =~= Seq::<TermV>::empty());
    }
    while k < parts.len()
        invariant
            k <= parts.len(),
            pv == parts.deep_view(),
            pv.len() == parts.len(),
            forall|x: int| 0 <= x < pv.len() ==> (#[trigger] pv[x]).len() <= args_cs@.len(),
            args_cs@.len() < t@.len(),
            t@.len() <= cs@.len(),
            t@ == trim(cs@),
            t@.len() > 0,
            index_in(vars.deep_view(), t@) is None,
            first_index(t@, '(') == Some(lp as int),
            t@.last() == ')',
            lp < t@.len() - 1,
            args_cs@ == t@.subrange(lp + 1, t@.len() - 1),
            pv == split_top(args_cs@, ','),
            terms_spec(pv.take(k as int), vars.deep_view(), ops@, t@.len()) == Ok::<Seq<TermV>, Seq<char>>(
                terms_view(args@),
            ),
        decreases parts.len() - k,
    {
        proof {
            assert(pv[k as int] == parts@[k as int]@);
            assert(pv.take(k + 1).drop_last() =~= pv.take(k as int));
            assert(pv.take(k + 1).last() == pv[k as int]);
        }
        let piece = trim_chars(&parts[k]);
        proof {
            lemma_trim_len(parts@[k as int]@);
            lemma_term_trim(parts@[k as int]@, vars.deep_view(), ops@);
        }
        match parse_term(&piece, vars, ops) {
            Ok(a) => {
                let ghost before = args@;
                args.push(a);
                proof {
                    assert(args@.drop_last() =~= before);
                }
            },
            Err(e) => {
                proof {
                    assert(terms_spec(pv.take(k + 1), vars.deep_view(), ops@, t@.len()) == Err::<Seq<TermV>, Seq<char>>(e@));
                    lemma_terms_err_prefix(pv, vars.deep_view(), ops@, t@.len(), k + 1);
                    assert(term_spec(cs@, vars.deep_view(), ops@) == Err::<TermV, Seq<char>>(e@));
                }
                return Err(e);
            },
        }
        k += 1;
    }
    proof {
        assert(pv.take(parts.len() as int) =~= pv);
        crate::first_order::formulas::lemma_terms_view(args@);
    }
    let arity = args.len();
    let name_s = chars_string(&name);
    let found = match find_operation(ops, &name_s) {
        Some(i) => ops[i].arity == arity,
        None => false,
    };
    proof {
        crate::first_order::formulas::lemma_first_op(ops@, name@);
    }
    if found {
        Ok(Term::OpTerm { sym: OpSym::new(name_s.as_str(), arity), args })
    } else {
        let mut msg = String::new();
        push_str(&mut msg, "Unknown operation ");
        push_str(&mut msg, name_s.as_str());
        push_str(&mut msg, " with arity ");
        push_usize(&mut msg, arity);
        Err(msg)
    }
}

/// Trimming first reads the same term.
proof fn lemma_term_trim(s: Seq<char>, vars: Seq<Seq<char>>, ops: Seq<Operation>)
    ensures
        term_spec(trim(s), vars, ops) == term_spec(s, vars, ops),
{
    crate::text::lemma_trim_idem(s);
    lemma_trim_len(s);
}

/// An error on a prefix of the pieces is the error on all of them.
proof fn lemma_terms_err_prefix(parts: Seq<Seq<char>>, vars: Seq<Seq<char>>, ops: Seq<Operation>, n: nat, k: int)
    requires
        0 <= k <= parts.len(),
        terms_spec(parts.take(k), vars, ops, n) is Err,
    ensures
        terms_spec(parts, vars, ops, n) == terms_spec(parts.take(k), vars, ops, n),
    decreases parts.len() - k,
{
    if k < parts.len() {
        let t1 = parts.take(k + 1);
        assert(t1.drop_last() =~= parts.take(k));
        lemma_terms_err_prefix(parts, vars, ops, n, k + 1);
    } else {
        assert(parts.take(k) =~= parts);
    }
}

/// Position of the parenthesis closing the one opened before position `k`,
/// reading from `k` at nesting depth `depth`.
pub open spec fn close_from(t: Seq<char>, k: int, depth: int) -> Option<int>
    decreases t.len() - k,
{
    if k < 0 || k >= t.len() {
        None
    } else if t[k] == '(' {
        close_from(t, k + 1, depth + 1)
    } else if t[k] == ')' {
        if depth - 1 == 0 {
            Some(k)
        } else {
            close_from(t, k + 1, depth - 1)
        }
    } else {
        close_from(t, k + 1, depth)
    }
}

/// Position of the first comma outside parentheses, reading from `k` at depth `depth`.
pub open spec fn comma_from(t: Seq<char>, k: int, depth: int) -> Option<int>
    decreases t.len() - k,
{
    if k < 0 || k >= t.len() {
        None
    } else if t[k] == '(' {
        comma_from(t, k + 1, depth + 1)
    } else if t[k] == ')' {
        comma_from(t, k + 1, depth - 1)
    } else if t[k] == ',' && depth == 0 {
        Some(k)
    } else {
        comma_from(t, k + 1, depth)
    }
}

proof fn lemma_close_range(t: Seq<char>, k: int, depth: int)
    requires
        0 <= k,
    ensures
        match close_from(t, k, depth) {
            Some(c) => k <= c < t.len(),
            None => true,
        },
    decreases t.len() - k,
{
    if k < t.len() {
        if t[k] == '(' {
            lemma_close_range(t, k + 1, depth + 1);
        } else if t[k] == ')' {
            if depth - 1 != 0 {
                lemma_close_range(t, k + 1, depth - 1);
            }
        } else {
            lemma_close_range(t, k + 1, depth);
        }
    }
}

proof fn lemma_comma_range(t: Seq<char>, k: int, depth: int)
    requires
        0 <= k,
    ensures
        match comma_from(t, k, depth) {
            Some(c) => k <= c < t.len(),
            None => true,
        },
    decreases t.len() - k,
{
    if k < t.len() {
        if t[k] == '(' {
            lemma_comma_range(t, k + 1, depth + 1);
        } else if t[k] == ')' {
            lemma_comma_range(t, k + 1, depth - 1);
        } else if !(t[k] == ',' && depth == 0) {
            lemma_comma_range(t, k + 1, depth);
        }
    }
}

/// `eq(t1, t2)`: the equality of two terms. An `eq(` whose parenthesis is never
/// closed is refused.
pub open spec fn eq_atom_spec(t: Seq<char>, vars: Seq<Seq<char>>, ops: Seq<Operation>) -> Result<FormulaV, Seq<char>> {
    match close_from(t, 3, 1) {
        None => Err("Unclosed eq("@),
        Some(close) => {
            let inner = t.subrange(3, close);
            match comma_from(inner, 0, 0) {
                None => Err("eq needs two arguments"@),
                Some(c) => match term_spec(trim(inner.take(c)), vars, ops) {
                    Err(e) => Err(e),
                    Ok(a) => match term_spec(trim(inner.skip(c + 1)), vars, ops) {
                        Err(e) => Err(e),
                        Ok(b) => Ok(eq_spec(a, b)),
                    },
                },
            }
        },
    }
}

/// A formula: disjunctions `f | g` bind loosest, then conjunctions `f & g`,
/// then negation `-f`, then atoms `eq(t1, t2)`; each split is at the first
/// top-level operator.
pub open spec fn formula_spec(s: Seq<char>, vars: Seq<Seq<char>>, ops: Seq<Operation>) -> Result<FormulaV, Seq<char>>
    decreases s.len(),
{
    let t = trim(s);
    if t.len() == 0 {
        Err("Empty formula"@)
    } else if t.len() > s.len() {
        Err(Seq::empty())
    } else {
        match top_level_index(t, '|') {
            Some(i) => if i < 0 || i >= t.len() {
                Err(Seq::empty())
            } else {
                match formula_spec(t.take(i), vars, ops) {
                    Err(e) => Err(e),
                    Ok(l) => match formula_spec(t.skip(i + 1), vars, ops) {
                        Err(e) => Err(e),
                        Ok(r) => Ok(or_spec(l, r)),
                    },
                }
            },
            None => match top_level_index(t, '&') {
                Some(i) => if i < 0 || i >= t.len() {
                    Err(Seq::empty())
                } else {
                    match formula_spec(t.take(i), vars, ops) {
                        Err(e) => Err(e),
                        Ok(l) => match formula_spec(t.skip(i + 1), vars, ops) {
                            Err(e) => Err(e),
                            Ok(r) => Ok(and_spec(l, r)),
                        },
                    }
                },
                None => if t[0] == '-' {
                    match formula_spec(t.skip(1), vars, ops) {
                        Err(e) => Err(e),
                        Ok(f) => Ok(neg_spec(f)),
                    }
                } else if t.len() >= 3 && t[0] == 'e' && t[1] == 'q' && t[2] == '(' {
                    eq_atom_spec(t, vars, ops)
                } else {
                    Err("Cannot parse formula: "@ + t)
                },
            },
        }
    }
}

/// Position of the parenthesis closing the one before position 3.
fn find_close(t: &Vec<char>) -> (r: Option<usize>)
    ensures
        match r {
            Some(c) => close_from(t@, 3, 1) == Some(c as int) && 3 <= c < t.len(),
            None => close_from(t@, 3, 1) is None,
        },
{
    let mut depth: i128 = 1;
    let mut k: usize = 3;
    if k > t.len() {
        return None;
    }
    while k < t.len()
        invariant
            3 <= k <= t.len(),
            -(k as int) <= depth <= k as int,
            close_from(t@, 3, 1) == close_from(t@, k as int, depth as int),
        decreases t.len() - k,
    {
        let c = t[k];
        if c == '(' {
            depth += 1;
        } else if c == ')' {
            depth -= 1;
            if depth == 0 {
                return Some(k);
            }
        }
        k += 1;
    }
    None
}

/// Position of the first comma outside parentheses.
fn find_comma(t: &Vec<char>) -> (r: Option<usize>)
    ensures
        match r {
            Some(c) => comma_from(t@, 0, 0) == Some(c as int) && c < t.len(),
            None => comma_from(t@, 0, 0) is None,
        },
{
    let mut depth: i128 = 0;
    let mut k: usize = 0;
    while k < t.len()
        invariant
            k <= t.len(),
            -(k as int) <= depth <= k as int,
            comma_from(t@, 0, 0) == comma_from(t@, k as int, depth as int),
        decreases t.len() - k,
    {
        let c = t[k];
        if c == '(' {
            depth += 1;
        } else if c == ')' {
            depth -= 1;
        } else if c == ',' && depth == 0 {
            return Some(k);
        }
        k += 1;
    }
    None
}

/// Reads `eq(t1, t2)` from characters starting with `eq(`.
fn parse_eq_atom(t: &Vec<char>, vars: &Vec<Vec<char>>, ops: &Vec<Operation>) -> (r: Result<Formula, String>)
    requires
        t.len() >= 3,
    ensures
        match eq_atom_spec(t@, vars.deep_view(), ops@) {
            Ok(f) => r matches Ok(rf) && formula_view(rf) == f,
            Err(e) => r matches Err(re) && re@ == e,
        },
{
    let close = match find_close(t) {
        Some(c) => c,
        None => {
            return Err("Unclosed eq(".to_string());
        },
    };
    let inner = sub_chars(t, 3, close);
    let comma = match find_comma(&inner) {
        Some(c) => c,
        None => {
            return Err("eq needs two arguments".to_string());
        },
    };
    let left = sub_chars(&inner, 0, comma);
    let right = sub_chars(&inner, comma + 1, inner.len());
    let lt = trim_chars(&left);
    let rt = trim_chars(&right);
    proof {
        assert(left@ =~= inner@.take(comma as int));
        assert(right@ =~= inner@.skip(comma + 1));
    }
    let a = match parse_term(&lt, vars, ops) {
        Ok(a) => a,
        Err(e) => return Err(e),
    };
    let b = match parse_term(&rt, vars, ops) {
        Ok(b) => b,
        Err(e) => return Err(e),
    };
    Ok(eq(a, b))
}

/// Reads a formula.
pub fn parse_formula(cs: &Vec<char>, vars: &Vec<Vec<char>>, ops: &Vec<Operation>) -> (r: Result<Formula, String>)
    ensures
        match formula_spec(cs@, vars.deep_view(), ops@) {
            Ok(f) => r matches Ok(rf) && formula_view(rf) == f,
            Err(e) => r matches Err(re) && re@ == e,
        },
    decreases cs.len(),
{
    let t = trim_chars(cs);
    proof {
        lemma_trim_len(cs@);
    }
    if t.len() == 0 {
        return Err("Empty formula".to_string());
    }
    match find_top_level(&t, '|') {
        Some(idx) => {
            let left = sub_chars(&t, 0, idx);
            let right = sub_chars(&t, idx + 1, t.len());
            proof {
                assert(left@ =~= t@.take(idx as int));
                assert(right@ =~= t@.skip(idx + 1));
            }
            let l = match parse_formula(&left, vars, ops) {
                Ok(f) => f,
                Err(e) => return Err(e),
            };
            let r = match parse_formula(&right, vars, ops) {
                Ok(f) => f,
                Err(e) => return Err(e),
            };
            return Ok(l.or_formula(&r));
        },
        None => {},
    }
    match find_top_level(&t, '&') {
        Some(idx) => {
            let left = sub_chars(&t, 0, idx);
            let right = sub_chars(&t, idx + 1, t.len());
            proof {
                assert(left@ =~= t@.take(idx as int));
                assert(right@ =~= t@.skip(idx + 1));
            }
            let l = match parse_formula(&left, vars, ops) {
                Ok(f) => f,
                Err(e) => return Err(e),
            };
            let r = match parse_formula(&right, vars, ops) {
                Ok(f) => f,
                Err(e) => return Err(e),
            };
            return Ok(l.and_formula(&r));
        },
        None => {},
    }
    if t[0] == '-' {
        let rest = sub_chars(&t, 1, t.len());
        proof {
            assert(rest@ =~= t@.skip(1));
        }
        let inner = match parse_formula(&rest, vars, ops) {
            Ok(f) => f,
            Err(e) => return Err(e),
        };
        return Ok(inner.neg());
    }
    if t.len() >= 3 && t[0] == 'e' && t[1] == 'q' && t[2] == '(' {
        return parse_eq_atom(&t, vars, ops);
    }
    let mut msg = String::new();
    push_str(&mut msg, "Cannot parse formula: ");
    let ts = chars_string(&t);
    push_str(&mut msg, ts.as_str());
    Err(msg)
}

/// Pieces of `s` between commas (as `str::split(',')` gives them), reading from
/// `i` with current piece `cur` and pieces `acc`.
pub open spec fn comma_pieces_from(s: Seq<char>, i: int, cur: Seq<char>, acc: Seq<Seq<char>>) -> Seq<Seq<char>>
    decreases s.len() - i,
{
    if i < 0 || i >= s.len() {
        acc.push(cur)
    } else if s[i] == ',' {
        comma_pieces_from(s, i + 1, Seq::empty(), acc.push(cur))
    } else {
        comma_pieces_from(s, i + 1, cur.push(s[i]), acc)
    }
}

/// The declared variable names: the comma-separated pieces, trimmed.
pub open spec fn decl_names(decl: Seq<char>) -> Seq<Seq<char>> {
    comma_pieces_from(decl, 0, Seq::empty(), Seq::empty()).map_values(|p: Seq<char>| trim(p))
}

/// The comma-separated pieces, trimmed.
fn split_decl(cs: &Vec<char>) -> (r: Vec<Vec<char>>)
    ensures
        r.deep_view() == decl_names(cs@),
{
    let mut pieces: Vec<Vec<char>> = Vec::new();
    let ghost mut raw: Seq<Seq<char>> = Seq::empty();
    let mut cur: Vec<char> = Vec::new();
    let mut i: usize = 0;
    proof {
        assert(pieces.deep_view() =~= raw.map_values(|p: Seq<char>| trim(p)));
        assert(cur@ =~= Seq::<char>::empty());
    }
    while i < cs.len()
        invariant
            i <= cs.len(),
            comma_pieces_from(cs@, 0, Seq::empty(), Seq::empty()) == comma_pieces_from(cs@, i as int, cur@, raw),
            pieces.deep_view() == raw.map_values(|p: Seq<char>| trim(p)),
        decreases cs.len() - i,
    {
        if cs[i] == ',' {
            let p = trim_chars(&cur);
            let ghost before = pieces.deep_view();
            pieces.push(p);
            proof {
                let r2 = raw.push(cur@);
                assert(pieces.deep_view() =~= before.push(p@));
                assert(r2.map_values(|q: Seq<char>| trim(q)) =~= raw.map_values(|q: Seq<char>| trim(q)).push(trim(cur@)));
                raw = r2;
            }
            cur = Vec::new();
            proof {
                assert(cur@ =~= Seq::<char>::empty());
            }
        } else {
            cur.push(cs[i]);
        }
        i += 1;
    }
    let p = trim_chars(&cur);
    let ghost before = pieces.deep_view();
    pieces.push(p);
    proof {
        let r2 = raw.push(cur@);
        assert(pieces.deep_view() =~= before.push(p@));
        assert(r2.map_values(|q: Seq<char>| trim(q)) =~= raw.map_values(|q: Seq<char>| trim(q)).push(trim(cur@)));
    }
    pieces
}

/// The line holds `==`.
pub open spec fn has_double_eq(s: Seq<char>) -> bool {
    exists|i: int| 0 <= i < s.len() - 1 && s[i] == '=' && #[trigger] s[i + 1] == '='
}

/// The variable standing for the `j`-th declared name.
pub open spec fn decl_var(j: int) -> Seq<char> {
    var_name((j as i32) as int)
}

/// A tuple of the extension, listed by the declaration `vs`, put in the order of
/// the declared names: coordinate `j` is the value of the `j`-th declared
/// variable, or 0 when it does not occur.
pub open spec fn reorder(s: Seq<i64>, n: nat, vs: Seq<Seq<char>>) -> Seq<i64> {
    Seq::new(
        n,
        |j: int|
            match index_in(vs, decl_var(j)) {
                Some(i) => if i < s.len() {
                    s[i]
                } else {
                    0
                },
                None => 0,
            },
    )
}

/// The tuples of a formula-defined relation: the extension of `f` over the
/// universe, cut to `n` coordinates, each put in declaration order.
pub open spec fn defined_rows(f: FormulaV, universe: Seq<i64>, ops: Seq<Operation>, n: nat) -> Set<Seq<i64>> {
    let vs = choose|vs: Seq<Seq<char>>| is_declaration(vs, f);
    Set::new(|r: Seq<i64>| exists|s: Seq<i64>| in_extension(f, universe, ops, vs, Some(n as usize), s) && r == reorder(s, n, vs))
}

/// A formula line `SYM(x, y, ..) FORMULA`: the name, the arity and the tuples.
pub open spec fn defformula_spec(line: Seq<char>, universe: Seq<i64>, ops: Seq<Operation>) -> Result<
    (Seq<char>, nat, Set<Seq<i64>>),
    Seq<char>,
> {
    if has_double_eq(line) {
        Err("Must use 'eq(x,y)' not '=='"@)
    } else {
        match first_index(line, '(') {
            None => Err("Missing ("@),
            Some(lp) => {
                let sym = trim(line.take(lp));
                let rest = line.skip(lp + 1);
                match first_index(rest, ')') {
                    None => Err("Missing )"@),
                    Some(rp) => {
                        let names = decl_names(trim(rest.take(rp)));
                        let fstr = trim(rest.skip(rp + 1));
                        if !names.no_duplicates() {
                            Err("Repeated variables in declaration"@)
                        } else {
                            match formula_spec(fstr, names, ops) {
                                Err(e) => Err(e),
                                Ok(f) => if !(forall|v: Seq<char>|
                                    #[trigger] formula_vars(f).contains(v) ==> exists|j: int|
                                        0 <= j < names.len() && v == decl_var(j)) {
                                    Err("Formula has free variables not in declaration"@)
                                } else {
                                    Ok((sym, names.len(), defined_rows(f, universe, ops, names.len())))
                                },
                            }
                        }
                    },
                }
            },
        }
    }
}

/// The relation's tuples, as a set.
pub open spec fn rows_set(r: Relation) -> Set<Seq<i64>> {
    r.rows().to_set()
}

/// Finds `==` in the characters.
fn find_double_eq(cs: &Vec<char>) -> (r: bool)
    ensures
        r == has_double_eq(cs@),
{
    let mut i: usize = 0;
    while i < cs.len() && i + 1 < cs.len()
        invariant
            i <= cs.len(),
            forall|k: int| 0 <= k < i && k < cs.len() - 1 ==> !(cs@[k] == '=' && #[trigger] cs@[k + 1] == '='),
        decreases cs.len() - i,
    {
        if cs[i] == '=' && cs[i + 1] == '=' {
            return true;
        }
        i += 1;
    }
    false
}

/// The names are pairwise distinct.
fn names_distinct(names: &Vec<Vec<char>>) -> (r: bool)
    ensures
        r == names.deep_view().no_duplicates(),
{
    let ghost nv = names.deep_view();
    let mut i: usize = 0;
    while i < names.len()
        invariant
            i <= names.len(),
            nv == names.deep_view(),
            forall|a: int, b: int| 0 <= a < i && 0 <= b < names.len() && a != b ==> nv[a] != nv[b],
        decreases names.len() - i,
    {
        let mut j: usize = 0;
        while j < names.len()
            invariant
                i < names.len(),
                j <= names.len(),
                nv == names.deep_view(),
                forall|b: int| 0 <= b < j && b != i ==> nv[i as int] != nv[b],
            decreases names.len() - j,
        {
            proof {
                assert(nv[i as int] == names@[i as int]@);
                assert(nv[j as int] == names@[j as int]@);
            }
            if j != i && chars_eq(&names[i], &names[j]) {
                return false;
            }
            j += 1;
        }
        i += 1;
    }
    true
}

/// Position of a variable name in a list of variables.
fn position_of(vs: &Vec<Variable>, name: &String) -> (r: Option<usize>)
    ensures
        match r {
            Some(i) => index_in(names(vs@), name@) == Some(i as int) && i < vs.len(),
            None => index_in(names(vs@), name@) is None,
        },
{
    let ghost nv = names(vs@);
    let mut i: usize = 0;
    proof {
        assert(nv.skip(0) =~= nv);
    }
    while i < vs.len()
        invariant
            i <= vs.len(),
            nv == names(vs@),
            index_in(nv, name@) == match index_in(nv.skip(i as int), name@) {
                Some(k) => Some(k + i),
                None => None::<int>,
            },
        decreases vs.len() - i,
    {
        proof {
            assert(nv.skip(i as int)[0] == vs@[i as int].sym@);
            assert(nv.skip(i as int).drop_first() =~= nv.skip(i + 1));
        }
        if str_eq(vs[i].sym.as_str(), name.as_str()) {
            return Some(i);
        }
        i += 1;
    }
    proof {
        assert(nv.skip(vs.len() as int) =~= Seq::<Seq<char>>::empty());
    }
    None
}

/// Reads a formula line `SYM(x, y, ..) FORMULA` into the relation it defines
/// over the model's universe and operations.
pub fn parse_defformula(line: &str, model: &Model) -> (r: Result<Relation, String>)
    requires
        ops_wf(model.operations@),
    ensures
        match defformula_spec(line@, model.universe@, model.operations@) {
            Ok((sym, n, rows)) => r matches Ok(rel) && rel.sym@ == sym && rel.arity == n && rel.wf()
                && rel.pattern is None && rel.superrel_sym is None && rel.superrel is None && rows_set(rel) == rows,
            Err(e) => r matches Err(re) && re@ == e,
        },
{
    let cs = chars_of(line);
    if find_double_eq(&cs) {
        return Err("Must use 'eq(x,y)' not '=='".to_string());
    }
    let lp = match find_char(&cs, '(') {
        Some(lp) => lp,
        None => return Err("Missing (".to_string()),
    };
    let sym_raw = sub_chars(&cs, 0, lp);
    let sym = trim_chars(&sym_raw);
    let rest = sub_chars(&cs, lp + 1, cs.len());
    proof {
        assert(sym_raw@ =~= line@.take(lp as int));
        assert(rest@ =~= line@.skip(lp + 1));
    }
    let rp = match find_char(&rest, ')') {
        Some(rp) => rp,
        None => return Err("Missing )".to_string()),
    };
    let decl_raw = sub_chars(&rest, 0, rp);
    let decl = trim_chars(&decl_raw);
    let fraw = sub_chars(&rest, rp + 1, rest.len());
    let fstr = trim_chars(&fraw);
    proof {
        assert(decl_raw@ =~= rest@.take(rp as int));
        assert(fraw@ =~= rest@.skip(rp + 1));
    }
    let dnames = split_decl(&decl);
    if !names_distinct(&dnames) {
        return Err("Repeated variables in declaration".to_string());
    }
    let formula = match parse_formula(&fstr, &dnames, &model.operations) {
        Ok(f) => f,
        Err(e) => return Err(e),
    };
    let ghost f = formula_view(formula);
    let n = dnames.len();
    let ghost nv = dnames.deep_view();
    proof {
        assert(nv.len() == n);
    }
    // every free variable is declared
    let free = formula.free_vars();
    let all_ok = all_declared(&free, n);
    if !all_ok {
        proof {
            let x = choose|x: int| 0 <= x < free.len() && !declared(#[trigger] names(free@)[x], n as int);
            assert(names(free@).contains(names(free@)[x]));
            assert(name_set(free@).contains(names(free@)[x]));
        }
        return Err("Formula has free variables not in declaration".to_string());
    }
    proof {
        assert forall|v: Seq<char>| #[trigger] formula_vars(f).contains(v) implies exists|j: int|
            0 <= j < n && v == decl_var(j) by {
            assert(name_set(free@).contains(v));
            let x = choose|x: int| 0 <= x < names(free@).len() && names(free@)[x] == v;
            assert(declared(names(free@)[x], n as int));
        }
    }
    let ext = formula.extension(model, Some(n));
    let decl_list = formula.implied_declaration();
    let ghost vs = names(decl_list@);
    let ghost ev = ext.deep_view();
    proof {
        assert(is_declaration(vs, f));
    }
    // positions of the declared variables in the implied declaration
    let mut pos: Vec<Option<usize>> = Vec::new();
    let mut j: usize = 0;
    while j < n
        invariant
            j <= n,
            pos.len() == j,
            vs == names(decl_list@),
            forall|x: int| 0 <= x < j ==> match #[trigger] pos@[x] {
                Some(i) => index_in(vs, decl_var(x)) == Some(i as int),
                None => index_in(vs, decl_var(x)) is None,
            },
        decreases n - j,
    {
        let v = Variable::from_index(j as i32);
        let p = position_of(&decl_list, &v.sym);
        pos.push(p);
        j += 1;
    }
    let mut result = Relation::new(sym_string(&sym).as_str(), n);
    let mut t: usize = 0;
    while t < ext.len()
        invariant
            t <= ext.len(),
            ev == ext.deep_view(),
            pos.len() == n,
            forall|x: int| 0 <= x < n ==> match #[trigger] pos@[x] {
                Some(i) => index_in(vs, decl_var(x)) == Some(i as int),
                None => index_in(vs, decl_var(x)) is None,
            },
            result.wf(),
            result.arity == n,
            result.sym@ == sym@,
            result.pattern is None,
            result.superrel_sym is None,
            result.superrel is None,
            forall|r: Seq<i64>| #[trigger] result.has(r) <==> exists|x: int| 0 <= x < t && r == reorder(ev[x], n as nat, vs),
        decreases ext.len() - t,
    {
        let row = &ext[t];
        proof {
            assert(ev[t as int] == row@);
        }
        let mut reordered: Vec<i64> = Vec::new();
        let mut j: usize = 0;
        while j < n
            invariant
                j <= n,
                pos.len() == n,
                ev[t as int] == row@,
                forall|x: int| 0 <= x < n ==> match #[trigger] pos@[x] {
                    Some(i) => index_in(vs, decl_var(x)) == Some(i as int),
                    None => index_in(vs, decl_var(x)) is None,
                },
                reordered@ == reorder(row@, n as nat, vs).take(j as int),
            decreases n - j,
        {
            let val = match pos[j] {
                Some(i) => if i < row.len() {
                    row[i]
                } else {
                    0
                },
                None => 0,
            };
            reordered.push(val);
            j += 1;
            proof {
                assert(reordered@ =~= reorder(row@, n as nat, vs).take(j as int));
            }
        }
        proof {
            assert(reordered@ =~= reorder(row@, n as nat, vs));
        }
        let ghost before = result;
        result.add(reordered);
        proof {
            assert forall|r: Seq<i64>| #[trigger] result.has(r) <==> exists|x: int| 0 <= x < t + 1 && r == reorder(ev[x], n as nat, vs) by {
                if result.has(r) && !before.has(r) {
                    assert(r == reorder(ev[t as int], n as nat, vs));
                }
                if before.has(r) {
                    let x = choose|x: int| 0 <= x < t && r == reorder(ev[x], n as nat, vs);
                }
            }
        }
        t += 1;
    }
    proof {
        let rows = defined_rows(f, model.universe@, model.operations@, n as nat);
        let vs2 = choose|vs2: Seq<Seq<char>>| is_declaration(vs2, f);
        crate::first_order::formulas::lemma_sorted_unique(vs2, vs);
        assert forall|r: Seq<i64>| #[trigger] rows_set(result).contains(r) <==> rows.contains(r) by {
            assert(rows_set(result).contains(r) == result.has(r));
            if result.has(r) {
                let x = choose|x: int| 0 <= x < ext.len() && r == reorder(ev[x], n as nat, vs);
                assert(ev.contains(ev[x]));
            }
            if rows.contains(r) {
                let s2 = choose|s2: Seq<i64>| in_extension(f, model.universe@, model.operations@, vs, Some(n), s2) && r == reorder(s2, n as nat, vs);
                assert(ev.contains(s2));
                let x = choose|x: int| 0 <= x < ev.len() && ev[x] == s2;
            }
        }
        assert(rows_set(result) =~= rows);
    }
    Ok(result)
}

/// `v` is `x_j` for some `j < n`.
pub open spec fn declared(v: Seq<char>, n: int) -> bool {
    exists|j: int| 0 <= j < n && v == decl_var(j)
}

/// Every variable is `x_j` for some `j < n`.
fn all_declared(free: &Vec<Variable>, n: usize) -> (r: bool)
    ensures
        r == forall|x: int| 0 <= x < free.len() ==> declared(#[trigger] names(free@)[x], n as int),
{
    let mut k: usize = 0;
    while k < free.len()
        invariant
            k <= free.len(),
            forall|x: int| 0 <= x < k ==> declared(#[trigger] names(free@)[x], n as int),
        decreases free.len() - k,
    {
        let mut j: usize = 0;
        let mut found = false;
        while j < n && !found
            invariant
                j <= n,
                k < free.len(),
                found ==> declared(names(free@)[k as int], n as int),
                !found ==> forall|j2: int| 0 <= j2 < j ==> names(free@)[k as int] != decl_var(j2),
            decreases n - j + if found { 0int } else { 1int },
        {
            let v = Variable::from_index(j as i32);
            proof {
                assert(names(free@)[k as int] == free@[k as int].sym@);
            }
            if str_eq(v.sym.as_str(), free[k].sym.as_str()) {
                found = true;
                proof {
                    assert(names(free@)[k as int] == decl_var(j as int));
                }
            } else {
                j += 1;
            }
        }
        if !found {
            proof {
                assert(j == n);
                assert(!declared(names(free@)[k as int], n as int));
            }
            return false;
        }
        k += 1;
    }
    true
}

/// The characters as a string.
fn sym_string(cs: &Vec<char>) -> (r: String)
    ensures
        r@ == cs@,
{
    chars_string(cs)
}

/// A relation by what the file says of it: name, arity and tuples.
pub type RelV = (Seq<char>, nat, Set<Seq<i64>>);

/// An operation by what the file says of it: name, arity and table.
pub type OpV = (Seq<char>, nat, Map<Seq<i64>, i64>);

/// View of a relation.
pub open spec fn rel_v(r: Relation) -> RelV {
    (r.sym@, r.arity as nat, r.rows().to_set())
}

/// View of an operation.
pub open spec fn op_v(o: Operation) -> OpV {
    (o.sym@, o.arity as nat, Map::new(|k: Seq<i64>| o.lookup(k) is Some, |k: Seq<i64>| o.lookup(k)->Some_0))
}

/// Views of relations.
pub open spec fn rels_v(s: Seq<Relation>) -> Seq<RelV> {
    s.map_values(|r: Relation| rel_v(r))
}

/// Views of operations.
pub open spec fn ops_v(s: Seq<Operation>) -> Seq<OpV> {
    s.map_values(|o: Operation| op_v(o))
}

/// Position of the relation named `name`.
pub open spec fn rel_pos(s: Seq<RelV>, name: Seq<char>) -> Option<int>
    decreases s.len(),
{
    if s.len() == 0 {
        None
    } else if s.last().0 == name {
        Some(s.len() - 1)
    } else {
        rel_pos(s.drop_last(), name)
    }
}

/// Position of the operation named `name`.
pub open spec fn op_pos(s: Seq<OpV>, name: Seq<char>) -> Option<int>
    decreases s.len(),
{
    if s.len() == 0 {
        None
    } else if s.last().0 == name {
        Some(s.len() - 1)
    } else {
        op_pos(s.drop_last(), name)
    }
}

/// `x` replaces the relation of its name, or comes last.
pub open spec fn upsert_rel(s: Seq<RelV>, x: RelV) -> Seq<RelV> {
    match rel_pos(s, x.0) {
        Some(i) => s.update(i, x),
        None => s.push(x),
    }
}

/// `x` replaces the operation of its name, or comes last.
pub open spec fn upsert_op(s: Seq<OpV>, x: OpV) -> Seq<OpV> {
    match op_pos(s, x.0) {
        Some(i) => s.update(i, x),
        None => s.push(x),
    }
}

/// What has been read: the universe, the relations and operations, and the
/// relation or operation whose table is being read with the count of rows still due.
pub type StateV = (Option<Seq<i64>>, Seq<RelV>, Seq<OpV>, Option<(RelV, nat)>, Option<(OpV, nat)>);

/// The state before any line.
pub open spec fn initial_v() -> StateV {
    (None, Seq::empty(), Seq::empty(), None, None)
}

/// Number of table rows of an operation: `n^arity`, `None` when it does not fit.
pub open spec fn table_rows(n: nat, arity: nat) -> Option<nat> {
    let p = vstd::arithmetic::power::pow(n as int, arity);
    if arity <= u32::MAX && 0 <= p <= usize::MAX {
        Some(p as nat)
    } else {
        None
    }
}

/// One line read in state `st`; `ops` are the operations read so far, on which
/// a formula line is evaluated.
pub open spec fn step_spec(st: StateV, ops: Seq<Operation>, raw: Seq<char>) -> Result<StateV, Seq<char>> {
    let l = c_input_spec(raw);
    let (uni, rels, opsv, cur_rel, cur_op) = st;
    if l.len() == 0 {
        Ok(st)
    } else if uni is None {
        Ok((Some(parsed_ints(tokens(l))), rels, opsv, cur_rel, cur_op))
    } else {
        let u = uni->Some_0;
        let decl = cur_rel is None && cur_op is None;
        if decl && first_index(l, '(') is Some && l[0] != '@' {
            match defformula_spec(l, u, ops) {
                Ok(r) => Ok((uni, upsert_rel(rels, r), opsv, cur_rel, cur_op)),
                Err(e) => Err(e),
            }
        } else if decl && tokens(l).len() == 2 {
            match defop_spec(l) {
                Ok((sym, ar)) => match table_rows(u.len(), ar as nat) {
                    Some(m) => Ok((uni, rels, opsv, cur_rel, Some(((sym, ar as nat, Map::empty()), m)))),
                    None => Err("Operation table too large"@),
                },
                Err(e) => Err(e),
            }
        } else if decl && tokens(l).len() == 3 {
            match defrel_spec(l) {
                Ok((sym, n, ar)) => if n == 0 {
                    Ok((uni, upsert_rel(rels, (sym, ar as nat, Set::empty())), opsv, None, cur_op))
                } else {
                    Ok((uni, rels, opsv, Some(((sym, ar as nat, Set::empty()), n as nat)), cur_op))
                },
                Err(e) => Err(e),
            }
        } else if cur_rel is Some {
            let (r, missing) = cur_rel->Some_0;
            let added: Result<(RelV, nat), Seq<char>> = if missing > 0 {
                match tuple_spec(tokens(l), u) {
                    Ok(t) => Ok(
                        (
                            (r.0, r.1, if t.len() == r.1 {
                                r.2.insert(t)
                            } else {
                                r.2
                            }),
                            (missing - 1) as nat,
                        ),
                    ),
                    Err(e) => Err(e),
                }
            } else {
                Ok((r, missing))
            };
            match added {
                Err(e) => Err(e),
                Ok((r2, m2)) => if m2 == 0 {
                    Ok((uni, upsert_rel(rels, r2), opsv, None, cur_op))
                } else {
                    Ok((uni, rels, opsv, Some((r2, m2)), cur_op))
                },
            }
        } else if cur_op is Some {
            let (o, missing) = cur_op->Some_0;
            let added: Result<(OpV, nat), Seq<char>> = if missing > 0 {
                match tuple_spec(tokens(l), u) {
                    Ok(t) => Ok(
                        (
                            (o.0, o.1, if t.len() == o.1 + 1 {
                                o.2.insert(t.take(o.1 as int), t[o.1 as int])
                            } else {
                                o.2
                            }),
                            (missing - 1) as nat,
                        ),
                    ),
                    Err(e) => Err(e),
                }
            } else {
                Ok((o, missing))
            };
            match added {
                Err(e) => Err(e),
                Ok((o2, m2)) => if m2 == 0 {
                    Ok((uni, rels, upsert_op(opsv, o2), cur_rel, None))
                } else {
                    Ok((uni, rels, opsv, cur_rel, Some((o2, m2))))
                },
            }
        } else {
            Ok(st)
        }
    }
}

/// The state reached once the file is read: the model, or the line number and
/// message of the error.
pub open spec fn finish_spec(st: StateV, count: nat) -> Result<(Seq<i64>, Seq<RelV>, Seq<OpV>), (nat, Seq<char>)> {
    let (uni, rels, opsv, cur_rel, cur_op) = st;
    if uni is None {
        Err((count, "Universe not defined"@))
    } else if cur_rel is Some && cur_rel->Some_0.1 > 0 {
        Err((count, "Missing tuples for relation "@ + cur_rel->Some_0.0.0))
    } else if cur_op is Some {
        Err((count, "Missing tuples for operation"@))
    } else {
        Ok((uni->Some_0, rels, opsv))
    }
}

/// A partial reading state.
pub struct ParseState {
    pub universe: Option<Vec<i64>>,
    pub relations: Vec<Relation>,
    pub operations: Vec<Operation>,
    pub current_rel: Option<(Relation, usize)>,
    pub current_op: Option<(Operation, usize)>,
}

/// A relation as read from the file: well formed, without a pattern or a parent relation.
pub open spec fn plain_rel(r: Relation) -> bool {
    r.wf() && r.pattern is None && r.superrel_sym is None && r.superrel is None
}

impl ParseState {
    /// View of the state.
    pub open spec fn view_v(&self) -> StateV {
        (
            match self.universe {
                Some(u) => Some(u@),
                None => None,
            },
            rels_v(self.relations@),
            ops_v(self.operations@),
            match self.current_rel {
                Some((r, m)) => Some((rel_v(r), m as nat)),
                None => None,
            },
            match self.current_op {
                Some((o, m)) => Some((op_v(o), m as nat)),
                None => None,
            },
        )
    }

    /// Relations and operations are well formed and named once each.
    pub open spec fn wf(&self) -> bool {
        &&& forall|i: int| 0 <= i < self.relations.len() ==> plain_rel(#[trigger] self.relations@[i])
        &&& forall|i: int| 0 <= i < self.operations.len() ==> (#[trigger] self.operations@[i]).wf()
        &&& forall|i: int, j: int|
            0 <= i < j < self.operations.len() ==> (#[trigger] self.operations@[i]).sym@
                != (#[trigger] self.operations@[j]).sym@
        &&& forall|i: int, j: int|
            0 <= i < j < self.relations.len() ==> (#[trigger] self.relations@[i]).sym@
                != (#[trigger] self.relations@[j]).sym@
        &&& match self.current_rel {
            Some((r, _)) => plain_rel(r),
            None => true,
        }
        &&& match self.current_op {
            Some((o, _)) => o.wf(),
            None => true,
        }
    }
}

/// Replaces the relation of the same name, or appends.
fn upsert_relation(rels: &mut Vec<Relation>, r: Relation)
    requires
        forall|i: int, j: int| 0 <= i < j < old(rels).len() ==> (#[trigger] old(rels)@[i]).sym@ != (#[trigger] old(rels)@[j]).sym@,
    ensures
        rels_v(final(rels)@) == upsert_rel(rels_v(old(rels)@), rel_v(r)),
        final(rels)@ == match rel_pos(rels_v(old(rels)@), r.sym@) {
            Some(i) => old(rels)@.update(i, r),
            None => old(rels)@.push(r),
        },
        forall|i: int, j: int| 0 <= i < j < final(rels).len() ==> (#[trigger] final(rels)@[i]).sym@ != (#[trigger] final(rels)@[j]).sym@,
        forall|x: Relation| #[trigger] final(rels)@.contains(x) ==> old(rels)@.contains(x) || x == r,
{
    let ghost ov = rels_v(rels@);
    let mut i: usize = rels.len();
    proof {
        assert(ov.take(rels.len() as int) =~= ov);
    }
    while i > 0
        invariant
            i <= rels.len(),
            ov == rels_v(rels@),
            rels == old(rels),
            forall|a: int, b: int| 0 <= a < b < old(rels).len() ==> (#[trigger] old(rels)@[a]).sym@ != (#[trigger] old(rels)@[b]).sym@,
            rel_pos(ov, r.sym@) == rel_pos(ov.take(i as int), r.sym@),
        decreases i,
    {
        let ghost t = ov.take(i as int);
        proof {
            assert(t.drop_last() =~= ov.take(i - 1));
            assert(t.last() == rel_v(rels@[i - 1]));
        }
        if str_eq(rels[i - 1].sym.as_str(), r.sym.as_str()) {
            let ghost before = rels@;
            rels.set(i - 1, r);
            proof {
                assert(rel_pos(ov, r.sym@) == Some((i - 1) as int));
                assert(rels_v(rels@) =~= ov.update(i - 1, rel_v(r)));
                assert(rels@ =~= before.update(i - 1, r));
                assert forall|a: int, b: int| 0 <= a < b < rels.len() implies (#[trigger] rels@[a]).sym@ != (#[trigger] rels@[b]).sym@ by {
                    assert(old(rels)@[a].sym@ != old(rels)@[b].sym@);
                }
                assert forall|x: Relation| #[trigger] rels@.contains(x) implies old(rels)@.contains(x) || x == r by {
                    let w = choose|w: int| 0 <= w < rels@.len() && rels@[w] == x;
                    if w != i - 1 {
                        assert(before[w] == x);
                    }
                }
            }
            return;
        }
        i -= 1;
    }
    proof {
        assert(ov.take(0) =~= Seq::<RelV>::empty());
    }
    let ghost before = rels@;
    rels.push(r);
    proof {
        assert(rels_v(rels@) =~= ov.push(rel_v(r)));
        assert(rels@ =~= before.push(r));
        assert forall|a: int, b: int| 0 <= a < b < rels.len() implies (#[trigger] rels@[a]).sym@ != (#[trigger] rels@[b]).sym@ by {
            if b == before.len() {
                if rels@[a].sym@ == r.sym@ {
                    lemma_rel_pos_found(ov, r.sym@, a);
                }
            } else {
                assert(before[a].sym@ != before[b].sym@);
            }
        }
        assert forall|x: Relation| #[trigger] rels@.contains(x) implies old(rels)@.contains(x) || x == r by {
            let w = choose|w: int| 0 <= w < rels@.len() && rels@[w] == x;
            if w < before.len() {
                assert(before[w] == x);
            }
        }
    }
}

proof fn lemma_rel_pos_found(s: Seq<RelV>, name: Seq<char>, a: int)
    requires
        0 <= a < s.len(),
        s[a].0 == name,
    ensures
        rel_pos(s, name) is Some,
    decreases s.len(),
{
    if s.last().0 != name {
        assert(a < s.len() - 1);
        assert(s.drop_last()[a] == s[a]);
        lemma_rel_pos_found(s.drop_last(), name, a);
    }
}

proof fn lemma_op_pos_found(s: Seq<OpV>, name: Seq<char>, a: int)
    requires
        0 <= a < s.len(),
        s[a].0 == name,
    ensures
        op_pos(s, name) is Some,
    decreases s.len(),
{
    if s.last().0 != name {
        assert(a < s.len() - 1);
        assert(s.drop_last()[a] == s[a]);
        lemma_op_pos_found(s.drop_last(), name, a);
    }
}

/// Replaces the operation of the same name, or appends.
fn upsert_operation(ops: &mut Vec<Operation>, o: Operation)
    requires
        forall|i: int, j: int| 0 <= i < j < old(ops).len() ==> (#[trigger] old(ops)@[i]).sym@ != (#[trigger] old(ops)@[j]).sym@,
    ensures
        ops_v(final(ops)@) == upsert_op(ops_v(old(ops)@), op_v(o)),
        forall|i: int, j: int| 0 <= i < j < final(ops).len() ==> (#[trigger] final(ops)@[i]).sym@ != (#[trigger] final(ops)@[j]).sym@,
        forall|x: Operation| #[trigger] final(ops)@.contains(x) ==> old(ops)@.contains(x) || x == o,
{
    let ghost ov = ops_v(ops@);
    let mut i: usize = ops.len();
    proof {
        assert(ov.take(ops.len() as int) =~= ov);
    }
    while i > 0
        invariant
            i <= ops.len(),
            ov == ops_v(ops@),
            ops == old(ops),
            forall|a: int, b: int| 0 <= a < b < old(ops).len() ==> (#[trigger] old(ops)@[a]).sym@ != (#[trigger] old(ops)@[b]).sym@,
            op_pos(ov, o.sym@) == op_pos(ov.take(i as int), o.sym@),
        decreases i,
    {
        let ghost t = ov.take(i as int);
        proof {
            assert(t.drop_last() =~= ov.take(i - 1));
            assert(t.last() == op_v(ops@[i - 1]));
        }
        if str_eq(ops[i - 1].sym.as_str(), o.sym.as_str()) {
            let ghost before = ops@;
            ops.set(i - 1, o);
            proof {
                assert(op_pos(ov, o.sym@) == Some((i - 1) as int));
                assert(ops_v(ops@) =~= ov.update(i - 1, op_v(o)));
                assert forall|a: int, b: int| 0 <= a < b < ops.len() implies (#[trigger] ops@[a]).sym@ != (#[trigger] ops@[b]).sym@ by {
                    assert(old(ops)@[a].sym@ != old(ops)@[b].sym@);
                }
                assert forall|x: Operation| #[trigger] ops@.contains(x) implies old(ops)@.contains(x) || x == o by {
                    let w = choose|w: int| 0 <= w < ops@.len() && ops@[w] == x;
                    if w != i - 1 {
                        assert(before[w] == x);
                    }
                }
            }
            return;
        }
        i -= 1;
    }
    proof {
        assert(ov.take(0) =~= Seq::<OpV>::empty());
    }
    let ghost before = ops@;
    ops.push(o);
    proof {
        assert(ops_v(ops@) =~= ov.push(op_v(o)));
        assert forall|a: int, b: int| 0 <= a < b < ops.len() implies (#[trigger] ops@[a]).sym@ != (#[trigger] ops@[b]).sym@ by {
            if b == before.len() {
                if ops@[a].sym@ == o.sym@ {
                    lemma_op_pos_found(ov, o.sym@, a);
                }
            } else {
                assert(before[a].sym@ != before[b].sym@);
            }
        }
        assert forall|x: Operation| #[trigger] ops@.contains(x) implies old(ops)@.contains(x) || x == o by {
            let w = choose|w: int| 0 <= w < ops@.len() && ops@[w] == x;
            if w < before.len() {
                assert(before[w] == x);
            }
        }
    }
}

/// `n^arity` when it fits.
fn checked_table_rows(n: usize, arity: usize) -> (r: Option<usize>)
    ensures
        match table_rows(n as nat, arity as nat) {
            Some(m) => r == Some(m as usize),
            None => r is None,
        },
{
    if arity > u32::MAX as usize {
        return None;
    }
    let mut acc: usize = 1;
    let mut i: usize = 0;
    let mut overflow = false;
    proof {
        vstd::arithmetic::power::lemma_pow0(n as int);
    }
    while i < arity
        invariant
            i <= arity <= u32::MAX,
            !overflow ==> acc == vstd::arithmetic::power::pow(n as int, i as nat),
            overflow ==> vstd::arithmetic::power::pow(n as int, i as nat) > usize::MAX,
        decreases arity - i,
    {
        proof {
            vstd::arithmetic::power::lemma_pow_adds(n as int, i as nat, 1);
            vstd::arithmetic::power::lemma_pow1(n as int);
            crate::strategy::lemma_pow_nonneg(n as int, i as nat);
        }
        if overflow {
            proof {
                let p = vstd::arithmetic::power::pow(n as int, i as nat);
                if n > 0 {
                    assert(p * n >= p) by (nonlinear_arith)
                        requires
                            p >= 0,
                            n > 0,
                    ;
                } else {
                    if i > 0 {
                        vstd::arithmetic::power::lemma0_pow(i as nat);
                    } else {
                        vstd::arithmetic::power::lemma_pow0(0);
                    }
                }
            }
        } else {
            match acc.checked_mul(n) {
                Some(v) => {
                    acc = v;
                },
                None => {
                    overflow = true;
                },
            }
        }
        i += 1;
    }
    proof {
        crate::strategy::lemma_pow_nonneg(n as int, arity as nat);
    }
    if overflow {
        None
    } else {
        Some(acc)
    }
}

impl ParseState {
    /// The state before any line.
    pub fn new() -> (r: Self)
        ensures
            r.view_v() == initial_v(),
            r.wf(),
    {
        let r = ParseState {
            universe: None,
            relations: Vec::new(),
            operations: Vec::new(),
            current_rel: None,
            current_op: None,
        };
        proof {
            assert(rels_v(r.relations@) =~= Seq::<RelV>::empty());
            assert(ops_v(r.operations@) =~= Seq::<OpV>::empty());
        }
        r
    }

    /// Reads one line of the model file.
    pub fn parse_line(&mut self, raw: &str) -> (r: Result<(), String>)
        requires
            old(self).wf(),
        ensures
            match step_spec(old(self).view_v(), old(self).operations@, raw@) {
                Ok(v) => r is Ok && final(self).view_v() == v && final(self).wf(),
                Err(e) => r matches Err(m) && m@ == e,
            },
    {
        let l = c_input(raw);
        let cs = chars_of(l.as_str());
        if cs.len() == 0 {
            return Ok(());
        }
        let u = match &self.universe {
            Some(u) => crate::util::copy_tuple(u.as_slice()),
            None => {
                let uv = parse_universe(l.as_str());
                self.universe = Some(uv);
                return Ok(());
            },
        };
        let decl = self.current_rel.is_none() && self.current_op.is_none();
        let has_paren = match find_char(&cs, '(') {
            Some(_) => true,
            None => false,
        };
        if decl && has_paren && cs[0] != '@' {
            let mut ops: Vec<Operation> = Vec::new();
            std::mem::swap(&mut ops, &mut self.operations);
            let model = Model { universe: u, relations: Vec::new(), operations: ops };
            proof {
                assert(ops_wf(model.operations@));
            }
            let res = parse_defformula(l.as_str(), &model);
            self.operations = model.operations;
            match res {
                Ok(rel) => {
                    upsert_relation(&mut self.relations, rel);
                    proof {
                        assert forall|i: int| 0 <= i < self.relations.len() implies plain_rel(#[trigger] self.relations@[i]) by {
                            assert(self.relations@.contains(self.relations@[i]));
                            if old(self).relations@.contains(self.relations@[i]) {
                                let w = choose|w: int| 0 <= w < old(self).relations.len() && old(self).relations@[w] == self.relations@[i];
                            }
                        }
                    }
                    return Ok(());
                },
                Err(e) => return Err(e),
            }
        }
        let toks = split_ws(l.as_str());
        proof {
            assert(views(toks@).len() == toks.len());
        }
        if decl && toks.len() == 2 {
            let (sym, arity) = match parse_defop(l.as_str()) {
                Ok(p) => p,
                Err(e) => return Err(e),
            };
            let missing = match checked_table_rows(u.len(), arity) {
                Some(m) => m,
                None => return Err("Operation table too large".to_string()),
            };
            let op = Operation::new(sym.as_str(), arity);
            proof {
                assert(op_v(op).2 =~= Map::<Seq<i64>, i64>::empty());
                assert(tokens(l@) == views(toks@));
                assert(l@ == cs@);
                assert(!(first_index(l@, '(') is Some && l@[0] != '@'));
                assert(defop_spec(l@) == Ok::<(Seq<char>, usize), Seq<char>>((sym@, arity)));
                match table_rows(u@.len(), arity as nat) {
                    Some(m) => {
                        assert(m <= usize::MAX);
                        assert(m == missing);
                    },
                    None => {},
                }
            }
            self.current_op = Some((op, missing));
            proof {
                assert(self.view_v().4 == Some((op_v(op), missing as nat)));
            }
            return Ok(());
        }
        if decl && toks.len() == 3 {
            let (sym, ntuples, arity) = match parse_defrel(l.as_str()) {
                Ok(p) => p,
                Err(e) => return Err(e),
            };
            let rel = Relation::new(sym.as_str(), arity);
            proof {
                assert(rel.rows().to_set() =~= Set::<Seq<i64>>::empty());
            }
            if ntuples == 0 {
                upsert_relation(&mut self.relations, rel);
                self.current_rel = None;
                proof {
                    assert forall|i: int| 0 <= i < self.relations.len() implies plain_rel(#[trigger] self.relations@[i]) by {
                        assert(self.relations@.contains(self.relations@[i]));
                        if old(self).relations@.contains(self.relations@[i]) {
                            let w = choose|w: int| 0 <= w < old(self).relations.len() && old(self).relations@[w] == self.relations@[i];
                        }
                    }
                }
            } else {
                self.current_rel = Some((rel, ntuples));
            }
            return Ok(());
        }
        match self.current_rel.take() {
            Some((rel, missing)) => {
                let mut rel = rel;
                let mut missing = missing;
                let ghost r0 = rel;
                if missing > 0 {
                    let t = match parse_tuple(l.as_str(), u.as_slice()) {
                        Ok(t) => t,
                        Err(e) => return Err(e),
                    };
                    let ghost tv = t@;
                    rel.add(t);
                    missing -= 1;
                    proof {
                        let target_set = if tv.len() == r0.arity {
                            r0.rows().to_set().insert(tv)
                        } else {
                            r0.rows().to_set()
                        };
                        assert forall|x: Seq<i64>| #[trigger] rel.rows().to_set().contains(x) == target_set.contains(x) by {
                            assert(rel.rows().to_set().contains(x) == rel.has(x));
                            assert(r0.rows().to_set().contains(x) == r0.has(x));
                        }
                        assert(rel.rows().to_set() =~= target_set);
                    }
                }
                if missing == 0 {
                    upsert_relation(&mut self.relations, rel);
                    proof {
                        assert forall|i: int| 0 <= i < self.relations.len() implies plain_rel(#[trigger] self.relations@[i]) by {
                            assert(self.relations@.contains(self.relations@[i]));
                            if old(self).relations@.contains(self.relations@[i]) {
                                let w = choose|w: int| 0 <= w < old(self).relations.len() && old(self).relations@[w] == self.relations@[i];
                            }
                        }
                    }
                } else {
                    self.current_rel = Some((rel, missing));
                }
                return Ok(());
            },
            None => {},
        }
        match self.current_op.take() {
            Some((op, missing)) => {
                let mut op = op;
                let mut missing = missing;
                let ghost o0 = op;
                if missing > 0 {
                    let t = match parse_tuple(l.as_str(), u.as_slice()) {
                        Ok(t) => t,
                        Err(e) => return Err(e),
                    };
                    let ghost tv = t@;
                    if t.len() > 0 && t.len() - 1 == op.arity {
                        op.add(t);
                    }
                    missing -= 1;
                    proof {
                        if tv.len() == o0.arity + 1 {
                            assert(op_v(op).2 =~= op_v(o0).2.insert(tv.take(o0.arity as int), tv[o0.arity as int]));
                        }
                    }
                }
                if missing == 0 {
                    upsert_operation(&mut self.operations, op);
                    proof {
                        assert forall|i: int| 0 <= i < self.operations.len() implies (#[trigger] self.operations@[i]).wf() by {
                            assert(self.operations@.contains(self.operations@[i]));
                            if old(self).operations@.contains(self.operations@[i]) {
                                let w = choose|w: int| 0 <= w < old(self).operations.len() && old(self).operations@[w] == self.operations@[i];
                            }
                        }
                    }
                } else {
                    self.current_op = Some((op, missing));
                }
                return Ok(());
            },
            None => {},
        }
        Ok(())
    }
}

/// `m` is the model the reading ended with.
pub open spec fn model_read(fin: Result<(Seq<i64>, Seq<RelV>, Seq<OpV>), (nat, Seq<char>)>, m: Model) -> bool {
    match fin {
        Ok((u, rs, os)) => sorted(m.universe@) && m.universe@.to_multiset() == u.to_multiset() && rels_v(m.relations@)
            == rs && ops_v(m.operations@) == os && m.wf() && forall|i: int|
            0 <= i < m.relations.len() ==> plain_rel(#[trigger] m.relations@[i]),
        Err(_) => false,
    }
}

/// Views of the lines.
pub open spec fn lines_v(lines: Seq<String>) -> Seq<Seq<char>> {
    lines.map_values(|l: String| l@)
}

/// `tr` is the sequence of states reading the first `k` lines from the start.
pub open spec fn trace_ok(tr: Seq<ParseState>, lines: Seq<Seq<char>>, k: int) -> bool {
    &&& 0 <= k <= lines.len()
    &&& tr.len() == k + 1
    &&& tr[0].view_v() == initial_v()
    &&& forall|i: int| 0 <= i < k ==> (#[trigger] tr[i]).wf() && step_spec(tr[i].view_v(), tr[i].operations@, lines[i])
        == Ok::<StateV, Seq<char>>(tr[i + 1].view_v())
}

/// Reads a model file given as its lines. Lines are trimmed and cut at `#`;
/// empty lines are skipped. The first line gives the universe; then come
/// operation declarations `SYM ARITY` followed by their table rows, relation
/// declarations `SYM N ARITY` followed by `N` tuples, and formula lines
/// `SYM(x, ..) FORMULA`. Errors carry the number of lines read and `path`.
pub fn parse_model_lines(lines: &Vec<String>, path: Option<String>) -> (r: Result<Model, ParseError>)
    ensures
        match r {
            Ok(m) => exists|tr: Seq<ParseState>|
                trace_ok(tr, lines_v(lines@), lines.len() as int) && model_read(
                    finish_spec(tr.last().view_v(), lines.len() as nat),
                    m,
                ),
            Err(ParseError::Parse { line, path: p, message }) => p == path && ((exists|tr: Seq<ParseState>|
                1 <= line <= lines.len() && trace_ok(tr, lines_v(lines@), line - 1) && step_spec(
                    tr.last().view_v(),
                    tr.last().operations@,
                    lines@[line - 1]@,
                ) == Err::<StateV, Seq<char>>(message@)) || (exists|tr: Seq<ParseState>|
                trace_ok(tr, lines_v(lines@), lines.len() as int) && finish_spec(tr.last().view_v(), lines.len() as nat)
                    == Err::<(Seq<i64>, Seq<RelV>, Seq<OpV>), (nat, Seq<char>)>((line as nat, message@)))),
        },
{
    let ghost lv = lines_v(lines@);
    let mut st = ParseState::new();
    let ghost mut tr: Seq<ParseState> = seq![st];
    let mut i: usize = 0;
    while i < lines.len()
        invariant
            i <= lines.len(),
            lv == lines_v(lines@),
            st.wf(),
            trace_ok(tr, lv, i as int),
            tr.last() == st,
        decreases lines.len() - i,
    {
        let ghost before = st;
        proof {
            assert(lv[i as int] == lines@[i as int]@);
        }
        match st.parse_line(lines[i].as_str()) {
            Ok(()) => {},
            Err(e) => {
                proof {
                    assert(tr.last() == before);
                }
                return Err(ParseError::Parse { line: i + 1, path, message: e });
            },
        }
        proof {
            let tr2 = tr.push(st);
            assert forall|k: int| 0 <= k < i + 1 implies (#[trigger] tr2[k]).wf() && step_spec(
                tr2[k].view_v(),
                tr2[k].operations@,
                lv[k],
            ) == Ok::<StateV, Seq<char>>(tr2[k + 1].view_v()) by {
                if k < i {
                    assert(tr2[k] == tr[k] && tr2[k + 1] == tr[k + 1]);
                } else {
                    assert(tr2[k] == before && tr2[k + 1] == st);
                }
            }
            tr = tr2;
        }
        i += 1;
    }
    let n = lines.len();
    let universe = match st.universe {
        Some(u) => u,
        None => {
            return Err(ParseError::Parse { line: n, path, message: "Universe not defined".to_string() });
        },
    };
    match st.current_rel {
        Some((rel, missing)) => {
            if missing > 0 {
                let mut msg = String::new();
                push_str(&mut msg, "Missing tuples for relation ");
                push_str(&mut msg, rel.sym.as_str());
                return Err(ParseError::Parse { line: n, path, message: msg });
            }
        },
        None => {},
    }
    if st.current_op.is_some() {
        return Err(ParseError::Parse { line: n, path, message: "Missing tuples for operation".to_string() });
    }
    let ghost rels = st.relations;
    let m = Model::new(universe, st.relations, st.operations);
    proof {
        assert forall|i: int| 0 <= i < m.relations.len() implies (#[trigger] m.relations@[i]).wf() by {
            assert(plain_rel(rels@[i]));
        }
    }
    Ok(m)
}

/// A name that marks a target relation: it starts with `T`.
pub open spec fn is_target_name(s: Seq<char>) -> bool {
    s.len() > 0 && s[0] == 'T'
}

/// `piece` is one of the relations that equality-pattern preprocessing splits `src` into.
pub open spec fn is_piece_of(piece: Relation, src: Relation) -> bool {
    &&& piece.wf()
    &&& piece.pattern.is_some()
    &&& piece.pattern.unwrap().wf()
    &&& src.rows().contains(piece.pattern.unwrap().tuple@)
    &&& piece.sym@ == src.sym@ + pattern_name(piece.pattern.unwrap().tuple@)
    &&& piece.arity == pruned(piece.pattern.unwrap().tuple@).len()
    &&& forall|s: Seq<i64>| #[trigger] piece.has(s) <==> piece_has(src.rows(), classes(piece.pattern.unwrap().tuple@), s)
    &&& piece.superrel_sym.is_some() && piece.superrel_sym.unwrap()@ == src.sym@
    &&& piece.superrel.is_some() && same_relation(*piece.superrel.unwrap(), src)
}

/// A relation after preprocessing: a piece of a split target, an empty target
/// of the input kept as it is, or any other relation of the input unchanged.
pub open spec fn preprocessed_rel(r: Relation, input: Seq<Relation>) -> bool {
    if is_target_name(r.sym@) {
        (r.superrel is Some && is_piece_of(r, *r.superrel->Some_0)) || (input.contains(r) && r.rows().len() == 0)
    } else {
        input.contains(r)
    }
}

/// A relation equals itself in every field.
pub proof fn lemma_same_relation_refl(x: Relation)
    ensures
        same_relation(x, x),
    decreases x,
{
    if x.superrel.is_some() {
        lemma_same_relation_refl(*x.superrel.unwrap());
    }
}

proof fn lemma_piece_of_same(piece: Relation, src: Relation, sup: Relation)
    requires
        is_piece_of(piece, src),
        piece.superrel == Some(Box::new(sup)),
    ensures
        is_piece_of(piece, sup),
{
    lemma_same_relation_refl(sup);
    assert(sup.sym@ == src.sym@);
    assert(sup.rows() == src.rows());
}

proof fn lemma_rel_pos_name(s: Seq<RelV>, name: Seq<char>)
    ensures
        match rel_pos(s, name) {
            Some(i) => 0 <= i < s.len() && s[i].0 == name,
            None => true,
        },
    decreases s.len(),
{
    if s.len() > 0 && s.last().0 != name {
        lemma_rel_pos_name(s.drop_last(), name);
    }
}

proof fn lemma_upsert_keeps(before: Seq<Relation>, after: Seq<Relation>, piece: Relation, x: Relation)
    requires
        after == match rel_pos(rels_v(before), piece.sym@) {
            Some(i) => before.update(i, piece),
            None => before.push(piece),
        },
        before.contains(x),
        x.sym@ != piece.sym@,
    ensures
        after.contains(x),
{
    let w = choose|w: int| 0 <= w < before.len() && before[w] == x;
    lemma_rel_pos_name(rels_v(before), piece.sym@);
    match rel_pos(rels_v(before), piece.sym@) {
        Some(i) => {
            assert(rels_v(before)[i].0 == before[i].sym@);
            assert(w != i);
            assert(after[w] == x);
        },
        None => {
            assert(after[w] == x);
        },
    }
}

/// Name of the piece that the pattern of `t` cuts out of `src`.
pub open spec fn piece_name(src: Relation, t: Seq<i64>) -> Seq<char> {
    src.sym@ + pattern_name(t)
}

/// No piece name of a target is the name of a relation of the input, and pieces of
/// two different targets have different names.
pub open spec fn clash_free(input: Seq<Relation>) -> bool {
    &&& forall|a: int, i: int, b: int|
        0 <= a < input.len() && is_target_name(input[a].sym@) && 0 <= i < input[a].rows().len() && 0 <= b
            < input.len() ==> #[trigger] piece_name(input[a], input[a].rows()[i]) != (#[trigger] input[b]).sym@
    &&& forall|a: int, i: int, b: int, j: int|
        0 <= a < input.len() && 0 <= b < input.len() && a != b && is_target_name(input[a].sym@) && is_target_name(
            input[b].sym@,
        ) && 0 <= i < input[a].rows().len() && 0 <= j < input[b].rows().len() ==> #[trigger] piece_name(
            input[a],
            input[a].rows()[i],
        ) != #[trigger] piece_name(input[b], input[b].rows()[j])
}

/// Two pieces of one target have the same name exactly when they have the same pattern.
proof fn lemma_piece_name_same_target(src: Relation, t1: Seq<i64>, t2: Seq<i64>)
    requires
        src.wf(),
        src.rows().contains(t1),
        src.rows().contains(t2),
        piece_name(src, t1) == piece_name(src, t2),
    ensures
        classes(t1) == classes(t2),
{
    let w1 = choose|w: int| 0 <= w < src.rows().len() && src.rows()[w] == t1;
    let w2 = choose|w: int| 0 <= w < src.rows().len() && src.rows()[w] == t2;
    assert(t1.len() == src.arity);
    assert(t2.len() == src.arity);
    let n = src.sym@.len() as int;
    assert(pattern_name(t1) =~= piece_name(src, t1).subrange(n, piece_name(src, t1).len() as int));
    assert(pattern_name(t2) =~= piece_name(src, t2).subrange(n, piece_name(src, t2).len() as int));
    law_pattern_name_iff_same_pattern(t1, t2);
}

/// `rels` holds a piece of `src` for the pattern `p`.
pub open spec fn has_piece(rels: Seq<Relation>, src: Relation, p: Seq<Seq<usize>>) -> bool {
    exists|k: int| 0 <= k < rels.len() && is_piece_of(#[trigger] rels[k], src) && classes(rels[k].pattern.unwrap().tuple@) == p
}

proof fn lemma_upsert_has(before: Seq<Relation>, after: Seq<Relation>, piece: Relation)
    requires
        after == match rel_pos(rels_v(before), piece.sym@) {
            Some(i) => before.update(i, piece),
            None => before.push(piece),
        },
    ensures
        after.contains(piece),
{
    lemma_rel_pos_name(rels_v(before), piece.sym@);
    match rel_pos(rels_v(before), piece.sym@) {
        Some(i) => {
            assert(after[i] == piece);
        },
        None => {
            assert(after[before.len() as int] == piece);
        },
    }
}

/// A piece of `input[a]` is named by one of that target's rows.
proof fn lemma_piece_row(input: Seq<Relation>, a: int, x: Relation) -> (i: int)
    requires
        0 <= a < input.len(),
        is_piece_of(x, input[a]),
    ensures
        0 <= i < input[a].rows().len(),
        input[a].rows()[i] == x.pattern.unwrap().tuple@,
        x.sym@ == piece_name(input[a], input[a].rows()[i]),
{
    choose|i: int| 0 <= i < input[a].rows().len() && input[a].rows()[i] == x.pattern.unwrap().tuple@
}

/// A piece witnessing `has_piece` survives an insertion under another name.
proof fn lemma_has_piece_kept(
    before: Seq<Relation>,
    after: Seq<Relation>,
    y: Relation,
    input: Seq<Relation>,
    a: int,
    p: Seq<Seq<usize>>,
)
    requires
        after == match rel_pos(rels_v(before), y.sym@) {
            Some(i) => before.update(i, y),
            None => before.push(y),
        },
        0 <= a < input.len(),
        has_piece(before, input[a], p),
        forall|i: int| 0 <= i < input[a].rows().len() ==> #[trigger] piece_name(input[a], input[a].rows()[i]) != y.sym@,
    ensures
        has_piece(after, input[a], p),
{
    let k = choose|k: int| 0 <= k < before.len() && is_piece_of(#[trigger] before[k], input[a]) && classes(before[k].pattern.unwrap().tuple@) == p;
    let x = before[k];
    let i = lemma_piece_row(input, a, x);
    assert(piece_name(input[a], input[a].rows()[i]) != y.sym@);
    assert(before.contains(x));
    lemma_upsert_keeps(before, after, y, x);
    let w = choose|w: int| 0 <= w < after.len() && after[w] == x;
    assert(is_piece_of(after[w], input[a]));
}

/// Replaces every target relation (name starting with `T`) by the pieces of
/// its equality-pattern split; a target without rows is kept as it is. Other
/// relations and the operations are kept.
pub fn preprocess_targets(model: Model) -> (r: Model)
    requires
        model.wf(),
    ensures
        r.universe == model.universe,
        r.operations == model.operations,
        r.wf(),
        forall|i: int|
            0 <= i < model.relations.len() && !is_target_name((#[trigger] model.relations@[i]).sym@) ==> r.relations@.contains(
                model.relations@[i],
            ),
        forall|i: int| 0 <= i < r.relations.len() ==> preprocessed_rel(#[trigger] r.relations@[i], model.relations@),
        clash_free(model.relations@) ==> forall|a: int|
            0 <= a < model.relations.len() && is_target_name((#[trigger] model.relations@[a]).sym@)
                && model.relations@[a].rows().len() == 0 ==> r.relations@.contains(model.relations@[a]),
        clash_free(model.relations@) ==> forall|a: int, i: int|
            0 <= a < model.relations.len() && is_target_name(model.relations@[a].sym@) && 0 <= i
                < model.relations@[a].rows().len() ==> has_piece(
                r.relations@,
                model.relations@[a],
                classes(#[trigger] model.relations@[a].rows()[i]),
            ),
{
    let ghost input = model.relations@;
    let Model { universe, relations, operations } = model;
    let mut rels = relations;
    let mut out: Vec<Relation> = Vec::new();
    proof {
        assert(rels@ == input.take(rels.len() as int));
    }
    while rels.len() > 0
        invariant
            rels.len() <= input.len(),
            rels@ == input.take(rels.len() as int),
            forall|a: int| 0 <= a < input.len() ==> (#[trigger] input[a]).wf(),
            forall|a: int, b: int| 0 <= a < b < input.len() ==> (#[trigger] input[a]).sym@ != (#[trigger] input[b]).sym@,
            forall|a: int, b: int| 0 <= a < b < out.len() ==> (#[trigger] out@[a]).sym@ != (#[trigger] out@[b]).sym@,
            forall|a: int| 0 <= a < out.len() ==> (#[trigger] out@[a]).wf(),
            forall|a: int| 0 <= a < out.len() ==> preprocessed_rel(#[trigger] out@[a], input),
            forall|a: int|
                rels.len() <= a < input.len() && !is_target_name((#[trigger] input[a]).sym@) ==> out@.contains(input[a]),
            clash_free(input) ==> forall|a: int|
                rels.len() <= a < input.len() && is_target_name((#[trigger] input[a]).sym@) && input[a].rows().len() == 0
                    ==> out@.contains(input[a]),
            clash_free(input) ==> forall|a: int, i: int|
                rels.len() <= a < input.len() && is_target_name(input[a].sym@) && 0 <= i < input[a].rows().len()
                    ==> has_piece(out@, input[a], classes(#[trigger] input[a].rows()[i])),
        decreases rels.len(),
    {
        let ghost n = (rels.len() - 1) as int;
        let rel = rels.pop().unwrap();
        proof {
            assert(rel == input[n]);
            assert(rels@ =~= input.take(n));
        }
        let cs = chars_of(rel.sym.as_str());
        let is_target = cs.len() > 0 && cs[0] == 'T';
        let mut pieces = if is_target {
            preprocesamiento2(&rel)
        } else {
            Vec::new()
        };
        if !is_target || pieces.len() == 0 {
            proof {
                if is_target && rel.rows().len() > 0 {
                    assert(crate::preprocessing::pattern_listed(pieces@, classes(rel.rows()[0])));
                }
            }
            let ghost before = out@;
            upsert_relation(&mut out, rel);
            proof {
                lemma_upsert_has(before, out@, rel);
                assert forall|a: int| 0 <= a < out.len() implies (#[trigger] out@[a]).wf() && preprocessed_rel(out@[a], input) by {
                    assert(out@.contains(out@[a]));
                    if before.contains(out@[a]) {
                        let w = choose|w: int| 0 <= w < before.len() && before[w] == out@[a];
                    } else {
                        assert(input.contains(input[n]));
                    }
                }
                assert forall|a: int|
                    rels.len() <= a < input.len() && !is_target_name((#[trigger] input[a]).sym@) implies out@.contains(input[a]) by {
                    if a != n {
                        lemma_upsert_keeps(before, out@, rel, input[a]);
                    }
                }
                if clash_free(input) {
                    assert forall|a: int|
                        rels.len() <= a < input.len() && is_target_name((#[trigger] input[a]).sym@) && input[a].rows().len() == 0
                            implies out@.contains(input[a]) by {
                        if a != n {
                            lemma_upsert_keeps(before, out@, rel, input[a]);
                        }
                    }
                    assert forall|a: int, i: int|
                        rels.len() <= a < input.len() && is_target_name(input[a].sym@) && 0 <= i < input[a].rows().len()
                            implies has_piece(out@, input[a], classes(#[trigger] input[a].rows()[i])) by {
                        assert(a != n);
                        assert forall|j: int| 0 <= j < input[a].rows().len() implies #[trigger] piece_name(input[a], input[a].rows()[j]) != rel.sym@ by {
                            if piece_name(input[a], input[a].rows()[j]) == input[n].sym@ {
                                assert(false);
                            }
                        }
                        lemma_has_piece_kept(before, out@, rel, input, a, classes(input[a].rows()[i]));
                    }
                }
            }
        } else {
            let ghost all = pieces@;
            while pieces.len() > 0
                invariant
                    0 <= n < input.len(),
                    rel == input[n],
                    is_target_name(rel.sym@),
                    rels.len() == n,
                    pieces@ == all.take(pieces.len() as int),
                    pieces.len() <= all.len(),
                    all.len() > 0,
                    forall|q: int| 0 <= q < all.len() ==> is_piece_of(#[trigger] all[q], rel),
                    forall|q: int, l: int|
                        0 <= q < l < all.len() ==> classes((#[trigger] all[q]).pattern.unwrap().tuple@) != classes(
                            (#[trigger] all[l]).pattern.unwrap().tuple@,
                        ),
                    forall|a: int| 0 <= a < input.len() ==> (#[trigger] input[a]).wf(),
                    forall|a: int, b: int| 0 <= a < b < input.len() ==> (#[trigger] input[a]).sym@ != (#[trigger] input[b]).sym@,
                    forall|a: int, b: int| 0 <= a < b < out.len() ==> (#[trigger] out@[a]).sym@ != (#[trigger] out@[b]).sym@,
                    forall|a: int| 0 <= a < out.len() ==> (#[trigger] out@[a]).wf(),
                    forall|a: int| 0 <= a < out.len() ==> preprocessed_rel(#[trigger] out@[a], input),
                    forall|a: int|
                        n < a < input.len() && !is_target_name((#[trigger] input[a]).sym@) ==> out@.contains(input[a]),
                    clash_free(input) ==> forall|a: int|
                        n < a < input.len() && is_target_name((#[trigger] input[a]).sym@) && input[a].rows().len() == 0
                            ==> out@.contains(input[a]),
                    clash_free(input) ==> forall|a: int, i: int|
                        n < a < input.len() && is_target_name(input[a].sym@) && 0 <= i < input[a].rows().len()
                            ==> has_piece(out@, input[a], classes(#[trigger] input[a].rows()[i])),
                    clash_free(input) ==> forall|q: int| pieces.len() <= q < all.len() ==> out@.contains(#[trigger] all[q]),
                decreases pieces.len(),
            {
                let ghost m = (pieces.len() - 1) as int;
                let piece = pieces.pop().unwrap();
                proof {
                    assert(piece == all[m]);
                    assert(pieces@ =~= all.take(m));
                    assert(is_piece_of(piece, rel));
                    assert(is_target_name(piece.sym@)) by {
                        assert(piece.sym@[0] == rel.sym@[0]);
                    }
                    assert(preprocessed_rel(piece, input)) by {
                        lemma_piece_of_same(piece, rel, *piece.superrel.unwrap());
                    }
                }
                let ghost before = out@;
                upsert_relation(&mut out, piece);
                proof {
                    lemma_upsert_has(before, out@, piece);
                    let pi = lemma_piece_row(input, n, piece);
                    assert forall|a: int| 0 <= a < out.len() implies (#[trigger] out@[a]).wf() && preprocessed_rel(out@[a], input) by {
                        assert(out@.contains(out@[a]));
                        if before.contains(out@[a]) {
                            let w = choose|w: int| 0 <= w < before.len() && before[w] == out@[a];
                        }
                    }
                    assert forall|a: int|
                        n < a < input.len() && !is_target_name((#[trigger] input[a]).sym@) implies out@.contains(input[a]) by {
                        assert(input[a].sym@ != piece.sym@) by {
                            if input[a].sym@ == piece.sym@ {
                                assert(input[a].sym@[0] == piece.sym@[0]);
                            }
                        }
                        lemma_upsert_keeps(before, out@, piece, input[a]);
                    }
                    if clash_free(input) {
                        assert forall|a: int|
                            n < a < input.len() && is_target_name((#[trigger] input[a]).sym@) && input[a].rows().len() == 0
                                implies out@.contains(input[a]) by {
                            assert(piece_name(input[n], input[n].rows()[pi]) != input[a].sym@);
                            lemma_upsert_keeps(before, out@, piece, input[a]);
                        }
                        assert forall|a: int, i: int|
                            n < a < input.len() && is_target_name(input[a].sym@) && 0 <= i < input[a].rows().len()
                                implies has_piece(out@, input[a], classes(#[trigger] input[a].rows()[i])) by {
                            assert forall|j: int| 0 <= j < input[a].rows().len() implies #[trigger] piece_name(input[a], input[a].rows()[j]) != piece.sym@ by {
                                if piece_name(input[a], input[a].rows()[j]) == piece_name(input[n], input[n].rows()[pi]) {
                                    assert(a == n);
                                }
                            }
                            lemma_has_piece_kept(before, out@, piece, input, a, classes(input[a].rows()[i]));
                        }
                        assert forall|q: int| pieces.len() <= q < all.len() implies out@.contains(#[trigger] all[q]) by {
                            if q != m {
                                let qi = lemma_piece_row(input, n, all[q]);
                                if all[q].sym@ == piece.sym@ {
                                    assert(piece_name(input[n], input[n].rows()[qi]) == piece_name(input[n], input[n].rows()[pi]));
                                    assert(input[n].wf());
                                    lemma_piece_name_same_target(input[n], input[n].rows()[qi], input[n].rows()[pi]);
                                    assert(classes(input[n].rows()[qi]) == classes(input[n].rows()[pi]));
                                    if q < m {
                                        assert(classes(all[q].pattern.unwrap().tuple@) != classes(all[m].pattern.unwrap().tuple@));
                                    } else {
                                        assert(classes(all[m].pattern.unwrap().tuple@) != classes(all[q].pattern.unwrap().tuple@));
                                    }
                                }
                                lemma_upsert_keeps(before, out@, piece, all[q]);
                            }
                        }
                    }
                }
            }
            proof {
                assert(is_piece_of(all[0], rel));
                assert(rel.rows().contains(all[0].pattern.unwrap().tuple@));
                assert(input[n].rows().len() > 0);
                if clash_free(input) {
                    assert forall|i: int| 0 <= i < input[n].rows().len() implies has_piece(out@, input[n], classes(#[trigger] input[n].rows()[i])) by {
                        assert(crate::preprocessing::pattern_listed(all, classes(rel.rows()[i])));
                        let q = choose|q: int| 0 <= q < all.len() && classes((#[trigger] all[q]).pattern.unwrap().tuple@) == classes(rel.rows()[i]);
                        assert(out@.contains(all[q]));
                        let w = choose|w: int| 0 <= w < out.len() && out@[w] == all[q];
                        assert(is_piece_of(out@[w], input[n]));
                    }
                }
            }
        }
    }
    Model { universe, relations: out, operations }
}

} // verus!
