//! The report of a filtering run.

use vstd::prelude::*;

use crate::stone::preserve::{elems_text, op_view, ops_view, push_elems, StoneOp, StoneOpV};
use crate::strategy::string_views;
use crate::strs::{int_text, push_str, push_usize};

verus! {

/// What a filtering run found: how many candidates it saw, how many operations it kept,
/// and their labels.
#[derive(Debug, Clone, PartialEq, Eq)]
pub struct FilterReport {
    pub raw_op_count: usize,
    pub filtered_op_count: usize,
    pub operations: Vec<String>,
}

/// Label of an operation in a report: `discriminator`, `f_[bar]_b` or `g_[domain]`.
pub open spec fn op_label_spec(o: StoneOpV) -> Seq<char> {
    match o {
        StoneOpV::Discriminator => "discriminator"@,
        StoneOpV::FBar(bar, b) => "f_["@ + elems_text(bar) + "]_"@ + int_text(b as int),
        StoneOpV::GD(domain) => "g_["@ + elems_text(domain) + "]"@,
    }
}

/// Labels of a list of operations.
pub open spec fn labels(ops: Seq<StoneOpV>) -> Seq<Seq<char>> {
    ops.map_values(|o: StoneOpV| op_label_spec(o))
}

/// Label of an operation in a report.
pub fn op_label(op: &StoneOp) -> (r: String)
    ensures
        r@ == op_label_spec(op_view(*op)),
{
    match op {
        StoneOp::Discriminator => "discriminator".to_owned(),
        StoneOp::FBar { bar, b } => {
            let mut s = "f_[".to_owned();
            push_elems(&mut s, bar);
            push_str(&mut s, "]_");
            push_usize(&mut s, *b);
            s
        },
        StoneOp::GD { domain } => {
            let mut s = "g_[".to_owned();
            push_elems(&mut s, domain);
            push_str(&mut s, "]");
            s
        },
    }
}

impl FilterReport {
    /// The report of a run with the given counts and operations.
    pub fn from_ops(raw_op_count: usize, filtered_op_count: usize, operations: Vec<StoneOp>) -> (r: Self)
        ensures
            r.raw_op_count == raw_op_count,
            r.filtered_op_count == filtered_op_count,
            string_views(r.operations@) == labels(ops_view(operations@)),
    {
        let mut out: Vec<String> = Vec::new();
        let mut i: usize = 0;
        while i < operations.len()
            invariant
                i <= operations.len(),
                out.len() == i,
                string_views(out@) == labels(ops_view(operations@)).take(i as int),
            decreases operations.len() - i,
        {
            let l = op_label(&operations[i]);
            let ghost before = out@;
            out.push(l);
            proof {
                assert(ops_view(operations@)[i as int] == op_view(operations@[i as int]));
                assert(labels(ops_view(operations@))[i as int] == op_label_spec(op_view(operations@[i as int])));
                assert(out@ == before.push(l));
                assert forall|k: int| 0 <= k < i + 1 implies #[trigger] string_views(out@)[k] == labels(ops_view(operations@)).take(i + 1)[k] by {
                    if k < i {
                        assert(out@[k] == before[k]);
                        assert(string_views(before)[k] == labels(ops_view(operations@)).take(i as int)[k]);
                    }
                }
                assert(string_views(out@) =~= labels(ops_view(operations@)).take(i + 1));
            }
            i += 1;
        }
        proof {
            assert(labels(ops_view(operations@)).take(operations.len() as int) =~= labels(ops_view(operations@)));
        }
        FilterReport { raw_op_count, filtered_op_count, operations: out }
    }
}

} // verus!
