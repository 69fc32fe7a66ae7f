//! The JSON-subset document model.
//!
//! `JsonNode` is the executable tree that the codec reads and writes;
//! `JsonVal` is its mathematical shadow, the type every codec contract
//! speaks of. Strings and object keys are byte vectors holding the
//! *unescaped* content; escaping is the codec's business alone.
//!
//! Numbers keep the three shapes the wire grammar distinguishes:
//! a non-negative integer (`UInt`), a strictly negative integer that
//! fits a signed 64-bit word (`Int`), and a scaled decimal (`Dec`) for
//! everything else — fractions, exponent forms, and integers whose
//! magnitude overflows the 64-bit mantissa.

use vstd::prelude::*;

verus! {

broadcast use vstd::std_specs::vec::group_vec_axioms, vstd::seq::group_seq_axioms;

/// A decimal number `(-1)^neg * mantissa * 10^exp10`.
///
/// The wire format never carries binary floating point: every
/// non-integer number is an exact scaled decimal. A `DecNumber` is
/// *canonical* when its mantissa keeps no trailing zero digits and a
/// zero mantissa keeps a zero exponent; the decoder only ever
/// produces canonical values.
#[derive(Clone, Copy, PartialEq, Eq, Structural, Debug)]
pub struct DecNumber {
    pub neg: bool,
    pub mantissa: u64,
    pub exp10: i32,
}

/// Spec-level JSON document.
pub enum JsonVal {
    Null,
    Bool(bool),
    Str(Seq<u8>),
    UInt(u64),
    Int(i64),
    Dec(DecNumber),
    Arr(Seq<JsonVal>),
    Obj(Seq<(Seq<u8>, JsonVal)>),
}

/// Executable JSON document.
#[derive(Debug)]
pub enum JsonNode {
    Null,
    Bool(bool),
    Str(Vec<u8>),
    UInt(u64),
    Int(i64),
    Dec(DecNumber),
    Arr(Vec<JsonNode>),
    Obj(Vec<(Vec<u8>, JsonNode)>),
}

/// Mathematical value of an executable document.
pub open spec fn node_view(n: JsonNode) -> JsonVal
    decreases n,
{
    match n {
        JsonNode::Null => JsonVal::Null,
        JsonNode::Bool(b) => JsonVal::Bool(b),
        JsonNode::Str(s) => JsonVal::Str(s@),
        JsonNode::UInt(u) => JsonVal::UInt(u),
        JsonNode::Int(i) => JsonVal::Int(i),
        JsonNode::Dec(d) => JsonVal::Dec(d),
        JsonNode::Arr(items) => JsonVal::Arr(nodes_view(items@)),
        JsonNode::Obj(entries) => JsonVal::Obj(entry_nodes_view(entries@)),
    }
}

/// Elementwise [`node_view`] of a sequence of documents.
pub open spec fn nodes_view(s: Seq<JsonNode>) -> Seq<JsonVal>
    decreases s,
{
    if s.len() == 0 {
        Seq::empty()
    } else {
        nodes_view(s.drop_last()).push(node_view(s.last()))
    }
}

/// Elementwise view of a sequence of object entries.
pub open spec fn entry_nodes_view(s: Seq<(Vec<u8>, JsonNode)>) -> Seq<(Seq<u8>, JsonVal)>
    decreases s,
{
    if s.len() == 0 {
        Seq::empty()
    } else {
        entry_nodes_view(s.drop_last()).push(
            (s.last().0@, node_view(s.last().1)),
        )
    }
}

impl View for JsonNode {
    type V = JsonVal;

    open spec fn view(&self) -> JsonVal {
        node_view(*self)
    }
}

/// Node count of a document; every scalar, array and object counts one.
pub open spec fn val_size(v: JsonVal) -> nat
    decreases v,
{
    match v {
        JsonVal::Arr(items) => 1 + vals_size(items),
        JsonVal::Obj(entries) => 1 + entries_size(entries),
        _ => 1,
    }
}

/// Total node count of a sequence of documents.
pub open spec fn vals_size(items: Seq<JsonVal>) -> nat
    decreases items,
{
    if items.len() == 0 {
        0
    } else {
        vals_size(items.drop_last()) + val_size(items.last())
    }
}

/// Total node count of the values of a sequence of object entries.
pub open spec fn entries_size(entries: Seq<(Seq<u8>, JsonVal)>) -> nat
    decreases entries,
{
    if entries.len() == 0 {
        0
    } else {
        entries_size(entries.drop_last()) + val_size(entries.last().1)
    }
}

/// Node count of an executable document.
pub open spec fn node_size(n: JsonNode) -> nat {
    val_size(n@)
}

/// Total node count of a vector of executable documents.
pub open spec fn nodes_size(s: Seq<JsonNode>) -> nat
    decreases s,
{
    if s.len() == 0 {
        0
    } else {
        nodes_size(s.drop_last()) + node_size(s.last())
    }
}

pub proof fn lemma_nodes_size_push(s: Seq<JsonNode>, x: JsonNode)
    ensures
        nodes_size(s.push(x)) == nodes_size(s) + node_size(x),
{
    assert(s.push(x).drop_last() =~= s);
}

/// Total node count of the values of a vector of object entries.
pub open spec fn entry_nodes_size(s: Seq<(Vec<u8>, JsonNode)>) -> nat
    decreases s,
{
    if s.len() == 0 {
        0
    } else {
        entry_nodes_size(s.drop_last()) + node_size(s.last().1)
    }
}

proof fn lemma_nodes_size_as_vals(s: Seq<JsonNode>)
    ensures
        nodes_size(s) == vals_size(nodes_view(s)),
    decreases s.len(),
{
    if s.len() > 0 {
        lemma_nodes_size_as_vals(s.drop_last());
        assert(nodes_view(s).drop_last() =~= nodes_view(s.drop_last()));
    }
}

proof fn lemma_entry_nodes_size_as_entries(s: Seq<(Vec<u8>, JsonNode)>)
    ensures
        entry_nodes_size(s) == entries_size(entry_nodes_view(s)),
    decreases s.len(),
{
    if s.len() > 0 {
        lemma_entry_nodes_size_as_entries(s.drop_last());
        assert(entry_nodes_view(s).drop_last() =~= entry_nodes_view(s.drop_last()));
    }
}

/// Tears an executable document down without recursive drop calls.
///
/// Dropping a deeply nested tree through the default recursive `Drop`
/// glue grows the call stack with the nesting depth; this walk keeps
/// the pending children in an explicit vector instead.
pub fn safe_drop(value: JsonNode) {
    let mut stack: Vec<JsonNode> = Vec::new();
    match value {
        JsonNode::Arr(_) | JsonNode::Obj(_) => stack.push(value),
        _ => {
            return;
        }
    }

    while stack.len() > 0
        decreases nodes_size(stack@),
    {
        let ghost pre = nodes_size(stack@);
        let node = stack.pop().unwrap();
        proof {
            assert(pre == nodes_size(stack@) + node_size(node));
        }
        match node {
            JsonNode::Arr(mut items) => {
                proof {
                    lemma_nodes_size_as_vals(items@);
                    assert(node_size(node) == 1 + nodes_size(items@));
                }
                while items.len() > 0
                    invariant
                        nodes_size(stack@) + nodes_size(items@) <= pre - 1,
                    decreases items.len(),
                {
                    let child = items.pop().unwrap();
                    match child {
                        JsonNode::Arr(_) | JsonNode::Obj(_) => {
                            proof {
                                lemma_nodes_size_push(stack@, child);
                            }
                            stack.push(child);
                        }
                        _ => {}
                    }
                }
            }
            JsonNode::Obj(mut entries) => {
                proof {
                    lemma_entry_nodes_size_as_entries(entries@);
                    assert(node_size(node) == 1 + entry_nodes_size(entries@));
                }
                while entries.len() > 0
                    invariant
                        nodes_size(stack@) + entry_nodes_size(entries@) <= pre - 1,
                    decreases entries.len(),
                {
                    let (_, child) = entries.pop().unwrap();
                    match child {
                        JsonNode::Arr(_) | JsonNode::Obj(_) => {
                            proof {
                                lemma_nodes_size_push(stack@, child);
                            }
                            stack.push(child);
                        }
                        _ => {}
                    }
                }
            }
            _ => {}
        }
    }
}

} // verus!
