use crate::model::{
    canon, canon_pairs, canon_seq, lemma_canon_pairs_push, lemma_canon_seq_push,
    lemma_map_fold_push, map_fold, NodeModel,
};
use crate::source::{
    entry_model_seq, lemma_entry_model_seq_push, lemma_node_model_seq_push, node_model,
    node_model_seq, YamlNode,
};
use crate::value::{
    lemma_value_model_seq_push, value_model, value_model_seq, OrderedMap, YamlSerialize,
};
use vstd::prelude::*;

verus! {

/// Canonicalize one source node, depth first: scalars, aliases, null and the
/// invalid sentinel pass through unchanged; a sequence is converted element
/// by element in order; a map's entries are converted pairwise and inserted
/// in their original order with the last-write-wins policy on key collision.
pub fn convert_node(n: &YamlNode) -> (v: YamlSerialize)
    ensures
        value_model(v) == canon(node_model(*n)),
    decreases *n,
{
    match n {
        YamlNode::Real(s) => YamlSerialize::Real(s.clone()),
        YamlNode::Integer(i) => YamlSerialize::Integer(*i),
        YamlNode::String(s) => YamlSerialize::String(s.clone()),
        YamlNode::Boolean(b) => YamlSerialize::Boolean(*b),
        YamlNode::Alias(a) => YamlSerialize::Alias(*a),
        YamlNode::Null => YamlSerialize::Null,
        YamlNode::BadValue => YamlSerialize::BadValue,
        YamlNode::Array(elems) => {
            let mut out: Vec<YamlSerialize> = Vec::new();
            let mut i: usize = 0;
            while i < elems.len()
                invariant
                    *n == YamlNode::Array(*elems),
                    i <= elems@.len(),
                    value_model_seq(out@) == canon_seq(node_model_seq(elems@.take(i as int))),
                decreases elems@.len() - i,
            {
                proof {
                    assert(decreases_to!(*n => (*n)->Array_0));
                    assert((*n)->Array_0 == *elems);
                    assert(decreases_to!(*elems => elems@));
                    assert(decreases_to!(elems@ => elems@[i as int]));
                }
                let ghost out0 = out@;
                let c = convert_node(&elems[i]);
                out.push(c);
                proof {
                    assert(elems@.take(i as int + 1) =~= elems@.take(i as int).push(
                        elems@[i as int],
                    ));
                    lemma_node_model_seq_push(elems@.take(i as int), elems@[i as int]);
                    lemma_canon_seq_push(
                        node_model_seq(elems@.take(i as int)),
                        node_model(elems@[i as int]),
                    );
                    lemma_value_model_seq_push(out0, c);
                }
                i += 1;
            }
            proof {
                assert(elems@.take(elems@.len() as int) =~= elems@);
            }
            YamlSerialize::Array(out)
        },
        YamlNode::Hash(pairs) => {
            let mut m = OrderedMap::new();
            let mut i: usize = 0;
            while i < pairs.len()
                invariant
                    *n == YamlNode::Hash(*pairs),
                    i <= pairs@.len(),
                    m.entries_model() == map_fold(
                        canon_pairs(entry_model_seq(pairs@.take(i as int))),
                    ),
                decreases pairs@.len() - i,
            {
                proof {
                    assert(decreases_to!(*n => (*n)->Hash_0));
                    assert((*n)->Hash_0 == *pairs);
                    assert(decreases_to!(*pairs => pairs@));
                    assert(decreases_to!(pairs@ => pairs@[i as int]));
                    assert(decreases_to!(pairs@[i as int] => pairs@[i as int].0));
                    assert(decreases_to!(pairs@[i as int] => pairs@[i as int].1));
                }
                let ck = convert_node(&pairs[i].0);
                let cv = convert_node(&pairs[i].1);
                m.insert(ck, cv);
                proof {
                    assert(pairs@.take(i as int + 1) =~= pairs@.take(i as int).push(
                        pairs@[i as int],
                    ));
                    lemma_entry_model_seq_push(pairs@.take(i as int), pairs@[i as int]);
                    lemma_canon_pairs_push(
                        entry_model_seq(pairs@.take(i as int)),
                        (node_model(pairs@[i as int].0), node_model(pairs@[i as int].1)),
                    );
                    lemma_map_fold_push(
                        canon_pairs(entry_model_seq(pairs@.take(i as int))),
                        (
                            canon(node_model(pairs@[i as int].0)),
                            canon(node_model(pairs@[i as int].1)),
                        ),
                    );
                }
                i += 1;
            }
            proof {
                assert(pairs@.take(pairs@.len() as int) =~= pairs@);
            }
            YamlSerialize::Node(m)
        },
    }
}

/// Convert a whole parsed document list into canonical values: the result
/// has one canonical value per source node, in the same order.
pub fn convert(yml: Vec<YamlNode>) -> (res: Vec<YamlSerialize>)
    ensures
        value_model_seq(res@) == canon_seq(node_model_seq(yml@)),
        res@.len() == yml@.len(),
{
    let mut res: Vec<YamlSerialize> = Vec::new();
    let mut i: usize = 0;
    while i < yml.len()
        invariant
            i <= yml@.len(),
            res@.len() == i,
            value_model_seq(res@) == canon_seq(node_model_seq(yml@.take(i as int))),
        decreases yml@.len() - i,
    {
        let ghost res0 = res@;
        let c = convert_node(&yml[i]);
        res.push(c);
        proof {
            assert(yml@.take(i as int + 1) =~= yml@.take(i as int).push(yml@[i as int]));
            lemma_node_model_seq_push(yml@.take(i as int), yml@[i as int]);
            lemma_canon_seq_push(node_model_seq(yml@.take(i as int)), node_model(yml@[i as int]));
            lemma_value_model_seq_push(res0, c);
        }
        i += 1;
    }
    proof {
        assert(yml@.take(yml@.len() as int) =~= yml@);
    }
    res
}

/// Count and order preservation: a converted document list has exactly one
/// canonical value per source node, in the same order, the i-th converted
/// from the i-th source node.
pub proof fn lemma_convert_pointwise(src: Seq<YamlNode>, dst: Seq<YamlSerialize>)
    requires
        value_model_seq(dst) == canon_seq(node_model_seq(src)),
    ensures
        dst.len() == src.len(),
        forall|i: int|
            0 <= i < src.len() ==> value_model(#[trigger] dst[i]) == canon(
                node_model(#[trigger] src[i]),
            ),
{
    crate::source::lemma_node_model_seq(src);
    crate::model::lemma_canon_seq(node_model_seq(src));
    crate::value::lemma_value_model_seq(dst);
}

/// The mapping invariant holds of everything `convert` produces: every map
/// anywhere inside a converted value has pairwise distinct keys.
pub proof fn lemma_convert_wf(src: Seq<YamlNode>, dst: Seq<YamlSerialize>)
    requires
        value_model_seq(dst) == canon_seq(node_model_seq(src)),
    ensures
        forall|i: int| 0 <= i < dst.len() ==> crate::model::model_wf(value_model(#[trigger] dst[i])),
{
    lemma_convert_pointwise(src, dst);
    assert forall|i: int| 0 <= i < dst.len() implies crate::model::model_wf(
        value_model(#[trigger] dst[i]),
    ) by {
        crate::model::lemma_canon_wf(node_model(src[i]));
    }
}

} // verus!
