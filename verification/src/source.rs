use crate::model::NodeModel;
use vstd::prelude::*;

verus! {

/// A source document node as the external parser hands it over: the library's
/// own copy of the parser's dynamically typed value, one variant per shape.
/// A mapping arrives as its entries in insertion order.
#[derive(Debug, PartialEq, Eq)]
pub enum YamlNode {
    /// A real number as its lexical text, not yet parsed.
    Real(String),
    Integer(i64),
    String(String),
    Boolean(bool),
    Array(Vec<YamlNode>),
    Hash(Vec<(YamlNode, YamlNode)>),
    /// An opaque reference id; never resolved here.
    Alias(usize),
    Null,
    BadValue,
}

/// The model of a source node.
pub open spec fn node_model(n: YamlNode) -> NodeModel
    decreases n,
{
    match n {
        YamlNode::Real(s) => NodeModel::Real(s@),
        YamlNode::Integer(i) => NodeModel::Integer(i as int),
        YamlNode::String(s) => NodeModel::Text(s@),
        YamlNode::Boolean(b) => NodeModel::Boolean(b),
        YamlNode::Array(v) => NodeModel::Array(node_model_seq(v@)),
        YamlNode::Hash(ps) => NodeModel::Mapping(entry_model_seq(ps@)),
        YamlNode::Alias(a) => NodeModel::Alias(a as nat),
        YamlNode::Null => NodeModel::Null,
        YamlNode::BadValue => NodeModel::BadValue,
    }
}

/// The models of a sequence of source nodes, in order.
pub open spec fn node_model_seq(s: Seq<YamlNode>) -> Seq<NodeModel>
    decreases s,
{
    if s.len() == 0 {
        Seq::empty()
    } else {
        node_model_seq(s.drop_last()).push(node_model(s.last()))
    }
}

/// The models of a sequence of source entry pairs, in order.
pub open spec fn entry_model_seq(s: Seq<(YamlNode, YamlNode)>) -> Seq<(NodeModel, NodeModel)>
    decreases s,
{
    if s.len() == 0 {
        Seq::empty()
    } else {
        entry_model_seq(s.drop_last()).push((node_model(s.last().0), node_model(s.last().1)))
    }
}

/// `node_model_seq` maps `node_model` over the sequence.
pub proof fn lemma_node_model_seq(s: Seq<YamlNode>)
    ensures
        node_model_seq(s).len() == s.len(),
        forall|i: int| 0 <= i < s.len() ==> node_model_seq(s)[i] == node_model(#[trigger] s[i]),
    decreases s.len(),
{
    if s.len() > 0 {
        lemma_node_model_seq(s.drop_last());
        assert forall|i: int| 0 <= i < s.len() implies node_model_seq(s)[i] == node_model(
            #[trigger] s[i],
        ) by {
            if i < s.len() - 1 {
                assert(s.drop_last()[i] == s[i]);
            } else {
                assert(s[i] == s.last());
            }
        }
    }
}

/// Appending a source node appends its model.
pub proof fn lemma_node_model_seq_push(s: Seq<YamlNode>, x: YamlNode)
    ensures
        node_model_seq(s.push(x)) == node_model_seq(s).push(node_model(x)),
{
    assert(s.push(x).drop_last() =~= s);
    assert(s.push(x).last() == x);
}

/// Appending a source entry pair appends its model pair.
pub proof fn lemma_entry_model_seq_push(s: Seq<(YamlNode, YamlNode)>, p: (YamlNode, YamlNode))
    ensures
        entry_model_seq(s.push(p)) == entry_model_seq(s).push(
            (node_model(p.0), node_model(p.1)),
        ),
{
    assert(s.push(p).drop_last() =~= s);
    assert(s.push(p).last() == p);
}

} // verus!
