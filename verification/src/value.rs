use crate::model::{find_key, lemma_find_key, map_update, NodeModel};
use vstd::prelude::*;

verus! {

/// A canonical document value: the serialization-ready counterpart of a
/// source node. The whole type carries equality, a total order and a hash
/// (all derived structurally), so a value can serve as an ordered-map key
/// even when it is itself a container.
#[derive(Debug, PartialEq, Eq, PartialOrd, Ord, Hash)]
pub enum YamlSerialize {
    /// A real number kept as its lexical text and reparsed on demand: a
    /// parsed float could not support the total equality, ordering and
    /// hashing that map keys need. Textually different spellings of one
    /// number, such as "1.5" and "1.50", are therefore distinct values.
    Real(String),
    /// An integer, stored as a 64-bit signed value.
    Integer(i64),
    /// A plain string scalar.
    String(String),
    /// A boolean scalar.
    Boolean(bool),
    /// An ordered sequence of canonical values.
    Array(Vec<YamlSerialize>),
    /// An order-preserving map with unique keys.
    Node(OrderedMap),
    /// An opaque reference id, never resolved.
    Alias(usize),
    /// An explicit absent-value token of the source.
    Null,
    /// The sentinel for a value that could not be represented; distinct from
    /// `Null` and never coerced into it.
    BadValue,
}

/// An order-preserving map from canonical values to canonical values: the
/// entries stand in insertion order, and insertion of a key that is already
/// present overwrites that key's value in place.
#[derive(Debug, PartialEq, Eq, PartialOrd, Ord, Hash)]
pub struct OrderedMap {
    /// The entries in insertion order; `insert` keeps the keys unique.
    pub entries: Vec<(YamlSerialize, YamlSerialize)>,
}

/// The model of a canonical value.
pub open spec fn value_model(v: YamlSerialize) -> NodeModel
    decreases v,
{
    match v {
        YamlSerialize::Real(s) => NodeModel::Real(s@),
        YamlSerialize::Integer(i) => NodeModel::Integer(i as int),
        YamlSerialize::String(s) => NodeModel::Text(s@),
        YamlSerialize::Boolean(b) => NodeModel::Boolean(b),
        YamlSerialize::Array(v2) => NodeModel::Array(value_model_seq(v2@)),
        YamlSerialize::Node(m) => NodeModel::Mapping(value_entry_model_seq(m.entries@)),
        YamlSerialize::Alias(a) => NodeModel::Alias(a as nat),
        YamlSerialize::Null => NodeModel::Null,
        YamlSerialize::BadValue => NodeModel::BadValue,
    }
}

/// The models of a sequence of canonical values, in order.
pub open spec fn value_model_seq(s: Seq<YamlSerialize>) -> Seq<NodeModel>
    decreases s,
{
    if s.len() == 0 {
        Seq::empty()
    } else {
        value_model_seq(s.drop_last()).push(value_model(s.last()))
    }
}

/// The models of a sequence of canonical entry pairs, in order.
pub open spec fn value_entry_model_seq(s: Seq<(YamlSerialize, YamlSerialize)>) -> Seq<
    (NodeModel, NodeModel),
>
    decreases s,
{
    if s.len() == 0 {
        Seq::empty()
    } else {
        value_entry_model_seq(s.drop_last()).push(
            (value_model(s.last().0), value_model(s.last().1)),
        )
    }
}

/// `value_model_seq` maps `value_model` over the sequence.
pub proof fn lemma_value_model_seq(s: Seq<YamlSerialize>)
    ensures
        value_model_seq(s).len() == s.len(),
        forall|i: int| 0 <= i < s.len() ==> value_model_seq(s)[i] == value_model(#[trigger] s[i]),
    decreases s.len(),
{
    if s.len() > 0 {
        lemma_value_model_seq(s.drop_last());
        assert forall|i: int| 0 <= i < s.len() implies value_model_seq(s)[i] == value_model(
            #[trigger] s[i],
        ) by {
            if i < s.len() - 1 {
                assert(s.drop_last()[i] == s[i]);
            } else {
                assert(s[i] == s.last());
            }
        }
    }
}

/// `value_entry_model_seq` maps `value_model` over both sides of every pair.
pub proof fn lemma_value_entry_model_seq(s: Seq<(YamlSerialize, YamlSerialize)>)
    ensures
        value_entry_model_seq(s).len() == s.len(),
        forall|i: int|
            0 <= i < s.len() ==> value_entry_model_seq(s)[i] == (
            value_model((#[trigger] s[i]).0),
            value_model(s[i].1),
            ),
    decreases s.len(),
{
    if s.len() > 0 {
        lemma_value_entry_model_seq(s.drop_last());
        assert forall|i: int| 0 <= i < s.len() implies value_entry_model_seq(s)[i] == (
            value_model((#[trigger] s[i]).0),
            value_model(s[i].1),
        ) by {
            if i < s.len() - 1 {
                assert(s.drop_last()[i] == s[i]);
            } else {
                assert(s[i] == s.last());
            }
        }
    }
}

/// Appending a canonical value appends its model.
pub proof fn lemma_value_model_seq_push(s: Seq<YamlSerialize>, x: YamlSerialize)
    ensures
        value_model_seq(s.push(x)) == value_model_seq(s).push(value_model(x)),
{
    assert(s.push(x).drop_last() =~= s);
    assert(s.push(x).last() == x);
}

/// Appending a canonical entry pair appends its model pair.
pub proof fn lemma_value_entry_model_seq_push(
    s: Seq<(YamlSerialize, YamlSerialize)>,
    p: (YamlSerialize, YamlSerialize),
)
    ensures
        value_entry_model_seq(s.push(p)) == value_entry_model_seq(s).push(
            (value_model(p.0), value_model(p.1)),
        ),
{
    assert(s.push(p).drop_last() =~= s);
    assert(s.push(p).last() == p);
}

/// Structural equality of canonical values, decided recursively; agrees with
/// equality of the models.
pub fn value_eq(a: &YamlSerialize, b: &YamlSerialize) -> (r: bool)
    ensures
        r == (value_model(*a) == value_model(*b)),
    decreases *a,
{
    match (a, b) {
        (YamlSerialize::Real(x), YamlSerialize::Real(y)) => *x == *y,
        (YamlSerialize::Integer(x), YamlSerialize::Integer(y)) => *x == *y,
        (YamlSerialize::String(x), YamlSerialize::String(y)) => *x == *y,
        (YamlSerialize::Boolean(x), YamlSerialize::Boolean(y)) => *x == *y,
        (YamlSerialize::Alias(x), YamlSerialize::Alias(y)) => *x == *y,
        (YamlSerialize::Null, YamlSerialize::Null) => true,
        (YamlSerialize::BadValue, YamlSerialize::BadValue) => true,
        (YamlSerialize::Array(x), YamlSerialize::Array(y)) => {
            proof {
                assert(decreases_to!(*a => (*a)->Array_0));
                assert((*a)->Array_0 == *x);
                assert(decreases_to!(*x => x@));
            }
            values_eq(x, y)
        },
        (YamlSerialize::Node(x), YamlSerialize::Node(y)) => {
            proof {
                assert(decreases_to!(*a => (*a)->Node_0));
                assert((*a)->Node_0 == *x);
                assert(decreases_to!(*x => x.entries));
                assert(decreases_to!(x.entries => x.entries@));
            }
            entries_eq(&x.entries, &y.entries)
        },
        _ => false,
    }
}

/// Elementwise equality of two lists of canonical values.
fn values_eq(x: &Vec<YamlSerialize>, y: &Vec<YamlSerialize>) -> (r: bool)
    ensures
        r == (value_model_seq(x@) == value_model_seq(y@)),
    decreases x@,
{
    proof {
        lemma_value_model_seq(x@);
        lemma_value_model_seq(y@);
    }
    if x.len() != y.len() {
        return false;
    }
    let mut i: usize = 0;
    while i < x.len()
        invariant
            x@.len() == y@.len(),
            i <= x@.len(),
            forall|t: int| 0 <= t < i ==> value_model(#[trigger] x@[t]) == value_model(y@[t]),
        decreases x@.len() - i,
    {
        if !value_eq(&x[i], &y[i]) {
            proof {
                lemma_value_model_seq(x@);
                lemma_value_model_seq(y@);
                assert(value_model_seq(x@)[i as int] == value_model(x@[i as int]));
                assert(value_model_seq(y@)[i as int] == value_model(y@[i as int]));
                assert(value_model_seq(x@)[i as int] != value_model_seq(y@)[i as int]);
            }
            return false;
        }
        i += 1;
    }
    proof {
        lemma_value_model_seq(x@);
        lemma_value_model_seq(y@);
        assert forall|t: int| 0 <= t < x@.len() implies value_model_seq(x@)[t]
            == value_model_seq(y@)[t] by {
            assert(value_model(x@[t]) == value_model(y@[t]));
        }
        assert(value_model_seq(x@) =~= value_model_seq(y@));
    }
    true
}

/// Pairwise equality of two entry lists, keys and values alike.
fn entries_eq(
    x: &Vec<(YamlSerialize, YamlSerialize)>,
    y: &Vec<(YamlSerialize, YamlSerialize)>,
) -> (r: bool)
    ensures
        r == (value_entry_model_seq(x@) == value_entry_model_seq(y@)),
    decreases x@,
{
    proof {
        lemma_value_entry_model_seq(x@);
        lemma_value_entry_model_seq(y@);
    }
    if x.len() != y.len() {
        return false;
    }
    let mut i: usize = 0;
    while i < x.len()
        invariant
            x@.len() == y@.len(),
            i <= x@.len(),
            forall|t: int|
                0 <= t < i ==> value_model((#[trigger] x@[t]).0) == value_model(y@[t].0)
                    && value_model(x@[t].1) == value_model(y@[t].1),
        decreases x@.len() - i,
    {
        proof {
            assert(decreases_to!(x@ => x@[i as int]));
            assert(decreases_to!(x@[i as int] => x@[i as int].0));
            assert(decreases_to!(x@[i as int] => x@[i as int].1));
        }
        let same_key = value_eq(&x[i].0, &y[i].0);
        let same_val = value_eq(&x[i].1, &y[i].1);
        if !(same_key && same_val) {
            proof {
                lemma_value_entry_model_seq(x@);
                lemma_value_entry_model_seq(y@);
                assert(value_entry_model_seq(x@)[i as int] == (
                    value_model(x@[i as int].0),
                    value_model(x@[i as int].1),
                ));
                assert(value_entry_model_seq(y@)[i as int] == (
                    value_model(y@[i as int].0),
                    value_model(y@[i as int].1),
                ));
                assert(value_entry_model_seq(x@)[i as int] != value_entry_model_seq(y@)[i as int]);
            }
            return false;
        }
        i += 1;
    }
    proof {
        lemma_value_entry_model_seq(x@);
        lemma_value_entry_model_seq(y@);
        assert forall|t: int| 0 <= t < x@.len() implies value_entry_model_seq(x@)[t]
            == value_entry_model_seq(y@)[t] by {
            assert(value_model(x@[t].0) == value_model(y@[t].0));
            assert(value_model(x@[t].1) == value_model(y@[t].1));
        }
        assert(value_entry_model_seq(x@) =~= value_entry_model_seq(y@));
    }
    true
}

impl OrderedMap {
    /// The entries at the model level, in insertion order.
    pub open spec fn entries_model(&self) -> Seq<(NodeModel, NodeModel)> {
        value_entry_model_seq(self.entries@)
    }

    /// An empty map.
    pub fn new() -> (m: OrderedMap)
        ensures
            m.entries_model() == Seq::<(NodeModel, NodeModel)>::empty(),
    {
        OrderedMap { entries: Vec::new() }
    }

    /// The number of entries.
    pub fn len(&self) -> (n: usize)
        ensures
            n == self.entries_model().len(),
    {
        proof {
            lemma_value_entry_model_seq(self.entries@);
        }
        self.entries.len()
    }

    /// Last-write-wins insertion: a key already present keeps its position
    /// and has its value overwritten; a fresh key goes to the end.
    pub fn insert(&mut self, key: YamlSerialize, value: YamlSerialize)
        ensures
            final(self).entries_model() == map_update(
                old(self).entries_model(),
                value_model(key),
                value_model(value),
            ),
    {
        let ghost es0 = self.entries@;
        let ghost esm0 = value_entry_model_seq(es0);
        let ghost k = value_model(key);
        proof {
            lemma_value_entry_model_seq(es0);
            lemma_find_key(esm0, k);
        }
        let mut j: usize = 0;
        while j < self.entries.len()
            invariant
                self.entries@ == es0,
                es0 == old(self).entries@,
                esm0 == value_entry_model_seq(es0),
                k == value_model(key),
                j <= es0.len(),
                forall|i: int| 0 <= i < j ==> value_model((#[trigger] es0[i]).0) != k,
            decreases es0.len() - j,
        {
            if value_eq(&self.entries[j].0, &key) {
                proof {
                    lemma_value_entry_model_seq(es0);
                    lemma_find_key(esm0, k);
                    assert(esm0[j as int].0 == value_model(es0[j as int].0));
                    assert(esm0[j as int].0 == k);
                    assert forall|i: int| 0 <= i < j implies (#[trigger] esm0[i]).0 != k by {
                        assert(esm0[i].0 == value_model(es0[i].0));
                    }
                    assert(find_key(esm0, k) == j as int);
                }
                self.entries.remove(j);
                self.entries.insert(j, (key, value));
                proof {
                    let new_es = self.entries@;
                    assert(new_es =~= es0.update(j as int, (key, value)));
                    lemma_value_entry_model_seq(new_es);
                    assert forall|t: int| 0 <= t < new_es.len() implies value_entry_model_seq(
                        new_es,
                    )[t] == esm0.update(j as int, (k, value_model(value)))[t] by {
                        assert(value_entry_model_seq(new_es)[t] == (
                            value_model(new_es[t].0),
                            value_model(new_es[t].1),
                        ));
                        if t != j {
                            assert(new_es[t] == es0[t]);
                            assert(esm0[t] == (value_model(es0[t].0), value_model(es0[t].1)));
                        } else {
                            assert(new_es[t] == (key, value));
                        }
                    }
                    assert(value_entry_model_seq(new_es) =~= esm0.update(
                        j as int,
                        (k, value_model(value)),
                    ));
                }
                return ;
            }
            j += 1;
        }
        proof {
            lemma_find_key(esm0, k);
            if find_key(esm0, k) >= 0 {
                let fi = find_key(esm0, k);
                assert(esm0[fi].0 == value_model(es0[fi].0));
                assert(false);
            }
        }
        self.entries.push((key, value));
        proof {
            assert(self.entries@ =~= es0.push((key, value)));
            lemma_value_entry_model_seq_push(es0, (key, value));
        }
    }
}

} // verus!
