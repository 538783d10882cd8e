use vstd::prelude::*;

verus! {

/// The mathematical shape of a document value, shared by the source tree and
/// the canonical tree: scalar kinds, an ordered sequence, an ordered mapping
/// written as its key/value pairs in insertion order, an unresolved alias
/// reference, an explicit null, and the invalid sentinel.
pub enum NodeModel {
    /// A real number, kept as its lexical text, never as a parsed number.
    Real(Seq<char>),
    Integer(int),
    Text(Seq<char>),
    Boolean(bool),
    Array(Seq<NodeModel>),
    Mapping(Seq<(NodeModel, NodeModel)>),
    Alias(nat),
    Null,
    BadValue,
}

/// Index of the first entry of `es` whose key is `k`, or `-1` when no entry
/// has that key.
pub open spec fn find_key(es: Seq<(NodeModel, NodeModel)>, k: NodeModel) -> int
    decreases es.len(),
{
    if es.len() == 0 {
        -1
    } else if es[0].0 == k {
        0
    } else {
        let r = find_key(es.drop_first(), k);
        if r < 0 {
            -1
        } else {
            r + 1
        }
    }
}

/// Insertion with the last-write-wins policy: a key already present keeps its
/// position and has its value overwritten; a fresh key goes to the end.
pub open spec fn map_update(
    es: Seq<(NodeModel, NodeModel)>,
    k: NodeModel,
    v: NodeModel,
) -> Seq<(NodeModel, NodeModel)> {
    let i = find_key(es, k);
    if i >= 0 {
        es.update(i, (k, v))
    } else {
        es.push((k, v))
    }
}

/// The mapping built by inserting the pairs of `qs` in order into an empty
/// mapping, each insertion applying the last-write-wins policy.
pub open spec fn map_fold(qs: Seq<(NodeModel, NodeModel)>) -> Seq<(NodeModel, NodeModel)>
    decreases qs.len(),
{
    if qs.len() == 0 {
        Seq::empty()
    } else {
        map_update(map_fold(qs.drop_last()), qs.last().0, qs.last().1)
    }
}

/// No two entries of `es` share a key.
pub open spec fn keys_unique(es: Seq<(NodeModel, NodeModel)>) -> bool {
    forall|i: int, j: int| 0 <= i < j < es.len() ==> (#[trigger] es[i]).0 != (#[trigger] es[j]).0
}

/// Canonicalization at the model level: scalars, aliases, null and the
/// invalid sentinel pass through unchanged; sequences are canonicalized
/// element by element; mapping entries are canonicalized pairwise and then
/// folded into a mapping with unique keys.
pub open spec fn canon(m: NodeModel) -> NodeModel
    decreases m,
{
    match m {
        NodeModel::Real(s) => NodeModel::Real(s),
        NodeModel::Integer(i) => NodeModel::Integer(i),
        NodeModel::Text(s) => NodeModel::Text(s),
        NodeModel::Boolean(b) => NodeModel::Boolean(b),
        NodeModel::Array(es) => NodeModel::Array(canon_seq(es)),
        NodeModel::Mapping(ps) => NodeModel::Mapping(map_fold(canon_pairs(ps))),
        NodeModel::Alias(a) => NodeModel::Alias(a),
        NodeModel::Null => NodeModel::Null,
        NodeModel::BadValue => NodeModel::BadValue,
    }
}

/// Elementwise canonicalization of a sequence of values.
pub open spec fn canon_seq(es: Seq<NodeModel>) -> Seq<NodeModel>
    decreases es,
{
    if es.len() == 0 {
        Seq::empty()
    } else {
        canon_seq(es.drop_last()).push(canon(es.last()))
    }
}

/// Pairwise canonicalization of mapping entries, order kept, no folding yet.
pub open spec fn canon_pairs(ps: Seq<(NodeModel, NodeModel)>) -> Seq<(NodeModel, NodeModel)>
    decreases ps,
{
    if ps.len() == 0 {
        Seq::empty()
    } else {
        canon_pairs(ps.drop_last()).push((canon(ps.last().0), canon(ps.last().1)))
    }
}

/// A value is well formed when every mapping inside it has pairwise distinct
/// keys.
pub open spec fn model_wf(m: NodeModel) -> bool
    decreases m,
{
    match m {
        NodeModel::Array(es) => forall|i: int| 0 <= i < es.len() ==> model_wf(#[trigger] es[i]),
        NodeModel::Mapping(ps) => {
            &&& forall|i: int|
                0 <= i < ps.len() ==> model_wf((#[trigger] ps[i]).0) && model_wf(ps[i].1)
            &&& keys_unique(ps)
        },
        _ => true,
    }
}

/// Canonicalizing a sequence extended by one value appends that value's
/// canonical form.
pub proof fn lemma_canon_seq_push(es: Seq<NodeModel>, x: NodeModel)
    ensures
        canon_seq(es.push(x)) == canon_seq(es).push(canon(x)),
{
    assert(es.push(x).drop_last() =~= es);
    assert(es.push(x).last() == x);
}

/// Canonicalizing entries extended by one pair appends that pair's canonical
/// form.
pub proof fn lemma_canon_pairs_push(ps: Seq<(NodeModel, NodeModel)>, p: (NodeModel, NodeModel))
    ensures
        canon_pairs(ps.push(p)) == canon_pairs(ps).push((canon(p.0), canon(p.1))),
{
    assert(ps.push(p).drop_last() =~= ps);
    assert(ps.push(p).last() == p);
}

/// Folding one more pair is one more insertion.
pub proof fn lemma_map_fold_push(qs: Seq<(NodeModel, NodeModel)>, q: (NodeModel, NodeModel))
    ensures
        map_fold(qs.push(q)) == map_update(map_fold(qs), q.0, q.1),
{
    assert(qs.push(q).drop_last() =~= qs);
    assert(qs.push(q).last() == q);
}

/// What `find_key` returns: a position in range; when it is a position, that
/// entry's key is `k` and no earlier entry's key is; when it is `-1`, no
/// entry's key is `k`.
pub proof fn lemma_find_key(es: Seq<(NodeModel, NodeModel)>, k: NodeModel)
    ensures
        -1 <= find_key(es, k) < es.len(),
        find_key(es, k) >= 0 ==> es[find_key(es, k)].0 == k,
        find_key(es, k) >= 0 ==> forall|i: int|
            0 <= i < find_key(es, k) ==> (#[trigger] es[i]).0 != k,
        find_key(es, k) == -1 ==> forall|i: int| 0 <= i < es.len() ==> (#[trigger] es[i]).0 != k,
    decreases es.len(),
{
    if es.len() > 0 && es[0].0 != k {
        lemma_find_key(es.drop_first(), k);
        assert forall|i: int| 1 <= i < es.len() implies (#[trigger] es[i]).0 == es.drop_first()[i
            - 1].0 by {
            assert(es.drop_first()[i - 1] == es[i]);
        }
    }
}

/// `find_key` looks at keys alone: two entry sequences with the same keys in
/// the same places agree on it.
pub proof fn lemma_find_key_same_keys(
    es1: Seq<(NodeModel, NodeModel)>,
    es2: Seq<(NodeModel, NodeModel)>,
    k: NodeModel,
)
    requires
        es1.len() == es2.len(),
        forall|i: int| 0 <= i < es1.len() ==> (#[trigger] es1[i]).0 == (#[trigger] es2[i]).0,
    ensures
        find_key(es1, k) == find_key(es2, k),
    decreases es1.len(),
{
    if es1.len() > 0 {
        assert(es1[0].0 == es2[0].0);
        assert forall|i: int|
            0 <= i < es1.drop_first().len() implies (#[trigger] es1.drop_first()[i]).0 == (
        #[trigger] es2.drop_first()[i]).0 by {
            assert(es1.drop_first()[i] == es1[i + 1]);
            assert(es2.drop_first()[i] == es2[i + 1]);
        }
        lemma_find_key_same_keys(es1.drop_first(), es2.drop_first(), k);
    }
}

/// How `find_key` behaves on a sequence extended by one entry at the end.
pub proof fn lemma_find_key_push(
    es: Seq<(NodeModel, NodeModel)>,
    p: (NodeModel, NodeModel),
    k: NodeModel,
)
    ensures
        find_key(es, k) >= 0 ==> find_key(es.push(p), k) == find_key(es, k),
        find_key(es, k) == -1 && p.0 == k ==> find_key(es.push(p), k) == es.len(),
        find_key(es, k) == -1 && p.0 != k ==> find_key(es.push(p), k) == -1,
    decreases es.len(),
{
    if es.len() == 0 {
        assert(es.push(p)[0] == p);
        assert(es.push(p).drop_first() =~= Seq::<(NodeModel, NodeModel)>::empty());
        assert(find_key(es.push(p).drop_first(), k) == -1);
    } else {
        assert(es.push(p)[0] == es[0]);
        lemma_find_key_push(es.drop_first(), p, k);
        assert(es.push(p).drop_first() =~= es.drop_first().push(p));
    }
}

/// Canonicalization is total and variant-faithful: every value has exactly
/// one canonical form, and it is of the structurally corresponding variant.
pub proof fn lemma_canon_total(m: NodeModel)
    ensures
        canon(m) is Real <==> m is Real,
        canon(m) is Integer <==> m is Integer,
        canon(m) is Text <==> m is Text,
        canon(m) is Boolean <==> m is Boolean,
        canon(m) is Array <==> m is Array,
        canon(m) is Mapping <==> m is Mapping,
        canon(m) is Alias <==> m is Alias,
        canon(m) is Null <==> m is Null,
        canon(m) is BadValue <==> m is BadValue,
{
}

/// Scalars, aliases, null and the invalid sentinel pass through unchanged:
/// a real number keeps its exact lexical text, an alias keeps its reference
/// id without being resolved, and the invalid sentinel stays the invalid
/// sentinel, never becoming null.
pub proof fn lemma_canon_scalars(s: Seq<char>, i: int, b: bool, a: nat)
    ensures
        canon(NodeModel::Real(s)) == NodeModel::Real(s),
        canon(NodeModel::Integer(i)) == NodeModel::Integer(i),
        canon(NodeModel::Text(s)) == NodeModel::Text(s),
        canon(NodeModel::Boolean(b)) == NodeModel::Boolean(b),
        canon(NodeModel::Alias(a)) == NodeModel::Alias(a),
        canon(NodeModel::Null) == NodeModel::Null,
        canon(NodeModel::BadValue) == NodeModel::BadValue,
        canon(NodeModel::BadValue) != NodeModel::Null,
{
}

/// Canonicalizing a sequence keeps its length and converts each element in
/// place: nothing is dropped, reordered or duplicated.
pub proof fn lemma_canon_seq(es: Seq<NodeModel>)
    ensures
        canon_seq(es).len() == es.len(),
        forall|i: int| 0 <= i < es.len() ==> canon_seq(es)[i] == canon(#[trigger] es[i]),
    decreases es.len(),
{
    if es.len() > 0 {
        lemma_canon_seq(es.drop_last());
        assert forall|i: int| 0 <= i < es.len() implies canon_seq(es)[i] == canon(
            #[trigger] es[i],
        ) by {
            if i < es.len() - 1 {
                assert(es.drop_last()[i] == es[i]);
            } else {
                assert(es[i] == es.last());
            }
        }
    }
}

/// Canonicalizing mapping entries keeps their number and order and converts
/// each key and each value in place.
pub proof fn lemma_canon_pairs(ps: Seq<(NodeModel, NodeModel)>)
    ensures
        canon_pairs(ps).len() == ps.len(),
        forall|i: int|
            0 <= i < ps.len() ==> canon_pairs(ps)[i] == (
            canon((#[trigger] ps[i]).0),
            canon(ps[i].1),
            ),
    decreases ps.len(),
{
    if ps.len() > 0 {
        lemma_canon_pairs(ps.drop_last());
        assert forall|i: int| 0 <= i < ps.len() implies canon_pairs(ps)[i] == (
            canon((#[trigger] ps[i]).0),
            canon(ps[i].1),
        ) by {
            if i < ps.len() - 1 {
                assert(ps.drop_last()[i] == ps[i]);
            } else {
                assert(ps[i] == ps.last());
            }
        }
    }
}

/// Insertion preserves key uniqueness.
pub proof fn lemma_map_update_unique(es: Seq<(NodeModel, NodeModel)>, k: NodeModel, v: NodeModel)
    requires
        keys_unique(es),
    ensures
        keys_unique(map_update(es, k, v)),
{
    lemma_find_key(es, k);
    let fi = find_key(es, k);
    let r = map_update(es, k, v);
    if fi >= 0 {
        assert forall|i: int, j: int| 0 <= i < j < r.len() implies (#[trigger] r[i]).0 != (
        #[trigger] r[j]).0 by {
            assert(r[i].0 == es[i].0);
            assert(r[j].0 == es[j].0);
        }
    } else {
        assert forall|i: int, j: int| 0 <= i < j < r.len() implies (#[trigger] r[i]).0 != (
        #[trigger] r[j]).0 by {
            if j == es.len() {
                assert(r[i].0 == es[i].0);
                assert(r[j].0 == k);
                assert(es[i].0 != k);
            } else {
                assert(r[i].0 == es[i].0);
                assert(r[j].0 == es[j].0);
            }
        }
    }
}

/// A folded mapping never holds the same key twice.
pub proof fn lemma_map_fold_unique(qs: Seq<(NodeModel, NodeModel)>)
    ensures
        keys_unique(map_fold(qs)),
    decreases qs.len(),
{
    if qs.len() > 0 {
        lemma_map_fold_unique(qs.drop_last());
        lemma_map_update_unique(map_fold(qs.drop_last()), qs.last().0, qs.last().1);
    }
}

/// When no two pairs share a key, folding changes nothing: entry order and
/// every entry are kept exactly.
pub proof fn lemma_map_fold_distinct(qs: Seq<(NodeModel, NodeModel)>)
    requires
        keys_unique(qs),
    ensures
        map_fold(qs) == qs,
    decreases qs.len(),
{
    if qs.len() > 0 {
        let w = qs.drop_last();
        let p = qs.last();
        assert forall|i: int, j: int| 0 <= i < j < w.len() implies (#[trigger] w[i]).0 != (
        #[trigger] w[j]).0 by {
            assert(w[i] == qs[i]);
            assert(w[j] == qs[j]);
        }
        lemma_map_fold_distinct(w);
        lemma_find_key(w, p.0);
        if find_key(w, p.0) >= 0 {
            let fi = find_key(w, p.0);
            assert(w[fi] == qs[fi]);
            assert(qs[fi].0 == qs[qs.len() - 1].0);
            assert(false);
        }
        assert(map_fold(qs) == w.push(p));
        assert(w.push(p) =~= qs);
    }
}

/// Map order preservation: when no duplicate keys arise after conversion,
/// the canonical mapping holds exactly the converted entries, each key and
/// value converted in place, in their original order.
pub proof fn lemma_canon_mapping_order(ps: Seq<(NodeModel, NodeModel)>)
    requires
        keys_unique(canon_pairs(ps)),
    ensures
        canon(NodeModel::Mapping(ps)) == NodeModel::Mapping(canon_pairs(ps)),
        canon_pairs(ps).len() == ps.len(),
        forall|i: int|
            0 <= i < ps.len() ==> canon_pairs(ps)[i] == (
            canon((#[trigger] ps[i]).0),
            canon(ps[i].1),
            ),
{
    lemma_map_fold_distinct(canon_pairs(ps));
    lemma_canon_pairs(ps);
}

/// Index of the last pair of `qs` whose key is `k`, or `-1` when no pair has
/// that key.
pub open spec fn last_key(qs: Seq<(NodeModel, NodeModel)>, k: NodeModel) -> int
    decreases qs.len(),
{
    if qs.len() == 0 {
        -1
    } else if qs.last().0 == k {
        qs.len() - 1
    } else {
        last_key(qs.drop_last(), k)
    }
}

/// What `last_key` returns: a position in range; when it is a position, that
/// entry's key is `k` and no later entry's key is; when it is `-1`, no
/// entry's key is `k`.
pub proof fn lemma_last_key(qs: Seq<(NodeModel, NodeModel)>, k: NodeModel)
    ensures
        -1 <= last_key(qs, k) < qs.len(),
        last_key(qs, k) >= 0 ==> qs[last_key(qs, k)].0 == k,
        last_key(qs, k) >= 0 ==> forall|i: int|
            last_key(qs, k) < i < qs.len() ==> (#[trigger] qs[i]).0 != k,
        last_key(qs, k) == -1 ==> forall|i: int| 0 <= i < qs.len() ==> (#[trigger] qs[i]).0 != k,
    decreases qs.len(),
{
    if qs.len() > 0 && qs.last().0 != k {
        lemma_last_key(qs.drop_last(), k);
        assert forall|i: int| 0 <= i < qs.len() - 1 implies (#[trigger] qs[i]) == qs.drop_last()[
            i] by {}
    }
}

/// The last write wins: when any pair of `qs` carries the key `k`, the
/// folded mapping holds exactly one entry for `k`, and its value is the
/// value of the last pair of `qs` whose key is `k`.
pub proof fn lemma_map_fold_last_write(qs: Seq<(NodeModel, NodeModel)>, k: NodeModel)
    requires
        last_key(qs, k) >= 0,
    ensures
        find_key(map_fold(qs), k) >= 0,
        map_fold(qs)[find_key(map_fold(qs), k)].0 == k,
        map_fold(qs)[find_key(map_fold(qs), k)].1 == qs[last_key(qs, k)].1,
    decreases qs.len(),
{
    let w = qs.drop_last();
    let p = qs.last();
    let fw = map_fold(w);
    let f = map_fold(qs);
    lemma_find_key(fw, p.0);
    let fi = find_key(fw, p.0);
    if p.0 == k {
        if fi >= 0 {
            assert(f == fw.update(fi, (p.0, p.1)));
            assert forall|t: int| 0 <= t < f.len() implies (#[trigger] f[t]).0 == (
            #[trigger] fw[t]).0 by {}
            lemma_find_key_same_keys(f, fw, k);
            assert(find_key(f, k) == fi);
        } else {
            assert(f == fw.push((p.0, p.1)));
            lemma_find_key_push(fw, (p.0, p.1), k);
            assert(find_key(f, k) == fw.len());
        }
    } else {
        assert(last_key(qs, k) == last_key(w, k));
        lemma_last_key(w, k);
        assert(w[last_key(w, k)] == qs[last_key(qs, k)]);
        lemma_map_fold_last_write(w, k);
        let j = find_key(fw, k);
        lemma_find_key(fw, k);
        if fi >= 0 {
            assert(f == fw.update(fi, (p.0, p.1)));
            assert(fw[fi].0 == p.0);
            assert(fi != j);
            assert forall|t: int| 0 <= t < f.len() implies (#[trigger] f[t]).0 == (
            #[trigger] fw[t]).0 by {}
            lemma_find_key_same_keys(f, fw, k);
            assert(find_key(f, k) == j);
            assert(f[j] == fw[j]);
        } else {
            assert(f == fw.push((p.0, p.1)));
            lemma_find_key_push(fw, (p.0, p.1), k);
            assert(find_key(f, k) == j);
            assert(f[j] == fw[j]);
        }
    }
}

/// Last-write-wins at the canonical mapping: when entries of a source map
/// convert to the same canonical key, the canonical mapping keeps exactly
/// one entry for that key, and its value is the one converted from the last
/// colliding entry.
pub proof fn lemma_canon_mapping_last_write(ps: Seq<(NodeModel, NodeModel)>, k: NodeModel)
    requires
        last_key(canon_pairs(ps), k) >= 0,
    ensures
        ({
            let f = map_fold(canon_pairs(ps));
            &&& canon(NodeModel::Mapping(ps)) == NodeModel::Mapping(f)
            &&& find_key(f, k) >= 0
            &&& f[find_key(f, k)].0 == k
            &&& f[find_key(f, k)].1 == canon_pairs(ps)[last_key(canon_pairs(ps), k)].1
        }),
{
    lemma_map_fold_last_write(canon_pairs(ps), k);
}

/// Every entry of a folded mapping takes its key and its value from pairs of
/// the folded sequence.
pub proof fn lemma_map_fold_entries(qs: Seq<(NodeModel, NodeModel)>)
    ensures
        forall|j: int|
            0 <= j < map_fold(qs).len() ==> exists|i: int|
                0 <= i < qs.len() && (#[trigger] map_fold(qs)[j]).0 == (#[trigger] qs[i]).0,
        forall|j: int|
            0 <= j < map_fold(qs).len() ==> exists|i: int|
                0 <= i < qs.len() && (#[trigger] map_fold(qs)[j]).1 == (#[trigger] qs[i]).1,
    decreases qs.len(),
{
    if qs.len() > 0 {
        let w = qs.drop_last();
        let p = qs.last();
        let fw = map_fold(w);
        let f = map_fold(qs);
        lemma_map_fold_entries(w);
        lemma_find_key(fw, p.0);
        let fi = find_key(fw, p.0);
        assert forall|j: int| 0 <= j < f.len() implies exists|i: int|
            0 <= i < qs.len() && (#[trigger] f[j]).0 == (#[trigger] qs[i]).0 by {
            if fi >= 0 && j == fi {
                assert(f[j] == (p.0, p.1));
                assert(0 <= qs.len() - 1 < qs.len() && f[j].0 == qs[qs.len() - 1].0);
            } else if fi == -1 && j == fw.len() {
                assert(f == fw.push((p.0, p.1)));
                assert(f[j] == (p.0, p.1));
                assert(0 <= qs.len() - 1 < qs.len() && f[j].0 == qs[qs.len() - 1].0);
            } else {
                assert(f[j] == fw[j]);
                let i = choose|i: int| 0 <= i < w.len() && (#[trigger] fw[j]).0 == (
                #[trigger] w[i]).0;
                assert(w[i] == qs[i]);
                assert(0 <= i < qs.len() && f[j].0 == qs[i].0);
            }
        }
        assert forall|j: int| 0 <= j < f.len() implies exists|i: int|
            0 <= i < qs.len() && (#[trigger] f[j]).1 == (#[trigger] qs[i]).1 by {
            if fi >= 0 && j == fi {
                assert(f[j] == (p.0, p.1));
                assert(0 <= qs.len() - 1 < qs.len() && f[j].1 == qs[qs.len() - 1].1);
            } else if fi == -1 && j == fw.len() {
                assert(f == fw.push((p.0, p.1)));
                assert(f[j] == (p.0, p.1));
                assert(0 <= qs.len() - 1 < qs.len() && f[j].1 == qs[qs.len() - 1].1);
            } else {
                assert(f[j] == fw[j]);
                let i = choose|i: int| 0 <= i < w.len() && (#[trigger] fw[j]).1 == (
                #[trigger] w[i]).1;
                assert(w[i] == qs[i]);
                assert(0 <= i < qs.len() && f[j].1 == qs[i].1);
            }
        }
    }
}

/// Canonicalization establishes the mapping invariant everywhere: every
/// mapping inside a canonical value has pairwise distinct keys.
pub proof fn lemma_canon_wf(m: NodeModel)
    ensures
        model_wf(canon(m)),
    decreases m,
{
    match m {
        NodeModel::Array(es) => {
            lemma_canon_seq(es);
            assert forall|i: int| 0 <= i < canon_seq(es).len() implies model_wf(
                #[trigger] canon_seq(es)[i],
            ) by {
                assert(canon_seq(es)[i] == canon(es[i]));
                lemma_canon_wf(es[i]);
            }
        },
        NodeModel::Mapping(ps) => {
            lemma_canon_pairs(ps);
            let qs = canon_pairs(ps);
            assert forall|i: int| 0 <= i < qs.len() implies model_wf((#[trigger] qs[i]).0)
                && model_wf(qs[i].1) by {
                assert(qs[i] == (canon(ps[i].0), canon(ps[i].1)));
                lemma_canon_wf(ps[i].0);
                lemma_canon_wf(ps[i].1);
            }
            lemma_map_fold_unique(qs);
            lemma_map_fold_entries(qs);
            let f = map_fold(qs);
            assert forall|j: int| 0 <= j < f.len() implies model_wf((#[trigger] f[j]).0)
                && model_wf(f[j].1) by {
                let i1 = choose|i: int| 0 <= i < qs.len() && (#[trigger] f[j]).0 == (
                #[trigger] qs[i]).0;
                let i2 = choose|i: int| 0 <= i < qs.len() && (#[trigger] f[j]).1 == (
                #[trigger] qs[i]).1;
                assert(model_wf(qs[i1].0));
                assert(model_wf(qs[i2].1));
            }
        },
        _ => {},
    }
}

} // verus!
