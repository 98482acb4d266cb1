//! General laws of the merge operations, stated and proved once over the
//! specification functions that the executable contracts use.

use std::collections::HashMap;
use std::hash::Hash;

use vstd::prelude::*;

use crate::merge_right::{
    concat_all, lemma_concat_all_subrange, map_merge_err_witness, MergeRight,
};
use crate::value::{
    has_key, keys_unique, lemma_mapping_errors_empty, lemma_merge_value_ok, lemma_merged_left,
    lemma_right_only, lookup, mapping_errors, merge_mapping, merge_value, merged_left, right_only,
    Entry, ValModel,
};

verus! {

broadcast use vstd::seq::group_seq_axioms;

/// Merging any scalar left value with any right value yields exactly the
/// right value, whatever its variant.
pub proof fn lemma_scalar_override(l: ValModel, r: ValModel)
    requires
        l is Null || l is Bool || l is Number || l is String,
    ensures
        merge_value(l, r) == Ok::<ValModel, Seq<Seq<char>>>(r),
{
}

/// Merging two sequences concatenates them, left elements first, order
/// preserved exactly.
pub proof fn lemma_sequence_concatenation(a: Seq<ValModel>, b: Seq<ValModel>)
    ensures
        merge_value(ValModel::Sequence(a), ValModel::Sequence(b)) == Ok::<
            ValModel,
            Seq<Seq<char>>,
        >(ValModel::Sequence(a + b)),
{
}

/// Merging a sequence with a non-sequence appends the right value as one
/// trailing element.
pub proof fn lemma_sequence_append(a: Seq<ValModel>, r: ValModel)
    requires
        !(r is Sequence),
    ensures
        merge_value(ValModel::Sequence(a), r) == Ok::<ValModel, Seq<Seq<char>>>(
            ValModel::Sequence(a.push(r)),
        ),
{
}

/// The appended part of a mapping merge is the whole right side when no
/// right key occurs on the left.
proof fn lemma_right_only_all(l: Seq<Entry>, r: Seq<Entry>)
    requires
        forall|j: int| 0 <= j < r.len() ==> !has_key(l, (#[trigger] r[j]).0),
    ensures
        right_only(l, r) == r,
    decreases r.len(),
{
    if r.len() > 0 {
        assert(forall|j: int|
            0 <= j < r.drop_first().len() ==> #[trigger] r.drop_first()[j] == r[j + 1]);
        lemma_right_only_all(l, r.drop_first());
        assert(right_only(l, r) =~= r);
    }
}

/// Merging two mappings with disjoint key sets keeps every entry of both:
/// the left entries in place, the right entries appended in order.
pub proof fn lemma_mapping_union_disjoint(l: Seq<Entry>, r: Seq<Entry>)
    requires
        forall|j: int| 0 <= j < r.len() ==> !has_key(l, (#[trigger] r[j]).0),
        forall|i: int| 0 <= i < l.len() ==> !has_key(r, (#[trigger] l[i]).0),
    ensures
        merge_value(ValModel::Mapping(l), ValModel::Mapping(r)) == Ok::<ValModel, Seq<Seq<char>>>(
            ValModel::Mapping(l + r),
        ),
{
    lemma_mapping_errors_empty(l, r);
    lemma_merged_left(l, r);
    lemma_right_only_all(l, r);
    assert(merged_left(l, r) =~= l);
    assert(merge_value(ValModel::Mapping(l), ValModel::Mapping(r)) == merge_mapping(l, r));
}

/// The value found under the first entry with key `k` is the value of any
/// entry carrying `k`, when keys are unique.
proof fn lemma_lookup_unique(s: Seq<Entry>, i: int)
    requires
        keys_unique(s),
        0 <= i < s.len(),
    ensures
        lookup(s, s[i].0) == s[i].1,
    decreases i,
{
    if i > 0 {
        assert(forall|x: int| 0 <= x < s.drop_first().len() ==> #[trigger] s.drop_first()[x] == s[x
            + 1]);
        lemma_lookup_unique(s.drop_first(), i - 1);
    }
}

/// A key shared by both mappings holds, in the merged mapping, exactly the
/// recursive merge of the two values stored under it.
pub proof fn lemma_mapping_conflict_recurses(l: Seq<Entry>, r: Seq<Entry>, i: int)
    requires
        keys_unique(l),
        keys_unique(r),
        0 <= i < l.len(),
        has_key(r, l[i].0),
    ensures
        merge_value(ValModel::Mapping(l), ValModel::Mapping(r)) matches Ok(m) && m is Mapping
            && lookup(m->Mapping_0, l[i].0) == merge_value(l[i].1, lookup(r, l[i].0))->Ok_0,
{
    lemma_mapping_errors_empty(l, r);
    lemma_merged_left(l, r);
    lemma_right_only(l, r);
    let s = merged_left(l, r) + right_only(l, r);
    assert(merge_value(ValModel::Mapping(l), ValModel::Mapping(r)) == merge_mapping(l, r));
    assert(s[i] == merged_left(l, r)[i]);
    assert(keys_unique(s)) by {
        assert forall|x: int, y: int| 0 <= x < y < s.len() implies s[x].0 != s[y].0 by {
            if y < l.len() {
                assert(l[x].0 != l[y].0);
            } else if x >= l.len() {
                assert(right_only(l, r)[x - l.len()].0 != right_only(l, r)[y - l.len()].0);
            } else {
                assert(has_key(l, l[x].0));
                assert(!has_key(l, right_only(l, r)[y - l.len()].0));
            }
        }
    }
    lemma_lookup_unique(s, i);
}

/// Merging a tagged value with an equally tagged one merges the contents
/// under that tag, and a conflict inside surfaces as the whole result.
pub proof fn lemma_tagged_same_tag(t: Seq<char>, a: ValModel, b: ValModel)
    ensures
        merge_value(ValModel::Tagged(t, Box::new(a)), ValModel::Tagged(t, Box::new(b))) == (
        match merge_value(a, b) {
            Ok(m) => Ok::<ValModel, Seq<Seq<char>>>(ValModel::Tagged(t, Box::new(m))),
            Err(e) => Err(e),
        }),
{
}

/// Merging tagged values whose tags differ keeps the right value whole: no
/// content is merged.
pub proof fn lemma_tagged_mismatch(lt: Seq<char>, lv: Box<ValModel>, rt: Seq<char>, rv: Box<
    ValModel,
>)
    requires
        lt != rt,
    ensures
        merge_value(ValModel::Tagged(lt, lv), ValModel::Tagged(rt, rv)) == Ok::<
            ValModel,
            Seq<Seq<char>>,
        >(ValModel::Tagged(rt, rv)),
{
}

/// Merging a mapping with an empty mapping changes nothing.
pub proof fn lemma_merge_empty_mapping(l: Seq<Entry>)
    ensures
        merge_value(ValModel::Mapping(l), ValModel::Mapping(Seq::empty())) == Ok::<
            ValModel,
            Seq<Seq<char>>,
        >(ValModel::Mapping(l)),
{
    lemma_merged_left(l, Seq::empty());
    assert(merge_value(ValModel::Mapping(l), ValModel::Mapping(Seq::empty())) == merge_mapping(
        l,
        Seq::empty(),
    ));
    assert(mapping_errors(l, Seq::empty()) == Seq::<Seq<char>>::empty());
    assert(merged_left(l, Seq::empty()) + right_only(l, Seq::empty()) =~= l);
}

/// Merging a sequence with an empty sequence changes nothing.
pub proof fn lemma_merge_empty_sequence(s: Seq<ValModel>)
    ensures
        merge_value(ValModel::Sequence(s), ValModel::Sequence(Seq::empty())) == Ok::<
            ValModel,
            Seq<Seq<char>>,
        >(ValModel::Sequence(s)),
{
    assert(s + Seq::<ValModel>::empty() =~= s);
}

/// The merge of two document values never fails: the conflict machinery is
/// exercised only by other mergeable types.
pub proof fn lemma_value_merge_total(l: ValModel, r: ValModel)
    ensures
        merge_value(l, r) is Ok,
{
    lemma_merge_value_ok(l, r);
}

/// List merge is associative: merging three lists left-to-right and
/// right-to-left yields the same elements in the same order.
pub proof fn lemma_vec_merge_associative<A>(
    a: Vec<A>,
    b: Vec<A>,
    c: Vec<A>,
    ab: Vec<A>,
    bc: Vec<A>,
    abc1: Vec<A>,
    abc2: Vec<A>,
)
    requires
        a.merge_ok(b, ab),
        ab.merge_ok(c, abc1),
        b.merge_ok(c, bc),
        a.merge_ok(bc, abc2),
    ensures
        abc1@ == abc2@,
{
    assert(abc1@ =~= abc2@);
}

/// List merge is not commutative: two single-element lists with different
/// elements merge to different results in the two orders.
pub proof fn lemma_vec_merge_not_commutative<A>(a: Vec<A>, b: Vec<A>, ab: Vec<A>, ba: Vec<A>)
    requires
        a@.len() == 1,
        b@.len() == 1,
        a@[0] != b@[0],
        a.merge_ok(b, ab),
        b.merge_ok(a, ba),
    ensures
        ab@ != ba@,
{
    assert(ab@[0] != ba@[0]);
}

/// Hash-map merge is last-writer-wins per key: a key present on the right
/// always ends up with the right value, without any recursive value merge.
pub proof fn lemma_hash_map_right_wins<K: Eq + Hash, V>(
    l: HashMap<K, V>,
    r: HashMap<K, V>,
    m: HashMap<K, V>,
    k: K,
)
    requires
        l.merge_ok(r, m),
        r@.dom().contains(k),
    ensures
        m@.dom().contains(k),
        m@[k] == r@[k],
{
}

/// An ordered-map merge accumulates conflicts instead of stopping at the
/// first: every shared key whose value merge can only fail is listed in the
/// failure witness together with its own non-empty error list, inside the
/// one concatenated report.
pub proof fn lemma_map_merge_accumulates<K: Ord, V: MergeRight>(
    l: Map<K, V>,
    r: Map<K, V>,
    errs: Seq<String>,
    k1: K,
)
    requires
        exists|ks: Seq<K>, es: Seq<Seq<String>>|
            #[trigger] map_merge_err_witness(l, r, ks, es, errs),
        l.dom().contains(k1),
        r.dom().contains(k1),
        forall|mv: V| !(#[trigger] l[k1].merge_ok(r[k1], mv)),
    ensures
        exists|ks: Seq<K>, es: Seq<Seq<String>>, a: int|
            #![trigger map_merge_err_witness(l, r, ks, es, errs), ks[a]]
            {
                &&& map_merge_err_witness(l, r, ks, es, errs)
                &&& 0 <= a < ks.len()
                &&& ks[a] == k1
                &&& es[a].len() > 0
                &&& l[k1].merge_err(r[k1], es[a])
                &&& errs == concat_all(es)
                &&& exists|off: int|
                    0 <= off && off + es[a].len() <= errs.len() && #[trigger] errs.subrange(
                        off,
                        off + es[a].len(),
                    ) == es[a]
            },
{
    let (ks, es) = choose|ks: Seq<K>, es: Seq<Seq<String>>|
        #[trigger] map_merge_err_witness(l, r, ks, es, errs);
    assert(ks.contains(k1)) by {
        if !ks.contains(k1) {
            assert(exists|mv: V| #[trigger] l[k1].merge_ok(r[k1], mv));
            let mv = choose|mv: V| #[trigger] l[k1].merge_ok(r[k1], mv);
            assert(false);
        }
    };
    let a = choose|a: int| 0 <= a < ks.len() && ks[a] == k1;
    lemma_concat_all_subrange(es, a);
    assert(map_merge_err_witness(l, r, ks, es, errs) && 0 <= a < ks.len() && ks[a] == k1
        && es[a].len() > 0 && l[k1].merge_err(r[k1], es[a]) && errs == concat_all(es));
}

} // verus!
