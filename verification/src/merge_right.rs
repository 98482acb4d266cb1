//! The merge capability: `merge_right(self, other)` combines two values of
//! one type, right-biased, returning a validation result so that several
//! conflicts can be reported at once.

use std::collections::hash_map::RandomState;
use std::collections::{BTreeMap, BTreeSet, HashMap, HashSet};
use std::sync::Arc;

use vstd::prelude::*;

use crate::valid::{Valid, ValidationError};

verus! {

broadcast use vstd::std_specs::btree::group_btree_axioms, vstd::seq::group_seq_axioms;

use vstd::laws_cmp::obeys_cmp;
use vstd::std_specs::cmp::OrdSpec;
use vstd::std_specs::hash::builds_valid_hashers;
use vstd::std_specs::hash::obeys_key_model;

/// A type that can be merged with another instance of itself, the right-hand
/// side overriding or extending the left.
///
/// Each implementation gives the operation its meaning through three spec
/// functions: `mergeable` is the well-formedness the operation relies on,
/// `merge_ok` says which merged values may come out of a success, and
/// `merge_err` says which error lists may come out of a failure.
pub trait MergeRight: Sized {
    /// Well-formedness of an operand.
    spec fn mergeable(self) -> bool;

    /// Relates the two operands to a correct merged value.
    spec fn merge_ok(self, other: Self, merged: Self) -> bool;

    /// Relates the two operands to a correct list of merge conflicts.
    spec fn merge_err(self, other: Self, errs: Seq<String>) -> bool;

    /// Merges `other` (the right side) into `self` (the left side),
    /// consuming both.
    fn merge_right(self, other: Self) -> (r: Valid<Self, String>)
        requires
            self.mergeable(),
            other.mergeable(),
        ensures
            (match r {
                Valid::Success(m) => self.merge_ok(other, m),
                Valid::Failure(e) => e@.len() > 0 && self.merge_err(other, e@),
            }),
    ;
}

impl<A: MergeRight> MergeRight for Option<A> {
    open spec fn mergeable(self) -> bool {
        match self {
            Some(a) => a.mergeable(),
            None => true,
        }
    }

    open spec fn merge_ok(self, other: Self, merged: Self) -> bool {
        match (self, other) {
            (Some(a), Some(b)) => match merged {
                Some(m) => a.merge_ok(b, m),
                None => false,
            },
            (None, Some(b)) => merged == Some(b),
            (Some(a), None) => merged == Some(a),
            (None, None) => merged is None,
        }
    }

    open spec fn merge_err(self, other: Self, errs: Seq<String>) -> bool {
        match (self, other) {
            (Some(a), Some(b)) => a.merge_err(b, errs),
            _ => false,
        }
    }

    fn merge_right(self, other: Self) -> (r: Valid<Self, String>) {
        match (self, other) {
            (Some(this), Some(that)) => match this.merge_right(that) {
                Valid::Success(m) => Valid::succeed(Some(m)),
                Valid::Failure(e) => Valid::Failure(e),
            },
            (None, Some(that)) => Valid::succeed(Some(that)),
            (Some(this), None) => Valid::succeed(Some(this)),
            (None, None) => Valid::succeed(None),
        }
    }
}

impl<A> MergeRight for Vec<A> {
    open spec fn mergeable(self) -> bool {
        true
    }

    /// Concatenation: left elements first, then right elements, no
    /// deduplication.
    open spec fn merge_ok(self, other: Self, merged: Self) -> bool {
        merged@ == self@ + other@
    }

    /// Concatenating two lists cannot fail.
    open spec fn merge_err(self, other: Self, errs: Seq<String>) -> bool {
        false
    }

    fn merge_right(self, other: Self) -> (r: Valid<Self, String>) {
        let mut this = self;
        let mut other = other;
        this.append(&mut other);
        Valid::succeed(this)
    }
}

/// The given error lists, concatenated in order.
pub open spec fn concat_all(es: Seq<Seq<String>>) -> Seq<String>
    decreases es.len(),
{
    if es.len() == 0 {
        Seq::empty()
    } else {
        es[0] + concat_all(es.drop_first())
    }
}

/// Concatenation takes one list at a time off the back.
pub proof fn lemma_concat_all_push(es: Seq<Seq<String>>, e: Seq<String>)
    ensures
        concat_all(es.push(e)) == concat_all(es) + e,
    decreases es.len(),
{
    reveal_with_fuel(concat_all, 3);
    if es.len() == 0 {
        assert(es.push(e)[0] == e);
        assert(es.push(e).drop_first() =~= Seq::<Seq<String>>::empty());
        assert(concat_all(es.push(e)) =~= concat_all(es) + e);
    } else {
        assert(es.push(e)[0] == es[0]);
        assert(es.push(e).drop_first() =~= es.drop_first().push(e));
        lemma_concat_all_push(es.drop_first(), e);
        assert(concat_all(es.push(e)) =~= concat_all(es) + e);
    }
}

/// Concatenating non-empty lists yields at least one element per list.
pub proof fn lemma_concat_all_lower_bound(es: Seq<Seq<String>>)
    requires
        forall|a: int| 0 <= a < es.len() ==> (#[trigger] es[a]).len() > 0,
    ensures
        concat_all(es).len() >= es.len(),
    decreases es.len(),
{
    if es.len() > 0 {
        assert(forall|a: int|
            0 <= a < es.drop_first().len() ==> #[trigger] es.drop_first()[a] == es[a + 1]);
        lemma_concat_all_lower_bound(es.drop_first());
    }
}

/// Each list of a concatenation appears in it contiguously, at the offset
/// given by the total length of the lists before it.
pub proof fn lemma_concat_all_subrange(es: Seq<Seq<String>>, a: int)
    requires
        0 <= a < es.len(),
    ensures
        exists|off: int|
            0 <= off && off + es[a].len() <= concat_all(es).len() && #[trigger] concat_all(
                es,
            ).subrange(off, off + es[a].len()) == es[a],
    decreases a,
{
    if a == 0 {
        assert(concat_all(es).subrange(0, es[0].len() as int) =~= es[0]);
        let off: int = 0;
        assert(concat_all(es).subrange(off, off + es[a].len()) == es[a]);
    } else {
        assert(forall|x: int|
            0 <= x < es.drop_first().len() ==> #[trigger] es.drop_first()[x] == es[x + 1]);
        lemma_concat_all_subrange(es.drop_first(), a - 1);
        let rest = concat_all(es.drop_first());
        let off2 = choose|off2: int|
            0 <= off2 && off2 + es.drop_first()[a - 1].len() <= rest.len() && #[trigger] rest.subrange(
                off2,
                off2 + es.drop_first()[a - 1].len(),
            ) == es.drop_first()[a - 1];
        let off = es[0].len() + off2;
        assert(es[a] == es.drop_first()[a - 1]);
        assert(concat_all(es) == es[0] + rest);
        assert(0 <= off && off + es[a].len() <= concat_all(es).len());
        assert(concat_all(es).subrange(off, off + es[a].len()) =~= rest.subrange(
            off2,
            off2 + es[a].len(),
        ));
        assert(concat_all(es).subrange(off, off + es[a].len()) == es[a]);
    }
}

/// A witness that `errs` is exactly what a key-wise ordered-map merge
/// accumulates: for each failing shared key, in ascending key order, the
/// conflicts of that key's merge — while every other shared key merges
/// cleanly.
pub open spec fn map_merge_err_witness<K: Ord, V: MergeRight>(
    l: Map<K, V>,
    r: Map<K, V>,
    ks: Seq<K>,
    es: Seq<Seq<String>>,
    errs: Seq<String>,
) -> bool {
    &&& es.len() == ks.len()
    &&& ks.len() > 0
    &&& forall|a: int, b: int|
        #![trigger ks[a], ks[b]]
        0 <= a < b < ks.len() ==> ks[a].cmp_spec(&ks[b]) is Less
    &&& forall|a: int|
        0 <= a < ks.len() ==> l.dom().contains(#[trigger] ks[a]) && r.dom().contains(ks[a])
    &&& forall|a: int|
        0 <= a < ks.len() ==> (#[trigger] es[a]).len() > 0 && l[ks[a]].merge_err(r[ks[a]], es[a])
    &&& forall|k: K|
        l.dom().contains(k) && r.dom().contains(k) && !ks.contains(k) ==> exists|mv: V|
            #[trigger] l[k].merge_ok(r[k], mv)
    &&& errs == concat_all(es)
}

/// Relies on `BTreeMap::pop_first`: it removes and returns the entry with
/// the least key, or `None` exactly when the map is empty. As in the
/// standard map's own specifications, what a returned entry means for the
/// view is stated only for key types whose `Ord` obeys the comparison
/// model: under an inconsistent `Ord` the collection's behaviour is
/// unspecified.
#[verifier::external_body]
fn btree_map_pop_first<K: Ord, V>(m: &mut BTreeMap<K, V>) -> (r: Option<(K, V)>)
    ensures
        match r {
            None => old(m)@ == final(m)@ && old(m)@ =~= Map::<K, V>::empty(),
            Some((k, v)) => obeys_cmp::<K>() ==> {
                &&& old(m)@.contains_pair(k, v)
                &&& final(m)@ == old(m)@.remove(k)
                &&& forall|k2: K|
                    #[trigger] old(m)@.dom().contains(k2) ==> k2 == k || k.cmp_spec(&k2) is Less
            },
        },
{
    m.pop_first()
}

impl<K: Ord, V: Clone + MergeRight> MergeRight for BTreeMap<K, V> {
    /// The key type must obey the comparison model the standard map relies
    /// on, and every stored value must itself be mergeable.
    open spec fn mergeable(self) -> bool {
        &&& obeys_cmp::<K>()
        &&& forall|k: K| #[trigger] self@.dom().contains(k) ==> self@[k].mergeable()
    }

    /// Key-wise union: keys on one side only keep their value, shared keys
    /// hold a recursive merge of the two values.
    open spec fn merge_ok(self, other: Self, merged: Self) -> bool {
        &&& forall|k: K|
            #[trigger] merged@.dom().contains(k) <==> (self@.dom().contains(k)
                || other@.dom().contains(k))
        &&& forall|k: K|
            #![trigger self@[k], merged@[k]]
            self@.dom().contains(k) && !other@.dom().contains(k) ==> merged@[k] == self@[k]
        &&& forall|k: K|
            #![trigger other@[k], merged@[k]]
            other@.dom().contains(k) && !self@.dom().contains(k) ==> merged@[k] == other@[k]
        &&& forall|k: K|
            #![trigger self@[k], other@[k]]
            self@.dom().contains(k) && other@.dom().contains(k) ==> self@[k].merge_ok(
                other@[k],
                merged@[k],
            )
    }

    /// Conflicts from every failing shared key are accumulated, in ascending
    /// key order, rather than stopping at the first.
    open spec fn merge_err(self, other: Self, errs: Seq<String>) -> bool {
        exists|ks: Seq<K>, es: Seq<Seq<String>>|
            #[trigger] map_merge_err_witness(self@, other@, ks, es, errs)
    }

    #[verifier::loop_isolation(false)]
    #[verifier::rlimit(100)]
    fn merge_right(self, other: Self) -> (r: Valid<Self, String>) {
        let ghost l0 = self@;
        let ghost r0 = other@;
        let mut this = self;
        let mut other = other;
        let mut errors: ValidationError<String> = ValidationError::empty();
        let ghost mut ks: Seq<K> = Seq::empty();
        let ghost mut es: Seq<Seq<String>> = Seq::empty();
        while !other.is_empty()
            invariant
                obeys_cmp::<K>(),
                forall|k: K| #[trigger] l0.dom().contains(k) ==> l0[k].mergeable(),
                forall|k: K| #[trigger] r0.dom().contains(k) ==> r0[k].mergeable(),
                forall|k: K| #[trigger] other@.dom().contains(k) ==> r0.dom().contains(k)
                    && other@[k] == r0[k],
                es.len() == ks.len(),
                forall|a: int, b: int|
                    #![trigger ks[a], ks[b]]
                    0 <= a < b < ks.len() ==> ks[a].cmp_spec(&ks[b]) is Less,
                forall|a: int|
                    0 <= a < ks.len() ==> l0.dom().contains(#[trigger] ks[a])
                        && r0.dom().contains(ks[a]) && !other@.dom().contains(ks[a]),
                forall|a: int|
                    0 <= a < ks.len() ==> (#[trigger] es[a]).len() > 0 && l0[ks[a]].merge_err(
                        r0[ks[a]],
                        es[a],
                    ),
                forall|a: int, k2: K|
                    0 <= a < ks.len() && #[trigger] other@.dom().contains(k2) ==> (
                    #[trigger] ks[a]).cmp_spec(&k2) is Less,
                errors@ == concat_all(es),
                forall|k: K|
                    #![trigger this@.dom().contains(k)]
                    l0.dom().contains(k) && !r0.dom().contains(k) ==> this@.dom().contains(k)
                        && this@[k] == l0[k],
                forall|k: K|
                    #![trigger other@.dom().contains(k), this@[k]]
                    l0.dom().contains(k) && other@.dom().contains(k) ==> this@.dom().contains(k)
                        && this@[k] == l0[k],
                forall|k: K|
                    #![trigger r0[k], this@[k]]
                    !l0.dom().contains(k) && r0.dom().contains(k) && !other@.dom().contains(k)
                        ==> this@.dom().contains(k) && this@[k] == r0[k],
                forall|k: K|
                    #![trigger l0[k], this@[k]]
                    l0.dom().contains(k) && r0.dom().contains(k) && !other@.dom().contains(k)
                        && !ks.contains(k) ==> this@.dom().contains(k) && l0[k].merge_ok(
                        r0[k],
                        this@[k],
                    ),
                forall|k: K|
                    #[trigger] this@.dom().contains(k) ==> l0.dom().contains(k) || (
                    r0.dom().contains(k) && !other@.dom().contains(k)),
                forall|a: int| 0 <= a < ks.len() ==> !this@.dom().contains(#[trigger] ks[a]),
            decreases other@.dom().len(),
        {
            let ghost o_pre = other@;
            let ghost t_pre = this@;
            proof {
                assert forall|k2: K|
                    #![trigger o_pre.dom().contains(k2), t_pre[k2]]
                    l0.dom().contains(k2) && o_pre.dom().contains(k2) implies t_pre.dom().contains(
                    k2,
                ) && t_pre[k2] == l0[k2] by {
                    assert(other@.dom().contains(k2));
                    assert(this@[k2] == t_pre[k2]);
                }
                assert forall|k2: K|
                    #![trigger o_pre.dom().contains(k2), t_pre[k2]]
                    !l0.dom().contains(k2) && r0.dom().contains(k2) && !o_pre.dom().contains(
                        k2,
                    ) implies t_pre.dom().contains(k2) && t_pre[k2] == r0[k2] by {
                    assert(!other@.dom().contains(k2));
                    assert(this@[k2] == t_pre[k2]);
                }
                assert forall|k2: K|
                    #![trigger o_pre.dom().contains(k2), t_pre[k2]]
                    l0.dom().contains(k2) && r0.dom().contains(k2) && !o_pre.dom().contains(k2)
                        && !ks.contains(k2) implies t_pre.dom().contains(k2) && l0[k2].merge_ok(
                    r0[k2],
                    t_pre[k2],
                ) by {
                    assert(!other@.dom().contains(k2));
                    assert(this@[k2] == t_pre[k2]);
                }
                assert forall|k2: K| #[trigger]
                    t_pre.dom().contains(k2) implies l0.dom().contains(k2) || (r0.dom().contains(
                    k2,
                ) && !o_pre.dom().contains(k2)) by {
                    assert(this@.dom().contains(k2));
                }
                assert forall|k2: K|
                    #![trigger t_pre.dom().contains(k2), l0[k2]]
                    l0.dom().contains(k2) && !r0.dom().contains(k2) implies t_pre.dom().contains(
                    k2,
                ) && t_pre[k2] == l0[k2] by {
                    assert(this@[k2] == t_pre[k2]);
                    if this@.dom().contains(k2) {
                    }
                }
            }
            match btree_map_pop_first(&mut other) {
                None => {
                    proof {
                        assert(false);
                    }
                },
                Some((k, v)) => {
                    proof {
                        assert(o_pre.dom().contains(k));
                        assert(other@.dom() =~= o_pre.dom().remove(k));
                        assert(other@.dom().len() < o_pre.dom().len());
                        assert(v == r0[k]);
                        assert(v.mergeable());
                        assert(!ks.contains(k)) by {
                            if ks.contains(k) {
                                let a = choose|a: int| 0 <= a < ks.len() && ks[a] == k;
                                assert(!o_pre.dom().contains(ks[a]));
                                assert(false);
                            }
                        };
                    }
                    match this.remove(&k) {
                        Some(sv) => {
                            proof {
                                assert(this@ == t_pre.remove(k));
                                assert(t_pre.dom().contains(k) && sv == t_pre[k]);
                                assert(l0.dom().contains(k)) by {
                                    if !l0.dom().contains(k) {
                                        assert(r0.dom().contains(k) && !o_pre.dom().contains(
                                            k,
                                        ));
                                        assert(false);
                                    }
                                };
                                assert(sv == l0[k]);
                                assert(sv.mergeable());
                            }
                            match sv.merge_right(v).to_result() {
                                Ok(merged) => {
                                    this.insert(k, merged);
                                    proof {
                                        assert(this@ == t_pre.remove(k).insert(k, merged));
                                        assert(l0[k].merge_ok(r0[k], merged));
                                        assert forall|k2: K| #[trigger]
                                            this@.dom().contains(k2) implies l0.dom().contains(
                                            k2,
                                        ) || (r0.dom().contains(k2) && !other@.dom().contains(
                                            k2,
                                        )) by {
                                            if k2 != k {
                                                assert(t_pre.dom().contains(k2));
                                            }
                                        }
                                        assert forall|k2: K|
                                            l0.dom().contains(k2) && other@.dom().contains(
                                                k2,
                                            ) implies this@.dom().contains(k2) && this@[k2]
                                            == l0[k2] by {
                                            assert(o_pre.dom().contains(k2));
                                            let tv = t_pre[k2];
                                            assert(k2 != k);
                                            assert(t_pre.dom().contains(k2) && t_pre[k2]
                                                == l0[k2]);
                                            assert(this@[k2] == t_pre[k2]);
                                            assert(this@.dom().contains(k2));
                                        }
                                        assert forall|k2: K|
                                            !l0.dom().contains(k2) && r0.dom().contains(k2)
                                                && !other@.dom().contains(
                                                k2,
                                            ) implies this@.dom().contains(k2) && this@[k2]
                                            == r0[k2] by {
                                            let tv = t_pre[k2];
                                            assert(k2 != k);
                                            assert(!o_pre.dom().contains(k2));
                                        }
                                        assert forall|k2: K|
                                            l0.dom().contains(k2) && r0.dom().contains(k2)
                                                && !other@.dom().contains(k2) && !ks.contains(
                                                k2,
                                            ) implies this@.dom().contains(k2) && l0[k2].merge_ok(
                                            r0[k2],
                                            this@[k2],
                                        ) by {
                                            let tv = t_pre[k2];
                                            if k2 != k {
                                                assert(!o_pre.dom().contains(k2));
                                            }
                                        }
                                    }
                                },
                                Err(e) => {
                                    proof {
                                        let ghost ks_pre = ks;
                                        lemma_concat_all_push(es, e@);
                                        assert forall|a: int, k2: K|
                                            0 <= a < ks.push(k).len() && #[trigger]
                                            other@.dom().contains(k2) implies (
                                        #[trigger] ks.push(k)[a]).cmp_spec(&k2) is Less by {
                                            assert(o_pre.dom().contains(k2));
                                            if a < ks.len() {
                                                assert(ks[a].cmp_spec(&k2) is Less);
                                            } else {
                                                assert(ks.push(k)[a] == k);
                                                assert(k2 == k || k.cmp_spec(&k2) is Less);
                                                assert(k2 != k);
                                            }
                                        }
                                        assert forall|a: int, b: int|
                                            #![trigger ks.push(k)[a], ks.push(k)[b]]
                                            0 <= a < b < ks.push(k).len() implies ks.push(
                                            k,
                                        )[a].cmp_spec(&ks.push(k)[b]) is Less by {
                                            if b == ks.len() {
                                                assert(ks.push(k)[a] == ks[a]);
                                                assert(ks.push(k)[b] == k);
                                                assert(ks[a].cmp_spec(&k) is Less);
                                            }
                                        }
                                        ks = ks.push(k);
                                        es = es.push(e@);
                                        assert forall|k2: K|
                                            l0.dom().contains(k2) && other@.dom().contains(
                                                k2,
                                            ) implies this@.dom().contains(k2) && this@[k2]
                                            == l0[k2] by {
                                            assert(o_pre.dom().contains(k2));
                                            let tv = t_pre[k2];
                                            assert(k2 != k);
                                        }
                                        assert forall|k2: K|
                                            !l0.dom().contains(k2) && r0.dom().contains(k2)
                                                && !other@.dom().contains(
                                                k2,
                                            ) implies this@.dom().contains(k2) && this@[k2]
                                            == r0[k2] by {
                                            let tv = t_pre[k2];
                                            assert(k2 != k);
                                            assert(!o_pre.dom().contains(k2));
                                        }
                                        assert forall|k2: K|
                                            l0.dom().contains(k2) && r0.dom().contains(k2)
                                                && !other@.dom().contains(k2) && !ks.contains(
                                                k2,
                                            ) implies this@.dom().contains(k2) && l0[k2].merge_ok(
                                            r0[k2],
                                            this@[k2],
                                        ) by {
                                            let tv = t_pre[k2];
                                            assert(ks.contains(k)) by {
                                                assert(ks[ks.len() - 1] == k);
                                            };
                                            assert(k2 != k);
                                            assert(!o_pre.dom().contains(k2));
                                            assert(!ks_pre.contains(k2)) by {
                                                if ks_pre.contains(k2) {
                                                    let a = choose|a: int|
                                                        0 <= a < ks_pre.len() && ks_pre[a] == k2;
                                                    assert(ks[a] == k2);
                                                    assert(ks.contains(k2));
                                                    assert(false);
                                                }
                                            };
                                        }
                                        assert forall|k2: K| #[trigger]
                                            this@.dom().contains(k2) implies l0.dom().contains(
                                            k2,
                                        ) || (r0.dom().contains(k2) && !other@.dom().contains(
                                            k2,
                                        )) by {
                                            assert(t_pre.dom().contains(k2));
                                        }
                                    }
                                    errors = errors.combine(e);
                                },
                            }
                        },
                        None => {
                            proof {
                                assert(this@ == t_pre.remove(k));
                                assert(!t_pre.dom().contains(k));
                                assert(this@ == t_pre);
                                assert(!l0.dom().contains(k)) by {
                                    if l0.dom().contains(k) {
                                        let tv = t_pre[k];
                                        assert(t_pre.dom().contains(k));
                                        assert(false);
                                    }
                                };
                            }
                            this.insert(k, v);
                            proof {
                                assert(this@ == t_pre.insert(k, v));
                                assert forall|k2: K|
                                    l0.dom().contains(k2) && other@.dom().contains(
                                        k2,
                                    ) implies this@.dom().contains(k2) && this@[k2] == l0[k2] by {
                                    assert(o_pre.dom().contains(k2));
                                    let tv = t_pre[k2];
                                    assert(k2 != k);
                                }
                                assert forall|k2: K|
                                    !l0.dom().contains(k2) && r0.dom().contains(k2)
                                        && !other@.dom().contains(k2) implies this@.dom().contains(
                                        k2,
                                    ) && this@[k2] == r0[k2] by {
                                    let tv = t_pre[k2];
                                    if k2 != k {
                                        assert(!o_pre.dom().contains(k2));
                                    }
                                }
                                assert forall|k2: K|
                                    l0.dom().contains(k2) && r0.dom().contains(k2)
                                        && !other@.dom().contains(k2) && !ks.contains(
                                        k2,
                                    ) implies this@.dom().contains(k2) && l0[k2].merge_ok(
                                    r0[k2],
                                    this@[k2],
                                ) by {
                                    let tv = t_pre[k2];
                                    assert(k2 != k);
                                    assert(!o_pre.dom().contains(k2));
                                }
                                assert forall|k2: K| #[trigger]
                                    this@.dom().contains(k2) implies l0.dom().contains(k2) || (
                                    r0.dom().contains(k2) && !other@.dom().contains(k2)) by {
                                    if k2 != k {
                                        assert(t_pre.dom().contains(k2));
                                    }
                                }
                            }
                        },
                    }
                },
            }
        }
        if errors.is_empty() {
            proof {
                lemma_concat_all_lower_bound(es);
                assert(es.len() == 0);
                assert(ks.len() == 0);
                assert(forall|k: K| !(#[trigger] other@.dom().contains(k)));
                assert forall|k: K|
                    #[trigger] this@.dom().contains(k) <==> (l0.dom().contains(k)
                        || r0.dom().contains(k)) by {
                    let tv = this@[k];
                    assert(!other@.dom().contains(k));
                    if l0.dom().contains(k) || r0.dom().contains(k) {
                        assert(!ks.contains(k));
                    }
                }
                assert forall|k: K|
                    #![trigger l0[k], r0[k]]
                    l0.dom().contains(k) && r0.dom().contains(k) implies l0[k].merge_ok(
                    r0[k],
                    this@[k],
                ) by {
                    let tv = this@[k];
                    assert(!other@.dom().contains(k));
                    assert(!ks.contains(k));
                }
                assert forall|k: K|
                    #![trigger l0[k], this@[k]]
                    l0.dom().contains(k) && !r0.dom().contains(k) implies this@[k] == l0[k] by {
                    assert(this@.dom().contains(k));
                }
                assert forall|k: K|
                    #![trigger r0[k], this@[k]]
                    r0.dom().contains(k) && !l0.dom().contains(k) implies this@[k] == r0[k] by {
                    assert(!other@.dom().contains(k));
                }
            }
            Valid::succeed(this)
        } else {
            proof {
                if ks.len() == 0 {
                    assert(es =~= Seq::<Seq<String>>::empty());
                    assert(false);
                }
                assert forall|k: K|
                    l0.dom().contains(k) && r0.dom().contains(k) && !ks.contains(
                        k,
                    ) implies exists|mv: V| #[trigger] l0[k].merge_ok(r0[k], mv) by {
                    assert(!other@.dom().contains(k));
                    assert(l0[k].merge_ok(r0[k], this@[k]));
                }
                assert(map_merge_err_witness(l0, r0, ks, es, errors@));
            }
            Valid::from_validation_err(errors)
        }
    }
}

/// Relies on `BTreeSet::extend`: it inserts every element of the right set
/// into the left one.
#[verifier::external_body]
fn btree_set_extend<T: Ord>(l: &mut BTreeSet<T>, r: BTreeSet<T>)
    ensures
        obeys_cmp::<T>() ==> final(l)@ == old(l)@ + r@,
{
    l.extend(r)
}

impl<V: Ord> MergeRight for BTreeSet<V> {
    /// The element type must obey the comparison model the standard set
    /// relies on.
    open spec fn mergeable(self) -> bool {
        obeys_cmp::<V>()
    }

    /// Set union: every element of either side, nothing else.
    open spec fn merge_ok(self, other: Self, merged: Self) -> bool {
        merged@ == self@ + other@
    }

    /// A set union cannot fail.
    open spec fn merge_err(self, other: Self, errs: Seq<String>) -> bool {
        false
    }

    fn merge_right(self, other: Self) -> (r: Valid<Self, String>) {
        let mut this = self;
        btree_set_extend(&mut this, other);
        Valid::succeed(this)
    }
}

/// Relies on `HashSet::extend`: it inserts every element of the right set
/// into the left one.
#[verifier::external_body]
fn hash_set_extend<T: Eq + std::hash::Hash>(l: &mut HashSet<T>, r: HashSet<T>)
    ensures
        obeys_key_model::<T>() && builds_valid_hashers::<RandomState>() ==> final(l)@ == old(l)@
            + r@,
{
    l.extend(r)
}

impl<V: Eq + std::hash::Hash> MergeRight for HashSet<V> {
    /// The element type must obey the hashing model the standard set relies
    /// on.
    open spec fn mergeable(self) -> bool {
        obeys_key_model::<V>() && builds_valid_hashers::<RandomState>()
    }

    /// Set union: every element of either side, nothing else.
    open spec fn merge_ok(self, other: Self, merged: Self) -> bool {
        merged@ == self@ + other@
    }

    /// A set union cannot fail.
    open spec fn merge_err(self, other: Self, errs: Seq<String>) -> bool {
        false
    }

    fn merge_right(self, other: Self) -> (r: Valid<Self, String>) {
        let mut this = self;
        hash_set_extend(&mut this, other);
        Valid::succeed(this)
    }
}

/// Relies on `HashMap::extend`: it inserts every right entry, right values
/// replacing left values stored under equal keys.
#[verifier::external_body]
fn hash_map_extend<K: Eq + std::hash::Hash, V>(l: &mut HashMap<K, V>, r: HashMap<K, V>)
    ensures
        obeys_key_model::<K>() && builds_valid_hashers::<RandomState>() ==> final(l)@ == old(
            l,
        )@.union_prefer_right(r@),
{
    l.extend(r)
}

impl<K: Eq + std::hash::Hash, V> MergeRight for HashMap<K, V> {
    /// The key type must obey the hashing model the standard map relies on.
    open spec fn mergeable(self) -> bool {
        obeys_key_model::<K>() && builds_valid_hashers::<RandomState>()
    }

    /// Last-writer-wins union: right entries overwrite left entries sharing
    /// a key; values are not merged recursively.
    open spec fn merge_ok(self, other: Self, merged: Self) -> bool {
        merged@ == self@.union_prefer_right(other@)
    }

    /// An overwriting union cannot fail.
    open spec fn merge_err(self, other: Self, errs: Seq<String>) -> bool {
        false
    }

    fn merge_right(self, other: Self) -> (r: Valid<Self, String>) {
        let mut this = self;
        hash_map_extend(&mut this, other);
        Valid::succeed(this)
    }
}

/// Relies on `Arc::into_inner`: when it returns a value at all, it is the
/// wrapped one; it returns `None` when other references are still alive.
#[verifier::external_body]
fn arc_into_inner<A>(a: Arc<A>) -> (r: Option<A>)
    ensures
        r matches Some(v) ==> v == a,
{
    Arc::into_inner(a)
}

impl<A: MergeRight + Default> MergeRight for Arc<A> {
    open spec fn mergeable(self) -> bool {
        (*self).mergeable()
    }

    /// Both wrapped values are reclaimed when uniquely held and merged; a
    /// side that is still shared elsewhere is dropped, so the result may
    /// also be the other side alone, or — when neither side could be
    /// reclaimed — the type's default value. Callers must guarantee
    /// exclusive access to both wrappers to get the first case.
    open spec fn merge_ok(self, other: Self, merged: Self) -> bool {
        ||| (*self).merge_ok(*other, *merged)
        ||| *merged == *self
        ||| *merged == *other
        ||| A::default.ensures((), *merged)
    }

    /// A failure can only come from merging the two reclaimed values.
    open spec fn merge_err(self, other: Self, errs: Seq<String>) -> bool {
        (*self).merge_err(*other, errs)
    }

    fn merge_right(self, other: Self) -> (r: Valid<Self, String>) {
        let l = arc_into_inner(self);
        let rr = arc_into_inner(other);
        match l.merge_right(rr) {
            Valid::Success(Some(m)) => Valid::succeed(Arc::new(m)),
            Valid::Success(None) => Valid::succeed(Arc::new(A::default())),
            Valid::Failure(e) => Valid::Failure(e),
        }
    }
}

} // verus!
