//! A dynamic, self-describing tree value — a generic YAML-like document node —
//! together with the right-biased recursive merge over it.
//!
//! The merge itself is specified by the pure functions [`merge_value`] and its
//! helpers over the mathematical model [`ValModel`], and the executable
//! implementation of [`MergeRight`](crate::merge_right::MergeRight) for
//! [`Value`] is proved to return exactly what they describe.

use vstd::prelude::*;

use crate::merge_right::MergeRight;
use crate::valid::{Valid, ValidationError};

verus! {

broadcast use vstd::std_specs::vec::group_vec_axioms, vstd::seq::group_seq_axioms;

/// `serde_yaml::Number` is carried through the tree as an opaque scalar: the
/// merge never looks inside a number, it only moves it, so the type is
/// declared without any further specification.
#[verifier::external_type_specification]
#[verifier::external_body]
pub struct ExNumber(serde_yaml::Number);

/// A semi-structured document value: scalar leaves, sequences, mappings with
/// unique keys, and a single level of tag annotation.
#[derive(Debug)]
pub enum Value {
    Null,
    Bool(bool),
    Number(serde_yaml::Number),
    String(String),
    Sequence(Vec<Value>),
    Mapping(Mapping),
    Tagged(Box<TaggedValue>),
}

/// A value wrapped with an explicit tag: one level of type annotation.
#[derive(Debug)]
pub struct TaggedValue {
    pub tag: String,
    pub value: Value,
}

/// An ordered mapping from string keys to values, insertion order preserved.
/// Its invariant — keys are unique — is the `keys_unique` part of
/// [`model_wf`] on its model.
#[derive(Debug)]
pub struct Mapping {
    pub entries: Vec<(String, Value)>,
}

/// The mathematical model of a [`Value`].
pub ghost enum ValModel {
    Null,
    Bool(bool),
    Number(serde_yaml::Number),
    String(Seq<char>),
    Sequence(Seq<ValModel>),
    Mapping(Seq<Entry>),
    Tagged(Seq<char>, Box<ValModel>),
}

/// One mapping entry at the model level: a key and a value.
pub type Entry = (Seq<char>, ValModel);

/// The model of a value: strings become sequences of characters, vectors
/// become sequences, and mapping entries become key/value pairs.
pub open spec fn value_model(v: Value) -> ValModel
    decreases v,
{
    match v {
        Value::Null => ValModel::Null,
        Value::Bool(b) => ValModel::Bool(b),
        Value::Number(n) => ValModel::Number(n),
        Value::String(s) => ValModel::String(s@),
        Value::Sequence(items) => ValModel::Sequence(
            Seq::new(
                items@.len(),
                |i: int|
                    if 0 <= i < items@.len() {
                        value_model(items@[i])
                    } else {
                        ValModel::Null
                    },
            ),
        ),
        Value::Mapping(m) => ValModel::Mapping(entry_models(m.entries@)),
        Value::Tagged(t) => ValModel::Tagged((*t).tag@, Box::new(value_model((*t).value))),
    }
}

/// The models of a sequence of executable mapping entries.
pub open spec fn entry_models(entries: Seq<(String, Value)>) -> Seq<Entry>
    decreases entries,
{
    Seq::new(
        entries.len(),
        |i: int|
            if 0 <= i < entries.len() {
                (entries[i].0@, value_model(entries[i].1))
            } else {
                (Seq::<char>::empty(), ValModel::Null)
            },
    )
}

impl View for Value {
    type V = ValModel;

    open spec fn view(&self) -> ValModel {
        value_model(*self)
    }
}

impl View for Mapping {
    type V = Seq<Entry>;

    open spec fn view(&self) -> Seq<Entry> {
        entry_models(self.entries@)
    }
}

/// No two entries share a key.
pub open spec fn keys_unique(entries: Seq<Entry>) -> bool {
    forall|i: int, j: int| 0 <= i < j < entries.len() ==> entries[i].0 != entries[j].0
}

/// Well-formedness of a model value: every mapping in the tree has unique
/// keys.
pub open spec fn model_wf(m: ValModel) -> bool
    decreases m,
{
    match m {
        ValModel::Sequence(items) => forall|i: int|
            0 <= i < items.len() ==> model_wf(#[trigger] items[i]),
        ValModel::Mapping(entries) => keys_unique(entries) && forall|i: int|
            0 <= i < entries.len() ==> model_wf(#[trigger] entries[i].1),
        ValModel::Tagged(_, inner) => model_wf(*inner),
        _ => true,
    }
}

/// Whether some entry carries the key `k`.
pub open spec fn has_key(entries: Seq<Entry>, k: Seq<char>) -> bool {
    exists|i: int| 0 <= i < entries.len() && (#[trigger] entries[i]).0 == k
}

/// The value of the first entry carrying the key `k` (`Null` if there is
/// none; only used under `has_key`).
pub open spec fn lookup(entries: Seq<Entry>, k: Seq<char>) -> ValModel
    decreases entries.len(),
{
    if entries.len() == 0 {
        ValModel::Null
    } else if entries[0].0 == k {
        entries[0].1
    } else {
        lookup(entries.drop_first(), k)
    }
}

/// The right-hand entries whose keys do not occur on the left, in their
/// right-hand order: these are appended unchanged by a mapping merge.
pub open spec fn right_only(l: Seq<Entry>, r: Seq<Entry>) -> Seq<Entry>
    decreases r.len(),
{
    if r.len() == 0 {
        Seq::empty()
    } else if !has_key(l, r[0].0) {
        seq![r[0]] + right_only(l, r.drop_first())
    } else {
        right_only(l, r.drop_first())
    }
}

/// The right-biased merge of two document values.
///
/// Scalars on the left are overridden by the right value; sequences
/// concatenate or absorb the right value as one trailing element; mappings
/// take the key-wise union, recursively merging shared keys and accumulating
/// every conflict at that level; tagged values merge their contents only
/// under an equal tag, and otherwise the right side wins outright.
pub open spec fn merge_value(l: ValModel, r: ValModel) -> Result<ValModel, Seq<Seq<char>>>
    decreases l, 0int,
{
    match l {
        ValModel::Null | ValModel::Bool(_) | ValModel::Number(_) | ValModel::String(_) => Ok(r),
        ValModel::Sequence(ls) => match r {
            ValModel::Sequence(rs) => Ok(ValModel::Sequence(ls + rs)),
            _ => Ok(ValModel::Sequence(ls.push(r))),
        },
        ValModel::Mapping(lm) => match r {
            ValModel::Mapping(rm) => merge_mapping(lm, rm),
            ValModel::Sequence(rs) => Ok(ValModel::Sequence(rs.push(ValModel::Mapping(lm)))),
            _ => Ok(r),
        },
        ValModel::Tagged(lt, lv) => match r {
            ValModel::Tagged(rt, rv) => if lt == rt {
                match merge_value(*lv, *rv) {
                    Ok(m) => Ok(ValModel::Tagged(lt, Box::new(m))),
                    Err(e) => Err(e),
                }
            } else {
                Ok(r)
            },
            _ => Ok(r),
        },
    }
}

/// The key-wise union of two mappings: left entries keep their slots (merged
/// in place where the key is shared), right-only entries are appended in
/// right order; conflicts from all shared keys are accumulated.
pub open spec fn merge_mapping(l: Seq<Entry>, r: Seq<Entry>) -> Result<ValModel, Seq<Seq<char>>>
    decreases l, r.len() + 2int,
{
    let errs = mapping_errors(l, r);
    if errs.len() == 0 {
        Ok(ValModel::Mapping(merged_left(l, r) + right_only(l, r)))
    } else {
        Err(errs)
    }
}

/// The left entries after a mapping merge: each keeps its slot and key, and
/// a value merged with the right-hand value of the same key where one exists.
pub open spec fn merged_left(l: Seq<Entry>, r: Seq<Entry>) -> Seq<Entry>
    decreases l, 1int,
{
    if l.len() == 0 {
        Seq::empty()
    } else {
        let e0 = if has_key(r, l[0].0) {
            match merge_value(l[0].1, lookup(r, l[0].0)) {
                Ok(m) => (l[0].0, m),
                Err(_) => (l[0].0, ValModel::Null),
            }
        } else {
            l[0]
        };
        seq![e0] + merged_left(l.drop_first(), r)
    }
}

/// All conflicts of a mapping merge, in right-hand encounter order: for each
/// right entry whose key is shared, the errors of the recursive merge at that
/// key.
pub open spec fn mapping_errors(l: Seq<Entry>, r: Seq<Entry>) -> Seq<Seq<char>>
    decreases l, r.len() + 1int,
{
    if r.len() == 0 {
        Seq::empty()
    } else {
        let head = if has_key(l, r[0].0) {
            match merge_for_key(l, r[0].0, r[0].1) {
                Ok(_) => Seq::empty(),
                Err(e) => e,
            }
        } else {
            Seq::empty()
        };
        head + mapping_errors(l, r.drop_first())
    }
}

/// The recursive merge of the left value stored under `k` with the
/// right-hand value `rv` (or `rv` itself if `k` is not on the left).
pub open spec fn merge_for_key(l: Seq<Entry>, k: Seq<char>, rv: ValModel) -> Result<
    ValModel,
    Seq<Seq<char>>,
>
    decreases l, 0int,
{
    if l.len() == 0 {
        Ok(rv)
    } else if l[0].0 == k {
        merge_value(l[0].1, rv)
    } else {
        merge_for_key(l.drop_first(), k, rv)
    }
}

/// The value stored under a shared key is well-formed whenever all values of
/// the mapping are.
pub proof fn lemma_lookup_wf(entries: Seq<Entry>, k: Seq<char>)
    requires
        forall|i: int| 0 <= i < entries.len() ==> model_wf(#[trigger] entries[i].1),
    ensures
        has_key(entries, k) ==> model_wf(lookup(entries, k)),
    decreases entries.len(),
{
    if entries.len() > 0 && !(entries[0].0 == k) {
        assert(forall|i: int|
            0 <= i < entries.drop_first().len() ==> #[trigger] entries.drop_first()[i]
                == entries[i + 1]);
        lemma_lookup_wf(entries.drop_first(), k);
        if has_key(entries, k) {
            let i = choose|i: int| 0 <= i < entries.len() && (#[trigger] entries[i]).0 == k;
            assert(entries.drop_first()[i - 1] == entries[i]);
            assert(has_key(entries.drop_first(), k));
        }
    }
}

/// Appending one entry on the right leaves the keys that were already
/// present, and adds the new entry's key.
pub proof fn lemma_has_key_push(entries: Seq<Entry>, e: Entry, k: Seq<char>)
    ensures
        has_key(entries.push(e), k) <==> (has_key(entries, k) || e.0 == k),
{
    if has_key(entries, k) {
        let i = choose|i: int| 0 <= i < entries.len() && (#[trigger] entries[i]).0 == k;
        assert(entries.push(e)[i] == entries[i]);
    }
    if e.0 == k {
        assert(entries.push(e)[entries.len() as int].0 == k);
    }
    if has_key(entries.push(e), k) && !(e.0 == k) {
        let i = choose|i: int|
            0 <= i < entries.push(e).len() && (#[trigger] entries.push(e)[i]).0 == k;
        assert(entries.push(e)[i] == entries[i]);
    }
}

/// Appending one entry on the right does not change what is found under a
/// key that was already present, and the new entry is found under its own
/// fresh key.
pub proof fn lemma_lookup_push(entries: Seq<Entry>, e: Entry, k: Seq<char>)
    ensures
        has_key(entries, k) ==> lookup(entries.push(e), k) == lookup(entries, k),
        !has_key(entries, k) && e.0 == k ==> lookup(entries.push(e), k) == e.1,
    decreases entries.len(),
{
    if entries.len() == 0 {
        assert(entries.push(e)[0] == e);
        assert(entries.push(e).drop_first() =~= Seq::<Entry>::empty());
    } else {
        assert(entries.push(e)[0] == entries[0]);
        assert(entries.push(e).drop_first() =~= entries.drop_first().push(e));
        assert(forall|i: int|
            0 <= i < entries.drop_first().len() ==> #[trigger] entries.drop_first()[i]
                == entries[i + 1]);
        lemma_lookup_push(entries.drop_first(), e, k);
        if !(entries[0].0 == k) {
            if has_key(entries, k) {
                let i = choose|i: int| 0 <= i < entries.len() && (#[trigger] entries[i]).0 == k;
                assert(entries.drop_first()[i - 1] == entries[i]);
                assert(has_key(entries.drop_first(), k));
            }
            if has_key(entries.drop_first(), k) {
                let i = choose|i: int|
                    0 <= i < entries.drop_first().len() && (#[trigger] entries.drop_first()[i]).0
                        == k;
                assert(entries[i + 1] == entries.drop_first()[i]);
                assert(has_key(entries, k));
            }
        }
    }
}

/// The merge of two document values always yields a value — no conflict can
/// arise inside a document tree — and it preserves well-formedness.
#[verifier::rlimit(50)]
pub proof fn lemma_merge_value_ok(l: ValModel, r: ValModel)
    ensures
        merge_value(l, r) is Ok,
        model_wf(l) && model_wf(r) ==> model_wf(merge_value(l, r)->Ok_0),
    decreases l, 3int,
{
    match l {
        ValModel::Sequence(ls) => {
            match r {
                ValModel::Sequence(rs) => {
                    assert(merge_value(l, r) == Ok::<ValModel, Seq<Seq<char>>>(
                        ValModel::Sequence(ls + rs),
                    ));
                },
                _ => {
                    assert(merge_value(l, r) == Ok::<ValModel, Seq<Seq<char>>>(
                        ValModel::Sequence(ls.push(r)),
                    ));
                },
            }
            if model_wf(l) && model_wf(r) {
                match r {
                    ValModel::Sequence(rs) => {
                        assert(forall|i: int|
                            0 <= i < ls.len() ==> (ls + rs)[i] == ls[i] && model_wf(
                                #[trigger] (ls + rs)[i],
                            ));
                        assert(forall|i: int|
                            ls.len() <= i < ls.len() + rs.len() ==> (ls + rs)[i] == rs[i - ls.len()]
                                && model_wf(#[trigger] (ls + rs)[i]));
                    },
                    _ => {
                        assert(forall|i: int|
                            0 <= i < ls.len() ==> ls.push(r)[i] == ls[i] && model_wf(
                                #[trigger] ls.push(r)[i],
                            ));
                        assert(ls.push(r)[ls.len() as int] == r);
                    },
                }
            }
            assert(merge_value(l, r) is Ok);
        },
        ValModel::Mapping(lm) => {
            match r {
                ValModel::Mapping(rm) => {
                    lemma_mapping_errors_empty(lm, rm);
                    lemma_merged_left(lm, rm);
                    lemma_right_only(lm, rm);
                    let ml = merged_left(lm, rm);
                    let ro = right_only(lm, rm);
                    if model_wf(l) && model_wf(r) {
                        let s = ml + ro;
                        assert(forall|i: int| 0 <= i < ml.len() ==> s[i] == ml[i]);
                        assert(forall|i: int|
                            ml.len() <= i < s.len() ==> s[i] == ro[i - ml.len()]);
                        assert forall|i: int, j: int| 0 <= i < j < s.len() implies s[i].0
                            != s[j].0 by {
                            if j < ml.len() {
                                assert(lm[i].0 != lm[j].0);
                            } else if i >= ml.len() {
                                assert(ro[i - ml.len()].0 != ro[j - ml.len()].0);
                            } else {
                                assert(has_key(lm, lm[i].0));
                                assert(!has_key(lm, ro[j - ml.len()].0));
                            }
                        }
                        assert(keys_unique(s));
                        assert forall|i: int| 0 <= i < s.len() implies model_wf(
                            #[trigger] s[i].1,
                        ) by {
                            if i < ml.len() {
                                if has_key(rm, lm[i].0) {
                                    lemma_lookup_wf(rm, lm[i].0);
                                    lemma_merge_value_ok(lm[i].1, lookup(rm, lm[i].0));
                                }
                            } else {
                                let e = ro[i - ml.len()];
                                let x = choose|x: int| 0 <= x < rm.len() && rm[x] == e;
                                assert(model_wf(rm[x].1));
                            }
                        }
                        assert(model_wf(ValModel::Mapping(s)));
                    }
                    assert(merge_value(l, r) == merge_mapping(lm, rm));
                    assert(merge_value(l, r) is Ok);
                },
                ValModel::Sequence(rs) => {
                    if model_wf(l) && model_wf(r) {
                        assert(forall|i: int|
                            0 <= i < rs.len() ==> rs.push(l)[i] == rs[i] && model_wf(
                                #[trigger] rs.push(l)[i],
                            ));
                        assert(rs.push(l)[rs.len() as int] == l);
                    }
                    assert(merge_value(l, r) is Ok);
                },
                _ => {
                    assert(merge_value(l, r) is Ok);
                },
            }
        },
        ValModel::Tagged(lt, lv) => {
            match r {
                ValModel::Tagged(rt, rv) => {
                    if lt == rt {
                        lemma_merge_value_ok(*lv, *rv);
                    }
                },
                _ => {},
            }
        },
        _ => {},
    }
}

/// The per-key merge of a mapping merge always yields a value.
pub proof fn lemma_merge_for_key_ok(l: Seq<Entry>, k: Seq<char>, rv: ValModel)
    ensures
        merge_for_key(l, k, rv) is Ok,
    decreases l, 1int,
{
    if l.len() == 0 {
    } else if l[0].0 == k {
        lemma_merge_value_ok(l[0].1, rv);
    } else {
        lemma_merge_for_key_ok(l.drop_first(), k, rv);
    }
}

/// A mapping merge inside a document tree accumulates no conflicts at all:
/// every per-key merge succeeds.
pub proof fn lemma_mapping_errors_empty(l: Seq<Entry>, r: Seq<Entry>)
    ensures
        mapping_errors(l, r) == Seq::<Seq<char>>::empty(),
    decreases l, r.len() + 2int,
{
    if r.len() == 0 {
    } else {
        if has_key(l, r[0].0) {
            lemma_merge_for_key_ok(l, r[0].0, r[0].1);
        }
        lemma_mapping_errors_empty(l, r.drop_first());
        assert(mapping_errors(l, r) =~= Seq::<Seq<char>>::empty());
    }
}

/// Slot-wise reading of [`merged_left`]: each left entry keeps its slot and
/// key, and its value is merged exactly when the key is shared.
pub proof fn lemma_merged_left(l: Seq<Entry>, r: Seq<Entry>)
    ensures
        merged_left(l, r).len() == l.len(),
        forall|i: int| 0 <= i < l.len() ==> (#[trigger] merged_left(l, r)[i]).0 == l[i].0,
        forall|i: int|
            0 <= i < l.len() ==> (#[trigger] merged_left(l, r)[i]).1 == (if has_key(r, l[i].0) {
                merge_value(l[i].1, lookup(r, l[i].0))->Ok_0
            } else {
                l[i].1
            }),
    decreases l, 2int,
{
    if l.len() == 0 {
    } else {
        if has_key(r, l[0].0) {
            lemma_merge_value_ok(l[0].1, lookup(r, l[0].0));
        }
        lemma_merged_left(l.drop_first(), r);
        assert(forall|i: int|
            0 <= i < l.drop_first().len() ==> #[trigger] l.drop_first()[i] == l[i + 1]);
        assert(forall|i: int|
            1 <= i < l.len() ==> merged_left(l, r)[i] == #[trigger] merged_left(
                l.drop_first(),
                r,
            )[i - 1]);
    }
}

/// The entries a mapping merge appends: exactly the right entries whose keys
/// are not on the left, in right order, unchanged; their keys are fresh and
/// stay unique.
pub proof fn lemma_right_only(l: Seq<Entry>, r: Seq<Entry>)
    ensures
        right_only(l, r).len() <= r.len(),
        forall|j: int|
            0 <= j < right_only(l, r).len() ==> !has_key(l, (#[trigger] right_only(l, r)[j]).0),
        forall|j: int|
            0 <= j < right_only(l, r).len() ==> exists|x: int|
                0 <= x < r.len() && r[x] == #[trigger] right_only(l, r)[j],
        forall|j: int|
            0 <= j < right_only(l, r).len() ==> has_key(r, (#[trigger] right_only(l, r)[j]).0),
        keys_unique(r) ==> keys_unique(right_only(l, r)),
    decreases r.len(),
{
    reveal_with_fuel(right_only, 2);
    if r.len() == 0 {
    } else {
        lemma_right_only(l, r.drop_first());
        let rest = right_only(l, r.drop_first());
        assert(forall|i: int|
            0 <= i < r.drop_first().len() ==> #[trigger] r.drop_first()[i] == r[i + 1]);
        if keys_unique(r) {
            assert(keys_unique(r.drop_first()));
        }
        assert forall|j: int|
            0 <= j < rest.len() implies exists|x: int|
            0 <= x < r.len() && r[x] == #[trigger] rest[j] by {
            let x = choose|x: int| 0 <= x < r.drop_first().len() && r.drop_first()[x] == rest[j];
            assert(r[x + 1] == rest[j]);
        }
        assert forall|j: int| 0 <= j < rest.len() implies has_key(r, (#[trigger] rest[j]).0) by {
            let x = choose|x: int| 0 <= x < r.len() && r[x] == rest[j];
            assert(r[x].0 == rest[j].0);
        }
        if !has_key(l, r[0].0) {
            assert(right_only(l, r) == seq![r[0]] + rest);
            assert(right_only(l, r)[0] == r[0]);
            assert(forall|j: int|
                1 <= j < right_only(l, r).len() ==> #[trigger] right_only(l, r)[j] == rest[j - 1]);
            if keys_unique(r) {
                assert forall|i: int, j: int|
                    0 <= i < j < right_only(l, r).len() implies (#[trigger] right_only(l, r)[i]).0
                    != (#[trigger] right_only(l, r)[j]).0 by {
                    if i == 0 {
                        let x = choose|x: int|
                            0 <= x < r.drop_first().len() && r.drop_first()[x] == rest[j - 1];
                        assert(r[x + 1] == rest[j - 1]);
                        assert(r[0].0 != r[x + 1].0);
                    }
                }
            }
        } else {
            assert(right_only(l, r) == rest);
        }
    }
}

/// Appending one right entry extends the appended part exactly when its key
/// is not on the left.
pub proof fn lemma_right_only_push(l: Seq<Entry>, r: Seq<Entry>, e: Entry)
    ensures
        right_only(l, r.push(e)) == (if !has_key(l, e.0) {
            right_only(l, r).push(e)
        } else {
            right_only(l, r)
        }),
    decreases r.len(),
{
    reveal_with_fuel(right_only, 2);
    if r.len() == 0 {
        assert(r.push(e)[0] == e);
        assert(r.push(e).drop_first() =~= Seq::<Entry>::empty());
        if !has_key(l, e.0) {
            assert(right_only(l, r.push(e)) =~= right_only(l, r).push(e));
        }
    } else {
        assert(r.push(e)[0] == r[0]);
        assert(r.push(e).drop_first() =~= r.drop_first().push(e));
        lemma_right_only_push(l, r.drop_first(), e);
        if !has_key(l, e.0) {
            if !has_key(l, r[0].0) {
                assert(right_only(l, r.push(e)) =~= right_only(l, r).push(e));
            }
        }
    }
}

impl Default for Value {
    /// The default document value is `Null`: the fallback a shared-ownership
    /// merge falls back to when it cannot recover a wrapped value.
    fn default() -> (r: Self)
        ensures
            r == Value::Null,
    {
        Value::Null
    }
}

/// The slot of the first entry whose key equals `k`, if any.
fn find_key(entries: &Vec<(String, Value)>, k: &String) -> (r: Option<usize>)
    ensures
        match r {
            Some(i) => i < entries@.len() && entries@[i as int].0@ == k@ && forall|i2: int|
                0 <= i2 < i ==> entries@[i2].0@ != k@,
            None => forall|i2: int| 0 <= i2 < entries@.len() ==> entries@[i2].0@ != k@,
        },
{
    let mut i: usize = 0;
    while i < entries.len()
        invariant
            0 <= i <= entries@.len(),
            forall|i2: int| 0 <= i2 < i ==> entries@[i2].0@ != k@,
        decreases entries@.len() - i,
    {
        if entries[i].0 == *k {
            return Some(i);
        }
        i = i + 1;
    }
    None
}

impl MergeRight for Value {
    /// A document value can be merged when every mapping in it has unique
    /// keys.
    open spec fn mergeable(self) -> bool {
        model_wf(self@)
    }

    /// A successful merge returns exactly the value [`merge_value`]
    /// describes.
    open spec fn merge_ok(self, other: Self, merged: Self) -> bool {
        merge_value(self@, other@) == Ok::<ValModel, Seq<Seq<char>>>(merged@)
    }

    /// A failed merge returns exactly the conflicts [`merge_value`]
    /// describes.
    open spec fn merge_err(self, other: Self, errs: Seq<String>) -> bool {
        merge_value(self@, other@) == Err::<ValModel, Seq<Seq<char>>>(
            errs.map_values(|s: String| s@),
        )
    }

    fn merge_right(self, other: Self) -> (r: Valid<Self, String>)
        decreases self,
    {
        match (self, other) {
            (Value::Null | Value::Bool(_) | Value::Number(_) | Value::String(_), other) => {
                Valid::succeed(other)
            },
            (Value::Sequence(lhs), other) => match other {
                Value::Sequence(rhs) => {
                    let mut lhs = lhs;
                    let mut rhs = rhs;
                    lhs.append(&mut rhs);
                    proof {
                        assert(value_model(Value::Sequence(lhs))->Sequence_0 =~= self@
                            ->Sequence_0 + other@->Sequence_0);
                    }
                    Valid::succeed(Value::Sequence(lhs))
                },
                other => {
                    let mut lhs = lhs;
                    lhs.push(other);
                    proof {
                        assert(value_model(Value::Sequence(lhs))->Sequence_0 =~= self@
                            ->Sequence_0.push(other@));
                    }
                    Valid::succeed(Value::Sequence(lhs))
                },
            },
            (Value::Mapping(lmap), other) => match other {
                Value::Mapping(rmap) => {
                    let ghost lmap_g = lmap;
                    let mut entries = lmap.entries;
                    let mut rhs = rmap.entries;
                    let ghost l0 = entries@;
                    let ghost r0 = rhs@;
                    let ghost lm = entry_models(l0);
                    let ghost rm = entry_models(r0);
                    let mut errors: ValidationError<String> = ValidationError::empty();
                    let ghost mut j: int = 0;
                    proof {
                        assert(self@ == ValModel::Mapping(lm));
                        assert(other@ == ValModel::Mapping(rm));
                        lemma_mapping_errors_empty(lm, rm);
                        assert(rm.take(0) =~= Seq::<Entry>::empty());
                        lemma_merged_left(lm, rm.take(0));
                        assert(entry_models(entries@) =~= merged_left(lm, rm.take(0))
                            + right_only(lm, rm.take(0)));
                    }
                    while rhs.len() > 0
                        invariant
                            self == Value::Mapping(lmap_g),
                            lmap_g.entries@ == l0,
                            self@ == ValModel::Mapping(lm),
                            other@ == ValModel::Mapping(rm),
                            0 <= j <= rm.len(),
                            l0.len() == lm.len(),
                            r0.len() == rm.len(),
                            lm == entry_models(l0),
                            rm == entry_models(r0),
                            model_wf(ValModel::Mapping(lm)),
                            model_wf(ValModel::Mapping(rm)),
                            rhs@ == r0.skip(j),
                            errors@ == Seq::<String>::empty(),
                            entry_models(entries@) == merged_left(lm, rm.take(j)) + right_only(
                                lm,
                                rm.take(j),
                            ),
                            entries@.len() == lm.len() + right_only(lm, rm.take(j)).len(),
                            forall|x: int|
                                0 <= x < lm.len() && !has_key(rm.take(j), lm[x].0)
                                    ==> entries@[x] == l0[x],
                        decreases rhs@.len(),
                    {
                        let (rk, rv) = rhs.remove(0);
                        proof {
                            assert(r0.skip(j).drop_first() =~= r0.skip(j + 1));
                            assert((rk, rv) == r0[j]);
                            assert(rm[j] == (rk@, value_model(rv)));
                            assert(rm.take(j + 1) =~= rm.take(j).push(rm[j]));
                            assert(!has_key(rm.take(j), rk@)) by {
                                if has_key(rm.take(j), rk@) {
                                    let i2 = choose|i2: int|
                                        0 <= i2 < rm.take(j).len() && (#[trigger] rm.take(
                                            j,
                                        )[i2]).0 == rk@;
                                    assert(rm[i2].0 == rm[j].0);
                                    assert(false);
                                }
                            };
                            lemma_merged_left(lm, rm.take(j));
                            lemma_right_only(lm, rm.take(j));
                        }
                        match find_key(&entries, &rk) {
                            Some(i) => {
                                proof {
                                    assert(entry_models(entries@)[i as int].0 == rk@);
                                    if i >= lm.len() {
                                        assert(has_key(
                                            rm.take(j),
                                            right_only(lm, rm.take(j))[i - lm.len()].0,
                                        ));
                                        assert(false);
                                    }
                                    assert(lm[i as int].0 == rk@);
                                    assert(!has_key(rm.take(j), lm[i as int].0));
                                    assert(entries@[i as int] == l0[i as int]);
                                }
                                let ghost e_old = entries@;
                                let (lk, lv) = entries.remove(i);
                                proof {
                                    assert(lv == l0[i as int].1);
                                    assert(value_model(lv) == lm[i as int].1);
                                    assert(model_wf(value_model(lv)));
                                    assert(model_wf(value_model(rv)));
                                    assert(decreases_to!(self => lv)) by {
                                        assert(self == Value::Mapping(lmap_g));
                                        assert(decreases_to!(Value::Mapping(lmap_g) => lmap_g));
                                        assert(decreases_to!(lmap_g => lmap_g.entries));
                                        assert(decreases_to!(lmap_g.entries => lmap_g.entries@));
                                        assert(lmap_g.entries@ == l0);
                                        assert(decreases_to!(l0 => l0[i as int]));
                                        assert(decreases_to!(l0[i as int] => l0[i as int].1));
                                        assert(lv == l0[i as int].1);
                                    }
                                }
                                match lv.merge_right(rv) {
                                    Valid::Success(m) => {
                                        entries.insert(i, (lk, m));
                                        proof {
                                            assert(entries@ =~= e_old.update(
                                                i as int,
                                                (lk, m),
                                            ));
                                            lemma_right_only_push(lm, rm.take(j), rm[j]);
                                            assert(has_key(lm, rm[j].0));
                                            lemma_merged_left(lm, rm.take(j + 1));
                                            assert forall|x: int| 0 <= x < lm.len() implies (
                                            #[trigger] merged_left(lm, rm.take(j + 1))[x]) == (
                                            if x == i {
                                                (lm[x].0, value_model(m))
                                            } else {
                                                merged_left(lm, rm.take(j))[x]
                                            }) by {
                                                lemma_has_key_push(rm.take(j), rm[j], lm[x].0);
                                                lemma_lookup_push(rm.take(j), rm[j], lm[x].0);
                                                if x == i {
                                                    assert(lookup(rm.take(j + 1), lm[x].0)
                                                        == rm[j].1);
                                                    assert(merge_value(lm[x].1, rm[j].1)
                                                        == Ok::<ValModel, Seq<Seq<char>>>(
                                                        value_model(m),
                                                    ));
                                                } else {
                                                    assert(lm[x].0 != lm[i as int].0);
                                                }
                                            }
                                            assert(lk == l0[i as int].0);
                                            assert(right_only(lm, rm.take(j + 1)) == right_only(
                                                lm,
                                                rm.take(j),
                                            ));
                                            assert(merged_left(lm, rm.take(j + 1)).len()
                                                == lm.len());
                                            let ghost tgt = merged_left(lm, rm.take(j + 1))
                                                + right_only(lm, rm.take(j + 1));
                                            assert forall|x: int|
                                                0 <= x < entries@.len() implies entry_models(
                                                entries@,
                                            )[x] == tgt[x] by {
                                                assert(entry_models(e_old)[x] == (merged_left(
                                                    lm,
                                                    rm.take(j),
                                                ) + right_only(lm, rm.take(j)))[x]);
                                                if x == i {
                                                    assert(entries@[x] == (lk, m));
                                                } else {
                                                    assert(entries@[x] == e_old[x]);
                                                }
                                            }
                                            assert(entry_models(entries@) =~= tgt);
                                            assert forall|x: int|
                                                0 <= x < lm.len() && !has_key(
                                                    rm.take(j + 1),
                                                    lm[x].0,
                                                ) implies entries@[x] == l0[x] by {
                                                lemma_has_key_push(rm.take(j), rm[j], lm[x].0);
                                                assert(x != i);
                                            }
                                        }
                                    },
                                    Valid::Failure(e) => {
                                        proof {
                                            lemma_merge_value_ok(
                                                value_model(lv),
                                                value_model(rv),
                                            );
                                            assert(false);
                                        }
                                        errors = errors.combine(e);
                                    },
                                }
                            },
                            None => {
                                proof {
                                    assert(!has_key(lm, rk@)) by {
                                        if has_key(lm, rk@) {
                                            let x = choose|x: int|
                                                0 <= x < lm.len() && (#[trigger] lm[x]).0 == rk@;
                                            assert(entry_models(entries@)[x].0 == lm[x].0);
                                            assert(entries@[x].0@ == rk@);
                                            assert(false);
                                        }
                                    };
                                }
                                let ghost e_old = entries@;
                                entries.push((rk, rv));
                                proof {
                                    assert(entries@ =~= e_old.push((rk, rv)));
                                    lemma_right_only_push(lm, rm.take(j), rm[j]);
                                    lemma_merged_left(lm, rm.take(j + 1));
                                    assert forall|x: int| 0 <= x < lm.len() implies (
                                    #[trigger] merged_left(lm, rm.take(j + 1))[x]) == merged_left(
                                        lm,
                                        rm.take(j),
                                    )[x] by {
                                        lemma_has_key_push(rm.take(j), rm[j], lm[x].0);
                                        lemma_lookup_push(rm.take(j), rm[j], lm[x].0);
                                        assert(lm[x].0 != rm[j].0);
                                    }
                                    assert(right_only(lm, rm.take(j + 1)) == right_only(
                                        lm,
                                        rm.take(j),
                                    ).push(rm[j]));
                                    assert(merged_left(lm, rm.take(j + 1)).len() == lm.len());
                                    let ghost tgt = merged_left(lm, rm.take(j + 1)) + right_only(
                                        lm,
                                        rm.take(j + 1),
                                    );
                                    assert forall|x: int|
                                        0 <= x < entries@.len() implies entry_models(entries@)[x]
                                        == tgt[x] by {
                                        if x < e_old.len() {
                                            assert(entry_models(e_old)[x] == (merged_left(
                                                lm,
                                                rm.take(j),
                                            ) + right_only(lm, rm.take(j)))[x]);
                                            assert(entries@[x] == e_old[x]);
                                        } else {
                                            assert(entries@[x] == (rk, rv));
                                            assert(tgt[x] == rm[j]);
                                        }
                                    }
                                    assert(entry_models(entries@) =~= tgt);
                                    assert forall|x: int|
                                        0 <= x < lm.len() && !has_key(
                                            rm.take(j + 1),
                                            lm[x].0,
                                        ) implies entries@[x] == l0[x] by {
                                        lemma_has_key_push(rm.take(j), rm[j], lm[x].0);
                                    }
                                }
                            },
                        }
                        proof {
                            j = j + 1;
                        }
                    }
                    proof {
                        assert(j == rm.len());
                        assert(rm.take(j) =~= rm);
                        assert(merge_value(self@, other@) == merge_mapping(lm, rm));
                    }
                    if errors.is_empty() {
                        Valid::succeed(Value::Mapping(Mapping { entries }))
                    } else {
                        proof {
                            assert(false);
                        }
                        Valid::from_validation_err(errors)
                    }
                },
                Value::Sequence(rseq) => {
                    let mut rseq = rseq;
                    rseq.push(Value::Mapping(lmap));
                    proof {
                        assert(value_model(Value::Sequence(rseq))->Sequence_0 =~= other@
                            ->Sequence_0.push(self@));
                    }
                    Valid::succeed(Value::Sequence(rseq))
                },
                other => Valid::succeed(other),
            },
            (Value::Tagged(ltag), other) => match other {
                Value::Tagged(rtag) => {
                    let lt = *ltag;
                    let rt = *rtag;
                    if lt.tag == rt.tag {
                        let TaggedValue { tag: ltag_s, value: lvalue } = lt;
                        let TaggedValue { tag: _, value: rvalue } = rt;
                        proof {
                            assert(decreases_to!(self => lvalue));
                        }
                        match lvalue.merge_right(rvalue) {
                            Valid::Success(m) => {
                                Valid::succeed(
                                    Value::Tagged(
                                        Box::new(TaggedValue { tag: ltag_s, value: m }),
                                    ),
                                )
                            },
                            Valid::Failure(e) => Valid::Failure(e),
                        }
                    } else {
                        Valid::succeed(Value::Tagged(Box::new(rt)))
                    }
                },
                other => Valid::succeed(other),
            },
        }
    }
}

} // verus!

