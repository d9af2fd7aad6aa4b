use vstd::prelude::*;

use crate::keys::KeyComparator;

verus! {

/// Key/value entries, as a list holds them.
pub type Entries = Seq<(Seq<u8>, Seq<u8>)>;

/// The keys strictly increase under the comparator.
pub open spec fn sorted_keys<C: KeyComparator>(c: C, es: Entries) -> bool {
    forall|i: int, j: int| 0 <= i < j < es.len() ==> c.key_lt(#[trigger] es[i].0, #[trigger] es[j].0)
}

/// How many entries have a key below `key`.
pub open spec fn count_lt<C: KeyComparator>(c: C, es: Entries, key: Seq<u8>) -> int
    decreases es.len(),
{
    if es.len() == 0 {
        0
    } else {
        count_lt(c, es.drop_last(), key) + if c.key_lt(es.last().0, key) { 1int } else { 0int }
    }
}

/// How many entries have a key at or below `key`.
pub open spec fn count_le<C: KeyComparator>(c: C, es: Entries, key: Seq<u8>) -> int
    decreases es.len(),
{
    if es.len() == 0 {
        0
    } else {
        count_le(c, es.drop_last(), key) + if !c.key_lt(key, es.last().0) { 1int } else { 0int }
    }
}

/// The value stored under a key equal to `key`, if any.
pub open spec fn lookup<C: KeyComparator>(c: C, es: Entries, key: Seq<u8>) -> Option<Seq<u8>> {
    let p = count_lt(c, es, key);
    if 0 <= p < es.len() && c.key_eq(es[p].0, key) {
        Some(es[p].1)
    } else {
        None
    }
}

/// The entries once `(key, value)` is put: unchanged where an equal key is present,
/// else with the entry in its place.
pub open spec fn inserted<C: KeyComparator>(c: C, es: Entries, key: Seq<u8>, value: Seq<u8>) -> Entries {
    if lookup(c, es, key).is_some() {
        es
    } else {
        es.insert(count_lt(c, es, key), (key, value))
    }
}

/// The position `find_near` lands on: the first entry above (or at, when equal
/// keys are allowed) `key`, or with `less` the last one below (or at) it.
pub open spec fn near_index<C: KeyComparator>(c: C, es: Entries, key: Seq<u8>, less: bool, allow_equal: bool) -> int {
    let b = if allow_equal != less { count_lt(c, es, key) } else { count_le(c, es, key) };
    if less { b - 1 } else { b }
}

pub proof fn lemma_key_order<C: KeyComparator>(c: C, a: Seq<u8>, b: Seq<u8>)
    ensures
        c.key_lt(a, b) || c.key_eq(a, b) || c.key_lt(b, a),
        !(c.key_lt(a, b) && c.key_lt(b, a)),
        c.key_lt(a, b) ==> !c.key_eq(a, b) && !c.key_eq(b, a),
        c.key_lt(b, a) ==> !c.key_eq(a, b) && !c.key_eq(b, a),
        c.key_eq(a, b) ==> c.key_eq(b, a),
        !c.key_lt(a, a),
        c.key_eq(a, a),
{
    c.lemma_order(a, b, a);
    c.lemma_order(b, a, b);
    c.lemma_order(a, a, a);
}

pub proof fn lemma_key_trans<C: KeyComparator>(c: C, a: Seq<u8>, b: Seq<u8>, d: Seq<u8>)
    requires
        c.key_lt(a, b),
        c.key_lt(b, d),
    ensures
        c.key_lt(a, d),
{
    c.lemma_order(a, b, d);
}

/// Keys that are the same key compare alike.
pub proof fn lemma_key_eq_subst<C: KeyComparator>(c: C, a: Seq<u8>, b: Seq<u8>, x: Seq<u8>)
    requires
        c.key_eq(a, b),
    ensures
        c.key_lt(a, x) == c.key_lt(b, x),
        c.key_lt(x, a) == c.key_lt(x, b),
        c.key_eq(a, x) == c.key_eq(b, x),
        c.key_eq(b, a),
{
    c.lemma_order(a, b, x);
}

/// Below `count_lt` lie exactly the entries whose key is below `key`.
pub proof fn lemma_count_lt_char<C: KeyComparator>(c: C, es: Entries, key: Seq<u8>)
    requires
        sorted_keys(c, es),
    ensures
        0 <= count_lt(c, es, key) <= es.len(),
        forall|i: int| 0 <= i < es.len() ==> (i < count_lt(c, es, key) <==> c.key_lt(#[trigger] es[i].0, key)),
    decreases es.len(),
{
    if es.len() > 0 {
        let pre = es.drop_last();
        assert(sorted_keys(c, pre)) by {
            assert forall|i: int, j: int| 0 <= i < j < pre.len() implies c.key_lt(#[trigger] pre[i].0, #[trigger] pre[j].0) by {
                assert(pre[i] == es[i] && pre[j] == es[j]);
            }
        }
        lemma_count_lt_char(c, pre, key);
        let n = es.len() - 1;
        if c.key_lt(es[n].0, key) {
            assert forall|i: int| 0 <= i < n implies c.key_lt(#[trigger] pre[i].0, key) by {
                assert(pre[i] == es[i]);
                lemma_key_trans(c, es[i].0, es[n].0, key);
            }
        }
        assert forall|i: int| 0 <= i < es.len() implies (i < count_lt(c, es, key) <==> c.key_lt(#[trigger] es[i].0, key)) by {
            if i < n {
                assert(pre[i] == es[i]);
            }
        }
    }
}

/// Below `count_le` lie exactly the entries whose key is at or below `key`.
pub proof fn lemma_count_le_char<C: KeyComparator>(c: C, es: Entries, key: Seq<u8>)
    requires
        sorted_keys(c, es),
    ensures
        0 <= count_le(c, es, key) <= es.len(),
        forall|i: int| 0 <= i < es.len() ==> (i < count_le(c, es, key) <==> !c.key_lt(key, #[trigger] es[i].0)),
    decreases es.len(),
{
    if es.len() > 0 {
        let pre = es.drop_last();
        assert(sorted_keys(c, pre)) by {
            assert forall|i: int, j: int| 0 <= i < j < pre.len() implies c.key_lt(#[trigger] pre[i].0, #[trigger] pre[j].0) by {
                assert(pre[i] == es[i] && pre[j] == es[j]);
            }
        }
        lemma_count_le_char(c, pre, key);
        let n = es.len() - 1;
        if !c.key_lt(key, es[n].0) {
            assert forall|i: int| 0 <= i < n implies !c.key_lt(key, #[trigger] pre[i].0) by {
                assert(pre[i] == es[i]);
                lemma_key_order(c, key, es[n].0);
                lemma_key_order(c, es[i].0, key);
                if c.key_lt(key, es[i].0) {
                    lemma_key_trans(c, key, es[i].0, es[n].0);
                }
            }
        }
        assert forall|i: int| 0 <= i < es.len() implies (i < count_le(c, es, key) <==> !c.key_lt(key, #[trigger] es[i].0)) by {
            if i < n {
                assert(pre[i] == es[i]);
            }
        }
    }
}

/// `count_lt` is the position where the keys stop being below `key`.
pub proof fn lemma_count_lt_at<C: KeyComparator>(c: C, es: Entries, key: Seq<u8>, p: int)
    requires
        sorted_keys(c, es),
        0 <= p <= es.len(),
        p == 0 || c.key_lt(es[p - 1].0, key),
        p == es.len() || !c.key_lt(es[p].0, key),
    ensures
        count_lt(c, es, key) == p,
{
    lemma_count_lt_char(c, es, key);
}

/// `count_le` is the position where the keys start being above `key`.
pub proof fn lemma_count_le_at<C: KeyComparator>(c: C, es: Entries, key: Seq<u8>, p: int)
    requires
        sorted_keys(c, es),
        0 <= p <= es.len(),
        p == 0 || !c.key_lt(key, es[p - 1].0),
        p == es.len() || c.key_lt(key, es[p].0),
    ensures
        count_le(c, es, key) == p,
{
    lemma_count_le_char(c, es, key);
}

/// Putting a key that is not present keeps the keys sorted.
pub proof fn lemma_insert_sorted<C: KeyComparator>(c: C, es: Entries, key: Seq<u8>, value: Seq<u8>)
    requires
        sorted_keys(c, es),
        lookup(c, es, key).is_none(),
    ensures
        sorted_keys(c, es.insert(count_lt(c, es, key), (key, value))),
        forall|i: int| 0 <= i < count_lt(c, es, key) ==> c.key_lt(#[trigger] es[i].0, key),
        forall|i: int| count_lt(c, es, key) <= i < es.len() ==> c.key_lt(key, #[trigger] es[i].0),
{
    let p = count_lt(c, es, key);
    let ns = es.insert(p, (key, value));
    lemma_count_lt_char(c, es, key);
    assert forall|i: int| p <= i < es.len() implies c.key_lt(key, #[trigger] es[i].0) by {
        lemma_key_order(c, es[i].0, key);
        if i > p {
            lemma_key_order(c, es[p].0, key);
            lemma_key_trans(c, key, es[p].0, es[i].0);
        }
    }
    assert forall|i: int, j: int| 0 <= i < j < ns.len() implies c.key_lt(#[trigger] ns[i].0, #[trigger] ns[j].0) by {
        if j < p {
            assert(ns[i] == es[i] && ns[j] == es[j]);
        } else if j == p {
            assert(ns[i] == es[i]);
        } else if i < p {
            assert(ns[i] == es[i] && ns[j] == es[j - 1]);
            lemma_key_trans(c, es[i].0, key, es[j - 1].0);
        } else if i == p {
            assert(ns[j] == es[j - 1]);
        } else {
            assert(ns[i] == es[i - 1] && ns[j] == es[j - 1]);
        }
    }
}

/// After a put that found no equal key, or an equal key with the same value,
/// looking the key up gives the value put.
pub proof fn lemma_get_after_put<C: KeyComparator>(c: C, es: Entries, key: Seq<u8>, value: Seq<u8>)
    requires
        sorted_keys(c, es),
        lookup(c, es, key).is_none() || lookup(c, es, key) == Some(value),
    ensures
        sorted_keys(c, inserted(c, es, key, value)),
        lookup(c, inserted(c, es, key, value), key) == Some(value),
{
    lemma_count_lt_char(c, es, key);
    if lookup(c, es, key).is_none() {
        let p = count_lt(c, es, key);
        lemma_insert_sorted(c, es, key, value);
        let ns = es.insert(p, (key, value));
        lemma_key_order(c, key, key);
        assert(ns[p] == (key, value));
        if p + 1 < ns.len() {
            assert(ns[p + 1] == es[p]);
            lemma_key_order(c, key, es[p].0);
        }
        if p > 0 {
            assert(ns[p - 1] == es[p - 1]);
        }
        lemma_count_lt_at(c, ns, key, p);
    }
}

/// Putting the same pair twice: the second put finds it and changes nothing,
/// and the first added exactly one entry.
pub proof fn lemma_put_idempotent<C: KeyComparator>(c: C, es: Entries, key: Seq<u8>, value: Seq<u8>)
    requires
        sorted_keys(c, es),
        lookup(c, es, key).is_none(),
    ensures
        inserted(c, es, key, value).len() == es.len() + 1,
        lookup(c, inserted(c, es, key, value), key) == Some(value),
        inserted(c, inserted(c, es, key, value), key, value) == inserted(c, es, key, value),
{
    lemma_get_after_put(c, es, key, value);
    lemma_count_lt_char(c, es, key);
}

/// Putting a second value under a present key changes nothing: the first value stays.
pub proof fn lemma_put_conflict<C: KeyComparator>(c: C, es: Entries, key: Seq<u8>, v1: Seq<u8>, v2: Seq<u8>)
    requires
        sorted_keys(c, es),
        lookup(c, es, key).is_none(),
        v1 != v2,
    ensures
        lookup(c, inserted(c, es, key, v1), key) == Some(v1),
        inserted(c, inserted(c, es, key, v1), key, v2) == inserted(c, es, key, v1),
{
    lemma_get_after_put(c, es, key, v1);
}

} // verus!
