//! Sequences of items that each carry a distinct name, read as maps from the
//! name to a view of the item. The display keeps its graphs, nodes and
//! connections this way.

use vstd::prelude::*;

verus! {

/// The map from the name of each item of `s` to its value; where names
/// repeat, the later item wins.
pub open spec fn keyed<T, V>(s: Seq<T>, key: spec_fn(T) -> Seq<char>, val: spec_fn(T) -> V) -> Map<
    Seq<char>,
    V,
>
    decreases s.len(),
{
    if s.len() == 0 {
        Map::empty()
    } else {
        keyed(s.drop_last(), key, val).insert(key(s.last()), val(s.last()))
    }
}

/// No two items of `s` carry the same name.
pub open spec fn keys_distinct<T>(s: Seq<T>, key: spec_fn(T) -> Seq<char>) -> bool {
    forall|i: int, j: int| 0 <= i < j < s.len() ==> key(s[i]) != key(s[j])
}

/// The names of the map are those of the items.
pub proof fn lemma_keyed_dom<T, V>(
    s: Seq<T>,
    key: spec_fn(T) -> Seq<char>,
    val: spec_fn(T) -> V,
    k: Seq<char>,
)
    ensures
        keyed(s, key, val).dom().contains(k) <==> exists|i: int| 0 <= i < s.len() && key(s[i]) == k,
    decreases s.len(),
{
    if s.len() > 0 {
        lemma_keyed_dom(s.drop_last(), key, val, k);
        if keyed(s, key, val).dom().contains(k) {
            if k == key(s.last()) {
                assert(key(s[s.len() - 1]) == k);
            } else {
                let i = choose|i: int| 0 <= i < s.len() - 1 && key(s.drop_last()[i]) == k;
                assert(key(s[i]) == k);
            }
        }
        if exists|i: int| 0 <= i < s.len() && key(s[i]) == k {
            let i = choose|i: int| 0 <= i < s.len() && key(s[i]) == k;
            if i < s.len() - 1 {
                assert(key(s.drop_last()[i]) == k);
            }
        }
    }
}

/// The map is finite, with one name for each item where the names are
/// distinct.
pub proof fn lemma_keyed_len<T, V>(s: Seq<T>, key: spec_fn(T) -> Seq<char>, val: spec_fn(T) -> V)
    requires
        keys_distinct(s, key),
    ensures
        keyed(s, key, val).dom().finite(),
        keyed(s, key, val).dom().len() == s.len(),
    decreases s.len(),
{
    if s.len() > 0 {
        let p = s.drop_last();
        assert(keys_distinct(p, key));
        lemma_keyed_len(p, key, val);
        lemma_keyed_dom(p, key, val, key(s.last()));
        if keyed(p, key, val).dom().contains(key(s.last())) {
            let i = choose|i: int| 0 <= i < p.len() && key(p[i]) == key(s.last());
            assert(key(s[i]) == key(s[s.len() - 1]));
        }
    }
}

/// Where names are distinct, an item's name maps to that item's value.
pub proof fn lemma_keyed_index<T, V>(
    s: Seq<T>,
    key: spec_fn(T) -> Seq<char>,
    val: spec_fn(T) -> V,
    i: int,
)
    requires
        keys_distinct(s, key),
        0 <= i < s.len(),
    ensures
        keyed(s, key, val).dom().contains(key(s[i])),
        keyed(s, key, val)[key(s[i])] == val(s[i]),
    decreases s.len(),
{
    if i < s.len() - 1 {
        let p = s.drop_last();
        assert(keys_distinct(p, key));
        lemma_keyed_index(p, key, val, i);
        assert(key(s[i]) != key(s[s.len() - 1]));
        assert(p[i] == s[i]);
    }
}

/// Replacing an item by one of the same name replaces that name's value.
pub proof fn lemma_keyed_update<T, V>(
    s: Seq<T>,
    key: spec_fn(T) -> Seq<char>,
    val: spec_fn(T) -> V,
    j: int,
    t: T,
)
    requires
        keys_distinct(s, key),
        0 <= j < s.len(),
        key(t) == key(s[j]),
    ensures
        keys_distinct(s.update(j, t), key),
        keyed(s.update(j, t), key, val) == keyed(s, key, val).insert(key(t), val(t)),
    decreases s.len(),
{
    let u = s.update(j, t);
    assert(keys_distinct(u, key)) by {
        assert forall|a: int, b: int| 0 <= a < b < u.len() implies key(u[a]) != key(u[b]) by {
            assert(key(u[a]) == key(s[a]));
            assert(key(u[b]) == key(s[b]));
        }
    }
    if j == s.len() - 1 {
        assert(u.drop_last() =~= s.drop_last());
        assert(keyed(u, key, val) =~= keyed(s, key, val).insert(key(t), val(t)));
    } else {
        let p = s.drop_last();
        assert(keys_distinct(p, key));
        lemma_keyed_update(p, key, val, j, t);
        assert(u.drop_last() =~= p.update(j, t));
        assert(key(s.last()) != key(t)) by {
            assert(key(s[j]) != key(s[s.len() - 1]));
        }
        assert(keyed(u, key, val) =~= keyed(s, key, val).insert(key(t), val(t)));
    }
}

/// Adding an item of a new name adds that name's value.
pub proof fn lemma_keyed_push<T, V>(
    s: Seq<T>,
    key: spec_fn(T) -> Seq<char>,
    val: spec_fn(T) -> V,
    t: T,
)
    requires
        keys_distinct(s, key),
        !keyed(s, key, val).dom().contains(key(t)),
    ensures
        keys_distinct(s.push(t), key),
        keyed(s.push(t), key, val) == keyed(s, key, val).insert(key(t), val(t)),
{
    assert(s.push(t).drop_last() =~= s);
    assert forall|a: int, b: int| 0 <= a < b < s.push(t).len() implies key(s.push(t)[a]) != key(
        s.push(t)[b],
    ) by {
        if b == s.len() {
            lemma_keyed_index(s, key, val, a);
        }
    }
}

} // verus!
