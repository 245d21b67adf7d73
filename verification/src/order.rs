//! The order of keys: the byte-wise order of their UTF-8 encodings, which is
//! the order in which a `BTreeMap<String, _>` keeps its keys.

use vstd::prelude::*;
use vstd::utf8::*;

verus! {

/// Strict lexicographic order on byte sequences.
pub open spec fn bytes_lt(a: Seq<u8>, b: Seq<u8>) -> bool
    decreases a.len(),
{
    if b.len() == 0 {
        false
    } else if a.len() == 0 {
        true
    } else if a[0] < b[0] {
        true
    } else if a[0] > b[0] {
        false
    } else {
        bytes_lt(a.drop_first(), b.drop_first())
    }
}

/// Strict order on keys: `a` sorts before `b` in a `BTreeMap<String, _>`.
pub open spec fn key_lt(a: Seq<char>, b: Seq<char>) -> bool {
    bytes_lt(encode_utf8(a), encode_utf8(b))
}

pub proof fn lemma_bytes_lt_irreflexive(a: Seq<u8>)
    ensures
        !bytes_lt(a, a),
    decreases a.len(),
{
    if a.len() > 0 {
        lemma_bytes_lt_irreflexive(a.drop_first());
    }
}

pub proof fn lemma_bytes_lt_transitive(a: Seq<u8>, b: Seq<u8>, c: Seq<u8>)
    requires
        bytes_lt(a, b),
        bytes_lt(b, c),
    ensures
        bytes_lt(a, c),
    decreases a.len(),
{
    if a.len() > 0 && b.len() > 0 && c.len() > 0 && a[0] == b[0] && b[0] == c[0] {
        lemma_bytes_lt_transitive(a.drop_first(), b.drop_first(), c.drop_first());
    }
}

pub proof fn lemma_bytes_lt_total(a: Seq<u8>, b: Seq<u8>)
    requires
        a != b,
    ensures
        bytes_lt(a, b) || bytes_lt(b, a),
    decreases a.len(),
{
    if a.len() > 0 && b.len() > 0 && a[0] == b[0] {
        if a.drop_first() == b.drop_first() {
            assert(a =~= seq![a[0]] + a.drop_first());
            assert(b =~= seq![b[0]] + b.drop_first());
        }
        lemma_bytes_lt_total(a.drop_first(), b.drop_first());
    } else if a.len() == 0 && b.len() == 0 {
        assert(a =~= b);
    }
}

/// `key_lt` is a strict total order.
pub proof fn lemma_key_order(a: Seq<char>, b: Seq<char>, c: Seq<char>)
    ensures
        !key_lt(a, a),
        key_lt(a, b) && key_lt(b, c) ==> key_lt(a, c),
        a != b ==> key_lt(a, b) || key_lt(b, a),
        key_lt(a, b) ==> !key_lt(b, a),
{
    lemma_bytes_lt_irreflexive(encode_utf8(a));
    if key_lt(a, b) && key_lt(b, c) {
        lemma_bytes_lt_transitive(encode_utf8(a), encode_utf8(b), encode_utf8(c));
    }
    if key_lt(a, b) && key_lt(b, a) {
        lemma_bytes_lt_transitive(encode_utf8(a), encode_utf8(b), encode_utf8(a));
    }
    if a != b {
        encode_utf8_decode_utf8(a);
        encode_utf8_decode_utf8(b);
        lemma_bytes_lt_total(encode_utf8(a), encode_utf8(b));
    }
}

/// Compares two keys in the order of a `BTreeMap<String, _>`.
pub fn key_less(a: &String, b: &String) -> (r: bool)
    ensures
        r == key_lt(a@, b@),
{
    let x = a.as_str().as_bytes();
    let y = b.as_str().as_bytes();
    let mut i: usize = 0;
    assert(x@.skip(0) =~= x@);
    assert(y@.skip(0) =~= y@);
    while i < x.len() && i < y.len() && x[i] == y[i]
        invariant
            0 <= i <= x@.len(),
            i <= y@.len(),
            x@ == encode_utf8(a@),
            y@ == encode_utf8(b@),
            forall|j: int| 0 <= j < i ==> x@[j] == y@[j],
            bytes_lt(x@, y@) == bytes_lt(x@.skip(i as int), y@.skip(i as int)),
        decreases x@.len() - i,
    {
        assert(x@.skip(i as int).drop_first() =~= x@.skip(i + 1));
        assert(y@.skip(i as int).drop_first() =~= y@.skip(i + 1));
        i = i + 1;
    }
    if i == y.len() {
        false
    } else if i == x.len() {
        true
    } else {
        x[i] < y[i]
    }
}


/// The keys of a listing of `(key, entry)` pairs.
pub open spec fn keys_of<V>(s: Seq<(Seq<char>, V)>) -> Seq<Seq<char>> {
    s.map_values(|p: (Seq<char>, V)| p.0)
}

/// The keys of an executable listing of `(String, entry)` pairs.
pub open spec fn string_keys<T>(s: Seq<(String, T)>) -> Seq<Seq<char>> {
    s.map_values(|p: (String, T)| p.0@)
}

/// Keys listed in strictly increasing order (so none occurs twice).
pub open spec fn sorted_keys(keys: Seq<Seq<char>>) -> bool {
    forall|i: int, j: int| 0 <= i < j < keys.len() ==> key_lt(keys[i], keys[j])
}

/// Position of the first key that does not sort before `k`.
pub open spec fn lower_bound(keys: Seq<Seq<char>>, k: Seq<char>) -> nat
    decreases keys.len(),
{
    if keys.len() == 0 {
        0
    } else if !key_lt(keys[0], k) {
        0
    } else {
        1 + lower_bound(keys.drop_first(), k)
    }
}

/// `k` sits at its lower bound.
pub open spec fn found_at(keys: Seq<Seq<char>>, k: Seq<char>) -> bool {
    lower_bound(keys, k) < keys.len() && keys[lower_bound(keys, k) as int] == k
}

/// Inserting an entry the way a `BTreeMap` does: an entry with an equal key
/// is replaced, otherwise the entry goes where its key keeps the order.
pub open spec fn inserted<V>(s: Seq<(Seq<char>, V)>, k: Seq<char>, v: V) -> Seq<(Seq<char>, V)> {
    let i = lower_bound(keys_of(s), k) as int;
    if found_at(keys_of(s), k) {
        s.update(i, (k, v))
    } else {
        s.insert(i, (k, v))
    }
}

pub proof fn lemma_lower_bound(keys: Seq<Seq<char>>, k: Seq<char>)
    ensures
        lower_bound(keys, k) <= keys.len(),
        forall|j: int| 0 <= j < lower_bound(keys, k) ==> key_lt(#[trigger] keys[j], k),
        lower_bound(keys, k) < keys.len() ==> !key_lt(keys[lower_bound(keys, k) as int], k),
        sorted_keys(keys) ==> forall|j: int|
            lower_bound(keys, k) <= j < keys.len() ==> !key_lt(#[trigger] keys[j], k),
    decreases keys.len(),
{
    if keys.len() > 0 && key_lt(keys[0], k) {
        let rest = keys.drop_first();
        lemma_lower_bound(rest, k);
        assert forall|j: int| 0 <= j < lower_bound(keys, k) implies key_lt(#[trigger] keys[j], k) by {
            if j > 0 {
                assert(keys[j] == rest[j - 1]);
            }
        }
        if sorted_keys(keys) {
            assert(sorted_keys(rest));
            assert forall|j: int| lower_bound(keys, k) <= j < keys.len() implies !key_lt(
                #[trigger] keys[j],
                k,
            ) by {
                assert(keys[j] == rest[j - 1]);
            }
        }
    } else if keys.len() > 0 && sorted_keys(keys) {
        assert forall|j: int| lower_bound(keys, k) <= j < keys.len() implies !key_lt(
            #[trigger] keys[j],
            k,
        ) by {
            if j > 0 {
                lemma_key_order(keys[0], keys[j], k);
            }
        }
    }
}

/// In sorted keys, `k` sits at its lower bound exactly when it is listed.
pub proof fn lemma_found_iff_contains(keys: Seq<Seq<char>>, k: Seq<char>)
    requires
        sorted_keys(keys),
    ensures
        found_at(keys, k) <==> keys.contains(k),
{
    lemma_lower_bound(keys, k);
    if keys.contains(k) {
        let j = choose|j: int| 0 <= j < keys.len() && keys[j] == k;
        lemma_key_order(k, k, k);
        let lb = lower_bound(keys, k) as int;
        if lb < j {
            lemma_key_order(keys[lb], k, k);
            if keys[lb] != k {
                assert(key_lt(keys[lb], keys[j]));
            }
        }
    }
}

/// Inserting keeps keys sorted, and lists exactly the old keys and `k`.
pub proof fn lemma_inserted<V>(s: Seq<(Seq<char>, V)>, k: Seq<char>, v: V)
    requires
        sorted_keys(keys_of(s)),
    ensures
        sorted_keys(keys_of(inserted(s, k, v))),
        found_at(keys_of(inserted(s, k, v)), k),
        inserted(s, k, v)[lower_bound(keys_of(inserted(s, k, v)), k) as int] == (k, v),
        forall|j: Seq<char>|
            j != k ==> (keys_of(inserted(s, k, v)).contains(j) <==> keys_of(s).contains(j)),
{
    let keys = keys_of(s);
    let t = inserted(s, k, v);
    let tk = keys_of(t);
    let i = lower_bound(keys, k) as int;
    lemma_lower_bound(keys, k);
    lemma_key_order(k, k, k);
    if found_at(keys, k) {
        assert(tk =~= keys.update(i, k));
        assert(tk =~= keys);
    } else {
        assert(tk =~= keys.insert(i, k));
        assert forall|a: int, b: int| 0 <= a < b < tk.len() implies key_lt(tk[a], tk[b]) by {
            if a < i && b == i {
            } else if a == i && b > i {
                lemma_key_order(k, keys[b - 1], k);
                if keys[b - 1] == k {
                } else if b - 1 > i {
                    lemma_key_order(keys[i], keys[b - 1], k);
                    lemma_key_order(k, keys[i], keys[b - 1]);
                }
            } else if a < i && b > i {
                assert(key_lt(keys[a], keys[b - 1]));
            } else if a > i {
                assert(key_lt(keys[a - 1], keys[b - 1]));
            }
        }
    }
    lemma_lower_bound(tk, k);
    lemma_found_iff_contains(tk, k);
    assert(tk[i] == k);
    assert(tk.contains(k));
    assert forall|j: Seq<char>| j != k implies (tk.contains(j) <==> keys.contains(j)) by {
        if tk.contains(j) {
            let x = choose|x: int| 0 <= x < tk.len() && tk[x] == j;
            if found_at(keys, k) {
                assert(keys[x] == j);
            } else if x < i {
                assert(keys[x] == j);
            } else {
                assert(keys[x - 1] == j);
            }
        }
        if keys.contains(j) {
            let x = choose|x: int| 0 <= x < keys.len() && keys[x] == j;
            if found_at(keys, k) {
                assert(tk[x] == j);
            } else if x < i {
                assert(tk[x] == j);
            } else {
                assert(tk[x + 1] == j);
            }
        }
    }
}

/// Finds where `k` goes in a listing: its lower bound, and whether `k` is there.
pub fn locate<T>(v: &Vec<(String, T)>, k: &String) -> (r: (usize, bool))
    ensures
        r.0 == lower_bound(string_keys(v@), k@),
        r.1 == found_at(string_keys(v@), k@),
{
    let ghost keys = string_keys(v@);
    let mut i: usize = 0;
    assert(keys.skip(0) =~= keys);
    while i < v.len() && key_less(&v[i].0, k)
        invariant
            0 <= i <= v@.len(),
            keys == string_keys(v@),
            keys.len() == v@.len(),
            lower_bound(keys, k@) == i + lower_bound(keys.skip(i as int), k@),
        decreases v@.len() - i,
    {
        assert(keys.skip(i as int).drop_first() =~= keys.skip(i + 1));
        i = i + 1;
    }
    proof {
        if i < v@.len() {
            assert(keys.skip(i as int)[0] == keys[i as int]);
        }
    }
    let found = i < v.len() && v[i].0 == *k;
    (i, found)
}

/// Executable counterpart of `inserted`, on `(String, entry)` listings.
pub open spec fn string_inserted<T>(s: Seq<(String, T)>, k: String, x: T) -> Seq<(String, T)> {
    let i = lower_bound(string_keys(s), k@) as int;
    if found_at(string_keys(s), k@) {
        s.update(i, (k, x))
    } else {
        s.insert(i, (k, x))
    }
}

/// Inserts an entry the way a `BTreeMap` does.
pub fn insert_entry<T>(v: &mut Vec<(String, T)>, k: String, x: T)
    ensures
        final(v)@ == string_inserted(old(v)@, k, x),
{
    let (i, found) = locate(v, &k);
    proof {
        lemma_lower_bound(string_keys(v@), k@);
    }
    if found {
        v.set(i, (k, x));
    } else {
        v.insert(i, (k, x));
    }
}

/// The entry listed under `k`, found the way a `BTreeMap` finds it.
pub open spec fn lookup<V>(s: Seq<(Seq<char>, V)>, k: Seq<char>) -> Option<V> {
    if found_at(keys_of(s), k) {
        Some(s[lower_bound(keys_of(s), k) as int].1)
    } else {
        None
    }
}

/// In sorted keys, a listed key sits at its lower bound.
pub proof fn lemma_sorted_index(keys: Seq<Seq<char>>, k: Seq<char>, x: int)
    requires
        sorted_keys(keys),
        0 <= x < keys.len(),
        keys[x] == k,
    ensures
        x == lower_bound(keys, k),
        found_at(keys, k),
{
    lemma_lower_bound(keys, k);
    lemma_key_order(k, k, k);
    let lb = lower_bound(keys, k) as int;
    if x < lb {
    } else if x > lb {
        assert(key_lt(keys[lb], keys[x]));
    }
}

/// Looking up after inserting: the inserted entry under its key, and what was
/// there before under every other key.
pub proof fn lemma_lookup_inserted<V>(s: Seq<(Seq<char>, V)>, k: Seq<char>, v: V, j: Seq<char>)
    requires
        sorted_keys(keys_of(s)),
    ensures
        lookup(inserted(s, k, v), k) == Some(v),
        j != k ==> lookup(inserted(s, k, v), j) == lookup(s, j),
{
    let t = inserted(s, k, v);
    let ks = keys_of(s);
    let kt = keys_of(t);
    lemma_inserted(s, k, v);
    lemma_lower_bound(ks, k);
    let i = lower_bound(ks, k) as int;
    if j != k {
        lemma_found_iff_contains(ks, j);
        lemma_found_iff_contains(kt, j);
        if found_at(kt, j) {
            let a = lower_bound(kt, j) as int;
            lemma_lower_bound(kt, j);
            let b = if found_at(ks, k) || a < i {
                a
            } else {
                a - 1
            };
            assert(s[b] == t[a]);
            assert(ks[b] == j);
            lemma_sorted_index(ks, j, b);
        }
    }
}

} // verus!
