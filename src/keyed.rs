//! Records kept in a `Vec`, each under a string key, seen as a `Map` from key
//! to the record's view.

use vstd::prelude::*;

verus! {

/// A record that is filed under a key.
pub trait Keyed: View {
    spec fn key(&self) -> Seq<char>;
}

/// No two records share a key.
pub open spec fn distinct_keys<T: Keyed>(s: Seq<T>) -> bool {
    forall|i: int, j: int|
        0 <= i < s.len() && 0 <= j < s.len() && i != j ==> #[trigger] s[i].key() != #[trigger] s[j].key()
}

/// The records as a map from key to view; a later record wins over an
/// earlier one with the same key.
pub open spec fn keyed_map<T: Keyed>(s: Seq<T>) -> Map<Seq<char>, T::V>
    decreases s.len(),
{
    if s.len() == 0 {
        Map::empty()
    } else {
        keyed_map(s.drop_last()).insert(s.last().key(), s.last()@)
    }
}

/// A key is in the map exactly when some record carries it.
pub proof fn lemma_keyed_map_domain<T: Keyed>(s: Seq<T>, k: Seq<char>)
    ensures
        keyed_map(s).contains_key(k) <==> exists|i: int| 0 <= i < s.len() && #[trigger] s[i].key() == k,
    decreases s.len(),
{
    if s.len() > 0 {
        lemma_keyed_map_domain(s.drop_last(), k);
        if keyed_map(s.drop_last()).contains_key(k) {
            let i = choose|i: int| 0 <= i < s.drop_last().len() && #[trigger] s.drop_last()[i].key() == k;
            assert(s[i].key() == k);
        }
        if exists|i: int| 0 <= i < s.len() && #[trigger] s[i].key() == k {
            let i = choose|i: int| 0 <= i < s.len() && #[trigger] s[i].key() == k;
            if i < s.len() - 1 {
                assert(s.drop_last()[i].key() == k);
            }
        }
    }
}

/// With distinct keys, the map holds each record's view under its key.
pub proof fn lemma_keyed_map_get<T: Keyed>(s: Seq<T>, i: int)
    requires
        distinct_keys(s),
        0 <= i < s.len(),
    ensures
        keyed_map(s).contains_key(s[i].key()),
        keyed_map(s)[s[i].key()] == s[i]@,
    decreases s.len(),
{
    if i < s.len() - 1 {
        let t = s.drop_last();
        assert(distinct_keys(t)) by {
            assert forall|a: int, b: int|
                0 <= a < t.len() && 0 <= b < t.len() && a != b implies #[trigger] t[a].key() != #[trigger] t[b].key() by {
                assert(t[a] == s[a] && t[b] == s[b]);
            }
        }
        assert(t[i] == s[i]);
        lemma_keyed_map_get(t, i);
        assert(s.last().key() != s[i].key()) by {
            assert(s.last() == s[s.len() - 1]);
        }
    }
}

/// Appending a record under a new key inserts it into the map.
pub proof fn lemma_keyed_map_push<T: Keyed>(s: Seq<T>, t: T)
    requires
        distinct_keys(s),
        !keyed_map(s).contains_key(t.key()),
    ensures
        distinct_keys(s.push(t)),
        keyed_map(s.push(t)) == keyed_map(s).insert(t.key(), t@),
{
    let u = s.push(t);
    assert(u.drop_last() =~= s);
    assert forall|i: int, j: int|
        0 <= i < u.len() && 0 <= j < u.len() && i != j implies #[trigger] u[i].key() != #[trigger] u[j].key() by {
        if i == s.len() as int {
            assert(u[j] == s[j]);
            lemma_keyed_map_domain(s, t.key());
        } else if j == s.len() as int {
            assert(u[i] == s[i]);
            lemma_keyed_map_domain(s, t.key());
        } else {
            assert(u[i] == s[i] && u[j] == s[j]);
        }
    }
}

/// Removing the record at `i` removes its key from the map.
pub proof fn lemma_keyed_map_remove<T: Keyed>(s: Seq<T>, i: int)
    requires
        distinct_keys(s),
        0 <= i < s.len(),
    ensures
        distinct_keys(s.remove(i)),
        keyed_map(s.remove(i)) == keyed_map(s).remove(s[i].key()),
    decreases s.len(),
{
    let r = s.remove(i);
    assert forall|a: int, b: int|
        0 <= a < r.len() && 0 <= b < r.len() && a != b implies #[trigger] r[a].key() != #[trigger] r[b].key() by {
        let a2 = if a < i { a } else { a + 1 };
        let b2 = if b < i { b } else { b + 1 };
        assert(r[a] == s[a2] && r[b] == s[b2]);
    }
    let t = s.drop_last();
    assert(distinct_keys(t)) by {
        assert forall|a: int, b: int|
            0 <= a < t.len() && 0 <= b < t.len() && a != b implies #[trigger] t[a].key() != #[trigger] t[b].key() by {
            assert(t[a] == s[a] && t[b] == s[b]);
        }
    }
    if i == s.len() - 1 {
        assert(r =~= t);
        assert(!keyed_map(t).contains_key(s[i].key())) by {
            lemma_keyed_map_domain(t, s[i].key());
            if exists|j: int| 0 <= j < t.len() && #[trigger] t[j].key() == s[i].key() {
                let j = choose|j: int| 0 <= j < t.len() && #[trigger] t[j].key() == s[i].key();
                assert(t[j] == s[j]);
            }
        }
        assert(keyed_map(s).remove(s[i].key()) =~= keyed_map(t));
    } else {
        lemma_keyed_map_remove(t, i);
        assert(r.drop_last() =~= t.remove(i));
        assert(r.last() == s.last());
        assert(t[i] == s[i]);
        assert(s.last().key() != s[i].key()) by {
            assert(s.last() == s[s.len() - 1]);
        }
        assert(keyed_map(r) =~= keyed_map(s).remove(s[i].key()));
    }
}

} // verus!
