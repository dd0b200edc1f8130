use vstd::prelude::*;

verus! {

/// The finite map described by an association list; on duplicate keys the
/// later entry wins.
pub open spec fn assoc_map<K, V>(s: Seq<(K, V)>) -> Map<K, V>
    decreases s.len(),
{
    if s.len() == 0 {
        Map::empty()
    } else {
        assoc_map(s.drop_last()).insert(s.last().0, s.last().1)
    }
}

/// Whether some entry of the list carries the key `k`.
pub open spec fn has_key<K, V>(s: Seq<(K, V)>, k: K) -> bool {
    exists|i: int| 0 <= i < s.len() && s[i].0 == k
}

/// No two entries carry the same key.
pub open spec fn unique_keys<K, V>(s: Seq<(K, V)>) -> bool {
    forall|i: int, j: int| 0 <= i < j < s.len() ==> s[i].0 != s[j].0
}

/// The domain of `assoc_map` is exactly the set of keys of the list.
pub proof fn lemma_assoc_map_dom<K, V>(s: Seq<(K, V)>)
    ensures
        forall|k: K| #[trigger] assoc_map(s).contains_key(k) ==> has_key(s, k),
        forall|k: K| #[trigger] has_key(s, k) ==> assoc_map(s).contains_key(k),
    decreases s.len(),
{
    if s.len() > 0 {
        let d = s.drop_last();
        lemma_assoc_map_dom(d);
        assert forall|k: K| #[trigger] assoc_map(s).contains_key(k) implies has_key(s, k) by {
            if k == s.last().0 {
                assert(s[s.len() - 1].0 == k);
            } else {
                assert(assoc_map(d).contains_key(k));
                let i = choose|i: int| 0 <= i < d.len() && d[i].0 == k;
                assert(d[i] == s[i]);
                assert(s[i].0 == k);
            }
        }
        assert forall|k: K| #[trigger] has_key(s, k) implies assoc_map(s).contains_key(k) by {
            let i = choose|i: int| 0 <= i < s.len() && s[i].0 == k;
            if i < s.len() - 1 {
                assert(d[i] == s[i]);
                assert(d[i].0 == k);
                assert(has_key(d, k));
            } else {
                assert(k == s.last().0);
            }
        }
    }
}

/// On a list with unique keys, `assoc_map` maps each entry's key to that
/// entry's value.
pub proof fn lemma_assoc_map_index<K, V>(s: Seq<(K, V)>, i: int)
    requires
        unique_keys(s),
        0 <= i < s.len(),
    ensures
        assoc_map(s).contains_key(s[i].0),
        assoc_map(s)[s[i].0] == s[i].1,
    decreases s.len(),
{
    let d = s.drop_last();
    if i == s.len() - 1 {
    } else {
        assert forall|p: int, q: int| 0 <= p < q < d.len() implies d[p].0 != d[q].0 by {
            assert(d[p] == s[p]);
            assert(d[q] == s[q]);
        }
        assert(d[i] == s[i]);
        lemma_assoc_map_index(d, i);
        assert(s[i].0 != s.last().0) by {
            assert(s[s.len() - 1] == s.last());
        }
    }
}

/// Overwriting the entry that carries a key updates the map at that key.
pub proof fn lemma_assoc_map_update<K, V>(s: Seq<(K, V)>, i: int, e: (K, V))
    requires
        unique_keys(s),
        0 <= i < s.len(),
        s[i].0 == e.0,
    ensures
        unique_keys(s.update(i, e)),
        assoc_map(s.update(i, e)) == assoc_map(s).insert(e.0, e.1),
{
    let t = s.update(i, e);
    assert forall|j: int| 0 <= j < s.len() implies #[trigger] t[j].0 == s[j].0 by {
        if j != i {
            assert(t[j] == s[j]);
        }
    }
    assert forall|p: int, q: int| 0 <= p < q < t.len() implies t[p].0 != t[q].0 by {
        assert(t[p].0 == s[p].0);
        assert(t[q].0 == s[q].0);
    }
    lemma_assoc_map_dom(s);
    lemma_assoc_map_dom(t);
    let m = assoc_map(s).insert(e.0, e.1);
    assert forall|k: K| #[trigger] assoc_map(t).contains_key(k) implies m.contains_key(k)
        && assoc_map(t)[k] == m[k] by {
        let j = choose|j: int| 0 <= j < t.len() && t[j].0 == k;
        lemma_assoc_map_index(t, j);
        if k == e.0 {
            assert(m[k] == e.1);
            assert(t[i].0 == e.0);
            assert(j == i);
        } else {
            assert(t[i].0 == e.0);
            assert(j != i);
            assert(t[j] == s[j]);
            lemma_assoc_map_index(s, j);
        }
    }
    assert forall|k: K| #[trigger] m.contains_key(k) implies assoc_map(t).contains_key(k) by {
        if k == e.0 {
            assert(t[i].0 == k);
            assert(has_key(t, k));
        } else {
            assert(assoc_map(s).contains_key(k));
            let j = choose|j: int| 0 <= j < s.len() && s[j].0 == k;
            assert(t[j].0 == s[j].0);
            assert(has_key(t, k));
        }
    }
    assert(assoc_map(t) =~= m);
}

/// Inserting an entry with a fresh key anywhere in the list inserts it into
/// the map.
pub proof fn lemma_assoc_map_insert<K, V>(s: Seq<(K, V)>, i: int, e: (K, V))
    requires
        unique_keys(s),
        !has_key(s, e.0),
        0 <= i <= s.len(),
    ensures
        unique_keys(s.insert(i, e)),
        assoc_map(s.insert(i, e)) == assoc_map(s).insert(e.0, e.1),
{
    let t = s.insert(i, e);
    assert forall|j: int| 0 <= j < s.len() implies s[j].0 != e.0 by {
        assert(!(0 <= j < s.len() && s[j].0 == e.0));
    }
    assert(t[i] == e);
    assert forall|p: int, q: int| 0 <= p < q < t.len() implies t[p].0 != t[q].0 by {
        if p == i {
            assert(t[q] == s[q - 1]);
        } else if q == i {
            assert(t[p] == s[p]);
        } else if p < i && q < i {
            assert(t[p] == s[p]);
            assert(t[q] == s[q]);
        } else if p < i {
            assert(t[p] == s[p]);
            assert(t[q] == s[q - 1]);
        } else {
            assert(t[p] == s[p - 1]);
            assert(t[q] == s[q - 1]);
        }
    }
    lemma_assoc_map_dom(s);
    lemma_assoc_map_dom(t);
    let m = assoc_map(s).insert(e.0, e.1);
    assert forall|k: K| #[trigger] assoc_map(t).contains_key(k) implies m.contains_key(k)
        && assoc_map(t)[k] == m[k] by {
        let j = choose|j: int| 0 <= j < t.len() && t[j].0 == k;
        lemma_assoc_map_index(t, j);
        if j == i {
            assert(k == e.0);
        } else if j < i {
            assert(t[j] == s[j]);
            assert(s[j].0 != e.0);
            lemma_assoc_map_index(s, j);
        } else {
            assert(t[j] == s[j - 1]);
            assert(s[j - 1].0 != e.0);
            lemma_assoc_map_index(s, j - 1);
        }
    }
    assert forall|k: K| #[trigger] m.contains_key(k) implies assoc_map(t).contains_key(k) by {
        if k == e.0 {
            assert(t[i].0 == k);
            assert(has_key(t, k));
        } else {
            assert(assoc_map(s).contains_key(k));
            let j = choose|j: int| 0 <= j < s.len() && s[j].0 == k;
            if j < i {
                assert(t[j] == s[j]);
            } else {
                assert(t[j + 1] == s[j]);
            }
            assert(has_key(t, k));
        }
    }
    assert(assoc_map(t) =~= m);
}

/// Appending an entry with a fresh key inserts it into the map.
pub proof fn lemma_assoc_map_push<K, V>(s: Seq<(K, V)>, e: (K, V))
    requires
        unique_keys(s),
        !has_key(s, e.0),
    ensures
        unique_keys(s.push(e)),
        assoc_map(s.push(e)) == assoc_map(s).insert(e.0, e.1),
{
    lemma_assoc_map_insert(s, s.len() as int, e);
    assert(s.insert(s.len() as int, e) =~= s.push(e));
}

} // verus!
