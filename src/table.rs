use vstd::prelude::*;

verus! {

/// The map that a sequence of (key, value) entries stands for: a later
/// entry of a key wins.
pub open spec fn entries_map<K, V>(s: Seq<(K, V)>) -> Map<K, V>
    decreases s.len(),
{
    if s.len() == 0 {
        Map::empty()
    } else {
        entries_map(s.drop_last()).insert(s.last().0, s.last().1)
    }
}

/// No key stands twice in a sequence of entries.
pub open spec fn keys_unique<K, V>(s: Seq<(K, V)>) -> bool {
    forall|i: int, j: int| 0 <= i < j < s.len() ==> #[trigger] s[i].0 != #[trigger] s[j].0
}

pub proof fn lemma_entries_map_contains<K, V>(s: Seq<(K, V)>, k: K)
    ensures
        entries_map(s).contains_key(k) <==> exists|i: int| 0 <= i < s.len() && #[trigger] s[i].0 == k,
    decreases s.len(),
{
    if s.len() > 0 {
        lemma_entries_map_contains(s.drop_last(), k);
        if entries_map(s).contains_key(k) && s.last().0 != k {
            let i = choose|i: int| 0 <= i < s.drop_last().len() && #[trigger] s.drop_last()[i].0 == k;
            assert(s[i].0 == k);
        }
        if exists|i: int| 0 <= i < s.len() && #[trigger] s[i].0 == k {
            let i = choose|i: int| 0 <= i < s.len() && #[trigger] s[i].0 == k;
            if i < s.len() - 1 {
                assert(s.drop_last()[i].0 == k);
            }
        }
    }
}

pub proof fn lemma_entries_map_index<K, V>(s: Seq<(K, V)>, i: int)
    requires
        keys_unique(s),
        0 <= i < s.len(),
    ensures
        entries_map(s).contains_key(s[i].0),
        entries_map(s)[s[i].0] == s[i].1,
    decreases s.len(),
{
    if i < s.len() - 1 {
        let d = s.drop_last();
        assert(d[i] == s[i]);
        assert(keys_unique(d));
        lemma_entries_map_index(d, i);
        assert(s[i].0 != s[s.len() - 1].0);
    }
}

pub proof fn lemma_entries_map_finite<K, V>(s: Seq<(K, V)>)
    requires
        keys_unique(s),
    ensures
        entries_map(s).dom().finite(),
        entries_map(s).len() == s.len(),
    decreases s.len(),
{
    if s.len() > 0 {
        let d = s.drop_last();
        assert(keys_unique(d));
        lemma_entries_map_finite(d);
        lemma_entries_map_contains(d, s.last().0);
        if entries_map(d).contains_key(s.last().0) {
            let i = choose|i: int| 0 <= i < d.len() && #[trigger] d[i].0 == s.last().0;
            assert(s[i].0 == s[s.len() - 1].0);
        }
    }
}

pub proof fn lemma_push_unique<K, V>(s: Seq<(K, V)>, k: K, t: V)
    requires
        keys_unique(s),
        !entries_map(s).contains_key(k),
    ensures
        keys_unique(s.push((k, t))),
        s.push((k, t)).drop_last() == s,
{
    lemma_entries_map_contains(s, k);
    assert(s.push((k, t)).drop_last() =~= s);
    assert forall|i: int, j: int| 0 <= i < j < s.push((k, t)).len() implies #[trigger] s.push(
        (k, t),
    )[i].0 != #[trigger] s.push((k, t))[j].0 by {
        if j == s.len() {
            assert(s[i].0 != k);
        }
    }
}

pub proof fn lemma_entries_map_remove<K, V>(s: Seq<(K, V)>, i: int)
    requires
        keys_unique(s),
        0 <= i < s.len(),
    ensures
        keys_unique(s.remove(i)),
        entries_map(s.remove(i)) == entries_map(s).remove(s[i].0),
    decreases s.len(),
{
    let r = s.remove(i);
    assert(keys_unique(r));
    let d = s.drop_last();
    assert(keys_unique(d));
    if i == s.len() - 1 {
        assert(r =~= d);
        lemma_entries_map_contains(d, s[i].0);
        if entries_map(d).contains_key(s[i].0) {
            let j = choose|j: int| 0 <= j < d.len() && #[trigger] d[j].0 == s[i].0;
            assert(s[j].0 == s[i].0);
        }
        assert(entries_map(r) =~= entries_map(s).remove(s[i].0));
    } else {
        lemma_entries_map_remove(d, i);
        assert(r.drop_last() =~= d.remove(i));
        assert(r.last() == s.last());
        assert(s.last().0 != s[i].0);
        assert(entries_map(r) =~= entries_map(s).remove(s[i].0));
    }
}

pub proof fn lemma_entries_map_update<K, V>(s: Seq<(K, V)>, i: int, v: V)
    requires
        keys_unique(s),
        0 <= i < s.len(),
    ensures
        keys_unique(s.update(i, (s[i].0, v))),
        entries_map(s.update(i, (s[i].0, v))) == entries_map(s).insert(s[i].0, v),
    decreases s.len(),
{
    let u = s.update(i, (s[i].0, v));
    assert forall|a: int, b: int| 0 <= a < b < u.len() implies #[trigger] u[a].0 != #[trigger] u[b].0 by {
        assert(u[a].0 == s[a].0 && u[b].0 == s[b].0);
    }
    let d = s.drop_last();
    assert(keys_unique(d));
    if i == s.len() - 1 {
        assert(u.drop_last() =~= d);
        assert(entries_map(u) =~= entries_map(s).insert(s[i].0, v));
    } else {
        lemma_entries_map_update(d, i, v);
        assert(u.drop_last() =~= d.update(i, (s[i].0, v)));
        assert(s.last().0 != s[i].0);
        assert(entries_map(u) =~= entries_map(s).insert(s[i].0, v));
    }
}

} // verus!
