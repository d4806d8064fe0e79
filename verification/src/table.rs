//! Association lists seen as maps. The index keeps its mappings in vectors of
//! key-value pairs with pairwise-distinct keys; this module gives such a
//! vector its mathematical reading (a `Map` over the keys' views) and proves
//! how pushing and removing pairs act on that reading, together with a
//! counting function used for the collision bookkeeping.

use vstd::prelude::*;

verus! {

/// The map denoted by a sequence of key-value pairs; on a repeated key the
/// later pair wins.
pub open spec fn kv_map<K: View, V>(s: Seq<(K, V)>) -> Map<<K as View>::V, V>
    decreases s.len(),
{
    if s.len() == 0 {
        Map::empty()
    } else {
        kv_map(s.drop_last()).insert(s.last().0@, s.last().1)
    }
}

/// No two pairs of the sequence share a key.
pub open spec fn kv_distinct<K: View, V>(s: Seq<(K, V)>) -> bool {
    forall|i: int, j: int| 0 <= i < j < s.len() ==> s[i].0@ !== s[j].0@
}

/// How many elements of the sequence satisfy the predicate.
pub open spec fn count_matching<T>(s: Seq<T>, p: spec_fn(T) -> bool) -> nat
    decreases s.len(),
{
    if s.len() == 0 {
        0
    } else {
        count_matching(s.drop_last(), p) + (if p(s.last()) {
            1nat
        } else {
            0nat
        })
    }
}

pub proof fn lemma_kv_map_contains<K: View, V>(s: Seq<(K, V)>, k: <K as View>::V)
    ensures
        kv_map(s).contains_key(k) <==> exists|i: int| 0 <= i < s.len() && s[i].0@ == k,
    decreases s.len(),
{
    if s.len() > 0 {
        lemma_kv_map_contains(s.drop_last(), k);
        if kv_map(s).contains_key(k) {
            if k == s.last().0@ {
                assert(s[s.len() - 1].0@ == k);
            } else {
                let i = choose|i: int| 0 <= i < s.drop_last().len() && s.drop_last()[i].0@ == k;
                assert(s[i].0@ == k);
            }
        }
        if exists|i: int| 0 <= i < s.len() && s[i].0@ == k {
            let i = choose|i: int| 0 <= i < s.len() && s[i].0@ == k;
            if i < s.len() - 1 {
                assert(s.drop_last()[i].0@ == k);
            }
        }
    }
}

pub proof fn lemma_kv_map_get<K: View, V>(s: Seq<(K, V)>, i: int)
    requires
        kv_distinct(s),
        0 <= i < s.len(),
    ensures
        kv_map(s).contains_key(s[i].0@),
        kv_map(s)[s[i].0@] == s[i].1,
    decreases s.len(),
{
    if i == s.len() - 1 {
    } else {
        assert(kv_distinct(s.drop_last()));
        assert(s.drop_last()[i] == s[i]);
        lemma_kv_map_get(s.drop_last(), i);
        assert(s[i].0@ !== s.last().0@);
    }
}

pub proof fn lemma_kv_map_len<K: View, V>(s: Seq<(K, V)>)
    requires
        kv_distinct(s),
    ensures
        kv_map(s).dom().finite(),
        kv_map(s).dom().len() == s.len(),
    decreases s.len(),
{
    if s.len() > 0 {
        assert(kv_distinct(s.drop_last()));
        lemma_kv_map_len(s.drop_last());
        lemma_kv_map_contains(s.drop_last(), s.last().0@);
        assert(forall|i: int| 0 <= i < s.drop_last().len() ==> s.drop_last()[i] == s[i]);
        assert(!kv_map(s.drop_last()).contains_key(s.last().0@));
        assert(kv_map(s).dom() =~= kv_map(s.drop_last()).dom().insert(s.last().0@));
        vstd::set::axiom_set_insert_len(kv_map(s.drop_last()).dom(), s.last().0@);
    }
}

/// A sequence of pairs with one pair taken out denotes the map with that
/// pair's key taken out.
pub proof fn lemma_kv_map_remove<K: View, V>(s: Seq<(K, V)>, i: int)
    requires
        kv_distinct(s),
        0 <= i < s.len(),
    ensures
        kv_distinct(s.remove(i)),
        kv_map(s.remove(i)) == kv_map(s).remove(s[i].0@),
    decreases s.len(),
{
    assert(forall|x: int, y: int| 0 <= x < y < s.remove(i).len() ==> s.remove(i)[x].0@ !== s.remove(
        i,
    )[y].0@) by {
        assert(forall|x: int| 0 <= x < s.remove(i).len() ==> s.remove(i)[x] == (if x < i {
            s[x]
        } else {
            s[x + 1]
        }));
    }
    if i == s.len() - 1 {
        assert(s.remove(i) =~= s.drop_last());
        lemma_kv_map_contains(s.drop_last(), s.last().0@);
        assert(!kv_map(s.drop_last()).contains_key(s.last().0@));
        assert(kv_map(s.drop_last()).insert(s.last().0@, s.last().1).remove(s.last().0@) =~= kv_map(
            s.drop_last(),
        ));
    } else {
        assert(kv_distinct(s.drop_last()));
        lemma_kv_map_remove(s.drop_last(), i);
        assert(s.drop_last()[i] == s[i]);
        assert(s.remove(i).drop_last() =~= s.drop_last().remove(i));
        assert(s.remove(i).last() == s.last());
        assert(kv_map(s.remove(i)) == kv_map(s.drop_last().remove(i)).insert(
            s.last().0@,
            s.last().1,
        ));
        assert(s[i].0@ !== s.last().0@);
        assert(kv_map(s.drop_last()).remove(s[i].0@).insert(s.last().0@, s.last().1) =~= kv_map(
            s.drop_last(),
        ).insert(s.last().0@, s.last().1).remove(s[i].0@));
    }
}

pub proof fn lemma_kv_map_push<K: View, V>(s: Seq<(K, V)>, k: K, v: V)
    ensures
        kv_map(s.push((k, v))) == kv_map(s).insert(k@, v),
{
    assert(s.push((k, v)).drop_last() =~= s);
}

pub proof fn lemma_count_push<T>(s: Seq<T>, p: spec_fn(T) -> bool, x: T)
    ensures
        count_matching(s.push(x), p) == count_matching(s, p) + (if p(x) {
            1nat
        } else {
            0nat
        }),
{
    assert(s.push(x).drop_last() =~= s);
}

pub proof fn lemma_count_remove<T>(s: Seq<T>, p: spec_fn(T) -> bool, i: int)
    requires
        0 <= i < s.len(),
    ensures
        count_matching(s, p) == count_matching(s.remove(i), p) + (if p(s[i]) {
            1nat
        } else {
            0nat
        }),
    decreases s.len(),
{
    if i == s.len() - 1 {
        assert(s.remove(i) =~= s.drop_last());
    } else {
        lemma_count_remove(s.drop_last(), p, i);
        assert(s.drop_last()[i] == s[i]);
        assert(s.remove(i).drop_last() =~= s.drop_last().remove(i));
        assert(s.remove(i).last() == s.last());
    }
}

pub proof fn lemma_count_bound<T>(s: Seq<T>, p: spec_fn(T) -> bool)
    ensures
        count_matching(s, p) <= s.len(),
    decreases s.len(),
{
    if s.len() > 0 {
        lemma_count_bound(s.drop_last(), p);
    }
}

pub proof fn lemma_filter_push<T>(s: Seq<T>, p: spec_fn(T) -> bool, x: T)
    ensures
        s.push(x).filter(p) == (if p(x) {
            s.filter(p).push(x)
        } else {
            s.filter(p)
        }),
{
    reveal(Seq::filter);
    assert(s.push(x).drop_last() =~= s);
}

pub proof fn lemma_filter_empty<T>(p: spec_fn(T) -> bool)
    ensures
        Seq::<T>::empty().filter(p) == Seq::<T>::empty(),
{
    reveal(Seq::filter);
}

/// Whatever the filter keeps was in the sequence.
pub proof fn lemma_filter_sub<T>(s: Seq<T>, p: spec_fn(T) -> bool)
    ensures
        forall|j: int| 0 <= j < s.filter(p).len() ==> s.contains(#[trigger] s.filter(p)[j]),
    decreases s.len(),
{
    reveal(Seq::filter);
    if s.len() > 0 {
        lemma_filter_sub(s.drop_last(), p);
        assert forall|j: int| 0 <= j < s.filter(p).len() implies s.contains(
            #[trigger] s.filter(p)[j],
        ) by {
            let f = s.filter(p);
            let fd = s.drop_last().filter(p);
            if j < fd.len() {
                assert(fd[j] == f[j]);
                assert(s.drop_last().contains(fd[j]));
                let w = choose|w: int| 0 <= w < s.drop_last().len() && s.drop_last()[w] == fd[j];
                assert(s[w] == f[j]);
            } else {
                assert(f[j] == s.last());
                assert(s[s.len() - 1] == f[j]);
            }
        }
    }
}

/// Two distinct matching positions put the count at two or more.
pub proof fn lemma_count_two<T>(s: Seq<T>, p: spec_fn(T) -> bool, i: int, j: int)
    requires
        0 <= i < s.len(),
        0 <= j < s.len(),
        i != j,
        p(s[i]),
        p(s[j]),
    ensures
        count_matching(s, p) >= 2,
{
    lemma_count_remove(s, p, i);
    let j2 = if j < i {
        j
    } else {
        j - 1
    };
    assert(forall|x: int| 0 <= x < s.remove(i).len() ==> s.remove(i)[x] == (if x < i {
        s[x]
    } else {
        s[x + 1]
    }));
    assert(s.remove(i)[j2] == s[j]);
    lemma_count_zero(s.remove(i), p);
}

/// Nothing matches exactly when the count is zero.
pub proof fn lemma_count_zero<T>(s: Seq<T>, p: spec_fn(T) -> bool)
    ensures
        (count_matching(s, p) == 0) <==> (forall|i: int| 0 <= i < s.len() ==> !p(s[i])),
    decreases s.len(),
{
    if s.len() > 0 {
        lemma_count_zero(s.drop_last(), p);
        assert(forall|i: int| 0 <= i < s.drop_last().len() ==> s.drop_last()[i] == s[i]);
        if count_matching(s, p) == 0 {
            assert(forall|i: int| 0 <= i < s.len() ==> !p(s[i])) by {
                assert(!p(s.last()));
                assert(forall|i: int| 0 <= i < s.len() - 1 ==> !p(s[i]));
            }
        }
    }
}

} // verus!
