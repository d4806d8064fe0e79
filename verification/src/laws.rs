//! The library's laws: what a pass does in each distinguished situation --
//! an unchanged filesystem, the deletion of unique or of duplicated content,
//! a content change, a rename, a newly created duplicate path -- each proved
//! from the exact transition relation `update_spec` alone, so they hold of
//! every pass the index performs.

use vstd::prelude::*;

use crate::index::{
    lemma_count_is_card, lemma_count_vs_map, map_has_id, map_id_paths, mid_map, novel_in,
    rescan_keys, snap_fresher, snap_has, stale_keys, update_spec, vanished_ids, ResourceIndex,
    IndexUpdate,
};
use crate::meta::{DiscoveredEntry, ResourceId, ResourceMeta};
use crate::table::{kv_map, lemma_filter_empty, lemma_filter_push};

verus! {

/// Law: for every known identity, the collision table read with a default of
/// one gives the exact number of tracked paths holding that identity.
pub proof fn lemma_collision_count_exact(index: ResourceIndex, id: ResourceId)
    requires
        index.wf(),
        index.known(id),
    ensures
        index.id_count(id) == (if index.coll_map().contains_key(id) {
            index.coll_map()[id] as nat
        } else {
            1nat
        }),
{
}

/// Law: a pass over a snapshot that matches the index -- the same tracked
/// paths and no newer timestamp -- deletes nothing, adds nothing, and leaves
/// the path mapping unchanged; consecutive passes without filesystem change
/// therefore all return empty diffs.
pub proof fn lemma_update_idempotent(
    pre: ResourceIndex,
    curr: Seq<DiscoveredEntry>,
    scanned: Seq<(String, ResourceMeta)>,
    post: ResourceIndex,
    upd: IndexUpdate,
)
    requires
        pre.wf(),
        update_spec(pre, curr, scanned, post, upd),
        forall|k: Seq<char>| #[trigger] snap_has(curr, k) <==> pre.path_map().contains_key(k),
        forall|k: Seq<char>| #[trigger] pre.path_map().contains_key(k) ==> !snap_fresher(
            curr,
            k,
            pre.path_map()[k].modified,
        ),
    ensures
        upd.deleted@.len() == 0,
        upd.added@.len() == 0,
        post.path_map() == pre.path_map(),
{
    assert(mid_map(pre, curr) =~= pre.path_map()) by {
        assert(stale_keys(pre, curr) =~= Set::<Seq<char>>::empty());
    }
    if scanned.len() > 0 {
        assert(rescan_keys(pre, curr).contains(scanned[0].0@));
        assert(false);
    }
    assert(scanned =~= Seq::<(String, ResourceMeta)>::empty());
    lemma_filter_empty(novel_in(mid_map(pre, curr)));
    if upd.deleted@.len() > 0 {
        let id = upd.deleted@[0];
        assert(upd.deleted@.contains(id));
        assert(vanished_ids(pre, curr).contains(id));
        lemma_count_vs_map(pre.path2meta@, id);
        assert(false);
    }
    assert(kv_map(upd.added@) =~= Map::<Seq<char>, ResourceMeta>::empty());
    assert(post.path_map() =~= pre.path_map());
}

/// Law, deletion of unique content: when the sole path holding an identity
/// is gone from the snapshot and everything else matches the index, the pass
/// reports exactly that identity deleted and nothing added; the path leaves
/// the mapping and the identity is known no more.
pub proof fn lemma_delete_unique_holder(
    pre: ResourceIndex,
    curr: Seq<DiscoveredEntry>,
    scanned: Seq<(String, ResourceMeta)>,
    post: ResourceIndex,
    upd: IndexUpdate,
    a: Seq<char>,
)
    requires
        pre.wf(),
        update_spec(pre, curr, scanned, post, upd),
        pre.path_map().contains_key(a),
        pre.id_count(pre.path_map()[a].id) == 1,
        forall|k: Seq<char>| #[trigger] snap_has(curr, k) <==> (pre.path_map().contains_key(k)
            && k != a),
        forall|k: Seq<char>| #[trigger] pre.path_map().contains_key(k) ==> !snap_fresher(
            curr,
            k,
            pre.path_map()[k].modified,
        ),
    ensures
        upd.deleted@ == seq![pre.path_map()[a].id],
        upd.added@.len() == 0,
        post.path_map() == pre.path_map().remove(a),
        !post.known(pre.path_map()[a].id),
{
    let ida = pre.path_map()[a].id;
    assert(stale_keys(pre, curr) =~= set![a]);
    assert(mid_map(pre, curr) =~= pre.path_map().remove(a));
    if scanned.len() > 0 {
        assert(rescan_keys(pre, curr).contains(scanned[0].0@));
        assert(false);
    }
    assert(scanned =~= Seq::<(String, ResourceMeta)>::empty());
    lemma_filter_empty(novel_in(mid_map(pre, curr)));
    assert(kv_map(upd.added@) =~= Map::<Seq<char>, ResourceMeta>::empty());
    assert(post.path_map() =~= pre.path_map().remove(a));

    lemma_count_is_card(pre.path2meta@, ida);
    let s = map_id_paths(pre.path_map(), ida);
    assert(s.contains(a));
    vstd::set::axiom_set_remove_len(s, a);
    assert(s.remove(a).len() == 0);
    assert(!map_has_id(mid_map(pre, curr), ida)) by {
        if map_has_id(mid_map(pre, curr), ida) {
            let k = choose|k: Seq<char>| #[trigger]
                mid_map(pre, curr).contains_key(k) && mid_map(pre, curr)[k].id == ida;
            assert(k != a);
            assert(s.remove(a).contains(k));
            s.remove(a).lemma_len0_is_empty();
            assert(false);
        }
    }
    lemma_count_vs_map(pre.path2meta@, ida);
    assert(pre.known(ida));
    assert(vanished_ids(pre, curr).contains(ida));
    assert forall|id: ResourceId| id != ida implies !vanished_ids(pre, curr).contains(id) by {
        if pre.known(id) {
            lemma_count_vs_map(pre.path2meta@, id);
            let k = choose|k: Seq<char>| #[trigger]
                pre.path_map().contains_key(k) && pre.path_map()[k].id == id;
            assert(k != a);
            assert(mid_map(pre, curr).contains_key(k));
            assert(map_has_id(mid_map(pre, curr), id));
        }
    }
    assert(upd.deleted@.contains(ida));
    assert(upd.deleted@.len() >= 1);
    if upd.deleted@.len() >= 2 {
        assert(upd.deleted@.contains(upd.deleted@[0]));
        assert(upd.deleted@.contains(upd.deleted@[1]));
        assert(upd.deleted@[0] == ida && upd.deleted@[1] == ida);
        assert(false);
    }
    let w = choose|w: int| 0 <= w < upd.deleted@.len() && upd.deleted@[w] == ida;
    assert(upd.deleted@ =~= seq![ida]);

    // after the pass the identity has no path at all
    lemma_count_vs_map(post.path2meta@, ida);
    assert(!map_has_id(post.path_map(), ida)) by {
        if map_has_id(post.path_map(), ida) {
            let k = choose|k: Seq<char>| #[trigger]
                post.path_map().contains_key(k) && post.path_map()[k].id == ida;
            assert(k != a);
            assert(s.remove(a).contains(k));
            s.remove(a).lemma_len0_is_empty();
            assert(false);
        }
    }
}

/// Law, deletion of duplicated content: when one of exactly two paths
/// sharing an identity is gone from the snapshot and everything else
/// matches, the pass reports nothing deleted and nothing added, the
/// collision entry collapses to absence, the identity stays known, and the
/// index shrinks by exactly one path.
pub proof fn lemma_delete_duplicate_holder(
    pre: ResourceIndex,
    curr: Seq<DiscoveredEntry>,
    scanned: Seq<(String, ResourceMeta)>,
    post: ResourceIndex,
    upd: IndexUpdate,
    a: Seq<char>,
)
    requires
        pre.wf(),
        update_spec(pre, curr, scanned, post, upd),
        pre.path_map().contains_key(a),
        pre.id_count(pre.path_map()[a].id) == 2,
        forall|k: Seq<char>| #[trigger] snap_has(curr, k) <==> (pre.path_map().contains_key(k)
            && k != a),
        forall|k: Seq<char>| #[trigger] pre.path_map().contains_key(k) ==> !snap_fresher(
            curr,
            k,
            pre.path_map()[k].modified,
        ),
    ensures
        upd.deleted@.len() == 0,
        upd.added@.len() == 0,
        post.path_map() == pre.path_map().remove(a),
        post.known(pre.path_map()[a].id),
        !post.coll_map().contains_key(pre.path_map()[a].id),
        post.path_map().dom().len() + 1 == pre.path_map().dom().len(),
{
    let ida = pre.path_map()[a].id;
    assert(stale_keys(pre, curr) =~= set![a]);
    assert(mid_map(pre, curr) =~= pre.path_map().remove(a));
    if scanned.len() > 0 {
        assert(rescan_keys(pre, curr).contains(scanned[0].0@));
        assert(false);
    }
    assert(scanned =~= Seq::<(String, ResourceMeta)>::empty());
    lemma_filter_empty(novel_in(mid_map(pre, curr)));
    assert(kv_map(upd.added@) =~= Map::<Seq<char>, ResourceMeta>::empty());
    assert(post.path_map() =~= pre.path_map().remove(a));

    lemma_count_is_card(pre.path2meta@, ida);
    let s = map_id_paths(pre.path_map(), ida);
    assert(s.contains(a));
    vstd::set::axiom_set_remove_len(s, a);
    assert(s.remove(a).len() == 1);
    assert(map_id_paths(post.path_map(), ida) =~= s.remove(a));
    assert(map_has_id(mid_map(pre, curr), ida)) by {
        if !map_has_id(mid_map(pre, curr), ida) {
            assert(s.remove(a) =~= Set::<Seq<char>>::empty()) by {
                assert forall|k: Seq<char>| !(s.remove(a).contains(k)) by {
                    if s.remove(a).contains(k) {
                        assert(mid_map(pre, curr).contains_key(k)
                            && mid_map(pre, curr)[k].id == ida);
                        assert(map_has_id(mid_map(pre, curr), ida));
                    }
                }
            }
            assert(false);
        }
    }
    assert forall|id: ResourceId| !vanished_ids(pre, curr).contains(id) by {
        if pre.known(id) && id != ida {
            lemma_count_vs_map(pre.path2meta@, id);
            let k = choose|k: Seq<char>| #[trigger]
                pre.path_map().contains_key(k) && pre.path_map()[k].id == id;
            assert(k != a);
            assert(mid_map(pre, curr).contains_key(k));
            assert(map_has_id(mid_map(pre, curr), id));
        }
    }
    if upd.deleted@.len() > 0 {
        assert(upd.deleted@.contains(upd.deleted@[0]));
        assert(false);
    }

    // the identity still has exactly one path: known, but no collision entry
    lemma_count_is_card(post.path2meta@, ida);
    assert(post.id_count(ida) == 1);
    lemma_count_vs_map(post.path2meta@, ida);
    assert(post.known(ida));
    assert(!post.coll_map().contains_key(ida));

    crate::table::lemma_kv_map_len(pre.path2meta@);
    assert(post.path_map().dom() =~= pre.path_map().dom().remove(a));
    vstd::set::axiom_set_remove_len(pre.path_map().dom(), a);
}

/// Law, content change: when the sole path holding an identity carries a
/// newer timestamp, everything else matches, and its re-scan yields a fresh
/// identity held nowhere else, the pass reports the old identity deleted and
/// the path added under its new metadata, which replaces the old entry.
pub proof fn lemma_content_change(
    pre: ResourceIndex,
    curr: Seq<DiscoveredEntry>,
    scanned: Seq<(String, ResourceMeta)>,
    post: ResourceIndex,
    upd: IndexUpdate,
    a: Seq<char>,
    m: ResourceMeta,
)
    requires
        pre.wf(),
        update_spec(pre, curr, scanned, post, upd),
        pre.path_map().contains_key(a),
        pre.id_count(pre.path_map()[a].id) == 1,
        m.id != pre.path_map()[a].id,
        forall|k: Seq<char>| #[trigger] snap_has(curr, k) <==> pre.path_map().contains_key(k),
        forall|k: Seq<char>|
            pre.path_map().contains_key(k) && k != a ==> !snap_fresher(
                curr,
                k,
                #[trigger] pre.path_map()[k].modified,
            ),
        snap_fresher(curr, a, pre.path_map()[a].modified),
        scanned.len() == 1,
        scanned[0].0@ == a,
        scanned[0].1 == m,
        forall|k: Seq<char>|
            pre.path_map().contains_key(k) && k != a ==> #[trigger] pre.path_map()[k].id != m.id,
    ensures
        upd.deleted@ == seq![pre.path_map()[a].id],
        upd.added@ == scanned,
        post.path_map() == pre.path_map().insert(a, m),
        post.known(m.id),
        !post.known(pre.path_map()[a].id),
{
    let ida = pre.path_map()[a].id;
    assert(stale_keys(pre, curr) =~= set![a]);
    assert(mid_map(pre, curr) =~= pre.path_map().remove(a));

    // the old identity vanishes, and it alone
    lemma_count_is_card(pre.path2meta@, ida);
    let s = map_id_paths(pre.path_map(), ida);
    assert(s.contains(a));
    vstd::set::axiom_set_remove_len(s, a);
    assert(!map_has_id(mid_map(pre, curr), ida)) by {
        if map_has_id(mid_map(pre, curr), ida) {
            let k = choose|k: Seq<char>| #[trigger]
                mid_map(pre, curr).contains_key(k) && mid_map(pre, curr)[k].id == ida;
            assert(k != a);
            assert(s.remove(a).contains(k));
            s.remove(a).lemma_len0_is_empty();
            assert(false);
        }
    }
    lemma_count_vs_map(pre.path2meta@, ida);
    assert(vanished_ids(pre, curr).contains(ida));
    assert forall|id: ResourceId| id != ida implies !vanished_ids(pre, curr).contains(id) by {
        if pre.known(id) {
            lemma_count_vs_map(pre.path2meta@, id);
            let k = choose|k: Seq<char>| #[trigger]
                pre.path_map().contains_key(k) && pre.path_map()[k].id == id;
            assert(k != a);
            assert(mid_map(pre, curr).contains_key(k));
            assert(map_has_id(mid_map(pre, curr), id));
        }
    }
    assert(upd.deleted@.contains(ida));
    if upd.deleted@.len() >= 2 {
        assert(upd.deleted@.contains(upd.deleted@[0]));
        assert(upd.deleted@.contains(upd.deleted@[1]));
        assert(false);
    }
    assert(upd.deleted@ =~= seq![ida]);

    // the fresh scan result survives the filter and is inserted
    assert(!map_has_id(mid_map(pre, curr), m.id)) by {
        if map_has_id(mid_map(pre, curr), m.id) {
            let k = choose|k: Seq<char>| #[trigger]
                mid_map(pre, curr).contains_key(k) && mid_map(pre, curr)[k].id == m.id;
            assert(k != a && pre.path_map().contains_key(k) && pre.path_map()[k].id == m.id);
            assert(false);
        }
    }
    assert(scanned =~= Seq::<(String, ResourceMeta)>::empty().push(scanned[0]));
    lemma_filter_empty(novel_in(mid_map(pre, curr)));
    lemma_filter_push(
        Seq::<(String, ResourceMeta)>::empty(),
        novel_in(mid_map(pre, curr)),
        scanned[0],
    );
    assert(upd.added@ =~= scanned);
    assert(kv_map(upd.added@) == kv_map(Seq::<(String, ResourceMeta)>::empty()).insert(a, m)) by {
        crate::table::lemma_kv_map_push(Seq::<(String, ResourceMeta)>::empty(), scanned[0].0, scanned[0].1);
        assert(upd.added@ == Seq::<(String, ResourceMeta)>::empty().push(scanned[0]));
    }
    assert(post.path_map() =~= pre.path_map().insert(a, m));

    // the new identity is known, the old one is not
    lemma_count_vs_map(post.path2meta@, m.id);
    assert(post.path_map().contains_key(a) && post.path_map()[a].id == m.id);
    assert(map_has_id(post.path_map(), m.id));
    lemma_count_vs_map(post.path2meta@, ida);
    assert(!map_has_id(post.path_map(), ida)) by {
        if map_has_id(post.path_map(), ida) {
            let k = choose|k: Seq<char>| #[trigger]
                post.path_map().contains_key(k) && post.path_map()[k].id == ida;
            assert(k != a);
            assert(s.remove(a).contains(k));
            s.remove(a).lemma_len0_is_empty();
            assert(false);
        }
    }
}

/// Law, rename of a uniquely held resource: when the sole path holding an
/// identity is gone from the snapshot while a new path appears whose scan
/// carries the same identity, the pass reports that identity both deleted
/// and added -- the move is visible as that very pair -- and the index
/// tracks the new path with the old content.
pub proof fn lemma_rename_unique_holder(
    pre: ResourceIndex,
    curr: Seq<DiscoveredEntry>,
    scanned: Seq<(String, ResourceMeta)>,
    post: ResourceIndex,
    upd: IndexUpdate,
    a: Seq<char>,
    a2: Seq<char>,
    m: ResourceMeta,
)
    requires
        pre.wf(),
        update_spec(pre, curr, scanned, post, upd),
        pre.path_map().contains_key(a),
        pre.id_count(pre.path_map()[a].id) == 1,
        a2 != a,
        !pre.path_map().contains_key(a2),
        forall|k: Seq<char>| #[trigger] snap_has(curr, k) <==> ((pre.path_map().contains_key(k)
            && k != a) || k == a2),
        forall|k: Seq<char>| #[trigger] pre.path_map().contains_key(k) ==> !snap_fresher(
            curr,
            k,
            pre.path_map()[k].modified,
        ),
        scanned.len() == 1,
        scanned[0].0@ == a2,
        scanned[0].1 == m,
        m.id == pre.path_map()[a].id,
    ensures
        upd.deleted@ == seq![pre.path_map()[a].id],
        upd.added@ == scanned,
        post.path_map() == pre.path_map().remove(a).insert(a2, m),
        post.known(pre.path_map()[a].id),
        post.path_map().contains_key(a2),
    {
    let ida = pre.path_map()[a].id;
    assert(stale_keys(pre, curr) =~= set![a]);
    assert(mid_map(pre, curr) =~= pre.path_map().remove(a));

    lemma_count_is_card(pre.path2meta@, ida);
    let s = map_id_paths(pre.path_map(), ida);
    assert(s.contains(a));
    vstd::set::axiom_set_remove_len(s, a);
    assert(!map_has_id(mid_map(pre, curr), ida)) by {
        if map_has_id(mid_map(pre, curr), ida) {
            let k = choose|k: Seq<char>| #[trigger]
                mid_map(pre, curr).contains_key(k) && mid_map(pre, curr)[k].id == ida;
            assert(k != a);
            assert(s.remove(a).contains(k));
            s.remove(a).lemma_len0_is_empty();
            assert(false);
        }
    }
    lemma_count_vs_map(pre.path2meta@, ida);
    assert(vanished_ids(pre, curr).contains(ida));
    assert forall|id: ResourceId| id != ida implies !vanished_ids(pre, curr).contains(id) by {
        if pre.known(id) {
            lemma_count_vs_map(pre.path2meta@, id);
            let k = choose|k: Seq<char>| #[trigger]
                pre.path_map().contains_key(k) && pre.path_map()[k].id == id;
            assert(k != a);
            assert(mid_map(pre, curr).contains_key(k));
            assert(map_has_id(mid_map(pre, curr), id));
        }
    }
    assert(upd.deleted@.contains(ida));
    if upd.deleted@.len() >= 2 {
        assert(upd.deleted@.contains(upd.deleted@[0]));
        assert(upd.deleted@.contains(upd.deleted@[1]));
        assert(false);
    }
    assert(upd.deleted@ =~= seq![ida]);

    // the re-appearing content is novel again after retraction, so the new
    // path is inserted: the same identity stands in both halves of the diff
    assert(scanned =~= Seq::<(String, ResourceMeta)>::empty().push(scanned[0]));
    lemma_filter_empty(novel_in(mid_map(pre, curr)));
    lemma_filter_push(
        Seq::<(String, ResourceMeta)>::empty(),
        novel_in(mid_map(pre, curr)),
        scanned[0],
    );
    assert(upd.added@ =~= scanned);
    assert(kv_map(upd.added@) == kv_map(Seq::<(String, ResourceMeta)>::empty()).insert(a2, m)) by {
        crate::table::lemma_kv_map_push(Seq::<(String, ResourceMeta)>::empty(), scanned[0].0, scanned[0].1);
        assert(upd.added@ == Seq::<(String, ResourceMeta)>::empty().push(scanned[0]));
    }
    assert(post.path_map() =~= pre.path_map().remove(a).insert(a2, m));

    lemma_count_vs_map(post.path2meta@, ida);
    assert(post.path_map().contains_key(a2) && post.path_map()[a2].id == ida);
    assert(map_has_id(post.path_map(), ida));
}

/// Law, the documented asymmetry: a scan result whose identity is already
/// held by a path that survived retraction is not reported added, and if its
/// path was untracked before the pass it is absent from the index after it.
/// A duplicate present at cold start is tracked; one appearing later through
/// a pass is invisible.
pub proof fn lemma_duplicate_path_dropped(
    pre: ResourceIndex,
    curr: Seq<DiscoveredEntry>,
    scanned: Seq<(String, ResourceMeta)>,
    post: ResourceIndex,
    upd: IndexUpdate,
    j: int,
)
    requires
        pre.wf(),
        update_spec(pre, curr, scanned, post, upd),
        0 <= j < scanned.len(),
        map_has_id(mid_map(pre, curr), scanned[j].1.id),
        !pre.path_map().contains_key(scanned[j].0@),
    ensures
        forall|x: int| 0 <= x < upd.added@.len() ==> #[trigger] upd.added@[x].0@ != scanned[j].0@,
        !post.path_map().contains_key(scanned[j].0@),
{
    let c = scanned[j].0@;
    let pred = novel_in(mid_map(pre, curr));
    crate::table::lemma_filter_sub(scanned, pred);
    assert forall|x: int| 0 <= x < upd.added@.len() implies #[trigger] upd.added@[x].0@ != c by {
        if upd.added@[x].0@ == c {
            assert(scanned.contains(upd.added@[x]));
            let w = choose|w: int| 0 <= w < scanned.len() && scanned[w] == upd.added@[x];
            assert(scanned[w].0@ == scanned[j].0@);
            if w != j {
                assert(scanned[w].0@ != scanned[j].0@);
            }
            assert(scanned[j] == upd.added@[x]);
            scanned.lemma_filter_pred(pred, x);
            assert(pred(upd.added@[x]));
            assert(false);
        }
    }
    assert(!mid_map(pre, curr).contains_key(c));
    assert(!kv_map(upd.added@).contains_key(c)) by {
        crate::table::lemma_kv_map_contains(upd.added@, c);
        if exists|x: int| 0 <= x < upd.added@.len() && upd.added@[x].0@ == c {
            let x = choose|x: int| 0 <= x < upd.added@.len() && upd.added@[x].0@ == c;
            assert(false);
        }
    }
    assert(!post.path_map().contains_key(c));
}

} // verus!
