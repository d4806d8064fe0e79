//! The resource index: a mapping from canonical paths to content-identified
//! metadata, a set of the content identities currently held by at least one
//! path, and, for identities held by two or more paths, the exact count of
//! those paths.

use vstd::prelude::*;

use crate::discover::{
    canonicalize_str, dedup_entries, discover_paths, entry_keys_distinct, find_entry,
    scan_metadata,
};
use crate::meta::{DiscoveredEntry, IndexError, ResourceId, ResourceMeta};
use crate::table::{
    count_matching, kv_distinct, kv_map, lemma_count_bound, lemma_count_push, lemma_count_remove,
    lemma_count_zero, lemma_kv_map_contains, lemma_kv_map_get, lemma_kv_map_len,
    lemma_kv_map_push, lemma_kv_map_remove,
};

verus! {

/// The predicate "this pair's metadata carries identity `id`", shared by every
/// statement that counts paths per identity.
pub open spec fn holds_id(id: ResourceId) -> spec_fn((String, ResourceMeta)) -> bool {
    |pm: (String, ResourceMeta)| pm.1.id == id
}

/// How many pairs of `s` carry identity `id`.
pub open spec fn id_count_in(s: Seq<(String, ResourceMeta)>, id: ResourceId) -> nat {
    count_matching(s, holds_id(id))
}

/// Well-formedness of the three co-maintained structures:
/// - both mappings have pairwise-distinct keys, and the identity set holds no
///   identity twice;
/// - an identity is known exactly when some tracked path holds it;
/// - the collision table has an entry for an identity exactly when two or more
///   tracked paths hold it, and that entry is then the exact count.
pub open spec fn triple_wf(
    p2m: Seq<(String, ResourceMeta)>,
    coll: Seq<(ResourceId, usize)>,
    ids: Seq<ResourceId>,
) -> bool {
    &&& kv_distinct(p2m)
    &&& kv_distinct(coll)
    &&& (forall|i: int, j: int| 0 <= i < j < ids.len() ==> ids[i] != ids[j])
    &&& (forall|id: ResourceId| #![trigger ids.contains(id)] #![trigger id_count_in(p2m, id)]
        ids.contains(id) <==> id_count_in(p2m, id) >= 1)
    &&& (forall|id: ResourceId|
        #![trigger kv_map(coll).contains_key(id)]
        #![trigger id_count_in(p2m, id)]
        kv_map(coll).contains_key(id) <==> id_count_in(p2m, id) >= 2)
    &&& (forall|id: ResourceId| #[trigger] kv_map(coll).contains_key(id) ==> kv_map(coll)[id]
        == id_count_in(p2m, id))
}

/// The stateful aggregate over one root path, fixed at construction.
#[derive(Debug)]
pub struct ResourceIndex {
    pub path2meta: Vec<(String, ResourceMeta)>,
    pub collisions: Vec<(ResourceId, usize)>,
    pub ids: Vec<ResourceId>,
    pub root: String,
}

/// The diff summary of one incremental pass: the identities with no remaining
/// path, and the paths whose content was not already known before the pass.
#[derive(Debug)]
pub struct IndexUpdate {
    pub deleted: Vec<ResourceId>,
    pub added: Vec<(String, ResourceMeta)>,
}

impl ResourceIndex {
    /// The mapping canonical path -> metadata that the index denotes.
    pub open spec fn path_map(self) -> Map<Seq<char>, ResourceMeta> {
        kv_map(self.path2meta@)
    }

    /// The mapping identity -> path count, present only for counts >= 2.
    pub open spec fn coll_map(self) -> Map<ResourceId, usize> {
        kv_map(self.collisions@)
    }

    /// Is `id` the identity of at least one tracked path?
    pub open spec fn known(self, id: ResourceId) -> bool {
        self.ids@.contains(id)
    }

    /// How many tracked paths hold identity `id`.
    pub open spec fn id_count(self, id: ResourceId) -> nat {
        id_count_in(self.path2meta@, id)
    }

    pub open spec fn wf(self) -> bool {
        triple_wf(self.path2meta@, self.collisions@, self.ids@)
    }

    /// The number of tracked paths; in the presence of collisions the number
    /// of distinct contents is lower.
    pub fn size(&self) -> (r: usize)
        ensures
            r == self.path2meta@.len(),
            self.wf() ==> r == self.path_map().dom().len(),
    {
        proof {
            if self.wf() {
                lemma_kv_map_len(self.path2meta@);
            }
        }
        self.path2meta.len()
    }
}

/// The position of `path` among the pairs of `v`, if it is a key there.
pub fn find_path(v: &Vec<(String, ResourceMeta)>, path: &String) -> (r: Option<usize>)
    ensures
        match r {
            Some(i) => i < v@.len() && v@[i as int].0@ == path@,
            None => forall|i: int| 0 <= i < v@.len() ==> v@[i].0@ != path@,
        },
{
    let mut i: usize = 0;
    while i < v.len()
        invariant
            i <= v@.len(),
            forall|j: int| 0 <= j < i ==> v@[j].0@ != path@,
        decreases v@.len() - i,
    {
        if v[i].0 == *path {
            return Some(i);
        }
        i = i + 1;
    }
    None
}

/// The position of `id` in the identity set, if it is there.
pub fn find_id(v: &Vec<ResourceId>, id: ResourceId) -> (r: Option<usize>)
    ensures
        match r {
            Some(i) => i < v@.len() && v@[i as int] == id,
            None => !v@.contains(id),
        },
{
    let mut i: usize = 0;
    while i < v.len()
        invariant
            i <= v@.len(),
            forall|j: int| 0 <= j < i ==> v@[j] != id,
        decreases v@.len() - i,
    {
        if v[i] == id {
            return Some(i);
        }
        i = i + 1;
    }
    None
}

/// The position of `id` among the collision pairs, if it is a key there.
pub fn find_collision(v: &Vec<(ResourceId, usize)>, id: ResourceId) -> (r: Option<usize>)
    ensures
        match r {
            Some(i) => i < v@.len() && v@[i as int].0 == id,
            None => forall|i: int| 0 <= i < v@.len() ==> v@[i].0 != id,
        },
{
    let mut i: usize = 0;
    while i < v.len()
        invariant
            i <= v@.len(),
            forall|j: int| 0 <= j < i ==> v@[j].0 != id,
        decreases v@.len() - i,
    {
        if v[i].0 == id {
            return Some(i);
        }
        i = i + 1;
    }
    None
}

impl ResourceIndex {
    /// Is this canonical path tracked?
    pub fn contains_path(&self, path: &String) -> (r: bool)
        ensures
            r == self.path_map().contains_key(path@),
    {
        proof {
            lemma_kv_map_contains(self.path2meta@, path@);
        }
        find_path(&self.path2meta, path).is_some()
    }

    /// The tracked metadata of a canonical path, if the path is tracked.
    pub fn get_meta(&self, path: &String) -> (r: Option<ResourceMeta>)
        requires
            self.wf(),
        ensures
            match r {
                Some(m) => self.path_map().contains_key(path@) && m == self.path_map()[path@],
                None => !self.path_map().contains_key(path@),
            },
    {
        proof {
            lemma_kv_map_contains(self.path2meta@, path@);
        }
        match find_path(&self.path2meta, path) {
            Some(i) => {
                proof {
                    lemma_kv_map_get(self.path2meta@, i as int);
                }
                Some(self.path2meta[i].1)
            },
            None => None,
        }
    }

    /// Is this content identity held by at least one tracked path?
    pub fn contains_id(&self, id: ResourceId) -> (r: bool)
        ensures
            r == self.known(id),
    {
        find_id(&self.ids, id).is_some()
    }

    /// The collision entry for an identity: the exact number of tracked
    /// paths holding it when that number is at least two, absent otherwise.
    pub fn collision_count(&self, id: ResourceId) -> (r: Option<usize>)
        requires
            self.wf(),
        ensures
            match r {
                Some(c) => self.coll_map().contains_key(id) && c == self.coll_map()[id] && c
                    == self.id_count(id),
                None => !self.coll_map().contains_key(id),
            },
    {
        proof {
            lemma_kv_map_contains(self.collisions@, id);
        }
        match find_collision(&self.collisions, id) {
            Some(i) => {
                proof {
                    lemma_kv_map_get(self.collisions@, i as int);
                }
                Some(self.collisions[i].1)
            },
            None => None,
        }
    }

    /// Assemble an index over `root_path` from scan results with distinct
    /// paths, inserting every pair through the insertion algorithm. The path
    /// mapping afterwards is exactly the given pairs, and an identity is
    /// known exactly when one of them carries it.
    pub fn from_scan(root_path: &String, metadata: Vec<(String, ResourceMeta)>) -> (index:
        ResourceIndex)
        requires
            kv_distinct(metadata@),
        ensures
            index.wf(),
            index.root@ == root_path@,
            index.path2meta@ == metadata@,
            index.path_map() == kv_map(metadata@),
            forall|id: ResourceId| #[trigger] index.known(id) <==> id_count_in(metadata@, id)
                >= 1,
    {
        let mut index = ResourceIndex {
            path2meta: Vec::new(),
            collisions: Vec::new(),
            ids: Vec::new(),
            root: root_path.clone(),
        };
        let mut i: usize = 0;
        proof {
            assert(metadata@.subrange(0, 0) =~= Seq::<(String, ResourceMeta)>::empty());
        }
        while i < metadata.len()
            invariant
                index.wf(),
                index.root@ == root_path@,
                i <= metadata@.len(),
                kv_distinct(metadata@),
                index.path2meta@ == metadata@.subrange(0, i as int),
            decreases metadata@.len() - i,
        {
            proof {
                lemma_kv_map_contains(index.path2meta@, metadata@[i as int].0@);
                assert(!index.path_map().contains_key(metadata@[i as int].0@)) by {
                    if exists|j: int|
                        0 <= j < index.path2meta@.len() && index.path2meta@[j].0@
                            == metadata@[i as int].0@ {
                        let j = choose|j: int|
                            0 <= j < index.path2meta@.len() && index.path2meta@[j].0@
                                == metadata@[i as int].0@;
                        assert(metadata@[j].0@ == metadata@[i as int].0@);
                        assert(false);
                    }
                }
            }
            add_meta(
                metadata[i].0.clone(),
                metadata[i].1,
                &mut index.path2meta,
                &mut index.collisions,
                &mut index.ids,
            );
            proof {
                assert(index.path2meta@ =~= metadata@.subrange(0, i as int + 1));
            }
            i = i + 1;
        }
        proof {
            assert(metadata@.subrange(0, metadata@.len() as int) =~= metadata@);
        }
        index
    }

    /// Cold start: discover every non-hidden file under the root, scan each
    /// one, and assemble the index from the results. Fails only
    /// when the root itself cannot be resolved; per-entry failures never
    /// fail the build, they only make the index smaller.
    pub fn build(root_path: &String) -> (r: Result<ResourceIndex, IndexError>)
        ensures
            match r {
                Ok(index) => index.wf() && index.root@ == root_path@,
                Err(e) => e == IndexError::RootUnreadable,
            },
    {
        if canonicalize_str(root_path).is_none() {
            return Err(IndexError::RootUnreadable);
        }
        let entries = dedup_entries(discover_paths(root_path));
        let metadata = scan_metadata(entries);
        Ok(ResourceIndex::from_scan(root_path, metadata))
    }

    /// One incremental pass: re-discover the paths under the stored root,
    /// classify them against the index, retract the vanished and updated
    /// paths, re-scan only the new and updated ones, and insert those scan
    /// results whose content was not already tracked elsewhere. The returned
    /// diff holds the identities with no remaining path and the genuinely
    /// novel additions. What discovery and the scans return depends on the
    /// disk, so the contract relates the pass to some such snapshot; for
    /// every snapshot the pass is exact, as `update_spec` states.
    pub fn update(&mut self) -> (r: Result<IndexUpdate, IndexError>)
        requires
            old(self).wf(),
        ensures
            final(self).root == old(self).root,
            r is Ok ==> final(self).wf(),
            r is Ok ==> update_sound(*old(self), *final(self), r->Ok_0),
            r is Err ==> *final(self) == *old(self) && r->Err_0 == IndexError::RootUnreadable,
    {
        if canonicalize_str(&self.root).is_none() {
            return Err(IndexError::RootUnreadable);
        }
        let ghost pre = *self;
        let curr = dedup_entries(discover_paths(&self.root));

        // classify the snapshot against the index: collect the paths to
        // retract and the entries to re-scan
        let mut retract: Vec<String> = Vec::new();
        let mut to_scan: Vec<DiscoveredEntry> = Vec::new();
        let mut i: usize = 0;
        while i < curr.len()
            invariant
                *self == pre,
                pre.wf(),
                entry_keys_distinct(curr@),
                i <= curr@.len(),
                forall|j: int| #![trigger retract@[j]] 0 <= j < retract@.len() ==> stale_keys(
                    pre,
                    curr@,
                ).contains(retract@[j]@) && snap_has(curr@, retract@[j]@),
                forall|x: int, y: int| 0 <= x < y < retract@.len() ==> retract@[x]@
                    != retract@[y]@,
                forall|j: int| #![trigger to_scan@[j]] 0 <= j < to_scan@.len() ==> rescan_keys(
                    pre,
                    curr@,
                ).contains(to_scan@[j].path@),
                entry_keys_distinct(to_scan@),
                forall|j: int| #![trigger retract@[j]] 0 <= j < retract@.len() ==> exists|ci: int|
                    #![trigger curr@[ci]]
                    0 <= ci < i && curr@[ci].path@ == retract@[j]@,
                forall|j: int| #![trigger to_scan@[j]] 0 <= j < to_scan@.len() ==> exists|ci: int|
                    #![trigger curr@[ci]]
                    0 <= ci < i && curr@[ci].path@ == to_scan@[j].path@ && curr@[ci].modified
                        == to_scan@[j].modified,
                forall|ci: int| 0 <= ci < i ==> (rescan_keys(pre, curr@).contains(
                    #[trigger] curr@[ci].path@,
                ) ==> crate::discover::has_entry_key(to_scan@, curr@[ci].path@)),
                forall|ci: int| 0 <= ci < i ==> (stale_keys(pre, curr@).contains(
                    #[trigger] curr@[ci].path@,
                ) ==> has_str_key(retract@, curr@[ci].path@)),
            decreases curr@.len() - i,
        {
            let ghost k = curr@[i as int].path@;
            match find_path(&self.path2meta, &curr[i].path) {
                None => {
                    // a created path: not tracked, so re-scan it
                    proof {
                        lemma_kv_map_contains(self.path2meta@, k);
                        assert(!pre.path_map().contains_key(k));
                        assert(rescan_keys(pre, curr@).contains(k));
                        assert(!stale_keys(pre, curr@).contains(k));
                    }
                    let ghost ts0 = to_scan@;
                    to_scan.push(
                        DiscoveredEntry { path: curr[i].path.clone(), modified: curr[i].modified },
                    );
                    proof {
                        assert(forall|j: int|
                            0 <= j < ts0.len() ==> to_scan@[j] == #[trigger] ts0[j]);
                        assert(to_scan@[to_scan@.len() - 1].path@ == k);
                        assert(crate::discover::has_entry_key(to_scan@, k));
                    }
                },
                Some(pi) => {
                    proof {
                        lemma_kv_map_get(self.path2meta@, pi as int);
                        assert(pre.path_map().contains_key(k));
                        assert(pre.path_map()[k] == self.path2meta@[pi as int].1);
                    }
                    let stored = self.path2meta[pi].1.modified;
                    let fresher = match curr[i].modified {
                        Some(t) => t > stored,
                        None => false,
                    };
                    proof {
                        if fresher {
                            assert(snap_fresher(curr@, k, stored));
                        } else {
                            assert(!snap_fresher(curr@, k, stored)) by {
                                if snap_fresher(curr@, k, stored) {
                                    let w = choose|w: int|
                                        0 <= w < curr@.len() && curr@[w].path@ == k && match curr@[w].modified {
                                            Some(t) => t > stored,
                                            None => false,
                                        };
                                    if w != i as int {
                                        assert(curr@[w].path@ !== curr@[i as int].path@);
                                    }
                                    assert(false);
                                }
                            }
                        }
                    }
                    if fresher {
                        // an updated path: retract it, then re-scan it
                        let ghost rt0 = retract@;
                        let ghost ts0 = to_scan@;
                        retract.push(curr[i].path.clone());
                        to_scan.push(
                            DiscoveredEntry {
                                path: curr[i].path.clone(),
                                modified: curr[i].modified,
                            },
                        );
                        proof {
                            assert(forall|j: int|
                                0 <= j < rt0.len() ==> retract@[j] == #[trigger] rt0[j]);
                            assert(forall|j: int|
                                0 <= j < ts0.len() ==> to_scan@[j] == #[trigger] ts0[j]);
                            assert(retract@[retract@.len() - 1]@ == k);
                            assert(to_scan@[to_scan@.len() - 1].path@ == k);
                            assert(stale_keys(pre, curr@).contains(k));
                            assert(rescan_keys(pre, curr@).contains(k));
                            assert(has_str_key(retract@, k));
                            assert(crate::discover::has_entry_key(to_scan@, k));
                        }
                    } else {
                        // preserved and unchanged: neither retracted nor scanned
                        proof {
                            assert(!stale_keys(pre, curr@).contains(k));
                            assert(!rescan_keys(pre, curr@).contains(k));
                        }
                    }
                },
            }
            i = i + 1;
        }

        proof {
            assert forall|j: int| #![trigger to_scan@[j]] 0 <= j < to_scan@.len() implies exists|
                ci: int,
            |
                #![trigger curr@[ci]]
                0 <= ci < curr@.len() && curr@[ci].path@ == to_scan@[j].path@
                    && curr@[ci].modified == to_scan@[j].modified by {
                let ci = choose|ci: int|
                    #![trigger curr@[ci]]
                    0 <= ci < i && curr@[ci].path@ == to_scan@[j].path@ && curr@[ci].modified
                        == to_scan@[j].modified;
                assert(0 <= ci < curr@.len() && curr@[ci].path@ == to_scan@[j].path@
                    && curr@[ci].modified == to_scan@[j].modified);
            }
        }

        // the tracked paths gone from the snapshot are retracted as well
        let mut i: usize = 0;
        while i < self.path2meta.len()
            invariant
                *self == pre,
                pre.wf(),
                entry_keys_distinct(curr@),
                i <= self.path2meta@.len(),
                forall|j: int| #![trigger retract@[j]] 0 <= j < retract@.len() ==> stale_keys(
                    pre,
                    curr@,
                ).contains(retract@[j]@),
                forall|x: int, y: int| 0 <= x < y < retract@.len() ==> retract@[x]@
                    != retract@[y]@,
                forall|j: int| #![trigger retract@[j]] 0 <= j < retract@.len() ==> (snap_has(
                    curr@,
                    retract@[j]@,
                ) || exists|ti: int|
                    0 <= ti < i && self.path2meta@[ti].0@ == retract@[j]@),
                forall|j: int| #![trigger to_scan@[j]] 0 <= j < to_scan@.len() ==> rescan_keys(
                    pre,
                    curr@,
                ).contains(to_scan@[j].path@),
                crate::discover::entries_sourced(to_scan@, curr@),
                entry_keys_distinct(to_scan@),
                forall|ci: int| 0 <= ci < curr@.len() ==> (rescan_keys(pre, curr@).contains(
                    #[trigger] curr@[ci].path@,
                ) ==> crate::discover::has_entry_key(to_scan@, curr@[ci].path@)),
                forall|ci: int| 0 <= ci < curr@.len() ==> (stale_keys(pre, curr@).contains(
                    #[trigger] curr@[ci].path@,
                ) ==> has_str_key(retract@, curr@[ci].path@)),
                forall|ti: int| 0 <= ti < i ==> (stale_keys(pre, curr@).contains(
                    #[trigger] self.path2meta@[ti].0@,
                ) ==> has_str_key(retract@, self.path2meta@[ti].0@)),
            decreases self.path2meta@.len() - i,
        {
            let ghost k = self.path2meta@[i as int].0@;
            proof {
                lemma_kv_map_get(self.path2meta@, i as int);
            }
            match find_entry(&curr, &self.path2meta[i].0) {
                None => {
                    // a removed path: it is on no snapshot entry
                    proof {
                        assert(!snap_has(curr@, k));
                        assert(stale_keys(pre, curr@).contains(k));
                        assert(!has_str_key(retract@, k)) by {
                            if has_str_key(retract@, k) {
                                let j = choose|j: int|
                                    0 <= j < retract@.len() && retract@[j]@ == k;
                                assert(!snap_has(curr@, retract@[j]@));
                                let ti = choose|ti: int|
                                    0 <= ti < i && self.path2meta@[ti].0@ == retract@[j]@;
                                assert(self.path2meta@[ti].0@ !== self.path2meta@[i as int].0@);
                                assert(false);
                            }
                        }
                    }
                    let ghost rt0 = retract@;
                    retract.push(self.path2meta[i].0.clone());
                    proof {
                        assert(forall|j: int|
                            0 <= j < rt0.len() ==> retract@[j] == #[trigger] rt0[j]);
                        assert(retract@[retract@.len() - 1]@ == k);
                        assert(has_str_key(retract@, k));
                        assert(forall|k2: Seq<char>|
                            has_str_key(rt0, k2) ==> #[trigger] has_str_key(retract@, k2));
                    }
                },
                Some(ci) => {
                    // still on disk: if it was updated, the first loop
                    // already queued it
                    proof {
                        assert(curr@[ci as int].path@ == k);
                        assert(snap_has(curr@, k));
                        if stale_keys(pre, curr@).contains(k) {
                            assert(has_str_key(retract@, k));
                        }
                    }
                },
            }
            i = i + 1;
        }

        let ghost stale = stale_keys(pre, curr@);
        proof {
            assert forall|k2: Seq<char>| has_str_key(retract@, k2) <==> stale.contains(k2) by {
                if has_str_key(retract@, k2) {
                    let j = choose|j: int| 0 <= j < retract@.len() && retract@[j]@ == k2;
                    assert(stale.contains(retract@[j]@));
                }
                if stale.contains(k2) {
                    assert(pre.path_map().contains_key(k2));
                    lemma_kv_map_contains(pre.path2meta@, k2);
                    let ti = choose|ti: int|
                        0 <= ti < pre.path2meta@.len() && pre.path2meta@[ti].0@ == k2;
                    assert(stale.contains(pre.path2meta@[ti].0@));
                    assert(has_str_key(retract@, pre.path2meta@[ti].0@));
                }
            }
        }

        // retraction: fully completed before any insertion
        let mut deleted: Vec<ResourceId> = Vec::new();
        let mut i: usize = 0;
        while i < retract.len()
            invariant
                pre.wf(),
                self.wf(),
                self.root == pre.root,
                i <= retract@.len(),
                forall|j: int| #![trigger retract@[j]] 0 <= j < retract@.len() ==> stale.contains(
                    retract@[j]@,
                ),
                forall|x: int, y: int| 0 <= x < y < retract@.len() ==> retract@[x]@
                    != retract@[y]@,
                forall|k2: Seq<char>| #[trigger] has_str_key(retract@, k2) <==> stale.contains(k2),
                stale == stale_keys(pre, curr@),
                self.path_map() == pre.path_map().remove_keys(
                    str_key_set(retract@.subrange(0, i as int)),
                ),
                forall|id: ResourceId| #[trigger] self.known(id) ==> pre.known(id),
                forall|id: ResourceId| #[trigger] deleted@.contains(id) <==> (pre.known(id)
                    && !self.known(id)),
                forall|x: int, y: int| 0 <= x < y < deleted@.len() ==> deleted@[x] != deleted@[y],
            decreases retract@.len() - i,
        {
            let ghost k = retract@[i as int]@;
            let ghost sub0 = retract@.subrange(0, i as int);
            proof {
                assert(stale.contains(k));
                assert(pre.path_map().contains_key(k));
                assert(!str_key_set(sub0).contains(k)) by {
                    if has_str_key(sub0, k) {
                        let j = choose|j: int| 0 <= j < sub0.len() && sub0[j]@ == k;
                        assert(retract@[j]@ == retract@[i as int]@);
                        assert(false);
                    }
                }
                assert(self.path_map().contains_key(k));
            }
            let ghost known0 = *self;
            let d = self.retract_path(&retract[i]);
            match d {
                Some(id) => {
                    let ghost dl0 = deleted@;
                    deleted.push(id);
                    proof {
                        assert(forall|j: int|
                            0 <= j < dl0.len() ==> deleted@[j] == #[trigger] dl0[j]);
                        assert(deleted@[deleted@.len() - 1] == id);
                        assert(known0.known(id));
                        assert(!dl0.contains(id));
                        assert forall|x: ResourceId| #[trigger]
                            deleted@.contains(x) <==> (dl0.contains(x) || x == id) by {
                            if deleted@.contains(x) {
                                let j = choose|j: int|
                                    0 <= j < deleted@.len() && deleted@[j] == x;
                                if j < dl0.len() {
                                    assert(dl0[j] == x);
                                }
                            }
                            if dl0.contains(x) {
                                let j = choose|j: int| 0 <= j < dl0.len() && dl0[j] == x;
                                assert(deleted@[j] == x);
                            }
                            if x == id {
                                assert(deleted@[deleted@.len() - 1] == x);
                            }
                        }
                    }
                },
                None => {},
            }
            proof {
                let sub1 = retract@.subrange(0, i as int + 1);
                assert(forall|j: int| 0 <= j < sub1.len() ==> sub1[j] == #[trigger] retract@[j]);
                assert forall|k2: Seq<char>| #[trigger]
                    str_key_set(sub1).contains(k2) <==> (str_key_set(sub0).contains(k2) || k2
                        == k) by {
                    if has_str_key(sub1, k2) {
                        let j = choose|j: int| 0 <= j < sub1.len() && sub1[j]@ == k2;
                        if j < sub0.len() {
                            assert(sub0[j]@ == k2);
                        }
                    }
                    if has_str_key(sub0, k2) {
                        let j = choose|j: int| 0 <= j < sub0.len() && sub0[j]@ == k2;
                        assert(sub1[j]@ == k2);
                    }
                    if k2 == k {
                        assert(sub1[i as int]@ == k2);
                    }
                }
                assert(self.path_map() =~= pre.path_map().remove_keys(str_key_set(sub1)));
            }
            i = i + 1;
        }

        proof {
            assert(retract@.subrange(0, retract@.len() as int) =~= retract@);
            assert(str_key_set(retract@) =~= stale);
            assert(self.path_map() =~= mid_map(pre, curr@));
        }

        // re-scan only what changed, then keep the genuinely novel results
        let scanned = scan_metadata(to_scan);
        let ghost mid = *self;
        proof {
            // each scan result's path is a re-scan key, sourced from the snapshot
            assert forall|j: int| 0 <= j < scanned@.len() implies rescan_keys(pre, curr@).contains(
                #[trigger] scanned@[j].0@,
            ) by {
                let t = choose|t: int|
                    #![trigger to_scan@[t]]
                    0 <= t < to_scan@.len() && to_scan@[t].path@ == scanned@[j].0@
                        && to_scan@[t].modified == Some(scanned@[j].1.modified);
                assert(rescan_keys(pre, curr@).contains(to_scan@[t].path@));
            }
            assert(crate::discover::scan_sourced(scanned@, curr@, curr@.len() as int)) by {
                assert forall|j: int| #![trigger scanned@[j]] 0 <= j < scanned@.len() implies exists|
                    w: int,
                |
                    #![trigger curr@[w]]
                    0 <= w < curr@.len() && curr@[w].path@ == scanned@[j].0@ && curr@[w].modified
                        == Some(scanned@[j].1.modified) by {
                    let t = choose|t: int|
                        #![trigger to_scan@[t]]
                        0 <= t < to_scan@.len() && to_scan@[t].path@ == scanned@[j].0@
                            && to_scan@[t].modified == Some(scanned@[j].1.modified);
                    let w = choose|w: int|
                        #![trigger curr@[w]]
                        0 <= w < curr@.len() && curr@[w].path@ == to_scan@[t].path@
                            && curr@[w].modified == to_scan@[t].modified;
                    assert(0 <= w < curr@.len() && curr@[w].path@ == scanned@[j].0@
                        && curr@[w].modified == Some(scanned@[j].1.modified));
                }
            }
        }
        let mut added: Vec<(String, ResourceMeta)> = Vec::new();
        let mut i: usize = 0;
        proof {
            assert(scanned@.subrange(0, 0) =~= Seq::<(String, ResourceMeta)>::empty());
            crate::table::lemma_filter_empty(novel_in(mid_map(pre, curr@)));
        }
        while i < scanned.len()
            invariant
                *self == mid,
                mid.wf(),
                mid.path_map() == mid_map(pre, curr@),
                i <= scanned@.len(),
                kv_distinct(scanned@),
                added@ == scanned@.subrange(0, i as int).filter(novel_in(mid_map(pre, curr@))),
                kv_distinct(added@),
                forall|j: int| #![trigger added@[j]] 0 <= j < added@.len() ==> exists|x: int|
                    0 <= x < i && scanned@[x] == added@[j],
            decreases scanned@.len() - i,
        {
            let ghost sub0 = scanned@.subrange(0, i as int);
            let id = scanned[i].1.id;
            proof {
                lemma_count_vs_map(self.path2meta@, id);
                assert(self.known(id) <==> (self.id_count(id) >= 1));
            }
            let keep = find_id(&self.ids, id).is_none();
            proof {
                assert(keep == !map_has_id(mid_map(pre, curr@), id));
                assert(novel_in(mid_map(pre, curr@))(scanned@[i as int]) == keep);
                crate::table::lemma_filter_push(
                    sub0,
                    novel_in(mid_map(pre, curr@)),
                    scanned@[i as int],
                );
                assert(scanned@.subrange(0, i as int + 1) =~= sub0.push(scanned@[i as int]));
            }
            if keep {
                let ghost ad0 = added@;
                added.push((scanned[i].0.clone(), scanned[i].1));
                proof {
                    assert(forall|j: int|
                        0 <= j < ad0.len() ==> added@[j] == #[trigger] ad0[j]);
                    assert(added@ =~= sub0.filter(novel_in(mid_map(pre, curr@))).push(
                        scanned@[i as int],
                    ));
                    assert forall|x: int, y: int| 0 <= x < y < added@.len() implies added@[x].0@
                        != added@[y].0@ by {
                        if y < ad0.len() {
                        } else {
                            let sx = choose|s: int| 0 <= s < i && scanned@[s] == added@[x];
                            assert(added@[y] == scanned@[i as int]);
                            assert(scanned@[sx].0@ != scanned@[i as int].0@);
                        }
                    }
                }
            }
            i = i + 1;
        }
        proof {
            assert(scanned@.subrange(0, scanned@.len() as int) =~= scanned@);
            assert(added@ == scanned@.filter(novel_in(mid_map(pre, curr@))));
        }

        // insert every surviving candidate through the insertion algorithm
        let mut i: usize = 0;
        proof {
            assert(added@.subrange(0, 0) =~= Seq::<(String, ResourceMeta)>::empty());
            assert(mid.path_map().union_prefer_right(kv_map(added@.subrange(0, 0)))
                =~= mid.path_map());
        }
        while i < added.len()
            invariant
                self.wf(),
                self.root == pre.root,
                i <= added@.len(),
                kv_distinct(added@),
                forall|j: int| #![trigger added@[j]] 0 <= j < added@.len() ==> rescan_keys(
                    pre,
                    curr@,
                ).contains(added@[j].0@),
                mid.path_map() == mid_map(pre, curr@),
                self.path_map() == mid.path_map().union_prefer_right(
                    kv_map(added@.subrange(0, i as int)),
                ),
            decreases added@.len() - i,
        {
            let ghost sub0 = added@.subrange(0, i as int);
            let ghost k = added@[i as int].0@;
            proof {
                assert(rescan_keys(pre, curr@).contains(k));
                assert(!mid_map(pre, curr@).contains_key(k)) by {
                    if pre.path_map().contains_key(k) {
                        assert(stale_keys(pre, curr@).contains(k));
                    }
                }
                assert(!kv_map(sub0).contains_key(k)) by {
                    lemma_kv_map_contains(sub0, k);
                    if exists|j: int| 0 <= j < sub0.len() && sub0[j].0@ == k {
                        let j = choose|j: int| 0 <= j < sub0.len() && sub0[j].0@ == k;
                        assert(added@[j].0@ == added@[i as int].0@);
                        assert(false);
                    }
                }
                assert(!self.path_map().contains_key(k));
            }
            add_meta(
                added[i].0.clone(),
                added[i].1,
                &mut self.path2meta,
                &mut self.collisions,
                &mut self.ids,
            );
            proof {
                let sub1 = added@.subrange(0, i as int + 1);
                assert(sub1 =~= sub0.push(added@[i as int]));
                lemma_kv_map_push(sub0, added@[i as int].0, added@[i as int].1);
                assert(kv_map(sub1) == kv_map(sub0).insert(k, added@[i as int].1));
                assert(self.path_map() =~= mid.path_map().union_prefer_right(kv_map(sub1)));
            }
            i = i + 1;
        }
        proof {
            assert(added@.subrange(0, added@.len() as int) =~= added@);
        }

        let upd = IndexUpdate { deleted, added };
        proof {
            // the deletions are exactly the vanished identities
            assert forall|id: ResourceId| #[trigger]
                upd.deleted@.contains(id) <==> vanished_ids(pre, curr@).contains(id) by {
                lemma_count_vs_map(mid.path2meta@, id);
            }
            assert(update_spec(*old(self), curr@, scanned@, *self, upd));
            assert(update_sound(*old(self), *self, upd));
        }
        Ok(upd)
    }

    /// Retraction: forget one tracked path. If that path was the sole holder
    /// of its content identity the identity vanishes from the index and is
    /// returned; otherwise the collision count is decremented, an entry
    /// falling to a single remaining path collapsing to absence.
    pub fn retract_path(&mut self, path: &String) -> (r: Option<ResourceId>)
        requires
            old(self).wf(),
            old(self).path_map().contains_key(path@),
        ensures
            final(self).wf(),
            final(self).root == old(self).root,
            final(self).path_map() == old(self).path_map().remove(path@),
            forall|i: ResourceId| #[trigger] final(self).id_count(i) + (if i == old(
                self,
            ).path_map()[path@].id {
                1nat
            } else {
                0nat
            }) == old(self).id_count(i),
            r == (if old(self).id_count(old(self).path_map()[path@].id) == 1 {
                Some(old(self).path_map()[path@].id)
            } else {
                Option::<ResourceId>::None
            }),
            forall|i: ResourceId| #[trigger] final(self).known(i) <==> (old(self).known(i) && r
                != Some(i)),
    {
        proof {
            lemma_kv_map_contains(self.path2meta@, path@);
        }
        let pi = match find_path(&self.path2meta, path) {
            Some(i) => i,
            None => {
                proof {
                    assert(false);
                }
                0
            },
        };
        proof {
            lemma_kv_map_get(self.path2meta@, pi as int);
            lemma_kv_map_remove(self.path2meta@, pi as int);
            let s = self.path2meta@;
            assert forall|i: ResourceId| #[trigger] id_count_in(s.remove(pi as int), i) + (if i
                == s[pi as int].1.id {
                1nat
            } else {
                0nat
            }) == id_count_in(s, i) by {
                lemma_count_remove(s, holds_id(i), pi as int);
            }
        }
        let entry = self.path2meta.remove(pi);
        let m = entry.1;
        proof {
            assert(id_count_in(self.path2meta@, m.id) + 1nat == id_count_in(
                old(self).path2meta@,
                m.id,
            ));
            assert(old(self).id_count(m.id) >= 1);
        }
        match find_collision(&self.collisions, m.id) {
            Some(ci) => {
                // other paths still hold this content: the count stays exact
                let centry = self.collisions.remove(ci);
                proof {
                    lemma_kv_map_get(old(self).collisions@, ci as int);
                    lemma_kv_map_remove(old(self).collisions@, ci as int);
                    lemma_kv_map_contains(self.collisions@, m.id);
                    assert(kv_map(old(self).collisions@).contains_key(m.id));
                    assert(kv_map(old(self).collisions@)[m.id] == centry.1);
                    assert(old(self).id_count(m.id) == centry.1);
                    assert(centry.1 >= 2);
                }
                if centry.1 > 2 {
                    proof {
                        lemma_kv_map_push(self.collisions@, m.id, (centry.1 - 1) as usize);
                    }
                    self.collisions.push((m.id, centry.1 - 1));
                    proof {
                        assert(kv_map(self.collisions@) =~= kv_map(old(self).collisions@).insert(
                            m.id,
                            (centry.1 - 1) as usize,
                        ));
                    }
                }
                None
            },
            None => {
                // `path` was the sole holder: the identity vanishes
                proof {
                    lemma_kv_map_contains(self.collisions@, m.id);
                    assert(!kv_map(self.collisions@).contains_key(m.id));
                    assert(old(self).id_count(m.id) == 1);
                }
                match find_id(&self.ids, m.id) {
                    Some(ki) => {
                        proof {
                            assert(old(self).ids@[ki as int] == m.id);
                        }
                        self.ids.remove(ki);
                        proof {
                            let olds = old(self).ids@;
                            let news = self.ids@;
                            assert(forall|j: int| 0 <= j < news.len() ==> news[j] == (if j
                                < ki as int {
                                olds[j]
                            } else {
                                olds[j + 1]
                            }));
                            assert forall|x: ResourceId| #[trigger]
                                news.contains(x) <==> (olds.contains(x) && x != m.id) by {
                                if news.contains(x) {
                                    let j = choose|j: int| 0 <= j < news.len() && news[j] == x;
                                    if j < ki as int {
                                        assert(olds[j] == x);
                                    } else {
                                        assert(olds[j + 1] == x);
                                    }
                                }
                                if olds.contains(x) && x != m.id {
                                    let j = choose|j: int| 0 <= j < olds.len() && olds[j] == x;
                                    if j < ki as int {
                                        assert(news[j] == x);
                                    } else {
                                        assert(news[j - 1] == x);
                                    }
                                }
                            }
                        }
                    },
                    None => {
                        proof {
                            assert(old(self).ids@.contains(m.id));
                            assert(false);
                        }
                    },
                }
                Some(m.id)
            },
        }
    }
}

/// Does the snapshot hold an entry for canonical path `k`?
pub open spec fn snap_has(curr: Seq<DiscoveredEntry>, k: Seq<char>) -> bool {
    exists|i: int| 0 <= i < curr.len() && curr[i].path@ == k
}

/// Does the snapshot hold an entry for `k` whose timestamp is known and
/// strictly newer than `prev_modified`? An unknown timestamp never counts as
/// newer: such a path is assumed unchanged rather than updated.
pub open spec fn snap_fresher(curr: Seq<DiscoveredEntry>, k: Seq<char>, prev_modified: u64) -> bool {
    exists|i: int|
        0 <= i < curr.len() && curr[i].path@ == k && match curr[i].modified {
            Some(t) => t > prev_modified,
            None => false,
        }
}

/// Does some path of the string sequence read `k`?
pub open spec fn has_str_key(s: Seq<String>, k: Seq<char>) -> bool {
    exists|j: int| 0 <= j < s.len() && s[j]@ == k
}

/// The canonical paths of a string sequence, as a set.
pub open spec fn str_key_set(s: Seq<String>) -> Set<Seq<char>> {
    Set::new(|k: Seq<char>| has_str_key(s, k))
}

/// The tracked paths that a pass over snapshot `curr` retracts: those gone
/// from the snapshot and those whose on-disk timestamp moved forward.
pub open spec fn stale_keys(pre: ResourceIndex, curr: Seq<DiscoveredEntry>) -> Set<Seq<char>> {
    Set::new(
        |k: Seq<char>|
            pre.path_map().contains_key(k) && (!snap_has(curr, k) || snap_fresher(
                curr,
                k,
                pre.path_map()[k].modified,
            )),
    )
}

/// The snapshot paths that a pass re-scans: the newly created ones and the
/// updated ones.
pub open spec fn rescan_keys(pre: ResourceIndex, curr: Seq<DiscoveredEntry>) -> Set<Seq<char>> {
    Set::new(
        |k: Seq<char>|
            snap_has(curr, k) && (!pre.path_map().contains_key(k) || snap_fresher(
                curr,
                k,
                pre.path_map()[k].modified,
            )),
    )
}

/// The path mapping after retraction and before any insertion.
pub open spec fn mid_map(pre: ResourceIndex, curr: Seq<DiscoveredEntry>) -> Map<
    Seq<char>,
    ResourceMeta,
> {
    pre.path_map().remove_keys(stale_keys(pre, curr))
}

/// Does some path of mapping `m` hold identity `id`?
pub open spec fn map_has_id(m: Map<Seq<char>, ResourceMeta>, id: ResourceId) -> bool {
    exists|k: Seq<char>| #[trigger] m.contains_key(k) && m[k].id == id
}

/// The identities a pass reports deleted: known before the pass, with no
/// remaining path after retraction.
pub open spec fn vanished_ids(pre: ResourceIndex, curr: Seq<DiscoveredEntry>) -> Set<ResourceId> {
    Set::new(|id: ResourceId| pre.known(id) && !map_has_id(mid_map(pre, curr), id))
}

/// The filter applied to scan results before insertion: keep a result only
/// when its identity is held by no path that survived retraction. A new path
/// whose content duplicates tracked content is dropped here, so it is never
/// inserted either: duplicates found at cold start are tracked, duplicates
/// appearing later are invisible to the index. That asymmetry is deliberate
/// and preserved.
pub open spec fn novel_in(m: Map<Seq<char>, ResourceMeta>) -> spec_fn((String, ResourceMeta)) -> bool {
    |pm: (String, ResourceMeta)| !map_has_id(m, pm.1.id)
}

/// One incremental pass, related to the snapshot `curr` that discovery
/// produced and the scan results `scanned`: the index loses exactly the
/// stale paths, `deleted` holds exactly the identities left with no path by
/// retraction, `added` is exactly the scan results whose identity was not
/// held by a surviving path, and those pairs are inserted.
pub open spec fn update_spec(
    pre: ResourceIndex,
    curr: Seq<DiscoveredEntry>,
    scanned: Seq<(String, ResourceMeta)>,
    post: ResourceIndex,
    upd: IndexUpdate,
) -> bool {
    &&& entry_keys_distinct(curr)
    &&& kv_distinct(scanned)
    &&& (forall|j: int| #![trigger scanned[j]] 0 <= j < scanned.len() ==> rescan_keys(
        pre,
        curr,
    ).contains(scanned[j].0@))
    &&& crate::discover::scan_sourced(scanned, curr, curr.len() as int)
    &&& (forall|id: ResourceId| #[trigger] upd.deleted@.contains(id) <==> vanished_ids(
        pre,
        curr,
    ).contains(id))
    &&& (forall|i: int, j: int| 0 <= i < j < upd.deleted@.len() ==> upd.deleted@[i]
        != upd.deleted@[j])
    &&& upd.added@ == scanned.filter(novel_in(mid_map(pre, curr)))
    &&& post.path_map() == mid_map(pre, curr).union_prefer_right(kv_map(upd.added@))
    &&& post.root == pre.root
    &&& post.wf()
}

/// The paths of mapping `m` holding identity `id`.
pub open spec fn map_id_paths(m: Map<Seq<char>, ResourceMeta>, id: ResourceId) -> Set<Seq<char>> {
    Set::new(|k: Seq<char>| m.contains_key(k) && m[k].id == id)
}

/// The per-identity path count equals the number of keys of the denoted map
/// whose metadata carries the identity.
pub proof fn lemma_count_is_card(s: Seq<(String, ResourceMeta)>, id: ResourceId)
    requires
        kv_distinct(s),
    ensures
        map_id_paths(kv_map(s), id).finite(),
        map_id_paths(kv_map(s), id).len() == id_count_in(s, id),
    decreases s.len(),
{
    if s.len() == 0 {
        assert(map_id_paths(kv_map(s), id) =~= Set::<Seq<char>>::empty());
    } else {
        let d = s.drop_last();
        assert(kv_distinct(d));
        lemma_count_is_card(d, id);
        lemma_count_push(d, holds_id(id), s.last());
        assert(s =~= d.push(s.last()));
        lemma_kv_map_contains(d, s.last().0@);
        assert(!kv_map(d).contains_key(s.last().0@));
        if s.last().1.id == id {
            assert(map_id_paths(kv_map(s), id) =~= map_id_paths(kv_map(d), id).insert(
                s.last().0@,
            ));
            vstd::set::axiom_set_insert_len(map_id_paths(kv_map(d), id), s.last().0@);
            assert(!map_id_paths(kv_map(d), id).contains(s.last().0@));
        } else {
            assert(map_id_paths(kv_map(s), id) =~= map_id_paths(kv_map(d), id));
        }
    }
}

/// A pass from `pre` to `post` returning `upd` is exact for some snapshot
/// and some scan outcome. Discovery and the scans read the live disk, so the
/// snapshot cannot be named in advance; everything after it is pinned down
/// by `update_spec`.
pub open spec fn update_sound(pre: ResourceIndex, post: ResourceIndex, upd: IndexUpdate) -> bool {
    exists|curr: Seq<DiscoveredEntry>, scanned: Seq<(String, ResourceMeta)>|
        update_spec(pre, curr, scanned, post, upd)
}

/// An identity has a positive path count exactly when some tracked path's
/// metadata carries it.
pub proof fn lemma_count_vs_map(s: Seq<(String, ResourceMeta)>, id: ResourceId)
    requires
        kv_distinct(s),
    ensures
        (id_count_in(s, id) >= 1) <==> map_has_id(kv_map(s), id),
{
    lemma_count_zero(s, holds_id(id));
    if id_count_in(s, id) >= 1 {
        let j = choose|j: int| 0 <= j < s.len() && s[j].1.id == id;
        lemma_kv_map_get(s, j);
        assert(kv_map(s).contains_key(s[j].0@) && kv_map(s)[s[j].0@].id == id);
    }
    if map_has_id(kv_map(s), id) {
        let k = choose|k: Seq<char>| kv_map(s).contains_key(k) && kv_map(s)[k].id == id;
        lemma_kv_map_contains(s, k);
        let j = choose|j: int| 0 <= j < s.len() && s[j].0@ == k;
        lemma_kv_map_get(s, j);
        assert(s[j].1.id == id);
    }
}

/// The insertion algorithm shared by a cold build and an incremental pass:
/// record that `path`, not tracked so far, now holds the content that `meta`
/// describes. The path mapping gains the pair; if the identity was already
/// known the collision count for it becomes exact again (a first collision
/// starts at 2), otherwise the identity becomes known.
pub fn add_meta(
    path: String,
    meta: ResourceMeta,
    path2meta: &mut Vec<(String, ResourceMeta)>,
    collisions: &mut Vec<(ResourceId, usize)>,
    ids: &mut Vec<ResourceId>,
)
    requires
        triple_wf(old(path2meta)@, old(collisions)@, old(ids)@),
        !kv_map(old(path2meta)@).contains_key(path@),
    ensures
        triple_wf(final(path2meta)@, final(collisions)@, final(ids)@),
        final(path2meta)@ == old(path2meta)@.push((path, meta)),
        kv_map(final(path2meta)@) == kv_map(old(path2meta)@).insert(path@, meta),
        forall|id: ResourceId| #[trigger] final(ids)@.contains(id) <==> (old(ids)@.contains(id)
            || id == meta.id),
        forall|id: ResourceId| #[trigger] id_count_in(final(path2meta)@, id) == id_count_in(
            old(path2meta)@,
            id,
        ) + (if id == meta.id {
            1nat
        } else {
            0nat
        }),
{
    let id = meta.id;
    proof {
        lemma_kv_map_contains(path2meta@, path@);
        lemma_kv_map_push(path2meta@, path, meta);
        assert forall|i: ResourceId| #[trigger] id_count_in(path2meta@.push((path, meta)), i)
            == id_count_in(path2meta@, i) + (if i == meta.id {
            1nat
        } else {
            0nat
        }) by {
            lemma_count_push(path2meta@, holds_id(i), (path, meta));
        }
        lemma_count_bound(path2meta@, holds_id(id));
    }
    path2meta.push((path, meta));
    let n = path2meta.len();
    proof {
        assert(n == old(path2meta)@.len() + 1);
        assert(old(path2meta)@.len() < usize::MAX);
    }
    match find_id(ids, id) {
        Some(ki) => {
            proof {
                assert(ids@[ki as int] == id);
                assert(ids@.contains(id));
            }
            // a further path for known content: keep the collision count exact
            match find_collision(collisions, id) {
                Some(ci) => {
                    let entry = collisions.remove(ci);
                    proof {
                        lemma_kv_map_get(old(collisions)@, ci as int);
                        lemma_kv_map_remove(old(collisions)@, ci as int);
                        lemma_kv_map_contains(collisions@, id);
                        lemma_kv_map_push(collisions@, id, (entry.1 + 1) as usize);
                    }
                    collisions.push((id, entry.1 + 1));
                    proof {
                        assert(kv_map(collisions@) =~= kv_map(old(collisions)@).insert(
                            id,
                            (entry.1 + 1) as usize,
                        ));
                    }
                }
                None => {
                    proof {
                        lemma_kv_map_contains(collisions@, id);
                        lemma_kv_map_push(collisions@, id, 2usize);
                    }
                    collisions.push((id, 2));
                }
            }
        }
        None => {
            // first path with this content
            ids.push(id);
            proof {
                assert forall|x: ResourceId| #[trigger]
                    ids@.contains(x) <==> (old(ids)@.contains(x) || x == id) by {
                    if ids@.contains(x) {
                        let j = choose|j: int| 0 <= j < ids@.len() && ids@[j] == x;
                        if j < old(ids)@.len() {
                            assert(old(ids)@[j] == x);
                        }
                    }
                    if old(ids)@.contains(x) {
                        let j = choose|j: int| 0 <= j < old(ids)@.len() && old(ids)@[j] == x;
                        assert(ids@[j] == x);
                    }
                    if x == id {
                        assert(ids@[ids@.len() - 1] == x);
                    }
                }
            }
        }
    }
}

} // verus!
