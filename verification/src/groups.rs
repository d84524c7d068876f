use vstd::prelude::*;

use crate::bytes::bytes_equal;
use crate::bytes::clone_bytes;
use crate::bytes::views;
use crate::seqs::lemma_filter_push;
use crate::seqs::lemma_map_values_push;

verus! {

/// A regular file found by the scan: its path and its length in bytes.
pub struct FileEntry {
    pub path: Vec<u8>,
    pub size: u64,
}

impl View for FileEntry {
    type V = (Seq<u8>, u64);

    open spec fn view(&self) -> (Seq<u8>, u64) {
        (self.path@, self.size)
    }
}

pub open spec fn entry_view() -> spec_fn(FileEntry) -> (Seq<u8>, u64) {
    |e: FileEntry| (e.path@, e.size)
}

pub open spec fn entry_views(s: Seq<FileEntry>) -> Seq<(Seq<u8>, u64)> {
    s.map_values(entry_view())
}

/// Whether an entry of the given size takes part in the scan at all.
pub open spec fn entry_kept(e: (Seq<u8>, u64), include_empty: bool) -> bool {
    e.1 > 0 || include_empty
}

pub open spec fn size_pred(include_empty: bool, s: u64) -> spec_fn((Seq<u8>, u64)) -> bool {
    |e: (Seq<u8>, u64)| entry_kept(e, include_empty) && e.1 == s
}

pub open spec fn pair_fst() -> spec_fn((Seq<u8>, u64)) -> Seq<u8> {
    |e: (Seq<u8>, u64)| e.0
}

/// The paths of all kept entries of size `s`, in input order.
pub open spec fn size_paths(entries: Seq<(Seq<u8>, u64)>, include_empty: bool, s: u64) -> Seq<
    Seq<u8>,
> {
    entries.filter(size_pred(include_empty, s)).map_values(pair_fst())
}

/// All files of one size.
pub struct SizeGroup {
    pub size: u64,
    pub paths: Vec<Vec<u8>>,
}

/// Files collated by size: one group per size seen, sizes distinct.
pub struct SizeGroups {
    pub groups: Vec<SizeGroup>,
}

impl SizeGroups {
    pub open spec fn wf(self) -> bool {
        &&& forall|i: int, j: int|
            0 <= i < j < self.groups@.len() ==> self.groups@[i].size != self.groups@[j].size
        &&& forall|i: int| 0 <= i < self.groups@.len() ==> self.groups@[i].paths@.len() >= 1
    }

    pub open spec fn contains_size(self, s: u64) -> bool {
        exists|i: int| 0 <= i < self.groups@.len() && self.groups@[i].size == s
    }

    pub open spec fn group_paths(self, i: int) -> Seq<Seq<u8>> {
        views(self.groups@[i].paths@)
    }
}

/// A hash paired with the path whose bytes produced it.
pub struct HashedPath {
    pub hash: Vec<u8>,
    pub path: Vec<u8>,
}

impl View for HashedPath {
    type V = (Seq<u8>, Seq<u8>);

    open spec fn view(&self) -> (Seq<u8>, Seq<u8>) {
        (self.hash@, self.path@)
    }
}

pub open spec fn hashed_pair_view() -> spec_fn(HashedPath) -> (Seq<u8>, Seq<u8>) {
    |p: HashedPath| (p.hash@, p.path@)
}

pub open spec fn pair_views(s: Seq<HashedPath>) -> Seq<(Seq<u8>, Seq<u8>)> {
    s.map_values(hashed_pair_view())
}

pub open spec fn key_pred(h: Seq<u8>) -> spec_fn((Seq<u8>, Seq<u8>)) -> bool {
    |p: (Seq<u8>, Seq<u8>)| p.0 == h
}

pub open spec fn pair_snd() -> spec_fn((Seq<u8>, Seq<u8>)) -> Seq<u8> {
    |p: (Seq<u8>, Seq<u8>)| p.1
}

/// The paths carrying key `h`, in input order.
pub open spec fn key_paths(pairs: Seq<(Seq<u8>, Seq<u8>)>, h: Seq<u8>) -> Seq<Seq<u8>> {
    pairs.filter(key_pred(h)).map_values(pair_snd())
}

/// All paths whose bytes hashed to one value.
pub struct HashGroup {
    pub hash: Vec<u8>,
    pub paths: Vec<Vec<u8>>,
}

/// Paths collated by hash value: one group per hash seen, hashes distinct.
pub struct HashGroups {
    pub groups: Vec<HashGroup>,
}

impl HashGroups {
    pub open spec fn wf(self) -> bool {
        &&& forall|i: int, j: int|
            0 <= i < j < self.groups@.len() ==> self.groups@[i].hash@ != self.groups@[j].hash@
        &&& forall|i: int| 0 <= i < self.groups@.len() ==> self.groups@[i].paths@.len() >= 1
    }

    pub open spec fn contains_hash(self, h: Seq<u8>) -> bool {
        exists|i: int| 0 <= i < self.groups@.len() && self.groups@[i].hash@ == h
    }

    pub open spec fn group_paths(self, i: int) -> Seq<Seq<u8>> {
        views(self.groups@[i].paths@)
    }
}

pub(crate) proof fn lemma_key_paths_push(
    pairs: Seq<(Seq<u8>, Seq<u8>)>,
    x: (Seq<u8>, Seq<u8>),
    h: Seq<u8>,
)
    ensures
        x.0 == h ==> key_paths(pairs.push(x), h) == key_paths(pairs, h).push(x.1),
        x.0 != h ==> key_paths(pairs.push(x), h) == key_paths(pairs, h),
{
    lemma_filter_push(pairs, key_pred(h), x);
    if x.0 == h {
        lemma_map_values_push(pairs.filter(key_pred(h)), pair_snd(), x);
    }
}

fn find_group(groups: &Vec<HashGroup>, h: &Vec<u8>) -> (r: Option<usize>)
    ensures
        match r {
            Some(k) => k < groups@.len() && groups@[k as int].hash@ == h@,
            None => forall|k: int| 0 <= k < groups@.len() ==> groups@[k].hash@ != h@,
        },
{
    let mut k: usize = 0;
    while k < groups.len()
        invariant
            k <= groups@.len(),
            forall|k2: int| 0 <= k2 < k ==> groups@[k2].hash@ != h@,
        decreases groups@.len() - k,
    {
        if bytes_equal(&groups[k].hash, h) {
            return Some(k);
        }
        k += 1;
    }
    None
}

/// Collate hashed paths by hash value.
///
/// Each hash seen in the input gets exactly one group, holding precisely
/// the paths that carried it, in input order.
pub fn group_pairs(pairs: &Vec<HashedPath>) -> (r: HashGroups)
    ensures
        r.wf(),
        forall|k: int|
            0 <= k < r.groups@.len() ==> #[trigger] r.group_paths(k) == key_paths(
                pair_views(pairs@),
                r.groups@[k].hash@,
            ),
        forall|h: Seq<u8>| key_paths(pair_views(pairs@), h).len() > 0 ==> r.contains_hash(h),
{
    let mut r = HashGroups { groups: Vec::new() };
    let mut n: usize = 0;
    proof {
        assert(pair_views(pairs@.take(0)) =~= Seq::<(Seq<u8>, Seq<u8>)>::empty());
    }
    while n < pairs.len()
        invariant
            n <= pairs@.len(),
            r.wf(),
            forall|k: int|
                0 <= k < r.groups@.len() ==> #[trigger] r.group_paths(k) == key_paths(
                    pair_views(pairs@.take(n as int)),
                    r.groups@[k].hash@,
                ),
            forall|h: Seq<u8>|
                key_paths(pair_views(pairs@.take(n as int)), h).len() > 0 ==> r.contains_hash(h),
        decreases pairs@.len() - n,
    {
        let ghost pv = pair_views(pairs@.take(n as int));
        let ghost pv2 = pair_views(pairs@.take(n + 1));
        let hp = &pairs[n];
        proof {
            assert(pairs@.take(n + 1) =~= pairs@.take(n as int).push(pairs@[n as int]));
            lemma_map_values_push(pairs@.take(n as int), hashed_pair_view(), pairs@[n as int]);
            assert(pv2 == pv.push((hp.hash@, hp.path@)));
        }
        let path_copy = clone_bytes(&hp.path);
        match find_group(&r.groups, &hp.hash) {
            Some(ki) => {
                let ghost old_r = r;
                let ghost old_groups = r.groups@;
                let mut g = r.groups.remove(ki);
                g.paths.push(path_copy);
                r.groups.insert(ki, g);
                proof {
                    assert(r.groups@ =~= old_groups.update(ki as int, g));
                    assert(views(g.paths@) =~= views(old_groups[ki as int].paths@).push(hp.path@));
                    assert forall|k: int| 0 <= k < r.groups@.len() implies #[trigger] r.group_paths(
                        k,
                    ) == key_paths(pv2, r.groups@[k].hash@) by {
                        assert(old_r.group_paths(k) == key_paths(pv, old_groups[k].hash@));
                        lemma_key_paths_push(pv, (hp.hash@, hp.path@), r.groups@[k].hash@);
                        if k == ki {
                            assert(r.groups@[k] == g);
                            assert(r.groups@[k].hash@ == hp.hash@);
                        } else {
                            assert(r.groups@[k] == old_groups[k]);
                            assert(r.groups@[k].hash@ != hp.hash@) by {
                                assert(old_groups[ki as int].hash@ == hp.hash@);
                            }
                        }
                    }
                    assert forall|h: Seq<u8>| key_paths(pv2, h).len() > 0 implies r.contains_hash(
                        h,
                    ) by {
                        lemma_key_paths_push(pv, (hp.hash@, hp.path@), h);
                        if h == hp.hash@ {
                            assert(r.groups@[ki as int].hash@ == h);
                        } else {
                            assert(key_paths(pv, h).len() > 0);
                            assert(old_r.contains_hash(h));
                            let i = choose|i: int|
                                0 <= i < old_groups.len() && old_groups[i].hash@ == h;
                            assert(r.groups@[i].hash@ == h);
                        }
                    }
                }
            },
            None => {
                let ghost old_r = r;
                let ghost old_groups = r.groups@;
                let hash_copy = clone_bytes(&hp.hash);
                let g = HashGroup { hash: hash_copy, paths: vec![path_copy] };
                r.groups.push(g);
                proof {
                    assert(key_paths(pv, hp.hash@).len() == 0) by {
                        if key_paths(pv, hp.hash@).len() > 0 {
                            assert(old_r.contains_hash(hp.hash@));
                            let i = choose|i: int|
                                0 <= i < old_r.groups@.len() && old_r.groups@[i].hash@
                                    == hp.hash@;
                            assert(false);
                        }
                    }
                    assert(views(g.paths@) =~= Seq::<Seq<u8>>::empty().push(hp.path@));
                    assert(key_paths(pv, hp.hash@) =~= Seq::<Seq<u8>>::empty());
                    assert forall|k: int| 0 <= k < r.groups@.len() implies #[trigger] r.group_paths(
                        k,
                    ) == key_paths(pv2, r.groups@[k].hash@) by {
                        lemma_key_paths_push(pv, (hp.hash@, hp.path@), r.groups@[k].hash@);
                        if k < old_groups.len() {
                            assert(old_r.group_paths(k) == key_paths(pv, old_groups[k].hash@));
                            assert(r.groups@[k] == old_groups[k]);
                            assert(r.groups@[k].hash@ != hp.hash@);
                        } else {
                            assert(r.groups@[k] == g);
                        }
                    }
                    assert forall|h: Seq<u8>| key_paths(pv2, h).len() > 0 implies r.contains_hash(
                        h,
                    ) by {
                        lemma_key_paths_push(pv, (hp.hash@, hp.path@), h);
                        if h == hp.hash@ {
                            assert(r.groups@[r.groups@.len() - 1].hash@ == h);
                        } else {
                            assert(key_paths(pv, h).len() > 0);
                            assert(old_r.contains_hash(h));
                            let i = choose|i: int|
                                0 <= i < old_groups.len() && old_groups[i].hash@ == h;
                            assert(r.groups@[i].hash@ == h);
                        }
                    }
                }
            },
        }
        n += 1;
    }
    proof {
        assert(pairs@.take(n as int) =~= pairs@);
    }
    r
}

} // verus!
