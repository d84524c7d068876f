use vstd::prelude::*;

use crate::bytes::clone_bytes;
use crate::bytes::views;
use crate::groups::entry_view;
use crate::groups::entry_views;
use crate::groups::entry_kept;
use crate::groups::size_pred;
use crate::groups::size_paths;
use crate::groups::pair_fst;
use crate::groups::FileEntry;
use crate::groups::SizeGroup;
use crate::groups::SizeGroups;
use crate::groups::group_pairs;
use crate::groups::hashed_pair_view;
use crate::groups::key_paths;
use crate::groups::pair_views;
use crate::groups::HashGroup;
use crate::groups::HashGroups;
use crate::groups::HashedPath;
use crate::hashing::blake3_hash;
use crate::hashing::blake3_keyed_hash;
use crate::hashing::blake3_keyed_of;
use crate::hashing::blake3_of;
use crate::seqs::lemma_filter_push;
use crate::seqs::lemma_filter_two_sources;
use crate::seqs::lemma_map_values_push;

verus! {

proof fn lemma_size_paths_push(
    entries: Seq<(Seq<u8>, u64)>,
    x: (Seq<u8>, u64),
    include_empty: bool,
    s: u64,
)
    ensures
        entry_kept(x, include_empty) && x.1 == s ==> size_paths(entries.push(x), include_empty, s)
            == size_paths(entries, include_empty, s).push(x.0),
        !(entry_kept(x, include_empty) && x.1 == s) ==> size_paths(
            entries.push(x),
            include_empty,
            s,
        ) == size_paths(entries, include_empty, s),
{
    lemma_filter_push(entries, size_pred(include_empty, s), x);
    if entry_kept(x, include_empty) && x.1 == s {
        lemma_map_values_push(entries.filter(size_pred(include_empty, s)), pair_fst(), x);
    }
}

fn find_size_group(groups: &Vec<SizeGroup>, s: u64) -> (r: Option<usize>)
    ensures
        match r {
            Some(k) => k < groups@.len() && groups@[k as int].size == s,
            None => forall|k: int| 0 <= k < groups@.len() ==> groups@[k].size != s,
        },
{
    let mut k: usize = 0;
    while k < groups.len()
        invariant
            k <= groups@.len(),
            forall|k2: int| 0 <= k2 < k ==> groups@[k2].size != s,
        decreases groups@.len() - k,
    {
        if groups[k].size == s {
            return Some(k);
        }
        k += 1;
    }
    None
}

/// The first pass: collate the scanned files by size.
///
/// Every kept entry's path lands in exactly the group of its size; an entry
/// of length zero is kept only when `include_empty` is set. Each size seen
/// gets exactly one group, holding precisely the kept paths of that size in
/// input order.
pub fn pass_one(entries: &Vec<FileEntry>, include_empty: bool) -> (r: SizeGroups)
    ensures
        r.wf(),
        forall|k: int|
            0 <= k < r.groups@.len() ==> #[trigger] r.group_paths(k) == size_paths(
                entry_views(entries@),
                include_empty,
                r.groups@[k].size,
            ),
        forall|s: u64|
            size_paths(entry_views(entries@), include_empty, s).len() > 0 ==> r.contains_size(s),
{
    let mut r = SizeGroups { groups: Vec::new() };
    let mut n: usize = 0;
    proof {
        assert(entry_views(entries@.take(0)) =~= Seq::<(Seq<u8>, u64)>::empty());
    }
    while n < entries.len()
        invariant
            n <= entries@.len(),
            r.wf(),
            forall|k: int|
                0 <= k < r.groups@.len() ==> #[trigger] r.group_paths(k) == size_paths(
                    entry_views(entries@.take(n as int)),
                    include_empty,
                    r.groups@[k].size,
                ),
            forall|s: u64|
                size_paths(entry_views(entries@.take(n as int)), include_empty, s).len() > 0
                    ==> r.contains_size(s),
        decreases entries@.len() - n,
    {
        let ghost ev = entry_views(entries@.take(n as int));
        let ghost ev2 = entry_views(entries@.take(n + 1));
        let e = &entries[n];
        proof {
            assert(entries@.take(n + 1) =~= entries@.take(n as int).push(entries@[n as int]));
            lemma_map_values_push(entries@.take(n as int), entry_view(), entries@[n as int]);
            assert(ev2 == ev.push((e.path@, e.size)));
        }
        if e.size > 0 || include_empty {
            let path_copy = clone_bytes(&e.path);
            match find_size_group(&r.groups, e.size) {
                Some(ki) => {
                    let ghost old_r = r;
                    let ghost old_groups = r.groups@;
                    let mut g = r.groups.remove(ki);
                    g.paths.push(path_copy);
                    r.groups.insert(ki, g);
                    proof {
                        assert(r.groups@ =~= old_groups.update(ki as int, g));
                        assert(views(g.paths@) =~= views(old_groups[ki as int].paths@).push(
                            e.path@,
                        ));
                        assert forall|k: int| 0 <= k < r.groups@.len() implies #[trigger] r
                            .group_paths(k) == size_paths(ev2, include_empty, r.groups@[k].size) by {
                            assert(old_r.group_paths(k) == size_paths(
                                ev,
                                include_empty,
                                old_groups[k].size,
                            ));
                            lemma_size_paths_push(
                                ev,
                                (e.path@, e.size),
                                include_empty,
                                r.groups@[k].size,
                            );
                            if k == ki {
                                assert(r.groups@[k] == g);
                                assert(r.groups@[k].size == e.size);
                            } else {
                                assert(r.groups@[k] == old_groups[k]);
                                assert(r.groups@[k].size != e.size) by {
                                    assert(old_groups[ki as int].size == e.size);
                                }
                            }
                        }
                        assert forall|s: u64|
                            size_paths(ev2, include_empty, s).len() > 0 implies r.contains_size(
                            s,
                        ) by {
                            lemma_size_paths_push(ev, (e.path@, e.size), include_empty, s);
                            if s == e.size {
                                assert(r.groups@[ki as int].size == s);
                            } else {
                                assert(size_paths(ev, include_empty, s).len() > 0);
                                assert(old_r.contains_size(s));
                                let i = choose|i: int|
                                    0 <= i < old_groups.len() && old_groups[i].size == s;
                                assert(r.groups@[i].size == s);
                            }
                        }
                    }
                },
                None => {
                    let ghost old_r = r;
                    let ghost old_groups = r.groups@;
                    let g = SizeGroup { size: e.size, paths: vec![path_copy] };
                    r.groups.push(g);
                    proof {
                        assert(size_paths(ev, include_empty, e.size).len() == 0) by {
                            if size_paths(ev, include_empty, e.size).len() > 0 {
                                assert(old_r.contains_size(e.size));
                                let i = choose|i: int|
                                    0 <= i < old_r.groups@.len() && old_r.groups@[i].size
                                        == e.size;
                                assert(false);
                            }
                        }
                        assert(views(g.paths@) =~= Seq::<Seq<u8>>::empty().push(e.path@));
                        assert(size_paths(ev, include_empty, e.size) =~= Seq::<Seq<u8>>::empty());
                        assert forall|k: int| 0 <= k < r.groups@.len() implies #[trigger] r
                            .group_paths(k) == size_paths(ev2, include_empty, r.groups@[k].size) by {
                            lemma_size_paths_push(
                                ev,
                                (e.path@, e.size),
                                include_empty,
                                r.groups@[k].size,
                            );
                            if k < old_groups.len() {
                                assert(old_r.group_paths(k) == size_paths(
                                    ev,
                                    include_empty,
                                    old_groups[k].size,
                                ));
                                assert(r.groups@[k] == old_groups[k]);
                                assert(r.groups@[k].size != e.size);
                            } else {
                                assert(r.groups@[k] == g);
                            }
                        }
                        assert forall|s: u64|
                            size_paths(ev2, include_empty, s).len() > 0 implies r.contains_size(
                            s,
                        ) by {
                            lemma_size_paths_push(ev, (e.path@, e.size), include_empty, s);
                            if s == e.size {
                                assert(r.groups@[r.groups@.len() - 1].size == s);
                            } else {
                                assert(size_paths(ev, include_empty, s).len() > 0);
                                assert(old_r.contains_size(s));
                                let i = choose|i: int|
                                    0 <= i < old_groups.len() && old_groups[i].size == s;
                                assert(r.groups@[i].size == s);
                            }
                        }
                    }
                },
            }
        } else {
            proof {
                assert forall|s: u64|
                    size_paths(ev2, include_empty, s) == size_paths(ev, include_empty, s) by {
                    lemma_size_paths_push(ev, (e.path@, e.size), include_empty, s);
                }
            }
        }
        n += 1;
    }
    proof {
        assert(entries@.take(n as int) =~= entries@);
    }
    r
}

/// Whether a group still matters after the size pass: it has at least two
/// members.
pub open spec fn multi_group() -> spec_fn(SizeGroup) -> bool {
    |gr: SizeGroup| gr.paths@.len() >= 2
}

/// Drop every size group with fewer than two members; only the remaining
/// groups can hold duplicates.
pub fn drop_singletons(g: SizeGroups) -> (r: SizeGroups)
    ensures
        r.groups@ == g.groups@.filter(multi_group()),
        g.wf() ==> r.wf(),
{
    let ghost orig = g.groups@;
    let mut rem = g.groups;
    let total: usize = rem.len();
    let mut out: Vec<SizeGroup> = Vec::new();
    let mut n: usize = 0;
    proof {
        assert(orig.take(0) =~= Seq::<SizeGroup>::empty());
        assert(orig.skip(0) =~= orig);
        assert(Seq::<SizeGroup>::empty().filter(multi_group()).len() == 0) by {
            reveal(Seq::filter);
        }
        assert(out@ =~= orig.take(0).filter(multi_group()));
    }
    while rem.len() > 0
        invariant
            n + rem@.len() == orig.len(),
            total == orig.len(),
            rem@ == orig.skip(n as int),
            out@ == orig.take(n as int).filter(multi_group()),
        decreases rem@.len(),
    {
        let gr = rem.remove(0);
        proof {
            assert(gr == orig[n as int]);
            assert(rem@ =~= orig.skip(n + 1));
            assert(orig.take(n + 1) =~= orig.take(n as int).push(orig[n as int]));
            lemma_filter_push(orig.take(n as int), multi_group(), orig[n as int]);
        }
        if gr.paths.len() >= 2 {
            out.push(gr);
        }
        n += 1;
    }
    proof {
        assert(orig.take(n as int) =~= orig);
    }
    let r = SizeGroups { groups: out };
    proof {
        if g.wf() {
            let kept_groups = orig.filter(multi_group());
            assert forall|i: int, j: int| 0 <= i < j < kept_groups.len() implies kept_groups[i].size
                != kept_groups[j].size by {
                let (si, sj) = lemma_filter_two_sources(orig, multi_group(), i, j);
                assert(orig[si].size != orig[sj].size);
            }
            assert forall|i: int| 0 <= i < kept_groups.len() implies kept_groups[i].paths@.len()
                >= 1 by {
                orig.lemma_filter_pred(multi_group(), i);
            }
        }
    }
    r
}

/// The paths that the fingerprint pass must read: every member of every
/// group handed over, flattened in group order.
pub open spec fn flatten_paths(gs: Seq<SizeGroup>) -> Seq<Seq<u8>>
    decreases gs.len(),
{
    if gs.len() == 0 {
        Seq::empty()
    } else {
        flatten_paths(gs.drop_last()) + views(gs.last().paths@)
    }
}

pub fn prehash_targets(g: &SizeGroups) -> (r: Vec<Vec<u8>>)
    ensures
        views(r@) == flatten_paths(g.groups@),
{
    let mut r: Vec<Vec<u8>> = Vec::new();
    let mut k: usize = 0;
    proof {
        assert(views(r@) =~= Seq::<Seq<u8>>::empty());
        assert(g.groups@.take(0) =~= Seq::<SizeGroup>::empty());
    }
    while k < g.groups.len()
        invariant
            k <= g.groups@.len(),
            views(r@) == flatten_paths(g.groups@.take(k as int)),
        decreases g.groups@.len() - k,
    {
        let gr = &g.groups[k];
        let mut j: usize = 0;
        proof {
            assert(views(gr.paths@).take(0) =~= Seq::<Seq<u8>>::empty());
            assert(views(r@) + views(gr.paths@).take(0) =~= views(r@));
        }
        while j < gr.paths.len()
            invariant
                j <= gr.paths@.len(),
                gr == g.groups@[k as int],
                k < g.groups@.len(),
                views(r@) == flatten_paths(g.groups@.take(k as int)) + views(gr.paths@).take(
                    j as int,
                ),
            decreases gr.paths@.len() - j,
        {
            r.push(clone_bytes(&gr.paths[j]));
            proof {
                assert(views(gr.paths@).take(j + 1) =~= views(gr.paths@).take(j as int).push(
                    gr.paths@[j as int]@,
                ));
                assert(views(r@) =~= (flatten_paths(g.groups@.take(k as int)) + views(
                    gr.paths@,
                ).take(j as int)).push(gr.paths@[j as int]@));
                assert((flatten_paths(g.groups@.take(k as int)) + views(gr.paths@).take(j as int)).push(
                    gr.paths@[j as int]@,
                ) =~= flatten_paths(g.groups@.take(k as int)) + views(gr.paths@).take(j + 1));
            }
            j += 1;
        }
        proof {
            assert(views(gr.paths@).take(gr.paths@.len() as int) =~= views(gr.paths@));
            assert(g.groups@.take(k + 1).drop_last() =~= g.groups@.take(k as int));
            assert(g.groups@.take(k + 1).last() == g.groups@[k as int]);
            assert(flatten_paths(g.groups@.take(k + 1)) == flatten_paths(g.groups@.take(k as int))
                + views(g.groups@[k as int].paths@));
        }
        k += 1;
    }
    proof {
        assert(g.groups@.take(k as int) =~= g.groups@);
    }
    r
}

/// What the fingerprint pass learned about one file: its path, and the
/// leading bytes that could be read from it, or nothing when reading
/// failed and the file leaves the run.
pub struct PrefixRead {
    pub path: Vec<u8>,
    pub bytes: Option<Vec<u8>>,
}

impl View for PrefixRead {
    type V = (Seq<u8>, Option<Seq<u8>>);

    open spec fn view(&self) -> (Seq<u8>, Option<Seq<u8>>) {
        (
            self.path@,
            match self.bytes {
                Some(b) => Some(b@),
                None => None,
            },
        )
    }
}

pub open spec fn prefix_read_view() -> spec_fn(PrefixRead) -> (Seq<u8>, Option<Seq<u8>>) {
    |r: PrefixRead| r@
}

pub open spec fn read_views(s: Seq<PrefixRead>) -> Seq<(Seq<u8>, Option<Seq<u8>>)> {
    s.map_values(prefix_read_view())
}

pub open spec fn read_ok() -> spec_fn((Seq<u8>, Option<Seq<u8>>)) -> bool {
    |r: (Seq<u8>, Option<Seq<u8>>)| r.1 is Some
}

pub open spec fn prehash_pair_fn() -> spec_fn((Seq<u8>, Option<Seq<u8>>)) -> (Seq<u8>, Seq<u8>) {
    |r: (Seq<u8>, Option<Seq<u8>>)| (blake3_of(r.1.unwrap()), r.0)
}

/// The fingerprint each readable file got, paired with its path, in input
/// order; unreadable files are dropped.
pub open spec fn prehash_pairs(reads: Seq<(Seq<u8>, Option<Seq<u8>>)>) -> Seq<(Seq<u8>, Seq<u8>)> {
    reads.filter(read_ok()).map_values(prehash_pair_fn())
}

/// The second pass: fingerprint the leading bytes of each candidate file
/// and collate the files by fingerprint.
///
/// A file whose bytes could not be read is dropped from the run; every
/// other file lands in exactly the group of its fingerprint.
pub fn pass_two(reads: &Vec<PrefixRead>) -> (r: HashGroups)
    ensures
        r.wf(),
        forall|k: int|
            0 <= k < r.groups@.len() ==> #[trigger] r.group_paths(k) == key_paths(
                prehash_pairs(read_views(reads@)),
                r.groups@[k].hash@,
            ),
        forall|h: Seq<u8>|
            key_paths(prehash_pairs(read_views(reads@)), h).len() > 0 ==> r.contains_hash(h),
{
    let mut pairs: Vec<HashedPath> = Vec::new();
    let mut n: usize = 0;
    proof {
        assert(read_views(reads@.take(0)) =~= Seq::<(Seq<u8>, Option<Seq<u8>>)>::empty());
        assert(read_views(reads@.take(0)).filter(read_ok()) == Seq::<(
            Seq<u8>,
            Option<Seq<u8>>,
        )>::empty()) by {
            reveal(Seq::filter);
        }
        assert(pair_views(pairs@) =~= prehash_pairs(read_views(reads@.take(0))));
    }
    while n < reads.len()
        invariant
            n <= reads@.len(),
            pair_views(pairs@) == prehash_pairs(read_views(reads@.take(n as int))),
        decreases reads@.len() - n,
    {
        let ghost rv = read_views(reads@.take(n as int));
        let ghost rv2 = read_views(reads@.take(n + 1));
        let rd = &reads[n];
        proof {
            assert(reads@.take(n + 1) =~= reads@.take(n as int).push(reads@[n as int]));
            lemma_map_values_push(reads@.take(n as int), prefix_read_view(), reads@[n as int]);
            assert(rv2 == rv.push(rd@));
            lemma_filter_push(rv, read_ok(), rd@);
        }
        match &rd.bytes {
            Some(b) => {
                let h = blake3_hash(b);
                let p = clone_bytes(&rd.path);
                let ghost old_pairs = pairs@;
                pairs.push(HashedPath { hash: h, path: p });
                proof {
                    lemma_map_values_push(rv.filter(read_ok()), prehash_pair_fn(), rd@);
                    lemma_map_values_push(old_pairs, hashed_pair_view(), pairs@[pairs@.len() - 1]);
                    assert(pairs@ =~= old_pairs.push(pairs@[pairs@.len() - 1]));
                    assert(prehash_pair_fn()(rd@) == (blake3_of(b@), rd.path@));
                    assert(pair_views(pairs@) == prehash_pairs(rv2));
                }
            },
            None => {
                proof {
                    assert(!read_ok()(rd@));
                    assert(prehash_pairs(rv2) == prehash_pairs(rv));
                }
            },
        }
        n += 1;
    }
    proof {
        assert(reads@.take(n as int) =~= reads@);
    }
    group_pairs(&pairs)
}

/// One file the full pass must finish: the fingerprint its group shares,
/// and the path whose remaining bytes are to be hashed under that key.
pub struct FullHashTask {
    pub prehash: Vec<u8>,
    pub path: Vec<u8>,
}

impl View for FullHashTask {
    type V = (Seq<u8>, Seq<u8>);

    open spec fn view(&self) -> (Seq<u8>, Seq<u8>) {
        (self.prehash@, self.path@)
    }
}

pub open spec fn task_view() -> spec_fn(FullHashTask) -> (Seq<u8>, Seq<u8>) {
    |t: FullHashTask| t@
}

pub open spec fn task_views(s: Seq<FullHashTask>) -> Seq<(Seq<u8>, Seq<u8>)> {
    s.map_values(task_view())
}

pub open spec fn group_tasks(gr: HashGroup) -> Seq<(Seq<u8>, Seq<u8>)> {
    if gr.paths@.len() >= 2 {
        views(gr.paths@).map_values(|p: Seq<u8>| (gr.hash@, p))
    } else {
        Seq::empty()
    }
}

/// Every member of every fingerprint group of two or more, paired with the
/// group's fingerprint, flattened in group order.
pub open spec fn flatten_tasks(gs: Seq<HashGroup>) -> Seq<(Seq<u8>, Seq<u8>)>
    decreases gs.len(),
{
    if gs.len() == 0 {
        Seq::empty()
    } else {
        flatten_tasks(gs.drop_last()) + group_tasks(gs.last())
    }
}

/// The files the full pass must read: members of fingerprint groups that
/// still have at least two members, each carrying its group's fingerprint
/// as the key for the keyed tail hash.
pub fn full_hash_targets(g: &HashGroups) -> (r: Vec<FullHashTask>)
    ensures
        task_views(r@) == flatten_tasks(g.groups@),
{
    let mut r: Vec<FullHashTask> = Vec::new();
    let mut k: usize = 0;
    proof {
        assert(task_views(r@) =~= Seq::<(Seq<u8>, Seq<u8>)>::empty());
        assert(g.groups@.take(0) =~= Seq::<HashGroup>::empty());
    }
    while k < g.groups.len()
        invariant
            k <= g.groups@.len(),
            task_views(r@) == flatten_tasks(g.groups@.take(k as int)),
        decreases g.groups@.len() - k,
    {
        let gr = &g.groups[k];
        if gr.paths.len() >= 2 {
            let mut j: usize = 0;
            proof {
                assert(group_tasks(g.groups@[k as int]).take(0) =~= Seq::<(
                    Seq<u8>,
                    Seq<u8>,
                )>::empty());
                assert(task_views(r@) + group_tasks(g.groups@[k as int]).take(0) =~= task_views(
                    r@,
                ));
            }
            while j < gr.paths.len()
                invariant
                    j <= gr.paths@.len(),
                    gr == g.groups@[k as int],
                    k < g.groups@.len(),
                    gr.paths@.len() >= 2,
                    task_views(r@) == flatten_tasks(g.groups@.take(k as int)) + group_tasks(
                        g.groups@[k as int],
                    ).take(j as int),
                decreases gr.paths@.len() - j,
            {
                let t = FullHashTask {
                    prehash: clone_bytes(&gr.hash),
                    path: clone_bytes(&gr.paths[j]),
                };
                r.push(t);
                proof {
                    let gts = group_tasks(g.groups@[k as int]);
                    assert(gts[j as int] == (gr.hash@, gr.paths@[j as int]@));
                    assert(gts.take(j + 1) =~= gts.take(j as int).push(gts[j as int]));
                    assert(task_views(r@) =~= (flatten_tasks(g.groups@.take(k as int)) + gts.take(
                        j as int,
                    )).push(gts[j as int]));
                    assert((flatten_tasks(g.groups@.take(k as int)) + gts.take(j as int)).push(
                        gts[j as int],
                    ) =~= flatten_tasks(g.groups@.take(k as int)) + gts.take(j + 1));
                }
                j += 1;
            }
            proof {
                let gts = group_tasks(g.groups@[k as int]);
                assert(gts.take(gts.len() as int) =~= gts);
            }
        } else {
            proof {
                assert(group_tasks(g.groups@[k as int]) =~= Seq::<(Seq<u8>, Seq<u8>)>::empty());
                assert(task_views(r@) + group_tasks(g.groups@[k as int]) =~= task_views(r@));
            }
        }
        proof {
            assert(g.groups@.take(k + 1).drop_last() =~= g.groups@.take(k as int));
            assert(g.groups@.take(k + 1).last() == g.groups@[k as int]);
            assert(flatten_tasks(g.groups@.take(k + 1)) == flatten_tasks(g.groups@.take(k as int))
                + group_tasks(g.groups@[k as int]));
        }
        k += 1;
    }
    proof {
        assert(g.groups@.take(k as int) =~= g.groups@);
    }
    r
}

/// What the full pass learned about one file: the fingerprint key it
/// carries, its path, and the bytes past the fingerprinted prefix, or
/// nothing when reading failed and the file leaves the run. A file no
/// longer than the prefix carries an empty byte vector.
pub struct TailRead {
    pub prehash: Vec<u8>,
    pub path: Vec<u8>,
    pub bytes: Option<Vec<u8>>,
}

impl View for TailRead {
    type V = (Seq<u8>, Seq<u8>, Option<Seq<u8>>);

    open spec fn view(&self) -> (Seq<u8>, Seq<u8>, Option<Seq<u8>>) {
        (
            self.prehash@,
            self.path@,
            match self.bytes {
                Some(b) => Some(b@),
                None => None,
            },
        )
    }
}

pub open spec fn tail_read_view() -> spec_fn(TailRead) -> (Seq<u8>, Seq<u8>, Option<Seq<u8>>) {
    |r: TailRead| r@
}

pub open spec fn tail_views(s: Seq<TailRead>) -> Seq<(Seq<u8>, Seq<u8>, Option<Seq<u8>>)> {
    s.map_values(tail_read_view())
}

pub open spec fn tail_ok() -> spec_fn((Seq<u8>, Seq<u8>, Option<Seq<u8>>)) -> bool {
    |r: (Seq<u8>, Seq<u8>, Option<Seq<u8>>)| r.2 is Some
}

pub open spec fn fullhash_pair_fn() -> spec_fn((Seq<u8>, Seq<u8>, Option<Seq<u8>>)) -> (
    Seq<u8>,
    Seq<u8>,
) {
    |r: (Seq<u8>, Seq<u8>, Option<Seq<u8>>)| (blake3_keyed_of(r.0, r.2.unwrap()), r.1)
}

/// The full content hash each readable file got, paired with its path, in
/// input order; unreadable files are dropped.
pub open spec fn fullhash_pairs(reads: Seq<(Seq<u8>, Seq<u8>, Option<Seq<u8>>)>) -> Seq<
    (Seq<u8>, Seq<u8>),
> {
    reads.filter(tail_ok()).map_values(fullhash_pair_fn())
}

/// The third pass: hash each candidate file's remaining bytes under its
/// fingerprint as key, and collate the files by the resulting value.
///
/// Keying the tail hash by the fingerprint chains the two hashes: the
/// collated value identifies the whole content, not the tail alone. A file
/// whose bytes could not be read is dropped from the run; every other file
/// lands in exactly the group of its keyed hash.
pub fn pass_three(reads: &Vec<TailRead>) -> (r: HashGroups)
    requires
        forall|k: int| 0 <= k < reads@.len() ==> (#[trigger] reads@[k].prehash@).len() == 32,
    ensures
        r.wf(),
        forall|k: int|
            0 <= k < r.groups@.len() ==> #[trigger] r.group_paths(k) == key_paths(
                fullhash_pairs(tail_views(reads@)),
                r.groups@[k].hash@,
            ),
        forall|h: Seq<u8>|
            key_paths(fullhash_pairs(tail_views(reads@)), h).len() > 0 ==> r.contains_hash(h),
{
    let mut pairs: Vec<HashedPath> = Vec::new();
    let mut n: usize = 0;
    proof {
        assert(tail_views(reads@.take(0)) =~= Seq::<(Seq<u8>, Seq<u8>, Option<Seq<u8>>)>::empty());
        assert(tail_views(reads@.take(0)).filter(tail_ok()) == Seq::<(
            Seq<u8>,
            Seq<u8>,
            Option<Seq<u8>>,
        )>::empty()) by {
            reveal(Seq::filter);
        }
        assert(pair_views(pairs@) =~= fullhash_pairs(tail_views(reads@.take(0))));
    }
    while n < reads.len()
        invariant
            n <= reads@.len(),
            forall|k: int| 0 <= k < reads@.len() ==> (#[trigger] reads@[k].prehash@).len() == 32,
            pair_views(pairs@) == fullhash_pairs(tail_views(reads@.take(n as int))),
        decreases reads@.len() - n,
    {
        let ghost rv = tail_views(reads@.take(n as int));
        let ghost rv2 = tail_views(reads@.take(n + 1));
        let rd = &reads[n];
        proof {
            assert(reads@.take(n + 1) =~= reads@.take(n as int).push(reads@[n as int]));
            lemma_map_values_push(reads@.take(n as int), tail_read_view(), reads@[n as int]);
            assert(rv2 == rv.push(rd@));
            lemma_filter_push(rv, tail_ok(), rd@);
        }
        match &rd.bytes {
            Some(b) => {
                let h = blake3_keyed_hash(&rd.prehash, b);
                let p = clone_bytes(&rd.path);
                let ghost old_pairs = pairs@;
                pairs.push(HashedPath { hash: h, path: p });
                proof {
                    lemma_map_values_push(rv.filter(tail_ok()), fullhash_pair_fn(), rd@);
                    lemma_map_values_push(old_pairs, hashed_pair_view(), pairs@[pairs@.len() - 1]);
                    assert(pairs@ =~= old_pairs.push(pairs@[pairs@.len() - 1]));
                    assert(fullhash_pair_fn()(rd@) == (blake3_keyed_of(rd.prehash@, b@), rd.path@));
                    assert(pair_views(pairs@) == fullhash_pairs(rv2));
                }
            },
            None => {
                proof {
                    assert(!tail_ok()(rd@));
                    assert(fullhash_pairs(rv2) == fullhash_pairs(rv));
                }
            },
        }
        n += 1;
    }
    proof {
        assert(reads@.take(n as int) =~= reads@);
    }
    group_pairs(&pairs)
}

} // verus!
