//! What the pipeline guarantees, proved once and for all.
//!
//! A run is modelled by the files it scans: each a path with the content
//! its reads reflect. The stages are stated with the same spec functions
//! the executable passes' contracts use — `size_paths` for the size
//! grouping and `key_paths` for the two hash groupings — applied to the
//! pairs a run produces when every candidate file is read intact.

use vstd::prelude::*;

use crate::groups::entry_kept;
use crate::groups::key_paths;
use crate::groups::key_pred;
use crate::groups::size_paths;
use crate::groups::size_pred;
use crate::hashing::blake3_keyed_of;
use crate::hashing::blake3_of;
use crate::hashing::PREHASH_SIZE;
use crate::passes::fullhash_pair_fn;
use crate::passes::fullhash_pairs;
use crate::passes::prehash_pair_fn;
use crate::passes::prehash_pairs;
use crate::passes::read_ok;
use crate::passes::tail_ok;
use crate::seqs::lemma_filter_all;
use crate::seqs::lemma_filter_at_most_one;
use crate::seqs::lemma_filter_congruence;
use crate::seqs::lemma_filter_filter;
use crate::seqs::lemma_filter_index;
use crate::seqs::lemma_filter_len_permutation;
use crate::seqs::lemma_filter_map_exchange;
use crate::seqs::lemma_filter_source_index;
use crate::seqs::lemma_filter_two_indices;
use crate::seqs::pred_and;

verus! {

/// A file as one run of the pipeline sees it: its path and its content at
/// scan time.
pub ghost struct FileModel {
    pub path: Seq<u8>,
    pub content: Seq<u8>,
}

/// How much of a content the fingerprint pass reads.
pub open spec fn prefix_len(c: Seq<u8>) -> int {
    if c.len() <= PREHASH_SIZE {
        c.len() as int
    } else {
        PREHASH_SIZE as int
    }
}

pub open spec fn file_prefix(c: Seq<u8>) -> Seq<u8> {
    c.take(prefix_len(c))
}

pub open spec fn file_tail(c: Seq<u8>) -> Seq<u8> {
    c.skip(prefix_len(c))
}

/// The fingerprint a content gets in the second pass.
pub open spec fn prehash_of(c: Seq<u8>) -> Seq<u8> {
    blake3_of(file_prefix(c))
}

/// The full, fingerprint-keyed hash a content gets in the third pass.
pub open spec fn fullhash_of(c: Seq<u8>) -> Seq<u8> {
    blake3_keyed_of(prehash_of(c), file_tail(c))
}

pub open spec fn model_entry() -> spec_fn(FileModel) -> (Seq<u8>, u64) {
    |f: FileModel| (f.path, f.content.len() as u64)
}

pub open spec fn entries_of(files: Seq<FileModel>) -> Seq<(Seq<u8>, u64)> {
    files.map_values(model_entry())
}

/// Every content length is representable as a 64-bit size.
pub open spec fn sizes_fit(files: Seq<FileModel>) -> bool {
    forall|i: int| 0 <= i < files.len() ==> (#[trigger] files[i]).content.len() <= u64::MAX
}

/// No two files share a path.
pub open spec fn paths_distinct(files: Seq<FileModel>) -> bool {
    forall|i: int, j: int| 0 <= i < j < files.len() ==> files[i].path != files[j].path
}

pub open spec fn kept_file(f: FileModel, include_empty: bool) -> bool {
    f.content.len() > 0 || include_empty
}

/// The paths of the kept files of size `s`, as the first pass groups them.
pub open spec fn size_class(files: Seq<FileModel>, include_empty: bool, s: u64) -> Seq<Seq<u8>> {
    size_paths(entries_of(files), include_empty, s)
}

/// Whether a file goes on to the fingerprint pass: it is kept, and its
/// size class has at least two members.
pub open spec fn survives_size_fn(files: Seq<FileModel>, include_empty: bool) -> spec_fn(
    FileModel,
) -> bool {
    |f: FileModel| kept_file(f, include_empty) && size_class(
        files,
        include_empty,
        f.content.len() as u64,
    ).len() >= 2
}

pub open spec fn prehash_pair_of() -> spec_fn(FileModel) -> (Seq<u8>, Seq<u8>) {
    |f: FileModel| (prehash_of(f.content), f.path)
}

/// The fingerprint pairs the second pass computes when every candidate
/// file is read intact.
pub open spec fn content_prefix_pairs(files: Seq<FileModel>, include_empty: bool) -> Seq<
    (Seq<u8>, Seq<u8>),
> {
    files.filter(survives_size_fn(files, include_empty)).map_values(prehash_pair_of())
}

/// The fingerprint group of value `h`.
pub open spec fn prehash_group_of(
    files: Seq<FileModel>,
    include_empty: bool,
    h: Seq<u8>,
) -> Seq<Seq<u8>> {
    key_paths(content_prefix_pairs(files, include_empty), h)
}

/// Whether a file goes on to the full pass: its fingerprint group has at
/// least two members.
pub open spec fn survives_prehash_fn(files: Seq<FileModel>, include_empty: bool) -> spec_fn(
    FileModel,
) -> bool {
    |f: FileModel| survives_size_fn(files, include_empty)(f) && prehash_group_of(
        files,
        include_empty,
        prehash_of(f.content),
    ).len() >= 2
}

pub open spec fn fullhash_pair_of() -> spec_fn(FileModel) -> (Seq<u8>, Seq<u8>) {
    |f: FileModel| (fullhash_of(f.content), f.path)
}

/// The full-hash pairs the third pass computes when every candidate file
/// is read intact.
pub open spec fn content_full_pairs(files: Seq<FileModel>, include_empty: bool) -> Seq<
    (Seq<u8>, Seq<u8>),
> {
    files.filter(survives_prehash_fn(files, include_empty)).map_values(fullhash_pair_of())
}

/// The final group of full-hash value `h`: a duplicate set when it has at
/// least two members.
pub open spec fn final_group(files: Seq<FileModel>, include_empty: bool, h: Seq<u8>) -> Seq<
    Seq<u8>,
> {
    key_paths(content_full_pairs(files, include_empty), h)
}

proof fn lemma_pair_in_final_group(files: Seq<FileModel>, include_empty: bool, i: int, j: int)
    requires
        0 <= i < j < files.len(),
        files[i].content == files[j].content,
        files[i].content.len() <= u64::MAX,
        kept_file(files[i], include_empty),
    ensures
        final_group(files, include_empty, fullhash_of(files[i].content)).contains(files[i].path),
        final_group(files, include_empty, fullhash_of(files[i].content)).contains(files[j].path),
        final_group(files, include_empty, fullhash_of(files[i].content)).len() >= 2,
{
    let e = include_empty;
    let c = files[i].content;
    let s = c.len() as u64;
    let ev = entries_of(files);
    assert(ev[i] == (files[i].path, s));
    assert(ev[j] == (files[j].path, s));
    assert(entry_kept((files[i].path, s), e)) by {
        assert(kept_file(files[i], e));
    }
    assert(size_pred(e, s)(ev[i]));
    assert(size_pred(e, s)(ev[j]));
    let (a1, b1) = lemma_filter_two_indices(ev, size_pred(e, s), i, j);
    assert(size_class(files, e, s).len() >= 2);
    let ps = survives_size_fn(files, e);
    assert(ps(files[i]));
    assert(ps(files[j]));
    let (a2, b2) = lemma_filter_two_indices(files, ps, i, j);
    let cand = files.filter(ps);
    let pp = content_prefix_pairs(files, e);
    let h1 = prehash_of(c);
    assert(pp[a2] == (h1, files[i].path));
    assert(pp[b2] == (h1, files[j].path));
    assert(key_pred(h1)(pp[a2]));
    assert(key_pred(h1)(pp[b2]));
    let (a3, b3) = lemma_filter_two_indices(pp, key_pred(h1), a2, b2);
    assert(prehash_group_of(files, e, h1).len() >= 2);
    let pf = survives_prehash_fn(files, e);
    assert(pf(files[i]));
    assert(pf(files[j]));
    let (a4, b4) = lemma_filter_two_indices(files, pf, i, j);
    let fp = content_full_pairs(files, e);
    let h2 = fullhash_of(c);
    assert(fp[a4] == (h2, files[i].path));
    assert(fp[b4] == (h2, files[j].path));
    assert(key_pred(h2)(fp[a4]));
    assert(key_pred(h2)(fp[b4]));
    let (a5, b5) = lemma_filter_two_indices(fp, key_pred(h2), a4, b4);
    let kp = final_group(files, e, h2);
    assert(kp[a5] == files[i].path);
    assert(kp[b5] == files[j].path);
    assert(kp.contains(files[i].path));
    assert(kp.contains(files[j].path));
    assert(kp.len() >= 2);
}

/// Files with byte-identical content always land in the same final group,
/// which is then a duplicate set; neither the order of the scan nor
/// anything about the other files can separate them.
pub proof fn lemma_identical_content_grouped(
    files: Seq<FileModel>,
    include_empty: bool,
    i: int,
    j: int,
)
    requires
        sizes_fit(files),
        0 <= i < files.len(),
        0 <= j < files.len(),
        i != j,
        files[i].content == files[j].content,
        kept_file(files[i], include_empty),
    ensures
        final_group(files, include_empty, fullhash_of(files[i].content)).contains(files[i].path),
        final_group(files, include_empty, fullhash_of(files[i].content)).contains(files[j].path),
        final_group(files, include_empty, fullhash_of(files[i].content)).len() >= 2,
{
    if i < j {
        lemma_pair_in_final_group(files, include_empty, i, j);
    } else {
        lemma_pair_in_final_group(files, include_empty, j, i);
    }
}

/// Every member of a final group is one of the files, with that very
/// full-hash value, and it survived all earlier passes.
pub proof fn lemma_final_group_member(
    files: Seq<FileModel>,
    include_empty: bool,
    h: Seq<u8>,
    p: Seq<u8>,
) -> (w: int)
    requires
        final_group(files, include_empty, h).contains(p),
    ensures
        0 <= w < files.len(),
        files[w].path == p,
        fullhash_of(files[w].content) == h,
        survives_prehash_fn(files, include_empty)(files[w]),
{
    let e = include_empty;
    let fp = content_full_pairs(files, e);
    let kp = final_group(files, e, h);
    let m = choose|m: int| 0 <= m < kp.len() && kp[m] == p;
    fp.lemma_filter_pred(key_pred(h), m);
    let q = lemma_filter_source_index(fp, key_pred(h), m);
    assert(fp[q] == (h, p)) by {
        assert(fp.filter(key_pred(h))[m].1 == p);
        assert(fp.filter(key_pred(h))[m].0 == h);
    }
    let w = lemma_filter_source_index(
        files,
        survives_prehash_fn(files, e),
        q,
    );
    assert(fp[q] == fullhash_pair_of()(files.filter(survives_prehash_fn(files, e))[q]));
    w
}

/// Files whose full hashes differ never share a final group.
pub proof fn lemma_distinct_fullhash_not_together(
    files: Seq<FileModel>,
    include_empty: bool,
    i: int,
    j: int,
    h: Seq<u8>,
)
    requires
        paths_distinct(files),
        0 <= i < files.len(),
        0 <= j < files.len(),
        i != j,
        fullhash_of(files[i].content) != fullhash_of(files[j].content),
    ensures
        !(final_group(files, include_empty, h).contains(files[i].path) && final_group(
            files,
            include_empty,
            h,
        ).contains(files[j].path)),
{
    let e = include_empty;
    if final_group(files, e, h).contains(files[i].path) && final_group(files, e, h).contains(
        files[j].path,
    ) {
        let wi = lemma_final_group_member(files, e, h, files[i].path);
        let wj = lemma_final_group_member(files, e, h, files[j].path);
        assert(wi == i) by {
            if wi != i {
                if wi < i {
                    assert(files[wi].path != files[i].path);
                } else {
                    assert(files[i].path != files[wi].path);
                }
            }
        }
        assert(wj == j) by {
            if wj != j {
                if wj < j {
                    assert(files[wj].path != files[j].path);
                } else {
                    assert(files[j].path != files[wj].path);
                }
            }
        }
        assert(false);
    }
}

/// Files that differ anywhere in their bytes never share a final group,
/// as long as the hashes involved do not collide: distinct prefixes must
/// fingerprint apart, and under one fingerprint key, distinct tails must
/// hash apart; a fingerprint collision must not be masked by a keyed-hash
/// coincidence either.
pub proof fn lemma_distinct_content_not_together(
    files: Seq<FileModel>,
    include_empty: bool,
    i: int,
    j: int,
    h: Seq<u8>,
)
    requires
        paths_distinct(files),
        0 <= i < files.len(),
        0 <= j < files.len(),
        i != j,
        files[i].content != files[j].content,
        file_prefix(files[i].content) != file_prefix(files[j].content) ==> prehash_of(
            files[i].content,
        ) != prehash_of(files[j].content),
        prehash_of(files[i].content) != prehash_of(files[j].content) ==> fullhash_of(
            files[i].content,
        ) != fullhash_of(files[j].content),
        (prehash_of(files[i].content) == prehash_of(files[j].content) && file_tail(
            files[i].content,
        ) != file_tail(files[j].content)) ==> fullhash_of(files[i].content) != fullhash_of(
            files[j].content,
        ),
    ensures
        !(final_group(files, include_empty, h).contains(files[i].path) && final_group(
            files,
            include_empty,
            h,
        ).contains(files[j].path)),
{
    let ci = files[i].content;
    let cj = files[j].content;
    if file_prefix(ci) == file_prefix(cj) {
        assert(file_tail(ci) != file_tail(cj)) by {
            assert(ci =~= file_prefix(ci) + file_tail(ci));
            assert(cj =~= file_prefix(cj) + file_tail(cj));
        }
        assert(prehash_of(ci) == prehash_of(cj));
    }
    assert(fullhash_of(ci) != fullhash_of(cj));
    lemma_distinct_fullhash_not_together(files, include_empty, i, j, h);
}

/// Files whose first `PREHASH_SIZE` bytes agree but whose contents differ
/// never share a final group, as long as the keyed tail hash does not
/// collide under their shared fingerprint: this is what keying the tail
/// hash by the fingerprint buys.
pub proof fn lemma_same_prefix_distinct_tail_not_together(
    files: Seq<FileModel>,
    include_empty: bool,
    i: int,
    j: int,
    h: Seq<u8>,
)
    requires
        paths_distinct(files),
        0 <= i < files.len(),
        0 <= j < files.len(),
        i != j,
        file_prefix(files[i].content) == file_prefix(files[j].content),
        files[i].content != files[j].content,
        file_tail(files[i].content) != file_tail(files[j].content) ==> blake3_keyed_of(
            prehash_of(files[i].content),
            file_tail(files[i].content),
        ) != blake3_keyed_of(prehash_of(files[j].content), file_tail(files[j].content)),
    ensures
        !(final_group(files, include_empty, h).contains(files[i].path) && final_group(
            files,
            include_empty,
            h,
        ).contains(files[j].path)),
{
    let ci = files[i].content;
    let cj = files[j].content;
    assert(file_tail(ci) != file_tail(cj)) by {
        assert(ci =~= file_prefix(ci) + file_tail(ci));
        assert(cj =~= file_prefix(cj) + file_tail(cj));
    }
    assert(prehash_of(ci) == prehash_of(cj));
    assert(fullhash_of(ci) != fullhash_of(cj));
    lemma_distinct_fullhash_not_together(files, include_empty, i, j, h);
}

/// A file whose size no other file shares never reaches any final group,
/// so it never appears in any output.
pub proof fn lemma_unique_size_never_reported(
    files: Seq<FileModel>,
    include_empty: bool,
    i: int,
    h: Seq<u8>,
)
    requires
        sizes_fit(files),
        paths_distinct(files),
        0 <= i < files.len(),
        forall|k: int|
            0 <= k < files.len() && k != i ==> (#[trigger] files[k]).content.len()
                != files[i].content.len(),
    ensures
        !final_group(files, include_empty, h).contains(files[i].path),
{
    let e = include_empty;
    if final_group(files, e, h).contains(files[i].path) {
        let w = lemma_final_group_member(files, e, h, files[i].path);
        assert(w == i) by {
            if w != i {
                if w < i {
                    assert(files[w].path != files[i].path);
                } else {
                    assert(files[i].path != files[w].path);
                }
            }
        }
        let s = files[i].content.len() as u64;
        assert(survives_size_fn(files, e)(files[i]));
        assert(size_class(files, e, s).len() >= 2);
        let ev = entries_of(files);
        assert forall|k: int| 0 <= k < ev.len() && size_pred(e, s)(ev[k]) implies k == i by {
            assert(ev[k] == (files[k].path, files[k].content.len() as u64));
            if k != i {
                assert(files[k].content.len() != files[i].content.len());
            }
        }
        lemma_filter_at_most_one(ev, size_pred(e, s), i);
        assert(false);
    }
}

/// The first-pass predicate, pulled back from entries to files.
pub open spec fn sized_pred(include_empty: bool, s: u64) -> spec_fn(FileModel) -> bool {
    |f: FileModel| size_pred(include_empty, s)(model_entry()(f))
}

/// Carrying a given fingerprint.
pub open spec fn prehash_key_pred(h: Seq<u8>) -> spec_fn(FileModel) -> bool {
    |f: FileModel| prehash_of(f.content) == h
}

/// Carrying a given full hash.
pub open spec fn fullhash_key_pred(h: Seq<u8>) -> spec_fn(FileModel) -> bool {
    |f: FileModel| fullhash_of(f.content) == h
}

proof fn lemma_size_class_len_permutation(a: Seq<FileModel>, b: Seq<FileModel>, e: bool, s: u64)
    requires
        a.to_multiset() == b.to_multiset(),
    ensures
        size_class(a, e, s).len() == size_class(b, e, s).len(),
{
    assert(forall|x: FileModel| #[trigger] sized_pred(e, s)(x) == size_pred(e, s)(
        model_entry()(x),
    ));
    lemma_filter_map_exchange(a, model_entry(), size_pred(e, s), sized_pred(e, s));
    lemma_filter_map_exchange(b, model_entry(), size_pred(e, s), sized_pred(e, s));
    lemma_filter_len_permutation(a, b, sized_pred(e, s));
}

proof fn lemma_survives_size_pointwise(a: Seq<FileModel>, b: Seq<FileModel>, e: bool)
    requires
        a.to_multiset() == b.to_multiset(),
    ensures
        forall|f: FileModel| #[trigger] survives_size_fn(a, e)(f) == survives_size_fn(b, e)(f),
{
    assert forall|f: FileModel| #[trigger] survives_size_fn(a, e)(f) == survives_size_fn(b, e)(
        f,
    ) by {
        lemma_size_class_len_permutation(a, b, e, f.content.len() as u64);
    }
}

proof fn lemma_prehash_group_len_permutation(
    a: Seq<FileModel>,
    b: Seq<FileModel>,
    e: bool,
    h: Seq<u8>,
)
    requires
        a.to_multiset() == b.to_multiset(),
    ensures
        prehash_group_of(a, e, h).len() == prehash_group_of(b, e, h).len(),
{
    let pa = pred_and(survives_size_fn(a, e), prehash_key_pred(h));
    let pb = pred_and(survives_size_fn(b, e), prehash_key_pred(h));
    assert(forall|f: FileModel| #[trigger] prehash_key_pred(h)(f) == key_pred(h)(
        prehash_pair_of()(f),
    ));
    lemma_filter_map_exchange(
        a.filter(survives_size_fn(a, e)),
        prehash_pair_of(),
        key_pred(h),
        prehash_key_pred(h),
    );
    lemma_filter_filter(a, survives_size_fn(a, e), prehash_key_pred(h));
    lemma_filter_map_exchange(
        b.filter(survives_size_fn(b, e)),
        prehash_pair_of(),
        key_pred(h),
        prehash_key_pred(h),
    );
    lemma_filter_filter(b, survives_size_fn(b, e), prehash_key_pred(h));
    lemma_survives_size_pointwise(a, b, e);
    assert(forall|k: int| 0 <= k < b.len() ==> pa(#[trigger] b[k]) == pb(b[k]));
    lemma_filter_congruence(b, pa, pb);
    lemma_filter_len_permutation(a, b, pa);
}

proof fn lemma_survives_prehash_pointwise(a: Seq<FileModel>, b: Seq<FileModel>, e: bool)
    requires
        a.to_multiset() == b.to_multiset(),
    ensures
        forall|f: FileModel| #[trigger] survives_prehash_fn(a, e)(f) == survives_prehash_fn(b, e)(
            f,
        ),
{
    lemma_survives_size_pointwise(a, b, e);
    assert forall|f: FileModel| #[trigger] survives_prehash_fn(a, e)(f) == survives_prehash_fn(
        b,
        e,
    )(f) by {
        lemma_prehash_group_len_permutation(a, b, e, prehash_of(f.content));
    }
}

proof fn lemma_final_group_transfer(
    a: Seq<FileModel>,
    b: Seq<FileModel>,
    e: bool,
    h: Seq<u8>,
    p: Seq<u8>,
)
    requires
        a.to_multiset() == b.to_multiset(),
        final_group(a, e, h).contains(p),
    ensures
        final_group(b, e, h).contains(p),
{
    broadcast use vstd::seq_lib::group_to_multiset_ensures;

    let w = lemma_final_group_member(a, e, h, p);
    assert(a.contains(a[w]));
    assert(b.to_multiset().count(a[w]) > 0);
    assert(b.contains(a[w]));
    let wb = choose|k: int| 0 <= k < b.len() && b[k] == a[w];
    lemma_survives_prehash_pointwise(a, b, e);
    assert(survives_prehash_fn(b, e)(b[wb]));
    let r1 = lemma_filter_index(b, survives_prehash_fn(b, e), wb);
    let fp_b = content_full_pairs(b, e);
    assert(fp_b[r1] == (h, p));
    assert(key_pred(h)(fp_b[r1]));
    let r2 = lemma_filter_index(fp_b, key_pred(h), r1);
    assert(final_group(b, e, h)[r2] == p);
    assert(final_group(b, e, h).contains(p));
}

proof fn lemma_final_group_len_permutation(
    a: Seq<FileModel>,
    b: Seq<FileModel>,
    e: bool,
    h: Seq<u8>,
)
    requires
        a.to_multiset() == b.to_multiset(),
    ensures
        final_group(a, e, h).len() == final_group(b, e, h).len(),
{
    let pa = pred_and(survives_prehash_fn(a, e), fullhash_key_pred(h));
    let pb = pred_and(survives_prehash_fn(b, e), fullhash_key_pred(h));
    assert(forall|f: FileModel| #[trigger] fullhash_key_pred(h)(f) == key_pred(h)(
        fullhash_pair_of()(f),
    ));
    lemma_filter_map_exchange(
        a.filter(survives_prehash_fn(a, e)),
        fullhash_pair_of(),
        key_pred(h),
        fullhash_key_pred(h),
    );
    lemma_filter_filter(a, survives_prehash_fn(a, e), fullhash_key_pred(h));
    lemma_filter_map_exchange(
        b.filter(survives_prehash_fn(b, e)),
        fullhash_pair_of(),
        key_pred(h),
        fullhash_key_pred(h),
    );
    lemma_filter_filter(b, survives_prehash_fn(b, e), fullhash_key_pred(h));
    lemma_survives_prehash_pointwise(a, b, e);
    assert(forall|k: int| 0 <= k < b.len() ==> pa(#[trigger] b[k]) == pb(b[k]));
    lemma_filter_congruence(b, pa, pb);
    lemma_filter_len_permutation(a, b, pa);
}

/// Two scans that find the same files, in whatever order, report the same
/// duplicate sets: every final group holds the same paths, and is a
/// duplicate set in one run exactly when it is in the other. A rerun on
/// an unchanged tree is the special case of equal scans.
pub proof fn lemma_final_groups_order_independent(
    a: Seq<FileModel>,
    b: Seq<FileModel>,
    include_empty: bool,
    h: Seq<u8>,
    p: Seq<u8>,
)
    requires
        a.to_multiset() == b.to_multiset(),
    ensures
        final_group(a, include_empty, h).contains(p) == final_group(b, include_empty, h).contains(
            p,
        ),
        final_group(a, include_empty, h).len() == final_group(b, include_empty, h).len(),
{
    if final_group(a, include_empty, h).contains(p) {
        lemma_final_group_transfer(a, b, include_empty, h, p);
    }
    if final_group(b, include_empty, h).contains(p) {
        lemma_final_group_transfer(b, a, include_empty, h, p);
    }
    lemma_final_group_len_permutation(a, b, include_empty, h);
}

/// A fingerprint pass whose reads all succeed and hand back exactly the
/// leading bytes of the candidates' contents computes exactly the model's
/// fingerprint pairs; the groups its contract describes are then the
/// model's fingerprint groups.
pub proof fn lemma_intact_prefix_reads(
    reads: Seq<(Seq<u8>, Option<Seq<u8>>)>,
    cand: Seq<FileModel>,
)
    requires
        reads.len() == cand.len(),
        forall|k: int|
            0 <= k < reads.len() ==> #[trigger] reads[k] == (
                cand[k].path,
                Some(file_prefix(cand[k].content)),
            ),
    ensures
        prehash_pairs(reads) == cand.map_values(prehash_pair_of()),
{
    assert forall|k: int| 0 <= k < reads.len() implies read_ok()(#[trigger] reads[k]) by {
        assert(reads[k].1 is Some);
    }
    lemma_filter_all(reads, read_ok());
    assert(reads.map_values(prehash_pair_fn()) =~= cand.map_values(prehash_pair_of()));
}

/// A full pass whose reads all succeed, each carrying its file's
/// fingerprint as key and handing back exactly the bytes past the prefix,
/// computes exactly the model's full-hash pairs.
pub proof fn lemma_intact_tail_reads(
    reads: Seq<(Seq<u8>, Seq<u8>, Option<Seq<u8>>)>,
    cand: Seq<FileModel>,
)
    requires
        reads.len() == cand.len(),
        forall|k: int|
            0 <= k < reads.len() ==> #[trigger] reads[k] == (
                prehash_of(cand[k].content),
                cand[k].path,
                Some(file_tail(cand[k].content)),
            ),
    ensures
        fullhash_pairs(reads) == cand.map_values(fullhash_pair_of()),
{
    assert forall|k: int| 0 <= k < reads.len() implies tail_ok()(#[trigger] reads[k]) by {
        assert(reads[k].2 is Some);
    }
    lemma_filter_all(reads, tail_ok());
    assert(reads.map_values(fullhash_pair_fn()) =~= cand.map_values(fullhash_pair_of()));
}

} // verus!
