use vstd::prelude::*;

use crate::bytes::clone_bytes;
use crate::bytes::lemma_lex_le_refl;
use crate::bytes::lex_le;
use crate::bytes::lex_sorted;
use crate::bytes::sort_paths;
use crate::bytes::views;
use crate::groups::HashGroup;
use crate::groups::HashGroups;
use crate::groups::SizeGroup;
use crate::groups::SizeGroups;
use crate::seqs::lemma_filter_push;

verus! {

/// Whether a final hash group is a duplicate set: two members or more.
pub open spec fn dup_group() -> spec_fn(HashGroup) -> bool {
    |gr: HashGroup| gr.paths@.len() >= 2
}

/// The final groups that are duplicate sets, in group order.
pub open spec fn dup_groups(gs: Seq<HashGroup>) -> Seq<HashGroup> {
    gs.filter(dup_group())
}

pub open spec fn views2(s: Seq<Vec<Vec<u8>>>) -> Seq<Seq<Seq<u8>>> {
    s.map_values(|v: Vec<Vec<u8>>| views(v@))
}

fn clone_paths(v: &Vec<Vec<u8>>) -> (r: Vec<Vec<u8>>)
    ensures
        views(r@) == views(v@),
{
    let mut r: Vec<Vec<u8>> = Vec::new();
    let mut j: usize = 0;
    while j < v.len()
        invariant
            j <= v@.len(),
            r@.len() == j,
            forall|i: int| 0 <= i < j ==> r@[i]@ == v@[i]@,
        decreases v@.len() - j,
    {
        r.push(clone_bytes(&v[j]));
        j += 1;
    }
    proof {
        assert(views(r@) =~= views(v@));
    }
    r
}

/// The duplicate sets, each sorted lexicographically.
///
/// One output set per final group of two or more members, in group order,
/// holding the same paths as that group, in lexicographic order.
pub fn duplicate_sets(g: &HashGroups) -> (r: Vec<Vec<Vec<u8>>>)
    ensures
        r@.len() == dup_groups(g.groups@).len(),
        forall|k: int| 0 <= k < r@.len() ==> lex_sorted(views((#[trigger] r@[k])@)),
        forall|k: int|
            0 <= k < r@.len() ==> views((#[trigger] r@[k])@).to_multiset() == views(
                dup_groups(g.groups@)[k].paths@,
            ).to_multiset(),
        forall|k: int| 0 <= k < r@.len() ==> (#[trigger] r@[k])@.len() >= 2,
{
    let mut r: Vec<Vec<Vec<u8>>> = Vec::new();
    let mut k: usize = 0;
    proof {
        assert(g.groups@.take(0) =~= Seq::<HashGroup>::empty());
        assert(Seq::<HashGroup>::empty().filter(dup_group()).len() == 0) by {
            reveal(Seq::filter);
        }
    }
    while k < g.groups.len()
        invariant
            k <= g.groups@.len(),
            r@.len() == dup_groups(g.groups@.take(k as int)).len(),
            forall|i: int| 0 <= i < r@.len() ==> lex_sorted(views((#[trigger] r@[i])@)),
            forall|i: int|
                0 <= i < r@.len() ==> views((#[trigger] r@[i])@).to_multiset() == views(
                    dup_groups(g.groups@.take(k as int))[i].paths@,
                ).to_multiset(),
            forall|i: int| 0 <= i < r@.len() ==> (#[trigger] r@[i])@.len() >= 2,
        decreases g.groups@.len() - k,
    {
        let gr = &g.groups[k];
        proof {
            assert(g.groups@.take(k + 1) =~= g.groups@.take(k as int).push(g.groups@[k as int]));
            lemma_filter_push(g.groups@.take(k as int), dup_group(), g.groups@[k as int]);
        }
        if gr.paths.len() >= 2 {
            let mut set = clone_paths(&gr.paths);
            sort_paths(&mut set);
            let ghost old_r = r@;
            r.push(set);
            proof {
                let d2 = dup_groups(g.groups@.take(k + 1));
                assert(d2 == dup_groups(g.groups@.take(k as int)).push(g.groups@[k as int]));
                assert forall|i: int| 0 <= i < r@.len() implies views((#[trigger] r@[i])@)
                    .to_multiset() == views(d2[i].paths@).to_multiset() by {
                    if i < old_r.len() {
                        assert(r@[i] == old_r[i]);
                        assert(d2[i] == dup_groups(g.groups@.take(k as int))[i]);
                    } else {
                        assert(r@[i] == set);
                        assert(d2[i] == g.groups@[k as int]);
                    }
                }
                assert(set@.len() == views(set@).to_multiset().len()) by {
                    broadcast use vstd::seq_lib::group_to_multiset_ensures;

                    assert(views(set@).len() == views(set@).to_multiset().len());
                }
                assert(set@.len() >= 2) by {
                    broadcast use vstd::seq_lib::group_to_multiset_ensures;

                    assert(views(gr.paths@).len() == views(gr.paths@).to_multiset().len());
                }
            }
        }
        k += 1;
    }
    proof {
        assert(g.groups@.take(k as int) =~= g.groups@);
    }
    r
}

/// A duplicate set's contribution to the listing: without its first,
/// lexicographically least member when `omit_first` is set, else all its
/// members followed by a blank separator line.
pub open spec fn set_lines(set: Seq<Seq<u8>>, omit_first: bool) -> Seq<Seq<u8>> {
    if omit_first {
        set.skip(1)
    } else {
        set.push(Seq::empty())
    }
}

/// The listing of all duplicate sets, in set order.
pub open spec fn listing_of(sets: Seq<Seq<Seq<u8>>>, omit_first: bool) -> Seq<Seq<u8>>
    decreases sets.len(),
{
    if sets.len() == 0 {
        Seq::empty()
    } else {
        listing_of(sets.drop_last(), omit_first) + set_lines(sets.last(), omit_first)
    }
}

/// Lay the duplicate sets out as output lines, one path per line; an empty
/// line separates consecutive sets unless the representative is omitted.
pub fn listing_lines(sets: &Vec<Vec<Vec<u8>>>, omit_first: bool) -> (r: Vec<Vec<u8>>)
    requires
        forall|k: int| 0 <= k < sets@.len() ==> (#[trigger] sets@[k])@.len() >= 1,
    ensures
        views(r@) == listing_of(views2(sets@), omit_first),
{
    let mut r: Vec<Vec<u8>> = Vec::new();
    let mut k: usize = 0;
    proof {
        assert(views(r@) =~= Seq::<Seq<u8>>::empty());
        assert(sets@.take(0) =~= Seq::<Vec<Vec<u8>>>::empty());
        assert(views2(sets@.take(0)) =~= Seq::<Seq<Seq<u8>>>::empty());
    }
    while k < sets.len()
        invariant
            k <= sets@.len(),
            forall|i: int| 0 <= i < sets@.len() ==> (#[trigger] sets@[i])@.len() >= 1,
            views(r@) == listing_of(views2(sets@.take(k as int)), omit_first),
        decreases sets@.len() - k,
    {
        let set = &sets[k];
        let ghost sv = views(set@);
        let start: usize = if omit_first {
            1
        } else {
            0
        };
        let mut j: usize = start;
        proof {
            assert(sv.subrange(start as int, start as int) =~= Seq::<Seq<u8>>::empty());
            assert(views(r@) + sv.subrange(start as int, start as int) =~= views(r@));
        }
        while j < set.len()
            invariant
                start <= j <= set@.len(),
                start == (if omit_first {
                    1int
                } else {
                    0int
                }),
                set == sets@[k as int],
                k < sets@.len(),
                set@.len() >= 1,
                sv == views(set@),
                views(r@) == listing_of(views2(sets@.take(k as int)), omit_first) + sv.subrange(
                    start as int,
                    j as int,
                ),
            decreases set@.len() - j,
        {
            r.push(clone_bytes(&set[j]));
            proof {
                assert(sv.subrange(start as int, j + 1) =~= sv.subrange(start as int, j as int).push(
                    sv[j as int],
                ));
                assert(views(r@) =~= (listing_of(views2(sets@.take(k as int)), omit_first)
                    + sv.subrange(start as int, j as int)).push(sv[j as int]));
                assert((listing_of(views2(sets@.take(k as int)), omit_first) + sv.subrange(
                    start as int,
                    j as int,
                )).push(sv[j as int]) =~= listing_of(views2(sets@.take(k as int)), omit_first)
                    + sv.subrange(start as int, j + 1));
            }
            j += 1;
        }
        if !omit_first {
            r.push(Vec::new());
            proof {
                assert(views(r@) =~= (listing_of(views2(sets@.take(k as int)), omit_first)
                    + sv.subrange(0, sv.len() as int)).push(Seq::<u8>::empty()));
            }
        }
        proof {
            assert(views2(sets@.take(k + 1)) =~= views2(sets@.take(k as int)).push(sv));
            assert(views2(sets@.take(k + 1)).drop_last() =~= views2(sets@.take(k as int)));
            assert(listing_of(views2(sets@.take(k + 1)), omit_first) == listing_of(
                views2(sets@.take(k as int)),
                omit_first,
            ) + set_lines(sv, omit_first));
            if omit_first {
                assert(sv.subrange(1, sv.len() as int) =~= sv.skip(1));
            } else {
                assert(sv.subrange(0, sv.len() as int) =~= sv);
                assert((listing_of(views2(sets@.take(k as int)), omit_first) + sv).push(
                    Seq::<u8>::empty(),
                ) =~= listing_of(views2(sets@.take(k as int)), omit_first) + sv.push(
                    Seq::<u8>::empty(),
                ));
            }
            assert(views(r@) =~= listing_of(views2(sets@.take(k + 1)), omit_first));
        }
        k += 1;
    }
    proof {
        assert(sets@.take(k as int) =~= sets@);
    }
    r
}

/// The members a deletion run removes: every member of every duplicate set
/// but the first, in set order.
pub open spec fn targets_of(sets: Seq<Seq<Seq<u8>>>) -> Seq<Seq<u8>>
    decreases sets.len(),
{
    if sets.len() == 0 {
        Seq::empty()
    } else {
        targets_of(sets.drop_last()) + sets.last().skip(1)
    }
}

/// The paths a deletion run tries to remove, leaving exactly the first,
/// lexicographically least member of each sorted duplicate set on disk.
pub fn deletion_targets(sets: &Vec<Vec<Vec<u8>>>) -> (r: Vec<Vec<u8>>)
    requires
        forall|k: int| 0 <= k < sets@.len() ==> (#[trigger] sets@[k])@.len() >= 1,
    ensures
        views(r@) == targets_of(views2(sets@)),
{
    let mut r: Vec<Vec<u8>> = Vec::new();
    let mut k: usize = 0;
    proof {
        assert(views(r@) =~= Seq::<Seq<u8>>::empty());
        assert(views2(sets@.take(0)) =~= Seq::<Seq<Seq<u8>>>::empty());
    }
    while k < sets.len()
        invariant
            k <= sets@.len(),
            forall|i: int| 0 <= i < sets@.len() ==> (#[trigger] sets@[i])@.len() >= 1,
            views(r@) == targets_of(views2(sets@.take(k as int))),
        decreases sets@.len() - k,
    {
        let set = &sets[k];
        let ghost sv = views(set@);
        let mut j: usize = 1;
        proof {
            assert(sv.subrange(1, 1) =~= Seq::<Seq<u8>>::empty());
            assert(views(r@) + sv.subrange(1, 1) =~= views(r@));
        }
        while j < set.len()
            invariant
                1 <= j <= set@.len(),
                set == sets@[k as int],
                k < sets@.len(),
                set@.len() >= 1,
                sv == views(set@),
                views(r@) == targets_of(views2(sets@.take(k as int))) + sv.subrange(1, j as int),
            decreases set@.len() - j,
        {
            r.push(clone_bytes(&set[j]));
            proof {
                assert(sv.subrange(1, j + 1) =~= sv.subrange(1, j as int).push(sv[j as int]));
                assert(views(r@) =~= (targets_of(views2(sets@.take(k as int))) + sv.subrange(
                    1,
                    j as int,
                )).push(sv[j as int]));
                assert((targets_of(views2(sets@.take(k as int))) + sv.subrange(1, j as int)).push(
                    sv[j as int],
                ) =~= targets_of(views2(sets@.take(k as int))) + sv.subrange(1, j + 1));
            }
            j += 1;
        }
        proof {
            assert(views2(sets@.take(k + 1)) =~= views2(sets@.take(k as int)).push(sv));
            assert(views2(sets@.take(k + 1)).drop_last() =~= views2(sets@.take(k as int)));
            assert(sv.subrange(1, sv.len() as int) =~= sv.skip(1));
            assert(views(r@) =~= targets_of(views2(sets@.take(k + 1))));
        }
        k += 1;
    }
    proof {
        assert(sets@.take(k as int) =~= sets@);
    }
    r
}

/// After deleting a sorted duplicate set's targets, exactly its first
/// member survives, and it is lexicographically least among the members.
pub proof fn lemma_survivor_is_least(set: Seq<Seq<u8>>)
    requires
        lex_sorted(set),
        set.len() >= 1,
    ensures
        forall|k: int| 0 <= k < set.len() ==> lex_le(set[0], #[trigger] set[k]),
        set == seq![set[0]] + set.skip(1),
{
    assert forall|k: int| 0 <= k < set.len() implies lex_le(set[0], #[trigger] set[k]) by {
        if k == 0 {
            lemma_lex_le_refl(set[0]);
        }
    }
    assert(set =~= seq![set[0]] + set.skip(1));
}

/// One group's share of the paranoid pass: its first member paired with
/// each of the others.
pub open spec fn group_cmp_pairs(gr: HashGroup) -> Seq<(Seq<u8>, Seq<u8>)> {
    if gr.paths@.len() >= 2 {
        Seq::new((gr.paths@.len() - 1) as nat, |i: int| (gr.paths@[0]@, gr.paths@[i + 1]@))
    } else {
        Seq::empty()
    }
}

/// The byte-for-byte comparisons the paranoid pass performs, in group
/// order.
pub open spec fn cmp_pairs_of(gs: Seq<HashGroup>) -> Seq<(Seq<u8>, Seq<u8>)>
    decreases gs.len(),
{
    if gs.len() == 0 {
        Seq::empty()
    } else {
        cmp_pairs_of(gs.drop_last()) + group_cmp_pairs(gs.last())
    }
}

pub open spec fn cpair_views(s: Seq<(Vec<u8>, Vec<u8>)>) -> Seq<(Seq<u8>, Seq<u8>)> {
    s.map_values(|p: (Vec<u8>, Vec<u8>)| (p.0@, p.1@))
}

/// The pairs of paths the paranoid pass must compare byte for byte: in
/// each duplicate candidate group, the first member against every other.
pub fn comparison_pairs(g: &HashGroups) -> (r: Vec<(Vec<u8>, Vec<u8>)>)
    ensures
        cpair_views(r@) == cmp_pairs_of(g.groups@),
{
    let mut r: Vec<(Vec<u8>, Vec<u8>)> = Vec::new();
    let mut k: usize = 0;
    proof {
        assert(cpair_views(r@) =~= Seq::<(Seq<u8>, Seq<u8>)>::empty());
        assert(g.groups@.take(0) =~= Seq::<HashGroup>::empty());
    }
    while k < g.groups.len()
        invariant
            k <= g.groups@.len(),
            cpair_views(r@) == cmp_pairs_of(g.groups@.take(k as int)),
        decreases g.groups@.len() - k,
    {
        let gr = &g.groups[k];
        if gr.paths.len() >= 2 {
            let ghost gps = group_cmp_pairs(g.groups@[k as int]);
            let mut j: usize = 1;
            proof {
                assert(gps.take(0) =~= Seq::<(Seq<u8>, Seq<u8>)>::empty());
                assert(cpair_views(r@) + gps.take(0) =~= cpair_views(r@));
            }
            while j < gr.paths.len()
                invariant
                    1 <= j <= gr.paths@.len(),
                    gr == g.groups@[k as int],
                    k < g.groups@.len(),
                    gr.paths@.len() >= 2,
                    gps == group_cmp_pairs(g.groups@[k as int]),
                    cpair_views(r@) == cmp_pairs_of(g.groups@.take(k as int)) + gps.take(j - 1),
                decreases gr.paths@.len() - j,
            {
                let first = clone_bytes(&gr.paths[0]);
                let other = clone_bytes(&gr.paths[j]);
                r.push((first, other));
                proof {
                    assert(gps[j - 1] == (gr.paths@[0]@, gr.paths@[j as int]@));
                    assert(gps.take(j as int) =~= gps.take(j - 1).push(gps[j - 1]));
                    assert(cpair_views(r@) =~= (cmp_pairs_of(g.groups@.take(k as int)) + gps.take(
                        j - 1,
                    )).push(gps[j - 1]));
                    assert((cmp_pairs_of(g.groups@.take(k as int)) + gps.take(j - 1)).push(
                        gps[j - 1],
                    ) =~= cmp_pairs_of(g.groups@.take(k as int)) + gps.take(j as int));
                }
                j += 1;
            }
            proof {
                assert(gps.take(gps.len() as int) =~= gps);
            }
        } else {
            proof {
                assert(group_cmp_pairs(g.groups@[k as int]) =~= Seq::<(Seq<u8>, Seq<u8>)>::empty());
                assert(cpair_views(r@) + group_cmp_pairs(g.groups@[k as int]) =~= cpair_views(r@));
            }
        }
        proof {
            assert(g.groups@.take(k + 1).drop_last() =~= g.groups@.take(k as int));
            assert(g.groups@.take(k + 1).last() == g.groups@[k as int]);
            assert(cmp_pairs_of(g.groups@.take(k + 1)) == cmp_pairs_of(g.groups@.take(k as int))
                + group_cmp_pairs(g.groups@[k as int]));
        }
        k += 1;
    }
    proof {
        assert(g.groups@.take(k as int) =~= g.groups@);
    }
    r
}

/// How many files the size pass kept, over all its groups.
pub open spec fn count_files(gs: Seq<SizeGroup>) -> nat
    decreases gs.len(),
{
    if gs.len() == 0 {
        0
    } else {
        count_files(gs.drop_last()) + gs.last().paths@.len()
    }
}

/// How many redundant files the final groups hold: every member beyond
/// the first of each group.
pub open spec fn count_redundant(gs: Seq<HashGroup>) -> nat
    decreases gs.len(),
{
    if gs.len() == 0 {
        0
    } else {
        count_redundant(gs.drop_last()) + (if gs.last().paths@.len() >= 1 {
            (gs.last().paths@.len() - 1) as nat
        } else {
            0
        })
    }
}

/// The bytes a deletion run would reclaim: for each duplicate set, its
/// on-disk size times its members beyond the first. `sizes` pairs each
/// set, in order, with the size its first member reports at report time.
pub open spec fn reclaimable(gs: Seq<HashGroup>, sizes: Seq<u64>) -> nat
    decreases gs.len(),
{
    if gs.len() == 0 {
        0
    } else {
        reclaimable(gs.drop_last(), sizes.drop_last()) + sizes.last() as nat * (if gs.last()
            .paths@.len() >= 1 {
            (gs.last().paths@.len() - 1) as nat
        } else {
            0
        })
    }
}

proof fn lemma_count_files_prefix(gs: Seq<SizeGroup>, k: int)
    requires
        0 <= k <= gs.len(),
    ensures
        count_files(gs.take(k)) <= count_files(gs),
    decreases gs.len() - k,
{
    if k == gs.len() {
        assert(gs.take(k) =~= gs);
    } else {
        lemma_count_files_prefix(gs, k + 1);
        assert(gs.take(k + 1).drop_last() =~= gs.take(k));
        assert(gs.take(k + 1).last() == gs[k]);
    }
}

proof fn lemma_count_redundant_prefix(gs: Seq<HashGroup>, k: int)
    requires
        0 <= k <= gs.len(),
    ensures
        count_redundant(gs.take(k)) <= count_redundant(gs),
    decreases gs.len() - k,
{
    if k == gs.len() {
        assert(gs.take(k) =~= gs);
    } else {
        lemma_count_redundant_prefix(gs, k + 1);
        assert(gs.take(k + 1).drop_last() =~= gs.take(k));
        assert(gs.take(k + 1).last() == gs[k]);
    }
}

proof fn lemma_reclaimable_prefix(gs: Seq<HashGroup>, sizes: Seq<u64>, k: int)
    requires
        0 <= k <= gs.len(),
        gs.len() == sizes.len(),
    ensures
        reclaimable(gs.take(k), sizes.take(k)) <= reclaimable(gs, sizes),
    decreases gs.len() - k,
{
    if k == gs.len() {
        assert(gs.take(k) =~= gs);
        assert(sizes.take(k) =~= sizes);
    } else {
        lemma_reclaimable_prefix(gs, sizes, k + 1);
        assert(gs.take(k + 1).drop_last() =~= gs.take(k));
        assert(gs.take(k + 1).last() == gs[k]);
        assert(sizes.take(k + 1).drop_last() =~= sizes.take(k));
        assert(sizes.take(k + 1).last() == sizes[k]);
    }
}

/// Whether a product fits under a cap is decided by dividing the cap.
proof fn lemma_mul_fits(x: int, y: int, cap: int)
    requires
        y >= 1,
        x >= 0,
        cap >= 0,
    ensures
        x <= cap / y ==> x * y <= cap,
        x > cap / y ==> x * y > cap,
{
    vstd::arithmetic::div_mod::lemma_fundamental_div_mod(cap, y);
    vstd::arithmetic::div_mod::lemma_mod_bound(cap, y);
    if x <= cap / y {
        vstd::arithmetic::mul::lemma_mul_inequality(x, cap / y, y);
        vstd::arithmetic::mul::lemma_mul_is_commutative(cap / y, y);
    } else {
        vstd::arithmetic::mul::lemma_mul_inequality(cap / y + 1, x, y);
        vstd::arithmetic::mul::lemma_mul_is_distributive_add_other_way(y, cap / y, 1);
        vstd::arithmetic::mul::lemma_mul_is_commutative(cap / y, y);
    }
}

fn count_files_exec(groups: &Vec<SizeGroup>) -> (r: Option<u64>)
    ensures
        r matches Some(v) ==> v == count_files(groups@),
        r is None ==> count_files(groups@) > u64::MAX,
{
    let mut acc: u64 = 0;
    let mut k: usize = 0;
    proof {
        assert(groups@.take(0) =~= Seq::<SizeGroup>::empty());
    }
    while k < groups.len()
        invariant
            k <= groups@.len(),
            acc == count_files(groups@.take(k as int)),
        decreases groups@.len() - k,
    {
        let term_usize = groups[k].paths.len();
        let term = term_usize as u64;
        proof {
            assert(groups@.take(k + 1).drop_last() =~= groups@.take(k as int));
            assert(groups@.take(k + 1).last() == groups@[k as int]);
        }
        if acc > u64::MAX - term {
            proof {
                lemma_count_files_prefix(groups@, k + 1);
            }
            return None;
        }
        acc = acc + term;
        k += 1;
    }
    proof {
        assert(groups@.take(k as int) =~= groups@);
    }
    Some(acc)
}

fn count_redundant_exec(groups: &Vec<HashGroup>) -> (r: Option<u64>)
    ensures
        r matches Some(v) ==> v == count_redundant(groups@),
        r is None ==> count_redundant(groups@) > u64::MAX,
{
    let mut acc: u64 = 0;
    let mut k: usize = 0;
    proof {
        assert(groups@.take(0) =~= Seq::<HashGroup>::empty());
    }
    while k < groups.len()
        invariant
            k <= groups@.len(),
            acc == count_redundant(groups@.take(k as int)),
        decreases groups@.len() - k,
    {
        let len_k = groups[k].paths.len();
        let term: u64 = if len_k >= 1 {
            (len_k - 1) as u64
        } else {
            0
        };
        proof {
            assert(groups@.take(k + 1).drop_last() =~= groups@.take(k as int));
            assert(groups@.take(k + 1).last() == groups@[k as int]);
        }
        if acc > u64::MAX - term {
            proof {
                lemma_count_redundant_prefix(groups@, k + 1);
            }
            return None;
        }
        acc = acc + term;
        k += 1;
    }
    proof {
        assert(groups@.take(k as int) =~= groups@);
    }
    Some(acc)
}

fn count_dup_sets_exec(groups: &Vec<HashGroup>) -> (r: usize)
    ensures
        r == dup_groups(groups@).len(),
{
    let mut qc: usize = 0;
    let mut k: usize = 0;
    proof {
        assert(groups@.take(0) =~= Seq::<HashGroup>::empty());
        assert(Seq::<HashGroup>::empty().filter(dup_group()).len() == 0) by {
            reveal(Seq::filter);
        }
    }
    while k < groups.len()
        invariant
            k <= groups@.len(),
            qc == dup_groups(groups@.take(k as int)).len(),
            qc <= k,
        decreases groups@.len() - k,
    {
        proof {
            assert(groups@.take(k + 1) =~= groups@.take(k as int).push(groups@[k as int]));
            lemma_filter_push(groups@.take(k as int), dup_group(), groups@[k as int]);
        }
        if groups[k].paths.len() >= 2 {
            qc += 1;
        }
        k += 1;
    }
    proof {
        assert(groups@.take(k as int) =~= groups@);
    }
    qc
}

fn reclaimable_exec(groups: &Vec<HashGroup>, sizes: &Vec<u64>) -> (r: Option<u64>)
    requires
        sizes@.len() == dup_groups(groups@).len(),
    ensures
        r matches Some(v) ==> v == reclaimable(dup_groups(groups@), sizes@),
        r is None ==> reclaimable(dup_groups(groups@), sizes@) > u64::MAX,
{
    let mut acc: u64 = 0;
    let mut qc: usize = 0;
    let mut k: usize = 0;
    proof {
        assert(groups@.take(0) =~= Seq::<HashGroup>::empty());
        assert(Seq::<HashGroup>::empty().filter(dup_group()).len() == 0) by {
            reveal(Seq::filter);
        }
        assert(sizes@.take(0) =~= Seq::<u64>::empty());
    }
    while k < groups.len()
        invariant
            k <= groups@.len(),
            qc == dup_groups(groups@.take(k as int)).len(),
            qc <= k,
            sizes@.len() == dup_groups(groups@).len(),
            acc == reclaimable(dup_groups(groups@.take(k as int)), sizes@.take(qc as int)),
        decreases groups@.len() - k,
    {
        let ghost d1 = dup_groups(groups@.take(k as int));
        proof {
            assert(groups@.take(k + 1) =~= groups@.take(k as int).push(groups@[k as int]));
            lemma_filter_push(groups@.take(k as int), dup_group(), groups@[k as int]);
            assert(groups@ =~= groups@.take(k + 1) + groups@.skip(k + 1));
            Seq::filter_distributes_over_add(groups@.take(k + 1), groups@.skip(k + 1), dup_group());
        }
        let len_k = groups[k].paths.len();
        if len_k >= 2 {
            let ghost d2 = dup_groups(groups@.take(k + 1));
            proof {
                assert(d2 == d1.push(groups@[k as int]));
                assert(d2.len() <= dup_groups(groups@).len());
                assert(qc < sizes@.len());
            }
            let size_k = sizes[qc];
            let l1: u64 = (len_k - 1) as u64;
            proof {
                assert(sizes@.take(qc + 1).drop_last() =~= sizes@.take(qc as int));
                assert(sizes@.take(qc + 1).last() == sizes@[qc as int]);
                assert(d2.drop_last() =~= d1);
                assert(d2.last() == groups@[k as int]);
                lemma_mul_fits(size_k as int, l1 as int, u64::MAX as int);
            }
            let term: u64 = if size_k <= u64::MAX / l1 {
                size_k * l1
            } else {
                proof {
                    lemma_reclaimable_prefix(dup_groups(groups@), sizes@, qc + 1);
                    assert(dup_groups(groups@).take(qc + 1) =~= d2) by {
                        assert(dup_groups(groups@) =~= d2 + dup_groups(groups@.skip(k + 1)));
                    }
                    assert(sizes@.take(qc + 1) == sizes@.take(qc + 1));
                }
                return None;
            };
            if acc > u64::MAX - term {
                proof {
                    lemma_reclaimable_prefix(dup_groups(groups@), sizes@, qc + 1);
                    assert(dup_groups(groups@).take(qc + 1) =~= d2) by {
                        assert(dup_groups(groups@) =~= d2 + dup_groups(groups@.skip(k + 1)));
                    }
                }
                return None;
            }
            acc = acc + term;
            qc += 1;
        } else {
            proof {
                assert(dup_groups(groups@.take(k + 1)) == d1);
            }
        }
        k += 1;
    }
    proof {
        assert(groups@.take(k as int) =~= groups@);
        assert(sizes@.take(qc as int) =~= sizes@);
    }
    Some(acc)
}

/// The aggregate statistics a summary run reports.
pub struct SummaryStats {
    /// Redundant files: members beyond the first of each final group.
    pub dupe_count: u64,
    /// Duplicate sets found.
    pub set_count: u64,
    /// Bytes a deletion run would reclaim.
    pub dupe_size: u64,
    /// Files checked, over all size groups handed in.
    pub total_files: u64,
    /// Distinct size classes among them.
    pub size_classes: u64,
    /// Distinct fingerprint groups the second pass found.
    pub prehash_groups: u64,
}

/// Work out the aggregate statistics instead of listing file names.
///
/// `sizes` pairs each duplicate set, in group order, with the on-disk size
/// its first member reports at report time. `None` is returned exactly
/// when one of the three sums does not fit in 64 bits.
pub fn summarize(
    unique_prehash_groups: u64,
    size_groups: &SizeGroups,
    hash_groups: &HashGroups,
    sizes: &Vec<u64>,
) -> (r: Option<SummaryStats>)
    requires
        sizes@.len() == dup_groups(hash_groups.groups@).len(),
    ensures
        r is Some <==> (count_files(size_groups.groups@) <= u64::MAX && count_redundant(
            hash_groups.groups@,
        ) <= u64::MAX && reclaimable(dup_groups(hash_groups.groups@), sizes@) <= u64::MAX),
        r matches Some(st) ==> st.total_files == count_files(size_groups.groups@),
        r matches Some(st) ==> st.size_classes == size_groups.groups@.len(),
        r matches Some(st) ==> st.dupe_count == count_redundant(hash_groups.groups@),
        r matches Some(st) ==> st.set_count == dup_groups(hash_groups.groups@).len(),
        r matches Some(st) ==> st.dupe_size == reclaimable(
            dup_groups(hash_groups.groups@),
            sizes@,
        ),
        r matches Some(st) ==> st.prehash_groups == unique_prehash_groups,
{
    let total_files = match count_files_exec(&size_groups.groups) {
        Some(v) => v,
        None => {
            return None;
        },
    };
    let dupe_count = match count_redundant_exec(&hash_groups.groups) {
        Some(v) => v,
        None => {
            return None;
        },
    };
    let dupe_size = match reclaimable_exec(&hash_groups.groups, sizes) {
        Some(v) => v,
        None => {
            return None;
        },
    };
    let set_count = count_dup_sets_exec(&hash_groups.groups);
    let size_classes = size_groups.groups.len();
    Some(
        SummaryStats {
            dupe_count,
            set_count: set_count as u64,
            dupe_size,
            total_files,
            size_classes: size_classes as u64,
            prehash_groups: unique_prehash_groups,
        },
    )
}

} // verus!
