use vstd::prelude::*;

verus! {

/// The views of a sequence of byte vectors.
pub open spec fn views(s: Seq<Vec<u8>>) -> Seq<Seq<u8>> {
    s.map_values(|p: Vec<u8>| p@)
}

/// Lexicographic order on byte strings: `a` comes no later than `b`.
pub open spec fn lex_le(a: Seq<u8>, b: Seq<u8>) -> bool
    decreases a.len(),
{
    if a.len() == 0 {
        true
    } else if b.len() == 0 {
        false
    } else if a[0] < b[0] {
        true
    } else if a[0] > b[0] {
        false
    } else {
        lex_le(a.drop_first(), b.drop_first())
    }
}

/// A sequence of byte strings in lexicographically nondecreasing order.
pub open spec fn lex_sorted(s: Seq<Seq<u8>>) -> bool {
    forall|i: int, j: int| 0 <= i < j < s.len() ==> lex_le(s[i], s[j])
}

pub proof fn lemma_lex_le_refl(a: Seq<u8>)
    ensures
        lex_le(a, a),
    decreases a.len(),
{
    if a.len() > 0 {
        lemma_lex_le_refl(a.drop_first());
    }
}

pub proof fn lemma_lex_le_total(a: Seq<u8>, b: Seq<u8>)
    ensures
        lex_le(a, b) || lex_le(b, a),
    decreases a.len(),
{
    if a.len() > 0 && b.len() > 0 && a[0] == b[0] {
        lemma_lex_le_total(a.drop_first(), b.drop_first());
    }
}

pub proof fn lemma_lex_le_trans(a: Seq<u8>, b: Seq<u8>, c: Seq<u8>)
    requires
        lex_le(a, b),
        lex_le(b, c),
    ensures
        lex_le(a, c),
    decreases a.len(),
{
    if a.len() > 0 && b.len() > 0 && c.len() > 0 && a[0] == b[0] && b[0] == c[0] {
        lemma_lex_le_trans(a.drop_first(), b.drop_first(), c.drop_first());
    }
}

/// When the first `i` bytes agree, the order is decided by the remainders.
proof fn lemma_lex_le_common_prefix(a: Seq<u8>, b: Seq<u8>, i: int)
    requires
        0 <= i <= a.len(),
        i <= b.len(),
        forall|k: int| 0 <= k < i ==> a[k] == b[k],
    ensures
        lex_le(a, b) == lex_le(a.skip(i), b.skip(i)),
    decreases i,
{
    if i == 0 {
        assert(a.skip(0) =~= a);
        assert(b.skip(0) =~= b);
    } else {
        assert(a[0] == b[0]);
        lemma_lex_le_common_prefix(a.drop_first(), b.drop_first(), i - 1);
        assert(a.drop_first().skip(i - 1) =~= a.skip(i));
        assert(b.drop_first().skip(i - 1) =~= b.skip(i));
    }
}

/// Compare two byte vectors for equality, byte by byte.
pub fn bytes_equal(a: &Vec<u8>, b: &Vec<u8>) -> (r: bool)
    ensures
        r == (a@ == b@),
{
    if a.len() != b.len() {
        assert(a@ != b@);
        return false;
    }
    let mut i: usize = 0;
    while i < a.len()
        invariant
            0 <= i <= a.len(),
            a.len() == b.len(),
            forall|k: int| 0 <= k < i ==> a@[k] == b@[k],
        decreases a.len() - i,
    {
        if a[i] != b[i] {
            return false;
        }
        i += 1;
    }
    assert(a@ =~= b@);
    true
}

/// Decide the lexicographic order of two byte vectors.
pub fn path_le(a: &Vec<u8>, b: &Vec<u8>) -> (r: bool)
    ensures
        r == lex_le(a@, b@),
{
    let mut i: usize = 0;
    while i < a.len() && i < b.len()
        invariant
            0 <= i <= a.len(),
            i <= b.len(),
            forall|k: int| 0 <= k < i ==> a@[k] == b@[k],
        decreases a.len() - i,
    {
        let x = a[i];
        let y = b[i];
        if x < y {
            proof {
                lemma_lex_le_common_prefix(a@, b@, i as int);
            }
            return true;
        }
        if x > y {
            proof {
                lemma_lex_le_common_prefix(a@, b@, i as int);
            }
            return false;
        }
        i += 1;
    }
    proof {
        lemma_lex_le_common_prefix(a@, b@, i as int);
    }
    a.len() <= b.len()
}

/// Copy a byte vector.
pub fn clone_bytes(a: &Vec<u8>) -> (r: Vec<u8>)
    ensures
        r@ == a@,
{
    let r = a.clone();
    proof {
        assert(r@ =~= a@);
    }
    r
}

/// Inserting an element anywhere adds exactly it to the multiset of elements.
proof fn lemma_to_multiset_insert<A>(s: Seq<A>, j: int, x: A)
    requires
        0 <= j <= s.len(),
    ensures
        s.insert(j, x).to_multiset() == s.to_multiset().insert(x),
{
    broadcast use vstd::seq_lib::group_to_multiset_ensures;

    let t = s.insert(j, x);
    assert(t.remove(j) =~= s);
    assert(t[j] == x);
    assert(t.remove(j).to_multiset() =~= t.to_multiset().remove(x));
    assert(t.contains(x));
    assert(t.to_multiset().count(x) > 0);
    assert(t.to_multiset() =~= s.to_multiset().insert(x)) by {
        assert(s.to_multiset() == t.to_multiset().remove(x));
    }
}

/// Removing an element takes exactly it out of the multiset of elements.
proof fn lemma_to_multiset_remove<A>(s: Seq<A>, j: int)
    requires
        0 <= j < s.len(),
    ensures
        s.remove(j).to_multiset() == s.to_multiset().remove(s[j]),
{
    broadcast use vstd::seq_lib::group_to_multiset_ensures;

}

/// Sort byte vectors into lexicographically nondecreasing order.
///
/// The result holds the same byte strings, as a multiset, as the input.
pub fn sort_paths(v: &mut Vec<Vec<u8>>)
    ensures
        lex_sorted(views(final(v)@)),
        views(final(v)@).to_multiset() == views(old(v)@).to_multiset(),
{
    let ghost orig = views(old(v)@);
    if v.len() <= 1 {
        return ;
    }
    let mut i: usize = 1;
    while i < v.len()
        invariant
            1 <= i <= v@.len(),
            lex_sorted(views(v@).take(i as int)),
            views(v@).to_multiset() == orig.to_multiset(),
        decreases v.len() - i,
    {
        let ghost before = views(v@);
        let x = v.remove(i);
        let ghost mid = views(v@);
        proof {
            assert(mid =~= before.remove(i as int));
            lemma_to_multiset_remove(before, i as int);
        }
        let mut j: usize = i;
        while j > 0 && !path_le(&v[j - 1], &x)
            invariant
                0 <= j <= i,
                i < before.len(),
                v@.len() == before.len() - 1,
                mid == views(v@),
                mid == before.remove(i as int),
                lex_sorted(before.take(i as int)),
                forall|k: int| j <= k < i ==> !lex_le(mid[k], x@),
            decreases j,
        {
            j -= 1;
        }
        // Everything at or after position j is strictly greater than x,
        // everything before position j is at most x.
        proof {
            assert forall|k: int| j <= k < i implies lex_le(x@, mid[k]) by {
                lemma_lex_le_total(x@, mid[k]);
            }
            assert forall|k: int| 0 <= k < j implies lex_le(mid[k], x@) by {
                if k < j - 1 {
                    assert(lex_le(before.take(i as int)[k], before.take(i as int)[j - 1]));
                    lemma_lex_le_trans(mid[k], mid[j - 1], x@);
                }
            }
        }
        v.insert(j, x);
        proof {
            let after = views(v@);
            assert(after =~= mid.insert(j as int, x@));
            lemma_to_multiset_insert(mid, j as int, x@);
            assert(after.to_multiset() == orig.to_multiset()) by {
                assert(mid.to_multiset() == before.to_multiset().remove(x@));
                assert(before.contains(x@)) by {
                    assert(before[i as int] == x@);
                }
                broadcast use vstd::seq_lib::group_to_multiset_ensures;

                assert(before.to_multiset().count(x@) > 0);
                assert(mid.to_multiset().insert(x@) =~= before.to_multiset());
            }
            assert forall|p: int, q: int| 0 <= p < q < i + 1 implies #[trigger] lex_le(
                after.take(i + 1)[p],
                after.take(i + 1)[q],
            ) by {
                let jj = j as int;
                let ii = i as int;
                assert(after.take(ii + 1)[p] == after[p]);
                assert(after.take(ii + 1)[q] == after[q]);
                assert(forall|k: int| 0 <= k < jj ==> after[k] == mid[k]);
                assert(after[jj] == x@);
                assert(forall|k: int| jj < k <= ii ==> after[k] == mid[k - 1]);
                assert(forall|k: int| 0 <= k < ii ==> mid[k] == before.take(ii)[k]);
                if q < jj {
                    assert(lex_le(before.take(ii)[p], before.take(ii)[q]));
                } else if q == jj {
                    assert(lex_le(mid[p], x@));
                } else if p == jj {
                    assert(lex_le(x@, mid[q - 1]));
                } else if p < jj {
                    if q - 1 < jj {
                        assert(lex_le(before.take(ii)[p], before.take(ii)[q - 1]));
                    } else {
                        assert(lex_le(mid[p], x@));
                        assert(lex_le(x@, mid[q - 1]));
                        lemma_lex_le_trans(mid[p], x@, mid[q - 1]);
                    }
                } else {
                    assert(lex_le(before.take(ii)[p - 1], before.take(ii)[q - 1]));
                }
            }
        }
        i += 1;
    }
    proof {
        if v@.len() > 0 {
            assert(views(v@).take(v@.len() as int) =~= views(v@));
        } else {
            assert(views(v@) =~= Seq::<Seq<u8>>::empty());
        }
    }
}

} // verus!
