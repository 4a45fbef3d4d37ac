//! A stable sort of key/value pairs by an unsigned key. The specification
//! pins the output down completely: it is the insertion sort that moves each
//! new element left past strictly greater keys only, so elements with equal
//! keys keep their relative order.
use vstd::prelude::*;

verus! {

broadcast use vstd::seq_lib::group_to_multiset_ensures, vstd::multiset::group_multiset_axioms;

/// Whether a pair sequence is ordered by ascending key.
pub open spec fn sorted_by_key<T>(s: Seq<(u64, T)>) -> bool {
    forall|i: int, j: int| 0 <= i < j < s.len() ==> s[i].0 <= s[j].0
}

/// Insert `x` into `s` just after every element whose key is at most `x.0`.
pub open spec fn insert_pair<T>(x: (u64, T), s: Seq<(u64, T)>) -> Seq<(u64, T)>
    decreases s.len(),
{
    if s.len() == 0 {
        seq![x]
    } else if x.0 < s.last().0 {
        insert_pair(x, s.drop_last()).push(s.last())
    } else {
        s.push(x)
    }
}

/// The stable ascending reordering of `s`: each element in turn is inserted
/// after its equals, so ties keep their encounter order.
pub open spec fn sort_pairs<T>(s: Seq<(u64, T)>) -> Seq<(u64, T)>
    decreases s.len(),
{
    if s.len() == 0 {
        Seq::empty()
    } else {
        insert_pair(s.last(), sort_pairs(s.drop_last()))
    }
}

pub proof fn lemma_insert_pair_props<T>(x: (u64, T), s: Seq<(u64, T)>)
    requires
        sorted_by_key(s),
    ensures
        sorted_by_key(insert_pair(x, s)),
        insert_pair(x, s).to_multiset() == s.to_multiset().insert(x),
        insert_pair(x, s).len() == s.len() + 1,
    decreases s.len(),
{
    if s.len() == 0 {
        assert(seq![x] =~= Seq::<(u64, T)>::empty().push(x));
        assert(Seq::<(u64, T)>::empty().push(x).to_multiset() =~= Seq::<(
            u64,
            T,
        )>::empty().to_multiset().insert(x));
    } else if x.0 < s.last().0 {
        let dl = s.drop_last();
        let last = s.last();
        assert(sorted_by_key(dl));
        lemma_insert_pair_props(x, dl);
        let inner = insert_pair(x, dl);
        assert(inner.push(last).to_multiset() =~= inner.to_multiset().insert(last));
        assert(dl.push(last) =~= s);
        assert(dl.push(last).to_multiset() =~= dl.to_multiset().insert(last));
        assert(dl.to_multiset().insert(x).insert(last) =~= dl.to_multiset().insert(last).insert(
            x,
        ));
        assert(sorted_by_key(inner.push(last))) by {
            assert forall|i: int|
                0 <= i < inner.len() implies inner[i].0 <= last.0 by {
                assert(inner.contains(inner[i]));
                assert(inner.to_multiset().count(inner[i]) > 0);
                if inner[i] == x {
                } else {
                    assert(dl.to_multiset().count(inner[i]) > 0);
                    assert(dl.contains(inner[i]));
                    let j = choose|j: int| 0 <= j < dl.len() && dl[j] == inner[i];
                    assert(s[j].0 <= s[s.len() - 1].0);
                }
            }
        }
    } else {
        assert(s.push(x).to_multiset() =~= s.to_multiset().insert(x));
        assert(sorted_by_key(s.push(x))) by {
            assert forall|i: int| 0 <= i < s.len() implies s[i].0 <= x.0 by {
                assert(s[i].0 <= s[s.len() - 1].0);
            }
        }
    }
}

pub proof fn lemma_sort_pairs_props<T>(s: Seq<(u64, T)>)
    ensures
        sorted_by_key(sort_pairs(s)),
        sort_pairs(s).to_multiset() == s.to_multiset(),
        sort_pairs(s).len() == s.len(),
    decreases s.len(),
{
    if s.len() == 0 {
    } else {
        let dl = s.drop_last();
        lemma_sort_pairs_props(dl);
        lemma_insert_pair_props(s.last(), sort_pairs(dl));
        assert(dl.push(s.last()) =~= s);
        assert(dl.push(s.last()).to_multiset() =~= dl.to_multiset().insert(s.last()));
    }
}

/// Everything in the sorted sequence is an element of the input.
pub proof fn lemma_sort_pairs_membership<T>(s: Seq<(u64, T)>, i: int)
    requires
        0 <= i < sort_pairs(s).len(),
    ensures
        s.contains(sort_pairs(s)[i]),
{
    lemma_sort_pairs_props(s);
    assert(sort_pairs(s).contains(sort_pairs(s)[i]));
    assert(s.to_multiset().count(sort_pairs(s)[i]) > 0);
}

/// Inserting at the position found by scanning back over strictly greater
/// keys realises `insert_pair` on a sorted sequence.
proof fn lemma_insert_pair_at<T>(x: (u64, T), s: Seq<(u64, T)>, at: int)
    requires
        sorted_by_key(s),
        0 <= at <= s.len(),
        forall|k: int| 0 <= k < at ==> s[k].0 <= x.0,
        forall|k: int| at <= k < s.len() ==> s[k].0 > x.0,
    ensures
        insert_pair(x, s) == s.insert(at, x),
    decreases s.len(),
{
    if s.len() == 0 {
        assert(insert_pair(x, s) =~= s.insert(at, x));
    } else if x.0 < s.last().0 {
        assert(at < s.len());
        assert(sorted_by_key(s.drop_last()));
        lemma_insert_pair_at(x, s.drop_last(), at);
        assert(s.drop_last().insert(at, x).push(s.last()) =~= s.insert(at, x));
    } else {
        assert(s[s.len() - 1].0 <= x.0);
        assert(at == s.len());
        assert(insert_pair(x, s) =~= s.insert(at, x));
    }
}

/// Stable insertion sort of pairs by ascending key. The result is exactly
/// `sort_pairs` of the input, hence sorted, a permutation, and stable.
pub fn sort_by_first<T>(v: Vec<(u64, T)>) -> (r: Vec<(u64, T)>)
    ensures
        r@ == sort_pairs(v@),
{
    let ghost orig = v@;
    let mut rest = v;
    let mut out: Vec<(u64, T)> = Vec::new();
    let ghost mut i: int = 0;
    proof {
        assert(orig.take(0) =~= Seq::<(u64, T)>::empty());
        assert(orig.skip(0) =~= orig);
    }
    while rest.len() > 0
        invariant
            i + rest@.len() == orig.len(),
            0 <= i <= orig.len(),
            rest@ == orig.skip(i),
            out@ == sort_pairs(orig.take(i)),
            sorted_by_key(out@),
        decreases rest@.len(),
    {
        let x = rest.remove(0);
        proof {
            assert(x == orig[i]);
            assert(rest@ =~= orig.skip(i + 1));
        }
        let mut at: usize = out.len();
        while at > 0 && out[at - 1].0 > x.0
            invariant
                at <= out.len(),
                forall|k: int| at <= k < out@.len() ==> out@[k].0 > x.0,
            decreases at,
        {
            at = at - 1;
        }
        proof {
            assert forall|k: int| 0 <= k < at implies out@[k].0 <= x.0 by {
                assert(out@[at - 1].0 <= x.0);
                assert(out@[k].0 <= out@[at - 1].0);
            }
            lemma_insert_pair_at(x, out@, at as int);
            lemma_insert_pair_props(x, out@);
            assert(orig.take(i + 1).drop_last() =~= orig.take(i));
            assert(orig.take(i + 1).last() == orig[i]);
        }
        out.insert(at, x);
        proof {
            i = i + 1;
        }
    }
    proof {
        assert(orig.take(orig.len() as int) =~= orig);
    }
    out
}

} // verus!
