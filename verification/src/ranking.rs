//! Deterministic ranking of score maps: a strict total order (score
//! descending, id ascending on ties), an insertion sort under that order,
//! and min-max normalization into the fixed-point interval `[0, SCALE]`.

use vstd::prelude::*;
use vstd::multiset::Multiset;
use vstd::seq_lib::group_to_multiset_ensures;

verus! {

/// Bound on the raw score magnitudes normalization accepts; every raw
/// score pipeline stays far below it.
pub const NORM_BOUND: i128 = 100_000_000_000_000_000_000_000_000_000_000;

/// Strict total order on score entries: the higher score first, the
/// smaller id breaking ties.
pub open spec fn entry_before(a: (i32, i128), b: (i32, i128)) -> bool {
    a.1 > b.1 || (a.1 == b.1 && a.0 < b.0)
}

/// Non-increasing under the entry order.
pub open spec fn sorted_desc(s: Seq<(i32, i128)>) -> bool {
    forall|i: int| 0 <= i < s.len() - 1 ==> !entry_before(#[trigger] s[i + 1], s[i])
}

/// Insertion into a sorted sequence, from the back.
pub open spec fn insert_sorted(x: (i32, i128), s: Seq<(i32, i128)>) -> Seq<(i32, i128)>
    decreases s.len(),
{
    if s.len() == 0 {
        seq![x]
    } else if entry_before(x, s.last()) {
        insert_sorted(x, s.drop_last()).push(s.last())
    } else {
        s.push(x)
    }
}

/// Insertion sort under the entry order.
pub open spec fn sort_entries(s: Seq<(i32, i128)>) -> Seq<(i32, i128)>
    decreases s.len(),
{
    if s.len() == 0 {
        Seq::<(i32, i128)>::empty()
    } else {
        insert_sorted(s.last(), sort_entries(s.drop_last()))
    }
}

pub proof fn lemma_insert_sorted(x: (i32, i128), s: Seq<(i32, i128)>)
    requires
        sorted_desc(s),
    ensures
        insert_sorted(x, s).len() == s.len() + 1,
        sorted_desc(insert_sorted(x, s)),
        insert_sorted(x, s).to_multiset() =~= s.to_multiset().insert(x),
        insert_sorted(x, s).last() == x || (s.len() > 0 && insert_sorted(x, s).last()
            == s.last()),
    decreases s.len(),
{
    broadcast use group_to_multiset_ensures;

    if s.len() == 0 {
        assert(seq![x] =~= Seq::<(i32, i128)>::empty().push(x));
        assert(Seq::<(i32, i128)>::empty().to_multiset() =~= Multiset::<(i32, i128)>::empty());
    } else if entry_before(x, s.last()) {
        assert(sorted_desc(s.drop_last())) by {
            assert(forall|i: int|
                0 <= i < s.drop_last().len() - 1 ==> #[trigger] s.drop_last()[i] == s[i]
                    && s.drop_last()[i + 1] == s[i + 1]);
        }
        lemma_insert_sorted(x, s.drop_last());
        let r = insert_sorted(x, s.drop_last());
        let out = r.push(s.last());
        assert(sorted_desc(out)) by {
            assert(forall|i: int| 0 <= i < r.len() - 1 ==> #[trigger] out[i] == r[i] && out[i + 1]
                == r[i + 1]);
            assert(out[r.len() - 1] == r.last() && out[r.len() as int] == s.last());
            if r.last() == x {
                assert(!entry_before(s.last(), x));
            } else {
                assert(s.len() > 1 && r.last() == s.drop_last().last());
                assert(s.drop_last().last() == s[s.len() - 2]);
                assert(s.last() == s[s.len() - 2 + 1]);
                assert(!entry_before(s[s.len() - 2 + 1], s[s.len() - 2]));
            }
        }
        assert(out.to_multiset() =~= r.to_multiset().insert(s.last()));
        assert(s =~= s.drop_last().push(s.last()));
        assert(s.to_multiset() =~= s.drop_last().to_multiset().insert(s.last()));
        assert(out.to_multiset() =~= s.to_multiset().insert(x)) by {
            assert(r.to_multiset() =~= s.drop_last().to_multiset().insert(x));
        }
    } else {
        let out = s.push(x);
        assert(sorted_desc(out)) by {
            assert(forall|i: int| 0 <= i < s.len() - 1 ==> #[trigger] out[i] == s[i] && out[i + 1]
                == s[i + 1]);
            assert(out[s.len() - 1] == s.last() && out[s.len() as int] == x);
            assert(!entry_before(x, s.last()));
        }
    }
}

pub proof fn lemma_sort_entries(s: Seq<(i32, i128)>)
    ensures
        sort_entries(s).len() == s.len(),
        sorted_desc(sort_entries(s)),
        sort_entries(s).to_multiset() =~= s.to_multiset(),
    decreases s.len(),
{
    broadcast use group_to_multiset_ensures;

    if s.len() == 0 {
    } else {
        lemma_sort_entries(s.drop_last());
        lemma_insert_sorted(s.last(), sort_entries(s.drop_last()));
        assert(s =~= s.drop_last().push(s.last()));
        assert(s.to_multiset() =~= s.drop_last().to_multiset().insert(s.last()));
    }
}

/// Sorting keeps exactly the entries of the input.
pub proof fn lemma_sort_contains(s: Seq<(i32, i128)>, e: (i32, i128))
    ensures
        sort_entries(s).contains(e) <==> s.contains(e),
{
    broadcast use group_to_multiset_ensures;

    lemma_sort_entries(s);
    assert(sort_entries(s).contains(e) <==> sort_entries(s).to_multiset().count(e) > 0);
    assert(s.contains(e) <==> s.to_multiset().count(e) > 0);
}

/// Sorting a map with distinct keys yields a map with distinct keys.
pub proof fn lemma_sort_keys_distinct(s: Seq<(i32, i128)>)
    requires
        forall|j1: int, j2: int|
            0 <= j1 < j2 < s.len() ==> (#[trigger] s[j1]).0 != (#[trigger] s[j2]).0,
    ensures
        forall|k1: int, k2: int|
            0 <= k1 < k2 < sort_entries(s).len() ==> (#[trigger] sort_entries(s)[k1]).0 != (
            #[trigger] sort_entries(s)[k2]).0,
{
    broadcast use group_to_multiset_ensures;

    lemma_sort_entries(s);
    let out = sort_entries(s);
    assert(s.no_duplicates()) by {
        assert forall|i: int, j: int| 0 <= i < s.len() && 0 <= j < s.len() && i != j implies s[i]
            != s[j] by {
            if i < j {
                assert(s[i].0 != s[j].0);
            } else {
                assert(s[j].0 != s[i].0);
            }
        }
    }
    s.lemma_multiset_has_no_duplicates();
    assert(forall|x: (i32, i128)| out.to_multiset().contains(x) ==> out.to_multiset().count(x)
        == 1);
    out.lemma_multiset_has_no_duplicates_conv();
    assert forall|k1: int, k2: int|
        0 <= k1 < k2 < out.len() implies (#[trigger] out[k1]).0 != (#[trigger] out[k2]).0 by {
        assert(out[k1] != out[k2]);
        assert(out.contains(out[k1]) && out.contains(out[k2]));
        assert(out.to_multiset().count(out[k1]) > 0 && out.to_multiset().count(out[k2]) > 0);
        assert(s.to_multiset().count(out[k1]) > 0 && s.to_multiset().count(out[k2]) > 0);
        assert(s.contains(out[k1]) && s.contains(out[k2]));
        let i1 = choose|i: int| 0 <= i < s.len() && s[i] == out[k1];
        let i2 = choose|i: int| 0 <= i < s.len() && s[i] == out[k2];
        if out[k1].0 == out[k2].0 {
            assert(i1 != i2);
            if i1 < i2 {
                assert(s[i1].0 != s[i2].0);
            } else {
                assert(s[i2].0 != s[i1].0);
            }
            assert(false);
        }
    }
}

fn entry_before_exec(a: (i32, i128), b: (i32, i128)) -> (r: bool)
    ensures
        r == entry_before(a, b),
{
    a.1 > b.1 || (a.1 == b.1 && a.0 < b.0)
}

fn insert_sorted_exec(x: (i32, i128), v: Vec<(i32, i128)>) -> (out: Vec<(i32, i128)>)
    ensures
        out@ == insert_sorted(x, v@),
    decreases v@.len(),
{
    let ghost orig = v@;
    if v.len() == 0 {
        let mut out = v;
        out.push(x);
        proof {
            assert(out@ =~= seq![x]);
        }
        out
    } else {
        let last = v[v.len() - 1];
        if entry_before_exec(x, last) {
            let mut v2 = v;
            let l = v2.remove(v2.len() - 1);
            proof {
                assert(v2@ =~= orig.drop_last());
                assert(l == orig.last());
            }
            let mut r = insert_sorted_exec(x, v2);
            r.push(l);
            r
        } else {
            let mut out = v;
            out.push(x);
            out
        }
    }
}

/// Sorts score entries: score descending, id ascending on ties.
pub fn sort_entries_exec(v: Vec<(i32, i128)>) -> (out: Vec<(i32, i128)>)
    ensures
        out@ == sort_entries(v@),
{
    let ghost orig = v@;
    let mut acc: Vec<(i32, i128)> = Vec::new();
    let mut i: usize = 0;
    proof {
        assert(orig.take(0) =~= Seq::<(i32, i128)>::empty());
    }
    while i < v.len()
        invariant
            i <= orig.len(),
            v@ == orig,
            acc@ == sort_entries(orig.take(i as int)),
        decreases orig.len() - i,
    {
        proof {
            assert(orig.take(i as int + 1).drop_last() =~= orig.take(i as int));
            assert(orig.take(i as int + 1).last() == orig[i as int]);
        }
        acc = insert_sorted_exec(v[i], acc);
        i = i + 1;
    }
    proof {
        assert(orig.take(orig.len() as int) =~= orig);
    }
    acc
}

/// The smallest raw score of a nonempty map.
pub open spec fn min_val(s: Seq<(i32, i128)>) -> int
    recommends
        s.len() > 0,
    decreases s.len(),
{
    if s.len() <= 1 {
        s[0].1 as int
    } else {
        let m = min_val(s.drop_last());
        if s.last().1 < m {
            s.last().1 as int
        } else {
            m
        }
    }
}

/// The largest raw score of a nonempty map.
pub open spec fn max_val(s: Seq<(i32, i128)>) -> int
    recommends
        s.len() > 0,
    decreases s.len(),
{
    if s.len() <= 1 {
        s[0].1 as int
    } else {
        let m = max_val(s.drop_last());
        if s.last().1 > m {
            s.last().1 as int
        } else {
            m
        }
    }
}

/// Every raw score lies between the minimum and the maximum.
pub proof fn lemma_minmax(s: Seq<(i32, i128)>, k: int)
    requires
        0 <= k < s.len(),
    ensures
        min_val(s) <= s[k].1 <= max_val(s),
    decreases s.len(),
{
    if s.len() > 1 {
        if k < s.len() - 1 {
            assert(s.drop_last()[k] == s[k]);
            lemma_minmax(s.drop_last(), k);
        }
    }
}

/// Min-max normalization of a score map: an empty map stays empty; a map
/// with all scores equal maps every score to `SCALE`; otherwise each score
/// is rescaled linearly so the minimum lands on `0` and the maximum on
/// `SCALE`.
pub open spec fn normalize_spec(s: Seq<(i32, i128)>) -> Seq<(i32, i64)> {
    if s.len() == 0 {
        Seq::<(i32, i64)>::empty()
    } else {
        let mn = min_val(s);
        let mx = max_val(s);
        if mn == mx {
            Seq::new(s.len(), |i: int| (s[i].0, crate::SCALE))
        } else {
            Seq::new(
                s.len(),
                |i: int| (s[i].0, (((s[i].1 - mn) * (crate::SCALE as int)) / (mx - mn)) as i64),
            )
        }
    }
}

/// Min-max normalization.
#[verifier::loop_isolation(false)]
pub fn min_max_normalize(s: &Vec<(i32, i128)>) -> (out: Vec<(i32, i64)>)
    requires
        forall|k: int|
            0 <= k < s@.len() ==> -NORM_BOUND <= (#[trigger] s@[k]).1 <= NORM_BOUND,
    ensures
        out@ =~= normalize_spec(s@),
        out@.len() == s@.len(),
        forall|k: int|
            0 <= k < out@.len() ==> (#[trigger] out@[k]).0 == s@[k].0 && 0 <= out@[k].1
                <= crate::SCALE,
        s@.len() > 0 && min_val(s@) == max_val(s@) ==> forall|k: int|
            0 <= k < out@.len() ==> (#[trigger] out@[k]).1 == crate::SCALE,
        s@.len() > 0 && min_val(s@) != max_val(s@) ==> forall|k: int|
            0 <= k < out@.len() ==> ((s@[k].1 == min_val(s@) ==> (#[trigger] out@[k]).1 == 0) && (
            s@[k].1 == max_val(s@) ==> out@[k].1 == crate::SCALE)),
{
    let n = s.len();
    if n == 0 {
        let out: Vec<(i32, i64)> = Vec::new();
        proof {
            assert(out@ =~= normalize_spec(s@));
        }
        return out;
    }
    let mut mn: i128 = s[0].1;
    let mut mx: i128 = s[0].1;
    let mut i: usize = 1;
    proof {
        assert(min_val(s@.take(1)) == s@[0].1 && max_val(s@.take(1)) == s@[0].1);
    }
    while i < n
        invariant
            1 <= i <= n,
            mn as int == min_val(s@.take(i as int)),
            mx as int == max_val(s@.take(i as int)),
            -NORM_BOUND <= mn <= mx <= NORM_BOUND,
        decreases n - i,
    {
        proof {
            assert(s@.take(i as int + 1).drop_last() =~= s@.take(i as int));
            assert(s@.take(i as int + 1).last() == s@[i as int]);
        }
        let v = s[i].1;
        if v < mn {
            mn = v;
        }
        if v > mx {
            mx = v;
        }
        i = i + 1;
    }
    proof {
        assert(s@.take(n as int) =~= s@);
    }
    let mut out: Vec<(i32, i64)> = Vec::new();
    if mn == mx {
        let mut k: usize = 0;
        while k < n
            invariant
                k <= n,
                out@.len() == k,
                forall|j: int|
                    0 <= j < k ==> (#[trigger] out@[j]) == (s@[j].0, crate::SCALE),
            decreases n - k,
        {
            out.push((s[k].0, crate::SCALE));
            k = k + 1;
        }
        proof {
            assert(out@ =~= normalize_spec(s@));
        }
        out
    } else {
        let range: i128 = mx - mn;
        let mut k: usize = 0;
        while k < n
            invariant
                k <= n,
                out@.len() == k,
                forall|j: int|
                    0 <= j < k ==> (#[trigger] out@[j]) == (
                        s@[j].0,
                        (((s@[j].1 - min_val(s@)) * (crate::SCALE as int)) / (max_val(s@)
                            - min_val(s@))) as i64,
                    ) && 0 <= out@[j].1 <= crate::SCALE,
                forall|j: int|
                    0 <= j < k ==> ((s@[j].1 == min_val(s@) ==> (#[trigger] out@[j]).1 == 0) && (
                    s@[j].1 == max_val(s@) ==> out@[j].1 == crate::SCALE)),
            decreases n - k,
        {
            proof {
                lemma_minmax(s@, k as int);
            }
            let v = s[k].1;
            let num: u128 = ((v - mn) as u128) * 1000;
            let den: u128 = range as u128;
            let q: u128 = num / den;
            proof {
                let nv = (v - mn) as int;
                let d = (mx - mn) as int;
                vstd::arithmetic::mul::lemma_mul_inequality(nv, d, crate::SCALE as int);
                assert(nv * (crate::SCALE as int) <= d * (crate::SCALE as int));
                vstd::arithmetic::div_mod::lemma_div_is_ordered(
                    nv * (crate::SCALE as int),
                    d * (crate::SCALE as int),
                    d,
                );
                vstd::arithmetic::div_mod::lemma_div_multiples_vanish(crate::SCALE as int, d);
                assert(d * (crate::SCALE as int) == (crate::SCALE as int) * d)
                    by (nonlinear_arith);
                vstd::arithmetic::div_mod::lemma_div_pos_is_pos(nv * (crate::SCALE as int), d);
                assert((nv * (crate::SCALE as int)) / d <= crate::SCALE as int);
                if v == mx {
                    assert(nv == d);
                }
            }
            out.push((s[k].0, q as i64));
            k = k + 1;
        }
        proof {
            assert(out@ =~= normalize_spec(s@));
        }
        out
    }
}

} // verus!
