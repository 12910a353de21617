//! Index masks: the ascending lists of achievement or item numbers that a
//! filter lets through, and how they are combined.

use vstd::prelude::*;
use find_all::FindAll;

verus! {

/// Every element of `s` is smaller than the next one.
pub open spec fn strictly_increasing(s: Seq<i32>) -> bool {
    forall|a: int, b: int| 0 <= a < b < s.len() ==> s[a] < s[b]
}

/// The numbers `lo, lo + 1, ..., hi - 1` (none where `hi <= lo`).
pub open spec fn span(lo: int, hi: int) -> Seq<i32> {
    if hi <= lo {
        Seq::<i32>::empty()
    } else {
        Seq::new((hi - lo) as nat, |k: int| (lo + k) as i32)
    }
}

/// `(lo..hi).collect::<Vec<i32>>()`.
pub fn span_vec(lo: i32, hi: i32) -> (v: Vec<i32>)
    ensures
        v@ == span(lo as int, hi as int),
        strictly_increasing(v@),
{
    let mut v: Vec<i32> = Vec::new();
    let mut k = lo;
    if hi <= lo {
        assert(v@ =~= span(lo as int, hi as int));
        return v;
    }
    while k < hi
        invariant
            lo <= k <= hi,
            v@ =~= Seq::new((k - lo) as nat, |j: int| (lo + j) as i32),
        decreases hi - k,
    {
        v.push(k);
        k = k + 1;
    }
    assert(v@ =~= span(lo as int, hi as int));
    v
}

/// `x.max(lo).min(hi)` for `lo <= hi`.
pub open spec fn clamp(x: int, lo: int, hi: int) -> int {
    if x < lo {
        lo
    } else if x > hi {
        hi
    } else {
        x
    }
}

/// The numbers that a range `x..=y` of one-based positions selects among
/// `total` entries: from `x - 1` (at least 0, at most `total`) up to, not
/// including, `y` (at most `total`).
pub open spec fn range_selection(x: int, y: int, total: int) -> Seq<i32> {
    span(clamp(x - 1, 0, total), if y < total { y } else { total })
}

/// A range selects, ascending and each once, exactly the numbers `n` with
/// `x - 1 <= n < y` that are entry numbers (`0 <= n < total`).
pub proof fn lemma_range_selection(x: int, y: int, total: int)
    requires
        i32::MIN < x <= i32::MAX,
        i32::MIN <= y <= i32::MAX,
        0 <= total <= i32::MAX,
    ensures
        strictly_increasing(range_selection(x, y, total)),
        forall|n: i32| #[trigger]
            range_selection(x, y, total).contains(n) <==> (x - 1 <= n && 0 <= n && n < y && n < total),
{
    let lo = clamp(x - 1, 0, total);
    let hi = if y < total { y } else { total };
    let r = range_selection(x, y, total);
    assert forall|n: i32| #[trigger] r.contains(n) <==> (x - 1 <= n && 0 <= n && n < y && n < total) by {
        if r.contains(n) {
            let k = choose|k: int| 0 <= k < r.len() && r[k] == n;
            assert(r[k] == (lo + k) as i32);
        }
        if x - 1 <= n && 0 <= n && n < y && n < total {
            assert(r[n - lo] == n);
        }
    }
}

/// The mask of a range change: `((x - 1).max(0).min(total)..y.min(total))`.
pub fn range_mask(x: i32, y: i32, total: i32) -> (v: Vec<i32>)
    requires
        x > i32::MIN,
        total >= 0,
    ensures
        v@ == range_selection(x as int, y as int, total as int),
        strictly_increasing(v@),
        forall|k: int| 0 <= k < v@.len() ==> 0 <= #[trigger] v@[k] < total,
{
    let from = x - 1;
    let lo = if from < 0 { 0 } else if from > total { total } else { from };
    let hi = if y < total { y } else { total };
    span_vec(lo, hi)
}

/// Puts `x` into the strictly increasing `v`, unless it is there already.
pub fn insert_sorted(v: &mut Vec<i32>, x: i32)
    requires
        strictly_increasing(old(v)@),
    ensures
        strictly_increasing(final(v)@),
        forall|y: i32| final(v)@.contains(y) <==> (old(v)@.contains(y) || y == x),
{
    let mut p: usize = 0;
    while p < v.len() && v[p] < x
        invariant
            p <= v.len(),
            v@ == old(v)@,
            forall|k: int| 0 <= k < p ==> v@[k] < x,
        decreases v.len() - p,
    {
        p = p + 1;
    }
    if p < v.len() && v[p] == x {
        assert(v@.contains(x));
        return;
    }
    let ghost before = v@;
    v.insert(p, x);
    assert forall|a: int, b: int| 0 <= a < b < v@.len() implies v@[a] < v@[b] by {
        if b < p {
        } else if b == p {
        } else if a < p {
            assert(before[b - 1] > x || before[b - 1] == x || before[b - 1] < x);
            assert(v@[b] == before[b - 1]);
            if p < before.len() {
                assert(before[p as int] >= x);
                assert(before[p as int] != x);
                assert(b - 1 >= p ==> before[p as int] <= before[b - 1]);
            }
        } else if a == p {
            assert(before[p as int] > x);
            assert(b - 1 >= p ==> before[p as int] <= before[b - 1]);
        } else {
        }
    }
    assert forall|y: i32| v@.contains(y) <==> (before.contains(y) || y == x) by {
        if v@.contains(y) {
            let k = choose|k: int| 0 <= k < v@.len() && v@[k] == y;
            if k < p {
                assert(before[k] == y);
            } else if k > p {
                assert(before[k - 1] == y);
            }
        }
        if before.contains(y) {
            let k = choose|k: int| 0 <= k < before.len() && before[k] == y;
            if k < p {
                assert(v@[k] == y);
            } else {
                assert(v@[k + 1] == y);
            }
        }
        if y == x {
            assert(v@[p as int] == x);
        }
    }
    assert(before == old(v)@);
    assert(forall|y: i32| #[trigger] v@.contains(y) <==> (old(v)@.contains(y) || y == x));
}

/// Whether `x` is an element of `v`.
pub fn vec_contains(v: &Vec<i32>, x: i32) -> (r: bool)
    ensures
        r == v@.contains(x),
{
    let mut k: usize = 0;
    while k < v.len()
        invariant
            k <= v.len(),
            forall|j: int| 0 <= j < k ==> v@[j] != x,
        decreases v.len() - k,
    {
        if v[k] == x {
            return true;
        }
        k = k + 1;
    }
    false
}

/// The numbers in both `a` and `b`, ascending and each once: what the
/// intersection of the two as sets gives once sorted.
pub fn sorted_intersection(a: &Vec<i32>, b: &Vec<i32>) -> (r: Vec<i32>)
    ensures
        strictly_increasing(r@),
        forall|x: i32| r@.contains(x) <==> (a@.contains(x) && b@.contains(x)),
{
    let mut r: Vec<i32> = Vec::new();
    let mut i: usize = 0;
    while i < a.len()
        invariant
            i <= a.len(),
            strictly_increasing(r@),
            forall|x: i32| r@.contains(x) <==> (a@.take(i as int).contains(x) && b@.contains(x)),
        decreases a.len() - i,
    {
        let x = a[i];
        let ghost old_r = r@;
        assert(a@.take(i + 1) =~= a@.take(i as int).push(x));
        let in_b = vec_contains(b, x);
        if in_b {
            insert_sorted(&mut r, x);
        }
        assert forall|y: i32| r@.contains(y) <==> (a@.take(i + 1).contains(y) && b@.contains(y)) by {
            assert(old_r.contains(y) <==> (a@.take(i as int).contains(y) && b@.contains(y)));
            if in_b {
                assert(r@.contains(y) <==> (old_r.contains(y) || y == x));
            } else {
                assert(r@ == old_r);
            }
            assert(a@.take(i + 1)[i as int] == x);
            if a@.take(i as int).contains(y) {
                let k = choose|k: int| 0 <= k < i && a@.take(i as int)[k] == y;
                assert(a@.take(i + 1)[k] == y);
            }
            if a@.take(i + 1).contains(y) {
                let k = choose|k: int| 0 <= k < i + 1 && #[trigger] a@.take(i + 1)[k] == y;
                if k < i {
                    assert(a@.take(i as int)[k] == y);
                }
            }
        }
        i = i + 1;
    }
    assert(a@.take(a.len() as int) =~= a@);
    r
}

/// `v` lists, ascending, exactly the positions of `flags` that hold `true`.
pub open spec fn lists_true_positions(flags: Seq<bool>, v: Seq<usize>) -> bool {
    &&& forall|a: int, b: int| 0 <= a < b < v.len() ==> v[a] < v[b]
    &&& forall|k: usize| v.contains(k) <==> (k < flags.len() && flags[k as int])
}

/// `FindAll::find_all` of the `find_all` crate, over the flags with the
/// predicate that reads the flag. Trusted: as its source shows, it gives
/// `None` where no flag is set, else the positions of the set flags in
/// increasing order.
#[verifier::external_body]
fn positions_where(flags: &Vec<bool>) -> (r: Option<Vec<usize>>)
    ensures
        match r {
            None => forall|k: int| 0 <= k < flags@.len() ==> !flags@[k],
            Some(v) => (exists|k: int| 0 <= k < flags@.len() && flags@[k]) && lists_true_positions(
                flags@,
                v@,
            ),
        },
{
    flags.iter().find_all(|f: &&bool| **f)
}

/// The positions of the set flags, as `find_all` reports them: `None` where
/// there is none.
pub fn set_positions(flags: &Vec<bool>) -> (r: Option<Vec<usize>>)
    ensures
        match r {
            None => forall|k: int| 0 <= k < flags@.len() ==> !flags@[k],
            Some(v) => (exists|k: int| 0 <= k < flags@.len() && flags@[k]) && lists_true_positions(
                flags@,
                v@,
            ),
        },
{
    positions_where(flags)
}

/// Positions turned into the numbers the masks hold (`x as i32`).
pub fn positions_to_ids(v: &Vec<usize>) -> (r: Vec<i32>)
    requires
        forall|k: int| 0 <= k < v@.len() ==> v@[k] <= i32::MAX,
    ensures
        r@.len() == v@.len(),
        forall|k: int| 0 <= k < v@.len() ==> r@[k] as int == v@[k] as int,
{
    let mut r: Vec<i32> = Vec::new();
    let mut i: usize = 0;
    while i < v.len()
        invariant
            i <= v.len(),
            forall|k: int| 0 <= k < v@.len() ==> v@[k] <= i32::MAX,
            r@.len() == i,
            forall|k: int| 0 <= k < i ==> r@[k] as int == v@[k] as int,
        decreases v.len() - i,
    {
        r.push(v[i] as i32);
        i = i + 1;
    }
    r
}

} // verus!
