//! The order in which numbered files are listed: by number, and among equal
//! numbers in the order they were given (what a stable sort gives).

use vstd::prelude::*;

verus! {

/// Entry `a` comes before entry `b`: a smaller key, or an equal key and an
/// earlier position.
pub open spec fn comes_before(keys: Seq<i16>, a: int, b: int) -> bool {
    keys[a] < keys[b] || (keys[a] == keys[b] && a < b)
}

/// `p` lists every position of `keys` once, in the order of their keys,
/// equal keys keeping the order in which they are given.
pub open spec fn is_key_order(keys: Seq<i16>, p: Seq<usize>) -> bool {
    &&& p.len() == keys.len()
    &&& forall|k: int| 0 <= k < p.len() ==> #[trigger] p[k] < keys.len()
    &&& forall|i: usize| i < keys.len() ==> p.contains(i)
    &&& forall|a: int, b: int|
        0 <= a < b < p.len() ==> comes_before(keys, #[trigger] p[a] as int, #[trigger] p[b] as int)
}

/// The positions of `keys` sorted stably by key.
pub fn key_order(keys: &Vec<i16>) -> (p: Vec<usize>)
    ensures
        is_key_order(keys@, p@),
{
    let mut p: Vec<usize> = Vec::new();
    let mut i: usize = 0;
    while i < keys.len()
        invariant
            i <= keys.len(),
            p@.len() == i,
            forall|k: int| 0 <= k < p@.len() ==> #[trigger] p@[k] < i,
            forall|j: usize| j < i ==> p@.contains(j),
            forall|a: int, b: int|
                0 <= a < b < p@.len() ==> comes_before(
                    keys@,
                    #[trigger] p@[a] as int,
                    #[trigger] p@[b] as int,
                ),
        decreases keys.len() - i,
    {
        let key = keys[i];
        let mut pos: usize = 0;
        while pos < p.len() && keys[p[pos]] <= key
            invariant
                pos <= p@.len(),
                p@.len() == i,
                i < keys.len(),
                key == keys@[i as int],
                forall|k: int| 0 <= k < p@.len() ==> #[trigger] p@[k] < i,
                forall|k: int| 0 <= k < pos ==> keys@[#[trigger] p@[k] as int] <= key,
            decreases p@.len() - pos,
        {
            pos = pos + 1;
        }
        let ghost before = p@;
        p.insert(pos, i);
        proof {
            assert forall|k: int| 0 <= k < p@.len() implies #[trigger] p@[k] < i + 1 by {
                if k < pos {
                    assert(p@[k] == before[k]);
                } else if k > pos {
                    assert(p@[k] == before[k - 1]);
                }
            }
            assert forall|j: usize| j < i + 1 implies p@.contains(j) by {
                if j == i {
                    assert(p@[pos as int] == i);
                } else {
                    assert(before.contains(j));
                    let k = choose|k: int| 0 <= k < before.len() && before[k] == j;
                    if k < pos {
                        assert(p@[k] == j);
                    } else {
                        assert(p@[k + 1] == j);
                    }
                }
            }
            assert forall|a: int, b: int| 0 <= a < b < p@.len() implies comes_before(
                keys@,
                #[trigger] p@[a] as int,
                #[trigger] p@[b] as int,
            ) by {
                if b < pos {
                    assert(p@[a] == before[a] && p@[b] == before[b]);
                    assert(comes_before(keys@, before[a] as int, before[b] as int));
                } else if b == pos {
                    assert(p@[a] == before[a]);
                    assert(keys@[before[a] as int] <= key);
                    assert(before[a] < i);
                } else if a < pos {
                    assert(p@[a] == before[a] && p@[b] == before[b - 1]);
                    assert(comes_before(keys@, before[a] as int, before[b - 1] as int));
                } else if a == pos {
                    assert(p@[b] == before[b - 1]);
                    assert(keys@[before[pos as int] as int] > key);
                    if b - 1 > pos {
                        assert(comes_before(keys@, before[pos as int] as int, before[b - 1] as int));
                    }
                } else {
                    assert(p@[a] == before[a - 1] && p@[b] == before[b - 1]);
                    assert(comes_before(keys@, before[a - 1] as int, before[b - 1] as int));
                }
            }
        }
        i = i + 1;
    }
    p
}

proof fn lemma_key_orders_agree_below(keys: Seq<i16>, p: Seq<usize>, q: Seq<usize>, k: int)
    requires
        is_key_order(keys, p),
        is_key_order(keys, q),
        0 <= k <= p.len(),
    ensures
        forall|m: int| 0 <= m < k ==> p[m] == q[m],
    decreases k,
{
    if k > 0 {
        lemma_key_orders_agree_below(keys, p, q, k - 1);
        let m = k - 1;
        let x = p[m];
        let y = q[m];
        if x != y {
            assert(x < keys.len());
            assert(y < keys.len());
            assert(q.contains(x));
            let j = choose|j: int| 0 <= j < q.len() && q[j] == x;
            assert(p.contains(y));
            let jp = choose|j: int| 0 <= j < p.len() && p[j] == y;
            if j < m {
                assert(p[j] == q[j]);
                assert(comes_before(keys, p[j] as int, p[m] as int));
            } else if jp < m {
                assert(p[jp] == q[jp]);
                assert(comes_before(keys, q[jp] as int, q[m] as int));
            } else {
                assert(j > m && jp > m);
                assert(comes_before(keys, q[m] as int, q[j] as int));
                assert(comes_before(keys, p[m] as int, p[jp] as int));
            }
        }
    }
}

/// The order is determined by the keys: two orders of the same keys are the
/// same list.
pub proof fn lemma_key_order_unique(keys: Seq<i16>, p: Seq<usize>, q: Seq<usize>)
    requires
        is_key_order(keys, p),
        is_key_order(keys, q),
    ensures
        p == q,
{
    lemma_key_orders_agree_below(keys, p, q, p.len() as int);
    assert(p =~= q);
}

} // verus!
