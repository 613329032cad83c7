//! Choosing the positions of the largest keys.

use vstd::prelude::*;

use itertools::Itertools;

use vstd::set_lib::lemma_len_subset;

verus! {

/// `top` holds `min(k, |keys|)` distinct positions of `keys`, their keys in
/// descending order, and no position left out has a larger key than the
/// last one taken.
pub open spec fn is_top(keys: Seq<i128>, k: usize, top: Seq<usize>) -> bool {
    &&& top.len() == if k < keys.len() {
        k as int
    } else {
        keys.len() as int
    }
    &&& forall|a: int| 0 <= a < top.len() ==> #[trigger] top[a] < keys.len()
    &&& forall|a: int, b: int| 0 <= a < b < top.len() ==> top[a] != top[b]
    &&& forall|a: int, b: int|
        0 <= a < b < top.len() ==> keys[top[a] as int] >= keys[top[b] as int]
    &&& forall|x: int|
        0 <= x < keys.len() && !top.contains(x as usize) && top.len() > 0 ==> #[trigger] keys[x]
            <= keys[top.last() as int]
}

proof fn lemma_top_key_le(keys: Seq<i128>, k: usize, a: Seq<usize>, b: Seq<usize>, i: int)
    requires
        is_top(keys, k, a),
        is_top(keys, k, b),
        0 <= i < a.len(),
    ensures
        keys[a[i] as int] <= keys[b[i] as int],
{
    if keys[a[i] as int] > keys[b[i] as int] {
        let sa = a.take(i + 1);
        let sb = b.take(i);
        assert(sa.no_duplicates()) by {
            assert forall|x: int, y: int|
                0 <= x < sa.len() && 0 <= y < sa.len() && x != y implies sa[x] != sa[y] by {
                if x < y {
                    assert(a[x] != a[y]);
                } else {
                    assert(a[y] != a[x]);
                }
            }
        }
        sa.unique_seq_to_set();
        sb.lemma_cardinality_of_set();
        assert forall|x: usize| sa.to_set().contains(x) implies sb.to_set().contains(x) by {
            let j = choose|j: int| 0 <= j < sa.len() && sa[j] == x;
            assert(a[j] == x);
            if j < i {
                assert(keys[a[j] as int] >= keys[a[i] as int]);
            }
            assert(keys[x as int] > keys[b[i] as int]);
            if i < b.len() - 1 {
                assert(keys[b[i] as int] >= keys[b.last() as int]);
            }
            if !b.contains(x) {
                assert(keys[x as int] <= keys[b.last() as int]);
            }
            let p = choose|p: int| 0 <= p < b.len() && b[p] == x;
            if p > i {
                assert(keys[b[i] as int] >= keys[b[p] as int]);
            }
            assert(p < i);
            assert(sb[p] == x);
        }
        lemma_len_subset(sa.to_set(), sb.to_set());
    }
}

/// Any two ways of taking the `k` largest keys agree on the key at every
/// position: only the choice among equal keys is open.
pub proof fn top_keys_agree(keys: Seq<i128>, k: usize, a: Seq<usize>, b: Seq<usize>)
    requires
        is_top(keys, k, a),
        is_top(keys, k, b),
    ensures
        a.len() == b.len(),
        forall|i: int| 0 <= i < a.len() ==> keys[#[trigger] a[i] as int] == keys[b[i] as int],
{
    assert forall|i: int| 0 <= i < a.len() implies keys[#[trigger] a[i] as int] == keys[b[i] as int] by {
        lemma_top_key_le(keys, k, a, b, i);
        lemma_top_key_le(keys, k, b, a, i);
    }
}

/// The positions that itertools' `k_largest_by_key` picks from `keys`.
pub uninterp spec fn k_largest_of(keys: Seq<i128>, k: usize) -> Seq<usize>;

/// Relies on itertools' `k_largest_by_key`: it returns the `k` largest items
/// in descending order of key, and which of equal keys it keeps is fixed by
/// the sequence of keys alone.
#[verifier::external_body]
pub(crate) fn k_largest(keys: &Vec<i128>, k: usize) -> (r: Vec<usize>)
    ensures
        r@ == k_largest_of(keys@, k),
        is_top(keys@, k, r@),
{
    keys.iter().enumerate().k_largest_by_key(k, |&(_, key)| *key).map(|(i, _)| i).collect()
}

} // verus!
