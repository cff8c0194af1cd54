//! Index plumbing: gathering by index, stable ordering of positions by key,
//! and the in-place rearrangement of a slice along a permutation.

use vstd::prelude::*;
use vstd::slice::slice_to_vec;

verus! {

/// `indices` names each position of `0..n` exactly once.
pub open spec fn is_permutation(indices: Seq<usize>, n: nat) -> bool {
    &&& indices.len() == n
    &&& forall|i: int| 0 <= i < n ==> (#[trigger] indices[i]) < n
    &&& forall|i: int, j: int| 0 <= i < j < n ==> indices[i] != indices[j]
}

/// `order` lists the positions of `keys` by ascending key, equal keys by
/// ascending position.
pub open spec fn is_stable_argsort(keys: Seq<u32>, order: Seq<usize>) -> bool {
    &&& is_permutation(order, keys.len())
    &&& forall|i: int, j: int|
        0 <= i < j < keys.len() ==> {
            ||| keys[order[i] as int] < keys[order[j] as int]
            ||| (keys[order[i] as int] == keys[order[j] as int] && order[i] < order[j])
        }
}

/// The items of `array` found at `indices`, in the order of `indices`.
pub fn subset(array: &[u32], indices: &[usize]) -> (picked: Vec<u32>)
    requires
        forall|i: int| 0 <= i < indices@.len() ==> (#[trigger] indices@[i]) < array@.len(),
    ensures
        picked@.len() == indices@.len(),
        forall|i: int| 0 <= i < indices@.len() ==> picked@[i] == array@[indices@[i] as int],
{
    let mut picked: Vec<u32> = Vec::new();
    let mut k: usize = 0;
    while k < indices.len()
        invariant
            k <= indices@.len(),
            picked@.len() == k,
            forall|i: int| 0 <= i < indices@.len() ==> (#[trigger] indices@[i]) < array@.len(),
            forall|i: int| 0 <= i < k ==> picked@[i] == array@[indices@[i] as int],
        decreases indices@.len() - k,
    {
        picked.push(array[indices[k]]);
        k += 1;
    }
    picked
}

/// `sort_by_key` of std's slices, on positions keyed by `keys`. Claimed of it:
/// it rearranges `indices` (same length, every item one of the old ones,
/// nothing doubled that was single), leaves the keys non-decreasing, and, being
/// a stable sort, keeps items of equal key in their earlier order, which for
/// an ascending input is ascending.
#[verifier::external_body]
fn sort_positions_by_key(indices: &mut Vec<usize>, keys: &[u32])
    requires
        forall|i: int| 0 <= i < old(indices)@.len() ==> (#[trigger] old(indices)@[i]) < keys@.len(),
    ensures
        final(indices)@.len() == old(indices)@.len(),
        forall|i: int|
            0 <= i < final(indices)@.len() ==> old(indices)@.contains(
                #[trigger] final(indices)@[i],
            ),
        old(indices)@.no_duplicates() ==> final(indices)@.no_duplicates(),
        forall|i: int, j: int|
            0 <= i < j < final(indices)@.len() ==> keys@[final(indices)@[i] as int]
                <= keys@[final(indices)@[j] as int],
        (forall|a: int, b: int| 0 <= a < b < old(indices)@.len() ==> old(indices)@[a] < old(indices)@[b])
            ==> (forall|i: int, j: int|
            0 <= i < j < final(indices)@.len() && keys@[final(indices)@[i] as int]
                == keys@[final(indices)@[j] as int] ==> final(indices)@[i] < final(indices)@[j]),
{
    indices.sort_by_key(|i| keys[*i]);
}

/// The positions of `arr` in ascending order of their values; positions of
/// equal value stay in ascending order.
pub fn argsort(arr: &[u32]) -> (order: Vec<usize>)
    ensures
        is_stable_argsort(arr@, order@),
{
    let n: usize = arr.len();
    let mut order: Vec<usize> = Vec::new();
    let mut k: usize = 0;
    while k < n
        invariant
            k <= n,
            n == arr@.len(),
            order@.len() == k,
            forall|i: int| 0 <= i < k ==> order@[i] == i,
        decreases n - k,
    {
        order.push(k);
        k += 1;
    }
    let ghost identity = order@;
    assert(identity.no_duplicates());
    sort_positions_by_key(&mut order, arr);
    proof {
        assert forall|i: int| 0 <= i < n implies (#[trigger] order@[i]) < n by {
            let w = choose|w: int| 0 <= w < identity.len() && identity[w] == order@[i];
            assert(identity[w] == w);
        }
    }
    order
}

/// `Vec::swap` of std's slices: the items at `a` and `b` change places and
/// every other item stays.
#[verifier::external_body]
fn swap_items<T>(data: &mut [T], a: usize, b: usize)
    requires
        a < old(data)@.len(),
        b < old(data)@.len(),
    ensures
        final(data)@ == old(data)@.update(a as int, old(data)@[b as int]).update(
            b as int,
            old(data)@[a as int],
        ),
{
    data.swap(a, b)
}

/// The value `x` after positions `a` and `b` have changed places.
pub open spec fn exchanged(x: usize, a: usize, b: usize) -> usize {
    if x == a {
        b
    } else if x == b {
        a
    } else {
        x
    }
}

/// Rearranges `data` in place so that position `i` holds what stood at
/// `indices[i]`, walking each cycle of the permutation once.
pub fn sort_by_indices<T>(data: &mut [T], indices: &[usize])
    requires
        is_permutation(indices@, old(data)@.len()),
    ensures
        final(data)@.len() == old(data)@.len(),
        forall|i: int|
            0 <= i < old(data)@.len() ==> final(data)@[i] == old(data)@[indices@[i] as int],
{
    let n: usize = data.len();
    let mut ind: Vec<usize> = slice_to_vec(indices);
    let ghost orig = data@;
    let mut idx: usize = 0;
    while idx < n
        invariant
            idx <= n,
            data@.len() == n,
            orig.len() == n,
            indices@.len() == n,
            is_permutation(ind@, n as nat),
            forall|j: int| 0 <= j < n ==> data@[ind@[j] as int] == orig[indices@[j] as int],
            forall|j: int| 0 <= j < idx ==> ind@[j] == j,
        decreases n - idx,
    {
        if ind[idx] != idx {
            let mut cur: usize = idx;
            let ghost mut v: Seq<usize> = ind@;
            let ghost mut settled: Set<int> = Set::empty();
            loop
                invariant_except_break
                    idx <= cur < n,
                    is_permutation(v, n as nat),
                    forall|j: int| 0 <= j < n ==> data@[v[j] as int] == orig[indices@[j] as int],
                    forall|j: int| 0 <= j < idx ==> v[j] == j,
                    cur == idx ==> ind@[idx as int] != idx,
                    cur != idx ==> ind@[idx as int] == idx && v[idx as int] == idx,
                    forall|j: int|
                        0 <= j < n ==> if cur != idx && v[j] == cur {
                            ind@[j] == idx
                        } else {
                            ind@[j] == v[j]
                        },
                    settled.finite(),
                    settled.len() <= n,
                    forall|x: int| settled.contains(x) ==> 0 <= x < n && v[x] == x,
                invariant
                    idx < n,
                    data@.len() == n,
                    orig.len() == n,
                    indices@.len() == n,
                    ind@.len() == n,
                ensures
                    is_permutation(ind@, n as nat),
                    forall|j: int| 0 <= j < n ==> data@[ind@[j] as int] == orig[indices@[j] as int],
                    forall|j: int| 0 <= j <= idx ==> ind@[j] == j,
                decreases n - settled.len(),
            {
                let target: usize = ind[cur];
                let ghost before = ind@;
                proof {
                    assert(v[cur as int] < n);
                    assert(target == idx || target == v[cur as int]);
                }
                ind[cur] = cur;
                if ind[target] == target {
                    proof {
                        if cur == idx {
                            assert(v[target as int] == target);
                            assert(v[idx as int] == target);
                        } else if v[cur as int] != cur {
                            assert(before[cur as int] == v[cur as int]);
                            if v[target as int] == cur {
                                assert(before[target as int] == idx);
                            } else {
                                assert(v[target as int] == target);
                            }
                        }
                        assert(cur != idx && v[cur as int] == cur);
                        assert(ind@ =~= v);
                    }
                    break ;
                }
                swap_items(data, cur, target);
                proof {
                    let prev = v;
                    assert(prev[cur as int] == target);
                    assert(target != cur);
                    v = Seq::new(n as nat, |j: int| exchanged(prev[j], cur, target));
                    vstd::set_lib::lemma_int_range(0, n as int);
                    let grown = settled.insert(cur as int);
                    assert(grown.subset_of(vstd::set_lib::set_int_range(0, n as int)));
                    vstd::set_lib::lemma_len_subset(grown, vstd::set_lib::set_int_range(0, n as int));
                    assert(!settled.contains(cur as int));
                    settled = grown;
                    assert(target >= idx) by {
                        if target < idx {
                            assert(prev[target as int] == target);
                        }
                    }
                }
                cur = target;
            }
        }
        idx += 1;
    }
    proof {
        assert forall|i: int| 0 <= i < n implies data@[i] == orig[indices@[i] as int] by {
            assert(ind@[i] == i);
        }
    }
}

/// A permutation of `0..n` names every position below `n`.
pub proof fn lemma_permutation_covers(order: Seq<usize>, n: nat, v: int)
    requires
        is_permutation(order, n),
        0 <= v < n,
    ensures
        exists|i: int| 0 <= i < n && order[i] == v,
{
    let named = Seq::new(n, |i: int| order[i] as int);
    assert(named.no_duplicates()) by {
        assert forall|i: int, j: int| 0 <= i < named.len() && 0 <= j < named.len() && i
            != j implies named[i] != named[j] by {
            if i < j {
                assert(order[i] != order[j]);
            } else {
                assert(order[j] != order[i]);
            }
        }
    }
    named.unique_seq_to_set();
    vstd::seq_lib::seq_to_set_is_finite(named);
    vstd::set_lib::lemma_int_range(0, n as int);
    let all = vstd::set_lib::set_int_range(0, n as int);
    assert(named.to_set().subset_of(all)) by {
        assert forall|x: int| named.to_set().contains(x) implies all.contains(x) by {
            assert(named.contains(x));
            let i = choose|i: int| 0 <= i < named.len() && named[i] == x;
            assert(order[i] < n);
        }
    }
    vstd::set_lib::lemma_subset_equality(named.to_set(), all);
    assert(all.contains(v));
    assert(named.to_set().contains(v));
    assert(named.contains(v));
    let i = choose|i: int| 0 <= i < named.len() && named[i] == v;
    assert(order[i] == v);
}

/// Two stable orderings of the same keys agree on their first `k`
/// positions.
pub proof fn lemma_stable_argsort_agree(keys: Seq<u32>, a: Seq<usize>, b: Seq<usize>, k: int)
    requires
        is_stable_argsort(keys, a),
        is_stable_argsort(keys, b),
        0 <= k <= keys.len(),
    ensures
        forall|i: int| 0 <= i < k ==> a[i] == b[i],
    decreases k,
{
    if k > 0 {
        lemma_stable_argsort_agree(keys, a, b, k - 1);
        let m = k - 1;
        let x = a[m];
        let y = b[m];
        if x != y {
            assert(x < keys.len() && y < keys.len());
            lemma_permutation_covers(b, keys.len(), x as int);
            let j = choose|j: int| 0 <= j < keys.len() && b[j] == x;
            if j < m {
                assert(a[j] == b[j]);
                assert(a[j] != a[m]);
            }
            lemma_permutation_covers(a, keys.len(), y as int);
            let h = choose|h: int| 0 <= h < keys.len() && a[h] == y;
            if h < m {
                assert(a[h] == b[h]);
                assert(b[h] != b[m]);
            }
            assert(m < j && m < h);
            assert(keys[b[m] as int] < keys[b[j] as int] || (keys[b[m] as int] == keys[b[j] as int]
                && b[m] < b[j]));
            assert(keys[a[m] as int] < keys[a[h] as int] || (keys[a[m] as int] == keys[a[h] as int]
                && a[m] < a[h]));
        }
    }
}

/// The keys have one stable ordering only.
pub proof fn lemma_stable_argsort_unique(keys: Seq<u32>, a: Seq<usize>, b: Seq<usize>)
    requires
        is_stable_argsort(keys, a),
        is_stable_argsort(keys, b),
    ensures
        a == b,
{
    lemma_stable_argsort_agree(keys, a, b, keys.len() as int);
    assert(a =~= b);
}

} // verus!
