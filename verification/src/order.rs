//! The byte-wise order of keys, and the order in which the entries of a
//! dictionary are encoded.

use vstd::prelude::*;

verus! {

/// Lexicographic order on byte strings: `a` comes strictly before `b`.
pub open spec fn lex_less(a: Seq<u8>, b: Seq<u8>) -> bool
    decreases a.len(),
{
    if b.len() == 0 {
        false
    } else if a.len() == 0 {
        true
    } else if a[0] != b[0] {
        a[0] < b[0]
    } else {
        lex_less(a.skip(1), b.skip(1))
    }
}

/// Where two byte strings first differ, if `a` comes before `b`: at `k` both
/// have the same bytes before `k`, and there `a` ends and `b` goes on, or `a`
/// has the smaller byte.
pub open spec fn differs_first_at(a: Seq<u8>, b: Seq<u8>, k: int) -> bool {
    &&& 0 <= k <= a.len()
    &&& k < b.len()
    &&& forall|i: int| 0 <= i < k ==> a[i] == b[i]
    &&& (k == a.len() || a[k] < b[k])
}

/// `lex_less` is the lexicographic order as it is commonly stated: `a` comes
/// before `b` exactly if there is a place at which they first differ and `a`
/// ends or has the smaller byte there.
pub proof fn law_lex_less_is_lexicographic(a: Seq<u8>, b: Seq<u8>)
    ensures
        lex_less(a, b) <==> exists|k: int| differs_first_at(a, b, k),
    decreases a.len(),
{
    if a.len() == 0 || b.len() == 0 {
        if b.len() > 0 {
            assert(differs_first_at(a, b, 0));
        }
    } else if a[0] != b[0] {
        if a[0] < b[0] {
            assert(differs_first_at(a, b, 0));
        }
    } else {
        let shorter_a = a.skip(1);
        let shorter_b = b.skip(1);
        law_lex_less_is_lexicographic(shorter_a, shorter_b);
        if lex_less(a, b) {
            let k = choose|k: int| differs_first_at(shorter_a, shorter_b, k);
            assert forall|i: int| 0 <= i < k + 1 implies a[i] == b[i] by {
                if i > 0 {
                    assert(shorter_a[i - 1] == shorter_b[i - 1]);
                }
            }
            assert(differs_first_at(a, b, k + 1));
        }
        if exists|k: int| differs_first_at(a, b, k) {
            let k = choose|k: int| differs_first_at(a, b, k);
            assert(differs_first_at(shorter_a, shorter_b, k - 1));
        }
    }
}

/// No byte string comes before itself.
pub proof fn lemma_lex_irreflexive(a: Seq<u8>)
    ensures
        !lex_less(a, a),
    decreases a.len(),
{
    if a.len() > 0 {
        lemma_lex_irreflexive(a.skip(1));
    }
}

/// The order is transitive.
pub proof fn lemma_lex_transitive(a: Seq<u8>, b: Seq<u8>, c: Seq<u8>)
    requires
        lex_less(a, b),
        lex_less(b, c),
    ensures
        lex_less(a, c),
    decreases a.len(),
{
    if a.len() > 0 && a[0] == b[0] && b[0] == c[0] {
        lemma_lex_transitive(a.skip(1), b.skip(1), c.skip(1));
    }
}

/// Of two different byte strings one comes before the other.
pub proof fn lemma_lex_connected(a: Seq<u8>, b: Seq<u8>)
    ensures
        a == b || lex_less(a, b) || lex_less(b, a),
    decreases a.len(),
{
    if a.len() == 0 || b.len() == 0 {
        if a.len() == b.len() {
            assert(a =~= b);
        }
    } else if a[0] == b[0] {
        lemma_lex_connected(a.skip(1), b.skip(1));
        if a.skip(1) == b.skip(1) {
            assert forall|i: int| 0 <= i < a.len() implies a[i] == b[i] by {
                if i > 0 {
                    assert(a[i] == a.skip(1)[i - 1]);
                    assert(b[i] == b.skip(1)[i - 1]);
                }
            }
            assert(a.len() == a.skip(1).len() + 1);
            assert(b.len() == b.skip(1).len() + 1);
            assert(a =~= b);
        }
    }
}

/// Two byte strings never come before each other.
pub proof fn lemma_lex_asymmetric(a: Seq<u8>, b: Seq<u8>)
    requires
        lex_less(a, b),
    ensures
        !lex_less(b, a),
{
    if lex_less(b, a) {
        lemma_lex_transitive(a, b, a);
        lemma_lex_irreflexive(a);
    }
}

/// Whether `a` comes strictly before `b` in byte-wise lexicographic order.
pub fn bytes_less(a: &[u8], b: &[u8]) -> (r: bool)
    ensures
        r == lex_less(a@, b@),
{
    let mut i: usize = 0;
    proof {
        assert(a@.skip(0) =~= a@);
        assert(b@.skip(0) =~= b@);
    }
    while i < a.len() && i < b.len()
        invariant
            i <= a.len(),
            i <= b.len(),
            lex_less(a@, b@) == lex_less(a@.skip(i as int), b@.skip(i as int)),
        decreases a.len() - i,
    {
        if a[i] != b[i] {
            return a[i] < b[i];
        }
        proof {
            assert(a@.skip(i as int).skip(1) =~= a@.skip(i + 1));
            assert(b@.skip(i as int).skip(1) =~= b@.skip(i + 1));
        }
        i += 1;
    }
    a.len() < b.len()
}

/// Whether two byte strings hold the same bytes.
pub fn bytes_equal(a: &[u8], b: &[u8]) -> (r: bool)
    ensures
        r == (a@ == b@),
{
    if a.len() != b.len() {
        return false;
    }
    let mut i: usize = 0;
    while i < a.len()
        invariant
            i <= a.len(),
            a.len() == b.len(),
            forall|j: int| 0 <= j < i ==> a@[j] == b@[j],
        decreases a.len() - i,
    {
        if a[i] != b[i] {
            return false;
        }
        i += 1;
    }
    proof {
        assert(a@ =~= b@);
    }
    true
}

/// `order` with the index `i` placed behind every index whose key does not
/// come after the key of `i`.
pub open spec fn place(keys: Seq<Seq<u8>>, order: Seq<int>, i: int) -> Seq<int>
    decreases order.len(),
{
    if order.len() == 0 || !lex_less(keys[i], keys[order.last()]) {
        order.push(i)
    } else {
        place(keys, order.drop_last(), i).push(order.last())
    }
}

/// The indices below `n` in ascending order of their keys; indices with equal
/// keys keep their relative order.
pub open spec fn ascending(keys: Seq<Seq<u8>>, n: nat) -> Seq<int>
    decreases n,
{
    if n == 0 {
        Seq::empty()
    } else {
        place(keys, ascending(keys, (n - 1) as nat), n - 1)
    }
}

/// The indices of the keys in ascending order of the keys.
pub open spec fn key_order(keys: Seq<Seq<u8>>) -> Seq<int> {
    ascending(keys, keys.len())
}

/// `order` lists every index below `n` exactly once.
pub open spec fn is_permutation(order: Seq<int>, n: nat) -> bool {
    &&& order.len() == n
    &&& forall|j: int| 0 <= j < order.len() ==> 0 <= #[trigger] order[j] < n
    &&& forall|j: int, k: int| 0 <= j < k < order.len() ==> order[j] != order[k]
    &&& forall|i: int| 0 <= i < n ==> order.contains(i)
}

/// Along `order` no key comes before an earlier one.
pub open spec fn is_ascending(keys: Seq<Seq<u8>>, order: Seq<int>) -> bool {
    forall|j: int, k: int|
        0 <= j < k < order.len() ==> !lex_less(keys[#[trigger] order[k]], keys[#[trigger] order[j]])
}

/// Along `order` every key comes strictly after the one before it.
pub open spec fn is_strictly_ascending(keys: Seq<Seq<u8>>, order: Seq<int>) -> bool {
    forall|j: int, k: int|
        0 <= j < k < order.len() ==> lex_less(keys[#[trigger] order[j]], keys[#[trigger] order[k]])
}

/// Where `place` puts the index: at the position `p` behind which every key
/// comes after the new one, and before which the nearest key does not.
pub proof fn lemma_place_at(keys: Seq<Seq<u8>>, order: Seq<int>, i: int, p: int)
    requires
        0 <= p <= order.len(),
        p == 0 || !lex_less(keys[i], keys[order[p - 1]]),
        forall|q: int| p <= q < order.len() ==> lex_less(keys[i], keys[#[trigger] order[q]]),
    ensures
        place(keys, order, i) == order.insert(p, i),
    decreases order.len() - p,
{
    if p < order.len() {
        lemma_place_at(keys, order.drop_last(), i, p);
    }
}

/// The position at which `place` puts the index.
pub proof fn lemma_place(keys: Seq<Seq<u8>>, order: Seq<int>, i: int) -> (p: int)
    ensures
        0 <= p <= order.len(),
        p == 0 || !lex_less(keys[i], keys[order[p - 1]]),
        forall|q: int| p <= q < order.len() ==> lex_less(keys[i], keys[#[trigger] order[q]]),
        place(keys, order, i) == order.insert(p, i),
    decreases order.len(),
{
    if order.len() == 0 || !lex_less(keys[i], keys[order.last()]) {
        order.len() as int
    } else {
        let shorter = order.drop_last();
        let p = lemma_place(keys, shorter, i);
        assert forall|q: int| p <= q < order.len() implies lex_less(
            keys[i],
            keys[#[trigger] order[q]],
        ) by {
            if q < shorter.len() {
                assert(shorter[q] == order[q]);
            }
        }
        p
    }
}

/// Placing a new index keeps a permutation a permutation.
pub proof fn lemma_place_permutation(keys: Seq<Seq<u8>>, order: Seq<int>, n: nat)
    requires
        is_permutation(order, n),
    ensures
        is_permutation(place(keys, order, n as int), n + 1),
{
    let p = lemma_place(keys, order, n as int);
    let r = order.insert(p, n as int);
    assert forall|i: int| 0 <= i < n + 1 implies r.contains(i) by {
        if i == n {
            assert(r[p] == i);
        } else {
            assert(order.contains(i));
            let j = choose|j: int| 0 <= j < order.len() && order[j] == i;
            if j < p {
                assert(r[j] == i);
            } else {
                assert(r[j + 1] == i);
            }
        }
    }
}

/// Placing a new index keeps the keys ascending.
pub proof fn lemma_place_ascending(keys: Seq<Seq<u8>>, order: Seq<int>, i: int)
    requires
        is_ascending(keys, order),
    ensures
        is_ascending(keys, place(keys, order, i)),
{
    let p = lemma_place(keys, order, i);
    let r = order.insert(p, i);
    assert forall|j: int, k: int| 0 <= j < k < r.len() implies !lex_less(
        keys[#[trigger] r[k]],
        keys[#[trigger] r[j]],
    ) by {
        if k == p {
            // the new index against an earlier one
            let earlier = keys[order[j]];
            let nearest = keys[order[p - 1]];
            if lex_less(keys[i], earlier) {
                lemma_lex_connected(earlier, nearest);
                if lex_less(earlier, nearest) {
                    lemma_lex_transitive(keys[i], earlier, nearest);
                }
            }
        } else if j == p {
            // a later index against the new one
            lemma_lex_asymmetric(keys[i], keys[order[k - 1]]);
        }
    }
}

/// The order of encoding lists every index once, and the keys ascend along it.
pub proof fn lemma_ascending(keys: Seq<Seq<u8>>, n: nat)
    ensures
        is_permutation(ascending(keys, n), n),
        is_ascending(keys, ascending(keys, n)),
    decreases n,
{
    if n > 0 {
        let before = ascending(keys, (n - 1) as nat);
        lemma_ascending(keys, (n - 1) as nat);
        lemma_place_permutation(keys, before, (n - 1) as nat);
        lemma_place_ascending(keys, before, n - 1);
    }
}

/// Where no key occurs twice, the keys ascend strictly along a permutation
/// along which they ascend.
pub proof fn lemma_strictly_ascending(keys: Seq<Seq<u8>>, order: Seq<int>)
    requires
        is_permutation(order, keys.len()),
        is_ascending(keys, order),
        forall|i: int, j: int| 0 <= i < j < keys.len() ==> keys[i] != keys[j],
    ensures
        is_strictly_ascending(keys, order),
{
    assert forall|j: int, k: int| 0 <= j < k < order.len() implies lex_less(
        keys[#[trigger] order[j]],
        keys[#[trigger] order[k]],
    ) by {
        lemma_lex_connected(keys[order[j]], keys[order[k]]);
    }
}

/// Two permutations along which the keys ascend strictly hold the same index
/// at `j`.
proof fn lemma_same_index_at(keys: Seq<Seq<u8>>, first: Seq<int>, second: Seq<int>, j: int)
    requires
        is_permutation(first, keys.len()),
        is_permutation(second, keys.len()),
        is_strictly_ascending(keys, first),
        is_strictly_ascending(keys, second),
        0 <= j < keys.len(),
    ensures
        first[j] == second[j],
    decreases j,
{
    assert forall|i: int| 0 <= i < j implies first[i] == second[i] by {
        lemma_same_index_at(keys, first, second, i);
    }
    let a = first[j];
    let b = second[j];
    if a != b {
        assert(first.contains(b));
        assert(second.contains(a));
        lemma_lex_asymmetric(keys[a], keys[b]);
    }
}

/// Where no key occurs twice, the order of encoding is the one order in
/// which every index stands once and every key comes strictly after the key
/// before it.
pub proof fn law_key_order_is_the_ascending_order(keys: Seq<Seq<u8>>, order: Seq<int>)
    requires
        forall|i: int, j: int| 0 <= i < j < keys.len() ==> keys[i] != keys[j],
        is_permutation(order, keys.len()),
        is_strictly_ascending(keys, order),
    ensures
        order == key_order(keys),
{
    lemma_ascending(keys, keys.len());
    lemma_strictly_ascending(keys, key_order(keys));
    assert forall|j: int| 0 <= j < keys.len() implies order[j] == key_order(keys)[j] by {
        lemma_same_index_at(keys, order, key_order(keys), j);
    }
}

/// The keys of a vector of entries, in order.
pub open spec fn entry_keys<T>(entries: Seq<(Vec<u8>, T)>) -> Seq<Seq<u8>> {
    Seq::new(entries.len(), |i: int| entries[i].0@)
}

/// The indices of the entries in ascending order of their keys; entries with
/// equal keys keep their relative order.
pub fn sorted_indices<T>(entries: &Vec<(Vec<u8>, T)>) -> (order: Vec<usize>)
    ensures
        order@.len() == entries@.len(),
        order@.map_values(|x: usize| x as int) == key_order(entry_keys(entries@)),
        forall|j: int| 0 <= j < order@.len() ==> #[trigger] order@[j] < entries@.len(),
{
    let ghost keys = entry_keys(entries@);
    let mut order: Vec<usize> = Vec::new();
    let mut i: usize = 0;
    while i < entries.len()
        invariant
            i <= entries.len(),
            keys == entry_keys(entries@),
            order@.len() == i,
            order@.map_values(|x: usize| x as int) == ascending(keys, i as nat),
            forall|j: int| 0 <= j < order@.len() ==> #[trigger] order@[j] < i,
        decreases entries.len() - i,
    {
        let ghost before = order@.map_values(|x: usize| x as int);
        let mut p: usize = order.len();
        while p > 0 && bytes_less(entries[i].0.as_slice(), entries[order[p - 1]].0.as_slice())
            invariant
                p <= order.len(),
                i < entries.len(),
                keys == entry_keys(entries@),
                before == order@.map_values(|x: usize| x as int),
                forall|j: int| 0 <= j < order@.len() ==> #[trigger] order@[j] < i,
                forall|q: int|
                    p <= q < before.len() ==> lex_less(keys[i as int], keys[#[trigger] before[q]]),
            decreases p,
        {
            p -= 1;
        }
        proof {
            lemma_place_at(keys, before, i as int, p as int);
        }
        order.insert(p, i);
        i += 1;
    }
    order
}

} // verus!
