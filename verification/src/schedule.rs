//! Seeded hashing and the order in which cities are served, cycle by cycle.

use vstd::prelude::*;
use vstd::string::StringSliceAdditionalSpecFns;

verus! {

/// FNV-1a 64-bit offset basis.
pub const FNV_OFFSET_BASIS: u64 = 0xcbf29ce484222325;

/// FNV-1a 64-bit prime.
pub const FNV_PRIME: u64 = 0x100000001b3;

/// Seed of the hash that picks the third-round kind of a day.
pub const STAGE_SEED: u64 = 0x9E37_79B9_7F4A_7C15;

/// `seed.rotate_left(13)`.
pub open spec fn rotl13(seed: u64) -> u64 {
    (seed << 13u64) | (seed >> 51u64)
}

/// Hash state before any byte is absorbed.
pub open spec fn hash_start(seed: u64) -> u64 {
    FNV_OFFSET_BASIS ^ rotl13(seed)
}

/// One FNV-1a round: xor the byte in, then multiply modulo 2^64.
pub open spec fn hash_step(h: u64, b: u8) -> u64 {
    (h ^ (b as u64)).wrapping_mul(FNV_PRIME)
}

/// The seeded FNV-1a hash of `input`.
pub open spec fn seeded_hash_of(input: Seq<u8>, seed: u64) -> u64
    decreases input.len(),
{
    if input.len() == 0 {
        hash_start(seed)
    } else {
        hash_step(seeded_hash_of(input.drop_last(), seed), input.last())
    }
}

/// Seeded FNV-1a hash of a byte string.
pub fn seeded_hash(input: &[u8], seed: u64) -> (hash: u64)
    ensures
        hash == seeded_hash_of(input@, seed),
{
    let mut hash: u64 = FNV_OFFSET_BASIS ^ ((seed << 13u64) | (seed >> 51u64));
    let mut i: usize = 0;
    assert(input@.take(0) =~= Seq::<u8>::empty());
    while i < input.len()
        invariant
            i <= input@.len(),
            hash == seeded_hash_of(input@.take(i as int), seed),
        decreases input@.len() - i,
    {
        assert(input@.take(i + 1).drop_last() =~= input@.take(i as int));
        hash = hash ^ (input[i] as u64);
        hash = hash.wrapping_mul(FNV_PRIME);
        i = i + 1;
    }
    assert(input@.take(input@.len() as int) =~= input@);
    hash
}

/// Hash of a text under the stage seed, as a `usize`.
pub fn hash_seed(input: &str) -> (h: usize)
    ensures
        h == seeded_hash_of(input.spec_bytes(), STAGE_SEED) as usize,
{
    seeded_hash(input.as_bytes(), STAGE_SEED) as usize
}

/// Strict lexicographic order on byte strings (`<` on `[u8]` and `str`).
pub open spec fn bytes_less(a: Seq<u8>, b: Seq<u8>) -> bool
    decreases a.len(),
{
    if a.len() == 0 {
        b.len() > 0
    } else if b.len() == 0 {
        false
    } else if a[0] != b[0] {
        a[0] < b[0]
    } else {
        bytes_less(a.drop_first(), b.drop_first())
    }
}

/// No byte string sorts both before and after another.
pub proof fn lemma_bytes_less_asymmetric(a: Seq<u8>, b: Seq<u8>)
    ensures
        bytes_less(a, b) ==> !bytes_less(b, a),
    decreases a.len(),
{
    if a.len() > 0 && b.len() > 0 && a[0] == b[0] {
        lemma_bytes_less_asymmetric(a.drop_first(), b.drop_first());
    }
}

/// The order on byte strings is transitive.
pub proof fn lemma_bytes_less_transitive(a: Seq<u8>, b: Seq<u8>, c: Seq<u8>)
    ensures
        bytes_less(a, b) && bytes_less(b, c) ==> bytes_less(a, c),
    decreases a.len(),
{
    if a.len() > 0 && b.len() > 0 && c.len() > 0 && a[0] == b[0] && b[0] == c[0] {
        lemma_bytes_less_transitive(a.drop_first(), b.drop_first(), c.drop_first());
    }
}

/// Whether byte string `a` sorts strictly before `b`.
pub fn bytes_before(a: &[u8], b: &[u8]) -> (r: bool)
    ensures
        r == bytes_less(a@, b@),
{
    let mut i: usize = 0;
    assert(a@.skip(0) =~= a@);
    assert(b@.skip(0) =~= b@);
    while i < a.len() && i < b.len() && a[i] == b[i]
        invariant
            i <= a@.len(),
            i <= b@.len(),
            bytes_less(a@, b@) == bytes_less(a@.skip(i as int), b@.skip(i as int)),
        decreases a@.len() - i,
    {
        assert(a@.skip(i as int).drop_first() =~= a@.skip(i + 1));
        assert(b@.skip(i as int).drop_first() =~= b@.skip(i + 1));
        i = i + 1;
    }
    if i == a.len() {
        i < b.len()
    } else if i == b.len() {
        false
    } else {
        a[i] < b[i]
    }
}

/// Key order on ids: by seeded hash, then by bytes.
pub open spec fn key_before(seed: u64, x: Seq<u8>, y: Seq<u8>) -> bool {
    let hx = seeded_hash_of(x, seed);
    let hy = seeded_hash_of(y, seed);
    hx < hy || (hx == hy && bytes_less(x, y))
}

/// In the order of a cycle whose seed is `seed`, city `a` comes strictly before city `b`:
/// a smaller hash of its id, or an equal hash and a smaller id.
pub open spec fn goes_before(ids: Seq<Seq<u8>>, seed: u64, a: int, b: int) -> bool {
    key_before(seed, ids[a], ids[b])
}

/// Inserts `x` into `order` after every element that does not go after it.
pub open spec fn insert_in_order(ids: Seq<Seq<u8>>, seed: u64, order: Seq<usize>, x: usize) -> Seq<
    usize,
>
    decreases order.len(),
{
    if order.len() == 0 {
        seq![x]
    } else if goes_before(ids, seed, x as int, order[0] as int) {
        seq![x] + order
    } else {
        seq![order[0]] + insert_in_order(ids, seed, order.drop_first(), x)
    }
}

/// The first `k` city indices, stably sorted by `goes_before`.
pub open spec fn order_prefix(ids: Seq<Seq<u8>>, seed: u64, k: nat) -> Seq<usize>
    decreases k,
{
    if k == 0 {
        Seq::empty()
    } else {
        insert_in_order(ids, seed, order_prefix(ids, seed, (k - 1) as nat), (k - 1) as usize)
    }
}

/// All city indices, stably sorted by `goes_before`: the order of the cycle with `seed`.
pub open spec fn cycle_order(ids: Seq<Seq<u8>>, seed: u64) -> Seq<usize> {
    order_prefix(ids, seed, ids.len())
}

/// Inserting at the first position whose element goes after `x` is `insert_in_order`.
pub proof fn lemma_insert_at(ids: Seq<Seq<u8>>, seed: u64, order: Seq<usize>, x: usize, p: int)
    requires
        0 <= p <= order.len(),
        forall|q: int| 0 <= q < p ==> !goes_before(ids, seed, x as int, #[trigger] order[q] as int),
        p < order.len() ==> goes_before(ids, seed, x as int, order[p] as int),
    ensures
        insert_in_order(ids, seed, order, x) == order.insert(p, x),
    decreases order.len(),
{
    if order.len() == 0 {
        assert(order.insert(p, x) =~= seq![x]);
    } else if p == 0 {
        assert(order.insert(p, x) =~= seq![x] + order);
    } else {
        let rest = order.drop_first();
        assert forall|q: int| 0 <= q < p - 1 implies !goes_before(
            ids,
            seed,
            x as int,
            #[trigger] rest[q] as int,
        ) by {
            assert(rest[q] == order[q + 1]);
        }
        lemma_insert_at(ids, seed, rest, x, p - 1);
        assert(order.insert(p, x) =~= seq![order[0]] + rest.insert(p - 1, x));
    }
}

/// Inserting keeps every element, adds `x`, and adds one to the length.
pub proof fn lemma_insert_contents(ids: Seq<Seq<u8>>, seed: u64, order: Seq<usize>, x: usize)
    ensures
        insert_in_order(ids, seed, order, x).len() == order.len() + 1,
        forall|y: usize|
            #[trigger] insert_in_order(ids, seed, order, x).contains(y) <==> (order.contains(y) || y
                == x),
        order.no_duplicates() && !order.contains(x) ==> insert_in_order(
            ids,
            seed,
            order,
            x,
        ).no_duplicates(),
    decreases order.len(),
{
    let r = insert_in_order(ids, seed, order, x);
    if order.len() == 0 {
        assert forall|y: usize| #[trigger] r.contains(y) <==> (order.contains(y) || y == x) by {
            if r.contains(y) {
                assert(r[0] == y);
            }
            if y == x {
                assert(r[0] == y);
            }
        }
    } else if goes_before(ids, seed, x as int, order[0] as int) {
        assert forall|y: usize| #[trigger] r.contains(y) <==> (order.contains(y) || y == x) by {
            if r.contains(y) {
                let i = choose|i: int| 0 <= i < r.len() && r[i] == y;
                if i > 0 {
                    assert(order[i - 1] == y);
                }
            }
            if order.contains(y) {
                let i = choose|i: int| 0 <= i < order.len() && order[i] == y;
                assert(r[i + 1] == y);
            }
            if y == x {
                assert(r[0] == y);
            }
        }
    } else {
        let rest = order.drop_first();
        lemma_insert_contents(ids, seed, rest, x);
        let r2 = insert_in_order(ids, seed, rest, x);
        assert(r =~= seq![order[0]] + r2);
        assert forall|y: usize| #[trigger] r.contains(y) <==> (order.contains(y) || y == x) by {
            if r.contains(y) {
                let i = choose|i: int| 0 <= i < r.len() && r[i] == y;
                if i > 0 {
                    assert(r2[i - 1] == y);
                    assert(r2.contains(y));
                    if rest.contains(y) {
                        let j = choose|j: int| 0 <= j < rest.len() && rest[j] == y;
                        assert(order[j + 1] == y);
                    }
                } else {
                    assert(order[0] == y);
                }
            }
            if order.contains(y) {
                let i = choose|i: int| 0 <= i < order.len() && order[i] == y;
                if i > 0 {
                    assert(rest[i - 1] == y);
                    assert(r2.contains(y));
                    let j = choose|j: int| 0 <= j < r2.len() && r2[j] == y;
                    assert(r[j + 1] == y);
                } else {
                    assert(r[0] == y);
                }
            }
            if y == x {
                assert(r2.contains(y));
                let j = choose|j: int| 0 <= j < r2.len() && r2[j] == y;
                assert(r[j + 1] == y);
            }
        }
        if order.no_duplicates() && !order.contains(x) {
            assert(!rest.contains(x)) by {
                if rest.contains(x) {
                    let j = choose|j: int| 0 <= j < rest.len() && rest[j] == x;
                    assert(order[j + 1] == x);
                }
            }
            assert(rest.no_duplicates()) by {
                assert forall|i: int, j: int|
                    0 <= i < rest.len() && 0 <= j < rest.len() && i != j implies rest[i]
                    != rest[j] by {
                    assert(rest[i] == order[i + 1]);
                    assert(rest[j] == order[j + 1]);
                }
            }
            assert(!r2.contains(order[0])) by {
                if r2.contains(order[0]) {
                    if rest.contains(order[0]) {
                        let j = choose|j: int| 0 <= j < rest.len() && rest[j] == order[0];
                        assert(order[j + 1] == order[0]);
                    } else {
                        assert(order.contains(x));
                    }
                }
            }
            assert forall|i: int, j: int| 0 <= i < r.len() && 0 <= j < r.len() && i != j implies r[i]
                != r[j] by {
                if i == 0 && j > 0 {
                    assert(r[j] == r2[j - 1]);
                } else if j == 0 && i > 0 {
                    assert(r[i] == r2[i - 1]);
                } else if i > 0 && j > 0 {
                    assert(r[i] == r2[i - 1]);
                    assert(r[j] == r2[j - 1]);
                }
            }
        }
    }
}

/// The order of the first `k` cities holds each of `0..k` exactly once.
pub proof fn lemma_order_prefix_permutation(ids: Seq<Seq<u8>>, seed: u64, k: nat)
    requires
        k <= usize::MAX + 1,
    ensures
        order_prefix(ids, seed, k).len() == k,
        order_prefix(ids, seed, k).no_duplicates(),
        forall|y: usize| #[trigger] order_prefix(ids, seed, k).contains(y) <==> y < k,
    decreases k,
{
    if k > 0 {
        let prev = order_prefix(ids, seed, (k - 1) as nat);
        lemma_order_prefix_permutation(ids, seed, (k - 1) as nat);
        lemma_insert_contents(ids, seed, prev, (k - 1) as usize);
    }
}


/// Two different byte strings are ordered one way or the other.
pub proof fn lemma_bytes_less_total(a: Seq<u8>, b: Seq<u8>)
    ensures
        a != b ==> bytes_less(a, b) || bytes_less(b, a),
    decreases a.len(),
{
    if a.len() > 0 && b.len() > 0 && a[0] == b[0] {
        lemma_bytes_less_total(a.drop_first(), b.drop_first());
        if a.drop_first() == b.drop_first() {
            assert(a =~= seq![a[0]] + a.drop_first());
            assert(b =~= seq![b[0]] + b.drop_first());
        }
    } else if a.len() == 0 && b.len() == 0 {
        assert(a =~= b);
    }
}

/// The key order is a strict total order on ids.
pub proof fn lemma_key_order(seed: u64, x: Seq<u8>, y: Seq<u8>, z: Seq<u8>)
    ensures
        !key_before(seed, x, x),
        key_before(seed, x, y) ==> !key_before(seed, y, x),
        key_before(seed, x, y) && key_before(seed, y, z) ==> key_before(seed, x, z),
        x != y ==> key_before(seed, x, y) || key_before(seed, y, x),
        key_before(seed, x, y) && !key_before(seed, z, y) ==> key_before(seed, x, z),
{
    lemma_bytes_less_asymmetric(x, x);
    lemma_bytes_less_asymmetric(x, y);
    lemma_bytes_less_transitive(x, y, z);
    lemma_bytes_less_total(x, y);
    lemma_bytes_less_total(y, z);
}

/// `order` lists cities by the key order of their ids, cities with equal ids in list order.
pub open spec fn sorted_by_key(ids: Seq<Seq<u8>>, seed: u64, order: Seq<usize>) -> bool {
    forall|i: int, j: int|
        0 <= i < j < order.len() ==> {
            &&& !goes_before(ids, seed, #[trigger] order[j] as int, #[trigger] order[i] as int)
            &&& !goes_before(ids, seed, order[i] as int, order[j] as int) ==> order[i] < order[j]
        }
}

/// Putting `y` in front of a sorted order keeps it sorted where `y` goes before or ties
/// with (and, on a tie, is listed before) every element.
proof fn lemma_sorted_cons(ids: Seq<Seq<u8>>, seed: u64, y: usize, order: Seq<usize>)
    requires
        sorted_by_key(ids, seed, order),
        forall|j: int|
            0 <= j < order.len() ==> {
                &&& !goes_before(ids, seed, #[trigger] order[j] as int, y as int)
                &&& !goes_before(ids, seed, y as int, order[j] as int) ==> y < order[j]
            },
    ensures
        sorted_by_key(ids, seed, seq![y] + order),
{
    let r = seq![y] + order;
    assert forall|i: int, j: int| 0 <= i < j < r.len() implies {
        &&& !goes_before(ids, seed, #[trigger] r[j] as int, #[trigger] r[i] as int)
        &&& !goes_before(ids, seed, r[i] as int, r[j] as int) ==> r[i] < r[j]
    } by {
        assert(r[j] == order[j - 1]);
        if i > 0 {
            assert(r[i] == order[i - 1]);
        }
    }
}

/// Inserting an index larger than all in a sorted order keeps it sorted.
proof fn lemma_insert_sorted(ids: Seq<Seq<u8>>, seed: u64, order: Seq<usize>, x: usize)
    requires
        sorted_by_key(ids, seed, order),
        forall|q: int| 0 <= q < order.len() ==> #[trigger] order[q] < x,
    ensures
        sorted_by_key(ids, seed, insert_in_order(ids, seed, order, x)),
    decreases order.len(),
{
    if order.len() == 0 {
    } else if goes_before(ids, seed, x as int, order[0] as int) {
        assert forall|j: int| 0 <= j < order.len() implies {
            &&& !goes_before(ids, seed, #[trigger] order[j] as int, x as int)
            &&& !goes_before(ids, seed, x as int, order[j] as int) ==> x < order[j]
        } by {
            if j > 0 {
                assert(!goes_before(ids, seed, order[j] as int, order[0] as int));
            }
            lemma_key_order(seed, ids[x as int], ids[order[0] as int], ids[order[j] as int]);
            lemma_key_order(seed, ids[x as int], ids[order[j] as int], ids[order[j] as int]);
        }
        lemma_sorted_cons(ids, seed, x, order);
    } else {
        let rest = order.drop_first();
        let r2 = insert_in_order(ids, seed, rest, x);
        assert forall|i: int, j: int| 0 <= i < j < rest.len() implies {
            &&& !goes_before(ids, seed, #[trigger] rest[j] as int, #[trigger] rest[i] as int)
            &&& !goes_before(ids, seed, rest[i] as int, rest[j] as int) ==> rest[i] < rest[j]
        } by {
            assert(rest[i] == order[i + 1]);
            assert(rest[j] == order[j + 1]);
        }
        assert forall|q: int| 0 <= q < rest.len() implies #[trigger] rest[q] < x by {
            assert(rest[q] == order[q + 1]);
        }
        lemma_insert_sorted(ids, seed, rest, x);
        lemma_insert_contents(ids, seed, rest, x);
        assert forall|j: int| 0 <= j < r2.len() implies {
            &&& !goes_before(ids, seed, #[trigger] r2[j] as int, order[0] as int)
            &&& !goes_before(ids, seed, order[0] as int, r2[j] as int) ==> order[0] < r2[j]
        } by {
            let e = r2[j];
            assert(r2.contains(e));
            if e != x {
                assert(rest.contains(e));
                let m = choose|m: int| 0 <= m < rest.len() && rest[m] == e;
                assert(order[m + 1] == e);
            }
        }
        lemma_sorted_cons(ids, seed, order[0], r2);
    }
}

/// The order of the first `k` cities is sorted by the key order, ties in list order.
proof fn lemma_order_prefix_sorted(ids: Seq<Seq<u8>>, seed: u64, k: nat)
    requires
        k <= usize::MAX + 1,
    ensures
        sorted_by_key(ids, seed, order_prefix(ids, seed, k)),
    decreases k,
{
    if k > 0 {
        let prev = order_prefix(ids, seed, (k - 1) as nat);
        lemma_order_prefix_sorted(ids, seed, (k - 1) as nat);
        lemma_order_prefix_permutation(ids, seed, (k - 1) as nat);
        assert forall|q: int| 0 <= q < prev.len() implies #[trigger] prev[q] < (k - 1) as usize by {
            assert(prev.contains(prev[q]));
        }
        lemma_insert_sorted(ids, seed, prev, (k - 1) as usize);
    }
}

/// The order of a cycle lists every city once, sorted by the seeded hash of its id and then
/// by the id's bytes, cities with equal ids in list order.
pub proof fn lemma_cycle_order_sorted(ids: Seq<Seq<u8>>, seed: u64)
    requires
        ids.len() <= usize::MAX,
    ensures
        cycle_order(ids, seed).len() == ids.len(),
        cycle_order(ids, seed).no_duplicates(),
        forall|y: usize| #[trigger] cycle_order(ids, seed).contains(y) <==> y < ids.len(),
        sorted_by_key(ids, seed, cycle_order(ids, seed)),
{
    lemma_order_prefix_permutation(ids, seed, ids.len());
    lemma_order_prefix_sorted(ids, seed, ids.len());
}

} // verus!
