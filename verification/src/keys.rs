//! Keys and the order in which the builder accepts them.

use vstd::prelude::*;

verus! {

/// Number of leading positions, counted from `i`, up to which `a` and `b`
/// agree.
pub open spec fn agree_until(a: Seq<u8>, b: Seq<u8>, i: nat) -> nat
    decreases a.len() - i,
{
    if i < a.len() && i < b.len() && a[i as int] == b[i as int] {
        agree_until(a, b, i + 1)
    } else {
        i
    }
}

/// Length of the longest common prefix of `a` and `b`.
pub open spec fn common_prefix(a: Seq<u8>, b: Seq<u8>) -> nat {
    agree_until(a, b, 0)
}

/// `n` is the length of the longest common prefix of `a` and `b`: they agree
/// on the first `n` bytes, and either one of them ends there or they differ
/// in the next byte.
pub open spec fn is_common_prefix(a: Seq<u8>, b: Seq<u8>, n: nat) -> bool {
    &&& n <= a.len()
    &&& n <= b.len()
    &&& forall|j: int| 0 <= j < n ==> a[j] == b[j]
    &&& (n == a.len() || n == b.len() || a[n as int] != b[n as int])
}

/// Counting on from a common prefix gives the longest common prefix.
proof fn lemma_agree_until(a: Seq<u8>, b: Seq<u8>, i: nat)
    requires
        i <= a.len(),
        i <= b.len(),
        forall|j: int| 0 <= j < i ==> a[j] == b[j],
    ensures
        is_common_prefix(a, b, agree_until(a, b, i)),
        i <= agree_until(a, b, i),
    decreases a.len() - i,
{
    if i < a.len() && i < b.len() && a[i as int] == b[i as int] {
        lemma_agree_until(a, b, i + 1);
    }
}

/// The longest common prefix is what its name says, and no other length is.
pub proof fn lemma_common_prefix(a: Seq<u8>, b: Seq<u8>)
    ensures
        is_common_prefix(a, b, common_prefix(a, b)),
        forall|n: nat| is_common_prefix(a, b, n) ==> n == common_prefix(a, b),
{
    lemma_agree_until(a, b, 0);
    let m = common_prefix(a, b);
    assert forall|n: nat| is_common_prefix(a, b, n) implies n == m by {
        if n < m {
            assert(a[n as int] == b[n as int]);
        } else if m < n {
            assert(a[m as int] == b[m as int]);
        }
    }
}

/// Length of the longest common prefix of two byte strings.
pub fn common_prefix_len(a: &[u8], b: &[u8]) -> (n: usize)
    ensures
        n == common_prefix(a@, b@),
        is_common_prefix(a@, b@, n as nat),
{
    let mut i: usize = 0;
    while i < a.len() && i < b.len() && a[i] == b[i]
        invariant
            i <= a@.len(),
            i <= b@.len(),
            forall|j: int| 0 <= j < i ==> a@[j] == b@[j],
            agree_until(a@, b@, i as nat) == common_prefix(a@, b@),
        decreases a@.len() - i,
    {
        i = i + 1;
    }
    proof {
        lemma_common_prefix(a@, b@);
    }
    i
}

/// `a` comes before `b` in the order of byte strings: at the first position
/// where they differ `a` has the smaller byte, or `a` ends there and `b` goes
/// on.
pub open spec fn comes_before(a: Seq<u8>, b: Seq<u8>) -> bool {
    let p = common_prefix(a, b);
    if p < a.len() && p < b.len() {
        a[p as int] < b[p as int]
    } else {
        p == a.len() && p < b.len()
    }
}

/// `b` can be added after `a`: it is not empty, they differ at a position
/// that both have, and there `b` has the larger byte. Neither is a prefix of
/// the other then, and `a` comes before `b`.
pub open spec fn follows(a: Seq<u8>, b: Seq<u8>) -> bool {
    let p = common_prefix(b, a);
    &&& p < a.len()
    &&& p < b.len()
    &&& a[p as int] < b[p as int]
}

/// `key` ends with the byte `sentinel`, which occurs nowhere else in it.
pub open spec fn ends_with(key: Seq<u8>, sentinel: u8) -> bool {
    &&& key.len() >= 1
    &&& key.last() == sentinel
    &&& forall|j: int| 0 <= j < key.len() - 1 ==> key[j] != sentinel
}

/// The keys ascend, and each ends with `sentinel`, which occurs nowhere else
/// in it.
pub open spec fn sorted_with_sentinel(keys: Seq<Seq<u8>>, sentinel: u8) -> bool {
    &&& forall|i: int| 0 <= i < keys.len() ==> ends_with(#[trigger] keys[i], sentinel)
    &&& forall|i: int| 0 <= i < keys.len() - 1 ==> comes_before(#[trigger] keys[i], keys[i + 1])
}

/// Each key can be added after the key before it, and the first is not
/// empty.
pub open spec fn chained(keys: Seq<Seq<u8>>) -> bool {
    &&& keys.len() > 0 ==> keys[0].len() > 0
    &&& forall|i: int| 0 <= i < keys.len() - 1 ==> follows(#[trigger] keys[i], keys[i + 1])
}

/// The longest common prefix does not depend on the order of the two.
pub proof fn lemma_common_prefix_symmetric(a: Seq<u8>, b: Seq<u8>)
    ensures
        common_prefix(a, b) == common_prefix(b, a),
{
    lemma_common_prefix(a, b);
    lemma_common_prefix(b, a);
    assert(is_common_prefix(b, a, common_prefix(a, b)));
}

/// Of two keys that end with the same sentinel, which occurs nowhere else in
/// them, the one that comes later can be added after the other.
pub proof fn lemma_sentinel_follows(a: Seq<u8>, b: Seq<u8>, sentinel: u8)
    requires
        ends_with(a, sentinel),
        ends_with(b, sentinel),
        comes_before(a, b),
    ensures
        follows(a, b),
{
    lemma_common_prefix(a, b);
    lemma_common_prefix_symmetric(a, b);
    let p = common_prefix(a, b);
    if p == a.len() {
        assert(a[p - 1] == b[p - 1]);
    }
}

/// Keys that ascend and end with a sentinel can be added one after the
/// other.
pub proof fn lemma_sorted_chained(keys: Seq<Seq<u8>>, sentinel: u8)
    requires
        sorted_with_sentinel(keys, sentinel),
    ensures
        chained(keys),
{
    assert forall|i: int| 0 <= i < keys.len() - 1 implies follows(
        #[trigger] keys[i],
        keys[i + 1],
    ) by {
        assert(ends_with(keys[i + 1], sentinel));
        lemma_sentinel_follows(keys[i], keys[i + 1], sentinel);
    }
}

/// A key that can be added after one that can be added after a third can be
/// added after the third: among keys that are added one after the other, each
/// can be added after each before it.
pub proof fn lemma_follows_transitive(a: Seq<u8>, b: Seq<u8>, c: Seq<u8>)
    requires
        follows(a, b),
        follows(b, c),
    ensures
        follows(a, c),
{
    lemma_common_prefix(b, a);
    lemma_common_prefix(c, b);
    lemma_common_prefix(c, a);
    let p = common_prefix(b, a);
    let q = common_prefix(c, b);
    let m = if p < q { p } else { q };
    assert(is_common_prefix(c, a, m)) by {
        assert forall|j: int| 0 <= j < m implies c[j] == a[j] by {
            assert(c[j] == b[j]);
            assert(b[j] == a[j]);
        }
        if p < q {
            assert(c[p as int] == b[p as int]);
        } else if q < p {
            assert(b[q as int] == a[q as int]);
        }
    }
}

/// Among keys of which each can be added after the one before it, each can
/// be added after every key before it: the keys ascend, and none is a prefix
/// of another.
pub proof fn lemma_chained_all(keys: Seq<Seq<u8>>, i: int, j: int)
    requires
        chained(keys),
        0 <= i < j < keys.len(),
    ensures
        follows(keys[i], keys[j]),
    decreases j - i,
{
    if i + 1 < j {
        lemma_chained_all(keys, i, j - 1);
        assert(follows(keys[j - 1], keys[j - 1 + 1]));
        lemma_follows_transitive(keys[i], keys[j - 1], keys[j]);
    }
}

} // verus!
