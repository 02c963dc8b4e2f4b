//! Connection identities, disconnection reasons, and the association-sequence
//! model that the registry and the client mirror are specified over.
//!
//! A registry is modelled as a sequence of `(Addr, Seq<char>)` pairs with
//! pairwise distinct addresses; insertion pushes at the end, removal takes the
//! entry out and keeps the order of the rest.

use vstd::prelude::*;

verus! {

/// A transport-level address: the identity of one connected peer for the
/// lifetime of its session.
#[derive(Clone, Copy, Debug, PartialEq, Eq, Structural, Hash)]
pub struct Addr {
    pub id: u64,
}

/// The closed set of causes with which a connection can end.
#[derive(Clone, Copy, Debug, PartialEq, Eq, Structural, Hash)]
pub enum DisconnectReason {
    /// The transport stopped hearing from the peer.
    Timeout,
    /// The peer closed the connection on purpose.
    ClosedByPeer,
    /// The server closed the connection.
    ClosedByServer,
    /// A channel-level error ended the connection.
    ChannelError,
}

/// An association sequence: one `(address, nickname)` entry per peer.
pub type NickSeq = Seq<(Addr, Seq<char>)>;

/// Whether some entry of `s` carries the address `a`.
pub open spec fn has_key(s: NickSeq, a: Addr) -> bool {
    exists|i: int| 0 <= i < s.len() && (#[trigger] s[i]).0 == a
}

/// The index of the entry that carries `a` (meaningful when `has_key(s, a)`
/// holds and the addresses of `s` are distinct).
pub open spec fn key_at(s: NickSeq, a: Addr) -> int {
    choose|i: int| 0 <= i < s.len() && (#[trigger] s[i]).0 == a
}

/// The nickname that `s` associates with `a`.
pub open spec fn nick_of(s: NickSeq, a: Addr) -> Seq<char> {
    s[key_at(s, a)].1
}

/// `s` with the first entry that carries `a` taken out; `s` itself when no
/// entry does.
pub open spec fn remove_key(s: NickSeq, a: Addr) -> NickSeq
    decreases s.len(),
{
    if s.len() == 0 {
        s
    } else if s[0].0 == a {
        s.skip(1)
    } else {
        seq![s[0]] + remove_key(s.skip(1), a)
    }
}

/// The addresses of `s` are pairwise distinct.
pub open spec fn uniq_keys(s: NickSeq) -> bool {
    forall|i: int, j: int|
        0 <= i < j < s.len() ==> (#[trigger] s[i]).0 != (#[trigger] s[j]).0
}

/// The addresses of `s` are pairwise distinct.
pub open spec fn uniq_addrs(s: Seq<Addr>) -> bool {
    forall|i: int, j: int| 0 <= i < j < s.len() ==> s[i] != s[j]
}

/// `s` with the first occurrence of `a` taken out; `s` itself when `a` does
/// not occur.
pub open spec fn remove_addr(s: Seq<Addr>, a: Addr) -> Seq<Addr>
    decreases s.len(),
{
    if s.len() == 0 {
        s
    } else if s[0] == a {
        s.skip(1)
    } else {
        seq![s[0]] + remove_addr(s.skip(1), a)
    }
}

/// The addresses of the tail of `s` are pairwise distinct when those of `s`
/// are.
pub proof fn lemma_uniq_keys_skip(s: NickSeq)
    requires
        s.len() > 0,
        uniq_keys(s),
    ensures
        uniq_keys(s.skip(1)),
{
    let t = s.skip(1);
    assert forall|i: int, j: int| 0 <= i < j < t.len() implies
        (#[trigger] t[i]).0 != (#[trigger] t[j]).0 by {
        assert(t[i] == s[i + 1]);
        assert(t[j] == s[j + 1]);
    }
}

/// Every entry left by `remove_key` is an entry of `s`, and none carries `a`.
pub proof fn lemma_remove_key_entry_src(s: NickSeq, a: Addr, k: int)
    requires
        uniq_keys(s),
        0 <= k < remove_key(s, a).len(),
    ensures
        exists|i: int| 0 <= i < s.len() && #[trigger] s[i] == remove_key(s, a)[k],
        remove_key(s, a)[k].0 != a,
    decreases s.len(),
{
    let r = remove_key(s, a);
    if s[0].0 == a {
        assert(r[k] == s[k + 1]);
        assert(s[0].0 != s[k + 1].0);
    } else {
        let t = s.skip(1);
        if k == 0 {
            assert(r[0] == s[0]);
        } else {
            lemma_uniq_keys_skip(s);
            lemma_remove_key_entry_src(t, a, k - 1);
            assert(r[k] == remove_key(t, a)[k - 1]);
            let i = choose|i: int| 0 <= i < t.len() && #[trigger] t[i] == remove_key(t, a)[k - 1];
            assert(s[i + 1] == r[k]);
        }
    }
}

/// Every entry of `s` whose address is not `a` is kept by `remove_key`.
pub proof fn lemma_remove_key_keeps_entry(s: NickSeq, a: Addr, i: int)
    requires
        uniq_keys(s),
        0 <= i < s.len(),
        s[i].0 != a,
    ensures
        exists|k: int|
            0 <= k < remove_key(s, a).len() && #[trigger] remove_key(s, a)[k] == s[i],
    decreases s.len(),
{
    let r = remove_key(s, a);
    if s[0].0 == a {
        assert(r[i - 1] == s[i]);
    } else {
        if i == 0 {
            assert(r[0] == s[0]);
        } else {
            let t = s.skip(1);
            lemma_uniq_keys_skip(s);
            assert(t[i - 1] == s[i]);
            lemma_remove_key_keeps_entry(t, a, i - 1);
            let k = choose|k: int|
                0 <= k < remove_key(t, a).len() && #[trigger] remove_key(t, a)[k] == t[i - 1];
            assert(r[k + 1] == s[i]);
        }
    }
}

/// `remove_key` keeps the addresses pairwise distinct.
pub proof fn lemma_remove_key_uniq(s: NickSeq, a: Addr)
    requires
        uniq_keys(s),
    ensures
        uniq_keys(remove_key(s, a)),
    decreases s.len(),
{
    let r = remove_key(s, a);
    if s.len() == 0 {
    } else if s[0].0 == a {
        lemma_uniq_keys_skip(s);
    } else {
        let t = s.skip(1);
        lemma_uniq_keys_skip(s);
        lemma_remove_key_uniq(t, a);
        let rt = remove_key(t, a);
        assert forall|i: int, j: int| 0 <= i < j < r.len() implies
            (#[trigger] r[i]).0 != (#[trigger] r[j]).0 by {
            if i == 0 {
                assert(r[j] == rt[j - 1]);
                lemma_remove_key_entry_src(t, a, j - 1);
                let m = choose|m: int| 0 <= m < t.len() && #[trigger] t[m] == rt[j - 1];
                assert(s[m + 1] == rt[j - 1]);
                assert(s[0].0 != s[m + 1].0);
            } else {
                assert(r[i] == rt[i - 1]);
                assert(r[j] == rt[j - 1]);
            }
        }
    }
}

/// With distinct addresses, taking `a` out removes exactly the entries that
/// carry `a`: membership of every other address is kept, with its nickname.
pub proof fn lemma_remove_key_membership(s: NickSeq, a: Addr)
    requires
        uniq_keys(s),
    ensures
        forall|b: Addr| has_key(remove_key(s, a), b) <==> has_key(s, b) && b != a,
        uniq_keys(remove_key(s, a)),
        forall|b: Addr|
            has_key(s, b) && b != a ==> nick_of(remove_key(s, a), b) == nick_of(s, b),
{
    let r = remove_key(s, a);
    lemma_remove_key_uniq(s, a);
    assert forall|b: Addr| has_key(r, b) implies has_key(s, b) && b != a by {
        let k = choose|k: int| 0 <= k < r.len() && (#[trigger] r[k]).0 == b;
        lemma_remove_key_entry_src(s, a, k);
        let i = choose|i: int| 0 <= i < s.len() && #[trigger] s[i] == r[k];
        assert(s[i].0 == b);
    }
    assert forall|b: Addr| has_key(s, b) && b != a implies has_key(r, b) by {
        let i = choose|i: int| 0 <= i < s.len() && (#[trigger] s[i]).0 == b;
        lemma_remove_key_keeps_entry(s, a, i);
        let k = choose|k: int| 0 <= k < r.len() && #[trigger] r[k] == s[i];
        assert(r[k].0 == b);
    }
    assert forall|b: Addr| has_key(s, b) && b != a implies
        nick_of(r, b) == nick_of(s, b) by {
        let i = key_at(s, b);
        assert(0 <= i < s.len() && s[i].0 == b);
        lemma_remove_key_keeps_entry(s, a, i);
        let k = choose|k: int| 0 <= k < r.len() && #[trigger] r[k] == s[i];
        assert(has_key(r, b)) by { assert(r[k].0 == b); }
        let k2 = key_at(r, b);
        assert(0 <= k2 < r.len() && r[k2].0 == b);
        assert(k2 == k);
        assert(nick_of(r, b) == s[i].1);
    }
}

/// Every element left by `remove_addr` is an element of `s` other than `a`.
pub proof fn lemma_remove_addr_entry_src(s: Seq<Addr>, a: Addr, k: int)
    requires
        uniq_addrs(s),
        0 <= k < remove_addr(s, a).len(),
    ensures
        s.contains(remove_addr(s, a)[k]),
        remove_addr(s, a)[k] != a,
    decreases s.len(),
{
    let r = remove_addr(s, a);
    if s[0] == a {
        assert(r[k] == s[k + 1]);
        assert(s[0] != s[k + 1]);
    } else {
        let t = s.skip(1);
        if k == 0 {
            assert(r[0] == s[0]);
        } else {
            assert forall|i: int, j: int| 0 <= i < j < t.len() implies t[i] != t[j] by {
                assert(t[i] == s[i + 1]);
                assert(t[j] == s[j + 1]);
            }
            lemma_remove_addr_entry_src(t, a, k - 1);
            assert(r[k] == remove_addr(t, a)[k - 1]);
            let i = choose|i: int| 0 <= i < t.len() && t[i] == remove_addr(t, a)[k - 1];
            assert(s[i + 1] == r[k]);
        }
    }
}

/// Every element of `s` other than `a` is kept by `remove_addr`.
pub proof fn lemma_remove_addr_keeps(s: Seq<Addr>, a: Addr, i: int)
    requires
        uniq_addrs(s),
        0 <= i < s.len(),
        s[i] != a,
    ensures
        remove_addr(s, a).contains(s[i]),
    decreases s.len(),
{
    let r = remove_addr(s, a);
    if s[0] == a {
        assert(r[i - 1] == s[i]);
    } else {
        if i == 0 {
            assert(r[0] == s[0]);
        } else {
            let t = s.skip(1);
            assert forall|m: int, j: int| 0 <= m < j < t.len() implies t[m] != t[j] by {
                assert(t[m] == s[m + 1]);
                assert(t[j] == s[j + 1]);
            }
            assert(t[i - 1] == s[i]);
            lemma_remove_addr_keeps(t, a, i - 1);
            let k = choose|k: int| 0 <= k < remove_addr(t, a).len() && remove_addr(t, a)[k] == t[i - 1];
            assert(r[k + 1] == s[i]);
        }
    }
}

/// With distinct elements, taking `a` out removes exactly the occurrences of
/// `a`, and keeps the rest distinct.
pub proof fn lemma_remove_addr_membership(s: Seq<Addr>, a: Addr)
    requires
        uniq_addrs(s),
    ensures
        forall|b: Addr| remove_addr(s, a).contains(b) <==> s.contains(b) && b != a,
        uniq_addrs(remove_addr(s, a)),
{
    let r = remove_addr(s, a);
    assert forall|b: Addr| #[trigger] r.contains(b) implies s.contains(b) && b != a by {
        let k = choose|k: int| 0 <= k < r.len() && r[k] == b;
        lemma_remove_addr_entry_src(s, a, k);
    }
    assert forall|b: Addr| s.contains(b) && b != a implies #[trigger] r.contains(b) by {
        let i = choose|i: int| 0 <= i < s.len() && s[i] == b;
        lemma_remove_addr_keeps(s, a, i);
    }
    assert forall|i: int, j: int| 0 <= i < j < r.len() implies r[i] != r[j] by {
        lemma_remove_addr_entry_src(s, a, i);
        lemma_remove_addr_entry_src(s, a, j);
        if r[i] == r[j] {
            let m = choose|m: int| 0 <= m < s.len() && s[m] == r[i];
            if s[0] == a {
                assert(r[i] == s[i + 1]);
                assert(r[j] == s[j + 1]);
            } else {
                lemma_remove_addr_uniq_pair(s, a, i, j);
            }
        }
    }
}

/// Distinct positions of `remove_addr`'s result hold distinct elements.
pub proof fn lemma_remove_addr_uniq_pair(s: Seq<Addr>, a: Addr, i: int, j: int)
    requires
        uniq_addrs(s),
        0 <= i < j < remove_addr(s, a).len(),
    ensures
        remove_addr(s, a)[i] != remove_addr(s, a)[j],
    decreases s.len(),
{
    let r = remove_addr(s, a);
    if s[0] == a {
        assert(r[i] == s[i + 1]);
        assert(r[j] == s[j + 1]);
    } else {
        let t = s.skip(1);
        assert forall|m: int, n: int| 0 <= m < n < t.len() implies t[m] != t[n] by {
            assert(t[m] == s[m + 1]);
            assert(t[n] == s[n + 1]);
        }
        let rt = remove_addr(t, a);
        if i == 0 {
            assert(r[j] == rt[j - 1]);
            lemma_remove_addr_entry_src(t, a, j - 1);
            let m = choose|m: int| 0 <= m < t.len() && t[m] == rt[j - 1];
            assert(s[m + 1] == rt[j - 1]);
            assert(s[0] != s[m + 1]);
        } else {
            lemma_remove_addr_uniq_pair(t, a, i - 1, j - 1);
            assert(r[i] == rt[i - 1]);
            assert(r[j] == rt[j - 1]);
        }
    }
}

/// With distinct addresses, an entry's position determines `key_at` and
/// `nick_of`.
pub proof fn lemma_key_at_unique(s: NickSeq, a: Addr, i: int)
    requires
        uniq_keys(s),
        0 <= i < s.len(),
        s[i].0 == a,
    ensures
        has_key(s, a),
        key_at(s, a) == i,
        nick_of(s, a) == s[i].1,
{
    assert(has_key(s, a));
    let k = key_at(s, a);
    assert(0 <= k < s.len() && s[k].0 == a);
    if k < i {
        assert(s[k].0 != s[i].0);
    } else if i < k {
        assert(s[i].0 != s[k].0);
    }
}

/// With distinct addresses, `b` survives `remove_key(s, a)` exactly when it
/// was present and differs from `a`, and keeps its nickname.
pub proof fn lemma_remove_key_has(s: NickSeq, a: Addr, b: Addr)
    requires
        uniq_keys(s),
    ensures
        has_key(remove_key(s, a), b) <==> (has_key(s, b) && b != a),
        (has_key(s, b) && b != a) ==> nick_of(remove_key(s, a), b) == nick_of(s, b),
{
    let r = remove_key(s, a);
    lemma_remove_key_uniq(s, a);
    if has_key(r, b) {
        let k = choose|k: int| 0 <= k < r.len() && (#[trigger] r[k]).0 == b;
        lemma_remove_key_entry_src(s, a, k);
        let i = choose|i: int| 0 <= i < s.len() && #[trigger] s[i] == r[k];
        assert(s[i].0 == b);
        assert(has_key(s, b));
    }
    if has_key(s, b) && b != a {
        let i = key_at(s, b);
        assert(0 <= i < s.len() && s[i].0 == b);
        lemma_remove_key_keeps_entry(s, a, i);
        let k = choose|k: int| 0 <= k < r.len() && #[trigger] r[k] == s[i];
        lemma_key_at_unique(r, b, k);
        lemma_key_at_unique(s, b, i);
    }
}

/// With distinct elements, `b` survives `remove_addr(s, a)` exactly when it
/// occurred and differs from `a`.
pub proof fn lemma_remove_addr_has(s: Seq<Addr>, a: Addr, b: Addr)
    requires
        uniq_addrs(s),
    ensures
        remove_addr(s, a).contains(b) <==> (s.contains(b) && b != a),
{
    let r = remove_addr(s, a);
    if r.contains(b) {
        let k = choose|k: int| 0 <= k < r.len() && r[k] == b;
        lemma_remove_addr_entry_src(s, a, k);
    }
    if s.contains(b) && b != a {
        let i = choose|i: int| 0 <= i < s.len() && s[i] == b;
        lemma_remove_addr_keeps(s, a, i);
    }
}

/// When no entry carries `a`, `remove_key` leaves `s` as it is.
pub proof fn lemma_remove_key_absent(s: NickSeq, a: Addr)
    requires
        forall|j: int| 0 <= j < s.len() ==> (#[trigger] s[j]).0 != a,
    ensures
        remove_key(s, a) =~= s,
    decreases s.len(),
{
    if s.len() == 0 {
    } else {
        let t = s.skip(1);
        assert forall|j: int| 0 <= j < t.len() implies (#[trigger] t[j]).0 != a by {
            assert(t[j] == s[j + 1]);
        }
        lemma_remove_key_absent(t, a);
    }
}

/// When `a` does not occur, `remove_addr` leaves `s` as it is.
pub proof fn lemma_remove_addr_absent(s: Seq<Addr>, a: Addr)
    requires
        forall|j: int| 0 <= j < s.len() ==> s[j] != a,
    ensures
        remove_addr(s, a) =~= s,
    decreases s.len(),
{
    if s.len() == 0 {
    } else {
        let t = s.skip(1);
        assert forall|j: int| 0 <= j < t.len() implies t[j] != a by {
            assert(t[j] == s[j + 1]);
        }
        lemma_remove_addr_absent(t, a);
    }
}

/// Removing the entry at the index of the first match yields `remove_key`.
pub proof fn lemma_remove_at_first_match(s: NickSeq, a: Addr, i: int)
    requires
        0 <= i < s.len(),
        s[i].0 == a,
        forall|j: int| 0 <= j < i ==> (#[trigger] s[j]).0 != a,
    ensures
        s.remove(i) =~= remove_key(s, a),
    decreases i,
{
    if i == 0 {
        assert(s.remove(0) =~= s.skip(1));
    } else {
        let t = s.skip(1);
        assert(t[i - 1].0 == a);
        assert forall|j: int| 0 <= j < i - 1 implies (#[trigger] t[j]).0 != a by {
            assert(t[j] == s[j + 1]);
        }
        lemma_remove_at_first_match(t, a, i - 1);
        assert(s.remove(i) =~= seq![s[0]] + t.remove(i - 1));
    }
}

/// Removing the element at the index of the first occurrence yields
/// `remove_addr`.
pub proof fn lemma_remove_addr_at_first_match(s: Seq<Addr>, a: Addr, i: int)
    requires
        0 <= i < s.len(),
        s[i] == a,
        forall|j: int| 0 <= j < i ==> s[j] != a,
    ensures
        s.remove(i) =~= remove_addr(s, a),
    decreases i,
{
    if i == 0 {
        assert(s.remove(0) =~= s.skip(1));
    } else {
        let t = s.skip(1);
        assert(t[i - 1] == a);
        assert forall|j: int| 0 <= j < i - 1 implies t[j] != a by {
            assert(t[j] == s[j + 1]);
        }
        lemma_remove_addr_at_first_match(t, a, i - 1);
        assert(s.remove(i) =~= seq![s[0]] + t.remove(i - 1));
    }
}


/// `s` with `(a, n)` appended when `a` is absent; `s` itself otherwise.
pub open spec fn insert_absent(s: NickSeq, a: Addr, n: Seq<char>) -> NickSeq {
    if has_key(s, a) {
        s
    } else {
        s.push((a, n))
    }
}

/// `s` restricted to the first entry of each address, in order of first
/// appearance.
pub open spec fn dedup_keys(s: NickSeq) -> NickSeq
    decreases s.len(),
{
    if s.len() == 0 {
        s
    } else {
        insert_absent(dedup_keys(s.drop_last()), s.last().0, s.last().1)
    }
}

/// Appending a fresh address keeps the addresses pairwise distinct.
pub proof fn lemma_push_uniq(s: NickSeq, a: Addr, n: Seq<char>)
    requires
        uniq_keys(s),
        !has_key(s, a),
    ensures
        uniq_keys(s.push((a, n))),
{
    let r = s.push((a, n));
    assert forall|i: int, j: int| 0 <= i < j < r.len() implies
        (#[trigger] r[i]).0 != (#[trigger] r[j]).0 by {
        if j < s.len() {
            assert(r[i] == s[i]);
            assert(r[j] == s[j]);
        } else {
            assert(r[i] == s[i]);
            if s[i].0 == a {
                assert(has_key(s, a));
            }
        }
    }
}

/// The addresses of a deduplicated sequence are pairwise distinct.
pub proof fn lemma_dedup_uniq(s: NickSeq)
    ensures
        uniq_keys(dedup_keys(s)),
    decreases s.len(),
{
    if s.len() > 0 {
        lemma_dedup_uniq(s.drop_last());
        let d0 = dedup_keys(s.drop_last());
        if !has_key(d0, s.last().0) {
            lemma_push_uniq(d0, s.last().0, s.last().1);
        }
    }
}

/// Deduplication leaves a sequence with distinct addresses as it is.
pub proof fn lemma_dedup_of_uniq(s: NickSeq)
    requires
        uniq_keys(s),
    ensures
        dedup_keys(s) =~= s,
    decreases s.len(),
{
    if s.len() > 0 {
        let s0 = s.drop_last();
        assert forall|i: int, j: int| 0 <= i < j < s0.len() implies
            (#[trigger] s0[i]).0 != (#[trigger] s0[j]).0 by {
            assert(s0[i] == s[i]);
            assert(s0[j] == s[j]);
        }
        lemma_dedup_of_uniq(s0);
        let d0 = dedup_keys(s0);
        assert(d0 =~= s0);
        if has_key(d0, s.last().0) {
            let k = choose|k: int| 0 <= k < d0.len() && (#[trigger] d0[k]).0 == s.last().0;
            assert(s[k].0 == s[s.len() - 1].0);
            assert(false);
        }
        assert(dedup_keys(s) =~= s0.push(s.last()));
        assert(s0.push(s.last()) =~= s);
    }
}

} // verus!
