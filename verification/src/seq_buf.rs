//! Order restoration. A `SeqBuf` consumes `(sequence number, item)` pairs
//! that may arrive in any order and hands them back in strictly ascending,
//! contiguous sequence-number order.
//!
//! The buffer is modelled as a map from pending sequence numbers to items,
//! together with the counter `wants`: the next sequence number owed
//! downstream.

use vstd::prelude::*;

verus! {

/// The map denoted by a sequence of `(sequence number, item)` pairs.
pub open spec fn pairs_to_map<T>(s: Seq<(usize, T)>) -> Map<nat, T>
    decreases s.len(),
{
    if s.len() == 0 {
        Map::empty()
    } else {
        pairs_to_map(s.drop_last()).insert(s.last().0 as nat, s.last().1)
    }
}

/// No two pairs carry the same sequence number.
pub open spec fn distinct_keys<T>(s: Seq<(usize, T)>) -> bool {
    forall|i: int, j: int| 0 <= i < j < s.len() ==> s[i].0 != s[j].0
}

proof fn lemma_pairs_to_map_contains<T>(s: Seq<(usize, T)>, k: nat)
    ensures
        pairs_to_map(s).contains_key(k) <==> exists|i: int| 0 <= i < s.len() && s[i].0 as nat == k,
    decreases s.len(),
{
    if s.len() > 0 {
        lemma_pairs_to_map_contains(s.drop_last(), k);
        if s.last().0 as nat == k {
            assert(s[s.len() - 1].0 as nat == k);
        } else if pairs_to_map(s).contains_key(k) {
            let i = choose|i: int| 0 <= i < s.drop_last().len() && s.drop_last()[i].0 as nat == k;
            assert(s[i].0 as nat == k);
        } else if exists|i: int| 0 <= i < s.len() && s[i].0 as nat == k {
            let i = choose|i: int| 0 <= i < s.len() && s[i].0 as nat == k;
            assert(0 <= i < s.drop_last().len() && s.drop_last()[i].0 as nat == k);
        }
    }
}

proof fn lemma_pairs_to_map_index<T>(s: Seq<(usize, T)>, i: int)
    requires
        distinct_keys(s),
        0 <= i < s.len(),
    ensures
        pairs_to_map(s).contains_key(s[i].0 as nat),
        pairs_to_map(s)[s[i].0 as nat] == s[i].1,
    decreases s.len(),
{
    lemma_pairs_to_map_contains(s, s[i].0 as nat);
    if i < s.len() - 1 {
        assert(s.drop_last()[i] == s[i]);
        lemma_pairs_to_map_index(s.drop_last(), i);
        assert(s.last().0 != s[i].0);
    }
}

proof fn lemma_pairs_to_map_remove<T>(s: Seq<(usize, T)>, i: int)
    requires
        distinct_keys(s),
        0 <= i < s.len(),
    ensures
        distinct_keys(s.remove(i)),
        pairs_to_map(s.remove(i)) =~= pairs_to_map(s).remove(s[i].0 as nat),
    decreases s.len(),
{
    let k = s[i].0 as nat;
    if i == s.len() - 1 {
        assert(s.remove(i) =~= s.drop_last());
        lemma_pairs_to_map_contains(s.drop_last(), k);
        assert(!pairs_to_map(s.drop_last()).contains_key(k));
        assert(pairs_to_map(s.drop_last()).insert(k, s[i].1).remove(k) =~= pairs_to_map(
            s.drop_last(),
        ));
    } else {
        lemma_pairs_to_map_remove(s.drop_last(), i);
        assert(s.remove(i).drop_last() =~= s.drop_last().remove(i));
        assert(s.remove(i).last() == s.last());
        assert(s.remove(i).len() > 0);
        assert(s.last().0 as nat != k);
        assert(pairs_to_map(s.remove(i)) == pairs_to_map(s.drop_last().remove(i)).insert(
            s.last().0 as nat,
            s.last().1,
        ));
    }
}

/// Restores strict ascending order from out-of-order `(seq, item)` pairs.
///
/// `wants` is the next sequence number owed downstream; `pop` releases an
/// item only once that exact number has arrived, so the output is dense
/// from the number the buffer was started at (0 for a fresh buffer).
#[derive(Debug)]
pub struct SeqBuf<T> {
    buf: Vec<(usize, T)>,
    wants: usize,
}

impl<T> SeqBuf<T> {
    /// The pending items, keyed by sequence number.
    pub closed spec fn view(self) -> Map<nat, T> {
        pairs_to_map(self.buf@)
    }

    /// The next sequence number owed downstream.
    pub closed spec fn wants_spec(self) -> nat {
        self.wants as nat
    }

    pub closed spec fn wf(self) -> bool {
        distinct_keys(self.buf@) && (forall|i: int|
            0 <= i < self.buf@.len() ==> self.buf@[i].0 >= self.wants)
    }

    pub fn new() -> (r: SeqBuf<T>)
        ensures
            r.wf(),
            r.view() == Map::<nat, T>::empty(),
            r.wants_spec() == 0,
    {
        SeqBuf { buf: Vec::new(), wants: 0 }
    }

    /// Accepts one pair. A sequence number below `wants` would already have
    /// been released and one already buffered would be a duplicate: the
    /// upstream assigns numbers densely, so neither can occur.
    pub fn push(&mut self, idx: usize, data: T)
        requires
            old(self).wf(),
            idx >= old(self).wants_spec(),
            !old(self).view().contains_key(idx as nat),
        ensures
            final(self).wf(),
            final(self).view() == old(self).view().insert(idx as nat, data),
            final(self).wants_spec() == old(self).wants_spec(),
    {
        proof {
            lemma_pairs_to_map_contains(self.buf@, idx as nat);
        }
        self.buf.push((idx, data));
        proof {
            assert(self.buf@.drop_last() =~= old(self).buf@);
        }
    }

    /// Releases the item numbered `wants`, if it has arrived, and advances
    /// `wants`; returns `None` (and changes nothing) otherwise.
    pub fn pop(&mut self) -> (r: Option<(usize, T)>)
        requires
            old(self).wf(),
            old(self).wants_spec() < usize::MAX,
        ensures
            final(self).wf(),
            if old(self).view().contains_key(old(self).wants_spec()) {
                r matches Some(p) && p.0 as nat == old(self).wants_spec() && p.1 == old(
                    self,
                ).view()[old(self).wants_spec()] && final(self).view() == old(self).view().remove(
                    old(self).wants_spec(),
                ) && final(self).wants_spec() == old(self).wants_spec() + 1
            } else {
                r is None && final(self).view() == old(self).view() && final(self).wants_spec()
                    == old(self).wants_spec()
            },
    {
        let ghost s0 = self.buf@;
        let mut i: usize = 0;
        while i < self.buf.len()
            invariant
                0 <= i <= self.buf@.len(),
                self == old(self),
                self.wf(),
                self.wants < usize::MAX,
                forall|k: int| 0 <= k < i ==> self.buf@[k].0 != self.wants,
            decreases self.buf@.len() - i,
        {
            if self.buf[i].0 == self.wants {
                proof {
                    lemma_pairs_to_map_index(self.buf@, i as int);
                    lemma_pairs_to_map_remove(self.buf@, i as int);
                }
                let pair = self.buf.remove(i);
                self.wants = self.wants + 1;
                return Some(pair);
            }
            i = i + 1;
        }
        proof {
            lemma_pairs_to_map_contains(self.buf@, self.wants as nat);
        }
        None
    }
}

/// Some pair in `s` carries the sequence number `k`.
pub open spec fn has_key<T>(s: Seq<(usize, T)>, k: int) -> bool {
    exists|j: int| 0 <= j < s.len() && #[trigger] s[j].0 == k
}

/// Some pair in `s` is exactly `(k, v)`.
pub open spec fn key_value_in<T>(s: Seq<(usize, T)>, k: int, v: T) -> bool {
    exists|j: int| 0 <= j < s.len() && #[trigger] s[j].0 == k && s[j].1 == v
}

/// The natural numbers below `n`.
spec fn nat_range(n: nat) -> Set<nat> {
    Set::new(|k: nat| k < n)
}

proof fn lemma_nat_range(n: nat)
    ensures
        nat_range(n).finite(),
        nat_range(n).len() == n,
    decreases n,
{
    if n == 0 {
        assert(nat_range(0) =~= Set::empty());
    } else {
        lemma_nat_range((n - 1) as nat);
        assert(nat_range((n - 1) as nat).insert((n - 1) as nat) =~= nat_range(n));
    }
}

proof fn lemma_ptm_dom_len<T>(s: Seq<(usize, T)>)
    requires
        distinct_keys(s),
    ensures
        pairs_to_map(s).dom().finite(),
        pairs_to_map(s).dom().len() == s.len(),
    decreases s.len(),
{
    if s.len() > 0 {
        lemma_ptm_dom_len(s.drop_last());
        lemma_pairs_to_map_contains(s.drop_last(), s.last().0 as nat);
        assert(!pairs_to_map(s.drop_last()).contains_key(s.last().0 as nat));
    }
}

/// Pigeonhole: a sequence of pairs with distinct sequence numbers in which
/// every number below the length occurs has no number at or above the length.
proof fn lemma_dense_distinct_covers<T>(s: Seq<(usize, T)>)
    requires
        distinct_keys(s),
        forall|k: int| 0 <= k < s.len() ==> #[trigger] has_key(s, k),
    ensures
        forall|j: int| 0 <= j < s.len() ==> (#[trigger] s[j].0 as int) < s.len(),
{
    let n = s.len();
    let dom = pairs_to_map(s).dom();
    lemma_ptm_dom_len(s);
    lemma_nat_range(n);
    assert forall|j: int| 0 <= j < n implies (#[trigger] s[j].0 as int) < n by {
        if s[j].0 as int >= n {
            let big = s[j].0 as nat;
            lemma_pairs_to_map_contains(s, big);
            assert(dom.contains(big));
            assert forall|k: nat| nat_range(n).contains(k) implies dom.remove(big).contains(
                k,
            ) by {
                assert(has_key(s, k as int));
                let jk = choose|jk: int| 0 <= jk < n && #[trigger] s[jk].0 == k as int;
                lemma_pairs_to_map_contains(s, k);
                assert(dom.contains(k));
            }
            vstd::set_lib::lemma_len_subset(nat_range(n), dom.remove(big));
            assert(dom.remove(big).len() == n - 1);
        }
    }
}

/// Order restoration. Feeds a dense permutation of `(seq, item)` pairs
/// through a fresh `SeqBuf` and drains it: the result is exactly the given
/// items in ascending sequence order, none dropped or duplicated.
pub fn restore_order<T>(items: Vec<(usize, T)>) -> (r: Vec<(usize, T)>)
    requires
        distinct_keys(items@),
        forall|k: int| 0 <= k < items@.len() ==> #[trigger] has_key(items@, k),
    ensures
        r@.len() == items@.len(),
        forall|i: int| 0 <= i < r@.len() ==> (#[trigger] r@[i]).0 == i,
        forall|i: int| #![trigger r@[i]] 0 <= i < r@.len() ==> items@.contains(r@[i]),
        forall|j: int| #![trigger items@[j]] 0 <= j < items@.len() ==> r@.contains(items@[j]),
{
    let ghost items0 = items@;
    let n = items.len();
    proof {
        lemma_dense_distinct_covers(items0);
    }
    let mut pending = items;
    let mut buf = SeqBuf::<T>::new();
    proof {
        assert(pending@ =~= items0.take(n as int));
    }
    while pending.len() > 0
        invariant
            pending@.len() <= n,
            pending@ =~= items0.take(pending@.len() as int),
            n == items0.len(),
            distinct_keys(items0),
            buf.wf(),
            buf.wants_spec() == 0,
            forall|k: nat|
                #[trigger] buf.view().contains_key(k) <==> exists|j: int|
                    pending@.len() <= j < n && #[trigger] items0[j].0 == k as int,
            forall|j: int|
                pending@.len() <= j < n ==> buf.view().contains_key(
                    #[trigger] items0[j].0 as nat,
                ) && buf.view()[items0[j].0 as nat] == items0[j].1,
        decreases pending@.len(),
    {
        let ghost len0 = pending@.len() as int;
        proof {
            assert(pending@[len0 - 1] == items0[len0 - 1]);
        }
        let p = match pending.pop() {
            Some(p) => p,
            None => {
                proof {
                    assert(false);
                }
                unreached()
            },
        };
        proof {
            assert(pending@ =~= items0.take(len0 - 1));
            if buf.view().contains_key(p.0 as nat) {
                let j = choose|j: int| len0 <= j < n && #[trigger] items0[j].0 == p.0 as int;
                assert(items0[len0 - 1].0 == items0[j].0);
                assert(false);
            }
        }
        buf.push(p.0, p.1);
        proof {
            assert forall|j: int|
                pending@.len() <= j < n implies buf.view().contains_key(
                #[trigger] items0[j].0 as nat,
            ) && buf.view()[items0[j].0 as nat] == items0[j].1 by {
                if j > len0 - 1 {
                    assert(items0[j].0 != items0[len0 - 1].0);
                }
            }
        }
    }
    proof {
        assert forall|k: nat| 0 <= k < n implies #[trigger] buf.view().contains_key(k) by {
            assert(has_key(items0, k as int));
            let j = choose|j: int| 0 <= j < items0.len() && #[trigger] items0[j].0 == k as int;
            assert(buf.view().contains_key(items0[j].0 as nat));
        }
        assert forall|k: nat| #[trigger] buf.view().contains_key(k) implies 0 <= k < n by {
            let j = choose|j: int| 0 <= j < n && #[trigger] items0[j].0 == k as int;
        }
        assert forall|k: nat| 0 <= k < n implies #[trigger] key_value_in(
            items0,
            k as int,
            buf.view()[k],
        ) by {
            assert(has_key(items0, k as int));
            let j = choose|j: int| 0 <= j < items0.len() && #[trigger] items0[j].0 == k as int;
            assert(buf.view().contains_key(items0[j].0 as nat));
            assert(buf.view()[items0[j].0 as nat] == items0[j].1);
            assert(items0[j].0 as nat == k);
            assert(items0[j].0 == k as int && items0[j].1 == buf.view()[k]);
        }
    }
    let mut r: Vec<(usize, T)> = Vec::new();
    let mut i: usize = 0;
    while i < n
        invariant
            n == items0.len(),
            distinct_keys(items0),
            0 <= i <= n,
            r@.len() == i,
            buf.wf(),
            buf.wants_spec() == i as nat,
            forall|k: nat| #[trigger] buf.view().contains_key(k) <==> i <= k < n,
            forall|k: nat|
                i <= k < n ==> #[trigger] key_value_in(items0, k as int, buf.view()[k]),
            forall|ii: int| 0 <= ii < i ==> (#[trigger] r@[ii]).0 == ii,
            forall|ii: int| #![trigger r@[ii]] 0 <= ii < i ==> items0.contains(r@[ii]),
        decreases n - i,
    {
        proof {
            assert(buf.view().contains_key(i as nat));
        }
        let ghost v0 = buf.view();
        let p = match buf.pop() {
            Some(p) => p,
            None => {
                proof {
                    assert(false);
                }
                unreached()
            },
        };
        proof {
            assert(key_value_in(items0, i as int, p.1));
            let j = choose|j: int|
                0 <= j < items0.len() && #[trigger] items0[j].0 == i as int && items0[j].1 == p.1;
            assert(items0[j] == p);
            assert(items0.contains(p));
            assert forall|k: nat|
                i + 1 <= k < n implies #[trigger] key_value_in(
                items0,
                k as int,
                buf.view()[k],
            ) by {
                assert(buf.view()[k] == v0[k]);
            }
        }
        r.push(p);
        i = i + 1;
    }
    proof {
        assert forall|j: int| #![trigger items0[j]] 0 <= j < n implies r@.contains(items0[j]) by {
            let k = items0[j].0 as int;
            assert(0 <= k < n);
            assert(r@[k].0 == k);
            assert(items0.contains(r@[k]));
            let j2 = choose|j2: int| 0 <= j2 < items0.len() && items0[j2] == r@[k];
            assert(items0[j2].0 == k);
            assert(j2 == j);
            assert(items0[j] == r@[k]);
        }
    }
    r
}

impl<T> Default for SeqBuf<T> {
    fn default() -> (r: SeqBuf<T>)
        ensures
            r.wf(),
            r.view() == Map::<nat, T>::empty(),
            r.wants_spec() == 0,
    {
        SeqBuf::new()
    }
}

} // verus!
