//! A two-tier ordered queue ("time-ordered FIFO").
//!
//! `TFifo` stores (key, value) pairs and yields them back in ascending key
//! order, with stable FIFO tie-breaking among equal keys. Insertions whose
//! key is in order with respect to the most recent insertion are appended to
//! a plain list (the fast path); out-of-order insertions go to a sorted
//! bucket structure keyed by their timestamp (the slow path). Emission merges
//! the two tiers, preferring the fast path when the front keys are equal, so
//! pairs sharing a key always come back in insertion order.

use std::collections::VecDeque;
use vstd::prelude::*;

verus! {

/// A pending (key, value) pair, keyed by an unsigned 64-bit virtual
/// timestamp.
#[derive(Debug, Clone, PartialEq, Eq, PartialOrd, Ord, Hash)]
pub struct TFifo<V> {
    root: Vec<(u64, VecDeque<V>)>,
    list: VecDeque<(u64, V)>,
    len: usize,
}

/// Keys never decrease along the sequence.
pub open spec fn sorted_by_key<V>(s: Seq<(u64, V)>) -> bool {
    forall|i: int, j: int| 0 <= i < j < s.len() ==> s[i].0 <= s[j].0
}

/// The bucket tier is well shaped: keys strictly increase and no bucket is
/// empty.
pub open spec fn buckets_ok<V>(bs: Seq<(u64, Seq<V>)>) -> bool {
    &&& forall|i: int, j: int| 0 <= i < j < bs.len() ==> bs[i].0 < bs[j].0
    &&& forall|i: int| 0 <= i < bs.len() ==> bs[i].1.len() > 0
}

/// Total number of values held by the bucket tier.
pub open spec fn bucket_total<V>(bs: Seq<(u64, Seq<V>)>) -> nat
    decreases bs.len(),
{
    if bs.len() == 0 {
        0
    } else {
        bs[0].1.len() + bucket_total(bs.drop_first())
    }
}

/// The bucket tier flattened into (key, value) pairs, buckets in key order
/// and each bucket front to back.
pub open spec fn flat<V>(bs: Seq<(u64, Seq<V>)>) -> Seq<(u64, V)>
    decreases bs.len(),
{
    if bs.len() == 0 {
        Seq::empty()
    } else {
        bs[0].1.map_values(|v: V| (bs[0].0, v)) + flat(bs.drop_first())
    }
}

/// The effect of an out-of-order insertion on the bucket tier: the value is
/// appended to the back of its key's bucket, the bucket being created at its
/// sorted position if the key is new.
pub open spec fn bucket_append<V>(bs: Seq<(u64, Seq<V>)>, key: u64, value: V) -> Seq<
    (u64, Seq<V>),
>
    decreases bs.len(),
{
    if bs.len() == 0 {
        seq![(key, seq![value])]
    } else if key < bs[0].0 {
        seq![(key, seq![value])] + bs
    } else if key == bs[0].0 {
        seq![(bs[0].0, bs[0].1.push(value))] + bs.drop_first()
    } else {
        seq![bs[0]] + bucket_append(bs.drop_first(), key, value)
    }
}

/// The effect of removal on the bucket tier: the front value of the first
/// bucket leaves, and the bucket itself is dropped once it is empty.
pub open spec fn bucket_pop<V>(bs: Seq<(u64, Seq<V>)>) -> Seq<(u64, Seq<V>)>
    recommends
        bs.len() > 0,
{
    if bs[0].1.len() > 1 {
        bs.update(0, (bs[0].0, bs[0].1.drop_first()))
    } else {
        bs.drop_first()
    }
}

/// Ascending merge of the two tiers: the smaller front key is emitted first,
/// the fast-path tier winning ties. A pair in the fast-path tier always
/// predates a pair of the same key in the slow-path tier, so this tie rule
/// keeps equal-key pairs in insertion order.
pub open spec fn merge<V>(a: Seq<(u64, V)>, b: Seq<(u64, V)>) -> Seq<(u64, V)>
    decreases a.len() + b.len(),
{
    if a.len() == 0 {
        b
    } else if b.len() == 0 {
        a
    } else if b[0].0 <= a[0].0 {
        seq![b[0]] + merge(a, b.drop_first())
    } else {
        seq![a[0]] + merge(a.drop_first(), b)
    }
}

impl<V> TFifo<V> {
    /// The fast-path tier: pairs accepted in non-decreasing key order.
    pub closed spec fn tail(self) -> Seq<(u64, V)> {
        self.list@
    }

    /// The slow-path tier: out-of-order pairs, bucketed by key.
    pub closed spec fn buckets(self) -> Seq<(u64, Seq<V>)> {
        self.root@.map_values(|b: (u64, VecDeque<V>)| (b.0, b.1@))
    }

    /// All pending pairs, in the order they will be popped.
    pub open spec fn view(self) -> Seq<(u64, V)> {
        merge(flat(self.buckets()), self.tail())
    }

    /// Internal consistency: both tiers are ordered, every bucket key is
    /// below the tail's last key, and the stored count matches the contents.
    pub closed spec fn well_formed(self) -> bool {
        &&& sorted_by_key(self.list@)
        &&& buckets_ok(self.buckets())
        &&& self.root@.len() > 0 ==> {
            &&& self.list@.len() > 0
            &&& forall|i: int|
                0 <= i < self.root@.len() ==> self.root@[i].0 < self.list@.last().0
        }
        &&& self.len as nat == self.list@.len() + bucket_total(self.buckets())
    }

    /// Creates an empty queue.
    pub fn new() -> (r: Self)
        ensures
            r.well_formed(),
            r.view() == Seq::<(u64, V)>::empty(),
            r.tail() == Seq::<(u64, V)>::empty(),
            r.buckets() == Seq::<(u64, Seq<V>)>::empty(),
    {
        let r = TFifo { root: Vec::new(), list: VecDeque::new(), len: 0 };
        proof {
            assert(r.buckets() =~= Seq::<(u64, Seq<V>)>::empty());
        }
        r
    }

    /// Number of pairs currently held.
    pub fn len(&self) -> (r: usize)
        requires
            self.well_formed(),
        ensures
            r == self.view().len(),
    {
        proof {
            lemma_merge_len(flat(self.buckets()), self.tail());
            lemma_flat_len(self.buckets());
        }
        self.len
    }

    /// Whether no pair is held.
    pub fn is_empty(&self) -> (r: bool)
        requires
            self.well_formed(),
        ensures
            r == (self.view().len() == 0),
    {
        proof {
            lemma_merge_len(flat(self.buckets()), self.tail());
            lemma_flat_len(self.buckets());
        }
        self.len == 0
    }

    /// Accepts a pair. A key at least as large as the most recent in-order
    /// key is appended to the fast-path tier; a smaller one goes to the back
    /// of its key's bucket in the slow-path tier. A pair whose key is at
    /// least every pending key is popped after everything already held.
    pub fn insert(&mut self, key: u64, value: V)
        requires
            old(self).well_formed(),
            old(self).view().len() < usize::MAX,
        ensures
            final(self).well_formed(),
            final(self).view().len() == old(self).view().len() + 1,
            old(self).tail().len() == 0 || key >= old(self).tail().last().0 ==> {
                &&& final(self).tail() == old(self).tail().push((key, value))
                &&& final(self).buckets() == old(self).buckets()
            },
            !(old(self).tail().len() == 0 || key >= old(self).tail().last().0) ==> {
                &&& final(self).tail() == old(self).tail()
                &&& final(self).buckets() == bucket_append(old(self).buckets(), key, value)
            },
            old(self).view().len() == 0 || key >= old(self).view().last().0 ==> final(self).view()
                == old(self).view().push((key, value)),
    {
        proof {
            lemma_merge_len(flat(old(self).buckets()), old(self).tail());
            lemma_flat_len(old(self).buckets());
        }
        self.len = self.len + 1;
        if self.list.len() == 0 {
            self.list.push_back((key, value));
            proof {
                assert(self.buckets() =~= old(self).buckets());
                assert(self.root@.len() == 0);
                assert(flat(self.buckets()) == Seq::<(u64, V)>::empty());
                assert(self.view() == self.tail());
                assert(old(self).view() == old(self).tail());
                assert(self.view() =~= old(self).view().push((key, value)));
                lemma_merge_len(flat(self.buckets()), self.tail());
            }
            return;
        }
        let last_key = self.list[self.list.len() - 1].0;
        proof {
            assert(last_key == old(self).tail().last().0);
        }
        if key >= last_key {
            self.list.push_back((key, value));
            proof {
                assert(self.buckets() =~= old(self).buckets());
                assert(forall|i: int|
                    0 <= i < flat(old(self).buckets()).len() ==> flat(old(self).buckets())[i].0
                        < key) by {
                    lemma_flat_key_bound(old(self).buckets(), last_key);
                }
                lemma_merge_push(flat(old(self).buckets()), old(self).tail(), (key, value));
                lemma_merge_len(flat(self.buckets()), self.tail());
            }
            return;
        }
        // Out of order: find the sorted position of the key's bucket.
        let ghost obs = self.root@;
        let mut i: usize = 0;
        while i < self.root.len() && self.root[i].0 < key
            invariant
                0 <= i <= self.root@.len(),
                self.root@ == obs,
                forall|j: int| 0 <= j < i ==> self.root@[j].0 < key,
            decreases self.root@.len() - i,
        {
            i = i + 1;
        }
        proof {
            lemma_bucket_append_at(old(self).buckets(), key, value, i as int);
        }
        if i < self.root.len() && self.root[i].0 == key {
            let mut b = self.root.remove(i);
            b.1.push_back(value);
            self.root.insert(i, b);
            proof {
                let k = i as int;
                assert(self.root@.len() == obs.len());
                assert(forall|j: int| 0 <= j < obs.len() && j != k ==> self.root@[j] == obs[j]);
                assert(self.root@[k].0 == key);
                assert(self.root@[k].1@ == obs[k].1@.push(value));
                assert(self.buckets() =~= old(self).buckets().update(
                    k,
                    (key, old(self).buckets()[k].1.push(value)),
                ));
                assert(self.buckets() == bucket_append(old(self).buckets(), key, value));
            }
        } else {
            let mut vals: VecDeque<V> = VecDeque::new();
            vals.push_back(value);
            self.root.insert(i, (key, vals));
            proof {
                let k = i as int;
                assert(self.root@.len() == obs.len() + 1);
                assert(forall|j: int| 0 <= j < k ==> self.root@[j] == obs[j]);
                assert(self.root@[k].0 == key);
                assert(self.root@[k].1@ =~= seq![value]);
                assert(forall|j: int| k < j < self.root@.len() ==> self.root@[j] == obs[j - 1]);
                assert(self.buckets() =~= old(self).buckets().insert(k, (key, seq![value])));
                assert(self.buckets() == bucket_append(old(self).buckets(), key, value));
            }
        }
        proof {
            lemma_bucket_append_total(old(self).buckets(), key, value);
            assert(self.well_formed()) by {
                assert(buckets_ok(self.buckets())) by {
                    lemma_bucket_append_keeps_ok(old(self).buckets(), key, value);
                }
                assert(forall|j: int|
                    0 <= j < self.root@.len() ==> self.root@[j].0 < self.list@.last().0) by {
                    assert(forall|j: int|
                        0 <= j < self.buckets().len() ==> #[trigger] self.buckets()[j].0
                            < self.list@.last().0) by {
                        lemma_bucket_append_keys(
                            old(self).buckets(),
                            key,
                            value,
                            i as int,
                            self.list@.last().0,
                        );
                    }
                    assert(forall|j: int|
                        0 <= j < self.root@.len() ==> self.root@[j].0 == self.buckets()[j].0);
                }
            }
            lemma_merge_len(flat(self.buckets()), self.tail());
            lemma_flat_len(self.buckets());
            // A strictly smaller key is never at least the view's last key.
            if old(self).view().len() > 0 {
                lemma_flat_key_bound(old(self).buckets(), old(self).tail().last().0);
                lemma_merge_last(flat(old(self).buckets()), old(self).tail());
                assert(old(self).view().last() == old(self).tail().last());
            }
        }
    }

    /// Removes and returns the earliest-accepted pending pair among those
    /// with the smallest key; `None` when nothing is pending.
    pub fn pop(&mut self) -> (r: Option<(u64, V)>)
        requires
            old(self).well_formed(),
        ensures
            final(self).well_formed(),
            old(self).view().len() == 0 ==> r is None && *final(self) == *old(self),
            old(self).view().len() > 0 ==> r == Some(old(self).view()[0]) && final(self).view()
                == old(self).view().drop_first(),
            old(self).view().len() > 0 && old(self).buckets().len() == 0 ==> final(self).tail()
                == old(self).tail().drop_first() && final(self).buckets() == old(self).buckets(),
            old(self).buckets().len() > 0 && old(self).tail()[0].0 <= old(self).buckets()[0].0
                ==> final(self).tail() == old(self).tail().drop_first() && final(self).buckets()
                == old(self).buckets(),
            old(self).buckets().len() > 0 && old(self).tail()[0].0 > old(self).buckets()[0].0
                ==> final(self).tail() == old(self).tail() && final(self).buckets() == bucket_pop(
                old(self).buckets(),
            ),
    {
        proof {
            lemma_merge_len(flat(old(self).buckets()), old(self).tail());
            lemma_flat_len(old(self).buckets());
        }
        if self.len == 0 {
            return None;
        }
        self.len = self.len - 1;
        if self.root.len() == 0 {
            proof {
                assert(old(self).buckets().len() == 0);
                assert(flat(old(self).buckets()) == Seq::<(u64, V)>::empty());
                assert(old(self).view() == old(self).tail());
            }
            let p = self.list.pop_front().unwrap();
            proof {
                assert(self.list@ =~= old(self).list@.drop_first());
                assert(self.buckets() =~= old(self).buckets());
                assert(self.view() == self.tail());
            }
            return Some(p);
        }
        proof {
            assert(old(self).buckets().len() > 0);
            assert(old(self).buckets()[0].1.len() > 0);
            lemma_flat_head(old(self).buckets());
            assert(flat(old(self).buckets())[0].0 == old(self).root@[0].0);
        }
        let root_key = self.root[0].0;
        if self.list[0].0 <= root_key {
            proof {
                assert(old(self).view() == seq![old(self).tail()[0]] + merge(
                    flat(old(self).buckets()),
                    old(self).tail().drop_first(),
                ));
            }
            let p = self.list.pop_front().unwrap();
            proof {
                assert(self.list@ =~= old(self).list@.drop_first());
                assert(self.buckets() =~= old(self).buckets());
                assert(old(self).view()[0] == p);
                assert(old(self).view().drop_first() =~= merge(
                    flat(self.buckets()),
                    self.tail(),
                ));
                // The popped pair was not the tail's last: a bucket key sits
                // strictly between the popped key and the tail's last key, so
                // the tail stays non-empty and keeps its last pair.
                assert(old(self).list@[0].0 < old(self).list@.last().0);
                assert(self.list@.len() > 0);
                assert(self.list@.last() == old(self).list@.last());
            }
            return Some(p);
        }
        proof {
            assert(old(self).view() == seq![flat(old(self).buckets())[0]] + merge(
                flat(old(self).buckets()).drop_first(),
                old(self).tail(),
            ));
        }
        let mut b = self.root.remove(0);
        let v = b.1.pop_front().unwrap();
        if b.1.len() > 0 {
            self.root.insert(0, b);
            proof {
                let obs = old(self).buckets();
                assert(self.root@.len() == old(self).root@.len());
                assert(forall|j: int|
                    1 <= j < self.root@.len() ==> self.root@[j] == old(self).root@[j]);
                assert(self.root@[0].0 == root_key);
                assert(self.root@[0].1@ =~= old(self).root@[0].1@.drop_first());
                assert(self.buckets() =~= obs.update(0, (obs[0].0, obs[0].1.drop_first())));
                lemma_flat_drop_within(obs);
                assert(flat(self.buckets()) == flat(obs).drop_first());
            }
        } else {
            proof {
                let obs = old(self).buckets();
                assert(self.root@ =~= old(self).root@.drop_first());
                assert(self.buckets() =~= obs.drop_first());
                lemma_flat_drop_bucket(obs);
                assert(flat(self.buckets()) == flat(obs).drop_first());
            }
        }
        proof {
            let obs = old(self).buckets();
            assert(old(self).view()[0] == (root_key, old(self).root@[0].1@[0]));
            assert(old(self).view().drop_first() =~= merge(flat(obs).drop_first(), self.tail()));
            assert(self.view() == old(self).view().drop_first());
            assert(self.well_formed()) by {
                assert(buckets_ok(self.buckets()));
                assert(self.len as nat == self.list@.len() + bucket_total(self.buckets())) by {
                    if obs[0].1.len() > 1 {
                        assert(self.buckets().drop_first() =~= obs.drop_first());
                        assert(bucket_total(self.buckets()) == self.buckets()[0].1.len()
                            + bucket_total(obs.drop_first()));
                        assert(bucket_total(obs) == obs[0].1.len() + bucket_total(
                            obs.drop_first(),
                        ));
                    } else {
                        assert(bucket_total(obs) == obs[0].1.len() + bucket_total(
                            obs.drop_first(),
                        ));
                    }
                }
            }
        }
        Some((root_key, v))
    }

    /// Reports the pair `pop` would remove, without removing it: the
    /// earliest-accepted pending pair among those with the smallest key.
    pub fn peek(&self) -> (r: Option<(&u64, &V)>)
        requires
            self.well_formed(),
        ensures
            self.view().len() == 0 ==> r is None,
            self.view().len() > 0 ==> (r matches Some((k, v)) && *k == self.view()[0].0 && *v
                == self.view()[0].1),
    {
        proof {
            lemma_merge_len(flat(self.buckets()), self.tail());
            lemma_flat_len(self.buckets());
        }
        if self.len == 0 {
            return None;
        }
        if self.root.len() == 0 {
            proof {
                assert(self.buckets().len() == 0);
                assert(flat(self.buckets()) == Seq::<(u64, V)>::empty());
                assert(self.view() == self.tail());
            }
            let p = &self.list[0];
            return Some((&p.0, &p.1));
        }
        proof {
            assert(self.buckets().len() > 0);
            assert(self.buckets()[0].1.len() > 0);
            lemma_flat_head(self.buckets());
        }
        let b = &self.root[0];
        if self.list[0].0 <= b.0 {
            proof {
                assert(self.view() == seq![self.tail()[0]] + merge(
                    flat(self.buckets()),
                    self.tail().drop_first(),
                ));
            }
            let p = &self.list[0];
            return Some((&p.0, &p.1));
        }
        proof {
            assert(self.view() == seq![flat(self.buckets())[0]] + merge(
                flat(self.buckets()).drop_first(),
                self.tail(),
            ));
            assert(self.view()[0] == (self.root@[0].0, self.root@[0].1@[0]));
        }
        Some((&b.0, &b.1[0]))
    }
}

impl<V> Default for TFifo<V> {
    /// The default queue is the empty queue.
    fn default() -> (r: Self)
        ensures
            r.well_formed(),
            r.view() == Seq::<(u64, V)>::empty(),
    {
        Self::new()
    }
}

/// The first pair of the flattened bucket tier comes from the front of the
/// first bucket.
proof fn lemma_flat_head<V>(bs: Seq<(u64, Seq<V>)>)
    requires
        bs.len() > 0,
        bs[0].1.len() > 0,
    ensures
        flat(bs).len() > 0,
        flat(bs)[0] == (bs[0].0, bs[0].1[0]),
{
    let head = bs[0].1.map_values(|v: V| (bs[0].0, v));
    assert(flat(bs) == head + flat(bs.drop_first()));
    assert(head[0] == (bs[0].0, bs[0].1[0]));
    assert((head + flat(bs.drop_first()))[0] == head[0]);
}

/// Removing the front value of a first bucket that keeps further values
/// drops exactly the first pair of the flattened tier.
proof fn lemma_flat_drop_within<V>(bs: Seq<(u64, Seq<V>)>)
    requires
        bs.len() > 0,
        bs[0].1.len() > 1,
    ensures
        flat(bs.update(0, (bs[0].0, bs[0].1.drop_first()))) == flat(bs).drop_first(),
{
    let bs2 = bs.update(0, (bs[0].0, bs[0].1.drop_first()));
    let f = |v: V| (bs[0].0, v);
    let head = bs[0].1.map_values(f);
    let head2 = bs2[0].1.map_values(|v: V| (bs2[0].0, v));
    assert(bs2.drop_first() =~= bs.drop_first());
    assert(flat(bs) == head + flat(bs.drop_first()));
    assert(flat(bs2) == head2 + flat(bs.drop_first()));
    assert(head2 =~= head.drop_first());
    assert(head2 + flat(bs.drop_first()) =~= (head + flat(bs.drop_first())).drop_first());
}

/// Removing the front value of a first bucket holding only that value drops
/// the bucket, and with it exactly the first pair of the flattened tier.
proof fn lemma_flat_drop_bucket<V>(bs: Seq<(u64, Seq<V>)>)
    requires
        bs.len() > 0,
        bs[0].1.len() == 1,
    ensures
        flat(bs.drop_first()) == flat(bs).drop_first(),
{
    let head = bs[0].1.map_values(|v: V| (bs[0].0, v));
    assert(flat(bs) == head + flat(bs.drop_first()));
    assert(head.len() == 1);
    assert(flat(bs.drop_first()) =~= (head + flat(bs.drop_first())).drop_first());
}

/// Appending a pair whose key is above every slow-path key and at least
/// every fast-path key commutes with the merge: the pair comes out last.
proof fn lemma_merge_push<V>(a: Seq<(u64, V)>, b: Seq<(u64, V)>, x: (u64, V))
    requires
        forall|i: int| 0 <= i < a.len() ==> a[i].0 < x.0,
        forall|i: int| 0 <= i < b.len() ==> b[i].0 <= x.0,
    ensures
        merge(a, b.push(x)) == merge(a, b).push(x),
    decreases a.len() + b.len(),
{
    let bp = b.push(x);
    if a.len() == 0 {
        assert(merge(a, bp) == bp);
    } else if b.len() == 0 {
        assert(bp[0] == x);
        assert(!(bp[0].0 <= a[0].0));
        lemma_merge_push(a.drop_first(), b, x);
        assert(merge(a.drop_first(), b) == a.drop_first());
        assert(merge(a, bp) == seq![a[0]] + merge(a.drop_first(), bp));
        assert(seq![a[0]] + a.drop_first().push(x) =~= a.push(x));
        assert(merge(a, b) == a);
    } else {
        assert(bp[0] == b[0]);
        assert(bp.drop_first() =~= b.drop_first().push(x));
        if b[0].0 <= a[0].0 {
            lemma_merge_push(a, b.drop_first(), x);
            assert(merge(a, bp) == seq![b[0]] + merge(a, b.drop_first()).push(x));
            assert(seq![b[0]] + merge(a, b.drop_first()).push(x) =~= (seq![b[0]] + merge(
                a,
                b.drop_first(),
            )).push(x));
        } else {
            lemma_merge_push(a.drop_first(), b, x);
            assert(merge(a, bp) == seq![a[0]] + merge(a.drop_first(), b).push(x));
            assert(seq![a[0]] + merge(a.drop_first(), b).push(x) =~= (seq![a[0]] + merge(
                a.drop_first(),
                b,
            )).push(x));
        }
    }
}

/// When every key of the first tier is below the last key of the second, the
/// merge ends with the second tier's last pair.
proof fn lemma_merge_last<V>(a: Seq<(u64, V)>, b: Seq<(u64, V)>)
    requires
        b.len() > 0,
        forall|i: int| 0 <= i < a.len() ==> a[i].0 < b.last().0,
    ensures
        merge(a, b).len() > 0,
        merge(a, b).last() == b.last(),
    decreases a.len() + b.len(),
{
    lemma_merge_len(a, b);
    if a.len() == 0 {
    } else if b[0].0 <= a[0].0 {
        assert(b.len() > 1) by {
            if b.len() == 1 {
                assert(a[0].0 < b.last().0);
                assert(b.last() == b[0]);
            }
        }
        assert(b.drop_first().last() == b.last());
        lemma_merge_last(a, b.drop_first());
        assert(merge(a, b) == seq![b[0]] + merge(a, b.drop_first()));
        assert(merge(a, b).last() == merge(a, b.drop_first()).last());
    } else {
        lemma_merge_last(a.drop_first(), b);
        assert(merge(a, b) == seq![a[0]] + merge(a.drop_first(), b));
        assert(merge(a, b).last() == merge(a.drop_first(), b).last());
    }
}

/// `bucket_append` lands at the position the sorted key order dictates: an
/// existing bucket for the key takes the value at its back, a missing one is
/// created there.
proof fn lemma_bucket_append_at<V>(bs: Seq<(u64, Seq<V>)>, key: u64, value: V, i: int)
    requires
        0 <= i <= bs.len(),
        forall|j: int| 0 <= j < i ==> bs[j].0 < key,
        i < bs.len() ==> key <= bs[i].0,
    ensures
        i < bs.len() && bs[i].0 == key ==> bucket_append(bs, key, value) == bs.update(
            i,
            (key, bs[i].1.push(value)),
        ),
        !(i < bs.len() && bs[i].0 == key) ==> bucket_append(bs, key, value) == bs.insert(
            i,
            (key, seq![value]),
        ),
    decreases bs.len(),
{
    if bs.len() == 0 {
        assert(bucket_append(bs, key, value) =~= bs.insert(0, (key, seq![value])));
    } else if i == 0 {
        if key == bs[0].0 {
            assert(bucket_append(bs, key, value) =~= bs.update(0, (key, bs[0].1.push(value))));
        } else {
            assert(key < bs[0].0);
            assert(bucket_append(bs, key, value) =~= bs.insert(0, (key, seq![value])));
        }
    } else {
        assert(bs[0].0 < key);
        let rest = bs.drop_first();
        lemma_bucket_append_at(rest, key, value, i - 1);
        assert(bucket_append(bs, key, value) == seq![bs[0]] + bucket_append(rest, key, value));
        if i < bs.len() && bs[i].0 == key {
            assert(rest[i - 1] == bs[i]);
            assert(seq![bs[0]] + rest.update(i - 1, (key, bs[i].1.push(value))) =~= bs.update(
                i,
                (key, bs[i].1.push(value)),
            ));
        } else {
            assert(seq![bs[0]] + rest.insert(i - 1, (key, seq![value])) =~= bs.insert(
                i,
                (key, seq![value]),
            ));
        }
    }
}

/// Every key of the flattened bucket tier is a bucket key, so any bound on
/// the bucket keys bounds the flattened keys too.
proof fn lemma_flat_key_bound<V>(bs: Seq<(u64, Seq<V>)>, bound: u64)
    requires
        forall|j: int| 0 <= j < bs.len() ==> bs[j].0 < bound,
    ensures
        forall|i: int| 0 <= i < flat(bs).len() ==> flat(bs)[i].0 < bound,
    decreases bs.len(),
{
    if bs.len() == 0 {
    } else {
        let head = bs[0].1.map_values(|v: V| (bs[0].0, v));
        assert(forall|i: int| 0 <= i < head.len() ==> head[i].0 < bound);
        lemma_flat_key_bound(bs.drop_first(), bound);
        assert(forall|i: int| 0 <= i < flat(bs).len() ==> flat(bs)[i].0 < bound) by {
            assert(flat(bs) == head + flat(bs.drop_first()));
            assert(forall|i: int|
                0 <= i < flat(bs).len() ==> flat(bs)[i] == if i < head.len() {
                    head[i]
                } else {
                    flat(bs.drop_first())[i - head.len()]
                });
        }
    }
}


/// An out-of-order insertion introduces no key beyond the given bound when
/// the existing keys and the new key are below it.
proof fn lemma_bucket_append_keys<V>(bs: Seq<(u64, Seq<V>)>, key: u64, value: V, i: int, bound: u64)
    requires
        0 <= i <= bs.len(),
        forall|j: int| 0 <= j < i ==> bs[j].0 < key,
        i < bs.len() ==> key <= bs[i].0,
        forall|j: int| 0 <= j < bs.len() ==> bs[j].0 < bound,
        key < bound,
    ensures
        forall|j: int|
            0 <= j < bucket_append(bs, key, value).len() ==> bucket_append(bs, key, value)[j].0
                < bound,
{
    lemma_bucket_append_at(bs, key, value, i);
    let r = bucket_append(bs, key, value);
    if i < bs.len() && bs[i].0 == key {
        assert(forall|j: int| 0 <= j < r.len() ==> r[j].0 == bs[j].0);
    } else {
        assert(forall|j: int| 0 <= j < i ==> r[j] == bs[j]);
        assert(forall|j: int| i < j < r.len() ==> r[j] == bs[j - 1]);
        assert(r[i].0 == key);
    }
}

/// An out-of-order insertion grows the bucket tier by exactly one value.
proof fn lemma_bucket_append_total<V>(bs: Seq<(u64, Seq<V>)>, key: u64, value: V)
    ensures
        bucket_total(bucket_append(bs, key, value)) == bucket_total(bs) + 1,
    decreases bs.len(),
{
    if bs.len() == 0 {
        let r = bucket_append(bs, key, value);
        assert(r == seq![(key, seq![value])]);
        assert(r[0].1.len() == 1);
        assert(r.drop_first() =~= Seq::<(u64, Seq<V>)>::empty());
        assert(bucket_total(r.drop_first()) == 0);
        assert(bucket_total(r) == 1);
    } else if key < bs[0].0 {
        let r = seq![(key, seq![value])] + bs;
        assert(r.drop_first() =~= bs);
        assert(bucket_total(r) == 1 + bucket_total(bs));
    } else if key == bs[0].0 {
        let r = seq![(bs[0].0, bs[0].1.push(value))] + bs.drop_first();
        assert(r.drop_first() =~= bs.drop_first());
        assert(bucket_total(r) == bs[0].1.len() + 1 + bucket_total(bs.drop_first()));
    } else {
        lemma_bucket_append_total(bs.drop_first(), key, value);
        let r = seq![bs[0]] + bucket_append(bs.drop_first(), key, value);
        assert(r.drop_first() =~= bucket_append(bs.drop_first(), key, value));
        assert(bucket_total(r) == bs[0].1.len() + bucket_total(
            bucket_append(bs.drop_first(), key, value),
        ));
    }
}

/// Whether a pair carries the given key.
pub open spec fn has_key<V>(key: u64) -> spec_fn((u64, V)) -> bool {
    |p: (u64, V)| p.0 == key
}

/// The pending pairs that carry a given key, in emission order.
pub open spec fn entries_with_key<V>(s: Seq<(u64, V)>, key: u64) -> Seq<(u64, V)> {
    s.filter(has_key(key))
}

/// A lower bound on the bucket keys bounds the flattened keys too.
proof fn lemma_flat_key_lower<V>(bs: Seq<(u64, Seq<V>)>, lo: int)
    requires
        forall|j: int| 0 <= j < bs.len() ==> bs[j].0 >= lo,
    ensures
        forall|i: int| 0 <= i < flat(bs).len() ==> flat(bs)[i].0 >= lo,
    decreases bs.len(),
{
    if bs.len() == 0 {
    } else {
        let head = bs[0].1.map_values(|v: V| (bs[0].0, v));
        assert(forall|i: int| 0 <= i < head.len() ==> head[i].0 >= lo);
        lemma_flat_key_lower(bs.drop_first(), lo);
        assert(forall|i: int| 0 <= i < flat(bs).len() ==> flat(bs)[i].0 >= lo) by {
            assert(flat(bs) == head + flat(bs.drop_first()));
            assert(forall|i: int|
                0 <= i < flat(bs).len() ==> flat(bs)[i] == if i < head.len() {
                    head[i]
                } else {
                    flat(bs.drop_first())[i - head.len()]
                });
        }
    }
}

/// A well-shaped bucket tier flattens to a key-sorted sequence.
proof fn lemma_flat_sorted<V>(bs: Seq<(u64, Seq<V>)>)
    requires
        buckets_ok(bs),
    ensures
        sorted_by_key(flat(bs)),
    decreases bs.len(),
{
    if bs.len() == 0 {
    } else {
        let head = bs[0].1.map_values(|v: V| (bs[0].0, v));
        let rest = flat(bs.drop_first());
        assert(buckets_ok(bs.drop_first()));
        lemma_flat_sorted(bs.drop_first());
        assert(forall|j: int| 0 <= j < bs.drop_first().len() ==> bs.drop_first()[j].0 >= bs[0].0);
        lemma_flat_key_lower(bs.drop_first(), bs[0].0 as int);
        assert(sorted_by_key(flat(bs))) by {
            assert(flat(bs) == head + rest);
            assert(forall|i: int|
                0 <= i < flat(bs).len() ==> flat(bs)[i] == if i < head.len() {
                    head[i]
                } else {
                    rest[i - head.len()]
                });
            assert(forall|i: int| 0 <= i < head.len() ==> head[i].0 == bs[0].0);
        }
    }
}

/// The merge of two key-sorted sequences is key-sorted, and begins with the
/// front of one of them.
proof fn lemma_merge_sorted<V>(a: Seq<(u64, V)>, b: Seq<(u64, V)>)
    requires
        sorted_by_key(a),
        sorted_by_key(b),
    ensures
        sorted_by_key(merge(a, b)),
        merge(a, b).len() > 0 ==> (a.len() > 0 && merge(a, b)[0] == a[0]) || (b.len() > 0 && merge(
            a,
            b,
        )[0] == b[0]),
    decreases a.len() + b.len(),
{
    lemma_merge_len(a, b);
    if a.len() == 0 {
    } else if b.len() == 0 {
    } else if b[0].0 <= a[0].0 {
        let m = merge(a, b.drop_first());
        assert(sorted_by_key(b.drop_first()));
        lemma_merge_sorted(a, b.drop_first());
        lemma_merge_len(a, b.drop_first());
        assert(merge(a, b) == seq![b[0]] + m);
        assert(m.len() > 0 ==> b[0].0 <= m[0].0) by {
            if m.len() > 0 {
                if a.len() > 0 && m[0] == a[0] {
                } else {
                    assert(b.drop_first().len() > 0 && m[0] == b.drop_first()[0]);
                    assert(b.drop_first()[0] == b[1]);
                }
            }
        }
        assert(sorted_by_key(merge(a, b))) by {
            assert(forall|i: int| 0 <= i < m.len() ==> merge(a, b)[i + 1] == m[i]);
            assert(forall|i: int| 0 <= i < m.len() ==> m[0].0 <= #[trigger] m[i].0);
        }
    } else {
        let m = merge(a.drop_first(), b);
        assert(sorted_by_key(a.drop_first()));
        lemma_merge_sorted(a.drop_first(), b);
        lemma_merge_len(a.drop_first(), b);
        assert(merge(a, b) == seq![a[0]] + m);
        assert(m.len() > 0 ==> a[0].0 <= m[0].0) by {
            if m.len() > 0 {
                if b.len() > 0 && m[0] == b[0] {
                } else {
                    assert(a.drop_first().len() > 0 && m[0] == a.drop_first()[0]);
                    assert(a.drop_first()[0] == a[1]);
                }
            }
        }
        assert(sorted_by_key(merge(a, b))) by {
            assert(forall|i: int| 0 <= i < m.len() ==> merge(a, b)[i + 1] == m[i]);
            assert(forall|i: int| 0 <= i < m.len() ==> m[0].0 <= #[trigger] m[i].0);
        }
    }
}

/// Emission order is ascending: the pending pairs of a well-formed queue,
/// read in the order `pop` returns them, carry non-decreasing keys. Draining
/// the queue therefore yields a key-sorted sequence.
pub proof fn lemma_view_sorted<V>(q: TFifo<V>)
    requires
        q.well_formed(),
    ensures
        sorted_by_key(q.view()),
{
    lemma_flat_sorted(q.buckets());
    lemma_merge_sorted(flat(q.buckets()), q.tail());
}

/// A sequence of one pair keeps or loses it under `filter` according to the
/// predicate.
proof fn lemma_filter_singleton<V>(x: (u64, V), pred: spec_fn((u64, V)) -> bool)
    ensures
        pred(x) ==> seq![x].filter(pred) == seq![x],
        !pred(x) ==> seq![x].filter(pred) == Seq::<(u64, V)>::empty(),
{
    let e = Seq::<(u64, V)>::empty();
    e.lemma_all_neg_filter_empty(pred);
    assert(e.filter(pred) =~= e);
    Seq::lemma_filter_push(e, x, pred);
    assert(e.push(x) =~= seq![x]);
}

/// For any single key, the merge keeps all its pairs from the fast-path
/// tier ahead of all its pairs from the slow-path tier: ties go to the
/// fast-path side.
proof fn lemma_merge_filter<V>(a: Seq<(u64, V)>, b: Seq<(u64, V)>, key: u64)
    requires
        sorted_by_key(b),
    ensures
        entries_with_key(merge(a, b), key) == entries_with_key(b, key) + entries_with_key(a, key),
    decreases a.len() + b.len(),
{
    let pred = has_key::<V>(key);
    if a.len() == 0 {
        a.lemma_all_neg_filter_empty(pred);
        assert(a.filter(pred) =~= Seq::<(u64, V)>::empty());
        assert(b.filter(pred) + a.filter(pred) =~= b.filter(pred));
    } else if b.len() == 0 {
        b.lemma_all_neg_filter_empty(pred);
        assert(b.filter(pred) =~= Seq::<(u64, V)>::empty());
        assert(b.filter(pred) + a.filter(pred) =~= a.filter(pred));
    } else if b[0].0 <= a[0].0 {
        let m = merge(a, b.drop_first());
        assert(sorted_by_key(b.drop_first()));
        lemma_merge_filter(a, b.drop_first(), key);
        assert(merge(a, b) == seq![b[0]] + m);
        Seq::filter_distributes_over_add(seq![b[0]], m, pred);
        assert(b =~= seq![b[0]] + b.drop_first());
        Seq::filter_distributes_over_add(seq![b[0]], b.drop_first(), pred);
        lemma_filter_singleton(b[0], pred);
        assert(merge(a, b).filter(pred) =~= b.filter(pred) + a.filter(pred));
    } else {
        let m = merge(a.drop_first(), b);
        lemma_merge_filter(a.drop_first(), b, key);
        assert(merge(a, b) == seq![a[0]] + m);
        Seq::filter_distributes_over_add(seq![a[0]], m, pred);
        assert(a =~= seq![a[0]] + a.drop_first());
        Seq::filter_distributes_over_add(seq![a[0]], a.drop_first(), pred);
        lemma_filter_singleton(a[0], pred);
        if a[0].0 == key {
            assert(b.all(|p: (u64, V)| !pred(p))) by {
                assert(forall|i: int| 0 <= i < b.len() ==> #[trigger] b[i].0 >= b[0].0);
            }
            b.lemma_all_neg_filter_empty(pred);
            assert(b.filter(pred) =~= Seq::<(u64, V)>::empty());
            assert(merge(a, b).filter(pred) =~= b.filter(pred) + a.filter(pred));
        } else {
            assert(merge(a, b).filter(pred) =~= b.filter(pred) + a.filter(pred));
        }
    }
}

/// An out-of-order insertion keeps every bucket key above any bound the old
/// keys and the new key respect.
proof fn lemma_bucket_append_lower<V>(bs: Seq<(u64, Seq<V>)>, key: u64, value: V, lo: u64)
    requires
        forall|j: int| 0 <= j < bs.len() ==> bs[j].0 > lo,
        key > lo,
    ensures
        forall|j: int|
            0 <= j < bucket_append(bs, key, value).len() ==> bucket_append(bs, key, value)[j].0
                > lo,
    decreases bs.len(),
{
    if bs.len() == 0 {
    } else if key < bs[0].0 {
    } else if key == bs[0].0 {
    } else {
        lemma_bucket_append_lower(bs.drop_first(), key, value, lo);
        let r = seq![bs[0]] + bucket_append(bs.drop_first(), key, value);
        assert(forall|j: int|
            1 <= j < r.len() ==> r[j] == bucket_append(bs.drop_first(), key, value)[j - 1]);
    }
}

/// An out-of-order insertion keeps the bucket tier well shaped, wherever the
/// key lands.
proof fn lemma_bucket_append_keeps_ok<V>(bs: Seq<(u64, Seq<V>)>, key: u64, value: V)
    requires
        buckets_ok(bs),
    ensures
        buckets_ok(bucket_append(bs, key, value)),
    decreases bs.len(),
{
    let r = bucket_append(bs, key, value);
    if bs.len() == 0 {
    } else if key < bs[0].0 {
        assert(forall|j: int| 1 <= j < r.len() ==> r[j] == bs[j - 1]);
    } else if key == bs[0].0 {
        assert(forall|j: int| 1 <= j < r.len() ==> r[j] == bs.drop_first()[j - 1]);
    } else {
        assert(buckets_ok(bs.drop_first()));
        lemma_bucket_append_keeps_ok(bs.drop_first(), key, value);
        assert(forall|j: int| 0 <= j < bs.drop_first().len() ==> bs.drop_first()[j].0 > bs[0].0);
        lemma_bucket_append_lower(bs.drop_first(), key, value, bs[0].0);
        assert(forall|j: int|
            1 <= j < r.len() ==> r[j] == bucket_append(bs.drop_first(), key, value)[j - 1]);
    }
}

/// An out-of-order insertion appends its value behind its key's pairs in the
/// flattened bucket tier and leaves every other key's pairs unchanged.
proof fn lemma_flat_bucket_append_filter<V>(bs: Seq<(u64, Seq<V>)>, key: u64, value: V)
    requires
        buckets_ok(bs),
    ensures
        entries_with_key(flat(bucket_append(bs, key, value)), key) == entries_with_key(
            flat(bs),
            key,
        ).push((key, value)),
        forall|k2: u64|
            k2 != key ==> entries_with_key(flat(bucket_append(bs, key, value)), k2)
                == entries_with_key(flat(bs), k2),
    decreases bs.len(),
{
    let r = bucket_append(bs, key, value);
    if bs.len() == 0 {
        assert(r == seq![(key, seq![value])]);
        assert(r.drop_first() =~= Seq::<(u64, Seq<V>)>::empty());
        let head = r[0].1.map_values(|v: V| (r[0].0, v));
        assert(head =~= seq![(key, value)]);
        assert(flat(r) == head + flat(r.drop_first()));
        assert(flat(r.drop_first()) == Seq::<(u64, V)>::empty());
        assert(flat(r) =~= seq![(key, value)]);
        assert(flat(bs) == Seq::<(u64, V)>::empty());
        assert forall|k2: u64| k2 != key implies entries_with_key(flat(r), k2) == entries_with_key(
            flat(bs),
            k2,
        ) by {
            lemma_filter_singleton((key, value), has_key::<V>(k2));
            flat(bs).lemma_all_neg_filter_empty(has_key::<V>(k2));
            assert(entries_with_key(flat(bs), k2) =~= Seq::<(u64, V)>::empty());
        }
        lemma_filter_singleton((key, value), has_key::<V>(key));
        flat(bs).lemma_all_neg_filter_empty(has_key::<V>(key));
        assert(entries_with_key(flat(bs), key) =~= Seq::<(u64, V)>::empty());
        assert(entries_with_key(flat(bs), key).push((key, value)) =~= seq![(key, value)]);
    } else if key < bs[0].0 {
        assert(r == seq![(key, seq![value])] + bs);
        let newb = seq![(key, seq![value])];
        assert(r[0] == (key, seq![value]));
        assert(r.drop_first() =~= bs);
        let head = r[0].1.map_values(|v: V| (r[0].0, v));
        assert(head =~= seq![(key, value)]);
        assert(flat(r) == head + flat(bs));
        assert(forall|j: int| 0 <= j < bs.len() ==> #[trigger] bs[j].0 >= bs[0].0);
        lemma_flat_key_lower(bs, bs[0].0 as int);
        assert forall|k2: u64| k2 != key implies entries_with_key(flat(r), k2) == entries_with_key(
            flat(bs),
            k2,
        ) by {
            let pred = has_key::<V>(k2);
            Seq::filter_distributes_over_add(head, flat(bs), pred);
            lemma_filter_singleton((key, value), pred);
            assert(head =~= seq![(key, value)]);
            assert(entries_with_key(flat(r), k2) =~= entries_with_key(flat(bs), k2));
        }
        let pred = has_key::<V>(key);
        Seq::filter_distributes_over_add(head, flat(bs), pred);
        lemma_filter_singleton((key, value), pred);
        flat(bs).lemma_all_neg_filter_empty(pred);
        assert(entries_with_key(flat(bs), key) =~= Seq::<(u64, V)>::empty());
        assert(entries_with_key(flat(r), key) =~= entries_with_key(flat(bs), key).push(
            (key, value),
        ));
    } else if key == bs[0].0 {
        assert(r == seq![(bs[0].0, bs[0].1.push(value))] + bs.drop_first());
        assert(r[0] == (key, bs[0].1.push(value)));
        assert(r.drop_first() =~= bs.drop_first());
        let head = bs[0].1.map_values(|v: V| (bs[0].0, v));
        let head2 = r[0].1.map_values(|v: V| (r[0].0, v));
        assert(head2 =~= head.push((key, value)));
        assert(flat(r) == head2 + flat(bs.drop_first()));
        assert(flat(bs) == head + flat(bs.drop_first()));
        assert(forall|j: int| 0 <= j < bs.drop_first().len() ==> bs.drop_first()[j].0 > key);
        lemma_flat_key_lower(bs.drop_first(), key + 1);
        assert forall|k2: u64| k2 != key implies entries_with_key(flat(r), k2) == entries_with_key(
            flat(bs),
            k2,
        ) by {
            let pred = has_key::<V>(k2);
            Seq::filter_distributes_over_add(head2, flat(bs.drop_first()), pred);
            Seq::filter_distributes_over_add(head, flat(bs.drop_first()), pred);
            head.lemma_filter_push((key, value), pred);
            assert(entries_with_key(flat(r), k2) =~= entries_with_key(flat(bs), k2));
        }
        let pred = has_key::<V>(key);
        Seq::filter_distributes_over_add(head2, flat(bs.drop_first()), pred);
        Seq::filter_distributes_over_add(head, flat(bs.drop_first()), pred);
        head.lemma_filter_push((key, value), pred);
        flat(bs.drop_first()).lemma_all_neg_filter_empty(pred);
        assert(flat(bs.drop_first()).filter(pred) =~= Seq::<(u64, V)>::empty());
        assert(entries_with_key(flat(r), key) =~= entries_with_key(flat(bs), key).push(
            (key, value),
        ));
    } else {
        assert(r == seq![bs[0]] + bucket_append(bs.drop_first(), key, value));
        assert(r[0] == bs[0]);
        assert(r.drop_first() =~= bucket_append(bs.drop_first(), key, value));
        assert(buckets_ok(bs.drop_first()));
        lemma_flat_bucket_append_filter(bs.drop_first(), key, value);
        let head = bs[0].1.map_values(|v: V| (bs[0].0, v));
        let head2 = r[0].1.map_values(|v: V| (r[0].0, v));
        assert(head2 =~= head);
        assert(flat(r) == head + flat(bucket_append(bs.drop_first(), key, value)));
        assert(flat(bs) == head + flat(bs.drop_first()));
        assert forall|k2: u64| k2 != key implies entries_with_key(flat(r), k2) == entries_with_key(
            flat(bs),
            k2,
        ) by {
            let pred = has_key::<V>(k2);
            Seq::filter_distributes_over_add(
                head,
                flat(bucket_append(bs.drop_first(), key, value)),
                pred,
            );
            Seq::filter_distributes_over_add(head, flat(bs.drop_first()), pred);
            assert(entries_with_key(flat(bucket_append(bs.drop_first(), key, value)), k2)
                == entries_with_key(flat(bs.drop_first()), k2));
            assert(entries_with_key(flat(r), k2) =~= entries_with_key(flat(bs), k2));
        }
        let pred = has_key::<V>(key);
        Seq::filter_distributes_over_add(
            head,
            flat(bucket_append(bs.drop_first(), key, value)),
            pred,
        );
        Seq::filter_distributes_over_add(head, flat(bs.drop_first()), pred);
        assert(forall|i: int| 0 <= i < head.len() ==> head[i].0 == bs[0].0);
        head.lemma_all_neg_filter_empty(pred);
        assert(head.filter(pred) =~= Seq::<(u64, V)>::empty());
        assert(entries_with_key(flat(r), key) =~= entries_with_key(flat(bs), key).push(
            (key, value),
        ));
    }
}

/// FIFO among equal keys on insertion: an accepted pair joins the emission
/// order behind every pending pair of its key, and pairs of other keys keep
/// their emission order unchanged. The queue states are related as `insert`
/// ensures.
pub proof fn lemma_insert_keeps_key_order<V>(q: TFifo<V>, p: TFifo<V>, key: u64, value: V)
    requires
        q.well_formed(),
        q.tail().len() == 0 || key >= q.tail().last().0 ==> p.tail() == q.tail().push(
            (key, value),
        ) && p.buckets() == q.buckets(),
        !(q.tail().len() == 0 || key >= q.tail().last().0) ==> p.tail() == q.tail() && p.buckets()
            == bucket_append(q.buckets(), key, value),
    ensures
        entries_with_key(p.view(), key) == entries_with_key(q.view(), key).push((key, value)),
        forall|k2: u64|
            k2 != key ==> entries_with_key(p.view(), k2) == entries_with_key(q.view(), k2),
{
    let x = (key, value);
    let fl = flat(q.buckets());
    if q.tail().len() == 0 || key >= q.tail().last().0 {
        // The pair lands at the very end of the emission order: every bucket
        // key is strictly below the tail's last key, hence below the new key.
        if q.tail().len() == 0 {
            assert(q.buckets().len() == 0);
            assert(fl == Seq::<(u64, V)>::empty());
        } else {
            lemma_flat_key_bound(q.buckets(), q.tail().last().0);
        }
        assert(forall|i: int| 0 <= i < q.tail().len() ==> #[trigger] q.tail()[i].0 <= x.0);
        lemma_merge_push(fl, q.tail(), x);
        assert(p.view() == q.view().push(x));
        q.view().lemma_filter_push(x, has_key::<V>(key));
        assert forall|k2: u64| k2 != key implies entries_with_key(p.view(), k2)
            == entries_with_key(q.view(), k2) by {
            q.view().lemma_filter_push(x, has_key::<V>(k2));
        }
    } else {
        let fl2 = flat(bucket_append(q.buckets(), key, value));
        lemma_flat_bucket_append_filter(q.buckets(), key, value);
        lemma_merge_filter(fl, q.tail(), key);
        lemma_merge_filter(fl2, q.tail(), key);
        assert(entries_with_key(q.tail(), key) + entries_with_key(fl, key).push(x)
            =~= (entries_with_key(q.tail(), key) + entries_with_key(fl, key)).push(x));
        assert forall|k2: u64| k2 != key implies entries_with_key(p.view(), k2)
            == entries_with_key(q.view(), k2) by {
            lemma_merge_filter(fl, q.tail(), k2);
            lemma_merge_filter(fl2, q.tail(), k2);
            assert(entries_with_key(fl2, k2) == entries_with_key(fl, k2));
        }
    }
}

/// FIFO among equal keys on removal: taking the first pair of the emission
/// order removes the front of its own key's pairs and leaves every other
/// key's pairs unchanged. This is how `pop` reshapes the view.
pub proof fn lemma_pop_keeps_key_order<V>(s: Seq<(u64, V)>)
    requires
        s.len() > 0,
    ensures
        entries_with_key(s, s[0].0).len() > 0,
        entries_with_key(s, s[0].0)[0] == s[0],
        entries_with_key(s.drop_first(), s[0].0) == entries_with_key(s, s[0].0).drop_first(),
        forall|k2: u64|
            k2 != s[0].0 ==> entries_with_key(s.drop_first(), k2) == entries_with_key(s, k2),
{
    assert(s =~= seq![s[0]] + s.drop_first());
    let pred = has_key::<V>(s[0].0);
    Seq::filter_distributes_over_add(seq![s[0]], s.drop_first(), pred);
    lemma_filter_singleton(s[0], pred);
    assert(entries_with_key(s, s[0].0) == seq![s[0]] + entries_with_key(s.drop_first(), s[0].0));
    assert(entries_with_key(s.drop_first(), s[0].0) =~= entries_with_key(
        s,
        s[0].0,
    ).drop_first());
    assert forall|k2: u64| k2 != s[0].0 implies entries_with_key(s.drop_first(), k2)
        == entries_with_key(s, k2) by {
        let pred2 = has_key::<V>(k2);
        Seq::filter_distributes_over_add(seq![s[0]], s.drop_first(), pred2);
        lemma_filter_singleton(s[0], pred2);
        assert(entries_with_key(s, k2) =~= entries_with_key(s.drop_first(), k2));
    }
}

/// The merge of two sequences holds exactly the pairs of both.
proof fn lemma_merge_len<V>(a: Seq<(u64, V)>, b: Seq<(u64, V)>)
    ensures
        merge(a, b).len() == a.len() + b.len(),
    decreases a.len() + b.len(),
{
    if a.len() == 0 {
    } else if b.len() == 0 {
    } else if b[0].0 <= a[0].0 {
        lemma_merge_len(a, b.drop_first());
    } else {
        lemma_merge_len(a.drop_first(), b);
    }
}

/// Flattening the bucket tier yields one pair per stored value.
proof fn lemma_flat_len<V>(bs: Seq<(u64, Seq<V>)>)
    ensures
        flat(bs).len() == bucket_total(bs),
    decreases bs.len(),
{
    if bs.len() == 0 {
    } else {
        lemma_flat_len(bs.drop_first());
    }
}

} // verus!
