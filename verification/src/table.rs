//! The routing table: the trie, the owning node's identifier, and the
//! operations the message-handling layer calls.
//!
//! `see` records every peer a message was received from, `remove` forgets
//! a peer known permanently gone, and `closest` builds lookup candidate
//! sets ordered by XOR distance to a target.

use vstd::prelude::*;
use vstd::multiset::Multiset;
use crate::id::{NodeId, MAX_ID_BYTES};
use crate::info::{
    NodeInfo, RecView, has_id, no_dup_ids, views_of, lemma_views_of_insert, lemma_views_of_remove,
    lemma_views_of_subrange,
};
use crate::bucket::{Bucket, LivenessProber, Outcome, see_transition};
use crate::tree::{BucketTree, lemma_tree_records};
use crate::order::{dist_le, dist_le_exec, dist_sorted, lemma_dist_total, lemma_dist_trans};

verus! {

/// Conventional bucket capacity.
pub const BUCKET_SIZE: u32 = 20;

/// Why the table rejected a call without touching its state.
#[derive(Clone, Copy, PartialEq, Eq, Structural, Debug)]
pub enum TableError {
    /// The identifier's width differs from the owner's.
    LengthMismatch,
    /// The identifier is the owner's own; the table never stores it.
    SelfReferential,
}

/// The routing table for the node that owns `id`: a contact list
/// organized as a bucket trie over identifier bits.
pub struct NodeInfoStore {
    id: NodeId,
    buckets: BucketTree,
}

impl NodeInfoStore {
    /// The owning node's identifier.
    pub closed spec fn owner(self) -> Seq<u8> {
        self.id@
    }

    /// The bucket capacity the table was built with.
    pub closed spec fn k(self) -> u32 {
        self.buckets.k()
    }

    /// Every record the table holds, leaves read left to right.
    pub closed spec fn records(self) -> Seq<RecView> {
        self.buckets.records()
    }

    /// The records of the leaf bucket that `id` routes to.
    pub closed spec fn buckets_routed(self, id: Seq<u8>) -> Seq<RecView> {
        self.buckets.routed(id)
    }

    /// The table's invariant: a positive capacity, a machine-representable
    /// identifier width, and a well-formed trie, which gives that no
    /// identifier is stored twice, every leaf respects the capacity, and
    /// the owner's identifier is stored nowhere.
    pub closed spec fn wf(self) -> bool {
        1 <= self.id@.len() <= MAX_ID_BYTES && self.buckets.wf(self.id@)
    }

    /// A table for the owner `id` with bucket capacity `bucket_size`.
    pub fn new(id: NodeId, bucket_size: u32) -> (r: NodeInfoStore)
        requires
            1 <= bucket_size,
            1 <= id@.len() <= MAX_ID_BYTES,
        ensures
            r.wf(),
            r.owner() == id@,
            r.k() == bucket_size,
            r.records() =~= Seq::<RecView>::empty(),
    {
        NodeInfoStore { id, buckets: BucketTree::new(bucket_size) }
    }

    /// A table for the owner `id`, spelling out both the bucket capacity
    /// and the identifier width in bits, which must agree with `id`.
    pub fn with(id: NodeId, bucket_size: u32, hash_size: u32) -> (r: NodeInfoStore)
        requires
            1 <= bucket_size,
            1 <= id@.len() <= MAX_ID_BYTES,
            hash_size == id@.len() * 8,
        ensures
            r.wf(),
            r.owner() == id@,
            r.k() == bucket_size,
            r.records() =~= Seq::<RecView>::empty(),
    {
        NodeInfoStore::new(id, bucket_size)
    }

    /// A table for the owner `id` with the conventional capacity.
    pub fn new_default(id: NodeId) -> (r: NodeInfoStore)
        requires
            1 <= id@.len() <= MAX_ID_BYTES,
        ensures
            r.wf(),
            r.owner() == id@,
            r.k() == BUCKET_SIZE,
            r.records() =~= Seq::<RecView>::empty(),
    {
        NodeInfoStore::new(id, BUCKET_SIZE)
    }

    /// The bucket capacity the table was built with.
    pub fn bucket_size(&self) -> (r: u32)
        ensures
            r == self.k(),
    {
        self.buckets.bucket_size()
    }

    /// Record that a message was received from `info`'s sender: route the
    /// record to its bucket and apply the freshness rule there, splitting
    /// buckets along the owner's own path as long as a split is required.
    /// A record carrying the owner's identifier, or one of the wrong
    /// width, is rejected without touching the table.
    pub fn see<P: LivenessProber>(
        &mut self,
        info: NodeInfo,
        prober: &mut P,
        timeout_ms: u64,
    ) -> (r: Result<Outcome, TableError>)
        requires
            old(self).wf(),
        ensures
            final(self).wf(),
            final(self).owner() == old(self).owner(),
            final(self).k() == old(self).k(),
            r is Err <==> (info.id@.len() != old(self).owner().len() || info.id@ == old(
                self,
            ).owner()),
            r matches Err(e) ==> *final(self) == *old(self) && (e == TableError::LengthMismatch
                <==> info.id@.len() != old(self).owner().len()),
            r matches Ok(o) ==> see_transition(
                old(self).records().to_multiset(),
                final(self).records().to_multiset(),
                info@,
                o,
            ) && (o == Outcome::Updated <==> has_id(old(self).records(), info.id@)) && (!has_id(
                old(self).records(),
                info.id@,
            ) && old(self).buckets_routed(info.id@).len() < old(self).k() ==> o
                == Outcome::Inserted) && ((o == Outcome::EvictedInserted || o
                == Outcome::Discarded) ==> old(self).buckets_routed(info.id@).len() == old(
                self,
            ).k()) && (o != Outcome::Discarded ==> final(self).buckets_routed(info.id@).len() > 0
                && final(self).buckets_routed(info.id@).last() == info@),
    {
        if info.id.num_bytes() != self.id.num_bytes() {
            return Err(TableError::LengthMismatch);
        }
        if info.id == self.id {
            return Err(TableError::SelfReferential);
        }
        let o = self.buckets.see_in(&self.id, &info, prober, timeout_ms);
        Ok(o)
    }

    /// Forget the peer carrying `id`, wherever its record stands; reports
    /// whether a record was removed.
    pub fn remove(&mut self, id: &NodeId) -> (r: bool)
        requires
            old(self).wf(),
        ensures
            final(self).wf(),
            final(self).owner() == old(self).owner(),
            final(self).k() == old(self).k(),
            r == has_id(old(self).records(), id@),
            r ==> exists|prev: RecView|
                #![auto]
                old(self).records().to_multiset().contains(prev) && prev.id == id@
                    && final(self).records().to_multiset() =~= old(
                    self,
                ).records().to_multiset().remove(prev),
            !r ==> final(self).records().to_multiset() =~= old(self).records().to_multiset(),
    {
        if id.num_bytes() != self.id.num_bytes() {
            proof {
                lemma_tree_records(self.buckets, self.id@);
                if has_id(self.records(), id@) {
                    let i = choose|i: int|
                        0 <= i < self.records().len() && self.records()[i].id == id@;
                    assert(false);
                }
            }
            return false;
        }
        self.buckets.remove_in(id, Ghost(self.id@))
    }

    /// Up to `n` records ordered by ascending XOR distance to `target`:
    /// a prefix of some distance-sorted arrangement of everything the
    /// table holds. The owner's identifier never appears.
    pub fn closest(&self, target: &NodeId, n: usize) -> (r: Vec<NodeInfo>)
        requires
            self.wf(),
            target@.len() == self.owner().len(),
        ensures
            r@.len() == if n <= self.records().len() {
                n as int
            } else {
                self.records().len() as int
            },
            dist_sorted(views_of(r@), target@),
            exists|full: Seq<RecView>|
                #![auto]
                full.to_multiset() == self.records().to_multiset() && dist_sorted(full, target@)
                    && views_of(r@) == full.subrange(0, r@.len() as int),
            forall|j: int| 0 <= j < r@.len() ==> (#[trigger] r@[j])@.id != self.owner(),
    {
        broadcast use vstd::seq_lib::group_to_multiset_ensures;

        let mut v = self.buckets.collect();
        proof {
            lemma_tree_records(self.buckets, self.id@);
            assert forall|j: int| 0 <= j < v@.len() implies (#[trigger] v@[j])@.id.len()
                == target@.len() by {
                assert(views_of(v@)[j] == v@[j]@);
            }
        }
        sort_by_dist(&mut v, target);
        let ghost pre = v@;
        let ghost full = views_of(v@);
        let ghost m: int = if n <= v@.len() { n as int } else { v@.len() as int };
        v.truncate(n);
        proof {
            assert(v@ =~= pre.subrange(0, m));
            lemma_views_of_subrange(pre, 0, m);
            assert(views_of(v@) =~= full.subrange(0, m));
            // the collected stock is exactly the table's stock
            assert(full.to_multiset() =~= self.records().to_multiset());
            assert(full.len() == self.records().len()) by {
                assert(full.to_multiset().len() == self.records().to_multiset().len());
            }
            assert(v@.len() == m);
            // a prefix of a sorted arrangement is sorted
            assert forall|a: int, b: int| 0 <= a < b < m implies dist_le(
                (#[trigger] views_of(v@)[a]).id,
                (#[trigger] views_of(v@)[b]).id,
                target@,
            ) by {
                assert(views_of(v@)[a] == full[a]);
                assert(views_of(v@)[b] == full[b]);
            }
            // nothing handed out carries the owner's identifier
            assert forall|j: int| 0 <= j < v@.len() implies (#[trigger] v@[j])@.id
                != self.owner() by {
                assert(v@[j]@ == views_of(v@)[j]);
                assert(views_of(v@)[j] == full[j]);
                assert(full.contains(full[j]));
                assert(full.to_multiset().count(full[j]) > 0);
                assert(self.records().to_multiset().count(full[j]) > 0);
                assert(self.records().contains(full[j]));
                let q = choose|q: int|
                    0 <= q < self.records().len() && self.records()[q] == full[j];
                assert(self.records()[q].id != self.owner());
            }
            assert(views_of(v@) == full.subrange(0, v@.len() as int));
        }
        v
    }
}

/// The table's global invariant, spelled out: no identifier is carried by
/// two records anywhere in the trie, every stored identifier has the
/// owner's width, and the owner's own identifier is stored nowhere.
pub proof fn lemma_store_invariant(s: NodeInfoStore)
    requires
        s.wf(),
    ensures
        no_dup_ids(s.records()),
        forall|i: int|
            0 <= i < s.records().len() ==> (#[trigger] s.records()[i]).id.len()
                == s.owner().len() && s.records()[i].id != s.owner(),
{
    lemma_tree_records(s.buckets, s.id@);
}

/// A record just seen and not discarded stands in the table exactly once:
/// some record carries its identifier, and no other does.
pub proof fn lemma_seen_exactly_once(
    s: NodeInfoStore,
    before: Multiset<RecView>,
    rec: RecView,
    o: Outcome,
)
    requires
        s.wf(),
        see_transition(before, s.records().to_multiset(), rec, o),
        o != Outcome::Discarded,
    ensures
        exists|i: int|
            #![auto]
            0 <= i < s.records().len() && s.records()[i].id == rec.id && (forall|j: int|
                0 <= j < s.records().len() && j != i ==> s.records()[j].id != rec.id),
{
    broadcast use vstd::multiset::group_multiset_axioms;

    lemma_store_invariant(s);
    let after = s.records().to_multiset();
    if o == Outcome::Updated {
        let prev = choose|prev: RecView|
            #![auto]
            before.contains(prev) && prev.id == rec.id && after =~= before.remove(prev).insert(
                rec,
            );
        assert(after.count(rec) > 0);
    } else if o == Outcome::EvictedInserted {
        let prev = choose|prev: RecView|
            #![auto]
            before.contains(prev) && prev.id != rec.id && after =~= before.remove(prev).insert(
                rec,
            );
        assert(after.count(rec) > 0);
    } else {
        assert(o == Outcome::Inserted);
        assert(after =~= before.insert(rec));
        assert(after.count(rec) > 0);
    }
    vstd::seq_lib::to_multiset_contains::<RecView>(s.records(), rec);
    assert(s.records().contains(rec));
    let i = choose|i: int| 0 <= i < s.records().len() && s.records()[i] == rec;
    assert forall|j: int| 0 <= j < s.records().len() && j != i implies s.records()[j].id
        != rec.id by {
        if j < i {
            assert(s.records()[j].id != s.records()[i].id);
        } else {
            assert(s.records()[i].id != s.records()[j].id);
        }
    }
}

/// Every leaf bucket's length stays at or under the capacity, whatever
/// sequence of calls built the table: the leaf any identifier routes to
/// is bounded.
pub proof fn lemma_leaf_bounded(s: NodeInfoStore, id: Seq<u8>)
    requires
        s.wf(),
    ensures
        s.buckets_routed(id).len() <= s.k(),
{
    crate::tree::lemma_every_leaf_bounded(s.buckets, s.id@, id);
}

/// The leaf any identifier routes to holds no more records than the
/// whole table.
pub proof fn lemma_routed_within_records(s: NodeInfoStore, id: Seq<u8>)
    ensures
        s.buckets_routed(id).len() <= s.records().len(),
{
    crate::tree::lemma_routed_le_records(s.buckets, id);
}

/// Sort peer records in place by ascending XOR distance to `target`,
/// keeping exactly the records that were there.
fn sort_by_dist(v: &mut Vec<NodeInfo>, target: &NodeId)
    requires
        forall|j: int|
            0 <= j < old(v)@.len() ==> (#[trigger] old(v)@[j])@.id.len() == target@.len(),
    ensures
        final(v)@.len() == old(v)@.len(),
        views_of(final(v)@).to_multiset() =~= views_of(old(v)@).to_multiset(),
        dist_sorted(views_of(final(v)@), target@),
        forall|j: int|
            0 <= j < final(v)@.len() ==> (#[trigger] final(v)@[j])@.id.len() == target@.len(),
{
    broadcast use vstd::seq_lib::group_to_multiset_ensures;
    broadcast use vstd::multiset::group_multiset_axioms;

    if v.len() <= 1 {
        return ;
    }
    let mut i: usize = 1;
    while i < v.len()
        invariant
            1 <= i <= v@.len(),
            v@.len() == old(v)@.len(),
            views_of(v@).to_multiset() =~= views_of(old(v)@).to_multiset(),
            forall|j: int| 0 <= j < v@.len() ==> (#[trigger] v@[j])@.id.len() == target@.len(),
            dist_sorted(views_of(v@).subrange(0, i as int), target@),
        decreases v@.len() - i,
    {
        let ghost ev = v@;
        let ghost ov = views_of(v@);
        let mut p: usize = 0;
        while p < i && dist_le_exec(&v[p].id, &v[i].id, target)
            invariant
                p <= i,
                i < v@.len(),
                v@ == ev,
                views_of(v@) == ov,
                forall|j: int| 0 <= j < v@.len() ==> (#[trigger] v@[j])@.id.len() == target@.len(),
                forall|q: int| 0 <= q < p ==> dist_le(ov[q].id, ov[i as int].id, target@),
            decreases i - p,
        {
            proof {
                assert(v@[p as int]@ == ov[p as int]);
                assert(v@[i as int]@ == ov[i as int]);
            }
            p = p + 1;
        }
        let ghost xv = ov[i as int];
        proof {
            if p < i {
                assert(v@[p as int]@ == ov[p as int]);
                assert(v@[i as int]@ == ov[i as int]);
                assert(!dist_le(ov[p as int].id, xv.id, target@));
                lemma_dist_total(ov[p as int].id, xv.id, target@);
                assert(dist_le(xv.id, ov[p as int].id, target@));
                // the displaced run is all at least as far as the newcomer
                assert forall|q: int| p <= q < i implies dist_le(
                    xv.id,
                    (#[trigger] ov[q]).id,
                    target@,
                ) by {
                    if q > p {
                        assert(ov.subrange(0, i as int)[p as int] == ov[p as int]);
                        assert(ov.subrange(0, i as int)[q] == ov[q]);
                        assert(dist_le(ov[p as int].id, ov[q].id, target@));
                        lemma_dist_trans(xv.id, ov[p as int].id, ov[q].id, target@);
                    }
                }
            }
        }
        let x = v.remove(i);
        v.insert(p, x);
        proof {
            broadcast use vstd::multiset::group_multiset_axioms;

            let nv = views_of(v@);
            assert(x@ == xv);
            assert(v@ == ev.remove(i as int).insert(p as int, x));
            lemma_views_of_remove(ev, i as int);
            lemma_views_of_insert(ev.remove(i as int), p as int, x);
            assert(nv =~= ov.remove(i as int).insert(p as int, xv));
            // the stock is untouched: one record out, the same record back
            assert(ov.contains(xv)) by {
                assert(ov[i as int] == xv);
            }
            vstd::seq_lib::to_multiset_remove::<RecView>(ov, i as int);
            assert(ov.remove(i as int).to_multiset() == ov.to_multiset().remove(xv));
            vstd::seq_lib::to_multiset_insert::<RecView>(ov.remove(i as int), p as int, xv);
            assert(ov.remove(i as int).insert(p as int, xv).to_multiset() == ov.remove(
                i as int,
            ).to_multiset().insert(xv));
            vstd::seq_lib::to_multiset_contains::<RecView>(ov, xv);
            assert(ov.to_multiset().count(xv) > 0);
            assert(ov.to_multiset().remove(xv).insert(xv) =~= ov.to_multiset());
            assert(nv.to_multiset() =~= ov.to_multiset());
            // where each record now stands
            assert forall|j: int| 0 <= j < nv.len() implies #[trigger] nv[j] == (if j < p {
                ov[j]
            } else if j == p {
                xv
            } else if j <= i {
                ov[j - 1]
            } else {
                ov[j]
            }) by {
                let rm = ov.remove(i as int);
                if j < p {
                    assert(nv[j] == rm[j]);
                } else if j > p {
                    assert(nv[j] == rm[j - 1]);
                }
            }
            // every identifier keeps its width
            assert forall|j: int| 0 <= j < v@.len() implies (#[trigger] v@[j])@.id.len()
                == target@.len() by {
                assert(v@[j]@ == nv[j]);
                if j < p {
                    assert(ov[j] == ev[j]@);
                } else if j == p {
                    assert(xv == ev[i as int]@);
                } else if j <= i {
                    assert(ov[j - 1] == ev[j - 1]@);
                } else {
                    assert(ov[j] == ev[j]@);
                }
            }
            // the sorted prefix has grown by one
            assert forall|a: int, b: int| 0 <= a < b < i + 1 implies dist_le(
                (#[trigger] nv[a]).id,
                (#[trigger] nv[b]).id,
                target@,
            ) by {
                let pre = ov.subrange(0, i as int);
                assert(forall|q: int| 0 <= q < i ==> #[trigger] pre[q] == ov[q]);
                if b < p {
                    assert(nv[a] == ov[a] && nv[b] == ov[b]);
                } else if b == p {
                    assert(nv[a] == ov[a] && nv[b] == xv);
                } else {
                    assert(nv[b] == ov[b - 1]);
                    if a < p {
                        assert(nv[a] == ov[a]);
                        assert(a < b - 1);
                    } else if a == p {
                        assert(nv[a] == xv);
                    } else {
                        assert(nv[a] == ov[a - 1]);
                    }
                }
            }
            assert(dist_sorted(nv.subrange(0, i + 1), target@)) by {
                assert(forall|q: int| 0 <= q < i + 1 ==> #[trigger] nv.subrange(0, i + 1)[q]
                    == nv[q]);
            }
        }
        i = i + 1;
    }
    proof {
        assert(views_of(v@).subrange(0, v@.len() as int) =~= views_of(v@));
    }
}

} // verus!
