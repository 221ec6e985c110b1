//! Capacity-bounded, freshness-ordered buckets of peer records.
//!
//! A bucket holds the records for one region of identifier space, ordered
//! from least-recently-seen (head) to most-recently-seen (tail). It never
//! grows past its capacity, and a live peer is never evicted: before the
//! head may be discarded to make room, a liveness probe must report it
//! unreachable.

use vstd::prelude::*;
use vstd::multiset::Multiset;
use crate::id::{NodeId, id_bit};
use crate::info::{NodeAddr, NodeInfo, RecView, has_id, no_dup_ids, views_of};

verus! {

/// What a liveness probe reported of a peer.
#[derive(Clone, Copy, PartialEq, Eq, Structural, Debug)]
pub enum Reachability {
    Reachable,
    Unreachable,
}

/// How an attempted insert-or-update left the bucket.
#[derive(Clone, Copy, PartialEq, Eq, Structural, Debug)]
pub enum Outcome {
    /// The identifier was already present: its address was updated and its
    /// record moved to the tail.
    Updated,
    /// The bucket had room: the record was appended at the tail.
    Inserted,
    /// The bucket was full and its head was reported unreachable: the head
    /// was removed and the record appended at the tail.
    EvictedInserted,
    /// The bucket was full, its head was confirmed live and moved to the
    /// tail, and the bucket may not split: the record was dropped.
    Discarded,
    /// The bucket was full, its head was confirmed live and moved to the
    /// tail, and the bucket is eligible to split: the caller must split it
    /// and retry the same insert.
    SplitRequired,
}

/// How the table's whole stock of records may change when one record is
/// seen, by outcome: an update replaces the record carrying the same
/// identifier, an insert adds the record, an eviction trades some other
/// record for it, and a discard leaves the stock as it was. A split alone
/// never changes the stock, so `SplitRequired` never escapes to the table.
pub open spec fn see_transition(
    before: Multiset<RecView>,
    after: Multiset<RecView>,
    rec: RecView,
    o: Outcome,
) -> bool {
    match o {
        Outcome::Updated => exists|prev: RecView|
            #![auto]
            before.contains(prev) && prev.id == rec.id && after =~= before.remove(prev).insert(
                rec,
            ),
        Outcome::Inserted => after =~= before.insert(rec),
        Outcome::EvictedInserted => exists|prev: RecView|
            #![auto]
            before.contains(prev) && prev.id != rec.id && after =~= before.remove(prev).insert(
                rec,
            ),
        Outcome::Discarded => after =~= before,
        Outcome::SplitRequired => false,
    }
}

/// The bounded-time reachability check consulted before any eviction.
/// Implementations answer within the given timeout; a caller treats no
/// answer within the timeout as `Unreachable`.
pub trait LivenessProber {
    fn probe(&mut self, address: &NodeAddr, timeout_ms: u64) -> Reachability;
}

/// An ordered, capacity-bounded run of peer records: head is the
/// least-recently-seen entry, tail the most-recently-seen.
pub struct Bucket {
    info: Vec<NodeInfo>,
}

impl View for Bucket {
    type V = Seq<RecView>;

    closed spec fn view(&self) -> Seq<RecView> {
        views_of(self.info@)
    }
}

/// The records of `s` whose bit `d` equals `which`, in their original
/// order: one half of a split at depth `d`.
pub open spec fn part(s: Seq<RecView>, d: int, which: bool) -> Seq<RecView>
    decreases s.len(),
{
    if s.len() == 0 {
        Seq::empty()
    } else {
        let rest = part(s.drop_last(), d, which);
        if id_bit(s.last().id, d) == which {
            rest.push(s.last())
        } else {
            rest
        }
    }
}

/// A split at depth `d` partitions a bucket's records: together the two
/// halves carry exactly the original records, each record stands in the
/// half its bit `d` selects, and neither half gains a duplicate.
pub proof fn lemma_part(s: Seq<RecView>, d: int)
    ensures
        part(s, d, false).len() + part(s, d, true).len() == s.len(),
        part(s, d, false).to_multiset().add(part(s, d, true).to_multiset()) =~= s.to_multiset(),
        forall|w: bool, x: RecView|
            #![auto]
            part(s, d, w).contains(x) ==> s.contains(x) && id_bit(x.id, d) == w,
        forall|w: bool, id: Seq<u8>| #![auto]
            has_id(part(s, d, w), id) <==> has_id(s, id) && id_bit(id, d) == w,
        no_dup_ids(s) ==> no_dup_ids(part(s, d, false)) && no_dup_ids(part(s, d, true)),
    decreases s.len(),
{
    broadcast use vstd::seq_lib::group_to_multiset_ensures;
    broadcast use vstd::multiset::group_multiset_axioms;

    if s.len() == 0 {
        assert(forall|x: RecView| !s.contains(x));
        assert(forall|x: RecView| s.to_multiset().count(x) == 0);
        assert(s.to_multiset() =~= Multiset::<RecView>::empty());
        assert(part(s, d, false).to_multiset().add(part(s, d, true).to_multiset())
            =~= s.to_multiset());
    } else {
        let s0 = s.drop_last();
        let x = s.last();
        lemma_part(s0, d);
        assert(s =~= s0.push(x));
        assert(s.to_multiset() =~= s0.to_multiset().insert(x));
        let w = id_bit(x.id, d);
        assert(part(s, d, w) == part(s0, d, w).push(x));
        assert(part(s, d, !w) == part(s0, d, !w));
        assert(part(s, d, w).to_multiset() =~= part(s0, d, w).to_multiset().insert(x));
        assert(part(s, d, false).to_multiset().add(part(s, d, true).to_multiset())
            =~= s.to_multiset());

        // membership: an element of a half is an element of the whole
        assert forall|v: bool, y: RecView| #![auto] part(s, d, v).contains(y) implies s.contains(
            y,
        ) && id_bit(y.id, d) == v by {
            if v == w && y == x {
                assert(s.contains(x)) by {
                    assert(s[s.len() - 1] == x);
                }
            } else {
                if part(s, d, v).contains(y) && !(v == w && y == x) {
                    if v == w {
                        let i = choose|i: int|
                            0 <= i < part(s, d, v).len() && part(s, d, v)[i] == y;
                        if i < part(s0, d, v).len() {
                            assert(part(s0, d, v).contains(y));
                        } else {
                            assert(y == x);
                        }
                    } else {
                        assert(part(s0, d, v).contains(y));
                    }
                    if part(s0, d, v).contains(y) {
                        assert(s0.contains(y));
                        let i = choose|i: int| 0 <= i < s0.len() && s0[i] == y;
                        assert(s[i] == y);
                    }
                }
            }
        }

        // identifiers: a half holds an identifier iff the whole does and
        // the identifier's bit selects that half
        assert forall|v: bool, id: Seq<u8>| #![auto] has_id(part(s, d, v), id) implies has_id(
            s,
            id,
        ) && id_bit(id, d) == v by {
            let i = choose|i: int| 0 <= i < part(s, d, v).len() && part(s, d, v)[i].id == id;
            let y = part(s, d, v)[i];
            assert(part(s, d, v).contains(y));
            assert(s.contains(y) && id_bit(y.id, d) == v);
            let j = choose|j: int| 0 <= j < s.len() && s[j] == y;
            assert(has_id(s, id));
        }
        assert forall|v: bool, id: Seq<u8>| #![auto] has_id(s, id) && id_bit(id, d) == v
            implies has_id(part(s, d, v), id) by {
            let i = choose|i: int| 0 <= i < s.len() && s[i].id == id;
            if i < s0.len() {
                assert(s0[i] == s[i]);
                assert(has_id(s0, id));
                assert(has_id(part(s0, d, v), id));
                let j = choose|j: int|
                    0 <= j < part(s0, d, v).len() && part(s0, d, v)[j].id == id;
                if v == w {
                    assert(part(s, d, v)[j].id == id);
                } else {
                    assert(part(s, d, v)[j].id == id);
                }
            } else {
                assert(s[i] == x);
                assert(v == w);
                assert(part(s, d, w)[part(s, d, w).len() - 1] == x);
            }
        }

        // freedom from duplicates carries into each half
        if no_dup_ids(s) {
            assert(no_dup_ids(s0)) by {
                assert(forall|i: int, j: int|
                    0 <= i < j < s0.len() ==> s0[i] == s[i] && s0[j] == s[j]);
            }
            assert(!has_id(s0, x.id)) by {
                if has_id(s0, x.id) {
                    let i = choose|i: int| 0 <= i < s0.len() && s0[i].id == x.id;
                    assert(s[i].id == s[s.len() - 1].id);
                    assert(false);
                }
            }
            assert(!has_id(part(s0, d, w), x.id));
            assert(no_dup_ids(part(s, d, w))) by {
                let p0 = part(s0, d, w);
                let p = part(s, d, w);
                assert(p == p0.push(x));
                assert forall|i: int, j: int| 0 <= i < j < p.len() implies p[i].id != p[j].id by {
                    if j < p0.len() {
                        assert(p[i] == p0[i] && p[j] == p0[j]);
                    } else {
                        assert(p[j] == x);
                        assert(p[i] == p0[i]);
                        if p0[i].id == x.id {
                            assert(has_id(p0, x.id));
                            assert(false);
                        }
                    }
                }
            }
        }
    }
}

/// An identifier is carried by a concatenation of two record runs exactly
/// when one of the two carries it.
pub proof fn lemma_has_id_add(a: Seq<RecView>, b: Seq<RecView>, id: Seq<u8>)
    ensures
        has_id(a + b, id) <==> has_id(a, id) || has_id(b, id),
{
    if has_id(a, id) {
        let i = choose|i: int| 0 <= i < a.len() && a[i].id == id;
        assert((a + b)[i].id == id);
    }
    if has_id(b, id) {
        let i = choose|i: int| 0 <= i < b.len() && b[i].id == id;
        assert((a + b)[a.len() + i].id == id);
    }
    if has_id(a + b, id) {
        let i = choose|i: int| 0 <= i < (a + b).len() && (a + b)[i].id == id;
        if i < a.len() {
            assert(a[i].id == id);
        } else {
            assert(b[i - a.len()].id == id);
        }
    }
}

impl Bucket {
    /// An empty bucket.
    pub fn new() -> (r: Bucket)
        ensures
            r@ =~= Seq::<RecView>::empty(),
    {
        Bucket { info: Vec::new() }
    }

    /// How many records the bucket holds.
    pub fn len(&self) -> (r: usize)
        ensures
            r == self@.len(),
    {
        self.info.len()
    }

    /// The position of the record carrying `id`, if one exists.
    pub fn find_id_pos(&self, id: &NodeId) -> (r: Option<usize>)
        ensures
            r matches Some(i)
                ==> i < self@.len() && self@[i as int].id == id@
                    && (forall|j: int| 0 <= j < i ==> self@[j].id != id@),
            r is None ==> !has_id(self@, id@),
    {
        let n = self.info.len();
        let mut i: usize = 0;
        while i < n
            invariant
                i <= n,
                n == self@.len(),
                forall|j: int| 0 <= j < i ==> self@[j].id != id@,
            decreases n - i,
        {
            if self.info[i].id == *id {
                return Some(i);
            }
            i = i + 1;
        }
        None
    }

    /// Whether a record carrying `id` is present.
    pub fn contains_id(&self, id: &NodeId) -> (r: bool)
        ensures
            r == has_id(self@, id@),
    {
        self.find_id_pos(id).is_some()
    }

    /// Move the record at `pos` to the tail, keeping the relative order of
    /// the rest; with `pos` at the length, nothing changes.
    pub fn move_to_end(&mut self, pos: usize) -> (r: bool)
        requires
            pos <= old(self)@.len(),
        ensures
            pos < old(self)@.len()
                ==> r && final(self)@ =~= old(self)@.remove(pos as int).push(
                    old(self)@[pos as int],
                ),
            pos == old(self)@.len() ==> !r && final(self)@ =~= old(self)@,
    {
        if pos < self.info.len() {
            let x = self.info.remove(pos);
            self.info.push(x);
            true
        } else {
            false
        }
    }

    /// If a record carrying `id` is present, move it to the tail and report
    /// success; otherwise change nothing.
    pub fn touch(&mut self, id: &NodeId) -> (r: bool)
        ensures
            r == has_id(old(self)@, id@),
            !r ==> final(self)@ =~= old(self)@,
            r ==> exists|i: int|
                0 <= i < old(self)@.len() && old(self)@[i].id == id@ && final(self)@
                    =~= old(self)@.remove(i).push(old(self)@[i]),
    {
        match self.find_id_pos(id) {
            Some(pos) => {
                let ghost i = pos as int;
                self.move_to_end(pos);
                proof {
                    assert(old(self)@[i].id == id@);
                }
                true
            },
            None => false,
        }
    }

    /// Remove the record carrying `id`, wherever it stands, keeping the
    /// relative order of the remainder.
    pub fn remove(&mut self, id: &NodeId) -> (r: bool)
        ensures
            r == has_id(old(self)@, id@),
            !r ==> final(self)@ =~= old(self)@,
            r ==> exists|i: int|
                0 <= i < old(self)@.len() && old(self)@[i].id == id@ && final(self)@
                    =~= old(self)@.remove(i),
    {
        match self.find_id_pos(id) {
            Some(pos) => {
                self.info.remove(pos);
                proof {
                    assert(old(self)@[pos as int].id == id@);
                    assert(final(self)@ =~= old(self)@.remove(pos as int));
                }
                true
            },
            None => false,
        }
    }

    /// The update entry point for one bucket, following the freshness rule:
    /// a known identifier is refreshed in place, a new one is appended while
    /// room remains, and a full bucket evicts its head only when the
    /// liveness probe reports the head unreachable. A full bucket with a
    /// live head either asks the caller to split (`may_split`) or drops the
    /// candidate.
    pub fn insert<P: LivenessProber>(
        &mut self,
        info: &NodeInfo,
        k: usize,
        may_split: bool,
        prober: &mut P,
        timeout_ms: u64,
    ) -> (o: Outcome)
        requires
            1 <= k,
            old(self)@.len() <= k,
            no_dup_ids(old(self)@),
        ensures
            final(self)@.len() <= k,
            no_dup_ids(final(self)@),
            o == Outcome::Updated <==> has_id(old(self)@, info.id@),
            o == Outcome::Updated ==> exists|i: int|
                0 <= i < old(self)@.len() && old(self)@[i].id == info.id@ && final(self)@
                    =~= old(self)@.remove(i).push(info@),
            o == Outcome::Inserted <==> !has_id(old(self)@, info.id@) && old(self)@.len() < k,
            o == Outcome::Inserted ==> final(self)@ =~= old(self)@.push(info@),
            o == Outcome::EvictedInserted ==> !has_id(old(self)@, info.id@) && old(self)@.len()
                == k && final(self)@ =~= old(self)@.drop_first().push(info@),
            o == Outcome::Discarded ==> !has_id(old(self)@, info.id@) && old(self)@.len() == k
                && !may_split && final(self)@ =~= old(self)@.drop_first().push(old(self)@[0]),
            o == Outcome::SplitRequired ==> !has_id(old(self)@, info.id@) && old(self)@.len()
                == k && may_split && final(self)@ =~= old(self)@.drop_first().push(
                old(self)@[0],
            ),
            !has_id(old(self)@, info.id@) && old(self)@.len() == k ==> (o
                == Outcome::EvictedInserted || (may_split && o == Outcome::SplitRequired) || (
            !may_split && o == Outcome::Discarded)),
    {
        match self.find_id_pos(&info.id) {
            Some(pos) => {
                let ghost i = pos as int;
                self.info.remove(pos);
                self.info.push(info.clone());
                proof {
                    assert(final(self)@ =~= old(self)@.remove(i).push(info@));
                    assert(has_id(old(self)@, info.id@));
                }
                Outcome::Updated
            },
            None => {
                if self.info.len() < k {
                    self.info.push(info.clone());
                    proof {
                        assert(final(self)@ =~= old(self)@.push(info@));
                    }
                    Outcome::Inserted
                } else {
                    let head_addr = self.info[0].address;
                    match prober.probe(&head_addr, timeout_ms) {
                        Reachability::Unreachable => {
                            self.info.remove(0);
                            self.info.push(info.clone());
                            proof {
                                assert(old(self)@.remove(0) =~= old(self)@.drop_first());
                                assert(final(self)@ =~= old(self)@.drop_first().push(info@));
                            }
                            Outcome::EvictedInserted
                        },
                        Reachability::Reachable => {
                            let head = self.info.remove(0);
                            self.info.push(head);
                            proof {
                                assert(old(self)@.remove(0) =~= old(self)@.drop_first());
                                assert(final(self)@ =~= old(self)@.drop_first().push(
                                    old(self)@[0],
                                ));
                            }
                            if may_split {
                                Outcome::SplitRequired
                            } else {
                                Outcome::Discarded
                            }
                        },
                    }
                }
            },
        }
    }

    /// Copies of the bucket's records, head first.
    pub fn to_vec(&self) -> (r: Vec<NodeInfo>)
        ensures
            views_of(r@) =~= self@,
    {
        let mut out: Vec<NodeInfo> = Vec::new();
        let mut i: usize = 0;
        while i < self.info.len()
            invariant
                i <= self.info@.len(),
                out@.len() == i,
                forall|j: int| 0 <= j < i ==> out@[j]@ == self.info@[j]@,
            decreases self.info@.len() - i,
        {
            let x = self.info[i].clone();
            out.push(x);
            i = i + 1;
        }
        out
    }

    /// Consume the bucket and redistribute its records into two fresh
    /// buckets by their bit at `depth`, preserving relative order.
    pub fn split(self, depth: usize) -> (r: (Bucket, Bucket))
        requires
            forall|i: int| 0 <= i < self@.len() ==> depth < (#[trigger] self@[i]).id.len() * 8,
        ensures
            r.0@ =~= part(self@, depth as int, false),
            r.1@ =~= part(self@, depth as int, true),
    {
        let ghost orig = self@;
        let Bucket { info: v } = self;
        let n = v.len();
        let mut b0: Vec<NodeInfo> = Vec::new();
        let mut b1: Vec<NodeInfo> = Vec::new();
        let mut i: usize = 0;
        while i < n
            invariant
                i <= n,
                n == v@.len(),
                orig == views_of(v@),
                forall|j: int| 0 <= j < n ==> depth < (#[trigger] orig[j]).id.len() * 8,
                views_of(b0@) =~= part(orig.subrange(0, i as int), depth as int, false),
                views_of(b1@) =~= part(orig.subrange(0, i as int), depth as int, true),
            decreases n - i,
        {
            let x = v[i].clone();
            proof {
                assert(x@ == orig[i as int]);
            }
            let bit = x.id.get_bit(depth);
            let ghost pre = orig.subrange(0, i as int);
            let ghost cur = orig.subrange(0, i as int + 1);
            proof {
                assert(cur.drop_last() =~= pre);
                assert(cur.last() == orig[i as int]);
            }
            if bit.unwrap() {
                b1.push(x);
            } else {
                b0.push(x);
            }
            proof {
                let w = id_bit(orig[i as int].id, depth as int);
                assert(part(cur, depth as int, w) == part(pre, depth as int, w).push(cur.last()));
                assert(part(cur, depth as int, !w) == part(pre, depth as int, !w));
                if w {
                    assert(views_of(b1@) =~= part(cur, depth as int, true));
                    assert(views_of(b0@) =~= part(cur, depth as int, false));
                } else {
                    assert(views_of(b0@) =~= part(cur, depth as int, false));
                    assert(views_of(b1@) =~= part(cur, depth as int, true));
                }
            }
            i = i + 1;
        }
        proof {
            assert(orig.subrange(0, n as int) =~= orig);
        }
        (Bucket { info: b0 }, Bucket { info: b1 })
    }
}

} // verus!
