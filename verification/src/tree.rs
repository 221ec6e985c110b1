//! The bucket trie: a binary trie over identifier bits whose leaves are
//! buckets.
//!
//! Each node covers the region of identifier space that shares the bit
//! path from the root down to it. Internal nodes route by the next
//! unconsidered bit; only the leaf whose region contains the owning node's
//! own identifier may split, and a leaf becomes an internal node exactly
//! once, at the moment it is split.

use vstd::prelude::*;
use vstd::multiset::Multiset;
use crate::id::{NodeId, id_bit, MAX_ID_BYTES};
use crate::bucket::{Bucket, LivenessProber, Outcome, lemma_part, part, see_transition};
use crate::info::{NodeInfo, RecView, has_id, no_dup_ids, views_of};

verus! {

/// Whether the first `p.len()` bits of `id` spell out `p`.
pub open spec fn bits_prefix(id: Seq<u8>, p: Seq<bool>) -> bool {
    p.len() <= id.len() * 8 && forall|i: int| 0 <= i < p.len() ==> id_bit(id, i) == p[i]
}

/// What the trie demands of one record stored under the path `prefix`:
/// a full-width identifier, never the owner's own, lying in the region.
pub open spec fn rec_wf(r: RecView, prefix: Seq<bool>, owner: Seq<u8>) -> bool {
    r.id.len() == owner.len() && r.id != owner && bits_prefix(r.id, prefix)
}

/// What the trie demands of a leaf's records under the path `prefix`:
/// bounded by the capacity, free of duplicates, all inside the region.
pub open spec fn leaf_wf(s: Seq<RecView>, prefix: Seq<bool>, owner: Seq<u8>, k: nat) -> bool {
    s.len() <= k && no_dup_ids(s) && forall|i: int|
        0 <= i < s.len() ==> rec_wf(#[trigger] s[i], prefix, owner)
}

/// A trie node: a leaf holding one bucket, or an internal node holding the
/// two children that the next bit selects between.
pub enum BucketTreeNode {
    Bucket(Bucket),
    Compound(Box<BucketTreeNode>, Box<BucketTreeNode>),
}

impl BucketTreeNode {
    /// All records below this node, leaves read left to right.
    pub open spec fn records(self) -> Seq<RecView>
        decreases self,
    {
        match self {
            BucketTreeNode::Bucket(b) => b@,
            BucketTreeNode::Compound(n0, n1) => n0.records() + n1.records(),
        }
    }

    /// Well-formedness below the path `prefix`: every leaf obeys its
    /// region, capacity and no-duplicates rules, and internal nodes never
    /// consume more bits than an identifier has.
    pub open spec fn wf(self, prefix: Seq<bool>, owner: Seq<u8>, k: nat) -> bool
        decreases self,
    {
        match self {
            BucketTreeNode::Bucket(b) => leaf_wf(b@, prefix, owner, k),
            BucketTreeNode::Compound(n0, n1) => prefix.len() < owner.len() * 8 && n0.wf(
                prefix.push(false),
                owner,
                k,
            ) && n1.wf(prefix.push(true), owner, k),
        }
    }

    /// The records of the leaf that `id` routes to, consuming the
    /// identifier's bits from `depth` on.
    pub open spec fn routed(self, id: Seq<u8>, depth: int) -> Seq<RecView>
        decreases self,
    {
        match self {
            BucketTreeNode::Bucket(b) => b@,
            BucketTreeNode::Compound(n0, n1) => if id_bit(id, depth) {
                n1.routed(id, depth + 1)
            } else {
                n0.routed(id, depth + 1)
            },
        }
    }

    /// The bucket owning the region that `id` falls in, consuming the
    /// identifier's bits from `depth` on.
    pub fn find_bucket<'a>(
        &'a self,
        id: &NodeId,
        depth: usize,
        Ghost(prefix): Ghost<Seq<bool>>,
        Ghost(owner): Ghost<Seq<u8>>,
        Ghost(k): Ghost<nat>,
    ) -> (r: &'a Bucket)
        requires
            self.wf(prefix, owner, k),
            prefix.len() == depth,
            id@.len() == owner.len(),
            owner.len() <= MAX_ID_BYTES,
            bits_prefix(id@, prefix),
        ensures
            r@ == self.routed(id@, depth as int),
            r@.len() <= k,
        decreases self,
    {
        match self {
            BucketTreeNode::Bucket(b) => b,
            BucketTreeNode::Compound(n0, n1) => {
                proof {
                    assert(depth < owner.len() * 8);
                    assert(owner.len() * 8 <= MAX_ID_BYTES * 8);
                }
                let bit = id.get_bit(depth);
                if bit.unwrap() {
                    proof {
                        assert(bits_prefix(id@, prefix.push(true)));
                    }
                    n1.find_bucket(id, depth + 1, Ghost(prefix.push(true)), Ghost(owner), Ghost(k))
                } else {
                    proof {
                        assert(bits_prefix(id@, prefix.push(false)));
                    }
                    n0.find_bucket(id, depth + 1, Ghost(prefix.push(false)), Ghost(owner), Ghost(k))
                }
            },
        }
    }
}

/// Weakening a record's region: what lies under an extended path lies
/// under the path itself.
pub proof fn lemma_bits_prefix_push(id: Seq<u8>, p: Seq<bool>, w: bool)
    requires
        bits_prefix(id, p.push(w)),
    ensures
        bits_prefix(id, p),
        id_bit(id, p.len() as int) == w,
{
    assert(forall|i: int| 0 <= i < p.len() ==> p.push(w)[i] == p[i]);
    assert(p.push(w)[p.len() as int] == w);
}

/// Below a well-formed node every record lies in the node's region, no
/// identifier repeats anywhere in the subtree, and the owner is absent.
pub proof fn lemma_wf_records(node: BucketTreeNode, prefix: Seq<bool>, owner: Seq<u8>, k: nat)
    requires
        node.wf(prefix, owner, k),
    ensures
        no_dup_ids(node.records()),
        forall|i: int|
            0 <= i < node.records().len() ==> rec_wf(#[trigger] node.records()[i], prefix, owner),
    decreases node,
{
    match node {
        BucketTreeNode::Bucket(b) => {},
        BucketTreeNode::Compound(n0, n1) => {
            lemma_wf_records(*n0, prefix.push(false), owner, k);
            lemma_wf_records(*n1, prefix.push(true), owner, k);
            let r0 = n0.records();
            let r1 = n1.records();
            let all = node.records();
            let d = prefix.len() as int;
            assert(all == r0 + r1);
            assert forall|i: int| 0 <= i < all.len() implies rec_wf(
                #[trigger] all[i],
                prefix,
                owner,
            ) by {
                if i < r0.len() {
                    assert(all[i] == r0[i]);
                    lemma_bits_prefix_push(r0[i].id, prefix, false);
                } else {
                    assert(all[i] == r1[i - r0.len()]);
                    lemma_bits_prefix_push(r1[i - r0.len()].id, prefix, true);
                }
            }
            assert forall|i: int, j: int| 0 <= i < j < all.len() implies all[i].id != all[j].id by {
                if i < r0.len() && j >= r0.len() {
                    let a = r0[i];
                    let b = r1[j - r0.len()];
                    assert(all[i] == a && all[j] == b);
                    lemma_bits_prefix_push(a.id, prefix, false);
                    lemma_bits_prefix_push(b.id, prefix, true);
                    assert(id_bit(a.id, d) == false);
                    assert(id_bit(b.id, d) == true);
                } else if j < r0.len() {
                    assert(all[i] == r0[i] && all[j] == r0[j]);
                } else {
                    assert(all[i] == r1[i - r0.len()] && all[j] == r1[j - r0.len()]);
                }
            }
        },
    }
}

/// Extending a record's region: a record in a region whose next bit
/// matches lies in the refined region.
pub proof fn lemma_bits_prefix_extend(id: Seq<u8>, p: Seq<bool>, w: bool)
    requires
        bits_prefix(id, p),
        p.len() + 1 <= id.len() * 8,
        id_bit(id, p.len() as int) == w,
    ensures
        bits_prefix(id, p.push(w)),
{
    assert forall|i: int| 0 <= i < p.push(w).len() implies id_bit(id, i) == p.push(w)[i] by {
        if i < p.len() {
            assert(p.push(w)[i] == p[i]);
        } else {
            assert(i == p.len());
            assert(p.push(w)[i] == w);
        }
    }
}

/// A change confined to one part of the stock is the same change seen on
/// the whole stock.
pub proof fn lemma_transition_add(
    other: Multiset<RecView>,
    before: Multiset<RecView>,
    after: Multiset<RecView>,
    rec: RecView,
    o: Outcome,
)
    requires
        see_transition(before, after, rec, o),
    ensures
        see_transition(other.add(before), other.add(after), rec, o),
{
    broadcast use vstd::multiset::group_multiset_axioms;

    match o {
        Outcome::Updated => {
            let prev = choose|prev: RecView|
                #![auto]
                before.contains(prev) && prev.id == rec.id && after =~= before.remove(
                    prev,
                ).insert(rec);
            assert(other.add(before).contains(prev));
            assert(other.add(after) =~= other.add(before).remove(prev).insert(rec));
        },
        Outcome::Inserted => {
            assert(other.add(after) =~= other.add(before).insert(rec));
        },
        Outcome::EvictedInserted => {
            let prev = choose|prev: RecView|
                #![auto]
                before.contains(prev) && prev.id != rec.id && after =~= before.remove(
                    prev,
                ).insert(rec);
            assert(other.add(before).contains(prev));
            assert(other.add(after) =~= other.add(before).remove(prev).insert(rec));
        },
        Outcome::Discarded => {
            assert(other.add(after) =~= other.add(before));
        },
        Outcome::SplitRequired => {},
    }
}

/// Removing the record at `i` and appending `x` keeps every other record:
/// the stock trades `s[i]` for `x`, and each new record is an old one
/// or `x` itself.
proof fn lemma_remove_push_multiset(s: Seq<RecView>, i: int, x: RecView, t: Seq<RecView>)
    requires
        0 <= i < s.len(),
        t =~= s.remove(i).push(x),
    ensures
        t.to_multiset() =~= s.to_multiset().remove(s[i]).insert(x),
        s.to_multiset().contains(s[i]),
        forall|j: int| 0 <= j < t.len() ==> s.contains(#[trigger] t[j]) || t[j] == x,
    decreases s.len(),
{
    broadcast use vstd::seq_lib::group_to_multiset_ensures;
    broadcast use vstd::multiset::group_multiset_axioms;

    assert(s.contains(s[i]));
    assert(s.remove(i).to_multiset() == s.to_multiset().remove(s[i]));
    assert(s.remove(i).push(x).to_multiset() =~= s.remove(i).to_multiset().insert(x));
    assert(t.to_multiset() == s.remove(i).push(x).to_multiset());
    assert forall|j: int| 0 <= j < t.len() implies s.contains(#[trigger] t[j]) || t[j] == x by {
        if j < t.len() - 1 {
            assert(t[j] == s.remove(i)[j]);
            if j < i {
                assert(s.remove(i)[j] == s[j]);
            } else {
                assert(s.remove(i)[j] == s[j + 1]);
            }
        } else {
            assert(t[j] == x);
        }
    }
}

/// Appending `x` only adds `x` to the stock.
proof fn lemma_push_multiset(s: Seq<RecView>, x: RecView, t: Seq<RecView>)
    requires
        t =~= s.push(x),
    ensures
        t.to_multiset() =~= s.to_multiset().insert(x),
        forall|j: int| 0 <= j < t.len() ==> s.contains(#[trigger] t[j]) || t[j] == x,
    decreases s.len(),
{
    broadcast use vstd::seq_lib::group_to_multiset_ensures;
    broadcast use vstd::multiset::group_multiset_axioms;

    assert(t.to_multiset() == s.push(x).to_multiset());
    assert forall|j: int| 0 <= j < t.len() implies s.contains(#[trigger] t[j]) || t[j] == x by {
        if j < t.len() - 1 {
            assert(t[j] == s[j]);
        } else {
            assert(t[j] == x);
        }
    }
}

/// Removing the record at `i` takes exactly `s[i]` out of the stock.
proof fn lemma_remove_multiset(s: Seq<RecView>, i: int, t: Seq<RecView>)
    requires
        0 <= i < s.len(),
        t =~= s.remove(i),
    ensures
        t.to_multiset() =~= s.to_multiset().remove(s[i]),
        s.to_multiset().contains(s[i]),
        forall|j: int| 0 <= j < t.len() ==> s.contains(#[trigger] t[j]),
{
    broadcast use vstd::seq_lib::group_to_multiset_ensures;
    broadcast use vstd::multiset::group_multiset_axioms;

    assert(s.contains(s[i]));
    assert(s.remove(i).to_multiset() == s.to_multiset().remove(s[i]));
    assert(t.to_multiset() == s.remove(i).to_multiset());
    assert forall|j: int| 0 <= j < t.len() implies s.contains(#[trigger] t[j]) by {
        if j < i {
            assert(t[j] == s[j]);
        } else {
            assert(t[j] == s[j + 1]);
        }
    }
}

/// A leaf rebuilt from old records and at most one vetted newcomer is
/// still well formed, provided its length and duplicate checks hold.
proof fn lemma_leaf_wf_from_elems(
    s: Seq<RecView>,
    t: Seq<RecView>,
    prefix: Seq<bool>,
    owner: Seq<u8>,
    k: nat,
    x: RecView,
)
    requires
        leaf_wf(s, prefix, owner, k),
        t.len() <= k,
        no_dup_ids(t),
        rec_wf(x, prefix, owner),
        forall|j: int| 0 <= j < t.len() ==> s.contains(#[trigger] t[j]) || t[j] == x,
    ensures
        leaf_wf(t, prefix, owner, k),
{
    assert forall|j: int| 0 <= j < t.len() implies rec_wf(#[trigger] t[j], prefix, owner) by {
        if s.contains(t[j]) {
            let i = choose|i: int| 0 <= i < s.len() && s[i] == t[j];
            assert(rec_wf(s[i], prefix, owner));
        }
    }
}

/// If every record of `t` comes from `s` and `s` misses an identifier,
/// `t` misses it too.
proof fn lemma_no_id_from_elems(s: Seq<RecView>, t: Seq<RecView>, id: Seq<u8>)
    requires
        !has_id(s, id),
        forall|j: int| 0 <= j < t.len() ==> s.contains(#[trigger] t[j]),
    ensures
        !has_id(t, id),
{
    if has_id(t, id) {
        let j = choose|j: int| 0 <= j < t.len() && t[j].id == id;
        assert(s.contains(t[j]));
        let i = choose|i: int| 0 <= i < s.len() && s[i] == t[j];
        assert(has_id(s, id));
    }
}

/// Insert-or-update against the leaf a descent has reached, splitting the
/// leaf and retrying against the correct child as long as the bucket asks
/// for a split.
fn see_leaf<P: LivenessProber>(
    b: Bucket,
    depth: usize,
    owner: &NodeId,
    covers_owner: bool,
    info: &NodeInfo,
    k: usize,
    prober: &mut P,
    timeout_ms: u64,
    Ghost(prefix): Ghost<Seq<bool>>,
) -> (r: (BucketTreeNode, Outcome))
    requires
        leaf_wf(b@, prefix, owner@, k as nat),
        prefix.len() == depth,
        owner@.len() <= MAX_ID_BYTES,
        info.id@.len() == owner@.len(),
        info.id@ != owner@,
        bits_prefix(info.id@, prefix),
        covers_owner == bits_prefix(owner@, prefix),
        1 <= k,
    ensures
        r.0.wf(prefix, owner@, k as nat),
        see_transition(b@.to_multiset(), r.0.records().to_multiset(), info@, r.1),
        (r.1 == Outcome::Updated <==> has_id(b@, info.id@)),
        !has_id(b@, info.id@) && b@.len() < k ==> r.1 == Outcome::Inserted,
        (r.1 == Outcome::EvictedInserted || r.1 == Outcome::Discarded) ==> b@.len() == k,
        r.1 != Outcome::Discarded ==> r.0.routed(info.id@, depth as int).len() > 0 && r.0.routed(
            info.id@,
            depth as int,
        ).last() == info@,
    decreases owner@.len() * 8 - depth,
{
    let mut bucket = b;
    let may_split = covers_owner && depth < owner.num_bits();
    let o = bucket.insert(info, k, may_split, prober, timeout_ms);
    match o {
        Outcome::SplitRequired => {
            proof {
                assert(bucket@ =~= b@.drop_first().push(b@[0]));
                assert(bucket@ =~= b@.remove(0).push(b@[0]));
                lemma_remove_push_multiset(b@, 0, b@[0], bucket@);
                assert(bucket@.to_multiset() =~= b@.to_multiset().remove(b@[0]).insert(b@[0]));
                assert(bucket@.to_multiset() =~= b@.to_multiset());
                lemma_leaf_wf_from_elems(b@, bucket@, prefix, owner@, k as nat, b@[0]);
                // every record of the rotated bucket is an old record
                assert(b@.contains(b@[0]));
                assert(forall|j: int| 0 <= j < bucket@.len() ==> b@.contains(#[trigger] bucket@[j]));
                lemma_no_id_from_elems(b@, bucket@, info.id@);
                lemma_part(bucket@, depth as int);
            }
            let ghost s = bucket@;
            let ghost d = depth as int;
            let pair = bucket.split(depth);
            let (b0, b1) = pair;
            let bit = info.id.get_bit(depth);
            let obit = owner.get_bit(depth);
            proof {
                // the two halves are well-formed leaves of the two refined regions
                assert(b0@ =~= part(s, d, false));
                assert(b1@ =~= part(s, d, true));
                assert forall|w: bool, j: int|
                    0 <= j < part(s, d, w).len() implies rec_wf(
                    #[trigger] part(s, d, w)[j],
                    prefix.push(w),
                    owner@,
                ) by {
                    let y = part(s, d, w)[j];
                    assert(part(s, d, w).contains(y));
                    assert(s.contains(y) && id_bit(y.id, d) == w);
                    let i = choose|i: int| 0 <= i < s.len() && s[i] == y;
                    assert(rec_wf(y, prefix, owner@));
                    lemma_bits_prefix_extend(y.id, prefix, w);
                }
                assert(leaf_wf(b0@, prefix.push(false), owner@, k as nat));
                assert(leaf_wf(b1@, prefix.push(true), owner@, k as nat));
            }
            if bit.unwrap() {
                proof {
                    lemma_bits_prefix_extend(info.id@, prefix, true);
                    if obit == Some(true) {
                        lemma_bits_prefix_extend(owner@, prefix, true);
                    }
                    if bits_prefix(owner@, prefix.push(true)) {
                        lemma_bits_prefix_push(owner@, prefix, true);
                    }
                }
                let r2 = see_leaf(
                    b1,
                    depth + 1,
                    owner,
                    obit.unwrap(),
                    info,
                    k,
                    prober,
                    timeout_ms,
                    Ghost(prefix.push(true)),
                );
                let node = BucketTreeNode::Compound(
                    Box::new(BucketTreeNode::Bucket(b0)),
                    Box::new(r2.0),
                );
                proof {
                    broadcast use vstd::multiset::group_multiset_axioms;

                    let left = BucketTreeNode::Bucket(b0);
                    assert(left.records() == b0@);
                    assert(left.wf(prefix.push(false), owner@, k as nat));
                    assert(node.records() == left.records() + r2.0.records());
                    assert(node.wf(prefix, owner@, k as nat));
                    vstd::seq_lib::lemma_multiset_commutative(b0@, r2.0.records());
                    vstd::seq_lib::lemma_multiset_commutative(part(s, d, false), part(s, d, true));
                    lemma_transition_add(
                        b0@.to_multiset(),
                        b1@.to_multiset(),
                        r2.0.records().to_multiset(),
                        info@,
                        r2.1,
                    );
                    assert(b0@.to_multiset().add(b1@.to_multiset()) =~= s.to_multiset());
                    assert(s.to_multiset() == b@.to_multiset());
                    assert(see_transition(
                        b@.to_multiset(),
                        node.records().to_multiset(),
                        info@,
                        r2.1,
                    ));
                    // the identifier was absent from the whole bucket, so it is
                    // absent from the half we recursed into: no update there
                    assert(!has_id(b1@, info.id@));
                }
                (node, r2.1)
            } else {
                proof {
                    lemma_bits_prefix_extend(info.id@, prefix, false);
                    if obit == Some(false) {
                        lemma_bits_prefix_extend(owner@, prefix, false);
                    }
                    if bits_prefix(owner@, prefix.push(false)) {
                        lemma_bits_prefix_push(owner@, prefix, false);
                    }
                }
                let not_obit = !obit.unwrap();
                let r2 = see_leaf(
                    b0,
                    depth + 1,
                    owner,
                    not_obit,
                    info,
                    k,
                    prober,
                    timeout_ms,
                    Ghost(prefix.push(false)),
                );
                let node = BucketTreeNode::Compound(
                    Box::new(r2.0),
                    Box::new(BucketTreeNode::Bucket(b1)),
                );
                proof {
                    broadcast use vstd::multiset::group_multiset_axioms;

                    let right = BucketTreeNode::Bucket(b1);
                    assert(right.records() == b1@);
                    assert(right.wf(prefix.push(true), owner@, k as nat));
                    assert(node.records() == r2.0.records() + right.records());
                    assert(node.wf(prefix, owner@, k as nat));
                    vstd::seq_lib::lemma_multiset_commutative(r2.0.records(), b1@);
                    vstd::seq_lib::lemma_multiset_commutative(part(s, d, false), part(s, d, true));
                    lemma_transition_add(
                        b1@.to_multiset(),
                        b0@.to_multiset(),
                        r2.0.records().to_multiset(),
                        info@,
                        r2.1,
                    );
                    assert(b1@.to_multiset().add(b0@.to_multiset()) =~= s.to_multiset());
                    assert(b1@.to_multiset().add(r2.0.records().to_multiset()) =~= node.records().to_multiset());
                    assert(s.to_multiset() == b@.to_multiset());
                    assert(see_transition(
                        b@.to_multiset(),
                        node.records().to_multiset(),
                        info@,
                        r2.1,
                    ));
                    assert(!has_id(b0@, info.id@));
                }
                (node, r2.1)
            }
        },
        _ => {
            proof {
                broadcast use vstd::multiset::group_multiset_axioms;

                if o == Outcome::Updated {
                    let i = choose|i: int|
                        0 <= i < b@.len() && b@[i].id == info.id@ && bucket@ =~= b@.remove(
                            i,
                        ).push(info@);
                    lemma_remove_push_multiset(b@, i, info@, bucket@);
                    lemma_leaf_wf_from_elems(b@, bucket@, prefix, owner@, k as nat, info@);
                    assert(see_transition(b@.to_multiset(), bucket@.to_multiset(), info@, o));
                } else if o == Outcome::Inserted {
                    lemma_push_multiset(b@, info@, bucket@);
                    lemma_leaf_wf_from_elems(b@, bucket@, prefix, owner@, k as nat, info@);
                    assert(see_transition(b@.to_multiset(), bucket@.to_multiset(), info@, o));
                } else if o == Outcome::EvictedInserted {
                    assert(bucket@ =~= b@.remove(0).push(info@));
                    lemma_remove_push_multiset(b@, 0, info@, bucket@);
                    lemma_leaf_wf_from_elems(b@, bucket@, prefix, owner@, k as nat, info@);
                    assert(b@[0].id != info.id@);
                    assert(see_transition(b@.to_multiset(), bucket@.to_multiset(), info@, o));
                } else {
                    assert(o == Outcome::Discarded);
                    assert(bucket@ =~= b@.remove(0).push(b@[0]));
                    lemma_remove_push_multiset(b@, 0, b@[0], bucket@);
                    lemma_leaf_wf_from_elems(b@, bucket@, prefix, owner@, k as nat, b@[0]);
                    assert(bucket@.to_multiset() =~= b@.to_multiset());
                    assert(see_transition(b@.to_multiset(), bucket@.to_multiset(), info@, o));
                }
            }
            (BucketTreeNode::Bucket(bucket), o)
        },
    }
}

/// Carry one seen record down to the leaf its identifier routes to and
/// apply the freshness rule there; splits happen only along the owner's
/// own path.
fn see_node<P: LivenessProber>(
    node: BucketTreeNode,
    depth: usize,
    owner: &NodeId,
    covers_owner: bool,
    info: &NodeInfo,
    k: usize,
    prober: &mut P,
    timeout_ms: u64,
    Ghost(prefix): Ghost<Seq<bool>>,
) -> (r: (BucketTreeNode, Outcome))
    requires
        node.wf(prefix, owner@, k as nat),
        prefix.len() == depth,
        owner@.len() <= MAX_ID_BYTES,
        info.id@.len() == owner@.len(),
        info.id@ != owner@,
        bits_prefix(info.id@, prefix),
        covers_owner == bits_prefix(owner@, prefix),
        1 <= k,
    ensures
        r.0.wf(prefix, owner@, k as nat),
        see_transition(node.records().to_multiset(), r.0.records().to_multiset(), info@, r.1),
        (r.1 == Outcome::Updated <==> has_id(node.records(), info.id@)),
        !has_id(node.records(), info.id@) && node.routed(info.id@, depth as int).len() < k
            ==> r.1 == Outcome::Inserted,
        (r.1 == Outcome::EvictedInserted || r.1 == Outcome::Discarded) ==> node.routed(
            info.id@,
            depth as int,
        ).len() == k,
        r.1 != Outcome::Discarded ==> r.0.routed(info.id@, depth as int).len() > 0 && r.0.routed(
            info.id@,
            depth as int,
        ).last() == info@,
    decreases node,
{
    match node {
        BucketTreeNode::Bucket(b) => see_leaf(
            b,
            depth,
            owner,
            covers_owner,
            info,
            k,
            prober,
            timeout_ms,
            Ghost(prefix),
        ),
        BucketTreeNode::Compound(n0, n1) => {
            proof {
                assert(depth < owner@.len() * 8);
            }
            let bit = info.id.get_bit(depth);
            let obit = owner.get_bit(depth);
            let ghost r0 = n0.records();
            let ghost r1 = n1.records();
            let ghost d = depth as int;
            if bit.unwrap() {
                let covers1 = covers_owner && obit.unwrap();
                proof {
                    lemma_bits_prefix_extend(info.id@, prefix, true);
                    if covers1 {
                        lemma_bits_prefix_extend(owner@, prefix, true);
                    }
                    if bits_prefix(owner@, prefix.push(true)) {
                        lemma_bits_prefix_push(owner@, prefix, true);
                    }
                }
                let r2 = see_node(
                    *n1,
                    depth + 1,
                    owner,
                    covers1,
                    info,
                    k,
                    prober,
                    timeout_ms,
                    Ghost(prefix.push(true)),
                );
                let node2 = BucketTreeNode::Compound(n0, Box::new(r2.0));
                proof {
                    broadcast use vstd::multiset::group_multiset_axioms;

                    assert(node2.records() == r0 + r2.0.records());
                    vstd::seq_lib::lemma_multiset_commutative(r0, r2.0.records());
                    vstd::seq_lib::lemma_multiset_commutative(r0, r1);
                    lemma_transition_add(
                        r0.to_multiset(),
                        r1.to_multiset(),
                        r2.0.records().to_multiset(),
                        info@,
                        r2.1,
                    );
                    // the identifier's bit routes it right: it cannot appear
                    // in the left child
                    crate::bucket::lemma_has_id_add(r0, r1, info.id@);
                    if has_id(r0, info.id@) {
                        lemma_wf_records(*n0, prefix.push(false), owner@, k as nat);
                        let i = choose|i: int| 0 <= i < r0.len() && r0[i].id == info.id@;
                        lemma_bits_prefix_push(r0[i].id, prefix, false);
                        assert(false);
                    }
                }
                (node2, r2.1)
            } else {
                let covers0 = covers_owner && !obit.unwrap();
                proof {
                    lemma_bits_prefix_extend(info.id@, prefix, false);
                    if covers0 {
                        lemma_bits_prefix_extend(owner@, prefix, false);
                    }
                    if bits_prefix(owner@, prefix.push(false)) {
                        lemma_bits_prefix_push(owner@, prefix, false);
                    }
                }
                let r2 = see_node(
                    *n0,
                    depth + 1,
                    owner,
                    covers0,
                    info,
                    k,
                    prober,
                    timeout_ms,
                    Ghost(prefix.push(false)),
                );
                let node2 = BucketTreeNode::Compound(Box::new(r2.0), n1);
                proof {
                    broadcast use vstd::multiset::group_multiset_axioms;

                    assert(node2.records() == r2.0.records() + r1);
                    vstd::seq_lib::lemma_multiset_commutative(r2.0.records(), r1);
                    vstd::seq_lib::lemma_multiset_commutative(r0, r1);
                    lemma_transition_add(
                        r1.to_multiset(),
                        r0.to_multiset(),
                        r2.0.records().to_multiset(),
                        info@,
                        r2.1,
                    );
                    assert(r1.to_multiset().add(r0.to_multiset()) =~= node.records().to_multiset());
                    assert(r1.to_multiset().add(r2.0.records().to_multiset())
                        =~= node2.records().to_multiset());
                    crate::bucket::lemma_has_id_add(r0, r1, info.id@);
                    if has_id(r1, info.id@) {
                        lemma_wf_records(*n1, prefix.push(true), owner@, k as nat);
                        let i = choose|i: int| 0 <= i < r1.len() && r1[i].id == info.id@;
                        lemma_bits_prefix_push(r1[i].id, prefix, true);
                        assert(false);
                    }
                }
                (node2, r2.1)
            }
        },
    }
}

/// Remove the record carrying `id` from the leaf its bits route to.
fn remove_node(
    node: BucketTreeNode,
    id: &NodeId,
    depth: usize,
    Ghost(prefix): Ghost<Seq<bool>>,
    Ghost(owner): Ghost<Seq<u8>>,
    Ghost(k): Ghost<nat>,
) -> (r: (BucketTreeNode, bool))
    requires
        node.wf(prefix, owner, k),
        prefix.len() == depth,
        owner.len() <= MAX_ID_BYTES,
        id@.len() == owner.len(),
        bits_prefix(id@, prefix),
    ensures
        r.0.wf(prefix, owner, k),
        r.1 == has_id(node.records(), id@),
        r.1 ==> exists|prev: RecView|
            #![auto]
            node.records().to_multiset().contains(prev) && prev.id == id@
                && r.0.records().to_multiset() =~= node.records().to_multiset().remove(prev),
        !r.1 ==> r.0.records().to_multiset() =~= node.records().to_multiset(),
    decreases node,
{
    match node {
        BucketTreeNode::Bucket(b) => {
            let mut bucket = b;
            let hit = bucket.remove(id);
            proof {
                broadcast use vstd::multiset::group_multiset_axioms;

                let out = BucketTreeNode::Bucket(bucket);
                assert(out.records() == bucket@);
                if hit {
                    let i = choose|i: int|
                        0 <= i < b@.len() && b@[i].id == id@ && bucket@ =~= b@.remove(i);
                    lemma_remove_multiset(b@, i, bucket@);
                    assert forall|p: int, q: int| 0 <= p < q < bucket@.len() implies bucket@[p].id
                        != bucket@[q].id by {
                        if q < i {
                            assert(bucket@[p] == b@[p] && bucket@[q] == b@[q]);
                        } else if p < i {
                            assert(bucket@[p] == b@[p] && bucket@[q] == b@[q + 1]);
                        } else {
                            assert(bucket@[p] == b@[p + 1] && bucket@[q] == b@[q + 1]);
                        }
                    }
                    assert forall|j: int| 0 <= j < bucket@.len() implies rec_wf(
                        #[trigger] bucket@[j],
                        prefix,
                        owner,
                    ) by {
                        assert(b@.contains(bucket@[j]));
                        let m = choose|m: int| 0 <= m < b@.len() && b@[m] == bucket@[j];
                        assert(rec_wf(b@[m], prefix, owner));
                    }
                    assert(leaf_wf(bucket@, prefix, owner, k));
                } else {
                    assert(bucket@ =~= b@);
                    assert(bucket@.to_multiset() == b@.to_multiset());
                }
            }
            (BucketTreeNode::Bucket(bucket), hit)
        },
        BucketTreeNode::Compound(n0, n1) => {
            proof {
                assert(depth < owner.len() * 8);
            }
            let bit = id.get_bit(depth);
            let ghost r0 = n0.records();
            let ghost r1 = n1.records();
            if bit.unwrap() {
                proof {
                    lemma_bits_prefix_extend(id@, prefix, true);
                }
                let r2 = remove_node(
                    *n1,
                    id,
                    depth + 1,
                    Ghost(prefix.push(true)),
                    Ghost(owner),
                    Ghost(k),
                );
                let node2 = BucketTreeNode::Compound(n0, Box::new(r2.0));
                proof {
                    broadcast use vstd::multiset::group_multiset_axioms;

                    assert(node2.records() == r0 + r2.0.records());
                    vstd::seq_lib::lemma_multiset_commutative(r0, r2.0.records());
                    vstd::seq_lib::lemma_multiset_commutative(r0, r1);
                    crate::bucket::lemma_has_id_add(r0, r1, id@);
                    if has_id(r0, id@) {
                        lemma_wf_records(*n0, prefix.push(false), owner, k);
                        let i = choose|i: int| 0 <= i < r0.len() && r0[i].id == id@;
                        lemma_bits_prefix_push(r0[i].id, prefix, false);
                        assert(false);
                    }
                    if r2.1 {
                        let prev = choose|prev: RecView|
                            #![auto]
                            r1.to_multiset().contains(prev) && prev.id == id@
                                && r2.0.records().to_multiset() =~= r1.to_multiset().remove(prev);
                        assert(node.records().to_multiset().contains(prev));
                        assert(node2.records().to_multiset() =~= node.records().to_multiset().remove(
                            prev,
                        ));
                    } else {
                        assert(node2.records().to_multiset() =~= node.records().to_multiset());
                    }
                }
                (node2, r2.1)
            } else {
                proof {
                    lemma_bits_prefix_extend(id@, prefix, false);
                }
                let r2 = remove_node(
                    *n0,
                    id,
                    depth + 1,
                    Ghost(prefix.push(false)),
                    Ghost(owner),
                    Ghost(k),
                );
                let node2 = BucketTreeNode::Compound(Box::new(r2.0), n1);
                proof {
                    broadcast use vstd::multiset::group_multiset_axioms;

                    assert(node2.records() == r2.0.records() + r1);
                    vstd::seq_lib::lemma_multiset_commutative(r2.0.records(), r1);
                    vstd::seq_lib::lemma_multiset_commutative(r0, r1);
                    crate::bucket::lemma_has_id_add(r0, r1, id@);
                    if has_id(r1, id@) {
                        lemma_wf_records(*n1, prefix.push(true), owner, k);
                        let i = choose|i: int| 0 <= i < r1.len() && r1[i].id == id@;
                        lemma_bits_prefix_push(r1[i].id, prefix, true);
                        assert(false);
                    }
                    if r2.1 {
                        let prev = choose|prev: RecView|
                            #![auto]
                            r0.to_multiset().contains(prev) && prev.id == id@
                                && r2.0.records().to_multiset() =~= r0.to_multiset().remove(prev);
                        assert(node.records().to_multiset().contains(prev));
                        assert(node2.records().to_multiset() =~= node.records().to_multiset().remove(
                            prev,
                        ));
                    } else {
                        assert(node2.records().to_multiset() =~= node.records().to_multiset());
                    }
                }
                (node2, r2.1)
            }
        },
    }
}

/// Clones of all records below a node, leaves read left to right.
fn collect_node(node: &BucketTreeNode) -> (r: Vec<NodeInfo>)
    ensures
        views_of(r@) =~= node.records(),
    decreases node,
{
    match node {
        BucketTreeNode::Bucket(b) => b.to_vec(),
        BucketTreeNode::Compound(n0, n1) => {
            let mut v0 = collect_node(n0);
            let mut v1 = collect_node(n1);
            let ghost g0 = v0@;
            let ghost g1 = v1@;
            v0.append(&mut v1);
            proof {
                assert(views_of(g0 + g1) =~= views_of(g0) + views_of(g1));
                assert(views_of(v0@) =~= node.records());
            }
            v0
        },
    }
}

/// The routing trie itself: a bucket capacity and a root node. It starts
/// as one empty leaf covering the whole identifier space.
pub struct BucketTree {
    size: u32,
    root: BucketTreeNode,
}

impl BucketTree {
    /// The capacity every leaf bucket is bounded by.
    pub closed spec fn k(self) -> u32 {
        self.size
    }

    /// All records the trie holds, leaves read left to right.
    pub closed spec fn records(self) -> Seq<RecView> {
        self.root.records()
    }

    /// The records of the leaf that `id` routes to from the root.
    pub closed spec fn routed(self, id: Seq<u8>) -> Seq<RecView> {
        self.root.routed(id, 0)
    }

    /// Well-formedness of the whole trie for the table owned by `owner`.
    pub closed spec fn wf(self, owner: Seq<u8>) -> bool {
        1 <= self.size && self.root.wf(Seq::empty(), owner, self.size as nat)
    }

    /// A trie of one empty leaf; it is well formed for every owner.
    pub fn new(size: u32) -> (r: BucketTree)
        requires
            1 <= size,
        ensures
            r.k() == size,
            r.records() =~= Seq::<RecView>::empty(),
            forall|o: Seq<u8>| #[trigger] r.wf(o),
    {
        let t = BucketTree { size, root: BucketTreeNode::Bucket(Bucket::new()) };
        proof {
            assert forall|o: Seq<u8>| #[trigger] t.wf(o) by {
                assert(leaf_wf(Seq::<RecView>::empty(), Seq::<bool>::empty(), o, size as nat));
                assert(t.root.wf(Seq::empty(), o, size as nat));
            }
            assert(t.records() =~= Seq::<RecView>::empty());
        }
        t
    }

    /// The capacity the trie was built with.
    pub fn bucket_size(&self) -> (r: u32)
        ensures
            r == self.k(),
    {
        self.size
    }

    /// The bucket owning the region that `id` falls in.
    pub fn find_bucket<'a>(&'a self, id: &NodeId, Ghost(owner): Ghost<Seq<u8>>) -> (r: &'a Bucket)
        requires
            self.wf(owner),
            id@.len() == owner.len(),
            owner.len() <= MAX_ID_BYTES,
        ensures
            r@ == self.routed(id@),
            r@.len() <= self.k(),
    {
        proof {
            assert(bits_prefix(id@, Seq::<bool>::empty()));
        }
        self.root.find_bucket(id, 0, Ghost(Seq::empty()), Ghost(owner), Ghost(self.size as nat))
    }

    /// Route one seen record to its leaf and apply the freshness rule,
    /// splitting along the owner's path as required.
    pub(crate) fn see_in<P: LivenessProber>(
        &mut self,
        owner: &NodeId,
        info: &NodeInfo,
        prober: &mut P,
        timeout_ms: u64,
    ) -> (o: Outcome)
        requires
            old(self).wf(owner@),
            owner@.len() <= MAX_ID_BYTES,
            info.id@.len() == owner@.len(),
            info.id@ != owner@,
        ensures
            final(self).wf(owner@),
            final(self).k() == old(self).k(),
            see_transition(
                old(self).records().to_multiset(),
                final(self).records().to_multiset(),
                info@,
                o,
            ),
            (o == Outcome::Updated <==> has_id(old(self).records(), info.id@)),
            !has_id(old(self).records(), info.id@) && old(self).routed(info.id@).len() < old(
                self,
            ).k() ==> o == Outcome::Inserted,
            (o == Outcome::EvictedInserted || o == Outcome::Discarded) ==> old(self).routed(
                info.id@,
            ).len() == old(self).k(),
            o != Outcome::Discarded ==> final(self).routed(info.id@).len() > 0
                && final(self).routed(info.id@).last() == info@,
    {
        let k = self.size;
        let mut root = BucketTreeNode::Bucket(Bucket::new());
        core::mem::swap(&mut root, &mut self.root);
        proof {
            assert(bits_prefix(info.id@, Seq::<bool>::empty()));
            assert(bits_prefix(owner@, Seq::<bool>::empty()));
        }
        let r = see_node(
            root,
            0,
            owner,
            true,
            info,
            k as usize,
            prober,
            timeout_ms,
            Ghost(Seq::<bool>::empty()),
        );
        self.root = r.0;
        r.1
    }

    /// Route an identifier to its leaf and remove its record there.
    pub(crate) fn remove_in(&mut self, id: &NodeId, Ghost(owner): Ghost<Seq<u8>>) -> (r: bool)
        requires
            old(self).wf(owner),
            owner.len() <= MAX_ID_BYTES,
            id@.len() == owner.len(),
        ensures
            final(self).wf(owner),
            final(self).k() == old(self).k(),
            r == has_id(old(self).records(), id@),
            r ==> exists|prev: RecView|
                #![auto]
                old(self).records().to_multiset().contains(prev) && prev.id == id@
                    && final(self).records().to_multiset() =~= old(
                    self,
                ).records().to_multiset().remove(prev),
            !r ==> final(self).records().to_multiset() =~= old(self).records().to_multiset(),
    {
        let mut root = BucketTreeNode::Bucket(Bucket::new());
        core::mem::swap(&mut root, &mut self.root);
        proof {
            assert(bits_prefix(id@, Seq::<bool>::empty()));
        }
        let r = remove_node(root, id, 0, Ghost(Seq::empty()), Ghost(owner), Ghost(self.size as nat));
        self.root = r.0;
        r.1
    }

    /// Clones of everything the trie holds.
    pub(crate) fn collect(&self) -> (r: Vec<NodeInfo>)
        ensures
            views_of(r@) =~= self.records(),
    {
        collect_node(&self.root)
    }
}

/// What well-formedness gives of the trie's whole stock: no identifier
/// appears twice anywhere in the trie, every stored identifier has the
/// owner's width, and the owner's own identifier is never stored.
pub proof fn lemma_tree_records(t: BucketTree, owner: Seq<u8>)
    requires
        t.wf(owner),
    ensures
        no_dup_ids(t.records()),
        forall|i: int|
            0 <= i < t.records().len() ==> (#[trigger] t.records()[i]).id.len() == owner.len()
                && t.records()[i].id != owner,
{
    lemma_wf_records(t.root, Seq::empty(), owner, t.size as nat);
}

/// Every leaf of a well-formed node is bounded by the capacity: whatever
/// identifier one routes by, the leaf reached holds at most `k` records.
proof fn lemma_routed_bounded(
    node: BucketTreeNode,
    prefix: Seq<bool>,
    owner: Seq<u8>,
    k: nat,
    id: Seq<u8>,
    depth: int,
)
    requires
        node.wf(prefix, owner, k),
    ensures
        node.routed(id, depth).len() <= k,
    decreases node,
{
    match node {
        BucketTreeNode::Bucket(b) => {},
        BucketTreeNode::Compound(n0, n1) => {
            if id_bit(id, depth) {
                lemma_routed_bounded(*n1, prefix.push(true), owner, k, id, depth + 1);
            } else {
                lemma_routed_bounded(*n0, prefix.push(false), owner, k, id, depth + 1);
            }
        },
    }
}

/// A leaf's records are among the subtree's records: routing can only
/// narrow what is seen.
proof fn lemma_routed_within(node: BucketTreeNode, id: Seq<u8>, depth: int)
    ensures
        node.routed(id, depth).len() <= node.records().len(),
    decreases node,
{
    match node {
        BucketTreeNode::Bucket(b) => {},
        BucketTreeNode::Compound(n0, n1) => {
            lemma_routed_within(*n0, id, depth + 1);
            lemma_routed_within(*n1, id, depth + 1);
        },
    }
}

/// The leaf any identifier routes to holds no more records than the
/// whole trie.
pub proof fn lemma_routed_le_records(t: BucketTree, id: Seq<u8>)
    ensures
        t.routed(id).len() <= t.records().len(),
{
    lemma_routed_within(t.root, id, 0);
}

/// Capacity is a trie-wide invariant: in a well-formed trie the leaf any
/// identifier routes to holds at most the bucket capacity, so no sequence
/// of `see` calls, each of which leaves the trie well formed, ever grows
/// a leaf past it.
pub proof fn lemma_every_leaf_bounded(t: BucketTree, owner: Seq<u8>, id: Seq<u8>)
    requires
        t.wf(owner),
    ensures
        t.routed(id).len() <= t.k(),
{
    lemma_routed_bounded(t.root, Seq::empty(), owner, t.size as nat, id, 0);
}

} // verus!
