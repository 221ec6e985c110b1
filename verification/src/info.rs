//! Peer records: an identifier paired with the network address it was last
//! seen from.

use vstd::prelude::*;
use crate::id::NodeId;

verus! {

/// A plain network address: an IPv4 host address and a UDP port.
#[derive(Clone, Copy, PartialEq, Eq, Structural, Debug)]
pub struct NodeAddr {
    pub ip: u32,
    pub port: u16,
}

/// What one peer record holds, as mathematical values.
#[verifier::ext_equal]
pub ghost struct RecView {
    pub id: Seq<u8>,
    pub addr: NodeAddr,
}

/// A peer record. The address may be updated in place when the peer is
/// re-seen from a new address; the identifier is immutable once recorded.
pub struct NodeInfo {
    pub id: NodeId,
    pub address: NodeAddr,
}

impl View for NodeInfo {
    type V = RecView;

    open spec fn view(&self) -> RecView {
        RecView { id: self.id@, addr: self.address }
    }
}

impl Clone for NodeInfo {
    /// A copy holding the same identifier and address.
    fn clone(&self) -> (r: Self)
        ensures
            r@ == self@,
    {
        NodeInfo { id: self.id.clone(), address: self.address }
    }
}

/// Whether some record in `s` carries the identifier `id`.
pub open spec fn has_id(s: Seq<RecView>, id: Seq<u8>) -> bool {
    exists|i: int| 0 <= i < s.len() && s[i].id == id
}

/// Whether no two records in `s` carry the same identifier.
pub open spec fn no_dup_ids(s: Seq<RecView>) -> bool {
    forall|i: int, j: int| 0 <= i < j < s.len() ==> s[i].id != s[j].id
}

/// The records carried by a sequence of peer records, in order.
pub open spec fn views_of(s: Seq<NodeInfo>) -> Seq<RecView> {
    Seq::new(s.len(), |i: int| s[i]@)
}

/// Removing an entry removes its record.
pub proof fn lemma_views_of_remove(s: Seq<NodeInfo>, i: int)
    requires
        0 <= i < s.len(),
    ensures
        views_of(s.remove(i)) =~= views_of(s).remove(i),
{
}

/// Inserting an entry inserts its record.
pub proof fn lemma_views_of_insert(s: Seq<NodeInfo>, i: int, x: NodeInfo)
    requires
        0 <= i <= s.len(),
    ensures
        views_of(s.insert(i, x)) =~= views_of(s).insert(i, x@),
{
    assert forall|j: int| 0 <= j < s.len() + 1 implies views_of(s.insert(i, x))[j] == views_of(
        s,
    ).insert(i, x@)[j] by {
        if j < i {
            assert(s.insert(i, x)[j] == s[j]);
        } else if j == i {
            assert(s.insert(i, x)[j] == x);
        } else {
            assert(s.insert(i, x)[j] == s[j - 1]);
        }
    }
}

/// Truncating the entries truncates the records.
pub proof fn lemma_views_of_subrange(s: Seq<NodeInfo>, a: int, b: int)
    requires
        0 <= a <= b <= s.len(),
    ensures
        views_of(s.subrange(a, b)) =~= views_of(s).subrange(a, b),
{
}

} // verus!
