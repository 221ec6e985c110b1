//! Ordering identifiers by XOR distance to a fixed target.
//!
//! An XOR distance is itself an identifier-width byte string; read as a
//! big-endian magnitude, distances compare lexicographically byte by byte.
//! Toward a fixed target this order is total, and strict between distinct
//! identifiers: equal distances force equal identifiers.

use vstd::prelude::*;
use crate::id::{NodeId, xor_bytes};
use crate::info::RecView;

verus! {

/// Lexicographic at-most between byte strings read as big-endian
/// magnitudes; an exhausted string counts as smallest.
pub open spec fn lex_le(x: Seq<u8>, y: Seq<u8>) -> bool
    decreases x.len(),
{
    if x.len() == 0 || y.len() == 0 {
        true
    } else if x.first() != y.first() {
        x.first() < y.first()
    } else {
        lex_le(x.drop_first(), y.drop_first())
    }
}

/// Whether `a` is at most as far from `t` as `b` is.
pub open spec fn dist_le(a: Seq<u8>, b: Seq<u8>, t: Seq<u8>) -> bool {
    lex_le(xor_bytes(a, t), xor_bytes(b, t))
}

/// Records ordered by non-decreasing XOR distance to `t`.
pub open spec fn dist_sorted(s: Seq<RecView>, t: Seq<u8>) -> bool {
    forall|i: int, j: int| 0 <= i < j < s.len() ==> dist_le(s[i].id, s[j].id, t)
}

/// The lexicographic order is total.
pub proof fn lemma_lex_total(x: Seq<u8>, y: Seq<u8>)
    ensures
        lex_le(x, y) || lex_le(y, x),
    decreases x.len(),
{
    if x.len() == 0 || y.len() == 0 {
    } else if x.first() != y.first() {
    } else {
        lemma_lex_total(x.drop_first(), y.drop_first());
    }
}

/// The lexicographic order is transitive on equal-length strings.
pub proof fn lemma_lex_trans(x: Seq<u8>, y: Seq<u8>, z: Seq<u8>)
    requires
        x.len() == y.len(),
        y.len() == z.len(),
        lex_le(x, y),
        lex_le(y, z),
    ensures
        lex_le(x, z),
    decreases x.len(),
{
    if x.len() == 0 {
    } else if x.first() == y.first() && y.first() == z.first() {
        lemma_lex_trans(x.drop_first(), y.drop_first(), z.drop_first());
    }
}

/// Two equal-length strings that are each at most the other are equal.
pub proof fn lemma_lex_antisym(x: Seq<u8>, y: Seq<u8>)
    requires
        x.len() == y.len(),
        lex_le(x, y),
        lex_le(y, x),
    ensures
        x == y,
    decreases x.len(),
{
    if x.len() == 0 {
        assert(x =~= y);
    } else {
        assert(x.first() == y.first());
        lemma_lex_antisym(x.drop_first(), y.drop_first());
        assert forall|i: int| 0 <= i < x.len() implies x[i] == y[i] by {
            if i > 0 {
                assert(x.drop_first()[i - 1] == y.drop_first()[i - 1]);
            }
        }
        assert(x =~= y);
    }
}

/// Toward one target the distance order is strict between distinct
/// identifiers: two identifiers each at most as far as the other are the
/// same identifier, because XOR against the target cancels.
pub proof fn lemma_dist_antisym(a: Seq<u8>, b: Seq<u8>, t: Seq<u8>)
    requires
        a.len() == t.len(),
        b.len() == t.len(),
        dist_le(a, b, t),
        dist_le(b, a, t),
    ensures
        a == b,
{
    lemma_lex_antisym(xor_bytes(a, t), xor_bytes(b, t));
    assert(forall|p: u8, q: u8| #![auto] (p ^ q) ^ q == p) by (bit_vector);
    assert forall|i: int| 0 <= i < a.len() implies a[i] == b[i] by {
        assert(xor_bytes(a, t)[i] == (a[i] ^ t[i]));
        assert(xor_bytes(b, t)[i] == (b[i] ^ t[i]));
        assert((a[i] ^ t[i]) ^ t[i] == a[i]);
        assert((b[i] ^ t[i]) ^ t[i] == b[i]);
    }
    assert(a =~= b);
}

/// Toward one target the distance order is total.
pub proof fn lemma_dist_total(a: Seq<u8>, b: Seq<u8>, t: Seq<u8>)
    ensures
        dist_le(a, b, t) || dist_le(b, a, t),
{
    lemma_lex_total(xor_bytes(a, t), xor_bytes(b, t));
}

/// Toward one target the distance order is transitive for identifiers of
/// the target's width.
pub proof fn lemma_dist_trans(a: Seq<u8>, b: Seq<u8>, c: Seq<u8>, t: Seq<u8>)
    requires
        a.len() == t.len(),
        b.len() == t.len(),
        c.len() == t.len(),
        dist_le(a, b, t),
        dist_le(b, c, t),
    ensures
        dist_le(a, c, t),
{
    lemma_lex_trans(xor_bytes(a, t), xor_bytes(b, t), xor_bytes(c, t));
}

/// Skipping an agreeing prefix does not change the comparison.
proof fn lemma_lex_skip(x: Seq<u8>, y: Seq<u8>, i: int)
    requires
        x.len() == y.len(),
        0 <= i <= x.len(),
        forall|j: int| 0 <= j < i ==> x[j] == y[j],
    ensures
        lex_le(x, y) == lex_le(x.skip(i), y.skip(i)),
    decreases i,
{
    if i == 0 {
        assert(x.skip(0) =~= x);
        assert(y.skip(0) =~= y);
    } else {
        assert(x.first() == y.first());
        assert(x.drop_first() =~= x.skip(1));
        assert(y.drop_first() =~= y.skip(1));
        assert(x.skip(1).len() == y.skip(1).len());
        assert(forall|j: int| 0 <= j < i - 1 ==> x.skip(1)[j] == y.skip(1)[j]);
        lemma_lex_skip(x.skip(1), y.skip(1), i - 1);
        assert(x.skip(1).skip(i - 1) =~= x.skip(i));
        assert(y.skip(1).skip(i - 1) =~= y.skip(i));
    }
}

/// Whether `a` is at most as far from the target `t` as `b` is, compared
/// as big-endian XOR distances.
pub fn dist_le_exec(a: &NodeId, b: &NodeId, t: &NodeId) -> (r: bool)
    requires
        a@.len() == t@.len(),
        b@.len() == t@.len(),
    ensures
        r == dist_le(a@, b@, t@),
{
    let ghost x = xor_bytes(a@, t@);
    let ghost y = xor_bytes(b@, t@);
    let n = t.num_bytes();
    let mut i: usize = 0;
    while i < n
        invariant
            i <= n,
            n == t@.len(),
            a@.len() == t@.len(),
            b@.len() == t@.len(),
            x == xor_bytes(a@, t@),
            y == xor_bytes(b@, t@),
            forall|j: int| 0 <= j < i ==> x[j] == y[j],
        decreases n - i,
    {
        let ax = a.byte(i) ^ t.byte(i);
        let bx = b.byte(i) ^ t.byte(i);
        if ax != bx {
            proof {
                lemma_lex_skip(x, y, i as int);
                assert(x.skip(i as int).first() == x[i as int]);
                assert(y.skip(i as int).first() == y[i as int]);
                assert(x[i as int] == ax && y[i as int] == bx);
            }
            return ax < bx;
        }
        i = i + 1;
    }
    proof {
        lemma_lex_skip(x, y, n as int);
        assert(x.skip(n as int).len() == 0);
    }
    true
}

} // verus!
