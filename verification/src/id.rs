//! Fixed-length node identifiers with XOR distance and bit indexing.
//!
//! An identifier is an immutable string of bytes, read as a bit string whose
//! bit 0 is the most significant bit of the first byte. The conventional
//! width is 160 bits (20 bytes), but any positive byte width is accepted so
//! that smaller identifier spaces can be built and exercised the same way.

use vstd::prelude::*;
use vstd::slice::slice_to_vec;

verus! {

/// Conventional identifier width in bytes.
pub const NODE_ID_BYTES: usize = 20;

/// Conventional identifier width in bits.
pub const NODE_ID_BITS: usize = 160;

/// Largest identifier byte width for which a bit count still fits in `usize`.
pub const MAX_ID_BYTES: usize = 0x0fff_ffff;

/// Why an identifier could not be constructed.
#[derive(Clone, Copy, PartialEq, Eq, Structural, Debug)]
pub enum IdError {
    /// The byte slice handed to a constructor has the wrong length.
    LengthMismatch,
    /// The system's randomness source yielded no bytes.
    EntropyUnavailable,
}

/// The `j`-th bit of byte `b`, counting bit 0 as the most significant.
pub open spec fn byte_bit(b: u8, j: int) -> bool {
    b & (1u8 << ((7 - j) as u8)) != 0
}

/// The `i`-th bit of the byte string `s`, counting bit 0 as the most
/// significant bit of `s[0]`.
pub open spec fn id_bit(s: Seq<u8>, i: int) -> bool {
    byte_bit(s[i / 8], i % 8)
}

/// Bytewise XOR of two equal-length byte strings.
pub open spec fn xor_bytes(a: Seq<u8>, b: Seq<u8>) -> Seq<u8> {
    Seq::new(a.len(), |i: int| a[i] ^ b[i])
}

/// The all-zero byte string of the given length.
pub open spec fn zero_bytes(len: nat) -> Seq<u8> {
    Seq::new(len, |i: int| 0u8)
}

/// A fixed-length identifier naming a node or a lookup target.
#[derive(Debug)]
pub struct NodeId {
    id: Vec<u8>,
}

impl View for NodeId {
    type V = Seq<u8>;

    closed spec fn view(&self) -> Seq<u8> {
        self.id@
    }
}

impl NodeId {
    /// The all-zero identifier of the given byte width.
    pub fn new(num_bytes: usize) -> (r: NodeId)
        ensures
            r@ =~= zero_bytes(num_bytes as nat),
    {
        let mut v: Vec<u8> = Vec::new();
        let mut i: usize = 0;
        while i < num_bytes
            invariant
                i <= num_bytes,
                v@.len() == i,
                forall|j: int| 0 <= j < i ==> v@[j] == 0u8,
            decreases num_bytes - i,
        {
            v.push(0u8);
            i = i + 1;
        }
        NodeId { id: v }
    }

    /// The all-zero identifier of the conventional width.
    pub fn new_default() -> (r: NodeId)
        ensures
            r@ =~= zero_bytes(NODE_ID_BYTES as nat),
    {
        NodeId::new(NODE_ID_BYTES)
    }

    /// An identifier read from a byte slice of the given width.
    pub fn from_bytes_sized(bytes: &[u8], num_bytes: usize) -> (r: Result<NodeId, IdError>)
        ensures
            bytes@.len() == num_bytes ==> (r matches Ok(n) && n@ == bytes@),
            bytes@.len() != num_bytes ==> (r matches Err(e) && e == IdError::LengthMismatch),
    {
        if bytes.len() == num_bytes {
            Ok(NodeId { id: slice_to_vec(bytes) })
        } else {
            Err(IdError::LengthMismatch)
        }
    }

    /// An identifier read from a byte slice of the conventional width.
    pub fn from_bytes(bytes: &[u8]) -> (r: Result<NodeId, IdError>)
        ensures
            bytes@.len() == NODE_ID_BYTES ==> (r matches Ok(n) && n@ == bytes@),
            bytes@.len() != NODE_ID_BYTES ==> (r matches Err(e) && e == IdError::LengthMismatch),
    {
        NodeId::from_bytes_sized(bytes, NODE_ID_BYTES)
    }

    /// A fresh identifier of the given byte width drawn from the system's
    /// randomness source; nothing is known of the bytes themselves.
    pub fn new_random(num_bytes: usize) -> (r: Result<NodeId, IdError>)
        ensures
            r matches Ok(n) ==> n@.len() == num_bytes,
            r matches Err(e) ==> e == IdError::EntropyUnavailable,
    {
        match sys_random_bytes(num_bytes) {
            Ok(v) => Ok(NodeId { id: v }),
            Err(_) => Err(IdError::EntropyUnavailable),
        }
    }

    /// A fresh random identifier of the conventional width.
    pub fn new_random_default() -> (r: Result<NodeId, IdError>)
        ensures
            r matches Ok(n) ==> n@.len() == NODE_ID_BYTES,
            r matches Err(e) ==> e == IdError::EntropyUnavailable,
    {
        NodeId::new_random(NODE_ID_BYTES)
    }

    /// The identifier's width in bytes.
    pub fn num_bytes(&self) -> (r: usize)
        ensures
            r == self@.len(),
    {
        self.id.len()
    }

    /// The identifier's width in bits.
    pub fn num_bits(&self) -> (r: usize)
        requires
            self@.len() <= MAX_ID_BYTES,
        ensures
            r == self@.len() * 8,
    {
        self.id.len() * 8
    }

    /// The `i`-th byte, counting from the most significant.
    pub fn byte(&self, i: usize) -> (r: u8)
        requires
            i < self@.len(),
        ensures
            r == self@[i as int],
    {
        self.id[i]
    }

    /// The `i`-th bit, counting from the most significant; `None` when `i`
    /// is at or past the identifier's width.
    pub fn get_bit(&self, i: usize) -> (r: Option<bool>)
        ensures
            r is Some <==> i < self@.len() * 8,
            r matches Some(b) ==> b == id_bit(self@, i as int),
    {
        let q = i / 8;
        if q >= self.id.len() {
            proof {
                assert(i >= self@.len() * 8) by (nonlinear_arith)
                    requires
                        q == i / 8,
                        q >= self@.len(),
                        i >= 0,
                {};
            }
            None
        } else {
            proof {
                assert(i < self@.len() * 8) by (nonlinear_arith)
                    requires
                        q == i / 8,
                        q < self@.len(),
                        i >= 0,
                {};
            }
            let byte = self.id[q];
            let sh = 7 - (i % 8);
            let mask: u8 = 1u8 << sh;
            Some((byte & mask) != 0)
        }
    }

    /// Bitwise XOR with another identifier of the same width: the distance
    /// between the two in the identifier space.
    pub fn xor_distance(&self, other: &NodeId) -> (r: NodeId)
        requires
            self@.len() == other@.len(),
        ensures
            r@ =~= xor_bytes(self@, other@),
    {
        let n = self.id.len();
        let mut v: Vec<u8> = Vec::new();
        let mut i: usize = 0;
        while i < n
            invariant
                i <= n,
                n == self@.len(),
                self@.len() == other@.len(),
                v@.len() == i,
                forall|j: int| 0 <= j < i ==> v@[j] == (self@[j] ^ other@[j]),
            decreases n - i,
        {
            let x = self.id[i] ^ other.id[i];
            v.push(x);
            i = i + 1;
        }
        NodeId { id: v }
    }

    /// The number of leading zero bits, as `Some(count)`; `None` for the
    /// all-zero identifier, whose distance-to-depth rank is undefined.
    pub fn num_prefix_zeroes(&self) -> (r: Option<usize>)
        requires
            self@.len() <= MAX_ID_BYTES,
        ensures
            r is None <==> (forall|j: int| 0 <= j < self@.len() * 8 ==> !id_bit(self@, j)),
            r matches Some(x)
                ==> x < self@.len() * 8 && id_bit(self@, x as int)
                    && (forall|j: int| 0 <= j < x ==> !id_bit(self@, j)),
    {
        let n_bits = self.num_bits();
        let mut i: usize = 0;
        while i < n_bits
            invariant
                i <= n_bits,
                n_bits == self@.len() * 8,
                self@.len() <= MAX_ID_BYTES,
                forall|j: int| 0 <= j < i ==> !id_bit(self@, j),
            decreases n_bits - i,
        {
            let b = self.get_bit(i);
            if b.unwrap() {
                return Some(i);
            }
            i = i + 1;
        }
        None
    }
}

impl Clone for NodeId {
    /// A copy with the same bytes.
    fn clone(&self) -> (r: Self)
        ensures
            r@ == self@,
    {
        NodeId { id: clone_bytes(&self.id) }
    }
}

impl PartialEq for NodeId {
    fn eq(&self, other: &NodeId) -> (r: bool) {
        let r = self.id == other.id;
        proof {
            if r {
                assert(self.id@ =~= other.id@);
            }
        }
        r
    }
}

impl Eq for NodeId {}

impl vstd::std_specs::cmp::PartialEqSpecImpl for NodeId {
    open spec fn obeys_eq_spec() -> bool {
        true
    }

    open spec fn eq_spec(&self, other: &NodeId) -> bool {
        self@ == other@
    }
}

/// A byte-for-byte copy of a byte vector.
fn clone_bytes(v: &Vec<u8>) -> (r: Vec<u8>)
    ensures
        r@ =~= v@,
{
    let mut out: Vec<u8> = Vec::new();
    let mut i: usize = 0;
    while i < v.len()
        invariant
            i <= v@.len(),
            out@.len() == i,
            forall|j: int| 0 <= j < i ==> out@[j] == v@[j],
        decreases v@.len() - i,
    {
        out.push(v[i]);
        i = i + 1;
    }
    out
}

/// Declares rand's randomness-source error type, opaque to the verifier;
/// values of it are only ever mapped to `IdError::EntropyUnavailable`.
#[verifier::external_type_specification]
#[verifier::external_body]
pub struct ExSysError(rand::rngs::SysError);

/// Relies on rand's operating-system randomness source: `rand::rngs::SysRng`
/// through `rand::TryRng::try_fill_bytes`, which on success fills the whole
/// buffer it is handed and leaves its length unchanged. Nothing is promised
/// of the bytes themselves.
#[verifier::external_body]
fn sys_random_bytes(num_bytes: usize) -> (r: Result<Vec<u8>, rand::rngs::SysError>)
    ensures
        r matches Ok(v) ==> v@.len() == num_bytes,
{
    let mut buf = vec![0u8; num_bytes];
    match rand::TryRng::try_fill_bytes(&mut rand::rngs::SysRng, &mut buf) {
        Ok(()) => Ok(buf),
        Err(e) => Err(e),
    }
}

/// XOR distance is symmetric, and the distance of an identifier to itself
/// is the all-zero value.
pub proof fn lemma_xor_distance_symmetric(a: Seq<u8>, b: Seq<u8>)
    requires
        a.len() == b.len(),
    ensures
        xor_bytes(a, b) == xor_bytes(b, a),
        xor_bytes(a, a) == zero_bytes(a.len()),
{
    assert(forall|x: u8, y: u8| #[trigger] (x ^ y) == (y ^ x)) by (bit_vector);
    assert(forall|x: u8| #[trigger] (x ^ x) == 0u8) by (bit_vector);
    assert(xor_bytes(a, b) =~= xor_bytes(b, a));
    assert(xor_bytes(a, a) =~= zero_bytes(a.len()));
}

} // verus!
