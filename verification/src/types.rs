//! Fixed-width protocol identifiers and their canonical order.

use vstd::prelude::*;

verus! {

/// Keys with a strict total order that executable code can decide.
pub trait OrderedKey: Copy + Sized {
    /// The strict order on keys.
    spec fn precedes(self, other: Self) -> bool;

    /// `precedes` is irreflexive, transitive and total.
    proof fn lemma_order(a: Self, b: Self, c: Self)
        ensures
            !a.precedes(a),
            a.precedes(b) && b.precedes(c) ==> a.precedes(c),
            a.precedes(b) || a == b || b.precedes(a),
    ;

    /// Decides `precedes`.
    fn less_than(&self, other: &Self) -> (r: bool)
        ensures
            r == self.precedes(*other),
    ;

    /// Decides equality.
    fn same_as(&self, other: &Self) -> (r: bool)
        ensures
            r == (*self == *other),
    ;
}

impl OrderedKey for u8 {
    open spec fn precedes(self, other: Self) -> bool {
        self < other
    }

    proof fn lemma_order(a: Self, b: Self, c: Self) {
    }

    fn less_than(&self, other: &Self) -> (r: bool) {
        *self < *other
    }

    fn same_as(&self, other: &Self) -> (r: bool) {
        *self == *other
    }
}

impl OrderedKey for u16 {
    open spec fn precedes(self, other: Self) -> bool {
        self < other
    }

    proof fn lemma_order(a: Self, b: Self, c: Self) {
    }

    fn less_than(&self, other: &Self) -> (r: bool) {
        *self < *other
    }

    fn same_as(&self, other: &Self) -> (r: bool) {
        *self == *other
    }
}

/// An absent key orders before every present one, and present keys order
/// as their values do, as `Option`'s own order has it.
impl<K: OrderedKey> OrderedKey for Option<K> {
    open spec fn precedes(self, other: Self) -> bool {
        match (self, other) {
            (None, Some(_)) => true,
            (Some(a), Some(b)) => a.precedes(b),
            _ => false,
        }
    }

    proof fn lemma_order(a: Self, b: Self, c: Self) {
        match (a, b, c) {
            (Some(x), Some(y), Some(z)) => K::lemma_order(x, y, z),
            (Some(x), Some(y), None) => K::lemma_order(x, y, x),
            (Some(x), None, _) => K::lemma_order(x, x, x),
            (None, Some(y), _) => K::lemma_order(y, y, y),
            _ => {},
        }
    }

    fn less_than(&self, other: &Self) -> (r: bool) {
        match (self, other) {
            (None, Some(_)) => true,
            (Some(a), Some(b)) => a.less_than(b),
            _ => false,
        }
    }

    fn same_as(&self, other: &Self) -> (r: bool) {
        match (self, other) {
            (None, None) => true,
            (Some(a), Some(b)) => a.same_as(b),
            _ => false,
        }
    }
}

/// Values whose equality executable code can decide.
pub trait SameValue: Sized {
    /// Decides equality.
    fn same_value(&self, other: &Self) -> (r: bool)
        ensures
            r == (*self == *other),
    ;
}

impl SameValue for u8 {
    fn same_value(&self, other: &Self) -> (r: bool) {
        *self == *other
    }
}

impl SameValue for u32 {
    fn same_value(&self, other: &Self) -> (r: bool) {
        *self == *other
    }
}

impl SameValue for u64 {
    fn same_value(&self, other: &Self) -> (r: bool) {
        *self == *other
    }
}

impl OrderedKey for u64 {
    open spec fn precedes(self, other: Self) -> bool {
        self < other
    }

    proof fn lemma_order(a: Self, b: Self, c: Self) {
    }

    fn less_than(&self, other: &Self) -> (r: bool) {
        *self < *other
    }

    fn same_as(&self, other: &Self) -> (r: bool) {
        *self == *other
    }
}

} // verus!

verus! {

/// The big-endian value of the eight bytes of `b` starting at `start`.
pub open spec fn be_word(b: Seq<u8>, start: int) -> int {
    b[start] * 0x100_0000_0000_0000 + b[start + 1] * 0x1_0000_0000_0000 + b[start + 2]
        * 0x100_0000_0000 + b[start + 3] * 0x1_0000_0000 + b[start + 4] * 0x100_0000 + b[start
        + 5] * 0x1_0000 + b[start + 6] * 0x100 + b[start + 7]
}

/// A 32-byte protocol identifier (change hash, event id, actor or key).
///
/// The bytes are held as four big-endian words, so the order on words is the
/// lexicographic order of the decoded bytes.
#[derive(Clone, Copy, Debug, PartialEq, Eq, Structural, PartialOrd, Ord, Hash)]
pub struct Digest32 {
    pub w0: u64,
    pub w1: u64,
    pub w2: u64,
    pub w3: u64,
}

/// A change hash.
pub type ChangeHash = Digest32;

/// A NIP-01 event identifier.
pub type EventId = Digest32;

/// An Automerge actor identifier.
pub type ActorId = Digest32;

/// A device public key.
pub type DevicePublicKey = Digest32;

fn be_word_exec(bytes: &[u8; 32], start: usize) -> (w: u64)
    requires
        start + 8 <= 32,
    ensures
        w == be_word(bytes@, start as int),
{
    let b0 = bytes[start] as u64;
    let b1 = bytes[start + 1] as u64;
    let b2 = bytes[start + 2] as u64;
    let b3 = bytes[start + 3] as u64;
    let b4 = bytes[start + 4] as u64;
    let b5 = bytes[start + 5] as u64;
    let b6 = bytes[start + 6] as u64;
    let b7 = bytes[start + 7] as u64;
    b0 * 0x100_0000_0000_0000 + b1 * 0x1_0000_0000_0000 + b2 * 0x100_0000_0000 + b3 * 0x1_0000_0000
        + b4 * 0x100_0000 + b5 * 0x1_0000 + b6 * 0x100 + b7
}

impl Digest32 {
    /// The identifier's words, most significant first.
    pub open spec fn words(self) -> (int, int, int, int) {
        (self.w0 as int, self.w1 as int, self.w2 as int, self.w3 as int)
    }

    /// The identifier decoded from `bytes`.
    pub open spec fn spec_from_bytes(bytes: Seq<u8>) -> (int, int, int, int) {
        (be_word(bytes, 0), be_word(bytes, 8), be_word(bytes, 16), be_word(bytes, 24))
    }

    /// Decodes an identifier from its 32 big-endian bytes.
    pub fn from_bytes(bytes: [u8; 32]) -> (d: Self)
        ensures
            d.words() == Self::spec_from_bytes(bytes@),
    {
        Digest32 {
            w0: be_word_exec(&bytes, 0),
            w1: be_word_exec(&bytes, 8),
            w2: be_word_exec(&bytes, 16),
            w3: be_word_exec(&bytes, 24),
        }
    }
}

impl OrderedKey for Digest32 {
    open spec fn precedes(self, other: Self) -> bool {
        ||| self.w0 < other.w0
        ||| self.w0 == other.w0 && self.w1 < other.w1
        ||| self.w0 == other.w0 && self.w1 == other.w1 && self.w2 < other.w2
        ||| self.w0 == other.w0 && self.w1 == other.w1 && self.w2 == other.w2 && self.w3 < other.w3
    }

    proof fn lemma_order(a: Self, b: Self, c: Self) {
    }

    fn less_than(&self, other: &Self) -> (r: bool) {
        if self.w0 != other.w0 {
            self.w0 < other.w0
        } else if self.w1 != other.w1 {
            self.w1 < other.w1
        } else if self.w2 != other.w2 {
            self.w2 < other.w2
        } else {
            self.w3 < other.w3
        }
    }

    fn same_as(&self, other: &Self) -> (r: bool) {
        self.w0 == other.w0 && self.w1 == other.w1 && self.w2 == other.w2 && self.w3 == other.w3
    }
}

} // verus!

verus! {

/// The protocol outcome recorded for a change or control.
#[derive(Clone, Copy, Debug, PartialEq, Eq, Structural, Hash)]
pub enum ProtocolDisposition {
    /// Accepted into the canonical document.
    Accepted,
    /// Waiting for missing evidence.
    Pending,
    /// Invalid under the protocol rules.
    Invalid,
    /// Valid in isolation but outside the canonical selection.
    Excluded,
    /// Written under an unsupported protocol revision.
    UnsupportedRevision,
}

impl SameValue for ProtocolDisposition {
    fn same_value(&self, other: &Self) -> (r: bool) {
        *self == *other
    }
}

/// An exact copy of a vector of identifiers.
pub fn copy_digests(v: &Vec<Digest32>) -> (c: Vec<Digest32>)
    ensures
        c@ == v@,
{
    let mut c: Vec<Digest32> = Vec::new();
    let n = v.len();
    for i in 0..n
        invariant
            n == v@.len(),
            c@ == v@.subrange(0, i as int),
    {
        c.push(v[i]);
        assert(c@ =~= v@.subrange(0, i + 1));
    }
    assert(c@ =~= v@);
    c
}

/// Whether two identifier vectors hold the same sequence.
pub fn digests_equal(a: &Vec<Digest32>, b: &Vec<Digest32>) -> (r: bool)
    ensures
        r == (a@ == b@),
{
    if a.len() != b.len() {
        return false;
    }
    let n = a.len();
    for i in 0..n
        invariant
            n == a@.len(),
            n == b@.len(),
            forall|j: int| 0 <= j < i ==> a@[j] == b@[j],
    {
        if !a[i].same_as(&b[i]) {
            return false;
        }
    }
    assert(a@ =~= b@);
    true
}

} // verus!

verus! {

/// An actor together with one of its sequence numbers, ordered by actor first.
#[derive(Clone, Copy, Debug, PartialEq, Eq, Structural, Hash)]
pub struct ActorSequence {
    /// The actor.
    pub actor: Digest32,
    /// The sequence number.
    pub sequence: u64,
}

impl OrderedKey for ActorSequence {
    open spec fn precedes(self, other: Self) -> bool {
        ||| self.actor.precedes(other.actor)
        ||| self.actor == other.actor && self.sequence < other.sequence
    }

    proof fn lemma_order(a: Self, b: Self, c: Self) {
        Digest32::lemma_order(a.actor, b.actor, c.actor);
    }

    fn less_than(&self, other: &Self) -> (r: bool) {
        if self.actor.same_as(&other.actor) {
            self.sequence < other.sequence
        } else {
            self.actor.less_than(&other.actor)
        }
    }

    fn same_as(&self, other: &Self) -> (r: bool) {
        self.actor.same_as(&other.actor) && self.sequence == other.sequence
    }
}

} // verus!
