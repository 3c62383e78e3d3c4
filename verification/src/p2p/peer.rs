//! Node identity. Belongs to the session layer, never to the frame.

use vstd::prelude::*;

verus! {

/// Size of a peer identity on the wire, in payload bytes.
pub const PEER_ID_LEN: usize = 8;

/// 64-bit peer identity. The hello exchange carries it as ordinary payload
/// bytes; the 4-byte frame never does.
#[derive(Debug, Clone, Copy, Eq, PartialOrd, Ord)]
pub struct PeerId {
    bytes: [u8; PEER_ID_LEN],
}

impl View for PeerId {
    type V = Seq<u8>;

    closed spec fn view(&self) -> Seq<u8> {
        self.bytes@
    }
}

/// The identity bytes a label gives: the label's first eight bytes,
/// padded with zeros.
pub open spec fn label_bytes(label: Seq<u8>) -> Seq<u8> {
    Seq::new(8, |i: int| if i < label.len() { label[i] } else { 0u8 })
}

impl PeerId {
    /// Identity size on the wire, in payload bytes.
    pub const LEN: usize = 8;

    /// Two identities with the same bytes are the same identity.
    pub proof fn lemma_view_injective(a: PeerId, b: PeerId)
        requires
            a@ == b@,
        ensures
            a == b,
    {
        vstd::array::axiom_array_ext_equal(a.bytes, b.bytes);
        assert(a.bytes@ =~= b.bytes@);
    }

    /// Every identity is eight bytes long.
    pub proof fn lemma_len(a: PeerId)
        ensures
            a@.len() == 8,
    {
    }

    /// An identity from raw bytes.
    pub fn new(bytes: [u8; PEER_ID_LEN]) -> (p: PeerId)
        ensures
            p@ == bytes@,
    {
        PeerId { bytes }
    }

    /// An identity from a short label: its first eight bytes, zero-padded.
    pub fn from_label(label: &[u8]) -> (p: PeerId)
        ensures
            p@ == label_bytes(label@),
    {
        let mut bytes = [0u8; PEER_ID_LEN];
        let mut i: usize = 0;
        while i < PEER_ID_LEN
            invariant
                i <= 8,
                bytes@.len() == 8,
                forall|j: int| 0 <= j < i ==> bytes@[j] == label_bytes(label@)[j],
                forall|j: int| i <= j < 8 ==> bytes@[j] == 0,
            decreases 8 - i,
        {
            if i < label.len() {
                bytes[i] = label[i];
            }
            i = i + 1;
        }
        assert(bytes@ =~= label_bytes(label@));
        PeerId { bytes }
    }

    /// The raw eight bytes.
    pub fn as_bytes(&self) -> (b: [u8; PEER_ID_LEN])
        ensures
            b@ == self@,
    {
        self.bytes
    }
}

impl PartialEq for PeerId {
    fn eq(&self, other: &Self) -> (same: bool) {
        let mut i: usize = 0;
        while i < PEER_ID_LEN
            invariant
                i <= 8,
                self.bytes@.len() == 8,
                other.bytes@.len() == 8,
                forall|j: int| 0 <= j < i ==> self.bytes@[j] == other.bytes@[j],
            decreases 8 - i,
        {
            if self.bytes[i] != other.bytes[i] {
                return false;
            }
            i = i + 1;
        }
        assert(self.bytes@ =~= other.bytes@);
        true
    }
}

impl vstd::std_specs::cmp::PartialEqSpecImpl for PeerId {
    open spec fn obeys_eq_spec() -> bool {
        true
    }

    open spec fn eq_spec(&self, other: &PeerId) -> bool {
        self@ == other@
    }
}

impl From<[u8; PEER_ID_LEN]> for PeerId {
    fn from(bytes: [u8; PEER_ID_LEN]) -> (p: PeerId) {
        PeerId { bytes }
    }
}

impl vstd::std_specs::convert::FromSpecImpl<[u8; PEER_ID_LEN]> for PeerId {
    open spec fn obeys_from_spec() -> bool {
        true
    }

    closed spec fn from_spec(v: [u8; PEER_ID_LEN]) -> PeerId {
        PeerId { bytes: v }
    }
}

impl From<PeerId> for [u8; PEER_ID_LEN] {
    fn from(id: PeerId) -> (b: [u8; PEER_ID_LEN]) {
        id.bytes
    }
}

impl vstd::std_specs::convert::FromSpecImpl<PeerId> for [u8; PEER_ID_LEN] {
    open spec fn obeys_from_spec() -> bool {
        true
    }

    closed spec fn from_spec(v: PeerId) -> [u8; PEER_ID_LEN] {
        v.bytes
    }
}

} // verus!
