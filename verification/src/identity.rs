//! The peer identity: the 32-byte digest of a peer's TLS public key.

use vstd::prelude::*;

verus! {

/// A peer's transport-verified identity.
#[derive(Clone, Copy, Debug, PartialEq, Eq, Hash)]
pub struct PeerId {
    /// The digest.
    pub bytes: [u8; 32],
}

/// The lower-case hexadecimal digit of a value below sixteen.
pub open spec fn hex_digit(value: int) -> char {
    if value < 10 {
        (48 + value) as char
    } else {
        (87 + value) as char
    }
}

/// The value of a hexadecimal digit of either case.
pub open spec fn digit_value(c: char) -> Option<int> {
    if '0' <= c <= '9' {
        Some(c as int - 48)
    } else if 'a' <= c <= 'f' {
        Some(c as int - 87)
    } else if 'A' <= c <= 'F' {
        Some(c as int - 55)
    } else {
        None
    }
}

/// Two lower-case hexadecimal digits for each byte, the high half first.
pub open spec fn hex_text(bytes: Seq<u8>) -> Seq<char> {
    Seq::new(
        (2 * bytes.len()) as nat,
        |i: int|
            if i % 2 == 0 {
                hex_digit(bytes[i / 2] as int / 16)
            } else {
                hex_digit(bytes[i / 2] as int % 16)
            },
    )
}

/// Whether a text spells an identity: sixty-four hexadecimal digits.
pub open spec fn spells_identity(text: Seq<char>) -> bool {
    text.len() == 64 && forall|i: int| 0 <= i < 64 ==> digit_value(#[trigger] text[i]) is Some
}

/// The bytes that such a text spells.
pub open spec fn spelled_bytes(text: Seq<char>) -> Seq<u8> {
    Seq::new(
        32,
        |i: int| (16 * digit_value(text[2 * i])->0 + digit_value(text[2 * i + 1])->0) as u8,
    )
}

/// `dig_nat::PeerId::to_hex`: writes the bytes as lower-case hexadecimal digits, high half first.
#[verifier::external_body]
fn nat_to_hex(bytes: &[u8; 32]) -> (text: String)
    ensures
        text@ == hex_text(bytes@),
{
    dig_nat::PeerId::from_bytes(*bytes).to_hex()
}

/// `dig_nat::PeerId::from_hex`: reads sixty-four hexadecimal digits of either case, and gives
/// nothing for any other text.
#[verifier::external_body]
fn nat_from_hex(text: &str) -> (bytes: Option<[u8; 32]>)
    ensures
        bytes is Some <==> spells_identity(text@),
        bytes matches Some(b) ==> b@ == spelled_bytes(text@),
{
    dig_nat::PeerId::from_hex(text).map(|id| *id.as_bytes())
}

impl PeerId {
    /// The identity with the given bytes.
    pub fn from_bytes(bytes: [u8; 32]) -> (r: PeerId)
        ensures
            r.bytes == bytes,
    {
        PeerId { bytes }
    }

    /// The bytes.
    pub fn as_bytes(&self) -> (r: &[u8; 32])
        ensures
            *r == self.bytes,
    {
        &self.bytes
    }

    /// The canonical text form: sixty-four lower-case hexadecimal digits.
    pub fn to_hex(&self) -> (r: String)
        ensures
            r@ == hex_text(self.bytes@),
    {
        nat_to_hex(&self.bytes)
    }

    /// The identity that a text of sixty-four hexadecimal digits spells; nothing for any other text.
    pub fn from_hex(text: &str) -> (r: Option<PeerId>)
        ensures
            r is Some <==> spells_identity(text@),
            r matches Some(id) ==> id.bytes@ == spelled_bytes(text@),
    {
        match nat_from_hex(text) {
            Some(bytes) => Some(PeerId { bytes }),
            None => None,
        }
    }

    /// Whether the two identities are the same.
    pub fn same(&self, other: &PeerId) -> (r: bool)
        ensures
            r == (*self == *other),
    {
        let mut i: usize = 0;
        while i < 32
            invariant
                i <= 32,
                forall|j: int| 0 <= j < i ==> self.bytes[j] == other.bytes[j],
            decreases 32 - i,
        {
            if self.bytes[i] != other.bytes[i] {
                return false;
            }
            i = i + 1;
        }
        assert(self.bytes =~= other.bytes);
        true
    }
}

/// The text form of an identity spells that identity.
pub proof fn text_form_spells_the_identity(id: PeerId)
    ensures
        spells_identity(hex_text(id.bytes@)),
        spelled_bytes(hex_text(id.bytes@)) == id.bytes@,
{
    let text = hex_text(id.bytes@);
    assert forall|i: int| 0 <= i < 32 implies #[trigger] spelled_bytes(text)[i] == id.bytes@[i] by {
        let b = id.bytes@[i] as int;
        assert((2 * i) / 2 == i && (2 * i) % 2 == 0 && (2 * i + 1) / 2 == i && (2 * i + 1) % 2 == 1);
        assert(16 * (b / 16) + b % 16 == b);
    }
    assert(spelled_bytes(text) =~= id.bytes@);
}

} // verus!
