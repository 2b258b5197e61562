use uuid::Uuid;
use vstd::prelude::*;

use crate::fingerprint::hex_digit;

verus! {

#[verifier::external_type_specification]
#[verifier::external_body]
pub struct ExUuidError(uuid::Error);

/// Half-byte `k` of a 128-bit value, counted from the most significant.
pub open spec fn nibble(v: u128, k: int) -> u8 {
    ((v >> ((124 - 4 * k) as u128)) & 0xF) as u8
}

/// The lowercase hexadecimal digits `a..b` of a 128-bit value.
pub open spec fn hex_digits(v: u128, a: int, b: int) -> Seq<char> {
    Seq::new((b - a) as nat, |i: int| hex_digit(nibble(v, a + i)))
}

/// A UUID written as `Uuid`'s `Display` writes it: 32 lowercase hexadecimal
/// digits in groups of 8, 4, 4, 4 and 12, separated by `-`.
pub open spec fn hyphenated(v: u128) -> Seq<char> {
    hex_digits(v, 0, 8) + seq!['-'] + hex_digits(v, 8, 12) + seq!['-'] + hex_digits(v, 12, 16)
        + seq!['-'] + hex_digits(v, 16, 20) + seq!['-'] + hex_digits(v, 20, 32)
}

/// What `Uuid::parse_str` reads from a text, if it reads a UUID.
pub uninterp spec fn parse_uuid(text: Seq<char>) -> Option<u128>;

/// Calls `Uuid::new_v4`: a random UUID with the version bits set to 4 and
/// the variant bits to `10` (RFC 9562).
#[verifier::external_body]
fn new_v4() -> (res: u128)
    ensures
        (res >> 76u128) & 0xF == 4,
        (res >> 62u128) & 0x3 == 2,
{
    Uuid::new_v4().as_u128()
}

/// Calls `Uuid`'s `Display`, which writes the hyphenated lowercase form.
#[verifier::external_body]
fn uuid_to_string(v: u128) -> (res: String)
    ensures
        res@ == hyphenated(v),
{
    Uuid::from_u128(v).to_string()
}

/// Calls `Uuid::parse_str`. What it reads is named `parse_uuid`; it reads
/// back every hyphenated lowercase form it writes.
#[verifier::external_body]
fn uuid_parse_str(text: &str) -> (res: Result<u128, uuid::Error>)
    ensures
        match res {
            Ok(w) => parse_uuid(text@) == Some(w) && forall|v: u128|
                text@ == #[trigger] hyphenated(v) ==> w == v,
            Err(_) => parse_uuid(text@) is None && forall|v: u128| text@ != #[trigger] hyphenated(v),
        },
{
    Uuid::parse_str(text).map(|u| u.as_u128())
}

/// Stable identity of a Linkup installation on a machine: a UUID.
#[derive(Clone, Copy, Debug, PartialEq, Eq, PartialOrd, Ord, Hash, Structural)]
pub struct MachineId {
    value: u128,
}

impl View for MachineId {
    type V = u128;

    closed spec fn view(&self) -> u128 {
        self.value
    }
}

impl MachineId {
    /// A new random identity (a version 4 UUID).
    pub fn generate() -> (res: MachineId)
        ensures
            (res@ >> 76u128) & 0xF == 4,
            (res@ >> 62u128) & 0x3 == 2,
    {
        MachineId { value: new_v4() }
    }

    /// The identity with the given 128-bit value.
    pub fn from_u128(value: u128) -> (res: MachineId)
        ensures
            res@ == value,
    {
        MachineId { value }
    }

    /// The 128-bit value of the identity.
    pub fn as_u128(&self) -> (res: u128)
        ensures
            res == self@,
    {
        self.value
    }

    /// The version number of the UUID (its bits 76 to 79).
    pub fn version_num(&self) -> (res: u8)
        ensures
            res == (self@ >> 76u128) & 0xF,
    {
        let v = self.value;
        let n = (v >> 76u128) & 0xF;
        assert(n <= 0xF) by (bit_vector)
            requires
                n == (v >> 76u128) & 0xF,
        ;
        n as u8
    }

    /// The identity written as a hyphenated lowercase UUID.
    pub fn to_string(&self) -> (res: String)
        ensures
            res@ == hyphenated(self@),
    {
        uuid_to_string(self.value)
    }

    /// Reads an identity from a UUID text; every text `to_string` writes is
    /// read back as the same identity.
    pub fn parse(value: &str) -> (res: Result<MachineId, uuid::Error>)
        ensures
            parsed_as(value@, res),
    {
        match uuid_parse_str(value) {
            Ok(v) => Ok(MachineId { value: v }),
            Err(e) => Err(e),
        }
    }
}

/// What reading an identity from `text` may give: the UUID `Uuid::parse_str`
/// reads there, which is the one written as `text` when `text` is a
/// hyphenated lowercase UUID; an error when it reads none.
pub open spec fn parsed_as(text: Seq<char>, res: Result<MachineId, uuid::Error>) -> bool {
    match res {
        Ok(id) => parse_uuid(text) == Some(id@) && forall|v: u128|
            text == #[trigger] hyphenated(v) ==> id@ == v,
        Err(_) => parse_uuid(text) is None && forall|v: u128| text != #[trigger] hyphenated(v),
    }
}

/// The text an identity is displayed as reads back as the same identity.
pub proof fn law_display_value_can_be_parsed(id: MachineId, res: Result<MachineId, uuid::Error>)
    requires
        parsed_as(hyphenated(id@), res),
    ensures
        res matches Ok(back) && back == id,
{
    match res {
        Ok(back) => {
            assert(back.value == id.value);
        },
        Err(_) => {
            assert(hyphenated(id@) == hyphenated(id@));
        },
    }
}

} // verus!
