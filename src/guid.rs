//! GUIDs as firmware stores them: 16 bytes, the first three fields
//! little-endian.
use vstd::prelude::*;

verus! {

/// The 16 bytes, in the order the text writes them, of the GUID that the
/// text `s` spells, or `None` when `s` spells none.
pub uninterp spec fn uuid_bytes_of(s: Seq<char>) -> Option<Seq<u8>>;

/// The stored order of a GUID's bytes: the first three fields (4, 2 and 2
/// bytes) reversed, the last 8 bytes as they are. The order is its own
/// inverse.
pub open spec fn stored_order(u: Seq<u8>) -> Seq<u8> {
    seq![u[3], u[2], u[1], u[0], u[5], u[4], u[7], u[6]] + u.subrange(8, 16)
}

/// The upper-case hexadecimal digit of `n`, for `n` below 16.
pub open spec fn hex_digit(n: u8) -> char {
    seq!['0', '1', '2', '3', '4', '5', '6', '7', '8', '9', 'A', 'B', 'C', 'D', 'E', 'F'][n as int]
}

/// The two upper-case hexadecimal digits of a byte.
pub open spec fn hex_byte(b: u8) -> Seq<char> {
    seq![hex_digit(b / 16), hex_digit(b % 16)]
}

/// The text of a GUID given by its stored bytes `b`: the 16 bytes in the
/// order the text writes them, as upper-case hexadecimal, with hyphens
/// after the 4th, 6th, 8th and 10th byte.
pub open spec fn guid_text(b: Seq<u8>) -> Seq<char> {
    let u = stored_order(b);
    hex_byte(u[0]) + hex_byte(u[1]) + hex_byte(u[2]) + hex_byte(u[3]) + seq!['-'] + hex_byte(u[4])
        + hex_byte(u[5]) + seq!['-'] + hex_byte(u[6]) + hex_byte(u[7]) + seq!['-'] + hex_byte(u[8])
        + hex_byte(u[9]) + seq!['-'] + hex_byte(u[10]) + hex_byte(u[11]) + hex_byte(u[12]) + hex_byte(u[13])
        + hex_byte(u[14]) + hex_byte(u[15])
}

/// Relies on `uuid::Uuid::try_parse` to read the GUID text, and on
/// `Uuid::to_bytes_le`, which reverses the first three fields, for the
/// stored byte order.
#[verifier::external_body]
fn parse_guid(s: &str) -> (r: Option<[u8; 16]>)
    ensures
        match uuid_bytes_of(s@) {
            Some(u) => r matches Some(a) && u.len() == 16 && a@ == stored_order(u),
            None => r is None,
        },
{
    match uuid::Uuid::try_parse(s) {
        Ok(u) => Some(u.to_bytes_le()),
        Err(_) => None,
    }
}

/// Relies on `uuid::Uuid::from_bytes_le`, which reverses the first three
/// fields, and on `Uuid`'s upper-case hexadecimal formatting, which writes
/// the hyphenated form.
#[verifier::external_body]
fn format_guid(b: &[u8; 16]) -> (r: String)
    ensures
        r@ == guid_text(b@),
{
    format!("{:X}", uuid::Uuid::from_bytes_le(*b))
}

/// The GUID that `s` spells, as stored bytes; `None` when `s` is no GUID.
pub fn guid(s: &str) -> (r: Option<[u8; 16]>)
    ensures
        match uuid_bytes_of(s@) {
            Some(u) => r matches Some(a) && u.len() == 16 && a@ == stored_order(u),
            None => r is None,
        },
{
    parse_guid(s)
}

/// The upper-case, hyphenated text of a GUID given by its stored bytes.
pub fn guid_fmt(b: &[u8; 16]) -> (r: String)
    ensures
        r@ == guid_text(b@),
{
    format_guid(b)
}

/// The all-zero GUID.
#[allow(non_snake_case)]
pub fn ZERO() -> (r: [u8; 16])
    ensures
        forall|i: int| 0 <= i < 16 ==> r@[i] == 0,
{
    [0u8; 16]
}

/// The GUID of the calling module: the one that `file_guid` spells, or the
/// all-zero GUID when the build gives none. `None` when `file_guid` is no
/// GUID.
pub fn caller_id(file_guid: Option<&str>) -> (r: Option<[u8; 16]>)
    ensures
        match file_guid {
            None => r matches Some(a) && forall|i: int| 0 <= i < 16 ==> a@[i] == 0,
            Some(s) => match uuid_bytes_of(s@) {
                Some(u) => r matches Some(a) && u.len() == 16 && a@ == stored_order(u),
                None => r is None,
            },
        },
{
    match file_guid {
        None => Some(ZERO()),
        Some(s) => guid(s),
    }
}

} // verus!
