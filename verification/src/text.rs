//! Text validity and the two ways of turning stored bytes into text.
use vstd::prelude::*;
use vstd::utf8::{decode_utf8, encode_utf8, encode_utf8_valid_utf8, valid_utf8};
use vstd::string::StringSliceAdditionalSpecFns;
use crate::wire::copy_bytes;

verus! {

/// The text that `String::from_utf8_lossy` makes of `bytes`.
pub uninterp spec fn utf8_lossy(bytes: Seq<u8>) -> Seq<char>;

/// The text whose code points are the bytes of `raw`, one for one: each byte
/// taken as a 16-bit code unit whose high eight bits are zero.
pub open spec fn widened(raw: Seq<u8>) -> Seq<char> {
    Seq::new(raw.len(), |i: int| raw[i] as char)
}

/// The low bytes of 16-bit code units: what is left of text that was stored
/// one byte per unit.
pub open spec fn truncated(units: Seq<u16>) -> Seq<u8> {
    Seq::new(units.len(), |i: int| (units[i] % 256) as u8)
}

/// The code points of units that each stand for one code point.
pub open spec fn code_points(units: Seq<u16>) -> Seq<char> {
    Seq::new(units.len(), |i: int| units[i] as char)
}

/// The bytes that take the place of the stored bytes `raw` of a text field that
/// is not well-formed: the repaired text where the repair was accepted, else
/// the stored bytes read leniently; in the text encoding either way.
pub open spec fn emitted(raw: Seq<u8>, accepted: bool) -> Seq<u8> {
    encode_utf8(
        if accepted {
            widened(raw)
        } else {
            utf8_lossy(raw)
        },
    )
}

/// `core::str::from_utf8` accepts `bytes` exactly when they are well-formed
/// UTF-8.
#[verifier::external_body]
pub(crate) fn utf8_accepts(bytes: &[u8]) -> (ok: bool)
    ensures
        ok == valid_utf8(bytes@),
{
    core::str::from_utf8(bytes).is_ok()
}

/// `String::from_utf8_lossy`: the result depends on the bytes alone, and where
/// they are well-formed UTF-8 it is the text that they encode.
#[verifier::external_body]
pub(crate) fn utf8_lossy_string(bytes: &[u8]) -> (text: String)
    ensures
        text@ == utf8_lossy(bytes@),
        valid_utf8(bytes@) ==> text@ == decode_utf8(bytes@),
{
    String::from_utf8_lossy(bytes).into_owned()
}

/// `String::from_utf16_lossy` on units below the surrogate range: each unit is
/// the code point of the same number, so the text has one character per unit
/// and nothing is replaced.
#[verifier::external_body]
pub(crate) fn utf16_string(units: &[u16]) -> (text: String)
    requires
        forall|i: int| 0 <= i < units@.len() ==> units@[i] < 0xD800,
    ensures
        text@ == code_points(units@),
{
    String::from_utf16_lossy(units)
}

/// Whether `bytes` are well-formed text.
pub fn is_valid_text(bytes: &[u8]) -> (ok: bool)
    ensures
        ok == valid_utf8(bytes@),
{
    utf8_accepts(bytes)
}

/// The stored bytes read leniently as text: well-formed bytes give the text
/// they encode.
pub fn lossy(bytes: &[u8]) -> (text: String)
    ensures
        text@ == utf8_lossy(bytes@),
        valid_utf8(bytes@) ==> text@ == decode_utf8(bytes@),
{
    utf8_lossy_string(bytes)
}

/// The repaired text for stored bytes that are not well-formed text: each byte
/// is widened to the 16-bit code unit it was cut from, and the units are
/// decoded.
pub fn repair(raw: &[u8]) -> (text: String)
    ensures
        text@ == widened(raw@),
{
    let mut units: Vec<u16> = Vec::new();
    let mut i: usize = 0;
    while i < raw.len()
        invariant
            i <= raw.len(),
            units@.len() == i,
            forall|j: int| 0 <= j < i ==> units@[j] == raw@[j] as u16,
        decreases raw.len() - i,
    {
        units.push(raw[i] as u16);
        i = i + 1;
    }
    let text: String = utf16_string(units.as_slice());
    assert(text@ =~= widened(raw@));
    text
}

/// The bytes of `text` in the text encoding.
pub fn text_bytes(text: &String) -> (bytes: Vec<u8>)
    ensures
        bytes@ == encode_utf8(text@),
        valid_utf8(bytes@),
{
    proof {
        encode_utf8_valid_utf8(text@);
    }
    copy_bytes(text.as_str().as_bytes())
}

/// Whatever was decided, the bytes that replace a field are well-formed text.
pub proof fn lemma_emitted_is_valid(raw: Seq<u8>, accepted: bool)
    ensures
        valid_utf8(emitted(raw, accepted)),
{
    encode_utf8_valid_utf8(widened(raw));
    encode_utf8_valid_utf8(utf8_lossy(raw));
}

/// Text whose 16-bit code units all have zero high bits is recovered from the
/// low bytes of its units.
pub proof fn lemma_repair_recovers(units: Seq<u16>)
    requires
        forall|i: int| 0 <= i < units.len() ==> units[i] < 0x100,
    ensures
        widened(truncated(units)) == code_points(units),
{
    assert(widened(truncated(units)) =~= code_points(units));
}

} // verus!
