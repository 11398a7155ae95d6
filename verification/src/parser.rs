//! Reading the text entries of the information dictionary.

use crate::document::{Document, DocumentView};
use crate::names::name_bytes;
use crate::object::{Entries, Object, Value};
use crate::page_tree::{reference_in, reference_under};
use vstd::prelude::*;

verus! {

/// What decoding `units` as UTF-16 gives: the text, or `None` where the
/// units are no valid UTF-16.
pub uninterp spec fn utf16_decoded(units: Seq<u16>) -> Option<Seq<char>>;

/// What decoding `bytes` as UTF-8 gives when every sequence that is no
/// valid UTF-8 is replaced by the replacement character.
pub uninterp spec fn utf8_lossy(bytes: Seq<u8>) -> Seq<char>;

/// Decodes `units` with `String::from_utf16` of the standard library, which
/// gives the text that the units encode or fails where they are no valid
/// UTF-16. The outcome depends on the units alone.
#[verifier::external_body]
fn decode_utf16(units: &Vec<u16>) -> (text: Option<String>)
    ensures
        match text {
            Some(decoded) => utf16_decoded(units@) == Some(decoded@),
            None => utf16_decoded(units@).is_none(),
        },
{
    String::from_utf16(units).ok()
}

/// Decodes `bytes` with `String::from_utf8_lossy` of the standard library,
/// which never fails. The outcome depends on the bytes alone.
#[verifier::external_body]
fn decode_utf8_lossy(bytes: &[u8]) -> (text: String)
    ensures
        text@ == utf8_lossy(bytes@),
{
    String::from_utf8_lossy(bytes).into_owned()
}

/// The text that `bytes` are in the byte-per-character encoding of
/// documents: each byte stands for the character with its number.
pub open spec fn pdfdoc_text(bytes: Seq<u8>) -> Seq<char> {
    bytes.map_values(|byte: u8| byte as char)
}

/// Whether `bytes` start with the mark of big-endian UTF-16.
pub open spec fn has_utf16_mark(bytes: Seq<u8>) -> bool {
    bytes.len() >= 2 && bytes[0] == 0xFE && bytes[1] == 0xFF
}

/// The UTF-16 units that follow the mark in `bytes`, two bytes to a unit,
/// the high byte first; a single byte at the end is left out.
pub open spec fn utf16_units(bytes: Seq<u8>) -> Seq<u16> {
    Seq::new(
        ((bytes.len() - 2) / 2) as nat,
        |i: int| (bytes[2 + 2 * i] * 256 + bytes[3 + 2 * i]) as u16,
    )
}

/// The text of a string object that holds `bytes`, given `decoded`, what
/// decoding the units behind the mark as UTF-16 gives: that text where the
/// bytes start with the mark and the units are valid, else the bytes in the
/// byte-per-character encoding, the mark included.
pub open spec fn text_of(bytes: Seq<u8>, decoded: Option<Seq<char>>) -> Seq<char> {
    if has_utf16_mark(bytes) && decoded is Some {
        decoded->0
    } else {
        pdfdoc_text(bytes)
    }
}

/// The text of a string object that holds `bytes`.
pub open spec fn string_text(bytes: Seq<u8>) -> Seq<char> {
    text_of(bytes, utf16_decoded(utf16_units(bytes)))
}

/// Decodes `bytes` in the byte-per-character encoding of documents.
pub fn decode_pdfdoc_encoding(bytes: &[u8]) -> (text: String)
    ensures
        text@ == pdfdoc_text(bytes@),
{
    let mut text = String::new();
    let mut i: usize = 0;
    while i < bytes.len()
        invariant
            i <= bytes.len(),
            text@ == pdfdoc_text(bytes@.take(i as int)),
        decreases bytes.len() - i,
    {
        text.push(bytes[i] as char);
        proof {
            assert(bytes@.take(i + 1) =~= bytes@.take(i as int).push(bytes@[i as int]));
            assert(text@ =~= pdfdoc_text(bytes@.take(i + 1)));
        }
        i += 1;
    }
    proof {
        assert(bytes@.take(bytes@.len() as int) =~= bytes@);
    }
    text
}

/// The UTF-16 units that follow the mark in `bytes`.
pub fn read_utf16_units(bytes: &[u8]) -> (units: Vec<u16>)
    requires
        bytes@.len() >= 2,
    ensures
        units@ == utf16_units(bytes@),
{
    let count = (bytes.len() - 2) / 2;
    let mut units: Vec<u16> = Vec::new();
    let mut i: usize = 0;
    while i < count
        invariant
            i <= count,
            bytes@.len() >= 2,
            bytes@.len() <= usize::MAX,
            count == (bytes@.len() - 2) / 2,
            units@.len() == i,
            forall|j: int| 0 <= j < i ==> #[trigger] units@[j] == utf16_units(bytes@)[j],
        decreases count - i,
    {
        assert(2 * i + 3 < bytes@.len());
        let high = bytes[2 * i + 2] as u16;
        let low = bytes[2 * i + 3] as u16;
        units.push(high * 256 + low);
        i += 1;
    }
    proof {
        assert(units@ =~= utf16_units(bytes@));
    }
    units
}

/// The text of a string object that holds `bytes`, given what decoding the
/// units behind the mark as UTF-16 gave.
pub fn text_from(bytes: &[u8], decoded: Option<String>) -> (text: String)
    ensures
        text@ == text_of(
            bytes@,
            match decoded {
                Some(s) => Some(s@),
                None => None,
            },
        ),
{
    let marked = bytes.len() >= 2 && bytes[0] == 0xFE && bytes[1] == 0xFF;
    match decoded {
        Some(text) => if marked {
            text
        } else {
            decode_pdfdoc_encoding(bytes)
        },
        None => decode_pdfdoc_encoding(bytes),
    }
}

/// Decodes the bytes of a string object: as big-endian UTF-16 where they
/// start with its mark and what follows is valid, else in the
/// byte-per-character encoding of documents.
pub fn decode_pdf_string(bytes: &[u8]) -> (text: String)
    ensures
        text@ == string_text(bytes@),
{
    if bytes.len() >= 2 && bytes[0] == 0xFE && bytes[1] == 0xFF {
        let units = read_utf16_units(bytes);
        text_from(bytes, decode_utf16(&units))
    } else {
        decode_pdfdoc_encoding(bytes)
    }
}

/// The entries of the information dictionary: of the dictionary that the
/// trailer refers to as `Info`. None where the trailer holds no reference
/// there or the reference leads to no dictionary.
pub open spec fn info_entries(doc: DocumentView) -> Entries {
    match reference_under(doc.trailer, name_bytes("Info")) {
        Some(id) => if doc.objects.contains_key(id) {
            match doc.objects[id] {
                Value::Dictionary(entries) => entries,
                _ => Seq::empty(),
            }
        } else {
            Seq::empty()
        },
        None => Seq::empty(),
    }
}

/// The names and texts of those among the first `n` of `entries` whose
/// value is a string, in their order.
pub open spec fn text_entries(entries: Entries, n: nat) -> Seq<(Seq<char>, Seq<char>)>
    decreases n,
{
    if n == 0 || n > entries.len() {
        Seq::empty()
    } else {
        let before = text_entries(entries, (n - 1) as nat);
        match entries[n - 1].1 {
            Value::String(bytes, _) => before.push(
                (utf8_lossy(entries[n - 1].0), string_text(bytes)),
            ),
            _ => before,
        }
    }
}

/// The metadata of a document: the names and texts of the strings in its
/// information dictionary.
pub open spec fn metadata_of(doc: DocumentView) -> Seq<(Seq<char>, Seq<char>)> {
    text_entries(info_entries(doc), info_entries(doc).len())
}

/// A list of pairs of strings as pairs of texts.
pub open spec fn texts_of(pairs: Seq<(String, String)>) -> Seq<(Seq<char>, Seq<char>)> {
    pairs.map_values(|pair: (String, String)| (pair.0@, pair.1@))
}

/// The metadata of `doc`: for every entry of its information dictionary
/// whose value is a string, the name of the entry and the text of the
/// string, in the order of the entries. Entries with other values are
/// passed over. A document without an information dictionary has no
/// metadata.
pub fn parse_pdf(doc: &Document) -> (pairs: Vec<(String, String)>)
    ensures
        texts_of(pairs@) == metadata_of(doc@),
{
    let mut pairs: Vec<(String, String)> = Vec::new();
    let info = match reference_in(doc.trailer(), "Info") {
        Some(id) => match doc.get_object(id) {
            Some(object) => match object.as_dict() {
                Some(dict) => dict,
                None => {
                    assert(texts_of(pairs@) =~= metadata_of(doc@));
                    return pairs;
                },
            },
            None => {
                assert(texts_of(pairs@) =~= metadata_of(doc@));
                return pairs;
            },
        },
        None => {
            assert(texts_of(pairs@) =~= metadata_of(doc@));
            return pairs;
        },
    };
    assert(info@ == info_entries(doc@));
    assert(texts_of(pairs@) =~= text_entries(info@, 0));
    let mut i: usize = 0;
    while i < info.len()
        invariant
            i <= info@.len(),
            texts_of(pairs@) == text_entries(info@, i as nat),
        decreases info@.len() - i,
    {
        let value = info.value_at(i);
        proof {
            value.lemma_view();
        }
        match value {
            Object::String(bytes, _) => {
                let name = decode_utf8_lossy(info.key_at(i).as_slice());
                let text = decode_pdf_string(bytes.as_slice());
                let ghost before = pairs@;
                pairs.push((name, text));
                proof {
                    assert(texts_of(pairs@) =~= texts_of(before).push((name@, text@)));
                }
            },
            _ => {},
        }
        i += 1;
    }
    pairs
}

} // verus!
