use pdf_pages::document::Document;
use pdf_pages::error::PdfError;
use pdf_pages::object::{Dictionary, Object, StringFormat};
use pdf_pages::parser::{
    decode_pdf_string, decode_pdfdoc_encoding, parse_pdf, read_utf16_units, text_from,
};
use pdf_pages::text::{push_decimal, push_id, push_signed};
use std::collections::BTreeMap;

fn utf16_be(text: &str) -> Vec<u8> {
    let mut bytes: Vec<u8> = vec![0xFE, 0xFF];
    for unit in text.encode_utf16() {
        bytes.extend_from_slice(&unit.to_be_bytes());
    }
    bytes
}

/// A document with an empty page tree and, if asked for, an information
/// dictionary that is well placed or misplaced.
fn create_test_pdf(
    info_data: Option<BTreeMap<&str, &str>>,
    make_info_invalid: Option<&str>,
) -> Document {
    let mut doc = Document::with_version("1.5");
    let mut pages = Dictionary::new();
    pages.set(b"Type".to_vec(), Object::Name(b"Pages".to_vec()));
    pages.set(b"Count".to_vec(), Object::Integer(0));
    pages.set(b"Kids".to_vec(), Object::Array(vec![]));
    let pages_id = doc.add_object(Object::Dictionary(pages)).unwrap();
    let mut catalog = Dictionary::new();
    catalog.set(b"Type".to_vec(), Object::Name(b"Catalog".to_vec()));
    catalog.set(b"Pages".to_vec(), Object::Reference(pages_id));
    let catalog_id = doc.add_object(Object::Dictionary(catalog)).unwrap();
    doc.set_trailer(b"Root".to_vec(), Object::Reference(catalog_id));

    if let Some(data) = info_data {
        let mut info_dict = Dictionary::new();
        for (key, value) in data {
            info_dict.set(
                key.as_bytes().to_vec(),
                Object::String(utf16_be(value), StringFormat::Literal),
            );
        }
        info_dict.set(b"NumericValue".to_vec(), Object::Integer(123));

        match make_info_invalid {
            Some("not_a_ref") => {
                doc.set_trailer(b"Info".to_vec(), Object::Dictionary(info_dict));
            }
            Some("bad_ref_type") => {
                let dummy_array_id = doc.add_object(Object::Array(vec![])).unwrap();
                doc.set_trailer(b"Info".to_vec(), Object::Reference(dummy_array_id));
            }
            _ => {
                let info_id = doc.add_object(Object::Dictionary(info_dict)).unwrap();
                doc.set_trailer(b"Info".to_vec(), Object::Reference(info_id));
            }
        }
    }
    doc
}

fn lookup<'a>(metadata: &'a Vec<(String, String)>, key: &str) -> Option<&'a String> {
    metadata.iter().find(|(name, _)| name == key).map(|(_, text)| text)
}

#[test]
fn test_parse_pdf_with_metadata() {
    let mut info = BTreeMap::new();
    info.insert("Title", "My Test Document");
    info.insert("Author", "Test Author");
    info.insert("Subject", "Testing\u{2013}Metadata");

    let doc = create_test_pdf(Some(info), None);

    let metadata = parse_pdf(&doc);

    assert_eq!(metadata.len(), 3, "Count");
    assert_eq!(lookup(&metadata, "Title"), Some(&"My Test Document".to_string()));
    assert_eq!(lookup(&metadata, "Author"), Some(&"Test Author".to_string()));
    assert_eq!(lookup(&metadata, "Subject"), Some(&"Testing\u{2013}Metadata".to_string()));
    assert!(lookup(&metadata, "NumericValue").is_none());
}

#[test]
fn test_parse_pdf_no_metadata_entry() {
    let doc = create_test_pdf(None, None);

    let metadata = parse_pdf(&doc);

    assert!(metadata.is_empty(), "Metadata map should be empty when Info dict is missing");
}

#[test]
fn test_parse_pdf_info_not_a_reference() {
    let mut info = BTreeMap::new();
    info.insert("Title", "Invalid Structure");

    let doc = create_test_pdf(Some(info), Some("not_a_ref"));

    let metadata = parse_pdf(&doc);

    assert!(
        metadata.is_empty(),
        "Metadata map should be empty when Info is not a valid reference"
    );
}

#[test]
fn test_parse_pdf_info_bad_reference_type() {
    let mut info = BTreeMap::new();
    info.insert("Title", "Invalid Structure");

    let doc = create_test_pdf(Some(info), Some("bad_ref_type"));

    let metadata = parse_pdf(&doc);

    assert!(
        metadata.is_empty(),
        "Metadata map should be empty when Info ref points to wrong type"
    );
}

#[test]
fn metadata_comes_in_the_order_of_the_entries() {
    let mut doc = Document::with_version("1.5");
    let mut info = Dictionary::new();
    info.set(b"Title".to_vec(), Object::String(b"Plain".to_vec(), StringFormat::Literal));
    info.set(b"Pages".to_vec(), Object::Integer(3));
    info.set(b"Author".to_vec(), Object::String(vec![0xE9, 0x21], StringFormat::Hexadecimal));
    info.set(vec![0x4B, 0xFF], Object::String(Vec::new(), StringFormat::Literal));
    let id = doc.add_object(Object::Dictionary(info)).unwrap();
    doc.set_trailer(b"Info".to_vec(), Object::Reference(id));
    assert_eq!(
        parse_pdf(&doc),
        vec![
            ("Title".to_string(), "Plain".to_string()),
            ("Author".to_string(), "\u{e9}!".to_string()),
            ("K\u{fffd}".to_string(), String::new()),
        ]
    );
    doc.set_trailer(b"Info".to_vec(), Object::Reference((40, 0)));
    assert!(parse_pdf(&doc).is_empty());
}

#[test]
fn bytes_stand_for_the_characters_of_their_number() {
    assert_eq!(decode_pdfdoc_encoding(b"Caf\xe9 \xff"), "Caf\u{e9} \u{ff}");
    assert_eq!(decode_pdfdoc_encoding(b""), "");
    assert_eq!(decode_pdfdoc_encoding(&[0, 127, 128]), "\u{0}\u{7f}\u{80}");
}

#[test]
fn marked_strings_are_read_as_utf16() {
    assert_eq!(decode_pdf_string(&utf16_be("Gr\u{fc}\u{df}e \u{1f600}")), "Gr\u{fc}\u{df}e \u{1f600}");
    assert_eq!(decode_pdf_string(&[0xFE, 0xFF]), "");
    // A single byte at the end is left out.
    assert_eq!(decode_pdf_string(&[0xFE, 0xFF, 0x00, 0x41, 0x00]), "A");
    // Without the mark, and with units that are no valid UTF-16, the bytes
    // stand for themselves, the mark included.
    assert_eq!(decode_pdf_string(&[0x00, 0x41]), "\u{0}A");
    assert_eq!(decode_pdf_string(&[0xFF, 0xFE, 0x41, 0x00]), "\u{ff}\u{fe}A\u{0}");
    assert_eq!(decode_pdf_string(&[0xFE, 0xFF, 0xD8, 0x00]), "\u{fe}\u{ff}\u{d8}\u{0}");
    assert_eq!(decode_pdf_string(&[0xFE]), "\u{fe}");
}

#[test]
fn units_are_read_high_byte_first() {
    assert_eq!(read_utf16_units(&[0xFE, 0xFF, 0x12, 0x34, 0xAB, 0xCD, 0x01]), vec![0x1234, 0xABCD]);
    assert_eq!(read_utf16_units(&[0xFE, 0xFF, 0x12]), Vec::<u16>::new());
}

#[test]
fn decoded_text_is_used_only_behind_the_mark() {
    assert_eq!(text_from(&[0xFE, 0xFF, 0x00, 0x41], Some("A".to_string())), "A");
    assert_eq!(text_from(&[0xFE, 0xFF, 0x00, 0x41], None), "\u{fe}\u{ff}\u{0}A");
    assert_eq!(text_from(b"AB", Some("x".to_string())), "AB");
}

#[test]
fn numbers_are_written_in_decimal() {
    let mut text = String::from("n=");
    push_decimal(&mut text, 0);
    text.push(' ');
    push_decimal(&mut text, 1907);
    text.push(' ');
    push_decimal(&mut text, u128::MAX);
    text.push(' ');
    push_signed(&mut text, -45);
    text.push(' ');
    push_signed(&mut text, i64::MIN);
    text.push(' ');
    push_id(&mut text, 12, 3);
    assert_eq!(
        text,
        "n=0 1907 340282366920938463463374607431768211455 -45 -9223372036854775808 (12, 3)"
    );
}

#[test]
fn every_failure_has_its_words() {
    assert_eq!(
        PdfError::PageNumberZero.message(),
        "Page number must be 1-based (greater than 0)."
    );
    assert_eq!(
        PdfError::EmptyPageList.message(),
        "The list of pages to extract cannot be empty."
    );
    assert_eq!(
        PdfError::EmptyDeleteList.message(),
        "The list of pages to delete cannot be empty."
    );
    assert_eq!(
        PdfError::ZeroInPageList.message(),
        "Invalid page number: 0. Page numbers must be 1-based."
    );
    assert_eq!(
        PdfError::PageNotFound { page: 5, page_count: 3 }.message(),
        "Page number 5 not found in document (which has 3 pages)."
    );
    assert_eq!(
        PdfError::InvalidRotation { angle: 45 }.message(),
        "Invalid rotation angle. Must be one of 0, 90, 180, 270."
    );
    assert_eq!(
        PdfError::PageNotMapped { number: 4, generation: 1 }.message(),
        "Internal error: page object (4, 1) not found in document."
    );
    assert_eq!(
        PdfError::NotADictionary { number: 4, generation: 1 }.message(),
        "Internal error: page object (4, 1) is not a dictionary."
    );
    for error in [
        PdfError::IdentifiersExhausted,
        PdfError::TooManyPages,
        PdfError::IdentifierCollision,
        PdfError::NoPageTree,
    ] {
        assert!(!error.message().is_empty());
    }
}
