use pdf_cooker::document::Document;
use pdf_cooker::object::Object;
use pdf_cooker::page::{MediaBox, Page, Resource};
use pdf_cooker::prim::Primitive;
use pdf_cooker::DocError;

const HEADER_LEN: usize = 14;

fn text_of(bytes: &[u8]) -> String {
    String::from_utf8(bytes[HEADER_LEN..].to_vec()).expect("the body is UTF-8")
}

#[test]
fn empty_dictionary_document_encodes_to_single_block() {
    let mut doc = Document::new();
    doc.append(Object::new(vec![Primitive::Dict(vec![])]));
    doc.resolve().unwrap();
    let bytes = doc.encode().unwrap();
    let mut expected: Vec<u8> = Vec::new();
    expected.extend_from_slice(b"%PDF-1.7\n");
    expected.extend_from_slice(&[0xe2, 0xe3, 0xcf, 0xd3, b'\n']);
    expected.extend_from_slice(b"1 0 obj\n<<\n>>\nendobj\n");
    assert_eq!(bytes, expected);
}

#[test]
fn one_page_document_wires_numbers_and_references() {
    let mut page = Page::new(MediaBox::A4);
    page.resource.add_font("Times");
    let mut doc = Document::new();
    let objects = page.into_objects(&mut doc);
    doc.appendix(objects);
    doc.synthesize_pages().unwrap();
    doc.resolve().unwrap();

    // Resource = 1, Page = 2, Pages = 3, Catalog = 4.
    for (i, obj) in doc.objects.iter().enumerate() {
        assert_eq!(obj.raw.number, Some(i as u64 + 1));
    }
    assert_eq!(doc.objects.len(), 4);

    let bytes = doc.encode().unwrap();
    let text = text_of(&bytes);
    assert!(text.contains("1 0 obj"));
    assert!(text.contains("2 0 obj"));
    assert!(text.contains("3 0 obj"));
    assert!(text.contains("4 0 obj"));
    assert!(text.contains("/Resource 1 0 R"));
    assert!(text.contains("/Kids [2 0 R]"));
    assert!(text.contains("/Count 1"));
    assert!(text.contains("/Pages 3 0 R"));
    assert!(text.contains("/Type /Page"));
    assert!(text.contains("/BaseFont /Times"));
    assert!(text.contains("/MediaBox [0 0 595 842]"));
}

#[test]
fn header_comes_first() {
    let mut doc = Document::new();
    doc.resolve().unwrap();
    let bytes = doc.encode().unwrap();
    assert_eq!(&bytes[..9], b"%PDF-1.7\n");
    assert_eq!(&bytes[9..14], &[0xe2, 0xe3, 0xcf, 0xd3, b'\n']);
    assert_eq!(bytes.len(), HEADER_LEN);
}

#[test]
fn unresolved_document_is_refused_by_encoder() {
    let mut doc = Document::new();
    doc.append(Object::new(vec![Primitive::Dict(vec![])]));
    assert_eq!(doc.encode().unwrap_err(), DocError::EncoderContractViolation);
}

#[test]
fn stream_payload_is_refused_by_encoder() {
    let mut doc = Document::new();
    doc.append(Object::new(vec![Primitive::Stream(vec![1, 2, 3])]));
    doc.resolve().unwrap();
    assert_eq!(doc.encode().unwrap_err(), DocError::EncoderContractViolation);
}

#[test]
fn primitive_encode_matches_layout() {
    assert_eq!(Primitive::Number(1234567890).encode(0).unwrap(), "1234567890");
    assert_eq!(Primitive::Number(0).encode(0).unwrap(), "0");
    assert_eq!(Primitive::Reference(12).encode(0).unwrap(), "12 0 R");
    assert_eq!(Primitive::Name("Foo".to_string()).encode(0).unwrap(), "/Foo");
    assert_eq!(Primitive::Array(vec![]).encode(0).unwrap(), "[]");
    let d = Primitive::Dict(vec![(
        "Key".to_string(),
        Primitive::Array(vec![Primitive::Number(10), Primitive::Number(0)]),
    )]);
    assert_eq!(d.encode(0).unwrap(), "<<\n  /Key [10 0]\n>>");
    assert!(Primitive::ParentRef.encode(0).is_none());
    assert!(Primitive::Deferred(1).encode(0).is_none());
    assert!(Primitive::Stream(vec![]).encode(0).is_none());
}

#[test]
fn nested_dictionary_indentation_is_deterministic() {
    let inner = Primitive::Dict(vec![("A".to_string(), Primitive::Number(1))]);
    let outer = Primitive::Dict(vec![("B".to_string(), inner)]);
    assert_eq!(outer.encode(0).unwrap(), "<<\n  /B <<\n      /A 1\n  >>\n>>");
}

#[test]
fn fonts_deduplicate_by_base_name() {
    let mut r = Resource::new();
    r.add_font("Times");
    r.add_font("Helvetica");
    r.add_font("Times");
    assert_eq!(r.fonts.len(), 2);
    assert_eq!(r.fonts[0].base, "Times");
    assert_eq!(r.fonts[0].identifier, "F0");
    assert_eq!(r.fonts[1].base, "Helvetica");
    assert_eq!(r.fonts[1].identifier, "F1");
}

#[test]
fn media_box_encodes_its_rectangle() {
    assert_eq!(
        MediaBox::A4.to_primitive().encode(0).unwrap(),
        "[0 0 595 842]"
    );
}
