use pdf_cooker::document::Document;
use pdf_cooker::object::Object;
use pdf_cooker::prim::Primitive;
use pdf_cooker::DocError;

fn page_object() -> Object {
    Object::new(vec![Primitive::Dict(vec![(
        "Type".to_string(),
        Primitive::Name("Page".to_string()),
    )])])
}

#[test]
fn synthesis_builds_one_pages_and_one_catalog() {
    let mut doc = Document::new();
    doc.append(page_object());
    doc.append(Object::new(vec![Primitive::Dict(vec![])]));
    doc.append(page_object());
    doc.synthesize_pages().unwrap();
    assert_eq!(doc.objects.len(), 5);

    let page_ids = [
        doc.objects[0].identity.expect("a page receives a token"),
        doc.objects[2].identity.expect("a page receives a token"),
    ];
    assert_ne!(page_ids[0], page_ids[1]);
    assert!(doc.objects[1].identity.is_none());

    let pages = &doc.objects[3];
    let pages_id = pages.identity.expect("the pages container holds a token");
    match &pages.raw.inner[0] {
        Primitive::Dict(pairs) => {
            assert_eq!(pairs.len(), 3);
            assert_eq!(pairs[0].0, "Type");
            assert!(matches!(&pairs[0].1, Primitive::Name(n) if n == "Pages"));
            assert_eq!(pairs[1].0, "Count");
            assert!(matches!(pairs[1].1, Primitive::Number(2)));
            assert_eq!(pairs[2].0, "Kids");
            match &pairs[2].1 {
                Primitive::Array(kids) => {
                    assert_eq!(kids.len(), 2);
                    for (kid, id) in kids.iter().zip(page_ids.iter()) {
                        assert!(matches!(kid, Primitive::Deferred(k) if k == id));
                    }
                },
                _ => panic!("kids should be an array"),
            }
        },
        _ => panic!("the pages container should be a dictionary"),
    }

    let catalog = &doc.objects[4];
    assert!(catalog.identity.is_none());
    match &catalog.raw.inner[0] {
        Primitive::Dict(pairs) => {
            assert_eq!(pairs.len(), 2);
            assert_eq!(pairs[0].0, "Type");
            assert!(matches!(&pairs[0].1, Primitive::Name(n) if n == "Catalog"));
            assert_eq!(pairs[1].0, "Pages");
            assert!(matches!(pairs[1].1, Primitive::Deferred(p) if p == pages_id));
        },
        _ => panic!("the catalog should be a dictionary"),
    }
}

#[test]
fn second_synthesis_is_refused() {
    let mut doc = Document::new();
    doc.append(page_object());
    doc.synthesize_pages().unwrap();
    let count = doc.objects.len();
    assert_eq!(doc.synthesize_pages().unwrap_err(), DocError::DuplicatePagesSynthesis);
    assert_eq!(doc.objects.len(), count);
}

#[test]
fn synthesis_on_empty_document_adds_empty_tree() {
    let mut doc = Document::new();
    doc.synthesize_pages().unwrap();
    assert_eq!(doc.objects.len(), 2);
    match &doc.objects[0].raw.inner[0] {
        Primitive::Dict(pairs) => {
            assert!(matches!(pairs[1].1, Primitive::Number(0)));
            assert!(matches!(&pairs[2].1, Primitive::Array(kids) if kids.is_empty()));
        },
        _ => panic!("the pages container should be a dictionary"),
    }
}

#[test]
fn parent_sentinel_resolves_to_pages_container() {
    let mut doc = Document::new();
    doc.append(Object::new(vec![Primitive::Dict(vec![
        ("Type".to_string(), Primitive::Name("Page".to_string())),
        ("Parent".to_string(), Primitive::ParentRef),
    ])]));
    doc.synthesize_pages().unwrap();
    doc.resolve().unwrap();
    // Objects: page = 1, pages container = 2, catalog = 3.
    match &doc.objects[0].raw.inner[0] {
        Primitive::Dict(pairs) => {
            assert_eq!(pairs[1].0, "Parent");
            assert!(matches!(pairs[1].1, Primitive::Reference(2)));
        },
        _ => panic!("expected the page dictionary"),
    }
}

#[test]
fn pages_with_existing_tokens_keep_them() {
    let mut doc = Document::new();
    let mut page = page_object();
    let id = page.identity(&mut doc);
    doc.append(page);
    doc.synthesize_pages().unwrap();
    assert_eq!(doc.objects[0].identity, Some(id));
    let pages = &doc.objects[1];
    match &pages.raw.inner[0] {
        Primitive::Dict(pairs) => {
            assert!(matches!(&pairs[2].1, Primitive::Array(kids)
                if matches!(kids[0], Primitive::Deferred(k) if k == id)));
        },
        _ => panic!("the pages container should be a dictionary"),
    }
}
