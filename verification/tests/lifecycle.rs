use pdf_cooker::document::Document;
use pdf_cooker::object::Object;
use pdf_cooker::prim::Primitive;
use pdf_cooker::DocError;

fn empty_dict_object() -> Object {
    Object::new(vec![Primitive::Dict(vec![])])
}

fn clean(p: &Primitive) -> bool {
    match p {
        Primitive::Deferred(_) => false,
        Primitive::ParentRef => false,
        Primitive::Array(elems) => elems.iter().all(clean),
        Primitive::Dict(pairs) => pairs.iter().all(|(_, v)| clean(v)),
        _ => true,
    }
}

#[test]
fn numbers_are_contiguous_after_resolve() {
    let mut doc = Document::new();
    for _ in 0..5 {
        doc.append(empty_dict_object());
    }
    assert!(doc.resolve().is_ok());
    let mut seen: Vec<u64> = Vec::new();
    for (i, obj) in doc.objects.iter().enumerate() {
        let n = obj.raw.number.expect("resolution numbers every object");
        assert_eq!(n, i as u64 + 1);
        assert!(!seen.contains(&n));
        seen.push(n);
    }
}

#[test]
fn resolution_replaces_deferred_with_reference() {
    let mut doc = Document::new();
    let mut target = empty_dict_object();
    let id = target.identity(&mut doc);
    let holder = Object::new(vec![Primitive::Dict(vec![(
        "Target".to_string(),
        Primitive::Deferred(id),
    )])]);
    // The holder is appended before its target: a forward reference.
    doc.append(holder);
    doc.append(target);
    doc.resolve().unwrap();
    match &doc.objects[0].raw.inner[0] {
        Primitive::Dict(pairs) => match &pairs[0].1 {
            Primitive::Reference(n) => assert_eq!(*n, 2),
            _ => panic!("the deferred node should have become a reference"),
        },
        _ => panic!("expected a dictionary"),
    }
}

#[test]
fn resolved_trees_hold_no_deferred_nodes() {
    let mut doc = Document::new();
    let mut target = empty_dict_object();
    let id = target.identity(&mut doc);
    let holder = Object::new(vec![Primitive::Array(vec![
        Primitive::Deferred(id),
        Primitive::Dict(vec![("Inner".to_string(), Primitive::Deferred(id))]),
    ])]);
    doc.append(target);
    doc.append(holder);
    doc.resolve().unwrap();
    for obj in doc.objects.iter() {
        assert!(obj.raw.inner.iter().all(clean));
    }
}

#[test]
fn dangling_identity_aborts_resolution() {
    let mut doc = Document::new();
    doc.append(empty_dict_object());
    doc.append(Object::new(vec![Primitive::Deferred(7)]));
    let err = doc.resolve().unwrap_err();
    assert_eq!(err, DocError::DanglingReference { object: 1, identity: Some(7) });
    // Nothing was numbered.
    assert!(doc.objects.iter().all(|o| o.raw.number.is_none()));
}

#[test]
fn leftover_parent_sentinel_aborts_resolution() {
    let mut doc = Document::new();
    doc.append(Object::new(vec![Primitive::Dict(vec![(
        "Parent".to_string(),
        Primitive::ParentRef,
    )])]));
    let err = doc.resolve().unwrap_err();
    assert_eq!(err, DocError::DanglingReference { object: 0, identity: None });
}

#[test]
fn double_resolve_is_refused() {
    let mut doc = Document::new();
    doc.append(empty_dict_object());
    doc.append(empty_dict_object());
    doc.resolve().unwrap();
    let before: Vec<Option<u64>> = doc.objects.iter().map(|o| o.raw.number).collect();
    assert_eq!(doc.resolve().unwrap_err(), DocError::DoubleResolve);
    let after: Vec<Option<u64>> = doc.objects.iter().map(|o| o.raw.number).collect();
    assert_eq!(before, after);
    assert_eq!(doc.objects.len(), 2);
}

#[test]
fn identity_is_stable_and_distinct() {
    let mut doc = Document::new();
    let mut a = empty_dict_object();
    let first = a.identity(&mut doc);
    let again = a.identity(&mut doc);
    assert_eq!(first, again);
    let mut b = empty_dict_object();
    let other = b.identity(&mut doc);
    assert_ne!(first, other);
}

#[test]
fn appendix_keeps_order() {
    let mut doc = Document::new();
    doc.append(Object::new(vec![Primitive::Number(1)]));
    doc.appendix(vec![
        Object::new(vec![Primitive::Number(2)]),
        Object::new(vec![Primitive::Number(3)]),
    ]);
    assert_eq!(doc.objects.len(), 3);
    for (i, obj) in doc.objects.iter().enumerate() {
        match obj.raw.inner[0] {
            Primitive::Number(n) => assert_eq!(n, i as u64 + 1),
            _ => panic!("expected a number"),
        }
    }
}

#[test]
fn project_and_fmap_reach_the_payload() {
    let mut o = Object::new(vec![Primitive::Number(3)]);
    o.project().number = Some(9);
    assert_eq!(o.project_ref().number, Some(9));
    let len = o.fmap_ref(|raw| raw.inner.len());
    assert_eq!(len, 1);
    let had_number = o.fmap(|raw| {
        let had = raw.number.is_some();
        (raw, had)
    });
    assert!(had_number);
    assert_eq!(o.project_ref().number, Some(9));
}

#[test]
fn is_type_finds_nested_entries() {
    let page = Primitive::Dict(vec![(
        "Type".to_string(),
        Primitive::Name("Page".to_string()),
    )]);
    assert!(page.is_type("Page"));
    assert!(!page.is_type("Pages"));
    let arr = Primitive::Array(vec![Primitive::Number(1), page]);
    assert!(arr.is_type("Page"));
    assert!(!Primitive::Number(1).is_type("Page"));
    assert!(!Primitive::Dict(vec![]).is_type("Page"));
}
