//! The producer-level page model: a page with its resource dictionary
//! (deduplicating font set) and media box, turned into the value trees the
//! document carries.
use crate::document::{DocV, Document};
use crate::encode::dec_chars;
use crate::object::{ObjV, Object};
use crate::prim::{PrimV, Primitive};
use vstd::prelude::*;
use vstd::string::StringExecFns;

verus! {

/// A font entry of a resource dictionary: the base font name and the short
/// identifier the resource set assigned to it.
pub struct Font {
    pub base: String,
    pub identifier: String,
}

/// The dictionary fragment of a font entry: the identifier naming a
/// `Type = Font` dictionary with the base font and subtype.
pub open spec fn font_prim(base: Seq<char>, ident: Seq<char>) -> PrimV {
    PrimV::Dict(
        seq![
            (
                ident,
                PrimV::Dict(
                    seq![
                        ("Type"@, PrimV::Name("Font"@)),
                        ("BaseFont"@, PrimV::Name(base)),
                        ("SubType"@, PrimV::Name("Type1"@)),
                    ],
                ),
            ),
        ],
    )
}

impl Font {
    /// The font entry as a value tree.
    pub fn to_primitive(&self) -> (r: Primitive)
        ensures
            r@ == font_prim(self.base@, self.identifier@),
    {
        let mut inner: Vec<(String, Primitive)> = Vec::new();
        inner.push(Primitive::pair("Type", Primitive::name("Font")));
        inner.push((String::from_str("BaseFont"), Primitive::Name(self.base.clone())));
        inner.push(Primitive::pair("SubType", Primitive::name("Type1")));
        let mut outer: Vec<(String, Primitive)> = Vec::new();
        outer.push((self.identifier.clone(), Primitive::dict(inner)));
        let r = Primitive::dict(outer);
        proof {
            assert(r@->Dict_0[0].1->Dict_0 =~= font_prim(self.base@, self.identifier@)->Dict_0[0].1->Dict_0);
            assert(r@->Dict_0[0].1 =~= font_prim(self.base@, self.identifier@)->Dict_0[0].1);
            assert(r@->Dict_0 =~= font_prim(self.base@, self.identifier@)->Dict_0);
            assert(r@ =~= font_prim(self.base@, self.identifier@));
        }
        r
    }
}

/// Whether a base name already stands in the font set.
pub open spec fn has_base(fonts: Seq<Font>, base: Seq<char>) -> bool {
    exists|i: int| 0 <= i < fonts.len() && (#[trigger] fonts[i]).base@ == base
}

/// A deduplicating font set keyed by base name: each distinct base receives
/// the next short identifier (`F0`, `F1`, ...) on first insertion.
pub struct Resource {
    pub fonts: Vec<Font>,
}

impl Resource {
    /// An empty font set.
    pub fn new() -> (r: Resource)
        ensures
            r.fonts@.len() == 0,
    {
        Resource { fonts: Vec::new() }
    }

    /// Adds a font under its base name, once: a base already present is
    /// ignored, a new one is appended with the next identifier `F<n>`.
    pub fn add_font(&mut self, base: &str)
        ensures
            has_base(old(self).fonts@, base@) ==> *final(self) == *old(self),
            !has_base(old(self).fonts@, base@) ==> {
                &&& final(self).fonts@.len() == old(self).fonts@.len() + 1
                &&& (forall|i: int|
                    0 <= i < old(self).fonts@.len() ==> final(self).fonts@[i] == old(
                        self,
                    ).fonts@[i])
                &&& final(self).fonts@.last().base@ == base@
                &&& final(self).fonts@.last().identifier@ == "F"@ + dec_chars(
                    old(self).fonts@.len() as nat,
                )
            },
    {
        let n = self.fonts.len();
        let base_string = String::from_str(base);
        let mut i: usize = 0;
        while i < n
            invariant
                n == self.fonts@.len(),
                *self == *old(self),
                base_string@ == base@,
                i <= n,
                forall|t: int| 0 <= t < i ==> (#[trigger] self.fonts@[t]).base@ != base@,
            decreases n - i,
        {
            if self.fonts[i].base.eq(&base_string) {
                return ;
            }
            i += 1;
        }
        let mut ident = String::new();
        ident.append("F");
        crate::encode::push_decimal(&mut ident, n as u64);
        self.fonts.push(Font { base: base_string, identifier: ident });
    }

    /// The font set as an object: one dictionary fragment per font, in
    /// insertion order; unnumbered and without an identity token.
    pub fn into_object(self) -> (r: Object)
        ensures
            r@ == (ObjV {
                values: Seq::new(
                    self.fonts@.len(),
                    |i: int|
                        if 0 <= i < self.fonts@.len() {
                            font_prim(self.fonts@[i].base@, self.fonts@[i].identifier@)
                        } else {
                            PrimV::ParentRef
                        },
                ),
                number: None,
                identity: None,
            }),
    {
        let n = self.fonts.len();
        let mut values: Vec<Primitive> = Vec::new();
        let mut i: usize = 0;
        while i < n
            invariant
                n == self.fonts@.len(),
                i <= n,
                values@.len() == i,
                forall|t: int|
                    0 <= t < i ==> #[trigger] values@[t]@ == font_prim(
                        self.fonts@[t].base@,
                        self.fonts@[t].identifier@,
                    ),
            decreases n - i,
        {
            let p = self.fonts[i].to_primitive();
            values.push(p);
            i += 1;
        }
        let r = Object::new(values);
        proof {
            assert(r@.values =~= Seq::new(
                self.fonts@.len(),
                |i: int|
                    if 0 <= i < self.fonts@.len() {
                        font_prim(self.fonts@[i].base@, self.fonts@[i].identifier@)
                    } else {
                        PrimV::ParentRef
                    },
            ));
            assert(r@ =~= (ObjV {
                values: Seq::new(
                    self.fonts@.len(),
                    |i: int|
                        if 0 <= i < self.fonts@.len() {
                            font_prim(self.fonts@[i].base@, self.fonts@[i].identifier@)
                        } else {
                            PrimV::ParentRef
                        },
                ),
                number: None,
                identity: None,
            }));
        }
        r
    }
}

/// The page's media box.
#[derive(Clone, Copy, PartialEq, Eq, Structural)]
pub enum MediaBox {
    /// 595 by 842 points.
    A4,
}

/// The media box as a value tree: `[0 0 width height]`.
pub open spec fn media_box_prim(m: MediaBox) -> PrimV {
    match m {
        MediaBox::A4 => PrimV::Array(
            seq![PrimV::Number(0u64), PrimV::Number(0u64), PrimV::Number(595u64), PrimV::Number(842u64)],
        ),
    }
}

impl MediaBox {
    /// The media box as a value tree.
    pub fn to_primitive(self) -> (r: Primitive)
        ensures
            r@ == media_box_prim(self),
    {
        match self {
            MediaBox::A4 => {
                let mut elems: Vec<Primitive> = Vec::new();
                elems.push(Primitive::number(0));
                elems.push(Primitive::number(0));
                elems.push(Primitive::number(595));
                elems.push(Primitive::number(842));
                let r = Primitive::array(elems);
                proof {
                    assert(r@->Array_0 =~= media_box_prim(self)->Array_0);
                    assert(r@ =~= media_box_prim(self));
                }
                r
            },
        }
    }
}

/// The page's contents; content-stream encoding is out of the core's scope,
/// so this carries nothing yet.
pub struct Contents {}

impl Contents {
    /// Empty contents.
    pub fn new() -> (r: Contents) {
        Contents {  }
    }
}

/// The page dictionary: `Type = Page`, a deferred reference to the resource
/// object, and the media box.
pub open spec fn page_prim(rid: u64, m: MediaBox) -> PrimV {
    PrimV::Dict(
        seq![
            ("Type"@, PrimV::Name("Page"@)),
            ("Resource"@, PrimV::Deferred(rid)),
            ("MediaBox"@, media_box_prim(m)),
        ],
    )
}

/// A page under construction: its font resources, media box and contents.
pub struct Page {
    pub resource: Resource,
    pub mediabox: MediaBox,
    pub contents: Contents,
}

impl Page {
    /// A page over the given media box, with no fonts yet.
    pub fn new(mediabox: MediaBox) -> (r: Page)
        ensures
            r.resource.fonts@.len() == 0,
            r.mediabox == mediabox,
    {
        Page { resource: Resource::new(), contents: Contents::new(), mediabox }
    }

    /// The page as document objects: the resource object first, then the
    /// page object referring to it by a fresh identity token drawn from the
    /// document.
    pub fn into_objects(self, doc: &mut Document) -> (r: Vec<Object>)
        requires
            old(doc).next_identity < u64::MAX,
        ensures
            final(doc)@ == (DocV {
                next_identity: (old(doc)@.next_identity + 1) as u64,
                ..old(doc)@
            }),
            r@.len() == 2,
            r@[0]@ == (ObjV {
                values: Seq::new(
                    self.resource.fonts@.len(),
                    |i: int|
                        if 0 <= i < self.resource.fonts@.len() {
                            font_prim(
                                self.resource.fonts@[i].base@,
                                self.resource.fonts@[i].identifier@,
                            )
                        } else {
                            PrimV::ParentRef
                        },
                ),
                number: None,
                identity: Some(old(doc).next_identity),
            }),
            r@[1]@ == (ObjV {
                values: seq![page_prim(old(doc).next_identity, self.mediabox)],
                number: None,
                identity: None,
            }),
    {
        let mediabox = self.mediabox;
        let mut resource_obj = self.resource.into_object();
        let rid = resource_obj.identity(doc);
        let mut pairs: Vec<(String, Primitive)> = Vec::new();
        pairs.push(Primitive::pair("Type", Primitive::name("Page")));
        pairs.push(Primitive::pair("Resource", Primitive::deferred(rid)));
        pairs.push(Primitive::pair("MediaBox", mediabox.to_primitive()));
        let mut page_values: Vec<Primitive> = Vec::new();
        page_values.push(Primitive::dict(pairs));
        let page_obj = Object::new(page_values);
        proof {
            assert(page_obj@.values[0]->Dict_0 =~= page_prim(rid, mediabox)->Dict_0);
            assert(page_obj@.values[0] =~= page_prim(rid, mediabox));
            assert(page_obj@.values =~= seq![page_prim(rid, mediabox)]);
        }
        let mut r: Vec<Object> = Vec::new();
        r.push(resource_obj);
        r.push(page_obj);
        r
    }
}

} // verus!
