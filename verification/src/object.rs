//! Indirect objects: the payload of root values with a lazily assigned
//! number, and the stable identity token that lets producers reference an
//! object before it is appended or numbered.
use crate::document::{DocV, Document};
use crate::prim::{prims_view, PrimV, Primitive};
use vstd::prelude::*;

verus! {

/// The payload of an indirect object: its root values in order, and the
/// object number that resolution assigns.
pub struct RawObject {
    pub inner: Vec<Primitive>,
    pub number: Option<u64>,
}

impl RawObject {
    /// A payload over the given root values, not yet numbered.
    pub fn new(inner: Vec<Primitive>) -> (r: RawObject)
        ensures
            r.inner == inner,
            r.number is None,
    {
        RawObject { inner, number: None }
    }
}

/// The model of an `Object`: root value models, number, identity.
#[verifier::ext_equal]
pub struct ObjV {
    pub values: Seq<PrimV>,
    pub number: Option<u64>,
    pub identity: Option<u64>,
}

/// An indirect object: its payload plus an optional identity token. The
/// token, once taken, stays with the object wherever it moves, so a deferred
/// reference through it stays valid independent of the object's position.
pub struct Object {
    pub raw: RawObject,
    pub identity: Option<u64>,
}

impl View for Object {
    type V = ObjV;

    open spec fn view(&self) -> ObjV {
        ObjV {
            values: prims_view(self.raw.inner@),
            number: self.raw.number,
            identity: self.identity,
        }
    }
}

impl Object {
    /// A fresh object over the given root values: unnumbered, without an
    /// identity token.
    pub fn new(values: Vec<Primitive>) -> (r: Object)
        ensures
            r@ == (ObjV { values: prims_view(values@), number: None, identity: None }),
    {
        Object { raw: RawObject::new(values), identity: None }
    }

    /// The object's stable identity token, for use in deferred references.
    ///
    /// The first call draws a fresh token from the document's counter and
    /// pins it to the object; later calls return the same token and leave
    /// the document untouched. The payload is never affected.
    pub fn identity(&mut self, doc: &mut Document) -> (id: u64)
        requires
            old(self).identity is None ==> old(doc).next_identity < u64::MAX,
        ensures
            final(self)@ == (ObjV { identity: Some(id), ..old(self)@ }),
            old(self).identity is Some ==> Some(id) == old(self).identity && *final(doc) == *old(
                doc,
            ),
            old(self).identity is None ==> id == old(doc).next_identity && final(doc)@ == (DocV {
                next_identity: (old(doc).next_identity + 1) as u64,
                ..old(doc)@
            }),
    {
        match self.identity {
            Some(id) => id,
            None => {
                let id = doc.next_identity;
                doc.next_identity = doc.next_identity + 1;
                self.identity = Some(id);
                proof {
                    assert(self@ =~= (ObjV { identity: Some(id), ..old(self)@ }));
                    assert(doc@ =~= (DocV {
                        next_identity: (old(doc).next_identity + 1) as u64,
                        ..old(doc)@
                    }));
                }
                id
            },
        }
    }

    /// Applies `f` to the payload, by exchange: `f` consumes the payload and
    /// hands back its replacement together with the result. The identity
    /// token is untouched.
    pub fn fmap<R>(&mut self, f: impl FnOnce(RawObject) -> (RawObject, R)) -> (r: R)
        requires
            call_requires(f, (old(self).raw,)),
        ensures
            final(self).identity == old(self).identity,
            call_ensures(f, (old(self).raw,), (final(self).raw, r)),
    {
        let mut taken = RawObject { inner: Vec::new(), number: None };
        core::mem::swap(&mut taken, &mut self.raw);
        let (replacement, r) = f(taken);
        self.raw = replacement;
        r
    }

    /// Applies `f` to a view of the payload.
    pub fn fmap_ref<R>(&self, f: impl FnOnce(&RawObject) -> R) -> (r: R)
        requires
            call_requires(f, (&self.raw,)),
        ensures
            call_ensures(f, (&self.raw,), r),
    {
        f(&self.raw)
    }

    /// The payload, for mutation in place.
    pub fn project(&mut self) -> (r: &mut RawObject)
        ensures
            *r == old(self).raw,
            final(self).raw == *final(r),
            final(self).identity == old(self).identity,
    {
        &mut self.raw
    }

    /// The payload, read-only.
    pub fn project_ref(&self) -> (r: &RawObject)
        ensures
            *r == self.raw,
    {
        &self.raw
    }
}

} // verus!
