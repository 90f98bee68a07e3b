//! The document: the ordered arena of indirect objects, identity issuance,
//! and the one-shot numbering / reference-resolution pass.
use crate::object::{ObjV, Object, RawObject};
use crate::prim::{
    first_unres_elems, lookup_from, lookup_number, prims_view, resolvable, rewrite_exec, rewrite_spec,
    first_unres_exec, lemma_first_unres_elems_none_iff, lemma_rewrite_fully_resolved,
    fully_resolved, Primitive,
};
use crate::DocError;
use vstd::prelude::*;

verus! {

/// A document under construction: the exclusive owner of its objects, in
/// append order, together with the identity counter and the two lifecycle
/// guards.
///
/// Lifecycle: empty, then producers append and take identities, then
/// `synthesize_pages` (at most once), then `resolve` (at most once), then
/// `encode`.
pub struct Document {
    /// The objects, in append order; append order determines object numbers.
    pub objects: Vec<Object>,
    /// The next identity token to issue. Every token issued so far is below
    /// this bound.
    pub next_identity: u64,
    /// Whether `resolve` has completed on this document.
    pub resolved: bool,
    /// Whether pages-tree synthesis has run on this document.
    pub pages_built: bool,
}

/// The model of a `Document`.
#[verifier::ext_equal]
pub struct DocV {
    pub objects: Seq<ObjV>,
    pub next_identity: u64,
    pub resolved: bool,
    pub pages_built: bool,
}

/// The models of a sequence of objects, elementwise.
pub open spec fn objs_view(s: Seq<Object>) -> Seq<ObjV> {
    Seq::new(s.len(), |i: int| s[i]@)
}

impl View for Document {
    type V = DocV;

    open spec fn view(&self) -> DocV {
        DocV {
            objects: objs_view(self.objects@),
            next_identity: self.next_identity,
            resolved: self.resolved,
            pages_built: self.pages_built,
        }
    }
}

/// The identity column of a document: entry `j` holds the identity of the
/// object at index `j`.
pub open spec fn doc_ids(d: DocV) -> Seq<Option<u64>> {
    Seq::new(d.objects.len(), |i: int| d.objects[i].identity)
}

/// Whether every root tree of the object is resolvable under `ids`.
pub open spec fn obj_resolvable(o: ObjV, ids: Seq<Option<u64>>) -> bool {
    forall|k: int| 0 <= k < o.values.len() ==> resolvable(#[trigger] o.values[k], ids)
}

/// Whether resolution succeeds on the whole document: no dangling deferred
/// identity and no leftover parent sentinel anywhere.
pub open spec fn doc_resolvable(d: DocV) -> bool {
    forall|j: int|
        0 <= j < d.objects.len() ==> obj_resolvable(#[trigger] d.objects[j], doc_ids(d))
}

/// The first resolution failure in the document, scanning objects from index
/// `j` on and each object's root trees in order: the failing object's index,
/// with the dangling identity (`None` for a parent sentinel).
pub open spec fn doc_first_unres_from(
    objs: Seq<ObjV>,
    ids: Seq<Option<u64>>,
    j: int,
) -> Option<(int, Option<u64>)>
    decreases objs.len() - j,
{
    if j < 0 || j >= objs.len() {
        None
    } else {
        match first_unres_elems(objs[j].values, ids, 0) {
            Some(w) => Some((j, w)),
            None => doc_first_unres_from(objs, ids, j + 1),
        }
    }
}

/// The resolved form of the document: object `j` receives number `j + 1`,
/// every root tree is rewritten under the identity column, and the document
/// is marked resolved. Identities and the other state are kept.
pub open spec fn resolve_result(d: DocV) -> DocV {
    DocV {
        objects: Seq::new(
            d.objects.len(),
            |j: int|
                if 0 <= j < d.objects.len() {
                    ObjV {
                        values: Seq::new(
                            d.objects[j].values.len(),
                            |k: int|
                                if 0 <= k < d.objects[j].values.len() {
                                    rewrite_spec(d.objects[j].values[k], doc_ids(d))
                                } else {
                                    crate::prim::PrimV::ParentRef
                                },
                        ),
                        number: Some((j + 1) as u64),
                        identity: d.objects[j].identity,
                    }
                } else {
                    d.objects[j]
                },
        ),
        resolved: true,
        ..d
    }
}

impl Document {
    /// An empty document: no objects, no identities issued, neither pass run.
    pub fn new() -> (r: Document)
        ensures
            r@ == (DocV {
                objects: Seq::<ObjV>::empty(),
                next_identity: 0,
                resolved: false,
                pages_built: false,
            }),
    {
        let r = Document { objects: Vec::new(), next_identity: 0, resolved: false, pages_built: false };
        proof {
            assert(r@.objects =~= Seq::<ObjV>::empty());
            assert(r@ =~= (DocV {
                objects: Seq::<ObjV>::empty(),
                next_identity: 0,
                resolved: false,
                pages_built: false,
            }));
        }
        r
    }

    /// Appends one object; it receives the next position in append order.
    pub fn append(&mut self, object: Object)
        ensures
            final(self)@ == (DocV { objects: old(self)@.objects.push(object@), ..old(self)@ }),
    {
        self.objects.push(object);
        proof {
            assert(self@.objects =~= old(self)@.objects.push(object@));
            assert(self@ =~= (DocV { objects: old(self)@.objects.push(object@), ..old(self)@ }));
        }
    }

    /// Appends a batch of objects, keeping their order.
    pub fn appendix(&mut self, objects: Vec<Object>)
        ensures
            final(self)@ == (DocV {
                objects: old(self)@.objects + objs_view(objects@),
                ..old(self)@
            }),
    {
        let mut rest = objects;
        self.objects.append(&mut rest);
        proof {
            assert(self@.objects =~= old(self)@.objects + objs_view(objects@));
            assert(self@ =~= (DocV {
                objects: old(self)@.objects + objs_view(objects@),
                ..old(self)@
            }));
        }
    }
}

proof fn lemma_doc_scan_none(objs: Seq<ObjV>, ids: Seq<Option<u64>>, j: int)
    requires
        0 <= j <= objs.len(),
        doc_first_unres_from(objs, ids, j) is None,
    ensures
        forall|t: int|
            j <= t < objs.len() ==> first_unres_elems((#[trigger] objs[t]).values, ids, 0)
                is None,
    decreases objs.len() - j,
{
    if j < objs.len() {
        lemma_doc_scan_none(objs, ids, j + 1);
    }
}

/// Identity tokens are well formed: every token an object holds is below the
/// counter, and no two objects hold the same token. The token issuance path
/// (`Object::identity` followed by `append`) maintains this.
pub open spec fn wf_identities(d: DocV) -> bool {
    &&& forall|j: int|
        0 <= j < d.objects.len() && (#[trigger] d.objects[j].identity) is Some
            ==> d.objects[j].identity->0 < d.next_identity
    &&& forall|i: int, j: int|
        0 <= i < j < d.objects.len() && (#[trigger] d.objects[i].identity) is Some && (
        #[trigger] d.objects[j].identity) is Some ==> d.objects[i].identity
            != d.objects[j].identity
}

/// Taking a fresh token and then appending keeps identity tokens well
/// formed: the appended object's token (where it has one) is below the
/// counter and no object of the document already holds it.
pub proof fn lemma_wf_append(d: DocV, o: ObjV)
    requires
        wf_identities(d),
        o.identity is Some ==> o.identity->0 < d.next_identity && (forall|j: int|
            0 <= j < d.objects.len() ==> (#[trigger] d.objects[j].identity) != o.identity),
    ensures
        wf_identities(DocV { objects: d.objects.push(o), ..d }),
{
    let d2 = DocV { objects: d.objects.push(o), ..d };
    assert forall|j: int|
        0 <= j < d2.objects.len() && (#[trigger] d2.objects[j].identity) is Some implies d2.objects[j].identity->0
        < d2.next_identity by {
        if j < d.objects.len() {
            assert(d2.objects[j] == d.objects[j]);
        } else {
            assert(d2.objects[j] == o);
        }
    }
    assert forall|a: int, b: int|
        0 <= a < b < d2.objects.len() && (#[trigger] d2.objects[a].identity) is Some && (
        #[trigger] d2.objects[b].identity) is Some implies d2.objects[a].identity
        != d2.objects[b].identity by {
        assert(d2.objects[a] == d.objects[a]);
        if b < d.objects.len() {
            assert(d2.objects[b] == d.objects[b]);
        } else {
            assert(d2.objects[b] == o);
        }
    }
}

/// After resolution every object's number is exactly its index plus one, so
/// the numbers are pairwise distinct and form the contiguous range
/// `1 ..= N` in append order.
pub proof fn lemma_numbers_distinct(d: DocV)
    requires
        d.objects.len() <= u64::MAX,
    ensures
        forall|j: int|
            0 <= j < resolve_result(d).objects.len() ==> (#[trigger] resolve_result(
                d,
            ).objects[j].number) == Some((j + 1) as u64),
        forall|i: int, j: int|
            0 <= i < j < resolve_result(d).objects.len() ==> resolve_result(d).objects[i].number
                != resolve_result(d).objects[j].number,
{
    assert forall|i: int, j: int|
        0 <= i < j < resolve_result(d).objects.len() implies resolve_result(d).objects[i].number
        != resolve_result(d).objects[j].number by {
        assert(resolve_result(d).objects[i].number == Some((i + 1) as u64));
        assert(resolve_result(d).objects[j].number == Some((j + 1) as u64));
        assert((i + 1) as u64 != (j + 1) as u64);
    }
}

/// For a document with no dangling references, resolution leaves zero
/// `Deferred` and zero `ParentRef` nodes in any tree.
pub proof fn lemma_resolve_fully_resolved(d: DocV)
    requires
        doc_resolvable(d),
    ensures
        forall|j: int, k: int|
            0 <= j < resolve_result(d).objects.len() && 0 <= k < resolve_result(
                d,
            ).objects[j].values.len() ==> fully_resolved(
                #[trigger] resolve_result(d).objects[j].values[k],
            ),
{
    assert forall|j: int, k: int|
        0 <= j < resolve_result(d).objects.len() && 0 <= k < resolve_result(
            d,
        ).objects[j].values.len() implies fully_resolved(
        #[trigger] resolve_result(d).objects[j].values[k],
    ) by {
        assert(obj_resolvable(d.objects[j], doc_ids(d)));
        assert(resolvable(d.objects[j].values[k], doc_ids(d)));
        lemma_rewrite_fully_resolved(d.objects[j].values[k], doc_ids(d));
        assert(resolve_result(d).objects[j].values[k] == rewrite_spec(
            d.objects[j].values[k],
            doc_ids(d),
        ));
    }
}

proof fn lemma_lookup_at(ids: Seq<Option<u64>>, id: u64, b: int, i: int)
    requires
        ids.len() <= u64::MAX,
        0 <= i <= b < ids.len(),
        ids[b] == Some(id),
        forall|j: int| 0 <= j < b ==> ids[j] != Some(id),
    ensures
        lookup_from(ids, id, i) == Some((b + 1) as u64),
    decreases b - i,
{
    if i < b {
        lemma_lookup_at(ids, id, b, i + 1);
    }
}

/// A root value holding `Deferred(identity(B))` resolves to
/// `Reference(number(B))`: under well-formed identity tokens, the rewrite
/// maps the token of the object at index `b` to the number `b + 1` that
/// resolution assigns to it.
pub proof fn lemma_deferred_resolves_to_target(d: DocV, a: int, k: int, b: int, id: u64)
    requires
        wf_identities(d),
        d.objects.len() <= u64::MAX,
        0 <= a < d.objects.len(),
        0 <= k < d.objects[a].values.len(),
        d.objects[a].values[k] == crate::prim::PrimV::Deferred(id),
        0 <= b < d.objects.len(),
        d.objects[b].identity == Some(id),
    ensures
        resolve_result(d).objects[a].values[k] == crate::prim::PrimV::Reference((b + 1) as u64),
{
    let ids = doc_ids(d);
    assert forall|j: int| 0 <= j < b implies ids[j] != Some(id) by {
        assert(d.objects[j].identity != d.objects[b].identity || d.objects[j].identity is None);
    }
    lemma_lookup_at(ids, id, b, 0);
    assert(lookup_number(ids, id) == Some((b + 1) as u64));
    assert(resolve_result(d).objects[a].values[k] == rewrite_spec(d.objects[a].values[k], ids));
}

impl Document {
    /// Numbers every object and rewrites every deferred reference, once.
    ///
    /// Walks the objects in append order and assigns object `j` the number
    /// `j + 1`; then rewrites every `Deferred` node, anywhere in any root
    /// tree, into a `Reference` to the number of the first object carrying
    /// that identity. A second call is refused with `DoubleResolve`. A
    /// deferred identity that no object carries, or a `ParentRef` sentinel
    /// that synthesis did not eliminate, is refused with
    /// `DanglingReference`, naming the first offending object (and the
    /// identity, where there is one); the document is then left unchanged.
    pub fn resolve(&mut self) -> (r: Result<(), DocError>)
        ensures
            old(self).resolved ==> r == Err::<(), DocError>(DocError::DoubleResolve)
                && *final(self) == *old(self),
            !old(self).resolved && doc_resolvable(old(self)@) ==> r == Ok::<(), DocError>(())
                && final(self)@ == resolve_result(old(self)@),
            !old(self).resolved && !doc_resolvable(old(self)@) ==> *final(self) == *old(self)
                && (doc_first_unres_from(old(self)@.objects, doc_ids(old(self)@), 0) matches Some(
                (j, w),
            ) && r == Err::<(), DocError>(
                DocError::DanglingReference { object: j as usize, identity: w },
            )),
    {
        if self.resolved {
            return Err(DocError::DoubleResolve);
        }
        let ghost d0 = self@;
        let n = self.objects.len();

        // The identity column: entry j is the identity of the object at j.
        let mut ids: Vec<Option<u64>> = Vec::new();
        let mut j: usize = 0;
        while j < n
            invariant
                n == self.objects@.len(),
                *self == *old(self),
                !old(self).resolved,
                d0 == self@,
                j <= n,
                ids@.len() == j,
                forall|t: int| 0 <= t < j ==> ids@[t] == doc_ids(d0)[t],
            decreases n - j,
        {
            ids.push(self.objects[j].identity);
            j += 1;
        }
        proof {
            assert(ids@ =~= doc_ids(d0));
        }

        // Check pass: search for the first node that cannot resolve, before
        // anything is written.
        let mut j: usize = 0;
        while j < n
            invariant
                n == self.objects@.len(),
                *self == *old(self),
                !old(self).resolved,
                d0 == self@,
                ids@ == doc_ids(d0),
                j <= n,
                doc_first_unres_from(d0.objects, ids@, 0) == doc_first_unres_from(
                    d0.objects,
                    ids@,
                    j as int,
                ),
            decreases n - j,
        {
            let obj = &self.objects[j];
            proof {
                assert(obj@ == d0.objects[j as int]);
            }
            let m = obj.raw.inner.len();
            let mut k: usize = 0;
            while k < m
                invariant
                    n == self.objects@.len(),
                    *self == *old(self),
                    !old(self).resolved,
                    d0 == self@,
                    ids@ == doc_ids(d0),
                    j < n,
                    doc_first_unres_from(d0.objects, ids@, 0) == doc_first_unres_from(
                        d0.objects,
                        ids@,
                        j as int,
                    ),
                    *obj == self.objects@[j as int],
                    obj@ == d0.objects[j as int],
                    m == obj.raw.inner@.len(),
                    k <= m,
                    first_unres_elems(d0.objects[j as int].values, ids@, 0) == first_unres_elems(
                        d0.objects[j as int].values,
                        ids@,
                        k as int,
                    ),
                decreases m - k,
            {
                let w = first_unres_exec(&obj.raw.inner[k], &ids);
                proof {
                    assert(d0.objects[j as int].values[k as int] == obj.raw.inner@[k as int]@);
                }
                match w {
                    Some(bad) => {
                        proof {
                            assert(first_unres_elems(d0.objects[j as int].values, ids@, 0)
                                == Some(bad));
                            assert(doc_first_unres_from(d0.objects, ids@, 0) == Some((
                                j as int,
                                bad,
                            )));
                            lemma_first_unres_elems_none_iff(
                                d0.objects[j as int].values,
                                ids@,
                                0,
                            );
                            assert(!obj_resolvable(d0.objects[j as int], doc_ids(d0)));
                            assert(!doc_resolvable(d0));
                            assert(doc_first_unres_from(
                                old(self)@.objects,
                                doc_ids(old(self)@),
                                0,
                            ) == Some((j as int, bad)));
                        }
                        return Err(DocError::DanglingReference { object: j, identity: bad });
                    },
                    None => {},
                }
                k += 1;
            }
            j += 1;
        }
        proof {
            assert(doc_first_unres_from(d0.objects, ids@, 0) is None);
            lemma_doc_scan_none(d0.objects, ids@, 0);
            assert forall|t: int| 0 <= t < d0.objects.len() implies obj_resolvable(
                #[trigger] d0.objects[t],
                doc_ids(d0),
            ) by {
                lemma_first_unres_elems_none_iff(d0.objects[t].values, ids@, 0);
            }
            assert(doc_resolvable(d0));
        }

        // Write pass: numbers in append order, then the rewritten trees.
        let mut new_objs: Vec<Object> = Vec::new();
        let mut j: usize = 0;
        while j < n
            invariant
                n == self.objects@.len(),
                *self == *old(self),
                !old(self).resolved,
                d0 == self@,
                ids@ == doc_ids(d0),
                j <= n,
                new_objs@.len() == j,
                forall|t: int|
                    0 <= t < j ==> #[trigger] new_objs@[t]@ == resolve_result(d0).objects[t],
            decreases n - j,
        {
            let obj = &self.objects[j];
            proof {
                assert(obj@ == d0.objects[j as int]);
            }
            let m = obj.raw.inner.len();
            let mut vals: Vec<Primitive> = Vec::new();
            let mut k: usize = 0;
            while k < m
                invariant
                    *obj == self.objects@[j as int],
                    obj@ == d0.objects[j as int],
                    ids@ == doc_ids(d0),
                    m == obj.raw.inner@.len(),
                    k <= m,
                    vals@.len() == k,
                    forall|t: int|
                        0 <= t < k ==> #[trigger] vals@[t]@ == rewrite_spec(
                            d0.objects[j as int].values[t],
                            ids@,
                        ),
                decreases m - k,
            {
                let p = rewrite_exec(&obj.raw.inner[k], &ids);
                proof {
                    assert(d0.objects[j as int].values[k as int] == obj.raw.inner@[k as int]@);
                }
                vals.push(p);
                k += 1;
            }
            let number_val = (j as u64) + 1;
            let new_obj = Object {
                raw: RawObject { inner: vals, number: Some(number_val) },
                identity: obj.identity,
            };
            proof {
                let target = resolve_result(d0).objects[j as int];
                assert(prims_view(new_obj.raw.inner@) =~= target.values);
                assert(new_obj@ =~= target);
            }
            new_objs.push(new_obj);
            j += 1;
        }
        self.objects = new_objs;
        self.resolved = true;
        proof {
            assert(self@.objects =~= resolve_result(d0).objects);
            assert(self@ =~= resolve_result(d0));
        }
        Ok(())
    }
}

} // verus!
