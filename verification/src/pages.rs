//! Pages-tree synthesis: before resolution, the page-typed objects are
//! collected, a `Pages` container and a `Catalog` are synthesized, and every
//! page's parent sentinel is pointed at the container.
use crate::document::{DocV, Document};
use crate::object::{ObjV, Object, RawObject};
use crate::prim::{
    is_type_spec, parent_rewrite_exec, parent_rewrite_spec, prims_view, PrimV, Primitive,
};
use crate::DocError;
use vstd::prelude::*;

verus! {

/// Whether one of the object's root trees carries `Type = ty`.
pub open spec fn has_type(o: ObjV, ty: Seq<char>) -> bool {
    exists|k: int| 0 <= k < o.values.len() && is_type_spec(#[trigger] o.values[k], ty)
}

/// Whether the object is page-typed.
pub open spec fn is_page(o: ObjV) -> bool {
    has_type(o, "Page"@)
}

/// The number of page-typed objects among the first `j`.
pub open spec fn page_count_upto(objs: Seq<ObjV>, j: int) -> int
    decreases j,
{
    if j <= 0 {
        0
    } else {
        page_count_upto(objs, j - 1) + if is_page(objs[j - 1]) {
            1int
        } else {
            0int
        }
    }
}

/// The number of page-typed objects among the first `j` that hold no
/// identity token yet; synthesis issues each of them a fresh token.
pub open spec fn fresh_page_count_upto(objs: Seq<ObjV>, j: int) -> int
    decreases j,
{
    if j <= 0 {
        0
    } else {
        fresh_page_count_upto(objs, j - 1) + if is_page(objs[j - 1]) && objs[j - 1].identity
            is None {
            1int
        } else {
            0int
        }
    }
}

/// The identity token the page at index `j` carries after synthesis: its own
/// where it already had one, else the next fresh token in index order.
pub open spec fn page_token(objs: Seq<ObjV>, start: u64, j: int) -> u64 {
    match objs[j].identity {
        Some(id) => id,
        None => (start + fresh_page_count_upto(objs, j)) as u64,
    }
}

/// The identity token of the synthesized pages container: the first token
/// not handed to a page.
pub open spec fn pages_token(objs: Seq<ObjV>, start: u64) -> u64 {
    (start + fresh_page_count_upto(objs, objs.len() as int)) as u64
}

/// The kids column: the tokens of the page-typed objects among the first
/// `j`, in append order.
pub open spec fn kids_upto(objs: Seq<ObjV>, start: u64, j: int) -> Seq<u64>
    decreases j,
{
    if j <= 0 {
        Seq::empty()
    } else {
        kids_upto(objs, start, j - 1) + if is_page(objs[j - 1]) {
            seq![page_token(objs, start, j - 1)]
        } else {
            Seq::<u64>::empty()
        }
    }
}

/// An object after synthesis: a page holds its token and its parent
/// sentinels point at the pages container; any other object is kept as it
/// was.
pub open spec fn synth_obj(objs: Seq<ObjV>, start: u64, pid: u64, j: int) -> ObjV {
    let o = objs[j];
    if is_page(o) {
        ObjV {
            values: Seq::new(
                o.values.len(),
                |k: int|
                    if 0 <= k < o.values.len() {
                        parent_rewrite_spec(o.values[k], pid)
                    } else {
                        PrimV::ParentRef
                    },
            ),
            number: o.number,
            identity: Some(page_token(objs, start, j)),
        }
    } else {
        o
    }
}

/// The synthesized pages container: `Type = Pages`, the page count, and the
/// kids as deferred references to the page tokens, in append order.
pub open spec fn pages_object(objs: Seq<ObjV>, start: u64) -> ObjV {
    let kids = kids_upto(objs, start, objs.len() as int);
    ObjV {
        values: seq![
            PrimV::Dict(
                seq![
                    ("Type"@, PrimV::Name("Pages"@)),
                    ("Count"@, PrimV::Number(kids.len() as u64)),
                    (
                        "Kids"@,
                        PrimV::Array(
                            Seq::new(
                                kids.len(),
                                |i: int|
                                    if 0 <= i < kids.len() {
                                        PrimV::Deferred(kids[i])
                                    } else {
                                        PrimV::ParentRef
                                    },
                            ),
                        ),
                    ),
                ],
            ),
        ],
        number: None,
        identity: Some(pages_token(objs, start)),
    }
}

/// The synthesized catalog: `Type = Catalog` with a deferred reference to
/// the pages container.
pub open spec fn catalog_object(objs: Seq<ObjV>, start: u64) -> ObjV {
    ObjV {
        values: seq![
            PrimV::Dict(
                seq![
                    ("Type"@, PrimV::Name("Catalog"@)),
                    ("Pages"@, PrimV::Deferred(pages_token(objs, start))),
                ],
            ),
        ],
        number: None,
        identity: None,
    }
}

/// The document after pages-tree synthesis: every page carries a token and
/// points its parent sentinels at the pages container, which is appended,
/// followed by the catalog.
pub open spec fn synth_result(d: DocV) -> DocV {
    let pid = pages_token(d.objects, d.next_identity);
    DocV {
        objects: Seq::new(
            d.objects.len(),
            |j: int|
                if 0 <= j < d.objects.len() {
                    synth_obj(d.objects, d.next_identity, pid, j)
                } else {
                    d.objects[j]
                },
        ).push(pages_object(d.objects, d.next_identity)).push(
            catalog_object(d.objects, d.next_identity),
        ),
        next_identity: (pid + 1) as u64,
        pages_built: true,
        resolved: d.resolved,
    }
}

/// Counts never decrease as the scan extends.
proof fn lemma_fresh_count_monotone(objs: Seq<ObjV>, i: int, j: int)
    requires
        i <= j,
    ensures
        fresh_page_count_upto(objs, i) <= fresh_page_count_upto(objs, j),
        0 <= fresh_page_count_upto(objs, j) - fresh_page_count_upto(objs, i) <= j - i,
    decreases j - i,
{
    if i < j {
        lemma_fresh_count_monotone(objs, i, j - 1);
    }
}

/// The kids column is exactly as long as the page count.
proof fn lemma_kids_len(objs: Seq<ObjV>, start: u64, j: int)
    ensures
        kids_upto(objs, start, j).len() == page_count_upto(objs, j),
        0 <= page_count_upto(objs, j) <= (if j < 0 {
            0int
        } else {
            j
        }),
    decreases j,
{
    if j > 0 {
        lemma_kids_len(objs, start, j - 1);
    }
}

/// Every kid token belongs to an earlier page, or is one of the fresh
/// tokens handed out so far; no token appears twice.
proof fn lemma_kids_distinct(objs: Seq<ObjV>, start: u64, j: int)
    requires
        j <= objs.len(),
        start + fresh_page_count_upto(objs, objs.len() as int) <= u64::MAX,
        forall|t: int|
            0 <= t < objs.len() && (#[trigger] objs[t].identity) is Some ==> objs[t].identity->0
                < start,
        forall|a: int, b: int|
            0 <= a < b < objs.len() && (#[trigger] objs[a].identity) is Some && (
            #[trigger] objs[b].identity) is Some ==> objs[a].identity != objs[b].identity,
    ensures
        forall|a: int, b: int|
            0 <= a < b < kids_upto(objs, start, j).len() ==> kids_upto(objs, start, j)[a]
                != kids_upto(objs, start, j)[b],
        forall|t: int|
            0 <= t < kids_upto(objs, start, j).len() ==> ((exists|p: int|
                0 <= p < j && is_page(#[trigger] objs[p]) && objs[p].identity == Some(
                    #[trigger] kids_upto(objs, start, j)[t],
                )) || (start <= kids_upto(objs, start, j)[t] < start + fresh_page_count_upto(
                objs,
                j,
            ))),
    decreases j,
{
    if j > 0 {
        lemma_kids_distinct(objs, start, j - 1);
        lemma_fresh_count_monotone(objs, j, objs.len() as int);
        lemma_fresh_count_monotone(objs, 0, j - 1);
        let prev = kids_upto(objs, start, j - 1);
        let cur = kids_upto(objs, start, j);
        if is_page(objs[j - 1]) {
            let tk = page_token(objs, start, j - 1);
            assert(cur == prev + seq![tk]);
            assert(cur[prev.len() as int] == tk);
            assert forall|t: int| 0 <= t < prev.len() implies cur[t] != tk by {
                assert(cur[t] == prev[t]);
                if exists|p: int|
                    0 <= p < j - 1 && is_page(#[trigger] objs[p]) && objs[p].identity == Some(
                        prev[t],
                    ) {
                    let p = choose|p: int|
                        0 <= p < j - 1 && is_page(#[trigger] objs[p]) && objs[p].identity
                            == Some(prev[t]);
                    assert(prev[t] < start);
                    match objs[j - 1].identity {
                        Some(_) => {
                            assert(objs[p].identity != objs[j - 1].identity);
                        },
                        None => {
                            assert(tk >= start);
                        },
                    }
                } else {
                    assert(start <= prev[t] < start + fresh_page_count_upto(objs, j - 1));
                    match objs[j - 1].identity {
                        Some(_) => {
                            assert(tk < start);
                        },
                        None => {
                            assert(tk == (start + fresh_page_count_upto(objs, j - 1)) as u64);
                        },
                    }
                }
            }
            assert forall|t: int| 0 <= t < cur.len() implies ((exists|p: int|
                0 <= p < j && is_page(#[trigger] objs[p]) && objs[p].identity == Some(
                    #[trigger] cur[t],
                )) || (start <= cur[t] < start + fresh_page_count_upto(objs, j))) by {
                if t < prev.len() {
                    assert(cur[t] == prev[t]);
                } else {
                    assert(cur[t] == tk);
                    match objs[j - 1].identity {
                        Some(_) => {
                            assert(is_page(objs[j - 1]) && objs[j - 1].identity == Some(cur[t]));
                        },
                        None => {
                            assert(start <= cur[t] < start + fresh_page_count_upto(objs, j));
                        },
                    }
                }
            }
        } else {
            assert(cur =~= prev);
        }
    }
}

/// Each page's token stands in the kids column.
proof fn lemma_kids_contains(objs: Seq<ObjV>, start: u64, p: int, j: int)
    requires
        0 <= p < j <= objs.len(),
        is_page(objs[p]),
    ensures
        exists|t: int|
            0 <= t < kids_upto(objs, start, j).len() && kids_upto(objs, start, j)[t] == page_token(
                objs,
                start,
                p,
            ),
    decreases j,
{
    if j == p + 1 {
        let prev = kids_upto(objs, start, p);
        assert(kids_upto(objs, start, j)[prev.len() as int] == page_token(objs, start, p));
    } else {
        lemma_kids_contains(objs, start, p, j - 1);
        let prev = kids_upto(objs, start, j - 1);
        let t = choose|t: int|
            0 <= t < prev.len() && prev[t] == page_token(objs, start, p);
        assert(kids_upto(objs, start, j)[t] == page_token(objs, start, p));
    }
}

/// Pages-tree synthesis, on a document whose producers made no pages
/// container or catalog of their own and whose identity tokens are well
/// formed, yields exactly one `Pages` object — carrying `Count` equal to the
/// number of page-typed objects and a `Kids` array of that many pairwise
/// distinct deferred references, one to each page's token in append order —
/// and exactly one `Catalog`, which refers to the pages container's token.
pub proof fn lemma_pages_synthesis(d: DocV)
    requires
        d.next_identity + fresh_page_count_upto(d.objects, d.objects.len() as int) + 1
            <= u64::MAX,
        forall|j: int|
            0 <= j < d.objects.len() && (#[trigger] d.objects[j].identity) is Some
                ==> d.objects[j].identity->0 < d.next_identity,
        forall|a: int, b: int|
            0 <= a < b < d.objects.len() && (#[trigger] d.objects[a].identity) is Some && (
            #[trigger] d.objects[b].identity) is Some ==> d.objects[a].identity
                != d.objects[b].identity,
        forall|j: int| 0 <= j < d.objects.len() ==> !has_type(#[trigger] d.objects[j], "Pages"@),
        forall|j: int|
            0 <= j < d.objects.len() ==> !has_type(#[trigger] d.objects[j], "Catalog"@),
    ensures
        synth_result(d).objects.len() == d.objects.len() + 2,
        has_type(synth_result(d).objects[d.objects.len() as int], "Pages"@),
        forall|j: int|
            0 <= j < synth_result(d).objects.len() && j != d.objects.len() ==> !has_type(
                #[trigger] synth_result(d).objects[j],
                "Pages"@,
            ),
        has_type(synth_result(d).objects[d.objects.len() as int + 1], "Catalog"@),
        forall|j: int|
            0 <= j < synth_result(d).objects.len() && j != d.objects.len() + 1 ==> !has_type(
                #[trigger] synth_result(d).objects[j],
                "Catalog"@,
            ),
        kids_upto(d.objects, d.next_identity, d.objects.len() as int).len() == page_count_upto(
            d.objects,
            d.objects.len() as int,
        ),
        pages_object(d.objects, d.next_identity).values[0]->Dict_0[1].1 == PrimV::Number(
            page_count_upto(d.objects, d.objects.len() as int) as u64,
        ),
        forall|a: int, b: int|
            0 <= a < b < kids_upto(d.objects, d.next_identity, d.objects.len() as int).len()
                ==> kids_upto(d.objects, d.next_identity, d.objects.len() as int)[a] != kids_upto(
                d.objects,
                d.next_identity,
                d.objects.len() as int,
            )[b],
        forall|p: int|
            0 <= p < d.objects.len() && is_page(#[trigger] d.objects[p]) ==> exists|t: int|
                0 <= t < kids_upto(d.objects, d.next_identity, d.objects.len() as int).len()
                    && kids_upto(d.objects, d.next_identity, d.objects.len() as int)[t]
                    == page_token(d.objects, d.next_identity, p),
        synth_result(d).objects[d.objects.len() as int].identity == Some(
            pages_token(d.objects, d.next_identity),
        ),
        catalog_object(d.objects, d.next_identity).values[0]->Dict_0[1].1 == PrimV::Deferred(
            pages_token(d.objects, d.next_identity),
        ),
{
    let n = d.objects.len() as int;
    let start = d.next_identity;
    let r = synth_result(d);
    lemma_kids_len(d.objects, start, n);
    lemma_kids_distinct(d.objects, start, n);
    assert forall|p: int| 0 <= p < n && is_page(#[trigger] d.objects[p]) implies exists|t: int|
        0 <= t < kids_upto(d.objects, start, n).len() && kids_upto(d.objects, start, n)[t]
            == page_token(d.objects, start, p) by {
        lemma_kids_contains(d.objects, start, p, n);
    }
    reveal_strlit("Type");
    reveal_strlit("Count");
    reveal_strlit("Kids");
    reveal_strlit("Page");
    reveal_strlit("Pages");
    reveal_strlit("Catalog");

    // The pages container is pages-typed; the catalog is catalog-typed.
    let pv = r.objects[n].values[0];
    assert(pv->Dict_0[0] == ("Type"@, PrimV::Name("Pages"@)));
    assert(is_type_spec(pv, "Pages"@));
    let cv = r.objects[n + 1].values[0];
    assert(cv->Dict_0[0] == ("Type"@, PrimV::Name("Catalog"@)));
    assert(is_type_spec(cv, "Catalog"@));

    // No other object is pages-typed.
    assert forall|j: int|
        0 <= j < r.objects.len() && j != n implies !has_type(
        #[trigger] r.objects[j],
        "Pages"@,
    ) by {
        if j < n {
            lemma_synth_obj_keeps_types(d, j, "Pages"@);
        } else {
            // The catalog: neither of its two entries is `Type = Pages`.
            if has_type(r.objects[j], "Pages"@) {
                let k = choose|k: int|
                    0 <= k < r.objects[j].values.len() && is_type_spec(
                        #[trigger] r.objects[j].values[k],
                        "Pages"@,
                    );
                assert(r.objects[j].values[k] == cv);
                let i = choose|i: int|
                    0 <= i < cv->Dict_0.len() && (#[trigger] cv->Dict_0[i]).0 == "Type"@
                        && cv->Dict_0[i].1 == PrimV::Name("Pages"@);
                assert("Pages"@.len() == 5 && "Catalog"@.len() == 7);
                assert(i == 0 || i == 1);
                assert(false);
            }
        }
    }

    // No other object is catalog-typed.
    assert forall|j: int|
        0 <= j < r.objects.len() && j != n + 1 implies !has_type(
        #[trigger] r.objects[j],
        "Catalog"@,
    ) by {
        if j < n {
            lemma_synth_obj_keeps_types(d, j, "Catalog"@);
        } else {
            if has_type(r.objects[j], "Catalog"@) {
                let k = choose|k: int|
                    0 <= k < r.objects[j].values.len() && is_type_spec(
                        #[trigger] r.objects[j].values[k],
                        "Catalog"@,
                    );
                assert(r.objects[j].values[k] == pv);
                let i = choose|i: int|
                    0 <= i < pv->Dict_0.len() && (#[trigger] pv->Dict_0[i]).0 == "Type"@
                        && pv->Dict_0[i].1 == PrimV::Name("Catalog"@);
                assert("Catalog"@.len() == 7 && "Pages"@.len() == 5);
                assert("Count"@.len() == 5 && "Kids"@.len() == 4 && "Type"@.len() == 4);
                assert(i == 0 || i == 1 || i == 2);
                assert(false);
            }
        }
    }
}

/// An object the producers appended carries a `Type = ty` entry after
/// synthesis exactly where it did before.
proof fn lemma_synth_obj_keeps_types(d: DocV, j: int, ty: Seq<char>)
    requires
        0 <= j < d.objects.len(),
        !has_type(d.objects[j], ty),
    ensures
        !has_type(
            synth_obj(
                d.objects,
                d.next_identity,
                pages_token(d.objects, d.next_identity),
                j,
            ),
            ty,
        ),
{
    let pid = pages_token(d.objects, d.next_identity);
    let o = d.objects[j];
    let so = synth_obj(d.objects, d.next_identity, pid, j);
    if is_page(o) {
        if has_type(so, ty) {
            let k = choose|k: int|
                0 <= k < so.values.len() && is_type_spec(#[trigger] so.values[k], ty);
            assert(so.values[k] == parent_rewrite_spec(o.values[k], pid));
            crate::prim::lemma_parent_rewrite_is_type(o.values[k], pid, ty);
            assert(is_type_spec(o.values[k], ty));
            assert(false);
        }
    }
}

impl Document {
    /// Synthesizes the pages tree, once.
    ///
    /// Scans the objects in append order for page-typed ones (`Type = Page`),
    /// issues an identity token to each page that has none, rewrites each
    /// page's `ParentRef` sentinels into deferred references to the pages
    /// container, and appends the `Pages` container (`Type = Pages`,
    /// `Count`, `Kids`) followed by the `Catalog` referencing it. Both new
    /// objects take part in resolution like any other. A second call is
    /// refused with `DuplicatePagesSynthesis` and changes nothing.
    pub fn synthesize_pages(&mut self) -> (r: Result<(), DocError>)
        requires
            !old(self).pages_built ==> old(self)@.next_identity + fresh_page_count_upto(
                old(self)@.objects,
                old(self)@.objects.len() as int,
            ) + 1 <= u64::MAX,
        ensures
            old(self).pages_built ==> r == Err::<(), DocError>(DocError::DuplicatePagesSynthesis)
                && *final(self) == *old(self),
            !old(self).pages_built ==> r == Ok::<(), DocError>(()) && final(self)@ == synth_result(
                old(self)@,
            ),
    {
        if self.pages_built {
            return Err(DocError::DuplicatePagesSynthesis);
        }
        let ghost d0 = self@;
        let n = self.objects.len();
        let start = self.next_identity;

        // Scan pass, read-only: which objects are pages, which token each
        // page will carry, and the kids column.
        let mut assigned: Vec<Option<u64>> = Vec::new();
        let mut kids: Vec<u64> = Vec::new();
        let mut fresh: u64 = 0;
        let mut j: usize = 0;
        while j < n
            invariant
                n == self.objects@.len(),
                *self == *old(self),
                d0 == self@,
                !old(self).pages_built,
                start == d0.next_identity,
                d0.next_identity + fresh_page_count_upto(d0.objects, n as int) + 1 <= u64::MAX,
                j <= n,
                fresh == fresh_page_count_upto(d0.objects, j as int),
                assigned@.len() == j,
                forall|t: int|
                    0 <= t < j ==> assigned@[t] == (if is_page(d0.objects[t]) {
                        Some(page_token(d0.objects, start, t))
                    } else {
                        None::<u64>
                    }),
                kids@ == kids_upto(d0.objects, start, j as int),
            decreases n - j,
        {
            let obj = &self.objects[j];
            proof {
                assert(obj@ == d0.objects[j as int]);
            }
            let m = obj.raw.inner.len();
            let mut page = false;
            let mut k: usize = 0;
            while k < m
                invariant
                    *obj == self.objects@[j as int],
                    obj@ == d0.objects[j as int],
                    j < n,
                    m == obj.raw.inner@.len(),
                    k <= m,
                    page == exists|t: int|
                        0 <= t < k && is_type_spec(#[trigger] d0.objects[j as int].values[t], "Page"@),
                decreases m - k,
            {
                if obj.raw.inner[k].is_type("Page") {
                    proof {
                        assert(d0.objects[j as int].values[k as int] == obj.raw.inner@[k as int]@);
                    }
                    page = true;
                }
                k += 1;
            }
            proof {
                assert(forall|t: int|
                    0 <= t < m ==> #[trigger] d0.objects[j as int].values[t] == obj.raw.inner@[t]@);
                assert(page == is_page(d0.objects[j as int]));
                lemma_fresh_count_monotone(d0.objects, j as int + 1, n as int);
            }
            if page {
                let tok: u64 = match obj.identity {
                    Some(id) => id,
                    None => {
                        let t = start + fresh;
                        fresh = fresh + 1;
                        t
                    },
                };
                proof {
                    assert(tok == page_token(d0.objects, start, j as int));
                }
                assigned.push(Some(tok));
                kids.push(tok);
            } else {
                assigned.push(None);
            }
            proof {
                assert(kids@ =~= kids_upto(d0.objects, start, j as int + 1));
            }
            j += 1;
        }
        let pid = start + fresh;
        proof {
            assert(pid == pages_token(d0.objects, start));
        }

        // Write pass: move the objects out, putting each back with its token
        // and its parent sentinels rewritten where it is a page.
        let mut rest: Vec<Object> = Vec::new();
        core::mem::swap(&mut rest, &mut self.objects);
        let mut new_objs: Vec<Object> = Vec::new();
        let mut j: usize = 0;
        while j < n
            invariant
                n == d0.objects.len(),
                !old(self).pages_built,
                start == d0.next_identity,
                pid == pages_token(d0.objects, start),
                j <= n,
                rest@.len() == n - j,
                forall|t: int| 0 <= t < n - j ==> #[trigger] rest@[t]@ == d0.objects[j + t],
                assigned@.len() == n,
                forall|t: int|
                    0 <= t < n ==> assigned@[t] == (if is_page(d0.objects[t]) {
                        Some(page_token(d0.objects, start, t))
                    } else {
                        None::<u64>
                    }),
                new_objs@.len() == j,
                forall|t: int|
                    0 <= t < j ==> #[trigger] new_objs@[t]@ == synth_obj(
                        d0.objects,
                        start,
                        pid,
                        t,
                    ),
            decreases n - j,
        {
            let obj = rest.remove(0);
            proof {
                assert(obj@ == d0.objects[j as int]);
            }
            match assigned[j] {
                Some(tok) => {
                    let m = obj.raw.inner.len();
                    let mut vals: Vec<Primitive> = Vec::new();
                    let mut k: usize = 0;
                    while k < m
                        invariant
                            obj@ == d0.objects[j as int],
                            j < n,
                            n == d0.objects.len(),
                            pid == pages_token(d0.objects, start),
                            m == obj.raw.inner@.len(),
                            k <= m,
                            vals@.len() == k,
                            forall|t: int|
                                0 <= t < k ==> #[trigger] vals@[t]@ == parent_rewrite_spec(
                                    d0.objects[j as int].values[t],
                                    pid,
                                ),
                        decreases m - k,
                    {
                        let p = parent_rewrite_exec(&obj.raw.inner[k], pid);
                        proof {
                            assert(d0.objects[j as int].values[k as int] == obj.raw.inner@[k as int]@);
                        }
                        vals.push(p);
                        k += 1;
                    }
                    let new_obj = Object {
                        raw: RawObject { inner: vals, number: obj.raw.number },
                        identity: Some(tok),
                    };
                    proof {
                        let target = synth_obj(d0.objects, start, pid, j as int);
                        assert(prims_view(new_obj.raw.inner@) =~= target.values);
                        assert(new_obj@ =~= target);
                    }
                    new_objs.push(new_obj);
                },
                None => {
                    proof {
                        assert(obj@ == synth_obj(d0.objects, start, pid, j as int));
                    }
                    new_objs.push(obj);
                },
            }
            j += 1;
        }

        // The pages container and the catalog, appended in that order.
        let kid_count = kids.len();
        let mut kid_prims: Vec<Primitive> = Vec::new();
        let mut t: usize = 0;
        while t < kid_count
            invariant
                kid_count == kids@.len(),
                t <= kid_count,
                kid_prims@.len() == t,
                forall|i: int| 0 <= i < t ==> #[trigger] kid_prims@[i]@ == PrimV::Deferred(kids@[i]),
            decreases kid_count - t,
        {
            kid_prims.push(Primitive::deferred(kids[t]));
            t += 1;
        }
        let mut pages_pairs: Vec<(String, Primitive)> = Vec::new();
        pages_pairs.push(Primitive::pair("Type", Primitive::name("Pages")));
        pages_pairs.push(Primitive::pair("Count", Primitive::number(kid_count as u64)));
        pages_pairs.push(Primitive::pair("Kids", Primitive::array(kid_prims)));
        let mut pages_vals: Vec<Primitive> = Vec::new();
        pages_vals.push(Primitive::dict(pages_pairs));
        let pages_obj = Object {
            raw: RawObject { inner: pages_vals, number: None },
            identity: Some(pid),
        };
        proof {
            let target = pages_object(d0.objects, start);
            assert(kids@ == kids_upto(d0.objects, start, n as int));
            assert(pages_obj@.values.len() == 1);
            assert(pages_obj@.values[0]->Dict_0[2].1->Array_0 =~= target.values[0]->Dict_0[2].1->Array_0);
            assert(pages_obj@.values[0]->Dict_0 =~= target.values[0]->Dict_0);
            assert(pages_obj@.values[0] =~= target.values[0]);
            assert(pages_obj@ =~= target);
        }
        new_objs.push(pages_obj);

        let mut cat_pairs: Vec<(String, Primitive)> = Vec::new();
        cat_pairs.push(Primitive::pair("Type", Primitive::name("Catalog")));
        cat_pairs.push(Primitive::pair("Pages", Primitive::deferred(pid)));
        let mut cat_vals: Vec<Primitive> = Vec::new();
        cat_vals.push(Primitive::dict(cat_pairs));
        let cat_obj = Object { raw: RawObject { inner: cat_vals, number: None }, identity: None };
        proof {
            let target = catalog_object(d0.objects, start);
            assert(cat_obj@.values[0]->Dict_0 =~= target.values[0]->Dict_0);
            assert(cat_obj@.values[0] =~= target.values[0]);
            assert(cat_obj@ =~= target);
        }
        new_objs.push(cat_obj);

        self.objects = new_objs;
        self.next_identity = pid + 1;
        self.pages_built = true;
        proof {
            assert(self@.objects =~= synth_result(d0).objects);
            assert(self@ =~= synth_result(d0));
        }
        Ok(())
    }
}

} // verus!
