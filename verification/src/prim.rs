//! The PDF value tree: a recursive tagged union of names, numbers, arrays,
//! ordered dictionaries, stream placeholders and references, together with
//! its mathematical model and the resolution/traversal spec functions.
use vstd::prelude::*;
use vstd::string::StringExecFns;

verus! {

/// A node of the value tree.
///
/// A node's tag is immutable once constructed; resolution replaces whole
/// `Deferred` / `ParentRef` nodes by `Reference` nodes but never rewrites any
/// other tag.
pub enum Primitive {
    /// A PDF name, written `/Name`.
    Name(String),
    /// A non-negative integer, written in decimal.
    Number(u64),
    /// An ordered array, written `[ ... ]`.
    Array(Vec<Primitive>),
    /// An ordered dictionary of (name key, value) pairs; the order is
    /// significant for the output.
    Dict(Vec<(String, Primitive)>),
    /// A raw stream payload; carried by the tree but not encodable.
    Stream(Vec<u8>),
    /// An unresolved reference, by the identity token of the target object.
    Deferred(u64),
    /// A resolved numeric reference, written `n 0 R`.
    Reference(u64),
    /// The structural parent sentinel; pages-tree synthesis turns it into a
    /// deferred reference to the synthesized pages container.
    ParentRef,
}

/// The mathematical model of a `Primitive`: the same tree over `Seq`.
#[verifier::ext_equal]
pub enum PrimV {
    Name(Seq<char>),
    Number(u64),
    Array(Seq<PrimV>),
    Dict(Seq<(Seq<char>, PrimV)>),
    Stream(Seq<u8>),
    Deferred(u64),
    Reference(u64),
    ParentRef,
}

/// The model of a `Primitive`.
pub open spec fn prim_view(p: Primitive) -> PrimV
    decreases p,
{
    match p {
        Primitive::Name(s) => PrimV::Name(s@),
        Primitive::Number(n) => PrimV::Number(n),
        Primitive::Array(elems) => PrimV::Array(
            Seq::new(
                elems@.len(),
                |i: int|
                    if 0 <= i < elems@.len() {
                        prim_view(elems@[i])
                    } else {
                        PrimV::ParentRef
                    },
            ),
        ),
        Primitive::Dict(pairs) => PrimV::Dict(
            Seq::new(
                pairs@.len(),
                |i: int|
                    if 0 <= i < pairs@.len() {
                        (pairs@[i].0@, prim_view(pairs@[i].1))
                    } else {
                        (Seq::empty(), PrimV::ParentRef)
                    },
            ),
        ),
        Primitive::Stream(bytes) => PrimV::Stream(bytes@),
        Primitive::Deferred(id) => PrimV::Deferred(id),
        Primitive::Reference(n) => PrimV::Reference(n),
        Primitive::ParentRef => PrimV::ParentRef,
    }
}

impl View for Primitive {
    type V = PrimV;

    open spec fn view(&self) -> PrimV {
        prim_view(*self)
    }
}

/// The models of a sequence of `Primitive`s, elementwise.
pub open spec fn prims_view(s: Seq<Primitive>) -> Seq<PrimV> {
    Seq::new(s.len(), |i: int| s[i]@)
}

/// The models of a sequence of dictionary pairs, elementwise.
pub open spec fn pairs_view(s: Seq<(String, Primitive)>) -> Seq<(Seq<char>, PrimV)> {
    Seq::new(s.len(), |i: int| (s[i].0@, s[i].1@))
}

/// The model of an array node is the array of the element models.
pub proof fn lemma_view_array(elems: Vec<Primitive>)
    ensures
        prim_view(Primitive::Array(elems)) == PrimV::Array(prims_view(elems@)),
{
    let a = prim_view(Primitive::Array(elems))->Array_0;
    let b = prims_view(elems@);
    assert forall|i: int| 0 <= i < a.len() implies a[i] == b[i] by {
        assert(a[i] == prim_view(elems@[i]));
        assert(b[i] == elems@[i]@);
    }
    assert(a =~= b);
}

/// The model of a dictionary node is the dictionary of the pair models.
pub proof fn lemma_view_dict(pairs: Vec<(String, Primitive)>)
    ensures
        prim_view(Primitive::Dict(pairs)) == PrimV::Dict(pairs_view(pairs@)),
{
    let a = prim_view(Primitive::Dict(pairs))->Dict_0;
    let b = pairs_view(pairs@);
    assert forall|i: int| 0 <= i < a.len() implies a[i] == b[i] by {
        assert(a[i].0 == pairs@[i].0@);
        assert(a[i].1 == prim_view(pairs@[i].1));
        assert(b[i].0 == pairs@[i].0@);
        assert(b[i].1 == pairs@[i].1@);
    }
    assert(a =~= b);
}

/// Whether the tree carries a dictionary entry `Type = ty` either directly or
/// inside a nested array.
pub open spec fn is_type_spec(p: PrimV, ty: Seq<char>) -> bool
    decreases p,
{
    match p {
        PrimV::Array(elems) => exists|i: int|
            0 <= i < elems.len() && is_type_spec(#[trigger] elems[i], ty),
        PrimV::Dict(pairs) => exists|i: int|
            0 <= i < pairs.len() && (#[trigger] pairs[i]).0 == "Type"@ && pairs[i].1
                == PrimV::Name(ty),
        _ => false,
    }
}

/// Whether the tree is free of `Deferred` and `ParentRef` nodes.
pub open spec fn fully_resolved(p: PrimV) -> bool
    decreases p,
{
    match p {
        PrimV::Deferred(_) => false,
        PrimV::ParentRef => false,
        PrimV::Array(elems) => forall|i: int|
            0 <= i < elems.len() ==> fully_resolved(#[trigger] elems[i]),
        PrimV::Dict(pairs) => forall|i: int|
            0 <= i < pairs.len() ==> fully_resolved((#[trigger] pairs[i]).1),
        _ => true,
    }
}

/// The object number the identity `id` resolves to, scanning the identity
/// column from position `i` on: the first object whose identity is `id`
/// yields number `index + 1`.
pub open spec fn lookup_from(ids: Seq<Option<u64>>, id: u64, i: int) -> Option<u64>
    decreases ids.len() - i,
{
    if i < 0 || i >= ids.len() {
        None
    } else if ids[i] == Some(id) {
        Some((i + 1) as u64)
    } else {
        lookup_from(ids, id, i + 1)
    }
}

/// The object number the identity `id` resolves to under the identity column
/// `ids` (entry `j` holds the identity of the object at index `j`).
pub open spec fn lookup_number(ids: Seq<Option<u64>>, id: u64) -> Option<u64> {
    lookup_from(ids, id, 0)
}

/// Whether resolution succeeds on the tree: it holds no `ParentRef`, and
/// every `Deferred` identity is present in the identity column.
pub open spec fn resolvable(p: PrimV, ids: Seq<Option<u64>>) -> bool
    decreases p,
{
    match p {
        PrimV::Deferred(id) => lookup_number(ids, id) is Some,
        PrimV::ParentRef => false,
        PrimV::Array(elems) => forall|i: int|
            0 <= i < elems.len() ==> resolvable(#[trigger] elems[i], ids),
        PrimV::Dict(pairs) => forall|i: int|
            0 <= i < pairs.len() ==> resolvable((#[trigger] pairs[i]).1, ids),
        _ => true,
    }
}

/// The first node of the tree, in depth-first order, on which resolution
/// fails: `Some(Some(id))` for a dangling deferred identity, `Some(None)` for
/// a leftover parent sentinel, `None` when the tree is resolvable.
pub open spec fn first_unresolvable(p: PrimV, ids: Seq<Option<u64>>) -> Option<Option<u64>>
    decreases p, 0int,
{
    match p {
        PrimV::Deferred(id) => if lookup_number(ids, id) is None {
            Some(Some(id))
        } else {
            None
        },
        PrimV::ParentRef => Some(None),
        PrimV::Array(elems) => first_unres_elems(elems, ids, 0),
        PrimV::Dict(pairs) => first_unres_pairs(pairs, ids, 0),
        _ => None,
    }
}

/// The first resolution failure among the elements of `s` from position `i` on.
pub open spec fn first_unres_elems(s: Seq<PrimV>, ids: Seq<Option<u64>>, i: int) -> Option<
    Option<u64>,
>
    decreases s, s.len() - i,
{
    if i < 0 || i >= s.len() {
        None
    } else {
        match first_unresolvable(s[i], ids) {
            Some(w) => Some(w),
            None => first_unres_elems(s, ids, i + 1),
        }
    }
}

/// The first resolution failure among the pair values of `pairs` from
/// position `i` on.
pub open spec fn first_unres_pairs(
    pairs: Seq<(Seq<char>, PrimV)>,
    ids: Seq<Option<u64>>,
    i: int,
) -> Option<Option<u64>>
    decreases pairs, pairs.len() - i,
{
    if i < 0 || i >= pairs.len() {
        None
    } else {
        match first_unresolvable(pairs[i].1, ids) {
            Some(w) => Some(w),
            None => first_unres_pairs(pairs, ids, i + 1),
        }
    }
}

/// The resolved form of the tree: every `Deferred` identity found in the
/// identity column becomes a numeric `Reference`; all other nodes are kept.
pub open spec fn rewrite_spec(p: PrimV, ids: Seq<Option<u64>>) -> PrimV
    decreases p,
{
    match p {
        PrimV::Deferred(id) => match lookup_number(ids, id) {
            Some(n) => PrimV::Reference(n),
            None => PrimV::Deferred(id),
        },
        PrimV::Array(elems) => PrimV::Array(
            Seq::new(
                elems.len(),
                |i: int|
                    if 0 <= i < elems.len() {
                        rewrite_spec(elems[i], ids)
                    } else {
                        PrimV::ParentRef
                    },
            ),
        ),
        PrimV::Dict(pairs) => PrimV::Dict(
            Seq::new(
                pairs.len(),
                |i: int|
                    if 0 <= i < pairs.len() {
                        (pairs[i].0, rewrite_spec(pairs[i].1, ids))
                    } else {
                        (Seq::empty(), PrimV::ParentRef)
                    },
            ),
        ),
        _ => p,
    }
}

/// The tree with every `ParentRef` sentinel replaced by a deferred reference
/// to the identity `pid` (the synthesized pages container).
pub open spec fn parent_rewrite_spec(p: PrimV, pid: u64) -> PrimV
    decreases p,
{
    match p {
        PrimV::ParentRef => PrimV::Deferred(pid),
        PrimV::Array(elems) => PrimV::Array(
            Seq::new(
                elems.len(),
                |i: int|
                    if 0 <= i < elems.len() {
                        parent_rewrite_spec(elems[i], pid)
                    } else {
                        PrimV::ParentRef
                    },
            ),
        ),
        PrimV::Dict(pairs) => PrimV::Dict(
            Seq::new(
                pairs.len(),
                |i: int|
                    if 0 <= i < pairs.len() {
                        (pairs[i].0, parent_rewrite_spec(pairs[i].1, pid))
                    } else {
                        (Seq::empty(), PrimV::ParentRef)
                    },
            ),
        ),
        _ => p,
    }
}

impl Primitive {
    /// A name node from a string slice.
    pub fn name(s: &str) -> (r: Primitive)
        ensures
            r@ == PrimV::Name(s@),
    {
        Primitive::Name(String::from_str(s))
    }

    /// A number node.
    pub fn number(n: u64) -> (r: Primitive)
        ensures
            r@ == PrimV::Number(n),
    {
        Primitive::Number(n)
    }

    /// An array node over the given elements.
    pub fn array(elems: Vec<Primitive>) -> (r: Primitive)
        ensures
            r@ == PrimV::Array(prims_view(elems@)),
    {
        proof {
            lemma_view_array(elems);
        }
        Primitive::Array(elems)
    }

    /// A dictionary pair whose key is taken from a string slice.
    pub fn pair(key: &str, value: Primitive) -> (r: (String, Primitive))
        ensures
            r.0@ == key@,
            r.1 == value,
    {
        (String::from_str(key), value)
    }

    /// A dictionary node over the given pairs.
    pub fn dict(pairs: Vec<(String, Primitive)>) -> (r: Primitive)
        ensures
            r@ == PrimV::Dict(pairs_view(pairs@)),
    {
        proof {
            lemma_view_dict(pairs);
        }
        Primitive::Dict(pairs)
    }

    /// A deferred reference to the object with identity token `id`.
    pub fn deferred(id: u64) -> (r: Primitive)
        ensures
            r@ == PrimV::Deferred(id),
    {
        Primitive::Deferred(id)
    }

    /// Whether the tree carries a dictionary entry `Type = ty` either
    /// directly or inside a nested array.
    pub fn is_type(&self, ty: &str) -> (r: bool)
        ensures
            r == is_type_spec(self@, ty@),
        decreases *self,
    {
        match self {
            Primitive::Array(elems) => {
                let n = elems.len();
                let mut k: usize = 0;
                while k < n
                    invariant
                        n == elems@.len(),
                        k <= n,
                        *self == Primitive::Array(*elems),
                        forall|j: int| 0 <= j < k ==> !is_type_spec(#[trigger] elems@[j]@, ty@),
                    decreases n - k,
                {
                    proof {
                        assert(decreases_to!(*self => self->Array_0));
                        assert(decreases_to!(self->Array_0 => self->Array_0@));
                        assert(decreases_to!(self->Array_0@ => self->Array_0@[k as int]));
                        assert(self->Array_0@[k as int] == elems@[k as int]);
                    }
                    if elems[k].is_type(ty) {
                        proof {
                            lemma_view_array(*elems);
                            let vs = self@->Array_0;
                            assert(vs == prims_view(elems@));
                            assert(vs[k as int] == elems@[k as int]@);
                            assert(exists|i: int|
                                0 <= i < vs.len() && is_type_spec(#[trigger] vs[i], ty@));
                        }
                        return true;
                    }
                    k += 1;
                }
                proof {
                    lemma_view_array(*elems);
                    let vs = self@->Array_0;
                    assert(vs == prims_view(elems@));
                    assert(forall|i: int|
                        0 <= i < vs.len() ==> #[trigger] vs[i] == elems@[i]@);
                }
                false
            },
            Primitive::Dict(pairs) => {
                let type_key = String::from_str("Type");
                let ty_name = String::from_str(ty);
                let n = pairs.len();
                let mut k: usize = 0;
                while k < n
                    invariant
                        n == pairs@.len(),
                        k <= n,
                        *self == Primitive::Dict(*pairs),
                        type_key@ == "Type"@,
                        ty_name@ == ty@,
                        forall|j: int|
                            0 <= j < k ==> !((#[trigger] pairs@[j]).0@ == "Type"@ && pairs@[j].1@
                                == PrimV::Name(ty@)),
                    decreases n - k,
                {
                    if pairs[k].0.eq(&type_key) {
                        match &pairs[k].1 {
                            Primitive::Name(nm) => {
                                if nm.eq(&ty_name) {
                                    proof {
                                        lemma_view_dict(*pairs);
                                        let vs = self@->Dict_0;
                                        assert(vs == pairs_view(pairs@));
                                        assert(vs[k as int] == (
                                            pairs@[k as int].0@,
                                            pairs@[k as int].1@,
                                        ));
                                        assert(vs[k as int].1 == PrimV::Name(ty@));
                                        assert(exists|i: int|
                                            0 <= i < vs.len() && (#[trigger] vs[i]).0 == "Type"@
                                                && vs[i].1 == PrimV::Name(ty@));
                                    }
                                    return true;
                                }
                            },
                            _ => {},
                        }
                    }
                    k += 1;
                }
                proof {
                    lemma_view_dict(*pairs);
                    let vs = self@->Dict_0;
                    assert(vs == pairs_view(pairs@));
                    assert(forall|i: int|
                        0 <= i < vs.len() ==> #[trigger] vs[i] == (
                            pairs@[i].0@,
                            pairs@[i].1@,
                        ));
                }
                false
            },
            _ => false,
        }
    }
}

/// Copies a byte vector.
fn clone_bytes(b: &Vec<u8>) -> (r: Vec<u8>)
    ensures
        r@ == b@,
{
    let n = b.len();
    let mut out: Vec<u8> = Vec::new();
    let mut k: usize = 0;
    while k < n
        invariant
            n == b@.len(),
            k <= n,
            out@.len() == k,
            forall|j: int| 0 <= j < k ==> out@[j] == b@[j],
        decreases n - k,
    {
        out.push(b[k]);
        k += 1;
    }
    proof {
        assert(out@ =~= b@);
    }
    out
}

/// Looks an identity up in the identity column; returns the object number of
/// the first object carrying it.
pub fn lookup_ident(ids: &Vec<Option<u64>>, id: u64) -> (r: Option<u64>)
    ensures
        r == lookup_number(ids@, id),
{
    let n = ids.len();
    let mut k: usize = 0;
    while k < n
        invariant
            n == ids@.len(),
            k <= n,
            lookup_from(ids@, id, 0) == lookup_from(ids@, id, k as int),
        decreases n - k,
    {
        match ids[k] {
            Some(x) => {
                if x == id {
                    return Some((k as u64) + 1);
                }
            },
            None => {},
        }
        k += 1;
    }
    None
}

/// Finds the first node, in depth-first order, on which resolution under the
/// identity column `ids` would fail.
pub fn first_unres_exec(p: &Primitive, ids: &Vec<Option<u64>>) -> (r: Option<Option<u64>>)
    ensures
        r == first_unresolvable(p@, ids@),
    decreases *p,
{
    match p {
        Primitive::Deferred(id) => match lookup_ident(ids, *id) {
            Some(_) => None,
            None => Some(Some(*id)),
        },
        Primitive::ParentRef => Some(None),
        Primitive::Array(elems) => {
            proof {
                lemma_view_array(*elems);
            }
            let n = elems.len();
            let mut k: usize = 0;
            while k < n
                invariant
                    n == elems@.len(),
                    *p == Primitive::Array(*elems),
                    p@->Array_0 == prims_view(elems@),
                    k <= n,
                    first_unres_elems(p@->Array_0, ids@, 0) == first_unres_elems(
                        p@->Array_0,
                        ids@,
                        k as int,
                    ),
                decreases n - k,
            {
                proof {
                    assert(decreases_to!(*p => p->Array_0));
                    assert(decreases_to!(p->Array_0 => p->Array_0@));
                    assert(decreases_to!(p->Array_0@ => p->Array_0@[k as int]));
                }
                let w = first_unres_exec(&elems[k], ids);
                proof {
                    assert((p@->Array_0)[k as int] == elems@[k as int]@);
                }
                match w {
                    Some(bad) => {
                        return Some(bad);
                    },
                    None => {},
                }
                k += 1;
            }
            None
        },
        Primitive::Dict(pairs) => {
            proof {
                lemma_view_dict(*pairs);
            }
            let n = pairs.len();
            let mut k: usize = 0;
            while k < n
                invariant
                    n == pairs@.len(),
                    *p == Primitive::Dict(*pairs),
                    p@->Dict_0 == pairs_view(pairs@),
                    k <= n,
                    first_unres_pairs(p@->Dict_0, ids@, 0) == first_unres_pairs(
                        p@->Dict_0,
                        ids@,
                        k as int,
                    ),
                decreases n - k,
            {
                proof {
                    assert(decreases_to!(*p => p->Dict_0));
                    assert(decreases_to!(p->Dict_0 => p->Dict_0@));
                    assert(decreases_to!(p->Dict_0@ => p->Dict_0@[k as int]));
                    assert(decreases_to!(p->Dict_0@[k as int] => p->Dict_0@[k as int].1));
                }
                let w = first_unres_exec(&pairs[k].1, ids);
                proof {
                    assert((p@->Dict_0)[k as int] == (pairs@[k as int].0@, pairs@[k as int].1@));
                }
                match w {
                    Some(bad) => {
                        return Some(bad);
                    },
                    None => {},
                }
                k += 1;
            }
            None
        },
        _ => None,
    }
}

/// Rewrites the tree into its resolved form: every `Deferred` identity found
/// in the identity column becomes a numeric `Reference`.
pub fn rewrite_exec(p: &Primitive, ids: &Vec<Option<u64>>) -> (r: Primitive)
    ensures
        r@ == rewrite_spec(p@, ids@),
    decreases *p,
{
    match p {
        Primitive::Name(s) => Primitive::Name(s.clone()),
        Primitive::Number(n) => Primitive::Number(*n),
        Primitive::Stream(b) => Primitive::Stream(clone_bytes(b)),
        Primitive::Reference(n) => Primitive::Reference(*n),
        Primitive::ParentRef => Primitive::ParentRef,
        Primitive::Deferred(id) => match lookup_ident(ids, *id) {
            Some(n) => Primitive::Reference(n),
            None => Primitive::Deferred(*id),
        },
        Primitive::Array(elems) => {
            proof {
                lemma_view_array(*elems);
            }
            let n = elems.len();
            let mut out: Vec<Primitive> = Vec::new();
            let mut k: usize = 0;
            while k < n
                invariant
                    n == elems@.len(),
                    *p == Primitive::Array(*elems),
                    p@->Array_0 == prims_view(elems@),
                    k <= n,
                    out@.len() == k,
                    forall|j: int|
                        0 <= j < k ==> #[trigger] out@[j]@ == rewrite_spec(
                            (p@->Array_0)[j],
                            ids@,
                        ),
                decreases n - k,
            {
                proof {
                    assert(decreases_to!(*p => p->Array_0));
                    assert(decreases_to!(p->Array_0 => p->Array_0@));
                    assert(decreases_to!(p->Array_0@ => p->Array_0@[k as int]));
                }
                let e = rewrite_exec(&elems[k], ids);
                proof {
                    assert((p@->Array_0)[k as int] == elems@[k as int]@);
                }
                out.push(e);
                k += 1;
            }
            let r = Primitive::array(out);
            proof {
                let a = r@->Array_0;
                let b = rewrite_spec(p@, ids@)->Array_0;
                assert forall|i: int| 0 <= i < a.len() implies a[i] == b[i] by {
                    assert(a[i] == out@[i]@);
                }
                assert(a =~= b);
                assert(r@ =~= rewrite_spec(p@, ids@));
            }
            r
        },
        Primitive::Dict(pairs) => {
            proof {
                lemma_view_dict(*pairs);
            }
            let n = pairs.len();
            let mut out: Vec<(String, Primitive)> = Vec::new();
            let mut k: usize = 0;
            while k < n
                invariant
                    n == pairs@.len(),
                    *p == Primitive::Dict(*pairs),
                    p@->Dict_0 == pairs_view(pairs@),
                    k <= n,
                    out@.len() == k,
                    forall|j: int|
                        0 <= j < k ==> (#[trigger] out@[j]).0@ == (p@->Dict_0)[j].0 && out@[j].1@
                            == rewrite_spec((p@->Dict_0)[j].1, ids@),
                decreases n - k,
            {
                proof {
                    assert(decreases_to!(*p => p->Dict_0));
                    assert(decreases_to!(p->Dict_0 => p->Dict_0@));
                    assert(decreases_to!(p->Dict_0@ => p->Dict_0@[k as int]));
                    assert(decreases_to!(p->Dict_0@[k as int] => p->Dict_0@[k as int].1));
                }
                let key = pairs[k].0.clone();
                let e = rewrite_exec(&pairs[k].1, ids);
                proof {
                    assert((p@->Dict_0)[k as int] == (pairs@[k as int].0@, pairs@[k as int].1@));
                }
                out.push((key, e));
                k += 1;
            }
            let r = Primitive::dict(out);
            proof {
                let a = r@->Dict_0;
                let b = rewrite_spec(p@, ids@)->Dict_0;
                assert forall|i: int| 0 <= i < a.len() implies a[i] == b[i] by {
                    assert(a[i] == pairs_view(out@)[i]);
                    assert(a[i] == (out@[i].0@, out@[i].1@));
                }
                assert(a =~= b);
                assert(r@ =~= rewrite_spec(p@, ids@));
            }
            r
        },
    }
}

/// Rewrites every `ParentRef` sentinel in the tree into a deferred reference
/// to the identity `pid`.
pub fn parent_rewrite_exec(p: &Primitive, pid: u64) -> (r: Primitive)
    ensures
        r@ == parent_rewrite_spec(p@, pid),
    decreases *p,
{
    match p {
        Primitive::Name(s) => Primitive::Name(s.clone()),
        Primitive::Number(n) => Primitive::Number(*n),
        Primitive::Stream(b) => Primitive::Stream(clone_bytes(b)),
        Primitive::Reference(n) => Primitive::Reference(*n),
        Primitive::Deferred(id) => Primitive::Deferred(*id),
        Primitive::ParentRef => Primitive::Deferred(pid),
        Primitive::Array(elems) => {
            proof {
                lemma_view_array(*elems);
            }
            let n = elems.len();
            let mut out: Vec<Primitive> = Vec::new();
            let mut k: usize = 0;
            while k < n
                invariant
                    n == elems@.len(),
                    *p == Primitive::Array(*elems),
                    p@->Array_0 == prims_view(elems@),
                    k <= n,
                    out@.len() == k,
                    forall|j: int|
                        0 <= j < k ==> #[trigger] out@[j]@ == parent_rewrite_spec(
                            (p@->Array_0)[j],
                            pid,
                        ),
                decreases n - k,
            {
                proof {
                    assert(decreases_to!(*p => p->Array_0));
                    assert(decreases_to!(p->Array_0 => p->Array_0@));
                    assert(decreases_to!(p->Array_0@ => p->Array_0@[k as int]));
                }
                let e = parent_rewrite_exec(&elems[k], pid);
                proof {
                    assert((p@->Array_0)[k as int] == elems@[k as int]@);
                }
                out.push(e);
                k += 1;
            }
            let r = Primitive::array(out);
            proof {
                let a = r@->Array_0;
                let b = parent_rewrite_spec(p@, pid)->Array_0;
                assert forall|i: int| 0 <= i < a.len() implies a[i] == b[i] by {
                    assert(a[i] == out@[i]@);
                }
                assert(a =~= b);
                assert(r@ =~= parent_rewrite_spec(p@, pid));
            }
            r
        },
        Primitive::Dict(pairs) => {
            proof {
                lemma_view_dict(*pairs);
            }
            let n = pairs.len();
            let mut out: Vec<(String, Primitive)> = Vec::new();
            let mut k: usize = 0;
            while k < n
                invariant
                    n == pairs@.len(),
                    *p == Primitive::Dict(*pairs),
                    p@->Dict_0 == pairs_view(pairs@),
                    k <= n,
                    out@.len() == k,
                    forall|j: int|
                        0 <= j < k ==> (#[trigger] out@[j]).0@ == (p@->Dict_0)[j].0 && out@[j].1@
                            == parent_rewrite_spec((p@->Dict_0)[j].1, pid),
                decreases n - k,
            {
                proof {
                    assert(decreases_to!(*p => p->Dict_0));
                    assert(decreases_to!(p->Dict_0 => p->Dict_0@));
                    assert(decreases_to!(p->Dict_0@ => p->Dict_0@[k as int]));
                    assert(decreases_to!(p->Dict_0@[k as int] => p->Dict_0@[k as int].1));
                }
                let key = pairs[k].0.clone();
                let e = parent_rewrite_exec(&pairs[k].1, pid);
                proof {
                    assert((p@->Dict_0)[k as int] == (pairs@[k as int].0@, pairs@[k as int].1@));
                }
                out.push((key, e));
                k += 1;
            }
            let r = Primitive::dict(out);
            proof {
                let a = r@->Dict_0;
                let b = parent_rewrite_spec(p@, pid)->Dict_0;
                assert forall|i: int| 0 <= i < a.len() implies a[i] == b[i] by {
                    assert(a[i] == pairs_view(out@)[i]);
                    assert(a[i] == (out@[i].0@, out@[i].1@));
                }
                assert(a =~= b);
                assert(r@ =~= parent_rewrite_spec(p@, pid));
            }
            r
        },
    }
}

/// The depth-first scan finds no failure exactly when the tree is resolvable.
pub proof fn lemma_first_unres_none_iff(p: PrimV, ids: Seq<Option<u64>>)
    ensures
        (first_unresolvable(p, ids) is None) <==> resolvable(p, ids),
    decreases p, 0int,
{
    match p {
        PrimV::Array(elems) => {
            let vs = p->Array_0;
            lemma_first_unres_elems_none_iff(elems, ids, 0);
            assert(vs == elems);
        },
        PrimV::Dict(pairs) => {
            let vs = p->Dict_0;
            lemma_first_unres_pairs_none_iff(pairs, ids, 0);
            assert(vs == pairs);
        },
        _ => {},
    }
}

pub proof fn lemma_first_unres_elems_none_iff(s: Seq<PrimV>, ids: Seq<Option<u64>>, i: int)
    requires
        0 <= i <= s.len(),
    ensures
        (first_unres_elems(s, ids, i) is None) <==> (forall|j: int|
            i <= j < s.len() ==> resolvable(#[trigger] s[j], ids)),
    decreases s, s.len() - i,
{
    if i < s.len() {
        lemma_first_unres_none_iff(s[i], ids);
        lemma_first_unres_elems_none_iff(s, ids, i + 1);
    }
}

pub proof fn lemma_first_unres_pairs_none_iff(
    pairs: Seq<(Seq<char>, PrimV)>,
    ids: Seq<Option<u64>>,
    i: int,
)
    requires
        0 <= i <= pairs.len(),
    ensures
        (first_unres_pairs(pairs, ids, i) is None) <==> (forall|j: int|
            i <= j < pairs.len() ==> resolvable((#[trigger] pairs[j]).1, ids)),
    decreases pairs, pairs.len() - i,
{
    if i < pairs.len() {
        lemma_first_unres_none_iff(pairs[i].1, ids);
        lemma_first_unres_pairs_none_iff(pairs, ids, i + 1);
    }
}

/// A resolvable tree is fully resolved by the rewrite: no `Deferred` and no
/// `ParentRef` node remains.
pub proof fn lemma_rewrite_fully_resolved(p: PrimV, ids: Seq<Option<u64>>)
    requires
        resolvable(p, ids),
    ensures
        fully_resolved(rewrite_spec(p, ids)),
    decreases p,
{
    match p {
        PrimV::Array(elems) => {
            let rw = rewrite_spec(p, ids)->Array_0;
            assert forall|i: int| 0 <= i < rw.len() implies fully_resolved(#[trigger] rw[i]) by {
                assert(resolvable(elems[i], ids));
                lemma_rewrite_fully_resolved(elems[i], ids);
                assert(rw[i] == rewrite_spec(elems[i], ids));
            }
        },
        PrimV::Dict(pairs) => {
            let rw = rewrite_spec(p, ids)->Dict_0;
            assert forall|i: int| 0 <= i < rw.len() implies fully_resolved(
                (#[trigger] rw[i]).1,
            ) by {
                assert(resolvable(pairs[i].1, ids));
                lemma_rewrite_fully_resolved(pairs[i].1, ids);
                assert(rw[i] == (pairs[i].0, rewrite_spec(pairs[i].1, ids)));
            }
        },
        _ => {},
    }
}

proof fn lemma_parent_rewrite_keeps_type(p: PrimV, pid: u64, ty: Seq<char>)
    requires
        is_type_spec(p, ty),
    ensures
        is_type_spec(parent_rewrite_spec(p, pid), ty),
    decreases p,
{
    match p {
        PrimV::Array(elems) => {
            let vs = p->Array_0;
            assert(vs == elems);
            let w = choose|i: int| 0 <= i < vs.len() && is_type_spec(#[trigger] vs[i], ty);
            lemma_parent_rewrite_keeps_type(elems[w], pid, ty);
            let rw = parent_rewrite_spec(p, pid)->Array_0;
            assert(rw[w] == parent_rewrite_spec(vs[w], pid));
            assert(exists|i: int| 0 <= i < rw.len() && is_type_spec(#[trigger] rw[i], ty));
        },
        PrimV::Dict(pairs) => {
            let vs = p->Dict_0;
            let w = choose|i: int|
                0 <= i < vs.len() && (#[trigger] vs[i]).0 == "Type"@ && vs[i].1 == PrimV::Name(
                    ty,
                );
            let rw = parent_rewrite_spec(p, pid)->Dict_0;
            assert(rw[w] == (vs[w].0, parent_rewrite_spec(vs[w].1, pid)));
            assert(parent_rewrite_spec(vs[w].1, pid) == PrimV::Name(ty));
            assert(exists|i: int|
                0 <= i < rw.len() && (#[trigger] rw[i]).0 == "Type"@ && rw[i].1 == PrimV::Name(
                    ty,
                ));
        },
        _ => {},
    }
}

proof fn lemma_parent_rewrite_reflects_type(p: PrimV, pid: u64, ty: Seq<char>)
    requires
        is_type_spec(parent_rewrite_spec(p, pid), ty),
    ensures
        is_type_spec(p, ty),
    decreases p,
{
    match p {
        PrimV::Array(elems) => {
            let vs = p->Array_0;
            assert(vs == elems);
            let rw = parent_rewrite_spec(p, pid)->Array_0;
            let w = choose|i: int| 0 <= i < rw.len() && is_type_spec(#[trigger] rw[i], ty);
            assert(rw[w] == parent_rewrite_spec(vs[w], pid));
            lemma_parent_rewrite_reflects_type(elems[w], pid, ty);
            assert(exists|i: int| 0 <= i < vs.len() && is_type_spec(#[trigger] vs[i], ty));
        },
        PrimV::Dict(pairs) => {
            let vs = p->Dict_0;
            let rw = parent_rewrite_spec(p, pid)->Dict_0;
            let w = choose|i: int|
                0 <= i < rw.len() && (#[trigger] rw[i]).0 == "Type"@ && rw[i].1 == PrimV::Name(
                    ty,
                );
            assert(rw[w] == (vs[w].0, parent_rewrite_spec(vs[w].1, pid)));
            match vs[w].1 {
                PrimV::Name(_) => {},
                PrimV::ParentRef => {},
                PrimV::Array(_) => {},
                PrimV::Dict(_) => {},
                PrimV::Number(_) => {},
                PrimV::Stream(_) => {},
                PrimV::Deferred(_) => {},
                PrimV::Reference(_) => {},
            }
            assert(vs[w].1 == PrimV::Name(ty));
            assert(exists|i: int|
                0 <= i < vs.len() && (#[trigger] vs[i]).0 == "Type"@ && vs[i].1 == PrimV::Name(
                    ty,
                ));
        },
        _ => {},
    }
}

/// Rewriting parent sentinels does not change which `Type` entries a tree
/// carries.
pub proof fn lemma_parent_rewrite_is_type(p: PrimV, pid: u64, ty: Seq<char>)
    ensures
        is_type_spec(p, ty) ==> is_type_spec(parent_rewrite_spec(p, pid), ty),
        is_type_spec(parent_rewrite_spec(p, pid), ty) ==> is_type_spec(p, ty),
{
    if is_type_spec(p, ty) {
        lemma_parent_rewrite_keeps_type(p, pid, ty);
    }
    if is_type_spec(parent_rewrite_spec(p, pid), ty) {
        lemma_parent_rewrite_reflects_type(p, pid, ty);
    }
}

} // verus!
