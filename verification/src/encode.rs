//! The encoder: serializes a resolved document to PDF object syntax, byte
//! for byte as the specification functions here lay it down.
use crate::bytebuf::{buffer_bytes, buffer_extend, buffer_new, buffer_to_vec};
use crate::document::{DocV, Document};
use crate::object::ObjV;
use crate::prim::{pairs_view, prims_view, PrimV, Primitive};
use crate::DocError;
use vstd::prelude::*;
use vstd::string::{StrSliceExecFns, StringExecFns};
use vstd::utf8::encode_utf8;

verus! {

/// The decimal digit character for `d`.
pub open spec fn digit_char(d: nat) -> char {
    if d == 0 {
        '0'
    } else if d == 1 {
        '1'
    } else if d == 2 {
        '2'
    } else if d == 3 {
        '3'
    } else if d == 4 {
        '4'
    } else if d == 5 {
        '5'
    } else if d == 6 {
        '6'
    } else if d == 7 {
        '7'
    } else if d == 8 {
        '8'
    } else {
        '9'
    }
}

/// The decimal notation of `n`: no sign and no leading zeros, a single `0`
/// for zero.
pub open spec fn dec_chars(n: nat) -> Seq<char>
    decreases n,
{
    if n < 10 {
        seq![digit_char(n)]
    } else {
        dec_chars(n / 10) + seq![digit_char(n % 10)]
    }
}

/// Two spaces per indentation level; nothing at or below depth zero.
pub open spec fn indent_chars(ind: int) -> Seq<char> {
    Seq::new(
        if ind <= 0 {
            0nat
        } else {
            (2 * ind) as nat
        },
        |i: int| ' ',
    )
}

/// Whether the tree's dictionary nesting stays within the machine's
/// indentation range, entered at depth `ind`. Array elements restart at
/// depth zero.
pub open spec fn fits_depth(p: PrimV, ind: int) -> bool
    decreases p,
{
    match p {
        PrimV::Dict(pairs) => ind + 2 <= usize::MAX && forall|i: int|
            0 <= i < pairs.len() ==> fits_depth((#[trigger] pairs[i]).1, ind + 2),
        PrimV::Array(elems) => forall|i: int|
            0 <= i < elems.len() ==> fits_depth(#[trigger] elems[i], 0),
        _ => true,
    }
}

/// Whether the tree can be encoded: fully resolved and free of stream
/// payloads.
pub open spec fn encodable(p: PrimV) -> bool
    decreases p,
{
    match p {
        PrimV::Deferred(_) => false,
        PrimV::ParentRef => false,
        PrimV::Stream(_) => false,
        PrimV::Array(elems) => forall|i: int|
            0 <= i < elems.len() ==> encodable(#[trigger] elems[i]),
        PrimV::Dict(pairs) => forall|i: int|
            0 <= i < pairs.len() ==> encodable((#[trigger] pairs[i]).1),
        _ => true,
    }
}

/// The object-syntax text of the tree, entered at depth `ind`.
pub open spec fn enc_chars(p: PrimV, ind: int) -> Seq<char>
    decreases p, 0int,
{
    match p {
        PrimV::Name(s) => "/"@ + s,
        PrimV::Number(n) => dec_chars(n as nat),
        PrimV::Reference(n) => dec_chars(n as nat) + " 0 R"@,
        PrimV::Array(elems) => "["@ + enc_elems_upto(elems, elems.len() as int) + "]"@,
        PrimV::Dict(pairs) => "<<\n"@ + enc_pairs_upto(pairs, ind + 1, pairs.len() as int)
            + indent_chars(ind - 1) + ">>"@,
        _ => Seq::empty(),
    }
}

/// The first `i` array elements, single-space separated, each at depth zero.
pub open spec fn enc_elems_upto(elems: Seq<PrimV>, i: int) -> Seq<char>
    decreases elems, i,
{
    if i <= 0 || i > elems.len() {
        Seq::empty()
    } else if i == 1 {
        enc_chars(elems[0], 0)
    } else {
        enc_elems_upto(elems, i - 1) + " "@ + enc_chars(elems[i - 1], 0)
    }
}

/// The first `i` dictionary pairs, each on its own line at depth `ind`, its
/// value one level deeper.
pub open spec fn enc_pairs_upto(pairs: Seq<(Seq<char>, PrimV)>, ind: int, i: int) -> Seq<char>
    decreases pairs, i,
{
    if i <= 0 || i > pairs.len() {
        Seq::empty()
    } else {
        enc_pairs_upto(pairs, ind, i - 1) + indent_chars(ind) + "/"@ + pairs[i - 1].0 + " "@
            + enc_chars(pairs[i - 1].1, ind + 1) + "\n"@
    }
}

/// The first `i` root values of an object, each at depth zero on a line of
/// its own.
pub open spec fn roots_chars(values: Seq<PrimV>, i: int) -> Seq<char>
    decreases values, i,
{
    if i <= 0 || i > values.len() {
        Seq::empty()
    } else {
        roots_chars(values, i - 1) + enc_chars(values[i - 1], 0) + "\n"@
    }
}

/// One object block: its number line, its root values, `endobj`.
pub open spec fn obj_chars(o: ObjV) -> Seq<char> {
    dec_chars((match o.number {
        Some(n) => n,
        None => 0u64,
    }) as nat) + " 0 obj\n"@ + roots_chars(o.values, o.values.len() as int) + "endobj\n"@
}

/// The object blocks of the first `j` objects, in order.
pub open spec fn doc_body_chars(objs: Seq<ObjV>, j: int) -> Seq<char>
    decreases j,
{
    if j <= 0 {
        Seq::empty()
    } else {
        doc_body_chars(objs, j - 1) + obj_chars(objs[j - 1])
    }
}

/// The header bytes: `%PDF-1.7`, newline, the four high-bit marker bytes,
/// newline.
pub open spec fn header_bytes() -> Seq<u8> {
    seq![0x25u8, 0x50, 0x44, 0x46, 0x2d, 0x31, 0x2e, 0x37, 0x0a, 0xe2, 0xe3, 0xcf, 0xd3, 0x0a]
}

/// Whether the encoder accepts the document: resolved, every object
/// numbered, and every tree resolved, stream-free and within the machine's
/// indentation range.
pub open spec fn doc_encodable(d: DocV) -> bool {
    &&& d.resolved
    &&& forall|j: int| 0 <= j < d.objects.len() ==> (#[trigger] d.objects[j].number) is Some
    &&& forall|j: int, k: int|
        0 <= j < d.objects.len() && 0 <= k < d.objects[j].values.len() ==> encodable(
            #[trigger] d.objects[j].values[k],
        ) && fits_depth(d.objects[j].values[k], 0)
}

/// The encoder's output: the header, then the object blocks as UTF-8 bytes.
pub open spec fn doc_bytes(d: DocV) -> Seq<u8> {
    header_bytes() + encode_utf8(doc_body_chars(d.objects, d.objects.len() as int))
}

/// Appends one decimal digit.
fn push_digit(out: &mut String, d: u64)
    requires
        d < 10,
    ensures
        final(out)@ == old(out)@ + seq![digit_char(d as nat)],
{
    if d == 0 {
        out.append("0");
        proof {
            reveal_strlit("0");
            assert(old(out)@ + "0"@ =~= old(out)@ + seq![digit_char(d as nat)]);
        }
    } else if d == 1 {
        out.append("1");
        proof {
            reveal_strlit("1");
            assert(old(out)@ + "1"@ =~= old(out)@ + seq![digit_char(d as nat)]);
        }
    } else if d == 2 {
        out.append("2");
        proof {
            reveal_strlit("2");
            assert(old(out)@ + "2"@ =~= old(out)@ + seq![digit_char(d as nat)]);
        }
    } else if d == 3 {
        out.append("3");
        proof {
            reveal_strlit("3");
            assert(old(out)@ + "3"@ =~= old(out)@ + seq![digit_char(d as nat)]);
        }
    } else if d == 4 {
        out.append("4");
        proof {
            reveal_strlit("4");
            assert(old(out)@ + "4"@ =~= old(out)@ + seq![digit_char(d as nat)]);
        }
    } else if d == 5 {
        out.append("5");
        proof {
            reveal_strlit("5");
            assert(old(out)@ + "5"@ =~= old(out)@ + seq![digit_char(d as nat)]);
        }
    } else if d == 6 {
        out.append("6");
        proof {
            reveal_strlit("6");
            assert(old(out)@ + "6"@ =~= old(out)@ + seq![digit_char(d as nat)]);
        }
    } else if d == 7 {
        out.append("7");
        proof {
            reveal_strlit("7");
            assert(old(out)@ + "7"@ =~= old(out)@ + seq![digit_char(d as nat)]);
        }
    } else if d == 8 {
        out.append("8");
        proof {
            reveal_strlit("8");
            assert(old(out)@ + "8"@ =~= old(out)@ + seq![digit_char(d as nat)]);
        }
    } else {
        out.append("9");
        proof {
            reveal_strlit("9");
            assert(old(out)@ + "9"@ =~= old(out)@ + seq![digit_char(d as nat)]);
        }
    }
}

/// Appends the decimal notation of `n`.
pub(crate) fn push_decimal(out: &mut String, n: u64)
    ensures
        final(out)@ == old(out)@ + dec_chars(n as nat),
    decreases n,
{
    if n < 10 {
        push_digit(out, n);
    } else {
        push_decimal(out, n / 10);
        push_digit(out, n % 10);
        proof {
            assert((n / 10) as nat == (n as nat) / 10 && (n % 10) as nat == (n as nat) % 10);
            assert(old(out)@ + dec_chars((n as nat) / 10) + seq![digit_char((n as nat) % 10)]
                =~= old(out)@ + dec_chars(n as nat));
        }
    }
}

/// Appends `ind` levels of indentation.
fn push_indent(out: &mut String, ind: usize)
    ensures
        final(out)@ == old(out)@ + indent_chars(ind as int),
{
    let mut j: usize = 0;
    while j < ind
        invariant
            j <= ind,
            out@ == old(out)@ + indent_chars(j as int),
        decreases ind - j,
    {
        out.append("  ");
        proof {
            reveal_strlit("  ");
            assert(old(out)@ + indent_chars(j as int) + "  "@ =~= old(out)@ + indent_chars(
                j as int + 1,
            ));
        }
        j += 1;
    }
}

/// Appends the tree's object-syntax text at depth `ind`; reports whether
/// the tree was encodable within the machine's indentation range. Nothing
/// is promised of the accumulator where it was not.
fn encode_prim(p: &Primitive, ind: usize, out: &mut String) -> (ok: bool)
    ensures
        ok == (encodable(p@) && fits_depth(p@, ind as int)),
        ok ==> final(out)@ == old(out)@ + enc_chars(p@, ind as int),
    decreases *p,
{
    match p {
        Primitive::Name(s) => {
            out.append("/");
            out.append(s.as_str());
            proof {
                assert(out@ =~= old(out)@ + enc_chars(p@, ind as int));
            }
            true
        },
        Primitive::Number(n) => {
            push_decimal(out, *n);
            true
        },
        Primitive::Reference(n) => {
            push_decimal(out, *n);
            out.append(" 0 R");
            proof {
                assert(out@ =~= old(out)@ + enc_chars(p@, ind as int));
            }
            true
        },
        Primitive::Stream(_) => false,
        Primitive::Deferred(_) => false,
        Primitive::ParentRef => false,
        Primitive::Array(elems) => {
            proof {
                crate::prim::lemma_view_array(*elems);
            }
            out.append("[");
            let n = elems.len();
            let mut k: usize = 0;
            while k < n
                invariant
                    n == elems@.len(),
                    *p == Primitive::Array(*elems),
                    p@->Array_0 == prims_view(elems@),
                    k <= n,
                    out@ == old(out)@ + "["@ + enc_elems_upto(p@->Array_0, k as int),
                    forall|t: int|
                        0 <= t < k ==> encodable(#[trigger] (p@->Array_0)[t]) && fits_depth(
                            (p@->Array_0)[t],
                            0,
                        ),
                decreases n - k,
            {
                proof {
                    assert(decreases_to!(*p => p->Array_0));
                    assert(decreases_to!(p->Array_0 => p->Array_0@));
                    assert(decreases_to!(p->Array_0@ => p->Array_0@[k as int]));
                }
                if k > 0 {
                    out.append(" ");
                }
                let sub = encode_prim(&elems[k], 0, out);
                proof {
                    assert((p@->Array_0)[k as int] == elems@[k as int]@);
                }
                if !sub {
                    proof {
                        if encodable(p@) && fits_depth(p@, ind as int) {
                            assert(encodable((p@->Array_0)[k as int]));
                            assert(fits_depth((p@->Array_0)[k as int], 0));
                        }
                    }
                    return false;
                }
                proof {
                    assert(out@ =~= old(out)@ + "["@ + enc_elems_upto(
                        p@->Array_0,
                        k as int + 1,
                    ));
                }
                k += 1;
            }
            out.append("]");
            proof {
                assert(out@ =~= old(out)@ + enc_chars(p@, ind as int));
                assert(encodable(p@));
                assert(fits_depth(p@, ind as int));
            }
            true
        },
        Primitive::Dict(pairs) => {
            proof {
                crate::prim::lemma_view_dict(*pairs);
            }
            if ind > usize::MAX - 2 {
                proof {
                    assert(!fits_depth(p@, ind as int));
                }
                return false;
            }
            out.append("<<\n");
            let n = pairs.len();
            let mut k: usize = 0;
            while k < n
                invariant
                    n == pairs@.len(),
                    *p == Primitive::Dict(*pairs),
                    p@->Dict_0 == pairs_view(pairs@),
                    ind + 2 <= usize::MAX,
                    k <= n,
                    out@ == old(out)@ + "<<\n"@ + enc_pairs_upto(
                        p@->Dict_0,
                        ind as int + 1,
                        k as int,
                    ),
                    forall|t: int|
                        0 <= t < k ==> encodable((#[trigger] (p@->Dict_0)[t]).1) && fits_depth(
                            (p@->Dict_0)[t].1,
                            ind as int + 2,
                        ),
                decreases n - k,
            {
                proof {
                    assert(decreases_to!(*p => p->Dict_0));
                    assert(decreases_to!(p->Dict_0 => p->Dict_0@));
                    assert(decreases_to!(p->Dict_0@ => p->Dict_0@[k as int]));
                    assert(decreases_to!(p->Dict_0@[k as int] => p->Dict_0@[k as int].1));
                }
                push_indent(out, ind + 1);
                out.append("/");
                out.append(pairs[k].0.as_str());
                out.append(" ");
                let sub = encode_prim(&pairs[k].1, ind + 2, out);
                proof {
                    assert((p@->Dict_0)[k as int] == (pairs@[k as int].0@, pairs@[k as int].1@));
                }
                if !sub {
                    proof {
                        if encodable(p@) && fits_depth(p@, ind as int) {
                            assert(encodable((p@->Dict_0)[k as int].1));
                            assert(fits_depth((p@->Dict_0)[k as int].1, ind as int + 2));
                        }
                    }
                    return false;
                }
                out.append("\n");
                proof {
                    assert(out@ =~= old(out)@ + "<<\n"@ + enc_pairs_upto(
                        p@->Dict_0,
                        ind as int + 1,
                        k as int + 1,
                    ));
                }
                k += 1;
            }
            if ind >= 1 {
                push_indent(out, ind - 1);
            }
            out.append(">>");
            proof {
                assert(out@ =~= old(out)@ + enc_chars(p@, ind as int));
                assert(encodable(p@));
                assert(fits_depth(p@, ind as int));
            }
            true
        },
    }
}

impl Primitive {
    /// The object-syntax text of the tree, entered at depth `indent`; `None`
    /// for a tree that still carries a `Deferred` or `ParentRef` node or a
    /// stream payload, or whose dictionary nesting exceeds the machine's
    /// indentation range.
    pub fn encode(&self, indent: usize) -> (r: Option<String>)
        ensures
            (encodable(self@) && fits_depth(self@, indent as int)) ==> (r matches Some(s) && s@
                == enc_chars(self@, indent as int)),
            !(encodable(self@) && fits_depth(self@, indent as int)) ==> r is None,
    {
        let mut out = String::new();
        let ok = encode_prim(self, indent, &mut out);
        if ok {
            Some(out)
        } else {
            None
        }
    }
}

impl Document {
    /// Serializes the resolved document to PDF object syntax.
    ///
    /// Emits the header (`%PDF-1.7` and a binary-marker line), then for each
    /// object in order its number line `N 0 obj`, its root values, and
    /// `endobj`. A document that is not resolved, holds an unnumbered
    /// object, or still carries a `Deferred` or `ParentRef` node or a stream
    /// payload — or whose dictionary nesting exceeds the machine's
    /// indentation range — is refused with `EncoderContractViolation`.
    pub fn encode(&self) -> (r: Result<Vec<u8>, DocError>)
        ensures
            doc_encodable(self@) ==> (r matches Ok(v) && v@ == doc_bytes(self@)),
            !doc_encodable(self@) ==> r == Err::<Vec<u8>, DocError>(
                DocError::EncoderContractViolation,
            ),
    {
        if !self.resolved {
            return Err(DocError::EncoderContractViolation);
        }
        let n = self.objects.len();
        let mut body = String::new();
        let mut j: usize = 0;
        while j < n
            invariant
                n == self.objects@.len(),
                self.resolved,
                j <= n,
                body@ == doc_body_chars(self@.objects, j as int),
                forall|t: int| 0 <= t < j ==> (#[trigger] self@.objects[t].number) is Some,
                forall|t: int, k: int|
                    0 <= t < j && 0 <= k < self@.objects[t].values.len() ==> encodable(
                        #[trigger] self@.objects[t].values[k],
                    ) && fits_depth(self@.objects[t].values[k], 0),
            decreases n - j,
        {
            let obj = &self.objects[j];
            proof {
                assert(obj@ == self@.objects[j as int]);
            }
            let num = match obj.raw.number {
                Some(v) => v,
                None => {
                    proof {
                        assert(!doc_encodable(self@));
                    }
                    return Err(DocError::EncoderContractViolation);
                },
            };
            let ghost body0 = body@;
            push_decimal(&mut body, num);
            body.append(" 0 obj\n");
            let m = obj.raw.inner.len();
            let mut k: usize = 0;
            while k < m
                invariant
                    n == self.objects@.len(),
                    self.resolved,
                    j < n,
                    *obj == self.objects@[j as int],
                    obj@ == self@.objects[j as int],
                    obj@.number == Some(num),
                    m == obj.raw.inner@.len(),
                    k <= m,
                    body@ == body0 + dec_chars(num as nat) + " 0 obj\n"@ + roots_chars(
                        obj@.values,
                        k as int,
                    ),
                    forall|t: int|
                        0 <= t < k ==> encodable(#[trigger] obj@.values[t]) && fits_depth(
                            obj@.values[t],
                            0,
                        ),
                decreases m - k,
            {
                let okp = encode_prim(&obj.raw.inner[k], 0, &mut body);
                proof {
                    assert(obj@.values[k as int] == obj.raw.inner@[k as int]@);
                }
                if !okp {
                    proof {
                        if doc_encodable(self@) {
                            assert(encodable(self@.objects[j as int].values[k as int]));
                            assert(fits_depth(self@.objects[j as int].values[k as int], 0));
                        }
                    }
                    return Err(DocError::EncoderContractViolation);
                }
                body.append("\n");
                proof {
                    assert(body@ =~= body0 + dec_chars(num as nat) + " 0 obj\n"@ + roots_chars(
                        obj@.values,
                        k as int + 1,
                    ));
                }
                k += 1;
            }
            body.append("endobj\n");
            proof {
                assert(body@ =~= doc_body_chars(self@.objects, j as int + 1));
            }
            j += 1;
        }
        proof {
            assert(doc_encodable(self@));
        }
        let mut header: Vec<u8> = Vec::new();
        header.push(0x25u8);
        header.push(0x50u8);
        header.push(0x44u8);
        header.push(0x46u8);
        header.push(0x2du8);
        header.push(0x31u8);
        header.push(0x2eu8);
        header.push(0x37u8);
        header.push(0x0au8);
        header.push(0xe2u8);
        header.push(0xe3u8);
        header.push(0xcfu8);
        header.push(0xd3u8);
        header.push(0x0au8);
        proof {
            assert(header@ =~= header_bytes());
        }
        let bv = body.as_str().as_bytes_vec();
        let mut buf = buffer_new();
        buffer_extend(&mut buf, header.as_slice());
        buffer_extend(&mut buf, bv.as_slice());
        let out = buffer_to_vec(&buf);
        proof {
            assert(out@ =~= doc_bytes(self@));
        }
        Ok(out)
    }
}

} // verus!
