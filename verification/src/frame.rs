//! The tagged value type exchanged on the wire, its mathematical model, and
//! the serializer.
//!
//! Wire layout: `Simple` is `+<text>\r\n`, `Error` is `-<text>\r\n`,
//! `Integer` is `:<decimal>\r\n`, `Null` is `$-1\r\n`, `Bulk` is
//! `$<byte-length>\r\n<raw bytes>\r\n`, and `Array` is `*<count>\r\n`
//! followed by each element encoded as a non-Array frame. An Array's
//! elements are never themselves Array: one level of nesting only.

use vstd::prelude::*;

use crate::crlf;
use crate::digits::{dec_digits, dec_digits_signed, push_dec_i64, push_dec_u64, DEC_LIMIT};

verus! {

/// One self-delimited protocol message unit on the wire.
#[derive(Debug, PartialEq, Eq)]
pub enum WireFrame {
    /// A short status string without embedded CR or LF.
    Simple(Vec<u8>),
    /// An error status string without embedded CR or LF.
    Error(Vec<u8>),
    Integer(i64),
    /// The absence of a value.
    Null,
    /// A length-prefixed raw byte payload.
    Bulk(Vec<u8>),
    /// An ordered list of non-Array frames.
    Array(Vec<WireFrame>),
}

/// The mathematical model of a non-Array frame.
pub enum LeafModel {
    Simple(Seq<u8>),
    Error(Seq<u8>),
    Integer(i64),
    Null,
    Bulk(Seq<u8>),
}

/// The mathematical model of a frame: a leaf, or one flat list of leaves.
pub enum FrameModel {
    Leaf(LeafModel),
    Array(Seq<LeafModel>),
}

impl WireFrame {
    /// The model of a non-Array frame. An Array, which well-formed frames
    /// never hold in leaf position, is mapped to Null.
    pub open spec fn leaf_model(self) -> LeafModel {
        match self {
            WireFrame::Simple(s) => LeafModel::Simple(s@),
            WireFrame::Error(s) => LeafModel::Error(s@),
            WireFrame::Integer(v) => LeafModel::Integer(v),
            WireFrame::Null => LeafModel::Null,
            WireFrame::Bulk(b) => LeafModel::Bulk(b@),
            WireFrame::Array(_) => LeafModel::Null,
        }
    }

    /// The model of a frame. Elements of an Array are taken as leaves; a
    /// nested Array, which no well-formed frame contains, has no model.
    pub open spec fn model(self) -> FrameModel {
        match self {
            WireFrame::Array(items) => FrameModel::Array(
                Seq::new(items@.len(), |i: int| items@[i].leaf_model()),
            ),
            _ => FrameModel::Leaf(self.leaf_model()),
        }
    }
}

/// Status texts carry neither CR nor LF, so a text line is self-describing.
pub open spec fn text_ok(s: Seq<u8>) -> bool {
    forall|i: int| 0 <= i < s.len() ==> s[i] != 13 && s[i] != 10
}

pub open spec fn leaf_wf(l: LeafModel) -> bool {
    match l {
        LeafModel::Simple(s) => text_ok(s),
        LeafModel::Error(s) => text_ok(s),
        _ => true,
    }
}

pub open spec fn model_wf(m: FrameModel) -> bool {
    match m {
        FrameModel::Leaf(l) => leaf_wf(l),
        FrameModel::Array(ls) => forall|i: int| 0 <= i < ls.len() ==> leaf_wf(#[trigger] ls[i]),
    }
}

/// A frame the codec can carry: status texts are free of CR and LF, and an
/// Array holds only non-Array elements.
pub open spec fn frame_wf(f: WireFrame) -> bool {
    match f {
        WireFrame::Array(items) => forall|i: int|
            0 <= i < items@.len() ==> !(#[trigger] items@[i] is Array) && leaf_wf(
                items@[i].leaf_model(),
            ),
        _ => leaf_wf(f.leaf_model()),
    }
}

/// The status texts of a frame are free of CR and LF; elements that are
/// themselves Array are exempt, since encoding rejects them outright.
pub open spec fn frame_texts_ok(f: WireFrame) -> bool {
    match f {
        WireFrame::Array(items) => forall|i: int|
            0 <= i < items@.len() ==> (#[trigger] items@[i] is Array) || leaf_wf(
                items@[i].leaf_model(),
            ),
        _ => leaf_wf(f.leaf_model()),
    }
}

/// Payload lengths and element counts small enough for a numeric line.
pub open spec fn leaf_size_ok(l: LeafModel) -> bool {
    match l {
        LeafModel::Bulk(b) => b.len() < DEC_LIMIT,
        _ => true,
    }
}

pub open spec fn model_size_ok(m: FrameModel) -> bool {
    match m {
        FrameModel::Leaf(l) => leaf_size_ok(l),
        FrameModel::Array(ls) => ls.len() < DEC_LIMIT && forall|i: int|
            0 <= i < ls.len() ==> leaf_size_ok(#[trigger] ls[i]),
    }
}

/// The bytes of a non-Array frame on the wire.
pub open spec fn leaf_enc(l: LeafModel) -> Seq<u8> {
    match l {
        LeafModel::Simple(s) => seq![43u8] + s + crlf(),
        LeafModel::Error(s) => seq![45u8] + s + crlf(),
        LeafModel::Integer(v) => seq![58u8] + dec_digits_signed(v as int) + crlf(),
        LeafModel::Null => seq![36u8, 45u8, 49u8, 13u8, 10u8],
        LeafModel::Bulk(b) => seq![36u8] + dec_digits(b.len()) + crlf() + b + crlf(),
    }
}

/// The concatenated encodings of an Array's elements.
pub open spec fn cat_leaf_encs(ls: Seq<LeafModel>) -> Seq<u8>
    decreases ls.len(),
{
    if ls.len() == 0 {
        Seq::empty()
    } else {
        cat_leaf_encs(ls.drop_last()) + leaf_enc(ls.last())
    }
}

/// The bytes of a frame on the wire.
pub open spec fn model_enc(m: FrameModel) -> Seq<u8> {
    match m {
        FrameModel::Leaf(l) => leaf_enc(l),
        FrameModel::Array(ls) => seq![42u8] + dec_digits(ls.len()) + crlf() + cat_leaf_encs(ls),
    }
}

/// A well-formed frame has a well-formed model.
pub proof fn lemma_wf_frame_wf_model(f: WireFrame)
    requires
        frame_wf(f),
    ensures
        model_wf(f.model()),
{
    match f {
        WireFrame::Array(items) => {
            let ls = f.model()->Array_0;
            assert forall|i: int| 0 <= i < ls.len() implies leaf_wf(#[trigger] ls[i]) by {
                assert(ls[i] == items@[i].leaf_model());
            }
        },
        _ => {},
    }
}

/// Encoding an Array frame that itself contains an Array is refused:
/// the wire format nests exactly one level.
#[derive(Debug, Clone, Copy, PartialEq, Eq)]
pub enum EncodeError {
    NestedArray,
}

fn push_all(out: &mut Vec<u8>, data: &Vec<u8>)
    ensures
        final(out)@ == old(out)@ + data@,
{
    let mut i: usize = 0;
    while i < data.len()
        invariant
            i <= data.len(),
            out@ == old(out)@ + data@.take(i as int),
        decreases data.len() - i,
    {
        out.push(data[i]);
        assert(out@ =~= old(out)@ + data@.take(i + 1));
        i = i + 1;
    }
    assert(out@ =~= old(out)@ + data@);
}

fn push_crlf(out: &mut Vec<u8>)
    ensures
        final(out)@ == old(out)@ + crlf(),
{
    out.push(13);
    out.push(10);
    assert(out@ =~= old(out)@ + crlf());
}

/// Appends the wire bytes of one non-Array frame.
fn encode_leaf_into(out: &mut Vec<u8>, f: &WireFrame)
    requires
        !(f is Array),
        leaf_wf(f.leaf_model()),
    ensures
        final(out)@ == old(out)@ + leaf_enc(f.leaf_model()),
{
    match f {
        WireFrame::Simple(s) => {
            out.push(43);
            push_all(out, s);
            push_crlf(out);
            assert(out@ =~= old(out)@ + leaf_enc(f.leaf_model()));
        },
        WireFrame::Error(s) => {
            out.push(45);
            push_all(out, s);
            push_crlf(out);
            assert(out@ =~= old(out)@ + leaf_enc(f.leaf_model()));
        },
        WireFrame::Integer(v) => {
            out.push(58);
            push_dec_i64(out, *v);
            push_crlf(out);
            assert(out@ =~= old(out)@ + leaf_enc(f.leaf_model()));
        },
        WireFrame::Null => {
            out.push(36);
            out.push(45);
            out.push(49);
            push_crlf(out);
            assert(out@ =~= old(out)@ + leaf_enc(f.leaf_model()));
        },
        WireFrame::Bulk(b) => {
            out.push(36);
            let blen: usize = b.len();
            assert(blen as u64 as nat == blen as nat);
            push_dec_u64(out, blen as u64);
            push_crlf(out);
            push_all(out, b);
            push_crlf(out);
            assert(out@ =~= old(out)@ + leaf_enc(f.leaf_model()));
        },
        WireFrame::Array(_) => {
            proof {
                assert(false);
            }
        },
    }
}

/// Serializes a frame to its wire bytes.
///
/// An Array is written as a count line followed by each element encoded as a
/// non-Array frame; an Array containing an Array is refused with
/// `EncodeError::NestedArray` and no bytes are produced for it.
pub fn encode(f: &WireFrame) -> (r: Result<Vec<u8>, EncodeError>)
    requires
        frame_texts_ok(*f),
    ensures
        match r {
            Ok(bytes) => frame_wf(*f) && bytes@ == model_enc(f.model()),
            Err(e) => !frame_wf(*f) && e == EncodeError::NestedArray,
        },
{
    match f {
        WireFrame::Array(items) => {
            let ghost ls = f.model()->Array_0;
            let mut out: Vec<u8> = Vec::new();
            out.push(42);
            let count: usize = items.len();
            assert(count as u64 as nat == count as nat);
            push_dec_u64(&mut out, count as u64);
            push_crlf(&mut out);
            let ghost header = seq![42u8] + dec_digits(ls.len()) + crlf();
            assert(out@ =~= header + cat_leaf_encs(ls.take(0)));
            let mut i: usize = 0;
            while i < items.len()
                invariant
                    i <= items@.len(),
                    ls == f.model()->Array_0,
                    f == WireFrame::Array(*items),
                    ls.len() == items@.len(),
                    forall|j: int| 0 <= j < ls.len() ==> ls[j] == items@[j].leaf_model(),
                    frame_texts_ok(*f),
                    header == seq![42u8] + dec_digits(ls.len()) + crlf(),
                    out@ == header + cat_leaf_encs(ls.take(i as int)),
                    forall|j: int| 0 <= j < i ==> !(#[trigger] items@[j] is Array),
                decreases items@.len() - i,
            {
                let item = &items[i];
                match item {
                    WireFrame::Array(_) => {
                        return Err(EncodeError::NestedArray);
                    },
                    _ => {},
                }
                assert(leaf_wf(items@[i as int].leaf_model()));
                encode_leaf_into(&mut out, item);
                proof {
                    assert(ls.take(i + 1).drop_last() =~= ls.take(i as int));
                    assert(ls.take(i + 1).last() == ls[i as int]);
                    assert(out@ =~= header + cat_leaf_encs(ls.take(i + 1)));
                }
                i = i + 1;
            }
            assert(ls.take(ls.len() as int) =~= ls);
            assert(frame_wf(*f));
            Ok(out)
        },
        _ => {
            let mut out: Vec<u8> = Vec::new();
            encode_leaf_into(&mut out, f);
            Ok(out)
        },
    }
}

} // verus!
