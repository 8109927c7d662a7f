//! The incremental frame decoder.
//!
//! Decoding is two-phase: a validation pass scans the buffered bytes just
//! far enough to confirm that a complete frame is present and to compute its
//! exact byte length; only then does a materialization pass re-scan the same
//! bytes to build the typed frame. A failed or incomplete attempt consumes
//! nothing.
//!
//! The decoder is strict: it accepts exactly the canonical encodings that
//! the serializer produces, so decoding inverts encoding.

use vstd::prelude::*;
use vstd::pervasive::unreached;

use crate::crlf;
use crate::digits::{dec_digits, dec_value, digits_ok, lemma_dec_canonical, lemma_dec_value_bound, lemma_pow10_19, parse_u64_digits};
use crate::frame::{
    leaf_wf, text_ok, leaf_size_ok, FrameModel, LeafModel, WireFrame,
};

verus! {

pub open spec fn is_mark(b: u8) -> bool {
    b == 13 || b == 10
}

/// The first position at or after `i` holding a CR or LF byte, or the length
/// of `s` when there is none.
pub open spec fn find_mark(s: Seq<u8>, i: int) -> int
    decreases s.len() - i,
{
    if i < 0 || i >= s.len() {
        s.len() as int
    } else if is_mark(s[i]) {
        i
    } else {
        find_mark(s, i + 1)
    }
}

proof fn lemma_find_mark(s: Seq<u8>, i: int)
    requires
        0 <= i <= s.len(),
    ensures
        i <= find_mark(s, i) <= s.len(),
        find_mark(s, i) < s.len() ==> is_mark(s[find_mark(s, i)]),
        forall|k: int| i <= k < find_mark(s, i) ==> !is_mark(s[k]),
    decreases s.len() - i,
{
    if i < s.len() && !is_mark(s[i]) {
        lemma_find_mark(s, i + 1);
    }
}

/// Where a mark-free region `[i, j)` is followed by a mark at `j`, the scan
/// finds exactly `j`.
proof fn lemma_find_mark_exact(s: Seq<u8>, i: int, j: int)
    requires
        0 <= i <= j <= s.len(),
        forall|k: int| i <= k < j ==> !is_mark(s[k]),
        j < s.len() ==> is_mark(s[j]),
    ensures
        find_mark(s, i) == j,
{
    lemma_find_mark(s, i);
    let r = find_mark(s, i);
    if r < j {
        assert(!is_mark(s[r]));
    }
    if r > j {
        assert(!is_mark(s[j]));
    }
}

/// The outcome of scanning for one CRLF-terminated line starting at `i`:
/// the position of the terminating CR, a request for more bytes, or a
/// delimiter violation.
pub enum LineStep {
    Line(int),
    More,
    Bad,
}

/// Scans for a line `s[i..j]` terminated by CRLF at `j`. A lone LF, or a CR
/// not followed by LF, violates the wire format.
pub open spec fn line_at(s: Seq<u8>, i: int) -> LineStep {
    let j = find_mark(s, i);
    if j == s.len() {
        LineStep::More
    } else if s[j] == 10 {
        LineStep::Bad
    } else if j + 1 == s.len() {
        LineStep::More
    } else if s[j + 1] == 10 {
        LineStep::Line(j)
    } else {
        LineStep::Bad
    }
}

pub enum UIntStep {
    Num(nat, int),
    More,
    Bad,
}

/// Parses an unsigned numeric line starting at `i`; on success yields the
/// value and the position just past the line's CRLF.
pub open spec fn uline_at(s: Seq<u8>, i: int) -> UIntStep {
    match line_at(s, i) {
        LineStep::More => UIntStep::More,
        LineStep::Bad => UIntStep::Bad,
        LineStep::Line(j) => {
            let t = s.subrange(i, j);
            if digits_ok(t) {
                UIntStep::Num(dec_value(t), j + 2)
            } else {
                UIntStep::Bad
            }
        },
    }
}

pub enum IntStep {
    Num(i64, int),
    More,
    Bad,
}

/// Parses a signed numeric line starting at `i`: an optional minus sign
/// before canonical digits, within the range of `i64`.
pub open spec fn iline_at(s: Seq<u8>, i: int) -> IntStep {
    match line_at(s, i) {
        LineStep::More => IntStep::More,
        LineStep::Bad => IntStep::Bad,
        LineStep::Line(j) => {
            let t = s.subrange(i, j);
            if t.len() >= 1 && t[0] == 45 {
                let d = t.subrange(1, t.len() as int);
                if digits_ok(d) && 1 <= dec_value(d) <= 0x8000000000000000 {
                    IntStep::Num((-(dec_value(d) as int)) as i64, j + 2)
                } else {
                    IntStep::Bad
                }
            } else {
                if digits_ok(t) && dec_value(t) <= i64::MAX {
                    IntStep::Num(dec_value(t) as i64, j + 2)
                } else {
                    IntStep::Bad
                }
            }
        },
    }
}

pub enum LeafStep {
    Done(LeafModel, int),
    More,
    Bad,
}

/// Parses one non-Array frame starting at `i`; on success yields its model
/// and the position just past it. A nested Array tag is a wire-format
/// violation here.
pub open spec fn leaf_at(s: Seq<u8>, i: int) -> LeafStep {
    if i >= s.len() {
        LeafStep::More
    } else if s[i] == 43 {
        match line_at(s, i + 1) {
            LineStep::More => LeafStep::More,
            LineStep::Bad => LeafStep::Bad,
            LineStep::Line(j) => LeafStep::Done(LeafModel::Simple(s.subrange(i + 1, j)), j + 2),
        }
    } else if s[i] == 45 {
        match line_at(s, i + 1) {
            LineStep::More => LeafStep::More,
            LineStep::Bad => LeafStep::Bad,
            LineStep::Line(j) => LeafStep::Done(LeafModel::Error(s.subrange(i + 1, j)), j + 2),
        }
    } else if s[i] == 58 {
        match iline_at(s, i + 1) {
            IntStep::More => LeafStep::More,
            IntStep::Bad => LeafStep::Bad,
            IntStep::Num(v, p) => LeafStep::Done(LeafModel::Integer(v), p),
        }
    } else if s[i] == 36 {
        match line_at(s, i + 1) {
            LineStep::More => LeafStep::More,
            LineStep::Bad => LeafStep::Bad,
            LineStep::Line(j) => {
                let t = s.subrange(i + 1, j);
                if t == seq![45u8, 49u8] {
                    LeafStep::Done(LeafModel::Null, j + 2)
                } else if digits_ok(t) {
                    let n = dec_value(t);
                    if j + 2 + n + 2 <= s.len() {
                        if s[j + 2 + n] == 13 && s[j + 2 + n + 1] == 10 {
                            LeafStep::Done(LeafModel::Bulk(s.subrange(j + 2, j + 2 + n)), j + 2 + n + 2)
                        } else {
                            LeafStep::Bad
                        }
                    } else {
                        LeafStep::More
                    }
                } else {
                    LeafStep::Bad
                }
            },
        }
    } else {
        LeafStep::Bad
    }
}

pub enum ElemsStep {
    Done(Seq<LeafModel>, int),
    More,
    Bad,
}

/// Parses `k` consecutive non-Array frames starting at `i`.
pub open spec fn elems_at(s: Seq<u8>, i: int, k: nat) -> ElemsStep
    decreases k,
{
    if k == 0 {
        ElemsStep::Done(Seq::empty(), i)
    } else {
        match leaf_at(s, i) {
            LeafStep::More => ElemsStep::More,
            LeafStep::Bad => ElemsStep::Bad,
            LeafStep::Done(l, p) => match elems_at(s, p, (k - 1) as nat) {
                ElemsStep::More => ElemsStep::More,
                ElemsStep::Bad => ElemsStep::Bad,
                ElemsStep::Done(ls, q) => ElemsStep::Done(seq![l] + ls, q),
            },
        }
    }
}

/// What a buffer holds: a complete frame and the exact number of bytes it
/// occupies, too few bytes to decide, or a wire-format violation.
pub enum SpecDecode {
    Complete(FrameModel, int),
    Incomplete,
    Malformed,
}

/// The mathematical decoder: the meaning of any byte buffer's prefix.
pub open spec fn spec_decode(s: Seq<u8>) -> SpecDecode {
    if s.len() == 0 {
        SpecDecode::Incomplete
    } else if s[0] == 42 {
        match uline_at(s, 1) {
            UIntStep::More => SpecDecode::Incomplete,
            UIntStep::Bad => SpecDecode::Malformed,
            UIntStep::Num(n, p) => match elems_at(s, p, n) {
                ElemsStep::More => SpecDecode::Incomplete,
                ElemsStep::Bad => SpecDecode::Malformed,
                ElemsStep::Done(ls, q) => SpecDecode::Complete(FrameModel::Array(ls), q),
            },
        }
    } else {
        match leaf_at(s, 0) {
            LeafStep::More => SpecDecode::Incomplete,
            LeafStep::Bad => SpecDecode::Malformed,
            LeafStep::Done(l, p) => SpecDecode::Complete(FrameModel::Leaf(l), p),
        }
    }
}

/// A successfully parsed leaf is well formed, fits the numeric limits, and
/// ends strictly past where it began, within the buffer.
proof fn lemma_leaf_done_wf(s: Seq<u8>, i: int)
    requires
        0 <= i <= s.len(),
        leaf_at(s, i) is Done,
    ensures
        leaf_wf(leaf_at(s, i)->Done_0),
        leaf_size_ok(leaf_at(s, i)->Done_0),
        i < leaf_at(s, i)->Done_1 <= s.len(),
{
    lemma_find_mark(s, i + 1);
    let j = find_mark(s, i + 1);
    if s[i] == 43 || s[i] == 45 {
        assert(text_ok(s.subrange(i + 1, j)));
    } else if s[i] == 36 {
        match line_at(s, i + 1) {
            LineStep::Line(_) => {
                let t = s.subrange(i + 1, j);
                if t != seq![45u8, 49u8] && digits_ok(t) {
                    lemma_dec_value_bound(t);
                    lemma_pow10_19();
                    crate::digits::lemma_pow10_increases(t.len(), 19);
                }
            },
            _ => {},
        }
    }
}

enum LineScan {
    Line(usize),
    More,
    Bad,
}

fn find_mark_from(buf: &Vec<u8>, i: usize) -> (r: usize)
    requires
        i <= buf.len(),
    ensures
        r as int == find_mark(buf@, i as int),
        i <= r <= buf.len(),
{
    let mut j = i;
    while j < buf.len()
        invariant
            i <= j <= buf.len(),
            find_mark(buf@, i as int) == find_mark(buf@, j as int),
            forall|k: int| i <= k < j ==> !is_mark(buf@[k]),
        decreases buf.len() - j,
    {
        let b = buf[j];
        if b == 13 || b == 10 {
            return j;
        }
        j = j + 1;
    }
    j
}

fn scan_line(buf: &Vec<u8>, i: usize) -> (r: LineScan)
    requires
        i <= buf.len(),
    ensures
        match r {
            LineScan::Line(j) => line_at(buf@, i as int) == LineStep::Line(j as int) && i <= j
                && j + 2 <= buf.len(),
            LineScan::More => line_at(buf@, i as int) is More,
            LineScan::Bad => line_at(buf@, i as int) is Bad,
        },
{
    let j = find_mark_from(buf, i);
    if j == buf.len() {
        LineScan::More
    } else if buf[j] == 10 {
        LineScan::Bad
    } else if j + 1 == buf.len() {
        LineScan::More
    } else if buf[j + 1] == 10 {
        LineScan::Line(j)
    } else {
        LineScan::Bad
    }
}

enum ULineScan {
    Num(u64, usize),
    More,
    Bad,
}

fn parse_count_line(buf: &Vec<u8>, i: usize) -> (r: ULineScan)
    requires
        i <= buf.len(),
    ensures
        match r {
            ULineScan::Num(v, p) => uline_at(buf@, i as int) == UIntStep::Num(v as nat, p as int)
                && i < p <= buf.len(),
            ULineScan::More => uline_at(buf@, i as int) is More,
            ULineScan::Bad => uline_at(buf@, i as int) is Bad,
        },
{
    match scan_line(buf, i) {
        LineScan::More => ULineScan::More,
        LineScan::Bad => ULineScan::Bad,
        LineScan::Line(j) => match parse_u64_digits(buf, i, j) {
            Some(v) => ULineScan::Num(v, j + 2),
            None => ULineScan::Bad,
        },
    }
}

enum ILineScan {
    Num(i64, usize),
    More,
    Bad,
}

fn parse_int_line(buf: &Vec<u8>, i: usize) -> (r: ILineScan)
    requires
        i <= buf.len(),
    ensures
        match r {
            ILineScan::Num(v, p) => iline_at(buf@, i as int) == IntStep::Num(v, p as int) && i < p
                <= buf.len(),
            ILineScan::More => iline_at(buf@, i as int) is More,
            ILineScan::Bad => iline_at(buf@, i as int) is Bad,
        },
{
    match scan_line(buf, i) {
        LineScan::More => ILineScan::More,
        LineScan::Bad => ILineScan::Bad,
        LineScan::Line(j) => {
            let ghost t = buf@.subrange(i as int, j as int);
            if j > i && buf[i] == 45 {
                assert(buf@.subrange(i + 1, j as int) =~= t.subrange(1, t.len() as int));
                match parse_u64_digits(buf, i + 1, j) {
                    Some(mag) => {
                        if 1 <= mag && mag <= 0x8000000000000000u64 {
                            let v: i64 = (-(mag as i128)) as i64;
                            assert(v == (-(mag as int)) as i64);
                            ILineScan::Num(v, j + 2)
                        } else {
                            ILineScan::Bad
                        }
                    },
                    None => ILineScan::Bad,
                }
            } else {
                assert(!(t.len() >= 1 && t[0] == 45));
                match parse_u64_digits(buf, i, j) {
                    Some(u) => {
                        if u <= 0x7fffffffffffffffu64 {
                            ILineScan::Num(u as i64, j + 2)
                        } else {
                            ILineScan::Bad
                        }
                    },
                    None => ILineScan::Bad,
                }
            }
        },
    }
}

enum LeafScan {
    Done(usize),
    More,
    Bad,
}

/// The validation pass over one non-Array frame: confirms shape and extent
/// without building anything.
fn check_leaf(buf: &Vec<u8>, i: usize) -> (r: LeafScan)
    requires
        i <= buf.len(),
    ensures
        match r {
            LeafScan::Done(p) => leaf_at(buf@, i as int) matches LeafStep::Done(l, pp) && pp
                == p as int && i < p <= buf.len(),
            LeafScan::More => leaf_at(buf@, i as int) is More,
            LeafScan::Bad => leaf_at(buf@, i as int) is Bad,
        },
{
    if i == buf.len() {
        return LeafScan::More;
    }
    let tag = buf[i];
    if tag == 43 || tag == 45 {
        match scan_line(buf, i + 1) {
            LineScan::More => LeafScan::More,
            LineScan::Bad => LeafScan::Bad,
            LineScan::Line(j) => LeafScan::Done(j + 2),
        }
    } else if tag == 58 {
        match parse_int_line(buf, i + 1) {
            ILineScan::More => LeafScan::More,
            ILineScan::Bad => LeafScan::Bad,
            ILineScan::Num(_, p) => LeafScan::Done(p),
        }
    } else if tag == 36 {
        match scan_line(buf, i + 1) {
            LineScan::More => LeafScan::More,
            LineScan::Bad => LeafScan::Bad,
            LineScan::Line(j) => {
                let ghost t = buf@.subrange(i + 1, j as int);
                if j == i + 3 && buf[i + 1] == 45 && buf[i + 2] == 49 {
                    assert(t =~= seq![45u8, 49u8]);
                    LeafScan::Done(j + 2)
                } else {
                    proof {
                        if t == seq![45u8, 49u8] {
                            assert(t.len() == 2);
                            assert(buf@[i + 1] == t[0]);
                            assert(buf@[i + 2] == t[1]);
                            assert(false);
                        }
                    }
                    match parse_u64_digits(buf, i + 1, j) {
                        Some(n) => {
                            let total: u128 = (j as u128) + 2 + (n as u128) + 2;
                            if total <= (buf.len() as u128) {
                                let nn = n as usize;
                                assert(nn as int == n as int);
                                let pe = j + 2 + nn;
                                if buf[pe] == 13 && buf[pe + 1] == 10 {
                                    LeafScan::Done(pe + 2)
                                } else {
                                    LeafScan::Bad
                                }
                            } else {
                                LeafScan::More
                            }
                        },
                        None => LeafScan::Bad,
                    }
                }
            },
        }
    } else {
        LeafScan::Bad
    }
}

/// Relates one parsed leaf to the parse of `k` leaves that starts with it.
proof fn lemma_elems_unfold(s: Seq<u8>, i: int, k: nat)
    requires
        k >= 1,
        leaf_at(s, i) is Done,
    ensures
        match elems_at(s, leaf_at(s, i)->Done_1, (k - 1) as nat) {
            ElemsStep::Done(ls, q) => elems_at(s, i, k) == ElemsStep::Done(
                seq![leaf_at(s, i)->Done_0] + ls,
                q,
            ),
            ElemsStep::More => elems_at(s, i, k) is More,
            ElemsStep::Bad => elems_at(s, i, k) is Bad,
        },
{
}

/// A successful parse of `k` leaves yields exactly `k` models.
proof fn lemma_elems_done_len(s: Seq<u8>, i: int, k: nat)
    requires
        elems_at(s, i, k) is Done,
    ensures
        elems_at(s, i, k)->Done_0.len() == k,
    decreases k,
{
    if k > 0 {
        match leaf_at(s, i) {
            LeafStep::Done(l, p) => {
                lemma_elems_done_len(s, p, (k - 1) as nat);
            },
            _ => {},
        }
    }
}

/// The outcome of the validation pass over a whole frame.
pub enum CheckOutcome {
    /// A complete frame occupies exactly this many bytes at the front.
    Ready(usize),
    Incomplete,
    Malformed,
}

/// The validation pass: decides whether the buffer starts with a complete
/// frame and computes its exact byte length, without allocating the frame.
pub fn check_frame(buf: &Vec<u8>) -> (r: CheckOutcome)
    ensures
        match r {
            CheckOutcome::Ready(n) => spec_decode(buf@) matches SpecDecode::Complete(m, nn) && nn
                == n as int && 0 < n <= buf.len(),
            CheckOutcome::Incomplete => spec_decode(buf@) is Incomplete,
            CheckOutcome::Malformed => spec_decode(buf@) is Malformed,
        },
{
    if buf.len() == 0 {
        return CheckOutcome::Incomplete;
    }
    if buf[0] != 42 {
        return match check_leaf(buf, 0) {
            LeafScan::Done(p) => CheckOutcome::Ready(p),
            LeafScan::More => CheckOutcome::Incomplete,
            LeafScan::Bad => CheckOutcome::Malformed,
        };
    }
    match parse_count_line(buf, 1) {
        ULineScan::More => CheckOutcome::Incomplete,
        ULineScan::Bad => CheckOutcome::Malformed,
        ULineScan::Num(cnt, p0) => {
            let mut pos = p0;
            let mut idx: u64 = 0;
            while idx < cnt
                invariant
                    idx <= cnt,
                    p0 <= buf.len(),
                    0 < pos <= buf.len(),
                    buf@.len() > 0,
                    buf@[0] == 42,
                    uline_at(buf@, 1) == UIntStep::Num(cnt as nat, p0 as int),
                    match elems_at(buf@, pos as int, (cnt - idx) as nat) {
                        ElemsStep::Done(ls, q) => elems_at(buf@, p0 as int, cnt as nat)
                            matches ElemsStep::Done(ls0, q0) && q0 == q,
                        ElemsStep::More => elems_at(buf@, p0 as int, cnt as nat) is More,
                        ElemsStep::Bad => elems_at(buf@, p0 as int, cnt as nat) is Bad,
                    },
                decreases cnt - idx,
            {
                match check_leaf(buf, pos) {
                    LeafScan::More => {
                        return CheckOutcome::Incomplete;
                    },
                    LeafScan::Bad => {
                        return CheckOutcome::Malformed;
                    },
                    LeafScan::Done(p) => {
                        proof {
                            lemma_elems_unfold(buf@, pos as int, (cnt - idx) as nat);
                        }
                        pos = p;
                        idx = idx + 1;
                    },
                }
            }
            assert(elems_at(buf@, pos as int, 0) == ElemsStep::Done(Seq::<LeafModel>::empty(), pos as int));
            CheckOutcome::Ready(pos)
        },
    }
}

fn copy_range(buf: &Vec<u8>, a: usize, b: usize) -> (out: Vec<u8>)
    requires
        a <= b <= buf.len(),
    ensures
        out@ == buf@.subrange(a as int, b as int),
{
    let mut out: Vec<u8> = Vec::new();
    let mut i = a;
    while i < b
        invariant
            a <= i <= b <= buf.len(),
            out@ == buf@.subrange(a as int, i as int),
        decreases b - i,
    {
        out.push(buf[i]);
        assert(out@ =~= buf@.subrange(a as int, i + 1));
        i = i + 1;
    }
    out
}

/// The materialization pass over one non-Array frame: builds the typed
/// frame whose presence the validation pass has already confirmed.
fn read_leaf(buf: &Vec<u8>, i: usize) -> (r: (WireFrame, usize))
    requires
        i <= buf.len(),
        leaf_at(buf@, i as int) is Done,
    ensures
        leaf_at(buf@, i as int) == LeafStep::Done(r.0.leaf_model(), r.1 as int),
        !(r.0 is Array),
        i < r.1 <= buf.len(),
{
    proof {
        lemma_leaf_done_wf(buf@, i as int);
    }
    let tag = buf[i];
    if tag == 43 {
        match scan_line(buf, i + 1) {
            LineScan::Line(j) => {
                let text = copy_range(buf, i + 1, j);
                (WireFrame::Simple(text), j + 2)
            },
            _ => unreached(),
        }
    } else if tag == 45 {
        match scan_line(buf, i + 1) {
            LineScan::Line(j) => {
                let text = copy_range(buf, i + 1, j);
                (WireFrame::Error(text), j + 2)
            },
            _ => unreached(),
        }
    } else if tag == 58 {
        match parse_int_line(buf, i + 1) {
            ILineScan::Num(v, p) => (WireFrame::Integer(v), p),
            _ => unreached(),
        }
    } else {
        assert(tag == 36);
        match scan_line(buf, i + 1) {
            LineScan::Line(j) => {
                let ghost t = buf@.subrange(i + 1, j as int);
                if j == i + 3 && buf[i + 1] == 45 && buf[i + 2] == 49 {
                    assert(t =~= seq![45u8, 49u8]);
                    (WireFrame::Null, j + 2)
                } else {
                    proof {
                        if t == seq![45u8, 49u8] {
                            assert(buf@[i + 1] == t[0]);
                            assert(buf@[i + 2] == t[1]);
                            assert(false);
                        }
                    }
                    match parse_u64_digits(buf, i + 1, j) {
                        Some(n) => {
                            let nn = n as usize;
                            assert(nn as int == n as int);
                            let payload = copy_range(buf, j + 2, j + 2 + nn);
                            (WireFrame::Bulk(payload), j + 2 + nn + 2)
                        },
                        None => unreached(),
                    }
                }
            },
            _ => unreached(),
        }
    }
}

/// What one decode attempt on a buffer yields.
#[derive(Debug, PartialEq, Eq)]
pub enum DecodeOutcome {
    /// A complete frame, and the number of bytes it occupied at the front
    /// of the buffer.
    Complete(WireFrame, usize),
    /// Not a failure: read more bytes and retry.
    Incomplete,
    /// The wire format was violated; the connection is beyond recovery.
    Malformed,
}

/// Decodes the frame at the front of the buffer, all or nothing.
///
/// The returned frame is well formed and its canonical encoding is exactly
/// the consumed prefix of the buffer; the buffer itself is untouched.
pub fn try_decode(buf: &Vec<u8>) -> (r: DecodeOutcome)
    ensures
        match r {
            DecodeOutcome::Complete(f, n) => crate::frame::frame_wf(f) && spec_decode(buf@)
                == SpecDecode::Complete(f.model(), n as int) && 0 < n <= buf.len(),
            DecodeOutcome::Incomplete => spec_decode(buf@) is Incomplete,
            DecodeOutcome::Malformed => spec_decode(buf@) is Malformed,
        },
{
    match check_frame(buf) {
        CheckOutcome::Incomplete => DecodeOutcome::Incomplete,
        CheckOutcome::Malformed => DecodeOutcome::Malformed,
        CheckOutcome::Ready(n) => {
            if buf[0] != 42 {
                let (f, p) = read_leaf(buf, 0);
                proof {
                    lemma_leaf_done_wf(buf@, 0);
                }
                DecodeOutcome::Complete(f, p)
            } else {
                let (f, p) = build_array(buf);
                DecodeOutcome::Complete(f, p)
            }
        },
    }
}

/// The materialization pass over an Array frame.
fn build_array(buf: &Vec<u8>) -> (r: (WireFrame, usize))
    requires
        buf@.len() > 0,
        buf@[0] == 42,
        spec_decode(buf@) is Complete,
    ensures
        crate::frame::frame_wf(r.0) && spec_decode(buf@) == SpecDecode::Complete(
            r.0.model(),
            r.1 as int,
        ) && 0 < r.1 <= buf.len(),
{
    let ghost ls_all = spec_decode(buf@)->Complete_0->Array_0;
    let ghost q = spec_decode(buf@)->Complete_1;
    match parse_count_line(buf, 1) {
        ULineScan::Num(cnt, p0) => {
            assert(elems_at(buf@, p0 as int, cnt as nat) == ElemsStep::Done(ls_all, q));
            proof {
                lemma_elems_done_len(buf@, p0 as int, cnt as nat);
                assert(ls_all.skip(0) =~= ls_all);
            }
            let mut items: Vec<WireFrame> = Vec::new();
            let mut pos = p0;
            let mut idx: u64 = 0;
            while idx < cnt
                invariant
                    idx <= cnt,
                    0 < pos <= buf.len(),
                    items@.len() == idx as nat,
                    buf@.len() > 0,
                    buf@[0] == 42,
                    uline_at(buf@, 1) == UIntStep::Num(cnt as nat, p0 as int),
                    elems_at(buf@, p0 as int, cnt as nat) == ElemsStep::Done(ls_all, q),
                    elems_at(buf@, pos as int, (cnt - idx) as nat) == ElemsStep::Done(
                        ls_all.skip(idx as int),
                        q,
                    ),
                    cnt as nat == ls_all.len(),
                    forall|j: int| 0 <= j < idx ==> (#[trigger] items@[j]).leaf_model() == ls_all[j]
                        && !(items@[j] is Array) && leaf_wf(ls_all[j]),
                decreases cnt - idx,
            {
                let ghost k = (cnt - idx) as nat;
                let ghost rem = ls_all.skip(idx as int);
                proof {
                    assert(k >= 1);
                    assert(rem.len() == k);
                    if !(leaf_at(buf@, pos as int) is Done) {
                        assert(elems_at(buf@, pos as int, k) is More || elems_at(
                            buf@,
                            pos as int,
                            k,
                        ) is Bad);
                    }
                    lemma_leaf_done_wf(buf@, pos as int);
                }
                let (f, p) = read_leaf(buf, pos);
                proof {
                    lemma_elems_unfold(buf@, pos as int, k);
                    let l = leaf_at(buf@, pos as int)->Done_0;
                    match elems_at(buf@, p as int, (k - 1) as nat) {
                        ElemsStep::Done(ls2, q2) => {
                            assert(rem == seq![l] + ls2);
                            assert(rem[0] == l);
                            assert(ls2 =~= rem.skip(1));
                            assert(rem.skip(1) =~= ls_all.skip(idx + 1));
                            assert(q2 == q);
                        },
                        _ => {
                            assert(false);
                        },
                    }
                }
                items.push(f);
                pos = p;
                idx = idx + 1;
                assert(forall|j: int|
                    0 <= j < idx ==> (#[trigger] items@[j]).leaf_model() == ls_all[j] && !(
                    items@[j] is Array) && leaf_wf(ls_all[j]));
            }
            proof {
                assert(ls_all.skip(cnt as int) =~= Seq::<LeafModel>::empty());
                assert(elems_at(buf@, pos as int, 0) == ElemsStep::Done(
                    Seq::<LeafModel>::empty(),
                    pos as int,
                ));
                assert(q == pos as int);
            }
            let out = WireFrame::Array(items);
            proof {
                assert(out.model()->Array_0 =~= ls_all);
                assert(out.model() == FrameModel::Array(ls_all));
                assert(crate::frame::frame_wf(out));
            }
            (out, pos)
        },
        _ => unreached(),
    }
}

proof fn lemma_line_at_full(s: Seq<u8>, i: int, t: Seq<u8>)
    requires
        0 <= i,
        i + t.len() + 2 <= s.len(),
        text_ok(t),
        s.subrange(i, i + t.len() + 2) == t + crlf(),
    ensures
        line_at(s, i) == LineStep::Line(i + t.len()),
        s.subrange(i, i + t.len()) == t,
{
    let j = i + t.len() as int;
    assert forall|k: int| i <= k < j implies !is_mark(s[k]) by {
        assert(s[k] == s.subrange(i, i + t.len() + 2)[k - i]);
        assert(s[k] == t[k - i]);
    }
    assert(s[j] == s.subrange(i, i + t.len() + 2)[t.len() as int]);
    assert(s[j] == 13);
    assert(s[j + 1] == s.subrange(i, i + t.len() + 2)[t.len() as int + 1]);
    assert(s[j + 1] == 10);
    lemma_find_mark_exact(s, i, j);
    assert(s.subrange(i, i + t.len()) =~= t);
}

proof fn lemma_line_at_prefix(s: Seq<u8>, i: int, t: Seq<u8>)
    requires
        0 <= i <= s.len(),
        s.len() < i + t.len() + 2,
        text_ok(t),
        s.subrange(i, s.len() as int) == (t + crlf()).take(s.len() - i),
    ensures
        line_at(s, i) is More,
{
    let e = s.len() as int;
    assert forall|k: int| i <= k < e implies s[k] == (t + crlf())[k - i] by {
        assert(s[k] == s.subrange(i, e)[k - i]);
    }
    if e - i <= t.len() {
        assert forall|k: int| i <= k < e implies !is_mark(s[k]) by {
            assert(s[k] == t[k - i]);
        }
        lemma_find_mark_exact(s, i, e);
    } else {
        let j = i + t.len() as int;
        assert forall|k: int| i <= k < j implies !is_mark(s[k]) by {
            assert(s[k] == t[k - i]);
        }
        assert(s[j] == 13);
        lemma_find_mark_exact(s, i, j);
    }
}

proof fn lemma_digits_text_ok(t: Seq<u8>)
    requires
        forall|k: int| 0 <= k < t.len() ==> crate::digits::is_digit(t[k]),
    ensures
        text_ok(t),
{
}

proof fn lemma_uline_at_full(s: Seq<u8>, i: int, n: nat)
    requires
        0 <= i,
        n < crate::digits::DEC_LIMIT,
        i + crate::digits::dec_digits(n).len() + 2 <= s.len(),
        s.subrange(i, i + crate::digits::dec_digits(n).len() + 2) == crate::digits::dec_digits(n)
            + crlf(),
    ensures
        uline_at(s, i) == UIntStep::Num(n, i + crate::digits::dec_digits(n).len() + 2),
{
    let dd = crate::digits::dec_digits(n);
    crate::digits::lemma_dec_digits_ok(n);
    lemma_digits_text_ok(dd);
    lemma_line_at_full(s, i, dd);
}

proof fn lemma_uline_at_prefix(s: Seq<u8>, i: int, n: nat)
    requires
        0 <= i <= s.len(),
        n < crate::digits::DEC_LIMIT,
        s.len() < i + crate::digits::dec_digits(n).len() + 2,
        s.subrange(i, s.len() as int) == (crate::digits::dec_digits(n) + crlf()).take(
            s.len() - i,
        ),
    ensures
        uline_at(s, i) is More,
{
    let dd = crate::digits::dec_digits(n);
    crate::digits::lemma_dec_digits_ok(n);
    lemma_digits_text_ok(dd);
    lemma_line_at_prefix(s, i, dd);
}

proof fn lemma_iline_at_full(s: Seq<u8>, i: int, v: i64)
    requires
        0 <= i,
        i + crate::digits::dec_digits_signed(v as int).len() + 2 <= s.len(),
        s.subrange(i, i + crate::digits::dec_digits_signed(v as int).len() + 2)
            == crate::digits::dec_digits_signed(v as int) + crlf(),
    ensures
        iline_at(s, i) == IntStep::Num(v, i + crate::digits::dec_digits_signed(v as int).len() + 2),
{
    let t = crate::digits::dec_digits_signed(v as int);
    crate::digits::lemma_pow10_19();
    if v < 0 {
        let mag = (-(v as int)) as nat;
        assert(mag < crate::digits::DEC_LIMIT);
        crate::digits::lemma_dec_digits_ok(mag);
        let dd = crate::digits::dec_digits(mag);
        lemma_digits_text_ok(dd);
        assert(t == seq![45u8] + dd);
        assert(text_ok(t));
        lemma_line_at_full(s, i, t);
        let u = s.subrange(i, i + t.len() as int);
        assert(u[0] == 45);
        assert(u.subrange(1, u.len() as int) =~= dd);
        assert(1 <= dec_value(dd) <= 0x8000000000000000);
        assert(((-(dec_value(dd) as int)) as i64) == v);
    } else {
        assert((v as nat) < crate::digits::DEC_LIMIT);
        crate::digits::lemma_dec_digits_ok(v as nat);
        lemma_digits_text_ok(t);
        lemma_line_at_full(s, i, t);
        let u = s.subrange(i, i + t.len() as int);
        assert(crate::digits::is_digit(u[0]));
        assert(u[0] != 45);
        assert(dec_value(u) == v as nat);
    }
}

proof fn lemma_iline_at_prefix(s: Seq<u8>, i: int, v: i64)
    requires
        0 <= i <= s.len(),
        s.len() < i + crate::digits::dec_digits_signed(v as int).len() + 2,
        s.subrange(i, s.len() as int) == (crate::digits::dec_digits_signed(v as int)
            + crlf()).take(s.len() - i),
    ensures
        iline_at(s, i) is More,
{
    let t = crate::digits::dec_digits_signed(v as int);
    crate::digits::lemma_pow10_19();
    if v < 0 {
        let mag = (-(v as int)) as nat;
        crate::digits::lemma_dec_digits_ok(mag);
        lemma_digits_text_ok(crate::digits::dec_digits(mag));
        assert(text_ok(t));
    } else {
        crate::digits::lemma_dec_digits_ok(v as nat);
        lemma_digits_text_ok(t);
    }
    lemma_line_at_prefix(s, i, t);
}

/// Wherever the exact canonical bytes of a well-formed leaf sit in a buffer,
/// the leaf parser finds exactly that leaf.
proof fn lemma_leaf_at_full(s: Seq<u8>, i: int, l: LeafModel)
    requires
        leaf_wf(l),
        leaf_size_ok(l),
        0 <= i,
        i + crate::frame::leaf_enc(l).len() <= s.len(),
        s.subrange(i, i + crate::frame::leaf_enc(l).len()) == crate::frame::leaf_enc(l),
    ensures
        leaf_at(s, i) == LeafStep::Done(l, i + crate::frame::leaf_enc(l).len()),
{
    let enc = crate::frame::leaf_enc(l);
    let n = enc.len() as int;
    assert forall|k: int| i <= k < i + n implies s[k] == enc[k - i] by {
        assert(s.subrange(i, i + n)[k - i] == s[k]);
    }
    match l {
        LeafModel::Simple(txt) => {
            assert(s[i] == 43);
            assert(s.subrange(i + 1, i + 1 + txt.len() + 2) =~= txt + crlf());
            lemma_line_at_full(s, i + 1, txt);
        },
        LeafModel::Error(txt) => {
            assert(s[i] == 45);
            assert(s.subrange(i + 1, i + 1 + txt.len() + 2) =~= txt + crlf());
            lemma_line_at_full(s, i + 1, txt);
        },
        LeafModel::Integer(v) => {
            assert(s[i] == 58);
            let t = crate::digits::dec_digits_signed(v as int);
            assert(s.subrange(i + 1, i + 1 + t.len() + 2) =~= t + crlf());
            lemma_iline_at_full(s, i + 1, v);
        },
        LeafModel::Null => {
            assert(s[i] == 36);
            let t = seq![45u8, 49u8];
            assert(text_ok(t));
            assert(s.subrange(i + 1, i + 1 + t.len() + 2) =~= t + crlf());
            lemma_line_at_full(s, i + 1, t);
            assert(s.subrange(i + 1, i + 3) == t);
        },
        LeafModel::Bulk(b) => {
            assert(s[i] == 36);
            let dd = crate::digits::dec_digits(b.len());
            crate::digits::lemma_dec_digits_ok(b.len());
            lemma_digits_text_ok(dd);
            assert(s.subrange(i + 1, i + 1 + dd.len() + 2) =~= dd + crlf());
            lemma_line_at_full(s, i + 1, dd);
            let j = i + 1 + dd.len() as int;
            let t = s.subrange(i + 1, j);
            assert(t == dd);
            if t == seq![45u8, 49u8] {
                assert(crate::digits::is_digit(t[0]));
                assert(false);
            }
            assert(dec_value(t) == b.len());
            assert(j + 2 + b.len() + 2 == i + n);
            assert(s[j + 2 + b.len()] == enc[j + 2 + b.len() - i]);
            assert(s[j + 2 + b.len()] == 13);
            assert(s[j + 2 + b.len() + 1] == 10);
            assert(s.subrange(j + 2, j + 2 + b.len()) =~= b);
        },
    }
}

/// A strict prefix of a well-formed leaf's canonical bytes never parses and
/// never misparses: the leaf parser asks for more bytes.
proof fn lemma_leaf_at_prefix(s: Seq<u8>, i: int, l: LeafModel)
    requires
        leaf_wf(l),
        leaf_size_ok(l),
        0 <= i <= s.len(),
        s.len() < i + crate::frame::leaf_enc(l).len(),
        s.subrange(i, s.len() as int) == crate::frame::leaf_enc(l).take(s.len() - i),
    ensures
        leaf_at(s, i) is More,
{
    let enc = crate::frame::leaf_enc(l);
    let e = s.len() as int;
    if i == e {
        return ;
    }
    assert forall|k: int| i <= k < e implies s[k] == enc[k - i] by {
        assert(s.subrange(i, e)[k - i] == s[k]);
    }
    match l {
        LeafModel::Simple(txt) => {
            assert(s[i] == 43);
            assert(s.subrange(i + 1, e) =~= (txt + crlf()).take(e - i - 1));
            lemma_line_at_prefix(s, i + 1, txt);
        },
        LeafModel::Error(txt) => {
            assert(s[i] == 45);
            assert(s.subrange(i + 1, e) =~= (txt + crlf()).take(e - i - 1));
            lemma_line_at_prefix(s, i + 1, txt);
        },
        LeafModel::Integer(v) => {
            assert(s[i] == 58);
            let t = crate::digits::dec_digits_signed(v as int);
            assert(s.subrange(i + 1, e) =~= (t + crlf()).take(e - i - 1));
            lemma_iline_at_prefix(s, i + 1, v);
        },
        LeafModel::Null => {
            assert(s[i] == 36);
            let t = seq![45u8, 49u8];
            assert(text_ok(t));
            assert(s.subrange(i + 1, e) =~= (t + crlf()).take(e - i - 1));
            lemma_line_at_prefix(s, i + 1, t);
        },
        LeafModel::Bulk(b) => {
            assert(s[i] == 36);
            let dd = crate::digits::dec_digits(b.len());
            crate::digits::lemma_dec_digits_ok(b.len());
            lemma_digits_text_ok(dd);
            if e < i + 1 + dd.len() + 2 {
                assert(s.subrange(i + 1, e) =~= (dd + crlf()).take(e - i - 1));
                lemma_line_at_prefix(s, i + 1, dd);
            } else {
                assert(s.subrange(i + 1, i + 1 + dd.len() + 2) =~= dd + crlf());
                lemma_line_at_full(s, i + 1, dd);
                let j = i + 1 + dd.len() as int;
                let t = s.subrange(i + 1, j);
                assert(t == dd);
                if t == seq![45u8, 49u8] {
                    assert(crate::digits::is_digit(t[0]));
                    assert(false);
                }
                assert(dec_value(t) == b.len());
                assert(j + 2 + b.len() + 2 == i + enc.len());
                assert(j + 2 + b.len() + 2 > e);
            }
        },
    }
}

/// The concatenated encoding of a non-empty element list starts with its
/// first element's encoding.
proof fn lemma_cat_first(ls: Seq<LeafModel>)
    requires
        ls.len() > 0,
    ensures
        crate::frame::cat_leaf_encs(ls) == crate::frame::leaf_enc(ls[0])
            + crate::frame::cat_leaf_encs(ls.skip(1)),
    decreases ls.len(),
{
    let cat = crate::frame::cat_leaf_encs(ls);
    if ls.len() == 1 {
        assert(ls.drop_last() =~= Seq::<LeafModel>::empty());
        assert(ls.skip(1) =~= Seq::<LeafModel>::empty());
        assert(ls.last() == ls[0]);
        assert(cat =~= crate::frame::leaf_enc(ls[0]) + crate::frame::cat_leaf_encs(ls.skip(1)));
    } else {
        let dl = ls.drop_last();
        lemma_cat_first(dl);
        assert(dl[0] == ls[0]);
        assert(dl.skip(1) =~= ls.skip(1).drop_last());
        assert(ls.skip(1).last() == ls.last());
        assert(ls.skip(1).len() > 0);
        assert(crate::frame::cat_leaf_encs(ls.skip(1)) == crate::frame::cat_leaf_encs(
            ls.skip(1).drop_last(),
        ) + crate::frame::leaf_enc(ls.skip(1).last()));
        assert(cat =~= crate::frame::leaf_enc(ls[0]) + crate::frame::cat_leaf_encs(ls.skip(1)));
    }
}

/// Where the exact concatenated bytes of a list of well-formed leaves sit in
/// a buffer, the element parser finds exactly those leaves.
#[verifier::rlimit(60)]
proof fn lemma_elems_at_full(s: Seq<u8>, i: int, ls: Seq<LeafModel>)
    requires
        forall|j: int| 0 <= j < ls.len() ==> leaf_wf(#[trigger] ls[j]) && leaf_size_ok(ls[j]),
        0 <= i,
        i + crate::frame::cat_leaf_encs(ls).len() <= s.len(),
        s.subrange(i, i + crate::frame::cat_leaf_encs(ls).len()) == crate::frame::cat_leaf_encs(
            ls,
        ),
    ensures
        elems_at(s, i, ls.len()) == ElemsStep::Done(ls, i + crate::frame::cat_leaf_encs(ls).len()),
    decreases ls.len(),
{
    let cat = crate::frame::cat_leaf_encs(ls);
    if ls.len() == 0 {
        assert(ls =~= Seq::<LeafModel>::empty());
    } else {
        lemma_cat_first(ls);
        let e0 = crate::frame::leaf_enc(ls[0]);
        let rest = crate::frame::cat_leaf_encs(ls.skip(1));
        assert forall|k: int| i <= k < i + cat.len() implies s[k] == cat[k - i] by {
            assert(s.subrange(i, i + cat.len())[k - i] == s[k]);
        }
        assert(s.subrange(i, i + e0.len()) =~= e0);
        lemma_leaf_at_full(s, i, ls[0]);
        let p = i + e0.len() as int;
        assert(s.subrange(p, p + rest.len()) =~= rest);
        assert(forall|j: int|
            0 <= j < ls.skip(1).len() ==> leaf_wf(#[trigger] ls.skip(1)[j]) && leaf_size_ok(
                ls.skip(1)[j],
            ));
        lemma_elems_at_full(s, p, ls.skip(1));
        assert(seq![ls[0]] + ls.skip(1) =~= ls);
    }
}

/// A strict prefix of the concatenated bytes leaves the element parser
/// asking for more.
#[verifier::rlimit(60)]
proof fn lemma_elems_at_prefix(s: Seq<u8>, i: int, ls: Seq<LeafModel>)
    requires
        forall|j: int| 0 <= j < ls.len() ==> leaf_wf(#[trigger] ls[j]) && leaf_size_ok(ls[j]),
        0 <= i <= s.len(),
        s.len() < i + crate::frame::cat_leaf_encs(ls).len(),
        s.subrange(i, s.len() as int) == crate::frame::cat_leaf_encs(ls).take(s.len() - i),
    ensures
        elems_at(s, i, ls.len()) is More,
    decreases ls.len(),
{
    let cat = crate::frame::cat_leaf_encs(ls);
    let e = s.len() as int;
    assert(ls.len() > 0);
    lemma_cat_first(ls);
    let e0 = crate::frame::leaf_enc(ls[0]);
    let rest = crate::frame::cat_leaf_encs(ls.skip(1));
    assert forall|k: int| i <= k < e implies s[k] == cat[k - i] by {
        assert(s.subrange(i, e)[k - i] == s[k]);
    }
    if e < i + e0.len() {
        assert(s.subrange(i, e) =~= e0.take(e - i));
        lemma_leaf_at_prefix(s, i, ls[0]);
    } else {
        assert(s.subrange(i, i + e0.len()) =~= e0);
        lemma_leaf_at_full(s, i, ls[0]);
        let p = i + e0.len() as int;
        assert(s.subrange(p, e) =~= rest.take(e - p));
        assert(forall|j: int|
            0 <= j < ls.skip(1).len() ==> leaf_wf(#[trigger] ls.skip(1)[j]) && leaf_size_ok(
                ls.skip(1)[j],
            ));
        lemma_elems_at_prefix(s, p, ls.skip(1));
    }
}

/// What the leaf parser accepts is the canonical encoding of the leaf it
/// returns.
#[verifier::rlimit(60)]
proof fn lemma_leaf_done_canonical(s: Seq<u8>, i: int)
    requires
        0 <= i <= s.len(),
        leaf_at(s, i) is Done,
    ensures
        ({
            let l = leaf_at(s, i)->Done_0;
            let p = leaf_at(s, i)->Done_1;
            s.subrange(i, p) == crate::frame::leaf_enc(l)
        }),
{
    lemma_leaf_done_wf(s, i);
    lemma_find_mark(s, i + 1);
    let l = leaf_at(s, i)->Done_0;
    let p = leaf_at(s, i)->Done_1;
    let j = find_mark(s, i + 1);
    let t = s.subrange(i + 1, j);
    if s[i] == 43 || s[i] == 45 {
        assert(s[j] == 13 && s[j + 1] == 10);
        assert(s.subrange(i, p) =~= seq![s[i]] + t + crlf());
    } else if s[i] == 58 {
        assert(s[j] == 13 && s[j + 1] == 10);
        let v = l->Integer_0;
        if t.len() >= 1 && t[0] == 45 {
            let d = t.subrange(1, t.len() as int);
            lemma_dec_canonical(d);
            assert(v as int == -(dec_value(d) as int));
            assert(crate::digits::dec_digits_signed(v as int) =~= seq![45u8] + dec_digits(
                dec_value(d),
            ));
            assert(crate::digits::dec_digits_signed(v as int) =~= t);
        } else {
            lemma_dec_canonical(t);
            assert(v as int == dec_value(t));
            assert(crate::digits::dec_digits_signed(v as int) =~= t);
        }
        assert(s.subrange(i, p) =~= seq![58u8] + crate::digits::dec_digits_signed(v as int)
            + crlf());
    } else {
        assert(s[i] == 36);
        assert(s[j] == 13 && s[j + 1] == 10);
        if t == seq![45u8, 49u8] {
            assert(j == i + 3);
            assert(s[i + 1] == 45 && s[i + 2] == 49);
            assert(s.subrange(i, p) =~= seq![36u8, 45u8, 49u8, 13u8, 10u8]);
        } else {
            let n = dec_value(t);
            let b = l->Bulk_0;
            lemma_dec_canonical(t);
            assert(b == s.subrange(j + 2, j + 2 + n));
            assert(b.len() == n);
            assert(s[j + 2 + n] == 13 && s[j + 2 + n + 1] == 10);
            assert(s.subrange(i, p) =~= seq![36u8] + dec_digits(b.len()) + crlf() + b + crlf());
        }
    }
}

/// What the element parser accepts is the concatenation of its elements'
/// canonical encodings, and every element is well formed.
proof fn lemma_elems_done_canonical(s: Seq<u8>, i: int, k: nat)
    requires
        0 <= i <= s.len(),
        elems_at(s, i, k) is Done,
    ensures
        ({
            let ls = elems_at(s, i, k)->Done_0;
            let q = elems_at(s, i, k)->Done_1;
            &&& i <= q <= s.len()
            &&& s.subrange(i, q) == crate::frame::cat_leaf_encs(ls)
            &&& forall|x: int|
                0 <= x < ls.len() ==> leaf_wf(#[trigger] ls[x]) && leaf_size_ok(ls[x])
        }),
    decreases k,
{
    let ls = elems_at(s, i, k)->Done_0;
    let q = elems_at(s, i, k)->Done_1;
    if k == 0 {
        assert(ls =~= Seq::<LeafModel>::empty());
        assert(s.subrange(i, i) =~= Seq::<u8>::empty());
    } else {
        let l = leaf_at(s, i)->Done_0;
        let p = leaf_at(s, i)->Done_1;
        lemma_leaf_done_wf(s, i);
        lemma_leaf_done_canonical(s, i);
        lemma_elems_done_canonical(s, p, (k - 1) as nat);
        let rest = elems_at(s, p, (k - 1) as nat)->Done_0;
        assert(ls == seq![l] + rest);
        assert(ls[0] == l);
        assert(ls.skip(1) =~= rest);
        lemma_cat_first(ls);
        assert(s.subrange(i, q) =~= s.subrange(i, p) + s.subrange(p, q));
    }
}

/// The decoder is strict: whatever it accepts is well formed and the
/// consumed prefix is exactly the canonical encoding of the frame it
/// returns. Together with the round-trip laws this pins the codec in both
/// directions.
pub proof fn lemma_decode_is_canonical(s: Seq<u8>)
    requires
        spec_decode(s) is Complete,
    ensures
        ({
            let m = spec_decode(s)->Complete_0;
            let n = spec_decode(s)->Complete_1;
            &&& 0 < n <= s.len()
            &&& s.subrange(0, n) == crate::frame::model_enc(m)
            &&& crate::frame::model_wf(m)
            &&& crate::frame::model_size_ok(m)
        }),
{
    let m = spec_decode(s)->Complete_0;
    let n = spec_decode(s)->Complete_1;
    if s[0] == 42 {
        lemma_find_mark(s, 1);
        let j = find_mark(s, 1);
        let t = s.subrange(1, j);
        let cnt = dec_value(t);
        let p = j + 2;
        let ls = m->Array_0;
        lemma_elems_done_len(s, p, cnt);
        lemma_elems_done_canonical(s, p, cnt);
        lemma_dec_canonical(t);
        lemma_dec_value_bound(t);
        lemma_pow10_19();
        crate::digits::lemma_pow10_increases(t.len(), 19);
        assert(ls.len() == cnt);
        assert(s[j] == 13 && s[j + 1] == 10);
        assert(s.subrange(0, n) =~= seq![42u8] + dec_digits(ls.len()) + crlf()
            + crate::frame::cat_leaf_encs(ls));
    } else {
        lemma_leaf_done_wf(s, 0);
        lemma_leaf_done_canonical(s, 0);
    }
}

/// Round trip at the frame level: what the serializer writes for a
/// well-formed frame, the decoder reads back as exactly that frame's
/// model, consuming exactly those bytes.
pub proof fn lemma_frame_round_trip(f: WireFrame, extra: Seq<u8>)
    requires
        crate::frame::frame_wf(f),
        crate::frame::model_size_ok(f.model()),
    ensures
        spec_decode(crate::frame::model_enc(f.model()) + extra) == SpecDecode::Complete(
            f.model(),
            crate::frame::model_enc(f.model()).len() as int,
        ),
{
    crate::frame::lemma_wf_frame_wf_model(f);
    lemma_decode_inverts_encode(f.model(), extra);
}

/// Round trip: a well-formed frame's canonical encoding, possibly followed
/// by further buffered bytes, decodes to exactly that frame, consuming
/// exactly the encoding. Frames whose payload length or element count needs
/// more than 19 decimal digits are beyond any real buffer and are excluded.
pub proof fn lemma_decode_inverts_encode(m: FrameModel, extra: Seq<u8>)
    requires
        crate::frame::model_wf(m),
        crate::frame::model_size_ok(m),
    ensures
        spec_decode(crate::frame::model_enc(m) + extra) == SpecDecode::Complete(
            m,
            crate::frame::model_enc(m).len() as int,
        ),
{
    let enc = crate::frame::model_enc(m);
    let s = enc + extra;
    assert forall|k: int| 0 <= k < enc.len() implies s[k] == enc[k] by {}
    match m {
        FrameModel::Leaf(l) => {
            assert(s.subrange(0, crate::frame::leaf_enc(l).len() as int) =~= crate::frame::leaf_enc(
                l,
            ));
            lemma_leaf_at_full(s, 0, l);
            match l {
                LeafModel::Simple(_) => assert(s[0] == 43),
                LeafModel::Error(_) => assert(s[0] == 45),
                LeafModel::Integer(_) => assert(s[0] == 58),
                LeafModel::Null => assert(s[0] == 36),
                LeafModel::Bulk(_) => assert(s[0] == 36),
            }
        },
        FrameModel::Array(ls) => {
            let dd = crate::digits::dec_digits(ls.len());
            let cat = crate::frame::cat_leaf_encs(ls);
            assert(s[0] == 42);
            assert(s.subrange(1, dd.len() as int + 3) =~= dd + crlf());
            lemma_uline_at_full(s, 1, ls.len());
            let p = 3 + dd.len() as int;
            assert(s.subrange(p, p + cat.len()) =~= cat);
            lemma_elems_at_full(s, p, ls);
        },
    }
}

/// Incremental feed: every strict prefix of a well-formed frame's canonical
/// encoding leaves the decoder incomplete; nothing is consumed or misread
/// before the frame's final byte has arrived.
pub proof fn lemma_decode_needs_full_encoding(m: FrameModel, c: int)
    requires
        crate::frame::model_wf(m),
        crate::frame::model_size_ok(m),
        0 <= c < crate::frame::model_enc(m).len(),
    ensures
        spec_decode(crate::frame::model_enc(m).take(c)) is Incomplete,
{
    let enc = crate::frame::model_enc(m);
    let s = enc.take(c);
    if c == 0 {
        return ;
    }
    assert forall|k: int| 0 <= k < c implies s[k] == enc[k] by {}
    match m {
        FrameModel::Leaf(l) => {
            match l {
                LeafModel::Simple(_) => assert(s[0] == 43),
                LeafModel::Error(_) => assert(s[0] == 45),
                LeafModel::Integer(_) => assert(s[0] == 58),
                LeafModel::Null => assert(s[0] == 36),
                LeafModel::Bulk(_) => assert(s[0] == 36),
            }
            assert(s.subrange(0, c) =~= crate::frame::leaf_enc(l).take(c));
            lemma_leaf_at_prefix(s, 0, l);
        },
        FrameModel::Array(ls) => {
            let dd = crate::digits::dec_digits(ls.len());
            let cat = crate::frame::cat_leaf_encs(ls);
            assert(s[0] == 42);
            let hl = 3 + dd.len() as int;
            if c < hl {
                assert(s.subrange(1, c) =~= (dd + crlf()).take(c - 1));
                crate::digits::lemma_dec_digits_ok(ls.len());
                lemma_uline_at_prefix(s, 1, ls.len());
            } else {
                assert(s.subrange(1, dd.len() as int + 3) =~= dd + crlf());
                lemma_uline_at_full(s, 1, ls.len());
                assert(s.subrange(hl, c) =~= cat.take(c - hl));
                lemma_elems_at_prefix(s, hl, ls);
            }
        },
    }
}

} // verus!
