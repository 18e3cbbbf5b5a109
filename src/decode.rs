//! Reading frames back from bytes.
use vstd::prelude::*;
use vstd::slice::slice_subrange;

use crate::frame::{crlf, encode_all, encode_scalar, encode_value, is_line_text, Frame, Value};
use crate::number::{decimal, is_i64, lemma_decimal_facts, lemma_decimal_prefix, parse_decimal};

verus! {

/// Why a buffer holds no frame, whatever bytes might follow.
#[derive(Debug, Clone, Copy, PartialEq, Eq)]
pub enum FrameError {
    /// The first byte names no frame type.
    UnknownType(u8),
    /// A line holds a lone carriage return or line feed.
    BadLine,
    /// A number is not in canonical decimal form.
    BadNumber,
    /// A length or a count is negative.
    BadLength,
    /// A bulk string does not end with a line break.
    BadTerminator,
}

/// A byte that starts a frame: `+`, `-`, `:`, `$` or `*`.
pub open spec fn is_frame_tag(b: u8) -> bool {
    b == 43u8 || b == 45u8 || b == 58u8 || b == 36u8 || b == 42u8
}

/// `p` stands in `buf` from position `pos` on.
pub open spec fn starts_at(buf: Seq<u8>, pos: int, p: Seq<u8>) -> bool {
    0 <= pos && pos + p.len() <= buf.len() && buf.subrange(pos, pos + p.len()) == p
}

/// The bytes of `buf` from `pos` on start `p` and stop before its end: what
/// arrives of `p` when the rest has not come yet.
pub open spec fn cut_at(buf: Seq<u8>, pos: int, p: Seq<u8>) -> bool {
    0 <= pos <= buf.len() && buf.len() < pos + p.len() && buf.subrange(pos, buf.len() as int) == p.take(
        buf.len() - pos,
    )
}

/// A cut of `x + y` cuts `x`, or holds all of `x` and cuts `y`.
pub proof fn lemma_cut_split(buf: Seq<u8>, pos: int, x: Seq<u8>, y: Seq<u8>)
    requires
        cut_at(buf, pos, x + y),
    ensures
        cut_at(buf, pos, x) || (starts_at(buf, pos, x) && cut_at(buf, pos + x.len(), y)),
{
    let w = x + y;
    let n = buf.len() - pos;
    if buf.len() < pos + x.len() {
        assert(w.take(n) =~= x.take(n));
    } else {
        assert(buf.subrange(pos, pos + x.len()) =~= buf.subrange(pos, buf.len() as int).subrange(
            0,
            x.len() as int,
        ));
        assert(w.take(n).subrange(0, x.len() as int) =~= x);
        assert(buf.subrange(pos + x.len(), buf.len() as int) =~= buf.subrange(pos, buf.len() as int).subrange(
            x.len() as int,
            n,
        ));
        assert(w.take(n).subrange(x.len() as int, n) =~= y.take(n - x.len()));
    }
}

/// The bytes from `from` on are a line that has not ended: text, maybe
/// followed by the carriage return of its break.
pub open spec fn partial_line(buf: Seq<u8>, from: int) -> bool {
    is_line_text(buf.subrange(from, buf.len() as int)) || (from < buf.len() && is_line_text(
        buf.subrange(from, buf.len() - 1),
    ) && buf[buf.len() - 1] == 13u8)
}

/// Finds the line break that ends the line starting at `from`.
fn scan_line(buf: &[u8], from: usize) -> (r: Result<Option<usize>, FrameError>)
    requires
        from <= buf@.len(),
    ensures
        r matches Ok(Some(e)) ==> from <= e && e + 2 <= buf@.len() && is_line_text(
            buf@.subrange(from as int, e as int),
        ) && buf@[e as int] == 13u8 && buf@[e + 1] == 10u8,
        forall|t: Seq<u8>|
            is_line_text(t) && #[trigger] starts_at(buf@, from as int, t + crlf()) ==> r == Ok::<
                Option<usize>,
                FrameError,
            >(Some((from + t.len()) as usize)),
        forall|t: Seq<u8>|
            is_line_text(t) && #[trigger] cut_at(buf@, from as int, t + crlf()) ==> r == Ok::<
                Option<usize>,
                FrameError,
            >(None),
        r == Ok::<Option<usize>, FrameError>(None) ==> partial_line(buf@, from as int),
{
    let len = buf.len();
    let mut i: usize = from;
    while i < len && buf[i] != 13u8 && buf[i] != 10u8
        invariant
            from <= i <= len,
            len == buf@.len(),
            forall|j: int| from <= j < i ==> #[trigger] buf@[j] != 13u8 && buf@[j] != 10u8,
        decreases len - i,
    {
        i = i + 1;
    }
    proof {
        assert forall|t: Seq<u8>|
            is_line_text(t) && #[trigger] starts_at(buf@, from as int, t + crlf()) implies i == from
                + t.len() by {
            let w = t + crlf();
            assert(buf@.subrange(from as int, from + w.len())[t.len() as int] == 13u8);
            if i < from + t.len() {
                assert(buf@.subrange(from as int, from + w.len())[i - from] == t[i - from]);
            }
        }
        assert forall|t: Seq<u8>|
            is_line_text(t) && #[trigger] cut_at(buf@, from as int, t + crlf()) implies i == len || (i
                == from + t.len() && i + 1 == len && buf@[i as int] == 13u8) by {
            let w = t + crlf();
            if i < len {
                assert(buf@.subrange(from as int, len as int)[i - from] == w.take(len - from)[i - from]);
                if i < from + t.len() {
                    assert(w[i - from] == t[i - from]);
                }
            }
        }
    }
    if i == len {
        proof {
            assert forall|k: int| 0 <= k < len - from implies #[trigger] buf@.subrange(from as int, len as int)[k]
                != 13u8 && buf@.subrange(from as int, len as int)[k] != 10u8 by {
                assert(buf@.subrange(from as int, len as int)[k] == buf@[from + k]);
            }
        }
        return Ok(None);
    }
    if buf[i] == 10u8 || i + 1 < len && buf[i + 1] != 10u8 {
        proof {
            assert forall|t: Seq<u8>|
                is_line_text(t) && #[trigger] starts_at(buf@, from as int, t + crlf()) implies false by {
                let w = t + crlf();
                assert(buf@.subrange(from as int, from + w.len())[t.len() as int] == 13u8);
                assert(buf@.subrange(from as int, from + w.len())[t.len() + 1int] == 10u8);
            }
        }
        return Err(FrameError::BadLine);
    }
    if i + 1 == len {
        proof {
            assert forall|k: int| 0 <= k < i - from implies #[trigger] buf@.subrange(from as int, i as int)[k]
                != 13u8 && buf@.subrange(from as int, i as int)[k] != 10u8 by {
                assert(buf@.subrange(from as int, i as int)[k] == buf@[from + k]);
            }
        }
        return Ok(None);
    }
    proof {
        assert forall|k: int| 0 <= k < i - from implies #[trigger] buf@.subrange(from as int, i as int)[k]
            != 13u8 && buf@.subrange(from as int, i as int)[k] != 10u8 by {
            assert(buf@.subrange(from as int, i as int)[k] == buf@[from + k]);
        }
    }
    Ok(Some(i))
}

/// A copy of `buf[from..to]`.
fn copy_range(buf: &[u8], from: usize, to: usize) -> (r: Vec<u8>)
    requires
        from <= to <= buf@.len(),
    ensures
        r@ == buf@.subrange(from as int, to as int),
{
    let mut out: Vec<u8> = Vec::new();
    let mut i: usize = from;
    while i < to
        invariant
            from <= i <= to <= buf@.len(),
            out@ == buf@.subrange(from as int, i as int),
        decreases to - i,
    {
        out.push(buf[i]);
        i = i + 1;
        assert(out@ =~= buf@.subrange(from as int, i as int));
    }
    out
}

/// A scalar that can be encoded and read back: a bulk string's length must
/// be an `i64`, as the length line is read as one.
pub open spec fn is_scalar_value(v: Value) -> bool {
    v.is_scalar_wf() && (v is Bulk ==> is_i64(v->Bulk_0.len() as int))
}

proof fn lemma_line_frame(buf: Seq<u8>, pos: int, tag: u8, t: Seq<u8>)
    requires
        starts_at(buf, pos, seq![tag] + t + crlf()),
    ensures
        buf[pos] == tag,
        starts_at(buf, pos + 1, t + crlf()),
{
    let w = seq![tag] + t + crlf();
    assert(buf.subrange(pos, pos + w.len())[0] == tag);
    assert(buf.subrange(pos + 1, pos + 1 + t.len() + 2) =~= buf.subrange(pos, pos + w.len()).subrange(
        1,
        w.len() as int,
    ));
    assert(w.subrange(1, w.len() as int) =~= t + crlf());
}

proof fn lemma_cut_tag(buf: Seq<u8>, pos: int, tag: u8, rest: Seq<u8>)
    requires
        cut_at(buf, pos, seq![tag] + rest),
        pos < buf.len(),
    ensures
        buf[pos] == tag,
        cut_at(buf, pos + 1, rest),
{
    lemma_cut_split(buf, pos, seq![tag], rest);
    assert(buf.subrange(pos, pos + 1)[0] == buf[pos]);
}

/// A cut of a scalar's encoding starts with the scalar's tag.
proof fn lemma_cut_first(buf: Seq<u8>, pos: int, v: Value)
    requires
        cut_at(buf, pos, encode_scalar(v)),
        pos < buf.len(),
    ensures
        buf[pos] == encode_scalar(v)[0],
{
    assert(buf.subrange(pos, buf.len() as int)[0] == encode_scalar(v).take(buf.len() - pos)[0]);
}

proof fn lemma_cut_prepend(buf: Seq<u8>, pos: int, tag: u8, x: Seq<u8>)
    requires
        0 <= pos < buf.len(),
        buf[pos] == tag,
        cut_at(buf, pos + 1, x),
    ensures
        cut_at(buf, pos, seq![tag] + x),
{
    let n = buf.len() - pos;
    assert(buf.subrange(pos, buf.len() as int) =~= seq![tag] + buf.subrange(pos + 1, buf.len() as int));
    assert((seq![tag] + x).take(n) =~= seq![tag] + x.take(n - 1));
}

proof fn lemma_cut_extend(buf: Seq<u8>, pos: int, x: Seq<u8>, y: Seq<u8>)
    requires
        cut_at(buf, pos, x),
    ensures
        cut_at(buf, pos, x + y),
{
    assert((x + y).take(buf.len() - pos) =~= x.take(buf.len() - pos));
}

proof fn lemma_cut_join(buf: Seq<u8>, pos: int, x: Seq<u8>, y: Seq<u8>)
    requires
        starts_at(buf, pos, x),
        cut_at(buf, pos + x.len(), y),
    ensures
        cut_at(buf, pos, x + y),
{
    let n = buf.len() - pos;
    assert(buf.subrange(pos, buf.len() as int) =~= buf.subrange(pos, pos + x.len()) + buf.subrange(
        pos + x.len(),
        buf.len() as int,
    ));
    assert((x + y).take(n) =~= x + y.take(n - x.len()));
}

/// An unended line is a cut of some line.
proof fn lemma_partial_line_cut(buf: Seq<u8>, from: int)
    requires
        0 <= from <= buf.len(),
        partial_line(buf, from),
    ensures
        exists|t: Seq<u8>| is_line_text(t) && #[trigger] cut_at(buf, from, t + crlf()),
{
    let len = buf.len() as int;
    if is_line_text(buf.subrange(from, len)) {
        let t = buf.subrange(from, len);
        assert((t + crlf()).take(len - from) =~= t);
        assert(cut_at(buf, from, t + crlf()));
    } else {
        let t = buf.subrange(from, len - 1);
        assert(buf.subrange(from, len) =~= (t + crlf()).take(len - from));
        assert(cut_at(buf, from, t + crlf()));
    }
}

/// Reads a simple string or an error from `buf[pos..]`.
#[verifier::rlimit(50)]
fn decode_text(buf: &[u8], pos: usize) -> (r: Result<Option<(Frame, usize)>, FrameError>)
    requires
        pos < buf@.len(),
        buf@[pos as int] == 43u8 || buf@[pos as int] == 45u8,
    ensures
        r matches Ok(Some((f, e))) ==> f.is_scalar() && is_scalar_value(f@) && pos < e <= buf@.len()
            && buf@.subrange(pos as int, e as int) == encode_scalar(f@),
        forall|v: Value|
            is_scalar_value(v) && #[trigger] starts_at(buf@, pos as int, encode_scalar(v)) ==> (
            r matches Ok(Some((f, e))) && f@ == v && e == pos + encode_scalar(v).len()),
        forall|v: Value|
            is_scalar_value(v) && #[trigger] cut_at(buf@, pos as int, encode_scalar(v)) ==> r == Ok::<
                Option<(Frame, usize)>,
                FrameError,
            >(None),
        r == Ok::<Option<(Frame, usize)>, FrameError>(None) ==> exists|v: Value|
            is_scalar_value(v) && #[trigger] cut_at(buf@, pos as int, encode_scalar(v)),
{
    let len = buf.len();
    let tag = buf[pos];
    proof {
        assert forall|v: Value| is_scalar_value(v) && #[trigger] cut_at(buf@, pos as int, encode_scalar(v)) implies (
            v is Simple || v is Error) && cut_at(buf@, pos + 1, (if v is Simple {
            v->Simple_0
        } else {
            v->Error_0
        }) + crlf()) by {
            lemma_cut_first(buf@, pos as int, v);
            lemma_decimal_facts(0, 0);
            if v is Simple || v is Error {
                let t = if v is Simple {
                    v->Simple_0
                } else {
                    v->Error_0
                };
                assert(encode_scalar(v) =~= seq![tag] + (t + crlf()));
                lemma_cut_tag(buf@, pos as int, tag, t + crlf());
            }
        }
    }
    let line = scan_line(buf, pos + 1);
    proof {
        assert forall|v: Value|
            is_scalar_value(v) && #[trigger] starts_at(buf@, pos as int, encode_scalar(v)) implies (
            v is Simple && tag == 43u8 || v is Error && tag == 45u8) && ({
            let t = if v is Simple {
                v->Simple_0
            } else {
                v->Error_0
            };
            line == Ok::<Option<usize>, FrameError>(Some((pos + 1 + t.len()) as usize))
                && buf@.subrange(pos + 1, pos + 1 + t.len()) == t
        }) by {
            let w = encode_scalar(v);
            assert(buf@.subrange(pos as int, pos + w.len())[0] == w[0]);
            lemma_decimal_facts(0, 0);
            if v is Simple || v is Error {
                let t = if v is Simple {
                    v->Simple_0
                } else {
                    v->Error_0
                };
                lemma_line_frame(buf@, pos as int, tag, t);
                assert(starts_at(buf@, pos + 1, t + crlf()));
                assert(buf@.subrange(pos + 1, pos + 1 + t.len()) =~= (t + crlf()).subrange(
                    0,
                    t.len() as int,
                ));
            } else if v is Integer {
                assert(w[0] == 58u8);
            } else if v is Bulk {
                assert(w[0] == 36u8);
            } else {
                assert(w[0] == 36u8);
            }
        }
    }
    match line {
        Err(e) => Err(e),
        Ok(None) => {
            proof {
                lemma_partial_line_cut(buf@, pos + 1);
                let t = choose|t: Seq<u8>| is_line_text(t) && #[trigger] cut_at(buf@, pos + 1, t + crlf());
                let v = if tag == 43u8 {
                    Value::Simple(t)
                } else {
                    Value::Error(t)
                };
                assert(encode_scalar(v) =~= seq![tag] + (t + crlf()));
                lemma_cut_prepend(buf@, pos as int, tag, t + crlf());
                assert(is_scalar_value(v) && cut_at(buf@, pos as int, encode_scalar(v)));
            }
            Ok(None)
        },
        Ok(Some(e)) => {
            let text = copy_range(buf, pos + 1, e);
            let f = if tag == 43u8 {
                Frame::SimpleString(text)
            } else {
                Frame::Error(text)
            };
            assert(buf@.subrange(pos as int, e + 2) =~= encode_scalar(f@));
            Ok(Some((f, e + 2)))
        },
    }
}

/// Whether the unended line at `from` can still become the number line of
/// a number no less than `min`.
fn check_partial_number(buf: &[u8], from: usize, min: i64) -> (ok: bool)
    requires
        from <= buf@.len(),
        min <= 0,
        partial_line(buf@, from as int),
    ensures
        ok == exists|m: int| is_i64(m) && min <= m && #[trigger] cut_at(buf@, from as int, decimal(m) + crlf()),
{
    let len = buf.len();
    if len > from && buf[len - 1] == 13u8 {
        let digits = slice_subrange(buf, from, len - 1);
        let p = parse_decimal(digits);
        proof {
            assert(!is_line_text(buf@.subrange(from as int, len as int))) by {
                assert(buf@.subrange(from as int, len as int)[len - 1 - from] == 13u8);
            }
            assert forall|m: int| is_i64(m) && min <= m && #[trigger] cut_at(buf@, from as int, decimal(m) + crlf())
                implies p == Some(m as i64) by {
                let d = decimal(m);
                lemma_decimal_facts(m, m);
                let k = len - from;
                assert(buf@.subrange(from as int, len as int)[k - 1] == (d + crlf()).take(k)[k - 1]);
                if k - 1 < d.len() {
                    assert((d + crlf())[k - 1] == d[k - 1]);
                }
                assert(k - 1 == d.len());
                assert(digits@ =~= d);
                lemma_decimal_facts(p->Some_0 as int, m);
            }
        }
        match p {
            Some(m) => {
                proof {
                    let d = decimal(m as int);
                    assert(buf@.subrange(from as int, len as int) =~= (d + crlf()).take(len - from));
                    assert(cut_at(buf@, from as int, decimal(m as int) + crlf()));
                }
                m >= min
            },
            None => false,
        }
    } else if len == from {
        proof {
            lemma_decimal_facts(0, 0);
            assert(buf@.subrange(from as int, len as int) =~= (decimal(0) + crlf()).take(0));
            assert(cut_at(buf@, from as int, decimal(0) + crlf()));
        }
        true
    } else if len == from + 1 && buf[from] == 45u8 {
        proof {
            assert(decimal(-1) =~= seq![45u8, 49u8]) by {
                lemma_decimal_facts(-1, 0);
            }
            assert(buf@.subrange(from as int, len as int) =~= (decimal(-1) + crlf()).take(1));
            if min < 0 {
                assert(cut_at(buf@, from as int, decimal(-1) + crlf()));
            }
            assert forall|m: int| is_i64(m) && min <= m && #[trigger] cut_at(buf@, from as int, decimal(m) + crlf())
                implies m < 0 by {
                lemma_decimal_facts(m, m);
                assert(buf@.subrange(from as int, len as int)[0] == (decimal(m) + crlf()).take(1)[0]);
            }
        }
        min < 0
    } else {
        let digits = slice_subrange(buf, from, len);
        let p = parse_decimal(digits);
        proof {
            assert forall|m: int| is_i64(m) && min <= m && #[trigger] cut_at(buf@, from as int, decimal(m) + crlf())
                implies p matches Some(q) && min <= q by {
                let d = decimal(m);
                lemma_decimal_facts(m, m);
                let k = len - from;
                if k == d.len() + 1 {
                    assert(buf@.subrange(from as int, len as int)[k - 1] == (d + crlf()).take(k)[k - 1]);
                }
                assert(k <= d.len());
                assert(digits@ =~= d.take(k));
                if m < 0 && k == 1 {
                    assert(digits@[0] == d[0]);
                }
                lemma_decimal_prefix(m, k);
                let m2 = choose|m2: int|
                    is_i64(m2) && (m >= 0 ==> 0 <= m2 <= m) && (m < 0 ==> m <= m2 <= -1) && #[trigger] decimal(m2)
                        == decimal(m).take(k);
                lemma_decimal_facts(p->Some_0 as int, m2);
            }
        }
        match p {
            Some(m) => {
                proof {
                    let d = decimal(m as int);
                    assert(buf@.subrange(from as int, len as int) =~= (d + crlf()).take(len - from));
                    assert(cut_at(buf@, from as int, decimal(m as int) + crlf()));
                }
                m >= min
            },
            None => false,
        }
    }
}

/// Reads a line that holds a number in canonical decimal form.
fn read_number(buf: &[u8], from: usize, min: i64) -> (r: Result<Option<(i64, usize)>, FrameError>)
    requires
        from <= buf@.len(),
        min <= 0,
    ensures
        r matches Ok(Some((n, e))) ==> from <= e && e + 2 <= buf@.len() && buf@.subrange(
            from as int,
            e as int,
        ) == decimal(n as int) && buf@[e as int] == 13u8 && buf@[e + 1] == 10u8,
        forall|m: int|
            is_i64(m) && #[trigger] starts_at(buf@, from as int, decimal(m) + crlf()) ==> r == Ok::<
                Option<(i64, usize)>,
                FrameError,
            >(Some((m as i64, (from + decimal(m).len()) as usize))),
        forall|m: int|
            is_i64(m) && min <= m && #[trigger] cut_at(buf@, from as int, decimal(m) + crlf()) ==> r
                == Ok::<Option<(i64, usize)>, FrameError>(None),
        r == Ok::<Option<(i64, usize)>, FrameError>(None) ==> exists|m: int|
            is_i64(m) && min <= m && #[trigger] cut_at(buf@, from as int, decimal(m) + crlf()),
{
    let len = buf.len();
    let line = scan_line(buf, from);
    proof {
        assert forall|m: int| is_i64(m) && min <= m && #[trigger] cut_at(buf@, from as int, decimal(m) + crlf()) implies line
            == Ok::<Option<usize>, FrameError>(None) by {
            lemma_decimal_facts(m, m);
            assert(is_line_text(decimal(m)));
        }
    }
    proof {
        assert forall|m: int|
            is_i64(m) && #[trigger] starts_at(buf@, from as int, decimal(m) + crlf()) implies line
            == Ok::<Option<usize>, FrameError>(Some((from + decimal(m).len()) as usize))
            && buf@.subrange(from as int, from + decimal(m).len()) == decimal(m) by {
            lemma_decimal_facts(m, m);
            assert(is_line_text(decimal(m)));
            assert(buf@.subrange(from as int, from + decimal(m).len()) =~= (decimal(m)
                + crlf()).subrange(0, decimal(m).len() as int));
        }
    }
    let e = match line {
        Err(e) => {
            return Err(e);
        },
        Ok(None) => {
            if check_partial_number(buf, from, min) {
                return Ok(None);
            } else {
                return Err(FrameError::BadNumber);
            }
        },
        Ok(Some(e)) => e,
    };
    let digits = slice_subrange(buf, from, e);
    match parse_decimal(digits) {
        None => Err(FrameError::BadNumber),
        Some(n) => {
            proof {
                assert forall|m: int|
                    is_i64(m) && #[trigger] starts_at(buf@, from as int, decimal(m) + crlf()) implies n
                    == m by {
                    lemma_decimal_facts(n as int, m);
                    assert(from + decimal(m).len() <= len);
                    assert(e == from + decimal(m).len());
                    assert(digits@ == decimal(m));
                }
            }
            Ok(Some((n, e)))
        },
    }
}

/// The number on the first line of a frame that carries one.
pub open spec fn head_number(v: Value) -> int {
    match v {
        Value::Integer(n) => n,
        Value::Bulk(b) => b.len() as int,
        _ => -1,
    }
}

proof fn lemma_counted_head(buf: Seq<u8>, pos: int, v: Value)
    requires
        v is Integer || v is Bulk || v is Null,
        is_scalar_value(v),
        starts_at(buf, pos, encode_scalar(v)),
    ensures
        buf[pos] == (if v is Integer {
            58u8
        } else {
            36u8
        }),
        starts_at(buf, pos + 1, decimal(head_number(v)) + crlf()),
        is_i64(head_number(v)),
{
    let d = decimal(head_number(v));
    let w = encode_scalar(v);
    let tag: u8 = if v is Integer {
        58u8
    } else {
        36u8
    };
    let hw = seq![tag] + d + crlf();
    if v is Null {
        assert(decimal(-1) =~= seq![45u8, 49u8]) by {
            lemma_decimal_facts(-1, 0);
        }
        assert(w =~= hw);
    } else if v is Bulk {
        assert(w.subrange(0, hw.len() as int) =~= hw);
        assert(buf.subrange(pos, pos + hw.len()) =~= buf.subrange(pos, pos + w.len()).subrange(
            0,
            hw.len() as int,
        ));
    }
    assert(starts_at(buf, pos, hw));
    lemma_line_frame(buf, pos, tag, d);
}

/// A cut of an integer, a null or a bulk string falls in its number line,
/// or, for a bulk string, after it.
proof fn lemma_counted_cut(buf: Seq<u8>, pos: int, v: Value)
    requires
        v is Integer || v is Bulk || v is Null,
        is_scalar_value(v),
        cut_at(buf, pos, encode_scalar(v)),
        pos < buf.len(),
    ensures
        buf[pos] == (if v is Integer {
            58u8
        } else {
            36u8
        }),
        is_i64(head_number(v)),
        cut_at(buf, pos + 1, decimal(head_number(v)) + crlf()) || (v is Bulk && starts_at(
            buf,
            pos + 1,
            decimal(head_number(v)) + crlf(),
        ) && buf.len() < pos + 1 + decimal(head_number(v)).len() + 2 + v->Bulk_0.len() + 2),
{
    let d = decimal(head_number(v));
    let w = encode_scalar(v);
    let tag: u8 = if v is Integer {
        58u8
    } else {
        36u8
    };
    if v is Null {
        assert(decimal(-1) =~= seq![45u8, 49u8]) by {
            lemma_decimal_facts(-1, 0);
        }
        assert(w =~= seq![tag] + (d + crlf()));
        lemma_cut_tag(buf, pos, tag, d + crlf());
    } else if v is Integer {
        assert(w =~= seq![tag] + (d + crlf()));
        lemma_cut_tag(buf, pos, tag, d + crlf());
    } else {
        let b = v->Bulk_0;
        assert(w =~= seq![tag] + ((d + crlf()) + (b + crlf())));
        lemma_cut_tag(buf, pos, tag, (d + crlf()) + (b + crlf()));
        lemma_cut_split(buf, pos + 1, d + crlf(), b + crlf());
    }
}

/// A cut of a number line after the tag of an integer, a bulk string or a
/// null is a cut of such a frame.
proof fn lemma_counted_number_witness(buf: Seq<u8>, pos: int, tag: u8, min: int, m: int)
    requires
        0 <= pos < buf.len(),
        buf[pos] == tag,
        tag == 58u8 || tag == 36u8,
        min == (if tag == 58u8 {
            i64::MIN as int
        } else {
            -1
        }),
        is_i64(m),
        min <= m,
        cut_at(buf, pos + 1, decimal(m) + crlf()),
    ensures
        exists|v: Value| is_scalar_value(v) && #[trigger] cut_at(buf, pos, encode_scalar(v)),
{
    let d = decimal(m);
    let w: Value = if tag == 58u8 {
        Value::Integer(m)
    } else if m == -1 {
        Value::Null
    } else {
        Value::Bulk(Seq::new(m as nat, |i: int| 0u8))
    };
    if tag == 58u8 {
        assert(encode_scalar(w) =~= seq![tag] + (d + crlf()));
        lemma_cut_prepend(buf, pos, tag, d + crlf());
    } else if m == -1 {
        assert(decimal(-1) =~= seq![45u8, 49u8]) by {
            lemma_decimal_facts(-1, 0);
        }
        assert(encode_scalar(w) =~= seq![tag] + (d + crlf()));
        lemma_cut_prepend(buf, pos, tag, d + crlf());
    } else {
        let b = w->Bulk_0;
        assert(encode_scalar(w) =~= seq![tag] + ((d + crlf()) + (b + crlf())));
        lemma_cut_extend(buf, pos + 1, d + crlf(), b + crlf());
        lemma_cut_prepend(buf, pos, tag, (d + crlf()) + (b + crlf()));
    }
    assert(is_scalar_value(w) && cut_at(buf, pos, encode_scalar(w)));
}

/// A bulk string whose last byte received should be its carriage return,
/// and is not, is no cut of any scalar.
proof fn lemma_bulk_cut_terminator(buf: Seq<u8>, pos: int, n: int)
    requires
        0 <= pos < buf.len(),
        buf[pos] == 36u8,
        buf.len() >= 1,
        buf[buf.len() - 1] != 13u8,
        forall|v: Value|
            is_scalar_value(v) && #[trigger] cut_at(buf, pos, encode_scalar(v)) ==> v is Bulk && n == v->Bulk_0.len()
                && buf.len() == pos + 1 + decimal(n).len() + 2 + n + 1,
    ensures
        forall|v: Value| is_scalar_value(v) && #[trigger] cut_at(buf, pos, encode_scalar(v)) ==> false,
{
    assert forall|v: Value| is_scalar_value(v) && #[trigger] cut_at(buf, pos, encode_scalar(v)) implies false by {
        let len = buf.len();
        let w = encode_scalar(v);
        let b = v->Bulk_0;
        let d = decimal(b.len() as int);
        assert(w == seq![36u8] + d + crlf() + b + crlf());
        assert(buf.subrange(pos, len as int)[len - 1 - pos] == w.take(len - pos)[len - 1 - pos]);
    }
}

/// A bulk string cut in its data or its final line break is a cut of a
/// bulk string of that length.
proof fn lemma_bulk_body_witness(buf: Seq<u8>, pos: int, e: int, n: int)
    requires
        0 <= pos < buf.len(),
        buf[pos] == 36u8,
        pos + 1 <= e,
        e + 2 <= buf.len(),
        buf.subrange(pos + 1, e) == decimal(n),
        buf[e] == 13u8,
        buf[e + 1] == 10u8,
        0 <= n <= i64::MAX,
        buf.len() < e + 2 + n + 2,
        buf.len() == e + 2 + n + 1 ==> buf[buf.len() - 1] == 13u8,
    ensures
        exists|v: Value| is_scalar_value(v) && #[trigger] cut_at(buf, pos, encode_scalar(v)),
{
    let len = buf.len() as int;
    let start = e + 2;
    let avail = len - start;
    let d = decimal(n);
    let have: int = if avail < n {
        avail
    } else {
        n
    };
    let b = buf.subrange(start, start + have) + Seq::new((n - have) as nat, |i: int| 0u8);
    let w = Value::Bulk(b);
    assert(buf.subrange(pos + 1, pos + 1 + (d + crlf()).len()) =~= d + crlf());
    assert(starts_at(buf, pos + 1, d + crlf()));
    assert(buf.subrange(start, len) =~= (b + crlf()).take(len - start));
    assert(cut_at(buf, start, b + crlf()));
    lemma_cut_join(buf, pos + 1, d + crlf(), b + crlf());
    assert(encode_scalar(w) =~= seq![36u8] + ((d + crlf()) + (b + crlf())));
    lemma_cut_prepend(buf, pos, 36u8, (d + crlf()) + (b + crlf()));
    assert(is_scalar_value(w) && cut_at(buf, pos, encode_scalar(w)));
}

/// Reads an integer, a bulk string or a null from `buf[pos..]`.
#[verifier::rlimit(100)]
fn decode_counted(buf: &[u8], pos: usize) -> (r: Result<Option<(Frame, usize)>, FrameError>)
    requires
        pos < buf@.len(),
        buf@[pos as int] == 58u8 || buf@[pos as int] == 36u8,
    ensures
        r matches Ok(Some((f, e))) ==> f.is_scalar() && is_scalar_value(f@) && pos < e <= buf@.len()
            && buf@.subrange(pos as int, e as int) == encode_scalar(f@),
        forall|v: Value|
            is_scalar_value(v) && #[trigger] starts_at(buf@, pos as int, encode_scalar(v)) ==> (
            r matches Ok(Some((f, e))) && f@ == v && e == pos + encode_scalar(v).len()),
        forall|v: Value|
            is_scalar_value(v) && #[trigger] cut_at(buf@, pos as int, encode_scalar(v)) ==> r == Ok::<
                Option<(Frame, usize)>,
                FrameError,
            >(None),
        r == Ok::<Option<(Frame, usize)>, FrameError>(None) ==> exists|v: Value|
            is_scalar_value(v) && #[trigger] cut_at(buf@, pos as int, encode_scalar(v)),
{
    let len = buf.len();
    let tag = buf[pos];
    proof {
        assert forall|v: Value|
            is_scalar_value(v) && #[trigger] starts_at(buf@, pos as int, encode_scalar(v)) implies (v is Integer
            <==> tag == 58u8) && !(v is Simple) && !(v is Error) by {
            let w = encode_scalar(v);
            assert(buf@.subrange(pos as int, pos + w.len())[0] == w[0]);
            if v is Integer || v is Bulk || v is Null {
                lemma_counted_head(buf@, pos as int, v);
            }
        }
        assert forall|v: Value|
            is_scalar_value(v) && #[trigger] cut_at(buf@, pos as int, encode_scalar(v)) implies (v is Integer
            <==> tag == 58u8) && (v is Integer || v is Bulk || v is Null) by {
            lemma_cut_first(buf@, pos as int, v);
            if v is Integer || v is Bulk || v is Null {
                lemma_counted_cut(buf@, pos as int, v);
            }
        }
    }
    let min: i64 = if tag == 58u8 {
        i64::MIN
    } else {
        -1
    };
    let (n, e) = match read_number(buf, pos + 1, min) {
        Err(e) => {
            proof {
                assert forall|v: Value|
                    is_scalar_value(v) && #[trigger] starts_at(buf@, pos as int, encode_scalar(v)) implies false by {
                    lemma_counted_head(buf@, pos as int, v);
                }
                assert forall|v: Value|
                    is_scalar_value(v) && #[trigger] cut_at(buf@, pos as int, encode_scalar(v)) implies false by {
                    lemma_counted_cut(buf@, pos as int, v);
                }
            }
            return Err(e);
        },
        Ok(None) => {
            proof {
                assert forall|v: Value|
                    is_scalar_value(v) && #[trigger] starts_at(buf@, pos as int, encode_scalar(v)) implies false by {
                    lemma_counted_head(buf@, pos as int, v);
                }
                let m = choose|m: int| is_i64(m) && min <= m && #[trigger] cut_at(buf@, pos + 1, decimal(m) + crlf());
                lemma_counted_number_witness(buf@, pos as int, tag, min as int, m);
            }
            return Ok(None);
        },
        Ok(Some(p)) => p,
    };
    proof {
        assert forall|v: Value|
            is_scalar_value(v) && #[trigger] starts_at(buf@, pos as int, encode_scalar(v)) implies n
            == head_number(v) && e == pos + 1 + decimal(head_number(v)).len() by {
            lemma_counted_head(buf@, pos as int, v);
        }
        assert forall|v: Value|
            is_scalar_value(v) && #[trigger] cut_at(buf@, pos as int, encode_scalar(v)) implies v is Bulk && n
            == v->Bulk_0.len() && len < e + 2 + n + 2 by {
            lemma_counted_cut(buf@, pos as int, v);
        }
    }
    if tag == 58u8 {
        let f = Frame::Integer(n);
        assert(buf@.subrange(pos as int, e + 2) =~= encode_scalar(f@));
        return Ok(Some((f, e + 2)));
    }
    if n == -1 {
        assert(decimal(-1) =~= seq![45u8, 49u8]) by {
            lemma_decimal_facts(-1, 0);
        }
        let f = Frame::Null;
        assert(buf@.subrange(pos as int, e + 2) =~= encode_scalar(f@));
        return Ok(Some((f, e + 2)));
    }
    if n < 0 {
        return Err(FrameError::BadLength);
    }
    let start = e + 2;
    let avail = len - start;
    if n as u64 > avail as u64 || avail - (n as usize) < 2 {
        if n as u64 + 1 == avail as u64 && buf[len - 1] != 13u8 {
            proof {
                lemma_bulk_cut_terminator(buf@, pos as int, n as int);
            }
            return Err(FrameError::BadTerminator);
        }
        proof {
            lemma_bulk_body_witness(buf@, pos as int, e as int, n as int);
        }
        return Ok(None);
    }
    let end = start + n as usize;
    if buf[end] != 13u8 || buf[end + 1] != 10u8 {
        proof {
            assert forall|v: Value|
                is_scalar_value(v) && #[trigger] starts_at(buf@, pos as int, encode_scalar(v)) implies false by {
                let w = encode_scalar(v);
                assert(buf@.subrange(pos as int, pos + w.len())[end - pos] == w[end - pos]);
                assert(buf@.subrange(pos as int, pos + w.len())[end + 1 - pos] == w[end + 1 - pos]);
            }
        }
        return Err(FrameError::BadTerminator);
    }
    let data = copy_range(buf, start, end);
    let f = Frame::BulkString(data);
    assert(buf@.subrange(pos as int, end + 2) =~= encode_scalar(f@));
    proof {
        assert forall|v: Value|
            is_scalar_value(v) && #[trigger] starts_at(buf@, pos as int, encode_scalar(v)) implies f@
            == v by {
            let w = encode_scalar(v);
            assert(v is Bulk);
            let b = v->Bulk_0;
            let d = decimal(b.len() as int);
            assert(n == b.len());
            assert(start - pos == 1 + d.len() + 2);
            assert(w == seq![36u8] + d + crlf() + b + crlf());
            assert(w.subrange(start - pos, end - pos) =~= b);
            assert(b =~= buf@.subrange(pos as int, pos + w.len()).subrange(start - pos, end - pos));
            assert(data@ =~= b);
        }
    }
    Ok(Some((f, end + 2)))
}

/// Reads one frame that is not an array from `buf[pos..]`, and the position
/// just after it.
fn decode_scalar(buf: &[u8], pos: usize) -> (r: Result<Option<(Frame, usize)>, FrameError>)
    requires
        pos <= buf@.len(),
    ensures
        r matches Ok(Some((f, e))) ==> f.is_scalar() && is_scalar_value(f@) && pos < e <= buf@.len()
            && buf@.subrange(pos as int, e as int) == encode_scalar(f@),
        forall|v: Value|
            is_scalar_value(v) && #[trigger] starts_at(buf@, pos as int, encode_scalar(v)) ==> (
            r matches Ok(Some((f, e))) && f@ == v && e == pos + encode_scalar(v).len()),
        forall|v: Value|
            is_scalar_value(v) && #[trigger] cut_at(buf@, pos as int, encode_scalar(v)) ==> r == Ok::<
                Option<(Frame, usize)>,
                FrameError,
            >(None),
        r == Ok::<Option<(Frame, usize)>, FrameError>(None) ==> exists|v: Value|
            is_scalar_value(v) && #[trigger] cut_at(buf@, pos as int, encode_scalar(v)),
        pos < buf@.len() && !is_frame_tag(buf@[pos as int]) ==> r == Err::<Option<(Frame, usize)>, FrameError>(
            FrameError::UnknownType(buf@[pos as int]),
        ),
{
    let len = buf.len();
    if pos == len {
        proof {
            let w = Value::Null;
            assert(buf@.subrange(pos as int, len as int) =~= encode_scalar(w).take(0));
            assert(is_scalar_value(w) && cut_at(buf@, pos as int, encode_scalar(w)));
        }
        return Ok(None);
    }
    let tag = buf[pos];
    if tag == 43u8 || tag == 45u8 {
        decode_text(buf, pos)
    } else if tag == 58u8 || tag == 36u8 {
        decode_counted(buf, pos)
    } else {
        proof {
            assert forall|v: Value|
                is_scalar_value(v) && #[trigger] starts_at(buf@, pos as int, encode_scalar(v)) implies false by {
                let w = encode_scalar(v);
                assert(buf@.subrange(pos as int, pos + w.len())[0] == w[0]);
            }
            assert forall|v: Value|
                is_scalar_value(v) && #[trigger] cut_at(buf@, pos as int, encode_scalar(v)) implies false by {
                lemma_cut_first(buf@, pos as int, v);
            }
        }
        Err(FrameError::UnknownType(tag))
    }
}

/// A value that `decode` reads back: a scalar, or an array of scalars.
pub open spec fn decodable(v: Value) -> bool {
    match v {
        Value::Array(items) => is_i64(items.len() as int) && forall|i: int|
            0 <= i < items.len() ==> is_scalar_value(#[trigger] items[i]),
        _ => is_scalar_value(v),
    }
}

pub proof fn lemma_starts_split(buf: Seq<u8>, pos: int, x: Seq<u8>, y: Seq<u8>)
    requires
        starts_at(buf, pos, x + y),
    ensures
        starts_at(buf, pos, x),
        starts_at(buf, pos + x.len(), y),
{
    let w = x + y;
    assert(buf.subrange(pos, pos + x.len()) =~= buf.subrange(pos, pos + w.len()).subrange(
        0,
        x.len() as int,
    ));
    assert(w.subrange(0, x.len() as int) =~= x);
    assert(buf.subrange(pos + x.len(), pos + w.len()) =~= buf.subrange(pos, pos + w.len()).subrange(
        x.len() as int,
        w.len() as int,
    ));
    assert(w.subrange(x.len() as int, w.len() as int) =~= y);
}

pub proof fn lemma_encode_all_push(items: Seq<Value>, x: Value)
    ensures
        encode_all(items.push(x)) == encode_all(items) + encode_scalar(x),
{
    assert(items.push(x).drop_last() =~= items);
}

/// The bytes of the first `j` items start the bytes of all of them.
pub proof fn lemma_encode_all_prefix(items: Seq<Value>, j: int)
    requires
        0 <= j <= items.len(),
    ensures
        encode_all(items.take(j)).len() <= encode_all(items).len(),
        encode_all(items).take(encode_all(items.take(j)).len() as int) == encode_all(items.take(j)),
    decreases items.len(),
{
    if j == items.len() {
        assert(items.take(j) =~= items);
        assert(encode_all(items).take(encode_all(items).len() as int) =~= encode_all(items));
    } else {
        let p = items.drop_last();
        lemma_encode_all_prefix(p, j);
        assert(p.take(j) =~= items.take(j));
        let a = encode_all(p);
        let t = encode_all(items.take(j));
        assert(encode_all(items) == a + encode_scalar(items.last()));
        assert((a + encode_scalar(items.last())).take(t.len() as int) =~= a.take(t.len() as int));
    }
}

proof fn lemma_array_item(buf: Seq<u8>, from: int, pos: int, vs: Seq<Value>, i: int)
    requires
        starts_at(buf, from, encode_all(vs)),
        0 <= i < vs.len(),
        from <= pos <= buf.len(),
        buf.subrange(from, pos) == encode_all(vs.take(i)),
    ensures
        starts_at(buf, pos, encode_scalar(vs[i])),
{
    let a = encode_all(vs.take(i));
    let b = encode_scalar(vs[i]);
    assert(vs.take(i + 1) =~= vs.take(i).push(vs[i]));
    lemma_encode_all_push(vs.take(i), vs[i]);
    lemma_encode_all_prefix(vs, i + 1);
    let all = encode_all(vs);
    assert(buf.subrange(from, from + (a + b).len()) =~= buf.subrange(from, from + all.len()).take(
        (a + b).len() as int,
    ));
    assert(starts_at(buf, from, a + b));
    lemma_starts_split(buf, from, a, b);
}

proof fn lemma_array_item_cut(buf: Seq<u8>, from: int, pos: int, vs: Seq<Value>, i: int)
    requires
        cut_at(buf, from, encode_all(vs)),
        0 <= i < vs.len(),
        from <= pos <= buf.len(),
        buf.subrange(from, pos) == encode_all(vs.take(i)),
    ensures
        starts_at(buf, pos, encode_scalar(vs[i])) || cut_at(buf, pos, encode_scalar(vs[i])),
{
    let a = encode_all(vs.take(i));
    let b = encode_scalar(vs[i]);
    assert(vs.take(i + 1) =~= vs.take(i).push(vs[i]));
    lemma_encode_all_push(vs.take(i), vs[i]);
    lemma_encode_all_prefix(vs, i + 1);
    let all = encode_all(vs);
    let n = buf.len() - from;
    let ab = a + b;
    if buf.len() >= from + ab.len() {
        assert(buf.subrange(from, from + ab.len()) =~= buf.subrange(from, buf.len() as int).take(
            ab.len() as int,
        ));
        assert(all.take(n).take(ab.len() as int) =~= all.take(ab.len() as int));
        assert(starts_at(buf, from, ab));
        lemma_starts_split(buf, from, a, b);
    } else {
        assert(all.take(n) =~= ab.take(n));
        assert(cut_at(buf, from, ab));
        lemma_cut_split(buf, from, a, b);
        assert(pos == from + a.len());
        if starts_at(buf, from, a) {
        } else {
            assert(buf.subrange(from, pos).len() == a.len());
        }
    }
}

/// A cut of an array's encoding falls in its count line, or after it in its
/// items.
proof fn lemma_array_cut(buf: Seq<u8>, v: Value)
    requires
        v is Array,
        cut_at(buf, 0, encode_value(v)),
        buf.len() > 0,
    ensures
        buf[0] == 42u8,
        cut_at(buf, 1, decimal(v->Array_0.len() as int) + crlf()) || (starts_at(
            buf,
            1,
            decimal(v->Array_0.len() as int) + crlf(),
        ) && cut_at(buf, 1 + decimal(v->Array_0.len() as int).len() + 2int, encode_all(v->Array_0))),
{
    let d = decimal(v->Array_0.len() as int);
    let all = encode_all(v->Array_0);
    assert(encode_value(v) =~= seq![42u8] + ((d + crlf()) + all));
    lemma_cut_tag(buf, 0, 42u8, (d + crlf()) + all);
    lemma_cut_split(buf, 1, d + crlf(), all);
}

/// The first byte of a cut is the first byte of what is cut.
proof fn lemma_cut_value_first(buf: Seq<u8>, v: Value)
    requires
        cut_at(buf, 0, encode_value(v)),
        buf.len() > 0,
    ensures
        buf[0] == encode_value(v)[0],
        !(v is Array) ==> cut_at(buf, 0, encode_scalar(v)),
{
    assert(buf.subrange(0, buf.len() as int)[0] == encode_value(v).take(buf.len() as int)[0]);
}

pub proof fn lemma_encode_all_concat(a: Seq<Value>, b: Seq<Value>)
    ensures
        encode_all(a + b) == encode_all(a) + encode_all(b),
    decreases b.len(),
{
    if b.len() == 0 {
        assert(a + b =~= a);
        assert(encode_all(a) + encode_all(b) =~= encode_all(a));
    } else {
        lemma_encode_all_concat(a, b.drop_last());
        assert((a + b).drop_last() =~= a + b.drop_last());
        assert((a + b).last() == b.last());
        assert(encode_all(a + b) =~= encode_all(a) + encode_all(b));
    }
}

/// A cut of an array's count line is a cut of an array of nulls.
proof fn lemma_count_witness(buf: Seq<u8>, m: int)
    requires
        buf.len() > 0,
        buf[0] == 42u8,
        0 <= m <= i64::MAX,
        cut_at(buf, 1, decimal(m) + crlf()),
    ensures
        exists|v: Value| decodable(v) && #[trigger] cut_at(buf, 0, encode_value(v)),
{
    let items = Seq::new(m as nat, |i: int| Value::Null);
    let v = Value::Array(items);
    let d = decimal(m);
    assert(encode_value(v) =~= seq![42u8] + ((d + crlf()) + encode_all(items)));
    lemma_cut_extend(buf, 1, d + crlf(), encode_all(items));
    lemma_cut_prepend(buf, 0, 42u8, (d + crlf()) + encode_all(items));
    assert(decodable(v) && cut_at(buf, 0, encode_value(v)));
}

/// With the count line and the first items in place, a cut of the next item
/// is a cut of an array that ends in nulls.
proof fn lemma_item_witness(buf: Seq<u8>, first: int, pos: int, count: int, done: Seq<Value>, w: Value)
    requires
        0 < first <= pos <= buf.len(),
        0 <= done.len() < count <= i64::MAX,
        buf.subrange(0, first) == seq![42u8] + decimal(count) + crlf(),
        buf.subrange(first, pos) == encode_all(done),
        forall|j: int| 0 <= j < done.len() ==> is_scalar_value(#[trigger] done[j]),
        is_scalar_value(w),
        cut_at(buf, pos, encode_scalar(w)),
    ensures
        exists|v: Value| decodable(v) && #[trigger] cut_at(buf, 0, encode_value(v)),
{
    let fill = Seq::new((count - done.len() - 1) as nat, |i: int| Value::Null);
    let items = done + seq![w] + fill;
    let v = Value::Array(items);
    let hdr = seq![42u8] + decimal(count) + crlf();
    lemma_encode_all_concat(done + seq![w], fill);
    lemma_encode_all_concat(done, seq![w]);
    assert(encode_all(seq![w]) =~= encode_scalar(w)) by {
        assert(seq![w].drop_last() =~= Seq::<Value>::empty());
        assert(encode_all(Seq::<Value>::empty()) == Seq::<u8>::empty());
        assert(seq![w].last() == w);
    }
    assert(items.len() == count);
    assert(encode_value(v) =~= (hdr + encode_all(done)) + (encode_scalar(w) + encode_all(fill)));
    assert(buf.subrange(0, pos) =~= buf.subrange(0, first) + buf.subrange(first, pos));
    assert(buf.subrange(0, (hdr + encode_all(done)).len() as int) =~= hdr + encode_all(done));
    assert(starts_at(buf, 0, hdr + encode_all(done)));
    lemma_cut_extend(buf, pos, encode_scalar(w), encode_all(fill));
    lemma_cut_join(buf, 0, hdr + encode_all(done), encode_scalar(w) + encode_all(fill));
    assert forall|j: int| 0 <= j < items.len() implies is_scalar_value(#[trigger] items[j]) by {
        if j < done.len() {
            assert(items[j] == done[j]);
        } else if j == done.len() {
            assert(items[j] == w);
        } else {
            assert(items[j] == Value::Null);
        }
    }
    assert(decodable(v) && cut_at(buf, 0, encode_value(v)));
}

/// What `decode` promises of its result `r` on the bytes `buf`: a frame it
/// returns is exactly the bytes it consumed, and whenever the encoding of a
/// value starts `buf`, that value comes back with the length of its encoding;
/// when `buf` holds only the start of an encoding, it asks for more bytes;
/// a first byte that starts no frame is an error; and it asks for more bytes
/// only when they could still complete a frame.
pub open spec fn decode_post(buf: Seq<u8>, r: Result<Option<(Frame, usize)>, FrameError>) -> bool {
    &&& r matches Ok(Some((f, n))) ==> f.wf() && decodable(f@) && n <= buf.len() && buf.take(n as int)
        == encode_value(f@)
    &&& forall|v: Value|
        decodable(v) && #[trigger] starts_at(buf, 0, encode_value(v)) ==> (r matches Ok(Some((f, n)))
            && f@ == v && n == encode_value(v).len())
    &&& forall|v: Value|
        decodable(v) && #[trigger] cut_at(buf, 0, encode_value(v)) ==> r == Ok::<
            Option<(Frame, usize)>,
            FrameError,
        >(None)
    &&& buf.len() > 0 && !is_frame_tag(buf[0]) ==> r == Err::<Option<(Frame, usize)>, FrameError>(
        FrameError::UnknownType(buf[0]),
    )
    &&& r == Ok::<Option<(Frame, usize)>, FrameError>(None) ==> exists|v: Value|
        decodable(v) && #[trigger] cut_at(buf, 0, encode_value(v))
}

/// Reads the frame at the front of `buf`, and how many bytes it takes.
/// `Ok(None)`: the bytes so far are not a whole frame; more must be read.
/// `Err`: the bytes do not start a frame.
pub fn decode(buf: &[u8]) -> (r: Result<Option<(Frame, usize)>, FrameError>)
    ensures
        decode_post(buf@, r),
{
    let len = buf.len();
    if len == 0 {
        proof {
            let w = Value::Null;
            assert(buf@.subrange(0, 0) =~= encode_value(w).take(0));
            assert(decodable(w) && cut_at(buf@, 0, encode_value(w)));
        }
        return Ok(None);
    }
    if buf[0] != 42u8 {
        proof {
            assert forall|v: Value|
                decodable(v) && #[trigger] starts_at(buf@, 0, encode_value(v)) implies !(v is Array)
                && starts_at(buf@, 0, encode_scalar(v)) by {
                if v is Array {
                    let w = encode_value(v);
                    assert(buf@.subrange(0, w.len() as int)[0] == w[0]);
                }
            }
            assert forall|v: Value|
                decodable(v) && #[trigger] cut_at(buf@, 0, encode_value(v)) implies !(v is Array)
                && cut_at(buf@, 0, encode_scalar(v)) by {
                lemma_cut_value_first(buf@, v);
                if v is Array {
                    lemma_array_cut(buf@, v);
                }
            }
        }
        let r = decode_scalar(buf, 0);
        proof {
            if r is Ok && r->Ok_0 is Some {
                let n = r->Ok_0->Some_0.1;
                assert(buf@.take(n as int) =~= buf@.subrange(0, n as int));
            }
            if r == Ok::<Option<(Frame, usize)>, FrameError>(None) {
                let w = choose|w: Value| is_scalar_value(w) && #[trigger] cut_at(buf@, 0, encode_scalar(w));
                assert(encode_value(w) == encode_scalar(w));
                assert(decodable(w) && cut_at(buf@, 0, encode_value(w)));
            }
        }
        return r;
    }
    proof {
        assert forall|v: Value|
            decodable(v) && #[trigger] starts_at(buf@, 0, encode_value(v)) implies v is Array && starts_at(
                buf@,
                1,
                decimal(v->Array_0.len() as int) + crlf(),
            ) && starts_at(
                buf@,
                1 + decimal(v->Array_0.len() as int).len() + 2int,
                encode_all(v->Array_0),
            ) && is_i64(v->Array_0.len() as int) by {
            let w = encode_value(v);
            assert(buf@.subrange(0, w.len() as int)[0] == w[0]);
            if !(v is Array) {
                lemma_decimal_facts(0, 0);
                assert(w[0] != 42u8);
            } else {
                let d = decimal(v->Array_0.len() as int);
                assert(w =~= seq![42u8] + (d + crlf()) + encode_all(v->Array_0));
                lemma_starts_split(buf@, 0, seq![42u8] + (d + crlf()), encode_all(v->Array_0));
                lemma_starts_split(buf@, 0, seq![42u8], d + crlf());
            }
        }
        assert forall|v: Value| decodable(v) && #[trigger] cut_at(buf@, 0, encode_value(v)) implies v is Array
            && is_i64(v->Array_0.len() as int) && (cut_at(buf@, 1, decimal(v->Array_0.len() as int) + crlf())
            || (starts_at(buf@, 1, decimal(v->Array_0.len() as int) + crlf()) && cut_at(
            buf@,
            1 + decimal(v->Array_0.len() as int).len() + 2int,
            encode_all(v->Array_0),
        ))) by {
            lemma_cut_value_first(buf@, v);
            lemma_decimal_facts(0, 0);
            if v is Array {
                lemma_array_cut(buf@, v);
            } else {
                assert(encode_value(v)[0] != 42u8);
            }
        }
    }
    let (count, e) = match read_number(buf, 1, 0) {
        Err(err) => {
            proof {
                assert forall|v: Value| decodable(v) && #[trigger] cut_at(buf@, 0, encode_value(v)) implies false by {
                }
            }
            return Err(err);
        },
        Ok(None) => {
            proof {
                let m = choose|m: int| is_i64(m) && 0 <= m && #[trigger] cut_at(buf@, 1, decimal(m) + crlf());
                lemma_count_witness(buf@, m);
            }
            return Ok(None);
        },
        Ok(Some(p)) => p,
    };
    if count < 0 {
        proof {
            assert forall|v: Value|
                decodable(v) && #[trigger] starts_at(buf@, 0, encode_value(v)) implies false by {
                assert(count == v->Array_0.len());
            }
            assert forall|v: Value| decodable(v) && #[trigger] cut_at(buf@, 0, encode_value(v)) implies false by {
                assert(count == v->Array_0.len());
            }
        }
        return Err(FrameError::BadLength);
    }
    let first = e + 2;
    let mut pos: usize = first;
    let mut items: Vec<Frame> = Vec::new();
    let mut i: i64 = 0;
    while i < count
        invariant
            len == buf@.len(),
            len > 0 && buf@[0] == 42u8,
            0 <= i <= count,
            items@.len() == i,
            first == e + 2,
            first <= pos <= len,
            buf@.subrange(0, first as int) == seq![42u8] + decimal(count as int) + crlf(),
            forall|j: int|
                0 <= j < items@.len() ==> (#[trigger] items@[j]).is_scalar() && is_scalar_value(
                    items@[j].scalar_view(),
                ),
            buf@.subrange(first as int, pos as int) == encode_all(
                items@.map_values(|f: Frame| f.scalar_view()),
            ),
            forall|v: Value|
                decodable(v) && #[trigger] starts_at(buf@, 0, encode_value(v)) ==> v is Array && count
                    == v->Array_0.len() && starts_at(buf@, first as int, encode_all(v->Array_0))
                    && items@.map_values(|f: Frame| f.scalar_view()) == v->Array_0.take(i as int),
            forall|v: Value|
                decodable(v) && #[trigger] cut_at(buf@, 0, encode_value(v)) ==> v is Array && count
                    == v->Array_0.len() && cut_at(buf@, first as int, encode_all(v->Array_0))
                    && items@.map_values(|f: Frame| f.scalar_view()) == v->Array_0.take(i as int),
        decreases count - i,
    {
        let ghost before = items@.map_values(|f: Frame| f.scalar_view());
        proof {
            assert forall|v: Value|
                decodable(v) && #[trigger] starts_at(buf@, 0, encode_value(v)) implies starts_at(
                    buf@,
                    pos as int,
                    encode_scalar(v->Array_0[i as int]),
                ) && is_scalar_value(v->Array_0[i as int]) by {
                lemma_array_item(buf@, first as int, pos as int, v->Array_0, i as int);
            }
            assert forall|v: Value|
                decodable(v) && #[trigger] cut_at(buf@, 0, encode_value(v)) implies (starts_at(
                    buf@,
                    pos as int,
                    encode_scalar(v->Array_0[i as int]),
                ) || cut_at(buf@, pos as int, encode_scalar(v->Array_0[i as int]))) && is_scalar_value(
                    v->Array_0[i as int],
                ) by {
                lemma_array_item_cut(buf@, first as int, pos as int, v->Array_0, i as int);
            }
        }
        match decode_scalar(buf, pos) {
            Err(err) => {
                proof {
                    assert forall|v: Value| decodable(v) && #[trigger] cut_at(buf@, 0, encode_value(v)) implies false by {
                    }
                }
                return Err(err);
            },
            Ok(None) => {
                proof {
                    let w = choose|w: Value| is_scalar_value(w) && #[trigger] cut_at(buf@, pos as int, encode_scalar(w));
                    let done = items@.map_values(|f: Frame| f.scalar_view());
                    assert forall|j: int| 0 <= j < done.len() implies is_scalar_value(#[trigger] done[j]) by {
                        assert(items@[j].is_scalar());
                    }
                    lemma_item_witness(buf@, first as int, pos as int, count as int, done, w);
                }
                return Ok(None);
            },
            Ok(Some((f, next))) => {
                let ghost fv = f.scalar_view();
                items.push(f);
                proof {
                    assert(items@.map_values(|f: Frame| f.scalar_view()) =~= before.push(fv));
                    lemma_encode_all_push(before, fv);
                    assert(buf@.subrange(first as int, next as int) =~= buf@.subrange(
                        first as int,
                        pos as int,
                    ) + buf@.subrange(pos as int, next as int));
                    assert forall|v: Value|
                        decodable(v) && #[trigger] starts_at(buf@, 0, encode_value(v)) implies items@.map_values(
                            |f: Frame| f.scalar_view(),
                        ) == v->Array_0.take(i + 1) by {
                        assert(v->Array_0.take(i + 1) =~= v->Array_0.take(i as int).push(
                            v->Array_0[i as int],
                        ));
                    }
                    assert forall|v: Value|
                        decodable(v) && #[trigger] cut_at(buf@, 0, encode_value(v)) implies items@.map_values(
                            |f: Frame| f.scalar_view(),
                        ) == v->Array_0.take(i + 1) by {
                        assert(v->Array_0.take(i + 1) =~= v->Array_0.take(i as int).push(
                            v->Array_0[i as int],
                        ));
                    }
                }
                pos = next;
                i = i + 1;
            },
        }
    }
    let f = Frame::Array(items);
    proof {
        let m = items@.map_values(|f: Frame| f.scalar_view());
        assert(f@ == Value::Array(m));
        assert(buf@.take(pos as int) =~= buf@.subrange(0, first as int) + buf@.subrange(
            first as int,
            pos as int,
        ));
        assert(m.len() == count);
        assert forall|v: Value|
            decodable(v) && #[trigger] starts_at(buf@, 0, encode_value(v)) implies f@ == v && pos
            == encode_value(v).len() by {
            assert(v->Array_0.take(i as int) =~= v->Array_0);
        }
        assert forall|j: int| 0 <= j < m.len() implies is_scalar_value(#[trigger] m[j]) by {
            assert(items@[j].is_scalar());
        }
        assert forall|v: Value| decodable(v) && #[trigger] cut_at(buf@, 0, encode_value(v)) implies false by {
            assert(v->Array_0.take(i as int) =~= v->Array_0);
        }
    }
    Ok(Some((f, pos)))
}

/// Round trip: decoding the encoding of a frame gives back that frame and
/// consumes every byte of it.
pub proof fn lemma_round_trip(v: Value, r: Result<Option<(Frame, usize)>, FrameError>)
    requires
        decodable(v),
        decode_post(encode_value(v), r),
    ensures
        r matches Ok(Some((f, n))) && f@ == v && n == encode_value(v).len(),
{
    let w = encode_value(v);
    assert(w.subrange(0, w.len() as int) =~= w);
    assert(starts_at(w, 0, w));
}

/// Pipelining: with two encoded frames in one buffer, the first decode
/// returns the first frame and leaves the second, with whatever follows,
/// for the next decode.
pub proof fn lemma_pipelined(
    a: Value,
    b: Value,
    rest: Seq<u8>,
    r1: Result<Option<(Frame, usize)>, FrameError>,
    r2: Result<Option<(Frame, usize)>, FrameError>,
)
    requires
        decodable(a),
        decodable(b),
        decode_post(encode_value(a) + encode_value(b) + rest, r1),
        r1 matches Ok(Some((_, n))) ==> decode_post(
            (encode_value(a) + encode_value(b) + rest).skip(n as int),
            r2,
        ),
    ensures
        r1 matches Ok(Some((f, n))) && f@ == a && n == encode_value(a).len(),
        r2 matches Ok(Some((g, m))) && g@ == b && m == encode_value(b).len(),
{
    let ea = encode_value(a);
    let eb = encode_value(b);
    let buf = ea + eb + rest;
    assert(buf.subrange(0, ea.len() as int) =~= ea);
    assert(starts_at(buf, 0, ea));
    let tail = buf.skip(ea.len() as int);
    assert(tail.subrange(0, eb.len() as int) =~= eb);
    assert(starts_at(tail, 0, eb));
}

/// Partial reads: while only the first `k` bytes of a frame's encoding have
/// arrived, decoding asks for more bytes; once all of them have arrived,
/// however they were split, it returns the frame.
pub proof fn lemma_partial_reads(
    v: Value,
    k: int,
    r1: Result<Option<(Frame, usize)>, FrameError>,
    r2: Result<Option<(Frame, usize)>, FrameError>,
)
    requires
        decodable(v),
        0 <= k < encode_value(v).len(),
        decode_post(encode_value(v).take(k), r1),
        decode_post(encode_value(v), r2),
    ensures
        r1 == Ok::<Option<(Frame, usize)>, FrameError>(None),
        r2 matches Ok(Some((f, n))) && f@ == v && n == encode_value(v).len(),
{
    let w = encode_value(v);
    let part = w.take(k);
    assert(part.subrange(0, k) =~= w.take(k));
    assert(cut_at(part, 0, w));
    lemma_round_trip(v, r2);
}

/// Bytes that neither start with the encoding of a frame nor cut one short
/// can never become a frame: decoding them is an error, told apart from
/// waiting for more bytes.
pub proof fn lemma_no_frame_is_error(buf: Seq<u8>, r: Result<Option<(Frame, usize)>, FrameError>)
    requires
        decode_post(buf, r),
        forall|v: Value|
            decodable(v) ==> !#[trigger] starts_at(buf, 0, encode_value(v)) && !cut_at(buf, 0, encode_value(v)),
    ensures
        r is Err,
{
    if let Ok(Some((f, n))) = r {
        assert(buf.subrange(0, n as int) =~= buf.take(n as int));
        assert(starts_at(buf, 0, encode_value(f@)));
    } else if r is Ok {
        let v = choose|v: Value| decodable(v) && #[trigger] cut_at(buf, 0, encode_value(v));
        assert(!starts_at(buf, 0, encode_value(v)));
    }
}

} // verus!
