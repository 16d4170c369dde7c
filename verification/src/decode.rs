//! Decoding one frame from a prefix of buffered bytes.
//!
//! [`decode_frame`] is the mathematical decoder: given the buffered bytes it
//! yields the first complete frame and how many bytes it occupies, or reports
//! that more bytes are needed ([`Decoded::Partial`]), or that the bytes are
//! structurally invalid ([`Decoded::Malformed`]). The executable scanner and
//! parser in this module are proved against it.

use vstd::prelude::*;
use vstd::utf8::{decode_utf8, encode_utf8, valid_utf8};
use crate::digits::{all_digits, digits_of, digits_val, is_digit, lemma_digits_of_val};
use crate::frame::{crlf_free, frame_bytes, frames_model, int_digits, lemma_frames_model, list_bytes, wf_model, Frame, FrameModel, CR, LF};

verus! {

/// What a scan for one CRLF line terminator found.
pub enum LineScan {
    /// The line's content length; content is CR/LF-free.
    Found(nat),
    /// The buffer ends before the terminator.
    Partial,
    /// A CR not followed by LF, or a stray LF, before any terminator.
    Broken,
}

/// Scans for the first CRLF; content bytes may not hold CR or LF.
pub open spec fn line_split(b: Seq<u8>) -> LineScan
    decreases b.len(),
{
    if b.len() == 0 {
        LineScan::Partial
    } else if b[0] == CR {
        if b.len() == 1 {
            LineScan::Partial
        } else if b[1] == LF {
            LineScan::Found(0)
        } else {
            LineScan::Broken
        }
    } else if b[0] == LF {
        LineScan::Broken
    } else {
        match line_split(b.drop_first()) {
            LineScan::Found(n) => LineScan::Found(n + 1),
            r => r,
        }
    }
}

pub proof fn lemma_line_split_found(b: Seq<u8>)
    requires
        line_split(b) is Found,
    ensures
        ({
            let n = line_split(b)->Found_0;
            &&& n + 2 <= b.len()
            &&& b[n as int] == CR
            &&& b[n as int + 1] == LF
            &&& crlf_free(b.subrange(0, n as int))
        }),
    decreases b.len(),
{
    let n = line_split(b)->Found_0;
    if b[0] == CR {
    } else {
        lemma_line_split_found(b.drop_first());
        let inner = b.drop_first();
        let k = line_split(inner)->Found_0;
        assert(n == k + 1);
        assert(b[n as int] == inner[k as int]);
        assert(b[n as int + 1] == inner[k as int + 1]);
        let c = b.subrange(0, n as int);
        let ci = inner.subrange(0, k as int);
        assert forall|i: int| 0 <= i < c.len() implies c[i] != CR && c[i] != LF by {
            if i == 0 {
            } else {
                assert(c[i] == ci[i - 1]);
            }
        }
    }
}

/// Scanning text that holds no CR or LF finds exactly its terminator.
pub proof fn lemma_line_split_encode(c: Seq<u8>, rest: Seq<u8>)
    requires
        crlf_free(c),
    ensures
        line_split(c + seq![CR, LF] + rest) == LineScan::Found(c.len() as nat),
    decreases c.len(),
{
    let b = c + seq![CR, LF] + rest;
    if c.len() == 0 {
        assert(b[0] == CR);
        assert(b[1] == LF);
    } else {
        assert(b[0] == c[0]);
        assert(c[0] != CR && c[0] != LF);
        assert(b.drop_first() =~= c.drop_first() + seq![CR, LF] + rest);
        assert(crlf_free(c.drop_first()));
        lemma_line_split_encode(c.drop_first(), rest);
    }
}

/// More bytes never change a found line nor repair a broken one.
pub proof fn lemma_line_split_extend(b: Seq<u8>, t: Seq<u8>)
    ensures
        line_split(b) is Found ==> line_split(b + t) == line_split(b),
        line_split(b) is Broken ==> line_split(b + t) is Broken,
    decreases b.len(),
{
    if b.len() == 0 {
    } else {
        let bt = b + t;
        assert(bt[0] == b[0]);
        if b[0] == CR {
            if b.len() == 1 {
            } else {
                assert(bt[1] == b[1]);
            }
        } else if b[0] == LF {
        } else {
            assert(bt.drop_first() =~= b.drop_first() + t);
            lemma_line_split_extend(b.drop_first(), t);
        }
    }
}

/// The signed value of an integer frame's line, when within `i64`.
pub open spec fn int_value(line: Seq<u8>) -> Option<int> {
    if line.len() >= 1 && line[0] == 45 {
        let mag = line.subrange(1, line.len() as int);
        if all_digits(mag) && mag.len() >= 1 && digits_val(mag) <= 9223372036854775808 {
            Some(-(digits_val(mag) as int))
        } else {
            None
        }
    } else if all_digits(line) && line.len() >= 1 && digits_val(line) <= i64::MAX {
        Some(digits_val(line) as int)
    } else {
        None
    }
}

/// The outcome of decoding the buffer's first frame.
pub enum Decoded {
    /// A complete well-formed frame, and the count of bytes it occupies.
    Complete(FrameModel, nat),
    /// The buffer holds a prefix of a frame; more bytes are needed.
    Partial,
    /// The bytes cannot start any frame, however they are extended.
    Malformed,
}

/// The outcome of decoding a run of consecutive frames.
pub enum DecodedList {
    Complete(Seq<FrameModel>, nat),
    Partial,
    Malformed,
}

/// Decodes the first frame of `b` per the wire format.
pub open spec fn decode_frame(b: Seq<u8>) -> Decoded
    decreases b.len(), 0nat,
{
    if b.len() == 0 {
        Decoded::Partial
    } else if b[0] == 43 || b[0] == 45 {
        match line_split(b.drop_first()) {
            LineScan::Found(n) => {
                let content = b.drop_first().subrange(0, n as int);
                if valid_utf8(content) {
                    if b[0] == 43 {
                        Decoded::Complete(FrameModel::Simple(decode_utf8(content)), n + 3)
                    } else {
                        Decoded::Complete(FrameModel::Error(decode_utf8(content)), n + 3)
                    }
                } else {
                    Decoded::Malformed
                }
            },
            LineScan::Partial => Decoded::Partial,
            LineScan::Broken => Decoded::Malformed,
        }
    } else if b[0] == 58 {
        match line_split(b.drop_first()) {
            LineScan::Found(n) => {
                match int_value(b.drop_first().subrange(0, n as int)) {
                    Some(i) => Decoded::Complete(FrameModel::Integer(i), n + 3),
                    None => Decoded::Malformed,
                }
            },
            LineScan::Partial => Decoded::Partial,
            LineScan::Broken => Decoded::Malformed,
        }
    } else if b[0] == 36 {
        if b.len() == 1 {
            Decoded::Partial
        } else if b[1] == 45 {
            match line_split(b.drop_first()) {
                LineScan::Found(n) => {
                    if b.drop_first().subrange(0, n as int) == seq![45u8, 49u8] {
                        Decoded::Complete(FrameModel::Null, n + 3)
                    } else {
                        Decoded::Malformed
                    }
                },
                LineScan::Partial => Decoded::Partial,
                LineScan::Broken => Decoded::Malformed,
            }
        } else {
            match line_split(b.drop_first()) {
                LineScan::Found(n) => {
                    let ds = b.drop_first().subrange(0, n as int);
                    if all_digits(ds) && ds.len() >= 1 && digits_val(ds) <= u64::MAX {
                        let len = digits_val(ds);
                        let start = n + 3;
                        if b.len() < start + len + 2 {
                            Decoded::Partial
                        } else if b[(start + len) as int] == CR && b[(start + len + 1) as int]
                            == LF {
                            Decoded::Complete(
                                FrameModel::Bulk(b.subrange(start as int, (start + len) as int)),
                                start + len + 2,
                            )
                        } else {
                            Decoded::Malformed
                        }
                    } else {
                        Decoded::Malformed
                    }
                },
                LineScan::Partial => Decoded::Partial,
                LineScan::Broken => Decoded::Malformed,
            }
        }
    } else if b[0] == 42 {
        match line_split(b.drop_first()) {
            LineScan::Found(n) => {
                let ds = b.drop_first().subrange(0, n as int);
                if all_digits(ds) && ds.len() >= 1 && digits_val(ds) <= u64::MAX {
                    let start = n + 3;
                    if start > b.len() {
                        Decoded::Malformed
                    } else {
                        match decode_list(b.skip(start as int), digits_val(ds)) {
                            DecodedList::Complete(fs, used) => Decoded::Complete(
                                FrameModel::Array(fs),
                                start + used,
                            ),
                            DecodedList::Partial => Decoded::Partial,
                            DecodedList::Malformed => Decoded::Malformed,
                        }
                    }
                } else {
                    Decoded::Malformed
                }
            },
            LineScan::Partial => Decoded::Partial,
            LineScan::Broken => Decoded::Malformed,
        }
    } else {
        Decoded::Malformed
    }
}

/// Decodes `cnt` consecutive frames from the front of `b`.
pub open spec fn decode_list(b: Seq<u8>, cnt: nat) -> DecodedList
    decreases b.len(), cnt,
{
    if cnt == 0 {
        DecodedList::Complete(Seq::empty(), 0)
    } else {
        match decode_frame(b) {
            Decoded::Complete(f, n) => {
                if n > b.len() {
                    DecodedList::Malformed
                } else {
                    match decode_list(b.skip(n as int), (cnt - 1) as nat) {
                        DecodedList::Complete(fs, used) => DecodedList::Complete(
                            seq![f] + fs,
                            n + used,
                        ),
                        r => r,
                    }
                }
            },
            Decoded::Partial => DecodedList::Partial,
            Decoded::Malformed => DecodedList::Malformed,
        }
    }
}

/// A complete frame occupies between one byte and the whole buffer,
/// and is well formed.
pub proof fn lemma_decode_len(b: Seq<u8>)
    ensures
        decode_frame(b) matches Decoded::Complete(f, n) ==> 1 <= n <= b.len() && wf_model(f),
    decreases b.len(), 0nat,
{
    if decode_frame(b) matches Decoded::Complete(f, n) {
        let tail = b.drop_first();
        if b[0] == 43 || b[0] == 45 {
            lemma_line_split_found(tail);
            let k = line_split(tail)->Found_0;
            let content = tail.subrange(0, k as int);
            vstd::utf8::decode_utf8_encode_utf8(content);
        } else if b[0] == 58 {
            lemma_line_split_found(tail);
        } else if b[0] == 36 {
            lemma_line_split_found(tail);
        } else {
            lemma_line_split_found(tail);
            let k = line_split(tail)->Found_0;
            let start = k + 3;
            lemma_decode_list_len(b.skip(start as int), digits_val(tail.subrange(0, k as int)));
        }
    }
}

pub proof fn lemma_decode_list_len(b: Seq<u8>, cnt: nat)
    ensures
        decode_list(b, cnt) matches DecodedList::Complete(fs, used) ==> used <= b.len()
            && fs.len() == cnt && (forall|i: int| 0 <= i < fs.len() ==> wf_model(#[trigger] fs[i])),
    decreases b.len(), cnt,
{
    if cnt == 0 {
    } else if decode_list(b, cnt) is Complete {
        let fs = decode_list(b, cnt)->Complete_0;
        lemma_decode_len(b);
        let f = decode_frame(b)->Complete_0;
        let n = decode_frame(b)->Complete_1;
        lemma_decode_list_len(b.skip(n as int), (cnt - 1) as nat);
        let inner = decode_list(b.skip(n as int), (cnt - 1) as nat);
        let tailfs = inner->Complete_0;
        assert(fs == seq![f] + tailfs);
        assert forall|i: int| 0 <= i < fs.len() implies wf_model(#[trigger] fs[i]) by {
            if i == 0 {
                assert(fs[0] == f);
            } else {
                assert(fs[i] == tailfs[i - 1]);
            }
        }
    }
}

/// Decoding the encoding of a well-formed frame, whatever follows it,
/// yields that frame back and consumes exactly its encoding.
pub proof fn lemma_decode_encode(m: FrameModel, rest: Seq<u8>)
    requires
        wf_model(m),
    ensures
        decode_frame(frame_bytes(m) + rest) == Decoded::Complete(
            m,
            frame_bytes(m).len() as nat,
        ),
    decreases m, 1int,
{
    let e = frame_bytes(m);
    let b = e + rest;
    match m {
        FrameModel::Simple(s) => {
            let c = encode_utf8(s);
            assert(b[0] == 43);
            assert(b.drop_first() =~= c + seq![CR, LF] + rest);
            lemma_line_split_encode(c, rest);
            assert(b.drop_first().subrange(0, c.len() as int) =~= c);
            vstd::utf8::encode_utf8_valid_utf8(s);
            vstd::utf8::encode_utf8_decode_utf8(s);
            assert(e.len() == c.len() + 3);
        },
        FrameModel::Error(s) => {
            let c = encode_utf8(s);
            assert(b[0] == 45);
            assert(b.drop_first() =~= c + seq![CR, LF] + rest);
            lemma_line_split_encode(c, rest);
            assert(b.drop_first().subrange(0, c.len() as int) =~= c);
            vstd::utf8::encode_utf8_valid_utf8(s);
            vstd::utf8::encode_utf8_decode_utf8(s);
            assert(e.len() == c.len() + 3);
        },
        FrameModel::Integer(i) => {
            let line = int_digits(i);
            assert(b[0] == 58);
            if i < 0 {
                lemma_digits_of_val((-i) as nat);
                assert(crlf_free(line)) by {
                    assert forall|j: int| 0 <= j < line.len() implies line[j] != CR && line[j]
                        != LF by {
                        if j > 0 {
                            assert(is_digit(digits_of((-i) as nat)[j - 1]));
                        }
                    }
                }
            } else {
                lemma_digits_of_val(i as nat);
                assert(crlf_free(line)) by {
                    assert forall|j: int| 0 <= j < line.len() implies line[j] != CR && line[j]
                        != LF by {
                        assert(is_digit(digits_of(i as nat)[j]));
                    }
                }
            }
            assert(b.drop_first() =~= line + seq![CR, LF] + rest);
            lemma_line_split_encode(line, rest);
            assert(b.drop_first().subrange(0, line.len() as int) =~= line);
            if i < 0 {
                assert(line[0] == 45);
                assert(line.subrange(1, line.len() as int) =~= digits_of((-i) as nat));
                assert(int_value(line) == Some(i));
            } else {
                assert(is_digit(line[0]));
                assert(line[0] != 45);
                assert(int_value(line) == Some(i));
            }
            assert(e.len() == line.len() + 3);
        },
        FrameModel::Null => {
            assert(b[0] == 36);
            assert(b[1] == 45);
            let c = seq![45u8, 49u8];
            assert(crlf_free(c));
            assert(b.drop_first() =~= c + seq![CR, LF] + rest);
            lemma_line_split_encode(c, rest);
            assert(b.drop_first().subrange(0, 2) =~= c);
            assert(e.len() == 5);
        },
        FrameModel::Bulk(p) => {
            let ds = digits_of(p.len());
            lemma_digits_of_val(p.len());
            assert(crlf_free(ds)) by {
                assert forall|j: int| 0 <= j < ds.len() implies ds[j] != CR && ds[j] != LF by {
                    assert(is_digit(ds[j]));
                }
            }
            assert(b[0] == 36);
            assert(b[1] == ds[0]);
            assert(is_digit(ds[0]));
            assert(b[1] != 45);
            let after = p + seq![CR, LF] + rest;
            assert(b.drop_first() =~= ds + seq![CR, LF] + after);
            lemma_line_split_encode(ds, after);
            assert(b.drop_first().subrange(0, ds.len() as int) =~= ds);
            let n = ds.len();
            let start = n + 3;
            let len = p.len();
            assert(e.len() == start + len + 2);
            assert(b.len() >= start + len + 2);
            assert(b[(start + len) as int] == CR);
            assert(b[(start + len + 1) as int] == LF);
            assert(b.subrange(start as int, (start + len) as int) =~= p);
        },
        FrameModel::Array(fs) => {
            let ds = digits_of(fs.len());
            lemma_digits_of_val(fs.len());
            assert(crlf_free(ds)) by {
                assert forall|j: int| 0 <= j < ds.len() implies ds[j] != CR && ds[j] != LF by {
                    assert(is_digit(ds[j]));
                }
            }
            assert(b[0] == 42);
            let after = list_bytes(fs) + rest;
            assert(b.drop_first() =~= ds + seq![CR, LF] + after);
            lemma_line_split_encode(ds, after);
            assert(b.drop_first().subrange(0, ds.len() as int) =~= ds);
            let start = ds.len() + 3;
            assert(start <= b.len());
            assert(b.skip(start as int) =~= list_bytes(fs) + rest);
            lemma_decode_encode_list(fs, rest);
            assert(e.len() == start + list_bytes(fs).len());
        },
    }
}

pub proof fn lemma_decode_encode_list(fs: Seq<FrameModel>, rest: Seq<u8>)
    requires
        forall|i: int| 0 <= i < fs.len() ==> wf_model(#[trigger] fs[i]),
    ensures
        decode_list(list_bytes(fs) + rest, fs.len() as nat) == DecodedList::Complete(
            fs,
            list_bytes(fs).len() as nat,
        ),
    decreases fs, 0int,
{
    if fs.len() == 0 {
        assert(fs =~= Seq::<FrameModel>::empty());
    } else {
        let f0 = fs[0];
        let tail = fs.drop_first();
        let b = list_bytes(fs) + rest;
        assert(b =~= frame_bytes(f0) + (list_bytes(tail) + rest));
        lemma_decode_encode(f0, list_bytes(tail) + rest);
        let n = frame_bytes(f0).len();
        assert(n <= b.len());
        assert(b.skip(n as int) =~= list_bytes(tail) + rest);
        assert(forall|i: int| 0 <= i < tail.len() ==> wf_model(#[trigger] tail[i]));
        lemma_decode_encode_list(tail, rest);
        assert(seq![f0] + tail =~= fs);
        assert(list_bytes(fs).len() == n + list_bytes(tail).len());
    }
}

/// More bytes never change an already-complete decode, nor repair
/// a malformed one.
pub proof fn lemma_decode_extend(b: Seq<u8>, t: Seq<u8>)
    ensures
        decode_frame(b) is Complete ==> decode_frame(b + t) == decode_frame(b),
        decode_frame(b) is Malformed ==> decode_frame(b + t) is Malformed,
    decreases b.len(), 0nat,
{
    if b.len() == 0 {
    } else {
        let bt = b + t;
        let tail = b.drop_first();
        let ttail = bt.drop_first();
        assert(bt[0] == b[0]);
        assert(ttail =~= tail + t);
        lemma_line_split_extend(tail, t);
        if b[0] == 43 || b[0] == 45 || b[0] == 58 {
            if line_split(tail) is Found {
                lemma_line_split_found(tail);
                let n = line_split(tail)->Found_0;
                assert(ttail.subrange(0, n as int) =~= tail.subrange(0, n as int));
            }
        } else if b[0] == 36 {
            assert(b.len() >= 1);
            if b.len() == 1 {
            } else {
                assert(bt[1] == b[1]);
                if line_split(tail) is Found {
                    lemma_line_split_found(tail);
                    let n = line_split(tail)->Found_0;
                    assert(ttail.subrange(0, n as int) =~= tail.subrange(0, n as int));
                    if b[1] != 45 {
                        let ds = tail.subrange(0, n as int);
                        if all_digits(ds) && ds.len() >= 1 && digits_val(ds) <= u64::MAX {
                            let len = digits_val(ds);
                            let start = n + 3;
                            if b.len() >= start + len + 2 {
                                assert(bt[(start + len) as int] == b[(start + len) as int]);
                                assert(bt[(start + len + 1) as int] == b[(start + len + 1) as int]);
                                assert(bt.subrange(start as int, (start + len) as int)
                                    =~= b.subrange(start as int, (start + len) as int));
                            }
                        }
                    }
                }
            }
        } else if b[0] == 42 {
            if line_split(tail) is Found {
                lemma_line_split_found(tail);
                let n = line_split(tail)->Found_0;
                assert(ttail.subrange(0, n as int) =~= tail.subrange(0, n as int));
                let ds = tail.subrange(0, n as int);
                if all_digits(ds) && ds.len() >= 1 && digits_val(ds) <= u64::MAX {
                    let start = n + 3;
                    assert(start <= b.len());
                    assert(bt.skip(start as int) =~= b.skip(start as int) + t);
                    lemma_decode_list_extend(b.skip(start as int), digits_val(ds), t);
                }
            }
        } else {
        }
    }
}

pub proof fn lemma_decode_list_extend(b: Seq<u8>, cnt: nat, t: Seq<u8>)
    ensures
        decode_list(b, cnt) is Complete ==> decode_list(b + t, cnt) == decode_list(b, cnt),
        decode_list(b, cnt) is Malformed ==> decode_list(b + t, cnt) is Malformed,
    decreases b.len(), cnt,
{
    if cnt == 0 {
    } else {
        lemma_decode_extend(b, t);
        match decode_frame(b) {
            Decoded::Complete(f, n) => {
                lemma_decode_len(b);
                assert(n <= b.len());
                assert((b + t).skip(n as int) =~= b.skip(n as int) + t);
                lemma_decode_list_extend(b.skip(n as int), (cnt - 1) as nat, t);
            },
            Decoded::Partial => {},
            Decoded::Malformed => {},
        }
    }
}

/// Incremental delivery: while any strict prefix of a frame's encoding is
/// buffered, decoding reports only that more bytes are needed — never a
/// wrong frame and never an error.
pub proof fn lemma_prefix_partial(m: FrameModel, p: Seq<u8>, q: Seq<u8>)
    requires
        wf_model(m),
        frame_bytes(m) == p + q,
        q.len() > 0,
    ensures
        decode_frame(p) is Partial,
{
    lemma_decode_encode(m, Seq::empty());
    assert(frame_bytes(m) + Seq::empty() =~= p + q);
    assert(decode_frame(p + q) == Decoded::Complete(m, frame_bytes(m).len() as nat));
    match decode_frame(p) {
        Decoded::Complete(f, n) => {
            lemma_decode_extend(p, q);
            lemma_decode_len(p);
            assert(decode_frame(p + q) == Decoded::Complete(f, n));
            assert(n <= p.len());
            assert(n == frame_bytes(m).len());
            assert(false);
        },
        Decoded::Partial => {},
        Decoded::Malformed => {
            lemma_decode_extend(p, q);
            assert(false);
        },
    }
}

/// How an attempt to read a frame from buffered bytes can fail.
#[derive(Debug, PartialEq, Eq, Structural)]
pub enum FrameError {
    /// Not an error: the buffer ends before the frame does; read more bytes.
    Incomplete,
    /// The bytes are structurally invalid and no extension can mend them.
    Protocol,
}

/// Relies on `String::from_utf8`: it succeeds exactly on valid UTF-8
/// and yields the decoded characters.
#[verifier::external_body]
pub(crate) fn string_from_utf8(v: Vec<u8>) -> (r: Option<String>)
    ensures
        match r {
            Some(s) => valid_utf8(v@) && s@ == decode_utf8(v@),
            None => !valid_utf8(v@),
        },
{
    match String::from_utf8(v) {
        Ok(s) => Some(s),
        Err(_) => None,
    }
}

/// Copies `buf[start..end]` out of the buffer.
fn copy_range(buf: &Vec<u8>, start: usize, end: usize) -> (r: Vec<u8>)
    requires
        start <= end <= buf.len(),
    ensures
        r@ == buf@.subrange(start as int, end as int),
{
    let s = vstd::slice::slice_subrange(buf.as_slice(), start, end);
    vstd::slice::slice_to_vec(s)
}

/// Scans `buf[pos..]` for the first CRLF; `Ok` is the content's end index.
fn find_line(buf: &Vec<u8>, pos: usize) -> (r: Result<usize, FrameError>)
    requires
        pos <= buf.len(),
    ensures
        ({
            let ls = line_split(buf@.skip(pos as int));
            match r {
                Ok(end) => pos <= end && end + 2 <= buf.len() && ls == LineScan::Found(
                    (end - pos) as nat,
                ),
                Err(FrameError::Incomplete) => ls is Partial,
                Err(FrameError::Protocol) => ls is Broken,
            }
        }),
{
    let ghost whole = buf@.skip(pos as int);
    let mut i = pos;
    while i < buf.len()
        invariant
            pos <= i <= buf.len(),
            whole == buf@.skip(pos as int),
            ({
                let here = line_split(buf@.skip(i as int));
                &&& (here is Partial ==> line_split(whole) is Partial)
                &&& (here is Broken ==> line_split(whole) is Broken)
                &&& (here matches LineScan::Found(n) ==> line_split(whole) == LineScan::Found(
                    (n + i - pos) as nat,
                ))
            }),
        decreases buf.len() - i,
    {
        let ghost here = buf@.skip(i as int);
        let b = buf[i];
        proof {
            assert(here[0] == b);
        }
        if b == CR {
            if i + 1 == buf.len() {
                proof {
                    assert(here.len() == 1);
                }
                return Err(FrameError::Incomplete);
            }
            let b2 = buf[i + 1];
            proof {
                assert(here[1] == b2);
            }
            if b2 == LF {
                proof {
                    assert(line_split(here) == LineScan::Found(0nat));
                }
                return Ok(i);
            }
            return Err(FrameError::Protocol);
        }
        if b == LF {
            return Err(FrameError::Protocol);
        }
        proof {
            assert(here.drop_first() =~= buf@.skip(i + 1));
        }
        i = i + 1;
    }
    proof {
        assert(buf@.skip(i as int).len() == 0);
    }
    Err(FrameError::Incomplete)
}


/// A step of [`decode_list`]: one complete frame, then the rest.
pub proof fn lemma_decode_list_step(b: Seq<u8>, cnt: nat, f: FrameModel, n: nat)
    requires
        cnt >= 1,
        decode_frame(b) == Decoded::Complete(f, n),
        n <= b.len(),
    ensures
        decode_list(b, cnt) == (match decode_list(b.skip(n as int), (cnt - 1) as nat) {
            DecodedList::Complete(fs, used) => DecodedList::Complete(seq![f] + fs, (n + used) as nat),
            r => r,
        }),
{
}

/// Parses an array frame at `buf[pos..]`: the count line, then that many
/// consecutive element frames.
#[verifier::loop_isolation(false)]
#[verifier::rlimit(100)]
fn parse_array(buf: &Vec<u8>, pos: usize) -> (r: Result<(Frame, usize), FrameError>)
    requires
        pos < buf.len(),
        buf@[pos as int] == 42,
    ensures
        ({
            let d = decode_frame(buf@.skip(pos as int));
            match r {
                Ok(p) => pos < p.1 <= buf.len() && d == Decoded::Complete(
                    p.0@,
                    (p.1 - pos) as nat,
                ) && p.0.wf(),
                Err(FrameError::Incomplete) => d is Partial,
                Err(FrameError::Protocol) => d is Malformed,
            }
        }),
    decreases buf.len() - pos, 0int,
{
    let ghost s = buf@.skip(pos as int);
    let t = buf[pos];
    proof {
        assert(s[0] == t);
        assert(s.drop_first() =~= buf@.skip(pos + 1));
    }
    let end = match find_line(buf, pos + 1) {
        Ok(e) => e,
        Err(e) => {
            return Err(e);
        },
    };
    let ghost n = (end - (pos + 1)) as nat;
    let ghost ds = s.drop_first().subrange(0, n as int);
    proof {
        assert(ds =~= buf@.subrange(pos + 1, end as int));
    }
    let cnt64 = match crate::digits::parse_decimal(buf, pos + 1, end) {
        Some(v) => v,
        None => {
            return Err(FrameError::Protocol);
        },
    };
    let start = end + 2;
    let ghost startr = n + 3;
    proof {
        assert(s.skip(startr as int) =~= buf@.skip(start as int));
        assert(startr <= s.len());
    }
    let mut items: Vec<Frame> = Vec::new();
    let mut cur = start;
    let mut k: u64 = 0;
    while k < cnt64
        invariant
            pos < cur <= buf.len(),
            start <= cur,
            k <= cnt64,
            pos + 1 <= end,
            end + 2 <= buf.len(),
            start == end + 2,
            s == buf@.skip(pos as int),
            frames_model(items@).len() == k as nat,
            ({
                match decode_list(buf@.skip(cur as int), (cnt64 - k) as nat) {
                    DecodedList::Complete(fs, used) => decode_list(
                        buf@.skip(start as int),
                        cnt64 as nat,
                    ) == DecodedList::Complete(
                        frames_model(items@) + fs,
                        ((cur - start) as nat + used) as nat,
                    ),
                    DecodedList::Partial => decode_list(
                        buf@.skip(start as int),
                        cnt64 as nat,
                    ) is Partial,
                    DecodedList::Malformed => decode_list(
                        buf@.skip(start as int),
                        cnt64 as nat,
                    ) is Malformed,
                }
            }),
        decreases cnt64 - k,
    {
        let ghost heres = buf@.skip(cur as int);
        proof {
            lemma_frames_model(items@);
        }
        match parse_at(buf, cur) {
            Ok((f, np)) => {
                let ghost oldv = items@;
                let ghost oldf = frames_model(items@);
                items.push(f);
                proof {
                    assert(items@.drop_last() =~= oldv);
                    assert(items@.last() == f);
                    assert(frames_model(items@) == oldf.push(f@));
                    assert(heres.skip((np - cur) as int) =~= buf@.skip(np as int));
                    assert((np - cur) as nat <= heres.len());
                    lemma_decode_list_step(heres, (cnt64 - k) as nat, f@, (np - cur) as nat);
                    match decode_list(buf@.skip(np as int), (cnt64 - k - 1) as nat) {
                        DecodedList::Complete(fs2, used2) => {
                            assert(decode_list(heres, (cnt64 - k) as nat)
                                == DecodedList::Complete(
                                seq![f@] + fs2,
                                ((np - cur) as nat + used2) as nat,
                            ));
                            assert(oldf.push(f@) + fs2 =~= oldf + (seq![f@] + fs2));
                            assert(decode_list(buf@.skip(start as int), cnt64 as nat)
                                == DecodedList::Complete(
                                frames_model(items@) + fs2,
                                ((np - start) as nat + used2) as nat,
                            ));
                        },
                        DecodedList::Partial => {
                            assert(decode_list(heres, (cnt64 - k) as nat) is Partial);
                            assert(decode_list(buf@.skip(start as int), cnt64 as nat) is Partial);
                        },
                        DecodedList::Malformed => {
                            assert(decode_list(heres, (cnt64 - k) as nat) is Malformed);
                            assert(decode_list(buf@.skip(start as int), cnt64 as nat) is Malformed);
                        },
                    }
                }
                cur = np;
                k = k + 1;
            },
            Err(e) => {
                proof {
                    assert((cnt64 - k) as nat >= 1);
                }
                return Err(e);
            },
        }
    }
    proof {
        assert(decode_list(buf@.skip(cur as int), 0nat) == DecodedList::Complete(
            Seq::<FrameModel>::empty(),
            0nat,
        ));
        assert(frames_model(items@) + Seq::<FrameModel>::empty() =~= frames_model(items@));
        assert(decode_list(buf@.skip(start as int), cnt64 as nat) == DecodedList::Complete(
            frames_model(items@),
            (cur - start) as nat,
        ));
        assert(decode_frame(s) == Decoded::Complete(
            FrameModel::Array(frames_model(items@)),
            (startr + (cur - start) as nat) as nat,
        ));
        lemma_decode_len(s);
    }
    Ok((Frame::Array(items), cur))
}

/// Parses the first frame of `buf[pos..]`; `Ok` carries the frame and the
/// index just past its last byte. Proved against [`decode_frame`].
#[verifier::loop_isolation(false)]
#[verifier::rlimit(100)]
pub fn parse_at(buf: &Vec<u8>, pos: usize) -> (r: Result<(Frame, usize), FrameError>)
    requires
        pos <= buf.len(),
    ensures
        ({
            let d = decode_frame(buf@.skip(pos as int));
            match r {
                Ok(p) => pos < p.1 <= buf.len() && d == Decoded::Complete(
                    p.0@,
                    (p.1 - pos) as nat,
                ) && p.0.wf(),
                Err(FrameError::Incomplete) => d is Partial,
                Err(FrameError::Protocol) => d is Malformed,
            }
        }),
    decreases buf.len() - pos, 1int,
{
    let ghost s = buf@.skip(pos as int);
    if pos == buf.len() {
        return Err(FrameError::Incomplete);
    }
    let t = buf[pos];
    proof {
        assert(s[0] == t);
        assert(s.drop_first() =~= buf@.skip(pos + 1));
        lemma_decode_len(s);
    }
    if t == 43 || t == 45 {
        let end = match find_line(buf, pos + 1) {
            Ok(e) => e,
            Err(e) => {
                return Err(e);
            },
        };
        let ghost n = (end - (pos + 1)) as nat;
        let content = copy_range(buf, pos + 1, end);
        proof {
            assert(content@ =~= s.drop_first().subrange(0, n as int));
        }
        match string_from_utf8(content) {
            Some(st) => {
                let f = if t == 43 {
                    Frame::Simple(st)
                } else {
                    Frame::Error(st)
                };
                proof {
                    assert(decode_frame(s) == Decoded::Complete(f@, n + 3));
                    lemma_decode_len(s);
                }
                Ok((f, end + 2))
            },
            None => Err(FrameError::Protocol),
        }
    } else if t == 58 {
        let end = match find_line(buf, pos + 1) {
            Ok(e) => e,
            Err(e) => {
                return Err(e);
            },
        };
        let ghost n = (end - (pos + 1)) as nat;
        let ghost line = s.drop_first().subrange(0, n as int);
        if pos + 1 < end && buf[pos + 1] == 45 {
            proof {
                assert(line[0] == 45);
                assert(line.subrange(1, line.len() as int) =~= buf@.subrange(pos + 2, end as int));
            }
            match crate::digits::parse_decimal(buf, pos + 2, end) {
                Some(v) => {
                    if v > 9223372036854775808u64 {
                        return Err(FrameError::Protocol);
                    }
                    let val: i64 = if v == 9223372036854775808u64 {
                        i64::MIN
                    } else {
                        -(v as i64)
                    };
                    proof {
                        assert(int_value(line) == Some(val as int));
                        assert(decode_frame(s) == Decoded::Complete(
                            FrameModel::Integer(val as int),
                            n + 3,
                        ));
                    }
                    Ok((Frame::Integer(val), end + 2))
                },
                None => {
                    proof {
                        assert(int_value(line) is None);
                    }
                    Err(FrameError::Protocol)
                },
            }
        } else {
            proof {
                assert(line =~= buf@.subrange(pos + 1, end as int));
                if line.len() >= 1 {
                    assert(line[0] == buf@[pos + 1]);
                }
            }
            match crate::digits::parse_decimal(buf, pos + 1, end) {
                Some(v) => {
                    if v > i64::MAX as u64 {
                        return Err(FrameError::Protocol);
                    }
                    let val: i64 = v as i64;
                    proof {
                        assert(int_value(line) == Some(val as int));
                    }
                    Ok((Frame::Integer(val), end + 2))
                },
                None => {
                    proof {
                        assert(int_value(line) is None);
                    }
                    Err(FrameError::Protocol)
                },
            }
        }
    } else if t == 36 {
        if pos + 1 == buf.len() {
            proof {
                assert(s.len() == 1);
            }
            return Err(FrameError::Incomplete);
        }
        let b1 = buf[pos + 1];
        proof {
            assert(s[1] == b1);
        }
        if b1 == 45 {
            let end = match find_line(buf, pos + 1) {
                Ok(e) => e,
                Err(e) => {
                    return Err(e);
                },
            };
            let ghost n = (end - (pos + 1)) as nat;
            let ghost line = s.drop_first().subrange(0, n as int);
            if end - (pos + 1) == 2 && buf[pos + 2] == 49 {
                proof {
                    assert(line[0] == buf@[pos + 1]);
                    assert(line[1] == buf@[pos + 2]);
                    assert(line =~= seq![45u8, 49u8]);
                }
                Ok((Frame::Null, end + 2))
            } else {
                proof {
                    if line == seq![45u8, 49u8] {
                        assert(line[1] == buf@[pos + 2]);
                        assert(false);
                    }
                }
                Err(FrameError::Protocol)
            }
        } else {
            let end = match find_line(buf, pos + 1) {
                Ok(e) => e,
                Err(e) => {
                    return Err(e);
                },
            };
            let ghost n = (end - (pos + 1)) as nat;
            let ghost ds = s.drop_first().subrange(0, n as int);
            proof {
                assert(ds =~= buf@.subrange(pos + 1, end as int));
            }
            let len64 = match crate::digits::parse_decimal(buf, pos + 1, end) {
                Some(v) => v,
                None => {
                    return Err(FrameError::Protocol);
                },
            };
            let avail = (buf.len() - (end + 2)) as u64;
            if avail < 2 || len64 > avail - 2 {
                proof {
                    assert(s.len() < n + 3 + digits_val(ds) + 2);
                }
                return Err(FrameError::Incomplete);
            }
            let len = len64 as usize;
            let pstart = end + 2;
            let pend = pstart + len;
            proof {
                assert(s.len() >= n + 3 + digits_val(ds) + 2);
                assert(s[(n + 3 + digits_val(ds)) as int] == buf@[pend as int]);
                assert(s[(n + 3 + digits_val(ds) + 1) as int] == buf@[pend + 1]);
            }
            if buf[pend] == CR {
                let lf = buf[pend + 1];
                if lf == LF {
                    let payload = copy_range(buf, pstart, pend);
                    proof {
                        assert(payload@ =~= s.subrange((n + 3) as int, (n + 3 + digits_val(ds)) as int));
                    }
                    Ok((Frame::Bulk(payload), pend + 2))
                } else {
                    Err(FrameError::Protocol)
                }
            } else {
                Err(FrameError::Protocol)
            }
        }
    } else if t == 42 {
        parse_array(buf, pos)
    } else {
        Err(FrameError::Protocol)
    }
}

/// Relies on `str::from_utf8`: it succeeds exactly on valid UTF-8.
#[verifier::external_body]
fn utf8_valid(b: &[u8]) -> (r: bool)
    ensures
        r == valid_utf8(b@),
{
    core::str::from_utf8(b).is_ok()
}

/// Scans the first frame of `buf[pos..]` without building it; `Ok` is the
/// index just past its last byte. Proved against [`decode_frame`], so a
/// following [`parse_at`] returns a frame of exactly this length.
#[verifier::loop_isolation(false)]
#[verifier::rlimit(100)]
fn scan_at(buf: &Vec<u8>, pos: usize) -> (r: Result<usize, FrameError>)
    requires
        pos <= buf.len(),
    ensures
        ({
            let d = decode_frame(buf@.skip(pos as int));
            match r {
                Ok(end) => pos < end <= buf.len() && (d matches Decoded::Complete(f, n) && n == (
                end - pos) as nat),
                Err(FrameError::Incomplete) => d is Partial,
                Err(FrameError::Protocol) => d is Malformed,
            }
        }),
    decreases buf.len() - pos, 0int,
{
    let ghost s = buf@.skip(pos as int);
    if pos == buf.len() {
        return Err(FrameError::Incomplete);
    }
    let t = buf[pos];
    proof {
        assert(s[0] == t);
        assert(s.drop_first() =~= buf@.skip(pos + 1));
    }
    if t == 43 || t == 45 {
        let end = match find_line(buf, pos + 1) {
            Ok(e) => e,
            Err(e) => {
                return Err(e);
            },
        };
        let ghost n = (end - (pos + 1)) as nat;
        let content = vstd::slice::slice_subrange(buf.as_slice(), pos + 1, end);
        proof {
            assert(content@ =~= s.drop_first().subrange(0, n as int));
        }
        if utf8_valid(content) {
            Ok(end + 2)
        } else {
            Err(FrameError::Protocol)
        }
    } else if t == 58 {
        let end = match find_line(buf, pos + 1) {
            Ok(e) => e,
            Err(e) => {
                return Err(e);
            },
        };
        let ghost n = (end - (pos + 1)) as nat;
        let ghost line = s.drop_first().subrange(0, n as int);
        if pos + 1 < end && buf[pos + 1] == 45 {
            proof {
                assert(line[0] == 45);
                assert(line.subrange(1, line.len() as int) =~= buf@.subrange(pos + 2, end as int));
            }
            match crate::digits::parse_decimal(buf, pos + 2, end) {
                Some(v) => {
                    if v > 9223372036854775808u64 {
                        return Err(FrameError::Protocol);
                    }
                    proof {
                        assert(int_value(line) is Some);
                    }
                    Ok(end + 2)
                },
                None => {
                    proof {
                        assert(int_value(line) is None);
                    }
                    Err(FrameError::Protocol)
                },
            }
        } else {
            proof {
                assert(line =~= buf@.subrange(pos + 1, end as int));
                if line.len() >= 1 {
                    assert(line[0] == buf@[pos + 1]);
                }
            }
            match crate::digits::parse_decimal(buf, pos + 1, end) {
                Some(v) => {
                    if v > i64::MAX as u64 {
                        return Err(FrameError::Protocol);
                    }
                    proof {
                        assert(int_value(line) is Some);
                    }
                    Ok(end + 2)
                },
                None => {
                    proof {
                        assert(int_value(line) is None);
                    }
                    Err(FrameError::Protocol)
                },
            }
        }
    } else if t == 36 {
        if pos + 1 == buf.len() {
            proof {
                assert(s.len() == 1);
            }
            return Err(FrameError::Incomplete);
        }
        let b1 = buf[pos + 1];
        proof {
            assert(s[1] == b1);
        }
        if b1 == 45 {
            let end = match find_line(buf, pos + 1) {
                Ok(e) => e,
                Err(e) => {
                    return Err(e);
                },
            };
            let ghost n = (end - (pos + 1)) as nat;
            let ghost line = s.drop_first().subrange(0, n as int);
            if end - (pos + 1) == 2 && buf[pos + 2] == 49 {
                proof {
                    assert(line[0] == buf@[pos + 1]);
                    assert(line[1] == buf@[pos + 2]);
                    assert(line =~= seq![45u8, 49u8]);
                }
                Ok(end + 2)
            } else {
                proof {
                    if line == seq![45u8, 49u8] {
                        assert(line[1] == buf@[pos + 2]);
                        assert(false);
                    }
                }
                Err(FrameError::Protocol)
            }
        } else {
            let end = match find_line(buf, pos + 1) {
                Ok(e) => e,
                Err(e) => {
                    return Err(e);
                },
            };
            let ghost n = (end - (pos + 1)) as nat;
            let ghost ds = s.drop_first().subrange(0, n as int);
            proof {
                assert(ds =~= buf@.subrange(pos + 1, end as int));
            }
            let len64 = match crate::digits::parse_decimal(buf, pos + 1, end) {
                Some(v) => v,
                None => {
                    return Err(FrameError::Protocol);
                },
            };
            let avail = (buf.len() - (end + 2)) as u64;
            if avail < 2 || len64 > avail - 2 {
                proof {
                    assert(s.len() < n + 3 + digits_val(ds) + 2);
                }
                return Err(FrameError::Incomplete);
            }
            let len = len64 as usize;
            let pend = end + 2 + len;
            proof {
                assert(s.len() >= n + 3 + digits_val(ds) + 2);
                assert(s[(n + 3 + digits_val(ds)) as int] == buf@[pend as int]);
                assert(s[(n + 3 + digits_val(ds) + 1) as int] == buf@[pend + 1]);
            }
            if buf[pend] == CR {
                let lf = buf[pend + 1];
                if lf == LF {
                    Ok(pend + 2)
                } else {
                    Err(FrameError::Protocol)
                }
            } else {
                Err(FrameError::Protocol)
            }
        }
    } else if t == 42 {
        let end = match find_line(buf, pos + 1) {
            Ok(e) => e,
            Err(e) => {
                return Err(e);
            },
        };
        let ghost n = (end - (pos + 1)) as nat;
        let ghost ds = s.drop_first().subrange(0, n as int);
        proof {
            assert(ds =~= buf@.subrange(pos + 1, end as int));
        }
        let cnt64 = match crate::digits::parse_decimal(buf, pos + 1, end) {
            Some(v) => v,
            None => {
                return Err(FrameError::Protocol);
            },
        };
        let start = end + 2;
        let ghost startr = n + 3;
        proof {
            assert(s.skip(startr as int) =~= buf@.skip(start as int));
            assert(startr <= s.len());
        }
        let ghost collected = Seq::<FrameModel>::empty();
        let mut cur = start;
        let mut k: u64 = 0;
        while k < cnt64
            invariant
                pos < cur <= buf.len(),
                start <= cur,
                k <= cnt64,
                pos + 1 <= end,
                end + 2 <= buf.len(),
                start == end + 2,
                s == buf@.skip(pos as int),
                ({
                    match decode_list(buf@.skip(cur as int), (cnt64 - k) as nat) {
                        DecodedList::Complete(fs, used) => decode_list(
                            buf@.skip(start as int),
                            cnt64 as nat,
                        ) matches DecodedList::Complete(fs2, used2) && used2 == ((cur - start)
                            as nat + used) as nat,
                        DecodedList::Partial => decode_list(
                            buf@.skip(start as int),
                            cnt64 as nat,
                        ) is Partial,
                        DecodedList::Malformed => decode_list(
                            buf@.skip(start as int),
                            cnt64 as nat,
                        ) is Malformed,
                    }
                }),
            decreases cnt64 - k,
        {
            let ghost heres = buf@.skip(cur as int);
            match scan_at(buf, cur) {
                Ok(np) => {
                    proof {
                        let f = decode_frame(heres)->Complete_0;
                        assert(heres.skip((np - cur) as int) =~= buf@.skip(np as int));
                        assert((np - cur) as nat <= heres.len());
                        lemma_decode_list_step(heres, (cnt64 - k) as nat, f, (np - cur) as nat);
                    }
                    cur = np;
                    k = k + 1;
                },
                Err(e) => {
                    proof {
                        assert((cnt64 - k) as nat >= 1);
                    }
                    return Err(e);
                },
            }
        }
        proof {
            assert(decode_list(buf@.skip(cur as int), 0nat) == DecodedList::Complete(
                Seq::<FrameModel>::empty(),
                0nat,
            ));
        }
        Ok(cur)
    } else {
        Err(FrameError::Protocol)
    }
}

impl Frame {
    /// Reports whether the buffer starts with one complete, well-formed
    /// frame, and if so how many bytes it occupies, without building the
    /// frame: the connection layer then knows how many bytes a successful
    /// parse will remove.
    pub fn check(buf: &Vec<u8>) -> (r: Result<usize, FrameError>)
        ensures
            ({
                let d = decode_frame(buf@);
                match r {
                    Ok(n) => 0 < n <= buf.len() && (d matches Decoded::Complete(f, m) && m
                        == n as nat),
                    Err(FrameError::Incomplete) => d is Partial,
                    Err(FrameError::Protocol) => d is Malformed,
                }
            }),
    {
        proof {
            assert(buf@.skip(0) =~= buf@);
        }
        scan_at(buf, 0)
    }

    /// Parses the buffer's first frame; `Ok` carries the frame and the count
    /// of bytes it occupies, exactly what [`Frame::check`] reported.
    pub fn parse(buf: &Vec<u8>) -> (r: Result<(Frame, usize), FrameError>)
        ensures
            ({
                let d = decode_frame(buf@);
                match r {
                    Ok(p) => 0 < p.1 <= buf.len() && d == Decoded::Complete(
                        p.0@,
                        p.1 as nat,
                    ) && p.0.wf(),
                    Err(FrameError::Incomplete) => d is Partial,
                    Err(FrameError::Protocol) => d is Malformed,
                }
            }),
    {
        proof {
            assert(buf@.skip(0) =~= buf@);
        }
        parse_at(buf, 0)
    }
}

} // verus!
