//! Protocol messages and their wire encoding.

use vstd::prelude::*;
use vstd::utf8::encode_utf8;
use crate::digits::{digits_of, push_decimal};

verus! {

broadcast use vstd::std_specs::vec::group_vec_axioms;

/// Byte value of `'\r'`.
pub const CR: u8 = 13;

/// Byte value of `'\n'`.
pub const LF: u8 = 10;

/// The mathematical model of one protocol message.
pub enum FrameModel {
    Simple(Seq<char>),
    Error(Seq<char>),
    Integer(int),
    Bulk(Seq<u8>),
    Null,
    Array(Seq<FrameModel>),
}

/// One protocol message: a request or a reply.
#[derive(Debug, PartialEq)]
pub enum Frame {
    /// Short status text, e.g. `OK`; holds no CR or LF.
    Simple(String),
    /// Error message text; holds no CR or LF.
    Error(String),
    /// A signed 64-bit numeric reply.
    Integer(i64),
    /// An arbitrary binary payload; any bytes, including CR and LF.
    Bulk(Vec<u8>),
    /// The absence of a value.
    Null,
    /// Nested frames; commands are arrays of bulk strings.
    Array(Vec<Frame>),
}

impl Frame {
    /// The mathematical value of the frame.
    pub open spec fn model(&self) -> FrameModel
        decreases self, 1int,
    {
        match self {
            Frame::Simple(s) => FrameModel::Simple(s@),
            Frame::Error(s) => FrameModel::Error(s@),
            Frame::Integer(i) => FrameModel::Integer(*i as int),
            Frame::Bulk(b) => FrameModel::Bulk(b@),
            Frame::Null => FrameModel::Null,
            Frame::Array(items) => FrameModel::Array(frames_model(items@)),
        }
    }
}

/// The models of a sequence of frames, elementwise.
pub open spec fn frames_model(s: Seq<Frame>) -> Seq<FrameModel>
    decreases s, 0int,
{
    if s.len() == 0 {
        Seq::empty()
    } else {
        frames_model(s.drop_last()).push(s.last().model())
    }
}

pub proof fn lemma_frames_model(s: Seq<Frame>)
    ensures
        frames_model(s).len() == s.len(),
        forall|i: int| 0 <= i < s.len() ==> frames_model(s)[i] == s[i].model(),
    decreases s.len(),
{
    if s.len() > 0 {
        lemma_frames_model(s.drop_last());
    }
}

impl View for Frame {
    type V = FrameModel;

    open spec fn view(&self) -> FrameModel {
        self.model()
    }
}

pub open spec fn crlf_free(b: Seq<u8>) -> bool {
    forall|i: int| 0 <= i < b.len() ==> #[trigger] b[i] != CR && b[i] != LF
}

/// The frames the codec can emit and read back: text lines free of CR/LF,
/// integers within `i64`, and length fields within `u64`.
pub open spec fn wf_model(m: FrameModel) -> bool
    decreases m,
{
    match m {
        FrameModel::Simple(s) => crlf_free(encode_utf8(s)),
        FrameModel::Error(s) => crlf_free(encode_utf8(s)),
        FrameModel::Integer(i) => i64::MIN <= i <= i64::MAX,
        FrameModel::Bulk(b) => b.len() <= u64::MAX,
        FrameModel::Null => true,
        FrameModel::Array(fs) => fs.len() <= u64::MAX && (forall|i: int|
            0 <= i < fs.len() ==> wf_model(#[trigger] fs[i])),
    }
}

/// The decimal text of a signed integer.
pub open spec fn int_digits(i: int) -> Seq<u8> {
    if i < 0 {
        seq![45u8] + digits_of((-i) as nat)
    } else {
        digits_of(i as nat)
    }
}

/// The wire encoding of one frame.
pub open spec fn frame_bytes(m: FrameModel) -> Seq<u8>
    decreases m, 1int,
{
    match m {
        FrameModel::Simple(s) => seq![43u8] + encode_utf8(s) + seq![CR, LF],
        FrameModel::Error(s) => seq![45u8] + encode_utf8(s) + seq![CR, LF],
        FrameModel::Integer(i) => seq![58u8] + int_digits(i) + seq![CR, LF],
        FrameModel::Bulk(b) => seq![36u8] + digits_of(b.len()) + seq![CR, LF] + b + seq![CR, LF],
        FrameModel::Null => seq![36u8, 45u8, 49u8, CR, LF],
        FrameModel::Array(fs) => seq![42u8] + digits_of(fs.len()) + seq![CR, LF] + list_bytes(fs),
    }
}

/// The concatenated encodings of a sequence of frames.
pub open spec fn list_bytes(fs: Seq<FrameModel>) -> Seq<u8>
    decreases fs, 0int,
{
    if fs.len() == 0 {
        Seq::empty()
    } else {
        frame_bytes(fs[0]) + list_bytes(fs.drop_first())
    }
}

pub proof fn lemma_list_bytes_snoc(fs: Seq<FrameModel>)
    requires
        fs.len() >= 1,
    ensures
        list_bytes(fs) == list_bytes(fs.drop_last()) + frame_bytes(fs.last()),
    decreases fs.len(),
{
    if fs.len() == 1 {
        assert(fs.drop_last() =~= Seq::<FrameModel>::empty());
        assert(fs.drop_first() =~= Seq::<FrameModel>::empty());
        assert(list_bytes(fs) =~= list_bytes(fs.drop_last()) + frame_bytes(fs.last()));
    } else {
        let t = fs.drop_first();
        lemma_list_bytes_snoc(t);
        assert(t.drop_last() =~= fs.drop_last().drop_first());
        assert(t.last() == fs.last());
        assert(fs.drop_last()[0] == fs[0]);
        assert(list_bytes(fs.drop_last()) == frame_bytes(fs[0]) + list_bytes(fs.drop_last().drop_first()));
        assert(list_bytes(fs) =~= list_bytes(fs.drop_last()) + frame_bytes(fs.last()));
    }
}

impl Frame {
    /// A frame the codec can carry; see [`wf_model`].
    pub open spec fn wf(&self) -> bool {
        wf_model(self@)
    }

    /// Encodes the frame per the wire format.
    pub fn encode(&self) -> (out: Vec<u8>)
        ensures
            out@ == frame_bytes(self@),
    {
        let mut out = Vec::new();
        self.encode_into(&mut out);
        proof {
            assert(out@ =~= frame_bytes(self@));
        }
        out
    }

    /// Appends the frame's wire encoding, recursing for array elements.
    #[verifier::loop_isolation(false)]
    pub fn encode_into(&self, out: &mut Vec<u8>)
        ensures
            final(out)@ == old(out)@ + frame_bytes(self@),
        decreases self,
    {
        match self {
            Frame::Simple(s) => {
                out.push(43);
                out.extend_from_slice(s.as_str().as_bytes());
                out.push(CR);
                out.push(LF);
                proof {
                    assert(out@ =~= old(out)@ + frame_bytes(self@));
                }
            },
            Frame::Error(s) => {
                out.push(45);
                out.extend_from_slice(s.as_str().as_bytes());
                out.push(CR);
                out.push(LF);
                proof {
                    assert(out@ =~= old(out)@ + frame_bytes(self@));
                }
            },
            Frame::Integer(i) => {
                out.push(58);
                if *i < 0 {
                    out.push(45);
                    let mag: u64 = if *i == i64::MIN {
                        9223372036854775808u64
                    } else {
                        (-*i) as u64
                    };
                    push_decimal(out, mag);
                } else {
                    push_decimal(out, *i as u64);
                }
                out.push(CR);
                out.push(LF);
                proof {
                    assert(out@ =~= old(out)@ + frame_bytes(self@));
                }
            },
            Frame::Bulk(b) => {
                out.push(36);
                push_decimal(out, b.len() as u64);
                out.push(CR);
                out.push(LF);
                out.extend_from_slice(b.as_slice());
                out.push(CR);
                out.push(LF);
                proof {
                    assert(out@ =~= old(out)@ + frame_bytes(self@));
                }
            },
            Frame::Null => {
                out.push(36);
                out.push(45);
                out.push(49);
                out.push(CR);
                out.push(LF);
                proof {
                    assert(out@ =~= old(out)@ + frame_bytes(self@));
                }
            },
            Frame::Array(items) => {
                out.push(42);
                push_decimal(out, items.len() as u64);
                out.push(CR);
                out.push(LF);
                let ghost fs = frames_model(items@);
                let ghost base = out@;
                proof {
                    lemma_frames_model(items@);
                }
                let mut idx: usize = 0;
                while idx < items.len()
                    invariant
                        idx <= items.len(),
                        fs == frames_model(items@),
                        fs.len() == items@.len(),
                        out@ == base + list_bytes(fs.subrange(0, idx as int)),
                    decreases items.len() - idx,
                {
                    let ghost pre = out@;
                    items[idx].encode_into(out);
                    proof {
                        lemma_frames_model(items@);
                        let p = fs.subrange(0, idx + 1);
                        lemma_list_bytes_snoc(p);
                        assert(p.drop_last() =~= fs.subrange(0, idx as int));
                        assert(p.last() == items@[idx as int].model());
                        assert(out@ =~= base + list_bytes(p));
                    }
                    idx = idx + 1;
                }
                proof {
                    assert(fs.subrange(0, items@.len() as int) =~= fs);
                    assert(out@ =~= old(out)@ + frame_bytes(self@));
                }
            },
        }
    }
}

} // verus!
