//! A codec for a chunked sprite-animation file format: bytes to a document and back.
//!
//! All integers are little-endian. `Aseprite::from_read` returns exactly what `parse_doc` says
//! of its input, and `Aseprite::write` appends exactly `doc_bytes` of the document; `laws` proves
//! the two inverse. The policies:
//! - reserved and ignored byte regions are kept as read and written back verbatim;
//! - the file size in the header is the stream's declared end. A file whose declared end lies past
//!   the input is truncated, which makes every cut before that end detectable as `Truncated`; a
//!   file whose frames do not end exactly there is a length mismatch, as for frames and chunks;
//! - when writing, the header's file size and frame count are derived from the frames, and each
//!   frame's and chunk's length from its contents. Everything else is written as held, so
//!   `write` asks for, and `try_write` checks, a document whose other fields agree with its
//!   contents (chunk counts, name flags, pixel counts, palette ranges): exactly those documents
//!   read back as themselves;
//! - a frame's chunk count is its newer 32-bit field where that is nonzero, else its older one;
//! - a chunk payload must be used up exactly by its decoder, so pixel data sized for another
//!   colour depth is a length mismatch;
//! - chunk types other than palette, layer, cel and colour profile are kept as `Unknown`, byte for byte.
use vstd::prelude::*;
use crate::bytes::{read_u32, u32_at};
use crate::frame::{frame_bytes, parse_frame, Frame, FrameView};
use crate::color::ColorDepth;
use crate::header::{header_bytes, parse_header, Header, HeaderView, HEADER_SIZE};

pub mod bytes;
pub mod color;
pub mod header;
pub mod chunk;
pub mod frame;
pub mod laws;

verus! {

/// Why a byte sequence is not a document.
#[derive(Debug, Clone, Copy, PartialEq, Eq, Structural)]
pub enum DecodeError {
    /// Fewer bytes are there than a field or the declared file size needs.
    Truncated,
    /// The header's or a frame's magic constant is wrong.
    BadMagic,
    /// The colour depth is not 8, 16 or 32.
    InvalidColorDepth,
    /// A frame or chunk holds more or fewer bytes than its contents need.
    LengthMismatch,
}

/// A decoding result with its value seen through its view.
pub open spec fn view_result<T: View>(r: Result<T, DecodeError>) -> Result<T::V, DecodeError> {
    match r {
        Ok(v) => Ok(v@),
        Err(e) => Err(e),
    }
}

/// A decoding result that carries the position where decoding stopped.
pub open spec fn view_result_at<T: View>(r: Result<(T, usize), DecodeError>) -> Result<
    (T::V, int),
    DecodeError,
> {
    match r {
        Ok((v, p)) => Ok((v@, p as int)),
        Err(e) => Err(e),
    }
}

/// A whole file: its header and its frames in playback order.
#[derive(Debug, Clone)]
pub struct Aseprite {
    pub header: Header,
    pub frames: Vec<Frame>,
}

pub ghost struct AsepriteView {
    pub header: HeaderView,
    pub frames: Seq<FrameView>,
}

impl View for Aseprite {
    type V = AsepriteView;

    open spec fn view(&self) -> AsepriteView {
        AsepriteView { header: self.header@, frames: self.frames@.map_values(|f: Frame| f@) }
    }
}

pub open spec fn frames_bytes(fs: Seq<FrameView>) -> Seq<u8>
    decreases fs.len(),
{
    if fs.len() == 0 {
        Seq::empty()
    } else {
        frames_bytes(fs.drop_last()) + frame_bytes(fs.last())
    }
}

/// The bytes of a document. The file size and the frame count in its header are derived from
/// the frames, not taken from the header's own fields.
pub open spec fn doc_bytes(d: AsepriteView) -> Seq<u8> {
    header_bytes(
        d.header,
        (HEADER_SIZE + frames_bytes(d.frames).len()) as u32,
        d.frames.len() as u16,
    ) + frames_bytes(d.frames)
}

impl AsepriteView {
    /// The document can be written so that it decodes back: the header's byte regions have
    /// their sizes, every frame is well formed in the header's depth, and the frame count and
    /// total size fit their fields. The header's own frame count does not matter: it is
    /// recomputed when writing.
    pub open spec fn writable(self) -> bool {
        &&& self.header.wf()
        &&& self.frames.len() <= u16::MAX
        &&& HEADER_SIZE + frames_bytes(self.frames).len() <= u32::MAX
        &&& forall|i: int|
            0 <= i < self.frames.len() ==> (#[trigger] self.frames[i]).wf(self.header.color_depth)
    }

    /// Well formed: writable, with the header's frame count equal to the number of frames.
    pub open spec fn wf(self) -> bool {
        &&& self.writable()
        &&& self.header.frames == self.frames.len()
    }
}

/// Decodes `n` more frames after those in `acc`.
pub open spec fn parse_frames(
    s: Seq<u8>,
    pos: int,
    end: int,
    n: nat,
    d: ColorDepth,
    acc: Seq<FrameView>,
) -> Result<(Seq<FrameView>, int), DecodeError>
    decreases n,
{
    if n == 0 {
        Ok((acc, pos))
    } else {
        match parse_frame(s, pos, end, d) {
            Err(e) => Err(e),
            Ok((f, p)) => parse_frames(s, p, end, (n - 1) as nat, d, acc.push(f)),
        }
    }
}

/// The document that `s` begins with. The file size in the header marks its end: it must not
/// lie past the end of `s`, and the declared frames must fill the file exactly.
pub open spec fn parse_doc(s: Seq<u8>) -> Result<AsepriteView, DecodeError> {
    match parse_header(s) {
        Err(e) => Err(e),
        Ok(h) => {
            let fs = u32_at(s, 0) as int;
            if fs > s.len() {
                Err(DecodeError::Truncated)
            } else if fs < HEADER_SIZE {
                Err(DecodeError::LengthMismatch)
            } else {
                match parse_frames(s, HEADER_SIZE as int, fs, h.frames as nat, h.color_depth, Seq::empty()) {
                    Err(e) => Err(e),
                    Ok((frames, p)) => if p != fs {
                        Err(DecodeError::LengthMismatch)
                    } else {
                        Ok(AsepriteView { header: h, frames })
                    },
                }
            }
        },
    }
}

/// Decodes `n` frames from `pos`, all ending by `end`.
fn decode_frames(s: &[u8], pos: usize, end: usize, n: u16, d: ColorDepth) -> (r: Result<
    (Vec<Frame>, usize),
    DecodeError,
>)
    requires
        pos <= end <= s@.len(),
    ensures
        match (r, parse_frames(s@, pos as int, end as int, n as nat, d, Seq::empty())) {
            (Ok((v, p)), Ok((sv, sp))) => v@.map_values(|f: Frame| f@) == sv && p == sp,
            (Err(e), Err(se)) => e == se,
            _ => false,
        },
{
    let mut acc: Vec<Frame> = Vec::new();
    let mut p = pos;
    let mut i: u16 = 0;
    assert(acc@.map_values(|f: Frame| f@) =~= Seq::<FrameView>::empty());
    while i < n
        invariant
            pos <= p <= end <= s@.len(),
            i <= n,
            parse_frames(s@, pos as int, end as int, n as nat, d, Seq::empty()) == parse_frames(
                s@,
                p as int,
                end as int,
                (n - i) as nat,
                d,
                acc@.map_values(|f: Frame| f@),
            ),
        decreases n - i,
    {
        match Frame::decode(s, p, end, d) {
            Err(e) => {
                return Err(e);
            },
            Ok((f, q)) => {
                let ghost before = acc@.map_values(|f: Frame| f@);
                acc.push(f);
                assert(acc@.map_values(|f: Frame| f@) =~= before.push(f@));
                p = q;
                i = i + 1;
            },
        }
    }
    Ok((acc, p))
}

impl Aseprite {
    pub fn new(header: Header, frames: Vec<Frame>) -> (r: Self)
        ensures
            r.header@ == header@,
            r.frames@ == frames@,
    {
        Self { header, frames }
    }

    /// Decodes the document that `s` begins with.
    pub fn from_read(s: &[u8]) -> (r: Result<Aseprite, DecodeError>)
        ensures
            view_result(r) == parse_doc(s@),
    {
        let header = match Header::decode(s) {
            Err(e) => {
                return Err(e);
            },
            Ok(h) => h,
        };
        let fs = read_u32(s, 0) as usize;
        if fs > s.len() {
            return Err(DecodeError::Truncated);
        }
        if fs < HEADER_SIZE {
            return Err(DecodeError::LengthMismatch);
        }
        match decode_frames(s, HEADER_SIZE, fs, header.frames, header.color_depth) {
            Err(e) => Err(e),
            Ok((frames, p)) => {
                if p != fs {
                    return Err(DecodeError::LengthMismatch);
                }
                let r = Aseprite { header, frames };
                Ok(r)
            },
        }
    }

    /// Appends the document where it is writable, and says whether it did; where it is not,
    /// nothing is written. Each frame is encoded once.
    pub fn try_write(&self, out: &mut Vec<u8>) -> (ok: bool)
        ensures
            ok == self@.writable(),
            ok ==> final(out)@ == old(out)@ + doc_bytes(self@),
            !ok ==> final(out)@ == old(out)@,
    {
        if self.header.ignored.len() != 3 || self.header.padding.len() != 84 || self.frames.len()
            > 0xFFFF {
            return false;
        }
        let d = self.header.color_depth;
        let ghost vs = self@.frames;
        let mut body: Vec<u8> = Vec::new();
        let mut i: usize = 0;
        assert(vs.take(0) =~= Seq::<FrameView>::empty());
        while i < self.frames.len()
            invariant
                i <= self.frames@.len(),
                d == self@.header.color_depth,
                vs == self.frames@.map_values(|f: Frame| f@),
                forall|j: int| 0 <= j < i ==> (#[trigger] vs[j]).wf(d),
                body@ == frames_bytes(vs.take(i as int)),
            decreases self.frames@.len() - i,
        {
            assert(vs[i as int] == self.frames@[i as int]@);
            if !self.frames[i].try_write(&mut body, d) {
                return false;
            }
            assert(vs.take(i + 1).drop_last() =~= vs.take(i as int));
            i = i + 1;
        }
        assert(vs.take(self.frames@.len() as int) =~= vs);
        if body.len() > (u32::MAX as usize) - HEADER_SIZE {
            return false;
        }
        let total = HEADER_SIZE + body.len();
        self.header.write(out, total as u32, self.frames.len() as u16);
        bytes::push_bytes(out, body.as_slice());
        assert(final(out)@ =~= old(out)@ + doc_bytes(self@));
        true
    }

    /// Appends the document. The frames are written to a scratch buffer first, so that the
    /// header can carry the file size and the frame count that they give.
    pub fn write(&self, out: &mut Vec<u8>)
        requires
            self@.writable(),
        ensures
            final(out)@ == old(out)@ + doc_bytes(self@),
    {
        let ghost vs = self@.frames;
        proof {
            reveal(FrameView::wf);
        }
        let mut body: Vec<u8> = Vec::new();
        let mut i: usize = 0;
        assert(vs.take(0) =~= Seq::<FrameView>::empty());
        while i < self.frames.len()
            invariant
                i <= self.frames@.len(),
                vs == self.frames@.map_values(|f: Frame| f@),
                forall|j: int| 0 <= j < vs.len() ==> (#[trigger] vs[j]).wf(self@.header.color_depth),
                body@ == frames_bytes(vs.take(i as int)),
            decreases self.frames@.len() - i,
        {
            assert(vs[i as int] == self.frames@[i as int]@);
            assert(vs[i as int].wf(self@.header.color_depth));
            proof {
                reveal(FrameView::wf);
            }
            self.frames[i].write(&mut body);
            assert(vs.take(i + 1).drop_last() =~= vs.take(i as int));
            i = i + 1;
        }
        assert(vs.take(self.frames@.len() as int) =~= vs);
        let total = HEADER_SIZE + body.len();
        self.header.write(out, total as u32, self.frames.len() as u16);
        bytes::push_bytes(out, body.as_slice());
        assert(final(out)@ =~= old(out)@ + doc_bytes(self@));
    }
}

} // verus!
