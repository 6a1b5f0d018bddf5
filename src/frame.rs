//! Frames: a duration and a length-delimited run of chunks.
use vstd::prelude::*;
use crate::bytes::{
    le16, le32, lemma_join, lemma_u16_read, lemma_u16_write, lemma_u32_read, lemma_u32_write,
    lemma_window, push_bytes, push_u16, push_u32, read_u16, read_u32, u16_at, u32_at,
};
use crate::chunk::{
    chunk_bytes, lemma_chunk_complete, lemma_chunk_sound, parse_chunk, payload_bytes, Chunk, ChunkView,
    CHUNK_HEADER_SIZE,
};
use crate::color::ColorDepth;
use crate::{view_result_at, DecodeError};

verus! {

/// Size of the fixed fields that open every frame.
pub const FRAME_HEADER_SIZE: usize = 16;

/// The constant that marks a frame.
pub const FRAME_MAGIC: u16 = 0xF1FA;

/// One frame. Its byte length is derived when encoding, never held.
/// Both chunk-count fields and the reserved word are kept as read.
#[derive(Debug, Clone)]
pub struct Frame {
    pub duration: u16,
    pub old_chunk_count: u16,
    pub new_chunk_count: u32,
    pub reserved: u16,
    pub chunks: Vec<Chunk>,
}

pub ghost struct FrameView {
    pub duration: u16,
    pub old_chunk_count: u16,
    pub new_chunk_count: u32,
    pub reserved: u16,
    pub chunks: Seq<ChunkView>,
}

impl View for Frame {
    type V = FrameView;

    open spec fn view(&self) -> FrameView {
        FrameView {
            duration: self.duration,
            old_chunk_count: self.old_chunk_count,
            new_chunk_count: self.new_chunk_count,
            reserved: self.reserved,
            chunks: self.chunks@.map_values(|c: Chunk| c@),
        }
    }
}

/// The number of chunks that a frame declares: the newer field where it is nonzero.
pub open spec fn chunk_count(old_count: u16, new_count: u32) -> nat {
    if new_count != 0 {
        new_count as nat
    } else {
        old_count as nat
    }
}

pub open spec fn chunks_bytes(cs: Seq<ChunkView>) -> Seq<u8>
    decreases cs.len(),
{
    if cs.len() == 0 {
        Seq::empty()
    } else {
        chunks_bytes(cs.drop_last()) + chunk_bytes(cs.last())
    }
}

/// The bytes of a frame: its total length, its fixed fields, then its chunks.
pub open spec fn frame_bytes(f: FrameView) -> Seq<u8> {
    le32((FRAME_HEADER_SIZE + chunks_bytes(f.chunks).len()) as u32) + le16(FRAME_MAGIC) + le16(
        f.old_chunk_count,
    ) + le16(f.duration) + le16(f.reserved) + le32(f.new_chunk_count) + chunks_bytes(f.chunks)
}

/// Every chunk's encoding fits its length field.
pub open spec fn chunks_encodable(cs: Seq<ChunkView>) -> bool {
    forall|i: int| 0 <= i < cs.len() ==> CHUNK_HEADER_SIZE + payload_bytes(#[trigger] cs[i]).len() <= u32::MAX
}

impl FrameView {
    /// The frame and every chunk in it fit their length fields.
    pub open spec fn encodable(self) -> bool {
        &&& chunks_encodable(self.chunks)
        &&& FRAME_HEADER_SIZE + chunks_bytes(self.chunks).len() <= u32::MAX
    }

    /// Well formed in a sprite of depth `d`.
    #[verifier::opaque]
    pub open spec fn wf(self, d: ColorDepth) -> bool {
        &&& self.encodable()
        &&& chunk_count(self.old_chunk_count, self.new_chunk_count) == self.chunks.len()
        &&& forall|i: int| 0 <= i < self.chunks.len() ==> (#[trigger] self.chunks[i]).wf(d)
    }
}

/// Decodes `n` more chunks after those in `acc`.
pub open spec fn parse_chunks(
    s: Seq<u8>,
    pos: int,
    end: int,
    n: nat,
    d: ColorDepth,
    acc: Seq<ChunkView>,
) -> Result<(Seq<ChunkView>, int), DecodeError>
    decreases n,
{
    if n == 0 {
        Ok((acc, pos))
    } else {
        match parse_chunk(s, pos, end, d) {
            Err(e) => Err(e),
            Ok((c, p)) => parse_chunks(s, p, end, (n - 1) as nat, d, acc.push(c)),
        }
    }
}

/// The frame at `pos`, which must end by `end`, in a sprite of depth `d`.
/// Its declared chunks must fill it exactly.
pub open spec fn parse_frame(s: Seq<u8>, pos: int, end: int, d: ColorDepth) -> Result<
    (FrameView, int),
    DecodeError,
> {
    if pos + 16 > end {
        Err(DecodeError::LengthMismatch)
    } else if u16_at(s, pos + 4) != FRAME_MAGIC {
        Err(DecodeError::BadMagic)
    } else {
        let len = u32_at(s, pos) as int;
        let fe = pos + len;
        let old_count = u16_at(s, pos + 6);
        let new_count = u32_at(s, pos + 12);
        if len < 16 || fe > end {
            Err(DecodeError::LengthMismatch)
        } else {
            match parse_chunks(s, pos + 16, fe, chunk_count(old_count, new_count), d, Seq::empty()) {
                Err(e) => Err(e),
                Ok((cs, p)) => if p != fe {
                    Err(DecodeError::LengthMismatch)
                } else {
                    Ok(
                        (
                            FrameView {
                                duration: u16_at(s, pos + 8),
                                old_chunk_count: old_count,
                                new_chunk_count: new_count,
                                reserved: u16_at(s, pos + 10),
                                chunks: cs,
                            },
                            fe,
                        ),
                    )
                },
            }
        }
    }
}

/// Decodes `n` chunks from `pos`, all ending by `end`.
pub fn decode_chunks(s: &[u8], pos: usize, end: usize, n: u32, d: ColorDepth) -> (r: Result<
    (Vec<Chunk>, usize),
    DecodeError,
>)
    requires
        pos <= end <= s@.len(),
    ensures
        match (r, parse_chunks(s@, pos as int, end as int, n as nat, d, Seq::empty())) {
            (Ok((v, p)), Ok((sv, sp))) => v@.map_values(|c: Chunk| c@) == sv && p == sp,
            (Err(e), Err(se)) => e == se,
            _ => false,
        },
{
    let mut acc: Vec<Chunk> = Vec::new();
    let mut p = pos;
    let mut i: u32 = 0;
    assert(acc@.map_values(|c: Chunk| c@) =~= Seq::<ChunkView>::empty());
    while i < n
        invariant
            pos <= p <= end <= s@.len(),
            i <= n,
            parse_chunks(s@, pos as int, end as int, n as nat, d, Seq::empty()) == parse_chunks(
                s@,
                p as int,
                end as int,
                (n - i) as nat,
                d,
                acc@.map_values(|c: Chunk| c@),
            ),
        decreases n - i,
    {
        match Chunk::decode(s, p, end, d) {
            Err(e) => {
                return Err(e);
            },
            Ok((c, q)) => {
                let ghost before = acc@.map_values(|c: Chunk| c@);
                acc.push(c);
                assert(acc@.map_values(|c: Chunk| c@) =~= before.push(c@));
                p = q;
                i = i + 1;
            },
        }
    }
    Ok((acc, p))
}

/// Appends each chunk in turn.
pub fn write_chunks(cs: &Vec<Chunk>, out: &mut Vec<u8>)
    requires
        chunks_encodable(cs@.map_values(|c: Chunk| c@)),
    ensures
        final(out)@ == old(out)@ + chunks_bytes(cs@.map_values(|c: Chunk| c@)),
{
    let ghost start = out@;
    let ghost vs = cs@.map_values(|c: Chunk| c@);
    let mut i: usize = 0;
    assert(vs.take(0) =~= Seq::<ChunkView>::empty());
    while i < cs.len()
        invariant
            i <= cs@.len(),
            vs == cs@.map_values(|c: Chunk| c@),
            chunks_encodable(vs),
            out@ == start + chunks_bytes(vs.take(i as int)),
        decreases cs@.len() - i,
    {
        assert(vs[i as int] == cs@[i as int]@);
        cs[i].write(out);
        assert(vs.take(i + 1).drop_last() =~= vs.take(i as int));
        assert(out@ =~= start + chunks_bytes(vs.take(i + 1)));
        i = i + 1;
    }
    assert(vs.take(cs@.len() as int) =~= vs);
}

impl Frame {
    /// A frame of the given chunks, with both count fields set from their number.
    pub fn new(duration: u16, chunks: Vec<Chunk>) -> (f: Frame)
        requires
            chunks@.len() <= u32::MAX,
        ensures
            f.duration == duration,
            f.chunks@ == chunks@,
            f.new_chunk_count == chunks@.len(),
            f.old_chunk_count == if chunks@.len() < 0xFFFF {
                chunks@.len()
            } else {
                0xFFFF
            },
            f.reserved == 0,
            chunk_count(f.old_chunk_count, f.new_chunk_count) == chunks@.len(),
    {
        let n = chunks.len();
        let old_chunk_count: u16 = if n < 0xFFFF {
            n as u16
        } else {
            0xFFFF
        };
        Frame { duration, old_chunk_count, new_chunk_count: n as u32, reserved: 0, chunks }
    }

    /// Decodes the frame at `pos`, which must end by `end`, in a sprite of depth `d`.
    pub fn decode(s: &[u8], pos: usize, end: usize, d: ColorDepth) -> (r: Result<(Frame, usize), DecodeError>)
        requires
            pos <= end <= s@.len(),
        ensures
            view_result_at(r) == parse_frame(s@, pos as int, end as int, d),
    {
        if end - pos < 16 {
            return Err(DecodeError::LengthMismatch);
        }
        if read_u16(s, pos + 4) != FRAME_MAGIC {
            return Err(DecodeError::BadMagic);
        }
        let len = read_u32(s, pos) as usize;
        let old_chunk_count = read_u16(s, pos + 6);
        let new_chunk_count = read_u32(s, pos + 12);
        if len < 16 || len > end - pos {
            return Err(DecodeError::LengthMismatch);
        }
        let fe = pos + len;
        let n: u32 = if new_chunk_count != 0 {
            new_chunk_count
        } else {
            old_chunk_count as u32
        };
        match decode_chunks(s, pos + 16, fe, n, d) {
            Err(e) => Err(e),
            Ok((chunks, p)) => {
                if p != fe {
                    return Err(DecodeError::LengthMismatch);
                }
                let f = Frame {
                    duration: read_u16(s, pos + 8),
                    old_chunk_count,
                    new_chunk_count,
                    reserved: read_u16(s, pos + 10),
                    chunks,
                };
                Ok((f, fe))
            },
        }
    }

    /// Appends the frame where it is well formed in a sprite of depth `d` (its declared chunk
    /// count matches its chunks, each chunk is well formed, every length fits its field), and
    /// says whether it did; where it is not, nothing is written. Each chunk is encoded once.
    pub fn try_write(&self, out: &mut Vec<u8>, d: ColorDepth) -> (ok: bool)
        ensures
            ok == self@.wf(d),
            ok ==> final(out)@ == old(out)@ + frame_bytes(self@),
            !ok ==> final(out)@ == old(out)@,
    {
        reveal(FrameView::wf);
        let n: u64 = if self.new_chunk_count != 0 {
            self.new_chunk_count as u64
        } else {
            self.old_chunk_count as u64
        };
        if n != self.chunks.len() as u64 {
            return false;
        }
        let ghost vs = self@.chunks;
        let mut body: Vec<u8> = Vec::new();
        let mut i: usize = 0;
        assert(vs.take(0) =~= Seq::<ChunkView>::empty());
        while i < self.chunks.len()
            invariant
                i <= self.chunks@.len(),
                vs == self.chunks@.map_values(|c: Chunk| c@),
                forall|j: int| 0 <= j < i ==> (#[trigger] vs[j]).wf(d),
                body@ == chunks_bytes(vs.take(i as int)),
            decreases self.chunks@.len() - i,
        {
            assert(vs[i as int] == self.chunks@[i as int]@);
            if !self.chunks[i].try_write(&mut body, d) {
                proof {
                    reveal(FrameView::wf);
                    assert(!vs[i as int].wf(d));
                }
                return false;
            }
            assert(vs.take(i + 1).drop_last() =~= vs.take(i as int));
            i = i + 1;
        }
        assert(vs.take(self.chunks@.len() as int) =~= vs);
        reveal(FrameView::wf);
        if body.len() > (u32::MAX - 16) as usize {
            return false;
        }
        self.write_with_body(&body, out);
        true
    }

    /// Appends the frame's fixed fields and then `body`, the encoding of its chunks.
    fn write_with_body(&self, body: &Vec<u8>, out: &mut Vec<u8>)
        requires
            body@ == chunks_bytes(self@.chunks),
            FRAME_HEADER_SIZE + body@.len() <= u32::MAX,
        ensures
            final(out)@ == old(out)@ + frame_bytes(self@),
    {
        let total = FRAME_HEADER_SIZE + body.len();
        push_u32(out, total as u32);
        push_u16(out, FRAME_MAGIC);
        push_u16(out, self.old_chunk_count);
        push_u16(out, self.duration);
        push_u16(out, self.reserved);
        push_u32(out, self.new_chunk_count);
        push_bytes(out, body.as_slice());
        assert(final(out)@ =~= old(out)@ + frame_bytes(self@));
    }

    /// Appends the frame: its chunks go to a scratch buffer first, to learn its length.
    pub fn write(&self, out: &mut Vec<u8>)
        requires
            self@.encodable(),
            chunk_count(self@.old_chunk_count, self@.new_chunk_count) == self@.chunks.len(),
        ensures
            final(out)@ == old(out)@ + frame_bytes(self@),
    {
        let mut body: Vec<u8> = Vec::new();
        write_chunks(&self.chunks, &mut body);
        self.write_with_body(&body, out);
    }
}

// ---- each decoder and its encoding are inverse ----

pub proof fn lemma_chunks_front(es: Seq<ChunkView>)
    requires
        es.len() > 0,
    ensures
        chunks_bytes(es) == chunk_bytes(es[0]) + chunks_bytes(es.drop_first()),
    decreases es.len(),
{
    if es.len() == 1 {
        assert(es.drop_last() =~= Seq::<ChunkView>::empty());
        assert(es.drop_first() =~= Seq::<ChunkView>::empty());
        assert(chunks_bytes(es) =~= chunk_bytes(es[0]) + chunks_bytes(es.drop_first()));
    } else {
        lemma_chunks_front(es.drop_last());
        assert(es.drop_last().drop_first() =~= es.drop_first().drop_last());
        assert(es.drop_first().last() == es.last());
        assert(es.drop_last()[0] == es[0]);
        assert(chunks_bytes(es) =~= chunk_bytes(es[0]) + chunks_bytes(es.drop_first()));
    }
}

#[verifier::rlimit(100)]
pub proof fn lemma_chunks_sound(s: Seq<u8>, pos: int, end: int, n: nat, d: ColorDepth, acc: Seq<ChunkView>)
    requires
        0 <= pos <= end <= s.len(),
        parse_chunks(s, pos, end, n, d, acc).is_ok(),
    ensures
        ({
            let (es, p) = parse_chunks(s, pos, end, n, d, acc)->Ok_0;
            &&& pos <= p <= end
            &&& es.len() == acc.len() + n
            &&& es.subrange(0, acc.len() as int) == acc
            &&& forall|i: int| acc.len() <= i < es.len() ==> (#[trigger] es[i]).wf(d)
            &&& chunks_bytes(es) == chunks_bytes(acc) + s.subrange(pos, p)
        }),
    decreases n,
{
    if n == 0 {
        assert(acc.subrange(0, acc.len() as int) =~= acc);
        assert(chunks_bytes(acc) + s.subrange(pos, pos) =~= chunks_bytes(acc));
    } else {
        let (e, next) = parse_chunk(s, pos, end, d)->Ok_0;
        lemma_chunk_sound(s, pos, end, d);
        let acc1 = acc.push(e);
        lemma_chunks_sound(s, next, end, (n - 1) as nat, d, acc1);
        let (es, p) = parse_chunks(s, pos, end, n, d, acc)->Ok_0;
        assert(acc1.drop_last() =~= acc);
        assert(chunks_bytes(acc1) == chunks_bytes(acc) + chunk_bytes(e));
        lemma_join(s, pos, next, p);
        assert(chunks_bytes(es) =~= chunks_bytes(acc) + s.subrange(pos, p));
        assert(es.subrange(0, acc1.len() as int).subrange(0, acc.len() as int) =~= es.subrange(0, acc.len() as int));
        assert(acc1.subrange(0, acc.len() as int) =~= acc);
        assert(es[acc.len() as int] == es.subrange(0, acc1.len() as int)[acc.len() as int]);
    }
}

/// Decoding over bytes that begin with the encodings of `es` decodes `es` first.
pub proof fn lemma_chunks_complete(
    s: Seq<u8>,
    pos: int,
    end: int,
    n: nat,
    d: ColorDepth,
    acc: Seq<ChunkView>,
    es: Seq<ChunkView>,
)
    requires
        forall|i: int| 0 <= i < es.len() ==> (#[trigger] es[i]).wf(d),
        es.len() <= n,
        0 <= pos,
        pos + chunks_bytes(es).len() <= end <= s.len(),
        s.subrange(pos, pos + chunks_bytes(es).len()) == chunks_bytes(es),
    ensures
        parse_chunks(s, pos, end, n, d, acc) == parse_chunks(
            s,
            pos + chunks_bytes(es).len(),
            end,
            (n - es.len()) as nat,
            d,
            acc + es,
        ),
    decreases es.len(),
{
    if es.len() == 0 {
        assert(acc + es =~= acc);
    } else {
        let e = es[0];
        let rest = es.drop_first();
        lemma_chunks_front(es);
        let b = chunks_bytes(es);
        let l0 = chunk_bytes(e).len();
        assert(b.subrange(0, l0 as int) =~= chunk_bytes(e));
        lemma_window(s, pos, b, 0, l0 as int);
        lemma_chunk_complete(s, pos, end, d, e);
        assert(b.subrange(l0 as int, b.len() as int) =~= chunks_bytes(rest));
        lemma_window(s, pos, b, l0 as int, (b.len() - l0) as int);
        assert forall|i: int| 0 <= i < rest.len() implies (#[trigger] rest[i]).wf(d) by {
            assert(rest[i] == es[i + 1]);
        }
        lemma_chunks_complete(s, pos + l0, end, (n - 1) as nat, d, acc.push(e), rest);
        assert(acc.push(e) + rest =~= acc + es);
    }
}

pub proof fn lemma_frame_sound(s: Seq<u8>, pos: int, end: int, d: ColorDepth)
    requires
        0 <= pos <= end <= s.len(),
        parse_frame(s, pos, end, d).is_ok(),
    ensures
        ({
            let (f, p) = parse_frame(s, pos, end, d)->Ok_0;
            &&& pos + FRAME_HEADER_SIZE <= p <= end
            &&& f.wf(d)
            &&& frame_bytes(f) == s.subrange(pos, p)
        }),
{
    reveal(FrameView::wf);
    let (f, p) = parse_frame(s, pos, end, d)->Ok_0;
    let n = chunk_count(f.old_chunk_count, f.new_chunk_count);
    lemma_chunks_sound(s, pos + 16, p, n, d, Seq::empty());
    assert(chunks_bytes(Seq::<ChunkView>::empty()) =~= Seq::<u8>::empty());
    assert(chunks_bytes(f.chunks) == s.subrange(pos + 16, p));
    assert forall|i: int| 0 <= i < f.chunks.len() implies CHUNK_HEADER_SIZE + payload_bytes(#[trigger] f.chunks[i]).len() <= u32::MAX by {
        assert(f.chunks[i].wf(d));
    }
    lemma_u32_write(s, pos);
    lemma_u16_write(s, pos + 4);
    lemma_u16_write(s, pos + 6);
    lemma_u16_write(s, pos + 8);
    lemma_u16_write(s, pos + 10);
    lemma_u32_write(s, pos + 12);
    assert(frame_bytes(f) =~= s.subrange(pos, p));
}

pub proof fn lemma_frame_complete(s: Seq<u8>, pos: int, end: int, d: ColorDepth, f: FrameView)
    requires
        f.wf(d),
        0 <= pos,
        pos + frame_bytes(f).len() <= end <= s.len(),
        s.subrange(pos, pos + frame_bytes(f).len()) == frame_bytes(f),
    ensures
        parse_frame(s, pos, end, d) == Ok::<(FrameView, int), DecodeError>((f, pos + frame_bytes(f).len())),
{
    reveal(FrameView::wf);
    let b = frame_bytes(f);
    let cb = chunks_bytes(f.chunks);
    let len = (FRAME_HEADER_SIZE + cb.len()) as u32;
    assert(b.subrange(0, 4) =~= le32(len));
    assert(b.subrange(4, 6) =~= le16(FRAME_MAGIC));
    assert(b.subrange(6, 8) =~= le16(f.old_chunk_count));
    assert(b.subrange(8, 10) =~= le16(f.duration));
    assert(b.subrange(10, 12) =~= le16(f.reserved));
    assert(b.subrange(12, 16) =~= le32(f.new_chunk_count));
    assert(b.subrange(16, b.len() as int) =~= cb);
    lemma_window(s, pos, b, 0, 4);
    lemma_window(s, pos, b, 4, 2);
    lemma_window(s, pos, b, 6, 2);
    lemma_window(s, pos, b, 8, 2);
    lemma_window(s, pos, b, 10, 2);
    lemma_window(s, pos, b, 12, 4);
    lemma_window(s, pos, b, 16, cb.len() as int);
    lemma_u32_read(s, pos, len);
    lemma_u16_read(s, pos + 4, FRAME_MAGIC);
    lemma_u16_read(s, pos + 6, f.old_chunk_count);
    lemma_u16_read(s, pos + 8, f.duration);
    lemma_u16_read(s, pos + 10, f.reserved);
    lemma_u32_read(s, pos + 12, f.new_chunk_count);
    lemma_chunks_complete(s, pos + 16, pos + b.len(), f.chunks.len(), d, Seq::empty(), f.chunks);
    assert(Seq::<ChunkView>::empty() + f.chunks =~= f.chunks);
    let (f2, _) = parse_frame(s, pos, end, d)->Ok_0;
    assert(f2 == f);
}

/// The encoding of chunks splits at any chunk boundary.
pub proof fn lemma_chunks_split(fs: Seq<ChunkView>, k: int)
    requires
        0 <= k <= fs.len(),
    ensures
        chunks_bytes(fs) == chunks_bytes(fs.take(k)) + chunks_bytes(fs.skip(k)),
    decreases fs.len(),
{
    if k == fs.len() {
        assert(fs.take(k) =~= fs);
        assert(fs.skip(k) =~= Seq::<ChunkView>::empty());
        assert(chunks_bytes(fs) =~= chunks_bytes(fs.take(k)) + chunks_bytes(fs.skip(k)));
    } else {
        let dl = fs.drop_last();
        lemma_chunks_split(dl, k);
        assert(dl.take(k) =~= fs.take(k));
        assert(fs.skip(k).drop_last() =~= dl.skip(k));
        assert(fs.skip(k).last() == fs.last());
        assert(chunks_bytes(fs) =~= chunks_bytes(fs.take(k)) + chunks_bytes(fs.skip(k)));
    }
}

/// Where chunk `j` of a frame lies in bytes that begin, at `pos`, with the frame's encoding;
/// and where decoding that chunk fails, decoding the frame fails the same way.
pub proof fn lemma_frame_fails_at_chunk(s: Seq<u8>, pos: int, end: int, d: ColorDepth, f: FrameView, j: int)
    requires
        f.encodable(),
        chunk_count(f.old_chunk_count, f.new_chunk_count) == f.chunks.len(),
        0 <= j < f.chunks.len(),
        forall|k: int| 0 <= k < j ==> (#[trigger] f.chunks[k]).wf(d),
        0 <= pos,
        pos + frame_bytes(f).len() <= end <= s.len(),
        s.subrange(pos, pos + frame_bytes(f).len()) == frame_bytes(f),
    ensures
        ({
            let cpos = pos + FRAME_HEADER_SIZE + chunks_bytes(f.chunks.take(j)).len();
            let fe = pos + frame_bytes(f).len();
            &&& cpos + chunk_bytes(f.chunks[j]).len() <= fe
            &&& s.subrange(cpos, cpos + chunk_bytes(f.chunks[j]).len()) == chunk_bytes(f.chunks[j])
            &&& parse_chunk(s, cpos, fe, d) is Err ==> parse_frame(s, pos, end, d) == Err::<
                (FrameView, int),
                DecodeError,
            >(parse_chunk(s, cpos, fe, d)->Err_0)
        }),
{
    let b = frame_bytes(f);
    let cb = chunks_bytes(f.chunks);
    let len = (FRAME_HEADER_SIZE + cb.len()) as u32;
    let pre = f.chunks.take(j);
    let post = f.chunks.skip(j);
    let l = chunks_bytes(pre).len() as int;
    let fe = pos + b.len();
    assert(b.subrange(0, 4) =~= le32(len));
    assert(b.subrange(4, 6) =~= le16(FRAME_MAGIC));
    assert(b.subrange(6, 8) =~= le16(f.old_chunk_count));
    assert(b.subrange(12, 16) =~= le32(f.new_chunk_count));
    assert(b.subrange(16, b.len() as int) =~= cb);
    lemma_window(s, pos, b, 0, 4);
    lemma_window(s, pos, b, 4, 2);
    lemma_window(s, pos, b, 6, 2);
    lemma_window(s, pos, b, 12, 4);
    lemma_window(s, pos, b, 16, cb.len() as int);
    lemma_u32_read(s, pos, len);
    lemma_u16_read(s, pos + 4, FRAME_MAGIC);
    lemma_u16_read(s, pos + 6, f.old_chunk_count);
    lemma_u32_read(s, pos + 12, f.new_chunk_count);
    lemma_chunks_split(f.chunks, j);
    lemma_chunks_front(post);
    assert(post[0] == f.chunks[j]);
    let m = chunk_bytes(f.chunks[j]);
    assert(cb.subrange(0, l) =~= chunks_bytes(pre));
    assert(cb.subrange(l, l + m.len()) =~= m);
    lemma_window(s, pos + 16, cb, 0, l);
    lemma_window(s, pos + 16, cb, l, m.len() as int);
    assert forall|k: int| 0 <= k < pre.len() implies (#[trigger] pre[k]).wf(d) by {
        assert(pre[k] == f.chunks[k]);
    }
    lemma_chunks_complete(s, pos + 16, fe, f.chunks.len(), d, Seq::empty(), pre);
}

} // verus!
