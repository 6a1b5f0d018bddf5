//! What the codec guarantees: decoding and encoding are inverse, and malformed input is refused.
use vstd::prelude::*;
use crate::bytes::{lemma_join, lemma_u16_read, lemma_u32_read, lemma_window, u16_at, u32_at};
use crate::color::ColorDepth;
use crate::chunk::{law_indexed_cel_with_rgba_pixels, payload_bytes, ChunkView, CHUNK_HEADER_SIZE};
use crate::frame::{
    chunk_count, frame_bytes, lemma_frame_complete, lemma_frame_fails_at_chunk, lemma_frame_sound,
    parse_frame, FrameView, FRAME_MAGIC,
};
use crate::header::{
    header_bytes, lemma_header_encode_parsed, lemma_header_parse_encoded, lemma_header_prefix,
    parse_header, HeaderView, HEADER_MAGIC, HEADER_SIZE,
};
use crate::{doc_bytes, frames_bytes, parse_doc, parse_frames, AsepriteView, DecodeError};

verus! {

pub proof fn lemma_frames_front(es: Seq<FrameView>)
    requires
        es.len() > 0,
    ensures
        frames_bytes(es) == frame_bytes(es[0]) + frames_bytes(es.drop_first()),
    decreases es.len(),
{
    if es.len() == 1 {
        assert(es.drop_last() =~= Seq::<FrameView>::empty());
        assert(es.drop_first() =~= Seq::<FrameView>::empty());
        assert(frames_bytes(es) =~= frame_bytes(es[0]) + frames_bytes(es.drop_first()));
    } else {
        lemma_frames_front(es.drop_last());
        assert(es.drop_last().drop_first() =~= es.drop_first().drop_last());
        assert(es.drop_first().last() == es.last());
        assert(es.drop_last()[0] == es[0]);
        assert(frames_bytes(es) =~= frame_bytes(es[0]) + frames_bytes(es.drop_first()));
    }
}

#[verifier::rlimit(100)]
pub proof fn lemma_frames_sound(s: Seq<u8>, pos: int, end: int, n: nat, d: ColorDepth, acc: Seq<FrameView>)
    requires
        0 <= pos <= end <= s.len(),
        parse_frames(s, pos, end, n, d, acc).is_ok(),
    ensures
        ({
            let (es, p) = parse_frames(s, pos, end, n, d, acc)->Ok_0;
            &&& pos <= p <= end
            &&& es.len() == acc.len() + n
            &&& es.subrange(0, acc.len() as int) == acc
            &&& forall|i: int| acc.len() <= i < es.len() ==> (#[trigger] es[i]).wf(d)
            &&& frames_bytes(es) == frames_bytes(acc) + s.subrange(pos, p)
        }),
    decreases n,
{
    if n == 0 {
        assert(acc.subrange(0, acc.len() as int) =~= acc);
        assert(frames_bytes(acc) + s.subrange(pos, pos) =~= frames_bytes(acc));
    } else {
        let (e, next) = parse_frame(s, pos, end, d)->Ok_0;
        lemma_frame_sound(s, pos, end, d);
        let acc1 = acc.push(e);
        lemma_frames_sound(s, next, end, (n - 1) as nat, d, acc1);
        let (es, p) = parse_frames(s, pos, end, n, d, acc)->Ok_0;
        assert(acc1.drop_last() =~= acc);
        assert(frames_bytes(acc1) == frames_bytes(acc) + frame_bytes(e));
        lemma_join(s, pos, next, p);
        assert(frames_bytes(es) =~= frames_bytes(acc) + s.subrange(pos, p));
        assert(es.subrange(0, acc1.len() as int).subrange(0, acc.len() as int) =~= es.subrange(0, acc.len() as int));
        assert(acc1.subrange(0, acc.len() as int) =~= acc);
        assert(es[acc.len() as int] == es.subrange(0, acc1.len() as int)[acc.len() as int]);
    }
}

/// Decoding over bytes that begin with the encodings of `es` decodes `es` first.
pub proof fn lemma_frames_complete(
    s: Seq<u8>,
    pos: int,
    end: int,
    n: nat,
    d: ColorDepth,
    acc: Seq<FrameView>,
    es: Seq<FrameView>,
)
    requires
        forall|i: int| 0 <= i < es.len() ==> (#[trigger] es[i]).wf(d),
        es.len() <= n,
        0 <= pos,
        pos + frames_bytes(es).len() <= end <= s.len(),
        s.subrange(pos, pos + frames_bytes(es).len()) == frames_bytes(es),
    ensures
        parse_frames(s, pos, end, n, d, acc) == parse_frames(
            s,
            pos + frames_bytes(es).len(),
            end,
            (n - es.len()) as nat,
            d,
            acc + es,
        ),
    decreases es.len(),
{
    if es.len() == 0 {
        assert(acc + es =~= acc);
    } else {
        let e = es[0];
        let rest = es.drop_first();
        lemma_frames_front(es);
        let b = frames_bytes(es);
        let l0 = frame_bytes(e).len();
        assert(b.subrange(0, l0 as int) =~= frame_bytes(e));
        lemma_window(s, pos, b, 0, l0 as int);
        lemma_frame_complete(s, pos, end, d, e);
        assert(b.subrange(l0 as int, b.len() as int) =~= frames_bytes(rest));
        lemma_window(s, pos, b, l0 as int, (b.len() - l0) as int);
        assert forall|i: int| 0 <= i < rest.len() implies (#[trigger] rest[i]).wf(d) by {
            assert(rest[i] == es[i + 1]);
        }
        lemma_frames_complete(s, pos + l0, end, (n - 1) as nat, d, acc.push(e), rest);
        assert(acc.push(e) + rest =~= acc + es);
    }
}

/// The encoding of frames splits at any frame boundary.
pub proof fn lemma_frames_split(fs: Seq<FrameView>, k: int)
    requires
        0 <= k <= fs.len(),
    ensures
        frames_bytes(fs) == frames_bytes(fs.take(k)) + frames_bytes(fs.skip(k)),
    decreases fs.len(),
{
    if k == fs.len() {
        assert(fs.take(k) =~= fs);
        assert(fs.skip(k) =~= Seq::<FrameView>::empty());
        assert(frames_bytes(fs) =~= frames_bytes(fs.take(k)) + frames_bytes(fs.skip(k)));
    } else {
        let dl = fs.drop_last();
        lemma_frames_split(dl, k);
        assert(dl.take(k) =~= fs.take(k));
        assert(fs.skip(k).drop_last() =~= dl.skip(k));
        assert(fs.skip(k).last() == fs.last());
        assert(frames_bytes(fs) =~= frames_bytes(fs.take(k)) + frames_bytes(fs.skip(k)));
    }
}

/// A decoded document is well formed, and its encoding is the input up to the declared file size.
pub proof fn lemma_doc_sound(s: Seq<u8>)
    requires
        parse_doc(s).is_ok(),
    ensures
        ({
            let v = parse_doc(s)->Ok_0;
            &&& v.wf()
            &&& doc_bytes(v).len() == u32_at(s, 0)
            &&& doc_bytes(v) == s.subrange(0, u32_at(s, 0) as int)
            &&& frames_bytes(v.frames) == s.subrange(HEADER_SIZE as int, u32_at(s, 0) as int)
            &&& u32_at(s, 0) <= s.len()
        }),
{
    let v = parse_doc(s)->Ok_0;
    let h = v.header;
    let fs = u32_at(s, 0) as int;
    lemma_header_encode_parsed(s);
    lemma_frames_sound(s, HEADER_SIZE as int, fs, h.frames as nat, h.color_depth, Seq::empty());
    assert(frames_bytes(Seq::<FrameView>::empty()) =~= Seq::<u8>::empty());
    assert(frames_bytes(v.frames) == s.subrange(HEADER_SIZE as int, fs));
    lemma_join(s, 0, HEADER_SIZE as int, fs);
    assert(doc_bytes(v) =~= s.subrange(0, fs));
}

/// Bytes that begin with the encoding of a well-formed document decode to it.
pub proof fn lemma_doc_complete(s: Seq<u8>, v: AsepriteView)
    requires
        v.wf(),
        doc_bytes(v).len() <= s.len(),
        s.subrange(0, doc_bytes(v).len() as int) == doc_bytes(v),
    ensures
        parse_doc(s) == Ok::<AsepriteView, DecodeError>(v),
{
    let b = doc_bytes(v);
    let fb = frames_bytes(v.frames);
    let fs = HEADER_SIZE + fb.len();
    let hb = header_bytes(v.header, fs as u32, v.frames.len() as u16);
    assert(b.subrange(0, HEADER_SIZE as int) =~= hb);
    assert(b.subrange(HEADER_SIZE as int, b.len() as int) =~= fb);
    lemma_window(s, 0, b, 0, HEADER_SIZE as int);
    lemma_window(s, 0, b, HEADER_SIZE as int, fb.len() as int);
    lemma_header_parse_encoded(v.header, fs as u32, v.frames.len() as u16, s);
    assert(HeaderView { frames: v.frames.len() as u16, ..v.header } == v.header);
    lemma_frames_complete(
        s,
        HEADER_SIZE as int,
        fs as int,
        v.frames.len(),
        v.header.color_depth,
        Seq::empty(),
        v.frames,
    );
    assert(Seq::<FrameView>::empty() + v.frames =~= v.frames);
}

/// Round trip: encoding a decoded document gives back the bytes it was decoded from, up to the
/// file size its header declares; all of them when nothing follows that end.
pub proof fn law_round_trip(b: Seq<u8>)
    requires
        parse_doc(b).is_ok(),
    ensures
        doc_bytes(parse_doc(b)->Ok_0) == b.subrange(0, u32_at(b, 0) as int),
        b.len() == u32_at(b, 0) ==> doc_bytes(parse_doc(b)->Ok_0) == b,
{
    lemma_doc_sound(b);
    assert(b.len() == u32_at(b, 0) ==> b.subrange(0, u32_at(b, 0) as int) =~= b);
}

/// Idempotence: decoding the encoding of a decoded document gives the same document.
pub proof fn law_idempotent(b: Seq<u8>)
    requires
        parse_doc(b).is_ok(),
    ensures
        parse_doc(doc_bytes(parse_doc(b)->Ok_0)) == parse_doc(b),
{
    let v = parse_doc(b)->Ok_0;
    lemma_doc_sound(b);
    assert(doc_bytes(v).subrange(0, doc_bytes(v).len() as int) =~= doc_bytes(v));
    lemma_doc_complete(doc_bytes(v), v);
}

/// Every well-formed document decodes from its own encoding.
pub proof fn law_decode_encoded(v: AsepriteView)
    requires
        v.wf(),
    ensures
        parse_doc(doc_bytes(v)) == Ok::<AsepriteView, DecodeError>(v),
{
    assert(doc_bytes(v).subrange(0, doc_bytes(v).len() as int) =~= doc_bytes(v));
    lemma_doc_complete(doc_bytes(v), v);
}

/// What writing then reading gives: any writable document comes back as itself, but for the
/// header's frame count, which becomes the number of frames.
pub proof fn law_write_then_read(v: AsepriteView)
    requires
        v.writable(),
    ensures
        parse_doc(doc_bytes(v)) == Ok::<AsepriteView, DecodeError>(
            AsepriteView {
                header: HeaderView { frames: v.frames.len() as u16, ..v.header },
                frames: v.frames,
            },
        ),
{
    let w = AsepriteView {
        header: HeaderView { frames: v.frames.len() as u16, ..v.header },
        frames: v.frames,
    };
    assert(doc_bytes(w) == doc_bytes(v));
    law_decode_encoded(w);
}

/// Unknown chunks are preserved in a whole document: a chunk of a type code outside the known
/// set, in any frame, is written and read back as the same `Unknown` chunk, payload and all.
pub proof fn law_unknown_chunk_in_document(v: AsepriteView, i: int, j: int)
    requires
        v.writable(),
        0 <= i < v.frames.len(),
        0 <= j < v.frames[i].chunks.len(),
        v.frames[i].chunks[j] is Unknown,
    ensures
        parse_doc(doc_bytes(v)) is Ok,
        parse_doc(doc_bytes(v))->Ok_0.frames[i].chunks[j] == v.frames[i].chunks[j],
{
    law_write_then_read(v);
}

/// Truncation: a prefix of a document that stops before its declared end fails as truncated.
pub proof fn law_truncation(b: Seq<u8>, k: int)
    requires
        parse_doc(b).is_ok(),
        0 <= k < u32_at(b, 0),
    ensures
        parse_doc(b.subrange(0, k)) == Err::<AsepriteView, DecodeError>(DecodeError::Truncated),
{
    let t = b.subrange(0, k);
    if k >= HEADER_SIZE {
        assert(t.subrange(0, HEADER_SIZE as int) =~= b.subrange(0, HEADER_SIZE as int));
        lemma_header_prefix(t, b);
        assert(u32_at(t, 0) == u32_at(b, 0));
    }
}

/// The byte at `i` with bit `bit` flipped.
pub open spec fn flip(b: Seq<u8>, i: int, bit: u8) -> Seq<u8> {
    b.update(i, b[i] ^ (1u8 << bit))
}

proof fn lemma_flip_changes(x: u8, bit: u8)
    requires
        bit < 8,
    ensures
        x ^ (1u8 << bit) != x,
{
    assert(x ^ (1u8 << bit) != x) by (bit_vector)
        requires
            bit < 8,
    ;
}

/// A flipped bit in one byte of a two-byte field changes the field.
proof fn lemma_flip_u16(b: Seq<u8>, q: int, i: int, bit: u8)
    requires
        0 <= q,
        q + 2 <= b.len(),
        i == q || i == q + 1,
        bit < 8,
    ensures
        u16_at(flip(b, i, bit), q) != u16_at(b, q),
{
    lemma_flip_changes(b[i], bit);
}

/// Magic validation: flipping any bit of the header's magic constant fails as bad magic.
pub proof fn law_header_magic(b: Seq<u8>, i: int, bit: u8)
    requires
        parse_doc(b).is_ok(),
        i == 4 || i == 5,
        bit < 8,
    ensures
        parse_doc(flip(b, i, bit)) == Err::<AsepriteView, DecodeError>(DecodeError::BadMagic),
{
    lemma_flip_u16(b, 4, i, bit);
}

/// Where frame `k` lies in bytes whose range from `start` holds the encoding of `frames`: after
/// the frames before it, carrying the frame magic.
proof fn lemma_frame_location(b: Seq<u8>, start: int, frames: Seq<FrameView>, k: int)
    requires
        0 <= start,
        start + frames_bytes(frames).len() <= b.len(),
        b.subrange(start, start + frames_bytes(frames).len()) == frames_bytes(frames),
        0 <= k < frames.len(),
    ensures
        ({
            let pos = start + frames_bytes(frames.take(k)).len();
            &&& pos + 16 <= start + frames_bytes(frames).len()
            &&& b.subrange(start, pos) == frames_bytes(frames.take(k))
            &&& u16_at(b, pos + 4) == FRAME_MAGIC
            &&& pos + frame_bytes(frames[k]).len() <= start + frames_bytes(frames).len()
            &&& b.subrange(pos, pos + frame_bytes(frames[k]).len()) == frame_bytes(frames[k])
        }),
{
    let pre = frames.take(k);
    let post = frames.skip(k);
    let lk = frames_bytes(pre).len() as int;
    let pos = start + lk;
    let fb = frames_bytes(frames);
    lemma_frames_split(frames, k);
    lemma_frames_front(post);
    assert(post[0] == frames[k]);
    let m = frame_bytes(frames[k]);
    assert(fb.subrange(0, lk) =~= frames_bytes(pre));
    assert(fb.subrange(lk, lk + m.len()) =~= m);
    lemma_window(b, start, fb, 0, lk);
    lemma_window(b, start, fb, lk, m.len() as int);
    assert(m.subrange(4, 6) =~= crate::bytes::le16(FRAME_MAGIC));
    lemma_window(b, pos, m, 4, 2);
    lemma_u16_read(b, pos + 4, FRAME_MAGIC);
}

/// Magic validation: flipping any bit of the magic constant of frame `k` fails as bad magic.
#[verifier::rlimit(100)]
pub proof fn law_frame_magic(b: Seq<u8>, k: int, i: int, bit: u8)
    requires
        parse_doc(b).is_ok(),
        0 <= k < parse_doc(b)->Ok_0.frames.len(),
        i == 0 || i == 1,
        bit < 8,
    ensures
        parse_doc(
            flip(
                b,
                HEADER_SIZE + frames_bytes(parse_doc(b)->Ok_0.frames.take(k)).len() + 4 + i,
                bit,
            ),
        ) == Err::<AsepriteView, DecodeError>(DecodeError::BadMagic),
{
    let v = parse_doc(b)->Ok_0;
    let d = v.header.color_depth;
    let fs = u32_at(b, 0) as int;
    let pre = v.frames.take(k);
    let pos = HEADER_SIZE + frames_bytes(pre).len();
    let q = pos + 4 + i;
    let b2 = flip(b, q, bit);
    lemma_doc_sound(b);
    lemma_frame_location(b, HEADER_SIZE as int, v.frames, k);
    assert forall|j: int| 0 <= j < pre.len() implies (#[trigger] pre[j]).wf(d) by {
        assert(pre[j] == v.frames[j]);
    }
    lemma_flip_u16(b, pos + 4, q, bit);
    assert(b2.subrange(0, HEADER_SIZE as int) =~= b.subrange(0, HEADER_SIZE as int));
    lemma_header_prefix(b2, b);
    assert(b2.subrange(HEADER_SIZE as int, pos) =~= b.subrange(HEADER_SIZE as int, pos));
    lemma_frames_complete(b2, HEADER_SIZE as int, fs, v.frames.len(), d, Seq::empty(), pre);
    assert(parse_frame(b2, pos, fs, d) == Err::<(FrameView, int), DecodeError>(DecodeError::BadMagic));
}

/// Where frame `i` of a document lies in the document's encoding; and where decoding that frame
/// fails, decoding the document fails the same way.
#[verifier::rlimit(100)]
proof fn lemma_doc_fails_at_frame(v: AsepriteView, i: int)
    requires
        v.header.wf(),
        v.frames.len() <= u16::MAX,
        HEADER_SIZE + frames_bytes(v.frames).len() <= u32::MAX,
        0 <= i < v.frames.len(),
        forall|k: int| 0 <= k < i ==> (#[trigger] v.frames[k]).wf(v.header.color_depth),
    ensures
        ({
            let s = doc_bytes(v);
            let fpos = HEADER_SIZE + frames_bytes(v.frames.take(i)).len();
            let m = frame_bytes(v.frames[i]);
            &&& fpos + m.len() <= s.len()
            &&& s.subrange(fpos, fpos + m.len()) == m
            &&& parse_frame(s, fpos, s.len() as int, v.header.color_depth) is Err ==> parse_doc(s)
                == Err::<AsepriteView, DecodeError>(
                parse_frame(s, fpos, s.len() as int, v.header.color_depth)->Err_0,
            )
        }),
{
    let s = doc_bytes(v);
    let d = v.header.color_depth;
    let fb = frames_bytes(v.frames);
    let fs = HEADER_SIZE + fb.len();
    let hb = header_bytes(v.header, fs as u32, v.frames.len() as u16);
    assert(s.subrange(0, s.len() as int) =~= s);
    assert(s.subrange(0, HEADER_SIZE as int) =~= hb);
    assert(s.subrange(HEADER_SIZE as int, s.len() as int) =~= fb);
    lemma_header_parse_encoded(v.header, fs as u32, v.frames.len() as u16, s);
    lemma_frame_location(s, HEADER_SIZE as int, v.frames, i);
    let pre = v.frames.take(i);
    assert forall|k: int| 0 <= k < pre.len() implies (#[trigger] pre[k]).wf(d) by {
        assert(pre[k] == v.frames[k]);
    }
    lemma_frames_complete(s, HEADER_SIZE as int, fs as int, v.frames.len(), d, Seq::empty(), pre);
}

/// Depth consistency in a whole document: where an indexed sprite holds a cel whose pixels take
/// four bytes each (as full colour would), decoding fails as a length mismatch. The frames before
/// it, and the chunks before it in its frame, are well formed; nothing after it matters.
pub proof fn law_indexed_document_with_rgba_pixels(v: AsepriteView, i: int, j: int)
    requires
        v.header.wf(),
        v.header.color_depth == ColorDepth::Indexed,
        v.frames.len() <= u16::MAX,
        HEADER_SIZE + frames_bytes(v.frames).len() <= u32::MAX,
        0 <= i < v.frames.len(),
        forall|k: int| 0 <= k < i ==> (#[trigger] v.frames[k]).wf(ColorDepth::Indexed),
        v.frames[i].encodable(),
        chunk_count(v.frames[i].old_chunk_count, v.frames[i].new_chunk_count)
            == v.frames[i].chunks.len(),
        0 <= j < v.frames[i].chunks.len(),
        forall|k: int| 0 <= k < j ==> (#[trigger] v.frames[i].chunks[k]).wf(ColorDepth::Indexed),
        v.frames[i].chunks[j] is Cel,
        v.frames[i].chunks[j]->Cel_0.wf(ColorDepth::Rgba),
        v.frames[i].chunks[j]->Cel_0.content is Image,
        v.frames[i].chunks[j]->Cel_0.content->width * v.frames[i].chunks[j]->Cel_0.content->height
            > 0,
    ensures
        parse_doc(doc_bytes(v)) == Err::<AsepriteView, DecodeError>(DecodeError::LengthMismatch),
{
    let s = doc_bytes(v);
    let f = v.frames[i];
    let c = f.chunks[j]->Cel_0;
    let fpos = HEADER_SIZE + frames_bytes(v.frames.take(i)).len();
    lemma_doc_fails_at_frame(v, i);
    lemma_frame_fails_at_chunk(s, fpos, s.len() as int, ColorDepth::Indexed, f, j);
    let cpos = fpos + 16 + crate::frame::chunks_bytes(f.chunks.take(j)).len();
    let fe = fpos + frame_bytes(f).len();
    assert(CHUNK_HEADER_SIZE + payload_bytes(f.chunks[j]).len() <= u32::MAX);
    assert(f.chunks[j] == ChunkView::Cel(c));
    law_indexed_cel_with_rgba_pixels(s, cpos, fe, c);
}

} // verus!
