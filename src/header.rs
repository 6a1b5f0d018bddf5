//! The fixed-size record at the start of a file.
use vstd::prelude::*;
use crate::bytes::{
    lemma_agree_on, lemma_i16_read, lemma_i16_write, lemma_u16_read, lemma_u16_write,
    lemma_u32_read, lemma_u32_write, copy_bytes, i16_at, le16, le32, le_i16, push_bytes, push_i16, push_u16, push_u32, push_u8,
    read_i16, read_u16, read_u32, u16_at, u32_at,
};
use crate::color::{depth_code, depth_of_code, ColorDepth};
use crate::{view_result, DecodeError};

verus! {

/// Size in bytes of the header record.
pub const HEADER_SIZE: usize = 128;

/// The constant that marks a header.
pub const HEADER_MAGIC: u16 = 0xA5E0;

/// The file header. The total file size is not held: it is derived when encoding.
/// The reserved and ignored regions are kept as they were read and written back verbatim.
#[derive(Debug, Clone)]
pub struct Header {
    pub frames: u16,
    pub width: u16,
    pub height: u16,
    pub color_depth: ColorDepth,
    pub flags: u32,
    pub speed: u16,
    pub reserved1: u32,
    pub reserved2: u32,
    pub transparent_index: u8,
    pub ignored: Vec<u8>,
    pub num_colors: u16,
    pub pixel_width: u8,
    pub pixel_height: u8,
    pub grid_x: i16,
    pub grid_y: i16,
    pub grid_width: u16,
    pub grid_height: u16,
    pub padding: Vec<u8>,
}

/// The mathematical value of a header.
pub ghost struct HeaderView {
    pub frames: u16,
    pub width: u16,
    pub height: u16,
    pub color_depth: ColorDepth,
    pub flags: u32,
    pub speed: u16,
    pub reserved1: u32,
    pub reserved2: u32,
    pub transparent_index: u8,
    pub ignored: Seq<u8>,
    pub num_colors: u16,
    pub pixel_width: u8,
    pub pixel_height: u8,
    pub grid_x: i16,
    pub grid_y: i16,
    pub grid_width: u16,
    pub grid_height: u16,
    pub padding: Seq<u8>,
}

impl View for Header {
    type V = HeaderView;

    open spec fn view(&self) -> HeaderView {
        HeaderView {
            frames: self.frames,
            width: self.width,
            height: self.height,
            color_depth: self.color_depth,
            flags: self.flags,
            speed: self.speed,
            reserved1: self.reserved1,
            reserved2: self.reserved2,
            transparent_index: self.transparent_index,
            ignored: self.ignored@,
            num_colors: self.num_colors,
            pixel_width: self.pixel_width,
            pixel_height: self.pixel_height,
            grid_x: self.grid_x,
            grid_y: self.grid_y,
            grid_width: self.grid_width,
            grid_height: self.grid_height,
            padding: self.padding@,
        }
    }
}

impl HeaderView {
    /// The byte regions have the lengths that the layout fixes.
    pub open spec fn wf(self) -> bool {
        self.ignored.len() == 3 && self.padding.len() == 84
    }
}

/// The header stored at the start of `s`.
pub open spec fn parse_header(s: Seq<u8>) -> Result<HeaderView, DecodeError> {
    if s.len() < HEADER_SIZE {
        Err(DecodeError::Truncated)
    } else if u16_at(s, 4) != HEADER_MAGIC {
        Err(DecodeError::BadMagic)
    } else {
        match depth_of_code(u16_at(s, 12)) {
            None => Err(DecodeError::InvalidColorDepth),
            Some(d) => Ok(
                HeaderView {
                    frames: u16_at(s, 6),
                    width: u16_at(s, 8),
                    height: u16_at(s, 10),
                    color_depth: d,
                    flags: u32_at(s, 14),
                    speed: u16_at(s, 18),
                    reserved1: u32_at(s, 20),
                    reserved2: u32_at(s, 24),
                    transparent_index: s[28],
                    ignored: s.subrange(29, 32),
                    num_colors: u16_at(s, 32),
                    pixel_width: s[34],
                    pixel_height: s[35],
                    grid_x: i16_at(s, 36),
                    grid_y: i16_at(s, 38),
                    grid_width: u16_at(s, 40),
                    grid_height: u16_at(s, 42),
                    padding: s.subrange(44, 128),
                },
            ),
        }
    }
}

/// The bytes of header `h` for a file of `file_size` bytes holding `frames` frames.
pub open spec fn header_bytes(h: HeaderView, file_size: u32, frames: u16) -> Seq<u8> {
    le32(file_size) + le16(HEADER_MAGIC) + le16(frames) + le16(h.width) + le16(h.height) + le16(
        depth_code(h.color_depth),
    ) + le32(h.flags) + le16(h.speed) + le32(h.reserved1) + le32(h.reserved2) + seq![
        h.transparent_index,
    ] + h.ignored + le16(h.num_colors) + seq![h.pixel_width, h.pixel_height] + le_i16(h.grid_x)
        + le_i16(h.grid_y) + le16(h.grid_width) + le16(h.grid_height) + h.padding
}


#[verifier::rlimit(100)]
proof fn lemma_header_layout(h: HeaderView, fs: u32, fr: u16)
    requires
        h.wf(),
    ensures
        ({
            let b = header_bytes(h, fs, fr);
            &&& b.len() == HEADER_SIZE
            &&& b.subrange(0, 4) == le32(fs)
            &&& b.subrange(4, 6) == le16(HEADER_MAGIC)
            &&& b.subrange(6, 8) == le16(fr)
            &&& b.subrange(8, 10) == le16(h.width)
            &&& b.subrange(10, 12) == le16(h.height)
            &&& b.subrange(12, 14) == le16(depth_code(h.color_depth))
            &&& b.subrange(14, 18) == le32(h.flags)
            &&& b.subrange(18, 20) == le16(h.speed)
            &&& b.subrange(20, 24) == le32(h.reserved1)
            &&& b.subrange(24, 28) == le32(h.reserved2)
            &&& b[28] == h.transparent_index
            &&& b.subrange(29, 32) == h.ignored
            &&& b.subrange(32, 34) == le16(h.num_colors)
            &&& b[34] == h.pixel_width
            &&& b[35] == h.pixel_height
            &&& b.subrange(36, 38) == le_i16(h.grid_x)
            &&& b.subrange(38, 40) == le_i16(h.grid_y)
            &&& b.subrange(40, 42) == le16(h.grid_width)
            &&& b.subrange(42, 44) == le16(h.grid_height)
            &&& b.subrange(44, 128) == h.padding
        }),
{
    let b = header_bytes(h, fs, fr);
    assert(b.subrange(0, 4) =~= le32(fs));
    assert(b.subrange(4, 6) =~= le16(HEADER_MAGIC));
    assert(b.subrange(6, 8) =~= le16(fr));
    assert(b.subrange(8, 10) =~= le16(h.width));
    assert(b.subrange(10, 12) =~= le16(h.height));
    assert(b.subrange(12, 14) =~= le16(depth_code(h.color_depth)));
    assert(b.subrange(14, 18) =~= le32(h.flags));
    assert(b.subrange(18, 20) =~= le16(h.speed));
    assert(b.subrange(20, 24) =~= le32(h.reserved1));
    assert(b.subrange(24, 28) =~= le32(h.reserved2));
    assert(b.subrange(29, 32) =~= h.ignored);
    assert(b.subrange(32, 34) =~= le16(h.num_colors));
    assert(b.subrange(36, 38) =~= le_i16(h.grid_x));
    assert(b.subrange(38, 40) =~= le_i16(h.grid_y));
    assert(b.subrange(40, 42) =~= le16(h.grid_width));
    assert(b.subrange(42, 44) =~= le16(h.grid_height));
    assert(b.subrange(44, 128) =~= h.padding);
}

/// A header that decodes encodes back to the bytes it came from.
pub proof fn lemma_header_encode_parsed(s: Seq<u8>)
    requires
        parse_header(s).is_ok(),
    ensures
        ({
            let h = parse_header(s)->Ok_0;
            &&& h.wf()
            &&& header_bytes(h, u32_at(s, 0), h.frames) == s.subrange(0, HEADER_SIZE as int)
        }),
{
    let h = parse_header(s)->Ok_0;
    let b = header_bytes(h, u32_at(s, 0), h.frames);
    lemma_header_layout(h, u32_at(s, 0), h.frames);
    lemma_u32_write(s, 0);
    lemma_u16_write(s, 4);
    lemma_u16_write(s, 6);
    lemma_u16_write(s, 8);
    lemma_u16_write(s, 10);
    lemma_u16_write(s, 12);
    lemma_u32_write(s, 14);
    lemma_u16_write(s, 18);
    lemma_u32_write(s, 20);
    lemma_u32_write(s, 24);
    lemma_u16_write(s, 32);
    lemma_i16_write(s, 36);
    lemma_i16_write(s, 38);
    lemma_u16_write(s, 40);
    lemma_u16_write(s, 42);
    assert(depth_code(h.color_depth) == u16_at(s, 12));
    lemma_agree_on(b, s, 0, 4);
    lemma_agree_on(b, s, 4, 6);
    lemma_agree_on(b, s, 6, 8);
    lemma_agree_on(b, s, 8, 10);
    lemma_agree_on(b, s, 10, 12);
    lemma_agree_on(b, s, 12, 14);
    lemma_agree_on(b, s, 14, 18);
    lemma_agree_on(b, s, 18, 20);
    lemma_agree_on(b, s, 20, 24);
    lemma_agree_on(b, s, 24, 28);
    lemma_agree_on(b, s, 29, 32);
    lemma_agree_on(b, s, 32, 34);
    lemma_agree_on(b, s, 36, 38);
    lemma_agree_on(b, s, 38, 40);
    lemma_agree_on(b, s, 40, 42);
    lemma_agree_on(b, s, 42, 44);
    lemma_agree_on(b, s, 44, 128);
    assert(b[28] == s[28] && b[34] == s[34] && b[35] == s[35]);
    assert(b =~= s.subrange(0, HEADER_SIZE as int));
}

/// Bytes that begin with an encoded header decode to that header.
pub proof fn lemma_header_parse_encoded(h: HeaderView, fs: u32, fr: u16, s: Seq<u8>)
    requires
        h.wf(),
        s.len() >= HEADER_SIZE,
        s.subrange(0, HEADER_SIZE as int) == header_bytes(h, fs, fr),
    ensures
        parse_header(s) == Ok::<HeaderView, DecodeError>(HeaderView { frames: fr, ..h }),
        u32_at(s, 0) == fs,
{
    let b = header_bytes(h, fs, fr);
    lemma_header_layout(h, fs, fr);
    assert forall|a: int, c: int| 0 <= a <= c <= 128 implies #[trigger] s.subrange(a, c) == b.subrange(a, c) by {
        assert(s.subrange(a, c) =~= b.subrange(a, c));
    }
    lemma_u32_read(s, 0, fs);
    lemma_u16_read(s, 4, HEADER_MAGIC);
    lemma_u16_read(s, 6, fr);
    lemma_u16_read(s, 8, h.width);
    lemma_u16_read(s, 10, h.height);
    lemma_u16_read(s, 12, depth_code(h.color_depth));
    lemma_u32_read(s, 14, h.flags);
    lemma_u16_read(s, 18, h.speed);
    lemma_u32_read(s, 20, h.reserved1);
    lemma_u32_read(s, 24, h.reserved2);
    lemma_u16_read(s, 32, h.num_colors);
    lemma_i16_read(s, 36, h.grid_x);
    lemma_i16_read(s, 38, h.grid_y);
    lemma_u16_read(s, 40, h.grid_width);
    lemma_u16_read(s, 42, h.grid_height);
    assert(s[28] == b[28] && s[34] == b[34] && s[35] == b[35]);
    assert(parse_header(s)->Ok_0 == HeaderView { frames: fr, ..h });
}

impl Header {
    /// Decodes the header at the start of `s`.
    pub fn decode(s: &[u8]) -> (r: Result<Header, DecodeError>)
        ensures
            view_result(r) == parse_header(s@),
    {
        if s.len() < HEADER_SIZE {
            return Err(DecodeError::Truncated);
        }
        if read_u16(s, 4) != HEADER_MAGIC {
            return Err(DecodeError::BadMagic);
        }
        let color_depth = match ColorDepth::from_code(read_u16(s, 12)) {
            Some(d) => d,
            None => {
                return Err(DecodeError::InvalidColorDepth);
            },
        };
        let h = Header {
            frames: read_u16(s, 6),
            width: read_u16(s, 8),
            height: read_u16(s, 10),
            color_depth,
            flags: read_u32(s, 14),
            speed: read_u16(s, 18),
            reserved1: read_u32(s, 20),
            reserved2: read_u32(s, 24),
            transparent_index: s[28],
            ignored: copy_bytes(s, 29, 32),
            num_colors: read_u16(s, 32),
            pixel_width: s[34],
            pixel_height: s[35],
            grid_x: read_i16(s, 36),
            grid_y: read_i16(s, 38),
            grid_width: read_u16(s, 40),
            grid_height: read_u16(s, 42),
            padding: copy_bytes(s, 44, 128),
        };
        Ok(h)
    }

    /// Appends the header of a file of `file_size` bytes holding `frames` frames.
    /// Both are the caller's: the header's own frame count is not written.
    pub fn write(&self, out: &mut Vec<u8>, file_size: u32, frames: u16)
        requires
            self@.wf(),
        ensures
            final(out)@ == old(out)@ + header_bytes(self@, file_size, frames),
    {
        let ghost start = out@;
        push_u32(out, file_size);
        push_u16(out, HEADER_MAGIC);
        push_u16(out, frames);
        push_u16(out, self.width);
        push_u16(out, self.height);
        push_u16(out, self.color_depth.code());
        push_u32(out, self.flags);
        push_u16(out, self.speed);
        push_u32(out, self.reserved1);
        push_u32(out, self.reserved2);
        push_u8(out, self.transparent_index);
        push_bytes(out, self.ignored.as_slice());
        push_u16(out, self.num_colors);
        push_u8(out, self.pixel_width);
        push_u8(out, self.pixel_height);
        push_i16(out, self.grid_x);
        push_i16(out, self.grid_y);
        push_u16(out, self.grid_width);
        push_u16(out, self.grid_height);
        push_bytes(out, self.padding.as_slice());
        assert(out@ =~= start + header_bytes(self@, file_size, frames));
    }
}

/// Decoding a header reads its first `HEADER_SIZE` bytes and no others.
pub proof fn lemma_header_prefix(s1: Seq<u8>, s2: Seq<u8>)
    requires
        s1.len() >= HEADER_SIZE,
        s2.len() >= HEADER_SIZE,
        s1.subrange(0, HEADER_SIZE as int) == s2.subrange(0, HEADER_SIZE as int),
    ensures
        parse_header(s1) == parse_header(s2),
        u32_at(s1, 0) == u32_at(s2, 0),
{
    lemma_agree_on(s1, s2, 0, HEADER_SIZE as int);
    assert(s1.subrange(29, 32) =~= s2.subrange(29, 32));
    assert(s1.subrange(44, 128) =~= s2.subrange(44, 128));
}

} // verus!
