//! Chunks: self-delimited, type-tagged blocks. Unknown types are kept verbatim.
use vstd::prelude::*;
use crate::bytes::{
    lemma_i16_read, lemma_i16_write, lemma_join, lemma_u16_read, lemma_u16_write, lemma_u32_read,
    lemma_u32_write, lemma_window,
    copy_bytes, i16_at, le16, le32, le_i16, push_bytes, push_i16, push_u16, push_u32, push_u8,
    read_i16, read_u16, read_u32, u16_at, u32_at,
};
use crate::color::{spec_bytes_per_pixel, ColorDepth};
use crate::{view_result_at, DecodeError};

verus! {

/// Size of the length and type fields that open every chunk.
pub const CHUNK_HEADER_SIZE: usize = 6;

/// Type code of a palette chunk.
pub const PALETTE_CHUNK: u16 = 0x2019;

/// Type code of a cel chunk.
pub const CEL_CHUNK: u16 = 0x2005;

/// Type code of a layer chunk.
pub const LAYER_CHUNK: u16 = 0x2004;

/// Type code of a colour profile chunk.
pub const COLOR_PROFILE_CHUNK: u16 = 0x2007;

/// The profile type of an embedded ICC profile.
pub const ICC_PROFILE: u16 = 2;

/// The layer type of a tilemap layer, which names a tileset.
pub const TILEMAP_LAYER: u16 = 2;

/// One colour of a palette chunk: stored as full colour whatever the sprite's depth.
/// It carries a name exactly when bit 0 of its flags is set.
#[derive(Debug, Clone)]
pub struct PaletteEntry {
    pub flags: u16,
    pub red: u8,
    pub green: u8,
    pub blue: u8,
    pub alpha: u8,
    pub name: Option<Vec<u8>>,
}

pub ghost struct PaletteEntryView {
    pub flags: u16,
    pub red: u8,
    pub green: u8,
    pub blue: u8,
    pub alpha: u8,
    pub name: Option<Seq<u8>>,
}

impl View for PaletteEntry {
    type V = PaletteEntryView;

    open spec fn view(&self) -> PaletteEntryView {
        PaletteEntryView {
            flags: self.flags,
            red: self.red,
            green: self.green,
            blue: self.blue,
            alpha: self.alpha,
            name: match self.name {
                Some(n) => Some(n@),
                None => None,
            },
        }
    }
}

impl PaletteEntryView {
    pub open spec fn wf(self) -> bool {
        &&& (self.flags % 2 == 1) == self.name.is_some()
        &&& self.name.is_some() ==> self.name->0.len() <= u16::MAX
    }
}

/// A palette chunk: colours `first..=last` of a palette of `size` colours.
#[derive(Debug, Clone)]
pub struct PaletteChunk {
    pub size: u32,
    pub first: u32,
    pub last: u32,
    pub reserved: Vec<u8>,
    pub entries: Vec<PaletteEntry>,
}

pub ghost struct PaletteChunkView {
    pub size: u32,
    pub first: u32,
    pub last: u32,
    pub reserved: Seq<u8>,
    pub entries: Seq<PaletteEntryView>,
}

impl View for PaletteChunk {
    type V = PaletteChunkView;

    open spec fn view(&self) -> PaletteChunkView {
        PaletteChunkView {
            size: self.size,
            first: self.first,
            last: self.last,
            reserved: self.reserved@,
            entries: self.entries@.map_values(|e: PaletteEntry| e@),
        }
    }
}

/// How many colours a palette chunk that changes `first..=last` holds.
pub open spec fn palette_count(first: u32, last: u32) -> nat {
    if first <= last {
        (last - first + 1) as nat
    } else {
        0
    }
}

impl PaletteChunkView {
    pub open spec fn wf(self) -> bool {
        &&& self.reserved.len() == 8
        &&& self.entries.len() == palette_count(self.first, self.last)
        &&& forall|i: int| 0 <= i < self.entries.len() ==> (#[trigger] self.entries[i]).wf()
    }
}

/// A layer chunk: one layer of the sprite, in the order that the layers are defined.
/// A tilemap layer also names its tileset.
#[derive(Debug, Clone)]
pub struct LayerChunk {
    pub flags: u16,
    pub layer_type: u16,
    pub child_level: u16,
    pub default_width: u16,
    pub default_height: u16,
    pub blend_mode: u16,
    pub opacity: u8,
    pub reserved: Vec<u8>,
    pub name: Vec<u8>,
    pub tileset_index: Option<u32>,
}

pub ghost struct LayerChunkView {
    pub flags: u16,
    pub layer_type: u16,
    pub child_level: u16,
    pub default_width: u16,
    pub default_height: u16,
    pub blend_mode: u16,
    pub opacity: u8,
    pub reserved: Seq<u8>,
    pub name: Seq<u8>,
    pub tileset_index: Option<u32>,
}

impl View for LayerChunk {
    type V = LayerChunkView;

    open spec fn view(&self) -> LayerChunkView {
        LayerChunkView {
            flags: self.flags,
            layer_type: self.layer_type,
            child_level: self.child_level,
            default_width: self.default_width,
            default_height: self.default_height,
            blend_mode: self.blend_mode,
            opacity: self.opacity,
            reserved: self.reserved@,
            name: self.name@,
            tileset_index: self.tileset_index,
        }
    }
}

impl LayerChunkView {
    pub open spec fn wf(self) -> bool {
        &&& self.reserved.len() == 3
        &&& self.name.len() <= u16::MAX
        &&& self.tileset_index.is_some() == (self.layer_type == TILEMAP_LAYER)
    }
}

/// A colour profile chunk. The gamma is a 16.16 fixed-point number, kept as its 32 bits.
/// An ICC profile carries its data.
#[derive(Debug, Clone)]
pub struct ColorProfileChunk {
    pub profile_type: u16,
    pub flags: u16,
    pub gamma: u32,
    pub reserved: Vec<u8>,
    pub icc: Option<Vec<u8>>,
}

pub ghost struct ColorProfileChunkView {
    pub profile_type: u16,
    pub flags: u16,
    pub gamma: u32,
    pub reserved: Seq<u8>,
    pub icc: Option<Seq<u8>>,
}

impl View for ColorProfileChunk {
    type V = ColorProfileChunkView;

    open spec fn view(&self) -> ColorProfileChunkView {
        ColorProfileChunkView {
            profile_type: self.profile_type,
            flags: self.flags,
            gamma: self.gamma,
            reserved: self.reserved@,
            icc: match self.icc {
                Some(d) => Some(d@),
                None => None,
            },
        }
    }
}

impl ColorProfileChunkView {
    pub open spec fn wf(self) -> bool {
        &&& self.reserved.len() == 8
        &&& self.icc.is_some() == (self.profile_type == ICC_PROFILE)
        &&& self.icc.is_some() ==> self.icc->0.len() <= u32::MAX
    }
}

/// What a cel holds after its fixed fields.
#[derive(Debug, Clone)]
pub enum CelContent {
    /// Uncompressed pixels, row by row, in the sprite's depth (cel type 0).
    Image { width: u16, height: u16, pixels: Vec<u8> },
    /// The rest of the payload of any other cel type, verbatim.
    Data(Vec<u8>),
}

pub ghost enum CelContentView {
    Image { width: u16, height: u16, pixels: Seq<u8> },
    Data(Seq<u8>),
}

impl View for CelContent {
    type V = CelContentView;

    open spec fn view(&self) -> CelContentView {
        match self {
            CelContent::Image { width, height, pixels } => CelContentView::Image {
                width: *width,
                height: *height,
                pixels: pixels@,
            },
            CelContent::Data(d) => CelContentView::Data(d@),
        }
    }
}

/// A cel chunk: the image of one layer in one frame.
#[derive(Debug, Clone)]
pub struct CelChunk {
    pub layer_index: u16,
    pub x: i16,
    pub y: i16,
    pub opacity: u8,
    pub cel_type: u16,
    pub z_index: i16,
    pub reserved: Vec<u8>,
    pub content: CelContent,
}

pub ghost struct CelChunkView {
    pub layer_index: u16,
    pub x: i16,
    pub y: i16,
    pub opacity: u8,
    pub cel_type: u16,
    pub z_index: i16,
    pub reserved: Seq<u8>,
    pub content: CelContentView,
}

impl View for CelChunk {
    type V = CelChunkView;

    open spec fn view(&self) -> CelChunkView {
        CelChunkView {
            layer_index: self.layer_index,
            x: self.x,
            y: self.y,
            opacity: self.opacity,
            cel_type: self.cel_type,
            z_index: self.z_index,
            reserved: self.reserved@,
            content: self.content@,
        }
    }
}

impl CelChunkView {
    /// Well formed in a sprite of depth `d`: an image holds `width * height` pixels of `d`.
    pub open spec fn wf(self, d: ColorDepth) -> bool {
        &&& self.reserved.len() == 5
        &&& match self.content {
            CelContentView::Image { width, height, pixels } => self.cel_type == 0
                && pixels.len() == width * height * spec_bytes_per_pixel(d),
            CelContentView::Data(_) => self.cel_type != 0,
        }
    }
}

/// A chunk. Any type code but those of the known kinds decodes as `Unknown`.
#[derive(Debug, Clone)]
pub enum Chunk {
    Palette(PaletteChunk),
    Layer(LayerChunk),
    ColorProfile(ColorProfileChunk),
    Cel(CelChunk),
    Unknown { type_code: u16, data: Vec<u8> },
}

pub ghost enum ChunkView {
    Palette(PaletteChunkView),
    Layer(LayerChunkView),
    ColorProfile(ColorProfileChunkView),
    Cel(CelChunkView),
    Unknown { type_code: u16, data: Seq<u8> },
}

impl View for Chunk {
    type V = ChunkView;

    open spec fn view(&self) -> ChunkView {
        match self {
            Chunk::Palette(p) => ChunkView::Palette(p@),
            Chunk::Layer(l) => ChunkView::Layer(l@),
            Chunk::ColorProfile(c) => ChunkView::ColorProfile(c@),
            Chunk::Cel(c) => ChunkView::Cel(c@),
            Chunk::Unknown { type_code, data } => ChunkView::Unknown {
                type_code: *type_code,
                data: data@,
            },
        }
    }
}

pub open spec fn is_known_type(t: u16) -> bool {
    t == PALETTE_CHUNK || t == LAYER_CHUNK || t == CEL_CHUNK || t == COLOR_PROFILE_CHUNK
}

pub open spec fn chunk_type(c: ChunkView) -> u16 {
    match c {
        ChunkView::Palette(_) => PALETTE_CHUNK,
        ChunkView::Layer(_) => LAYER_CHUNK,
        ChunkView::ColorProfile(_) => COLOR_PROFILE_CHUNK,
        ChunkView::Cel(_) => CEL_CHUNK,
        ChunkView::Unknown { type_code, .. } => type_code,
    }
}

// ---- encodings ----

pub open spec fn name_bytes(name: Option<Seq<u8>>) -> Seq<u8> {
    match name {
        Some(n) => le16(n.len() as u16) + n,
        None => Seq::empty(),
    }
}

pub open spec fn entry_bytes(e: PaletteEntryView) -> Seq<u8> {
    le16(e.flags) + seq![e.red, e.green, e.blue, e.alpha] + name_bytes(e.name)
}

pub open spec fn entries_bytes(es: Seq<PaletteEntryView>) -> Seq<u8>
    decreases es.len(),
{
    if es.len() == 0 {
        Seq::empty()
    } else {
        entries_bytes(es.drop_last()) + entry_bytes(es.last())
    }
}

pub open spec fn palette_bytes(p: PaletteChunkView) -> Seq<u8> {
    le32(p.size) + le32(p.first) + le32(p.last) + p.reserved + entries_bytes(p.entries)
}

pub open spec fn layer_bytes(l: LayerChunkView) -> Seq<u8> {
    le16(l.flags) + le16(l.layer_type) + le16(l.child_level) + le16(l.default_width) + le16(
        l.default_height,
    ) + le16(l.blend_mode) + seq![l.opacity] + l.reserved + le16(l.name.len() as u16) + l.name
        + match l.tileset_index {
        Some(i) => le32(i),
        None => Seq::empty(),
    }
}

pub open spec fn color_profile_bytes(c: ColorProfileChunkView) -> Seq<u8> {
    le16(c.profile_type) + le16(c.flags) + le32(c.gamma) + c.reserved + match c.icc {
        Some(d) => le32(d.len() as u32) + d,
        None => Seq::empty(),
    }
}

pub open spec fn cel_content_bytes(c: CelContentView) -> Seq<u8> {
    match c {
        CelContentView::Image { width, height, pixels } => le16(width) + le16(height) + pixels,
        CelContentView::Data(d) => d,
    }
}

pub open spec fn cel_bytes(c: CelChunkView) -> Seq<u8> {
    le16(c.layer_index) + le_i16(c.x) + le_i16(c.y) + seq![c.opacity] + le16(c.cel_type) + le_i16(
        c.z_index,
    ) + c.reserved + cel_content_bytes(c.content)
}

pub open spec fn payload_bytes(c: ChunkView) -> Seq<u8> {
    match c {
        ChunkView::Palette(p) => palette_bytes(p),
        ChunkView::Layer(l) => layer_bytes(l),
        ChunkView::ColorProfile(c) => color_profile_bytes(c),
        ChunkView::Cel(cel) => cel_bytes(cel),
        ChunkView::Unknown { data, .. } => data,
    }
}

/// The bytes of a chunk: its total length, its type code, then its payload.
pub open spec fn chunk_bytes(c: ChunkView) -> Seq<u8> {
    le32((CHUNK_HEADER_SIZE + payload_bytes(c).len()) as u32) + le16(chunk_type(c)) + payload_bytes(
        c,
    )
}

impl ChunkView {
    /// Well formed in a sprite of depth `d`.
    pub open spec fn wf(self, d: ColorDepth) -> bool {
        &&& CHUNK_HEADER_SIZE + payload_bytes(self).len() <= u32::MAX
        &&& match self {
            ChunkView::Palette(p) => p.wf(),
            ChunkView::Layer(l) => l.wf(),
            ChunkView::ColorProfile(c) => c.wf(),
            ChunkView::Cel(c) => c.wf(d),
            ChunkView::Unknown { type_code, .. } => !is_known_type(type_code),
        }
    }
}

// ---- decoding, within `pos..end` of `s`; running past `end` is a length mismatch ----

pub open spec fn parse_entry(s: Seq<u8>, pos: int, end: int) -> Result<
    (PaletteEntryView, int),
    DecodeError,
> {
    if pos + 6 > end {
        Err(DecodeError::LengthMismatch)
    } else {
        let flags = u16_at(s, pos);
        let (name, p) = if flags % 2 == 1 {
            if pos + 8 > end {
                (None, -1)
            } else {
                let n = u16_at(s, pos + 6) as int;
                if pos + 8 + n > end {
                    (None, -1)
                } else {
                    (Some(s.subrange(pos + 8, pos + 8 + n)), pos + 8 + n)
                }
            }
        } else {
            (None, pos + 6)
        };
        if p < 0 {
            Err(DecodeError::LengthMismatch)
        } else {
            Ok(
                (
                    PaletteEntryView {
                        flags,
                        red: s[pos + 2],
                        green: s[pos + 3],
                        blue: s[pos + 4],
                        alpha: s[pos + 5],
                        name,
                    },
                    p,
                ),
            )
        }
    }
}

/// Decodes `n` more entries after those in `acc`.
pub open spec fn parse_entries(
    s: Seq<u8>,
    pos: int,
    end: int,
    n: nat,
    acc: Seq<PaletteEntryView>,
) -> Result<(Seq<PaletteEntryView>, int), DecodeError>
    decreases n,
{
    if n == 0 {
        Ok((acc, pos))
    } else {
        match parse_entry(s, pos, end) {
            Err(e) => Err(e),
            Ok((e, p)) => parse_entries(s, p, end, (n - 1) as nat, acc.push(e)),
        }
    }
}

pub open spec fn parse_palette(s: Seq<u8>, pos: int, end: int) -> Result<
    (PaletteChunkView, int),
    DecodeError,
> {
    if pos + 20 > end {
        Err(DecodeError::LengthMismatch)
    } else {
        let first = u32_at(s, pos + 4);
        let last = u32_at(s, pos + 8);
        match parse_entries(s, pos + 20, end, palette_count(first, last), Seq::empty()) {
            Err(e) => Err(e),
            Ok((es, p)) => Ok(
                (
                    PaletteChunkView {
                        size: u32_at(s, pos),
                        first,
                        last,
                        reserved: s.subrange(pos + 12, pos + 20),
                        entries: es,
                    },
                    p,
                ),
            ),
        }
    }
}

pub open spec fn parse_layer(s: Seq<u8>, pos: int, end: int) -> Result<
    (LayerChunkView, int),
    DecodeError,
> {
    if pos + 18 > end {
        Err(DecodeError::LengthMismatch)
    } else {
        let n = u16_at(s, pos + 16) as int;
        let layer_type = u16_at(s, pos + 2);
        let q = pos + 18 + n;
        if q > end {
            Err(DecodeError::LengthMismatch)
        } else if layer_type == TILEMAP_LAYER && q + 4 > end {
            Err(DecodeError::LengthMismatch)
        } else {
            Ok(
                (
                    LayerChunkView {
                        flags: u16_at(s, pos),
                        layer_type,
                        child_level: u16_at(s, pos + 4),
                        default_width: u16_at(s, pos + 6),
                        default_height: u16_at(s, pos + 8),
                        blend_mode: u16_at(s, pos + 10),
                        opacity: s[pos + 12],
                        reserved: s.subrange(pos + 13, pos + 16),
                        name: s.subrange(pos + 18, q),
                        tileset_index: if layer_type == TILEMAP_LAYER {
                            Some(u32_at(s, q))
                        } else {
                            None
                        },
                    },
                    if layer_type == TILEMAP_LAYER {
                        q + 4
                    } else {
                        q
                    },
                ),
            )
        }
    }
}

pub open spec fn parse_color_profile(s: Seq<u8>, pos: int, end: int) -> Result<
    (ColorProfileChunkView, int),
    DecodeError,
> {
    if pos + 16 > end {
        Err(DecodeError::LengthMismatch)
    } else {
        let profile_type = u16_at(s, pos);
        let (icc, p) = if profile_type == ICC_PROFILE {
            if pos + 20 > end {
                (None, -1)
            } else {
                let n = u32_at(s, pos + 16) as int;
                if pos + 20 + n > end {
                    (None, -1)
                } else {
                    (Some(s.subrange(pos + 20, pos + 20 + n)), pos + 20 + n)
                }
            }
        } else {
            (None, pos + 16)
        };
        if p < 0 {
            Err(DecodeError::LengthMismatch)
        } else {
            Ok(
                (
                    ColorProfileChunkView {
                        profile_type,
                        flags: u16_at(s, pos + 2),
                        gamma: u32_at(s, pos + 4),
                        reserved: s.subrange(pos + 8, pos + 16),
                        icc,
                    },
                    p,
                ),
            )
        }
    }
}

pub open spec fn parse_cel(s: Seq<u8>, pos: int, end: int, d: ColorDepth) -> Result<
    (CelChunkView, int),
    DecodeError,
> {
    if pos + 16 > end {
        Err(DecodeError::LengthMismatch)
    } else {
        let cel_type = u16_at(s, pos + 7);
        let (content, p) = if cel_type == 0 {
            if pos + 20 > end {
                (CelContentView::Data(Seq::empty()), -1)
            } else {
                let w = u16_at(s, pos + 16);
                let h = u16_at(s, pos + 18);
                let need = w * h * spec_bytes_per_pixel(d);
                if pos + 20 + need > end {
                    (CelContentView::Data(Seq::empty()), -1)
                } else {
                    (
                        CelContentView::Image {
                            width: w,
                            height: h,
                            pixels: s.subrange(pos + 20, pos + 20 + need),
                        },
                        pos + 20 + need,
                    )
                }
            }
        } else {
            (CelContentView::Data(s.subrange(pos + 16, end)), end)
        };
        if p < 0 {
            Err(DecodeError::LengthMismatch)
        } else {
            Ok(
                (
                    CelChunkView {
                        layer_index: u16_at(s, pos),
                        x: i16_at(s, pos + 2),
                        y: i16_at(s, pos + 4),
                        opacity: s[pos + 6],
                        cel_type,
                        z_index: i16_at(s, pos + 9),
                        reserved: s.subrange(pos + 11, pos + 16),
                        content,
                    },
                    p,
                ),
            )
        }
    }
}

/// A payload decoder's result, which must end exactly at `pe`.
pub open spec fn exactly<T>(r: Result<(T, int), DecodeError>, pe: int) -> Result<T, DecodeError> {
    match r {
        Err(e) => Err(e),
        Ok((v, p)) => if p == pe {
            Ok(v)
        } else {
            Err(DecodeError::LengthMismatch)
        },
    }
}

/// The chunk at `pos`, which must end by `end`, in a sprite of depth `d`.
pub open spec fn parse_chunk(s: Seq<u8>, pos: int, end: int, d: ColorDepth) -> Result<
    (ChunkView, int),
    DecodeError,
> {
    if pos + 6 > end {
        Err(DecodeError::LengthMismatch)
    } else {
        let len = u32_at(s, pos) as int;
        let t = u16_at(s, pos + 4);
        let pe = pos + len;
        if len < 6 || pe > end {
            Err(DecodeError::LengthMismatch)
        } else if t == PALETTE_CHUNK {
            match exactly(parse_palette(s, pos + 6, pe), pe) {
                Err(e) => Err(e),
                Ok(p) => Ok((ChunkView::Palette(p), pe)),
            }
        } else if t == LAYER_CHUNK {
            match exactly(parse_layer(s, pos + 6, pe), pe) {
                Err(e) => Err(e),
                Ok(l) => Ok((ChunkView::Layer(l), pe)),
            }
        } else if t == COLOR_PROFILE_CHUNK {
            match exactly(parse_color_profile(s, pos + 6, pe), pe) {
                Err(e) => Err(e),
                Ok(c) => Ok((ChunkView::ColorProfile(c), pe)),
            }
        } else if t == CEL_CHUNK {
            match exactly(parse_cel(s, pos + 6, pe, d), pe) {
                Err(e) => Err(e),
                Ok(c) => Ok((ChunkView::Cel(c), pe)),
            }
        } else {
            Ok((ChunkView::Unknown { type_code: t, data: s.subrange(pos + 6, pe) }, pe))
        }
    }
}

/// Decodes the palette entry at `pos`, which must end by `end`.
pub fn decode_entry(s: &[u8], pos: usize, end: usize) -> (r: Result<(PaletteEntry, usize), DecodeError>)
    requires
        pos <= end <= s@.len(),
    ensures
        view_result_at(r) == parse_entry(s@, pos as int, end as int),
{
    if end - pos < 6 {
        return Err(DecodeError::LengthMismatch);
    }
    let flags = read_u16(s, pos);
    let mut p = pos + 6;
    let mut name: Option<Vec<u8>> = None;
    if flags % 2 == 1 {
        if end - pos < 8 {
            return Err(DecodeError::LengthMismatch);
        }
        let n = read_u16(s, pos + 6) as usize;
        if end - (pos + 8) < n {
            return Err(DecodeError::LengthMismatch);
        }
        name = Some(copy_bytes(s, pos + 8, pos + 8 + n));
        p = pos + 8 + n;
    }
    let e = PaletteEntry {
        flags,
        red: s[pos + 2],
        green: s[pos + 3],
        blue: s[pos + 4],
        alpha: s[pos + 5],
        name,
    };
    Ok((e, p))
}

/// Decodes `n` palette entries from `pos`, all ending by `end`.
pub fn decode_entries(s: &[u8], pos: usize, end: usize, n: u64) -> (r: Result<
    (Vec<PaletteEntry>, usize),
    DecodeError,
>)
    requires
        pos <= end <= s@.len(),
    ensures
        match (r, parse_entries(s@, pos as int, end as int, n as nat, Seq::empty())) {
            (Ok((v, p)), Ok((sv, sp))) => v@.map_values(|e: PaletteEntry| e@) == sv && p == sp,
            (Err(e), Err(se)) => e == se,
            _ => false,
        },
{
    let mut acc: Vec<PaletteEntry> = Vec::new();
    let mut p = pos;
    let mut i: u64 = 0;
    assert(acc@.map_values(|e: PaletteEntry| e@) =~= Seq::<PaletteEntryView>::empty());
    while i < n
        invariant
            pos <= p <= end <= s@.len(),
            i <= n,
            parse_entries(s@, pos as int, end as int, n as nat, Seq::empty()) == parse_entries(
                s@,
                p as int,
                end as int,
                (n - i) as nat,
                acc@.map_values(|e: PaletteEntry| e@),
            ),
        decreases n - i,
    {
        match decode_entry(s, p, end) {
            Err(e) => {
                return Err(e);
            },
            Ok((e, q)) => {
                let ghost before = acc@.map_values(|e: PaletteEntry| e@);
                acc.push(e);
                assert(acc@.map_values(|e: PaletteEntry| e@) =~= before.push(e@));
                p = q;
                i = i + 1;
            },
        }
    }
    Ok((acc, p))
}

/// Decodes a palette payload at `pos`, ending by `end`.
pub fn decode_palette(s: &[u8], pos: usize, end: usize) -> (r: Result<(PaletteChunk, usize), DecodeError>)
    requires
        pos <= end <= s@.len(),
    ensures
        view_result_at(r) == parse_palette(s@, pos as int, end as int),
{
    if end - pos < 20 {
        return Err(DecodeError::LengthMismatch);
    }
    let first = read_u32(s, pos + 4);
    let last = read_u32(s, pos + 8);
    let count: u64 = if first <= last {
        (last - first) as u64 + 1
    } else {
        0
    };
    match decode_entries(s, pos + 20, end, count) {
        Err(e) => Err(e),
        Ok((entries, p)) => Ok(
            (
                PaletteChunk {
                    size: read_u32(s, pos),
                    first,
                    last,
                    reserved: copy_bytes(s, pos + 12, pos + 20),
                    entries,
                },
                p,
            ),
        ),
    }
}

/// Decodes a layer payload at `pos`, ending by `end`.
pub fn decode_layer(s: &[u8], pos: usize, end: usize) -> (r: Result<(LayerChunk, usize), DecodeError>)
    requires
        pos <= end <= s@.len(),
    ensures
        view_result_at(r) == parse_layer(s@, pos as int, end as int),
{
    if end - pos < 18 {
        return Err(DecodeError::LengthMismatch);
    }
    let n = read_u16(s, pos + 16) as usize;
    let layer_type = read_u16(s, pos + 2);
    if end - (pos + 18) < n {
        return Err(DecodeError::LengthMismatch);
    }
    let q = pos + 18 + n;
    let mut p = q;
    let mut tileset_index: Option<u32> = None;
    if layer_type == TILEMAP_LAYER {
        if end - q < 4 {
            return Err(DecodeError::LengthMismatch);
        }
        tileset_index = Some(read_u32(s, q));
        p = q + 4;
    }
    let l = LayerChunk {
        flags: read_u16(s, pos),
        layer_type,
        child_level: read_u16(s, pos + 4),
        default_width: read_u16(s, pos + 6),
        default_height: read_u16(s, pos + 8),
        blend_mode: read_u16(s, pos + 10),
        opacity: s[pos + 12],
        reserved: copy_bytes(s, pos + 13, pos + 16),
        name: copy_bytes(s, pos + 18, q),
        tileset_index,
    };
    Ok((l, p))
}

/// Decodes a colour profile payload at `pos`, ending by `end`.
pub fn decode_color_profile(s: &[u8], pos: usize, end: usize) -> (r: Result<
    (ColorProfileChunk, usize),
    DecodeError,
>)
    requires
        pos <= end <= s@.len(),
    ensures
        view_result_at(r) == parse_color_profile(s@, pos as int, end as int),
{
    if end - pos < 16 {
        return Err(DecodeError::LengthMismatch);
    }
    let profile_type = read_u16(s, pos);
    let mut p = pos + 16;
    let mut icc: Option<Vec<u8>> = None;
    if profile_type == ICC_PROFILE {
        if end - pos < 20 {
            return Err(DecodeError::LengthMismatch);
        }
        let n = read_u32(s, pos + 16) as usize;
        if end - (pos + 20) < n {
            return Err(DecodeError::LengthMismatch);
        }
        icc = Some(copy_bytes(s, pos + 20, pos + 20 + n));
        p = pos + 20 + n;
    }
    let c = ColorProfileChunk {
        profile_type,
        flags: read_u16(s, pos + 2),
        gamma: read_u32(s, pos + 4),
        reserved: copy_bytes(s, pos + 8, pos + 16),
        icc,
    };
    Ok((c, p))
}

/// Decodes a cel payload at `pos`, ending by `end`, in a sprite of depth `d`.
pub fn decode_cel(s: &[u8], pos: usize, end: usize, d: ColorDepth) -> (r: Result<(CelChunk, usize), DecodeError>)
    requires
        pos <= end <= s@.len(),
    ensures
        view_result_at(r) == parse_cel(s@, pos as int, end as int, d),
{
    if end - pos < 16 {
        return Err(DecodeError::LengthMismatch);
    }
    let cel_type = read_u16(s, pos + 7);
    let content;
    let p;
    if cel_type == 0 {
        if end - pos < 20 {
            return Err(DecodeError::LengthMismatch);
        }
        let w = read_u16(s, pos + 16);
        let h = read_u16(s, pos + 18);
        let bpp = d.bytes_per_pixel() as u64;
        assert((w as u64) * (h as u64) <= 65535 * 65535) by (nonlinear_arith)
            requires
                w <= 65535,
                h <= 65535,
        ;
        let wh = (w as u64) * (h as u64);
        assert(wh <= 65535 * 65535 && wh * bpp <= 65535 * 65535 * 4) by (nonlinear_arith)
            requires
                wh == w as u64 * h as u64,
                bpp <= 4,
        ;
        let need: u64 = wh * bpp;
        if need > (end - (pos + 20)) as u64 {
            return Err(DecodeError::LengthMismatch);
        }
        let need = need as usize;
        content = CelContent::Image { width: w, height: h, pixels: copy_bytes(s, pos + 20, pos + 20 + need) };
        p = pos + 20 + need;
    } else {
        content = CelContent::Data(copy_bytes(s, pos + 16, end));
        p = end;
    }
    let c = CelChunk {
        layer_index: read_u16(s, pos),
        x: read_i16(s, pos + 2),
        y: read_i16(s, pos + 4),
        opacity: s[pos + 6],
        cel_type,
        z_index: read_i16(s, pos + 9),
        reserved: copy_bytes(s, pos + 11, pos + 16),
        content,
    };
    Ok((c, p))
}

impl Chunk {
    /// Decodes the chunk at `pos`, which must end by `end`, in a sprite of depth `d`.
    pub fn decode(s: &[u8], pos: usize, end: usize, d: ColorDepth) -> (r: Result<(Chunk, usize), DecodeError>)
        requires
            pos <= end <= s@.len(),
        ensures
            view_result_at(r) == parse_chunk(s@, pos as int, end as int, d),
    {
        if end - pos < 6 {
            return Err(DecodeError::LengthMismatch);
        }
        let len = read_u32(s, pos) as usize;
        let t = read_u16(s, pos + 4);
        if len < 6 || len > end - pos {
            return Err(DecodeError::LengthMismatch);
        }
        let pe = pos + len;
        if t == PALETTE_CHUNK {
            match decode_palette(s, pos + 6, pe) {
                Err(e) => Err(e),
                Ok((p, q)) => if q == pe {
                    Ok((Chunk::Palette(p), pe))
                } else {
                    Err(DecodeError::LengthMismatch)
                },
            }
        } else if t == LAYER_CHUNK {
            match decode_layer(s, pos + 6, pe) {
                Err(e) => Err(e),
                Ok((l, q)) => if q == pe {
                    Ok((Chunk::Layer(l), pe))
                } else {
                    Err(DecodeError::LengthMismatch)
                },
            }
        } else if t == COLOR_PROFILE_CHUNK {
            match decode_color_profile(s, pos + 6, pe) {
                Err(e) => Err(e),
                Ok((c, q)) => if q == pe {
                    Ok((Chunk::ColorProfile(c), pe))
                } else {
                    Err(DecodeError::LengthMismatch)
                },
            }
        } else if t == CEL_CHUNK {
            match decode_cel(s, pos + 6, pe, d) {
                Err(e) => Err(e),
                Ok((c, q)) => if q == pe {
                    Ok((Chunk::Cel(c), pe))
                } else {
                    Err(DecodeError::LengthMismatch)
                },
            }
        } else {
            Ok((Chunk::Unknown { type_code: t, data: copy_bytes(s, pos + 6, pe) }, pe))
        }
    }
}

/// Appends the bytes of one palette entry.
pub fn write_entry(e: &PaletteEntry, out: &mut Vec<u8>)
    ensures
        final(out)@ == old(out)@ + entry_bytes(e@),
{
    let ghost start = out@;
    push_u16(out, e.flags);
    push_u8(out, e.red);
    push_u8(out, e.green);
    push_u8(out, e.blue);
    push_u8(out, e.alpha);
    match &e.name {
        Some(n) => {
            push_u16(out, n.len() as u16);
            push_bytes(out, n.as_slice());
        },
        None => {},
    }
    assert(out@ =~= start + entry_bytes(e@));
}

/// Appends the bytes of each entry in turn.
pub fn write_entries(es: &Vec<PaletteEntry>, out: &mut Vec<u8>)
    ensures
        final(out)@ == old(out)@ + entries_bytes(es@.map_values(|e: PaletteEntry| e@)),
{
    let ghost start = out@;
    let ghost vs = es@.map_values(|e: PaletteEntry| e@);
    let mut i: usize = 0;
    assert(vs.take(0) =~= Seq::<PaletteEntryView>::empty());
    while i < es.len()
        invariant
            i <= es@.len(),
            vs == es@.map_values(|e: PaletteEntry| e@),
            out@ == start + entries_bytes(vs.take(i as int)),
        decreases es@.len() - i,
    {
        write_entry(&es[i], out);
        assert(vs.take(i + 1).drop_last() =~= vs.take(i as int));
        assert(out@ =~= start + entries_bytes(vs.take(i + 1)));
        i = i + 1;
    }
    assert(vs.take(es@.len() as int) =~= vs);
}

impl PaletteChunk {
    /// Appends the palette payload.
    pub fn write(&self, out: &mut Vec<u8>)
        ensures
            final(out)@ == old(out)@ + palette_bytes(self@),
    {
        let ghost start = out@;
        push_u32(out, self.size);
        push_u32(out, self.first);
        push_u32(out, self.last);
        push_bytes(out, self.reserved.as_slice());
        write_entries(&self.entries, out);
        assert(out@ =~= start + palette_bytes(self@));
    }
}

impl LayerChunk {
    /// Appends the layer payload.
    pub fn write(&self, out: &mut Vec<u8>)
        ensures
            final(out)@ == old(out)@ + layer_bytes(self@),
    {
        let ghost start = out@;
        push_u16(out, self.flags);
        push_u16(out, self.layer_type);
        push_u16(out, self.child_level);
        push_u16(out, self.default_width);
        push_u16(out, self.default_height);
        push_u16(out, self.blend_mode);
        push_u8(out, self.opacity);
        push_bytes(out, self.reserved.as_slice());
        push_u16(out, self.name.len() as u16);
        push_bytes(out, self.name.as_slice());
        match self.tileset_index {
            Some(i) => push_u32(out, i),
            None => {},
        }
        assert(out@ =~= start + layer_bytes(self@));
    }
}

impl ColorProfileChunk {
    /// Appends the colour profile payload.
    pub fn write(&self, out: &mut Vec<u8>)
        ensures
            final(out)@ == old(out)@ + color_profile_bytes(self@),
    {
        let ghost start = out@;
        push_u16(out, self.profile_type);
        push_u16(out, self.flags);
        push_u32(out, self.gamma);
        push_bytes(out, self.reserved.as_slice());
        match &self.icc {
            Some(d) => {
                push_u32(out, d.len() as u32);
                push_bytes(out, d.as_slice());
            },
            None => {},
        }
        assert(out@ =~= start + color_profile_bytes(self@));
    }
}

impl CelChunk {
    /// Appends the cel payload.
    pub fn write(&self, out: &mut Vec<u8>)
        ensures
            final(out)@ == old(out)@ + cel_bytes(self@),
    {
        let ghost start = out@;
        push_u16(out, self.layer_index);
        push_i16(out, self.x);
        push_i16(out, self.y);
        push_u8(out, self.opacity);
        push_u16(out, self.cel_type);
        push_i16(out, self.z_index);
        push_bytes(out, self.reserved.as_slice());
        match &self.content {
            CelContent::Image { width, height, pixels } => {
                push_u16(out, *width);
                push_u16(out, *height);
                push_bytes(out, pixels.as_slice());
            },
            CelContent::Data(d) => {
                push_bytes(out, d.as_slice());
            },
        }
        assert(out@ =~= start + cel_bytes(self@));
    }
}

impl Chunk {
    /// The chunk's type code.
    pub fn type_code(&self) -> (r: u16)
        ensures
            r == chunk_type(self@),
    {
        match self {
            Chunk::Palette(_) => PALETTE_CHUNK,
            Chunk::Layer(_) => LAYER_CHUNK,
            Chunk::ColorProfile(_) => COLOR_PROFILE_CHUNK,
            Chunk::Cel(_) => CEL_CHUNK,
            Chunk::Unknown { type_code, .. } => *type_code,
        }
    }

    /// The chunk's payload bytes.
    pub fn payload(&self) -> (r: Vec<u8>)
        ensures
            r@ == payload_bytes(self@),
    {
        let mut payload: Vec<u8> = Vec::new();
        match self {
            Chunk::Palette(p) => p.write(&mut payload),
            Chunk::Layer(l) => l.write(&mut payload),
            Chunk::ColorProfile(c) => c.write(&mut payload),
            Chunk::Cel(c) => c.write(&mut payload),
            Chunk::Unknown { data, .. } => push_bytes(&mut payload, data.as_slice()),
        }
        assert(payload@ =~= payload_bytes(self@));
        payload
    }

    /// Appends the chunk: the payload is written to a scratch buffer first, to learn its length.
    /// Returns the number of bytes written.
    pub fn write(&self, out: &mut Vec<u8>) -> (n: usize)
        requires
            CHUNK_HEADER_SIZE + payload_bytes(self@).len() <= u32::MAX,
        ensures
            final(out)@ == old(out)@ + chunk_bytes(self@),
            n == chunk_bytes(self@).len(),
    {
        let payload = self.payload();
        let total = CHUNK_HEADER_SIZE + payload.len();
        push_u32(out, total as u32);
        push_u16(out, self.type_code());
        push_bytes(out, payload.as_slice());
        assert(final(out)@ =~= old(out)@ + chunk_bytes(self@));
        total
    }
}

// ---- each decoder and its encoding are inverse ----

pub proof fn lemma_entry_sound(s: Seq<u8>, pos: int, end: int)
    requires
        0 <= pos <= end <= s.len(),
        parse_entry(s, pos, end).is_ok(),
    ensures
        ({
            let (e, p) = parse_entry(s, pos, end)->Ok_0;
            &&& pos <= p <= end
            &&& e.wf()
            &&& entry_bytes(e) == s.subrange(pos, p)
        }),
{
    let (e, p) = parse_entry(s, pos, end)->Ok_0;
    lemma_u16_write(s, pos);
    if e.flags % 2 == 1 {
        lemma_u16_write(s, pos + 6);
    }
    assert(entry_bytes(e) =~= s.subrange(pos, p));
}

pub proof fn lemma_entry_complete(s: Seq<u8>, pos: int, end: int, e: PaletteEntryView)
    requires
        e.wf(),
        0 <= pos,
        pos + entry_bytes(e).len() <= end <= s.len(),
        s.subrange(pos, pos + entry_bytes(e).len()) == entry_bytes(e),
    ensures
        parse_entry(s, pos, end) == Ok::<(PaletteEntryView, int), DecodeError>((e, pos + entry_bytes(e).len())),
{
    let b = entry_bytes(e);
    assert(b.subrange(0, 2) =~= le16(e.flags));
    lemma_window(s, pos, b, 0, 2);
    lemma_u16_read(s, pos, e.flags);
    assert(s[pos + 2] == b[2] && s[pos + 3] == b[3] && s[pos + 4] == b[4] && s[pos + 5] == b[5]) by {
        lemma_window(s, pos, b, 2, 4);
        assert(s.subrange(pos + 2, pos + 6)[0] == s[pos + 2]);
        assert(s.subrange(pos + 2, pos + 6)[1] == s[pos + 3]);
        assert(s.subrange(pos + 2, pos + 6)[2] == s[pos + 4]);
        assert(s.subrange(pos + 2, pos + 6)[3] == s[pos + 5]);
    }
    if e.flags % 2 == 1 {
        let n = e.name->0;
        assert(b.subrange(6, 8) =~= le16(n.len() as u16));
        lemma_window(s, pos, b, 6, 2);
        lemma_u16_read(s, pos + 6, n.len() as u16);
        assert(b.subrange(8, 8 + n.len() as int) =~= n);
        lemma_window(s, pos, b, 8, n.len() as int);
    }
    let (e2, _) = parse_entry(s, pos, end)->Ok_0;
    assert(e2 == e);
}

pub proof fn lemma_entries_front(es: Seq<PaletteEntryView>)
    requires
        es.len() > 0,
    ensures
        entries_bytes(es) == entry_bytes(es[0]) + entries_bytes(es.drop_first()),
    decreases es.len(),
{
    if es.len() == 1 {
        assert(es.drop_last() =~= Seq::<PaletteEntryView>::empty());
        assert(es.drop_first() =~= Seq::<PaletteEntryView>::empty());
        assert(entries_bytes(es) =~= entry_bytes(es[0]) + entries_bytes(es.drop_first()));
    } else {
        lemma_entries_front(es.drop_last());
        assert(es.drop_last().drop_first() =~= es.drop_first().drop_last());
        assert(es.drop_first().last() == es.last());
        assert(es.drop_last()[0] == es[0]);
        assert(entries_bytes(es) =~= entry_bytes(es[0]) + entries_bytes(es.drop_first()));
    }
}

#[verifier::rlimit(50)]
pub proof fn lemma_entries_sound(s: Seq<u8>, pos: int, end: int, n: nat, acc: Seq<PaletteEntryView>)
    requires
        0 <= pos <= end <= s.len(),
        parse_entries(s, pos, end, n, acc).is_ok(),
    ensures
        ({
            let (es, p) = parse_entries(s, pos, end, n, acc)->Ok_0;
            &&& pos <= p <= end
            &&& es.len() == acc.len() + n
            &&& es.subrange(0, acc.len() as int) == acc
            &&& forall|i: int| acc.len() <= i < es.len() ==> (#[trigger] es[i]).wf()
            &&& entries_bytes(es) == entries_bytes(acc) + s.subrange(pos, p)
        }),
    decreases n,
{
    if n == 0 {
        assert(acc.subrange(0, acc.len() as int) =~= acc);
        assert(entries_bytes(acc) + s.subrange(pos, pos) =~= entries_bytes(acc));
    } else {
        let (e, next) = parse_entry(s, pos, end)->Ok_0;
        lemma_entry_sound(s, pos, end);
        let acc1 = acc.push(e);
        lemma_entries_sound(s, next, end, (n - 1) as nat, acc1);
        let (es, p) = parse_entries(s, pos, end, n, acc)->Ok_0;
        assert(acc1.drop_last() =~= acc);
        assert(entries_bytes(acc1) == entries_bytes(acc) + entry_bytes(e));
        lemma_join(s, pos, next, p);
        assert(entries_bytes(es) =~= entries_bytes(acc) + s.subrange(pos, p));
        assert(es.subrange(0, acc1.len() as int).subrange(0, acc.len() as int) =~= es.subrange(0, acc.len() as int));
        assert(acc1.subrange(0, acc.len() as int) =~= acc);
        assert(es[acc.len() as int] == es.subrange(0, acc1.len() as int)[acc.len() as int]);
    }
}

/// Decoding over bytes that begin with the encodings of `es` decodes `es` first.
pub proof fn lemma_entries_complete(
    s: Seq<u8>,
    pos: int,
    end: int,
    n: nat,
    acc: Seq<PaletteEntryView>,
    es: Seq<PaletteEntryView>,
)
    requires
        forall|i: int| 0 <= i < es.len() ==> (#[trigger] es[i]).wf(),
        es.len() <= n,
        0 <= pos,
        pos + entries_bytes(es).len() <= end <= s.len(),
        s.subrange(pos, pos + entries_bytes(es).len()) == entries_bytes(es),
    ensures
        parse_entries(s, pos, end, n, acc) == parse_entries(
            s,
            pos + entries_bytes(es).len(),
            end,
            (n - es.len()) as nat,
            acc + es,
        ),
    decreases es.len(),
{
    if es.len() == 0 {
        assert(acc + es =~= acc);
    } else {
        let e = es[0];
        let rest = es.drop_first();
        lemma_entries_front(es);
        let b = entries_bytes(es);
        let l0 = entry_bytes(e).len();
        assert(b.subrange(0, l0 as int) =~= entry_bytes(e));
        lemma_window(s, pos, b, 0, l0 as int);
        lemma_entry_complete(s, pos, end, e);
        assert(b.subrange(l0 as int, b.len() as int) =~= entries_bytes(rest));
        lemma_window(s, pos, b, l0 as int, (b.len() - l0) as int);
        assert forall|i: int| 0 <= i < rest.len() implies (#[trigger] rest[i]).wf() by {
            assert(rest[i] == es[i + 1]);
        }
        lemma_entries_complete(s, pos + l0, end, (n - 1) as nat, acc.push(e), rest);
        assert(acc.push(e) + rest =~= acc + es);
    }
}

pub proof fn lemma_palette_sound(s: Seq<u8>, pos: int, end: int)
    requires
        0 <= pos <= end <= s.len(),
        parse_palette(s, pos, end).is_ok(),
    ensures
        ({
            let (v, p) = parse_palette(s, pos, end)->Ok_0;
            &&& pos <= p <= end
            &&& v.wf()
            &&& palette_bytes(v) == s.subrange(pos, p)
        }),
{
    let (v, p) = parse_palette(s, pos, end)->Ok_0;
    lemma_u32_write(s, pos);
    lemma_u32_write(s, pos + 4);
    lemma_u32_write(s, pos + 8);
    lemma_entries_sound(s, pos + 20, end, palette_count(v.first, v.last), Seq::empty());
    assert(entries_bytes(Seq::<PaletteEntryView>::empty()) =~= Seq::<u8>::empty());
    assert(palette_bytes(v) =~= s.subrange(pos, p));
}

pub proof fn lemma_palette_complete(s: Seq<u8>, pos: int, end: int, v: PaletteChunkView)
    requires
        v.wf(),
        0 <= pos,
        pos + palette_bytes(v).len() <= end <= s.len(),
        s.subrange(pos, pos + palette_bytes(v).len()) == palette_bytes(v),
    ensures
        parse_palette(s, pos, end) == Ok::<(PaletteChunkView, int), DecodeError>((v, pos + palette_bytes(v).len())),
{
    let b = palette_bytes(v);
    let eb = entries_bytes(v.entries);
    assert(b.subrange(0, 4) =~= le32(v.size));
    assert(b.subrange(4, 8) =~= le32(v.first));
    assert(b.subrange(8, 12) =~= le32(v.last));
    assert(b.subrange(12, 20) =~= v.reserved);
    assert(b.subrange(20, 20 + eb.len() as int) =~= eb);
    lemma_window(s, pos, b, 0, 4);
    lemma_window(s, pos, b, 4, 4);
    lemma_window(s, pos, b, 8, 4);
    lemma_window(s, pos, b, 12, 8);
    lemma_window(s, pos, b, 20, eb.len() as int);
    lemma_u32_read(s, pos, v.size);
    lemma_u32_read(s, pos + 4, v.first);
    lemma_u32_read(s, pos + 8, v.last);
    lemma_entries_complete(s, pos + 20, end, v.entries.len(), Seq::empty(), v.entries);
    assert(Seq::<PaletteEntryView>::empty() + v.entries =~= v.entries);
    let (v2, _) = parse_palette(s, pos, end)->Ok_0;
    assert(v2 == v);
}

pub proof fn lemma_layer_sound(s: Seq<u8>, pos: int, end: int)
    requires
        0 <= pos <= end <= s.len(),
        parse_layer(s, pos, end).is_ok(),
    ensures
        ({
            let (v, p) = parse_layer(s, pos, end)->Ok_0;
            &&& pos <= p <= end
            &&& v.wf()
            &&& layer_bytes(v) == s.subrange(pos, p)
        }),
{
    let (v, p) = parse_layer(s, pos, end)->Ok_0;
    lemma_u16_write(s, pos);
    lemma_u16_write(s, pos + 2);
    lemma_u16_write(s, pos + 4);
    lemma_u16_write(s, pos + 6);
    lemma_u16_write(s, pos + 8);
    lemma_u16_write(s, pos + 10);
    lemma_u16_write(s, pos + 16);
    if v.layer_type == TILEMAP_LAYER {
        lemma_u32_write(s, pos + 18 + v.name.len());
    }
    assert(layer_bytes(v) =~= s.subrange(pos, p));
}

pub proof fn lemma_layer_complete(s: Seq<u8>, pos: int, end: int, v: LayerChunkView)
    requires
        v.wf(),
        0 <= pos,
        pos + layer_bytes(v).len() <= end <= s.len(),
        s.subrange(pos, pos + layer_bytes(v).len()) == layer_bytes(v),
    ensures
        parse_layer(s, pos, end) == Ok::<(LayerChunkView, int), DecodeError>((v, pos + layer_bytes(v).len())),
{
    let b = layer_bytes(v);
    let n = v.name.len() as int;
    assert(b.subrange(0, 2) =~= le16(v.flags));
    assert(b.subrange(2, 4) =~= le16(v.layer_type));
    assert(b.subrange(4, 6) =~= le16(v.child_level));
    assert(b.subrange(6, 8) =~= le16(v.default_width));
    assert(b.subrange(8, 10) =~= le16(v.default_height));
    assert(b.subrange(10, 12) =~= le16(v.blend_mode));
    assert(b.subrange(13, 16) =~= v.reserved);
    assert(b.subrange(16, 18) =~= le16(n as u16));
    assert(b.subrange(18, 18 + n) =~= v.name);
    lemma_window(s, pos, b, 0, 2);
    lemma_window(s, pos, b, 2, 2);
    lemma_window(s, pos, b, 4, 2);
    lemma_window(s, pos, b, 6, 2);
    lemma_window(s, pos, b, 8, 2);
    lemma_window(s, pos, b, 10, 2);
    lemma_window(s, pos, b, 13, 3);
    lemma_window(s, pos, b, 16, 2);
    lemma_window(s, pos, b, 18, n);
    lemma_u16_read(s, pos, v.flags);
    lemma_u16_read(s, pos + 2, v.layer_type);
    lemma_u16_read(s, pos + 4, v.child_level);
    lemma_u16_read(s, pos + 6, v.default_width);
    lemma_u16_read(s, pos + 8, v.default_height);
    lemma_u16_read(s, pos + 10, v.blend_mode);
    lemma_u16_read(s, pos + 16, n as u16);
    assert(s[pos + 12] == b[12]) by {
        lemma_window(s, pos, b, 12, 1);
        assert(s.subrange(pos + 12, pos + 13)[0] == s[pos + 12]);
    }
    if v.layer_type == TILEMAP_LAYER {
        assert(b.subrange(18 + n, 22 + n) =~= le32(v.tileset_index->0));
        lemma_window(s, pos, b, 18 + n, 4);
        lemma_u32_read(s, pos + 18 + n, v.tileset_index->0);
    }
    let (v2, _) = parse_layer(s, pos, end)->Ok_0;
    assert(v2 == v);
}

pub proof fn lemma_color_profile_sound(s: Seq<u8>, pos: int, end: int)
    requires
        0 <= pos <= end <= s.len(),
        parse_color_profile(s, pos, end).is_ok(),
    ensures
        ({
            let (v, p) = parse_color_profile(s, pos, end)->Ok_0;
            &&& pos <= p <= end
            &&& v.wf()
            &&& color_profile_bytes(v) == s.subrange(pos, p)
        }),
{
    let (v, p) = parse_color_profile(s, pos, end)->Ok_0;
    lemma_u16_write(s, pos);
    lemma_u16_write(s, pos + 2);
    lemma_u32_write(s, pos + 4);
    if v.profile_type == ICC_PROFILE {
        lemma_u32_write(s, pos + 16);
    }
    assert(color_profile_bytes(v) =~= s.subrange(pos, p));
}

pub proof fn lemma_color_profile_complete(s: Seq<u8>, pos: int, end: int, v: ColorProfileChunkView)
    requires
        v.wf(),
        0 <= pos,
        pos + color_profile_bytes(v).len() <= end <= s.len(),
        s.subrange(pos, pos + color_profile_bytes(v).len()) == color_profile_bytes(v),
    ensures
        parse_color_profile(s, pos, end) == Ok::<(ColorProfileChunkView, int), DecodeError>(
            (v, pos + color_profile_bytes(v).len()),
        ),
{
    let b = color_profile_bytes(v);
    assert(b.subrange(0, 2) =~= le16(v.profile_type));
    assert(b.subrange(2, 4) =~= le16(v.flags));
    assert(b.subrange(4, 8) =~= le32(v.gamma));
    assert(b.subrange(8, 16) =~= v.reserved);
    lemma_window(s, pos, b, 0, 2);
    lemma_window(s, pos, b, 2, 2);
    lemma_window(s, pos, b, 4, 4);
    lemma_window(s, pos, b, 8, 8);
    lemma_u16_read(s, pos, v.profile_type);
    lemma_u16_read(s, pos + 2, v.flags);
    lemma_u32_read(s, pos + 4, v.gamma);
    if v.profile_type == ICC_PROFILE {
        let d = v.icc->0;
        assert(b.subrange(16, 20) =~= le32(d.len() as u32));
        assert(b.subrange(20, 20 + d.len() as int) =~= d);
        lemma_window(s, pos, b, 16, 4);
        lemma_window(s, pos, b, 20, d.len() as int);
        lemma_u32_read(s, pos + 16, d.len() as u32);
    }
    let (v2, _) = parse_color_profile(s, pos, end)->Ok_0;
    assert(v2 == v);
}

pub proof fn lemma_cel_sound(s: Seq<u8>, pos: int, end: int, d: ColorDepth)
    requires
        0 <= pos <= end <= s.len(),
        parse_cel(s, pos, end, d).is_ok(),
    ensures
        ({
            let (v, p) = parse_cel(s, pos, end, d)->Ok_0;
            &&& pos <= p <= end
            &&& v.wf(d)
            &&& cel_bytes(v) == s.subrange(pos, p)
        }),
{
    let (v, p) = parse_cel(s, pos, end, d)->Ok_0;
    lemma_u16_write(s, pos);
    lemma_i16_write(s, pos + 2);
    lemma_i16_write(s, pos + 4);
    lemma_u16_write(s, pos + 7);
    lemma_i16_write(s, pos + 9);
    if v.cel_type == 0 {
        lemma_u16_write(s, pos + 16);
        lemma_u16_write(s, pos + 18);
    }
    assert(cel_bytes(v) =~= s.subrange(pos, p));
}

pub proof fn lemma_cel_complete(s: Seq<u8>, pos: int, d: ColorDepth, v: CelChunkView)
    requires
        v.wf(d),
        0 <= pos,
        pos + cel_bytes(v).len() <= s.len(),
        s.subrange(pos, pos + cel_bytes(v).len()) == cel_bytes(v),
    ensures
        parse_cel(s, pos, pos + cel_bytes(v).len(), d) == Ok::<(CelChunkView, int), DecodeError>(
            (v, pos + cel_bytes(v).len()),
        ),
{
    let b = cel_bytes(v);
    let end = pos + b.len();
    assert(b.subrange(0, 2) =~= le16(v.layer_index));
    assert(b.subrange(2, 4) =~= le_i16(v.x));
    assert(b.subrange(4, 6) =~= le_i16(v.y));
    assert(b.subrange(7, 9) =~= le16(v.cel_type));
    assert(b.subrange(9, 11) =~= le_i16(v.z_index));
    assert(b.subrange(11, 16) =~= v.reserved);
    lemma_window(s, pos, b, 0, 2);
    lemma_window(s, pos, b, 2, 2);
    lemma_window(s, pos, b, 4, 2);
    lemma_window(s, pos, b, 7, 2);
    lemma_window(s, pos, b, 9, 2);
    lemma_window(s, pos, b, 11, 5);
    lemma_u16_read(s, pos, v.layer_index);
    lemma_i16_read(s, pos + 2, v.x);
    lemma_i16_read(s, pos + 4, v.y);
    lemma_u16_read(s, pos + 7, v.cel_type);
    lemma_i16_read(s, pos + 9, v.z_index);
    assert(s[pos + 6] == b[6]) by {
        lemma_window(s, pos, b, 6, 1);
        assert(s.subrange(pos + 6, pos + 7)[0] == s[pos + 6]);
    }
    match v.content {
        CelContentView::Image { width, height, pixels } => {
            assert(b.subrange(16, 18) =~= le16(width));
            assert(b.subrange(18, 20) =~= le16(height));
            assert(b.subrange(20, b.len() as int) =~= pixels);
            lemma_window(s, pos, b, 16, 2);
            lemma_window(s, pos, b, 18, 2);
            lemma_window(s, pos, b, 20, b.len() - 20);
            lemma_u16_read(s, pos + 16, width);
            lemma_u16_read(s, pos + 18, height);
        },
        CelContentView::Data(data) => {
            assert(b.subrange(16, b.len() as int) =~= data);
            lemma_window(s, pos, b, 16, b.len() - 16);
        },
    }
    let (v2, _) = parse_cel(s, pos, end, d)->Ok_0;
    assert(v2 == v);
}

pub proof fn lemma_chunk_sound(s: Seq<u8>, pos: int, end: int, d: ColorDepth)
    requires
        0 <= pos <= end <= s.len(),
        parse_chunk(s, pos, end, d).is_ok(),
    ensures
        ({
            let (c, p) = parse_chunk(s, pos, end, d)->Ok_0;
            &&& pos <= p <= end
            &&& c.wf(d)
            &&& chunk_bytes(c) == s.subrange(pos, p)
        }),
{
    let (c, p) = parse_chunk(s, pos, end, d)->Ok_0;
    let t = u16_at(s, pos + 4);
    if t == PALETTE_CHUNK {
        lemma_palette_sound(s, pos + 6, p);
    } else if t == LAYER_CHUNK {
        lemma_layer_sound(s, pos + 6, p);
    } else if t == COLOR_PROFILE_CHUNK {
        lemma_color_profile_sound(s, pos + 6, p);
    } else if t == CEL_CHUNK {
        lemma_cel_sound(s, pos + 6, p, d);
    }
    assert(payload_bytes(c) == s.subrange(pos + 6, p));
    lemma_u32_write(s, pos);
    lemma_u16_write(s, pos + 4);
    assert(chunk_bytes(c) =~= s.subrange(pos, p));
}

pub proof fn lemma_chunk_complete(s: Seq<u8>, pos: int, end: int, d: ColorDepth, c: ChunkView)
    requires
        c.wf(d),
        0 <= pos,
        pos + chunk_bytes(c).len() <= end <= s.len(),
        s.subrange(pos, pos + chunk_bytes(c).len()) == chunk_bytes(c),
    ensures
        parse_chunk(s, pos, end, d) == Ok::<(ChunkView, int), DecodeError>((c, pos + chunk_bytes(c).len())),
{
    let b = chunk_bytes(c);
    let pb = payload_bytes(c);
    let len = (CHUNK_HEADER_SIZE + pb.len()) as u32;
    assert(b.subrange(0, 4) =~= le32(len));
    assert(b.subrange(4, 6) =~= le16(chunk_type(c)));
    assert(b.subrange(6, b.len() as int) =~= pb);
    lemma_window(s, pos, b, 0, 4);
    lemma_window(s, pos, b, 4, 2);
    lemma_window(s, pos, b, 6, pb.len() as int);
    lemma_u32_read(s, pos, len);
    lemma_u16_read(s, pos + 4, chunk_type(c));
    match c {
        ChunkView::Palette(v) => {
            lemma_palette_complete(s, pos + 6, pos + b.len(), v);
        },
        ChunkView::Layer(v) => {
            lemma_layer_complete(s, pos + 6, pos + b.len(), v);
        },
        ChunkView::ColorProfile(v) => {
            lemma_color_profile_complete(s, pos + 6, pos + b.len(), v);
        },
        ChunkView::Cel(v) => {
            lemma_cel_complete(s, pos + 6, d, v);
        },
        ChunkView::Unknown { .. } => {},
    }
}

/// Unknown chunks are preserved: a chunk whose type code is outside the known set decodes as
/// `Unknown` with its payload verbatim, and encodes back to the same bytes.
pub proof fn law_unknown_chunk(s: Seq<u8>, pos: int, end: int, d: ColorDepth, t: u16, data: Seq<u8>)
    requires
        !is_known_type(t),
        CHUNK_HEADER_SIZE + data.len() <= u32::MAX,
        0 <= pos,
        pos + CHUNK_HEADER_SIZE + data.len() <= end <= s.len(),
        s.subrange(pos, pos + CHUNK_HEADER_SIZE + data.len()) == chunk_bytes(
            ChunkView::Unknown { type_code: t, data },
        ),
    ensures
        ({
            let r = parse_chunk(s, pos, end, d);
            &&& r == Ok::<(ChunkView, int), DecodeError>(
                (ChunkView::Unknown { type_code: t, data }, pos + CHUNK_HEADER_SIZE + data.len()),
            )
            &&& chunk_bytes(r->Ok_0.0) == s.subrange(pos, r->Ok_0.1)
        }),
{
    lemma_chunk_complete(s, pos, end, d, ChunkView::Unknown { type_code: t, data });
}

/// In an indexed sprite, a cel whose pixels take four bytes each (as full colour would) does not
/// decode: its payload is longer than its one-byte pixels need.
#[verifier::rlimit(50)]
pub proof fn law_indexed_cel_with_rgba_pixels(s: Seq<u8>, pos: int, end: int, c: CelChunkView)
    requires
        c.wf(ColorDepth::Rgba),
        c.content is Image,
        c.content->width * c.content->height > 0,
        CHUNK_HEADER_SIZE + cel_bytes(c).len() <= u32::MAX,
        0 <= pos,
        pos + chunk_bytes(ChunkView::Cel(c)).len() <= end <= s.len(),
        s.subrange(pos, pos + chunk_bytes(ChunkView::Cel(c)).len()) == chunk_bytes(ChunkView::Cel(c)),
    ensures
        parse_chunk(s, pos, end, ColorDepth::Indexed) == Err::<(ChunkView, int), DecodeError>(
            DecodeError::LengthMismatch,
        ),
{
    let cv = ChunkView::Cel(c);
    let b = chunk_bytes(cv);
    let pb = cel_bytes(c);
    let len = (CHUNK_HEADER_SIZE + pb.len()) as u32;
    assert(b.subrange(0, 4) =~= le32(len));
    assert(b.subrange(4, 6) =~= le16(CEL_CHUNK));
    assert(b.subrange(6, b.len() as int) =~= pb);
    lemma_window(s, pos, b, 0, 4);
    lemma_window(s, pos, b, 4, 2);
    lemma_window(s, pos, b, 6, pb.len() as int);
    lemma_u32_read(s, pos, len);
    lemma_u16_read(s, pos + 4, CEL_CHUNK);
    lemma_cel_complete(s, pos + 6, ColorDepth::Rgba, c);
    assert(pb.subrange(16, 18) =~= le16(c.content->width));
    assert(pb.subrange(18, 20) =~= le16(c.content->height));
    lemma_window(s, pos + 6, pb, 16, 2);
    lemma_window(s, pos + 6, pb, 18, 2);
    lemma_u16_read(s, pos + 22, c.content->width);
    lemma_u16_read(s, pos + 24, c.content->height);
    let wh = c.content->width * c.content->height;
    let pe = pos + 6 + pb.len();
    assert(pb.len() == 20 + wh * 4);
    assert(parse_cel(s, pos + 6, pe, ColorDepth::Rgba) is Ok);
    assert(u16_at(s, pos + 13) == 0);
    let r = parse_cel(s, pos + 6, pe, ColorDepth::Indexed);
    assert(r is Ok && r->Ok_0.1 == pos + 26 + wh);
    assert(exactly(parse_cel(s, pos + 6, pe, ColorDepth::Indexed), pe) == Err::<CelChunkView, DecodeError>(
        DecodeError::LengthMismatch,
    ));
}

// ---- well-formedness checks, and writing that refuses what would not decode back ----

impl PaletteEntry {
    pub fn well_formed(&self) -> (r: bool)
        ensures
            r == self@.wf(),
    {
        match &self.name {
            Some(n) => self.flags % 2 == 1 && n.len() <= 0xFFFF,
            None => self.flags % 2 != 1,
        }
    }
}

impl PaletteChunk {
    pub fn well_formed(&self) -> (r: bool)
        ensures
            r == self@.wf(),
    {
        let count: u64 = if self.first <= self.last {
            (self.last - self.first) as u64 + 1
        } else {
            0
        };
        if self.reserved.len() != 8 || self.entries.len() as u64 != count {
            return false;
        }
        let ghost es = self@.entries;
        let mut i: usize = 0;
        while i < self.entries.len()
            invariant
                i <= self.entries@.len(),
                es == self.entries@.map_values(|e: PaletteEntry| e@),
                forall|j: int| 0 <= j < i ==> (#[trigger] es[j]).wf(),
            decreases self.entries@.len() - i,
        {
            assert(es[i as int] == self.entries@[i as int]@);
            if !self.entries[i].well_formed() {
                return false;
            }
            i = i + 1;
        }
        true
    }
}

impl LayerChunk {
    pub fn well_formed(&self) -> (r: bool)
        ensures
            r == self@.wf(),
    {
        self.reserved.len() == 3 && self.name.len() <= 0xFFFF && self.tileset_index.is_some() == (
        self.layer_type == TILEMAP_LAYER)
    }
}

impl ColorProfileChunk {
    pub fn well_formed(&self) -> (r: bool)
        ensures
            r == self@.wf(),
    {
        if self.reserved.len() != 8 {
            return false;
        }
        match &self.icc {
            Some(d) => self.profile_type == ICC_PROFILE && d.len() <= u32::MAX as usize,
            None => self.profile_type != ICC_PROFILE,
        }
    }
}

impl CelChunk {
    /// Whether the cel is well formed in a sprite of depth `d`.
    pub fn well_formed(&self, d: ColorDepth) -> (r: bool)
        ensures
            r == self@.wf(d),
    {
        if self.reserved.len() != 5 {
            return false;
        }
        match &self.content {
            CelContent::Image { width, height, pixels } => {
                let w = *width;
                let h = *height;
                assert((w as u64) * (h as u64) <= 65535 * 65535) by (nonlinear_arith)
                    requires
                        w <= 65535,
                        h <= 65535,
                ;
                let wh = (w as u64) * (h as u64);
                let bpp = d.bytes_per_pixel() as u64;
                assert(wh * bpp <= 65535 * 65535 * 4) by (nonlinear_arith)
                    requires
                        wh <= 65535 * 65535,
                        bpp <= 4,
                ;
                self.cel_type == 0 && pixels.len() as u64 == wh * bpp
            },
            CelContent::Data(_) => self.cel_type != 0,
        }
    }
}

impl Chunk {
    /// Appends the chunk where it is well formed in a sprite of depth `d`, and says whether it
    /// did; where it is not, nothing is written.
    pub fn try_write(&self, out: &mut Vec<u8>, d: ColorDepth) -> (ok: bool)
        ensures
            ok == self@.wf(d),
            ok ==> final(out)@ == old(out)@ + chunk_bytes(self@),
            !ok ==> final(out)@ == old(out)@,
    {
        let kind_ok = match self {
            Chunk::Palette(p) => p.well_formed(),
            Chunk::Layer(l) => l.well_formed(),
            Chunk::ColorProfile(c) => c.well_formed(),
            Chunk::Cel(c) => c.well_formed(d),
            Chunk::Unknown { type_code, .. } => *type_code != PALETTE_CHUNK && *type_code
                != LAYER_CHUNK && *type_code != CEL_CHUNK && *type_code != COLOR_PROFILE_CHUNK,
        };
        if !kind_ok {
            return false;
        }
        let payload = self.payload();
        if payload.len() > (u32::MAX - 6) as usize {
            return false;
        }
        let total = CHUNK_HEADER_SIZE + payload.len();
        push_u32(out, total as u32);
        push_u16(out, self.type_code());
        push_bytes(out, payload.as_slice());
        assert(final(out)@ =~= old(out)@ + chunk_bytes(self@));
        true
    }
}

} // verus!
