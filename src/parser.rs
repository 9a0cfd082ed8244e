//! The container: header, metadata, animation and sound headers, and the
//! decoding of frames, resolving each one's chain of previous frames.
use vstd::prelude::*;
use vstd::utf8::{decode_utf8, valid_utf8};
use crate::bytes::{fits, le16, le32, read_n_to_vec, read_u16_le, read_u32_le, read_u8};
use crate::error::PpmError;
use crate::frame::{
    blank, cell, decode_frame, frame_bytes, frame_planes, is_new, lemma_planes_of_cells, planes_of,
    step, Planes,
};
use crate::palette::{palette, palette_of, Rgb};
use crate::text::{filename_string, filename_text, hex_rev, name_text, vec_u8_to_string, without_nul};

verus! {

/// Seconds from the Unix epoch to 2000-01-01T00:00:00Z.
pub const EPOCH_2000: i64 = 946_684_800;

/// Where the animation section starts.
pub const ANIMATION_AT: usize = 0x06A0;

/// Marks the absence of a decoded frame in the layer buffers.
const NO_FRAME: usize = usize::MAX;

/// The metadata of a container.
pub struct Metadata {
    pub animation_data_size: u32,
    pub sound_data_size: u32,
    pub frame_count: u16,
    pub lock: u16,
    pub thumb_index: u16,
    pub root_author_name: String,
    pub parent_author_name: String,
    pub current_author_name: String,
    pub root_author_id: String,
    pub parent_author_id: String,
    pub current_author_id: String,
    pub parent_filename: String,
    pub current_filename: String,
    pub partial_filename: String,
    /// Seconds since the Unix epoch.
    pub timestamp: i64,
    pub layer_1_visible: bool,
    pub layer_2_visible: bool,
    pub loop_: bool,
    pub frame_speed: u8,
    pub bgm_speed: u8,
    /// Frames per second, in thousandths.
    pub framerate_milli: u32,
    /// BGM frames per second, in thousandths.
    pub bgm_framerate_milli: u32,
}

/// A container held in memory, with the two-layer state of the last decoded
/// frame and of the one before it.
pub struct PPMParser {
    stream: Vec<u8>,
    layers: Vec<u8>,
    prev_layers: Vec<u8>,
    prev_frame_index: usize,
    meta: Metadata,
    offset_table: Vec<u32>,
}

/// The stored frame count, one less than the number of frames.
pub open spec fn raw_frame_count(d: Seq<u8>) -> u16 {
    le16(d, 12)
}

/// The number of frames.
pub open spec fn frame_count_of(d: Seq<u8>) -> int {
    raw_frame_count(d) + 1
}

/// The size of the animation section.
pub open spec fn animation_size_of(d: Seq<u8>) -> u32 {
    le32(d, 4)
}

/// The size in bytes of the frame offset table.
pub open spec fn table_size_of(d: Seq<u8>) -> u16 {
    le16(d, 0x6A0)
}

/// The packed animation flags.
pub open spec fn anim_flags_of(d: Seq<u8>) -> u32 {
    le32(d, 0x6A4)
}

/// The absolute position of frame `k`, from the packed offset table.
pub open spec fn offset_entry(d: Seq<u8>, k: int) -> int {
    le32(d, 0x6A8 + 4 * k) + 0x6A8 + table_size_of(d)
}

/// The animation data region ends here.
pub open spec fn animation_end(d: Seq<u8>) -> int {
    0x6A0 + animation_size_of(d)
}

/// Every frame offset lies in the animation data region.
pub open spec fn offsets_in_region(d: Seq<u8>) -> bool {
    forall|k: int|
        0 <= k < frame_count_of(d) ==> #[trigger] offset_entry(d, k) < animation_end(d)
            && offset_entry(d, k) <= u32::MAX
}

/// The offset table, one entry per frame.
pub open spec fn offsets_of(d: Seq<u8>) -> Seq<u32> {
    Seq::new(frame_count_of(d) as nat, |k: int| offset_entry(d, k) as u32)
}

/// Where the sound header starts: after the animation data and one flag byte
/// per frame, moved up to the next multiple of four where it is odd.
pub open spec fn sound_at(d: Seq<u8>) -> int {
    let o = 0x6A0 + animation_size_of(d) + frame_count_of(d);
    if o % 2 != 0 {
        o + 4 - o % 4
    } else {
        o
    }
}

/// The speed that a stored speed byte stands for.
pub open spec fn speed_of(raw: u8) -> int {
    8 - raw
}

/// Frames per second of a speed in `1..=8`, in thousandths.
pub open spec fn framerate_milli_of(speed: int) -> u32 {
    if speed == 1 {
        500
    } else if speed == 2 {
        1000
    } else if speed == 3 {
        2000
    } else if speed == 4 {
        4000
    } else if speed == 5 {
        6000
    } else if speed == 6 {
        12000
    } else if speed == 7 {
        20000
    } else {
        30000
    }
}

/// The 22-byte author name buffer at `at`, without its zero bytes.
pub open spec fn name_bytes(d: Seq<u8>, at: int) -> Seq<u8> {
    without_nul(d.subrange(at, at + 22))
}

/// The outcome of loading the container `d`: the first check that fails, in
/// the order header, metadata, animation header, sound header.
pub open spec fn load_result(d: Seq<u8>) -> Result<(), PpmError> {
    if d.len() < 16 {
        Err(PpmError::Truncated)
    } else if !(d[0] == 0x50 && d[1] == 0x41 && d[2] == 0x52 && d[3] == 0x41) {
        Err(PpmError::BadMagic)
    } else if raw_frame_count(d) == 0xFFFF {
        Err(PpmError::InvalidOffsetTable)
    } else if d.len() < 0x9E {
        Err(PpmError::Truncated)
    } else if !valid_utf8(name_bytes(d, 0x14)) || !valid_utf8(name_bytes(d, 0x2A))
        || !valid_utf8(name_bytes(d, 0x40)) {
        Err(PpmError::InvalidText)
    } else if d.len() < 0x6A8 {
        Err(PpmError::Truncated)
    } else if table_size_of(d) != 4 * frame_count_of(d) {
        Err(PpmError::InvalidOffsetTable)
    } else if d.len() < 0x6A8 + table_size_of(d) {
        Err(PpmError::Truncated)
    } else if !offsets_in_region(d) {
        Err(PpmError::InvalidOffsetTable)
    } else if d.len() < sound_at(d) + 18 {
        Err(PpmError::Truncated)
    } else if d[sound_at(d) + 16] > 7 || d[sound_at(d) + 17] > 7 {
        Err(PpmError::InvalidSpeed)
    } else {
        Ok(())
    }
}

/// A frame as indexed pixels: 1 where layer one is set, else 2 where layer
/// two is set, else 0.
pub open spec fn pixel_rows(p: Planes) -> Seq<Seq<u8>> {
    Seq::new(
        192,
        |y: int|
            Seq::new(
                256,
                |x: int|
                    if p[0][y][x] != 0 {
                        1u8
                    } else if p[1][y][x] != 0 {
                        2u8
                    } else {
                        0u8
                    },
            ),
    )
}

/// The pixels of frame `i`, or why it cannot be decoded.
pub open spec fn frame_pixels(d: Seq<u8>, offs: Seq<u32>, i: int) -> Result<Seq<Seq<u8>>, PpmError> {
    if !(0 <= i < offs.len()) {
        Err(PpmError::InvalidFrameIndex)
    } else {
        match frame_planes(d, offs, i) {
            None => Err(PpmError::Truncated),
            Some(p) => Ok(pixel_rows(p)),
        }
    }
}

/// The palette of frame `i`, or why it cannot be had.
pub open spec fn frame_palette(d: Seq<u8>, offs: Seq<u32>, i: int) -> Result<Seq<Rgb>, PpmError> {
    if !(0 <= i < offs.len()) {
        Err(PpmError::InvalidFrameIndex)
    } else if offs[i] >= d.len() {
        Err(PpmError::Truncated)
    } else {
        palette_of(d[offs[i] as int])
    }
}

impl PPMParser {
    /// The container's bytes.
    pub closed spec fn data(&self) -> Seq<u8> {
        self.stream@
    }

    /// The frame offset table.
    pub closed spec fn offsets(&self) -> Seq<u32> {
        self.offset_table@
    }

    /// The number of frames.
    pub closed spec fn frame_count_spec(&self) -> u16 {
        self.meta.frame_count
    }

    /// The metadata decoded by the last successful load.
    pub closed spec fn meta_spec(&self) -> &Metadata {
        &self.meta
    }

    /// The layer buffers have their size, the offset table one entry per
    /// frame, and the current layers hold the frame they are marked with.
    pub closed spec fn wf(&self) -> bool {
        &&& self.layers@.len() == 98304
        &&& self.prev_layers@.len() == 98304
        &&& self.offset_table@.len() == self.meta.frame_count
        &&& self.prev_frame_index < self.offset_table@.len() ==> frame_planes(
            self.stream@,
            self.offset_table@,
            self.prev_frame_index as int,
        ) == Some(planes_of(self.layers@))
    }

    /// A parser over `stream`, not loaded yet: it has no frames.
    pub fn new(stream: Vec<u8>) -> (r: Self)
        ensures
            r.wf(),
            r.data() == stream@,
            r.offsets().len() == 0,
            r.frame_count_spec() == 0,
    {
        PPMParser {
            stream,
            layers: vec![0u8; 98304],
            prev_layers: vec![0u8; 98304],
            prev_frame_index: NO_FRAME,
            meta: Metadata {
                animation_data_size: 0,
                sound_data_size: 0,
                frame_count: 0,
                lock: 0,
                thumb_index: 0,
                root_author_name: String::new(),
                parent_author_name: String::new(),
                current_author_name: String::new(),
                root_author_id: String::new(),
                parent_author_id: String::new(),
                current_author_id: String::new(),
                parent_filename: String::new(),
                current_filename: String::new(),
                partial_filename: String::new(),
                timestamp: 0,
                layer_1_visible: false,
                layer_2_visible: false,
                loop_: false,
                frame_speed: 0,
                bgm_speed: 0,
                framerate_milli: 0,
                bgm_framerate_milli: 0,
            },
            offset_table: Vec::new(),
        }
    }
}

/// `m` holds the metadata fields of the container `d`.
pub open spec fn meta_of(m: &Metadata, d: Seq<u8>) -> bool {
    &&& m.animation_data_size == animation_size_of(d)
    &&& m.sound_data_size == le32(d, 8)
    &&& m.frame_count == frame_count_of(d)
    &&& m.lock == le16(d, 0x10)
    &&& m.thumb_index == le16(d, 0x12)
    &&& m.root_author_name@ == decode_utf8(name_bytes(d, 0x14))
    &&& m.parent_author_name@ == decode_utf8(name_bytes(d, 0x2A))
    &&& m.current_author_name@ == decode_utf8(name_bytes(d, 0x40))
    &&& m.parent_author_id@ == hex_rev(d.subrange(0x56, 0x5E))
    &&& m.current_author_id@ == hex_rev(d.subrange(0x5E, 0x66))
    &&& m.parent_filename@ == filename_text(d.subrange(0x66, 0x78))
    &&& m.current_filename@ == filename_text(d.subrange(0x78, 0x8A))
    &&& m.root_author_id@ == hex_rev(d.subrange(0x8A, 0x92))
    &&& m.partial_filename@ == hex_rev(d.subrange(0x92, 0x9A))
    &&& m.timestamp == EPOCH_2000 + le32(d, 0x9A)
    &&& m.layer_1_visible == ((anim_flags_of(d) >> 11u32) & 1u32 != 0)
    &&& m.layer_2_visible == ((anim_flags_of(d) >> 10u32) & 1u32 != 0)
    &&& m.loop_ == ((anim_flags_of(d) >> 1u32) & 1u32 != 0)
    &&& m.frame_speed == speed_of(d[sound_at(d) + 16])
    &&& m.bgm_speed == speed_of(d[sound_at(d) + 17])
    &&& m.framerate_milli == framerate_milli_of(speed_of(d[sound_at(d) + 16]))
    &&& m.bgm_framerate_milli == framerate_milli_of(speed_of(d[sound_at(d) + 17]))
}

/// Decodes the file header: animation and sound data sizes and the frame
/// count.
fn read_header(d: &Vec<u8>) -> (r: Result<(u32, u32, u16), PpmError>)
    ensures
        r is Ok <==> d@.len() >= 16 && d@[0] == 0x50 && d@[1] == 0x41 && d@[2] == 0x52 && d@[3]
            == 0x41 && raw_frame_count(d@) != 0xFFFF,
        r is Err ==> load_result(d@) == Err::<(), PpmError>(r->Err_0),
        r is Ok ==> r->Ok_0 == (animation_size_of(d@), le32(d@, 8), frame_count_of(d@) as u16),
{
    if d.len() < 16 {
        return Err(PpmError::Truncated);
    }
    if !(d[0] == 0x50 && d[1] == 0x41 && d[2] == 0x52 && d[3] == 0x41) {
        return Err(PpmError::BadMagic);
    }
    let animation_data_size = read_u32_le(d, 4)?;
    let sound_data_size = read_u32_le(d, 8)?;
    let frame_count = read_u16_le(d, 12)?;
    let _version = read_u16_le(d, 14)?;
    if frame_count == 0xFFFF {
        return Err(PpmError::InvalidOffsetTable);
    }
    Ok((animation_data_size, sound_data_size, frame_count + 1))
}

/// Decodes the parent or current filename record at `pos`.
fn read_filename(d: &Vec<u8>, pos: usize) -> (r: String)
    requires
        fits(d@, pos as int, 18),
    ensures
        r@ == filename_text(d@.subrange(pos as int, pos + 18)),
{
    match read_n_to_vec(d, pos, 18) {
        Ok(b) => filename_string(&b),
        Err(_) => String::new(),
    }
}

/// The eight bytes at `pos` in hexadecimal, last byte first.
fn read_id(d: &Vec<u8>, pos: usize) -> (r: String)
    requires
        fits(d@, pos as int, 8),
    ensures
        r@ == hex_rev(d@.subrange(pos as int, pos + 8)),
{
    match read_n_to_vec(d, pos, 8) {
        Ok(b) => vec_u8_to_string(&b),
        Err(_) => String::new(),
    }
}

/// The author name buffer at `pos`.
fn read_name(d: &Vec<u8>, pos: usize) -> (r: Option<String>)
    requires
        fits(d@, pos as int, 22),
    ensures
        r is Some <==> valid_utf8(name_bytes(d@, pos as int)),
        r is Some ==> r->Some_0@ == decode_utf8(name_bytes(d@, pos as int)),
{
    match read_n_to_vec(d, pos, 22) {
        Ok(b) => name_text(&b),
        Err(_) => None,
    }
}

/// Decodes the metadata block into `m`.
fn read_meta(d: &Vec<u8>, m: &mut Metadata) -> (r: Result<(), PpmError>)
    requires
        d@.len() >= 16,
        d@[0] == 0x50 && d@[1] == 0x41 && d@[2] == 0x52 && d@[3] == 0x41,
        raw_frame_count(d@) != 0xFFFF,
    ensures
        r is Ok <==> d@.len() >= 0x9E && valid_utf8(name_bytes(d@, 0x14)) && valid_utf8(
            name_bytes(d@, 0x2A),
        ) && valid_utf8(name_bytes(d@, 0x40)),
        r is Err ==> load_result(d@) == r,
        final(m).animation_data_size == old(m).animation_data_size,
        final(m).sound_data_size == old(m).sound_data_size,
        final(m).frame_count == old(m).frame_count,
        r is Ok ==> {
            &&& final(m).lock == le16(d@, 0x10)
            &&& final(m).thumb_index == le16(d@, 0x12)
            &&& final(m).root_author_name@ == decode_utf8(name_bytes(d@, 0x14))
            &&& final(m).parent_author_name@ == decode_utf8(name_bytes(d@, 0x2A))
            &&& final(m).current_author_name@ == decode_utf8(name_bytes(d@, 0x40))
            &&& final(m).parent_author_id@ == hex_rev(d@.subrange(0x56, 0x5E))
            &&& final(m).current_author_id@ == hex_rev(d@.subrange(0x5E, 0x66))
            &&& final(m).parent_filename@ == filename_text(d@.subrange(0x66, 0x78))
            &&& final(m).current_filename@ == filename_text(d@.subrange(0x78, 0x8A))
            &&& final(m).root_author_id@ == hex_rev(d@.subrange(0x8A, 0x92))
            &&& final(m).partial_filename@ == hex_rev(d@.subrange(0x92, 0x9A))
            &&& final(m).timestamp == EPOCH_2000 + le32(d@, 0x9A)
        },
{
    if d.len() < 0x9E {
        return Err(PpmError::Truncated);
    }
    let root = read_name(d, 0x14);
    let parent = read_name(d, 0x2A);
    let current = read_name(d, 0x40);
    match (root, parent, current) {
        (Some(root), Some(parent), Some(current)) => {
            m.lock = read_u16_le(d, 0x10)?;
            m.thumb_index = read_u16_le(d, 0x12)?;
            m.root_author_name = root;
            m.parent_author_name = parent;
            m.current_author_name = current;
            m.parent_author_id = read_id(d, 0x56);
            m.current_author_id = read_id(d, 0x5E);
            m.parent_filename = read_filename(d, 0x66);
            m.current_filename = read_filename(d, 0x78);
            m.root_author_id = read_id(d, 0x8A);
            m.partial_filename = read_id(d, 0x92);
            let seconds = read_u32_le(d, 0x9A)?;
            m.timestamp = seconds as i64 + EPOCH_2000;
            Ok(())
        },
        _ => Err(PpmError::InvalidText),
    }
}

/// The conditions of `load_result` before the animation header.
pub open spec fn head_ok(d: Seq<u8>) -> bool {
    &&& d.len() >= 0x9E
    &&& d[0] == 0x50 && d[1] == 0x41 && d[2] == 0x52 && d[3] == 0x41
    &&& raw_frame_count(d) != 0xFFFF
    &&& valid_utf8(name_bytes(d, 0x14)) && valid_utf8(name_bytes(d, 0x2A)) && valid_utf8(
        name_bytes(d, 0x40),
    )
}

/// The conditions of `load_result` on the animation header.
pub open spec fn animation_ok(d: Seq<u8>) -> bool {
    &&& d.len() >= 0x6A8
    &&& table_size_of(d) == 4 * frame_count_of(d)
    &&& d.len() >= 0x6A8 + table_size_of(d)
    &&& offsets_in_region(d)
}

/// Decodes the animation header: the layer visibility and loop flags and the
/// frame offset table.
fn read_animation_header(d: &Vec<u8>, frame_count: u16, animation_data_size: u32) -> (r: Result<
    (bool, bool, bool, Vec<u32>),
    PpmError,
>)
    requires
        head_ok(d@),
        frame_count == frame_count_of(d@),
        animation_data_size == animation_size_of(d@),
    ensures
        r is Ok <==> animation_ok(d@),
        r is Err ==> load_result(d@) == Err::<(), PpmError>(r->Err_0),
        r is Ok ==> {
            let (l1, l2, lp, table) = r->Ok_0;
            &&& l1 == ((anim_flags_of(d@) >> 11u32) & 1u32 != 0)
            &&& l2 == ((anim_flags_of(d@) >> 10u32) & 1u32 != 0)
            &&& lp == ((anim_flags_of(d@) >> 1u32) & 1u32 != 0)
            &&& table@ == offsets_of(d@)
        },
{
    if d.len() < 0x6A8 {
        return Err(PpmError::Truncated);
    }
    let table_size = read_u16_le(d, ANIMATION_AT)?;
    let _unknown = read_u16_le(d, ANIMATION_AT + 2)?;
    let flags = read_u32_le(d, ANIMATION_AT + 4)?;
    let layer_1_visible = (flags >> 11u32) & 1u32 != 0;
    let layer_2_visible = (flags >> 10u32) & 1u32 != 0;
    let loop_ = (flags >> 1u32) & 1u32 != 0;
    if table_size as usize != 4 * frame_count as usize {
        return Err(PpmError::InvalidOffsetTable);
    }
    if d.len() - 0x6A8 < table_size as usize {
        return Err(PpmError::Truncated);
    }
    let end: u64 = 0x6A0 + animation_data_size as u64;
    let mut table: Vec<u32> = Vec::with_capacity(frame_count as usize);
    let mut k: usize = 0;
    while k < frame_count as usize
        invariant
            head_ok(d@),
            frame_count == frame_count_of(d@),
            table_size == table_size_of(d@),
            table_size == 4 * frame_count,
            d@.len() >= 0x6A8 + table_size,
            end == animation_end(d@),
            k <= frame_count,
            table@.len() == k,
            forall|j: int| 0 <= j < k ==> #[trigger] offset_entry(d@, j) < animation_end(d@)
                && offset_entry(d@, j) <= u32::MAX,
            forall|j: int| 0 <= j < k ==> table@[j] == offset_entry(d@, j),
        decreases frame_count - k,
    {
        let raw = read_u32_le(d, 0x6A8 + 4 * k)?;
        let off: u64 = raw as u64 + 0x6A8 + table_size as u64;
        assert(off == offset_entry(d@, k as int));
        if off >= end || off > u32::MAX as u64 {
            return Err(PpmError::InvalidOffsetTable);
        }
        table.push(off as u32);
        k += 1;
    }
    assert(table@ =~= offsets_of(d@));
    Ok((layer_1_visible, layer_2_visible, loop_, table))
}

/// Frames per second of a speed in `1..=8`, in thousandths.
fn framerate_milli(speed: u8) -> (r: u32)
    ensures
        r == framerate_milli_of(speed as int),
{
    if speed == 1 {
        500
    } else if speed == 2 {
        1000
    } else if speed == 3 {
        2000
    } else if speed == 4 {
        4000
    } else if speed == 5 {
        6000
    } else if speed == 6 {
        12000
    } else if speed == 7 {
        20000
    } else {
        30000
    }
}

/// Decodes the sound header: the frame and BGM speeds.
fn read_sound_header(d: &Vec<u8>, frame_count: u16, animation_data_size: u32) -> (r: Result<
    (u8, u8),
    PpmError,
>)
    requires
        head_ok(d@),
        animation_ok(d@),
        frame_count == frame_count_of(d@),
        animation_data_size == animation_size_of(d@),
    ensures
        r is Ok <==> load_result(d@) is Ok,
        r is Err ==> load_result(d@) == Err::<(), PpmError>(r->Err_0),
        r is Ok ==> r->Ok_0 == (speed_of(d@[sound_at(d@) + 16]) as u8, speed_of(
            d@[sound_at(d@) + 17],
        ) as u8),
{
    let mut offset: u64 = 0x6A0 + animation_data_size as u64 + frame_count as u64;
    if offset % 2 != 0 {
        offset = offset + 4 - offset % 4;
    }
    assert(offset == sound_at(d@));
    if (d.len() as u64) < 18 || offset > d.len() as u64 - 18 {
        return Err(PpmError::Truncated);
    }
    let at = offset as usize;
    let _bgm_size = read_u32_le(d, at)?;
    let _se1_size = read_u32_le(d, at + 4)?;
    let _se2_size = read_u32_le(d, at + 8)?;
    let _se3_size = read_u32_le(d, at + 12)?;
    let frame_speed = read_u8(d, at + 16)?;
    let bgm_speed = read_u8(d, at + 17)?;
    if frame_speed > 7 || bgm_speed > 7 {
        return Err(PpmError::InvalidSpeed);
    }
    Ok((8 - frame_speed, 8 - bgm_speed))
}

impl PPMParser {
    /// Decodes the header, metadata, animation header and sound header. On
    /// success the parser holds the container's metadata and one offset per
    /// frame; on failure it is left as it was.
    pub fn load(&mut self) -> (r: Result<(), PpmError>)
        requires
            old(self).wf(),
        ensures
            final(self).wf(),
            final(self).data() == old(self).data(),
            r == load_result(old(self).data()),
            r is Ok ==> meta_of(final(self).meta_spec(), final(self).data()),
            r is Ok ==> final(self).offsets() == offsets_of(final(self).data()),
            r is Ok ==> final(self).frame_count_spec() == raw_frame_count(final(self).data()) + 1,
            r is Ok ==> final(self).meta_spec().timestamp == EPOCH_2000 + le32(
                final(self).data(),
                0x9A,
            ),
            r is Err ==> final(self).offsets() == old(self).offsets() && final(self).meta_spec()
                == old(self).meta_spec(),
    {
        let d = &self.stream;
        let (animation_data_size, sound_data_size, frame_count) = read_header(d)?;
        let mut m = Metadata {
            animation_data_size,
            sound_data_size,
            frame_count,
            lock: 0,
            thumb_index: 0,
            root_author_name: String::new(),
            parent_author_name: String::new(),
            current_author_name: String::new(),
            root_author_id: String::new(),
            parent_author_id: String::new(),
            current_author_id: String::new(),
            parent_filename: String::new(),
            current_filename: String::new(),
            partial_filename: String::new(),
            timestamp: 0,
            layer_1_visible: false,
            layer_2_visible: false,
            loop_: false,
            frame_speed: 0,
            bgm_speed: 0,
            framerate_milli: 0,
            bgm_framerate_milli: 0,
        };
        read_meta(d, &mut m)?;
        let (layer_1_visible, layer_2_visible, loop_, table) = read_animation_header(
            d,
            frame_count,
            animation_data_size,
        )?;
        let (frame_speed, bgm_speed) = read_sound_header(d, frame_count, animation_data_size)?;
        m.layer_1_visible = layer_1_visible;
        m.layer_2_visible = layer_2_visible;
        m.loop_ = loop_;
        m.frame_speed = frame_speed;
        m.bgm_speed = bgm_speed;
        m.framerate_milli = framerate_milli(frame_speed);
        m.bgm_framerate_milli = framerate_milli(bgm_speed);
        self.meta = m;
        self.offset_table = table;
        self.prev_frame_index = NO_FRAME;
        Ok(())
    }
}

/// A chain of frames that are not new, and fails at its first frame, fails
/// at its last.
proof fn lemma_chain_fails(d: Seq<u8>, offs: Seq<u32>, k: int, i: int)
    requires
        0 <= k <= i < offs.len(),
        frame_planes(d, offs, k) is None,
        forall|j: int| k < j <= i ==> !is_new(#[trigger] frame_bytes(d, offs[j] as int)),
    ensures
        frame_planes(d, offs, i) is None,
    decreases i,
{
    if i > k {
        lemma_chain_fails(d, offs, k, i - 1);
        assert(!is_new(frame_bytes(d, offs[i] as int)));
    }
}

/// A buffer of zeros holds the blank frame.
proof fn lemma_zero_is_blank(s: Seq<u8>)
    requires
        s.len() == 98304,
        forall|k: int| 0 <= k < 98304 ==> s[k] == 0,
    ensures
        planes_of(s) == blank(),
{
    assert forall|l: int, y: int, x: int|
        0 <= l < 2 && 0 <= y < 192 && 0 <= x < 256 implies #[trigger] cell(s, l, y, x)
        == blank()[l][y][x] by {
        assert(s[l * 49152 + y * 256 + x] == 0);
    }
    lemma_planes_of_cells(s, blank());
}

impl PPMParser {
    /// The container and its metadata are those of `other`.
    pub closed spec fn same_container(&self, other: &Self) -> bool {
        &&& self.stream@ == other.stream@
        &&& self.offset_table@ == other.offset_table@
        &&& self.meta == other.meta
    }

    /// Whether frame `index` is a new frame.
    fn frame_is_new(&self, index: usize) -> (r: Result<bool, PpmError>)
        requires
            index < self.offset_table@.len(),
        ensures
            (self.offset_table@[index as int] as int) < self.stream@.len() ==> r == Ok::<
                bool,
                PpmError,
            >(is_new(frame_bytes(self.stream@, self.offset_table@[index as int] as int))),
            (self.offset_table@[index as int] as int) >= self.stream@.len() ==> r is Err,
    {
        let off = self.offset_table[index] as usize;
        let h = read_u8(&self.stream, off)?;
        assert(frame_bytes(self.stream@, off as int)[0] == h);
        Ok(h & 0x80u8 != 0)
    }

    /// Decodes frame `k` on top of the frame that the current layers hold.
    fn decode_one(&mut self, k: usize) -> (r: Result<(), PpmError>)
        requires
            old(self).wf(),
            k < old(self).offset_table@.len(),
            frame_planes(old(self).stream@, old(self).offset_table@, k as int) == step(
                frame_bytes(old(self).stream@, old(self).offset_table@[k as int] as int),
                planes_of(old(self).layers@),
            ),
        ensures
            final(self).wf(),
            final(self).same_container(old(self)),
            r is Ok <==> frame_planes(old(self).stream@, old(self).offset_table@, k as int) is Some,
            r is Ok ==> final(self).prev_frame_index == k,
    {
        std::mem::swap(&mut self.layers, &mut self.prev_layers);
        self.prev_frame_index = NO_FRAME;
        let base = self.offset_table[k] as usize;
        match decode_frame(&self.stream, base, &mut self.layers, &self.prev_layers) {
            Ok(()) => {
                self.prev_frame_index = k;
                Ok(())
            },
            Err(e) => Err(e),
        }
    }

    /// Composes frame `index` into the current layers, first decoding the run
    /// of frames it depends on back to the nearest new frame, to frame 0, or
    /// to the frame that the layers already hold.
    fn read_frame(&mut self, index: usize) -> (r: Result<(), PpmError>)
        requires
            old(self).wf(),
            index < old(self).offset_table@.len(),
        ensures
            final(self).wf(),
            final(self).same_container(old(self)),
            r is Ok <==> frame_planes(old(self).stream@, old(self).offset_table@, index as int) is Some,
            r is Ok ==> final(self).prev_frame_index == index,
    {
        let ghost d = self.stream@;
        let ghost offs = self.offset_table@;
        let mut start = index;
        loop
            invariant
                self.wf(),
                self.same_container(old(self)),
                d == self.stream@,
                offs == self.offset_table@,
                start <= index < offs.len(),
                forall|j: int| start < j <= index ==> !is_new(#[trigger] frame_bytes(d, offs[j] as int)),
            ensures
                self.wf(),
                self.same_container(old(self)),
                start <= index < offs.len(),
                forall|j: int| start < j <= index ==> !is_new(#[trigger] frame_bytes(d, offs[j] as int)),
                start == 0 || self.prev_frame_index == start - 1 || is_new(frame_bytes(d, offs[start as int] as int)),
            decreases start,
        {
            if start == 0 {
                break;
            }
            if self.prev_frame_index == start - 1 {
                break;
            }
            let fresh = match self.frame_is_new(start) {
                Ok(b) => b,
                Err(e) => {
                    proof {
                        lemma_chain_fails(d, offs, start as int, index as int);
                    }
                    return Err(e);
                },
            };
            if fresh {
                break;
            }
            start -= 1;
        }
        if start == 0 {
            self.prev_frame_index = NO_FRAME;
            let mut z: usize = 0;
            while z < 98304
                invariant
                    z <= 98304,
                    self.layers@.len() == 98304,
                    self.wf(),
                    self.prev_frame_index == NO_FRAME,
                    self.same_container(old(self)),
                    d == self.stream@,
                    offs == self.offset_table@,
                    forall|j: int| 0 <= j < z ==> self.layers@[j] == 0,
                decreases 98304 - z,
            {
                self.layers.set(z, 0);
                z += 1;
            }
            proof {
                lemma_zero_is_blank(self.layers@);
            }
        }
        let mut k = start;
        loop
            invariant
                self.wf(),
                self.same_container(old(self)),
                d == self.stream@,
                offs == self.offset_table@,
                start <= k <= index < offs.len(),
                forall|j: int| k < j <= index ==> !is_new(#[trigger] frame_bytes(d, offs[j] as int)),
                frame_planes(d, offs, k as int) == step(
                    frame_bytes(d, offs[k as int] as int),
                    planes_of(self.layers@),
                ),
            decreases index - k,
        {
            match self.decode_one(k) {
                Ok(()) => {},
                Err(e) => {
                    proof {
                        lemma_chain_fails(d, offs, k as int, index as int);
                    }
                    return Err(e);
                },
            }
            if k == index {
                return Ok(());
            }
            k += 1;
            assert(!is_new(frame_bytes(d, offs[k as int] as int)));
        }
    }
}

/// The thumbnail cell at row `y`, column `x`: 48 tiles of 8 by 8 cells, eight
/// tiles to a row, each cell a nibble, the lower nibble of a byte first.
pub open spec fn thumb_cell(d: Seq<u8>, y: int, x: int) -> u8 {
    let b = d[0xA0 + ((y / 8) * 8 + x / 8) * 32 + (y % 8) * 4 + (x % 8) / 2];
    if x % 2 == 0 {
        b & 15u8
    } else {
        b >> 4u8
    }
}

impl PPMParser {
    /// The pixels of frame `index`, 192 rows of 256 values: 1 where layer one
    /// is set, else 2 where layer two is set, else 0. The result depends on
    /// the container alone, not on the frames decoded before.
    pub fn get_frame_pixels(&mut self, index: usize) -> (r: Result<Vec<Vec<u8>>, PpmError>)
        requires
            old(self).wf(),
        ensures
            final(self).wf(),
            final(self).same_container(old(self)),
            match frame_pixels(old(self).data(), old(self).offsets(), index as int) {
                Ok(rows) => r is Ok && r->Ok_0@.len() == 192 && forall|y: int|
                    0 <= y < 192 ==> #[trigger] r->Ok_0@[y]@ == rows[y],
                Err(e) => r == Err::<Vec<Vec<u8>>, PpmError>(e),
            },
    {
        if index >= self.offset_table.len() {
            return Err(PpmError::InvalidFrameIndex);
        }
        match self.read_frame(index) {
            Ok(()) => {},
            Err(_) => {
                return Err(PpmError::Truncated);
            },
        }
        let ghost p = planes_of(self.layers@);
        let mut pixels: Vec<Vec<u8>> = Vec::with_capacity(192);
        let mut y: usize = 0;
        while y < 192
            invariant
                y <= 192,
                self.layers@.len() == 98304,
                p == planes_of(self.layers@),
                pixels@.len() == y,
                forall|j: int| 0 <= j < y ==> #[trigger] pixels@[j]@ == pixel_rows(p)[j],
            decreases 192 - y,
        {
            let mut row: Vec<u8> = Vec::with_capacity(256);
            let mut x: usize = 0;
            while x < 256
                invariant
                    x <= 256,
                    y < 192,
                    self.layers@.len() == 98304,
                    p == planes_of(self.layers@),
                    row@.len() == x,
                    forall|j: int| 0 <= j < x ==> row@[j] == pixel_rows(p)[y as int][j],
                decreases 256 - x,
            {
                let a = self.layers[y * 256 + x];
                let b = self.layers[49152 + y * 256 + x];
                assert(p[0][y as int][x as int] == a && p[1][y as int][x as int] == b);
                row.push(
                    if a != 0 {
                        1u8
                    } else if b != 0 {
                        2u8
                    } else {
                        0u8
                    },
                );
                x += 1;
            }
            assert(row@ =~= pixel_rows(p)[y as int]);
            pixels.push(row);
            y += 1;
        }
        Ok(pixels)
    }

    /// The paper, layer-one and layer-two colours of frame `index`.
    pub fn get_frame_palette(&self, index: usize) -> (r: Result<Vec<Rgb>, PpmError>)
        ensures
            match frame_palette(self.data(), self.offsets(), index as int) {
                Ok(s) => r is Ok && r->Ok_0@ == s,
                Err(e) => r == Err::<Vec<Rgb>, PpmError>(e),
            },
    {
        if index >= self.offset_table.len() {
            return Err(PpmError::InvalidFrameIndex);
        }
        let h = read_u8(&self.stream, self.offset_table[index] as usize)?;
        palette(h)
    }

    /// Decodes the 64 by 48 thumbnail into rows of 4-bit colour indices.
    pub fn read_thumbnail(&self) -> (r: Result<Vec<Vec<u8>>, PpmError>)
        ensures
            self.data().len() >= 0x6A0 ==> r is Ok && r->Ok_0@.len() == 48 && forall|y: int, x: int|
                0 <= y < 48 && 0 <= x < 64 ==> #[trigger] r->Ok_0@[y]@[x] == thumb_cell(
                    self.data(),
                    y,
                    x,
                ) && r->Ok_0@[y]@.len() == 64,
            self.data().len() < 0x6A0 ==> r == Err::<Vec<Vec<u8>>, PpmError>(PpmError::Truncated),
    {
        if self.stream.len() < 0x6A0 {
            return Err(PpmError::Truncated);
        }
        let mut bitmap: Vec<Vec<u8>> = Vec::with_capacity(48);
        let mut y: usize = 0;
        while y < 48
            invariant
                y <= 48,
                self.stream@.len() >= 0x6A0,
                bitmap@.len() == y,
                forall|j: int| 0 <= j < y ==> (#[trigger] bitmap@[j])@.len() == 64,
                forall|j: int, x: int|
                    0 <= j < y && 0 <= x < 64 ==> #[trigger] bitmap@[j]@[x] == thumb_cell(
                        self.stream@,
                        j,
                        x,
                    ),
            decreases 48 - y,
        {
            let mut row: Vec<u8> = Vec::with_capacity(64);
            let mut x: usize = 0;
            while x < 64
                invariant
                    x <= 64,
                    y < 48,
                    self.stream@.len() >= 0x6A0,
                    row@.len() == x,
                    forall|j: int| 0 <= j < x ==> row@[j] == thumb_cell(self.stream@, y as int, j),
                decreases 64 - x,
            {
                let tile = (y / 8) * 8 + x / 8;
                assert(tile < 48);
                let b = self.stream[0xA0 + tile * 32 + (y % 8) * 4 + (x % 8) / 2];
                row.push(
                    if x % 2 == 0 {
                        b & 15u8
                    } else {
                        b >> 4u8
                    },
                );
                x += 1;
            }
            bitmap.push(row);
            y += 1;
        }
        Ok(bitmap)
    }

    pub fn get_frame_count(&self) -> (r: u16)
        ensures
            r == self.frame_count_spec(),
    {
        self.meta.frame_count
    }

    pub fn get_thumb_index(&self) -> (r: u16)
        ensures
            r == self.meta_spec().thumb_index,
    {
        self.meta.thumb_index
    }

    /// Frames per second, in thousandths.
    pub fn get_framerate_milli(&self) -> (r: u32)
        ensures
            r == self.meta_spec().framerate_milli,
    {
        self.meta.framerate_milli
    }

    /// The container's metadata.
    pub fn metadata(&self) -> (r: &Metadata)
        ensures
            r == self.meta_spec(),
    {
        &self.meta
    }
}

/// Decoded pixels have 192 rows of 256 values, each 0, 1 or 2.
pub proof fn lemma_pixels_shape(d: Seq<u8>, offs: Seq<u32>, i: int)
    ensures
        frame_pixels(d, offs, i) is Ok ==> {
            let rows = frame_pixels(d, offs, i)->Ok_0;
            &&& rows.len() == 192
            &&& forall|y: int| 0 <= y < 192 ==> #[trigger] rows[y].len() == 256
            &&& forall|y: int, x: int| 0 <= y < 192 && 0 <= x < 256 ==> #[trigger] rows[y][x] <= 2
        },
{
}

/// A loaded container has one offset per frame, each inside the animation
/// data region: after the offset table and before the region's end.
pub proof fn lemma_offsets_in_region(d: Seq<u8>)
    requires
        load_result(d) is Ok,
    ensures
        offsets_of(d).len() == frame_count_of(d),
        forall|k: int|
            0 <= k < frame_count_of(d) ==> 0x6A8 + table_size_of(d) <= #[trigger] offsets_of(d)[k]
                < animation_end(d),
{
    assert forall|k: int| 0 <= k < frame_count_of(d) implies 0x6A8 + table_size_of(d)
        <= #[trigger] offsets_of(d)[k] < animation_end(d) by {
        assert(offset_entry(d, k) < animation_end(d) && offset_entry(d, k) <= u32::MAX);
    }
}

/// Decoding a frame gives the same pixels in any two parsers over the same
/// container, whatever frames each decoded before: the pixels of a frame do
/// not change from one call to the next.
pub proof fn lemma_pixels_stateless(a: &PPMParser, b: &PPMParser, i: int)
    requires
        a.same_container(b),
    ensures
        frame_pixels(a.data(), a.offsets(), i) == frame_pixels(b.data(), b.offsets(), i),
{
}

impl Default for PPMParser {
    /// A parser over an empty stream, not loaded.
    fn default() -> (r: Self)
        ensures
            r.wf(),
            r.data().len() == 0,
            r.offsets().len() == 0,
    {
        PPMParser::new(Vec::new())
    }
}

} // verus!
