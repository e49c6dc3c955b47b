use vstd::prelude::*;
use vstd::arithmetic::power2::*;
use vstd::utf8::{decode_utf8, valid_utf8};
use byteorder::{ByteOrder, LittleEndian};
use crate::error::DecodeError;
use crate::bit_reader::BitReader;
use crate::lzw::{LzwDecoder, decode_sub_blocks, lemma_decode_sub_blocks_advances, lemma_start_wf, lzw_start};

pub use crate::bit_reader::ByteSizeError;

verus! {

/// A colour of a colour table; colours read from a file are opaque.
#[derive(Clone, Copy, Debug, PartialEq, Eq)]
pub struct Color {
    pub red: u8,
    pub green: u8,
    pub blue: u8,
    pub alpha: u8,
}

/// The logical screen descriptor: bytes 6 to 12 of the file.
#[derive(Clone, Copy, Debug, PartialEq, Eq)]
pub struct LogicalScreenDescriptor {
    pub width: u16,
    pub height: u16,
    pub global_color_flag: bool,
    /// Bits 4 to 6 of the packed field, left in place.
    pub color_resolution: u8,
    pub sorted_flag: bool,
    /// The colour table holds `2^(global_color_size + 1)` colours.
    pub global_color_size: u8,
    pub background_color_index: u8,
    pub pixel_aspect_ratio: u8,
}

/// The fixed part of an image descriptor.
#[derive(Clone, Copy, Debug, PartialEq, Eq)]
pub struct ImageDescriptor {
    pub left: u16,
    pub top: u16,
    pub width: u16,
    pub height: u16,
    pub local_color_table_flag: bool,
    pub interface_flag: bool,
    pub sort_flag: bool,
    pub local_color_table_size: u16,
}

/// A graphic control extension.
#[derive(Clone, Copy, Debug, PartialEq, Eq)]
pub struct GraphicsControlExtension {
    /// Bits 2 to 4 of the packed field, left in place.
    pub disposal_method: u8,
    pub user_input_flag: bool,
    pub transparent_color_flag: bool,
    pub delay_time: u16,
    pub transparent_color_index: u8,
}

impl Default for GraphicsControlExtension {
    /// All fields zero or false: what a frame without a graphic control
    /// extension gets.
    fn default() -> (r: Self)
        ensures
            r == no_graphic_control(),
    {
        GraphicsControlExtension {
            disposal_method: 0,
            user_input_flag: false,
            transparent_color_flag: false,
            delay_time: 0,
            transparent_color_index: 0,
        }
    }
}

/// The graphic control of a frame that no graphic control extension precedes.
pub open spec fn no_graphic_control() -> GraphicsControlExtension {
    GraphicsControlExtension {
        disposal_method: 0,
        user_input_flag: false,
        transparent_color_flag: false,
        delay_time: 0,
        transparent_color_index: 0,
    }
}

/// An image of the file as a value.
pub struct FrameModel {
    pub gcd: GraphicsControlExtension,
    pub im: ImageDescriptor,
    pub local_table: Option<Seq<Color>>,
    pub indices: Seq<u8>,
}

/// An image of the file: the graphic control extension that came before it
/// (since the previous image), its descriptor, its local colour table, and
/// the colour indices that its data decode to.
pub struct ParsedFrame {
    pub gcd: GraphicsControlExtension,
    pub im: ImageDescriptor,
    pub local_table: Option<Vec<Color>>,
    pub indices: Vec<u8>,
}

impl View for ParsedFrame {
    type V = FrameModel;

    open spec fn view(&self) -> FrameModel {
        FrameModel {
            gcd: self.gcd,
            im: self.im,
            local_table: table_view(self.local_table),
            indices: self.indices@,
        }
    }
}

/// A decoded file as a value.
pub struct GifModel {
    pub version: Seq<char>,
    pub lsd: LogicalScreenDescriptor,
    pub global_table: Option<Seq<Color>>,
    pub frames: Seq<FrameModel>,
}

/// A decoded file: its version (the three bytes after the signature), its
/// logical screen descriptor, the colour table that follows the descriptor
/// (read whether or not the descriptor's flag announces one), and its images.
pub struct Gif {
    pub version: String,
    pub lsd: LogicalScreenDescriptor,
    pub global_table: Option<Vec<Color>>,
    pub frames: Vec<ParsedFrame>,
}

impl View for Gif {
    type V = GifModel;

    open spec fn view(&self) -> GifModel {
        GifModel {
            version: self.version@,
            lsd: self.lsd,
            global_table: table_view(self.global_table),
            frames: self.frames@.map_values(|f: ParsedFrame| f@),
        }
    }
}

/// The logical screen descriptor with every field zero or false.
pub open spec fn empty_lsd() -> LogicalScreenDescriptor {
    LogicalScreenDescriptor {
        width: 0,
        height: 0,
        global_color_flag: false,
        color_resolution: 0,
        sorted_flag: false,
        global_color_size: 0,
        background_color_index: 0,
        pixel_aspect_ratio: 0,
    }
}

impl Default for LogicalScreenDescriptor {
    /// Every field zero or false.
    fn default() -> (r: Self)
        ensures
            r == empty_lsd(),
    {
        LogicalScreenDescriptor {
            width: 0,
            height: 0,
            global_color_flag: false,
            color_resolution: 0,
            sorted_flag: false,
            global_color_size: 0,
            background_color_index: 0,
            pixel_aspect_ratio: 0,
        }
    }
}

impl Default for ImageDescriptor {
    /// Every field zero or false.
    fn default() -> (r: Self)
        ensures
            r == (ImageDescriptor {
                left: 0,
                top: 0,
                width: 0,
                height: 0,
                local_color_table_flag: false,
                interface_flag: false,
                sort_flag: false,
                local_color_table_size: 0,
            }),
    {
        ImageDescriptor {
            left: 0,
            top: 0,
            width: 0,
            height: 0,
            local_color_table_flag: false,
            interface_flag: false,
            sort_flag: false,
            local_color_table_size: 0,
        }
    }
}

impl Default for ParsedFrame {
    /// A frame with default descriptors, no local colour table and no indices.
    fn default() -> (r: Self)
        ensures
            r@ == (FrameModel {
                gcd: no_graphic_control(),
                im: ImageDescriptor {
                    left: 0,
                    top: 0,
                    width: 0,
                    height: 0,
                    local_color_table_flag: false,
                    interface_flag: false,
                    sort_flag: false,
                    local_color_table_size: 0,
                },
                local_table: None,
                indices: Seq::empty(),
            }),
    {
        ParsedFrame {
            gcd: GraphicsControlExtension::default(),
            im: ImageDescriptor::default(),
            local_table: None,
            indices: Vec::new(),
        }
    }
}

impl Default for Gif {
    /// An empty version, a zero screen descriptor, no colour table and no
    /// images.
    fn default() -> (r: Self)
        ensures
            r@ == (GifModel {
                version: Seq::empty(),
                lsd: empty_lsd(),
                global_table: None,
                frames: Seq::empty(),
            }),
    {
        let r = Gif {
            version: String::new(),
            lsd: LogicalScreenDescriptor::default(),
            global_table: None,
            frames: Vec::new(),
        };
        assert(r@.frames =~= Seq::<FrameModel>::empty());
        r
    }
}

/// Reads and decodes GIF data; `offset` is the position of the next byte to read.
pub struct Decoder {
    pub offset: usize,
}

/// The colours of an optional colour table.
pub open spec fn table_view(t: Option<Vec<Color>>) -> Option<Seq<Color>> {
    match t {
        Some(v) => Some(v@),
        None => None,
    }
}

/// The little-endian 16-bit number at `at`.
pub open spec fn u16_le(c: Seq<u8>, at: int) -> u16 {
    (c[at] + 256 * c[at + 1]) as u16
}

/// The number of bytes of a colour table of size field `size`: three bytes
/// for each of `2^(size + 1)` colours.
pub open spec fn color_table_length(size: u8) -> int {
    (6 * pow2(size as nat)) as int
}

/// The `length / 3` colours of the table at `at`, three bytes each, opaque.
pub open spec fn color_table(c: Seq<u8>, at: int, length: int) -> Seq<Color> {
    Seq::new(
        (length / 3) as nat,
        |j: int| Color { red: c[at + 3 * j], green: c[at + 3 * j + 1], blue: c[at + 3 * j + 2], alpha: 255 },
    )
}

/// The logical screen descriptor of a file of at least 13 bytes.
pub open spec fn lsd_of(c: Seq<u8>) -> LogicalScreenDescriptor {
    let packed = c[10];
    LogicalScreenDescriptor {
        width: u16_le(c, 6),
        height: u16_le(c, 8),
        global_color_flag: packed & 0x80 != 0,
        color_resolution: packed & 0x70,
        sorted_flag: packed & 0x08 != 0,
        global_color_size: packed & 0x07,
        background_color_index: c[11],
        pixel_aspect_ratio: c[12],
    }
}

/// A graphic control extension whose block starts at `off` (after its label):
/// the extension and the offset after its block terminator.
pub open spec fn graphic_control_at(c: Seq<u8>, off: int) -> Result<(GraphicsControlExtension, int), DecodeError> {
    if off + 6 > c.len() {
        Err(DecodeError::UnexpectedEnd)
    } else {
        let packed = c[off + 1];
        Ok(
            (
                GraphicsControlExtension {
                    disposal_method: packed & 0x1C,
                    user_input_flag: packed & 0x02 != 0,
                    transparent_color_flag: packed & 0x01 != 0,
                    delay_time: u16_le(c, off + 2),
                    transparent_color_index: c[off + 4],
                },
                off + 6,
            ),
        )
    }
}

/// Skips data sub-blocks from `off`, the first of `count` bytes: each block is
/// followed by the size of the next; a size of zero ends them. The offset
/// after that zero.
pub open spec fn skip_sub_blocks(c: Seq<u8>, off: int, count: nat) -> Result<int, DecodeError>
    decreases c.len() - off,
{
    if off + count >= c.len() {
        Err(DecodeError::UnexpectedEnd)
    } else {
        let next = c[off + count];
        if next == 0 {
            Ok(off + count + 1)
        } else {
            skip_sub_blocks(c, off + count + 1, next as nat)
        }
    }
}

/// A plain text extension from `off` (after its label): a block of the size
/// its first byte gives, then data sub-blocks. The offset after it.
pub open spec fn plain_text_at(c: Seq<u8>, off: int) -> Result<int, DecodeError> {
    if off >= c.len() {
        Err(DecodeError::UnexpectedEnd)
    } else {
        let start = off + 1 + c[off];
        if start >= c.len() {
            Err(DecodeError::UnexpectedEnd)
        } else {
            skip_sub_blocks(c, start + 1, c[start] as nat)
        }
    }
}

/// An application extension from `off` (after its label): its identifier
/// block, decoded as UTF-8 (empty where it is not UTF-8), and the offset
/// after its data sub-blocks.
pub open spec fn application_at(c: Seq<u8>, off: int) -> Result<(Seq<char>, int), DecodeError> {
    if off >= c.len() {
        Err(DecodeError::UnexpectedEnd)
    } else {
        let end = off + 1 + c[off];
        if end >= c.len() {
            Err(DecodeError::UnexpectedEnd)
        } else {
            let id = c.subrange(off + 1, end);
            let name = if valid_utf8(id) { decode_utf8(id) } else { Seq::empty() };
            match skip_sub_blocks(c, end + 1, c[end] as nat) {
                Ok(next) => Ok((name, next)),
                Err(e) => Err(e),
            }
        }
    }
}

/// A comment extension from `off` (after its label): data sub-blocks only.
pub open spec fn comment_at(c: Seq<u8>, off: int) -> Result<int, DecodeError> {
    if off >= c.len() {
        Err(DecodeError::UnexpectedEnd)
    } else {
        skip_sub_blocks(c, off + 1, c[off] as nat)
    }
}

/// The image whose descriptor starts at `off` (after its separator): the
/// descriptor, the local colour table where the descriptor announces one,
/// the colour indices that its LZW data decode to, and the offset after the
/// data's terminating zero size.
pub open spec fn image_at(c: Seq<u8>, off: int) -> Result<
    (ImageDescriptor, Option<Seq<Color>>, Seq<u8>, int),
    DecodeError,
> {
    if off + 9 > c.len() {
        Err(DecodeError::UnexpectedEnd)
    } else {
        let packed = c[off + 8];
        let im = ImageDescriptor {
            left: u16_le(c, off),
            top: u16_le(c, off + 2),
            width: u16_le(c, off + 4),
            height: u16_le(c, off + 6),
            local_color_table_flag: packed & 0x80 != 0,
            interface_flag: packed & 0x40 != 0,
            sort_flag: packed & 0x20 != 0,
            local_color_table_size: (packed & 0x07) as u16,
        };
        let length = if im.local_color_table_flag {
            color_table_length(packed & 0x07)
        } else {
            0
        };
        let table = if im.local_color_table_flag {
            Some(color_table(c, off + 9, length))
        } else {
            None
        };
        let data = off + 9 + length;
        if data + 2 > c.len() {
            Err(DecodeError::UnexpectedEnd)
        } else {
            let min = c[data];
            if min == 0 || min > 8 {
                Err(DecodeError::InvalidMinimumCodeSize)
            } else {
                match decode_sub_blocks(c, data + 2, c[data + 1] as nat, lzw_start(min), Seq::empty()) {
                    Err(e) => Err(e),
                    Ok((m, next)) => Ok((im, table, m.index_stream, next)),
                }
            }
        }
    }
}

/// The blocks of the file from `off` up to the trailer: each image, with the
/// graphic control extension pending before it (reset after each image),
/// is added to `frames`; extensions are read or skipped; any other
/// introducer is taken for an extension whose label is skipped. The images
/// and the offset of the trailer.
pub open spec fn blocks_at(
    c: Seq<u8>,
    off: int,
    pending: GraphicsControlExtension,
    frames: Seq<FrameModel>,
) -> Result<(Seq<FrameModel>, int), DecodeError>
    decreases c.len() - off,
{
    if off < 0 || off >= c.len() {
        Err(DecodeError::UnexpectedEnd)
    } else if c[off] == 0x3B {
        Ok((frames, off))
    } else if c[off] == 0x2C {
        match image_at(c, off + 1) {
            Err(e) => Err(e),
            Ok((im, local_table, indices, next)) => {
                proof {
                    lemma_image_advances(c, off + 1);
                }
                blocks_at(
                    c,
                    next,
                    no_graphic_control(),
                    frames.push(FrameModel { gcd: pending, im, local_table, indices }),
                )
            },
        }
    } else if off + 1 >= c.len() {
        Err(DecodeError::UnexpectedEnd)
    } else {
        let label = c[off + 1];
        let at = off + 2;
        if label == 0xF9 {
            match graphic_control_at(c, at) {
                Err(e) => Err(e),
                Ok((g, next)) => blocks_at(c, next, g, frames),
            }
        } else if label == 0x01 {
            match plain_text_at(c, at) {
                Err(e) => Err(e),
                Ok(next) => {
                    proof {
                        lemma_extensions_advance(c, at);
                    }
                    blocks_at(c, next, pending, frames)
                },
            }
        } else if label == 0xFF {
            match application_at(c, at) {
                Err(e) => Err(e),
                Ok((_, next)) => {
                    proof {
                        lemma_extensions_advance(c, at);
                    }
                    blocks_at(c, next, pending, frames)
                },
            }
        } else if label == 0xFE {
            match comment_at(c, at) {
                Err(e) => Err(e),
                Ok(next) => {
                    proof {
                        lemma_extensions_advance(c, at);
                    }
                    blocks_at(c, next, pending, frames)
                },
            }
        } else {
            blocks_at(c, at, pending, frames)
        }
    }
}

/// The whole file: the version, the logical screen descriptor, the colour
/// table after it, then the blocks up to the trailer; and the trailer's offset.
pub open spec fn decode_at(c: Seq<u8>) -> Result<(GifModel, int), DecodeError> {
    if c.len() < 13 {
        Err(DecodeError::UnexpectedEnd)
    } else {
        let v = c.subrange(3, 6);
        let version = if valid_utf8(v) { decode_utf8(v) } else { Seq::empty() };
        let lsd = lsd_of(c);
        let length = color_table_length(lsd.global_color_size);
        if 13 + length > c.len() {
            Err(DecodeError::UnexpectedEnd)
        } else {
            match blocks_at(c, 13 + length, no_graphic_control(), Seq::empty()) {
                Err(e) => Err(e),
                Ok((frames, end)) => Ok(
                    (
                        GifModel {
                            version,
                            lsd,
                            global_table: Some(color_table(c, 13, length)),
                            frames,
                        },
                        end,
                    ),
                ),
            }
        }
    }
}

/// An image ends after where it starts and within the bytes.
pub proof fn lemma_image_advances(c: Seq<u8>, off: int)
    ensures
        image_at(c, off) matches Ok((_, _, _, next)) ==> off < next <= c.len(),
{
    if off + 9 <= c.len() {
        let packed = c[off + 8];
        let length = if packed & 0x80 != 0 { color_table_length(packed & 0x07) } else { 0 };
        let data = off + 9 + length;
        lemma_pow2_pos((packed & 0x07) as nat);
        if data + 2 <= c.len() {
            let min = c[data];
            if !(min == 0 || min > 8) {
                lemma_decode_sub_blocks_advances(c, data + 2, c[data + 1] as nat, lzw_start(min), Seq::empty());
            }
        }
    }
}

/// The extensions that end in data sub-blocks end after where they start and
/// within the bytes.
pub proof fn lemma_extensions_advance(c: Seq<u8>, off: int)
    requires
        0 <= off,
    ensures
        plain_text_at(c, off) matches Ok(next) ==> off < next <= c.len(),
        application_at(c, off) matches Ok((_, next)) ==> off < next <= c.len(),
        comment_at(c, off) matches Ok(next) ==> off < next <= c.len(),
{
    if off < c.len() {
        lemma_skip_sub_blocks_advances(c, off + 1, c[off] as nat);
        let start = off + 1 + c[off];
        if start < c.len() {
            lemma_skip_sub_blocks_advances(c, start + 1, c[start] as nat);
        }
    }
}

/// Skipping sub-blocks ends after where it starts and within the bytes.
pub proof fn lemma_skip_sub_blocks_advances(c: Seq<u8>, off: int, count: nat)
    ensures
        skip_sub_blocks(c, off, count) matches Ok(next) ==> off < next <= c.len(),
    decreases c.len() - off,
{
    if off + count < c.len() && c[off + count] != 0 {
        lemma_skip_sub_blocks_advances(c, off + count + 1, c[off + count] as nat);
    }
}

/// `byteorder`'s `LittleEndian::read_u16`: the first two bytes of `buf`, the
/// first one the less significant. It panics on fewer than two bytes.
#[verifier::external_body]
fn read_u16_le(buf: &[u8]) -> (r: u16)
    requires
        buf@.len() >= 2,
    ensures
        r == buf@[0] + 256 * buf@[1],
{
    LittleEndian::read_u16(buf)
}

/// `String::from_utf8`: the string that `bytes` encode in UTF-8, where they are valid UTF-8.
#[verifier::external_body]
fn string_from_utf8(bytes: Vec<u8>) -> (r: Option<String>)
    ensures
        r.is_some() == valid_utf8(bytes@),
        r matches Some(s) ==> s@ == decode_utf8(bytes@),
{
    String::from_utf8(bytes).ok()
}

} // verus!

verus! {

impl Decoder {
    /// Moves the offset `amount` bytes on.
    pub fn increment_offset(&mut self, amount: usize)
        requires
            old(self).offset + amount <= usize::MAX,
        ensures
            final(self).offset == old(self).offset + amount,
    {
        self.offset += amount;
    }

    /// `val << shift` where `shift` is below 8, `def` otherwise.
    pub fn shl_or(&mut self, val: u16, shift: usize, def: u16) -> (r: u16)
        ensures
            *final(self) == *old(self),
            r == if shift < 8 { val << (shift as u16) } else { def },
    {
        assert((shift & !7usize) != 0usize <==> shift >= 8) by (bit_vector);
        assert(shift < 8 ==> shift & 15usize == shift) by (bit_vector);
        if (shift & !7usize) != 0 {
            def
        } else {
            val << (shift & 15)
        }
    }

    /// `val >> shift` where `shift` is below 8, `def` otherwise.
    pub fn shr_or(&mut self, val: u8, shift: usize, def: u8) -> (r: u8)
        ensures
            *final(self) == *old(self),
            r == if shift < 8 { val >> (shift as u8) } else { def },
    {
        assert((shift & !7usize) != 0usize <==> shift >= 8) by (bit_vector);
        assert(shift < 8 ==> shift & 7usize == shift) by (bit_vector);
        if (shift & !7usize) != 0 {
            def
        } else {
            val >> (shift & 7)
        }
    }

    /// Reads a graphic control extension from the offset (just after its
    /// label) and moves past its block terminator.
    pub fn handle_graphic_control_extension(&mut self, contents: &[u8]) -> (r: Result<
        GraphicsControlExtension,
        DecodeError,
    >)
        ensures
            match graphic_control_at(contents@, old(self).offset as int) {
                Ok((g, next)) => r == Ok::<GraphicsControlExtension, DecodeError>(g)
                    && final(self).offset == next,
                Err(e) => r == Err::<GraphicsControlExtension, DecodeError>(e),
            },
    {
        if self.offset > contents.len() || contents.len() - self.offset < 6 {
            return Err(DecodeError::UnexpectedEnd);
        }
        let _byte_size = contents[self.offset];
        self.increment_offset(1);

        let packed_field = contents[self.offset];
        let disposal_method = packed_field & 0b0001_1100;
        let user_input_flag = (packed_field & 0b0000_0010) != 0;
        let transparent_color_flag = (packed_field & 0b0000_0001) != 0;
        self.increment_offset(1);

        let delay_time = read_u16_le(&contents[self.offset..self.offset + 2]);
        self.increment_offset(2);

        let transparent_color_index = contents[self.offset];
        self.increment_offset(1);

        let _block_terminator = contents[self.offset];
        self.increment_offset(1);
        Ok(
            GraphicsControlExtension {
                disposal_method,
                user_input_flag,
                transparent_color_flag,
                delay_time,
                transparent_color_index,
            },
        )
    }

    /// Reads a colour table of `length` bytes from the offset.
    fn read_color_table(&mut self, contents: &[u8], length: usize) -> (r: Result<Vec<Color>, DecodeError>)
        requires
            length % 3 == 0,
            old(self).offset <= contents@.len(),
        ensures
            old(self).offset + length > contents@.len() ==> r == Err::<Vec<Color>, DecodeError>(
                DecodeError::UnexpectedEnd,
            ),
            old(self).offset + length <= contents@.len() ==> (r matches Ok(v) && v@ == color_table(
                contents@,
                old(self).offset as int,
                length as int,
            ) && final(self).offset == old(self).offset + length),
    {
        if length > contents.len() - self.offset {
            return Err(DecodeError::UnexpectedEnd);
        }
        let mut i: usize = self.offset;
        let mut color_vector: Vec<Color> = Vec::new();
        while i < self.offset + length
            invariant
                self.offset == old(self).offset,
                self.offset + length <= contents@.len(),
                self.offset + length <= usize::MAX,
                self.offset <= i <= self.offset + length,
                (i - self.offset) % 3 == 0,
                length % 3 == 0,
                color_vector@ =~= color_table(contents@, self.offset as int, i - self.offset),
            decreases self.offset + length - i,
        {
            color_vector.push(
                Color { red: contents[i], green: contents[i + 1], blue: contents[i + 2], alpha: 255 },
            );
            i = i + 3;
        }
        self.increment_offset(length);
        Ok(color_vector)
    }

    /// Reads an image from the offset (just after its separator): the
    /// descriptor, the local colour table where there is one, and the LZW
    /// data, decoded to colour indices; moves past the data's terminator.
    pub fn handle_image_descriptor(&mut self, contents: &[u8]) -> (r: Result<
        (ImageDescriptor, Option<Vec<Color>>, Vec<u8>),
        DecodeError,
    >)
        requires
            contents@.len() * 8 <= usize::MAX,
        ensures
            match image_at(contents@, old(self).offset as int) {
                Ok((im, table, indices, next)) => r matches Ok((im2, table2, indices2)) && im2 == im
                    && table_view(table2) == table && indices2@ == indices
                    && final(self).offset == next,
                Err(e) => r matches Err(e2) && e2 == e,
            },
    {
        if self.offset > contents.len() || contents.len() - self.offset < 9 {
            return Err(DecodeError::UnexpectedEnd);
        }
        let image_left = read_u16_le(&contents[self.offset..self.offset + 2]);
        self.increment_offset(2);

        let image_top = read_u16_le(&contents[self.offset..self.offset + 2]);
        self.increment_offset(2);

        let image_width = read_u16_le(&contents[self.offset..self.offset + 2]);
        self.increment_offset(2);

        let image_height = read_u16_le(&contents[self.offset..self.offset + 2]);
        self.increment_offset(2);

        let packed_field = contents[self.offset];
        let local_color_table_flag = (packed_field & 0b1000_0000) != 0;
        let interface_flag = (packed_field & 0b0100_0000) != 0;
        let sort_flag = (packed_field & 0b0010_0000) != 0;
        let local_color_table_size = packed_field & 0b0000_0111;
        self.increment_offset(1);
        let im = ImageDescriptor {
            left: image_left,
            top: image_top,
            width: image_width,
            height: image_height,
            local_color_table_flag,
            interface_flag,
            sort_flag,
            local_color_table_size: local_color_table_size as u16,
        };

        // Local Color Table
        let mut local_table: Option<Vec<Color>> = None;
        if local_color_table_flag {
            proof {
                assert(local_color_table_size < 8) by (bit_vector)
                    requires
                        local_color_table_size == packed_field & 7u8,
                ;
                lemma2_to64();
                vstd::bits::lemma_usize_pow2_no_overflow(local_color_table_size as nat);
                lemma_pow2_strictly_increases(local_color_table_size as nat, 8);
                vstd::bits::lemma_usize_shl_is_mul(6, local_color_table_size as usize);
            }
            let length: usize = 6usize << local_color_table_size;
            match self.read_color_table(contents, length) {
                Ok(colors) => {
                    local_table = Some(colors);
                },
                Err(e) => {
                    return Err(e);
                },
            }
        }

        // Image Data
        if self.offset >= contents.len() || contents.len() - self.offset < 2 {
            return Err(DecodeError::UnexpectedEnd);
        }
        let lzw_minimum_code_size = contents[self.offset];
        self.increment_offset(1);

        let mut data_sub_blocks_count = contents[self.offset];
        self.increment_offset(1);

        if lzw_minimum_code_size == 0 || lzw_minimum_code_size > 8 {
            return Err(DecodeError::InvalidMinimumCodeSize);
        }
        let clear_code = self.shl_or(2, (lzw_minimum_code_size - 1) as usize, 0);
        proof {
            lemma2_to64();
            vstd::bits::lemma_u16_shl_is_mul(2, (lzw_minimum_code_size - 1) as u16);
            lemma_pow2_unfold(lzw_minimum_code_size as nat);
            lemma_start_wf(lzw_minimum_code_size);
        }
        let mut decoder = LzwDecoder::new(lzw_minimum_code_size, clear_code);
        let mut br = BitReader::new();
        let ghost goal = decode_sub_blocks(
            contents@,
            self.offset as int,
            data_sub_blocks_count as nat,
            decoder@,
            br@,
        );
        assert(image_at(contents@, old(self).offset as int) == match goal {
            Ok((m, next)) => Ok((im, table_view(local_table), m.index_stream, next)),
            Err(e) => Err(e),
        });
        loop
            invariant
                contents@.len() * 8 <= usize::MAX,
                self.offset <= contents@.len(),
                br.wf(),
                br.byte_len() <= self.offset,
                crate::lzw::lzw_wf(decoder@),
                decode_sub_blocks(contents@, self.offset as int, data_sub_blocks_count as nat, decoder@, br@)
                    == goal,
                image_at(contents@, old(self).offset as int) == match goal {
                    Ok((m, next)) => Ok((im, table_view(local_table), m.index_stream, next)),
                    Err(e) => Err(e),
                },
            decreases contents@.len() - self.offset,
        {
            if data_sub_blocks_count as usize > contents.len() - self.offset {
                return Err(DecodeError::UnexpectedEnd);
            }
            let offset_add: usize = self.offset + data_sub_blocks_count as usize;
            let sliced_bytes = &contents[self.offset..offset_add];
            br.push_bytes(sliced_bytes);
            match decoder.decode_codes(&mut br) {
                Ok(()) => {},
                Err(e) => {
                    return Err(e);
                },
            }
            self.offset = offset_add;
            if self.offset >= contents.len() {
                return Err(DecodeError::UnexpectedEnd);
            }
            data_sub_blocks_count = contents[self.offset];
            self.increment_offset(1);
            if data_sub_blocks_count == 0 {
                return Ok((im, local_table, decoder.into_index_stream()));
            }
        }
    }

    /// Skips data sub-blocks from the offset, where the first has `count`
    /// bytes, and moves past the zero size that ends them.
    pub fn skip_data_sub_blocks(&mut self, contents: &[u8], count: u8) -> (r: Result<(), DecodeError>)
        ensures
            match skip_sub_blocks(contents@, old(self).offset as int, count as nat) {
                Ok(next) => r is Ok && final(self).offset == next,
                Err(e) => r == Err::<(), DecodeError>(e),
            },
    {
        let mut data_sub_blocks_count = count;
        loop
            invariant
                skip_sub_blocks(contents@, self.offset as int, data_sub_blocks_count as nat)
                    == skip_sub_blocks(contents@, old(self).offset as int, count as nat),
            decreases contents@.len() - self.offset,
        {
            if self.offset >= contents.len() || data_sub_blocks_count as usize >= contents.len()
                - self.offset {
                return Err(DecodeError::UnexpectedEnd);
            }
            self.increment_offset(data_sub_blocks_count as usize);
            data_sub_blocks_count = contents[self.offset];
            self.increment_offset(1);
            if data_sub_blocks_count == 0 {
                return Ok(());
            }
        }
    }

    /// Skips a plain text extension from the offset (just after its label).
    pub fn handle_plain_text_extension(&mut self, contents: &[u8]) -> (r: Result<(), DecodeError>)
        ensures
            match plain_text_at(contents@, old(self).offset as int) {
                Ok(next) => r is Ok && final(self).offset == next,
                Err(e) => r == Err::<(), DecodeError>(e),
            },
    {
        if self.offset >= contents.len() {
            return Err(DecodeError::UnexpectedEnd);
        }
        let block_size = contents[self.offset] as usize;
        if 1 + block_size >= contents.len() - self.offset {
            return Err(DecodeError::UnexpectedEnd);
        }
        self.increment_offset(1 + block_size);

        let data_sub_blocks_count = contents[self.offset];
        self.increment_offset(1);
        self.skip_data_sub_blocks(contents, data_sub_blocks_count)
    }

    /// Reads an application extension from the offset (just after its
    /// label): its identifier, decoded as UTF-8 (empty where it is not), and
    /// skips its data sub-blocks.
    pub fn handle_application_extension(&mut self, contents: &[u8]) -> (r: Result<String, DecodeError>)
        ensures
            match application_at(contents@, old(self).offset as int) {
                Ok((name, next)) => r matches Ok(s) && s@ == name && final(self).offset == next,
                Err(e) => r matches Err(e2) && e2 == e,
            },
    {
        if self.offset >= contents.len() {
            return Err(DecodeError::UnexpectedEnd);
        }
        let block_size = contents[self.offset] as usize;
        self.increment_offset(1);
        if block_size >= contents.len() - self.offset {
            return Err(DecodeError::UnexpectedEnd);
        }
        let length = self.offset + block_size;
        let identifier = vstd::slice::slice_to_vec(&contents[self.offset..length]);
        let application = match string_from_utf8(identifier) {
            Some(parsed_application) => parsed_application,
            None => String::new(),
        };
        self.increment_offset(block_size);

        let data_sub_blocks_count = contents[self.offset];
        self.increment_offset(1);
        match self.skip_data_sub_blocks(contents, data_sub_blocks_count) {
            Ok(()) => Ok(application),
            Err(e) => Err(e),
        }
    }

    /// Skips a comment extension from the offset (just after its label).
    pub fn handle_comment_extension(&mut self, contents: &[u8]) -> (r: Result<(), DecodeError>)
        ensures
            match comment_at(contents@, old(self).offset as int) {
                Ok(next) => r is Ok && final(self).offset == next,
                Err(e) => r == Err::<(), DecodeError>(e),
            },
    {
        if self.offset >= contents.len() {
            return Err(DecodeError::UnexpectedEnd);
        }
        let data_sub_blocks_count = contents[self.offset];
        self.increment_offset(1);
        self.skip_data_sub_blocks(contents, data_sub_blocks_count)
    }

    /// Reads the logical screen descriptor, bytes 6 to 12, into `gif`.
    pub fn handle_logical_screen_descriptor(&mut self, gif: &mut Gif, contents: &[u8]) -> (r: Result<
        (),
        DecodeError,
    >)
        ensures
            *final(self) == *old(self),
            contents@.len() < 13 ==> r == Err::<(), DecodeError>(DecodeError::UnexpectedEnd)
                && final(gif)@ == old(gif)@,
            contents@.len() >= 13 ==> r is Ok && final(gif)@ == (GifModel {
                lsd: lsd_of(contents@),
                ..old(gif)@
            }),
    {
        if contents.len() < 13 {
            return Err(DecodeError::UnexpectedEnd);
        }
        gif.lsd.width = read_u16_le(&contents[6..8]);
        gif.lsd.height = read_u16_le(&contents[8..10]);

        let packed_field = contents[10];

        gif.lsd.global_color_flag = (packed_field & 0b1000_0000) != 0;
        gif.lsd.color_resolution = packed_field & 0b0111_0000;
        gif.lsd.sorted_flag = (packed_field & 0b0000_1000) != 0;
        gif.lsd.global_color_size = packed_field & 0b0000_0111;

        gif.lsd.background_color_index = contents[11];
        gif.lsd.pixel_aspect_ratio = contents[12];
        Ok(())
    }

    /// Decodes a whole GIF file held in `contents`: the version, the logical
    /// screen descriptor, the colour table after it, and every image up to
    /// the trailer, each with its colour indices; the offset is left at the
    /// trailer.
    pub fn decode_bytes(&mut self, contents: &[u8]) -> (r: Result<Gif, DecodeError>)
        requires
            contents@.len() * 8 <= usize::MAX,
        ensures
            match decode_at(contents@) {
                Ok((g, end)) => r matches Ok(gif) && gif@ == g && final(self).offset == end,
                Err(e) => r matches Err(e2) && e2 == e,
            },
    {
        if contents.len() < 13 {
            return Err(DecodeError::UnexpectedEnd);
        }
        let mut gif = Gif::default();
        let version_bytes = vstd::slice::slice_to_vec(&contents[3..6]);
        gif.version = match string_from_utf8(version_bytes) {
            Some(parsed_version) => parsed_version,
            None => String::new(),
        };

        match self.handle_logical_screen_descriptor(&mut gif, contents) {
            Ok(()) => {},
            Err(e) => {
                return Err(e);
            },
        }

        self.offset = 13;
        // Global Color Table
        let global_color_size = gif.lsd.global_color_size;
        proof {
            let packed = contents@[10];
            assert(global_color_size < 8) by (bit_vector)
                requires
                    global_color_size == packed & 7u8,
            ;
            lemma2_to64();
            vstd::bits::lemma_usize_pow2_no_overflow(global_color_size as nat);
            lemma_pow2_strictly_increases(global_color_size as nat, 8);
            vstd::bits::lemma_usize_shl_is_mul(6, global_color_size as usize);
        }
        let length: usize = 6usize << global_color_size;
        match self.read_color_table(contents, length) {
            Ok(colors) => {
                gif.global_table = Some(colors);
            },
            Err(e) => {
                return Err(e);
            },
        }
        let mut pending = GraphicsControlExtension::default();
        let ghost goal = blocks_at(contents@, self.offset as int, pending, Seq::empty());
        assert(gif@.frames =~= Seq::<FrameModel>::empty());
        assert(decode_at(contents@) == match goal {
            Ok((frames, end)) => Ok((GifModel { frames, ..gif@ }, end)),
            Err(e) => Err(e),
        });
        loop
            invariant
                contents@.len() * 8 <= usize::MAX,
                blocks_at(contents@, self.offset as int, pending, gif@.frames) == goal,
                decode_at(contents@) == match goal {
                    Ok((frames, end)) => Ok((GifModel { frames, ..gif@ }, end)),
                    Err(e) => Err(e),
                },
            decreases contents@.len() - self.offset,
        {
            if self.offset >= contents.len() {
                return Err(DecodeError::UnexpectedEnd);
            }
            let ghost start = self.offset as int;
            let ghost frames0 = gif@.frames;
            let introducer = contents[self.offset];
            if introducer != 0x21 && introducer == 0x3B {
                return Ok(gif);
            }
            self.increment_offset(1);

            if introducer == 0x2C {
                // Image Descriptor
                proof {
                    lemma_image_advances(contents@, self.offset as int);
                }
                match self.handle_image_descriptor(contents) {
                    Ok((im, local_table, indices)) => {
                        let frame = ParsedFrame { gcd: pending, im, local_table, indices };
                        gif.frames.push(frame);
                        pending = GraphicsControlExtension::default();
                        assert(gif@.frames =~= frames0.push(frame@));
                    },
                    Err(e) => {
                        return Err(e);
                    },
                }
                continue;
            }
            if self.offset >= contents.len() {
                return Err(DecodeError::UnexpectedEnd);
            }
            let label = contents[self.offset];
            self.increment_offset(1);
            proof {
                lemma_extensions_advance(contents@, self.offset as int);
            }
            if label == 0xF9 {
                match self.handle_graphic_control_extension(contents) {
                    Ok(g) => {
                        pending = g;
                    },
                    Err(e) => {
                        return Err(e);
                    },
                }
            } else if label == 0x01 {
                match self.handle_plain_text_extension(contents) {
                    Ok(()) => {},
                    Err(e) => {
                        return Err(e);
                    },
                }
            } else if label == 0xFF {
                match self.handle_application_extension(contents) {
                    Ok(_application) => {},
                    Err(e) => {
                        return Err(e);
                    },
                }
            } else if label == 0xFE {
                match self.handle_comment_extension(contents) {
                    Ok(()) => {},
                    Err(e) => {
                        return Err(e);
                    },
                }
            }
        }
    }
}

} // verus!

verus! {

/// A frame's local colour table is there exactly when its descriptor's flag
/// says so, and then holds `2^(size + 1)` colours.
pub open spec fn frame_table_matches(f: FrameModel) -> bool {
    &&& f.local_table is Some <==> f.im.local_color_table_flag
    &&& f.local_table matches Some(t) ==> t.len() == pow2((f.im.local_color_table_size + 1) as nat)
}

proof fn lemma_color_table_len(size: u8)
    ensures
        color_table_length(size) / 3 == pow2((size + 1) as nat),
{
    lemma_pow2_unfold((size + 1) as nat);
}

proof fn lemma_blocks_end_at_trailer(
    c: Seq<u8>,
    off: int,
    pending: GraphicsControlExtension,
    frames: Seq<FrameModel>,
)
    requires
        forall|i: int| 0 <= i < frames.len() ==> frame_table_matches(#[trigger] frames[i]),
    ensures
        blocks_at(c, off, pending, frames) matches Ok((all, end)) ==> {
            &&& 0 <= end < c.len()
            &&& c[end] == 0x3B
            &&& forall|i: int| 0 <= i < all.len() ==> frame_table_matches(#[trigger] all[i])
        },
    decreases c.len() - off,
{
    if 0 <= off < c.len() && c[off] != 0x3B {
        if c[off] == 0x2C {
            lemma_image_advances(c, off + 1);
            if let Ok((im, local_table, indices, next)) = image_at(c, off + 1) {
                let f = FrameModel { gcd: pending, im, local_table, indices };
                let packed = c[off + 1 + 8];
                assert(packed & 0x07 == (packed & 0x07) as u16);
                lemma_color_table_len(packed & 0x07);
                assert(frame_table_matches(f));
                let frames2 = frames.push(f);
                assert forall|i: int| 0 <= i < frames2.len() implies frame_table_matches(#[trigger] frames2[i]) by {
                    if i < frames.len() {
                        assert(frames2[i] == frames[i]);
                    }
                }
                lemma_blocks_end_at_trailer(c, next, no_graphic_control(), frames2);
            }
        } else if off + 1 < c.len() {
            let at = off + 2;
            lemma_extensions_advance(c, at);
            let label = c[off + 1];
            if label == 0xF9 {
                if let Ok((g, next)) = graphic_control_at(c, at) {
                    lemma_blocks_end_at_trailer(c, next, g, frames);
                }
            } else if label == 0x01 {
                if let Ok(next) = plain_text_at(c, at) {
                    lemma_blocks_end_at_trailer(c, next, pending, frames);
                }
            } else if label == 0xFF {
                if let Ok((_, next)) = application_at(c, at) {
                    lemma_blocks_end_at_trailer(c, next, pending, frames);
                }
            } else if label == 0xFE {
                if let Ok(next) = comment_at(c, at) {
                    lemma_blocks_end_at_trailer(c, next, pending, frames);
                }
            } else {
                lemma_blocks_end_at_trailer(c, at, pending, frames);
            }
        }
    }
}

/// Decoding stops at the trailer: where a file decodes, the offset it ends
/// at holds the trailer byte `0x3B`.
pub proof fn law_decode_ends_at_trailer(c: Seq<u8>)
    ensures
        decode_at(c) matches Ok((_, end)) ==> 0 <= end < c.len() && c[end] == 0x3B,
{
    if c.len() >= 13 {
        let length = color_table_length(lsd_of(c).global_color_size);
        lemma_blocks_end_at_trailer(c, 13 + length, no_graphic_control(), Seq::empty());
    }
}

/// The colour tables of a decoded file have the sizes their descriptors
/// give: `2^(size + 1)` colours in the table after the logical screen
/// descriptor, and in each image's local table, which is there exactly when
/// the image's flag says so.
pub proof fn law_color_table_sizes(c: Seq<u8>)
    ensures
        decode_at(c) matches Ok((g, _)) ==> {
            &&& g.global_table matches Some(t) && t.len() == pow2((g.lsd.global_color_size + 1) as nat)
            &&& forall|i: int| 0 <= i < g.frames.len() ==> frame_table_matches(#[trigger] g.frames[i])
        },
{
    if c.len() >= 13 {
        let lsd = lsd_of(c);
        lemma_color_table_len(lsd.global_color_size);
        let length = color_table_length(lsd.global_color_size);
        lemma_blocks_end_at_trailer(c, 13 + length, no_graphic_control(), Seq::empty());
    }
}

} // verus!

verus! {

/// Two byte sequences of the same length that hold the same bytes from
/// `start` on.
pub open spec fn agree_from(c1: Seq<u8>, c2: Seq<u8>, start: int) -> bool {
    &&& c1.len() == c2.len()
    &&& forall|i: int| start <= i < c1.len() ==> c1[i] == c2[i]
}

proof fn lemma_skip_sub_blocks_agree(c1: Seq<u8>, c2: Seq<u8>, start: int, off: int, count: nat)
    requires
        agree_from(c1, c2, start),
        0 <= start <= off,
    ensures
        skip_sub_blocks(c1, off, count) == skip_sub_blocks(c2, off, count),
    decreases c1.len() - off,
{
    if off + count < c1.len() && c1[off + count] != 0 {
        lemma_skip_sub_blocks_agree(c1, c2, start, off + count + 1, c1[off + count] as nat);
    }
}

proof fn lemma_sub_blocks_agree(
    c1: Seq<u8>,
    c2: Seq<u8>,
    start: int,
    off: int,
    count: nat,
    m: crate::lzw::LzwModel,
    bits: Seq<bool>,
)
    requires
        agree_from(c1, c2, start),
        0 <= start <= off,
    ensures
        decode_sub_blocks(c1, off, count, m, bits) == decode_sub_blocks(c2, off, count, m, bits),
    decreases c1.len() - off,
{
    let end = off + count;
    if end <= c1.len() {
        assert(c1.subrange(off, end) =~= c2.subrange(off, end));
        if let Ok((m2, rest)) = crate::lzw::decode_codes(
            m,
            bits + crate::bit_math::bits_of(c1.subrange(off, end)),
        ) {
            if end < c1.len() && c1[end] != 0 {
                lemma_sub_blocks_agree(c1, c2, start, end + 1, c1[end] as nat, m2, rest);
            }
        }
    }
}

proof fn lemma_color_table_agree(c1: Seq<u8>, c2: Seq<u8>, start: int, at: int, length: int)
    requires
        agree_from(c1, c2, start),
        0 <= start <= at,
        0 <= length,
        at + length <= c1.len(),
    ensures
        color_table(c1, at, length) == color_table(c2, at, length),
{
    let t1 = color_table(c1, at, length);
    let t2 = color_table(c2, at, length);
    assert forall|j: int| 0 <= j < t1.len() implies #[trigger] t1[j] == t2[j] by {
        assert(3 * j + 2 < length) by (nonlinear_arith)
            requires
                0 <= j < length / 3,
                0 <= length,
        ;
    }
    assert(t1 =~= t2);
}

proof fn lemma_image_agree(c1: Seq<u8>, c2: Seq<u8>, start: int, off: int)
    requires
        agree_from(c1, c2, start),
        0 <= start <= off,
    ensures
        image_at(c1, off) == image_at(c2, off),
{
    if off + 9 <= c1.len() {
        let packed = c1[off + 8];
        let length = if packed & 0x80 != 0 { color_table_length(packed & 0x07) } else { 0 };
        let data = off + 9 + length;
        lemma_pow2_pos((packed & 0x07) as nat);
        if data + 2 <= c1.len() {
            lemma_color_table_agree(c1, c2, start, off + 9, length);
            let min = c1[data];
            if !(min == 0 || min > 8) {
                lemma_sub_blocks_agree(c1, c2, start, data + 2, c1[data + 1] as nat, lzw_start(min), Seq::empty());
            }
        }
    }
}

proof fn lemma_blocks_agree(
    c1: Seq<u8>,
    c2: Seq<u8>,
    start: int,
    off: int,
    pending: GraphicsControlExtension,
    frames: Seq<FrameModel>,
)
    requires
        agree_from(c1, c2, start),
        0 <= start <= off,
    ensures
        blocks_at(c1, off, pending, frames) == blocks_at(c2, off, pending, frames),
    decreases c1.len() - off,
{
    if 0 <= off < c1.len() && c1[off] != 0x3B {
        if c1[off] == 0x2C {
            lemma_image_agree(c1, c2, start, off + 1);
            lemma_image_advances(c1, off + 1);
            if let Ok((im, local_table, indices, next)) = image_at(c1, off + 1) {
                lemma_blocks_agree(
                    c1,
                    c2,
                    start,
                    next,
                    no_graphic_control(),
                    frames.push(FrameModel { gcd: pending, im, local_table, indices }),
                );
            }
        } else if off + 1 < c1.len() {
            let at = off + 2;
            lemma_extensions_advance(c1, at);
            if at < c1.len() {
                lemma_skip_sub_blocks_agree(c1, c2, start, at + 1, c1[at] as nat);
                let e = at + 1 + c1[at];
                if e < c1.len() {
                    lemma_skip_sub_blocks_agree(c1, c2, start, e + 1, c1[e] as nat);
                    assert(c1.subrange(at + 1, e) =~= c2.subrange(at + 1, e));
                }
            }
            let label = c1[off + 1];
            if label == 0xF9 {
                if let Ok((g, next)) = graphic_control_at(c1, at) {
                    lemma_blocks_agree(c1, c2, start, next, g, frames);
                }
            } else if label == 0x01 {
                if let Ok(next) = plain_text_at(c1, at) {
                    lemma_blocks_agree(c1, c2, start, next, pending, frames);
                }
            } else if label == 0xFF {
                if let Ok((_, next)) = application_at(c1, at) {
                    lemma_blocks_agree(c1, c2, start, next, pending, frames);
                }
            } else if label == 0xFE {
                if let Ok(next) = comment_at(c1, at) {
                    lemma_blocks_agree(c1, c2, start, next, pending, frames);
                }
            } else {
                lemma_blocks_agree(c1, c2, start, at, pending, frames);
            }
        }
    }
}

/// Only the bytes from offset 6 on decide a file's decoding; the signature
/// (bytes 0 to 2) is not looked at, and the version bytes (3 to 5) give the
/// version and nothing else. Two files of one length that agree from
/// byte 6 on both fail with the same error, or both decode to the same
/// screen descriptor, colour table, images and trailer offset. (The
/// decoder's offset before the call plays no part either: `decode_bytes`
/// states its result over the bytes alone.)
pub proof fn law_header_bytes_give_only_the_version(c1: Seq<u8>, c2: Seq<u8>)
    requires
        agree_from(c1, c2, 6),
    ensures
        decode_at(c1) is Ok <==> decode_at(c2) is Ok,
        decode_at(c1) matches Err(e1) ==> decode_at(c2) == Err::<(GifModel, int), DecodeError>(e1),
        decode_at(c1) matches Ok((g1, end1)) ==> decode_at(c2) matches Ok((g2, end2)) && end1 == end2
            && g1.lsd == g2.lsd && g1.global_table == g2.global_table && g1.frames == g2.frames,
{
    if c1.len() >= 13 {
        assert(lsd_of(c1) == lsd_of(c2));
        let length = color_table_length(lsd_of(c1).global_color_size);
        lemma_pow2_pos(lsd_of(c1).global_color_size as nat);
        if 13 + length <= c1.len() {
            lemma_color_table_agree(c1, c2, 6, 13, length);
        }
        lemma_blocks_agree(c1, c2, 6, 13 + length, no_graphic_control(), Seq::empty());
    }
}

} // verus!

verus! {

/// The bits of a packed field, said in arithmetic.
proof fn lemma_packed_bits(p: u8)
    ensures
        (p & 0x80 != 0) == (p >= 128),
        (p & 0x40 != 0) == ((p / 64) % 2 == 1),
        (p & 0x20 != 0) == ((p / 32) % 2 == 1),
        (p & 0x08 != 0) == ((p / 8) % 2 == 1),
        (p & 0x02 != 0) == ((p / 2) % 2 == 1),
        (p & 0x01 != 0) == (p % 2 == 1),
        (p & 0x07) == p % 8,
        (p & 0x70) == ((p / 16) % 8) * 16,
        (p & 0x1C) == ((p / 4) % 8) * 4,
{
    assert((p & 0x80 != 0) == (p >= 128)) by (bit_vector);
    assert((p & 0x40 != 0) == ((p / 64) % 2 == 1)) by (bit_vector);
    assert((p & 0x20 != 0) == ((p / 32) % 2 == 1)) by (bit_vector);
    assert((p & 0x08 != 0) == ((p / 8) % 2 == 1)) by (bit_vector);
    assert((p & 0x02 != 0) == ((p / 2) % 2 == 1)) by (bit_vector);
    assert((p & 0x01 != 0) == (p % 2 == 1)) by (bit_vector);
    assert((p & 0x07) == p % 8) by (bit_vector);
    assert((p & 0x70) == ((p / 16) % 8) * 16) by (bit_vector);
    assert((p & 0x1C) == ((p / 4) % 8) * 4) by (bit_vector);
}

/// The logical screen descriptor is read from bytes 6 to 12 of the file:
/// the width from bytes 6 and 7 and the height from bytes 8 and 9 (low byte
/// first); from the packed byte 10 the global colour flag (its top bit), the
/// colour resolution (bits 4 to 6, in place), the sorted flag (bit 3) and the
/// colour table size (bits 0 to 2); the background colour index is byte 11 and
/// the pixel aspect ratio byte 12. A decoded file has that descriptor and,
/// from byte 13 on, a colour table of `2^(size + 1)` colours, three bytes each.
pub proof fn law_screen_descriptor_bytes(c: Seq<u8>)
    requires
        c.len() >= 13,
    ensures
        ({
            let d = lsd_of(c);
            let p = c[10];
            &&& d.width == c[6] + 256 * c[7]
            &&& d.height == c[8] + 256 * c[9]
            &&& d.global_color_flag == (p >= 128)
            &&& d.color_resolution == ((p / 16) % 8) * 16
            &&& d.sorted_flag == ((p / 8) % 2 == 1)
            &&& d.global_color_size == p % 8
            &&& d.background_color_index == c[11]
            &&& d.pixel_aspect_ratio == c[12]
        }),
        decode_at(c) matches Ok((g, _)) ==> {
            &&& g.lsd == lsd_of(c)
            &&& g.global_table matches Some(t) && t.len() == pow2((c[10] % 8 + 1) as nat)
                && forall|j: int|
                0 <= j < t.len() ==> #[trigger] t[j] == Color {
                    red: c[13 + 3 * j],
                    green: c[13 + 3 * j + 1],
                    blue: c[13 + 3 * j + 2],
                    alpha: 255,
                }
        },
{
    lemma_packed_bits(c[10]);
    lemma_color_table_len(c[10] & 0x07);
}

/// A graphic control extension whose block starts at `off` is read whole
/// exactly when its six bytes are in the file, and then: the disposal method
/// is bits 2 to 4 of the packed byte `c[off + 1]` (in place), the user input
/// flag its bit 1, the transparency flag its bit 0; the delay is bytes
/// `off + 2` and `off + 3`, low byte first; the transparent colour index is
/// byte `off + 4`; and reading goes on after the terminator at `off + 5`.
pub proof fn law_graphic_control_bytes(c: Seq<u8>, off: int)
    requires
        0 <= off,
    ensures
        graphic_control_at(c, off) is Ok <==> off + 6 <= c.len(),
        graphic_control_at(c, off) matches Ok((g, next)) ==> {
            let p = c[off + 1];
            &&& next == off + 6
            &&& g.disposal_method == ((p / 4) % 8) * 4
            &&& g.user_input_flag == ((p / 2) % 2 == 1)
            &&& g.transparent_color_flag == (p % 2 == 1)
            &&& g.delay_time == c[off + 2] + 256 * c[off + 3]
            &&& g.transparent_color_index == c[off + 4]
        },
{
    if off + 6 <= c.len() {
        lemma_packed_bits(c[off + 1]);
    }
}

/// An image descriptor whose nine bytes start at `off` gives: left from
/// bytes `off` and `off + 1`, top from `off + 2` and `off + 3`, width from
/// `off + 4` and `off + 5`, height from `off + 6` and `off + 7` (each low
/// byte first); from the packed byte `off + 8` the local colour table flag
/// (its top bit), the interlace flag (bit 6), the sort flag (bit 5) and the
/// table size (bits 0 to 2). Where the flag is set, the local colour table
/// follows at `off + 9` with `2^(size + 1)` colours, three bytes each; where
/// it is not, there is none.
pub proof fn law_image_descriptor_bytes(c: Seq<u8>, off: int)
    requires
        0 <= off,
    ensures
        image_at(c, off) matches Ok((im, table, _, next)) ==> {
            let p = c[off + 8];
            &&& off + 9 <= c.len()
            &&& off < next
            &&& im.left == c[off] + 256 * c[off + 1]
            &&& im.top == c[off + 2] + 256 * c[off + 3]
            &&& im.width == c[off + 4] + 256 * c[off + 5]
            &&& im.height == c[off + 6] + 256 * c[off + 7]
            &&& im.local_color_table_flag == (p >= 128)
            &&& im.interface_flag == ((p / 64) % 2 == 1)
            &&& im.sort_flag == ((p / 32) % 2 == 1)
            &&& im.local_color_table_size == p % 8
            &&& (table is Some <==> p >= 128)
            &&& table matches Some(t) ==> t.len() == pow2((p % 8 + 1) as nat) && forall|j: int|
                0 <= j < t.len() ==> #[trigger] t[j] == Color {
                    red: c[off + 9 + 3 * j],
                    green: c[off + 9 + 3 * j + 1],
                    blue: c[off + 9 + 3 * j + 2],
                    alpha: 255,
                }
        },
{
    lemma_image_advances(c, off);
    if off + 9 <= c.len() {
        lemma_packed_bits(c[off + 8]);
        lemma_color_table_len(c[off + 8] & 0x07);
    }
}

} // verus!
