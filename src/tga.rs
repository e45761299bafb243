//! The TGA image format: an 18-byte little-endian header followed by pixel
//! data, either stored plainly or run-length encoded.

use vstd::prelude::*;
use byteorder::ByteOrder;
use vstd::arithmetic::div_mod::lemma_fundamental_div_mod_converse;
use crate::vbuffer::{Color, VBuffer, pack, channel};

verus! {

/// Length of the header in bytes.
pub const HEADER_LEN: usize = 18;

/// Image type of uncompressed true-colour data.
pub const TYPE_PLAIN: u8 = 2;

/// Image type of run-length encoded true-colour data.
pub const TYPE_RLE: u8 = 10;

/// The fields of a TGA header, in file order.
#[allow(non_camel_case_types)]
#[derive(Clone, Copy, Debug, PartialEq, Eq, Structural)]
pub struct TGA_Header {
    pub id_len: u8,
    pub colormap_t: u8,
    pub data_t: u8,
    pub colormap_origin: u16,
    pub colormap_len: u16,
    pub colormap_depth: u8,
    pub x_origin: u16,
    pub y_origin: u16,
    pub width: u16,
    pub height: u16,
    pub bits_per_pixel: u8,
    pub img_desc: u8,
}

/// A decoded image: its header and one colour per pixel, row-major.
#[derive(Clone, Debug, PartialEq, Eq)]
pub struct TGA {
    pub head: TGA_Header,
    pub data: Vec<Color>,
}

/// The low byte of a 16-bit value.
pub open spec fn lo8(v: u16) -> u8 {
    (v % 0x100) as u8
}

/// The high byte of a 16-bit value.
pub open spec fn hi8(v: u16) -> u8 {
    (v / 0x100) as u8
}

/// The two bytes of a 16-bit value exchanged.
pub open spec fn swapped16(v: u16) -> u16 {
    ((v % 0x100) * 0x100 + v / 0x100) as u16
}

/// The four bytes of a 32-bit value in reverse order.
pub open spec fn reversed32(v: u32) -> u32 {
    pack(channel(v, 0), channel(v, 1), channel(v, 2), channel(v, 3))
}

/// Each pixel word with its bytes reversed.
pub open spec fn reversed_pixels(cs: Seq<Color>) -> Seq<Color> {
    cs.map_values(|c: Color| Color(reversed32(c.0)))
}

/// The header as a file holds it: 16-bit fields least significant byte
/// first.
pub open spec fn header_bytes(h: TGA_Header) -> Seq<u8> {
    seq![
        h.id_len, h.colormap_t, h.data_t,
        lo8(h.colormap_origin), hi8(h.colormap_origin),
        lo8(h.colormap_len), hi8(h.colormap_len),
        h.colormap_depth,
        lo8(h.x_origin), hi8(h.x_origin),
        lo8(h.y_origin), hi8(h.y_origin),
        lo8(h.width), hi8(h.width),
        lo8(h.height), hi8(h.height),
        h.bits_per_pixel, h.img_desc,
    ]
}

/// The header's fields written in order, 16-bit ones most significant byte
/// first: what bincode makes of them.
pub open spec fn header_bytes_be(h: TGA_Header) -> Seq<u8> {
    seq![
        h.id_len, h.colormap_t, h.data_t,
        hi8(h.colormap_origin), lo8(h.colormap_origin),
        hi8(h.colormap_len), lo8(h.colormap_len),
        h.colormap_depth,
        hi8(h.x_origin), lo8(h.x_origin),
        hi8(h.y_origin), lo8(h.y_origin),
        hi8(h.width), lo8(h.width),
        hi8(h.height), lo8(h.height),
        h.bits_per_pixel, h.img_desc,
    ]
}

/// The bytes written for a stored pixel word: bits 16 to 23, 8 to 15, 0 to
/// 7, then 24 to 31. For a byte-reversed colour that is blue, green, red,
/// alpha.
pub open spec fn pixel_bytes(c: Color) -> Seq<u8> {
    seq![channel(c.0, 2), channel(c.0, 1), channel(c.0, 0), channel(c.0, 3)]
}

/// The bytes written for a run of stored pixel words, four each.
pub open spec fn pixels_bytes(cs: Seq<Color>) -> Seq<u8> {
    Seq::new(4 * cs.len(), |i: int| pixel_bytes(cs[i / 4])[i % 4])
}

/// What `TGA::encode` writes: the header fields as they stand, through
/// bincode, then every stored pixel word.
pub open spec fn tga_bytes(h: TGA_Header, data: Seq<Color>) -> Seq<u8> {
    header_bytes_be(h) + pixels_bytes(data)
}

/// The header of an uncompressed 32-bit image of the given size.
pub open spec fn plain_header(width: u16, height: u16) -> TGA_Header {
    TGA_Header {
        id_len: 0,
        colormap_t: 0,
        data_t: 2,
        colormap_origin: 0,
        colormap_len: 0,
        colormap_depth: 0,
        x_origin: 0,
        y_origin: 0,
        width,
        height,
        bits_per_pixel: 32,
        img_desc: 8,
    }
}

/// The header that `TGA::new` stores: the plain one with its sizes
/// byte-swapped, so that bincode's most-significant-first output puts them
/// in the file least significant byte first.
pub open spec fn stored_header(width: u16, height: u16) -> TGA_Header {
    TGA_Header { width: swapped16(width), height: swapped16(height), ..plain_header(width, height) }
}

/// The little-endian 16-bit value at `at`.
pub open spec fn u16_at(b: Seq<u8>, at: int) -> u16 {
    (b[at] + 0x100 * b[at + 1]) as u16
}

/// The header read from the first 18 bytes.
pub open spec fn parse_header(b: Seq<u8>) -> TGA_Header {
    TGA_Header {
        id_len: b[0],
        colormap_t: b[1],
        data_t: b[2],
        colormap_origin: u16_at(b, 3),
        colormap_len: u16_at(b, 5),
        colormap_depth: b[7],
        x_origin: u16_at(b, 8),
        y_origin: u16_at(b, 10),
        width: u16_at(b, 12),
        height: u16_at(b, 14),
        bits_per_pixel: b[16],
        img_desc: b[17],
    }
}

/// The colour of the stored pixel at `at`: blue, green, red, and alpha when
/// pixels are four bytes wide, else opaque.
pub open spec fn read_pixel(raw: Seq<u8>, at: int, size: int) -> Color {
    Color(pack(raw[at + 2], raw[at + 1], raw[at], if size == 4 { raw[at + 3] } else { 0xFF }))
}

/// The `n` colours stored in `raw`, `size` bytes each.
pub open spec fn colors_of(raw: Seq<u8>, size: int, n: int) -> Seq<Color> {
    Seq::new(n as nat, |k: int| read_pixel(raw, k * size, size))
}

/// The expansion of run-length packets from `pos` on, for `remaining`
/// pixels of `size` bytes. A packet starts with a count byte `h`: below 128,
/// `h + 1` pixels follow literally; from 128 on, one pixel follows, repeated
/// `h - 127` times. `None` when the bytes end early or a packet runs past the
/// last pixel.
pub open spec fn rle_unpack(b: Seq<u8>, pos: int, remaining: nat, size: int) -> Option<Seq<u8>>
    decreases remaining,
{
    if remaining == 0 {
        Some(seq![])
    } else if pos < 0 || pos >= b.len() || size <= 0 {
        None
    } else {
        let h = b[pos] as int;
        let cnt = if h < 128 {
            h + 1
        } else {
            h - 127
        };
        let next = if h < 128 {
            pos + 1 + cnt * size
        } else {
            pos + 1 + size
        };
        let body = if h < 128 {
            b.subrange(pos + 1, next)
        } else {
            Seq::new((cnt * size) as nat, |i: int| b[pos + 1 + i % size])
        };
        if cnt > remaining || next > b.len() {
            None
        } else {
            match rle_unpack(b, next, (remaining - cnt) as nat, size) {
                Some(rest) => Some(body + rest),
                None => None,
            }
        }
    }
}

/// The pixels of a file whose header is `h`, if `h` describes 24- or 32-bit
/// true colour, plain or run-length encoded, and all its pixels are there.
pub open spec fn decode_pixels(b: Seq<u8>, h: TGA_Header) -> Option<Seq<Color>> {
    let n: int = h.width * h.height;
    let size: int = h.bits_per_pixel as int / 8;
    if h.bits_per_pixel != 24 && h.bits_per_pixel != 32 {
        None
    } else if h.data_t == 2 {
        if 18 + n * size <= b.len() {
            Some(colors_of(b.subrange(18, 18 + n * size), size, n))
        } else {
            None
        }
    } else if h.data_t == 10 {
        match rle_unpack(b, 18, n as nat, size) {
            Some(raw) => Some(colors_of(raw, size, n)),
            None => None,
        }
    } else {
        None
    }
}

/// A file's header and pixels, or `None` when it is not one this codec reads.
pub open spec fn decode(b: Seq<u8>) -> Option<(TGA_Header, Seq<Color>)> {
    if b.len() < 18 {
        None
    } else {
        match decode_pixels(b, parse_header(b)) {
            Some(px) => Some((parse_header(b), px)),
            None => None,
        }
    }
}

/// Relies on byteorder's `LittleEndian::read_u16`: the first two bytes of
/// its argument, least significant first; it panics on fewer than two.
#[verifier::external_body]
fn read_le_u16(b: &[u8], at: usize) -> (r: u16)
    requires
        at + 2 <= b.len(),
    ensures
        r == u16_at(b@, at as int),
{
    byteorder::LittleEndian::read_u16(&b[at..])
}

/// Relies on bincode's `rustc_serialize::encode`: a tuple is written field
/// by field, a `u8` as one byte and a `u16` as two, most significant first;
/// with no size limit and a `Vec` to write to it does not fail.
#[verifier::external_body]
fn encode_fields(h: &TGA_Header) -> (r: Option<Vec<u8>>)
    ensures
        r is Some,
        r.unwrap()@ == header_bytes_be(*h),
{
    let h = *h;
    let fields = (h.id_len, h.colormap_t, h.data_t, h.colormap_origin, h.colormap_len,
        h.colormap_depth, h.x_origin, h.y_origin, h.width, h.height, h.bits_per_pixel, h.img_desc);
    bincode::rustc_serialize::encode(&fields, bincode::SizeLimit::Infinite).ok()
}

fn swap16(v: u16) -> (r: u16)
    ensures
        r == swapped16(v),
{
    (v % 0x100) * 0x100 + v / 0x100
}

fn reverse32(v: u32) -> (r: u32)
    ensures
        r == reversed32(v),
{
    (v % 0x100) * 0x100_0000 + ((v / 0x100) % 0x100) * 0x1_0000 + ((v / 0x1_0000) % 0x100) * 0x100
        + v / 0x100_0000
}

/// The header read from the first 18 bytes.
pub fn read_header(b: &[u8]) -> (r: TGA_Header)
    requires
        b.len() >= 18,
    ensures
        r == parse_header(b@),
{
    TGA_Header {
        id_len: b[0],
        colormap_t: b[1],
        data_t: b[2],
        colormap_origin: read_le_u16(b, 3),
        colormap_len: read_le_u16(b, 5),
        colormap_depth: b[7],
        x_origin: read_le_u16(b, 8),
        y_origin: read_le_u16(b, 10),
        width: read_le_u16(b, 12),
        height: read_le_u16(b, 14),
        bits_per_pixel: b[16],
        img_desc: b[17],
    }
}

/// An expansion covers exactly `size` bytes per pixel.
pub proof fn lemma_rle_len(b: Seq<u8>, pos: int, remaining: nat, size: int)
    requires
        rle_unpack(b, pos, remaining, size) is Some,
    ensures
        rle_unpack(b, pos, remaining, size).unwrap().len() == remaining * size,
    decreases remaining,
{
    if remaining > 0 {
        let h = b[pos] as int;
        let cnt = if h < 128 {
            h + 1
        } else {
            h - 127
        };
        let next = if h < 128 {
            pos + 1 + cnt * size
        } else {
            pos + 1 + size
        };
        let body = if h < 128 {
            b.subrange(pos + 1, next)
        } else {
            Seq::new((cnt * size) as nat, |i: int| b[pos + 1 + i % size])
        };
        lemma_rle_len(b, next, (remaining - cnt) as nat, size);
        assert(cnt * size + (remaining - cnt) * size == remaining * size) by (nonlinear_arith);
        assert(0 <= cnt * size) by (nonlinear_arith)
            requires
                cnt >= 1,
                size >= 1,
        ;
        assert(body.len() == cnt * size);
        let rest = rle_unpack(b, next, (remaining - cnt) as nat, size).unwrap();
        assert(rle_unpack(b, pos, remaining, size).unwrap() == body + rest);
        assert(rest.len() == (remaining - cnt) * size);
        assert((body + rest).len() == remaining * size);
    } else {
        assert(remaining * size == 0) by (nonlinear_arith)
            requires
                remaining == 0,
        ;
    }
}

/// Expands the run-length packets that start at `start` into the bytes of
/// `pixels` pixels of `size` bytes each.
pub fn unpack_rle(bytes: &[u8], start: usize, pixels: usize, size: usize) -> (r: Option<Vec<u8>>)
    requires
        1 <= size <= 4,
    ensures
        match rle_unpack(bytes@, start as int, pixels as nat, size as int) {
            Some(v) => r is Some && r.unwrap()@ == v,
            None => r is None,
        },
{
    let ghost b = bytes@;
    let ghost whole = rle_unpack(b, start as int, pixels as nat, size as int);
    let mut out: Vec<u8> = Vec::new();
    let mut pos: usize = start;
    let mut rem: usize = pixels;
    while rem > 0
        invariant
            1 <= size <= 4,
            b == bytes@,
            whole == rle_unpack(b, start as int, pixels as nat, size as int),
            whole == (match rle_unpack(b, pos as int, rem as nat, size as int) {
                Some(rest) => Some(out@ + rest),
                None => None::<Seq<u8>>,
            }),
        decreases rem,
    {
        if pos >= bytes.len() {
            return None;
        }
        let h = bytes[pos];
        let ghost out0 = out@;
        let ghost pos0 = pos;
        let ghost rem0 = rem;
        if h < 128 {
            let cnt: usize = h as usize + 1;
            assert(cnt * size <= 512) by (nonlinear_arith)
                requires
                    cnt <= 128,
                    size <= 4,
            ;
            if cnt > rem || cnt * size > bytes.len() - pos - 1 {
                return None;
            }
            let len = cnt * size;
            let mut j: usize = 0;
            while j < len
                invariant
                    j <= len,
                    len == cnt * size,
                    pos + 1 + len <= bytes.len(),
                    b == bytes@,
                    out@ == out0 + b.subrange(pos + 1, pos + 1 + j),
                decreases len - j,
            {
                out.push(bytes[pos + 1 + j]);
                assert(b.subrange(pos + 1, pos + 1 + j + 1) =~= b.subrange(pos + 1, pos + 1 + j).push(
                    b[pos + 1 + j],
                ));
                j += 1;
            }
            proof {
                assert(out@ =~= out0 + b.subrange(pos + 1, pos + 1 + len));
            }
            pos = pos + 1 + len;
            rem = rem - cnt;
        } else {
            let cnt: usize = h as usize - 127;
            assert(cnt * size <= 512) by (nonlinear_arith)
                requires
                    cnt <= 128,
                    size <= 4,
            ;
            if cnt > rem || size > bytes.len() - pos - 1 {
                return None;
            }
            let len = cnt * size;
            let ghost body = Seq::new((cnt * size) as nat, |i: int| b[pos + 1 + i % (size as int)]);
            let mut j: usize = 0;
            while j < len
                invariant
                    j <= len,
                    len == cnt * size,
                    1 <= size <= 4,
                    pos + 1 + size <= bytes.len(),
                    b == bytes@,
                    body == Seq::new((cnt * size) as nat, |i: int| b[pos + 1 + i % (size as int)]),
                    out@ == out0 + body.take(j as int),
                decreases len - j,
            {
                out.push(bytes[pos + 1 + j % size]);
                assert(body.take(j + 1) =~= body.take(j as int).push(body[j as int]));
                j += 1;
            }
            proof {
                assert(body.take(len as int) =~= body);
            }
            pos = pos + 1 + size;
            rem = rem - cnt;
        }
        proof {
            let body = out@.subrange(out0.len() as int, out@.len() as int);
            assert(out@ =~= out0 + body);
            assert(rle_unpack(b, pos0 as int, rem0 as nat, size as int) == match rle_unpack(
                b,
                pos as int,
                rem as nat,
                size as int,
            ) {
                Some(rest) => Some(body + rest),
                None => None::<Seq<u8>>,
            });
            match rle_unpack(b, pos as int, rem as nat, size as int) {
                Some(rest) => {
                    assert(out0 + (body + rest) =~= out@ + rest);
                },
                None => {},
            }
        }
    }
    Some(out)
}

/// The `n` colours stored from `start` on, `size` bytes each.
fn read_colors(raw: &[u8], start: usize, size: usize, n: usize) -> (r: Vec<Color>)
    requires
        size == 3 || size == 4,
        start + n * size <= raw.len(),
    ensures
        r@ == colors_of(raw@.subrange(start as int, start + n * size), size as int, n as int),
{
    let ghost sub = raw@.subrange(start as int, start + n * size);
    let mut out: Vec<Color> = Vec::with_capacity(n);
    let mut k: usize = 0;
    let mut at: usize = start;
    while k < n
        invariant
            size == 3 || size == 4,
            k <= n,
            start + n * size <= raw.len(),
            at == start + k * size,
            sub == raw@.subrange(start as int, start + n * size),
            out@ == colors_of(sub, size as int, n as int).take(k as int),
        decreases n - k,
    {
        proof {
            assert(k * size + size <= n * size) by (nonlinear_arith)
                requires
                    k < n,
                    size >= 0,
            ;
            assert((k + 1) * size == k * size + size) by (nonlinear_arith);
        }
        let a = if size == 4 { raw[at + 3] } else { 0xFF };
        let c = Color::new(raw[at + 2], raw[at + 1], raw[at], a);
        assert(c == read_pixel(sub, k * size, size as int));
        out.push(c);
        assert(out@ =~= colors_of(sub, size as int, n as int).take(k + 1));
        k = k + 1;
        at = at + size;
    }
    assert(out@ =~= colors_of(sub, size as int, n as int));
    out
}

/// Appends the bytes written for one stored pixel word.
fn push_pixel(out: &mut Vec<u8>, c: Color)
    ensures
        final(out)@ == old(out)@ + pixel_bytes(c),
{
    out.push(((c.0 / 0x1_0000) % 0x100) as u8);
    out.push(((c.0 / 0x100) % 0x100) as u8);
    out.push((c.0 % 0x100) as u8);
    out.push((c.0 / 0x100_0000) as u8);
    assert(final(out)@ =~= old(out)@ + pixel_bytes(c));
}

proof fn lemma_pixels_bytes_push(cs: Seq<Color>, c: Color)
    ensures
        pixels_bytes(cs.push(c)) == pixels_bytes(cs) + pixel_bytes(c),
{
    let l = pixels_bytes(cs.push(c));
    let r = pixels_bytes(cs) + pixel_bytes(c);
    assert forall|i: int| 0 <= i < l.len() implies l[i] == r[i] by {
        let n = cs.len() as int;
        if i < 4 * n {
            assert(i / 4 < n);
        } else {
            lemma_fundamental_div_mod_converse(i, 4, n, i - 4 * n);
        }
    }
    assert(l =~= r);
}

impl TGA {
    /// An uncompressed 32-bit image of `img`, laid out for `encode`: the
    /// sizes, taken modulo 65536, are stored byte-swapped and each pixel
    /// word byte-reversed.
    pub fn new(img: &VBuffer) -> (r: TGA)
        ensures
            r.head == stored_header(
                (img.width % 0x1_0000) as u16,
                (img.height % 0x1_0000) as u16,
            ),
            r.data@ == reversed_pixels(img.data@),
    {
        let mut data: Vec<Color> = Vec::with_capacity(img.data.len());
        let mut i: usize = 0;
        while i < img.data.len()
            invariant
                i <= img.data.len(),
                data@ == reversed_pixels(img.data@).take(i as int),
            decreases img.data.len() - i,
        {
            data.push(Color(reverse32(img.data[i].0)));
            assert(data@ =~= reversed_pixels(img.data@).take(i + 1));
            i += 1;
        }
        assert(data@ =~= reversed_pixels(img.data@));
        TGA {
            head: TGA_Header {
                id_len: 0,
                colormap_t: 0,
                data_t: TYPE_PLAIN,
                colormap_origin: 0,
                colormap_len: 0,
                colormap_depth: 0,
                x_origin: 0,
                y_origin: 0,
                width: swap16((img.width % 0x1_0000) as u16),
                height: swap16((img.height % 0x1_0000) as u16),
                bits_per_pixel: 32,
                img_desc: 8,
            },
            data,
        }
    }

    /// The file bytes: the header fields as they stand, 16-bit ones most
    /// significant byte first, then the bytes of every stored pixel word.
    pub fn encode(&self) -> (r: Vec<u8>)
        ensures
            r@ == tga_bytes(self.head, self.data@),
    {
        let mut out = encode_fields(&self.head).unwrap();
        let mut i: usize = 0;
        while i < self.data.len()
            invariant
                i <= self.data.len(),
                out@ == header_bytes_be(self.head) + pixels_bytes(self.data@.take(i as int)),
            decreases self.data.len() - i,
        {
            push_pixel(&mut out, self.data[i]);
            proof {
                lemma_pixels_bytes_push(self.data@.take(i as int), self.data@[i as int]);
                assert(self.data@.take(i + 1) =~= self.data@.take(i as int).push(self.data@[i as int]));
                assert(out@ =~= header_bytes_be(self.head) + pixels_bytes(self.data@.take(i + 1)));
            }
            i += 1;
        }
        assert(self.data@.take(self.data.len() as int) =~= self.data@);
        out
    }

    /// Reads a file: 24- or 32-bit true colour, plain or run-length encoded.
    /// `None` when the bytes are not such a file or end before its last pixel.
    pub fn load(bytes: &[u8]) -> (r: Option<TGA>)
        ensures
            match decode(bytes@) {
                Some((h, px)) => r is Some && r.unwrap().head == h && r.unwrap().data@ == px,
                None => r is None,
            },
    {
        if bytes.len() < HEADER_LEN {
            return None;
        }
        let head = read_header(bytes);
        if head.bits_per_pixel != 24 && head.bits_per_pixel != 32 {
            return None;
        }
        let size: usize = (head.bits_per_pixel / 8) as usize;
        assert((head.width as int) * (head.height as int) <= 0xFFFF * 0xFFFF) by (nonlinear_arith)
            requires
                head.width <= 0xFFFF,
                head.height <= 0xFFFF,
        ;
        let n: usize = (head.width as usize) * (head.height as usize);
        assert((n as int) * (size as int) <= 0xFFFF * 0xFFFF * 4) by (nonlinear_arith)
            requires
                n <= 0xFFFF * 0xFFFF,
                size <= 4,
        ;
        if head.data_t == TYPE_PLAIN {
            if (n as u64) * (size as u64) > (bytes.len() - HEADER_LEN) as u64 {
                return None;
            }
            let data = read_colors(bytes, HEADER_LEN, size, n);
            Some(TGA { head, data })
        } else if head.data_t == TYPE_RLE {
            match unpack_rle(bytes, HEADER_LEN, n, size) {
                Some(raw) => {
                    proof {
                        lemma_rle_len(bytes@, 18, n as nat, size as int);
                        assert(raw@.subrange(0, 0 + n * size) =~= raw@);
                    }
                    let data = read_colors(raw.as_slice(), 0, size, n);
                    Some(TGA { head, data })
                },
                None => None,
            }
        } else {
            None
        }
    }
}

/// Packing the channels of a packed value gives the value back.
pub proof fn lemma_pack_channels(v: u32)
    ensures
        pack(channel(v, 3), channel(v, 2), channel(v, 1), channel(v, 0)) == v,
{
    let q1 = v / 0x100;
    let q2 = q1 / 0x100;
    vstd::arithmetic::div_mod::lemma_fundamental_div_mod(v as int, 0x100);
    vstd::arithmetic::div_mod::lemma_fundamental_div_mod(q1 as int, 0x100);
    vstd::arithmetic::div_mod::lemma_fundamental_div_mod(q2 as int, 0x100);
    vstd::arithmetic::div_mod::lemma_div_denominator(v as int, 0x100, 0x100);
    vstd::arithmetic::div_mod::lemma_div_denominator(v as int, 0x1_0000, 0x100);
}

/// The channels of a packed value are the ones it was packed from.
pub proof fn lemma_channels_of_pack(r: u8, g: u8, b: u8, a: u8)
    ensures
        channel(pack(r, g, b, a), 0) == a,
        channel(pack(r, g, b, a), 1) == b,
        channel(pack(r, g, b, a), 2) == g,
        channel(pack(r, g, b, a), 3) == r,
{
    let v = r * 0x100_0000 + g * 0x1_0000 + b * 0x100 + a;
    assert(pack(r, g, b, a) == v);
    lemma_fundamental_div_mod_converse(v, 0x100, r * 0x1_0000 + g * 0x100 + b, a as int);
    lemma_fundamental_div_mod_converse(r * 0x1_0000 + g * 0x100 + b, 0x100, r * 0x100 + g, b as int);
    lemma_fundamental_div_mod_converse(v, 0x1_0000, r * 0x100 + g, b * 0x100 + a);
    lemma_fundamental_div_mod_converse(r * 0x100 + g, 0x100, r as int, g as int);
    lemma_fundamental_div_mod_converse(v, 0x100_0000, r as int, g * 0x1_0000 + b * 0x100 + a);
}

/// A byte-reversed pixel word is written blue, green, red, alpha.
proof fn lemma_reversed_bytes(v: u32)
    ensures
        channel(reversed32(v), 2) == channel(v, 1),
        channel(reversed32(v), 1) == channel(v, 2),
        channel(reversed32(v), 0) == channel(v, 3),
        channel(reversed32(v), 3) == channel(v, 0),
{
    lemma_channels_of_pack(channel(v, 0), channel(v, 1), channel(v, 2), channel(v, 3));
}

/// Swapping the sizes makes bincode's output the file's header layout.
proof fn lemma_stored_header_bytes(width: u16, height: u16)
    ensures
        header_bytes_be(stored_header(width, height)) == header_bytes(plain_header(width, height)),
{
    assert(header_bytes_be(stored_header(width, height)) =~= header_bytes(
        plain_header(width, height),
    ));
}

/// The header of a file is read back from its first 18 bytes.
proof fn lemma_parse_header_bytes(h: TGA_Header, rest: Seq<u8>)
    ensures
        parse_header(header_bytes(h) + rest) == h,
{
    let b = header_bytes(h) + rest;
    assert(b[3] == lo8(h.colormap_origin) && b[4] == hi8(h.colormap_origin));
    assert(b[5] == lo8(h.colormap_len) && b[6] == hi8(h.colormap_len));
    assert(b[8] == lo8(h.x_origin) && b[9] == hi8(h.x_origin));
    assert(b[10] == lo8(h.y_origin) && b[11] == hi8(h.y_origin));
    assert(b[12] == lo8(h.width) && b[13] == hi8(h.width));
    assert(b[14] == lo8(h.height) && b[15] == hi8(h.height));
}

/// The bytes written for byte-reversed pixel words decode, four at a time,
/// to the original colours.
proof fn lemma_pixels_read_back(data: Seq<Color>)
    ensures
        colors_of(pixels_bytes(reversed_pixels(data)), 4, data.len() as int) == data,
{
    let n = data.len() as int;
    let pb = pixels_bytes(reversed_pixels(data));
    let cs = colors_of(pb, 4, n);
    assert forall|k: int| 0 <= k < n implies cs[k] == data[k] by {
        let v = data[k].0;
        lemma_pack_channels(v);
        lemma_reversed_bytes(v);
        lemma_fundamental_div_mod_converse(4 * k, 4, k, 0);
        lemma_fundamental_div_mod_converse(4 * k + 1, 4, k, 1);
        lemma_fundamental_div_mod_converse(4 * k + 2, 4, k, 2);
        lemma_fundamental_div_mod_converse(4 * k + 3, 4, k, 3);
        assert(k * 4 == 4 * k);
        assert(reversed_pixels(data)[k] == Color(reversed32(v)));
    }
    assert(cs =~= data);
}

/// A prefix and the rest of a concatenation are its two parts.
proof fn lemma_concat_parts(a: Seq<u8>, b: Seq<u8>)
    ensures
        (a + b).subrange(0, a.len() as int) == a,
        (a + b).subrange(a.len() as int, (a.len() + b.len()) as int) == b,
{
    assert((a + b).subrange(0, a.len() as int) =~= a);
    assert((a + b).subrange(a.len() as int, (a.len() + b.len()) as int) =~= b);
}

/// Decoding the bytes that `TGA::new` and `TGA::encode` make of an image
/// gives back its sizes and pixels.
pub proof fn lemma_round_trip(width: u16, height: u16, data: Seq<Color>)
    requires
        data.len() == width * height,
    ensures
        decode(tga_bytes(stored_header(width, height), reversed_pixels(data))) == Some(
            (plain_header(width, height), data),
        ),
{
    let h = plain_header(width, height);
    let pb = pixels_bytes(reversed_pixels(data));
    let b = tga_bytes(stored_header(width, height), reversed_pixels(data));
    lemma_stored_header_bytes(width, height);
    assert(b == header_bytes(h) + pb);
    lemma_parse_header_bytes(h, pb);
    lemma_concat_parts(header_bytes(h), pb);
    assert(pb.len() == 4 * data.len());
    assert(b.subrange(18, 18 + (width * height) * 4) == pb);
    lemma_pixels_read_back(data);
}

} // verus!
