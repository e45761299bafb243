use rasterizer::tga::{read_header, unpack_rle, TGA_Header, TGA};
use rasterizer::vbuffer::{Color, VBuffer};

fn header(data_t: u8, width: u16, height: u16, bpp: u8) -> Vec<u8> {
    let mut h = vec![0u8; 18];
    h[2] = data_t;
    h[12] = (width & 0xFF) as u8;
    h[13] = (width >> 8) as u8;
    h[14] = (height & 0xFF) as u8;
    h[15] = (height >> 8) as u8;
    h[16] = bpp;
    h[17] = 8;
    h
}

fn sample_image() -> VBuffer {
    let mut img = VBuffer::new(3, 2);
    img.plot(0, 0, Color::new(1, 2, 3, 4));
    img.plot(2, 1, Color::new(0xAA, 0xBB, 0xCC, 0xDD));
    img.plot(1, 1, Color::new(0xFF, 0, 0x80, 0x7F));
    img
}

#[test]
fn rle_literal_packet() {
    let bytes = [0x01u8, 1, 2, 3, 4, 5, 6, 7, 8];
    let out = unpack_rle(&bytes, 0, 2, 4).unwrap();
    assert_eq!(out, vec![1, 2, 3, 4, 5, 6, 7, 8]);
}

#[test]
fn rle_run_packet() {
    let bytes = [0x81u8, 9, 8, 7, 6];
    let out = unpack_rle(&bytes, 0, 2, 4).unwrap();
    assert_eq!(out, vec![9, 8, 7, 6, 9, 8, 7, 6]);
}

#[test]
fn rle_mixed_packets_from_offset() {
    let bytes = [0xEEu8, 0x00, 1, 2, 3, 0x82, 4, 5, 6];
    let out = unpack_rle(&bytes, 1, 4, 3).unwrap();
    assert_eq!(out, vec![1, 2, 3, 4, 5, 6, 4, 5, 6, 4, 5, 6]);
}

#[test]
fn rle_short_input_fails() {
    assert_eq!(unpack_rle(&[0x01u8, 1, 2, 3, 4, 5], 0, 2, 4), None);
    assert_eq!(unpack_rle(&[0x81u8, 1, 2], 0, 2, 4), None);
    assert_eq!(unpack_rle(&[], 0, 1, 4), None);
}

#[test]
fn rle_packet_past_last_pixel_fails() {
    assert_eq!(unpack_rle(&[0x83u8, 1, 2, 3, 4], 0, 2, 4), None);
}

#[test]
fn rle_zero_pixels_is_empty() {
    assert_eq!(unpack_rle(&[], 0, 0, 4), Some(vec![]));
}

fn numbered_header() -> TGA_Header {
    TGA_Header {
        id_len: 1,
        colormap_t: 2,
        data_t: 3,
        colormap_origin: 0x0405,
        colormap_len: 0x0607,
        colormap_depth: 8,
        x_origin: 0x090A,
        y_origin: 0x0B0C,
        width: 0x0D0E,
        height: 0x0F10,
        bits_per_pixel: 0x11,
        img_desc: 0x12,
    }
}

#[test]
fn encode_writes_header_fields_as_stored() {
    let file = TGA { head: numbered_header(), data: vec![] };
    assert_eq!(file.encode(), (1u8..=0x12).collect::<Vec<u8>>());
}

#[test]
fn read_header_is_little_endian() {
    let bytes = vec![1u8, 2, 3, 5, 4, 7, 6, 8, 0x0A, 9, 0x0C, 0x0B, 0x0E, 0x0D, 0x10, 0x0F, 0x11, 0x12];
    assert_eq!(read_header(&bytes), numbered_header());
}

#[test]
fn new_stores_swapped_sizes_and_reversed_pixels() {
    let img = sample_image();
    let file = TGA::new(&img);
    assert_eq!(file.head.data_t, 2);
    assert_eq!(file.head.width, 0x0300);
    assert_eq!(file.head.height, 0x0200);
    assert_eq!(file.head.bits_per_pixel, 32);
    assert_eq!(file.head.img_desc, 8);
    assert_eq!(file.head.colormap_origin, 0);
    assert_eq!(file.data.len(), img.data.len());
    for (s, c) in file.data.iter().zip(img.data.iter()) {
        assert_eq!(s.0, c.0.swap_bytes());
    }
    assert_eq!(file.data[0], Color(0x0403_0201));
}

#[test]
fn new_takes_sizes_modulo_65536() {
    let img = VBuffer::new(0x1_0001, 0);
    let file = TGA::new(&img);
    assert_eq!(file.head.width, 0x0100);
    assert_eq!(file.head.height, 0);
}

#[test]
fn encode_writes_bgra() {
    let mut img = VBuffer::new(1, 1);
    img.plot(0, 0, Color::new(0x11, 0x22, 0x33, 0x44));
    let bytes = TGA::new(&img).encode();
    assert_eq!(bytes.len(), 22);
    assert_eq!(&bytes[..18], &header(2, 1, 1, 32)[..]);
    assert_eq!(&bytes[18..], &[0x33, 0x22, 0x11, 0x44]);
}

#[test]
fn round_trip_plain() {
    let img = sample_image();
    let bytes = TGA::new(&img).encode();
    let back = VBuffer::load(&bytes).unwrap();
    assert_eq!(back, img);
}

#[test]
fn round_trip_empty() {
    let img = VBuffer::new(0, 5);
    let back = VBuffer::load(&TGA::new(&img).encode()).unwrap();
    assert_eq!(back, img);
}

#[test]
fn load_rle_32_bit() {
    let mut bytes = header(10, 2, 2, 32);
    bytes.extend_from_slice(&[0x01, 1, 2, 3, 4, 5, 6, 7, 8]);
    bytes.extend_from_slice(&[0x81, 9, 10, 11, 12]);
    let img = VBuffer::load(&bytes).unwrap();
    assert_eq!(img.width, 2);
    assert_eq!(img.height, 2);
    assert_eq!(
        img.data,
        vec![
            Color::new(3, 2, 1, 4),
            Color::new(7, 6, 5, 8),
            Color::new(11, 10, 9, 12),
            Color::new(11, 10, 9, 12),
        ]
    );
}

#[test]
fn load_plain_24_bit_is_opaque() {
    let mut bytes = header(2, 2, 1, 24);
    bytes.extend_from_slice(&[1, 2, 3, 4, 5, 6]);
    let file = TGA::load(&bytes).unwrap();
    assert_eq!(file.data, vec![Color::new(3, 2, 1, 0xFF), Color::new(6, 5, 4, 0xFF)]);
}

#[test]
fn load_rejects_short_header() {
    assert!(TGA::load(&[0u8; 17]).is_none());
    assert!(VBuffer::load(&[]).is_none());
}

#[test]
fn load_rejects_unknown_type_or_depth() {
    let mut bytes = header(1, 1, 1, 32);
    bytes.extend_from_slice(&[0, 0, 0, 0]);
    assert!(TGA::load(&bytes).is_none());
    let mut bytes = header(2, 1, 1, 16);
    bytes.extend_from_slice(&[0, 0, 0, 0]);
    assert!(TGA::load(&bytes).is_none());
}

#[test]
fn load_rejects_missing_pixels() {
    let mut bytes = header(2, 2, 2, 32);
    bytes.extend_from_slice(&[0; 15]);
    assert!(TGA::load(&bytes).is_none());
    let mut bytes = header(10, 2, 2, 32);
    bytes.extend_from_slice(&[0x80, 1, 2, 3, 4]);
    assert!(TGA::load(&bytes).is_none());
}
