use rgb48_codec::bitstream::BitstreamError;
use rgb48_codec::codec::Codec;
use rgb48_codec::frame::{Plane, RGB48Frame};
use rgb48_codec::image::Image;

fn frame(data: Vec<u16>, width: usize, height: usize) -> RGB48Frame {
    RGB48Frame { data, width, height }
}

fn encode(f: &RGB48Frame) -> Vec<u8> {
    let mut out = Vec::new();
    f.encode(&mut out);
    out
}

fn round_trip(f: &RGB48Frame) -> Vec<u8> {
    let bytes = encode(f);
    let back = RGB48Frame::decode(&bytes, f.width, f.height).unwrap();
    assert_eq!(back.data, f.data);
    assert_eq!(back.width, f.width);
    assert_eq!(back.height, f.height);
    bytes
}

#[test]
fn single_pixel_single_plane() {
    let f = frame(vec![0], 1, 1);
    assert_eq!(round_trip(&f), vec![0x00, 0x80]);
}

#[test]
fn constant_plane() {
    let f = frame(vec![1000; 16], 4, 4);
    round_trip(&f);
}

#[test]
fn alternating_samples() {
    let f = frame(vec![0, 65535, 0, 65535], 4, 1);
    round_trip(&f);
}

#[test]
fn row_boundary_fix_up() {
    let f = frame(vec![10, 20, 30, 40], 2, 2);
    assert_eq!(round_trip(&f), vec![0x00, 0x00, 0x00, 0x08, 0x20, 0x23, 0x40]);
}

#[test]
fn multi_plane() {
    let data: Vec<u16> = vec![1, 2, 3, 40, 50, 60, 700, 800, 900, 65535, 0, 12345];
    let f = frame(data, 2, 2);
    let bytes = round_trip(&f);
    assert_eq!(bytes[0], 0x80);
}

#[test]
fn header_holds_plane_count() {
    for p in 1..=4usize {
        let f = frame(vec![7; 6 * p], 3, 2);
        let bytes = round_trip(&f);
        assert_eq!(bytes[0], ((p - 1) as u8) << 6);
    }
}

#[test]
fn junk_after_the_frame_is_ignored() {
    let f = frame((0..24u16).map(|i| i.wrapping_mul(2749)).collect(), 4, 2);
    let mut bytes = encode(&f);
    bytes.extend_from_slice(&[0xff, 0x13, 0x00, 0xfe]);
    let back = RGB48Frame::decode(&bytes, 4, 2).unwrap();
    assert_eq!(back.data, f.data);
}

#[test]
fn truncated_frames_fail() {
    let f = frame(vec![9, 60000, 3, 12], 2, 2);
    let bytes = encode(&f);
    for cut in 0..bytes.len() {
        assert_eq!(
            RGB48Frame::decode(&bytes[..cut], 2, 2).err(),
            Some(BitstreamError::UnexpectedEof)
        );
    }
}

#[test]
fn planes_are_strided_views() {
    let f = frame(vec![1, 2, 3, 4, 5, 6, 7, 8, 9, 10, 11, 12], 2, 2);
    let planes = f.planes();
    assert_eq!(planes.len(), 3);
    assert_eq!(planes[1].sample(0, 0), 2);
    assert_eq!(planes[1].sample(1, 0), 5);
    assert_eq!(planes[2].sample(0, 1), 9);
    assert_eq!(planes[0].sample(1, 1), 10);
    assert_eq!(planes[2].row_stride, 6);
}

#[test]
fn plane_sample_uses_strides() {
    let data = [0u16, 1, 2, 3, 4, 5, 6, 7, 8];
    let p = Plane {
        data: &data,
        base: 1,
        width: 2,
        height: 2,
        sample_stride: 2,
        row_stride: 4,
    };
    assert_eq!(p.sample(0, 0), 1);
    assert_eq!(p.sample(1, 0), 3);
    assert_eq!(p.sample(0, 1), 5);
    assert_eq!(p.sample(1, 1), 7);
}

#[test]
fn image_sample_uses_strides() {
    let img = Image {
        data: vec![10, 11, 12, 13, 14, 15],
        width: 3,
        height: 2,
        sample_stride: 1,
        row_stride: 3,
    };
    assert_eq!(img.sample(2, 0), 12);
    assert_eq!(img.sample(0, 1), 13);
}

#[test]
fn multi_plane_bytes_are_header_then_plane_streams() {
    let data: Vec<u16> = vec![1, 2, 3, 40, 50, 60, 700, 800, 900, 65535, 0, 12345];
    let f = frame(data, 2, 2);
    let mut expected = vec![0x80];
    for plane in f.planes().iter() {
        Codec::encode(plane, &mut expected);
    }
    assert_eq!(encode(&f), expected);
}
