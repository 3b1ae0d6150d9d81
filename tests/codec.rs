use rgb48_codec::bitstream::{Bitstream, BitstreamError, BitstreamWriter};
use rgb48_codec::codec::{decode_value, encode_value, fixed_prediction, k, Codec};
use rgb48_codec::frame::{Plane, RGB48Frame};

fn load_tiff_frame(path: &str) -> Option<RGB48Frame> {
    let reader = image::io::Reader::open(path).ok()?;
    match reader.decode().unwrap() {
        image::DynamicImage::ImageRgb16(img) => Some(RGB48Frame {
            width: img.width() as usize,
            height: img.height() as usize,
            data: img.into_raw(),
        }),
        _ => panic!("unsupported color type"),
    }
}

fn encoded(frame: &RGB48Frame) -> Vec<u8> {
    let mut out = Vec::new();
    frame.encode(&mut out);
    out
}

fn same_frame(a: &RGB48Frame, b: &RGB48Frame) -> bool {
    a.data == b.data && a.width == b.width && a.height == b.height
}

#[test]
fn test_encode_decode_value() {
    for k in 0..10u32 {
        for &x in [-38368, -10, -1, 0, 1, 2, 3, 4, 5, 6, 38368, 38369].iter() {
            let mut dest = BitstreamWriter::new(Vec::new());
            encode_value(k, x, &mut dest);
            let buf = dest.finish();
            let mut bitstream = Bitstream::new(&buf);
            let decoded = decode_value(k, &mut bitstream).unwrap();
            assert_eq!(
                x, decoded,
                "k = {}, x = {}, roundtripped = {}",
                k, x, decoded
            );
        }
    }
}

fn codec_on_file(path: &str, expected_len: usize) {
    let frame = match load_tiff_frame(path) {
        Some(frame) => frame,
        None => {
            println!("fixture {} is not present: this test checked nothing", path);
            return;
        }
    };
    assert_eq!(frame.data.len(), 4096 * 1714 * 3);

    let encoded = encoded(&frame);
    assert_eq!(encoded.len(), expected_len);

    let decoded = RGB48Frame::decode(&encoded, frame.width, frame.height).unwrap();
    assert_eq!(same_frame(&frame, &decoded), true);
}

#[test]
fn test_codec_12131() {
    codec_on_file("src/testdata/tears_of_steel_12130.tif", 25526583);
}

#[test]
fn test_codec_12209() {
    codec_on_file("src/testdata/tears_of_steel_12209.tif", 28270586);
}

#[test]
fn value_codes_have_the_documented_bits() {
    let code = |k: u32, x: i32| {
        let mut w = BitstreamWriter::new(Vec::new());
        encode_value(k, x, &mut w);
        w.finish()
    };
    assert_eq!(code(0, 0), vec![0x80]);
    assert_eq!(code(0, -1), vec![0x40]);
    assert_eq!(code(0, 1), vec![0x20]);
    assert_eq!(code(2, 5), vec![0x30]);
    assert_eq!(code(0, 5), vec![0x00, 0x20]);
}

#[test]
fn value_round_trip_over_the_plausible_range() {
    for k in [0u32, 1, 7, 17, 30] {
        for x in [-65535, -65534, -4096, -2, 0, 2, 4095, 65534, 65535] {
            let mut w = BitstreamWriter::new(Vec::new());
            encode_value(k, x, &mut w);
            let buf = w.finish();
            let mut r = Bitstream::new(&buf);
            assert_eq!(decode_value(k, &mut r), Ok(x));
        }
    }
}

#[test]
fn value_decode_runs_out_of_bits() {
    let zeros = [0u8, 0];
    let mut r = Bitstream::new(&zeros);
    assert_eq!(decode_value(0, &mut r), Err(BitstreamError::UnexpectedEof));
    let one = [0x80u8];
    let mut r = Bitstream::new(&one);
    assert_eq!(decode_value(8, &mut r), Err(BitstreamError::UnexpectedEof));
}

#[test]
fn prediction_cases() {
    assert_eq!(fixed_prediction(10, 20, 30), 10);
    assert_eq!(fixed_prediction(10, 20, 5), 20);
    assert_eq!(fixed_prediction(10, 20, 15), 15);
    assert_eq!(fixed_prediction(20, 10, 12), 18);
    assert_eq!(fixed_prediction(65535, 65535, 0), 65535);
    assert_eq!(fixed_prediction(0, 65535, 65535), 0);
}

#[test]
fn prediction_stays_within_bounds() {
    let vals = [0u16, 1, 100, 30000, 65534, 65535];
    for &a in vals.iter() {
        for &b in vals.iter() {
            for &c in vals.iter() {
                let p = fixed_prediction(a, b, c) as i64;
                let lo = a.min(b).min(c) as i64;
                let hi = a.max(b).max(c) as i64;
                assert!(lo <= p && p <= hi + hi - lo);
            }
        }
    }
}

#[test]
fn parameter_cases() {
    assert_eq!(k(0, 0, 0, 0), 0);
    assert_eq!(k(0, 0, 0, 3), 0);
    assert_eq!(k(0, 0, 0, 4), 1);
    assert_eq!(k(0, 0, 0, 6), 1);
    assert_eq!(k(0, 0, 0, 7), 2);
    assert_eq!(k(30, 20, 10, 0), 5);
    assert_eq!(k(0, 65535, 0, 0), 16);
    assert_eq!(k(0, 0, 65535, 65535), 16);
}

#[test]
fn parameter_never_drops_as_a_difference_grows() {
    let mut last = 0;
    for d in 0..=65535u16 {
        let now = k(0, 0, 0, d);
        assert!(now >= last);
        last = now;
    }
}

#[test]
fn plane_encoder_and_decoder_agree() {
    let data: Vec<u16> = (0..12u16).map(|i| i * 1000 + 7).collect();
    let plane = Plane {
        data: &data,
        base: 0,
        width: 4,
        height: 3,
        sample_stride: 1,
        row_stride: 4,
    };
    let mut out = vec![0xAA];
    Codec::encode(&plane, &mut out);
    assert_eq!(out[0], 0xAA);
    let (samples, used) = Codec::decode(&out[1..], 4, 3).unwrap();
    assert_eq!(samples, data);
    assert_eq!(used, out.len() - 1);
}
