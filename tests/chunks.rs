use png_achunk::chunk::Error;
use png_achunk::decode::DecodingError;
use png_achunk::encode::{insert_chunks, ColorFormat, EncodingError};
use png_achunk::{ByteReader, Chunk, ChunkType, Decoder, Encoder};

fn record(name: &str, data: &[u8]) -> Vec<u8> {
    let chunk = Chunk::new(ChunkType::from_ascii(name).unwrap(), data.to_vec()).unwrap();
    let mut out = Vec::new();
    chunk.write_to(&mut out);
    out
}

fn stream(records: &[(&str, &[u8])]) -> Vec<u8> {
    let mut out = vec![137, 80, 78, 71, 13, 10, 26, 10];
    for (name, data) in records {
        out.extend(record(name, data));
    }
    out
}

#[test]
fn test() {
    let image = image::DynamicImage::from(image::RgbImage::from_pixel(
        10,
        20,
        image::Rgb([10, 11, 12]),
    ));

    let chunk_type = ChunkType::from_ascii(&"teST").unwrap();
    assert!(!chunk_type.is_critical());
    assert!(!chunk_type.is_public());
    assert!(!chunk_type.is_safe_to_copy());
    let chunk = Chunk::new(chunk_type, vec![4, 5, 6]).unwrap();

    let bytes = Encoder::new()
        .with_custom_chunk(chunk.clone())
        .write_image(image.as_bytes(), 10, 20, ColorFormat::Rgb8)
        .unwrap();

    // Internal decoding
    let (decoded_image, chunks) = Decoder::from_reader(ByteReader::new(bytes.clone()))
        .decode_all()
        .unwrap();
    assert_eq!(image, decoded_image);
    assert_eq!(vec![chunk], chunks);

    // External decoding, ignoring extra chunks
    let decoded_image = image::load_from_memory(&bytes).unwrap();
    assert_eq!(image, decoded_image);
}

#[test]
fn name_round_trip() {
    for name in ["teST", "abCd", "IHDR", "zzZz", "a1B!"] {
        let t = ChunkType::from_ascii(name).unwrap();
        assert_eq!(&t.to_ascii(), name.as_bytes());
    }
}

#[test]
fn name_flags_all_cases() {
    for bits in 0..16u8 {
        let critical = bits & 1 != 0;
        let public = bits & 2 != 0;
        let unsafe_copy = bits & 4 != 0;
        let name: String = [
            if critical { 'A' } else { 'a' },
            if public { 'B' } else { 'b' },
            'C',
            if unsafe_copy { 'D' } else { 'd' },
        ]
        .iter()
        .collect();
        let t = ChunkType::from_ascii(&name).unwrap();
        assert_eq!(t.is_critical(), critical);
        assert_eq!(t.is_public(), public);
        assert_eq!(t.is_safe_to_copy(), !unsafe_copy);
    }
}

#[test]
fn name_errors() {
    assert_eq!(ChunkType::from_ascii("t\u{e9}ST"), Err(Error::TypeAscii));
    assert_eq!(ChunkType::from_ascii("\u{e9}"), Err(Error::TypeAscii));
    assert_eq!(ChunkType::from_ascii("teS"), Err(Error::TypeLength));
    assert_eq!(ChunkType::from_ascii("teSTs"), Err(Error::TypeLength));
    assert_eq!(ChunkType::from_ascii(""), Err(Error::TypeLength));
    assert_eq!(ChunkType::from_ascii("test"), Err(Error::ThirdCase));
    assert_eq!(ChunkType::from_ascii("te1T"), Err(Error::ThirdCase));
    assert_eq!(ChunkType::from_bytes(&[b't', 0xc3, b'S', b'T']), Err(Error::TypeAscii));
}

#[test]
fn record_bytes_exact() {
    assert_eq!(
        record("IEND", &[]),
        vec![0, 0, 0, 0, b'I', b'E', b'N', b'D', 0xAE, 0x42, 0x60, 0x82]
    );
    let r = record("teST", &[4, 5, 6]);
    assert_eq!(&r[0..4], &[0, 0, 0, 3]);
    assert_eq!(&r[4..11], &[b't', b'e', b'S', b'T', 4, 5, 6]);
    let crc = crc32fast::hash(&r[4..11]);
    assert_eq!(&r[11..15], &crc.to_be_bytes());
}

#[test]
fn record_round_trip() {
    for data in [vec![], vec![0u8], vec![4, 5, 6], (0..=255u8).collect::<Vec<u8>>()] {
        let chunk = Chunk::new(ChunkType::from_ascii("abCd").unwrap(), data.clone()).unwrap();
        let mut bytes = vec![9, 9];
        chunk.write_to(&mut bytes);
        bytes.push(7);
        let mut reader = ByteReader::new(bytes.clone());
        reader.pos = 2;
        let parsed = Chunk::from_reader(&mut reader).unwrap();
        assert_eq!(parsed, chunk);
        assert_eq!(parsed.length() as usize, data.len());
        assert_eq!(reader.pos, bytes.len() - 1);
    }
}

#[test]
fn bit_flips_fail_checksum() {
    let bytes = record("teST", &[4, 5, 6, 200]);
    for k in 8..bytes.len() {
        for b in 0..8 {
            let mut flipped = bytes.clone();
            flipped[k] ^= 1 << b;
            let r = Chunk::from_reader(&mut ByteReader::new(flipped));
            assert_eq!(r, Err(Error::Checksum));
        }
    }
}

#[test]
fn short_record_fails() {
    let bytes = record("teST", &[4, 5, 6]);
    for n in 0..bytes.len() {
        let r = Chunk::from_reader(&mut ByteReader::new(bytes[..n].to_vec()));
        assert_eq!(r, Err(Error::Decoding));
    }
}

#[test]
fn payload_length_is_stored() {
    let c = Chunk::new(ChunkType::from_ascii("teST").unwrap(), vec![7; 70000]).unwrap();
    assert_eq!(c.length(), 70000);
    let mut out = Vec::new();
    c.write_to(&mut out);
    assert_eq!(&out[0..4], &[0, 1, 0x11, 0x70]);
}

#[test]
fn scan_keeps_ancillary_in_order() {
    let bytes = stream(&[
        ("IHDR", &[0; 13]),
        ("aaAa", &[1]),
        ("PLTE", &[0, 0, 0]),
        ("bbBb", &[2, 2]),
        ("aaAa", &[3]),
        ("IDAT", &[5, 5]),
        ("ccCc", &[4]),
        ("IEND", &[]),
    ]);
    let chunks = Decoder::from_reader(ByteReader::new(bytes)).decode_ancillary_chunks().unwrap();
    let got: Vec<(Vec<u8>, Vec<u8>)> =
        chunks.into_iter().map(|c| (c.chunk_type.to_ascii().to_vec(), c.data)).collect();
    assert_eq!(
        got,
        vec![
            (b"aaAa".to_vec(), vec![1]),
            (b"bbBb".to_vec(), vec![2, 2]),
            (b"aaAa".to_vec(), vec![3]),
        ]
    );
}

#[test]
fn scan_stops_at_end_record() {
    let bytes = stream(&[("IHDR", &[0; 13]), ("abCd", &[7]), ("IEND", &[]), ("xyZw", &[8])]);
    let chunks = Decoder::from_reader(ByteReader::new(bytes)).decode_ancillary_chunks().unwrap();
    assert_eq!(chunks.len(), 1);
    assert_eq!(chunks[0].data, vec![7]);
}

#[test]
fn scan_aborts_on_corrupt_record() {
    let mut bytes = stream(&[("IHDR", &[0; 13]), ("abCd", &[7]), ("IEND", &[])]);
    let n = bytes.len();
    bytes[n - 14] ^= 1;
    let r = Decoder::from_reader(ByteReader::new(bytes)).decode_ancillary_chunks();
    assert!(matches!(r, Err(DecodingError::Chunk(Error::Checksum))));
    let bytes = stream(&[("IHDR", &[0; 13]), ("abCd", &[7])]);
    let r = Decoder::from_reader(ByteReader::new(bytes)).decode_ancillary_chunks();
    assert!(matches!(r, Err(DecodingError::Chunk(Error::Decoding))));
}

#[test]
fn not_png_is_refused() {
    let mut bytes = stream(&[("IHDR", &[0; 13]), ("IEND", &[])]);
    bytes[2] = b'X';
    let mut d = Decoder::from_reader(ByteReader::new(bytes));
    assert!(matches!(d.decode_ancillary_chunks(), Err(DecodingError::NotPng)));
    assert!(matches!(d.decode_all(), Err(DecodingError::NotPng)));
    let mut d = Decoder::from_reader(ByteReader::new(vec![137, 80, 78]));
    assert!(matches!(d.decode_ancillary_chunks(), Err(DecodingError::Truncated)));
}

#[test]
fn read_chunk_lookup() {
    let bytes = stream(&[
        ("IHDR", &[0; 13]),
        ("teST", &[1]),
        ("teST", &[2]),
        ("IEND", &[]),
    ]);
    let mut d = Decoder::from_reader(ByteReader::new(bytes));
    assert_eq!(d.read_chunk("teST").unwrap(), vec![1]);
    assert!(matches!(d.read_chunk("zzzz"), Err(DecodingError::Chunk(Error::ThirdCase))));
    assert!(matches!(d.read_chunk("zzZz"), Err(DecodingError::ChunkNotFound)));
    assert!(matches!(d.read_chunk("teSTx"), Err(DecodingError::Chunk(Error::TypeLength))));
}

#[test]
fn read_chunk_missing_in_real_png() {
    let image = image::RgbImage::from_pixel(3, 2, image::Rgb([1, 2, 3]));
    let bytes = Encoder::new().write_image(image.as_raw(), 3, 2, ColorFormat::Rgb8).unwrap();
    let mut d = Decoder::from_reader(ByteReader::new(bytes));
    assert!(matches!(d.read_chunk("zzZz"), Err(DecodingError::ChunkNotFound)));
}

#[test]
fn encoder_places_chunks_after_header() {
    let image = image::GrayImage::from_pixel(4, 4, image::Luma([9]));
    let a = Chunk::new(ChunkType::from_ascii("abCd").unwrap(), vec![1, 2]).unwrap();
    let b = Chunk::new(ChunkType::from_ascii("efGh").unwrap(), vec![]).unwrap();
    let bytes = Encoder::new()
        .with_custom_chunk(a.clone())
        .with_custom_chunk(b.clone())
        .write_image(image.as_raw(), 4, 4, ColorFormat::L8)
        .unwrap();
    assert_eq!(&bytes[0..8], &[137, 80, 78, 71, 13, 10, 26, 10]);
    assert_eq!(&bytes[12..16], b"IHDR");
    let mut expected = Vec::new();
    a.write_to(&mut expected);
    b.write_to(&mut expected);
    assert_eq!(&bytes[33..33 + expected.len()], &expected[..]);
    let (decoded, chunks) = Decoder::from_reader(ByteReader::new(bytes)).decode_all().unwrap();
    assert_eq!(chunks, vec![a, b]);
    assert_eq!(decoded, image::DynamicImage::from(image));
}

#[test]
fn encoder_sixteen_bit_and_alpha() {
    let buf = vec![1u8; 2 * 2 * 8];
    let bytes = Encoder::new().write_image(&buf, 2, 2, ColorFormat::Rgba16).unwrap();
    let decoded = image::load_from_memory(&bytes).unwrap();
    assert_eq!(decoded.color(), image::ColorType::Rgba16);
}

#[test]
fn unsupported_color_format() {
    let r = Encoder::new().write_image(&[0, 0, 0], 1, 1, ColorFormat::Bgr8);
    assert!(matches!(r, Err(EncodingError::Unsupported(ColorFormat::Bgr8))));
    let r = Encoder::new().write_image(&[0], 1, 1, ColorFormat::Unknown(3));
    assert!(matches!(r, Err(EncodingError::Unsupported(ColorFormat::Unknown(3)))));
}

#[test]
fn wrong_image_size_is_refused() {
    let r = Encoder::new().write_image(&[0, 0], 4, 4, ColorFormat::Rgb8);
    assert!(matches!(r, Err(EncodingError::ImageSize)));
    let r = Encoder::new().write_image(&[], 0, 4, ColorFormat::Rgb8);
    assert!(matches!(r, Err(EncodingError::ImageSize)));
    let r = Encoder::new().write_image(&[0; 8], 2, 2, ColorFormat::L16);
    assert!(r.is_ok());
    let r = Encoder::new().write_image(&[0; 8], 2, 2, ColorFormat::L8);
    assert!(matches!(r, Err(EncodingError::ImageSize)));
}

#[test]
fn bad_pixel_data_fails_image_decode() {
    let bytes = stream(&[("IHDR", &[0; 13]), ("abCd", &[1]), ("IEND", &[])]);
    let mut d = Decoder::from_reader(ByteReader::new(bytes.clone()));
    assert_eq!(d.decode_ancillary_chunks().unwrap().len(), 1);
    assert!(matches!(d.decode_all(), Err(DecodingError::Image(_))));
}

#[test]
fn insert_needs_header_frame() {
    let chunks = vec![Chunk::new(ChunkType::from_ascii("abCd").unwrap(), vec![1]).unwrap()];
    assert!(matches!(insert_chunks(&[1, 2, 3], &chunks), Err(EncodingError::Framing)));
    let mut short = stream(&[("IHDR", &[0; 13])]);
    short.truncate(30);
    assert!(matches!(insert_chunks(&short, &chunks), Err(EncodingError::Framing)));
    let whole = stream(&[("IHDR", &[0; 13]), ("IEND", &[])]);
    let out = insert_chunks(&whole, &chunks).unwrap();
    assert_eq!(out.len(), whole.len() + 13);
    assert_eq!(&out[33..46], &record("abCd", &[1])[..]);
    assert_eq!(&out[46..], &whole[33..]);
}
