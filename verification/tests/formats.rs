use gruznet::formats::can_decode;
use gruznet::picture::{decode_image, load_picture, MayPanic, RgbaImage};

fn encoded(image: image::DynamicImage, format: image::ImageOutputFormat) -> Vec<u8> {
    let mut bytes: Vec<u8> = Vec::new();
    image.write_to(&mut std::io::Cursor::new(&mut bytes), format).unwrap();
    bytes
}

const PIXELS: [u8; 24] = [
    255, 0, 0, 255, 10, 20, 30, 255, 200, 100, 50, 255, 7, 8, 9, 255, 0, 255, 0, 255, 1, 2, 3, 255,
];

fn opaque() -> image::DynamicImage {
    image::DynamicImage::ImageRgba8(image::RgbaImage::from_raw(3, 2, PIXELS.to_vec()).unwrap())
}

fn without_opacity() -> image::DynamicImage {
    image::DynamicImage::ImageRgb8(opaque().to_rgb8())
}

/// A chunk of a WebP file.
fn chunk(name: &[u8; 4], content: &[u8]) -> Vec<u8> {
    let mut bytes = name.to_vec();
    bytes.extend_from_slice(&(content.len() as u32).to_le_bytes());
    bytes.extend_from_slice(content);
    if content.len() % 2 == 1 {
        bytes.push(0);
    }
    bytes
}

fn webp(chunks: &[Vec<u8>]) -> Vec<u8> {
    let body: Vec<u8> = chunks.concat();
    let mut bytes = b"RIFF".to_vec();
    bytes.extend_from_slice(&(body.len() as u32 + 4).to_le_bytes());
    bytes.extend_from_slice(b"WEBP");
    bytes.extend_from_slice(&body);
    bytes
}

/// A lossy frame of one pixel.
const FRAME: [u8; 22] = [
    0x30, 0x01, 0x00, 0x9d, 0x01, 0x2a, 0x01, 0x00, 0x01, 0x00, 0x0e, 0xc0, 0xfe, 0x25, 0xa4, 0x00, 0x03,
    0x70, 0x00, 0x00, 0x00, 0x00,
];

fn canvas(width: u8, height: u8) -> Vec<u8> {
    chunk(b"VP8X", &[0, 0, 0, 0, width - 1, 0, 0, height - 1, 0, 0])
}

/// An entry of a TIFF directory with one short number.
fn short(tag: u16, value: u16) -> Vec<u8> {
    let mut bytes = tag.to_le_bytes().to_vec();
    bytes.extend_from_slice(&3u16.to_le_bytes());
    bytes.extend_from_slice(&1u32.to_le_bytes());
    bytes.extend_from_slice(&value.to_le_bytes());
    bytes.extend_from_slice(&[0, 0]);
    bytes
}

/// A TIFF file with a single strip of samples of eight bits, which stands behind the header.
fn tiff(samples: u16, planar: u16, compression: u16, strip: &[u8]) -> Vec<u8> {
    let interpretation = if samples == 1 { 1 } else { 2 };
    let mut entries = vec![
        short(256, 2),
        short(257, 1),
        short(258, 8),
        short(259, compression),
        short(262, interpretation),
        short(277, samples),
        short(284, planar),
    ];
    if planar == 1 {
        entries.push(short(273, 8));
        entries.push(short(279, strip.len() as u16));
    } else {
        for tag in [273u16, 279] {
            let mut entry = tag.to_le_bytes().to_vec();
            entry.extend_from_slice(&1u16.to_le_bytes());
            entry.extend_from_slice(&(samples as u32).to_le_bytes());
            let value: u8 = if tag == 273 { 8 } else { 2 };
            entry.extend_from_slice(&[value, value, value, 0]);
            entries.push(entry);
        }
    }
    let mut bytes = b"II*\0".to_vec();
    bytes.extend_from_slice(&(8 + strip.len() as u32).to_le_bytes());
    bytes.extend_from_slice(strip);
    bytes.extend_from_slice(&(entries.len() as u16).to_le_bytes());
    for entry in &entries {
        bytes.extend_from_slice(entry);
    }
    bytes.extend_from_slice(&[0, 0, 0, 0]);
    bytes
}

/// The picture in `bytes`, on which no decoder panics.
fn decoded(bytes: &Vec<u8>) -> Option<RgbaImage> {
    assert!(can_decode(bytes));
    decode_image(bytes).unwrap()
}

fn size(bytes: &Vec<u8>) -> Option<(u32, u32)> {
    decoded(bytes).map(|i| (i.width, i.height))
}

fn is_left_out(bytes: &Vec<u8>) {
    assert!(!can_decode(bytes));
    assert_eq!(decode_image(bytes).err(), Some(MayPanic));
    assert_eq!(load_picture(bytes).err(), Some(MayPanic));
}

#[test]
fn formats_of_whole_numbers_keep_every_pixel() {
    for format in [
        image::ImageOutputFormat::Png,
        image::ImageOutputFormat::Gif,
        image::ImageOutputFormat::Bmp,
        image::ImageOutputFormat::Ico,
        image::ImageOutputFormat::Qoi,
    ] {
        let bytes = encoded(opaque(), format);
        assert!(can_decode(&bytes));
        let image = decoded(&bytes).unwrap();
        assert_eq!((image.width, image.height), (3, 2));
        assert_eq!(image.rgba, PIXELS.to_vec());
        let shown = load_picture(&bytes).unwrap().unwrap();
        assert_eq!(shown.pixels[1], (10, 20, 30, 255));
        assert_eq!(shown.pixels[5], (1, 2, 3, 255));
    }
}

/// The checksum of a PNG chunk.
fn checksum(bytes: &[u8]) -> u32 {
    let mut crc = u32::MAX;
    for byte in bytes {
        crc ^= *byte as u32;
        for _ in 0..8 {
            crc = if crc & 1 == 1 { crc >> 1 ^ 0xEDB88320 } else { crc >> 1 };
        }
    }
    !crc
}

fn png_chunk(name: &[u8; 4], content: &[u8]) -> Vec<u8> {
    let mut bytes = (content.len() as u32).to_be_bytes().to_vec();
    bytes.extend_from_slice(name);
    bytes.extend_from_slice(content);
    let sum = checksum(&bytes[4..]);
    bytes.extend_from_slice(&sum.to_be_bytes());
    bytes
}

/// A PNG file of one pixel, whose colour is the first of `palette`.
fn png(palette: &[u8]) -> Vec<u8> {
    let mut bytes = b"\x89PNG\r\n\x1a\n".to_vec();
    bytes.extend(png_chunk(b"IHDR", &[0, 0, 0, 1, 0, 0, 0, 1, 8, 3, 0, 0, 0]));
    bytes.extend(png_chunk(b"PLTE", palette));
    bytes.extend(png_chunk(b"IDAT", &[0x78, 1, 1, 2, 0, 0xFD, 0xFF, 0, 0, 0, 2, 0, 1]));
    bytes.extend(png_chunk(b"IEND", &[]));
    bytes
}

#[test]
fn png_palettes_of_whole_colours_are_decoded() {
    assert_eq!(decoded(&png(&[5, 6, 7])).unwrap().rgba, vec![5, 6, 7, 255]);
    assert_eq!(decoded(&png(&[5, 6, 7, 8, 9, 10])).unwrap().rgba, vec![5, 6, 7, 255]);
    assert_eq!(decoded(&png(&[9; 768])).unwrap().rgba, vec![9, 9, 9, 255]);
}

#[test]
fn png_palettes_of_odd_length_are_left_out() {
    for n in [1, 2, 4, 5, 769, 770, 771] {
        let file = png(&vec![9; n]);
        is_left_out(&file);
        let mut ico = vec![0, 0, 1, 0, 1, 0, 1, 1, 0, 0, 1, 0, 32, 0];
        ico.extend_from_slice(&(file.len() as u32).to_le_bytes());
        ico.extend_from_slice(&22u32.to_le_bytes());
        ico.extend(file);
        is_left_out(&ico);
    }
}

#[test]
fn very_large_png_pictures_are_left_out() {
    let mut bytes = png(&[5, 6, 7]);
    bytes[17] = 1;
    assert!(can_decode(&bytes));
    bytes[16] = 1;
    is_left_out(&bytes);
    bytes[16] = 0;
    bytes[20] = 1;
    is_left_out(&bytes);
    let mut frames = b"\x89PNG\r\n\x1a\n".to_vec();
    frames.extend(png_chunk(b"acTL", &[255, 255, 255, 254, 0, 0, 0, 0]));
    assert!(can_decode(&frames));
    frames.extend(png_chunk(b"acTL", &[255, 255, 255, 255, 0, 0, 0, 0]));
    is_left_out(&frames);
}

#[test]
fn other_formats_are_decoded() {
    for format in [
        image::ImageOutputFormat::Jpeg(90),
        image::ImageOutputFormat::Tiff,
        image::ImageOutputFormat::Qoi,
        image::ImageOutputFormat::Pnm(image::codecs::pnm::PnmSubtype::Pixmap(
            image::codecs::pnm::SampleEncoding::Binary,
        )),
        image::ImageOutputFormat::Pnm(image::codecs::pnm::PnmSubtype::Pixmap(
            image::codecs::pnm::SampleEncoding::Ascii,
        )),
    ] {
        let bytes = encoded(without_opacity(), format);
        assert!(can_decode(&bytes));
        assert_eq!(size(&bytes), Some((3, 2)));
    }
    let deep = image::DynamicImage::ImageRgba16(opaque().to_rgba16());
    let image = decoded(&encoded(deep, image::ImageOutputFormat::Farbfeld)).unwrap();
    assert_eq!((image.width, image.height), (3, 2));
    assert_eq!(image.rgba, PIXELS.to_vec());
}

#[test]
fn large_jpeg_frames_are_left_out() {
    let mut bytes = encoded(without_opacity(), image::ImageOutputFormat::Jpeg(90));
    let at = (0..bytes.len()).find(|&i| bytes[i] == 0xFF && bytes[i + 1] == 0xC0).unwrap();
    bytes[at + 5] = 0xFF;
    bytes[at + 6] = 0xDF;
    assert!(can_decode(&bytes));
    bytes[at + 6] = 0xE0;
    is_left_out(&bytes);
}

#[test]
fn lossless_jpeg_frames_of_two_bytes_are_left_out() {
    let frame = |precision: u8, components: u8| -> Vec<u8> {
        vec![0xFF, 0xD8, 0xFF, 0xC3, 0, 11, precision, 0, 1, 0, 1, components, 1, 0x11, 0]
    };
    assert!(can_decode(&frame(8, 3)));
    assert!(can_decode(&frame(16, 1)));
    is_left_out(&frame(12, 3));
    is_left_out(&frame(2, 1));
    assert!(decoded(&frame(8, 3)).is_none());
}

#[test]
fn lossy_webp_is_decoded() {
    assert_eq!(size(&webp(&[chunk(b"VP8 ", &FRAME)])), Some((1, 1)));
    assert_eq!(size(&webp(&[canvas(1, 1), chunk(b"VP8 ", &FRAME)])), Some((1, 1)));
    let with_profile = webp(&[canvas(1, 1), chunk(b"ICCP", b"abc"), chunk(b"VP8 ", &FRAME)]);
    assert_eq!(size(&with_profile), Some((1, 1)));
    let mut opacity = vec![0u8];
    opacity.push(128);
    let with_opacity = webp(&[canvas(1, 1), chunk(b"ALPH", &opacity), chunk(b"VP8 ", &FRAME)]);
    assert_eq!(decoded(&with_opacity).unwrap().rgba[3], 128);
}

#[test]
fn webp_frames_of_another_size_are_left_out() {
    for bytes in [
        webp(&[canvas(2, 1), chunk(b"VP8 ", &FRAME)]),
        webp(&[canvas(1, 2), chunk(b"VP8 ", &FRAME)]),
    ] {
        is_left_out(&bytes);
    }
    let animation = |width: u8, height: u8| -> Vec<u8> {
        let mut frame = vec![0, 0, 0, 0, 0, 0, 0, 0, 0, 0, 0, 0, 0, 0, 0, 0];
        frame.extend_from_slice(&chunk(b"VP8 ", &FRAME));
        webp(&[canvas(width, height), chunk(b"ANIM", &[0, 0, 0, 0, 0, 0]), chunk(b"ANMF", &frame)])
    };
    assert_eq!(size(&animation(1, 1)), Some((1, 1)));
    is_left_out(&animation(2, 2));
}

#[test]
fn lossless_webp_is_left_out() {
    let pixels = [
        0x2f, 0x00, 0x00, 0x00, 0x10, 0x07, 0x10, 0x11, 0x11, 0x88, 0x88, 0xfe, 0x07,
    ];
    let simple = webp(&[chunk(b"VP8L", &pixels)]);
    let extended = webp(&[canvas(1, 1), chunk(b"VP8L", &pixels)]);
    let opacity = webp(&[canvas(1, 1), chunk(b"ALPH", &[1, 0]), chunk(b"VP8 ", &FRAME)]);
    for bytes in [simple, extended, opacity] {
        is_left_out(&bytes);
    }
}

#[test]
fn webp_that_breaks_off_comes_back() {
    let whole = webp(&[canvas(1, 1), chunk(b"VP8 ", &FRAME)]);
    for n in 0..whole.len() {
        let found = size(&whole[..n].to_vec());
        assert!(found.is_none() || n > 48 && found == Some((1, 1)));
    }
}

#[test]
fn tiff_is_decoded() {
    let image = decoded(&tiff(3, 1, 1, &[1, 2, 3, 4, 5, 6])).unwrap();
    assert_eq!((image.width, image.height), (2, 1));
    assert_eq!(image.rgba, vec![1, 2, 3, 255, 4, 5, 6, 255]);
    assert_eq!(size(&tiff(1, 1, 1, &[7, 8])), Some((2, 1)));
}

#[test]
fn tiff_in_planes_is_left_out() {
    let bytes = tiff(3, 2, 1, &[1, 2, 3, 4, 5, 6]);
    is_left_out(&bytes);
    let one_sample = tiff(1, 2, 1, &[7, 8]);
    assert!(can_decode(&one_sample));
}

#[test]
fn tiff_compressed_as_jpeg_is_left_out() {
    let bytes = tiff(3, 1, 7, &[1, 2, 3, 4, 5, 6]);
    is_left_out(&bytes);
    assert!(can_decode(&tiff(3, 1, 5, &[1, 2, 3, 4, 5, 6])));
}

#[test]
fn tiff_that_breaks_off_is_not_decoded() {
    let whole = tiff(3, 1, 1, &[1, 2, 3, 4, 5, 6]);
    for n in 0..whole.len() {
        let cut = whole[..n].to_vec();
        assert!(decoded(&cut).is_none());
    }
}

#[test]
fn tiff_numbers_can_have_their_upper_byte_first() {
    let entry = |planar: u8| -> Vec<u8> {
        let mut bytes = b"MM\0*\0\0\0\x08\0\x02".to_vec();
        bytes.extend_from_slice(&[1, 28, 0, 3, 0, 0, 0, 1, 0, planar, 0, 0]);
        bytes.extend_from_slice(&[1, 21, 0, 3, 0, 0, 0, 1, 0, 3, 0, 0]);
        bytes.extend_from_slice(&[0, 0, 0, 0]);
        bytes
    };
    assert!(can_decode(&entry(1)));
    is_left_out(&entry(2));
}

#[test]
fn radiance_is_decoded_without_long_runs() {
    let head = b"#?RADIANCE\nFORMAT=32-bit_rle_rgbe\n\n-Y 1 +X 2\n".to_vec();
    let mut plain = head.clone();
    plain.extend_from_slice(&[128, 0, 0, 129, 0, 128, 0, 129]);
    assert_eq!(size(&plain), Some((2, 1)));
    let mut runs = head.clone();
    runs.extend_from_slice(&[128, 0, 0, 129]);
    for _ in 0..4 {
        runs.extend_from_slice(&[1, 1, 1, 0]);
    }
    is_left_out(&runs);
    runs.truncate(runs.len() - 4);
    assert!(can_decode(&runs));
    assert!(decoded(&runs).is_none());
}

#[test]
fn bitmaps_are_decoded_with_a_plain_width() {
    assert_eq!(size(&b"P4\n8 1\n\xAA".to_vec()), Some((8, 1)));
    assert_eq!(size(&b"P1\n2 1\n0 1\n".to_vec()), Some((2, 1)));
    assert!(can_decode(&b"P4\n123456789 0\n".to_vec()));
    for bytes in [
        b"P4\n4294967295 0\n".to_vec(),
        b"P4\n# 1\n8 1\n\xAA".to_vec(),
        b"P4\n42949#\n67295 0\n".to_vec(),
        b"P4".to_vec(),
    ] {
        is_left_out(&bytes);
    }
}

#[test]
fn openexr_is_left_out() {
    let image = image::DynamicImage::ImageRgb32F(without_opacity().to_rgb32f());
    let bytes = encoded(image, image::ImageOutputFormat::OpenExr);
    is_left_out(&bytes);
}

#[test]
fn dds_is_decoded() {
    let mut bytes = b"DDS ".to_vec();
    for number in [124u32, 0x1007, 4, 4] {
        bytes.extend_from_slice(&number.to_le_bytes());
    }
    bytes.extend_from_slice(&[0; 56]);
    for number in [32u32, 4] {
        bytes.extend_from_slice(&number.to_le_bytes());
    }
    bytes.extend_from_slice(b"DXT1");
    bytes.extend_from_slice(&[0; 40]);
    bytes.extend_from_slice(&[0x00, 0xF8, 0x1F, 0x00, 0, 0, 0, 0x40]);
    let image = decoded(&bytes).unwrap();
    assert_eq!((image.width, image.height), (4, 4));
    assert_eq!(image.rgba[..4], [255, 0, 0, 255]);
    assert_eq!(image.rgba[60..], [0, 0, 255, 255]);
}

#[test]
fn unknown_formats_are_asked_for_and_not_decoded() {
    for bytes in [b"".to_vec(), b"RIFF".to_vec(), b"<svg/>".to_vec(), b"DDS ".to_vec()] {
        assert!(can_decode(&bytes));
        assert!(decoded(&bytes).is_none());
    }
}

#[test]
fn damaged_files_come_back() {
    let files = [
        encoded(opaque(), image::ImageOutputFormat::Png),
        encoded(opaque(), image::ImageOutputFormat::Gif),
        encoded(opaque(), image::ImageOutputFormat::Bmp),
        encoded(opaque(), image::ImageOutputFormat::Ico),
        encoded(without_opacity(), image::ImageOutputFormat::Jpeg(90)),
        webp(&[canvas(1, 1), chunk(b"VP8 ", &FRAME)]),
        tiff(3, 1, 1, &[1, 2, 3, 4, 5, 6]),
    ];
    for file in files {
        for i in 0..file.len() {
            for change in [1u8, 0x80, 0xFF] {
                let mut damaged = file.clone();
                damaged[i] ^= change;
                if let Ok(Some(image)) = decode_image(&damaged) {
                    assert_eq!(image.rgba.len() as u64, image.width as u64 * image.height as u64 * 4);
                }
            }
        }
    }
}
