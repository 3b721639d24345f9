use gruznet::picture::{color_image, decode_image, load_picture, RgbaImage};

fn png(width: u32, height: u32, rgba: &[u8]) -> Vec<u8> {
    let image = image::RgbaImage::from_raw(width, height, rgba.to_vec()).unwrap();
    let mut bytes: Vec<u8> = Vec::new();
    image::DynamicImage::ImageRgba8(image)
        .write_to(&mut std::io::Cursor::new(&mut bytes), image::ImageOutputFormat::Png)
        .unwrap();
    bytes
}

const PIXELS: [u8; 24] = [
    255, 0, 0, 255, 10, 20, 30, 255, 200, 100, 50, 0, 200, 100, 50, 128, 0, 255, 0, 64, 1, 2, 3, 254,
];

#[test]
fn files_are_decoded() {
    let image = decode_image(&png(3, 2, &PIXELS)).unwrap().unwrap();
    assert_eq!(image.width, 3);
    assert_eq!(image.height, 2);
    assert_eq!(image.rgba, PIXELS.to_vec());
}

#[test]
fn bytes_that_are_no_picture_are_not_decoded() {
    assert!(decode_image(&Vec::new()).unwrap().is_none());
    assert!(decode_image(&b"<html>not found</html>".to_vec()).unwrap().is_none());
    let mut cut = png(3, 2, &PIXELS);
    cut.truncate(20);
    assert!(decode_image(&cut).unwrap().is_none());
    assert!(load_picture(&cut).unwrap().is_none());
}

#[test]
fn pixels_are_multiplied_with_their_opacity() {
    let shown = load_picture(&png(3, 2, &PIXELS)).unwrap().unwrap();
    assert_eq!((shown.width, shown.height), (3, 2));
    assert_eq!(shown.pixels.len(), 6);
    assert_eq!(shown.pixels[0], (255, 0, 0, 255));
    assert_eq!(shown.pixels[1], (10, 20, 30, 255));
    assert_eq!(shown.pixels[2], (0, 0, 0, 0));
    assert_eq!(shown.pixels[3].3, 128);
    assert!(shown.pixels[3].0 < 200);
    assert_eq!((shown.pixels[4].0, shown.pixels[4].2, shown.pixels[4].3), (0, 0, 64));
    assert_eq!(shown.pixels[5].3, 254);
}

#[test]
fn pixels_are_those_of_the_window() {
    let image = RgbaImage { width: 2, height: 3, rgba: PIXELS.to_vec() };
    let shown = color_image(&image);
    assert_eq!((shown.width, shown.height), (2, 3));
    for (i, pixel) in shown.pixels.iter().enumerate() {
        let at = 4 * i;
        let color = eframe::egui::Color32::from_rgba_unmultiplied(
            PIXELS[at],
            PIXELS[at + 1],
            PIXELS[at + 2],
            PIXELS[at + 3],
        );
        assert_eq!(*pixel, color.to_tuple());
    }
}

#[test]
fn every_channel_keeps_to_its_opacity() {
    for a in 0..=255u8 {
        let rgba: Vec<u8> = vec![0, 77, 255, a];
        let shown = color_image(&RgbaImage { width: 1, height: 1, rgba });
        let (r, g, _, opacity) = shown.pixels[0];
        assert_eq!(opacity, a);
        assert_eq!(r, 0);
        if a == 0 {
            assert_eq!(shown.pixels[0], (0, 0, 0, 0));
        }
        if a == 255 {
            assert_eq!(g, 77);
        }
    }
}

#[test]
fn an_empty_picture_has_no_pixels() {
    let shown = color_image(&RgbaImage { width: 0, height: 5, rgba: Vec::new() });
    assert_eq!((shown.width, shown.height), (0, 5));
    assert!(shown.pixels.is_empty());
}
