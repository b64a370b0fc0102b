use image::{DynamicImage, Rgba};
use scratchgen::render::{
    contain_in_tile, example_catalog, example_image, fit_image, fit_image_checked, new_canvas, place_tile, FitError,
};

fn wide() -> DynamicImage {
    DynamicImage::new_rgba8(10, 5)
}

fn red_block() -> DynamicImage {
    DynamicImage::ImageRgba8(image::RgbaImage::from_pixel(10, 5, Rgba([255, 0, 0, 255])))
}

#[test]
fn every_fit_gives_a_square_tile() {
    for fit in ["cover", "contain", "stretch"] {
        let tile = fit_image(wide(), 4, fit, [9, 9, 9, 255]).unwrap();
        assert_eq!(tile.image.dimensions(), (4, 4));
    }
}

#[test]
fn contained_image_sits_on_background() {
    let tile = fit_image(red_block(), 4, "contain", [9, 8, 7, 255]).unwrap();
    // the image scales to 4 by 2, leaving a background row above and below
    assert_eq!(*tile.image.get_pixel(0, 0), Rgba([9, 8, 7, 255]));
    assert_eq!(*tile.image.get_pixel(3, 3), Rgba([9, 8, 7, 255]));
    assert_eq!(*tile.image.get_pixel(1, 1), Rgba([255, 0, 0, 255]));
    assert_eq!(*tile.image.get_pixel(2, 2), Rgba([255, 0, 0, 255]));
}

#[test]
fn transparent_image_leaves_background() {
    // a fully transparent image leaves the background visible everywhere
    let tile = fit_image(wide(), 4, "contain", [9, 8, 7, 255]).unwrap();
    assert_eq!(*tile.image.get_pixel(1, 1), Rgba([9, 8, 7, 255]));
}

#[test]
fn contained_image_larger_than_tile_is_refused() {
    // an empty tile cannot hold the one-pixel image that scaling produces
    assert!(matches!(fit_image(wide(), 0, "contain", [0, 0, 0, 255]), Err(FitError::LargerThanTile)));
}

#[test]
fn contain_in_tile_centres_or_refuses() {
    let small = fit_image(red_block(), 2, "stretch", [0, 0, 0, 255]).unwrap();
    let tile = contain_in_tile(small, 4, [1, 1, 1, 255]).unwrap();
    assert_eq!(*tile.image.get_pixel(0, 0), Rgba([1, 1, 1, 255]));
    assert_eq!(*tile.image.get_pixel(1, 1), Rgba([255, 0, 0, 255]));
    assert_eq!(*tile.image.get_pixel(2, 2), Rgba([255, 0, 0, 255]));
    assert_eq!(*tile.image.get_pixel(3, 3), Rgba([1, 1, 1, 255]));
    let big = fit_image(red_block(), 5, "stretch", [0, 0, 0, 255]).unwrap();
    assert!(matches!(contain_in_tile(big, 4, [0, 0, 0, 255]), Err(FitError::LargerThanTile)));
}

#[test]
fn canvas_spans_the_grid() {
    let canvas = new_canvas(3, 4, [1, 2, 3, 255]);
    assert_eq!(canvas.image.dimensions(), (12, 12));
    assert_eq!(*canvas.image.get_pixel(11, 11), Rgba([1, 2, 3, 255]));
    assert_eq!(*canvas.image.get_pixel(0, 0), Rgba([1, 2, 3, 255]));
}

#[test]
fn tiles_land_in_their_cell() {
    let mut canvas = new_canvas(2, 2, [0, 0, 0, 255]);
    let small = example_image([200, 100, 50, 255]);
    let tile = fit_image(DynamicImage::ImageRgba8(small.image), 2, "stretch", [0, 0, 0, 255]).unwrap();
    place_tile(&mut canvas, &tile, 3, 2, 2);
    assert_eq!(*canvas.image.get_pixel(2, 2), Rgba([200, 100, 50, 255]));
    assert_eq!(*canvas.image.get_pixel(3, 3), Rgba([200, 100, 50, 255]));
    assert_eq!(*canvas.image.get_pixel(1, 1), Rgba([0, 0, 0, 255]));
    assert_eq!(*canvas.image.get_pixel(2, 1), Rgba([0, 0, 0, 255]));
}

#[test]
fn examples_are_listed() {
    let c = example_catalog();
    assert_eq!(c.len(), 8);
    assert_eq!(c[0].folder, "images/flowers");
    assert_eq!(c[0].file_name, "rose.jpg");
    assert_eq!(c[0].rgba, [220, 20, 60, 255]);
    assert_eq!(c[7].folder, "images/animals");
    assert_eq!(c[7].file_name, "wolf.png");
    let img = example_image([1, 2, 3, 255]);
    assert_eq!(img.image.dimensions(), (400, 400));
    assert_eq!(*img.image.get_pixel(399, 0), Rgba([1, 2, 3, 255]));
}

#[test]
fn cover_fills_the_tile_exactly() {
    let tall = DynamicImage::new_rgba8(3, 17);
    let tile = fit_image(tall, 7, "cover", [0, 0, 0, 255]).unwrap();
    assert_eq!(tile.image.dimensions(), (7, 7));
}

#[test]
fn contain_is_never_refused_for_a_positive_tile() {
    for (w, h) in [(1, 1), (1, 300), (300, 1), (0, 5)] {
        let tile = fit_image(DynamicImage::new_rgba8(w, h), 6, "contain", [5, 5, 5, 255]).unwrap();
        assert_eq!(tile.image.dimensions(), (6, 6));
    }
}

#[test]
fn unknown_fit_name_stretches() {
    let tile = fit_image(wide(), 3, "sideways", [0, 0, 0, 255]).unwrap();
    assert_eq!(tile.image.dimensions(), (3, 3));
}

#[test]
fn empty_image_cannot_be_filled_into_a_large_tile() {
    assert!(fit_image_checked(DynamicImage::new_rgba8(0, 0), 4, "cover", [0, 0, 0, 255]).is_none());
    let tile = fit_image_checked(DynamicImage::new_rgba8(0, 0), 1, "cover", [0, 0, 0, 255]).unwrap().unwrap();
    assert_eq!(tile.image.dimensions(), (1, 1));
    let tile = fit_image_checked(wide(), 4, "cover", [0, 0, 0, 255]).unwrap().unwrap();
    assert_eq!(tile.image.dimensions(), (4, 4));
}

fn all_of(tile: &image::RgbaImage, p: Rgba<u8>) -> bool {
    tile.pixels().all(|q| *q == p)
}

#[test]
fn one_colour_stays_one_colour_under_every_fit() {
    for fit in ["cover", "stretch"] {
        let tile = fit_image(red_block(), 7, fit, [0, 0, 0, 255]).unwrap();
        assert!(all_of(&tile.image, Rgba([255, 0, 0, 255])));
    }
    let tall = DynamicImage::ImageRgb8(image::RgbImage::from_pixel(2, 9, image::Rgb([10, 200, 30])));
    let tile = fit_image(tall, 5, "cover", [0, 0, 0, 255]).unwrap();
    assert_eq!(tile.image.dimensions(), (5, 5));
    assert!(all_of(&tile.image, Rgba([10, 200, 30, 255])));
}

#[test]
fn opaque_images_give_opaque_tiles() {
    let stripes = DynamicImage::ImageRgba8(image::RgbaImage::from_fn(12, 8, |x, _| {
        if x % 2 == 0 { Rgba([255, 255, 255, 255]) } else { Rgba([0, 0, 0, 255]) }
    }));
    for fit in ["cover", "stretch", "contain"] {
        let tile = fit_image(stripes.clone(), 5, fit, [0, 0, 0, 255]).unwrap();
        assert!(tile.image.pixels().all(|q| q[3] == 255));
    }
}

#[test]
fn contain_scales_the_longer_side_to_the_tile() {
    // 3 by 1 into 9: scaled to 9 by 3, centred with 3 rows of background above and below
    let bar = DynamicImage::ImageRgba8(image::RgbaImage::from_pixel(3, 1, Rgba([0, 0, 255, 255])));
    let tile = fit_image(bar, 9, "contain", [7, 7, 7, 255]).unwrap();
    assert_eq!(*tile.image.get_pixel(0, 2), Rgba([7, 7, 7, 255]));
    assert_eq!(*tile.image.get_pixel(0, 3), Rgba([0, 0, 255, 255]));
    assert_eq!(*tile.image.get_pixel(8, 5), Rgba([0, 0, 255, 255]));
    assert_eq!(*tile.image.get_pixel(8, 6), Rgba([7, 7, 7, 255]));
    // 1 by 4 into 8: scaled to 2 by 8, centred with 3 columns on either side
    let post = DynamicImage::ImageRgba8(image::RgbaImage::from_pixel(1, 4, Rgba([0, 255, 0, 255])));
    let tile = fit_image(post, 8, "contain", [7, 7, 7, 255]).unwrap();
    assert_eq!(*tile.image.get_pixel(2, 0), Rgba([7, 7, 7, 255]));
    assert_eq!(*tile.image.get_pixel(3, 0), Rgba([0, 255, 0, 255]));
    assert_eq!(*tile.image.get_pixel(4, 7), Rgba([0, 255, 0, 255]));
    assert_eq!(*tile.image.get_pixel(5, 7), Rgba([7, 7, 7, 255]));
}
