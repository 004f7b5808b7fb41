use pixie::raster::{Image, Rgba};

#[test]
fn new_images_are_transparent_black() {
    let img = Image::new(3, 2);
    assert_eq!((img.width(), img.height()), (3, 2));
    assert_eq!(img.pixel_count(), 6);
    assert_eq!(img.as_raw().len(), 24);
    assert!(img.as_raw().iter().all(|&b| b == 0));
}

#[test]
fn from_raw_checks_the_buffer_length() {
    assert!(Image::from_raw(2, 1, vec![0; 8]).is_some());
    assert!(Image::from_raw(2, 1, vec![0; 7]).is_none());
    assert!(Image::from_raw(2, 1, vec![0; 9]).is_none());
    let img = Image::from_raw(1, 2, vec![1, 2, 3, 4, 5, 6, 7, 8]).unwrap();
    assert_eq!(img.get_pixel(0, 1), Rgba { r: 5, g: 6, b: 7, a: 8 });
    assert_eq!(img.into_raw(), vec![1, 2, 3, 4, 5, 6, 7, 8]);
}

#[test]
fn pixels_are_stored_row_major() {
    let mut img = Image::new(3, 2);
    img.put_pixel(2, 1, Rgba { r: 9, g: 8, b: 7, a: 6 });
    assert_eq!(&img.as_raw()[20..24], &[9, 8, 7, 6]);
    assert_eq!(img.get_pixel_at(5), Rgba { r: 9, g: 8, b: 7, a: 6 });
    img.put_pixel_at(0, Rgba { r: 1, g: 1, b: 1, a: 1 });
    assert_eq!(img.get_pixel(0, 0), Rgba { r: 1, g: 1, b: 1, a: 1 });
    assert_eq!(img.get_pixel(1, 0), Rgba { r: 0, g: 0, b: 0, a: 0 });
}

#[test]
fn duplicate_copies_everything() {
    let mut img = Image::new(2, 2);
    img.put_pixel(1, 0, Rgba { r: 3, g: 3, b: 3, a: 3 });
    let copy = img.duplicate();
    assert_eq!((copy.width(), copy.height()), (2, 2));
    assert_eq!(copy.as_raw(), img.as_raw());
}
