use pixie::palette::{average, channel_spread, dist2, median_cut_boxes, sort_by_channel, widest_channel};
use pixie::quantize::quantize_palette;
use pixie::raster::{Image, Rgba};

fn px(r: u8, g: u8, b: u8, a: u8) -> Rgba {
    Rgba { r, g, b, a }
}

#[test]
fn spread_sums_channel_ranges() {
    assert_eq!(channel_spread(&vec![[0, 10, 20], [5, 0, 40]]), 35);
    assert_eq!(channel_spread(&vec![[7, 7, 7]]), 0);
    assert_eq!(channel_spread(&vec![[0, 0, 0], [255, 255, 255]]), 765);
}

#[test]
fn widest_channel_prefers_the_later_on_ties() {
    assert_eq!(widest_channel(&vec![[0, 10, 20], [5, 0, 40]]), 2);
    assert_eq!(widest_channel(&vec![[0, 0, 0], [10, 10, 0]]), 1);
    assert_eq!(widest_channel(&vec![[0, 0, 0], [10, 3, 3]]), 0);
    assert_eq!(widest_channel(&vec![[4, 4, 4]]), 2);
}

#[test]
fn average_rounds_down_and_is_black_for_nothing() {
    assert_eq!(average(&vec![[1, 2, 3], [2, 3, 5]]), [1, 2, 4]);
    assert_eq!(average(&vec![[255, 0, 9]]), [255, 0, 9]);
    assert_eq!(average(&vec![]), [0, 0, 0]);
}

#[test]
fn dist2_is_squared_euclidean() {
    assert_eq!(dist2([0, 0, 0], [3, 4, 0]), 25);
    assert_eq!(dist2([255, 0, 0], [0, 255, 0]), 130050);
    assert_eq!(dist2([9, 9, 9], [9, 9, 9]), 0);
}

#[test]
fn sort_by_channel_is_stable_and_ascending() {
    let b = vec![[3, 1, 0], [1, 2, 0], [3, 0, 0], [1, 9, 0]];
    assert_eq!(sort_by_channel(&b, 0), vec![[1, 2, 0], [1, 9, 0], [3, 1, 0], [3, 0, 0]]);
    assert_eq!(sort_by_channel(&b, 1), vec![[3, 0, 0], [3, 1, 0], [1, 2, 0], [1, 9, 0]]);
    assert_eq!(sort_by_channel(&vec![], 2), Vec::<[u8; 3]>::new());
}

#[test]
fn median_cut_splits_the_widest_box_at_its_median() {
    let colors = vec![[0, 0, 0], [255, 0, 0], [0, 0, 10], [250, 0, 0]];
    let boxes = median_cut_boxes(colors.clone(), 2);
    assert_eq!(boxes, vec![vec![[0, 0, 0], [0, 0, 10]], vec![[250, 0, 0], [255, 0, 0]]]);
    assert_eq!(median_cut_boxes(colors.clone(), 1), vec![colors.clone()]);
    assert_eq!(median_cut_boxes(colors.clone(), 0), vec![colors.clone()]);
}

#[test]
fn median_cut_box_count_law() {
    let colors = vec![[0, 0, 0], [255, 0, 0], [0, 0, 10], [250, 0, 0], [9, 9, 9]];
    for max in 0..9usize {
        let boxes = median_cut_boxes(colors.clone(), max);
        let expect = if max <= 1 { 1 } else { max.min(colors.len()) };
        assert_eq!(boxes.len(), expect);
        assert!(boxes.iter().all(|b| !b.is_empty()));
        let mut all: Vec<[u8; 3]> = boxes.concat();
        let mut orig = colors.clone();
        all.sort();
        orig.sort();
        assert_eq!(all, orig);
    }
    // identical colors still split down to single-color boxes
    assert_eq!(median_cut_boxes(vec![[5, 5, 5]; 3], 4).len(), 3);
}

#[test]
fn quantize_to_one_color_uses_the_average() {
    let mut img = Image::new(3, 1);
    img.put_pixel(0, 0, px(200, 0, 0, 255));
    img.put_pixel(1, 0, px(0, 0, 100, 255));
    img.put_pixel(2, 0, px(1, 2, 3, 0));
    quantize_palette(&mut img, 1);
    assert_eq!(img.get_pixel(0, 0), px(100, 0, 50, 255));
    assert_eq!(img.get_pixel(1, 0), px(100, 0, 50, 255));
    // transparent pixels keep whatever they held
    assert_eq!(img.get_pixel(2, 0), px(1, 2, 3, 0));
}

#[test]
fn quantize_keeps_alpha_and_maps_to_nearest_entry() {
    let mut img = Image::new(4, 1);
    img.put_pixel(0, 0, px(0, 0, 0, 255));
    img.put_pixel(1, 0, px(10, 0, 0, 128));
    img.put_pixel(2, 0, px(240, 0, 0, 255));
    img.put_pixel(3, 0, px(250, 0, 0, 255));
    quantize_palette(&mut img, 2);
    assert_eq!(img.get_pixel(0, 0), px(5, 0, 0, 255));
    assert_eq!(img.get_pixel(1, 0), px(5, 0, 0, 128));
    assert_eq!(img.get_pixel(2, 0), px(245, 0, 0, 255));
    assert_eq!(img.get_pixel(3, 0), px(245, 0, 0, 255));
    // the result holds at most two colors
    let mut seen: Vec<[u8; 3]> = Vec::new();
    for x in 0..4 {
        let p = img.get_pixel(x, 0);
        if !seen.contains(&[p.r, p.g, p.b]) {
            seen.push([p.r, p.g, p.b]);
        }
    }
    assert!(seen.len() <= 2);
}

#[test]
fn quantize_leaves_fully_transparent_images_alone() {
    let mut img = Image::new(2, 2);
    img.put_pixel(1, 1, px(9, 8, 7, 0));
    quantize_palette(&mut img, 4);
    assert_eq!(img.get_pixel(1, 1), px(9, 8, 7, 0));
    assert_eq!(img.get_pixel(0, 0), px(0, 0, 0, 0));
}
