use quantizr::cluster::{split_clusters, split_entries};
use quantizr::colormap::{alpha_order, check_remap_buffer, quantize_unique, Colormap};
use quantizr::dither::dither_step;
use quantizr::image::pix_or_empty;
use quantizr::kmeans::assigned_sums;
use quantizr::{Color, Error, Histogram, HistogramEntry, Image, LiqError, Options, QuantizrError};

fn opts(max_colors: i32) -> Options {
    let mut o = Options::default();
    o.set_max_colors(max_colors).unwrap();
    o
}

fn colors_of(c: &Colormap) -> Vec<(u8, u8, u8, u8)> {
    let p = c.get_palette();
    p.entries[..p.count as usize].iter().map(|e| (e.r, e.g, e.b, e.a)).collect()
}

fn weights_of(h: &Histogram) -> Vec<((u8, u8, u8, u8), u32)> {
    let mut v: Vec<_> = h
        .entries()
        .iter()
        .map(|e| ((e.color.r, e.color.g, e.color.b, e.color.a), e.weight))
        .collect();
    v.sort();
    v
}

fn quantize_small(data: &[u8], w: usize, h: usize, max: i32) -> (Colormap, Vec<u8>) {
    let img = Image::new(data, w, h).unwrap();
    let mut hist = Histogram::new();
    hist.add_image(&img);
    let cmap = quantize_unique(&hist, &opts(max)).expect("few enough colors");
    let mut out = vec![0xAAu8; w * h];
    cmap.remap_image_no_dither(&img, &mut out).unwrap();
    (cmap, out)
}

#[test]
fn single_opaque_red_pixel() {
    let (cmap, out) = quantize_small(&[255, 0, 0, 255], 1, 1, 2);
    assert_eq!(cmap.get_palette().count, 1);
    assert_eq!(colors_of(&cmap), vec![(255, 0, 0, 255)]);
    assert_eq!(out, vec![0]);
}

#[test]
fn red_and_transparent_sorted_by_alpha() {
    let (cmap, out) = quantize_small(&[255, 0, 0, 255, 0, 0, 0, 0], 2, 1, 2);
    assert_eq!(colors_of(&cmap), vec![(0, 0, 0, 0), (255, 0, 0, 255)]);
    assert_eq!(out, vec![1, 0]);
}

#[test]
fn four_primaries_keep_insertion_order() {
    let data = [255, 0, 0, 255, 0, 255, 0, 255, 0, 0, 255, 255, 255, 255, 255, 255];
    let (cmap, out) = quantize_small(&data, 2, 2, 4);
    assert_eq!(
        colors_of(&cmap),
        vec![(255, 0, 0, 255), (0, 255, 0, 255), (0, 0, 255, 255), (255, 255, 255, 255)]
    );
    assert_eq!(out, vec![0, 1, 2, 3]);
}

#[test]
fn transparent_pixels_collapse_to_one_entry() {
    let data = [0, 0, 0, 0, 0, 0, 0, 0, 10, 20, 30, 0];
    let img = Image::new(&data, 3, 1).unwrap();
    let mut hist = Histogram::new();
    hist.add_image(&img);
    assert_eq!(weights_of(&hist), vec![((0, 0, 0, 0), 3)]);
    let (cmap, out) = quantize_small(&data, 3, 1, 2);
    assert_eq!(colors_of(&cmap), vec![(0, 0, 0, 0)]);
    assert_eq!(out, vec![0, 0, 0]);
}

#[test]
fn gradient_has_too_many_colors_for_the_direct_path() {
    let data = [0, 0, 0, 255, 85, 0, 0, 255, 170, 0, 0, 255, 255, 0, 0, 255];
    let img = Image::new(&data, 4, 1).unwrap();
    let mut hist = Histogram::new();
    hist.add_image(&img);
    assert_eq!(hist.len(), 4);
    assert!(quantize_unique(&hist, &opts(2)).is_none());
    assert!(quantize_unique(&hist, &opts(4)).is_some());
}

#[test]
fn remap_buffer_one_short_fails_and_leaves_buffer() {
    let data = [1, 2, 3, 255, 4, 5, 6, 255];
    let img = Image::new(&data, 2, 1).unwrap();
    let mut hist = Histogram::new();
    hist.add_image(&img);
    let cmap = quantize_unique(&hist, &opts(2)).unwrap();
    let mut short = vec![7u8; 1];
    assert_eq!(cmap.remap_image_no_dither(&img, &mut short), Err(Error::BufferTooSmall));
    assert_eq!(short, vec![7]);
    let mut exact = vec![7u8; 2];
    assert_eq!(cmap.remap_image_no_dither(&img, &mut exact), Ok(()));
    assert_eq!(exact, vec![0, 1]);
    assert_eq!(check_remap_buffer(&img, 1), Err(Error::BufferTooSmall));
    assert_eq!(check_remap_buffer(&img, 2), Ok(()));
    assert_eq!(check_remap_buffer(&img, 3), Ok(()));
}

#[test]
fn remap_leaves_bytes_past_the_image() {
    let data = [9, 9, 9, 255];
    let img = Image::new(&data, 1, 1).unwrap();
    let mut hist = Histogram::new();
    hist.add_image(&img);
    let cmap = quantize_unique(&hist, &opts(2)).unwrap();
    let mut out = vec![5u8; 3];
    cmap.remap_image_no_dither(&img, &mut out).unwrap();
    assert_eq!(out, vec![0, 5, 5]);
}

#[test]
fn add_image_order_does_not_matter() {
    let a = [1, 2, 3, 255, 1, 2, 3, 255, 9, 9, 9, 0];
    let b = [1, 2, 3, 255, 7, 7, 7, 7];
    let ia = Image::new(&a, 3, 1).unwrap();
    let ib = Image::new(&b, 2, 1).unwrap();
    let mut h1 = Histogram::new();
    h1.add_image(&ia);
    h1.add_image(&ib);
    let mut h2 = Histogram::new();
    h2.add_image(&ib);
    h2.add_image(&ia);
    assert_eq!(weights_of(&h1), weights_of(&h2));
    assert_eq!(
        weights_of(&h1),
        vec![((0, 0, 0, 0), 1), ((1, 2, 3, 255), 3), ((7, 7, 7, 7), 1)]
    );
}

#[test]
fn histogram_keeps_first_appearance_order() {
    let a = [5, 5, 5, 255, 1, 1, 1, 255, 5, 5, 5, 255];
    let img = Image::new(&a, 3, 1).unwrap();
    let mut h = Histogram::new();
    h.add_image(&img);
    let e: Vec<_> = h.entries().iter().map(|e| (e.color.r, e.weight)).collect();
    assert_eq!(e, vec![(5, 2), (1, 1)]);
}

#[test]
fn transparent_pixels_remap_like_empty() {
    let palette_src = [0, 0, 0, 0, 200, 100, 50, 255];
    let (cmap, _) = quantize_small(&palette_src, 2, 1, 2);
    let a = [200, 100, 50, 0, 200, 100, 50, 255];
    let b = [0, 0, 0, 0, 200, 100, 50, 255];
    let ia = Image::new(&a, 2, 1).unwrap();
    let ib = Image::new(&b, 2, 1).unwrap();
    let mut oa = vec![0u8; 2];
    let mut ob = vec![0u8; 2];
    cmap.remap_image_no_dither(&ia, &mut oa).unwrap();
    cmap.remap_image_no_dither(&ib, &mut ob).unwrap();
    assert_eq!(oa, ob);
    assert_eq!(oa, vec![0, 1]);
    let mut ha = Histogram::new();
    ha.add_image(&ia);
    let mut hb = Histogram::new();
    hb.add_image(&ib);
    assert_eq!(weights_of(&ha), weights_of(&hb));
}

#[test]
fn remap_without_dither_picks_nearest_color() {
    let colors = vec![
        Color::new(0, 0, 0, 255),
        Color::new(100, 100, 100, 255),
        Color::new(250, 250, 250, 255),
    ];
    let order = alpha_order(&colors);
    let cmap = Colormap::from_colors(&colors, &vec![1, 1, 1], &order);
    let data = [10, 10, 10, 255, 60, 60, 60, 255, 180, 180, 180, 255, 240, 255, 255, 255];
    let img = Image::new(&data, 4, 1).unwrap();
    let mut out = vec![0u8; 4];
    cmap.remap_image_no_dither(&img, &mut out).unwrap();
    assert_eq!(out, vec![0, 1, 2, 2]);
    // equally near to two colors: the earlier one
    assert_eq!(cmap.nearest_ind(Color::new(50, 50, 50, 255)), 0);
}

#[test]
fn round_trip_reproduces_pixels() {
    let mut data = Vec::new();
    for i in 0..12u8 {
        let c = i % 5;
        data.extend_from_slice(&[c * 40, 255 - c * 30, c * 7, if c == 3 { 0 } else { 128 + c }]);
    }
    let (cmap, out) = quantize_small(&data, 4, 3, 8);
    let p = cmap.get_palette();
    for i in 0..12 {
        let px = pix_or_empty(&data[i * 4..i * 4 + 4]);
        let got = p.entries[out[i] as usize];
        assert_eq!(got, px);
        assert!((out[i] as u32) < p.count);
    }
}

#[test]
fn palette_sorted_by_alpha_stably() {
    let colors = vec![
        Color::new(1, 0, 0, 200),
        Color::new(2, 0, 0, 10),
        Color::new(3, 0, 0, 200),
        Color::new(4, 0, 0, 10),
        Color::new(5, 0, 0, 0),
    ];
    let order = alpha_order(&colors);
    assert_eq!(order, vec![4, 1, 3, 0, 2]);
    let cmap = Colormap::from_colors(&colors, &vec![1, 2, 3, 4, 5], &order);
    let reds: Vec<u8> = colors_of(&cmap).iter().map(|c| c.0).collect();
    assert_eq!(reds, vec![5, 2, 4, 1, 3]);
}

fn dist(a: Color, b: Color) -> i32 {
    let d = |x: u8, y: u8| (x as i32 - y as i32) * (x as i32 - y as i32);
    d(a.r, b.r) + d(a.g, b.g) + d(a.b, b.b) + d(a.a, b.a)
}

#[test]
fn tree_search_matches_linear_scan() {
    // enough colors for the index to split into near and far subtrees
    let mut colors = Vec::new();
    let mut weights = Vec::new();
    for i in 0..40u32 {
        let v = (i * 37 % 251) as u8;
        colors.push(Color::new(v, (i * 11 % 256) as u8, 255 - v, if i % 3 == 0 { 255 } else { 128 }));
        weights.push(i % 7 + 1);
    }
    let order = alpha_order(&colors);
    let cmap = Colormap::from_colors(&colors, &weights, &order);
    let p = cmap.get_palette();
    assert_eq!(p.count, 40);
    for q in 0..200u32 {
        let c = Color::new((q * 13 % 256) as u8, (q * 29 % 256) as u8, (q * 7 % 256) as u8, (q * 53 % 256) as u8);
        let got = cmap.nearest_ind(c) as usize;
        let best = (0..40).map(|k| dist(p.entries[k], c)).min().unwrap();
        let first = (0..40).find(|&k| dist(p.entries[k], c) == best).unwrap();
        assert_eq!(got, first);
    }
}

#[test]
fn options_validate_max_colors() {
    let mut o = Options::default();
    assert_eq!(o.get_max_colors(), 256);
    assert_eq!(o.set_max_colors(1), Err(Error::ValueOutOfRange));
    assert_eq!(o.set_max_colors(257), Err(Error::ValueOutOfRange));
    assert_eq!(o.get_max_colors(), 256);
    assert_eq!(o.set_max_colors(2), Ok(()));
    assert_eq!(o.get_max_colors(), 2);
    assert_eq!(o.set_max_colors(256), Ok(()));
    assert_eq!(o.get_max_colors(), 256);
}

#[test]
fn image_needs_four_bytes_per_pixel() {
    let data = [0u8; 7];
    assert!(matches!(Image::new(&data, 2, 1), Err(Error::BufferTooSmall)));
    let data = [0u8; 8];
    assert!(Image::new(&data, 2, 1).is_ok());
    assert!(Image::new(&data, 0, 0).is_ok());
    assert!(matches!(Image::new(&data, usize::MAX, 2), Err(Error::BufferTooSmall)));
}

#[test]
fn empty_image_gives_empty_palette() {
    let data: [u8; 0] = [];
    let (cmap, out) = quantize_small(&data, 0, 0, 2);
    assert_eq!(cmap.get_palette().count, 0);
    assert!(out.is_empty());
}

#[test]
fn error_codes() {
    assert_eq!(QuantizrError::from(Error::ValueOutOfRange), QuantizrError::QuantizrValueOutOfRange);
    assert_eq!(QuantizrError::from(Error::BufferTooSmall), QuantizrError::QuantizrBufferTooSmall);
    assert_eq!(QuantizrError::QuantizrOk.code(), 0);
    assert_eq!(QuantizrError::QuantizrValueOutOfRange.code(), 100);
    assert_eq!(QuantizrError::QuantizrBufferTooSmall.code(), 1);
    assert_eq!(LiqError::from(Error::ValueOutOfRange), LiqError::ValueOutOfRange);
    assert_eq!(LiqError::from(Error::BufferTooSmall), LiqError::BufferTooSmall);
    assert_eq!(LiqError::QualityTooLow.code(), 99);
    assert_eq!(LiqError::BufferTooSmall.code(), 104);
    assert_eq!(Error::ValueOutOfRange.message(), "Value out of range");
    assert_eq!(Error::BufferTooSmall.message(), "Buffer is too small");
}

#[test]
fn split_goes_by_weight_of_the_sides() {
    let e = |r: u8, w: u32| HistogramEntry { color: Color::new(r, 0, 0, 255), weight: w };
    // mean 127.5: below = 128, above = 127
    let mut v = vec![e(255, 1), e(0, 1), e(170, 1), e(85, 1)];
    let split = split_entries(&mut v, 0, 128, 127);
    assert_eq!(split, 2);
    let mut left: Vec<u8> = v[..2].iter().map(|x| x.color.r).collect();
    left.sort();
    assert_eq!(left, vec![0, 85]);
    // integral mean 10 with heavier low side: equal values go right
    let mut v = vec![e(10, 1), e(0, 5), e(20, 1)];
    let split = split_entries(&mut v, 0, 10, 10);
    assert_eq!(split, 1);
    assert_eq!(v[0].color.r, 0);
    assert_eq!(v[1].color.r, 10);
    assert_eq!(v[2].color.r, 20);
    // heavier high side: equal values go left
    let mut v = vec![e(10, 1), e(0, 1), e(20, 5)];
    assert_eq!(split_entries(&mut v, 0, 10, 10), 2);
    let mut empty: Vec<HistogramEntry> = Vec::new();
    assert_eq!(split_entries(&mut empty, 0, 10, 10), 0);
}

#[test]
fn serpentine_rows_alternate() {
    let s = dither_step(3, 2, 0, 0);
    assert_eq!((s.x, s.point, s.err_ind, s.behind, s.ahead), (0, 0, 1, 0, 2));
    let s = dither_step(3, 2, 1, 0);
    assert_eq!((s.x, s.point, s.err_ind, s.behind, s.ahead), (2, 5, 3, 4, 2));
    let s = dither_step(3, 2, 1, 2);
    assert_eq!((s.x, s.point), (0, 3));
}

#[test]
fn color_helpers() {
    let c = Color::new(1, 2, 3, 4);
    assert_eq!(c.as_slice(), [1, 2, 3, 4]);
    assert_eq!(Color::default(), Color::new(0, 0, 0, 0));
    assert_eq!(pix_or_empty(&[9, 8, 7, 0]), Color::new(0, 0, 0, 0));
    assert_eq!(pix_or_empty(&[9, 8, 7, 1]), Color::new(9, 8, 7, 1));
}

#[test]
fn splitting_stops_at_max_colors_and_keeps_entries() {
    let e = |r: u8, w: u32| HistogramEntry { color: Color::new(r, 0, 0, 255), weight: w };
    let root = vec![e(0, 1), e(85, 1), e(170, 1), e(255, 1)];
    // always split the first open cluster around the red midpoint of its extremes
    let pick = |c: &Vec<Vec<HistogramEntry>>, open: &Vec<bool>| (0..c.len()).find(|&i| open[i] && c[i].len() > 1);
    let bounds = |c: &Vec<HistogramEntry>| {
        let lo = c.iter().map(|x| x.color.r as u32).min().unwrap();
        let hi = c.iter().map(|x| x.color.r as u32).max().unwrap();
        let twice = lo + hi;
        (0usize, (twice + 1) / 2, twice / 2)
    };
    let (clusters, open) = split_clusters(root.clone(), 2, pick, bounds);
    assert_eq!(open, vec![true, true]);
    assert_eq!(clusters.len(), 2);
    let mut reds: Vec<Vec<u8>> = clusters
        .iter()
        .map(|c| {
            let mut v: Vec<u8> = c.iter().map(|x| x.color.r).collect();
            v.sort();
            v
        })
        .collect();
    reds.sort();
    assert_eq!(reds, vec![vec![0, 85], vec![170, 255]]);

    let (clusters, open) = split_clusters(root.clone(), 10, pick, bounds);
    assert_eq!(open.len(), 4);
    assert_eq!(clusters.len(), 4);
    assert!(clusters.iter().all(|c| c.len() == 1));

    let (clusters, _) = split_clusters(root, 1, pick, bounds);
    assert_eq!(clusters.len(), 1);
    assert_eq!(clusters[0].len(), 4);
}

#[test]
fn splitting_with_no_choice_keeps_root() {
    let root = vec![HistogramEntry { color: Color::new(1, 2, 3, 4), weight: 9 }];
    let (clusters, open) = split_clusters(root, 5, |_: &Vec<Vec<HistogramEntry>>, _: &Vec<bool>| None, |_: &Vec<HistogramEntry>| (0usize, 0u32, 0u32));
    assert_eq!(open, vec![true]);
    assert_eq!(clusters.len(), 1);
    assert_eq!(clusters[0][0].weight, 9);
}

#[test]
fn palette_depends_only_on_weights() {
    let a = [9, 9, 9, 255, 1, 1, 1, 0, 3, 3, 3, 100, 9, 9, 9, 255];
    let b = [3, 3, 3, 100, 9, 9, 9, 255, 0, 0, 0, 0, 9, 9, 9, 255];
    let (ca, _) = quantize_small(&a, 4, 1, 4);
    let (cb, _) = quantize_small(&b, 4, 1, 4);
    let mut pa = colors_of(&ca);
    let mut pb = colors_of(&cb);
    let alphas = |p: &Vec<(u8, u8, u8, u8)>| p.iter().map(|c| c.3).collect::<Vec<u8>>();
    assert_eq!(alphas(&pa), vec![0, 100, 255]);
    assert_eq!(alphas(&pb), vec![0, 100, 255]);
    pa.sort();
    pb.sort();
    assert_eq!(pa, pb);
}

#[test]
fn assigned_sums_add_up_per_color() {
    let e = |r: u8, g: u8, w: u32| HistogramEntry { color: Color::new(r, g, 0, 255), weight: w };
    let entries = vec![e(10, 1, 2), e(20, 2, 3), e(30, 3, 5)];
    let sums = assigned_sums(&entries, &vec![1, 0, 1]);
    assert_eq!(sums.len(), 256);
    assert_eq!(sums[0].weight, 3);
    assert_eq!(sums[0].channels, [60, 6, 0, 765]);
    assert_eq!(sums[1].weight, 7);
    assert_eq!(sums[1].channels, [170, 17, 0, 1785]);
    assert_eq!(sums[2].weight, 0);
}

#[test]
fn splitting_with_one_sided_bounds_closes_the_cluster() {
    let e = |r: u8| HistogramEntry { color: Color::new(r, 0, 0, 255), weight: 1 };
    let root = vec![e(10), e(20)];
    // every value lies over the bounds, so one side stays empty
    let pick = |c: &Vec<Vec<HistogramEntry>>, open: &Vec<bool>| (0..c.len()).find(|&i| open[i]);
    let (clusters, open) = split_clusters(root, 4, pick, |_: &Vec<HistogramEntry>| (0usize, 0u32, 0u32));
    assert_eq!(clusters.len(), 1);
    assert_eq!(open, vec![false]);
    assert_eq!(clusters[0].len(), 2);
}
