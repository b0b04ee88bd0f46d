use rustracer::image::Image;

#[test]
fn new_image_is_filled() {
    let img = Image::new(4, 3, 0.0f32);
    assert_eq!(img.buffer.len(), 36);
    assert!(img.buffer.iter().all(|c| *c == 0.0));
    assert_eq!(img.width, 4);
    assert_eq!(img.height, 3);
}

#[test]
fn empty_image_has_no_channels() {
    let img = Image::new(0, 5, 1u8);
    assert!(img.buffer.is_empty());
    let mut it = img.iter_pixels();
    assert!(it.next().is_none());
}

#[test]
fn index_flips_rows() {
    let img = Image::new(4, 3, 0u32);
    // row 0 is the bottom row: it ends the buffer
    assert_eq!(img.index(0, 0), 24);
    assert_eq!(img.index(0, 3), 33);
    assert_eq!(img.index(2, 0), 0);
    assert_eq!(img.index(1, 2), 18);
    // column == width is accepted and lands one pixel further
    assert_eq!(img.index(0, 4), 36);
}

#[test]
fn index_slots_are_distinct() {
    let img = Image::new(5, 4, 0u32);
    let mut seen = std::collections::HashSet::new();
    for row in 0..4 {
        for column in 0..5 {
            let i = img.index(row, column);
            assert_eq!(i % 3, 0);
            assert!(i + 3 <= img.buffer.len());
            assert!(seen.insert(i));
        }
    }
    assert_eq!(seen.len(), 20);
}

#[test]
fn write_then_read() {
    let mut img = Image::new(2, 2, 0i32);
    img.write((7, 8, 9), 3);
    assert_eq!(img.read(3), (7, 8, 9));
    assert_eq!(img.read(0), (0, 0, 0));
    assert_eq!(img.buffer, vec![0, 0, 0, 7, 8, 9, 0, 0, 0, 0, 0, 0]);
}

#[test]
fn compute_fills_every_pixel() {
    let mut img = Image::new(3, 2, 0u32);
    img.compute(|w, h| (w, h, 10 * h + w));
    for h in 0..2u32 {
        for w in 0..3u32 {
            let i = img.index(h, w);
            assert_eq!(img.read(i), (w, h, 10 * h + w));
        }
    }
    // the bottom row (h == 0) is stored last
    assert_eq!(img.read(9), (0, 0, 0));
    assert_eq!(img.read(0), (0, 1, 10));
}

#[test]
fn iterator_walks_buffer_order() {
    let mut img = Image::new(2, 2, 0u8);
    for (i, c) in img.buffer.iter_mut().enumerate() {
        *c = i as u8;
    }
    let mut it = img.iter_pixels();
    let mut got = Vec::new();
    while let Some((x, y, s)) = it.next() {
        got.push((x, y, s.to_vec()));
    }
    assert_eq!(
        got,
        vec![
            (0, 0, vec![0, 1, 2]),
            (1, 0, vec![3, 4, 5]),
            (0, 1, vec![6, 7, 8]),
            (1, 1, vec![9, 10, 11]),
        ]
    );
    assert!(it.next().is_none());
}

#[test]
fn iterator_pixel_matches_index() {
    // the n-th pixel yielded sits where index(height - 1 - y, x) points
    let img = Image::new(3, 4, 0u8);
    let mut it = img.iter_pixels();
    let mut n = 0;
    while let Some((x, y, _)) = it.next() {
        assert_eq!(img.index(3 - y as u32, x as u32), 3 * n);
        n += 1;
    }
    assert_eq!(n, 12);
}

#[test]
fn size_hint_reports_buffer_length() {
    let img = Image::new(2, 3, 0u8);
    let it = img.iter_pixels();
    assert_eq!(it.size_hint(), (18, Some(18)));
}

#[test]
fn zero_width_iteration_starts_a_row_per_pixel() {
    let img = Image { buffer: vec![1u8, 2, 3, 4, 5, 6], width: 0, height: 0 };
    let mut it = img.iter_pixels();
    let (x, y, s) = it.next().unwrap();
    assert_eq!((x, y, s.to_vec()), (0, 1, vec![1, 2, 3]));
    let (x, y, s) = it.next().unwrap();
    assert_eq!((x, y, s.to_vec()), (0, 2, vec![4, 5, 6]));
    assert!(it.next().is_none());
}

#[test]
fn compute_on_a_longer_buffer_fills_its_tail() {
    let mut img = Image { buffer: vec![0u32; 18], width: 2, height: 2 };
    img.compute(|w, h| (w, h, 1));
    assert_eq!(img.index(0, 0), 12);
    assert_eq!(img.read(12), (0, 0, 1));
    assert_eq!(img.read(6), (0, 1, 1));
    assert_eq!(img.read(0), (0, 0, 0));
}
