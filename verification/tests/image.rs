use pathtracer::image::{coordinates, Image};

#[test]
fn new_image_has_the_given_dimensions() {
    let img: Image<u8> = Image::new(4, 3);
    assert_eq!(img.width(), 4);
    assert_eq!(img.height(), 3);
    assert_eq!(img.as_slice().len(), 12);
}

#[test]
fn new_image_is_filled_with_the_default_pixel() {
    let img: Image<(u8, u8, u8)> = Image::new(5, 2);
    assert_eq!(img.iter().count(), 10);
    assert!(img.iter().all(|p| *p == (0, 0, 0)));
}

#[test]
fn new_image_of_floats_is_black() {
    let img: Image<(f64, f64, f64)> = Image::new(3, 3);
    assert!(img.iter().all(|p| *p == (0.0, 0.0, 0.0)));
}

#[test]
fn new_image_may_be_empty() {
    let a: Image<u8> = Image::new(0, 7);
    assert_eq!(a.width(), 0);
    assert_eq!(a.height(), 7);
    assert_eq!(a.iter().count(), 0);
    let b: Image<u8> = Image::new(7, 0);
    assert_eq!(b.iter().count(), 0);
    let c: Image<u8> = Image::new(0, 0);
    assert_eq!(c.iter().count(), 0);
}

#[test]
fn get_index_is_row_major() {
    let img: Image<u8> = Image::new(4, 3);
    assert_eq!(img.get_index(0, 0), 0);
    assert_eq!(img.get_index(3, 0), 3);
    assert_eq!(img.get_index(0, 1), 4);
    assert_eq!(img.get_index(2, 1), 6);
    assert_eq!(img.get_index(3, 2), 11);
}

#[test]
fn coordinates_are_column_then_row() {
    assert_eq!(coordinates(4, 0), (0, 0));
    assert_eq!(coordinates(4, 3), (3, 0));
    assert_eq!(coordinates(4, 4), (0, 1));
    assert_eq!(coordinates(4, 6), (2, 1));
    assert_eq!(coordinates(4, 11), (3, 2));
    assert_eq!(coordinates(1, 5), (0, 5));
}

#[test]
fn coordinates_undo_get_index() {
    let img: Image<u8> = Image::new(5, 7);
    for j in 0..7 {
        for i in 0..5 {
            assert_eq!(coordinates(5, img.get_index(i, j)), (i, j));
        }
    }
    for k in 0..35 {
        let (i, j) = coordinates(5, k);
        assert!(i < 5 && j < 7);
        assert_eq!(img.get_index(i, j), k);
    }
}

#[test]
fn index_reads_the_pixel_at_column_and_row() {
    let pixels: Vec<u32> = (0..12).collect();
    let img = Image::from_pixels(4, 3, pixels).unwrap();
    assert_eq!(img[(0, 0)], 0);
    assert_eq!(img[(3, 0)], 3);
    assert_eq!(img[(0, 1)], 4);
    assert_eq!(img[(1, 2)], 9);
    assert_eq!(img[(3, 2)], 11);
}

#[test]
fn index_mut_changes_one_pixel() {
    let mut img: Image<u8> = Image::new(3, 2);
    *img.index_mut((2, 1)) = 9;
    assert_eq!(img.as_slice(), &[0, 0, 0, 0, 0, 9]);
    assert_eq!(img[(2, 1)], 9);
    assert_eq!(img.width(), 3);
    assert_eq!(img.height(), 2);
}

#[test]
fn as_mut_slice_writes_through() {
    let mut img: Image<u8> = Image::new(2, 2);
    for (k, p) in img.as_mut_slice().iter_mut().enumerate() {
        *p = k as u8 + 1;
    }
    assert_eq!(img[(0, 0)], 1);
    assert_eq!(img[(1, 0)], 2);
    assert_eq!(img[(0, 1)], 3);
    assert_eq!(img[(1, 1)], 4);
    assert_eq!(img.width(), 2);
    assert_eq!(img.height(), 2);
}

#[test]
fn iter_walks_row_by_row() {
    let mut img: Image<(usize, usize)> = Image::new(3, 2);
    for j in 0..2 {
        for i in 0..3 {
            *img.index_mut((i, j)) = (i, j);
        }
    }
    let seen: Vec<(usize, usize)> = img.iter().copied().collect();
    assert_eq!(seen, vec![(0, 0), (1, 0), (2, 0), (0, 1), (1, 1), (2, 1)]);
}

#[test]
fn from_pixels_wants_one_pixel_per_position() {
    assert!(Image::from_pixels(2, 2, vec![1u8, 2, 3, 4]).is_some());
    assert!(Image::from_pixels(2, 2, vec![1u8, 2, 3]).is_none());
    assert!(Image::from_pixels(2, 2, vec![1u8, 2, 3, 4, 5]).is_none());
    assert!(Image::from_pixels(0, 9, Vec::<u8>::new()).is_some());
    assert!(Image::from_pixels(usize::MAX, 2, Vec::<u8>::new()).is_none());
    assert!(Image::from_pixels(usize::MAX, usize::MAX, vec![0u8]).is_none());
}

#[test]
fn from_pixels_keeps_the_pixels() {
    let img = Image::from_pixels(3, 1, vec![7u8, 8, 9]).unwrap();
    assert_eq!(img.width(), 3);
    assert_eq!(img.height(), 1);
    assert_eq!(img.as_slice(), &[7, 8, 9]);
}

#[test]
fn par_fill_gives_every_pixel_the_value_for_its_own_place() {
    let mut img: Image<(usize, usize)> = Image::new(4, 3);
    img.par_fill(|i, j| (i, j));
    for j in 0..3 {
        for i in 0..4 {
            assert_eq!(img[(i, j)], (i, j));
        }
    }
    assert_eq!(img.as_slice()[5], (1, 1));
    assert_eq!(img.as_slice()[11], (3, 2));
    assert_eq!(img.width(), 4);
    assert_eq!(img.height(), 3);
}

#[test]
fn par_fill_covers_a_large_image() {
    let mut img: Image<usize> = Image::new(257, 129);
    img.par_fill(|i, j| 1 + i + 1000 * j);
    assert_eq!(img.as_slice().len(), 257 * 129);
    for (k, p) in img.iter().enumerate() {
        assert_eq!(*p, 1 + k % 257 + 1000 * (k / 257));
    }
}

#[test]
fn par_fill_computes_every_pixel_once() {
    let calls = std::sync::atomic::AtomicUsize::new(0);
    let mut img: Image<u8> = Image::new(31, 17);
    img.par_fill(|_, _| {
        calls.fetch_add(1, std::sync::atomic::Ordering::Relaxed);
        1
    });
    assert_eq!(calls.load(std::sync::atomic::Ordering::Relaxed), 31 * 17);
    assert!(img.iter().all(|p| *p == 1));
}

#[test]
fn par_fill_overwrites_what_was_there() {
    let mut img = Image::from_pixels(2, 2, vec![9u32, 9, 9, 9]).unwrap();
    img.par_fill(|i, j| (10 * j + i) as u32);
    assert_eq!(img.as_slice(), &[0, 1, 10, 11]);
}

#[test]
fn par_fill_of_an_empty_image_computes_nothing() {
    let calls = std::sync::atomic::AtomicUsize::new(0);
    let mut a: Image<u8> = Image::new(0, 5);
    a.par_fill(|_, _| {
        calls.fetch_add(1, std::sync::atomic::Ordering::Relaxed);
        1
    });
    let mut b: Image<u8> = Image::new(5, 0);
    b.par_fill(|_, _| {
        calls.fetch_add(1, std::sync::atomic::Ordering::Relaxed);
        1
    });
    assert_eq!(calls.load(std::sync::atomic::Ordering::Relaxed), 0);
    assert_eq!((a.width(), a.height()), (0, 5));
    assert_eq!((b.width(), b.height()), (5, 0));
}

#[test]
fn par_fill_with_the_same_shading_gives_the_same_image() {
    let shade = |i: usize, j: usize| ((i * 31 + j * 17) as f64).sqrt() / 3.0;
    let mut first: Image<f64> = Image::new(64, 48);
    let mut second: Image<f64> = Image::new(64, 48);
    first.par_fill(shade);
    second.par_fill(shade);
    assert!(first.iter().zip(second.iter()).all(|(a, b)| a.to_bits() == b.to_bits()));
    second.par_fill(shade);
    assert!(first.iter().zip(second.iter()).all(|(a, b)| a.to_bits() == b.to_bits()));
}
