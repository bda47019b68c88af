use rstracer::camera::{Camera, Orientation, Sampling};

fn sorted(mut v: Vec<(u32, u32)>) -> Vec<(u32, u32)> {
    v.sort();
    v
}

fn image(w: u32, h: u32) -> Vec<(u32, u32)> {
    let mut v = vec![];
    for x in 0..w {
        for y in 0..h {
            v.push((x, y));
        }
    }
    v
}

#[test]
fn a_new_camera_keeps_its_parts() {
    let c = Camera::new(200, 125, 3, 8);
    assert_eq!((c.h_size, c.v_size, c.antialias, c.reflection_limit), (200, 125, 3, 8));
}

#[test]
fn tiles_come_row_by_row() {
    let c = Camera::new(4, 4, 1, 8);
    assert_eq!(c.tiles(2), vec![(0, 0), (2, 0), (0, 2), (2, 2)]);
    let c = Camera::new(5, 3, 1, 8);
    assert_eq!(c.tiles(2), vec![(0, 0), (2, 0), (4, 0), (0, 2), (2, 2), (4, 2)]);
    let c = Camera::new(3, 2, 1, 8);
    assert_eq!(c.tiles(1), vec![(0, 0), (1, 0), (2, 0), (0, 1), (1, 1), (2, 1)]);
}

#[test]
fn a_tile_larger_than_the_image() {
    let c = Camera::new(3, 2, 1, 8);
    assert_eq!(c.tiles(16), vec![(0, 0)]);
    assert_eq!(c.render(false, 16), vec![(0, 0), (1, 0), (2, 0), (0, 1), (1, 1), (2, 1)]);
    assert_eq!(c.render(false, u32::MAX).len(), 6);
}

#[test]
fn an_image_without_pixels_has_no_tiles() {
    assert_eq!(Camera::new(0, 10, 1, 8).tiles(4).len(), 0);
    assert_eq!(Camera::new(10, 0, 1, 8).tiles(4).len(), 0);
    assert_eq!(Camera::new(0, 10, 1, 8).render(true, 4).len(), 0);
    assert_eq!(Camera::new(u32::MAX, 0, 1, 8).render(false, 7).len(), 0);
}

#[test]
fn pixels_of_tiles_come_row_by_row() {
    let c = Camera::new(10, 10, 1, 8);
    let tiles = vec![(2, 0), (0, 2)];
    assert_eq!(
        c.pixels(&tiles, 2),
        vec![(2, 0), (3, 0), (2, 1), (3, 1), (0, 2), (1, 2), (0, 3), (1, 3)]
    );
    assert_eq!(c.pixels(&tiles, 0).len(), 0);
    assert_eq!(c.pixels(&vec![], 3).len(), 0);
    assert_eq!(c.pixels(&vec![(7, 9)], 1), vec![(7, 9)]);
}

#[test]
fn pixels_of_tiles_stay_inside_the_image() {
    let c = Camera::new(10, 10, 1, 8);
    assert_eq!(c.pixels(&vec![(8, 8)], 4), vec![(8, 8), (9, 8), (8, 9), (9, 9)]);
    assert_eq!(c.pixels(&vec![(9, 0)], 4), vec![(9, 0), (9, 1), (9, 2), (9, 3)]);
    assert_eq!(c.pixels(&vec![(0, 9)], 4), vec![(0, 9), (1, 9), (2, 9), (3, 9)]);
    assert_eq!(c.pixels(&vec![(10, 0), (0, 10), (12, 12)], 4).len(), 0);
    assert_eq!(c.pixels(&vec![(u32::MAX, u32::MAX)], u32::MAX).len(), 0);
    let wide = Camera::new(u32::MAX, 1, 1, 8);
    assert_eq!(
        wide.pixels(&vec![(u32::MAX - 2, 0)], u32::MAX),
        vec![(u32::MAX - 2, 0), (u32::MAX - 1, 0)]
    );
}

#[test]
fn render_without_shuffling() {
    let c = Camera::new(4, 2, 1, 8);
    assert_eq!(
        c.render(false, 2),
        vec![(0, 0), (1, 0), (0, 1), (1, 1), (2, 0), (3, 0), (2, 1), (3, 1)]
    );
}

#[test]
fn render_hands_out_every_pixel_once() {
    let cases = [
        (8u32, 6u32, 2u32),
        (9, 9, 3),
        (5, 5, 1),
        (12, 4, 4),
        (10, 10, 4),
        (5, 3, 2),
        (7, 1, 3),
        (1, 7, 16),
        (3, 3, 5),
    ];
    for (w, h, tile) in cases {
        let c = Camera::new(w, h, 1, 8);
        for shuffle in [false, true] {
            let tasks = c.render(shuffle, tile);
            assert_eq!(tasks.len() as u32, w * h);
            assert_eq!(sorted(tasks), sorted(image(w, h)));
        }
    }
}

#[test]
fn render_of_an_image_that_the_tiles_do_not_divide() {
    let c = Camera::new(10, 10, 1, 8);
    for shuffle in [false, true] {
        let tasks = c.render(shuffle, 4);
        assert_eq!(tasks.len(), 100);
        assert!(tasks.iter().all(|(x, y)| *x < 10 && *y < 10));
        assert!(!tasks.contains(&(11, 0)));
    }
}

#[test]
fn render_cuts_the_tiles_at_the_edge() {
    let c = Camera::new(5, 3, 1, 8);
    assert_eq!(
        c.render(false, 2),
        vec![
            (0, 0),
            (1, 0),
            (0, 1),
            (1, 1),
            (2, 0),
            (3, 0),
            (2, 1),
            (3, 1),
            (4, 0),
            (4, 1),
            (0, 2),
            (1, 2),
            (2, 2),
            (3, 2),
            (4, 2),
        ]
    );
    let shuffled = c.render(true, 2);
    assert_eq!(shuffled.len(), 15);
    for p in image(5, 3) {
        assert_eq!(shuffled.iter().filter(|q| **q == p).count(), 1);
    }
}

#[test]
fn shuffling_moves_tiles_and_keeps_them_whole() {
    let c = Camera::new(64, 64, 1, 8);
    let plain = c.render(false, 4);
    let shuffled = c.render(true, 4);
    assert_eq!(plain.len(), shuffled.len());
    assert_ne!(plain, shuffled);
    assert_eq!(sorted(plain.clone()), sorted(shuffled.clone()));
    // Inside a tile the order of the pixels is never touched.
    for tile in shuffled.chunks(16) {
        let (x, y) = tile[0];
        assert_eq!(x % 4, 0);
        assert_eq!(y % 4, 0);
        assert_eq!(c.pixels(&vec![(x, y)], 4), tile.to_vec());
    }
}

#[test]
fn render_pixel_samples_the_centre_or_a_grid() {
    assert_eq!(Camera::new(10, 10, 0, 8).render_pixel(), Sampling::Center);
    assert_eq!(Camera::new(10, 10, 1, 8).render_pixel(), Sampling::Center);
    assert_eq!(Camera::new(10, 10, 2, 8).render_pixel(), Sampling::Grid { side: 2, points: 4 });
    assert_eq!(Camera::new(10, 10, 4, 8).render_pixel(), Sampling::Grid { side: 4, points: 16 });
    assert_eq!(
        Camera::new(10, 10, 65535, 8).render_pixel(),
        Sampling::Grid { side: 65535, points: 4294836225 }
    );
}

fn k(t: f32) -> i64 {
    rstracer::key::key(t.to_bits())
}

#[test]
fn orientation_of_an_image() {
    assert_eq!(Camera::orientation(k(200.0 / 125.0)), Orientation::Landscape);
    assert_eq!(Camera::orientation(k(125.0 / 200.0)), Orientation::Portrait);
    assert_eq!(Camera::orientation(k(1.0)), Orientation::Landscape);
    assert_eq!(Camera::orientation(k(0.99999994)), Orientation::Portrait);
    assert_eq!(Camera::orientation(k(0.0)), Orientation::Portrait);
}

#[test]
fn cells_of_a_sampling_grid() {
    assert_eq!(Sampling::Center.cells().len(), 0);
    assert_eq!(
        Sampling::Grid { side: 2, points: 4 }.cells(),
        vec![(0, 0), (0, 1), (1, 0), (1, 1)]
    );
    assert_eq!(Sampling::Grid { side: 3, points: 9 }.cells().len(), 9);
    assert_eq!(Sampling::Grid { side: 3, points: 9 }.cells()[5], (1, 2));
    assert_eq!(Sampling::Grid { side: 0, points: 0 }.cells().len(), 0);
}
