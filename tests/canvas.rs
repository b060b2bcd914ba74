use raytracer::canvas::{transform_coords, Canvas, CanvasError};

type Rgb = (f64, f64, f64);

const BLACK: Rgb = (0.0, 0.0, 0.0);

#[test]
fn new_canvas() {
    let cnvs = Canvas::new(1280, 720, BLACK).unwrap();

    let is_width = cnvs.width() == 1280;
    let is_height = cnvs.height() == 720;

    let mut is_black = true;
    for x in 0..cnvs.width() {
        for y in 0..cnvs.height() {
            let p = Canvas::pixel_at(&cnvs, x, y);
            is_black = is_black && p == BLACK;
        }
    }

    assert_eq!((true, true, true), (is_width, is_height, is_black))
}

#[test]
fn _transform_coords() {
    let x = 5;
    let y = 7;
    let c = Canvas::new(10, 12, BLACK).unwrap();

    let tc = transform_coords(&c, x, y);

    assert_eq!(75, tc)
}

#[test]
fn _write_pixel() {
    let mut c = Canvas::new(10, 10, BLACK).unwrap();
    let pink = (0.9, 0.5, 0.6);
    Canvas::write_pixel(&mut c, 4, 7, pink);

    let coord = transform_coords(&c, 4, 7);
    let p = c.pixels()[coord];

    assert_eq!(p, pink)
}

#[test]
fn pixel_at() {
    let mut c = Canvas::new(10, 10, BLACK).unwrap();
    let pink = (0.9, 0.5, 0.6);
    Canvas::write_pixel(&mut c, 4, 7, pink);

    let p = Canvas::pixel_at(&c, 4, 7);

    assert_eq!(p, pink)
}

#[test]
fn write_leaves_other_cells() {
    let mut c = Canvas::new(3, 2, 0u8).unwrap();
    Canvas::write_pixel(&mut c, 2, 1, 9);
    for x in 0..3 {
        for y in 0..2 {
            let expected = if (x, y) == (2, 1) { 9 } else { 0 };
            assert_eq!(Canvas::pixel_at(&c, x, y), expected);
        }
    }
    assert_eq!(c.pixels(), &vec![0, 0, 0, 0, 0, 9]);
}

#[test]
fn fill_every_cell_then_read_back() {
    let (w, h) = (7, 5);
    let color: Rgb = (0.25, 1.5, -0.75);
    let mut c = Canvas::new(w, h, BLACK).unwrap();
    for y in (0..h).rev() {
        for x in 0..w {
            Canvas::write_pixel(&mut c, x, y, color);
        }
    }
    for x in 0..w {
        for y in 0..h {
            assert_eq!(Canvas::pixel_at(&c, x, y), color);
        }
    }
}

#[test]
fn single_cell_canvas() {
    let mut c = Canvas::new(1, 1, 3i64).unwrap();
    assert_eq!(c.pixels().len(), 1);
    Canvas::write_pixel(&mut c, 0, 0, -4);
    assert_eq!(Canvas::pixel_at(&c, 0, 0), -4);
}

#[test]
fn rejects_non_positive_dimensions() {
    assert_eq!(Canvas::new(0, 5, BLACK).err(), Some(CanvasError::InvalidDimensions));
    assert_eq!(Canvas::new(5, 0, BLACK).err(), Some(CanvasError::InvalidDimensions));
    assert_eq!(Canvas::new(-1, 3, BLACK).err(), Some(CanvasError::InvalidDimensions));
    assert_eq!(Canvas::new(3, i32::MIN, BLACK).err(), Some(CanvasError::InvalidDimensions));
}

#[test]
fn rejects_cell_count_past_i32() {
    assert_eq!(Canvas::new(65536, 32768, 0u8).err(), Some(CanvasError::InvalidDimensions));
    assert_eq!(Canvas::new(i32::MAX, 2, 0u8).err(), Some(CanvasError::InvalidDimensions));
}

#[test]
fn map_applies_to_every_cell() {
    let mut c = Canvas::new(4, 3, 1i64).unwrap();
    Canvas::write_pixel(&mut c, 3, 2, 5);
    Canvas::write_pixel(&mut c, 0, 1, -2);
    let m = c.map(|v| v * 10);
    assert_eq!(m.width(), 4);
    assert_eq!(m.height(), 3);
    assert_eq!(Canvas::pixel_at(&m, 3, 2), 50);
    assert_eq!(Canvas::pixel_at(&m, 0, 1), -20);
    assert_eq!(Canvas::pixel_at(&m, 1, 1), 10);
    assert_eq!(m.pixels().len(), 12);
}
