use common::canvas::{
    color_to_u32, draw_clear, draw_pixel, Size, BLACK, BLUE, GRAY, GREEN, RED, WHITE,
};

fn blank(w: u32, h: u32) -> (Vec<u32>, Size) {
    (vec![0x0012_3456u32; (w * h) as usize], Size { width: w, height: h })
}

#[test]
fn colors_pack_as_rgb() {
    assert_eq!(color_to_u32(&BLACK), 0x0000_0000);
    assert_eq!(color_to_u32(&WHITE), 0x00ff_ffff);
    assert_eq!(color_to_u32(&RED), 0x00e0_1b24);
    assert_eq!(color_to_u32(&GREEN), 0x002e_c27e);
    assert_eq!(color_to_u32(&BLUE), 0x0035_84e4);
    assert_eq!(color_to_u32(&GRAY), 0x00de_ddda);
    assert_eq!(color_to_u32(&(1, 2, 3)), 0x0001_0203);
}

#[test]
fn clear_fills_the_canvas_only() {
    let dim = Size { width: 3, height: 2 };
    let mut buf = vec![7u32; 8];
    draw_clear(&mut buf, &dim, &RED);
    assert_eq!(&buf[..6], &[0x00e0_1b24u32; 6]);
    assert_eq!(&buf[6..], &[7u32, 7]);
}

#[test]
fn clear_of_an_empty_canvas_changes_nothing() {
    let dim = Size { width: 0, height: 5 };
    let mut buf = vec![7u32; 4];
    draw_clear(&mut buf, &dim, &WHITE);
    assert_eq!(buf, vec![7u32; 4]);
}

#[test]
fn pixel_lands_at_row_major_index() {
    let (mut buf, dim) = blank(4, 3);
    draw_pixel(&mut buf, &dim, &(2, 1), &BLUE);
    for (i, v) in buf.iter().enumerate() {
        if i == 1 * 4 + 2 {
            assert_eq!(*v, 0x0035_84e4);
        } else {
            assert_eq!(*v, 0x0012_3456);
        }
    }
}

#[test]
fn pixels_off_the_canvas_are_skipped() {
    let (mut buf, dim) = blank(4, 3);
    for p in [(-1, 0), (0, -1), (4, 0), (0, 3), (i32::MIN, i32::MAX)] {
        draw_pixel(&mut buf, &dim, &p, &BLUE);
    }
    assert!(buf.iter().all(|v| *v == 0x0012_3456));
}

#[test]
fn clearing_erases_earlier_drawing() {
    let (mut a, dim) = blank(5, 5);
    let (mut b, _) = blank(5, 5);
    draw_pixel(&mut a, &dim, &(1, 1), &RED);
    draw_pixel(&mut a, &dim, &(3, 4), &GREEN);
    draw_clear(&mut a, &dim, &WHITE);
    draw_clear(&mut b, &dim, &WHITE);
    assert_eq!(a, b);
}

#[test]
fn painting_twice_is_painting_once() {
    let (mut a, dim) = blank(5, 5);
    draw_pixel(&mut a, &dim, &(1, 2), &RED);
    let once = a.clone();
    draw_pixel(&mut a, &dim, &(1, 2), &RED);
    assert_eq!(a, once);
}
