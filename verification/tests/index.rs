use wireframe::engine::{get_point, Point, LINE_COLOR, SCREEN_HEIGHT, SCREEN_WIDTH};

#[test]
fn screen_is_1280_by_720() {
    assert_eq!(SCREEN_WIDTH, 1280);
    assert_eq!(SCREEN_HEIGHT, 720);
}

#[test]
fn line_color_has_no_alpha() {
    assert_eq!(LINE_COLOR, 0x00fbfbfb);
    assert_eq!(LINE_COLOR >> 24, 0);
}

#[test]
fn get_point_is_row_major() {
    assert_eq!(get_point(Point { x: 3, y: 2 }), 2 * 1280 + 3);
    assert_eq!(get_point(Point { x: 640, y: 360 }), 461_440);
    assert_eq!(get_point(Point { x: 0, y: 1 }), 1280);
    assert_eq!(get_point(Point { x: 1, y: 0 }), 1);
}

#[test]
fn get_point_of_first_and_last_pixel() {
    assert_eq!(get_point(Point { x: 0, y: 0 }), 0);
    assert_eq!(get_point(Point { x: 1279, y: 719 }), 1280 * 720 - 1);
}

#[test]
fn get_point_is_defined_off_screen_too() {
    assert_eq!(get_point(Point { x: -1, y: 1 }), 1279);
    assert_eq!(get_point(Point { x: 1280, y: 0 }), 1280);
    assert_eq!(get_point(Point { x: 0, y: -1 }), -1280);
}

#[test]
fn get_point_tells_screen_pixels_apart() {
    let mut seen: Vec<bool> = vec![false; 1280 * 4];
    let mut y: i32 = 0;
    while y < 4 {
        let mut x: i32 = 0;
        while x < 1280 {
            let index: usize = get_point(Point { x, y }) as usize;
            assert!(!seen[index]);
            seen[index] = true;
            x += 1;
        }
        y += 1;
    }
    assert!(seen.iter().all(|s| *s));
}

#[test]
fn on_screen_at_the_corners() {
    assert!(Point { x: 0, y: 0 }.is_on_screen());
    assert!(Point { x: 1279, y: 0 }.is_on_screen());
    assert!(Point { x: 0, y: 719 }.is_on_screen());
    assert!(Point { x: 1279, y: 719 }.is_on_screen());
}

#[test]
fn off_screen_just_past_the_edges() {
    assert!(!Point { x: -1, y: 0 }.is_on_screen());
    assert!(!Point { x: 0, y: -1 }.is_on_screen());
    assert!(!Point { x: 1280, y: 0 }.is_on_screen());
    assert!(!Point { x: 0, y: 720 }.is_on_screen());
    assert!(!Point { x: 1280, y: 720 }.is_on_screen());
    assert!(!Point { x: i32::MIN, y: i32::MAX }.is_on_screen());
}

#[test]
fn points_compare_by_their_coordinates() {
    let p: Point = Point { x: 4, y: 5 };
    let q: Point = p;
    assert_eq!(p, q);
    assert_ne!(p, Point { x: 5, y: 4 });
}
