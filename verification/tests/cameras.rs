use osm_view::camera::{
    device_of, Action, Button, Camera, CameraController, InputEvent, Vec2, WorldPos, REST, UNIT,
};
use osm_view::geom::Point;

fn px(x: i32, y: i32) -> Point {
    Point { x, y }
}

#[test]
fn a_new_camera_shows_the_drawing_as_it_is() {
    let camera = Camera::new();
    assert_eq!(camera.offset(), Vec2::new(0, 0));
    assert_eq!(camera.zoom(), UNIT);
    assert_eq!(camera.device_to_world(Vec2::new(123, -456)), WorldPos { x: 123, y: -456 });
}

#[test]
fn pixels_become_device_coordinates_with_y_up() {
    let size = px(800, 600);
    assert_eq!(device_of(px(0, 0), size), Vec2::new(-UNIT, UNIT));
    assert_eq!(device_of(px(800, 600), size), Vec2::new(UNIT, -UNIT));
    assert_eq!(device_of(px(400, 300), size), Vec2::new(0, 0));
    assert_eq!(device_of(px(200, 150), size), Vec2::new(-UNIT / 2, UNIT / 2));
    assert_eq!(device_of(px(1, 1), px(3, 3)), Vec2::new(-357913942, 357913942));
    assert_eq!(device_of(px(-400, 900), size), Vec2::new(-2 * UNIT, -2 * UNIT));
}

#[test]
fn extreme_pixels_stay_in_range() {
    let at = device_of(px(i32::MIN, i32::MAX), px(1, 1));
    assert_eq!(at.x, 2 * (i32::MIN as i64) * UNIT - UNIT);
    assert_eq!(at.y, UNIT - 2 * (i32::MAX as i64) * UNIT);
}

#[test]
fn screen_to_world_takes_the_offset_off_and_divides_by_the_zoom() {
    let camera = Camera { offset: Vec2::new(UNIT / 2, -UNIT / 4), zoom: 2 * UNIT };
    let size = px(800, 600);
    // the center of the screen is the device origin: (0 - 1/2) / 2 and (0 + 1/4) / 2
    assert_eq!(
        camera.screen_to_world(px(400, 300), size),
        WorldPos { x: -(UNIT as i128) / 4, y: (UNIT as i128) / 8 }
    );
    // the top right corner is (1, 1): (1 - 1/2) / 2 and (1 + 1/4) / 2
    assert_eq!(
        camera.screen_to_world(px(800, 0), size),
        WorldPos { x: (UNIT as i128) / 4, y: 5 * (UNIT as i128) / 8 }
    );
}

#[test]
fn a_world_position_comes_back_from_the_screen() {
    // offset (0.2, -0.1) and zoom 2.0
    let camera = Camera { offset: Vec2::new(214748365, -107374182), zoom: 2 * UNIT };
    let mut x: i64 = 7;
    for _ in 0..500 {
        x = (x * 1103515245 + 12345) % 2147483648;
        let wx = x * 9 - UNIT * 8;
        x = (x * 1103515245 + 12345) % 2147483648;
        let wy = UNIT * 8 - x * 9;
        let at = camera.world_to_device(Vec2::new(wx, wy));
        let back = camera.device_to_world(Vec2::new(at.x as i64, at.y as i64));
        assert_eq!(back, WorldPos { x: wx as i128, y: wy as i128 });
    }
}

#[test]
fn at_a_zoom_below_one_a_position_comes_back_near() {
    let zoom = UNIT / 3;
    let camera = Camera { offset: Vec2::new(-5, 99), zoom: zoom };
    for w in [-1_000_000_007i64, -4, -1, 0, 1, 2, 3, 1000, 123456789] {
        let at = camera.world_to_device(Vec2::new(w, -w));
        let back = camera.device_to_world(Vec2::new(at.x as i64, at.y as i64));
        let slack = ((UNIT - 1) / zoom + 1) as i128;
        assert!(back.x <= w as i128 && back.x >= w as i128 - slack);
        assert!(back.y <= -w as i128 && back.y >= -w as i128 - slack);
    }
}

#[test]
fn pan_moves_the_offset() {
    let mut camera = Camera::new();
    camera.pan(Vec2::new(10, -20));
    camera.pan(Vec2::new(5, 5));
    assert_eq!(camera.offset(), Vec2::new(15, -15));
    assert_eq!(camera.zoom(), UNIT);
}

#[test]
fn pan_stops_at_the_end_of_the_range() {
    let mut camera = Camera { offset: Vec2::new(i64::MAX - 1, i64::MIN + 1), zoom: UNIT };
    camera.pan(Vec2::new(5, -5));
    assert_eq!(camera.offset(), Vec2::new(i64::MAX, i64::MIN));
    camera.pan_between(Vec2::new(i64::MAX, i64::MIN), Vec2::new(i64::MIN, i64::MAX));
    assert_eq!(camera.offset(), Vec2::new(i64::MIN, i64::MAX));
    camera.pan_between(Vec2::new(i64::MIN, i64::MAX), Vec2::new(i64::MAX, i64::MIN));
    assert_eq!(camera.offset(), Vec2::new(i64::MAX, i64::MIN));
    camera.pan_between(Vec2::new(i64::MAX, 0), Vec2::new(0, 7));
    assert_eq!(camera.offset(), Vec2::new(0, i64::MIN + 7));
}

#[test]
fn zoom_at_scales_by_one_and_a_tenth_of_the_amount() {
    let mut camera = Camera::new();
    camera.zoom_at(10 * UNIT, Vec2::new(0, 0));
    assert_eq!(camera.zoom(), 2 * UNIT);
    assert_eq!(camera.offset(), Vec2::new(0, 0));
    camera.zoom_at(-5 * UNIT, Vec2::new(0, 0));
    assert_eq!(camera.zoom(), UNIT);
    camera.zoom_at(5 * UNIT, Vec2::new(UNIT, -UNIT));
    assert_eq!(camera.zoom(), UNIT + UNIT / 2);
    // the anchor (1, -1) stays where it is: offset = anchor - (anchor - 0) * 1.5
    assert_eq!(camera.offset(), Vec2::new(-UNIT / 2, UNIT / 2));
}

#[test]
fn zoom_at_keeps_the_world_position_under_the_anchor() {
    let mut x: i64 = 2024;
    for step in 0..60 {
        // factors from -0.9 to 5.0
        let amount = (-9 * UNIT + step * (59 * UNIT / 59)) / 10;
        x = (x * 1103515245 + 12345) % 2147483648;
        let anchor = Vec2::new(x - UNIT, UNIT - x / 3);
        let mut camera = Camera { offset: Vec2::new(214748365, -107374182), zoom: 2 * UNIT };
        let before = camera.device_to_world(anchor);
        camera.zoom_at(amount, anchor);
        assert!(camera.zoom() > 0);
        let after = camera.device_to_world(anchor);
        let slack = 1 + (before.x.abs().max(before.y.abs()) + UNIT as i128) / camera.zoom() as i128;
        assert!((after.x - before.x).abs() <= slack, "{after:?} {before:?}");
        assert!((after.y - before.y).abs() <= slack, "{after:?} {before:?}");
        assert!(slack <= 3);
    }
}

#[test]
fn a_zoom_that_would_not_stay_positive_is_not_done() {
    let start = Camera { offset: Vec2::new(7, 8), zoom: UNIT };
    let mut camera = start;
    camera.zoom_at(-10 * UNIT, Vec2::new(0, 0));
    assert_eq!(camera, start);
    camera.zoom_at(-11 * UNIT, Vec2::new(0, 0));
    assert_eq!(camera, start);
    camera.zoom_at(i64::MIN, Vec2::new(0, 0));
    assert_eq!(camera, start);
    let mut tiny = Camera { offset: Vec2::new(0, 0), zoom: 1 };
    tiny.zoom_at(-UNIT, Vec2::new(0, 0));
    assert_eq!(tiny.zoom(), 1);
    let mut huge = Camera { offset: Vec2::new(0, 0), zoom: i64::MAX };
    huge.zoom_at(UNIT, Vec2::new(0, 0));
    assert_eq!(huge.zoom(), i64::MAX);
}

#[test]
fn the_view_moves_with_the_pointer_only_while_a_drag_is_on() {
    let size = px(800, 600);
    let mut controller = CameraController::new(size);
    controller.update(px(400, 300), size);
    controller.update(px(600, 300), size);
    assert_eq!(controller.camera().offset(), Vec2::new(0, 0));
    controller.mouse_down(true);
    controller.update(px(800, 150), size);
    assert_eq!(controller.camera().offset(), Vec2::new(UNIT / 2, UNIT / 2));
    controller.update(px(400, 300), size);
    assert_eq!(controller.camera().offset(), Vec2::new(-UNIT / 2, 0));
    controller.mouse_down(false);
    controller.update(px(0, 0), size);
    assert_eq!(controller.camera().offset(), Vec2::new(-UNIT / 2, 0));
    assert_eq!(controller.camera().zoom(), UNIT);
}

#[test]
fn scroll_zooms_about_the_pointer() {
    let size = px(800, 600);
    let mut controller = CameraController::new(size);
    controller.update(px(800, 0), size);
    let before = controller.screen_to_world(px(800, 0));
    controller.scroll(10 * UNIT);
    assert_eq!(controller.camera().zoom(), 2 * UNIT);
    assert_eq!(controller.camera().offset(), Vec2::new(-UNIT, -UNIT));
    assert_eq!(controller.screen_to_world(px(800, 0)), before);
    assert_eq!(before, WorldPos { x: UNIT as i128, y: UNIT as i128 });
}

#[test]
fn a_scroll_runs_out() {
    let size = px(800, 600);
    let mut controller = CameraController::new(size);
    controller.apply_velocity();
    assert_eq!(controller.camera(), Camera::new());
    controller.set_scroll_velocity(UNIT);
    controller.apply_velocity();
    assert_eq!(controller.camera().zoom(), UNIT + UNIT / 10);
    let mut ticks = 1;
    let mut last = controller.camera().zoom();
    loop {
        let before = controller.camera();
        controller.apply_velocity();
        if controller.camera() == before {
            break;
        }
        assert!(controller.camera().zoom() > last);
        last = controller.camera().zoom();
        ticks += 1;
        assert!(ticks < 100);
    }
    // 0.7 ^ 13 is the first power below a hundredth
    assert_eq!(ticks, 13);
    controller.apply_velocity();
    assert_eq!(controller.camera().zoom(), last);
}

#[test]
fn a_velocity_at_rest_is_put_to_zero() {
    let size = px(10, 10);
    let mut controller = CameraController::new(size);
    controller.set_scroll_velocity(REST);
    controller.apply_velocity();
    assert_eq!(controller.camera(), Camera::new());
    controller.set_scroll_velocity(-REST - 1);
    controller.apply_velocity();
    assert!(controller.camera().zoom() < UNIT);
    controller.set_scroll_velocity(i64::MIN);
    controller.apply_velocity();
    controller.set_scroll_velocity(i64::MAX);
    controller.apply_velocity();
}

#[test]
fn resize_and_reset() {
    let mut controller = CameraController::new(px(800, 600));
    controller.mouse_down(true);
    controller.update(px(0, 0), px(800, 600));
    controller.scroll(3 * UNIT);
    assert!(controller.camera() != Camera::new());
    controller.resize(px(400, 400));
    assert_eq!(
        controller.screen_to_world(px(200, 200)),
        controller.camera().screen_to_world(px(200, 200), px(400, 400))
    );
    controller.reset();
    assert_eq!(controller.camera(), Camera::new());
    assert_eq!(controller.screen_to_world(px(200, 200)), WorldPos { x: 0, y: 0 });
}

#[test]
fn events_drive_the_camera() {
    let mut controller = CameraController::new(px(800, 600));
    let moved = |x, y| InputEvent::CursorMoved { position: px(x, y) };
    assert_eq!(controller.handle(moved(400, 300)), Action::Wait);
    assert_eq!(
        controller.handle(InputEvent::MouseInput { pressed: true, button: Button::Left }),
        Action::Wait
    );
    controller.handle(moved(800, 300));
    assert_eq!(controller.camera().offset(), Vec2::new(UNIT, 0));
    controller.handle(InputEvent::MouseInput { pressed: false, button: Button::Left });
    controller.handle(moved(0, 0));
    assert_eq!(controller.camera().offset(), Vec2::new(UNIT, 0));
    controller.handle(InputEvent::MouseWheel { amount: 10 * UNIT });
    assert_eq!(controller.camera().zoom(), 2 * UNIT);
    // the pointer is at (-1, 1): offset = anchor - (anchor - offset) * 2
    assert_eq!(controller.camera().offset(), Vec2::new(3 * UNIT, -UNIT));
    assert_eq!(controller.handle(InputEvent::RedrawRequested), Action::Draw);
    assert_eq!(controller.camera().zoom(), 2 * UNIT);
    assert_eq!(
        controller.handle(InputEvent::MouseInput { pressed: false, button: Button::Right }),
        Action::Wait
    );
    assert_eq!(controller.camera().zoom(), 2 * UNIT);
    controller.handle(InputEvent::MouseInput { pressed: true, button: Button::Right });
    assert_eq!(controller.camera(), Camera::new());
    assert_eq!(controller.handle(InputEvent::CloseRequested), Action::Exit);
    assert_eq!(controller.camera(), Camera::new());
}

#[test]
fn a_button_other_than_the_left_arms_no_drag() {
    let mut controller = CameraController::new(px(100, 100));
    controller.handle(InputEvent::MouseInput { pressed: true, button: Button::Other });
    controller.handle(InputEvent::CursorMoved { position: px(100, 100) });
    assert_eq!(controller.camera(), Camera::new());
    controller.handle(InputEvent::MouseInput { pressed: true, button: Button::Left });
    controller.handle(InputEvent::MouseInput { pressed: true, button: Button::Right });
    controller.handle(InputEvent::CursorMoved { position: px(50, 50) });
    assert_eq!(controller.camera(), Camera::new());
}

#[test]
fn a_screen_without_area_is_not_taken() {
    let mut controller = CameraController::new(px(800, 600));
    controller.handle(InputEvent::Resized { size: px(0, 600) });
    controller.handle(InputEvent::Resized { size: px(800, -1) });
    assert_eq!(controller.screen_to_world(px(400, 300)), WorldPos { x: 0, y: 0 });
    controller.handle(InputEvent::Resized { size: px(400, 300) });
    assert_eq!(controller.screen_to_world(px(200, 150)), WorldPos { x: 0, y: 0 });
    assert_eq!(
        controller.screen_to_world(px(400, 300)),
        WorldPos { x: UNIT as i128, y: -(UNIT as i128) }
    );
}

#[test]
fn the_matrix_scales_by_the_zoom_and_moves_by_the_offset() {
    let camera = Camera { offset: Vec2::new(5, -7), zoom: 3 * UNIT };
    assert_eq!(
        camera.matrix().cols,
        [[3 * UNIT, 0, 0, 0], [0, 3 * UNIT, 0, 0], [0, 0, UNIT, 0], [5, -7, 0, UNIT]]
    );
    let mut controller = CameraController::new(px(10, 10));
    assert_eq!(controller.matrix(), Camera::new().matrix());
    controller.scroll(10 * UNIT);
    assert_eq!(controller.matrix().cols[0], [2 * UNIT, 0, 0, 0]);
    // the matrix times (x, y, 0, 1), over the unit, is where the view shows (x, y)
    let m = camera.matrix().cols;
    let (x, y) = (123456789i128, -987654321i128);
    let shown = camera.world_to_device(Vec2::new(x as i64, y as i64));
    let unit = UNIT as i128;
    assert_eq!((m[0][0] as i128 * x + m[3][0] as i128 * unit).div_euclid(unit), shown.x);
    assert_eq!((m[1][1] as i128 * y + m[3][1] as i128 * unit).div_euclid(unit), shown.y);
}
