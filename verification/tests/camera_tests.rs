use hashlife::camera::Camera;
use hashlife::events::translate_key;
use hashlife::events::AppEvent;
use hashlife::events::CameraEvent;
use hashlife::events::Event;
use hashlife::world::World;

#[test]
fn empty_world_renders_blank_viewport() {
    let world = World::new("b3/s23").unwrap();
    let mut cam = Camera::new(4, 3);
    cam.draw(&world);
    let s = cam.render().to_owned();
    assert_eq!(s, "\u{2800}\u{2800}\u{2800}\u{2800}\n\u{2800}\u{2800}\u{2800}\u{2800}\n\u{2800}\u{2800}\u{2800}\u{2800}\n");
}

#[test]
fn render_is_pure() {
    let mut cam = Camera::new(5, 4);
    cam.draw_pixel(0, 0);
    cam.draw_pixel(3, 2);
    cam.draw_pixel(9, 15);
    let first = cam.render().to_owned();
    let second = cam.render().to_owned();
    assert_eq!(first, second);
}

#[test]
fn one_pixel_lights_one_dot() {
    let mut cam = Camera::new(2, 1);
    cam.draw_pixel(0, 0);
    let s = cam.render().to_owned();
    // dot (0,0) of a glyph has value 1
    assert_eq!(s, "\u{2801}\u{2800}\n");
}

#[test]
fn squares_set_and_clear_pixels() {
    let mut cam = Camera::new(2, 1);
    cam.draw_square(0, 0, 2);
    let filled = cam.render().to_owned();
    // a 2x2 square in the top-left glyph: dots 1, 8, 2 and 0x10
    assert_eq!(filled, "\u{281B}\u{2800}\n");
    cam.draw_clear_square(0, 0, 1);
    let cleared = cam.render().to_owned();
    assert_eq!(cleared, "\u{281A}\u{2800}\n");
}

#[test]
fn reset_clears_everything() {
    let mut cam = Camera::new(3, 2);
    cam.draw_square(0, 0, 6);
    cam.reset();
    let s = cam.render().to_owned();
    assert_eq!(s, "\u{2800}\u{2800}\u{2800}\n\u{2800}\u{2800}\u{2800}\n");
}

#[test]
fn drawn_world_lights_the_pattern() {
    let mut world = World::new("b3/s23").unwrap();
    for (x, y) in [(0, 0), (1, 0), (0, -1), (1, -1)] {
        world.set(x, y).unwrap();
    }
    let mut cam = Camera::new(4, 2);
    cam.draw(&world);
    let s = cam.render().to_owned();
    // some pixel must be on: the rendering is not all blanks
    assert_ne!(s, "\u{2800}\u{2800}\u{2800}\u{2800}\n\u{2800}\u{2800}\u{2800}\u{2800}\n");
}

#[test]
fn camera_dimensions_and_moves() {
    let mut cam = Camera::new(7, 5);
    assert_eq!(cam.width(), 7);
    assert_eq!(cam.height(), 5);
    cam.move_left();
    cam.move_up();
    cam.zoom_out();
    cam.zoom_in();
    cam.zoom_in();
    cam.resize(3, 2);
    assert_eq!(cam.width(), 3);
    assert_eq!(cam.height(), 2);
}

#[test]
fn keys_translate_to_events() {
    assert_eq!(translate_key('q', false), Some(Event::AppEvent(AppEvent::Exit)));
    assert_eq!(translate_key('c', true), Some(Event::AppEvent(AppEvent::Exit)));
    assert_eq!(translate_key('c', false), None);
    assert_eq!(
        translate_key('h', false),
        Some(Event::AppEvent(AppEvent::CameraEvent(CameraEvent::MoveLeft)))
    );
    assert_eq!(
        translate_key('K', false),
        Some(Event::AppEvent(AppEvent::CameraEvent(CameraEvent::ZoomIn)))
    );
    assert_eq!(translate_key('z', false), None);
}
