use bit_templates::ui::Ui;
use bit_templates::world::{World, BACKGROUND_COLOUR, BALL_COLOUR, HEIGHT, RADIUS, WIDTH};

fn state(world: &World) -> (i32, i32, i32, i32) {
    (world.x(), world.y(), world.vx(), world.vy())
}

#[test]
fn the_ball_starts_moving_up_and_left() {
    assert_eq!(state(&World::new()), (70, 50, -1, -1));
}

#[test]
fn a_step_moves_the_ball_by_its_velocity() {
    let mut world = World::new();
    world.update();
    assert_eq!(state(&world), (69, 49, -1, -1));
}

#[test]
fn the_ball_turns_one_step_after_it_reaches_over_the_top() {
    let mut world = World::new();
    for _ in 0..17 {
        world.update();
    }
    assert_eq!(state(&world), (53, 33, -1, -1));
    world.update();
    assert_eq!(state(&world), (52, 32, -1, -1));
    world.update();
    assert_eq!(state(&world), (51, 33, -1, 1));
}

#[test]
fn the_ball_turns_at_the_left_edge() {
    let mut world = World::new();
    for _ in 0..38 {
        world.update();
    }
    assert_eq!((world.x(), world.vx()), (32, -1));
    world.update();
    assert_eq!((world.x(), world.vx()), (33, 1));
}

#[test]
fn the_ball_stays_in_the_frame() {
    let mut world = World::new();
    let mut leftmost = i32::MAX;
    let mut rightmost = i32::MIN;
    let mut highest = i32::MAX;
    let mut lowest = i32::MIN;
    for _ in 0..5000 {
        world.update();
        leftmost = leftmost.min(world.x());
        rightmost = rightmost.max(world.x());
        highest = highest.min(world.y());
        lowest = lowest.max(world.y());
        assert!(world.vx() == 1 || world.vx() == -1);
        assert!(world.vy() == 1 || world.vy() == -1);
    }
    assert_eq!(leftmost, RADIUS - 1);
    assert_eq!(rightmost, WIDTH as i32 - RADIUS + 1);
    assert_eq!(highest, RADIUS - 1);
    assert_eq!(lowest, HEIGHT as i32 - RADIUS + 1);
}

fn pixel(frame: &[u8], x: usize, y: usize) -> [u8; 4] {
    let at = 4 * (y * WIDTH as usize + x);
    [frame[at], frame[at + 1], frame[at + 2], frame[at + 3]]
}

#[test]
fn the_picture_shows_a_disc_on_a_background() {
    let world = World::new();
    let mut frame = vec![0u8; 4 * (WIDTH * HEIGHT) as usize];
    world.draw(&mut frame);
    assert_eq!(BALL_COLOUR, [0x03, 0x73, 0xa4, 0xff]);
    assert_eq!(BACKGROUND_COLOUR, [0xe8, 0xd3, 0xb9, 0xff]);
    assert_eq!(pixel(&frame, 70, 50), BALL_COLOUR);
    assert_eq!(pixel(&frame, 70 + 33, 50), BALL_COLOUR);
    assert_eq!(pixel(&frame, 70 + 34, 50), BACKGROUND_COLOUR);
    assert_eq!(pixel(&frame, 70, 50 - 33), BALL_COLOUR);
    assert_eq!(pixel(&frame, 70 - 33, 50 - 1), BACKGROUND_COLOUR);
    assert_eq!(pixel(&frame, 70 - 23, 50 - 23), BALL_COLOUR);
    assert_eq!(pixel(&frame, 70 - 24, 50 - 23), BACKGROUND_COLOUR);
    assert_eq!(pixel(&frame, 0, 0), BACKGROUND_COLOUR);
    assert_eq!(pixel(&frame, 639, 479), BACKGROUND_COLOUR);
}

#[test]
fn every_pixel_is_coloured_by_its_distance_to_the_centre() {
    let mut world = World::new();
    for _ in 0..123 {
        world.update();
    }
    let mut frame = vec![0u8; 4 * (WIDTH * HEIGHT) as usize];
    world.draw(&mut frame);
    let mut covered = 0;
    for y in 0..HEIGHT as i32 {
        for x in 0..WIDTH as i32 {
            let inside = (x - world.x()).pow(2) + (y - world.y()).pow(2) <= RADIUS.pow(2);
            let expected = if inside { BALL_COLOUR } else { BACKGROUND_COLOUR };
            assert_eq!(pixel(&frame, x as usize, y as usize), expected);
            covered += inside as u32;
        }
    }
    assert_eq!(covered, 3409);
}

#[test]
fn bytes_that_make_up_no_pixel_are_left_alone() {
    let world = World::new();
    let mut frame = vec![7u8; 11];
    world.draw(&mut frame);
    assert_eq!(frame, [0xe8, 0xd3, 0xb9, 0xff, 0xe8, 0xd3, 0xb9, 0xff, 7, 7, 7]);
    let mut empty: Vec<u8> = Vec::new();
    world.draw(&mut empty);
    assert!(empty.is_empty());
}

#[test]
fn a_frame_longer_than_the_screen_has_only_background_below() {
    let world = World::new();
    let rows = HEIGHT as usize + 100;
    let mut frame = vec![0u8; 4 * WIDTH as usize * rows];
    world.draw(&mut frame);
    for x in 0..WIDTH as usize {
        assert_eq!(pixel(&frame, x, rows - 1), BACKGROUND_COLOUR);
    }
}

#[test]
fn the_window_starts_open_and_a_click_toggles_it() {
    let mut ui = Ui::new();
    assert!(ui.window_open);
    ui.toggle_window();
    assert!(!ui.window_open);
    ui.toggle_window();
    assert!(ui.window_open);
}

#[test]
fn a_surface_needs_both_a_width_and_a_height() {
    use_has_area();
}

fn use_has_area() {
    assert!(bit_templates::ui::has_area(1, 1));
    assert!(bit_templates::ui::has_area(640, 480));
    assert!(!bit_templates::ui::has_area(0, 480));
    assert!(!bit_templates::ui::has_area(640, 0));
    assert!(!bit_templates::ui::has_area(0, 0));
}
