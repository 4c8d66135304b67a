use lumos::brightness::Backlight;
use lumos::control::Controller;
use lumos::hotkey::InputEvent;
use lumos::hotkey::is_als_toggle;
use lumos::transform::Transform;
use lumos::transition::Transition;

fn controller_at(level: u32) -> Controller {
    let transform = Transform::new(vec![-5, 20, 300, 700, 1100, 7100]).unwrap();
    let transition = Transition::new(50, 1000);
    Controller::new(transform, transition, level)
}

#[test]
fn bright_sample_drives_a_full_smoothed_cycle() {
    let mut c = controller_at(0);
    // a sample above the table asks for full brightness: a jump of a
    // whole scale, capped at 30 steps
    assert_eq!(c.begin_cycle(8000), None);
    let mut writes = Vec::new();
    while let Some(v) = c.advance() {
        writes.push(v);
    }
    assert_eq!(writes.len(), 30);
    let mut prev = 0;
    for &v in &writes {
        assert!(v >= prev && v <= 1000);
        prev = v;
    }
    assert_eq!(*writes.last().unwrap(), 998);
    assert_eq!(c.level, 998);
}

#[test]
fn repeated_sample_converges_through_the_dead_zone() {
    let mut c = controller_at(0);
    assert_eq!(c.begin_cycle(8000), None);
    while c.advance().is_some() {}
    assert_eq!(c.level, 998);
    // the residue of the eased run is inside the dead zone: the next
    // cycle applies the target directly and the level settles exactly
    assert_eq!(c.begin_cycle(8000), Some(1000));
    assert_eq!(c.level, 1000);
    assert_eq!(c.advance(), None);
}

#[test]
fn small_change_is_applied_directly() {
    let mut c = controller_at(350);
    // sample 300 maps to 400 thousandths: a jump of 50, inside the dead zone
    assert_eq!(c.begin_cycle(300), Some(400));
    assert_eq!(c.level, 400);
    assert_eq!(c.advance(), None);
}

#[test]
fn dark_sample_dims_smoothly() {
    let mut c = controller_at(1000);
    // a sample below the table asks for darkness: 30 capped steps down
    assert_eq!(c.begin_cycle(-10), None);
    let mut count = 0;
    let mut prev = 1000;
    while let Some(v) = c.advance() {
        assert!(v <= prev);
        prev = v;
        count += 1;
    }
    assert_eq!(count, 30);
}

#[test]
fn device_range_normalizes_and_denormalizes() {
    let b = Backlight::new(0, 100).unwrap();
    assert_eq!(b.get(50), 500);
    assert_eq!(b.get(0), 0);
    assert_eq!(b.get(100), 1000);
    assert_eq!(b.set(500), 50);
    assert_eq!(b.set(0), 0);
    assert_eq!(b.set(1000), 100);
}

#[test]
fn device_readings_outside_the_range_are_clamped() {
    let b = Backlight::new(200, 1200).unwrap();
    assert_eq!(b.get(150), 0);
    assert_eq!(b.get(5000), 1000);
    assert_eq!(b.get(700), 500);
    assert_eq!(b.set(250), 450);
}

#[test]
fn set_then_get_round_trips_within_one_step() {
    let b = Backlight::new(0, 3000).unwrap();
    for level in [0u32, 1, 437, 500, 999, 1000] {
        let back = b.get(b.set(level));
        assert!(back <= level);
        assert!(level - back <= 1);
    }
    // a coarse device quantizes harder, but still never overshoots
    let coarse = Backlight::new(0, 10).unwrap();
    for level in [0u32, 437, 1000] {
        let back = coarse.get(coarse.set(level));
        assert!(back <= level);
    }
}

#[test]
fn degenerate_device_range_is_rejected() {
    assert!(Backlight::new(5, 5).is_none());
    assert!(Backlight::new(10, 3).is_none());
}

#[test]
fn only_the_toggle_key_press_counts() {
    let press = InputEvent { sec: 0, usec: 0, event_type: 1, code: 560, value: 1 };
    assert!(is_als_toggle(&press));
    let release = InputEvent { value: 0, ..press };
    assert!(!is_als_toggle(&release));
    let other_key = InputEvent { code: 30, ..press };
    assert!(!is_als_toggle(&other_key));
    let not_a_key = InputEvent { event_type: 2, ..press };
    assert!(!is_als_toggle(&not_a_key));
}
