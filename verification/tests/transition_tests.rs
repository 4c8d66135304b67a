use lumos::transition::Transition;
use lumos::easing::ease;

#[test]
fn large_jump_is_capped_at_thirty_steps() {
    // A jump of 700 thousandths would ask for 70 steps; the cap is 30.
    let mut tr = Transition::new(50, 1000);
    tr.set(200, 900);
    assert_eq!(tr.steps, 30);
    let mut yielded = 0;
    while let Some(v) = tr.next() {
        assert!(v <= 1000);
        yielded += 1;
    }
    assert_eq!(yielded, 30);
    // the 31st call yields nothing: the generator is exhausted
    assert_eq!(tr.next(), None);
}

#[test]
fn dead_zone_plans_no_steps() {
    let mut tr = Transition::new(50, 1000);
    tr.set(200, 250);
    assert_eq!(tr.steps, 0);
    assert_eq!(tr.next(), None);
    // exactly at the dead-zone threshold: still no transition
    tr.set(500, 600);
    assert_eq!(tr.steps, 0);
    assert_eq!(tr.next(), None);
    // one thousandth past it: a transition is planned
    tr.set(500, 601);
    assert_eq!(tr.steps, 10);
}

#[test]
fn step_count_is_the_rounded_hundredth_of_the_jump() {
    let mut tr = Transition::new(50, 1000);
    tr.set(0, 150);
    assert_eq!(tr.steps, 15);
    tr.set(0, 294);
    assert_eq!(tr.steps, 29);
    tr.set(0, 295);
    assert_eq!(tr.steps, 30);
    tr.set(1000, 706);
    assert_eq!(tr.steps, 29);
    tr.set(1000, 0);
    assert_eq!(tr.steps, 30);
}

#[test]
fn rising_transition_yields_a_monotone_sequence() {
    let mut tr = Transition::new(50, 1000);
    tr.set(200, 900);
    let vs = tr.drain();
    assert_eq!(vs.len(), 30);
    assert_eq!(vs[0], 200);
    assert_eq!(vs[15], 550);
    assert_eq!(vs[29], 898);
    let mut prev = 200;
    for v in vs {
        assert!(v >= prev && v <= 900);
        prev = v;
    }
}

#[test]
fn falling_transition_yields_a_monotone_sequence() {
    let mut tr = Transition::new(50, 1000);
    tr.set(900, 200);
    let vs = tr.drain();
    assert_eq!(vs.len(), 30);
    assert_eq!(vs[0], 900);
    assert_eq!(vs[15], 550);
    assert_eq!(vs[29], 202);
    let mut prev = 900;
    for v in vs {
        assert!(v <= prev && v >= 200);
        prev = v;
    }
}

#[test]
fn pacing_delays_are_kept() {
    let mut tr = Transition::new(50, 1000);
    assert_eq!(tr.step_ms, 50);
    assert_eq!(tr.sleep_ms, 1000);
    tr.set(0, 1000);
    assert_eq!(tr.step_ms, 50);
    assert_eq!(tr.sleep_ms, 1000);
}

#[test]
fn easing_curve_is_an_s_shape() {
    assert_eq!(ease(0), 1);
    assert_eq!(ease(500), 500);
    assert_eq!(ease(1000), 999);
    assert_eq!(ease(250), 29);
    // symmetric around the middle and monotone
    let mut prev = 0;
    let mut t = 0;
    while t <= 1000 {
        let v = ease(t);
        assert!(v >= prev);
        assert!(1 <= v && v <= 999);
        prev = v;
        t += 1;
    }
}
