use boot_catcher::keys::{
    hold_key, release_keys, steer_decide, virtual_key, HeldKey, Key, KeyEvent, SteerReading,
};

fn reading(error: f32, deadzone: f32) -> SteerReading {
    let switch_zone = deadzone * 1.45;
    let release_zone = deadzone * 0.55;
    SteerReading {
        above_switch: error > switch_zone,
        below_switch: error < -switch_zone,
        above_release: error > release_zone,
        below_release: error < -release_zone,
        above_dead: error > deadzone,
        below_dead: error < -deadzone,
    }
}

#[test]
fn virtual_key_codes() {
    assert_eq!(virtual_key(Key::A), 0x41);
    assert_eq!(virtual_key(Key::D), 0x44);
    assert_eq!(virtual_key(Key::Space), 0x20);
}

#[test]
fn release_sends_key_up_for_held_key() {
    let mut held = HeldKey::A;
    assert_eq!(release_keys(&mut held, false), vec![KeyEvent::Up(Key::A)]);
    assert_eq!(held, HeldKey::Released);
    let mut held = HeldKey::D;
    assert_eq!(release_keys(&mut held, true), vec![KeyEvent::Up(Key::D)]);
    assert_eq!(held, HeldKey::Released);
}

#[test]
fn release_nothing_held() {
    let mut held = HeldKey::Released;
    assert_eq!(release_keys(&mut held, false), vec![]);
    assert_eq!(release_keys(&mut held, true), vec![KeyEvent::Up(Key::A), KeyEvent::Up(Key::D)]);
    assert_eq!(held, HeldKey::Released);
}

#[test]
fn hold_switches_keys() {
    let mut held = HeldKey::Released;
    assert_eq!(hold_key(&mut held, HeldKey::D), vec![KeyEvent::Down(Key::D)]);
    assert_eq!(held, HeldKey::D);
    assert_eq!(hold_key(&mut held, HeldKey::A), vec![KeyEvent::Up(Key::D), KeyEvent::Down(Key::A)]);
    assert_eq!(held, HeldKey::A);
    assert_eq!(hold_key(&mut held, HeldKey::Released), vec![KeyEvent::Up(Key::A)]);
    assert_eq!(held, HeldKey::Released);
}

#[test]
fn hold_same_key_twice_sends_once() {
    let mut held = HeldKey::Released;
    assert_eq!(hold_key(&mut held, HeldKey::A), vec![KeyEvent::Down(Key::A)]);
    assert_eq!(hold_key(&mut held, HeldKey::A), vec![]);
    assert_eq!(held, HeldKey::A);
}

#[test]
fn steer_from_rest() {
    let mut held = HeldKey::Released;
    let (c, ev) = steer_decide(&mut held, reading(10.0, 18.0));
    assert_eq!((c, ev), ('-', vec![]));
    assert_eq!(held, HeldKey::Released);
    let (c, ev) = steer_decide(&mut held, reading(20.0, 18.0));
    assert_eq!((c, ev), ('D', vec![KeyEvent::Down(Key::D)]));
    assert_eq!(held, HeldKey::D);
    let mut held = HeldKey::Released;
    let (c, ev) = steer_decide(&mut held, reading(-20.0, 18.0));
    assert_eq!((c, ev), ('A', vec![KeyEvent::Down(Key::A)]));
    assert_eq!(held, HeldKey::A);
}

#[test]
fn steer_hysteresis_while_holding_d() {
    // release zone 9.9, switch zone 26.1
    let mut held = HeldKey::D;
    let (c, ev) = steer_decide(&mut held, reading(12.0, 18.0));
    assert_eq!((c, ev), ('D', vec![]));
    assert_eq!(held, HeldKey::D);
    let (c, ev) = steer_decide(&mut held, reading(-20.0, 18.0));
    assert_eq!((c, ev), ('-', vec![KeyEvent::Up(Key::D)]));
    assert_eq!(held, HeldKey::Released);
    let mut held = HeldKey::D;
    let (c, ev) = steer_decide(&mut held, reading(-30.0, 18.0));
    assert_eq!((c, ev), ('A', vec![KeyEvent::Up(Key::D), KeyEvent::Down(Key::A)]));
    assert_eq!(held, HeldKey::A);
}

#[test]
fn steer_hysteresis_while_holding_a() {
    let mut held = HeldKey::A;
    let (c, ev) = steer_decide(&mut held, reading(-12.0, 18.0));
    assert_eq!((c, ev), ('A', vec![]));
    let (c, ev) = steer_decide(&mut held, reading(20.0, 18.0));
    assert_eq!((c, ev), ('-', vec![KeyEvent::Up(Key::A)]));
    let mut held = HeldKey::A;
    let (c, ev) = steer_decide(&mut held, reading(30.0, 18.0));
    assert_eq!((c, ev), ('D', vec![KeyEvent::Up(Key::A), KeyEvent::Down(Key::D)]));
    assert_eq!(held, HeldKey::D);
}
