use vstd::prelude::*;

verus! {

/// Which steering key is currently held down.
#[derive(Clone, Copy, Debug, PartialEq, Eq, Structural)]
pub enum HeldKey {
    Released,
    A,
    D,
}

/// A keyboard key the controller presses.
#[derive(Clone, Copy, Debug, PartialEq, Eq, Structural)]
pub enum Key {
    A,
    D,
    Space,
}

/// One synthetic keyboard event.
#[derive(Clone, Copy, Debug, PartialEq, Eq, Structural)]
pub enum KeyEvent {
    Down(Key),
    Up(Key),
}

/// Windows virtual-key code of a key.
pub open spec fn spec_virtual_key(k: Key) -> u16 {
    match k {
        Key::A => 0x41,
        Key::D => 0x44,
        Key::Space => 0x20,
    }
}

/// Windows virtual-key code of a key.
pub fn virtual_key(k: Key) -> (code: u16)
    ensures
        code == spec_virtual_key(k),
{
    match k {
        Key::A => 0x41,
        Key::D => 0x44,
        Key::Space => 0x20,
    }
}

/// Key-up events that release `held`; with `force_all` and nothing held,
/// both steering keys are released anyway.
pub open spec fn release_events(held: HeldKey, force_all: bool) -> Seq<KeyEvent> {
    match held {
        HeldKey::A => seq![KeyEvent::Up(Key::A)],
        HeldKey::D => seq![KeyEvent::Up(Key::D)],
        HeldKey::Released => if force_all {
            seq![KeyEvent::Up(Key::A), KeyEvent::Up(Key::D)]
        } else {
            Seq::empty()
        },
    }
}

/// Key-down events that start holding `key`.
pub open spec fn press_events(key: HeldKey) -> Seq<KeyEvent> {
    match key {
        HeldKey::A => seq![KeyEvent::Down(Key::A)],
        HeldKey::D => seq![KeyEvent::Down(Key::D)],
        HeldKey::Released => Seq::empty(),
    }
}

/// Events that switch from holding `held` to holding `key`: nothing when
/// they are the same, else release the old key and press the new one.
pub open spec fn hold_events(held: HeldKey, key: HeldKey) -> Seq<KeyEvent> {
    if held == key {
        Seq::empty()
    } else {
        release_events(held, false) + press_events(key)
    }
}

/// Release whatever is held (both steering keys if `force_all`); returns
/// the events to send, in order, and leaves nothing held.
pub fn release_keys(held: &mut HeldKey, force_all: bool) -> (events: Vec<KeyEvent>)
    ensures
        *final(held) == HeldKey::Released,
        events@ == release_events(*old(held), force_all),
{
    let mut events: Vec<KeyEvent> = Vec::new();
    match *held {
        HeldKey::A => events.push(KeyEvent::Up(Key::A)),
        HeldKey::D => events.push(KeyEvent::Up(Key::D)),
        HeldKey::Released => {
            if force_all {
                events.push(KeyEvent::Up(Key::A));
                events.push(KeyEvent::Up(Key::D));
            }
        },
    }
    *held = HeldKey::Released;
    events
}

/// Hold `key` instead of what is held now; returns the events to send,
/// in order, and leaves `key` held.
pub fn hold_key(held: &mut HeldKey, key: HeldKey) -> (events: Vec<KeyEvent>)
    ensures
        *final(held) == key,
        events@ == hold_events(*old(held), key),
{
    if *held == key {
        return Vec::new();
    }
    let mut events = release_keys(held, false);
    match key {
        HeldKey::A => events.push(KeyEvent::Down(Key::A)),
        HeldKey::D => events.push(KeyEvent::Down(Key::D)),
        HeldKey::Released => {},
    }
    *held = key;
    events
}


/// Where the steering error stands against the controller's thresholds.
/// `switch` is the zone past which a held key is reversed, `release` the
/// zone inside which a held key is let go, `dead` the zone inside which
/// nothing is pressed from rest.
#[derive(Clone, Copy, Debug, PartialEq, Eq)]
pub struct SteerReading {
    /// error > switch zone
    pub above_switch: bool,
    /// error < -switch zone
    pub below_switch: bool,
    /// error > release zone
    pub above_release: bool,
    /// error < -release zone
    pub below_release: bool,
    /// error > dead zone
    pub above_dead: bool,
    /// error < -dead zone
    pub below_dead: bool,
}

/// The key to hold next, given the key held now and the error reading.
pub open spec fn steer_target(held: HeldKey, reading: SteerReading) -> HeldKey {
    match held {
        HeldKey::D => if reading.below_switch {
            HeldKey::A
        } else if reading.above_release {
            HeldKey::D
        } else {
            HeldKey::Released
        },
        HeldKey::A => if reading.above_switch {
            HeldKey::D
        } else if reading.below_release {
            HeldKey::A
        } else {
            HeldKey::Released
        },
        HeldKey::Released => if reading.above_dead {
            HeldKey::D
        } else if reading.below_dead {
            HeldKey::A
        } else {
            HeldKey::Released
        },
    }
}

/// The action letter reported for holding `key`: `'A'`, `'D'` or `'-'`.
pub open spec fn action_char(key: HeldKey) -> char {
    match key {
        HeldKey::A => 'A',
        HeldKey::D => 'D',
        HeldKey::Released => '-',
    }
}

/// One steering decision with hysteresis: returns the action letter and
/// the key events to send, and updates the held key.
pub fn steer_decide(held: &mut HeldKey, reading: SteerReading) -> (r: (char, Vec<KeyEvent>))
    ensures
        *final(held) == steer_target(*old(held), reading),
        r.0 == action_char(steer_target(*old(held), reading)),
        r.1@ == hold_events(*old(held), steer_target(*old(held), reading)),
{
    match *held {
        HeldKey::D => {
            if reading.below_switch {
                ('A', hold_key(held, HeldKey::A))
            } else if reading.above_release {
                ('D', Vec::new())
            } else {
                ('-', release_keys(held, false))
            }
        },
        HeldKey::A => {
            if reading.above_switch {
                ('D', hold_key(held, HeldKey::D))
            } else if reading.below_release {
                ('A', Vec::new())
            } else {
                ('-', release_keys(held, false))
            }
        },
        HeldKey::Released => {
            if reading.above_dead {
                ('D', hold_key(held, HeldKey::D))
            } else if reading.below_dead {
                ('A', hold_key(held, HeldKey::A))
            } else {
                ('-', Vec::new())
            }
        },
    }
}

/// Holding a key that is already held sends nothing, and after any hold
/// the key is held: holding the same key twice in a row sends events at
/// most once.
pub proof fn lemma_hold_idempotent(held: HeldKey, key: HeldKey)
    ensures
        hold_events(key, key) == Seq::<KeyEvent>::empty(),
        held != key && key != HeldKey::Released ==> hold_events(held, key).last() == KeyEvent::Down(
            match key {
                HeldKey::A => Key::A,
                _ => Key::D,
            },
        ),
{
}

/// A hold presses at most one key, and only after releasing the old one:
/// at no point are both steering keys down.
pub proof fn lemma_hold_one_key_down(held: HeldKey, key: HeldKey)
    ensures
        ({
            let ev = hold_events(held, key);
            &&& forall|i: int, j: int| 0 <= i < ev.len() && 0 <= j < ev.len()
                && #[trigger] ev[i] is Down && #[trigger] ev[j] is Down ==> i == j
            &&& forall|i: int, j: int| 0 <= i < j < ev.len() && #[trigger] ev[i] is Down ==> !(#[trigger] ev[j] is Up)
            &&& ev.len() <= 2
        }),
{
    let ev = hold_events(held, key);
    if held != key {
        assert(ev == release_events(held, false) + press_events(key));
    }
}

/// Releasing twice without forcing sends events only the first time.
pub proof fn lemma_release_idempotent(held: HeldKey, force_all: bool)
    ensures
        release_events(HeldKey::Released, false) == Seq::<KeyEvent>::empty(),
        held != HeldKey::Released ==> release_events(held, force_all).len() == 1,
{
}

/// The reported action always names the key left held, and a decision
/// sends a key-up for a key only while it was held, and a key-down only
/// for the key left held.
pub proof fn lemma_steer_consistent(held: HeldKey, reading: SteerReading)
    ensures
        ({
            let t = steer_target(held, reading);
            let ev = hold_events(held, t);
            &&& (action_char(t) == 'A') == (t == HeldKey::A)
            &&& (action_char(t) == 'D') == (t == HeldKey::D)
            &&& (action_char(t) == '-') == (t == HeldKey::Released)
            &&& forall|i: int| 0 <= i < ev.len() ==> (#[trigger] ev[i] matches KeyEvent::Up(k) ==> (
                (k == Key::A && held == HeldKey::A) || (k == Key::D && held == HeldKey::D)))
            &&& forall|i: int| 0 <= i < ev.len() ==> (#[trigger] ev[i] matches KeyEvent::Down(k) ==> (
                (k == Key::A && t == HeldKey::A) || (k == Key::D && t == HeldKey::D)))
        }),
{
    let t = steer_target(held, reading);
    let ev = hold_events(held, t);
    assert(forall|i: int| 0 <= i < ev.len() ==> (#[trigger] ev[i] matches KeyEvent::Up(k) ==> (
                (k == Key::A && held == HeldKey::A) || (k == Key::D && held == HeldKey::D)))) by {
        if held != t {
            assert(ev == release_events(held, false) + press_events(t));
        }
    }
}


/// The steering table with hysteresis. Holding D: below the switch zone
/// reverses to A; otherwise D stays held while the error is above the
/// release zone, and is let go (action `-`, one key-up) inside it.
/// Holding A is the mirror image. From rest, D is pressed above the dead
/// zone, else A below it, else nothing happens.
pub proof fn lemma_steer_table(held: HeldKey, reading: SteerReading)
    ensures
        ({
            let t = steer_target(held, reading);
            let ev = hold_events(held, t);
            let c = action_char(t);
            &&& held == HeldKey::D && reading.below_switch ==> t == HeldKey::A && c == 'A'
                && ev == seq![KeyEvent::Up(Key::D), KeyEvent::Down(Key::A)]
            &&& held == HeldKey::D && !reading.below_switch && reading.above_release ==> t == HeldKey::D && c == 'D'
                && ev == Seq::<KeyEvent>::empty()
            &&& held == HeldKey::D && !reading.below_switch && !reading.above_release ==> t == HeldKey::Released && c == '-'
                && ev == seq![KeyEvent::Up(Key::D)]
            &&& held == HeldKey::A && reading.above_switch ==> t == HeldKey::D && c == 'D'
                && ev == seq![KeyEvent::Up(Key::A), KeyEvent::Down(Key::D)]
            &&& held == HeldKey::A && !reading.above_switch && reading.below_release ==> t == HeldKey::A && c == 'A'
                && ev == Seq::<KeyEvent>::empty()
            &&& held == HeldKey::A && !reading.above_switch && !reading.below_release ==> t == HeldKey::Released && c == '-'
                && ev == seq![KeyEvent::Up(Key::A)]
            &&& held == HeldKey::Released && reading.above_dead ==> t == HeldKey::D && c == 'D'
                && ev == seq![KeyEvent::Down(Key::D)]
            &&& held == HeldKey::Released && !reading.above_dead && reading.below_dead ==> t == HeldKey::A && c == 'A'
                && ev == seq![KeyEvent::Down(Key::A)]
            &&& held == HeldKey::Released && !reading.above_dead && !reading.below_dead ==> t == HeldKey::Released
                && c == '-' && ev == Seq::<KeyEvent>::empty()
        }),
{
    let t = steer_target(held, reading);
    if held != t {
        assert(hold_events(held, t) == release_events(held, false) + press_events(t));
    }
    assert(seq![KeyEvent::Up(Key::D)] + seq![KeyEvent::Down(Key::A)] =~= seq![KeyEvent::Up(Key::D), KeyEvent::Down(Key::A)]);
    assert(seq![KeyEvent::Up(Key::A)] + seq![KeyEvent::Down(Key::D)] =~= seq![KeyEvent::Up(Key::A), KeyEvent::Down(Key::D)]);
    assert(seq![KeyEvent::Up(Key::D)] + Seq::<KeyEvent>::empty() =~= seq![KeyEvent::Up(Key::D)]);
    assert(seq![KeyEvent::Up(Key::A)] + Seq::<KeyEvent>::empty() =~= seq![KeyEvent::Up(Key::A)]);
    assert(Seq::<KeyEvent>::empty() + seq![KeyEvent::Down(Key::D)] =~= seq![KeyEvent::Down(Key::D)]);
    assert(Seq::<KeyEvent>::empty() + seq![KeyEvent::Down(Key::A)] =~= seq![KeyEvent::Down(Key::A)]);
}


/// The release table: a held key is released with one key-up; with
/// nothing held, nothing is sent unless all keys are forced up, which
/// sends key-up for A then D. No key-down is ever sent.
pub proof fn lemma_release_table(held: HeldKey, force_all: bool)
    ensures
        held == HeldKey::A ==> release_events(held, force_all) == seq![KeyEvent::Up(Key::A)],
        held == HeldKey::D ==> release_events(held, force_all) == seq![KeyEvent::Up(Key::D)],
        held == HeldKey::Released && !force_all ==> release_events(held, force_all) == Seq::<KeyEvent>::empty(),
        held == HeldKey::Released && force_all ==> release_events(held, force_all)
            == seq![KeyEvent::Up(Key::A), KeyEvent::Up(Key::D)],
        forall|i: int| 0 <= i < release_events(held, force_all).len() ==> #[trigger] release_events(held, force_all)[i] is Up,
{
}

/// The hold table: switching from one steering key to the other sends
/// key-up for the old key then key-down for the new one; from rest only
/// the key-down; to rest only the key-up; nothing when unchanged.
pub proof fn lemma_hold_table(held: HeldKey, key: HeldKey)
    ensures
        held == key ==> hold_events(held, key) == Seq::<KeyEvent>::empty(),
        held == HeldKey::A && key == HeldKey::D ==> hold_events(held, key) == seq![KeyEvent::Up(Key::A), KeyEvent::Down(Key::D)],
        held == HeldKey::D && key == HeldKey::A ==> hold_events(held, key) == seq![KeyEvent::Up(Key::D), KeyEvent::Down(Key::A)],
        held == HeldKey::Released && key == HeldKey::A ==> hold_events(held, key) == seq![KeyEvent::Down(Key::A)],
        held == HeldKey::Released && key == HeldKey::D ==> hold_events(held, key) == seq![KeyEvent::Down(Key::D)],
        held == HeldKey::A && key == HeldKey::Released ==> hold_events(held, key) == seq![KeyEvent::Up(Key::A)],
        held == HeldKey::D && key == HeldKey::Released ==> hold_events(held, key) == seq![KeyEvent::Up(Key::D)],
{
    assert(seq![KeyEvent::Up(Key::D)] + seq![KeyEvent::Down(Key::A)] =~= seq![KeyEvent::Up(Key::D), KeyEvent::Down(Key::A)]);
    assert(seq![KeyEvent::Up(Key::A)] + seq![KeyEvent::Down(Key::D)] =~= seq![KeyEvent::Up(Key::A), KeyEvent::Down(Key::D)]);
    assert(seq![KeyEvent::Up(Key::D)] + Seq::<KeyEvent>::empty() =~= seq![KeyEvent::Up(Key::D)]);
    assert(seq![KeyEvent::Up(Key::A)] + Seq::<KeyEvent>::empty() =~= seq![KeyEvent::Up(Key::A)]);
    assert(Seq::<KeyEvent>::empty() + seq![KeyEvent::Down(Key::D)] =~= seq![KeyEvent::Down(Key::D)]);
    assert(Seq::<KeyEvent>::empty() + seq![KeyEvent::Down(Key::A)] =~= seq![KeyEvent::Down(Key::A)]);
}

/// Distinct keys have distinct virtual-key codes: A is 0x41, D is 0x44
/// and space is 0x20.
pub proof fn lemma_virtual_keys(k1: Key, k2: Key)
    ensures
        k1 != k2 ==> spec_virtual_key(k1) != spec_virtual_key(k2),
        spec_virtual_key(Key::A) == 0x41u16,
        spec_virtual_key(Key::D) == 0x44u16,
        spec_virtual_key(Key::Space) == 0x20u16,
{
}

} // verus!
