//! What the keys do.

use vstd::prelude::*;

verus! {

/// A key, by what it stands for on the keyboard's layout.
pub enum Key {
    Escape,
    Space,
    Character(String),
    Other,
}

/// Whether a key closes the window when it is pressed.
pub open spec fn is_close_key(key: Key) -> bool {
    match key {
        Key::Escape => true,
        Key::Character(c) => c@ == seq!['q'] || c@ == seq!['Q'],
        _ => false,
    }
}

/// The one character that a key stands for.
pub open spec fn is_char(key: Key, c: char) -> bool {
    key matches Key::Character(s) && s@ == seq![c]
}

/// Whether a key stands for a letter, in either case.
pub open spec fn is_letter(key: Key, lower: char, upper: char) -> bool {
    is_char(key, lower) || is_char(key, upper)
}

/// The one character of a text that has just one.
fn only_char(text: &str) -> (c: Option<char>)
    ensures
        match c {
            Some(c) => text@ == seq![c],
            None => text@.len() != 1,
        },
{
    if text.unicode_len() == 1 {
        let c: char = text.get_char(0);
        assert(text@ =~= seq![c]);
        Some(c)
    } else {
        None
    }
}

/// Tracks which movement keys are currently held.
#[derive(Clone, Copy, Debug, PartialEq, Eq, Structural)]
pub struct KeysHeld {
    pub w: bool,
    pub a: bool,
    pub s: bool,
    pub d: bool,
    pub space: bool,
    pub c: bool,
}

impl Default for KeysHeld {
    /// No key is held.
    fn default() -> (keys: Self)
        ensures
            keys == (KeysHeld { w: false, a: false, s: false, d: false, space: false, c: false }),
    {
        KeysHeld { w: false, a: false, s: false, d: false, space: false, c: false }
    }
}

/// The keys held after one has been pressed or released.
pub open spec fn keys_after(keys: KeysHeld, key: Key, pressed: bool) -> KeysHeld {
    if is_letter(key, 'w', 'W') {
        KeysHeld { w: pressed, ..keys }
    } else if is_letter(key, 'a', 'A') {
        KeysHeld { a: pressed, ..keys }
    } else if is_letter(key, 's', 'S') {
        KeysHeld { s: pressed, ..keys }
    } else if is_letter(key, 'd', 'D') {
        KeysHeld { d: pressed, ..keys }
    } else if is_letter(key, 'c', 'C') {
        KeysHeld { c: pressed, ..keys }
    } else if key is Space {
        KeysHeld { space: pressed, ..keys }
    } else {
        keys
    }
}

/// A step that the camera takes in a frame.
#[derive(Clone, Copy, Debug, PartialEq, Eq, Structural)]
pub enum Move {
    Forward,
    Backward,
    Left,
    Right,
    Up,
    Down,
}

/// A step, if its key is held.
pub open spec fn step_if(held: bool, step: Move) -> Seq<Move> {
    if held {
        seq![step]
    } else {
        Seq::empty()
    }
}

/// The steps that the camera takes in a frame, in order.
pub open spec fn moves_of(keys: KeysHeld) -> Seq<Move> {
    step_if(keys.w, Move::Forward) + step_if(keys.s, Move::Backward) + step_if(keys.a, Move::Left)
        + step_if(keys.d, Move::Right) + step_if(keys.space, Move::Up) + step_if(
        keys.c,
        Move::Down,
    )
}

impl KeysHeld {
    /// The steps that the camera takes in a frame, in order.
    pub fn moves(&self) -> (moves: Vec<Move>)
        ensures
            moves@ == moves_of(*self),
            moves@.contains(Move::Forward) <==> self.w,
            moves@.contains(Move::Backward) <==> self.s,
            moves@.contains(Move::Left) <==> self.a,
            moves@.contains(Move::Right) <==> self.d,
            moves@.contains(Move::Up) <==> self.space,
            moves@.contains(Move::Down) <==> self.c,
    {
        let mut moves: Vec<Move> = Vec::new();
        if self.w {
            moves.push(Move::Forward);
        }
        if self.s {
            moves.push(Move::Backward);
        }
        if self.a {
            moves.push(Move::Left);
        }
        if self.d {
            moves.push(Move::Right);
        }
        if self.space {
            moves.push(Move::Up);
        }
        if self.c {
            moves.push(Move::Down);
        }
        assert(moves@ =~= moves_of(*self));
        proof {
            law_moves_follow_keys(*self);
        }
        moves
    }
}

/// What to do after an event.
#[derive(Clone, Copy, Debug, PartialEq, Eq, Structural)]
pub enum AfterEvent {
    Exit,
    Redraw,
}

/// What has been asked for by keys and by closing the window.
#[derive(Clone, Copy, Debug, PartialEq, Eq, Structural)]
pub struct Input {
    pub keys_held: KeysHeld,
    pub close_requested: bool,
}

impl Input {
    /// Nothing has been asked for.
    pub fn new() -> (input: Self)
        ensures
            !input.close_requested,
            input.keys_held == (KeysHeld {
                w: false,
                a: false,
                s: false,
                d: false,
                space: false,
                c: false,
            }),
    {
        Input { keys_held: KeysHeld::default(), close_requested: false }
    }

    /// A key has been pressed or released. Escape and Q close the window when
    /// pressed; the others move the camera while held.
    pub fn key(&mut self, key: &Key, pressed: bool)
        ensures
            final(self).close_requested == (old(self).close_requested || (pressed && is_close_key(
                *key,
            ))),
            final(self).keys_held == keys_after(old(self).keys_held, *key, pressed),
            final(self).keys_held.w == (if *key matches Key::Character(t) && (t@ == seq!['w'] || t@ == seq![
                'W',
            ]) {
                pressed
            } else {
                old(self).keys_held.w
            }),
            final(self).keys_held.a == (if *key matches Key::Character(t) && (t@ == seq!['a'] || t@ == seq![
                'A',
            ]) {
                pressed
            } else {
                old(self).keys_held.a
            }),
            final(self).keys_held.s == (if *key matches Key::Character(t) && (t@ == seq!['s'] || t@ == seq![
                'S',
            ]) {
                pressed
            } else {
                old(self).keys_held.s
            }),
            final(self).keys_held.d == (if *key matches Key::Character(t) && (t@ == seq!['d'] || t@ == seq![
                'D',
            ]) {
                pressed
            } else {
                old(self).keys_held.d
            }),
            final(self).keys_held.c == (if *key matches Key::Character(t) && (t@ == seq!['c'] || t@ == seq![
                'C',
            ]) {
                pressed
            } else {
                old(self).keys_held.c
            }),
            final(self).keys_held.space == (if *key is Space {
                pressed
            } else {
                old(self).keys_held.space
            }),
            pressed && (*key is Escape || (*key matches Key::Character(t) && (t@ == seq!['q'] || t@
                == seq!['Q']))) ==> final(self).close_requested,
            !pressed ==> final(self).close_requested == old(self).close_requested,
    {
        match key {
            Key::Escape => {
                if pressed {
                    self.close_requested = true;
                }
            },
            Key::Space => {
                self.keys_held.space = pressed;
            },
            Key::Character(text) => {
                let c: Option<char> = only_char(text.as_str());
                proof {
                    lemma_one_char(text@);
                }
                match c {
                    Some(c) => {
                        if c == 'w' || c == 'W' {
                            self.keys_held.w = pressed;
                        } else if c == 'a' || c == 'A' {
                            self.keys_held.a = pressed;
                        } else if c == 's' || c == 'S' {
                            self.keys_held.s = pressed;
                        } else if c == 'd' || c == 'D' {
                            self.keys_held.d = pressed;
                        } else if c == 'c' || c == 'C' {
                            self.keys_held.c = pressed;
                        } else if c == 'q' || c == 'Q' {
                            if pressed {
                                self.close_requested = true;
                            }
                        }
                    },
                    None => {},
                }
            },
            Key::Other => {},
        }
    }

    /// A key has been pressed or released where keys do not move the camera.
    pub fn close_key(&mut self, key: &Key, pressed: bool)
        ensures
            final(self).close_requested == (old(self).close_requested || (pressed && is_close_key(
                *key,
            ))),
            final(self).keys_held == old(self).keys_held,
    {
        let keys_held: KeysHeld = self.keys_held;
        self.key(key, pressed);
        self.keys_held = keys_held;
    }

    /// The window is to be closed.
    pub fn close(&mut self)
        ensures
            final(self).close_requested,
            final(self).keys_held == old(self).keys_held,
    {
        self.close_requested = true;
    }

    /// What to do after an event.
    pub fn after_event(&self) -> (after: AfterEvent)
        ensures
            after == if self.close_requested {
                AfterEvent::Exit
            } else {
                AfterEvent::Redraw
            },
    {
        if self.close_requested {
            AfterEvent::Exit
        } else {
            AfterEvent::Redraw
        }
    }
}

proof fn lemma_one_char(text: Seq<char>)
    ensures
        forall|c: char| text == #[trigger] seq![c] ==> text.len() == 1 && text[0] == c,
{
}

/// Pressing a key and releasing it leaves the other keys as they were, and that
/// key released.
pub proof fn law_release_undoes_press(keys: KeysHeld, key: Key)
    ensures
        keys_after(keys_after(keys, key, true), key, false) == keys_after(keys, key, false),
{
}

/// A letter key in either case, or the space key, sets the flag of its own
/// movement to whether it is pressed; every other flag stays as it was.
pub proof fn law_key_sets_its_flag(keys: KeysHeld, key: Key, pressed: bool)
    ensures
        keys_after(keys, key, pressed).w == (if key matches Key::Character(t) && (t@ == seq!['w'] || t@ == seq![
            'W',
        ]) {
            pressed
        } else {
            keys.w
        }),
        keys_after(keys, key, pressed).a == (if key matches Key::Character(t) && (t@ == seq!['a'] || t@ == seq![
            'A',
        ]) {
            pressed
        } else {
            keys.a
        }),
        keys_after(keys, key, pressed).s == (if key matches Key::Character(t) && (t@ == seq!['s'] || t@ == seq![
            'S',
        ]) {
            pressed
        } else {
            keys.s
        }),
        keys_after(keys, key, pressed).d == (if key matches Key::Character(t) && (t@ == seq!['d'] || t@ == seq![
            'D',
        ]) {
            pressed
        } else {
            keys.d
        }),
        keys_after(keys, key, pressed).c == (if key matches Key::Character(t) && (t@ == seq!['c'] || t@ == seq![
            'C',
        ]) {
            pressed
        } else {
            keys.c
        }),
        keys_after(keys, key, pressed).space == (if key is Space {
            pressed
        } else {
            keys.space
        }),
{
    if let Key::Character(t) = key {
        lemma_one_char(t@);
    }
}

/// Escape and the letter Q in either case close the window, and no other key.
pub proof fn law_close_keys(key: Key)
    ensures
        is_close_key(key) <==> key is Escape || (key matches Key::Character(t) && t@.len() == 1 && (
        t@[0] == 'q' || t@[0] == 'Q')),
{
    if let Key::Character(t) = key {
        if t@.len() == 1 {
            assert(t@ =~= seq![t@[0]]);
        }
    }
}

/// Where a step stands in the order in which the steps of a frame are taken.
pub open spec fn rank(step: Move) -> int {
    match step {
        Move::Forward => 0,
        Move::Backward => 1,
        Move::Left => 2,
        Move::Right => 3,
        Move::Up => 4,
        Move::Down => 5,
    }
}

/// Whether steps are in order, no two alike, and rank within bounds.
spec fn ranked(steps: Seq<Move>, low: int, high: int) -> bool {
    &&& forall|i: int| 0 <= i < steps.len() ==> low <= rank(#[trigger] steps[i]) < high
    &&& forall|i: int, j: int|
        0 <= i < j < steps.len() ==> rank(#[trigger] steps[i]) < rank(#[trigger] steps[j])
}

proof fn lemma_add_step(steps: Seq<Move>, held: bool, step: Move)
    requires
        ranked(steps, 0, rank(step)),
    ensures
        ranked(steps + step_if(held, step), 0, rank(step) + 1),
        forall|m: Move| #[trigger]
            (steps + step_if(held, step)).contains(m) <==> steps.contains(m) || (held && m == step),
{
    let all = steps + step_if(held, step);
    assert forall|m: Move| #[trigger] all.contains(m) <==> steps.contains(m) || (held && m
        == step) by {
        if steps.contains(m) {
            let i = choose|i: int| 0 <= i < steps.len() && steps[i] == m;
            assert(all[i] == m);
        }
        if held && m == step {
            assert(all[steps.len() as int] == m);
        }
        if all.contains(m) {
            let i = choose|i: int| 0 <= i < all.len() && all[i] == m;
            if i < steps.len() {
                assert(steps[i] == m);
            }
        }
    }
}

/// A step is taken in a frame just if its key is held, once, and the steps are
/// taken in the order forward, backward, left, right, up, down.
pub proof fn law_moves_follow_keys(keys: KeysHeld)
    ensures
        moves_of(keys).contains(Move::Forward) <==> keys.w,
        moves_of(keys).contains(Move::Backward) <==> keys.s,
        moves_of(keys).contains(Move::Left) <==> keys.a,
        moves_of(keys).contains(Move::Right) <==> keys.d,
        moves_of(keys).contains(Move::Up) <==> keys.space,
        moves_of(keys).contains(Move::Down) <==> keys.c,
        forall|i: int, j: int|
            0 <= i < j < moves_of(keys).len() ==> rank(#[trigger] moves_of(keys)[i]) < rank(
                #[trigger] moves_of(keys)[j],
            ),
{
    let none = Seq::<Move>::empty();
    lemma_add_step(none, keys.w, Move::Forward);
    let s1 = step_if(keys.w, Move::Forward);
    assert(none + s1 =~= s1);
    lemma_add_step(s1, keys.s, Move::Backward);
    let s2 = s1 + step_if(keys.s, Move::Backward);
    lemma_add_step(s2, keys.a, Move::Left);
    let s3 = s2 + step_if(keys.a, Move::Left);
    lemma_add_step(s3, keys.d, Move::Right);
    let s4 = s3 + step_if(keys.d, Move::Right);
    lemma_add_step(s4, keys.space, Move::Up);
    let s5 = s4 + step_if(keys.space, Move::Up);
    lemma_add_step(s5, keys.c, Move::Down);
}

} // verus!
