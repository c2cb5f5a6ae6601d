//! The control protocol: what the browser sends for keyboard and mouse
//! events, and how the capturing side decodes each message into an action.

use vstd::prelude::*;
use crate::bitmap::Bitmap;
use crate::dscom::{KEY_DOWN, KEY_UP, MOUSE_KEY_DOWN, MOUSE_KEY_UP, MOUSE_WHEEL_DOWN, MOUSE_WHEEL_UP, MOVE};

verus! {

/// What the capturing side does for one control message.
#[derive(PartialEq, Eq, Structural, Debug, Clone, Copy)]
pub enum CtrlAction {
    /// Release the key with this browser key code.
    KeyUp(u8),
    /// Press the key with this browser key code.
    KeyDown(u8),
    /// Release the mouse button with this browser button number.
    MouseUp(u8),
    /// Press the mouse button with this browser button number.
    MouseDown(u8),
    /// Scroll vertically by this many steps.
    Scroll(i32),
    /// Move the pointer to this absolute position.
    MoveTo(i32, i32),
    /// Unknown tag: the control session ends.
    Stop,
}

/// Number of bytes a message with tag `tag` must hold.
pub open spec fn spec_ctrl_len(tag: u8) -> nat {
    if tag == KEY_UP || tag == KEY_DOWN || tag == MOUSE_KEY_UP || tag == MOUSE_KEY_DOWN {
        2
    } else if tag == MOVE {
        5
    } else {
        1
    }
}

/// A message that can be decoded: non-empty, and as long as its tag asks.
pub open spec fn ctrl_well_formed(cmd: Seq<u8>) -> bool {
    cmd.len() >= 1 && cmd.len() >= spec_ctrl_len(cmd[0])
}

/// The action a well-formed control message stands for.
pub open spec fn spec_ctrl_action(cmd: Seq<u8>) -> CtrlAction {
    let tag = cmd[0];
    if tag == KEY_UP {
        CtrlAction::KeyUp(cmd[1])
    } else if tag == KEY_DOWN {
        CtrlAction::KeyDown(cmd[1])
    } else if tag == MOUSE_KEY_UP {
        CtrlAction::MouseUp(cmd[1])
    } else if tag == MOUSE_KEY_DOWN {
        CtrlAction::MouseDown(cmd[1])
    } else if tag == MOUSE_WHEEL_UP {
        CtrlAction::Scroll(-2i32)
    } else if tag == MOUSE_WHEEL_DOWN {
        CtrlAction::Scroll(2i32)
    } else if tag == MOVE {
        CtrlAction::MoveTo((cmd[1] * 256 + cmd[2]) as i32, (cmd[3] * 256 + cmd[4]) as i32)
    } else {
        CtrlAction::Stop
    }
}

/// Number of bytes a control message with tag `tag` must hold.
pub fn ctrl_len(tag: u8) -> (n: usize)
    ensures
        n == spec_ctrl_len(tag),
{
    if tag == KEY_UP || tag == KEY_DOWN || tag == MOUSE_KEY_UP || tag == MOUSE_KEY_DOWN {
        2
    } else if tag == MOVE {
        5
    } else {
        1
    }
}

/// Reads a big-endian 16-bit coordinate.
fn be16(hi: u8, lo: u8) -> (r: i32)
    ensures
        r == hi * 256 + lo,
{
    let r = ((hi as i32) << 8) | (lo as i32);
    assert(((hi as i32) << 8) | (lo as i32) == hi * 256 + lo) by (bit_vector);
    r
}

/// Decodes one binary control message.
pub fn decode_ctrl(cmd: &[u8]) -> (action: CtrlAction)
    requires
        ctrl_well_formed(cmd@),
    ensures
        action == spec_ctrl_action(cmd@),
{
    let tag = cmd[0];
    if tag == KEY_UP {
        CtrlAction::KeyUp(cmd[1])
    } else if tag == KEY_DOWN {
        CtrlAction::KeyDown(cmd[1])
    } else if tag == MOUSE_KEY_UP {
        CtrlAction::MouseUp(cmd[1])
    } else if tag == MOUSE_KEY_DOWN {
        CtrlAction::MouseDown(cmd[1])
    } else if tag == MOUSE_WHEEL_UP {
        CtrlAction::Scroll(-2i32)
    } else if tag == MOUSE_WHEEL_DOWN {
        CtrlAction::Scroll(2i32)
    } else if tag == MOVE {
        CtrlAction::MoveTo(be16(cmd[1], cmd[2]), be16(cmd[3], cmd[4]))
    } else {
        CtrlAction::Stop
    }
}

/// The kind of a message received on the control channel.
#[derive(PartialEq, Eq, Structural, Debug, Clone, Copy)]
pub enum ChannelMessage {
    /// A binary message: a control command.
    Binary,
    /// The peer closed the channel.
    Close,
    /// Text, ping, pong and the like.
    Other,
}

/// What the control loop does with one received message.
#[derive(PartialEq, Eq, Structural, Debug, Clone, Copy)]
pub enum CtrlStep {
    /// Carry out this input action and wait for the next message.
    Perform(CtrlAction),
    /// Nothing to do; wait for the next message.
    Skip,
    /// The control session ends.
    End,
}

/// The control loop's decision for a message of kind `kind` holding `cmd`:
/// a close or an unknown command ends the session, other non-binary
/// messages are skipped, a known command is carried out.
pub fn ctrl_step(kind: ChannelMessage, cmd: &[u8]) -> (step: CtrlStep)
    requires
        kind == ChannelMessage::Binary ==> ctrl_well_formed(cmd@),
    ensures
        kind == ChannelMessage::Close ==> step == CtrlStep::End,
        kind == ChannelMessage::Other ==> step == CtrlStep::Skip,
        kind == ChannelMessage::Binary ==> step == if spec_ctrl_action(cmd@) == CtrlAction::Stop {
            CtrlStep::End
        } else {
            CtrlStep::Perform(spec_ctrl_action(cmd@))
        },
{
    match kind {
        ChannelMessage::Close => CtrlStep::End,
        ChannelMessage::Other => CtrlStep::Skip,
        ChannelMessage::Binary => {
            let action = decode_ctrl(cmd);
            match action {
                CtrlAction::Stop => CtrlStep::End,
                _ => CtrlStep::Perform(action),
            }
        },
    }
}

/// Message for a key press.
pub fn key_down_message(code: u8) -> (m: Vec<u8>)
    ensures
        m@ == seq![KEY_DOWN, code],
{
    vec![KEY_DOWN, code]
}

/// Message for a key release.
pub fn key_up_message(code: u8) -> (m: Vec<u8>)
    ensures
        m@ == seq![KEY_UP, code],
{
    vec![KEY_UP, code]
}

/// Message for a mouse button press.
pub fn mouse_down_message(button: u8) -> (m: Vec<u8>)
    ensures
        m@ == seq![MOUSE_KEY_DOWN, button],
{
    vec![MOUSE_KEY_DOWN, button]
}

/// Message for a mouse button release.
pub fn mouse_up_message(button: u8) -> (m: Vec<u8>)
    ensures
        m@ == seq![MOUSE_KEY_UP, button],
{
    vec![MOUSE_KEY_UP, button]
}

/// Message for one wheel step; `up` when the wheel moved towards the user's
/// screen top (negative vertical delta).
pub fn wheel_message(up: bool) -> (m: Vec<u8>)
    ensures
        m@ == (if up { seq![MOUSE_WHEEL_UP] } else { seq![MOUSE_WHEEL_DOWN] }),
{
    if up {
        vec![MOUSE_WHEEL_UP]
    } else {
        vec![MOUSE_WHEEL_DOWN]
    }
}

/// Message for a pointer move to `(x, y)`: each coordinate is sent as its
/// low 16 bits, high byte first.
pub fn move_message(x: u32, y: u32) -> (m: Vec<u8>)
    ensures
        m@ == seq![MOVE, ((x / 256) % 256) as u8, (x % 256) as u8, ((y / 256) % 256) as u8, (y % 256) as u8],
{
    let xh = (x >> 8) as u8;
    let xl = x as u8;
    let yh = (y >> 8) as u8;
    let yl = y as u8;
    assert(xh == ((x / 256) % 256) as u8 && xl == (x % 256) as u8) by (bit_vector)
        requires xh == (x >> 8) as u8, xl == x as u8;
    assert(yh == ((y / 256) % 256) as u8 && yl == (y % 256) as u8) by (bit_vector)
        requires yh == (y >> 8) as u8, yl == y as u8;
    vec![MOVE, xh, xl, yh, yl]
}

/// A keyboard event on the browser side.
#[derive(PartialEq, Eq, Structural, Debug, Clone, Copy)]
pub enum KeyEvent {
    /// The key with this code went down.
    Down(u8),
    /// The key with this code went up.
    Up(u8),
}

/// The held keys after `event`, starting from `held`.
pub open spec fn apply_key(held: Set<u8>, event: KeyEvent) -> Set<u8> {
    match event {
        KeyEvent::Down(c) => held.insert(c),
        KeyEvent::Up(c) => held.remove(c),
    }
}

/// The control message the browser sends for `event` with `held` held:
/// nothing for a press of a held key.
pub open spec fn key_reply(held: Set<u8>, event: KeyEvent) -> Option<Seq<u8>> {
    match event {
        KeyEvent::Down(c) => if held.contains(c) {
            None
        } else {
            Some(seq![KEY_DOWN, c])
        },
        KeyEvent::Up(c) => Some(seq![KEY_UP, c]),
    }
}

/// The keys held after the events `events`, starting with none held.
pub open spec fn held_after(events: Seq<KeyEvent>) -> Set<u8>
    decreases events.len(),
{
    if events.len() == 0 {
        Set::empty()
    } else {
        apply_key(held_after(events.drop_last()), events.last())
    }
}

/// Whether among `events` key `c` went down and did not go up since.
pub open spec fn down_since_up(events: Seq<KeyEvent>, c: u8) -> bool {
    exists|s: int|
        0 <= s < events.len() && events[s] == KeyEvent::Down(c) && forall|u: int|
            s < u < events.len() ==> events[u] != KeyEvent::Up(c)
}

proof fn lemma_held_after(events: Seq<KeyEvent>, c: u8)
    ensures
        held_after(events).contains(c) <==> down_since_up(events, c),
    decreases events.len(),
{
    if events.len() > 0 {
        let prefix = events.drop_last();
        let last = events.len() - 1;
        lemma_held_after(prefix, c);
        if events[last] == KeyEvent::Down(c) {
            assert(down_since_up(events, c));
        } else if events[last] == KeyEvent::Up(c) {
            if down_since_up(events, c) {
                let s = choose|s: int|
                    0 <= s < events.len() && events[s] == KeyEvent::Down(c) && forall|u: int|
                        s < u < events.len() ==> events[u] != KeyEvent::Up(c);
                assert(s != last);
                assert(events[last] != KeyEvent::Up(c));
            }
        } else {
            if down_since_up(prefix, c) {
                let s = choose|s: int|
                    0 <= s < prefix.len() && prefix[s] == KeyEvent::Down(c) && forall|u: int|
                        s < u < prefix.len() ==> prefix[u] != KeyEvent::Up(c);
                assert(events[s] == KeyEvent::Down(c));
                assert forall|u: int| s < u < events.len() implies events[u] != KeyEvent::Up(c) by {
                    if u < last {
                        assert(prefix[u] == events[u]);
                    }
                }
            }
            if down_since_up(events, c) {
                let s = choose|s: int|
                    0 <= s < events.len() && events[s] == KeyEvent::Down(c) && forall|u: int|
                        s < u < events.len() ==> events[u] != KeyEvent::Up(c);
                assert(s != last);
                assert forall|u: int| s < u < prefix.len() implies prefix[u] != KeyEvent::Up(c) by {
                    assert(prefix[u] == events[u]);
                }
                assert(prefix[s] == KeyEvent::Down(c));
            }
        }
    }
}

/// A held key is reported once: over any sequence of keyboard events on the
/// browser, starting with no key held, the event at position `t` sends a
/// press of key `c` exactly when `c` has not gone down since it last went up
/// (or ever), and every release is sent.
pub proof fn law_held_key_reported_once(events: Seq<KeyEvent>, t: int)
    requires
        0 <= t < events.len(),
    ensures
        match events[t] {
            KeyEvent::Down(c) => key_reply(held_after(events.take(t)), events[t]) == if down_since_up(events.take(t), c) {
                None::<Seq<u8>>
            } else {
                Some(seq![KEY_DOWN, c])
            },
            KeyEvent::Up(c) => key_reply(held_after(events.take(t)), events[t]) == Some(seq![KEY_UP, c]),
        },
        held_after(events.take(t + 1)) == apply_key(held_after(events.take(t)), events[t]),
{
    match events[t] {
        KeyEvent::Down(c) => lemma_held_after(events.take(t), c),
        KeyEvent::Up(c) => {},
    }
    assert(events.take(t + 1).drop_last() =~= events.take(t));
}

/// Browser side of a key press: sends the press only if the key was not
/// already held, and records it as held.
pub fn on_key_down(held: &mut Bitmap, code: u8) -> (m: Option<Vec<u8>>)
    ensures
        final(held)@ == apply_key(old(held)@, KeyEvent::Down(code)),
        match m {
            Some(v) => key_reply(old(held)@, KeyEvent::Down(code)) == Some(v@),
            None => key_reply(old(held)@, KeyEvent::Down(code)) is None,
        },
{
    if held.push(code) {
        Some(key_down_message(code))
    } else {
        None
    }
}

/// Browser side of a key release: forgets the key and always sends the
/// release.
pub fn on_key_up(held: &mut Bitmap, code: u8) -> (m: Vec<u8>)
    ensures
        final(held)@ == apply_key(old(held)@, KeyEvent::Up(code)),
        key_reply(old(held)@, KeyEvent::Up(code)) == Some(m@),
{
    held.remove(code);
    key_up_message(code)
}

/// A key message decodes back to the key event it was made for, and a wheel
/// message to a scroll of two steps against the wheel direction.
pub proof fn law_key_and_wheel_round_trip(code: u8)
    ensures
        spec_ctrl_action(seq![KEY_DOWN, code]) == CtrlAction::KeyDown(code),
        spec_ctrl_action(seq![KEY_UP, code]) == CtrlAction::KeyUp(code),
        spec_ctrl_action(seq![MOUSE_KEY_DOWN, code]) == CtrlAction::MouseDown(code),
        spec_ctrl_action(seq![MOUSE_KEY_UP, code]) == CtrlAction::MouseUp(code),
        ctrl_well_formed(seq![KEY_DOWN, code]),
        ctrl_well_formed(seq![KEY_UP, code]),
        ctrl_well_formed(seq![MOUSE_KEY_DOWN, code]),
        ctrl_well_formed(seq![MOUSE_KEY_UP, code]),
        ctrl_well_formed(seq![MOUSE_WHEEL_UP]),
        ctrl_well_formed(seq![MOUSE_WHEEL_DOWN]),
        spec_ctrl_action(seq![MOUSE_WHEEL_UP]) == CtrlAction::Scroll(-2i32),
        spec_ctrl_action(seq![MOUSE_WHEEL_DOWN]) == CtrlAction::Scroll(2i32),
{
}

/// A move message decodes to the position it was made for, each coordinate
/// taken modulo 65536.
pub proof fn law_move_round_trip(x: u32, y: u32)
    ensures
        ({
            let m = seq![MOVE, ((x / 256) % 256) as u8, (x % 256) as u8, ((y / 256) % 256) as u8, (y % 256) as u8];
            ctrl_well_formed(m) && spec_ctrl_action(m) == CtrlAction::MoveTo((x % 65536) as i32, (y % 65536) as i32)
        }),
{
    let m = seq![MOVE, ((x / 256) % 256) as u8, (x % 256) as u8, ((y / 256) % 256) as u8, (y % 256) as u8];
    assert(((x / 256) % 256) * 256 + x % 256 == x % 65536) by (nonlinear_arith);
    assert(((y / 256) % 256) * 256 + y % 256 == y % 65536) by (nonlinear_arith);
    assert(m[1] * 256 + m[2] == x % 65536);
    assert(m[3] * 256 + m[4] == y % 65536);
}

} // verus!
