//! PS/2 keyboard driver.
//!
//! Every scancode byte runs through the `pc-keyboard` state machine (scancode set
//! 1, US 104-key layout), and the decoded ASCII character is pushed onto a ring
//! buffer, which `/dev/kbd` exposes.
use pc_keyboard::layouts::Us104Key;
use pc_keyboard::{DecodedKey, HandleControl, KeyEvent, Keyboard, ScancodeSet1};
use std::collections::VecDeque;
use vstd::prelude::*;

verus! {

/// A `pc_keyboard::Keyboard` for scancode set 1 and the US 104-key layout: a
/// decoder from scancode bytes to characters.
#[verifier::external_body]
pub struct Kbd {
    inner: Keyboard<Us104Key, ScancodeSet1>,
}

/// `pc_keyboard::KeyEvent`: a key that was pressed or released.
#[verifier::external_type_specification]
#[verifier::external_body]
pub struct ExKeyEvent(KeyEvent);

/// The scancode bytes that a decoder was given, oldest first.
pub uninterp spec fn scancodes_fed(k: Kbd) -> Seq<u8>;

/// The key events that a decoder was given, oldest first.
pub uninterp spec fn events_seen(k: Kbd) -> Seq<KeyEvent>;

/// The key event that byte `b` completes after the bytes `fed`, if it does.
pub uninterp spec fn key_event(fed: Seq<u8>, b: u8) -> Option<KeyEvent>;

/// The character that event `e` types after the events `seen`, if it types one.
pub uninterp spec fn key_char(seen: Seq<KeyEvent>, e: KeyEvent) -> Option<char>;

/// `Keyboard::new` for scancode set 1 and the US layout, with control keys
/// ignored: a decoder that was given nothing yet.
#[verifier::external_body]
fn new_decoder() -> (r: Kbd)
    ensures
        scancodes_fed(r) == Seq::<u8>::empty(),
        events_seen(r) == Seq::<KeyEvent>::empty(),
{
    Kbd { inner: Keyboard::new(ScancodeSet1::new(), Us104Key, HandleControl::Ignore) }
}

/// `Keyboard::add_byte`: what it returns depends on the bytes given before and on
/// this one; a byte that it rejects completes no event. The events that were
/// processed play no part.
#[verifier::external_body]
fn add_byte(k: &mut Kbd, b: u8) -> (r: Option<KeyEvent>)
    ensures
        r == key_event(scancodes_fed(*old(k)), b),
        scancodes_fed(*final(k)) == scancodes_fed(*old(k)).push(b),
        events_seen(*final(k)) == events_seen(*old(k)),
{
    match k.inner.add_byte(b) {
        Ok(event) => event,
        Err(_) => None,
    }
}

/// `Keyboard::process_keyevent`: what it returns depends on the events given
/// before and on this one; a key without a character gives none. The bytes that
/// were added play no part.
#[verifier::external_body]
fn process_keyevent(k: &mut Kbd, e: KeyEvent) -> (r: Option<char>)
    ensures
        r == key_char(events_seen(*old(k)), e),
        events_seen(*final(k)) == events_seen(*old(k)).push(e),
        scancodes_fed(*final(k)) == scancodes_fed(*old(k)),
{
    match k.inner.process_keyevent(e) {
        Some(DecodedKey::Unicode(c)) => Some(c),
        Some(DecodedKey::RawKey(_)) => None,
        None => None,
    }
}

pub struct KeyboardState {
    pub decoder: Kbd,
    pub buffer: VecDeque<u8>,
}

/// The state of a [`KeyboardState`]: what its decoder was given, and the
/// characters that wait to be read.
#[verifier::ext_equal]
pub struct KeyboardView {
    pub fed: Seq<u8>,
    pub seen: Seq<KeyEvent>,
    pub buffer: Seq<u8>,
}

impl View for KeyboardState {
    type V = KeyboardView;

    open spec fn view(&self) -> KeyboardView {
        KeyboardView {
            fed: scancodes_fed(self.decoder),
            seen: events_seen(self.decoder),
            buffer: self.buffer@,
        }
    }
}

/// `buffer` with code point `cp` queued, if it is ASCII.
pub open spec fn pushed(buffer: Seq<u8>, cp: u32) -> Seq<u8> {
    if cp < 0x80 {
        buffer.push(cp as u8)
    } else {
        buffer
    }
}

/// `buffer` with the code points of `s` queued, those that are ASCII.
pub open spec fn typed(buffer: Seq<u8>, s: Seq<char>) -> Seq<u8>
    decreases s.len(),
{
    if s.len() == 0 {
        buffer
    } else {
        pushed(typed(buffer, s.drop_last()), s.last() as u32)
    }
}

impl KeyboardView {
    /// The state once `c`, if it is a character, was queued.
    pub open spec fn queued(self, c: Option<char>) -> KeyboardView {
        match c {
            Some(c) => KeyboardView { buffer: pushed(self.buffer, c as u32), ..self },
            None => self,
        }
    }

    /// The state once scancode `b` was decoded.
    pub open spec fn scanned(self, b: u8) -> KeyboardView {
        let fed = KeyboardView { fed: self.fed.push(b), ..self };
        match key_event(self.fed, b) {
            Some(e) => KeyboardView { seen: self.seen.push(e), ..fed }.queued(
                key_char(self.seen, e),
            ),
            None => fed,
        }
    }

    /// The state once the scancodes in `s`, one after the other, were decoded.
    pub open spec fn injected(self, s: Seq<u8>) -> KeyboardView
        decreases s.len(),
    {
        if s.len() == 0 {
            self
        } else {
            self.injected(s.drop_last()).scanned(s.last())
        }
    }
}

impl KeyboardState {
    pub fn new() -> (r: KeyboardState)
        ensures
            r@ == (KeyboardView { fed: seq![], seen: seq![], buffer: seq![] }),
    {
        let r = KeyboardState { decoder: new_decoder(), buffer: VecDeque::new() };
        assert(r@ =~= (KeyboardView { fed: seq![], seen: seq![], buffer: seq![] }));
        r
    }

    /// Queue a decoded character, if there is one.
    pub fn queue(&mut self, c: Option<char>)
        ensures
            final(self)@ == old(self)@.queued(c),
    {
        if let Some(c) = c {
            push(&mut self.buffer, c as u32);
        }
    }
}

/// Decode one raw scancode and enqueue any resulting ASCII character.
pub fn handle_scancode(kb: &mut KeyboardState, scancode: u8)
    ensures
        final(kb)@ == old(kb)@.scanned(scancode),
{
    if let Some(event) = add_byte(&mut kb.decoder, scancode) {
        let c = process_keyevent(&mut kb.decoder, event);
        kb.queue(c);
    }
}

/// Feed raw scancodes as if the user typed them.
pub fn inject(kb: &mut KeyboardState, scancodes: &[u8])
    ensures
        final(kb)@ == old(kb)@.injected(scancodes@),
{
    let mut i: usize = 0;
    while i < scancodes.len()
        invariant
            i <= scancodes@.len(),
            kb@ == old(kb)@.injected(scancodes@.take(i as int)),
        decreases scancodes@.len() - i,
    {
        assert(scancodes@.take(i + 1).drop_last() =~= scancodes@.take(i as int));
        handle_scancode(kb, scancodes[i]);
        i = i + 1;
    }
    assert(scancodes@.take(i as int) =~= scancodes@);
}

/// Queue a whole ASCII string as if it were typed. Bypasses the scancode decoder.
pub fn inject_str(kb: &mut KeyboardState, s: &str)
    ensures
        final(kb)@ == (KeyboardView { buffer: typed(old(kb)@.buffer, s@), ..old(kb)@ }),
{
    for ch in it: s.chars()
        invariant
            kb@ == (KeyboardView {
                buffer: typed(old(kb)@.buffer, it.seq().take(it.index())),
                ..old(kb)@
            }),
    {
        proof {
            let i = it.index();
            assert(it.seq().take(i + 1).drop_last() =~= it.seq().take(i));
        }
        push(&mut kb.buffer, ch as u32);
    }
    assert(s@.take(s@.len() as int) =~= s@);
}

/// Queue a decoded code point (ASCII range only).
pub fn push(buf: &mut VecDeque<u8>, cp: u32)
    ensures
        final(buf)@ == pushed(old(buf)@, cp),
{
    if cp < 0x80 {
        buf.push_back(cp as u8);
    }
}

/// Pop one buffered byte, or `None` if there is no keypress waiting.
pub fn read_key(kb: &mut KeyboardState) -> (r: Option<u8>)
    ensures
        match r {
            Some(b) => {
                &&& old(kb)@.buffer.len() > 0
                &&& b == old(kb)@.buffer[0]
                &&& final(kb)@ == (KeyboardView { buffer: old(kb)@.buffer.skip(1), ..old(kb)@ })
            },
            None => old(kb)@.buffer.len() == 0 && final(kb)@ == old(kb)@,
        },
{
    let r = kb.buffer.pop_front();
    proof {
        if r is Some {
            assert(kb@.buffer =~= old(kb)@.buffer.skip(1));
        } else {
            assert(kb@ =~= old(kb)@);
        }
    }
    r
}

/// Typing an ASCII string queues its characters, in order.
pub proof fn law_ascii_is_queued(buffer: Seq<u8>, s: Seq<char>)
    requires
        forall|i: int| 0 <= i < s.len() ==> ((#[trigger] s[i]) as u32) < 0x80,
    ensures
        typed(buffer, s) == buffer + Seq::new(s.len(), |i: int| (s[i] as u32) as u8),
    decreases s.len(),
{
    if s.len() == 0 {
        assert(typed(buffer, s) =~= buffer + Seq::new(s.len(), |i: int| (s[i] as u32) as u8));
    } else {
        assert forall|i: int| 0 <= i < s.len() - 1 implies ((#[trigger] s.drop_last()[i]) as u32)
            < 0x80 by {
            assert(s.drop_last()[i] == s[i]);
        }
        law_ascii_is_queued(buffer, s.drop_last());
        assert((s[s.len() - 1] as u32) < 0x80);
        assert(typed(buffer, s) =~= buffer + Seq::new(s.len(), |i: int| (s[i] as u32) as u8));
    }
}

/// Only ASCII ever reaches the buffer: if it held nothing else before a scancode,
/// it holds nothing else afterwards, and nothing that waited is lost.
pub proof fn law_buffer_stays_ascii(k: KeyboardView, b: u8)
    requires
        forall|i: int| 0 <= i < k.buffer.len() ==> k.buffer[i] < 0x80,
    ensures
        forall|i: int| 0 <= i < k.scanned(b).buffer.len() ==> k.scanned(b).buffer[i] < 0x80,
        k.buffer.is_prefix_of(k.scanned(b).buffer),
        k.scanned(b).buffer.len() <= k.buffer.len() + 1,
{
}

/// What a scancode does: one that completes an ASCII character queues it behind what
/// waits, and any other queues nothing. The decoder remembers both the byte and the
/// event.
pub proof fn law_typed_key_is_queued(k: KeyboardView, b: u8)
    ensures
        k.scanned(b).fed == k.fed.push(b),
        match key_event(k.fed, b) {
            Some(e) => {
                &&& k.scanned(b).seen == k.seen.push(e)
                &&& match key_char(k.seen, e) {
                    Some(c) => if (c as u32) < 0x80 {
                        &&& k.scanned(b).buffer.len() == k.buffer.len() + 1
                        &&& k.scanned(b).buffer.drop_last() == k.buffer
                        &&& k.scanned(b).buffer.last() == c as u32
                    } else {
                        k.scanned(b).buffer == k.buffer
                    },
                    None => k.scanned(b).buffer == k.buffer,
                }
            },
            None => k.scanned(b).seen == k.seen && k.scanned(b).buffer == k.buffer,
        },
{
    match key_event(k.fed, b) {
        Some(e) => {
            match key_char(k.seen, e) {
                Some(c) => {
                    if (c as u32) < 0x80 {
                        assert(k.scanned(b).buffer.drop_last() =~= k.buffer);
                    }
                },
                None => {},
            }
        },
        None => {},
    }
}

/// Scancodes that are fed in two portions do what they do in one.
pub proof fn law_injections_add_up(k: KeyboardView, s: Seq<u8>, t: Seq<u8>, b: u8)
    ensures
        k.injected(s + t) == k.injected(s).injected(t),
        k.injected(seq![b]) == k.scanned(b),
    decreases t.len(),
{
    reveal_with_fuel(KeyboardView::injected, 2);
    assert(seq![b].drop_last() =~= seq![]);
    if t.len() == 0 {
        assert(s + t =~= s);
    } else {
        assert((s + t).drop_last() =~= s + t.drop_last());
        law_injections_add_up(k, s, t.drop_last(), b);
    }
}

/// Typing a text queues its ASCII characters alone: one character more adds itself if
/// it is ASCII, and nothing otherwise.
pub proof fn law_typed_character(buffer: Seq<u8>, s: Seq<char>, c: char)
    ensures
        typed(buffer, seq![]) == buffer,
        c <= '\u{7f}' ==> typed(buffer, s.push(c)) == typed(buffer, s).push((c as u32) as u8),
        c > '\u{7f}' ==> typed(buffer, s.push(c)) == typed(buffer, s),
{
    assert(s.push(c).drop_last() =~= s);
}

} // verus!
