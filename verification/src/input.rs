//! The keyboard: scancodes arrive one byte at a time, and the characters they decode to wait
//! in a queue until they are asked for.

use std::collections::VecDeque;
use vstd::prelude::*;
use pc_keyboard::layouts::Uk105Key;
use pc_keyboard::{DecodedKey, HandleControl, KeyEvent, Keyboard, ScancodeSet1};

verus! {

/// The decoder of the pc-keyboard crate for scancode set 1 on a UK keyboard of 105 keys. It
/// remembers which modifier keys are down and whether a scancode of several bytes has begun.
#[verifier::external_body]
pub struct Decoder {
    kb: Keyboard<Uk105Key, ScancodeSet1>,
}

/// A decoder with no key pressed. Wraps `Keyboard::new` of the pc-keyboard crate.
#[verifier::external_body]
fn new_decoder() -> (decoder: Decoder) {
    Decoder { kb: Keyboard::new(Uk105Key, ScancodeSet1, HandleControl::Ignore) }
}

#[verifier::external_type_specification]
#[verifier::external_body]
pub struct ExKeyEvent(KeyEvent);

/// Feeds one scancode byte to the decoder and hands out the key event that it completes, if
/// it completes one. Wraps `Keyboard::add_byte` of the pc-keyboard crate; a byte that the
/// decoder does not know counts as completing nothing. What comes out depends on the bytes
/// fed before, so nothing is claimed of it.
#[verifier::external_body]
fn add_byte(decoder: &mut Decoder, scancode: u8) -> (r: Option<KeyEvent>) {
    match decoder.kb.add_byte(scancode) {
        Ok(event) => event,
        Err(_) => None,
    }
}

/// Hands a key event to the decoder and hands out the character that the key types, if it
/// types one. Wraps `Keyboard::process_keyevent` of the pc-keyboard crate. What comes out
/// depends on the modifier keys pressed before, so nothing is claimed of it.
#[verifier::external_body]
fn process_keyevent(decoder: &mut Decoder, event: KeyEvent) -> (r: Option<char>) {
    match decoder.kb.process_keyevent(event) {
        Some(DecodedKey::Unicode(c)) => Some(c),
        Some(DecodedKey::RawKey(_)) => None,
        None => None,
    }
}

/// The keyboard.
pub struct KeyBoard {
    last_key: Option<char>,
    kb: Decoder,
    buffer: VecDeque<char>,
}

impl KeyBoard {
    /// The characters that wait to be asked for, oldest first.
    pub closed spec fn waiting(&self) -> Seq<char> {
        self.buffer@
    }

    /// What the last scancode decoded to.
    pub closed spec fn latest(&self) -> Option<char> {
        self.last_key
    }

    /// A keyboard on which nothing has been typed.
    pub fn new() -> (k: KeyBoard)
        ensures
            k.waiting() == Seq::<char>::empty(),
            k.latest() is None,
    {
        KeyBoard { last_key: None, kb: new_decoder(), buffer: VecDeque::new() }
    }

    /// Takes note of what a scancode decoded to: a character joins the end of the queue.
    pub fn record(&mut self, decoded: Option<char>)
        ensures
            final(self).latest() == decoded,
            final(self).waiting() == match decoded {
                Some(c) => old(self).waiting().push(c),
                None => old(self).waiting(),
            },
    {
        if decoded.is_some() {
            self.buffer.push_back(decoded.unwrap());
        }
        self.last_key = decoded;
    }

    /// Takes one scancode byte from the keyboard. If it completes a character, the character
    /// joins the end of the queue.
    pub fn process_scancode(&mut self, scancode: u8)
        ensures
            final(self).waiting() == match final(self).latest() {
                Some(c) => old(self).waiting().push(c),
                None => old(self).waiting(),
            },
    {
        let result = match add_byte(&mut self.kb, scancode) {
            Some(event) => process_keyevent(&mut self.kb, event),
            None => None,
        };
        self.record(result);
    }

    /// The oldest character that waits, which leaves the queue. `None` when none waits.
    pub fn last_key(&mut self) -> (r: Option<char>)
        ensures
            old(self).waiting().len() == 0 ==> r is None && final(self).waiting() == old(self).waiting(),
            old(self).waiting().len() > 0 ==> r == Some(old(self).waiting()[0]) && final(self).waiting() == old(
                self,
            ).waiting().drop_first(),
            final(self).latest() == old(self).latest(),
    {
        let r = self.buffer.pop_front();
        proof {
            if old(self).waiting().len() > 0 {
                assert(self.buffer@ =~= old(self).waiting().drop_first());
            }
        }
        r
    }
}

} // verus!
