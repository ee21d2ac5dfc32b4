//! The PS/2 keyboard: the queue of scancodes the interrupt handler fills, and their
//! decoding into keys under the shift state.
use vstd::prelude::*;

verus! {

/// The interrupt line of the keyboard.
pub const IRQ: u8 = 1;

/// Slots of the scancode ring; one stays free to tell a full ring from an empty one.
pub const SCANCODE_QUEUE_CAPACITY: usize = 64;

/// The scancode of the `a` key, which validation input repeats.
pub const VALIDATION_SCANCODE: u8 = 0x1e;

/// A ring of scancodes: the interrupt handler pushes, the decoder pops.
pub struct ScancodeQueue {
    pub buffer: [u8; 64],
    pub read_index: usize,
    pub write_index: usize,
}

impl ScancodeQueue {
    pub open spec fn wf(&self) -> bool {
        self.read_index < SCANCODE_QUEUE_CAPACITY && self.write_index < SCANCODE_QUEUE_CAPACITY
    }

    /// The scancodes waiting, oldest first.
    pub open spec fn pending(&self) -> Seq<u8> {
        let count = (self.write_index + SCANCODE_QUEUE_CAPACITY - self.read_index) % (SCANCODE_QUEUE_CAPACITY as int);
        Seq::new(
            count as nat,
            |i: int| self.buffer@[(self.read_index + i) % (SCANCODE_QUEUE_CAPACITY as int)],
        )
    }

    pub fn new() -> (queue: Self)
        ensures
            queue.wf(),
            queue.pending() == Seq::<u8>::empty(),
    {
        let queue = ScancodeQueue { buffer: [0u8; 64], read_index: 0, write_index: 0 };
        proof {
            assert(queue.pending() =~= Seq::<u8>::empty());
        }
        queue
    }

    /// Appends `scancode`; a full ring drops it.
    #[verifier::rlimit(30)]
    pub fn push(&mut self, scancode: u8)
        requires
            old(self).wf(),
        ensures
            final(self).wf(),
            old(self).pending().len() < SCANCODE_QUEUE_CAPACITY - 1 ==> final(self).pending() == old(self).pending().push(
                scancode,
            ),
            old(self).pending().len() >= SCANCODE_QUEUE_CAPACITY - 1 ==> final(self).pending() == old(self).pending(),
    {
        let write_index = self.write_index;
        let next_index = (write_index + 1) % SCANCODE_QUEUE_CAPACITY;
        if next_index == self.read_index {
            return;
        }
        let ghost before = self.pending();
        self.buffer[write_index] = scancode;
        self.write_index = next_index;
        proof {
            assert(self.pending() =~= before.push(scancode)) by {
                assert forall|i: int| 0 <= i < before.len() implies self.pending()[i] == before[i] by {
                    let k = (self.read_index + i) % (SCANCODE_QUEUE_CAPACITY as int);
                    assert(k != write_index);
                }
            }
        }
    }

    /// Takes the oldest scancode.
    pub fn pop(&mut self) -> (scancode: Option<u8>)
        requires
            old(self).wf(),
        ensures
            final(self).wf(),
            old(self).pending().len() == 0 ==> scancode is None && final(self).pending() == old(self).pending(),
            old(self).pending().len() > 0 ==> scancode == Some(old(self).pending()[0]) && final(self).pending()
                == old(self).pending().drop_first(),
    {
        let read_index = self.read_index;
        if read_index == self.write_index {
            return None;
        }
        let ghost before = self.pending();
        let scancode = self.buffer[read_index];
        self.read_index = (read_index + 1) % SCANCODE_QUEUE_CAPACITY;
        proof {
            assert(self.pending() =~= before.drop_first());
        }
        Some(scancode)
    }
}

/// A key the decoder recognises.
#[derive(Clone, Copy, PartialEq, Eq, Structural, Debug)]
pub enum Key {
    Char(char),
    Enter,
    Backspace,
    Tab,
    F1,
}

/// The character of a set-1 make code without shift.
pub open spec fn plain_char(code: u8) -> Option<char> {
    match code {
        0x02u8 => Some('1'),
        0x03u8 => Some('2'),
        0x04u8 => Some('3'),
        0x05u8 => Some('4'),
        0x06u8 => Some('5'),
        0x07u8 => Some('6'),
        0x08u8 => Some('7'),
        0x09u8 => Some('8'),
        0x0Au8 => Some('9'),
        0x0Bu8 => Some('0'),
        0x10u8 => Some('q'),
        0x11u8 => Some('w'),
        0x12u8 => Some('e'),
        0x13u8 => Some('r'),
        0x14u8 => Some('t'),
        0x15u8 => Some('y'),
        0x16u8 => Some('u'),
        0x17u8 => Some('i'),
        0x18u8 => Some('o'),
        0x19u8 => Some('p'),
        0x1Eu8 => Some('a'),
        0x1Fu8 => Some('s'),
        0x20u8 => Some('d'),
        0x21u8 => Some('f'),
        0x22u8 => Some('g'),
        0x23u8 => Some('h'),
        0x24u8 => Some('j'),
        0x25u8 => Some('k'),
        0x26u8 => Some('l'),
        0x2Cu8 => Some('z'),
        0x2Du8 => Some('x'),
        0x2Eu8 => Some('c'),
        0x2Fu8 => Some('v'),
        0x30u8 => Some('b'),
        0x31u8 => Some('n'),
        0x32u8 => Some('m'),
        0x39u8 => Some(' '),
        0x0Cu8 => Some('-'),
        0x0Du8 => Some('='),
        0x33u8 => Some(','),
        0x34u8 => Some('.'),
        0x35u8 => Some('/'),
        _ => None,
    }
}

/// The character the same key gives with shift held: letters go to upper case,
/// digits and punctuation to their US-layout shifted symbols.
pub open spec fn shifted_char(c: char) -> char {
    if 'a' <= c && c <= 'z' {
        ((c as u32) - 32) as char
    } else {
        match c {
            '1' => '!',
            '2' => '@',
            '3' => '#',
            '4' => '$',
            '5' => '%',
            '6' => '^',
            '7' => '&',
            '8' => '*',
            '9' => '(',
            '0' => ')',
            '-' => '_',
            '=' => '+',
            ',' => '<',
            '.' => '>',
            '/' => '?',
            _ => c,
        }
    }
}

/// The character of make code `code` under the shift state.
pub open spec fn spec_decode_scancode(code: u8, shift: bool) -> Option<char> {
    match plain_char(code) {
        None => None,
        Some(c) => Some(
            if shift {
                shifted_char(c)
            } else {
                c
            },
        ),
    }
}

/// The make code of the US-layout key that types `c` without shift.
spec fn key_of(c: char) -> Option<u8> {
    match c {
        '1' => Some(0x02u8),
        '2' => Some(0x03u8),
        '3' => Some(0x04u8),
        '4' => Some(0x05u8),
        '5' => Some(0x06u8),
        '6' => Some(0x07u8),
        '7' => Some(0x08u8),
        '8' => Some(0x09u8),
        '9' => Some(0x0Au8),
        '0' => Some(0x0Bu8),
        '-' => Some(0x0Cu8),
        '=' => Some(0x0Du8),
        'q' => Some(0x10u8),
        'w' => Some(0x11u8),
        'e' => Some(0x12u8),
        'r' => Some(0x13u8),
        't' => Some(0x14u8),
        'y' => Some(0x15u8),
        'u' => Some(0x16u8),
        'i' => Some(0x17u8),
        'o' => Some(0x18u8),
        'p' => Some(0x19u8),
        'a' => Some(0x1Eu8),
        's' => Some(0x1Fu8),
        'd' => Some(0x20u8),
        'f' => Some(0x21u8),
        'g' => Some(0x22u8),
        'h' => Some(0x23u8),
        'j' => Some(0x24u8),
        'k' => Some(0x25u8),
        'l' => Some(0x26u8),
        'z' => Some(0x2Cu8),
        'x' => Some(0x2Du8),
        'c' => Some(0x2Eu8),
        'v' => Some(0x2Fu8),
        'b' => Some(0x30u8),
        'n' => Some(0x31u8),
        'm' => Some(0x32u8),
        ',' => Some(0x33u8),
        '.' => Some(0x34u8),
        '/' => Some(0x35u8),
        ' ' => Some(0x39u8),
        _ => None,
    }
}

/// Each key's character leads back to that key.
proof fn lemma_key_of_inverts(code: u8)
    ensures
        plain_char(code) is Some ==> key_of(plain_char(code)->0) == Some(code),
{
}

/// Distinct keys type distinct characters.
pub proof fn law_keys_type_distinct_chars(a: u8, b: u8)
    ensures
        plain_char(a) is Some && plain_char(a) == plain_char(b) ==> a == b,
{
    lemma_key_of_inverts(a);
    lemma_key_of_inverts(b);
}

/// Every lower-case letter and every digit has a key that types it without shift.
pub proof fn law_letters_and_digits_have_keys(c: char)
    requires
        ('a' <= c && c <= 'z') || ('0' <= c && c <= '9'),
    ensures
        exists|code: u8| #[trigger] plain_char(code) == Some(c),
{
    let code = key_of(c)->0;
    assert(plain_char(code) == Some(c));
}

/// The keys follow the US layout, row by row: make codes 0x02 to 0x0D type
/// `1234567890-=`, 0x10 to 0x19 type `qwertyuiop`, 0x1E to 0x26 type `asdfghjkl`,
/// 0x2C to 0x35 type `zxcvbnm,./`, and 0x39 is the space bar.
pub proof fn law_us_layout_rows(k: int)
    ensures
        0 <= k < 12 ==> plain_char((0x02 + k) as u8) == Some(seq!['1', '2', '3', '4', '5', '6', '7', '8', '9', '0', '-', '='][k]),
        0 <= k < 10 ==> plain_char((0x10 + k) as u8) == Some(seq!['q', 'w', 'e', 'r', 't', 'y', 'u', 'i', 'o', 'p'][k]),
        0 <= k < 9 ==> plain_char((0x1E + k) as u8) == Some(seq!['a', 's', 'd', 'f', 'g', 'h', 'j', 'k', 'l'][k]),
        0 <= k < 10 ==> plain_char((0x2C + k) as u8) == Some(seq!['z', 'x', 'c', 'v', 'b', 'n', 'm', ',', '.', '/'][k]),
        plain_char(0x39u8) == Some(' '),
{
}

fn shift_char(c: char) -> (shifted: char)
    ensures
        shifted == shifted_char(c),
{
    if 'a' <= c && c <= 'z' {
        let code = c as u32;
        let upper = (code - 32) as u8;
        upper as char
    } else {
        match c {
            '1' => '!',
            '2' => '@',
            '3' => '#',
            '4' => '$',
            '5' => '%',
            '6' => '^',
            '7' => '&',
            '8' => '*',
            '9' => '(',
            '0' => ')',
            '-' => '_',
            '=' => '+',
            ',' => '<',
            '.' => '>',
            '/' => '?',
            _ => c,
        }
    }
}

/// The character of make code `code` under the shift state.
pub fn decode_scancode(code: u8, shift: bool) -> (decoded: Option<char>)
    ensures
        decoded == spec_decode_scancode(code, shift),
{
    let normal = match code {
        0x02 => '1',
        0x03 => '2',
        0x04 => '3',
        0x05 => '4',
        0x06 => '5',
        0x07 => '6',
        0x08 => '7',
        0x09 => '8',
        0x0A => '9',
        0x0B => '0',
        0x10 => 'q',
        0x11 => 'w',
        0x12 => 'e',
        0x13 => 'r',
        0x14 => 't',
        0x15 => 'y',
        0x16 => 'u',
        0x17 => 'i',
        0x18 => 'o',
        0x19 => 'p',
        0x1E => 'a',
        0x1F => 's',
        0x20 => 'd',
        0x21 => 'f',
        0x22 => 'g',
        0x23 => 'h',
        0x24 => 'j',
        0x25 => 'k',
        0x26 => 'l',
        0x2C => 'z',
        0x2D => 'x',
        0x2E => 'c',
        0x2F => 'v',
        0x30 => 'b',
        0x31 => 'n',
        0x32 => 'm',
        0x39 => ' ',
        0x0C => '-',
        0x0D => '=',
        0x33 => ',',
        0x34 => '.',
        0x35 => '/',
        _ => return None,
    };
    if !shift {
        return Some(normal);
    }
    Some(shift_char(normal))
}

/// The decoder: remembers whether shift is held.
pub struct Keyboard {
    pub shift: bool,
}

/// The key scancode `code` gives with shift in state `shift`, and the shift state
/// after it.
pub open spec fn spec_decode(shift: bool, code: u8) -> (Option<Key>, bool) {
    if code == 0x2A || code == 0x36 {
        (None, true)
    } else if code == 0xAA || code == 0xB6 {
        (None, false)
    } else if code == 0x1C {
        (Some(Key::Enter), shift)
    } else if code == 0x0E {
        (Some(Key::Backspace), shift)
    } else if code == 0x0F {
        (Some(Key::Tab), shift)
    } else if code == 0x3B {
        (Some(Key::F1), shift)
    } else {
        (
            match spec_decode_scancode(code, shift) {
                Some(c) => Some(Key::Char(c)),
                None => None,
            },
            shift,
        )
    }
}

/// The PS/2 controller's status and data ports, read while interrupts are off.
pub trait Ps2Port {
    fn status(&mut self) -> u8;

    fn data(&mut self) -> u8;
}

impl Keyboard {
    pub fn new() -> (keyboard: Self)
        ensures
            !keyboard.shift,
    {
        Keyboard { shift: false }
    }

    /// Decodes one scancode, tracking shift presses and releases.
    pub fn decode(&mut self, scancode: u8) -> (key: Option<Key>)
        ensures
            (key, final(self).shift) == spec_decode(old(self).shift, scancode),
    {
        match scancode {
            0x2A | 0x36 => {
                self.shift = true;
                None
            },
            0xAA | 0xB6 => {
                self.shift = false;
                None
            },
            0x1C => Some(Key::Enter),
            0x0E => Some(Key::Backspace),
            0x0F => Some(Key::Tab),
            0x3B => Some(Key::F1),
            code => match decode_scancode(code, self.shift) {
                Some(c) => Some(Key::Char(c)),
                None => None,
            },
        }
    }

    /// Reads the controller directly: a scancode when its output buffer is full.
    pub fn poll_legacy<P: Ps2Port>(&mut self, port: &mut P) -> (key: Option<Key>) {
        let status = port.status();
        if status & 1 == 0 {
            return None;
        }
        let scancode = port.data();
        self.decode(scancode)
    }

    /// The next key: from the queue the interrupt handler fills, else, while
    /// interrupts are off, straight from the controller.
    pub fn poll<P: Ps2Port>(&mut self, queue: &mut ScancodeQueue, interrupts_enabled: bool, port: &mut P) -> (key: Option<Key>)
        requires
            old(queue).wf(),
        ensures
            final(queue).wf(),
            old(queue).pending().len() > 0 ==> final(queue).pending() == old(queue).pending().drop_first() && (key, final(self).shift) == spec_decode(old(self).shift, old(queue).pending()[0]),
            old(queue).pending().len() == 0 ==> final(queue).pending() == old(queue).pending(),
            old(queue).pending().len() == 0 && interrupts_enabled ==> key is None && final(self).shift == old(self).shift,
    {
        match queue.pop() {
            Some(scancode) => return self.decode(scancode),
            None => {},
        }
        if !interrupts_enabled {
            return self.poll_legacy(port);
        }
        None
    }
}

/// The byte a key types, if any: ASCII characters as themselves, Enter as a
/// newline, Backspace as 8, Tab as a tab.
pub open spec fn key_byte(key: Key) -> Option<u8> {
    match key {
        Key::Char(c) => if (c as u32) < 128 {
            Some(c as u8)
        } else {
            None
        },
        Key::Enter => Some(0x0au8),
        Key::Backspace => Some(8u8),
        Key::Tab => Some(0x09u8),
        Key::F1 => None,
    }
}

/// The bytes that decoding `codes` in order types, starting with the shift state
/// `shift`, and the shift state after them.
pub open spec fn typed(shift: bool, codes: Seq<u8>) -> (Seq<u8>, bool)
    decreases codes.len(),
{
    if codes.len() == 0 {
        (Seq::empty(), shift)
    } else {
        let (bytes, before) = typed(shift, codes.drop_last());
        let (key, after) = spec_decode(before, codes.last());
        let more = match key {
            Some(k) => match key_byte(k) {
                Some(b) => seq![b],
                None => Seq::empty(),
            },
            None => Seq::empty(),
        };
        (bytes + more, after)
    }
}

/// Fills `buffer` with the bytes of the keys that come in, stopping when no key is
/// waiting. Keys that type nothing are skipped; at most `buffer.len()` plus the
/// queue's capacity keys are taken in one call.
pub fn read_bytes<P: Ps2Port>(keyboard: &mut Keyboard, queue: &mut ScancodeQueue, interrupts_enabled: bool, port: &mut P, buffer: &mut [u8]) -> (count: usize)
    requires
        old(queue).wf(),
    ensures
        final(queue).wf(),
        count <= old(buffer)@.len(),
        final(buffer)@.len() == old(buffer)@.len(),
        final(buffer)@.subrange(count as int, old(buffer)@.len() as int) == old(buffer)@.subrange(
            count as int,
            old(buffer)@.len() as int,
        ),
        interrupts_enabled ==> exists|n: int|
            #![trigger typed(old(keyboard).shift, old(queue).pending().subrange(0, n))]
            0 <= n <= old(queue).pending().len() && {
                let codes = old(queue).pending();
                &&& final(queue).pending() == codes.subrange(n, codes.len() as int)
                &&& typed(old(keyboard).shift, codes.subrange(0, n))
                    == (final(buffer)@.subrange(0, count as int), final(keyboard).shift)
                &&& (count == old(buffer)@.len() || n == codes.len() || (n > 0 && spec_decode(
                    typed(old(keyboard).shift, codes.subrange(0, n - 1)).1,
                    codes[n - 1],
                ).0 is None))
            },
{
    let length = buffer.len();
    let mut count: usize = 0;
    let mut polls: usize = 0;
    let limit = if length <= usize::MAX - SCANCODE_QUEUE_CAPACITY {
        length + SCANCODE_QUEUE_CAPACITY
    } else {
        usize::MAX
    };
    let ghost codes = queue.pending();
    let ghost shift0 = keyboard.shift;
    let ghost mut n: int = 0;
    let mut done = false;
    while count < length && polls < limit && !done
        invariant
            count <= length,
            length == buffer@.len(),
            buffer@.len() == old(buffer)@.len(),
            queue.wf(),
            buffer@.subrange(count as int, length as int) == old(buffer)@.subrange(count as int, length as int),
            codes == old(queue).pending(),
            shift0 == old(keyboard).shift,
            limit >= SCANCODE_QUEUE_CAPACITY,
            codes.len() < SCANCODE_QUEUE_CAPACITY,
            interrupts_enabled ==> 0 <= n <= codes.len(),
            interrupts_enabled && !done ==> polls == n,
            interrupts_enabled ==> queue.pending() == codes.subrange(n, codes.len() as int),
            interrupts_enabled ==> typed(shift0, codes.subrange(0, n)) == (buffer@.subrange(0, count as int), keyboard.shift),
            interrupts_enabled && done ==> n > 0 && spec_decode(typed(shift0, codes.subrange(0, n - 1)).1, codes[n - 1]).0 is None
                || n == codes.len(),
        decreases limit - polls, if done { 0int } else { 1int },
    {
        polls = polls + 1;
        let ghost pending = queue.pending();
        let ghost shift_before = keyboard.shift;
        let polled = keyboard.poll(queue, interrupts_enabled, port);
        proof {
            if interrupts_enabled && pending.len() > 0 {
                assert(codes.subrange(0, n + 1).drop_last() =~= codes.subrange(0, n));
                assert(pending[0] == codes[n]);
                assert(codes.subrange(n, codes.len() as int).drop_first() =~= codes.subrange(n + 1, codes.len() as int));
                n = n + 1;
            }
        }
        let byte: Option<u8> = match polled {
            Some(Key::Char(c)) => if (c as u32) < 128 {
                Some(c as u8)
            } else {
                None
            },
            Some(Key::Enter) => Some(0x0a),
            Some(Key::Backspace) => Some(8),
            Some(Key::Tab) => Some(0x09),
            Some(Key::F1) => None,
            None => None,
        };
        if polled.is_none() {
            done = true;
        }
        match byte {
            Some(byte) => {
                let ghost before = buffer@;
                buffer[count] = byte;
                proof {
                    assert(buffer@.subrange(count + 1, length as int) =~= before.subrange(count + 1, length as int));
                    assert(before.subrange(count + 1, length as int) =~= old(buffer)@.subrange(count + 1, length as int)) by {
                        assert forall|k: int| 0 <= k < length - count - 1 implies #[trigger] before.subrange(count + 1, length as int)[k]
                            == old(buffer)@.subrange(count + 1, length as int)[k] by {
                            assert(before.subrange(count as int, length as int)[k + 1] == old(buffer)@.subrange(
                                count as int,
                                length as int,
                            )[k + 1]);
                        }
                    }
                    assert(buffer@.subrange(0, count + 1) =~= before.subrange(0, count as int).push(byte));
                }
                count = count + 1;
            },
            None => {},
        }
        proof {
            if interrupts_enabled {
                assert(buffer@.subrange(0, count as int) == typed(shift0, codes.subrange(0, n)).0);
            }
        }
    }
    count
}


/// Queues `count` presses of `a`, as if typed.
pub fn inject_validation_input(queue: &mut ScancodeQueue, count: usize)
    requires
        old(queue).wf(),
    ensures
        final(queue).wf(),
        final(queue).pending().len() == if old(queue).pending().len() + count < SCANCODE_QUEUE_CAPACITY - 1 {
            old(queue).pending().len() + count
        } else if old(queue).pending().len() < SCANCODE_QUEUE_CAPACITY - 1 {
            (SCANCODE_QUEUE_CAPACITY - 1) as int
        } else {
            old(queue).pending().len() as int
        },
        forall|i: int| old(queue).pending().len() <= i < final(queue).pending().len() ==> #[trigger] final(queue).pending()[i]
            == VALIDATION_SCANCODE,
        forall|i: int| 0 <= i < old(queue).pending().len() ==> #[trigger] final(queue).pending()[i] == old(queue).pending()[i],
{
    let mut i: usize = 0;
    while i < count
        invariant
            i <= count,
            queue.wf(),
            queue.pending().len() == if old(queue).pending().len() + i < SCANCODE_QUEUE_CAPACITY - 1 {
                old(queue).pending().len() + i
            } else if old(queue).pending().len() < SCANCODE_QUEUE_CAPACITY - 1 {
                (SCANCODE_QUEUE_CAPACITY - 1) as int
            } else {
                old(queue).pending().len() as int
            },
            forall|k: int| old(queue).pending().len() <= k < queue.pending().len() ==> #[trigger] queue.pending()[k]
                == VALIDATION_SCANCODE,
            forall|k: int| 0 <= k < old(queue).pending().len() ==> #[trigger] queue.pending()[k] == old(queue).pending()[k],
        decreases count - i,
    {
        let ghost before = queue.pending();
        queue.push(VALIDATION_SCANCODE);
        proof {
            if before.len() < SCANCODE_QUEUE_CAPACITY - 1 {
                assert forall|k: int| 0 <= k < before.len() implies #[trigger] queue.pending()[k] == before[k] by {
                    assert(queue.pending() == before.push(VALIDATION_SCANCODE));
                }
            }
        }
        i = i + 1;
    }
}

/// Decodes `a`, a shift press, `A`, the release and Enter.
pub fn self_test() -> (passed: bool)
    ensures
        passed,
{
    let mut keyboard = Keyboard::new();
    let lower = keyboard.decode(0x1e);
    let press = keyboard.decode(0x2a);
    let upper = keyboard.decode(0x1e);
    let release = keyboard.decode(0xaa);
    let enter = keyboard.decode(0x1c);
    proof {
        assert(('a' as u32) - 32 == 65);
    }
    lower == Some(Key::Char('a')) && press.is_none() && upper == Some(Key::Char('A')) && release.is_none() && enter
        == Some(Key::Enter)
}

} // verus!
