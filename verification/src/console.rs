//! What the console decides: which bytes go out for a byte that is sent,
//! and what a key does to the line that is typed.

use vstd::prelude::*;

verus! {

/// The backspace key.
pub const BS: u8 = 8;

/// The delete key.
pub const DL: u8 = 127;

/// The line feed key.
pub const LF: u8 = 10;

/// The carriage return key.
pub const CR: u8 = 13;

/// The bytes that stand for `data` on the serial line: a backspace or a
/// delete erases the character before the cursor, by going back, writing a
/// blank and going back again; every other byte is sent as it is.
pub open spec fn echo_of(data: u8) -> Seq<u8> {
    if data == 8 || data == 127 {
        seq![8u8, 32u8, 8u8]
    } else {
        seq![data]
    }
}

/// The bytes to send for `data`.
pub fn echo(data: u8) -> (bytes: Vec<u8>)
    ensures
        bytes@ == echo_of(data),
{
    let mut bytes: Vec<u8> = Vec::new();
    match data {
        8 | 0x7F => {
            bytes.push(8);
            bytes.push(32);
            bytes.push(8);
        },
        _ => {
            bytes.push(data);
        },
    }
    assert(bytes@ =~= echo_of(data));
    bytes
}

/// Whether the key `key` ends a line.
pub open spec fn ends_line(key: u8) -> bool {
    key == 10 || key == 13
}

/// A line after the key `key`, where the key erases: a backspace or a
/// delete takes the last character away, if there is one; every other key
/// is appended.
pub open spec fn edited(line: Seq<u8>, key: u8) -> Seq<u8> {
    if key == 8 || key == 127 {
        if line.len() > 0 {
            line.drop_last()
        } else {
            line
        }
    } else {
        line.push(key)
    }
}

/// The line typed by the keys `keys`, of which none ends a line, where keys
/// erase.
pub open spec fn typed(keys: Seq<u8>) -> Seq<u8>
    decreases keys.len(),
{
    if keys.len() == 0 {
        Seq::empty()
    } else {
        edited(typed(keys.drop_last()), keys.last())
    }
}

/// One key of a line that is read without erasing: `true` where the key
/// ends the line, else the key is appended.
pub fn line_key(line: &mut Vec<u8>, key: u8) -> (done: bool)
    ensures
        done == ends_line(key),
        final(line)@ == (if done {
            old(line)@
        } else {
            old(line)@.push(key)
        }),
{
    if key == LF || key == CR {
        true
    } else {
        line.push(key);
        false
    }
}

/// One key of a line that is read by the shell: `true` where the key ends
/// the line; else a backspace or a delete takes the last character away, and
/// every other key is appended.
pub fn shell_key(line: &mut Vec<u8>, key: u8) -> (done: bool)
    ensures
        done == ends_line(key),
        final(line)@ == (if done {
            old(line)@
        } else {
            edited(old(line)@, key)
        }),
{
    if key == LF || key == CR {
        true
    } else {
        if key == DL || key == BS {
            if line.len() > 0 {
                line.pop();
            }
        } else {
            line.push(key);
        }
        false
    }
}

/// The line that the shell reads from the keys `keys`: what is typed up to
/// the first key that ends a line, and the number of keys that are used up,
/// that key among them. Where no key ends a line, all keys are used up.
pub fn getshell(keys: &[u8]) -> (result: (Vec<u8>, usize))
    ensures
        result.1 <= keys@.len(),
        result.1 == keys@.len() || (result.1 > 0 && ends_line(keys@[result.1 - 1])),
        forall|i: int| 0 <= i < result.1 - 1 ==> !ends_line(#[trigger] keys@[i]),
        result.1 == keys@.len() && result.1 > 0 && !ends_line(keys@[result.1 - 1]) ==> result.0@
            == typed(keys@),
        result.1 > 0 && ends_line(keys@[result.1 - 1]) ==> result.0@ == typed(
            keys@.subrange(0, result.1 - 1),
        ),
        result.1 == 0 ==> result.0@.len() == 0,
{
    let mut line: Vec<u8> = Vec::new();
    let mut i: usize = 0;
    let n = keys.len();
    while i < n
        invariant
            i <= n,
            n == keys@.len(),
            line@ == typed(keys@.subrange(0, i as int)),
            forall|k: int| 0 <= k < i ==> !ends_line(#[trigger] keys@[k]),
        decreases n - i,
    {
        let key = keys[i];
        let ghost before = keys@.subrange(0, i as int);
        if shell_key(&mut line, key) {
            return (line, i + 1);
        }
        proof {
            let now = keys@.subrange(0, i + 1);
            assert(now.drop_last() =~= before);
            assert(now.last() == key);
        }
        i += 1;
    }
    proof {
        assert(keys@.subrange(0, n as int) =~= keys@);
    }
    (line, n)
}

/// What a parent does with the answer of the kernel to its wait for a
/// child: `None` where no child has ended yet and the parent is to yield and
/// ask again, else the answer, which is the number of the child or `-1`.
pub fn wait_step(answer: isize) -> (result: Option<isize>)
    ensures
        result == (if answer == -2 {
            None
        } else {
            Some(answer)
        }),
{
    if answer == -2 {
        None
    } else {
        Some(answer)
    }
}

} // verus!
