//! How deep the metadata arrays of a GGUF file nest.
//!
//! Metadata values are walked as the file lays them out: a type number and a value, where an array
//! holds the type number and the count of its elements, and elements of an array type are arrays
//! again.

use crate::bytes::{get_u32, get_u64, le_value, same_bytes};
use vstd::prelude::*;
use vstd::slice::slice_subrange;

verus! {

/// Bytes at the start of a GGUF file.
pub const GGUF_MAGIC: [u8; 4] = [0x47, 0x47, 0x55, 0x46];

/// Type number of a text.
pub const TEXT_TYPE: u32 = 8;

/// Type number of an array.
pub const ARRAY_TYPE: u32 = 9;

/// Bytes in front of the metadata: magic, version, tensor count and metadata count.
pub const METADATA_START: usize = 24;

/// Where a walk over metadata comes to.
pub enum Walk {
    /// The end of what was walked.
    End { at: int },
    /// Bytes that cannot be walked: they are cut off or have no such form.
    Stop,
    /// An array inside more arrays than allowed.
    TooDeep,
}

/// The four bytes at `at` as a number.
pub open spec fn word_at(data: Seq<u8>, at: int) -> u32 {
    le_value(data.subrange(at, at + 4)) as u32
}

/// The eight bytes at `at` as a length.
pub open spec fn length_at(data: Seq<u8>, at: int) -> int {
    (le_value(data.subrange(at, at + 8)) as u64) as usize as int
}

/// Walk over a text: its length and its bytes.
pub open spec fn text_walk(data: Seq<u8>, at: int) -> Walk {
    if at + 8 > data.len() || at + 8 + length_at(data, at) > data.len() {
        Walk::Stop
    } else {
        Walk::End { at: at + 8 + length_at(data, at) }
    }
}

/// Bytes of a value of a fixed length, by type number; zero for other types.
pub open spec fn fixed_len(ty: u32) -> int {
    if ty == 0 || ty == 1 || ty == 7 {
        1
    } else if ty == 2 || ty == 3 {
        2
    } else if ty == 4 || ty == 5 || ty == 6 {
        4
    } else if ty == 10 || ty == 11 || ty == 12 {
        8
    } else {
        0
    }
}

/// Walk over a value of the given type, with room for that many arrays inside one another.
pub open spec fn value_walk(data: Seq<u8>, at: int, ty: u32, room: nat) -> Walk
    decreases room, 0int, 0nat,
{
    if ty == ARRAY_TYPE {
        if room == 0 {
            Walk::TooDeep
        } else if at + 12 > data.len() || word_at(data, at) > 12 {
            Walk::Stop
        } else {
            elements_walk(
                data,
                at + 12,
                word_at(data, at),
                length_at(data, at + 4) as nat,
                (room - 1) as nat,
            )
        }
    } else if ty == TEXT_TYPE {
        text_walk(data, at)
    } else if ty > 12 || at + fixed_len(ty) > data.len() {
        Walk::Stop
    } else {
        Walk::End { at: at + fixed_len(ty) }
    }
}

/// Walk over `count` values of the given type.
pub open spec fn elements_walk(data: Seq<u8>, at: int, ty: u32, count: nat, room: nat) -> Walk
    decreases room, 1int, count,
{
    if count == 0 {
        Walk::End { at }
    } else {
        match value_walk(data, at, ty, room) {
            Walk::End { at: next } => elements_walk(data, next, ty, (count - 1) as nat, room),
            other => other,
        }
    }
}

/// Walk over `count` metadata entries: a name, a type number and a value each.
pub open spec fn entries_walk(data: Seq<u8>, at: int, count: nat, room: nat) -> Walk
    decreases count,
{
    if count == 0 {
        Walk::End { at }
    } else {
        match text_walk(data, at) {
            Walk::End { at: key_end } => if key_end + 4 > data.len() {
                Walk::Stop
            } else {
                match value_walk(data, key_end + 4, word_at(data, key_end), room) {
                    Walk::End { at: next } => entries_walk(data, next, (count - 1) as nat, room),
                    other => other,
                }
            },
            other => other,
        }
    }
}

/// Whether the bytes start like a GGUF file with metadata.
pub open spec fn has_metadata(data: Seq<u8>) -> bool {
    data.len() >= METADATA_START && data.subrange(0, 4) == GGUF_MAGIC@
}

/// Whether no metadata value of a file nests more than `limit` arrays, as far as its metadata can
/// be walked.
pub open spec fn nests_within(data: Seq<u8>, limit: nat) -> bool {
    has_metadata(data) ==> !(entries_walk(
        data,
        METADATA_START as int,
        length_at(data, 16) as nat,
        limit,
    ) is TooDeep)
}

/// Where a walk over metadata came to.
pub(crate) enum Walked {
    End(usize),
    Stop,
    TooDeep,
}

impl Walked {
    pub(crate) open spec fn says(self, walk: Walk, data: Seq<u8>) -> bool {
        match (self, walk) {
            (Walked::End(a), Walk::End { at }) => a == at && a <= data.len(),
            (Walked::Stop, Walk::Stop) => true,
            (Walked::TooDeep, Walk::TooDeep) => true,
            _ => false,
        }
    }
}

pub(crate) fn walk_text(data: &[u8], at: usize) -> (r: Walked)
    requires
        at <= data@.len(),
    ensures
        r.says(text_walk(data@, at as int), data@),
{
    let rest: usize = data.len() - at;
    if rest < 8 {
        return Walked::Stop;
    }
    let len: usize = get_u64(data, at) as usize;
    if len > rest - 8 {
        Walked::Stop
    } else {
        Walked::End(at + 8 + len)
    }
}

fn get_fixed_len(ty: u32) -> (n: usize)
    ensures
        n == fixed_len(ty),
{
    if ty == 0 || ty == 1 || ty == 7 {
        1
    } else if ty == 2 || ty == 3 {
        2
    } else if ty == 4 || ty == 5 || ty == 6 {
        4
    } else if ty == 10 || ty == 11 || ty == 12 {
        8
    } else {
        0
    }
}

pub(crate) fn walk_value(data: &[u8], at: usize, ty: u32, room: u32) -> (r: Walked)
    requires
        at <= data@.len(),
    ensures
        r.says(value_walk(data@, at as int, ty, room as nat), data@),
    decreases room, 0int,
{
    let rest: usize = data.len() - at;
    if ty == ARRAY_TYPE {
        if room == 0 {
            return Walked::TooDeep;
        }
        if rest < 12 {
            return Walked::Stop;
        }
        let inner: u32 = get_u32(data, at);
        if inner > 12 {
            return Walked::Stop;
        }
        let count: usize = get_u64(data, at + 4) as usize;
        walk_elements(data, at + 12, inner, count, room - 1)
    } else if ty == TEXT_TYPE {
        walk_text(data, at)
    } else if ty > 12 {
        Walked::Stop
    } else {
        let len: usize = get_fixed_len(ty);
        if len > rest {
            Walked::Stop
        } else {
            Walked::End(at + len)
        }
    }
}

fn walk_elements(data: &[u8], start: usize, ty: u32, count: usize, room: u32) -> (r: Walked)
    requires
        start <= data@.len(),
    ensures
        r.says(elements_walk(data@, start as int, ty, count as nat, room as nat), data@),
    decreases room, 1int,
{
    let mut at: usize = start;
    let mut left: usize = count;
    while left > 0
        invariant
            at <= data@.len(),
            elements_walk(data@, start as int, ty, count as nat, room as nat) == elements_walk(
                data@,
                at as int,
                ty,
                left as nat,
                room as nat,
            ),
        decreases left,
    {
        match walk_value(data, at, ty, room) {
            Walked::End(next) => {
                at = next;
            },
            Walked::Stop => return Walked::Stop,
            Walked::TooDeep => return Walked::TooDeep,
        }
        left -= 1;
    }
    Walked::End(at)
}

/// Whether no metadata value of a file nests more than `limit` arrays, as far as its metadata can
/// be walked.
pub fn nesting_within(data: &[u8], limit: u32) -> (r: bool)
    ensures
        r == nests_within(data@, limit as nat),
{
    let magic: [u8; 4] = GGUF_MAGIC;
    if data.len() < METADATA_START || !same_bytes(slice_subrange(data, 0, 4), magic.as_slice()) {
        return true;
    }
    let count: usize = get_u64(data, 16) as usize;
    let mut at: usize = METADATA_START;
    let mut left: usize = count;
    while left > 0
        invariant
            at <= data@.len(),
            has_metadata(data@),
            count == length_at(data@, 16),
            entries_walk(data@, METADATA_START as int, count as nat, limit as nat) == entries_walk(
                data@,
                at as int,
                left as nat,
                limit as nat,
            ),
        decreases left,
    {
        let key_end: usize = match walk_text(data, at) {
            Walked::End(key_end) => key_end,
            _ => return true,
        };
        if data.len() - key_end < 4 {
            return true;
        }
        let ty: u32 = get_u32(data, key_end);
        match walk_value(data, key_end + 4, ty, limit) {
            Walked::End(next) => {
                at = next;
            },
            Walked::Stop => return true,
            Walked::TooDeep => return false,
        }
        left -= 1;
    }
    true
}

} // verus!
