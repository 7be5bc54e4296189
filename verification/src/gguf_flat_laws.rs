//! How metadata is measured, and what a file keeps when its arrays are taken out of one another.

use crate::bytes::{le_bytes, lemma_le_bytes_len};
use crate::from_gguf::shallow;
use crate::gguf_flat::{
    array_lead, empty_array, flat_rest, flattened, holds_arrays, lemma_value_walk_moves,
};
use crate::gguf_nesting::{
    elements_walk, entries_walk, has_metadata, length_at, nests_within, text_walk, value_walk,
    word_at, Walk, GGUF_MAGIC,
};
use vstd::prelude::*;

verus! {

/// Numbers and truth values take 1, 2, 4 or 8 bytes by their type number, a text the 8 bytes of its
/// length and as many as that says. Other numbers cannot be walked over.
pub proof fn law_values_have_their_length(data: Seq<u8>, at: int, ty: u32, room: nat)
    requires
        0 <= at,
        ty != 9,
    ensures
        ({
            let n = if ty == 0 || ty == 1 || ty == 7 {
                1int
            } else if ty == 2 || ty == 3 {
                2
            } else if ty == 4 || ty == 5 || ty == 6 {
                4
            } else if ty == 10 || ty == 11 || ty == 12 {
                8
            } else {
                8 + length_at(data, at)
            };
            &&& ty <= 12 && at + 8 <= data.len() && at + n <= data.len() ==> value_walk(
                data,
                at,
                ty,
                room,
            ) == (Walk::End { at: at + n })
            &&& ty <= 12 && at + n > data.len() ==> value_walk(data, at, ty, room) is Stop
            &&& ty > 12 ==> value_walk(data, at, ty, room) is Stop
        }),
{
}

/// An array takes 4 bytes for the type of its elements, 8 for their number, and its elements, one
/// behind the other; it needs room for one more array than its elements do.
pub proof fn law_array_is_its_elements(data: Seq<u8>, at: int, room: nat, count: nat, ty: u32)
    requires
        0 <= at,
        at + 12 <= data.len(),
        word_at(data, at) <= 12,
    ensures
        value_walk(data, at, 9, 0) is TooDeep,
        value_walk(data, at, 9, room + 1) == elements_walk(
            data,
            at + 12,
            word_at(data, at),
            length_at(data, at + 4) as nat,
            room,
        ),
        elements_walk(data, at, ty, 0, room) == (Walk::End { at }),
        elements_walk(data, at, ty, count + 1, room) == (match value_walk(data, at, ty, room) {
            Walk::End { at: next } => elements_walk(data, next, ty, count, room),
            other => other,
        }),
{
}

/// A file is parsed as it is unless its metadata nests more than 64 arrays. Without the magic bytes
/// or 24 bytes in front of the metadata there is none.
pub proof fn law_file_is_parsed_as_it_is(data: Seq<u8>)
    ensures
        nests_within(data, 64) ==> shallow(data) == data,
        data.len() < 24 || data.subrange(0, 4) != seq![71u8, 71, 85, 70] ==> shallow(data) == data,
        data.len() >= 24 && length_at(data, 16) == 0 ==> shallow(data) == data,
{
    assert(GGUF_MAGIC@ =~= seq![71u8, 71, 85, 70]);
}

/// Where the walk over the rest of the open arrays, as many elements of each as `open` says, and
/// then over `left` entries comes to.
spec fn open_walk(data: Seq<u8>, at: int, open: Seq<nat>, left: nat, room: nat) -> Walk
    decreases open.len(),
{
    if open.len() == 0 {
        entries_walk(data, at, left, room)
    } else if room < open.len() {
        Walk::TooDeep
    } else {
        match elements_walk(data, at, 9, open.last(), (room - open.len()) as nat) {
            Walk::End { at: next } => open_walk(data, next, open.drop_last(), left, room),
            other => other,
        }
    }
}

proof fn lemma_room_does_not_matter(
    data: Seq<u8>,
    at: int,
    ty: u32,
    count: nat,
    room: nat,
    other: nat,
)
    requires
        ty != 9,
    ensures
        elements_walk(data, at, ty, count, room) == elements_walk(data, at, ty, count, other),
    decreases count,
{
    if count > 0 {
        assert(value_walk(data, at, ty, room) == value_walk(data, at, ty, other));
        if let Walk::End { at: next } = value_walk(data, at, ty, room) {
            lemma_room_does_not_matter(data, next, ty, (count - 1) as nat, room, other);
        }
    }
}

/// A value that is no array of arrays is walked with room for one array as with more.
proof fn lemma_one_room_is_enough(data: Seq<u8>, at: int, ty: u32, room: nat)
    requires
        ty == 9 ==> !holds_arrays(data, at),
        value_walk(data, at, ty, room) is End,
    ensures
        value_walk(data, at, ty, 1) == value_walk(data, at, ty, room),
{
    if ty == 9 {
        lemma_room_does_not_matter(
            data,
            at + 12,
            word_at(data, at),
            length_at(data, at + 4) as nat,
            (room - 1) as nat,
            0,
        );
    }
}

/// Whether a text ends with another.
pub open spec fn ends_with(text: Seq<u8>, end: Seq<u8>) -> bool {
    text.len() >= end.len() && text.subrange(text.len() - end.len(), text.len() as int) == end
}

proof fn lemma_ends_with_longer(front: Seq<u8>, text: Seq<u8>, end: Seq<u8>)
    requires
        ends_with(text, end),
    ensures
        ends_with(front + text, end),
{
    let whole = front + text;
    assert(whole.subrange(whole.len() - end.len(), whole.len() as int) =~= text.subrange(
        text.len() - end.len(),
        text.len() as int,
    ));
}

proof fn lemma_rest_is_kept(
    data: Seq<u8>,
    at: int,
    open: Seq<nat>,
    left: nat,
    room: nat,
    end: int,
)
    requires
        0 <= at <= data.len(),
        open_walk(data, at, open, left, room) == (Walk::End { at: end }),
    ensures
        at <= end <= data.len(),
        ends_with(
            flat_rest(data, at, open, left).0,
            data.subrange(end, data.len() as int),
        ),
    decreases data.len() - at, open.len(),
{
    let n = data.len() as int;
    let tail = data.subrange(end, n);
    if open.len() > 0 {
        let depth = (room - open.len()) as nat;
        if open.last() == 0 {
            lemma_rest_is_kept(data, at, open.drop_last(), left, room, end);
        } else {
            let others = open.drop_last().push((open.last() - 1) as nat);
            assert(others.drop_last() =~= open.drop_last());
            assert(others.last() == open.last() - 1);
            let step = value_walk(data, at, 9, depth);
            assert(step is End);
            let next = step->at;
            assert(open_walk(data, next, others, left, room) == open_walk(
                data,
                at,
                open,
                left,
                room,
            ));
            if holds_arrays(data, at) {
                let inner = others.push(length_at(data, at + 4) as nat);
                assert(inner.drop_last() =~= others);
                lemma_rest_is_kept(data, at + 12, inner, left, room, end);
            } else {
                lemma_one_room_is_enough(data, at, 9, depth);
                lemma_value_walk_moves(data, at, 9, depth);
                lemma_rest_is_kept(data, next, others, left, room, end);
                lemma_ends_with_longer(
                    array_lead() + data.subrange(at, next),
                    flat_rest(data, next, others, left).0,
                    tail,
                );
            }
        }
    } else if left == 0 {
        assert(ends_with(data.subrange(at, n), tail)) by {
            assert(data.subrange(at, n).subrange(0, n - at) =~= tail);
        }
    } else {
        let fewer = (left - 1) as nat;
        let key_end = text_walk(data, at)->at;
        let ty = word_at(data, key_end);
        let step = value_walk(data, key_end + 4, ty, room);
        assert(step is End);
        let next = step->at;
        lemma_value_walk_moves(data, key_end + 4, ty, room);
        if ty == 9 && holds_arrays(data, key_end + 4) {
            let count = length_at(data, key_end + 8) as nat;
            let inner = seq![count];
            assert(inner.drop_last() =~= Seq::<nat>::empty());
            assert(open_walk(data, next, Seq::empty(), fewer, room) == entries_walk(
                data,
                next,
                fewer,
                room,
            ));
            assert(open_walk(data, key_end + 16, inner, fewer, room) == (Walk::End { at: end }));
            lemma_rest_is_kept(data, key_end + 16, inner, fewer, room, end);
            lemma_ends_with_longer(
                data.subrange(at, key_end + 4) + empty_array(),
                flat_rest(data, key_end + 16, inner, fewer).0,
                tail,
            );
        } else {
            lemma_one_room_is_enough(data, key_end + 4, ty, room);
            assert(open_walk(data, next, Seq::empty(), fewer, room) == entries_walk(
                data,
                next,
                fewer,
                room,
            ));
            lemma_rest_is_kept(data, next, Seq::empty(), fewer, room, end);
            lemma_ends_with_longer(
                data.subrange(at, next),
                flat_rest(data, next, Seq::empty(), fewer).0,
                tail,
            );
        }
    }
}

/// A file that is parsed in place of another starts with the same 16 bytes, the magic bytes, the
/// version and the number of tensors, and ends with everything that stands behind the metadata:
/// the list of the tensors and their payloads.
pub proof fn law_tensor_list_is_kept(data: Seq<u8>, room: nat, end: int)
    requires
        has_metadata(data),
        entries_walk(data, 24, length_at(data, 16) as nat, room) == (Walk::End { at: end }),
    ensures
        shallow(data).len() >= 16,
        shallow(data).subrange(0, 16) == data.subrange(0, 16),
        end <= data.len(),
        ends_with(shallow(data), data.subrange(end, data.len() as int)),
{
    broadcast use lemma_le_bytes_len;

    let n = data.len() as int;
    let left = length_at(data, 16) as nat;
    let rest = flat_rest(data, 24, Seq::empty(), left);
    assert(open_walk(data, 24, Seq::empty(), left, room) == (Walk::End { at: end }));
    lemma_rest_is_kept(data, 24, Seq::empty(), left, room, end);
    let front = data.subrange(0, 16) + le_bytes(rest.1, 8);
    lemma_ends_with_longer(front, rest.0, data.subrange(end, n));
    assert(flattened(data).subrange(0, 16) =~= data.subrange(0, 16));
    assert(data.subrange(n - (n - end), n) =~= data.subrange(end, n));
    assert(ends_with(data, data.subrange(end, n)));
}

} // verus!
