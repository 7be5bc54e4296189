//! GGUF metadata without arrays inside arrays.
//!
//! A file with deeply nested metadata arrays is rewritten so that every array whose elements are no
//! arrays becomes a metadata entry of its own, and the arrays around it vanish. The bytes behind
//! the metadata, which list the tensors, stay as they are.

use crate::bytes::{
    get_u32, get_u64, le_bytes, lemma_le_bytes_len, lemma_le_value_of_le_bytes, lemma_pow256_widths,
    put_u32, put_u64,
};
use crate::gguf_nesting::{
    elements_walk, entries_walk, has_metadata, length_at, nests_within, text_walk, value_walk,
    walk_text, walk_value, word_at, Walk, Walked, ARRAY_TYPE, METADATA_START, TEXT_TYPE,
};
use vstd::prelude::*;
use vstd::slice::slice_subrange;

verus! {

/// Bytes in front of the metadata count.
pub const COUNT_START: usize = 16;

/// Bytes of the element type and the count of an array.
pub const ARRAY_HEAD: usize = 12;

/// Whether an array starts at `at` whose elements are arrays.
pub open spec fn holds_arrays(data: Seq<u8>, at: int) -> bool {
    at + ARRAY_HEAD <= data.len() && word_at(data, at) == ARRAY_TYPE
}

/// An empty name and the type number of an array: what stands in front of an array that becomes an
/// entry.
pub open spec fn array_lead() -> Seq<u8> {
    le_bytes(0, 8) + le_bytes(ARRAY_TYPE as nat, 4)
}

/// An array without elements.
pub open spec fn empty_array() -> Seq<u8> {
    le_bytes(0, 4) + le_bytes(0, 8)
}

/// One more entry in front of others, with the number of entries.
pub open spec fn in_front(entry: Seq<u8>, rest: (Seq<u8>, nat)) -> (Seq<u8>, nat) {
    (entry + rest.0, rest.1 + 1)
}

/// What replaces the bytes from `at` on, and the number of metadata entries in it. At `at` stand
/// the next elements of the open arrays, as many of each as `open` says, the innermost array last,
/// then `left` metadata entries, then the tensors. Where bytes cannot be walked, all that is left
/// stays and counts as one entry.
pub open spec fn flat_rest(data: Seq<u8>, at: int, open: Seq<nat>, left: nat) -> (Seq<u8>, nat)
    decreases data.len() - at, open.len(),
{
    proof {
        broadcast use lemma_value_walk_moves;

    }
    let all = data.subrange(at, data.len() as int);
    if open.len() > 0 {
        if open.last() == 0 {
            flat_rest(data, at, open.drop_last(), left)
        } else {
            let others = open.drop_last().push((open.last() - 1) as nat);
            if holds_arrays(data, at) {
                flat_rest(
                    data,
                    at + ARRAY_HEAD,
                    others.push(length_at(data, at + 4) as nat),
                    left,
                )
            } else {
                match value_walk(data, at, ARRAY_TYPE, 1) {
                    Walk::End { at: next } => in_front(
                        array_lead() + data.subrange(at, next),
                        flat_rest(data, next, others, left),
                    ),
                    _ => (array_lead() + all, 1),
                }
            }
        }
    } else if left == 0 {
        (all, 0)
    } else {
        match text_walk(data, at) {
            Walk::End { at: key_end } => if key_end + 4 > data.len() {
                (all, 1)
            } else if word_at(data, key_end) == ARRAY_TYPE && holds_arrays(data, key_end + 4) {
                in_front(
                    data.subrange(at, key_end + 4) + empty_array(),
                    flat_rest(
                        data,
                        key_end + 4 + ARRAY_HEAD,
                        seq![length_at(data, key_end + 8) as nat],
                        (left - 1) as nat,
                    ),
                )
            } else {
                match value_walk(data, key_end + 4, word_at(data, key_end), 1) {
                    Walk::End { at: next } => in_front(
                        data.subrange(at, next),
                        flat_rest(data, next, Seq::empty(), (left - 1) as nat),
                    ),
                    _ => (all, 1),
                }
            },
            _ => (all, 1),
        }
    }
}

/// A file with metadata whose arrays were taken out of one another.
pub open spec fn flattened(data: Seq<u8>) -> Seq<u8> {
    let rest = flat_rest(
        data,
        METADATA_START as int,
        Seq::empty(),
        length_at(data, COUNT_START as int) as nat,
    );
    data.subrange(0, COUNT_START as int) + le_bytes(rest.1, 8) + rest.0
}

proof fn lemma_elements_walk_moves(data: Seq<u8>, at: int, ty: u32, count: nat, room: nat)
    requires
        at <= data.len(),
    ensures
        elements_walk(data, at, ty, count, room) matches Walk::End { at: next } ==> at <= next
            <= data.len(),
    decreases room, 1int, count,
{
    if count > 0 {
        lemma_value_walk_moves(data, at, ty, room);
        if let Walk::End { at: next } = value_walk(data, at, ty, room) {
            lemma_elements_walk_moves(data, next, ty, (count - 1) as nat, room);
        }
    }
}

/// A walk over a value moves on, and stays within the file.
pub broadcast proof fn lemma_value_walk_moves(data: Seq<u8>, at: int, ty: u32, room: nat)
    ensures
        #[trigger] value_walk(data, at, ty, room) matches Walk::End { at: next } ==> at < next
            <= data.len(),
    decreases room, 0int, 0nat,
{
    if ty == ARRAY_TYPE && room > 0 && at + 12 <= data.len() {
        lemma_elements_walk_moves(
            data,
            at + 12,
            word_at(data, at),
            length_at(data, at + 4) as nat,
            (room - 1) as nat,
        );
    }
}

/// Whether `n` bytes at `x` of one text are the bytes at `y` of another.
spec fn same_at(f: Seq<u8>, x: int, data: Seq<u8>, y: int, n: int) -> bool {
    &&& 0 <= x
    &&& x + n <= f.len()
    &&& 0 <= y
    &&& y + n <= data.len()
    &&& forall|k: int| 0 <= k < n ==> f[x + k] == #[trigger] data[y + k]
}

proof fn lemma_same_words(f: Seq<u8>, x: int, data: Seq<u8>, y: int, n: int)
    requires
        same_at(f, x, data, y, n),
    ensures
        n >= 4 ==> word_at(f, x) == word_at(data, y),
        n >= 8 ==> length_at(f, x) == length_at(data, y),
{
    if n >= 4 {
        lemma_same_range(f, x, data, y, n, 4);
    }
    if n >= 8 {
        lemma_same_range(f, x, data, y, n, 8);
    }
}

proof fn lemma_same_range(f: Seq<u8>, x: int, data: Seq<u8>, y: int, n: int, m: int)
    requires
        same_at(f, x, data, y, n),
        0 <= m <= n,
    ensures
        f.subrange(x, x + m) == data.subrange(y, y + m),
{
    let a = f.subrange(x, x + m);
    let b = data.subrange(y, y + m);
    assert forall|k: int| 0 <= k < m implies #[trigger] a[k] == b[k] by {
        assert(f[x + k] == data[y + k]);
    }
    assert(a =~= b);
}

proof fn lemma_same_part(f: Seq<u8>, x: int, data: Seq<u8>, y: int, n: int, from: int, m: int)
    requires
        same_at(f, x, data, y, n),
        0 <= from,
        0 <= m,
        from + m <= n,
    ensures
        same_at(f, x + from, data, y + from, m),
{
    assert forall|k: int| 0 <= k < m implies f[x + from + k] == #[trigger] data[y + from + k] by {
        assert(f[x + (from + k)] == data[y + (from + k)]);
    }
}

/// A text is walked in the same way wherever its bytes stand.
proof fn lemma_text_walks_alike(f: Seq<u8>, x: int, data: Seq<u8>, y: int, n: int)
    requires
        same_at(f, x, data, y, n),
        text_walk(data, y) matches Walk::End { at: e } && e - y <= n,
    ensures
        text_walk(f, x) == (Walk::End { at: x + (text_walk(data, y)->at - y) }),
{
    lemma_same_words(f, x, data, y, n);
}

/// A value that is no array of arrays is walked in the same way wherever its bytes stand.
proof fn lemma_value_walks_alike(
    f: Seq<u8>,
    x: int,
    data: Seq<u8>,
    y: int,
    n: int,
    ty: u32,
    room: nat,
)
    requires
        room >= 1,
        same_at(f, x, data, y, n),
        ty == ARRAY_TYPE ==> !holds_arrays(data, y),
        value_walk(data, y, ty, 1) matches Walk::End { at: e } && e - y <= n,
    ensures
        value_walk(f, x, ty, room) == (Walk::End { at: x + (value_walk(data, y, ty, 1)->at - y) }),
{
    lemma_same_words(f, x, data, y, n);
    lemma_value_walk_moves(data, y, ty, 1);
    if ty == ARRAY_TYPE {
        let inner = word_at(data, y);
        let count = length_at(data, y + 4) as nat;
        lemma_elements_walk_moves(data, y + 12, inner, count, 0);
        lemma_same_part(f, x, data, y, n, 4, n - 4);
        lemma_same_words(f, x + 4, data, y + 4, n - 4);
        lemma_same_part(f, x, data, y, n, 12, n - 12);
        lemma_elements_walk_alike(
            f,
            x + 12,
            data,
            y + 12,
            n - 12,
            inner,
            count,
            0,
            (room - 1) as nat,
        );
    } else if ty == TEXT_TYPE {
        lemma_text_walks_alike(f, x, data, y, n);
    }
}

proof fn lemma_elements_walk_alike(
    f: Seq<u8>,
    x: int,
    data: Seq<u8>,
    y: int,
    n: int,
    ty: u32,
    count: nat,
    room: nat,
    other: nat,
)
    requires
        ty != ARRAY_TYPE,
        same_at(f, x, data, y, n),
        elements_walk(data, y, ty, count, room) matches Walk::End { at: e } && e - y <= n,
    ensures
        elements_walk(f, x, ty, count, other) == (Walk::End {
            at: x + (elements_walk(data, y, ty, count, room)->at - y),
        }),
    decreases count,
{
    if count > 0 {
        lemma_value_walk_moves(data, y, ty, room);
        let next = value_walk(data, y, ty, room)->at;
        lemma_elements_walk_moves(data, next, ty, (count - 1) as nat, room);
        if ty == TEXT_TYPE {
            lemma_text_walks_alike(f, x, data, y, n);
        }
        assert(value_walk(f, x, ty, other) == (Walk::End { at: x + (next - y) }));
        lemma_same_part(f, x, data, y, n, next - y, n - (next - y));
        lemma_elements_walk_alike(
            f,
            x + (next - y),
            data,
            next,
            n - (next - y),
            ty,
            (count - 1) as nat,
            room,
            other,
        );
    }
}

proof fn lemma_elements_never_deep(f: Seq<u8>, at: int, ty: u32, count: nat, room: nat)
    requires
        ty != ARRAY_TYPE,
    ensures
        !(elements_walk(f, at, ty, count, room) is TooDeep),
    decreases count,
{
    if count > 0 {
        if let Walk::End { at: next } = value_walk(f, at, ty, room) {
            lemma_elements_never_deep(f, next, ty, (count - 1) as nat, room);
        }
    }
}

/// No value but an array of arrays needs room for more than one array.
proof fn lemma_value_never_deep(f: Seq<u8>, at: int, ty: u32, room: nat)
    requires
        room >= 1,
        ty == ARRAY_TYPE ==> !holds_arrays(f, at),
    ensures
        !(value_walk(f, at, ty, room) is TooDeep),
{
    if ty == ARRAY_TYPE && at + 12 <= f.len() {
        lemma_elements_never_deep(
            f,
            at + 12,
            word_at(f, at),
            length_at(f, at + 4) as nat,
            (room - 1) as nat,
        );
    }
}

/// What an empty name with the type number of an array, and an empty array, read as.
proof fn lemma_constant_pieces()
    ensures
        array_lead().len() == 12,
        empty_array().len() == 12,
        length_at(array_lead(), 0) == 0,
        word_at(array_lead(), 8) == ARRAY_TYPE,
        word_at(empty_array(), 0) == 0,
        length_at(empty_array(), 4) == 0,
{
    broadcast use lemma_le_bytes_len;

    lemma_pow256_widths();
    lemma_le_value_of_le_bytes(0, 8);
    lemma_le_value_of_le_bytes(0, 4);
    lemma_le_value_of_le_bytes(ARRAY_TYPE as nat, 4);
    assert(array_lead().subrange(0, 8) =~= le_bytes(0, 8));
    assert(array_lead().subrange(8, 12) =~= le_bytes(ARRAY_TYPE as nat, 4));
    assert(empty_array().subrange(0, 4) =~= le_bytes(0, 4));
    assert(empty_array().subrange(4, 12) =~= le_bytes(0, 8));
}

/// A piece that stands in front of the rest of a file.
proof fn lemma_piece_stands(f: Seq<u8>, p: int, piece: Seq<u8>, rest: Seq<u8>)
    requires
        0 <= p <= f.len(),
        f.subrange(p, f.len() as int) == piece + rest,
    ensures
        p + piece.len() + rest.len() == f.len(),
        same_at(f, p, piece, 0, piece.len() as int),
        f.subrange(p + piece.len(), f.len() as int) == rest,
{
    let s = f.subrange(p, f.len() as int);
    assert(s.len() == piece.len() + rest.len());
    assert forall|k: int| 0 <= k < piece.len() implies f[p + k] == #[trigger] piece[0 + k] by {
        assert(s[k] == f[p + k]);
    }
    let r = f.subrange(p + piece.len(), f.len() as int);
    assert forall|k: int| 0 <= k < rest.len() implies r[k] == rest[k] by {
        assert(s[piece.len() + k] == f[p + piece.len() + k]);
    }
    assert(r =~= rest);
}

/// Bytes of a piece that are the bytes of a file at some place.
proof fn lemma_piece_part(
    f: Seq<u8>,
    p: int,
    piece: Seq<u8>,
    data: Seq<u8>,
    from: int,
    y: int,
    n: int,
)
    requires
        same_at(f, p, piece, 0, piece.len() as int),
        0 <= from,
        0 <= n,
        from + n <= piece.len(),
        0 <= y,
        y + n <= data.len(),
        piece.subrange(from, from + n) == data.subrange(y, y + n),
    ensures
        same_at(f, p + from, data, y, n),
{
    assert forall|k: int| 0 <= k < n implies f[p + from + k] == #[trigger] data[y + k] by {
        assert(f[p + (from + k)] == piece[0 + (from + k)]);
        assert(piece.subrange(from, from + n)[k] == piece[from + k]);
        assert(data.subrange(y, y + n)[k] == data[y + k]);
    }
}

/// An entry with an empty name that holds an array of the given bytes.
proof fn lemma_lead_walks(f: Seq<u8>, p: int)
    requires
        same_at(f, p, array_lead(), 0, 12),
    ensures
        text_walk(f, p) == (Walk::End { at: p + 8 }),
        word_at(f, p + 8) == ARRAY_TYPE,
{
    lemma_constant_pieces();
    lemma_same_words(f, p, array_lead(), 0, 12);
    lemma_same_part(f, p, array_lead(), 0, 12, 8, 4);
    lemma_same_words(f, p + 8, array_lead(), 8, 4);
}

/// One entry is walked before the others.
proof fn lemma_entry_step(f: Seq<u8>, p: int, count: nat, room: nat, key_end: int, next: int)
    requires
        count > 0,
        text_walk(f, p) == (Walk::End { at: key_end }),
        key_end + 4 <= f.len(),
        value_walk(f, key_end + 4, word_at(f, key_end), room) == (Walk::End { at: next }),
    ensures
        entries_walk(f, p, count, room) == entries_walk(f, next, (count - 1) as nat, room),
{
}

/// The walk over a last entry is never too deep, if that over its value is not.
proof fn lemma_last_entry(f: Seq<u8>, p: int, room: nat)
    requires
        text_walk(f, p) matches Walk::End { at: key_end } ==> (key_end + 4 <= f.len() ==> !(
        value_walk(f, key_end + 4, word_at(f, key_end), room) is TooDeep)),
    ensures
        !(entries_walk(f, p, 1, room) is TooDeep),
{
    reveal_with_fuel(entries_walk, 2);
}

/// An array that became an entry is walked to the end of its bytes.
proof fn lemma_array_entry_walks(
    f: Seq<u8>,
    p: int,
    data: Seq<u8>,
    at: int,
    next: int,
    rest: Seq<u8>,
    count: nat,
    room: nat,
)
    requires
        room >= 1,
        count > 0,
        0 <= p <= f.len(),
        0 <= at <= data.len(),
        !holds_arrays(data, at),
        value_walk(data, at, ARRAY_TYPE, 1) == (Walk::End { at: next }),
        f.subrange(p, f.len() as int) == array_lead() + data.subrange(at, next) + rest,
    ensures
        entries_walk(f, p, count, room) == entries_walk(
            f,
            p + 12 + (next - at),
            (count - 1) as nat,
            room,
        ),
{
    lemma_constant_pieces();
    lemma_value_walk_moves(data, at, ARRAY_TYPE, 1);
    let piece = array_lead() + data.subrange(at, next);
    lemma_piece_stands(f, p, piece, rest);
    assert(piece.subrange(0, 12) =~= array_lead().subrange(0, 12));
    lemma_piece_part(f, p, piece, array_lead(), 0, 0, 12);
    lemma_lead_walks(f, p);
    assert(piece.subrange(12, 12 + (next - at)) =~= data.subrange(at, at + (next - at)));
    lemma_piece_part(f, p, piece, data, 12, at, next - at);
    lemma_value_walks_alike(f, p + 12, data, at, next - at, ARRAY_TYPE, room);
    lemma_entry_step(f, p, count, room, p + 8, p + 12 + (next - at));
}

/// An array that cannot be walked is never too deep as a last entry.
proof fn lemma_last_array_entry(f: Seq<u8>, p: int, data: Seq<u8>, at: int, room: nat)
    requires
        room >= 1,
        0 <= p <= f.len(),
        0 <= at <= data.len(),
        !holds_arrays(data, at),
        f.subrange(p, f.len() as int) == array_lead() + data.subrange(at, data.len() as int),
    ensures
        !(entries_walk(f, p, 1, room) is TooDeep),
{
    lemma_constant_pieces();
    let n = data.len() - at;
    let piece = array_lead() + data.subrange(at, data.len() as int);
    assert(piece + Seq::<u8>::empty() =~= piece);
    lemma_piece_stands(f, p, piece, Seq::empty());
    assert(piece.subrange(0, 12) =~= array_lead().subrange(0, 12));
    lemma_piece_part(f, p, piece, array_lead(), 0, 0, 12);
    lemma_lead_walks(f, p);
    assert(piece.subrange(12, 12 + n) =~= data.subrange(at, at + n));
    lemma_piece_part(f, p, piece, data, 12, at, n);
    lemma_same_words(f, p + 12, data, at, n);
    lemma_value_never_deep(f, p + 12, ARRAY_TYPE, room);
    lemma_last_entry(f, p, room);
}

/// The entry that is left of an array of arrays is walked to its end.
proof fn lemma_emptied_entry_walks(
    f: Seq<u8>,
    p: int,
    data: Seq<u8>,
    at: int,
    key_end: int,
    rest: Seq<u8>,
    count: nat,
    room: nat,
)
    requires
        room >= 1,
        count > 0,
        0 <= p <= f.len(),
        0 <= at <= data.len(),
        text_walk(data, at) == (Walk::End { at: key_end }),
        key_end + 4 <= data.len(),
        word_at(data, key_end) == ARRAY_TYPE,
        f.subrange(p, f.len() as int) == data.subrange(at, key_end + 4) + empty_array() + rest,
    ensures
        entries_walk(f, p, count, room) == entries_walk(
            f,
            p + (key_end + 16 - at),
            (count - 1) as nat,
            room,
        ),
{
    lemma_constant_pieces();
    let piece = data.subrange(at, key_end + 4) + empty_array();
    let m = key_end + 4 - at;
    lemma_piece_stands(f, p, piece, rest);
    assert(piece.subrange(0, m) =~= data.subrange(at, at + m));
    lemma_piece_part(f, p, piece, data, 0, at, m);
    lemma_text_walks_alike(f, p, data, at, m);
    lemma_same_part(f, p, data, at, m, m - 4, 4);
    lemma_same_words(f, p + (m - 4), data, at + (m - 4), 4);
    assert(piece.subrange(m, m + 12) =~= empty_array().subrange(0, 12));
    lemma_piece_part(f, p, piece, empty_array(), m, 0, 12);
    lemma_same_words(f, p + m, empty_array(), 0, 12);
    lemma_same_part(f, p + m, empty_array(), 0, 12, 4, 8);
    lemma_same_words(f, p + m + 4, empty_array(), 4, 8);
    assert(elements_walk(f, p + m + 12, 0, 0, (room - 1) as nat) == (Walk::End { at: p + m + 12 }));
    assert(value_walk(f, p + m, ARRAY_TYPE, room) == (Walk::End { at: p + m + 12 }));
    lemma_entry_step(f, p, count, room, p + (m - 4), p + m + 12);
}

/// An entry that stays is walked to its end.
proof fn lemma_kept_entry_walks(
    f: Seq<u8>,
    p: int,
    data: Seq<u8>,
    at: int,
    key_end: int,
    next: int,
    rest: Seq<u8>,
    count: nat,
    room: nat,
)
    requires
        room >= 1,
        count > 0,
        0 <= p <= f.len(),
        0 <= at <= data.len(),
        text_walk(data, at) == (Walk::End { at: key_end }),
        key_end + 4 <= data.len(),
        word_at(data, key_end) == ARRAY_TYPE ==> !holds_arrays(data, key_end + 4),
        value_walk(data, key_end + 4, word_at(data, key_end), 1) == (Walk::End { at: next }),
        f.subrange(p, f.len() as int) == data.subrange(at, next) + rest,
    ensures
        entries_walk(f, p, count, room) == entries_walk(
            f,
            p + (next - at),
            (count - 1) as nat,
            room,
        ),
{
    let ty = word_at(data, key_end);
    lemma_value_walk_moves(data, key_end + 4, ty, 1);
    let piece = data.subrange(at, next);
    let m = next - at;
    let k = key_end - at;
    lemma_piece_stands(f, p, piece, rest);
    assert(piece.subrange(0, m) =~= data.subrange(at, at + m));
    lemma_piece_part(f, p, piece, data, 0, at, m);
    lemma_text_walks_alike(f, p, data, at, m);
    lemma_same_part(f, p, data, at, m, k, 4);
    lemma_same_words(f, p + k, data, at + k, 4);
    lemma_same_part(f, p, data, at, m, k + 4, m - k - 4);
    lemma_value_walks_alike(f, p + (k + 4), data, at + (k + 4), m - k - 4, ty, room);
    lemma_entry_step(f, p, count, room, p + k, p + m);
}

/// An entry that cannot be walked is never too deep as the last one.
proof fn lemma_last_kept_entry(f: Seq<u8>, p: int, data: Seq<u8>, at: int, room: nat)
    requires
        room >= 1,
        0 <= p <= f.len(),
        0 <= at <= data.len(),
        text_walk(data, at) matches Walk::End { at: key_end } ==> (key_end + 4 <= data.len()
            && word_at(data, key_end) == ARRAY_TYPE ==> !holds_arrays(data, key_end + 4)),
        f.subrange(p, f.len() as int) == data.subrange(at, data.len() as int),
    ensures
        !(entries_walk(f, p, 1, room) is TooDeep),
{
    let n = data.len() - at;
    lemma_rest_stands(f, p, data, at);
    lemma_same_words(f, p, data, at, n);
    if let Walk::End { at: key_end } = text_walk(data, at) {
        lemma_text_walks_alike(f, p, data, at, n);
        if key_end + 4 <= data.len() {
            let k = key_end - at;
            lemma_same_part(f, p, data, at, n, k, n - k);
            lemma_same_words(f, p + k, data, at + k, n - k);
            lemma_same_part(f, p, data, at, n, k + 4, n - k - 4);
            lemma_same_words(f, p + (k + 4), data, at + (k + 4), n - k - 4);
            lemma_value_never_deep(f, p + (k + 4), word_at(f, p + k), room);
        }
    }
    lemma_last_entry(f, p, room);
}

proof fn lemma_rest_stands(f: Seq<u8>, p: int, data: Seq<u8>, at: int)
    requires
        0 <= p <= f.len(),
        0 <= at <= data.len(),
        f.subrange(p, f.len() as int) == data.subrange(at, data.len() as int),
    ensures
        f.len() - p == data.len() - at,
        same_at(f, p, data, at, data.len() - at),
{
    let s = f.subrange(p, f.len() as int);
    let t = data.subrange(at, data.len() as int);
    assert(s.len() == f.len() - p);
    assert(t.len() == data.len() - at);
    assert forall|k: int| 0 <= k < data.len() - at implies f[p + k] == #[trigger] data[at + k] by {
        assert(s[k] == f[p + k]);
        assert(t[k] == data[at + k]);
    }
}

/// The entries that replace the metadata nest no arrays.
#[verifier::spinoff_prover]
proof fn lemma_flat_walks(
    f: Seq<u8>,
    p: int,
    data: Seq<u8>,
    at: int,
    open: Seq<nat>,
    left: nat,
    room: nat,
)
    requires
        room >= 1,
        0 <= p <= f.len(),
        0 <= at <= data.len(),
        f.subrange(p, f.len() as int) == flat_rest(data, at, open, left).0,
    ensures
        !(entries_walk(f, p, flat_rest(data, at, open, left).1, room) is TooDeep),
    decreases data.len() - at, open.len(),
{
    broadcast use lemma_value_walk_moves;

    lemma_constant_pieces();
    let count = flat_rest(data, at, open, left).1;
    if open.len() > 0 {
        if open.last() == 0 {
            lemma_flat_walks(f, p, data, at, open.drop_last(), left, room);
        } else {
            let others = open.drop_last().push((open.last() - 1) as nat);
            if holds_arrays(data, at) {
                let inner = others.push(length_at(data, at + 4) as nat);
                lemma_flat_walks(f, p, data, at + ARRAY_HEAD, inner, left, room);
            } else if let Walk::End { at: next } = value_walk(data, at, ARRAY_TYPE, 1) {
                let piece = array_lead() + data.subrange(at, next);
                let rest = flat_rest(data, next, others, left);
                lemma_array_entry_walks(f, p, data, at, next, rest.0, count, room);
                lemma_piece_stands(f, p, piece, rest.0);
                lemma_flat_walks(f, p + piece.len(), data, next, others, left, room);
            } else {
                lemma_last_array_entry(f, p, data, at, room);
            }
        }
    } else if left > 0 {
        let fewer = (left - 1) as nat;
        if let Walk::End { at: key_end } = text_walk(data, at) {
            if key_end + 4 > data.len() {
                lemma_last_kept_entry(f, p, data, at, room);
            } else if word_at(data, key_end) == ARRAY_TYPE && holds_arrays(data, key_end + 4) {
                let piece = data.subrange(at, key_end + 4) + empty_array();
                let opened = seq![length_at(data, key_end + 8) as nat];
                let behind = key_end + 4 + ARRAY_HEAD;
                let rest = flat_rest(data, behind, opened, fewer);
                lemma_emptied_entry_walks(f, p, data, at, key_end, rest.0, count, room);
                lemma_piece_stands(f, p, piece, rest.0);
                lemma_flat_walks(f, p + piece.len(), data, behind, opened, fewer, room);
            } else if let Walk::End { at: next } = value_walk(
                data,
                key_end + 4,
                word_at(data, key_end),
                1,
            ) {
                let piece = data.subrange(at, next);
                let rest = flat_rest(data, next, Seq::empty(), fewer);
                lemma_kept_entry_walks(f, p, data, at, key_end, next, rest.0, count, room);
                lemma_piece_stands(f, p, piece, rest.0);
                lemma_flat_walks(f, p + piece.len(), data, next, Seq::empty(), fewer, room);
            } else {
                lemma_last_kept_entry(f, p, data, at, room);
            }
        } else {
            lemma_last_kept_entry(f, p, data, at, room);
        }
    }
}

proof fn lemma_flat_bounds(data: Seq<u8>, at: int, open: Seq<nat>, left: nat)
    requires
        0 <= at <= data.len(),
    ensures
        8 * flat_rest(data, at, open, left).1 <= flat_rest(data, at, open, left).0.len() + 8,
    decreases data.len() - at, open.len(),
{
    broadcast use lemma_value_walk_moves;

    lemma_constant_pieces();
    if open.len() > 0 {
        if open.last() == 0 {
            lemma_flat_bounds(data, at, open.drop_last(), left);
        } else {
            let others = open.drop_last().push((open.last() - 1) as nat);
            if holds_arrays(data, at) {
                let inner = others.push(length_at(data, at + 4) as nat);
                lemma_flat_bounds(data, at + ARRAY_HEAD, inner, left);
            } else if let Walk::End { at: next } = value_walk(data, at, ARRAY_TYPE, 1) {
                lemma_flat_bounds(data, next, others, left);
            }
        }
    } else if left > 0 {
        let fewer = (left - 1) as nat;
        if let Walk::End { at: key_end } = text_walk(data, at) {
            if key_end + 4 > data.len() {
            } else if word_at(data, key_end) == ARRAY_TYPE && holds_arrays(data, key_end + 4) {
                let opened = seq![length_at(data, key_end + 8) as nat];
                lemma_flat_bounds(data, key_end + 4 + ARRAY_HEAD, opened, fewer);
            } else if let Walk::End { at: next } = value_walk(
                data,
                key_end + 4,
                word_at(data, key_end),
                1,
            ) {
                lemma_flat_bounds(data, next, Seq::empty(), fewer);
            }
        }
    }
}

/// A file whose arrays were taken out of one another has no array inside another.
pub proof fn law_flattened_does_not_nest(data: Seq<u8>, limit: nat)
    requires
        has_metadata(data),
        limit >= 1,
        flattened(data).len() <= usize::MAX,
    ensures
        nests_within(flattened(data), limit),
{
    broadcast use lemma_le_bytes_len;

    let f = flattened(data);
    let left = length_at(data, COUNT_START as int) as nat;
    let rest = flat_rest(data, METADATA_START as int, Seq::empty(), left);
    lemma_flat_bounds(data, METADATA_START as int, Seq::empty(), left);
    assert(rest.1 <= usize::MAX);
    lemma_pow256_widths();
    lemma_le_value_of_le_bytes(rest.1, 8);
    assert(f.subrange(COUNT_START as int, COUNT_START + 8) =~= le_bytes(rest.1, 8));
    assert(length_at(f, COUNT_START as int) == rest.1);
    assert(f.subrange(METADATA_START as int, f.len() as int) =~= rest.0);
    lemma_flat_walks(
        f,
        METADATA_START as int,
        data,
        METADATA_START as int,
        Seq::empty(),
        left,
        limit,
    );
}

/// The open arrays as `flat_rest` counts them.
spec fn counts(open: Seq<usize>) -> Seq<nat> {
    Seq::new(open.len(), |i: int| open[i] as nat)
}

/// Append a part of the file.
fn put_part(out: &mut Vec<u8>, data: &[u8], from: usize, to: usize)
    requires
        from <= to <= data@.len(),
    ensures
        final(out)@ == old(out)@ + data@.subrange(from as int, to as int),
{
    out.extend_from_slice(slice_subrange(data, from, to));
}

/// Append the start of an array that becomes an entry.
fn put_array_lead(out: &mut Vec<u8>)
    ensures
        final(out)@ == old(out)@ + array_lead(),
{
    let ghost before = out@;
    put_u64(out, 0);
    put_u32(out, ARRAY_TYPE);
    assert(out@ =~= before + array_lead());
}

/// Where a flattening has come to.
struct Flattening {
    out: Vec<u8>,
    count: u64,
    at: usize,
    open: Vec<usize>,
    left: usize,
    done: bool,
}

impl Flattening {
    /// Whether what was put out, with what is still to come, replaces the bytes behind the count.
    spec fn leads_to(&self, data: Seq<u8>, whole: (Seq<u8>, nat)) -> bool {
        let rest = flat_rest(data, self.at as int, counts(self.open@), self.left as nat);
        &&& self.at <= data.len()
        &&& 8 * self.count <= self.out@.len() + 8
        &&& if self.done {
            whole == (self.out@, self.count as nat)
        } else {
            &&& whole == (self.out@ + rest.0, (self.count + rest.1) as nat)
            &&& 8 * self.count <= self.out@.len()
        }
    }

    /// How much is left to do.
    spec fn measure(&self, data: Seq<u8>) -> (int, int, int) {
        (
            if self.done {
                0
            } else {
                1
            },
            data.len() - self.at,
            self.open@.len() as int,
        )
    }

    /// Put the rest of the file out as it is.
    fn finish(&mut self, data: &[u8])
        requires
            old(self).at <= data@.len(),
        ensures
            final(self).out@ == old(self).out@ + data@.subrange(
                old(self).at as int,
                data@.len() as int,
            ),
            final(self).done,
            final(self).at == old(self).at,
            final(self).count == old(self).count,
    {
        put_part(&mut self.out, data, self.at, data.len());
        self.done = true;
    }

    /// Do the next element of the innermost open array.
    fn step_element(&mut self, data: &[u8], whole: Ghost<(Seq<u8>, nat)>)
        requires
            old(self).leads_to(data@, whole@),
            !old(self).done,
            old(self).open@.len() > 0,
        ensures
            final(self).leads_to(data@, whole@),
            final(self).done || final(self).at > old(self).at || (final(self).at == old(self).at
                && final(self).open@.len() < old(self).open@.len()),
    {
        let size: usize = data.len();
        let ghost out = self.out@;
        let ghost open = counts(self.open@);
        let ghost at = self.at as int;
        let depth: usize = self.open.len();
        let more: usize = self.open[depth - 1];
        assert(open.last() == more);
        if more == 0 {
            self.open.pop();
            assert(counts(self.open@) =~= open.drop_last());
            return;
        }
        self.open.set(depth - 1, more - 1);
        let ghost others = open.drop_last().push((more - 1) as nat);
        assert(counts(self.open@) =~= others);
        if size - self.at >= ARRAY_HEAD && get_u32(data, self.at) == ARRAY_TYPE {
            let len: usize = get_u64(data, self.at + 4) as usize;
            self.open.push(len);
            self.at = self.at + ARRAY_HEAD;
            assert(counts(self.open@) =~= others.push(len as nat));
            return;
        }
        proof {
            lemma_constant_pieces();
            lemma_value_walk_moves(data@, at, ARRAY_TYPE, 1);
        }
        put_array_lead(&mut self.out);
        let out_len: usize = self.out.len();
        assert(out_len == out.len() + 12);
        self.count += 1;
        match walk_value(data, self.at, ARRAY_TYPE, 1) {
            Walked::End(next) => {
                put_part(&mut self.out, data, self.at, next);
                self.at = next;
                let ghost rest = flat_rest(data@, next as int, others, self.left as nat);
                assert(self.out@ + rest.0 =~= out + (array_lead() + data@.subrange(
                    at,
                    next as int,
                ) + rest.0));
            },
            _ => {
                self.finish(data);
                assert(self.out@ =~= out + (array_lead() + data@.subrange(
                    at,
                    data@.len() as int,
                )));
            },
        }
    }

    /// Do the next metadata entry.
    fn step_entry(&mut self, data: &[u8], whole: Ghost<(Seq<u8>, nat)>)
        requires
            old(self).leads_to(data@, whole@),
            !old(self).done,
            old(self).open@.len() == 0,
            old(self).left > 0,
        ensures
            final(self).leads_to(data@, whole@),
            final(self).done || final(self).at > old(self).at,
    {
        let size: usize = data.len();
        let ghost out = self.out@;
        let ghost at = self.at as int;
        let ghost fewer = (self.left - 1) as nat;
        assert(counts(self.open@) =~= Seq::<nat>::empty());
        let out_len: usize = self.out.len();
        self.count += 1;
        let key_end: usize = match walk_text(data, self.at) {
            Walked::End(key_end) => key_end,
            _ => {
                self.finish(data);
                return;
            },
        };
        if size - key_end < 4 {
            self.finish(data);
            return;
        }
        let ty: u32 = get_u32(data, key_end);
        let value: usize = key_end + 4;
        if ty == ARRAY_TYPE && size - value >= ARRAY_HEAD && get_u32(data, value) == ARRAY_TYPE {
            let len: usize = get_u64(data, value + 4) as usize;
            put_part(&mut self.out, data, self.at, value);
            put_u32(&mut self.out, 0);
            put_u64(&mut self.out, 0);
            self.open.push(len);
            self.at = value + ARRAY_HEAD;
            self.left -= 1;
            proof {
                lemma_constant_pieces();
                let opened = seq![len as nat];
                assert(counts(self.open@) =~= opened);
                let rest = flat_rest(data@, self.at as int, opened, fewer);
                assert(self.out@ + rest.0 =~= out + (data@.subrange(at, value as int)
                    + empty_array() + rest.0));
                assert(self.out@.len() >= out.len() + 8);
            }
            return;
        }
        proof {
            lemma_value_walk_moves(data@, value as int, ty, 1);
        }
        match walk_value(data, value, ty, 1) {
            Walked::End(next) => {
                put_part(&mut self.out, data, self.at, next);
                self.at = next;
                self.left -= 1;
                let ghost rest = flat_rest(data@, next as int, Seq::empty(), fewer);
                assert(self.out@ + rest.0 =~= out + (data@.subrange(at, next as int) + rest.0));
            },
            _ => {
                self.finish(data);
            },
        }
    }
}

/// Take the arrays in the metadata of a file out of one another.
pub fn flatten(data: &[u8]) -> (r: Vec<u8>)
    requires
        has_metadata(data@),
    ensures
        r@ == flattened(data@),
        forall|limit: nat| limit >= 1 ==> #[trigger] nests_within(r@, limit),
{
    let count: usize = get_u64(data, COUNT_START) as usize;
    let ghost whole = flat_rest(
        data@,
        METADATA_START as int,
        Seq::empty(),
        length_at(data@, COUNT_START as int) as nat,
    );
    let mut f: Flattening = Flattening {
        out: Vec::new(),
        count: 0,
        at: METADATA_START,
        open: Vec::new(),
        left: count,
        done: false,
    };
    proof {
        assert(counts(f.open@) =~= Seq::<nat>::empty());
        assert(f.out@ + whole.0 =~= whole.0);
    }
    while !f.done
        invariant
            f.leads_to(data@, whole),
        decreases f.measure(data@).0, f.measure(data@).1, f.measure(data@).2,
    {
        if f.open.len() > 0 {
            f.step_element(data, Ghost(whole));
        } else if f.left > 0 {
            f.step_entry(data, Ghost(whole));
        } else {
            assert(counts(f.open@) =~= Seq::<nat>::empty());
            f.finish(data);
        }
    }
    let mut r: Vec<u8> = Vec::new();
    put_part(&mut r, data, 0, COUNT_START);
    put_u64(&mut r, f.count);
    r.extend_from_slice(f.out.as_slice());
    proof {
        assert(r@ =~= flattened(data@));
        let size: usize = r.len();
        assert forall|limit: nat| limit >= 1 implies #[trigger] nests_within(r@, limit) by {
            law_flattened_does_not_nest(data@, limit);
        }
    }
    r
}

} // verus!
