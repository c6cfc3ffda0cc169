//! Framing of commands on the byte stream.
//!
//! A command is a tag, a payload and the separator, with no length prefix.
//! The receiver splits what one read delivered at every separator and takes
//! at most one command of each kind from it.

use crate::shared::{CMD_BULLET, CMD_PLAYER, CMD_SEPARATOR};
use vstd::prelude::*;
use vstd::utf8::valid_utf8;

verus! {

/// A command on the wire: the tag, the payload, the separator.
pub open spec fn encoded(tag: Seq<u8>, payload: Seq<u8>) -> Seq<u8> {
    tag + payload + CMD_SEPARATOR@
}

/// Frames `payload` as a command with the tag `cmd`.
pub fn encode_command(cmd: &[u8], payload: &[u8]) -> (message: Vec<u8>)
    ensures
        message@ == encoded(cmd@, payload@),
{
    let mut message: Vec<u8> = Vec::new();
    let mut i: usize = 0;
    while i < cmd.len()
        invariant
            i <= cmd.len(),
            message@ == cmd@.subrange(0, i as int),
        decreases cmd.len() - i,
    {
        message.push(cmd[i]);
        i += 1;
    }
    let mut j: usize = 0;
    while j < payload.len()
        invariant
            j <= payload.len(),
            message@ == cmd@ + payload@.subrange(0, j as int),
        decreases payload.len() - j,
    {
        message.push(payload[j]);
        j += 1;
    }
    message.push(CMD_SEPARATOR[0]);
    message.push(CMD_SEPARATOR[1]);
    message.push(CMD_SEPARATOR[2]);
    assert(message@ == encoded(cmd@, payload@));
    message
}

/// Whether the separator stands in `data` at index `i`.
pub open spec fn separator_at(data: Seq<u8>, i: int) -> bool {
    &&& 0 <= i
    &&& i + 3 <= data.len()
    &&& data[i] == CMD_SEPARATOR@[0]
    &&& data[i + 1] == CMD_SEPARATOR@[1]
    &&& data[i + 2] == CMD_SEPARATOR@[2]
}

/// Index of the first separator at or after `from`; the length of `data`
/// when there is none.
pub open spec fn next_separator(data: Seq<u8>, from: int) -> int
    decreases data.len() - from,
{
    if from >= data.len() {
        data.len() as int
    } else if separator_at(data, from) {
        from
    } else {
        next_separator(data, from + 1)
    }
}

/// The first separator at or after `from` is found between `from` and the
/// end of `data`, and the separator does stand there.
pub proof fn lemma_next_separator(data: Seq<u8>, from: int)
    requires
        0 <= from <= data.len(),
    ensures
        from <= next_separator(data, from) <= data.len(),
        next_separator(data, from) < data.len() ==> separator_at(
            data,
            next_separator(data, from),
        ),
        forall|i: int| from <= i < next_separator(data, from) ==> !separator_at(data, i),
    decreases data.len() - from,
{
    if from < data.len() && !separator_at(data, from) {
        lemma_next_separator(data, from + 1);
    }
}

/// The pieces that the separators cut out of `data` from index `from` on.
/// Text after the last separator is a piece too, also when it is empty.
pub open spec fn fragments_from(data: Seq<u8>, from: int) -> Seq<Seq<u8>>
    decreases data.len() - from,
{
    let cut = next_separator(data, from);
    if from < 0 || from > data.len() {
        Seq::empty()
    } else if cut >= data.len() {
        seq![data.subrange(from, data.len() as int)]
    } else {
        proof {
            lemma_next_separator(data, from);
        }
        seq![data.subrange(from, cut)] + fragments_from(data, cut + 3)
    }
}

/// The pieces that the separators cut out of `data`.
pub open spec fn fragments(data: Seq<u8>) -> Seq<Seq<u8>> {
    fragments_from(data, 0)
}

/// Whether `piece` is a command with the tag `tag`: it opens with the tag
/// and is UTF-8.
pub open spec fn carries(piece: Seq<u8>, tag: Seq<u8>) -> bool {
    tag.is_prefix_of(piece) && valid_utf8(piece)
}

/// The payload of the first piece that is a command with the tag `tag`:
/// what follows the tag in that piece. Pieces that are not UTF-8 are passed
/// over.
pub open spec fn first_tagged(pieces: Seq<Seq<u8>>, tag: Seq<u8>) -> Option<Seq<u8>>
    decreases pieces.len(),
{
    if pieces.len() == 0 {
        None
    } else if carries(pieces[0], tag) {
        Some(pieces[0].skip(tag.len() as int))
    } else {
        first_tagged(pieces.drop_first(), tag)
    }
}

/// The payload that one read yields for `tag`: that of the first piece
/// between separators that is a command with that tag.
pub open spec fn decoded(data: Seq<u8>, tag: Seq<u8>) -> Option<Seq<u8>> {
    first_tagged(fragments(data), tag)
}

/// The payloads taken from one read, at most one of each kind.
pub struct Inbound {
    pub player: Option<Vec<u8>>,
    pub bullet: Option<Vec<u8>>,
}

/// A payload as a sequence of bytes.
pub open spec fn payload_view(payload: Option<Vec<u8>>) -> Option<Seq<u8>> {
    match payload {
        Some(bytes) => Some(bytes@),
        None => None,
    }
}

/// Tells with `std::str::from_utf8` whether `data` is UTF-8.
///
/// Trusted: the standard library accepts exactly the well-formed UTF-8
/// sequences, which is what `valid_utf8` says.
#[verifier::external_body]
fn is_utf8(data: &[u8]) -> (ok: bool)
    ensures
        ok == valid_utf8(data@),
{
    std::str::from_utf8(data).is_ok()
}

/// Finds the first separator at or after `from`.
pub fn find_separator(data: &[u8], from: usize) -> (cut: usize)
    requires
        from <= data.len(),
    ensures
        cut == next_separator(data@, from as int),
        from <= cut <= data.len(),
        cut < data.len() ==> separator_at(data@, cut as int),
{
    let mut i: usize = from;
    while i < data.len()
        invariant
            from <= i <= data.len(),
            next_separator(data@, from as int) == next_separator(data@, i as int),
        decreases data.len() - i,
    {
        if data.len() - i >= 3 && data[i] == CMD_SEPARATOR[0] && data[i + 1] == CMD_SEPARATOR[1]
            && data[i + 2] == CMD_SEPARATOR[2] {
            return i;
        }
        i += 1;
    }
    i
}

/// Whether the bytes of `data` from `from` up to `to` open with `tag`.
pub fn starts_with(data: &[u8], from: usize, to: usize, tag: &[u8; 6]) -> (yes: bool)
    requires
        from <= to <= data.len(),
    ensures
        yes == tag@.is_prefix_of(data@.subrange(from as int, to as int)),
{
    if to - from < 6 {
        return false;
    }
    let ghost piece = data@.subrange(from as int, to as int);
    let mut i: usize = 0;
    while i < 6
        invariant
            i <= 6,
            from + 6 <= to <= data.len(),
            piece == data@.subrange(from as int, to as int),
            forall|k: int| 0 <= k < i ==> piece[k] == tag@[k],
        decreases 6 - i,
    {
        if data[from + i] != tag[i] {
            assert(piece.subrange(0, 6)[i as int] != tag@[i as int]);
            return false;
        }
        i += 1;
    }
    assert(piece.subrange(0, 6) =~= tag@);
    true
}

/// Copies the bytes of `data` from `from` up to `to`.
pub fn copy_range(data: &[u8], from: usize, to: usize) -> (bytes: Vec<u8>)
    requires
        from <= to <= data.len(),
    ensures
        bytes@ == data@.subrange(from as int, to as int),
{
    let mut bytes: Vec<u8> = Vec::new();
    let mut i: usize = from;
    while i < to
        invariant
            from <= i <= to <= data.len(),
            bytes@ == data@.subrange(from as int, i as int),
        decreases to - i,
    {
        bytes.push(data[i]);
        i += 1;
    }
    bytes
}

/// The first tagged payload from `from` on is that of the piece that starts
/// there if it carries the tag, else the first one after the next separator.
pub proof fn lemma_first_tagged_unfold(data: Seq<u8>, from: int, tag: Seq<u8>)
    requires
        0 <= from <= data.len(),
    ensures
        first_tagged(fragments_from(data, from), tag) == ({
            let cut = next_separator(data, from);
            let piece = data.subrange(from, cut);
            if carries(piece, tag) {
                Some(piece.skip(tag.len() as int))
            } else if cut >= data.len() {
                None
            } else {
                first_tagged(fragments_from(data, cut + 3), tag)
            }
        }),
{
    lemma_next_separator(data, from);
    let cut = next_separator(data, from);
    let pieces = fragments_from(data, from);
    assert(pieces.len() > 0);
    assert(pieces[0] == data.subrange(from, cut));
    if cut >= data.len() {
        assert(pieces.drop_first() =~= Seq::<Seq<u8>>::empty());
    } else {
        assert(pieces.drop_first() =~= fragments_from(data, cut + 3));
    }
}

/// What is still to come for `tag` from index `from` on, unless the scan is
/// over.
pub open spec fn pending(data: Seq<u8>, from: int, done: bool, tag: Seq<u8>) -> Option<Seq<u8>> {
    if done {
        None
    } else {
        first_tagged(fragments_from(data, from), tag)
    }
}

/// The payload already taken, else the one still to come.
pub open spec fn taken_or(taken: Option<Vec<u8>>, coming: Option<Seq<u8>>) -> Option<Seq<u8>> {
    match taken {
        Some(bytes) => Some(bytes@),
        None => coming,
    }
}

/// Takes the payload of the piece of `data` from `from` up to `to` if that
/// piece is a command with the tag `tag`.
pub fn take_command(
    data: &[u8],
    from: usize,
    to: usize,
    tag: &[u8; 6],
) -> (payload: Option<Vec<u8>>)
    requires
        from <= to <= data.len(),
    ensures
        payload_view(payload) == if carries(data@.subrange(from as int, to as int), tag@) {
            Some(data@.subrange(from as int, to as int).skip(6))
        } else {
            None
        },
{
    if !starts_with(data, from, to, tag) {
        return None;
    }
    let piece = copy_range(data, from, to);
    if !is_utf8(piece.as_slice()) {
        return None;
    }
    let payload = copy_range(piece.as_slice(), 6, piece.len());
    assert(payload@ == data@.subrange(from as int, to as int).skip(6));
    Some(payload)
}

/// Splits what one read delivered at the separators and takes the first
/// position update and the first fire command from it. Later commands of a
/// kind already taken are dropped; a piece that is not UTF-8 is passed over
/// and the pieces after it still count.
pub fn decode_commands(data: &[u8]) -> (inbound: Inbound)
    ensures
        payload_view(inbound.player) == decoded(data@, CMD_PLAYER@),
        payload_view(inbound.bullet) == decoded(data@, CMD_BULLET@),
{
    let mut inbound = Inbound { player: None, bullet: None };
    let mut from: usize = 0;
    let mut done = false;
    while !done
        invariant
            from <= data.len(),
            first_tagged(fragments(data@), CMD_PLAYER@) == taken_or(
                inbound.player,
                pending(data@, from as int, done, CMD_PLAYER@),
            ),
            first_tagged(fragments(data@), CMD_BULLET@) == taken_or(
                inbound.bullet,
                pending(data@, from as int, done, CMD_BULLET@),
            ),
        decreases data.len() - from + if done { 0int } else { 1int },
    {
        let cut = find_separator(data, from);
        proof {
            lemma_first_tagged_unfold(data@, from as int, CMD_PLAYER@);
            lemma_first_tagged_unfold(data@, from as int, CMD_BULLET@);
        }
        if inbound.player.is_none() {
            inbound.player = take_command(data, from, cut, &CMD_PLAYER);
        }
        if inbound.bullet.is_none() {
            inbound.bullet = take_command(data, from, cut, &CMD_BULLET);
        }
        if cut >= data.len() {
            done = true;
        } else {
            from = cut + 3;
        }
    }
    inbound
}

/// Whether `payload` holds the separator nowhere.
pub open spec fn separator_free(payload: Seq<u8>) -> bool {
    forall|i: int| !separator_at(payload, i)
}

/// Whether `tag` is one of the two command tags.
pub open spec fn is_command_tag(tag: Seq<u8>) -> bool {
    tag == CMD_PLAYER@ || tag == CMD_BULLET@
}

/// The first separator at or after `from` stands at `cut` when none stands
/// before it.
pub proof fn lemma_next_separator_is(data: Seq<u8>, from: int, cut: int)
    requires
        0 <= from <= cut <= data.len(),
        forall|i: int| from <= i < cut ==> !separator_at(data, i),
        cut < data.len() ==> separator_at(data, cut),
    ensures
        next_separator(data, from) == cut,
    decreases cut - from,
{
    if from < cut {
        lemma_next_separator_is(data, from + 1, cut);
    }
}

/// Round trip of the framing: in a command whose payload holds no
/// separator, the separator stands at the end and nowhere else. If the
/// command is UTF-8 it is read back as that payload under its own tag, and
/// as nothing under the other tag. One that is not UTF-8 is read back as
/// nothing.
pub proof fn lemma_encode_then_decode(tag: Seq<u8>, other: Seq<u8>, payload: Seq<u8>)
    requires
        is_command_tag(tag),
        is_command_tag(other),
        other != tag,
        separator_free(payload),
    ensures
        forall|i: int| #[trigger] separator_at(encoded(tag, payload), i)
            ==> i == tag.len() + payload.len(),
        valid_utf8(tag + payload) ==> decoded(encoded(tag, payload), tag) == Some(payload),
        !valid_utf8(tag + payload) ==> decoded(encoded(tag, payload), tag) == None::<Seq<u8>>,
        decoded(encoded(tag, payload), other) == None::<Seq<u8>>,
{
    let message = encoded(tag, payload);
    let cut = 6 + payload.len() as int;
    assert(message.len() == cut + 3);
    assert forall|i: int| 0 <= i < cut implies !separator_at(message, i) by {
        if i >= 6 && i + 3 <= cut {
            assert(!separator_at(payload, i - 6));
        }
    }
    assert(separator_at(message, cut));
    lemma_next_separator_is(message, 0, cut);
    lemma_next_separator_is(message, cut + 3, cut + 3);
    let piece = message.subrange(0, cut);
    assert(piece =~= tag + payload);
    assert(piece.subrange(0, 6) =~= tag);
    assert(piece.skip(6) =~= payload);
    assert(piece[0] != other[0]);
    assert(piece.subrange(0, 6)[0] == piece[0]);
    let rest = message.subrange(cut + 3, cut + 3);
    assert(rest.len() == 0);
    lemma_first_tagged_unfold(message, 0, tag);
    lemma_first_tagged_unfold(message, 0, other);
    lemma_first_tagged_unfold(message, cut + 3, tag);
    lemma_first_tagged_unfold(message, cut + 3, other);
}

} // verus!
