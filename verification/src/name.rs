//! Domain names: the dotted text form, the label sequence, and the wire form
//! of length-prefixed labels with compression pointers.

use crate::consts::{MAX_JUMPS, MAX_LABEL_LENGTH, MAX_NAME_LENGTH, POINTER_TAG};
use crate::error::CodecError;
use vstd::prelude::*;
use vstd::slice::slice_subrange;

verus! {

/// The byte that separates labels in the text form of a name.
pub const DOT: u8 = 0x2E;

/// The labels of a name in text form, left to right: a dot opens a new
/// label, every other byte extends the last one. A name without a dot is a
/// single label; two dots in a row, or a dot at either end, give an empty
/// label.
pub open spec fn labels_of(name: Seq<u8>) -> Seq<Seq<u8>>
    decreases name.len(),
{
    if name.len() == 0 {
        seq![Seq::<u8>::empty()]
    } else {
        let before = labels_of(name.drop_last());
        if name.last() == DOT {
            before.push(Seq::<u8>::empty())
        } else {
            before.drop_last().push(before.last().push(name.last()))
        }
    }
}

/// The text form of a label sequence: the labels with a dot between each
/// two neighbours.
pub open spec fn dotted(labels: Seq<Seq<u8>>) -> Seq<u8>
    decreases labels.len(),
{
    if labels.len() == 0 {
        Seq::<u8>::empty()
    } else if labels.len() == 1 {
        labels[0]
    } else {
        dotted(labels.drop_last()) + seq![DOT] + labels.last()
    }
}

/// The labels on the wire, each behind its length byte, without the
/// terminator.
pub open spec fn wire_labels(labels: Seq<Seq<u8>>) -> Seq<u8>
    decreases labels.len(),
{
    if labels.len() == 0 {
        Seq::<u8>::empty()
    } else {
        wire_labels(labels.drop_last()) + seq![labels.last().len() as u8] + labels.last()
    }
}

/// The wire form of a name in text form: its labels in the order of the
/// text, then one zero byte.
pub open spec fn name_wire(name: Seq<u8>) -> Seq<u8> {
    wire_labels(labels_of(name)) + seq![0u8]
}

/// Whether no label is longer than a length byte may say.
pub open spec fn labels_fit(labels: Seq<Seq<u8>>) -> bool {
    forall|i: int| 0 <= i < labels.len() ==> (#[trigger] labels[i]).len() <= MAX_LABEL_LENGTH
}

/// Whether no label is empty.
pub open spec fn labels_nonempty(labels: Seq<Seq<u8>>) -> bool {
    forall|i: int| 0 <= i < labels.len() ==> (#[trigger] labels[i]).len() > 0
}

/// What encoding a name gives: its wire form, unless a label or the whole
/// is too long. A label that is too long is reported before the length of
/// the whole is looked at.
pub open spec fn encode_name_spec(name: Seq<u8>) -> Result<Seq<u8>, CodecError> {
    if !labels_fit(labels_of(name)) {
        Err(CodecError::LabelTooLong)
    } else if name_wire(name).len() > MAX_NAME_LENGTH {
        Err(CodecError::NameTooLong)
    } else {
        Ok(name_wire(name))
    }
}

/// A name has at least one label.
pub proof fn lemma_labels_exist(name: Seq<u8>)
    ensures
        labels_of(name).len() >= 1,
    decreases name.len(),
{
    if name.len() > 0 {
        lemma_labels_exist(name.drop_last());
    }
}

/// Joining the labels of a name with dots gives the name back.
pub proof fn lemma_dotted_labels(name: Seq<u8>)
    ensures
        dotted(labels_of(name)) == name,
    decreases name.len(),
{
    if name.len() == 0 {
        assert(dotted(labels_of(name)) =~= name);
    } else {
        let front = name.drop_last();
        let before = labels_of(front);
        lemma_labels_exist(front);
        lemma_dotted_labels(front);
        let labels = labels_of(name);
        if name.last() == DOT {
            assert(labels.drop_last() =~= before);
            assert(dotted(labels) =~= front + seq![DOT]);
            assert(front + seq![DOT] =~= name);
        } else {
            let grown = before.last().push(name.last());
            if before.len() == 1 {
                assert(labels[0] == grown);
                assert(dotted(before) == before[0]);
                assert(grown =~= name);
            } else {
                assert(labels.drop_last() =~= before.drop_last());
                assert(dotted(labels) =~= dotted(before.drop_last()) + seq![DOT] + grown);
                assert(dotted(before) == dotted(before.drop_last()) + seq![DOT] + before.last());
                assert(dotted(labels) =~= dotted(before).push(name.last()));
                assert(front.push(name.last()) =~= name);
            }
        }
    }
}

/// The wire form of a name is two bytes longer than its text form: one
/// length byte in place of each dot, one before the first label, and the
/// terminator.
pub proof fn lemma_wire_length(name: Seq<u8>)
    ensures
        wire_labels(labels_of(name)).len() == name.len() + 1,
        name_wire(name).len() == name.len() + 2,
    decreases name.len(),
{
    if name.len() == 0 {
        let labels = labels_of(name);
        assert(labels.drop_last() =~= Seq::<Seq<u8>>::empty());
        assert(wire_labels(labels.drop_last()).len() == 0);
    } else {
        let front = name.drop_last();
        let before = labels_of(front);
        lemma_labels_exist(front);
        lemma_wire_length(front);
        let labels = labels_of(name);
        if name.last() == DOT {
            assert(labels.drop_last() =~= before);
        } else {
            assert(labels.drop_last() =~= before.drop_last());
        }
    }
}

/// Reading on in a name never shortens a label that was already begun: the
/// labels of a prefix are no more and no longer than those of the whole.
pub proof fn lemma_labels_grow(name: Seq<u8>, k: int)
    requires
        0 <= k <= name.len(),
    ensures
        labels_of(name.take(k)).len() <= labels_of(name).len(),
        forall|i: int|
            0 <= i < labels_of(name.take(k)).len() ==> (#[trigger] labels_of(name.take(k))[i]).len()
                <= labels_of(name)[i].len(),
    decreases name.len(),
{
    if k == name.len() {
        assert(name.take(k) =~= name);
    } else {
        let front = name.drop_last();
        assert(front.take(k) =~= name.take(k));
        lemma_labels_grow(front, k);
        lemma_labels_exist(front);
        lemma_labels_exist(name.take(k));
        let part = labels_of(name.take(k));
        let before = labels_of(front);
        let labels = labels_of(name);
        assert forall|i: int| 0 <= i < part.len() implies (#[trigger] part[i]).len()
            <= labels[i].len() by {
            assert(part[i].len() <= before[i].len());
        }
    }
}

/// Builds the wire form of a name given in text form.
///
/// Fails with `LabelTooLong` exactly when a label has more than 63 bytes,
/// and with `NameTooLong` exactly when no label is too long and the wire
/// form would have more than 255 bytes.
pub fn name_to_wire(name: &[u8]) -> (result: Result<Vec<u8>, CodecError>)
    ensures
        match encode_name_spec(name@) {
            Ok(wire) => result is Ok && result->Ok_0@ == wire,
            Err(e) => result == Err::<Vec<u8>, CodecError>(e),
        },
{
    let mut wire: Vec<u8> = Vec::new();
    wire.push(0u8);
    let mut length_at: usize = 0;
    let mut label_length: usize = 0;
    let mut i: usize = 0;
    proof {
        assert(name@.take(0) =~= Seq::<u8>::empty());
        assert(labels_of(name@.take(0)).drop_last() =~= Seq::<Seq<u8>>::empty());
        assert(wire@ =~= wire_labels(labels_of(name@.take(0)).drop_last()) + seq![0u8]
            + labels_of(name@.take(0)).last());
    }
    while i < name.len()
        invariant
            0 <= i <= name@.len(),
            labels_of(name@.take(i as int)).len() >= 1,
            labels_fit(labels_of(name@.take(i as int))),
            label_length == labels_of(name@.take(i as int)).last().len(),
            length_at == wire_labels(labels_of(name@.take(i as int)).drop_last()).len(),
            wire@ == wire_labels(labels_of(name@.take(i as int)).drop_last()) + seq![0u8]
                + labels_of(name@.take(i as int)).last(),
        decreases name@.len() - i,
    {
        let byte: u8 = name[i];
        let ghost seen = labels_of(name@.take(i as int));
        let ghost next = labels_of(name@.take(i + 1));
        proof {
            assert(name@.take(i + 1).drop_last() =~= name@.take(i as int));
            assert(name@.take(i + 1).last() == byte);
            lemma_labels_exist(name@.take(i + 1));
        }
        if byte == DOT {
            wire.set(length_at, label_length as u8);
            length_at = wire.len();
            wire.push(0u8);
            label_length = 0;
            proof {
                assert(next == seen.push(Seq::<u8>::empty()));
                assert(next.drop_last() =~= seen);
                assert(wire_labels(seen) == wire_labels(seen.drop_last()) + seq![
                    seen.last().len() as u8,
                ] + seen.last());
                assert(wire@ =~= wire_labels(next.drop_last()) + seq![0u8] + next.last());
            }
        } else {
            if label_length >= MAX_LABEL_LENGTH {
                proof {
                    assert(next == seen.drop_last().push(seen.last().push(byte)));
                    assert(next.last().len() == label_length + 1);
                    lemma_labels_grow(name@, i + 1);
                    let at = next.len() - 1;
                    assert(next[at].len() <= labels_of(name@)[at].len());
                    assert(!labels_fit(labels_of(name@)));
                }
                return Err(CodecError::LabelTooLong);
            }
            wire.push(byte);
            label_length = label_length + 1;
            proof {
                assert(next == seen.drop_last().push(seen.last().push(byte)));
                assert(next.drop_last() =~= seen.drop_last());
                assert(wire@ =~= wire_labels(next.drop_last()) + seq![0u8] + next.last());
            }
        }
        i = i + 1;
    }
    proof {
        assert(name@.take(i as int) =~= name@);
        lemma_wire_length(name@);
    }
    let ghost labels = labels_of(name@);
    wire.set(length_at, label_length as u8);
    wire.push(0u8);
    proof {
        assert(wire_labels(labels) == wire_labels(labels.drop_last()) + seq![
            labels.last().len() as u8,
        ] + labels.last());
        assert(wire@ =~= name_wire(name@));
    }
    if wire.len() > MAX_NAME_LENGTH {
        return Err(CodecError::NameTooLong);
    }
    Ok(wire)
}

/// Appends the wire form of a name to `out` and returns the number of
/// bytes written. On failure `out` is left as it was.
pub fn encode_name(name: &[u8], out: &mut Vec<u8>) -> (result: Result<usize, CodecError>)
    ensures
        match encode_name_spec(name@) {
            Ok(wire) => result == Ok::<usize, CodecError>(wire.len() as usize) && final(out)@
                == old(out)@ + wire,
            Err(e) => result == Err::<usize, CodecError>(e) && final(out)@ == old(out)@,
        },
{
    match name_to_wire(name) {
        Ok(wire) => {
            out.extend_from_slice(wire.as_slice());
            Ok(wire.len())
        },
        Err(e) => Err(e),
    }
}

/// The offset that a compression pointer with these two bytes names: the
/// low six bits of the first byte, then the second byte.
pub open spec fn pointer_target(first: u8, second: u8) -> int {
    (first - POINTER_TAG) * 256 + second
}

/// `labels` in front of what the rest of a name gave.
pub open spec fn labels_then(
    labels: Seq<Seq<u8>>,
    rest: Result<Seq<Seq<u8>>, CodecError>,
) -> Result<Seq<Seq<u8>>, CodecError> {
    match rest {
        Ok(more) => Ok(labels + more),
        Err(e) => Err(e),
    }
}

/// The labels of the name that starts at `pos`, when at most `jumps`
/// compression pointers may still be followed.
///
/// A zero byte ends the name. A byte from 1 to 63 is the length of a label
/// that follows it. A byte from 0xC0 on starts a two-byte pointer, and the
/// name goes on at the offset it names. Any other byte is an error, and so
/// is every read at or past the end of the buffer, and a pointer when no
/// jump is left.
pub open spec fn walk_labels(buf: Seq<u8>, pos: int, jumps: nat) -> Result<
    Seq<Seq<u8>>,
    CodecError,
>
    decreases jumps, buf.len() - pos,
{
    if pos < 0 || pos >= buf.len() {
        Err(CodecError::UnexpectedEndOfBuffer)
    } else if buf[pos] == 0 {
        Ok(Seq::<Seq<u8>>::empty())
    } else if buf[pos] <= MAX_LABEL_LENGTH {
        let after = pos + 1 + buf[pos];
        if after > buf.len() {
            Err(CodecError::UnexpectedEndOfBuffer)
        } else {
            labels_then(seq![buf.subrange(pos + 1, after)], walk_labels(buf, after, jumps))
        }
    } else if buf[pos] >= POINTER_TAG {
        if pos + 1 >= buf.len() {
            Err(CodecError::UnexpectedEndOfBuffer)
        } else if jumps == 0 {
            Err(CodecError::CompressionLoop)
        } else {
            walk_labels(buf, pointer_target(buf[pos], buf[pos + 1]), (jumps - 1) as nat)
        }
    } else {
        Err(CodecError::InvalidLabelLength)
    }
}

/// The offset just behind the bytes that the name at `pos` occupies in
/// place: behind its terminator, or behind its first pointer. What a
/// pointer leads to does not count.
pub open spec fn name_end(buf: Seq<u8>, pos: int) -> int
    decreases buf.len() - pos,
{
    if pos < 0 || pos >= buf.len() {
        pos
    } else if 1 <= buf[pos] <= MAX_LABEL_LENGTH {
        if pos + 1 + buf[pos] > buf.len() {
            pos
        } else {
            name_end(buf, pos + 1 + buf[pos])
        }
    } else if buf[pos] >= POINTER_TAG {
        pos + 2
    } else {
        pos + 1
    }
}

/// What decoding the name at `start` gives: its text form and the offset
/// behind it, or the first error met on the way.
pub open spec fn decode_name_spec(buf: Seq<u8>, start: int) -> Result<(Seq<u8>, int), CodecError> {
    match walk_labels(buf, start, MAX_JUMPS as nat) {
        Ok(labels) => Ok((dotted(labels), name_end(buf, start))),
        Err(e) => Err(e),
    }
}

/// A name that decodes lies inside the buffer, and so does its end.
pub proof fn lemma_name_end_in_buffer(buf: Seq<u8>, pos: int, jumps: nat)
    requires
        walk_labels(buf, pos, jumps) is Ok,
    ensures
        0 <= pos < name_end(buf, pos) <= buf.len(),
    decreases buf.len() - pos,
{
    if 1 <= buf[pos] <= MAX_LABEL_LENGTH {
        lemma_name_end_in_buffer(buf, pos + 1 + buf[pos], jumps);
    }
}

/// Decodes the name that starts at `start`, following compression
/// pointers, and returns its text form together with the offset behind the
/// bytes that the name occupies at `start`.
///
/// Fails with `UnexpectedEndOfBuffer` when a length byte, a label or the
/// second byte of a pointer lies past the end of the buffer, with
/// `InvalidLabelLength` on a length byte from 64 to 191, and with
/// `CompressionLoop` when the name holds more than 128 pointers.
pub fn decode_name(buf: &[u8], start: usize) -> (result: Result<(Vec<u8>, usize), CodecError>)
    ensures
        match decode_name_spec(buf@, start as int) {
            Ok((name, end)) => result is Ok && result->Ok_0.0@ == name && result->Ok_0.1 == end
                && start < end <= buf@.len(),
            Err(e) => result == Err::<(Vec<u8>, usize), CodecError>(e),
        },
{
    proof {
        if walk_labels(buf@, start as int, MAX_JUMPS as nat) is Ok {
            lemma_name_end_in_buffer(buf@, start as int, MAX_JUMPS as nat);
        }
    }
    let mut name: Vec<u8> = Vec::new();
    let mut pos: usize = start;
    let mut left: usize = MAX_JUMPS;
    let mut end: usize = 0;
    let mut jumped: bool = false;
    let mut any_label: bool = false;
    let ghost mut seen: Seq<Seq<u8>> = Seq::empty();
    proof {
        assert(seen + Seq::<Seq<u8>>::empty() =~= seen);
    }
    loop
        invariant
            left <= MAX_JUMPS,
            walk_labels(buf@, start as int, MAX_JUMPS as nat) == labels_then(
                seen,
                walk_labels(buf@, pos as int, left as nat),
            ),
            walk_labels(buf@, start as int, MAX_JUMPS as nat) is Ok ==> start < name_end(
                buf@,
                start as int,
            ) <= buf@.len(),
            name@ == dotted(seen),
            any_label == (seen.len() > 0),
            jumped ==> end == name_end(buf@, start as int),
            !jumped ==> name_end(buf@, start as int) == name_end(buf@, pos as int),
        decreases left, buf@.len() - pos,
    {
        if pos >= buf.len() {
            return Err(CodecError::UnexpectedEndOfBuffer);
        }
        let byte: u8 = buf[pos];
        if byte == 0 {
            if !jumped {
                end = pos + 1;
            }
            proof {
                assert(seen + Seq::<Seq<u8>>::empty() =~= seen);
            }
            return Ok((name, end));
        } else if byte as usize <= MAX_LABEL_LENGTH {
            let length: usize = byte as usize;
            if length > buf.len() - pos - 1 {
                return Err(CodecError::UnexpectedEndOfBuffer);
            }
            let after: usize = pos + 1 + length;
            if any_label {
                name.push(DOT);
            }
            name.extend_from_slice(slice_subrange(buf, pos + 1, after));
            proof {
                let label = buf@.subrange(pos + 1, after as int);
                let rest = walk_labels(buf@, after as int, left as nat);
                assert(labels_then(seen, labels_then(seq![label], rest)) == labels_then(
                    seen.push(label),
                    rest,
                )) by {
                    if rest is Ok {
                        assert(seen + (seq![label] + rest->Ok_0) =~= seen.push(label) + rest->Ok_0);
                    }
                }
                assert(seen.push(label).drop_last() =~= seen);
                seen = seen.push(label);
            }
            any_label = true;
            pos = after;
        } else if byte >= POINTER_TAG {
            if pos + 1 >= buf.len() {
                return Err(CodecError::UnexpectedEndOfBuffer);
            }
            if left == 0 {
                return Err(CodecError::CompressionLoop);
            }
            if !jumped {
                end = pos + 2;
                jumped = true;
            }
            let second: u8 = buf[pos + 1];
            pos = (byte as usize - POINTER_TAG as usize) * 256 + second as usize;
            left = left - 1;
        } else {
            return Err(CodecError::InvalidLabelLength);
        }
    }
}

} // verus!
