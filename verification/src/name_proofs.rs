//! What holds of encoding and decoding names, whatever the input.

use crate::consts::{MAX_JUMPS, MAX_LABEL_LENGTH, POINTER_TAG};
use crate::error::CodecError;
use crate::name::{
    decode_name_spec, dotted, encode_name_spec, labels_fit, labels_nonempty, labels_of,
    lemma_dotted_labels, lemma_labels_exist, lemma_name_end_in_buffer, name_end, name_wire,
    pointer_target, walk_labels, wire_labels, DOT,
};
use vstd::prelude::*;

verus! {

/// Whether no label holds a dot.
pub open spec fn labels_dot_free(labels: Seq<Seq<u8>>) -> bool {
    forall|i: int, j: int|
        0 <= i < labels.len() && 0 <= j < labels[i].len() ==> (#[trigger] labels[i][j]) != DOT
}

/// No label of a name holds a dot: the dots of the name are exactly the
/// places where one label ends and the next begins.
pub proof fn lemma_labels_dot_free(name: Seq<u8>)
    ensures
        labels_dot_free(labels_of(name)),
    decreases name.len(),
{
    if name.len() > 0 {
        let before = labels_of(name.drop_last());
        lemma_labels_exist(name.drop_last());
        lemma_labels_dot_free(name.drop_last());
        let labels = labels_of(name);
        assert forall|i: int, j: int|
            0 <= i < labels.len() && 0 <= j < labels[i].len() implies (#[trigger] labels[i][j])
            != DOT by {
            if i < before.len() - 1 {
                assert(labels[i] == before[i]);
                assert(before[i][j] != DOT);
            } else if i == before.len() - 1 && name.last() != DOT {
                if j < before[i].len() {
                    assert(before[i][j] != DOT);
                }
            }
        }
    }
}

/// Bytes without a dot behind a name extend its last label.
pub proof fn lemma_labels_extend(name: Seq<u8>, tail: Seq<u8>)
    requires
        forall|j: int| 0 <= j < tail.len() ==> tail[j] != DOT,
    ensures
        labels_of(name + tail) == labels_of(name).drop_last().push(labels_of(name).last() + tail),
    decreases tail.len(),
{
    let labels = labels_of(name);
    lemma_labels_exist(name);
    if tail.len() == 0 {
        assert(name + tail =~= name);
        assert(labels.last() + tail =~= labels.last());
        assert(labels.drop_last().push(labels.last()) =~= labels);
    } else {
        let front = tail.drop_last();
        lemma_labels_extend(name, front);
        assert((name + tail).drop_last() =~= name + front);
        assert((name + tail).last() == tail.last());
        let before = labels_of(name + front);
        assert(before.drop_last() =~= labels.drop_last());
        assert(before.last().push(tail.last()) =~= labels.last() + tail);
    }
}

/// Splitting undoes joining: the labels of the text form of a label
/// sequence are that sequence, where it has at least one label and no label
/// holds a dot. Together with `lemma_dotted_labels` this makes names in text
/// form and such label sequences two views of the same thing.
pub proof fn lemma_labels_of_dotted(labels: Seq<Seq<u8>>)
    requires
        labels.len() >= 1,
        labels_dot_free(labels),
    ensures
        labels_of(dotted(labels)) == labels,
    decreases labels.len(),
{
    let empty = Seq::<u8>::empty();
    let last = labels.last();
    assert forall|j: int| 0 <= j < last.len() implies last[j] != DOT by {
        assert(labels[labels.len() - 1][j] != DOT);
    }
    if labels.len() == 1 {
        lemma_labels_extend(empty, last);
        assert(empty + last =~= last);
        assert(labels_of(empty).drop_last().push(labels_of(empty).last() + last) =~= labels);
    } else {
        let front = labels.drop_last();
        assert forall|i: int, j: int|
            0 <= i < front.len() && 0 <= j < front[i].len() implies (#[trigger] front[i][j])
            != DOT by {
            assert(labels[i][j] != DOT);
        }
        lemma_labels_of_dotted(front);
        let stem = dotted(front) + seq![DOT];
        assert(stem.drop_last() =~= dotted(front));
        assert(labels_of(stem) == front.push(empty));
        lemma_labels_extend(stem, last);
        assert(stem + last =~= dotted(labels));
        assert(front.push(empty).drop_last().push(front.push(empty).last() + last) =~= labels);
    }
}

/// The wire form of a label sequence starts with its first label.
pub proof fn lemma_wire_labels_head(labels: Seq<Seq<u8>>)
    requires
        labels.len() >= 1,
    ensures
        wire_labels(labels) == seq![labels[0].len() as u8] + labels[0] + wire_labels(
            labels.skip(1),
        ),
    decreases labels.len(),
{
    let front = labels.drop_last();
    if labels.len() == 1 {
        assert(wire_labels(front) =~= Seq::<u8>::empty());
        assert(wire_labels(labels.skip(1)) =~= Seq::<u8>::empty());
        assert(wire_labels(labels) =~= seq![labels[0].len() as u8] + labels[0] + wire_labels(
            labels.skip(1),
        ));
    } else {
        lemma_wire_labels_head(front);
        let tail = labels.skip(1);
        assert(tail.drop_last() =~= front.skip(1));
        assert(tail.last() == labels.last());
        assert(wire_labels(tail) == wire_labels(front.skip(1)) + seq![labels.last().len() as u8]
            + labels.last());
        assert(wire_labels(labels) =~= seq![labels[0].len() as u8] + labels[0] + wire_labels(
            tail,
        ));
    }
}

/// Where a buffer holds the wire form of some labels, none of them empty
/// or too long, and a zero byte behind it, decoding at that place gives
/// exactly those labels and ends behind the zero byte. No pointer is met,
/// so the number of jumps allowed does not matter.
pub proof fn lemma_walk_wire_labels(buf: Seq<u8>, pos: int, labels: Seq<Seq<u8>>, jumps: nat)
    requires
        labels_fit(labels),
        labels_nonempty(labels),
        0 <= pos,
        pos + wire_labels(labels).len() < buf.len(),
        buf.subrange(pos, pos + wire_labels(labels).len()) == wire_labels(labels),
        buf[pos + wire_labels(labels).len()] == 0,
    ensures
        walk_labels(buf, pos, jumps) == Ok::<Seq<Seq<u8>>, CodecError>(labels),
        name_end(buf, pos) == pos + wire_labels(labels).len() + 1,
    decreases labels.len(),
{
    if labels.len() == 0 {
        assert(walk_labels(buf, pos, jumps) == Ok::<Seq<Seq<u8>>, CodecError>(
            Seq::<Seq<u8>>::empty(),
        ));
        assert(labels =~= Seq::<Seq<u8>>::empty());
    } else {
        let first = labels[0];
        let tail = labels.skip(1);
        let wire = wire_labels(labels);
        lemma_wire_labels_head(labels);
        assert(first.len() <= MAX_LABEL_LENGTH);
        assert(first.len() > 0);
        let here = buf.subrange(pos, pos + wire.len());
        assert(buf[pos] == here[0]);
        assert(here[0] == first.len() as u8);
        let after = pos + 1 + first.len();
        assert(buf.subrange(pos + 1, after) =~= first) by {
            assert forall|i: int| 0 <= i < first.len() implies buf.subrange(pos + 1, after)[i]
                == first[i] by {
                assert(buf[pos + 1 + i] == here[1 + i]);
            }
        }
        assert(buf.subrange(after, after + wire_labels(tail).len()) =~= wire_labels(tail)) by {
            assert forall|i: int| 0 <= i < wire_labels(tail).len() implies buf.subrange(
                after,
                after + wire_labels(tail).len(),
            )[i] == wire_labels(tail)[i] by {
                assert(buf[after + i] == here[1 + first.len() + i]);
            }
        }
        assert forall|i: int| 0 <= i < tail.len() implies (#[trigger] tail[i]).len()
            <= MAX_LABEL_LENGTH && tail[i].len() > 0 by {
            assert(tail[i] == labels[i + 1]);
        }
        lemma_walk_wire_labels(buf, after, tail, jumps);
        assert(seq![first] + tail =~= labels);
    }
}

/// Encoding a name and decoding the result gives the name back, wherever
/// in a buffer the wire form stands: the same labels in the same order, the
/// same text, and an end right behind the terminator. This holds of every
/// name that can be encoded and has no empty label.
pub proof fn lemma_name_round_trip(name: Seq<u8>, before: Seq<u8>, after: Seq<u8>)
    requires
        encode_name_spec(name) is Ok,
        labels_nonempty(labels_of(name)),
    ensures
        walk_labels(before + name_wire(name) + after, before.len() as int, MAX_JUMPS as nat)
            == Ok::<Seq<Seq<u8>>, CodecError>(labels_of(name)),
        decode_name_spec(before + name_wire(name) + after, before.len() as int) == Ok::<
            (Seq<u8>, int),
            CodecError,
        >((name, (before.len() + name_wire(name).len()) as int)),
{
    let labels = labels_of(name);
    let buf = before + name_wire(name) + after;
    let pos = before.len() as int;
    let body = wire_labels(labels);
    assert(buf.subrange(pos, pos + body.len()) =~= body);
    assert(buf[pos + body.len()] == name_wire(name)[body.len() as int]);
    lemma_walk_wire_labels(buf, pos, labels, MAX_JUMPS as nat);
    lemma_dotted_labels(name);
}

/// The empty name is written as an empty label and the terminator. Decoding
/// stops at the first of the two zero bytes and gives the empty name back.
pub proof fn lemma_empty_name_round_trip(before: Seq<u8>, after: Seq<u8>)
    ensures
        encode_name_spec(Seq::<u8>::empty()) == Ok::<Seq<u8>, CodecError>(seq![0u8, 0u8]),
        decode_name_spec(before + seq![0u8, 0u8] + after, before.len() as int) == Ok::<
            (Seq<u8>, int),
            CodecError,
        >((Seq::<u8>::empty(), (before.len() + 1) as int)),
{
    let name = Seq::<u8>::empty();
    let labels = labels_of(name);
    assert(labels.drop_last() =~= Seq::<Seq<u8>>::empty());
    assert(wire_labels(labels.drop_last()) =~= Seq::<u8>::empty());
    assert(name_wire(name) =~= seq![0u8, 0u8]);
    let buf = before + seq![0u8, 0u8] + after;
    assert(buf[before.len() as int] == 0);
    assert(dotted(Seq::<Seq<u8>>::empty()) =~= name);
}

/// The offset at which a name goes on behind the item at `pos`, where that
/// item is a label or a pointer that lies inside the buffer.
pub open spec fn next_offset(buf: Seq<u8>, pos: int) -> Option<int> {
    if pos < 0 || pos >= buf.len() {
        None
    } else if 1 <= buf[pos] <= MAX_LABEL_LENGTH && pos + 1 + buf[pos] <= buf.len() {
        Some(pos + 1 + buf[pos])
    } else if buf[pos] >= POINTER_TAG && pos + 1 < buf.len() {
        Some(pointer_target(buf[pos], buf[pos + 1]))
    } else {
        None
    }
}

/// The offset reached from `start` after `steps` labels and pointers, if
/// the name goes on that far.
pub open spec fn offset_after(buf: Seq<u8>, start: int, steps: nat) -> Option<int>
    decreases steps,
{
    if steps == 0 {
        Some(start)
    } else {
        match offset_after(buf, start, (steps - 1) as nat) {
            Some(pos) => next_offset(buf, pos),
            None => None,
        }
    }
}

proof fn lemma_offset_shift(buf: Seq<u8>, start: int, steps: nat)
    ensures
        offset_after(buf, start, steps + 1) == match next_offset(buf, start) {
            Some(pos) => offset_after(buf, pos, steps),
            None => None,
        },
    decreases steps,
{
    if steps == 0 {
        assert(offset_after(buf, start, 1) == next_offset(buf, start)) by {
            reveal_with_fuel(offset_after, 2);
        }
    } else {
        lemma_offset_shift(buf, start, (steps - 1) as nat);
    }
}

proof fn lemma_offsets_before(buf: Seq<u8>, start: int, steps: nat, fewer: nat)
    requires
        fewer <= steps,
        offset_after(buf, start, steps) is Some,
    ensures
        offset_after(buf, start, fewer) is Some,
    decreases steps,
{
    if fewer < steps {
        lemma_offsets_before(buf, start, (steps - 1) as nat, fewer);
    }
}

proof fn lemma_offsets_repeat(buf: Seq<u8>, start: int, i: nat, j: nat, more: nat)
    requires
        offset_after(buf, start, i) == offset_after(buf, start, j),
    ensures
        offset_after(buf, start, i + more) == offset_after(buf, start, j + more),
    decreases more,
{
    if more > 0 {
        lemma_offsets_repeat(buf, start, i, j, (more - 1) as nat);
    }
}

proof fn lemma_offsets_never_stop(buf: Seq<u8>, start: int, i: nat, j: nat, steps: nat)
    requires
        i < j,
        offset_after(buf, start, i) is Some,
        offset_after(buf, start, i) == offset_after(buf, start, j),
    ensures
        offset_after(buf, start, steps) is Some,
    decreases steps,
{
    if steps <= j {
        lemma_offsets_before(buf, start, j, steps);
    } else {
        let more = (steps - j) as nat;
        lemma_offsets_repeat(buf, start, i, j, more);
        lemma_offsets_never_stop(buf, start, i, j, i + more);
    }
}

proof fn lemma_endless_walk(buf: Seq<u8>, pos: int, jumps: nat)
    requires
        forall|steps: nat| (#[trigger] offset_after(buf, pos, steps)) is Some,
    ensures
        walk_labels(buf, pos, jumps) == Err::<Seq<Seq<u8>>, CodecError>(
            CodecError::CompressionLoop,
        ),
    decreases jumps, buf.len() - pos,
{
    lemma_offset_shift(buf, pos, 0);
    assert(offset_after(buf, pos, 1) is Some);
    let next = next_offset(buf, pos)->Some_0;
    assert forall|steps: nat| (#[trigger] offset_after(buf, next, steps)) is Some by {
        lemma_offset_shift(buf, pos, steps);
        assert(offset_after(buf, pos, steps + 1) is Some);
    }
    if 1 <= buf[pos] <= MAX_LABEL_LENGTH {
        lemma_endless_walk(buf, next, jumps);
    } else if jumps > 0 {
        lemma_endless_walk(buf, next, (jumps - 1) as nat);
    }
}

/// A name whose labels and pointers lead back to an offset that was
/// already passed cannot be decoded: decoding fails with `CompressionLoop`.
/// Here the name at `start` reaches, after `j` items, the offset that it
/// had reached after `i` items.
pub proof fn lemma_revisit_fails(buf: Seq<u8>, start: int, i: nat, j: nat)
    requires
        i < j,
        offset_after(buf, start, i) is Some,
        offset_after(buf, start, i) == offset_after(buf, start, j),
    ensures
        decode_name_spec(buf, start) == Err::<(Seq<u8>, int), CodecError>(
            CodecError::CompressionLoop,
        ),
{
    assert forall|steps: nat| (#[trigger] offset_after(buf, start, steps)) is Some by {
        lemma_offsets_never_stop(buf, start, i, j, steps);
    }
    lemma_endless_walk(buf, start, MAX_JUMPS as nat);
}

/// A name that decodes in the first `k` bytes of a buffer decodes to the
/// same labels, with the same end, in the whole buffer.
pub proof fn lemma_walk_prefix(buf: Seq<u8>, k: int, pos: int, jumps: nat)
    requires
        0 <= k <= buf.len(),
        walk_labels(buf.take(k), pos, jumps) is Ok,
    ensures
        walk_labels(buf, pos, jumps) == walk_labels(buf.take(k), pos, jumps),
        name_end(buf, pos) == name_end(buf.take(k), pos),
    decreases jumps, buf.len() - pos,
{
    let cut = buf.take(k);
    assert(cut[pos] == buf[pos]);
    if cut[pos] == 0 {
    } else if cut[pos] <= MAX_LABEL_LENGTH {
        let after = pos + 1 + cut[pos];
        assert(cut.subrange(pos + 1, after) =~= buf.subrange(pos + 1, after));
        lemma_walk_prefix(buf, k, after, jumps);
    } else if cut[pos] >= POINTER_TAG {
        assert(cut[pos + 1] == buf[pos + 1]);
        lemma_walk_prefix(
            buf,
            k,
            pointer_target(cut[pos], cut[pos + 1]),
            (jumps - 1) as nat,
        );
    }
}

/// A name that decodes in a buffer does not decode in any shorter prefix
/// that cuts into the bytes it occupies: decoding there fails.
pub proof fn lemma_name_cut_fails(buf: Seq<u8>, start: int, k: int)
    requires
        decode_name_spec(buf, start) is Ok,
        0 <= k < decode_name_spec(buf, start)->Ok_0.1,
    ensures
        decode_name_spec(buf.take(k), start) is Err,
{
    lemma_name_end_in_buffer(buf, start, MAX_JUMPS as nat);
    if walk_labels(buf.take(k), start, MAX_JUMPS as nat) is Ok {
        lemma_walk_prefix(buf, k, start, MAX_JUMPS as nat);
        lemma_name_end_in_buffer(buf.take(k), start, MAX_JUMPS as nat);
    }
}

} // verus!
