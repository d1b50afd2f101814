//! Domain names on the wire: each label as an octet with its length followed
//! by its octets, closed by a zero octet or by a compression pointer to the
//! rest of the name elsewhere in the message.

use crate::domain_name::{
    append_result, is_name_text, lemma_name_labels, DomainName, DOMAIN_NAME_MAX_LABEL_LENGTH, DOMAIN_NAME_MAX_LENGTH,
    DOMAIN_NAME_MAX_RECURSION,
};
use crate::error::DecodeError;
use crate::labels::{
    labels_of, lemma_split_dot_free, lemma_split_join, lemma_split_len, lemma_text_of_grows,
    lemma_text_of_next, root_text, split_dots, text_of,
};
use crate::text::{first_dot, DOT};
use vstd::prelude::*;
use vstd::slice::slice_subrange;
use vstd::string::*;
use vstd::utf8::*;

verus! {

/// The first octet of a compression pointer is at least this: its two top
/// bits are set.
pub const POINTER_MARKER: u8 = 0xC0;

/// The labels on the wire, each behind the octet with its length.
pub open spec fn labels_wire(labels: Seq<Seq<u8>>) -> Seq<u8>
    decreases labels.len(),
{
    if labels.len() == 0 {
        Seq::empty()
    } else {
        labels_wire(labels.drop_last()) + seq![labels.last().len() as u8] + labels.last()
    }
}

/// The name with text `text` on the wire, without compression: its labels,
/// then the zero octet.
pub open spec fn wire_of(text: Seq<u8>) -> Seq<u8> {
    labels_wire(labels_of(text)).push(0u8)
}

/// A decoded name's text and the offset behind it, or why there is none.
pub type DecodeResult = Result<(Seq<u8>, int), DecodeError>;

/// What a label read off the wire does to the name with text `text`: it has
/// to be UTF-8 text, and is then appended as any other label.
pub open spec fn label_result(text: Seq<u8>, label: Seq<u8>) -> Result<Seq<u8>, DecodeError> {
    if !valid_utf8(label) {
        Err(DecodeError::LabelEncoding)
    } else {
        match append_result(text, label) {
            Ok(longer) => Ok(longer),
            Err(e) => Err(DecodeError::DomainName(e)),
        }
    }
}

/// Where the pointer made of the octets `first` and `second` points: the
/// offset in its low 14 bits.
pub open spec fn pointer_target(first: u8, second: u8) -> int {
    (first - POINTER_MARKER) * 256 + second
}

/// A decoder's result seen from the place that a pointer was taken from:
/// the name is the one found, and the offset behind it is `resume`.
pub open spec fn resumed_at(result: DecodeResult, resume: int) -> DecodeResult {
    match result {
        Ok((text, _)) => Ok((text, resume)),
        Err(e) => Err(e),
    }
}

/// Decoding the rest of a name at offset `at`, with the labels read so far
/// in `text` and `hops` pointers taken so far.
///
/// Past the end of the buffer there is nothing to read. A pointer needs its
/// second octet, is taken only if fewer than [`DOMAIN_NAME_MAX_RECURSION`]
/// were taken before it, and leads to the rest of the name; the name then
/// ends behind the pointer. A zero octet ends the name. Any other octet is
/// the length of a label, whose octets must all be there.
pub open spec fn decode_from(buffer: Seq<u8>, at: int, text: Seq<u8>, hops: nat) -> DecodeResult
    decreases DOMAIN_NAME_MAX_RECURSION - hops, buffer.len() - at,
{
    if at < 0 || at >= buffer.len() {
        Err(DecodeError::BufferTruncated)
    } else if buffer[at] >= POINTER_MARKER {
        if at + 1 >= buffer.len() {
            Err(DecodeError::BufferTruncated)
        } else if hops >= DOMAIN_NAME_MAX_RECURSION {
            Err(DecodeError::TooMuchRecursion)
        } else {
            resumed_at(
                decode_from(buffer, pointer_target(buffer[at], buffer[at + 1]), text, hops + 1),
                at + 2,
            )
        }
    } else if buffer[at] == 0 {
        Ok((text, at + 1))
    } else {
        let behind = at + 1 + buffer[at];
        if behind > buffer.len() {
            Err(DecodeError::BufferTruncated)
        } else {
            match label_result(text, buffer.subrange(at + 1, behind)) {
                Ok(longer) => decode_from(buffer, behind, longer, hops),
                Err(e) => Err(e),
            }
        }
    }
}

/// Decoding a name that starts at offset `start` of `buffer`.
pub open spec fn decode_result(buffer: Seq<u8>, start: int) -> DecodeResult {
    decode_from(buffer, start, root_text(), 0)
}

/// The result of a decoder that goes on at another place, seen from where
/// the first pointer was taken, if one was.
spec fn resumed(result: DecodeResult, resume: Option<usize>) -> DecodeResult {
    match resume {
        Some(offset) => resumed_at(result, offset as int),
        None => result,
    }
}

impl DomainName {
    /// The name on the wire, without compression.
    pub fn encode(&self) -> (wire: Vec<u8>)
        ensures
            wire@ == wire_of(self@),
    {
        let text = self.as_bytes();
        let mut wire: Vec<u8> = Vec::new();
        if text.len() > 1 {
            let end: usize = text.len() - 1;
            let ghost body = text@.drop_last();
            let ghost done = Seq::<Seq<u8>>::empty();
            let mut start: usize = 0;
            let mut last = false;
            assert(text@ != root_text());
            assert(body.subrange(0, end as int) =~= body);
            while !last
                invariant
                    text@ == self@,
                    is_name_text(text@),
                    text@ != root_text(),
                    end == text@.len() - 1,
                    body == text@.drop_last(),
                    start <= end,
                    last ==> wire@ == labels_wire(split_dots(body)),
                    !last ==> split_dots(body) == done + split_dots(
                        body.subrange(start as int, end as int),
                    ),
                    !last ==> wire@ == labels_wire(done),
                decreases end - start + if last { 0int } else { 1int },
            {
                let rest = slice_subrange(text, start, end);
                let cut: usize = first_dot(rest);
                let label = slice_subrange(rest, 0, cut);
                let ghost pieces = done.push(label@);
                proof {
                    assert(rest@ =~= body.subrange(start as int, end as int));
                    lemma_split_dot_free(label@);
                    lemma_split_len(rest@);
                    if cut == rest.len() {
                        assert(label@ =~= rest@);
                        assert(done + seq![label@] =~= pieces);
                    } else {
                        let next = rest@.subrange(cut + 1, rest@.len() as int);
                        assert(rest@ =~= label@.push(DOT) + next);
                        lemma_split_join(label@, next);
                        lemma_split_len(next);
                        assert(next =~= body.subrange(start + cut + 1, end as int));
                        assert(split_dots(body) =~= pieces + split_dots(next));
                    }
                    assert(split_dots(body)[done.len() as int] == label@);
                    assert(labels_of(text@)[done.len() as int] == label@);
                    assert(pieces.drop_last() =~= done);
                }
                wire.push(cut as u8);
                wire.extend_from_slice(label);
                if cut == rest.len() {
                    last = true;
                } else {
                    start = start + cut + 1;
                }
                proof {
                    done = pieces;
                }
            }
        } else {
            assert(self@ =~= root_text());
        }
        wire.push(0);
        wire
    }

    /// Decodes the name that starts at `start_offset` of `buffer`, which is
    /// the whole message, so that compression pointers can be followed.
    /// Returns the name and the offset behind it in `buffer`: behind its
    /// zero octet, or behind the first pointer taken. That offset lies
    /// behind `start_offset` and within the buffer.
    pub fn decode(buffer: &[u8], start_offset: usize) -> (res: Result<(DomainName, usize), DecodeError>)
        ensures
            match res {
                Ok((name, end)) => {
                    &&& decode_result(buffer@, start_offset as int) == DecodeResult::Ok(
                        (name@, end as int),
                    )
                    &&& is_name_text(name@)
                    &&& start_offset < end <= buffer@.len()
                },
                Err(e) => decode_result(buffer@, start_offset as int) == DecodeResult::Err(e),
            },
    {
        let mut name = DomainName::default();
        let mut at: usize = start_offset;
        let mut hops: usize = 0;
        let mut resume: Option<usize> = None;
        loop
            invariant
                hops <= DOMAIN_NAME_MAX_RECURSION,
                match resume {
                    Some(offset) => start_offset < offset <= buffer@.len(),
                    None => start_offset <= at,
                },
                decode_result(buffer@, start_offset as int) == resumed(
                    decode_from(buffer@, at as int, name@, hops as nat),
                    resume,
                ),
            decreases DOMAIN_NAME_MAX_RECURSION - hops, buffer@.len() - at,
        {
            if at >= buffer.len() {
                return Err(DecodeError::BufferTruncated);
            }
            let first: u8 = buffer[at];
            if first >= POINTER_MARKER {
                if at + 1 >= buffer.len() {
                    return Err(DecodeError::BufferTruncated);
                }
                if hops >= DOMAIN_NAME_MAX_RECURSION {
                    return Err(DecodeError::TooMuchRecursion);
                }
                let target: usize = (first - POINTER_MARKER) as usize * 256 + buffer[at + 1] as usize;
                if resume.is_none() {
                    resume = Some(at + 2);
                }
                at = target;
                hops = hops + 1;
            } else if first == 0 {
                let end: usize = match resume {
                    Some(offset) => offset,
                    None => at + 1,
                };
                proof {
                    use_type_invariant(&name);
                }
                return Ok((name, end));
            } else {
                let length: usize = first as usize;
                if buffer.len() - at - 1 < length {
                    return Err(DecodeError::BufferTruncated);
                }
                let behind: usize = at + 1 + length;
                match core::str::from_utf8(slice_subrange(buffer, at + 1, behind)) {
                    Ok(label) => {
                        match name.append_label(label) {
                            Ok(()) => {},
                            Err(e) => {
                                return Err(DecodeError::DomainName(e));
                            },
                        }
                    },
                    Err(_) => {
                        return Err(DecodeError::LabelEncoding);
                    },
                }
                at = behind;
            }
        }
    }
}

/// Whether the name with text `text` has no empty label.
pub open spec fn no_empty_label(text: Seq<u8>) -> bool {
    forall|k: int| 0 <= k < labels_of(text).len() ==> (#[trigger] labels_of(text)[k]).len() > 0
}

/// Labels on the wire stand one behind the other.
pub proof fn lemma_labels_wire_concat(a: Seq<Seq<u8>>, b: Seq<Seq<u8>>)
    ensures
        labels_wire(a + b) == labels_wire(a) + labels_wire(b),
    decreases b.len(),
{
    if b.len() == 0 {
        assert(a + b =~= a);
        assert(labels_wire(a) + labels_wire(b) =~= labels_wire(a));
    } else {
        lemma_labels_wire_concat(a, b.drop_last());
        assert((a + b).drop_last() =~= a + b.drop_last());
        assert((a + b).last() == b.last());
        assert(labels_wire(a + b) =~= labels_wire(a) + labels_wire(b));
    }
}

/// Decoding the wire form of `labels` from behind the first `k` of them, with
/// those `k` read, gives all of them.
proof fn lemma_decode_labels(labels: Seq<Seq<u8>>, k: int)
    requires
        0 <= k <= labels.len(),
        forall|i: int|
            0 <= i < labels.len() ==> {
                &&& 0 < (#[trigger] labels[i]).len() < DOMAIN_NAME_MAX_LABEL_LENGTH
                &&& !labels[i].contains(DOT)
                &&& valid_utf8(labels[i])
            },
        text_of(labels).len() <= DOMAIN_NAME_MAX_LENGTH,
    ensures
        decode_from(
            labels_wire(labels).push(0u8),
            labels_wire(labels.take(k)).len() as int,
            text_of(labels.take(k)),
            0,
        ) == DecodeResult::Ok((text_of(labels), labels_wire(labels).len() as int + 1)),
    decreases labels.len() - k,
{
    let wire = labels_wire(labels).push(0u8);
    let read = labels.take(k);
    let at = labels_wire(read).len() as int;
    assert(labels =~= read + labels.skip(k));
    lemma_labels_wire_concat(read, labels.skip(k));
    if k == labels.len() {
        assert(read =~= labels);
        assert(wire[at] == 0);
    } else {
        let label = labels[k];
        let rest = labels.skip(k + 1);
        assert(labels.skip(k) =~= seq![label] + rest);
        lemma_labels_wire_concat(seq![label], rest);
        assert(seq![label].drop_last() =~= Seq::<Seq<u8>>::empty());
        assert(labels_wire(seq![label].drop_last()) =~= Seq::<u8>::empty());
        assert(seq![label].last() == label);
        assert(labels_wire(seq![label]) =~= seq![label.len() as u8] + label);
        assert(wire =~= labels_wire(read) + seq![label.len() as u8] + label + labels_wire(
            rest,
        ).push(0u8));
        assert(wire[at] == label.len() as u8);
        let behind = at + 1 + label.len();
        assert(wire.subrange(at + 1, behind) =~= label);
        lemma_text_of_next(labels, k);
        lemma_text_of_grows(labels, k);
        lemma_text_of_grows(labels, k + 1);
        let longer = labels.take(k + 1);
        assert(longer.drop_last() =~= read);
        assert(labels_wire(longer) =~= labels_wire(read) + seq![label.len() as u8] + label);
        assert(label_result(text_of(read), label) == Ok::<Seq<u8>, DecodeError>(text_of(longer)));
        lemma_decode_labels(labels, k + 1);
    }
}

/// Encoding a name and decoding the octets from their start gives the name
/// back, with the offset behind the last octet. This holds of every name
/// without an empty label.
pub proof fn lemma_decode_encode(text: Seq<u8>)
    requires
        is_name_text(text),
        no_empty_label(text),
    ensures
        decode_result(wire_of(text), 0) == DecodeResult::Ok((text, wire_of(text).len() as int)),
{
    let labels = labels_of(text);
    lemma_name_labels(text);
    assert(labels.take(0) =~= Seq::<Seq<u8>>::empty());
    lemma_decode_labels(labels, 0);
}

/// Whether `count` pointers follow one another from offset `at` on, each
/// pointing at the next.
pub open spec fn pointer_chain(buffer: Seq<u8>, at: int, count: nat) -> bool
    decreases count,
{
    count > 0 ==> {
        &&& 0 <= at
        &&& at + 1 < buffer.len()
        &&& buffer[at] >= POINTER_MARKER
        &&& pointer_chain(buffer, pointer_target(buffer[at], buffer[at + 1]), (count - 1) as nat)
    }
}

/// A decoder that has taken `hops` pointers gives up on a chain of pointers
/// that would take it beyond [`DOMAIN_NAME_MAX_RECURSION`].
proof fn lemma_pointer_chain_from(buffer: Seq<u8>, at: int, text: Seq<u8>, hops: nat)
    requires
        hops <= DOMAIN_NAME_MAX_RECURSION,
        pointer_chain(buffer, at, (DOMAIN_NAME_MAX_RECURSION + 1 - hops) as nat),
    ensures
        decode_from(buffer, at, text, hops) == DecodeResult::Err(DecodeError::TooMuchRecursion),
    decreases DOMAIN_NAME_MAX_RECURSION - hops,
{
    if hops < DOMAIN_NAME_MAX_RECURSION {
        lemma_pointer_chain_from(
            buffer,
            pointer_target(buffer[at], buffer[at + 1]),
            text,
            hops + 1,
        );
    }
}

/// A name that starts with a chain of more than
/// [`DOMAIN_NAME_MAX_RECURSION`] pointers is refused for its recursion,
/// wherever the chain would lead.
pub proof fn lemma_pointer_chain(buffer: Seq<u8>, start: int)
    requires
        pointer_chain(buffer, start, (DOMAIN_NAME_MAX_RECURSION + 1) as nat),
    ensures
        decode_result(buffer, start) == DecodeResult::Err(DecodeError::TooMuchRecursion),
{
    lemma_pointer_chain_from(buffer, start, root_text(), 0);
}

/// A pointer that points at itself is a chain of pointers of any length.
proof fn lemma_pointer_loop_chain(buffer: Seq<u8>, at: int, count: nat)
    requires
        0 <= at,
        at + 1 < buffer.len(),
        buffer[at] >= POINTER_MARKER,
        pointer_target(buffer[at], buffer[at + 1]) == at,
    ensures
        pointer_chain(buffer, at, count),
    decreases count,
{
    if count > 0 {
        lemma_pointer_loop_chain(buffer, at, (count - 1) as nat);
    }
}

/// A name that starts with a pointer to itself is refused for its recursion.
pub proof fn lemma_pointer_loop(buffer: Seq<u8>, start: int)
    requires
        0 <= start,
        start + 1 < buffer.len(),
        buffer[start] >= POINTER_MARKER,
        pointer_target(buffer[start], buffer[start + 1]) == start,
    ensures
        decode_result(buffer, start) == DecodeResult::Err(DecodeError::TooMuchRecursion),
{
    lemma_pointer_loop_chain(buffer, start, (DOMAIN_NAME_MAX_RECURSION + 1) as nat);
    lemma_pointer_chain(buffer, start);
}

} // verus!
