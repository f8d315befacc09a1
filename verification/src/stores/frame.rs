//! Framing of a journal file: each event is one frame `crc32:len:payload`
//! ending in a newline. A crash in the middle of a write leaves an
//! incomplete or mismatched frame at the end of the file, which reading
//! detects and cuts off.

use vstd::prelude::*;

use crate::stores::crc;
use crate::stores::number;

verus! {

/// The frame that holds `payload`.
pub open spec fn frame(payload: Seq<u8>) -> Seq<u8> {
    number::hex_digits(crc::crc_of(payload) as nat, 8) + seq![58u8] + number::decimal_digits(
        payload.len(),
    ) + seq![58u8] + payload + seq![10u8]
}

/// Where `byte` first occurs in `bytes`.
pub open spec fn find(bytes: Seq<u8>, byte: u8) -> Option<nat>
    decreases bytes.len(),
{
    if bytes.len() == 0 {
        None
    } else if bytes[0] == byte {
        Some(0)
    } else {
        match find(bytes.skip(1), byte) {
            Some(n) => Some(n + 1),
            None => None,
        }
    }
}

/// The payload of the frame that `bytes` starts with, and the length of that
/// frame; `None` if `bytes` does not start with a whole frame whose checksum
/// is right. The fields of the header end at the first two colons; the
/// payload is as long as the header says and a newline follows it.
#[verifier::opaque]
pub open spec fn parse_frame(bytes: Seq<u8>) -> Option<(Seq<u8>, nat)> {
    match find(bytes, 58) {
        None => None,
        Some(crc_end) => {
            let after_crc = bytes.skip(crc_end as int + 1);
            match find(after_crc, 58) {
                None => None,
                Some(len_end) => {
                    let crc_field = number::number_in(
                        bytes.take(crc_end as int),
                        16,
                        u32::MAX as nat,
                    );
                    let len_field = number::number_in(
                        after_crc.take(len_end as int),
                        10,
                        usize::MAX as nat,
                    );
                    match (crc_field, len_field) {
                        (Some(expected), Some(len)) => {
                            let start = crc_end + 1 + len_end + 1;
                            let end = start + len;
                            if end < bytes.len() && bytes[end as int] == 10 && crc::crc_of(
                                bytes.subrange(start as int, end as int),
                            ) == expected {
                                Some((bytes.subrange(start as int, end as int), end + 1))
                            } else {
                                None
                            }
                        },
                        _ => None,
                    }
                },
            }
        },
    }
}

/// The payloads of the whole frames that `bytes` starts with, and how many
/// bytes those frames take.
pub open spec fn parse_all(bytes: Seq<u8>) -> (Seq<Seq<u8>>, nat)
    decreases bytes.len(),
{
    match parse_frame(bytes) {
        None => (Seq::empty(), 0),
        Some((payload, len)) => {
            proof {
                reveal(parse_frame);
            }
            let rest = parse_all(bytes.skip(len as int));
            (seq![payload] + rest.0, len + rest.1)
        },
    }
}

/// The contents of the byte strings.
pub open spec fn contents(slices: Seq<&[u8]>) -> Seq<Seq<u8>> {
    Seq::new(slices.len(), |i: int| slices[i]@)
}

/// The bytes of the frame that holds `payload`.
pub fn encode_frame(payload: &[u8]) -> (r: Vec<u8>)
    ensures
        r@ == frame(payload@),
{
    let mut out: Vec<u8> = Vec::new();
    number::push_hex(&mut out, crc::crc32(payload));
    out.push(58);
    number::push_decimal(&mut out, payload.len());
    out.push(58);
    out.extend_from_slice(payload);
    out.push(10);
    assert(out@ =~= frame(payload@));
    out
}

proof fn lemma_find_at(bytes: Seq<u8>, byte: u8, n: int)
    requires
        0 <= n <= bytes.len(),
        forall|k: int| 0 <= k < n ==> bytes[k] != byte,
        n < bytes.len() ==> bytes[n] == byte,
    ensures
        n < bytes.len() ==> find(bytes, byte) == Some(n as nat),
        n == bytes.len() ==> find(bytes, byte) is None,
    decreases n,
{
    if n > 0 {
        let rest = bytes.skip(1);
        assert forall|k: int| 0 <= k < n - 1 implies rest[k] != byte by {
            assert(rest[k] == bytes[k + 1]);
        }
        lemma_find_at(rest, byte, n - 1);
    }
}

proof fn lemma_find_first(bytes: Seq<u8>, byte: u8)
    ensures
        match find(bytes, byte) {
            Some(n) => n < bytes.len() && bytes[n as int] == byte && forall|k: int|
                0 <= k < n ==> bytes[k] != byte,
            None => forall|k: int| 0 <= k < bytes.len() ==> bytes[k] != byte,
        },
    decreases bytes.len(),
{
    if bytes.len() > 0 && bytes[0] != byte {
        let rest = bytes.skip(1);
        lemma_find_first(rest, byte);
        match find(rest, byte) {
            Some(n) => {
                assert forall|k: int| 0 <= k < n + 1 implies bytes[k] != byte by {
                    if k > 0 {
                        assert(rest[k - 1] == bytes[k]);
                    }
                }
            },
            None => {
                assert forall|k: int| 0 <= k < bytes.len() implies bytes[k] != byte by {
                    if k > 0 {
                        assert(rest[k - 1] == bytes[k]);
                    }
                }
            },
        }
    }
}

/// Where `byte` first occurs in `bytes`, from `start` on.
fn position_of(bytes: &[u8], start: usize, byte: u8) -> (r: Option<usize>)
    requires
        start <= bytes@.len(),
    ensures
        match find(bytes@.skip(start as int), byte) {
            Some(n) => r matches Some(position) && position == start + n && position < bytes@.len(),
            None => r is None,
        },
{
    let ghost searched = bytes@.skip(start as int);
    let mut i: usize = start;
    while i < bytes.len()
        invariant
            start <= i <= bytes@.len(),
            searched == bytes@.skip(start as int),
            forall|k: int| 0 <= k < i - start ==> searched[k] != byte,
        decreases bytes@.len() - i,
    {
        if bytes[i] == byte {
            proof {
                lemma_find_at(searched, byte, i - start);
            }
            return Some(i);
        }
        i = i + 1;
    }
    proof {
        lemma_find_at(searched, byte, searched.len() as int);
    }
    None
}

/// The payload of the frame that `bytes` starts with, and the length of that
/// frame.
pub fn parse_one_frame(bytes: &[u8]) -> (r: Option<(&[u8], usize)>)
    ensures
        match parse_frame(bytes@) {
            Some((payload, len)) => {
                &&& r matches Some((found, taken))
                &&& found@ == payload
                &&& taken == len
            },
            None => r is None,
        },
{
    let total: usize = bytes.len();
    proof {
        reveal(parse_frame);
    }
    assert(bytes@.skip(0) =~= bytes@);
    let crc_end: usize = match position_of(bytes, 0, 58) {
        Some(position) => position,
        None => return None,
    };
    let len_start: usize = crc_end + 1;
    let len_stop: usize = match position_of(bytes, len_start, 58) {
        Some(position) => position,
        None => return None,
    };
    let crc_field = vstd::slice::slice_subrange(bytes, 0, crc_end);
    let len_field = vstd::slice::slice_subrange(bytes, len_start, len_stop);
    proof {
        assert(crc_field@ =~= bytes@.take(crc_end as int));
        assert(len_field@ =~= bytes@.skip(len_start as int).take(len_stop - len_start));
    }
    let expected: u64 = match number::parse_number(crc_field, 16, u32::MAX as u64) {
        Some(value) => value,
        None => return None,
    };
    let len: u64 = match number::parse_number(len_field, 10, usize::MAX as u64) {
        Some(value) => value,
        None => return None,
    };
    let len: usize = len as usize;
    let start: usize = len_stop + 1;
    if len >= total - start {
        return None;  // torn write: header present, payload/newline is not
    }
    let end: usize = start + len;
    if bytes[end] != 10 {
        return None;
    }
    let payload = vstd::slice::slice_subrange(bytes, start, end);
    if crc::crc32(payload) as u64 != expected {
        return None;  // torn write: payload bytes only partially overwritten
    }
    Some((payload, end + 1))
}

/// Parses as many well-formed `crc32:len:payload` frames as `bytes` holds a
/// complete, CRC-valid copy of. Stops at the first header that does not
/// parse, the first length that runs past the end of `bytes`, or the first
/// payload whose CRC does not match. Those are exactly the shapes a crash in
/// the middle of a write can leave behind. Returns the frame payloads and the
/// byte count consumed by good frames alone, so the caller can truncate the
/// rest.
pub fn parse_frames(bytes: &[u8]) -> (r: (Vec<&[u8]>, usize))
    ensures
        contents(r.0@) == parse_all(bytes@).0,
        r.1 == parse_all(bytes@).1,
        r.1 <= bytes@.len(),
{
    let mut payloads: Vec<&[u8]> = Vec::new();
    let mut position: usize = 0;
    assert(bytes@.skip(0) =~= bytes@);
    assert(contents(payloads@) + parse_all(bytes@).0 =~= parse_all(bytes@).0);
    loop
        invariant
            position <= bytes@.len(),
            parse_all(bytes@).0 == contents(payloads@) + parse_all(bytes@.skip(position as int)).0,
            parse_all(bytes@).1 == position + parse_all(bytes@.skip(position as int)).1,
        ensures
            parse_all(bytes@.skip(position as int)) == (Seq::<Seq<u8>>::empty(), 0nat),
        decreases bytes@.len() - position,
    {
        let rest = vstd::slice::slice_subrange(bytes, position, bytes.len());
        assert(rest@ =~= bytes@.skip(position as int));
        proof {
            lemma_frame_within(rest@);
        }
        match parse_one_frame(rest) {
            None => {
                break;
            },
            Some((payload, len)) => {
                let ghost before = contents(payloads@);
                let ghost left = parse_all(rest@.skip(len as int));
                payloads.push(payload);
                proof {
                    assert(rest@.skip(len as int) =~= bytes@.skip(position + len));
                    assert(contents(payloads@) =~= before.push(payload@));
                    assert(before + (seq![payload@] + left.0) =~= contents(payloads@) + left.0);
                }
                position = position + len;
            },
        }
    }
    assert(contents(payloads@) + Seq::<Seq<u8>>::empty() =~= contents(payloads@));
    (payloads, position)
}

/// The frame at the start of `bytes` is found whatever follows it: only its
/// own bytes count.
proof fn lemma_parse_frame_local(bytes: Seq<u8>, other: Seq<u8>)
    requires
        parse_frame(bytes) is Some,
        other.len() >= (parse_frame(bytes)->0).1,
        forall|k: int| 0 <= k < (parse_frame(bytes)->0).1 ==> other[k] == bytes[k],
    ensures
        parse_frame(other) == parse_frame(bytes),
{
    reveal(parse_frame);
    lemma_find_first(bytes, 58);
    let crc_end = find(bytes, 58)->0;
    let after_crc = bytes.skip(crc_end as int + 1);
    lemma_find_first(after_crc, 58);
    let len_end = find(after_crc, 58)->0;
    let (payload, len) = parse_frame(bytes)->0;
    let other_after = other.skip(crc_end as int + 1);
    assert(len > crc_end + 1 + len_end);
    lemma_find_at(other, 58, crc_end as int);
    assert forall|k: int| 0 <= k < len_end implies other_after[k] != 58 by {
        assert(other_after[k] == after_crc[k]);
    }
    assert(other_after[len_end as int] == after_crc[len_end as int]);
    lemma_find_at(other_after, 58, len_end as int);
    assert(other.take(crc_end as int) =~= bytes.take(crc_end as int));
    assert(other_after.take(len_end as int) =~= after_crc.take(len_end as int));
    let start = crc_end + 1 + len_end + 1;
    assert(other.subrange(start as int, len - 1) =~= bytes.subrange(start as int, len - 1));
}

/// A header that gives the checksum `sum` and the length `len`, followed by
/// `tail`.
proof fn lemma_header_of(sum: u32, len: nat, tail: Seq<u8>)
    ensures
        ({
            let crc_text = number::hex_digits(sum as nat, 8);
            let len_text = number::decimal_digits(len);
            let bytes = crc_text + seq![58u8] + len_text + seq![58u8] + tail;
            &&& find(bytes, 58) == Some(8nat)
            &&& find(bytes.skip(9), 58) == Some(len_text.len())
            &&& bytes.take(8) == crc_text
            &&& bytes.skip(9).take(len_text.len() as int) == len_text
            &&& number::number_in(crc_text, 16, u32::MAX as nat) == Some(sum as nat)
            &&& len <= usize::MAX ==> number::number_in(len_text, 10, usize::MAX as nat) == Some(
                len,
            )
            &&& crc_text.len() == 8
            &&& len_text.len() > 0
        }),
{
    let value = sum as nat;
    let crc_text = number::hex_digits(value, 8);
    let len_text = number::decimal_digits(len);
    let bytes = crc_text + seq![58u8] + len_text + seq![58u8] + tail;
    reveal_with_fuel(number::pow16, 9);
    number::lemma_hex_digits_read(value, 8, number::pow16(8));
    number::lemma_decimal_digits_read(len);
    assert forall|k: int| 0 <= k < 8 implies bytes[k] != 58 by {
        assert(bytes[k] == crc_text[k]);
    }
    lemma_find_at(bytes, 58, 8);
    let rest = bytes.skip(9);
    assert forall|k: int| 0 <= k < len_text.len() implies rest[k] != 58 by {
        assert(rest[k] == len_text[k]);
    }
    lemma_find_at(rest, 58, len_text.len() as int);
    assert(bytes.take(8) =~= crc_text);
    assert(rest.take(len_text.len() as int) =~= len_text);
    assert(number::digit_value(crc_text[0]) is Some);
    assert(number::digit_value(len_text[0]) is Some);
}

/// A frame is read back: what `encode_frame` writes for `payload` gives
/// `payload`, whatever follows it in the file.
pub proof fn frame_reads_back(payload: Seq<u8>, rest: Seq<u8>)
    requires
        payload.len() <= usize::MAX,
    ensures
        parse_frame(frame(payload) + rest) == Some((payload, frame(payload).len())),
{
    reveal(parse_frame);
    let crc_text = number::hex_digits(crc::crc_of(payload) as nat, 8);
    let len_text = number::decimal_digits(payload.len());
    let tail = payload + seq![10u8] + rest;
    let bytes = frame(payload) + rest;
    assert(bytes =~= crc_text + seq![58u8] + len_text + seq![58u8] + tail);
    lemma_header_of(crc::crc_of(payload), payload.len(), tail);
    let start: int = 8 + 1 + len_text.len() as int + 1;
    assert(bytes.subrange(start, start + payload.len()) =~= payload);
    assert(bytes[start + payload.len()] == 10);
    assert(frame(payload).len() == start + payload.len() + 1);
}

/// A torn write is noticed: a frame of which only a part is there is no
/// frame.
pub proof fn torn_frame_is_refused(payload: Seq<u8>, n: int)
    requires
        payload.len() <= usize::MAX,
        0 <= n < frame(payload).len(),
    ensures
        parse_frame(frame(payload).take(n)) is None,
{
    reveal(parse_frame);
    let crc_text = number::hex_digits(crc::crc_of(payload) as nat, 8);
    let len_text = number::decimal_digits(payload.len());
    let tail = payload + seq![10u8];
    let whole = frame(payload);
    let torn = whole.take(n);
    assert(whole =~= crc_text + seq![58u8] + len_text + seq![58u8] + tail);
    lemma_header_of(crc::crc_of(payload), payload.len(), tail);
    lemma_find_first(whole, 58);
    lemma_find_first(whole.skip(9), 58);
    let start = 8 + 1 + len_text.len() + 1;
    if n <= 8 {
        lemma_find_at(torn, 58, n);
    } else {
        lemma_find_at(torn, 58, 8);
        let rest = torn.skip(9);
        if n < start {
            assert forall|k: int| 0 <= k < rest.len() implies rest[k] != 58 by {
                assert(rest[k] == whole.skip(9)[k]);
            }
            lemma_find_at(rest, 58, rest.len() as int);
        } else {
            assert forall|k: int| 0 <= k < len_text.len() implies rest[k] != 58 by {
                assert(rest[k] == whole.skip(9)[k]);
            }
            assert(rest[len_text.len() as int] == whole.skip(9)[len_text.len() as int]);
            lemma_find_at(rest, 58, len_text.len() as int);
            assert(rest.take(len_text.len() as int) =~= len_text);
            assert(torn.take(8) =~= crc_text);
        }
    }
}

/// The file that holds `payloads`, one frame after the other.
pub open spec fn file_of(payloads: Seq<Seq<u8>>) -> Seq<u8>
    decreases payloads.len(),
{
    if payloads.len() == 0 {
        Seq::empty()
    } else {
        frame(payloads[0]) + file_of(payloads.skip(1))
    }
}

/// A journal file is read back up to a torn write at its end: every payload
/// that was wholly written comes back in order, and nothing of the torn
/// frame.
pub proof fn file_reads_back(payloads: Seq<Seq<u8>>, torn: Seq<u8>)
    requires
        forall|i: int| 0 <= i < payloads.len() ==> (#[trigger] payloads[i]).len() <= usize::MAX,
        parse_frame(torn) is None,
    ensures
        parse_all(file_of(payloads) + torn) == (payloads, file_of(payloads).len()),
    decreases payloads.len(),
{
    let bytes = file_of(payloads) + torn;
    if payloads.len() == 0 {
        assert(bytes =~= torn);
        assert(payloads =~= Seq::<Seq<u8>>::empty());
    } else {
        let later = payloads.skip(1);
        let first = frame(payloads[0]);
        assert(bytes =~= first + (file_of(later) + torn));
        frame_reads_back(payloads[0], file_of(later) + torn);
        assert(bytes.skip(first.len() as int) =~= file_of(later) + torn);
        assert forall|i: int| 0 <= i < later.len() implies (#[trigger] later[i]).len()
            <= usize::MAX by {
            assert(later[i] == payloads[i + 1]);
        }
        file_reads_back(later, torn);
        assert(payloads =~= seq![payloads[0]] + later);
    }
}

/// A frame at the start of `bytes` is part of `bytes`, and not empty.
proof fn lemma_frame_within(bytes: Seq<u8>)
    ensures
        parse_frame(bytes) matches Some((_, len)) ==> 0 < len <= bytes.len(),
{
    reveal(parse_frame);
}

/// What the good frames of a file take is part of the file.
pub proof fn good_part_is_within(bytes: Seq<u8>)
    ensures
        parse_all(bytes).1 <= bytes.len(),
    decreases bytes.len(),
{
    lemma_frame_within(bytes);
    if let Some((payload, len)) = parse_frame(bytes) {
        good_part_is_within(bytes.skip(len as int));
    }
}

/// Writing goes on where the good frames end: with everything after them cut
/// off, the frames that are written next are read after the good ones.
pub proof fn writing_resumes_after_good_part(bytes: Seq<u8>, written: Seq<u8>)
    ensures
        parse_all(bytes.take(parse_all(bytes).1 as int) + written) == (
            parse_all(bytes).0 + parse_all(written).0,
            parse_all(bytes).1 + parse_all(written).1,
        ),
    decreases bytes.len(),
{
    good_part_is_within(bytes);
    lemma_frame_within(bytes);
    let good = parse_all(bytes).1;
    let resumed = bytes.take(good as int) + written;
    match parse_frame(bytes) {
        None => {
            assert(resumed =~= written);
            assert(Seq::<Seq<u8>>::empty() + parse_all(written).0 =~= parse_all(written).0);
        },
        Some((payload, len)) => {
            let later = bytes.skip(len as int);
            good_part_is_within(later);
            let later_good = parse_all(later).1;
            lemma_parse_frame_local(bytes, resumed);
            assert(resumed.skip(len as int) =~= later.take(later_good as int) + written);
            writing_resumes_after_good_part(later, written);
            assert(seq![payload] + (parse_all(later).0 + parse_all(written).0) =~= (seq![payload]
                + parse_all(later).0) + parse_all(written).0);
        },
    }
}

/// A file heals once: with everything after its good frames cut off, it
/// reads as before and nothing is left to cut off.
pub proof fn healing_is_final(bytes: Seq<u8>)
    ensures
        ({
            let healed = bytes.take(parse_all(bytes).1 as int);
            &&& parse_all(healed) == parse_all(bytes)
            &&& parse_all(healed).1 == healed.len()
        }),
{
    good_part_is_within(bytes);
    let nothing = Seq::<u8>::empty();
    writing_resumes_after_good_part(bytes, nothing);
    let healed = bytes.take(parse_all(bytes).1 as int);
    assert(healed + nothing =~= healed);
    assert(parse_frame(nothing) is None) by {
        reveal(parse_frame);
    }
    assert(parse_all(bytes).0 + Seq::<Seq<u8>>::empty() =~= parse_all(bytes).0);
}

/// A frame with the header of one payload and the bytes of another is refused
/// if the checksum in the header is not the one of the bytes.
pub proof fn a_wrong_checksum_is_refused(sum: u32, payload: Seq<u8>, rest: Seq<u8>)
    requires
        payload.len() <= usize::MAX,
        sum != crc::crc_of(payload),
    ensures
        parse_frame(
            number::hex_digits(sum as nat, 8) + seq![58u8] + number::decimal_digits(payload.len())
                + seq![58u8] + payload + seq![10u8] + rest,
        ) is None,
{
    reveal(parse_frame);
    let crc_text = number::hex_digits(sum as nat, 8);
    let len_text = number::decimal_digits(payload.len());
    let tail = payload + seq![10u8] + rest;
    let bytes = crc_text + seq![58u8] + len_text + seq![58u8] + payload + seq![10u8] + rest;
    assert(bytes =~= crc_text + seq![58u8] + len_text + seq![58u8] + tail);
    lemma_header_of(sum, payload.len(), tail);
    let start: int = 8 + 1 + len_text.len() as int + 1;
    assert(bytes.subrange(start, start + payload.len()) =~= payload);
}

/// A corrupted payload is noticed: a frame in which up to four bytes in a row
/// of the payload were overwritten, anywhere in it, is no frame, whatever
/// follows it.
pub proof fn a_corrupted_payload_is_refused(payload: Seq<u8>, bytes: Seq<u8>, k: int)
    requires
        payload.len() <= usize::MAX,
        bytes.len() >= frame(payload).len(),
        ({
            let end = frame(payload).len() - 1;
            let start = end - payload.len();
            &&& forall|i: int|
                0 <= i <= end && !(start <= i < end && start + k <= i < start + k + 4)
                    ==> #[trigger] bytes[i] == frame(payload)[i]
            &&& exists|i: int| start <= i < end && #[trigger] bytes[i] != frame(payload)[i]
        }),
    ensures
        parse_frame(bytes) is None,
{
    let whole = frame(payload);
    let crc_text = number::hex_digits(crc::crc_of(payload) as nat, 8);
    let len_text = number::decimal_digits(payload.len());
    let head = crc_text + seq![58u8] + len_text + seq![58u8];
    let start = head.len() as int;
    let end = start + payload.len();
    assert(whole =~= head + payload + seq![10u8]);
    let found = bytes.subrange(start, end);
    let rest = bytes.skip(end + 1);
    assert(bytes =~= head + found + seq![10u8] + rest) by {
        assert forall|i: int| 0 <= i < bytes.len() implies bytes[i] == (head + found + seq![10u8]
            + rest)[i] by {
            if i < start || i == end {
                assert(bytes[i] == whole[i]);
            }
        }
    }
    let at = choose|i: int| start <= i < end && #[trigger] bytes[i] != whole[i];
    assert(found[at - start] != payload[at - start]);
    assert forall|i: int| 0 <= i < found.len() && !(k <= i < k + 4) implies found[i]
        == payload[i] by {
        assert(bytes[start + i] == whole[start + i]);
    }
    crc::a_short_error_changes_the_checksum(found, payload, k);
    a_wrong_checksum_is_refused(crc::crc_of(payload), found, rest);
}

/// What is accepted as a frame was checked: it lies within `bytes` and ends
/// with a newline, its payload comes right before that newline and right
/// after a colon, and its header, up to the first colon and from there to
/// that other colon, gives the checksum and the length of this payload.
pub proof fn accepted_frames_are_checked(bytes: Seq<u8>, payload: Seq<u8>, len: nat)
    requires
        parse_frame(bytes) == Some((payload, len)),
    ensures
        payload.len() + 3 <= len <= bytes.len(),
        bytes[len - 1] == 10,
        bytes.subrange(len - 1 - payload.len(), len - 1) == payload,
        bytes[len - 2 - payload.len()] == 58,
        exists|n: int|
            {
                &&& 0 <= n < len - 2 - payload.len()
                &&& #[trigger] bytes[n] == 58
                &&& forall|i: int| 0 <= i < n ==> bytes[i] != 58
                &&& number::number_in(bytes.take(n), 16, u32::MAX as nat) == Some(
                    crc::crc_of(payload) as nat,
                )
                &&& number::number_in(
                    bytes.subrange(n + 1, len - 2 - payload.len()),
                    10,
                    usize::MAX as nat,
                ) == Some(payload.len())
            },
{
    reveal(parse_frame);
    lemma_find_first(bytes, 58);
    let n = find(bytes, 58)->0 as int;
    let rest = bytes.skip(n + 1);
    lemma_find_first(rest, 58);
    let m = find(rest, 58)->0 as int;
    assert(bytes[n] == 58);
    assert(rest[m] == bytes[n + 1 + m]);
    assert(rest.take(m) =~= bytes.subrange(n + 1, n + 1 + m));
    assert(m > 0);
}

/// Reading goes as far as it can: where the good frames end, no frame starts.
pub proof fn reading_stops_at_the_first_bad_frame(bytes: Seq<u8>)
    ensures
        parse_frame(bytes.skip(parse_all(bytes).1 as int)) is None,
    decreases bytes.len(),
{
    good_part_is_within(bytes);
    lemma_frame_within(bytes);
    match parse_frame(bytes) {
        None => {
            assert(bytes.skip(0) =~= bytes);
        },
        Some((payload, len)) => {
            let later = bytes.skip(len as int);
            good_part_is_within(later);
            reading_stops_at_the_first_bad_frame(later);
            assert(later.skip(parse_all(later).1 as int) =~= bytes.skip(
                parse_all(bytes).1 as int,
            ));
        },
    }
}

/// A frame is written as its checksum in eight lower-case hexadecimal digits,
/// its length in decimal digits without a leading zero, and its payload as it
/// is, with a colon after each of the first two and a newline at the end.
pub proof fn frames_are_laid_out(payload: &[u8], written: Vec<u8>)
    requires
        call_ensures(encode_frame, (payload,), written),
    ensures
        ({
            let bytes = written@;
            let start = bytes.len() - 1 - payload@.len();
            let digits = start - 10;
            &&& digits >= 1
            &&& forall|i: int|
                0 <= i < 8 ==> (48 <= #[trigger] bytes[i] <= 57 || 97 <= bytes[i] <= 102)
            &&& bytes[8] == 58
            &&& forall|i: int| 9 <= i < 9 + digits ==> 48 <= #[trigger] bytes[i] <= 57
            &&& bytes[9] == 48 ==> digits == 1
            &&& bytes[9 + digits] == 58
            &&& bytes.subrange(start, start + payload@.len()) == payload@
            &&& bytes.last() == 10
            &&& number::number_in(bytes.take(8), 16, u32::MAX as nat) == Some(
                crc::crc_of(payload@) as nat,
            )
            &&& payload@.len() <= usize::MAX ==> number::number_in(
                bytes.subrange(9, 9 + digits),
                10,
                usize::MAX as nat,
            ) == Some(payload@.len())
        }),
{
    let bytes = written@;
    let sum = crc::crc_of(payload@);
    let crc_text = number::hex_digits(sum as nat, 8);
    let len_text = number::decimal_digits(payload@.len());
    let tail = payload@ + seq![10u8];
    assert(bytes =~= crc_text + seq![58u8] + len_text + seq![58u8] + tail);
    lemma_header_of(sum, payload@.len(), tail);
    number::lemma_hex_digits_lower(sum as nat, 8);
    number::lemma_decimal_digits_plain(payload@.len());
    let start = bytes.len() - 1 - payload@.len();
    let digits = start - 10;
    assert(digits == len_text.len());
    assert forall|i: int| 0 <= i < 8 implies (48 <= #[trigger] bytes[i] <= 57 || 97 <= bytes[i]
        <= 102) by {
        assert(bytes[i] == crc_text[i]);
    }
    assert forall|i: int| 9 <= i < 9 + digits implies 48 <= #[trigger] bytes[i] <= 57 by {
        assert(bytes[i] == len_text[i - 9]);
    }
    assert(bytes[9] == len_text[0]);
    assert(bytes.subrange(start, start + payload@.len()) =~= payload@);
    assert(bytes.subrange(9, 9 + digits) =~= bytes.skip(9).take(digits));
}

} // verus!
