use vstd::prelude::*;
use crate::chars::SpecialChars;
use crate::decode::{decoded, lemma_prefixed_push, payload_from, prefixed};
use crate::encode::{framed, lemma_stuffed_len, stuffed, stuffed_byte};
use crate::error::HDLCError;
use crate::in_place::{decoded_in_place, scanned, scanned_from, Unstuffed};

verus! {

/// Stuffing goes byte by byte: the stuffed form of two payloads put
/// together is their stuffed forms put together.
pub proof fn lemma_stuffed_concat(a: Seq<u8>, b: Seq<u8>, chars: SpecialChars)
    ensures
        stuffed(a + b, chars) == stuffed(a, chars) + stuffed(b, chars),
    decreases b.len(),
{
    if b.len() == 0 {
        assert(a + b =~= a);
        assert(stuffed(a, chars) + stuffed(b, chars) =~= stuffed(a, chars));
    } else {
        lemma_stuffed_concat(a, b.drop_last(), chars);
        assert((a + b).drop_last() =~= a + b.drop_last());
        assert((a + b).last() == b.last());
        assert(stuffed(a, chars) + (stuffed(b.drop_last(), chars) + stuffed_byte(b.last(), chars))
            =~= (stuffed(a, chars) + stuffed(b.drop_last(), chars)) + stuffed_byte(
            b.last(),
            chars,
        ));
    }
}

/// Where `input` holds the stuffed form of `payload` from index `k` on,
/// unstuffing from `k` gives `payload` and goes on behind the stuffed form.
proof fn lemma_unstuff_stuffed(input: Seq<u8>, chars: SpecialChars, k: int, payload: Seq<u8>)
    requires
        chars.distinct(),
        0 <= k,
        k + stuffed(payload, chars).len() <= input.len(),
        input.subrange(k, k + stuffed(payload, chars).len()) == stuffed(payload, chars),
    ensures
        payload_from(input, chars, k) == prefixed(
            payload,
            payload_from(input, chars, k + stuffed(payload, chars).len()),
        ),
    decreases payload.len(),
{
    let whole = stuffed(payload, chars);
    if payload.len() == 0 {
        if let Ok(rest) = payload_from(input, chars, k) {
            assert(payload + rest =~= rest);
        }
    } else {
        let front = payload.drop_last();
        let b = payload.last();
        let head = stuffed(front, chars);
        let h = head.len() as int;
        let m = k + h;
        let tail = payload_from(input, chars, k + whole.len());
        assert(whole == head + stuffed_byte(b, chars));
        assert(input.subrange(k, m) =~= head) by {
            assert forall|j: int| 0 <= j < head.len() implies input.subrange(k, m)[j] == head[j] by {
                assert(input.subrange(k, k + whole.len())[j] == whole[j]);
            }
        }
        lemma_unstuff_stuffed(input, chars, k, front);
        assert(input[m] == whole[h]) by {
            assert(input.subrange(k, k + whole.len())[h] == input[m]);
        }
        if b == chars.fesc || b == chars.fend {
            assert(input[m + 1] == whole[h + 1]) by {
                assert(input.subrange(k, k + whole.len())[h + 1] == input[m + 1]);
            }
        }
        assert(payload_from(input, chars, m) == prefixed(seq![b], tail));
        lemma_prefixed_push(front, b, tail);
        assert(front.push(b) =~= payload);
    }
}

/// Decoding the frame of a payload gives the payload back, whatever the
/// payload and whatever four distinct special characters.
pub proof fn lemma_decode_inverts_encode(payload: Seq<u8>, chars: SpecialChars)
    requires
        chars.distinct(),
    ensures
        decoded(framed(payload, chars), chars) == Ok::<Seq<u8>, HDLCError>(payload),
{
    let frame = framed(payload, chars);
    let body = stuffed(payload, chars);
    let close = 1 + body.len() as int;
    assert(frame.subrange(1, close) =~= body);
    lemma_unstuff_stuffed(frame, chars, 1, payload);
    assert(frame[close] == chars.fend);
    assert(payload + Seq::<u8>::empty() =~= payload);
}

/// Where unstuffing from index `i` succeeds, the bytes from `i` on are the
/// stuffed form of the payload and the closing delimiter.
proof fn lemma_unstuffed_is_stuffed(input: Seq<u8>, chars: SpecialChars, i: int, payload: Seq<u8>)
    requires
        chars.distinct(),
        0 <= i,
        payload_from(input, chars, i) == Ok::<Seq<u8>, HDLCError>(payload),
    ensures
        i < input.len(),
        input.skip(i) == stuffed(payload, chars) + seq![chars.fend],
    decreases input.len() - i,
{
    if input[i] == chars.fesc {
        let b = if input[i + 1] == chars.tfend { chars.fend } else { chars.fesc };
        let rest = payload_from(input, chars, i + 2)->Ok_0;
        lemma_unstuffed_is_stuffed(input, chars, i + 2, rest);
        lemma_stuffed_concat(seq![b], rest, chars);
        assert(stuffed(seq![b], chars) =~= stuffed_byte(b, chars)) by {
            assert(seq![b].drop_last() =~= Seq::<u8>::empty());
            assert(stuffed(Seq::<u8>::empty(), chars) =~= Seq::<u8>::empty());
        }
        assert(input.skip(i) =~= seq![input[i], input[i + 1]] + input.skip(i + 2));
        assert(seq![input[i], input[i + 1]] + (stuffed(rest, chars) + seq![chars.fend])
            =~= (stuffed_byte(b, chars) + stuffed(rest, chars)) + seq![chars.fend]);
    } else if input[i] == chars.fend {
        assert(payload =~= Seq::<u8>::empty());
        assert(input.skip(i) =~= stuffed(payload, chars) + seq![chars.fend]);
    } else {
        let b = input[i];
        let rest = payload_from(input, chars, i + 1)->Ok_0;
        lemma_unstuffed_is_stuffed(input, chars, i + 1, rest);
        lemma_stuffed_concat(seq![b], rest, chars);
        assert(stuffed(seq![b], chars) =~= stuffed_byte(b, chars)) by {
            assert(seq![b].drop_last() =~= Seq::<u8>::empty());
            assert(stuffed(Seq::<u8>::empty(), chars) =~= Seq::<u8>::empty());
        }
        assert(input.skip(i) =~= seq![b] + input.skip(i + 1));
        assert(seq![b] + (stuffed(rest, chars) + seq![chars.fend]) =~= (stuffed_byte(b, chars)
            + stuffed(rest, chars)) + seq![chars.fend]);
    }
}

/// Only frames decode: an input that decodes to a payload is the frame of
/// that payload.
pub proof fn lemma_decoded_is_framed(input: Seq<u8>, chars: SpecialChars, payload: Seq<u8>)
    requires
        decoded(input, chars) == Ok::<Seq<u8>, HDLCError>(payload),
    ensures
        chars.distinct(),
        input == framed(payload, chars),
{
    lemma_unstuffed_is_stuffed(input, chars, 1, payload);
    assert(input =~= seq![chars.fend] + input.skip(1));
    assert(seq![chars.fend] + (stuffed(payload, chars) + seq![chars.fend]) =~= framed(
        payload,
        chars,
    ));
}

/// The inputs that decode are exactly the frames, for four distinct special
/// characters.
pub proof fn lemma_decodes_iff_framed(input: Seq<u8>, chars: SpecialChars)
    ensures
        decoded(input, chars) is Ok <==> chars.distinct() && exists|payload: Seq<u8>|
            input == #[trigger] framed(payload, chars),
        decoded(input, chars) matches Ok(payload) ==> input == framed(payload, chars),
{
    if let Ok(payload) = decoded(input, chars) {
        lemma_decoded_is_framed(input, chars, payload);
    }
    if chars.distinct() && exists|payload: Seq<u8>| input == #[trigger] framed(payload, chars) {
        let payload = choose|payload: Seq<u8>| input == #[trigger] framed(payload, chars);
        lemma_decode_inverts_encode(payload, chars);
    }
}

/// The frame of a payload of `n` bytes has between `n + 2` and `2 * n + 2`
/// bytes, and starts and ends with the delimiter.
pub proof fn lemma_framed_bounds(payload: Seq<u8>, chars: SpecialChars)
    ensures
        payload.len() + 2 <= framed(payload, chars).len() <= 2 * payload.len() + 2,
        framed(payload, chars).first() == chars.fend,
        framed(payload, chars).last() == chars.fend,
{
    lemma_stuffed_len(payload, chars);
}

/// Where unstuffing from index `i` succeeds, the scan in place, once it has
/// met the opening delimiter, produces the same payload from `i` on and
/// meets no fault.
proof fn lemma_scan_follows_unstuffing(
    input: Seq<u8>,
    chars: SpecialChars,
    i: int,
    payload: Seq<u8>,
)
    requires
        chars.distinct(),
        0 <= i,
        payload_from(input, chars, i) == Ok::<Seq<u8>, HDLCError>(payload),
    ensures
        scanned_from(input, chars, i, true) == (Unstuffed { bytes: payload, fault: None }),
    decreases input.len() - i,
{
    if input[i] == chars.fesc {
        let rest = payload_from(input, chars, i + 2)->Ok_0;
        lemma_scan_follows_unstuffing(input, chars, i + 2, rest);
    } else if input[i] == chars.fend {
    } else {
        let rest = payload_from(input, chars, i + 1)->Ok_0;
        lemma_scan_follows_unstuffing(input, chars, i + 1, rest);
    }
}

/// The two decoders agree: an input that `decode` accepts is accepted by
/// `decode_slice` too, with the same payload.
pub proof fn lemma_in_place_agrees(input: Seq<u8>, chars: SpecialChars)
    requires
        decoded(input, chars) is Ok,
    ensures
        decoded_in_place(input, chars) == decoded(input, chars),
{
    let payload = decoded(input, chars)->Ok_0;
    lemma_scan_follows_unstuffing(input, chars, 1, payload);
}

/// Decoding in place the frame of a payload gives the payload back.
pub proof fn lemma_decode_in_place_inverts_encode(payload: Seq<u8>, chars: SpecialChars)
    requires
        chars.distinct(),
    ensures
        decoded_in_place(framed(payload, chars), chars) == Ok::<Seq<u8>, HDLCError>(payload),
{
    lemma_decode_inverts_encode(payload, chars);
    lemma_in_place_agrees(framed(payload, chars), chars);
}

/// The scan in place looks only at the bytes from its index on: bytes put
/// in front of `input` move the scan and do not change its outcome.
proof fn lemma_scan_shifted(
    front: Seq<u8>,
    input: Seq<u8>,
    chars: SpecialChars,
    i: int,
    synced: bool,
)
    requires
        0 <= i,
    ensures
        scanned_from(front + input, chars, front.len() + i, synced) == scanned_from(
            input,
            chars,
            i,
            synced,
        ),
    decreases input.len() - i,
{
    let all = front + input;
    let g = front.len() as int;
    if i < input.len() {
        assert(all[g + i] == input[i]);
        if i + 1 < input.len() {
            assert(all[g + i + 1] == input[i + 1]);
        }
        if input[i] == chars.fesc {
            if i + 1 < input.len() {
                lemma_scan_shifted(front, input, chars, i + 2, synced);
            }
        } else if input[i] == chars.fend {
            if !synced {
                lemma_scan_shifted(front, input, chars, i + 1, true);
            }
        } else {
            lemma_scan_shifted(front, input, chars, i + 1, synced);
        }
    }
}

/// Before the opening delimiter the scan in place steps over every byte
/// that is neither the delimiter nor the escape byte.
proof fn lemma_scan_steps_over(all: Seq<u8>, chars: SpecialChars, i: int, upto: int)
    requires
        0 <= i <= upto <= all.len(),
        forall|k: int| i <= k < upto ==> all[k] != chars.fend && all[k] != chars.fesc,
    ensures
        scanned_from(all, chars, i, false) == scanned_from(all, chars, upto, false),
    decreases upto - i,
{
    if i < upto {
        lemma_scan_steps_over(all, chars, i + 1, upto);
    }
}

/// `decode_slice` passes over what stands before the opening delimiter:
/// bytes in front of `input` that are neither the delimiter nor the escape
/// byte do not change the outcome.
pub proof fn lemma_in_place_passes_over(garbage: Seq<u8>, input: Seq<u8>, chars: SpecialChars)
    requires
        forall|k: int|
            0 <= k < garbage.len() ==> garbage[k] != chars.fend && garbage[k] != chars.fesc,
    ensures
        scanned(garbage + input, chars) == scanned(input, chars),
        decoded_in_place(garbage + input, chars) == decoded_in_place(input, chars),
{
    let all = garbage + input;
    assert forall|k: int| 0 <= k < garbage.len() implies all[k] != chars.fend && all[k]
        != chars.fesc by {
        assert(all[k] == garbage[k]);
    }
    lemma_scan_steps_over(all, chars, 0, garbage.len() as int);
    lemma_scan_shifted(garbage, input, chars, 0, false);
}

} // verus!
