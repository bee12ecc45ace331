use vstd::prelude::*;
use crate::chars::SpecialChars;
use crate::decode::decoded;
use crate::error::HDLCError;
use crate::round_trip::lemma_in_place_agrees;

verus! {

/// The outcome of a scan that rewrites its buffer: the payload bytes that
/// were produced before the scan stopped, and the fault that stopped it, if
/// one did.
pub struct Unstuffed {
    pub bytes: Seq<u8>,
    pub fault: Option<HDLCError>,
}

/// `rest` with the byte `b` put before its bytes, if `keep` holds.
pub open spec fn emitted(keep: bool, b: u8, rest: Unstuffed) -> Unstuffed {
    if keep {
        Unstuffed { bytes: seq![b] + rest.bytes, fault: rest.fault }
    } else {
        rest
    }
}

/// `rest` with `front` put before its bytes.
pub open spec fn continued(front: Seq<u8>, rest: Unstuffed) -> Unstuffed {
    Unstuffed { bytes: front + rest.bytes, fault: rest.fault }
}

/// The outcome of scanning `input` from index `i` on.
///
/// Until the first delimiter is met (`synced` is false) bytes are passed
/// over: they produce nothing, but an escape byte must still be followed by
/// a substitute. From the first delimiter on, an escape byte and its
/// substitute produce one byte, every other byte produces itself, and the
/// next delimiter must be the last byte of `input`.
pub open spec fn scanned_from(input: Seq<u8>, chars: SpecialChars, i: int, synced: bool) -> Unstuffed
    decreases input.len() - i,
{
    if i < 0 || i >= input.len() {
        Unstuffed { bytes: Seq::<u8>::empty(), fault: Some(HDLCError::MissingFinalFend) }
    } else if input[i] == chars.fesc {
        if i + 1 >= input.len() {
            Unstuffed { bytes: Seq::<u8>::empty(), fault: Some(HDLCError::MissingFinalFend) }
        } else if input[i + 1] == chars.tfesc {
            emitted(synced, chars.fesc, scanned_from(input, chars, i + 2, synced))
        } else if input[i + 1] == chars.tfend {
            emitted(synced, chars.fend, scanned_from(input, chars, i + 2, synced))
        } else {
            Unstuffed { bytes: Seq::<u8>::empty(), fault: Some(HDLCError::MissingTradeChar) }
        }
    } else if input[i] == chars.fend {
        if !synced {
            scanned_from(input, chars, i + 1, true)
        } else if i + 1 == input.len() {
            Unstuffed { bytes: Seq::<u8>::empty(), fault: None }
        } else {
            Unstuffed { bytes: Seq::<u8>::empty(), fault: Some(HDLCError::FendCharInData) }
        }
    } else {
        emitted(synced, input[i], scanned_from(input, chars, i + 1, synced))
    }
}

/// The outcome of [`decode_slice`] on `input`.
pub open spec fn scanned(input: Seq<u8>, chars: SpecialChars) -> Unstuffed {
    if !chars.distinct() {
        Unstuffed { bytes: Seq::<u8>::empty(), fault: Some(HDLCError::DuplicateSpecialChar) }
    } else {
        scanned_from(input, chars, 0, false)
    }
}

/// What [`decode_slice`] returns on `input`: the payload, or the fault that
/// stopped the scan.
pub open spec fn decoded_in_place(input: Seq<u8>, chars: SpecialChars) -> Result<
    Seq<u8>,
    HDLCError,
> {
    match scanned(input, chars).fault {
        None => Ok(scanned(input, chars).bytes),
        Some(e) => Err(e),
    }
}

/// Producing one more byte after `front` is the same as producing it before
/// `rest`.
pub proof fn lemma_continued_push(front: Seq<u8>, b: u8, rest: Unstuffed)
    ensures
        continued(front, emitted(true, b, rest)) == continued(front.push(b), rest),
{
    assert(front + (seq![b] + rest.bytes) =~= front.push(b) + rest.bytes);
}

/// A buffer whose bytes from `written` on are untouched is its rewritten
/// front followed by the old bytes from `written` on.
proof fn lemma_rewritten_front(now: Seq<u8>, orig: Seq<u8>, written: int)
    requires
        now.len() == orig.len(),
        0 <= written <= now.len(),
        forall|k: int| written <= k < now.len() ==> now[k] == orig[k],
    ensures
        now == now.take(written) + orig.skip(written),
        now.take(written) + Seq::<u8>::empty() == now.take(written),
{
    assert(now =~= now.take(written) + orig.skip(written));
    assert(now.take(written) + Seq::<u8>::empty() =~= now.take(written));
}

/// Recovers the payload of the frame in `input` without another buffer: the
/// payload is written over the front of `input`, and the result is a view of
/// that front.
///
/// Bytes before the first delimiter are passed over. Whatever the outcome,
/// `input` afterwards holds the bytes produced before the scan stopped,
/// followed by its old bytes from that length on. On every input that
/// [`decode`](crate::decode::decode) accepts the result is the same payload.
#[verifier::loop_isolation(false)]
pub fn decode_slice(input: &mut [u8], s_chars: SpecialChars) -> (result: Result<&[u8], HDLCError>)
    ensures
        final(input)@ == scanned(old(input)@, s_chars).bytes + old(input)@.skip(
            scanned(old(input)@, s_chars).bytes.len() as int,
        ),
        match result {
            Ok(payload) => decoded_in_place(old(input)@, s_chars) == Ok::<Seq<u8>, HDLCError>(
                payload@,
            ),
            Err(e) => decoded_in_place(old(input)@, s_chars) == Err::<Seq<u8>, HDLCError>(e),
        },
        decoded(old(input)@, s_chars) matches Ok(payload) ==> result is Ok && result->Ok_0@
            == payload,
{
    let ghost orig: Seq<u8> = input@;
    proof {
        if decoded(orig, s_chars) is Ok {
            lemma_in_place_agrees(orig, s_chars);
        }
    }
    if !s_chars.is_distinct() {
        proof {
            assert(orig =~= Seq::<u8>::empty() + orig.skip(0));
        }
        return Err(HDLCError::DuplicateSpecialChar);
    }
    let n: usize = input.len();
    let mut synced: bool = false;
    let mut pending_escape: bool = false;
    // Number of payload bytes written so far; never ahead of the read index.
    let mut written: usize = 0;
    let mut i: usize = 0;
    proof {
        assert(Seq::<u8>::empty() + scanned_from(orig, s_chars, 0, false).bytes
            =~= scanned_from(orig, s_chars, 0, false).bytes);
    }
    while i < n
        invariant
            s_chars.distinct(),
            orig == old(input)@,
            n == orig.len(),
            input@.len() == n,
            i <= n,
            written <= i,
            pending_escape ==> written < i && orig[i - 1] == s_chars.fesc,
            !synced ==> written == 0,
            forall|k: int| written <= k < n ==> input@[k] == orig[k],
            scanned(orig, s_chars) == continued(
                input@.take(written as int),
                scanned_from(
                    orig,
                    s_chars,
                    if pending_escape { i - 1 } else { i as int },
                    synced,
                ),
            ),
        decreases n - i,
    {
        let byte: u8 = input[i];
        let ghost front: Seq<u8> = input@.take(written as int);
        if pending_escape {
            let resolved: u8 = if byte == s_chars.tfesc {
                s_chars.fesc
            } else if byte == s_chars.tfend {
                s_chars.fend
            } else {
                proof {
                    lemma_rewritten_front(input@, orig, written as int);
                }
                return Err(HDLCError::MissingTradeChar);
            };
            if synced {
                proof {
                    lemma_continued_push(
                        front,
                        resolved,
                        scanned_from(orig, s_chars, i + 1, synced),
                    );
                }
                input[written] = resolved;
                written += 1;
                proof {
                    assert(input@.take(written as int) =~= front.push(resolved));
                }
            }
            pending_escape = false;
        } else if byte == s_chars.fend {
            if !synced {
                synced = true;
            } else if i + 1 < n {
                proof {
                    lemma_rewritten_front(input@, orig, written as int);
                }
                return Err(HDLCError::FendCharInData);
            } else {
                proof {
                    lemma_rewritten_front(input@, orig, written as int);
                }
                return Ok(&input[0..written]);
            }
        } else if byte == s_chars.fesc {
            pending_escape = true;
        } else if synced {
            proof {
                lemma_continued_push(front, byte, scanned_from(orig, s_chars, i + 1, synced));
            }
            input[written] = byte;
            written += 1;
            proof {
                assert(input@.take(written as int) =~= front.push(byte));
            }
        }
        i += 1;
    }
    proof {
        lemma_rewritten_front(input@, orig, written as int);
    }
    Err(HDLCError::MissingFinalFend)
}

} // verus!
