use vstd::prelude::*;
use crate::chars::SpecialChars;
use crate::encode::framed;
use crate::error::HDLCError;
use crate::round_trip::lemma_decodes_iff_framed;

verus! {

/// `front` put before the payload of `rest`; a failure stays as it is.
pub open spec fn prefixed(front: Seq<u8>, rest: Result<Seq<u8>, HDLCError>) -> Result<
    Seq<u8>,
    HDLCError,
> {
    match rest {
        Ok(payload) => Ok(front + payload),
        Err(e) => Err(e),
    }
}

/// The payload that the bytes of `input` from index `i` on stand for, up to
/// and including the closing delimiter, or the first fault met on the way.
///
/// An escape byte and the substitute after it give one payload byte; the
/// delimiter must be the last byte of `input`; every other byte stands for
/// itself.
pub open spec fn payload_from(input: Seq<u8>, chars: SpecialChars, i: int) -> Result<
    Seq<u8>,
    HDLCError,
>
    decreases input.len() - i,
{
    if i < 0 || i >= input.len() {
        Err(HDLCError::MissingFinalFend)
    } else if input[i] == chars.fesc {
        if i + 1 < input.len() && input[i + 1] == chars.tfend {
            prefixed(seq![chars.fend], payload_from(input, chars, i + 2))
        } else if i + 1 < input.len() && input[i + 1] == chars.tfesc {
            prefixed(seq![chars.fesc], payload_from(input, chars, i + 2))
        } else {
            Err(HDLCError::MissingTradeChar)
        }
    } else if input[i] == chars.fend {
        if i + 1 == input.len() {
            Ok(Seq::<u8>::empty())
        } else {
            Err(HDLCError::FendCharInData)
        }
    } else {
        prefixed(seq![input[i]], payload_from(input, chars, i + 1))
    }
}

/// What [`decode`] makes of `input`: the payload of the frame, or the fault
/// that is met first.
pub open spec fn decoded(input: Seq<u8>, chars: SpecialChars) -> Result<Seq<u8>, HDLCError> {
    if !chars.distinct() {
        Err(HDLCError::DuplicateSpecialChar)
    } else if input.len() == 0 || input[0] != chars.fend {
        Err(HDLCError::MissingFirstFend)
    } else {
        payload_from(input, chars, 1)
    }
}

/// Putting one more byte at the end of `front` is the same as putting it at
/// the start of `rest`.
pub proof fn lemma_prefixed_push(front: Seq<u8>, b: u8, rest: Result<Seq<u8>, HDLCError>)
    ensures
        prefixed(front, prefixed(seq![b], rest)) == prefixed(front.push(b), rest),
{
    if let Ok(payload) = rest {
        assert(front + (seq![b] + payload) =~= front.push(b) + payload);
    }
}

/// Recovers the payload of the frame `input` into a new buffer.
///
/// The result is `decoded(input, s_chars)`: the payload, or the first fault
/// that a scan from left to right meets. With four distinct special
/// characters the call succeeds exactly on the frames, and returns the
/// payload that the frame was built from.
#[verifier::loop_isolation(false)]
pub fn decode(input: &[u8], s_chars: SpecialChars) -> (result: Result<Vec<u8>, HDLCError>)
    ensures
        match result {
            Ok(payload) => decoded(input@, s_chars) == Ok::<Seq<u8>, HDLCError>(payload@),
            Err(e) => decoded(input@, s_chars) == Err::<Seq<u8>, HDLCError>(e),
        },
        result is Ok <==> s_chars.distinct() && exists|payload: Seq<u8>|
            input@ == #[trigger] framed(payload, s_chars),
        result matches Ok(payload) ==> input@ == framed(payload@, s_chars),
{
    proof {
        lemma_decodes_iff_framed(input@, s_chars);
    }
    if !s_chars.is_distinct() {
        return Err(HDLCError::DuplicateSpecialChar);
    }
    let n: usize = input.len();
    if n == 0 || input[0] != s_chars.fend {
        return Err(HDLCError::MissingFirstFend);
    }
    let mut output: Vec<u8> = Vec::with_capacity(n);
    let mut i: usize = 1;
    proof {
        assert(Seq::<u8>::empty() + Seq::<u8>::empty() =~= Seq::<u8>::empty());
        if let Ok(payload) = payload_from(input@, s_chars, 1) {
            assert(Seq::<u8>::empty() + payload =~= payload);
        }
    }
    while i < n
        invariant
            n == input@.len(),
            1 <= i <= n,
            s_chars.distinct(),
            decoded(input@, s_chars) == prefixed(
                output@,
                payload_from(input@, s_chars, i as int),
            ),
        decreases n - i,
    {
        let value: u8 = input[i];
        if value == s_chars.fesc {
            if i + 1 < n && input[i + 1] == s_chars.tfend {
                proof {
                    lemma_prefixed_push(
                        output@,
                        s_chars.fend,
                        payload_from(input@, s_chars, i + 2),
                    );
                }
                output.push(s_chars.fend);
            } else if i + 1 < n && input[i + 1] == s_chars.tfesc {
                proof {
                    lemma_prefixed_push(
                        output@,
                        s_chars.fesc,
                        payload_from(input@, s_chars, i + 2),
                    );
                }
                output.push(s_chars.fesc);
            } else {
                return Err(HDLCError::MissingTradeChar);
            }
            i += 2;
        } else if value == s_chars.fend {
            if i + 1 == n {
                proof {
                    assert(output@ + Seq::<u8>::empty() =~= output@);
                }
                return Ok(output);
            } else {
                return Err(HDLCError::FendCharInData);
            }
        } else {
            proof {
                lemma_prefixed_push(output@, value, payload_from(input@, s_chars, i + 1));
            }
            output.push(value);
            i += 1;
        }
    }
    Err(HDLCError::MissingFinalFend)
}

} // verus!
