use vstd::prelude::*;
use crate::chars::SpecialChars;
use crate::error::HDLCError;

verus! {

/// What one payload byte becomes on the wire.
pub open spec fn stuffed_byte(b: u8, chars: SpecialChars) -> Seq<u8> {
    if b == chars.fesc {
        seq![chars.fesc, chars.tfesc]
    } else if b == chars.fend {
        seq![chars.fesc, chars.tfend]
    } else {
        seq![b]
    }
}

/// The payload with every byte stuffed, in order.
pub open spec fn stuffed(payload: Seq<u8>, chars: SpecialChars) -> Seq<u8>
    decreases payload.len(),
{
    if payload.len() == 0 {
        Seq::<u8>::empty()
    } else {
        stuffed(payload.drop_last(), chars) + stuffed_byte(payload.last(), chars)
    }
}

/// The frame of a payload: delimiter, stuffed payload, delimiter.
pub open spec fn framed(payload: Seq<u8>, chars: SpecialChars) -> Seq<u8> {
    seq![chars.fend] + stuffed(payload, chars) + seq![chars.fend]
}

/// The stuffed payload is at least as long as the payload and at most twice
/// as long.
pub proof fn lemma_stuffed_len(payload: Seq<u8>, chars: SpecialChars)
    ensures
        payload.len() <= stuffed(payload, chars).len() <= 2 * payload.len(),
    decreases payload.len(),
{
    if payload.len() > 0 {
        lemma_stuffed_len(payload.drop_last(), chars);
    }
}

/// Builds the frame of `data`.
///
/// Fails with `DuplicateSpecialChar`, and only with it, exactly when the
/// special characters are not pairwise distinct.
pub fn encode(data: &[u8], s_chars: SpecialChars) -> (result: Result<Vec<u8>, HDLCError>)
    ensures
        !s_chars.distinct() ==> result == Err::<Vec<u8>, HDLCError>(
            HDLCError::DuplicateSpecialChar,
        ),
        s_chars.distinct() ==> result is Ok && result->Ok_0@ == framed(data@, s_chars),
        result matches Ok(frame) ==> {
            &&& data@.len() + 2 <= frame@.len() <= 2 * data@.len() + 2
            &&& frame@.first() == s_chars.fend
            &&& frame@.last() == s_chars.fend
        },
{
    if !s_chars.is_distinct() {
        return Err(HDLCError::DuplicateSpecialChar);
    }
    let n: usize = data.len();
    // Room for the longest frame, where every byte is stuffed.
    let mut output: Vec<u8> = if n <= (isize::MAX as usize - 2) / 2 {
        Vec::with_capacity(2 * n + 2)
    } else {
        Vec::new()
    };
    output.push(s_chars.fend);
    let mut i: usize = 0;
    while i < n
        invariant
            n == data@.len(),
            i <= n,
            output@ == seq![s_chars.fend] + stuffed(data@.take(i as int), s_chars),
        decreases n - i,
    {
        let value: u8 = data[i];
        proof {
            let next = data@.take(i as int + 1);
            assert(next.drop_last() == data@.take(i as int));
            assert(next.last() == value);
        }
        if value == s_chars.fesc {
            output.push(s_chars.fesc);
            output.push(s_chars.tfesc);
        } else if value == s_chars.fend {
            output.push(s_chars.fesc);
            output.push(s_chars.tfend);
        } else {
            output.push(value);
        }
        i += 1;
    }
    output.push(s_chars.fend);
    proof {
        assert(data@.take(n as int) == data@);
        lemma_stuffed_len(data@, s_chars);
    }
    Ok(output)
}

} // verus!
