use vstd::prelude::*;
use crate::frames::{
    after_frame, frame_at, frame_span, has_frame, lemma_frame_found, next_frame,
};

verus! {

/// All the frames of `stream`, in order: its first frame, then the frames of
/// what comes after that frame's closing delimiter.
///
/// These are the frames that a reader gives out which holds `stream` and is
/// pulled, with no more bytes coming, until it returns no frame.
pub open spec fn frames_of(stream: Seq<u8>, fend: u8) -> Seq<Seq<u8>>
    decreases stream.len(),
    when true
    via frames_of_decreases
{
    if has_frame(stream, fend) {
        seq![next_frame(stream, fend)->Some_0] + frames_of(after_frame(stream, fend), fend)
    } else {
        Seq::<Seq<u8>>::empty()
    }
}

#[via_fn]
proof fn frames_of_decreases(stream: Seq<u8>, fend: u8) {
    if has_frame(stream, fend) {
        let (start, end) = frame_span(stream, fend);
        assert(frame_at(stream, fend, start, end));
    }
}

/// What a reader that holds `pending` does when it is handed `chunks` one
/// after the other: the frames that it returns, in order, and the bytes
/// that it holds in the end.
pub open spec fn fed(pending: Seq<u8>, chunks: Seq<Seq<u8>>, fend: u8) -> (Seq<Seq<u8>>, Seq<u8>)
    decreases chunks.len(),
{
    if chunks.len() == 0 {
        (Seq::<Seq<u8>>::empty(), pending)
    } else {
        let data = pending + chunks.first();
        let later = fed(after_frame(data, fend), chunks.drop_first(), fend);
        match next_frame(data, fend) {
            Some(frame) => (seq![frame] + later.0, later.1),
            None => later,
        }
    }
}

/// All the frames that come out of a fresh reader that is handed `chunks`
/// one after the other and then pulled until it returns no frame.
pub open spec fn collected(chunks: Seq<Seq<u8>>, fend: u8) -> Seq<Seq<u8>> {
    fed(Seq::<u8>::empty(), chunks, fend).0 + frames_of(
        fed(Seq::<u8>::empty(), chunks, fend).1,
        fend,
    )
}

/// More bytes behind a complete frame change neither the frame nor where it
/// lies.
pub proof fn lemma_frame_stable(data: Seq<u8>, more: Seq<u8>, fend: u8)
    requires
        has_frame(data, fend),
    ensures
        has_frame(data + more, fend),
        next_frame(data + more, fend) == next_frame(data, fend),
        after_frame(data + more, fend) == after_frame(data, fend) + more,
{
    let (start, end) = frame_span(data, fend);
    let all = data + more;
    assert(frame_at(all, fend, start, end)) by {
        assert forall|k: int| start < k < end implies #[trigger] all[k] != fend by {
            assert(all[k] == data[k]);
        }
        assert forall|j: int| 0 <= j < start && #[trigger] all[j] == fend implies all[j + 1]
            == fend by {
            assert(all[j] == data[j]);
            assert(all[j + 1] == data[j + 1]);
        }
    }
    lemma_frame_found(all, fend, start, end);
    lemma_frame_found(data, fend, start, end);
    assert(all.subrange(start, end + 1) =~= data.subrange(start, end + 1));
    assert(all.skip(end + 1) =~= data.skip(end + 1) + more);
}

/// Feeding a reader piece by piece and then pulling it dry gives the frames
/// of the whole stream: of what it held, followed by all the pieces.
pub proof fn lemma_fed_frames(pending: Seq<u8>, chunks: Seq<Seq<u8>>, fend: u8)
    ensures
        fed(pending, chunks, fend).0 + frames_of(fed(pending, chunks, fend).1, fend) == frames_of(
            pending + chunks.flatten(),
            fend,
        ),
    decreases chunks.len(),
{
    if chunks.len() == 0 {
        assert(pending + chunks.flatten() =~= pending);
        assert(Seq::<Seq<u8>>::empty() + frames_of(pending, fend) =~= frames_of(pending, fend));
    } else {
        let data = pending + chunks.first();
        let more = chunks.drop_first().flatten();
        let left = after_frame(data, fend);
        let later = fed(left, chunks.drop_first(), fend);
        lemma_fed_frames(left, chunks.drop_first(), fend);
        assert(pending + chunks.flatten() =~= data + more);
        if has_frame(data, fend) {
            lemma_frame_stable(data, more, fend);
            let frame = next_frame(data, fend)->Some_0;
            assert((seq![frame] + later.0) + frames_of(later.1, fend) =~= seq![frame] + (later.0
                + frames_of(later.1, fend)));
        }
    }
}

/// The frames that come out do not depend on how the stream is cut into
/// pieces: two deliveries of the same bytes give the same frames in the
/// same order.
pub proof fn lemma_reassembly(first: Seq<Seq<u8>>, second: Seq<Seq<u8>>, fend: u8)
    requires
        first.flatten() == second.flatten(),
    ensures
        collected(first, fend) == collected(second, fend),
{
    lemma_fed_frames(Seq::<u8>::empty(), first, fend);
    lemma_fed_frames(Seq::<u8>::empty(), second, fend);
    assert(Seq::<u8>::empty() + first.flatten() =~= first.flatten());
    assert(Seq::<u8>::empty() + second.flatten() =~= second.flatten());
}

/// A stream delivered in one piece gives the frames of the stream, and so
/// does every other delivery of the same bytes.
pub proof fn lemma_collected_is_frames_of(chunks: Seq<Seq<u8>>, fend: u8)
    ensures
        collected(chunks, fend) == frames_of(chunks.flatten(), fend),
        collected(chunks, fend) == collected(seq![chunks.flatten()], fend),
{
    let whole = seq![chunks.flatten()];
    lemma_fed_frames(Seq::<u8>::empty(), chunks, fend);
    lemma_fed_frames(Seq::<u8>::empty(), whole, fend);
    whole.lemma_flatten_one_element();
    assert(Seq::<u8>::empty() + chunks.flatten() =~= chunks.flatten());
}

/// Bytes before the first delimiter do not open a frame: with such bytes in
/// front, the first frame is the same and lies that much further on.
proof fn lemma_frame_behind_garbage(garbage: Seq<u8>, data: Seq<u8>, fend: u8)
    requires
        forall|k: int| 0 <= k < garbage.len() ==> garbage[k] != fend,
    ensures
        has_frame(garbage + data, fend) == has_frame(data, fend),
        next_frame(garbage + data, fend) == next_frame(data, fend),
        has_frame(data, fend) ==> after_frame(garbage + data, fend) == after_frame(data, fend),
{
    let all = garbage + data;
    let g = garbage.len() as int;
    if has_frame(data, fend) {
        let (start, end) = frame_span(data, fend);
        assert(frame_at(all, fend, start + g, end + g)) by {
            assert(all[start + g] == data[start]);
            assert(all[end + g] == data[end]);
            assert forall|k: int| start + g < k < end + g implies #[trigger] all[k] != fend by {
                assert(all[k] == data[k - g]);
            }
            assert forall|j: int| 0 <= j < start + g && #[trigger] all[j] == fend implies all[j
                + 1] == fend by {
                if j < g {
                    assert(all[j] == garbage[j]);
                } else {
                    assert(all[j] == data[j - g]);
                    assert(all[j + 1] == data[j - g + 1]);
                }
            }
        }
        lemma_frame_found(all, fend, start + g, end + g);
        lemma_frame_found(data, fend, start, end);
        assert(all.subrange(start + g, end + g + 1) =~= data.subrange(start, end + 1));
        assert(all.skip(end + g + 1) =~= data.skip(end + 1));
    } else if has_frame(all, fend) {
        let (start, end) = frame_span(all, fend);
        if start < g {
            assert(all[start] == garbage[start]);
        }
        assert(frame_at(data, fend, start - g, end - g)) by {
            assert(data[start - g] == all[start]);
            assert(data[end - g] == all[end]);
            assert forall|k: int| start - g < k < end - g implies #[trigger] data[k] != fend by {
                assert(data[k] == all[k + g]);
            }
            assert forall|j: int| 0 <= j < start - g && #[trigger] data[j] == fend implies data[j
                + 1] == fend by {
                assert(data[j] == all[j + g]);
                assert(data[j + 1] == all[j + g + 1]);
            }
        }
    }
}

/// Bytes before the first delimiter of a stream appear in none of its
/// frames: the stream has the same frames with and without them.
pub proof fn lemma_leading_bytes_dropped(garbage: Seq<u8>, stream: Seq<u8>, fend: u8)
    requires
        forall|k: int| 0 <= k < garbage.len() ==> garbage[k] != fend,
    ensures
        frames_of(garbage + stream, fend) == frames_of(stream, fend),
{
    lemma_frame_behind_garbage(garbage, stream, fend);
}

} // verus!
