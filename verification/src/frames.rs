use vstd::prelude::*;

verus! {

/// `data[start..=end]` is the first frame that a scan of `data` meets.
///
/// A frame opens at the first delimiter that is not directly followed by
/// another delimiter, holds at least one byte, and closes at the next
/// delimiter. Delimiters before the opening one are each followed by a
/// delimiter: of a run of delimiters only the last one opens a frame.
pub open spec fn frame_at(data: Seq<u8>, fend: u8, start: int, end: int) -> bool {
    &&& 0 <= start
    &&& start + 1 < end < data.len()
    &&& data[start] == fend
    &&& data[end] == fend
    &&& forall|k: int| start < k < end ==> #[trigger] data[k] != fend
    &&& forall|j: int| 0 <= j < start && #[trigger] data[j] == fend ==> data[j + 1] == fend
}

/// `data` holds a complete frame.
pub open spec fn has_frame(data: Seq<u8>, fend: u8) -> bool {
    exists|start: int, end: int| frame_at(data, fend, start, end)
}

/// Where the first frame of `data` opens and closes, if `data` holds one.
pub open spec fn frame_span(data: Seq<u8>, fend: u8) -> (int, int) {
    choose|start: int, end: int| frame_at(data, fend, start, end)
}

/// The first frame of `data`, both delimiters included.
pub open spec fn next_frame(data: Seq<u8>, fend: u8) -> Option<Seq<u8>> {
    if has_frame(data, fend) {
        Some(data.subrange(frame_span(data, fend).0, frame_span(data, fend).1 + 1))
    } else {
        None
    }
}

/// What stays pending once the first frame is taken out of `data`: the bytes
/// after its closing delimiter, or all of `data` if it holds no frame.
pub open spec fn after_frame(data: Seq<u8>, fend: u8) -> Seq<u8> {
    if has_frame(data, fend) {
        data.skip(frame_span(data, fend).1 + 1)
    } else {
        data
    }
}

/// A delimiter, at least one byte that is no delimiter, a delimiter.
pub open spec fn is_frame(frame: Seq<u8>, fend: u8) -> bool {
    &&& frame.len() >= 3
    &&& frame.first() == fend
    &&& frame.last() == fend
    &&& forall|k: int| 0 < k < frame.len() - 1 ==> #[trigger] frame[k] != fend
}

/// A sequence of bytes has at most one first frame.
pub proof fn lemma_frame_unique(data: Seq<u8>, fend: u8, s1: int, e1: int, s2: int, e2: int)
    requires
        frame_at(data, fend, s1, e1),
        frame_at(data, fend, s2, e2),
    ensures
        s1 == s2,
        e1 == e2,
{
    if s1 < s2 {
        assert(data[s1] == fend);
        assert(data[s1 + 1] != fend);
    } else if s2 < s1 {
        assert(data[s2] == fend);
        assert(data[s2 + 1] != fend);
    } else if e1 < e2 {
        assert(data[e1] == fend);
    } else if e2 < e1 {
        assert(data[e2] == fend);
    }
}

/// Where a frame is found, it is the frame that `next_frame` and
/// `after_frame` speak of.
pub proof fn lemma_frame_found(data: Seq<u8>, fend: u8, start: int, end: int)
    requires
        frame_at(data, fend, start, end),
    ensures
        has_frame(data, fend),
        frame_span(data, fend) == (start, end),
        next_frame(data, fend) == Some(data.subrange(start, end + 1)),
        after_frame(data, fend) == data.skip(end + 1),
        is_frame(data.subrange(start, end + 1), fend),
{
    let (s, e) = frame_span(data, fend);
    lemma_frame_unique(data, fend, start, end, s, e);
}

/// Looks for the first frame of `data` and tells where it opens and closes.
pub fn find_frame(data: &[u8], fend: u8) -> (span: Option<(usize, usize)>)
    ensures
        match span {
            Some((start, end)) => frame_at(data@, fend, start as int, end as int),
            None => !has_frame(data@, fend),
        },
{
    let n: usize = data.len();
    let mut in_frame: bool = false;
    let mut start: usize = 0;
    let mut i: usize = 0;
    while i < n
        invariant
            n == data@.len(),
            i <= n,
            !in_frame ==> forall|j: int|
                0 <= j < i && #[trigger] data@[j] == fend ==> j + 1 < n && data@[j + 1] == fend,
            in_frame ==> {
                &&& start < i
                &&& data@[start as int] == fend
                &&& (start + 1 < n ==> data@[start + 1] != fend)
                &&& forall|k: int| start < k < i ==> #[trigger] data@[k] != fend
                &&& forall|j: int|
                    0 <= j < start && #[trigger] data@[j] == fend ==> data@[j + 1] == fend
            },
        decreases n - i,
    {
        if data[i] == fend {
            if in_frame {
                return Some((start, i));
            }
            // Of a run of delimiters only the last one opens the frame.
            if !(i + 1 < n && data[i + 1] == fend) {
                start = i;
                in_frame = true;
            }
        }
        i += 1;
    }
    proof {
        assert forall|s: int, e: int| !frame_at(data@, fend, s, e) by {
            if frame_at(data@, fend, s, e) {
                assert(data@[s] == fend);
                assert(data@[s + 1] != fend);
                if in_frame {
                    if s == start {
                        assert(data@[e] == fend);
                    }
                }
            }
        }
    }
    None
}

} // verus!
