use vstd::prelude::*;
use crate::chars::SpecialChars;
use crate::frames::{
    after_frame, find_frame, has_frame, is_frame, lemma_frame_found, next_frame,
};

verus! {

/// The most bytes that one call of [`FrameReader::read_frame`] asks of its
/// source.
pub const CHUNK_SIZE: usize = 1024;

/// A source of bytes.
pub trait ByteSource {
    /// Puts up to `buf.len()` bytes at the front of `buf` and returns how
    /// many; 0 says that the source is exhausted.
    fn read(&mut self, buf: &mut [u8]) -> usize;
}

/// Cuts the bytes of a source into frames.
///
/// The reader keeps the bytes that it has read and not yet given out in a
/// frame. It looks at delimiters only: the frames it returns are still
/// escaped.
pub struct FrameReader<'a, S: ByteSource + ?Sized> {
    /// Where the bytes come from.
    reader: &'a mut S,
    /// The special characters, of which the reader uses the delimiter.
    s_char: SpecialChars,
    /// Bytes read and not yet given out.
    rest: Vec<u8>,
}

/// The bytes of a frame that was returned, if one was.
pub open spec fn frame_view(frame: Option<Vec<u8>>) -> Option<Seq<u8>> {
    match frame {
        Some(bytes) => Some(bytes@),
        None => None,
    }
}

/// A reader that held `pending` and is handed `chunk` returns `frame` and
/// then holds `left`.
pub open spec fn accepts(
    pending: Seq<u8>,
    chunk: Seq<u8>,
    fend: u8,
    frame: Option<Seq<u8>>,
    left: Seq<u8>,
) -> bool {
    &&& frame == next_frame(pending + chunk, fend)
    &&& left == after_frame(pending + chunk, fend)
}

/// A reader that held `pending` and is pulled returns `frame` and then
/// holds `left`: it has accepted some chunk of at most `CHUNK_SIZE` bytes.
pub open spec fn pulls(pending: Seq<u8>, fend: u8, frame: Option<Seq<u8>>, left: Seq<u8>) -> bool {
    exists|chunk: Seq<u8>|
        chunk.len() <= CHUNK_SIZE && #[trigger] accepts(pending, chunk, fend, frame, left)
}

impl<'a, S: ByteSource + ?Sized> FrameReader<'a, S> {
    /// The bytes read and not yet given out in a frame.
    pub closed spec fn pending(&self) -> Seq<u8> {
        self.rest@
    }

    /// The special characters that the reader was made with.
    pub closed spec fn chars(&self) -> SpecialChars {
        self.s_char
    }

    /// A reader on `reader` that holds no bytes yet.
    pub fn new(reader: &'a mut S, s_char: SpecialChars) -> (made: Self)
        ensures
            made.pending() == Seq::<u8>::empty(),
            made.chars() == s_char,
    {
        FrameReader { reader, s_char, rest: Vec::new() }
    }

    /// Takes `chunk` as the next bytes of the stream and returns the first
    /// frame of what is then pending, if it holds one.
    ///
    /// With a frame go the bytes before it; the bytes after its closing
    /// delimiter stay pending. Without one, all bytes stay pending.
    pub fn accept(&mut self, chunk: &[u8]) -> (frame: Option<Vec<u8>>)
        ensures
            final(self).chars() == old(self).chars(),
            accepts(
                old(self).pending(),
                chunk@,
                old(self).chars().fend,
                frame_view(frame),
                final(self).pending(),
            ),
            frame matches Some(bytes) ==> is_frame(bytes@, old(self).chars().fend),
    {
        let ghost data: Seq<u8> = self.rest@ + chunk@;
        self.rest.extend_from_slice(chunk);
        assert(self.rest@ =~= data);
        match find_frame(self.rest.as_slice(), self.s_char.fend) {
            Some((start, end)) => {
                proof {
                    lemma_frame_found(data, self.s_char.fend, start as int, end as int);
                    assert(end < self.rest.len());
                }
                let tail: Vec<u8> = self.rest.split_off(end + 1);
                let frame: Vec<u8> = self.rest.split_off(start);
                self.rest = tail;
                assert(frame@ =~= data.subrange(start as int, end + 1));
                assert(self.rest@ =~= data.skip(end + 1));
                Some(frame)
            },
            None => None,
        }
    }

    /// Reads up to `CHUNK_SIZE` bytes from the source and returns the first
    /// frame of what is then pending, if it holds one.
    ///
    /// What comes back depends on the source: the call behaves as
    /// [`FrameReader::accept`] does on the bytes that were read, which are
    /// at most `CHUNK_SIZE`. `None` with nothing pending says that the
    /// source gave no bytes.
    pub fn read_frame(&mut self) -> (frame: Option<Vec<u8>>)
        ensures
            final(self).chars() == old(self).chars(),
            pulls(
                old(self).pending(),
                old(self).chars().fend,
                frame_view(frame),
                final(self).pending(),
            ),
            frame matches Some(bytes) ==> is_frame(bytes@, old(self).chars().fend),
    {
        let mut buffer: Vec<u8> = vec![0u8; CHUNK_SIZE];
        let told: usize = self.reader.read(buffer.as_mut_slice());
        // No source can have put more bytes than the buffer holds.
        buffer.truncate(if told <= CHUNK_SIZE { told } else { CHUNK_SIZE });
        if buffer.is_empty() && self.rest.is_empty() {
            proof {
                let nothing = Seq::<u8>::empty();
                assert(self.rest@ + nothing =~= nothing);
                assert(!has_frame(nothing, self.s_char.fend));
                assert(accepts(
                    old(self).pending(),
                    nothing,
                    self.s_char.fend,
                    None,
                    self.pending(),
                ));
            }
            return None;
        }
        let frame: Option<Vec<u8>> = self.accept(buffer.as_slice());
        proof {
            assert(accepts(
                old(self).pending(),
                buffer@,
                old(self).chars().fend,
                frame_view(frame),
                self.pending(),
            ));
        }
        frame
    }

    /// One pull of the reader as a sequence of frames: the same as
    /// [`FrameReader::read_frame`].
    pub fn next(&mut self) -> (frame: Option<Vec<u8>>)
        ensures
            final(self).chars() == old(self).chars(),
            pulls(
                old(self).pending(),
                old(self).chars().fend,
                frame_view(frame),
                final(self).pending(),
            ),
            frame matches Some(bytes) ==> is_frame(bytes@, old(self).chars().fend),
    {
        self.read_frame()
    }
}

} // verus!
