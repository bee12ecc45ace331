use hdlc::frames::find_frame;
use hdlc::reader::CHUNK_SIZE;
use hdlc::{decode, decode_slice, encode, ByteSource, FrameReader, HDLCError, SpecialChars};

/// A source that hands out its bytes in pieces of at most `step` bytes.
struct Pieces {
    data: Vec<u8>,
    pos: usize,
    step: usize,
}

impl Pieces {
    fn new(data: &[u8], step: usize) -> Pieces {
        Pieces { data: data.to_vec(), pos: 0, step }
    }
}

impl ByteSource for Pieces {
    fn read(&mut self, buf: &mut [u8]) -> usize {
        let n = self.step.min(buf.len()).min(self.data.len() - self.pos);
        buf[..n].copy_from_slice(&self.data[self.pos..self.pos + n]);
        self.pos += n;
        n
    }
}

/// A source that claims more bytes than any buffer holds.
struct Boaster;

impl ByteSource for Boaster {
    fn read(&mut self, buf: &mut [u8]) -> usize {
        for b in buf.iter_mut() {
            *b = 0x11;
        }
        usize::MAX
    }
}

/// Pulls `reader` the given number of times and keeps the frames.
fn pull<S: ByteSource>(reader: &mut FrameReader<S>, times: usize) -> Vec<Vec<u8>> {
    let mut frames = Vec::new();
    for _ in 0..times {
        if let Some(frame) = reader.read_frame() {
            frames.push(frame);
        }
    }
    frames
}

/// Hands `chunks` to a fresh reader, then pulls it until no frame comes.
fn collect(chunks: &[&[u8]], chars: SpecialChars) -> Vec<Vec<u8>> {
    let mut source = Pieces::new(&[], 1);
    let mut reader = FrameReader::new(&mut source, chars);
    let mut frames = Vec::new();
    for chunk in chunks {
        if let Some(frame) = reader.accept(chunk) {
            frames.push(frame);
        }
    }
    while let Some(frame) = reader.accept(&[]) {
        frames.push(frame);
    }
    frames
}

#[test]
fn default_chars_are_the_conventional_ones() {
    let chars = SpecialChars::default();
    assert_eq!(chars.fend, 0x7E);
    assert_eq!(chars.fesc, 0x7D);
    assert_eq!(chars.tfend, 0x5E);
    assert_eq!(chars.tfesc, 0x5D);
    assert!(chars.is_distinct());
}

#[test]
fn new_keeps_the_four_values() {
    let chars = SpecialChars::new(1, 2, 3, 4);
    assert_eq!((chars.fend, chars.fesc, chars.tfend, chars.tfesc), (1, 2, 3, 4));
}

#[test]
fn every_pair_of_equal_chars_is_a_duplicate() {
    let sets = [
        SpecialChars::new(1, 1, 3, 4),
        SpecialChars::new(1, 2, 1, 4),
        SpecialChars::new(1, 2, 3, 1),
        SpecialChars::new(1, 2, 2, 4),
        SpecialChars::new(1, 2, 3, 2),
        SpecialChars::new(1, 2, 3, 3),
    ];
    for chars in sets {
        assert!(!chars.is_distinct());
        assert_eq!(encode(&[9], chars), Err(HDLCError::DuplicateSpecialChar));
        assert_eq!(decode(&[1, 9, 1], chars), Err(HDLCError::DuplicateSpecialChar));
        let mut buf = [1, 9, 1];
        assert_eq!(decode_slice(&mut buf, chars), Err(HDLCError::DuplicateSpecialChar));
        assert_eq!(buf, [1, 9, 1]);
    }
}

#[test]
fn encode_of_nothing_is_two_delimiters() {
    assert_eq!(encode(&[], SpecialChars::default()), Ok(vec![0x7E, 0x7E]));
}

#[test]
fn encode_leaves_lone_substitutes_alone() {
    let chars = SpecialChars::default();
    assert_eq!(encode(&[0x5E, 0x5D], chars), Ok(vec![0x7E, 0x5E, 0x5D, 0x7E]));
}

#[test]
fn encode_length_stays_within_bounds() {
    let chars = SpecialChars::default();
    let plain = encode(&[1, 2, 3], chars).unwrap();
    assert_eq!(plain.len(), 3 + 2);
    let worst = encode(&[0x7E, 0x7D, 0x7E], chars).unwrap();
    assert_eq!(worst.len(), 2 * 3 + 2);
    assert_eq!(worst, vec![0x7E, 0x7D, 0x5E, 0x7D, 0x5D, 0x7D, 0x5E, 0x7E]);
    for payload in [&[][..], &[0x7E][..], &[0x00, 0x7D, 0x7E, 0xFF][..]] {
        let frame = encode(payload, chars).unwrap();
        assert!(payload.len() + 2 <= frame.len() && frame.len() <= 2 * payload.len() + 2);
        assert_eq!(frame[0], chars.fend);
        assert_eq!(frame[frame.len() - 1], chars.fend);
    }
}

#[test]
fn decode_gives_back_every_byte_value() {
    let payload: Vec<u8> = (0..=255).collect();
    for chars in [SpecialChars::default(), SpecialChars::new(0x00, 0xFF, 0x01, 0xFE)] {
        let frame = encode(&payload, chars).unwrap();
        assert_eq!(frame.len(), 256 + 2 + 2);
        assert_eq!(decode(&frame, chars), Ok(payload.clone()));
        let mut buf = frame.clone();
        assert_eq!(decode_slice(&mut buf, chars), Ok(&payload[..]));
    }
}

#[test]
fn decode_of_two_delimiters_is_nothing() {
    assert_eq!(decode(&[0x7E, 0x7E], SpecialChars::default()), Ok(vec![]));
}

#[test]
fn decode_wants_the_delimiter_first() {
    let chars = SpecialChars::default();
    assert_eq!(decode(&[], chars), Err(HDLCError::MissingFirstFend));
    assert_eq!(decode(&[0x01, 0x7E, 0x02, 0x7E], chars), Err(HDLCError::MissingFirstFend));
}

#[test]
fn decode_wants_the_delimiter_last() {
    let chars = SpecialChars::default();
    assert_eq!(decode(&[0x7E], chars), Err(HDLCError::MissingFinalFend));
    assert_eq!(decode(&[0x7E, 0x01, 0x02], chars), Err(HDLCError::MissingFinalFend));
}

#[test]
fn decode_rejects_an_escape_at_the_end() {
    let chars = SpecialChars::default();
    assert_eq!(decode(&[0x7E, 0x01, 0x7D], chars), Err(HDLCError::MissingTradeChar));
    assert_eq!(decode(&[0x7E, 0x7D, 0x7E], chars), Err(HDLCError::MissingTradeChar));
}

#[test]
fn decode_reports_the_first_fault() {
    let chars = SpecialChars::default();
    assert_eq!(decode(&[0x7E, 0x7D, 0x00, 0x7E, 0x7E], chars), Err(HDLCError::MissingTradeChar));
    assert_eq!(decode(&[0x7E, 0x7E, 0x7D, 0x00], chars), Err(HDLCError::FendCharInData));
}

#[test]
fn decode_rejects_a_trailing_double_delimiter() {
    let input = [0x7E, 0x01, 0x00, 0x69, 0x00, 0x05, 0x80, 0x09, 0x7E, 0x7E];
    assert_eq!(decode(&input, SpecialChars::default()), Err(HDLCError::FendCharInData));
}

#[test]
fn decode_rejects_an_escape_without_substitute() {
    let input = [0x7E, 0x01, 0x7D, 0x00, 0x05, 0x7E];
    assert_eq!(decode(&input, SpecialChars::default()), Err(HDLCError::MissingTradeChar));
}

#[test]
fn decode_slice_writes_the_payload_over_the_front() {
    let mut buf = [0x7E, 0x01, 0x7D, 0x5D, 0x02, 0x7D, 0x5E, 0x7E];
    assert_eq!(decode_slice(&mut buf, SpecialChars::default()), Ok(&[0x01, 0x7D, 0x02, 0x7E][..]));
    assert_eq!(buf, [0x01, 0x7D, 0x02, 0x7E, 0x02, 0x7D, 0x5E, 0x7E]);
}

#[test]
fn decode_slice_passes_over_bytes_before_the_first_delimiter() {
    let mut buf = [0x01, 0x02, 0x7E, 0x05, 0x06, 0x7E];
    assert_eq!(decode_slice(&mut buf, SpecialChars::default()), Ok(&[0x05, 0x06][..]));
    assert_eq!(buf, [0x05, 0x06, 0x7E, 0x05, 0x06, 0x7E]);
}

#[test]
fn decode_slice_checks_escapes_before_the_first_delimiter() {
    let chars = SpecialChars::default();
    let mut good = [0x7D, 0x5E, 0x7E, 0x09, 0x7E];
    assert_eq!(decode_slice(&mut good, chars), Ok(&[0x09][..]));
    let mut bad = [0x7D, 0x7E, 0x09, 0x7E];
    assert_eq!(decode_slice(&mut bad, chars), Err(HDLCError::MissingTradeChar));
    assert_eq!(bad, [0x7D, 0x7E, 0x09, 0x7E]);
}

#[test]
fn decode_slice_of_nothing_misses_the_final_delimiter() {
    let chars = SpecialChars::default();
    let mut empty: [u8; 0] = [];
    assert_eq!(decode_slice(&mut empty, chars), Err(HDLCError::MissingFinalFend));
    let mut open = [0x7E];
    assert_eq!(decode_slice(&mut open, chars), Err(HDLCError::MissingFinalFend));
    let mut dangling = [0x7E, 0x01, 0x7D];
    assert_eq!(decode_slice(&mut dangling, chars), Err(HDLCError::MissingFinalFend));
}

#[test]
fn decode_slice_keeps_what_it_wrote_before_a_fault() {
    let chars = SpecialChars::default();
    let mut stray = [0x7E, 0x7D, 0x5E, 0x02, 0x7E, 0x03];
    assert_eq!(decode_slice(&mut stray, chars), Err(HDLCError::FendCharInData));
    assert_eq!(stray, [0x7E, 0x02, 0x5E, 0x02, 0x7E, 0x03]);
    let mut trade = [0x7E, 0x01, 0x7D, 0x00, 0x7E];
    assert_eq!(decode_slice(&mut trade, chars), Err(HDLCError::MissingTradeChar));
    assert_eq!(trade, [0x01, 0x01, 0x7D, 0x00, 0x7E]);
}

#[test]
fn both_decoders_agree_on_what_both_accept() {
    let chars = SpecialChars::new(0x71, 0x70, 0x51, 0x50);
    let inputs: [&[u8]; 4] = [
        &[0x71, 0x71],
        &[0x71, 0x01, 0x02, 0x71],
        &[0x71, 0x70, 0x51, 0x70, 0x50, 0x71],
        &[0x71, 0x51, 0x50, 0x7E, 0x7D, 0x71],
    ];
    for input in inputs {
        let allocated = decode(input, chars).unwrap();
        let mut buf = input.to_vec();
        assert_eq!(decode_slice(&mut buf, chars), Ok(&allocated[..]));
    }
}

#[test]
fn find_frame_tells_where_the_first_frame_lies() {
    assert_eq!(find_frame(&[0x7E, 1, 2, 0x7E], 0x7E), Some((0, 3)));
    assert_eq!(find_frame(&[9, 9, 0x7E, 0x7E, 0x7E, 1, 0x7E, 2, 0x7E], 0x7E), Some((4, 6)));
    assert_eq!(find_frame(&[], 0x7E), None);
    assert_eq!(find_frame(&[0x7E, 0x7E], 0x7E), None);
    assert_eq!(find_frame(&[1, 0x7E, 2, 3], 0x7E), None);
    assert_eq!(find_frame(&[0x00, 5, 0x00], 0x00), Some((0, 2)));
}

#[test]
fn two_frames_share_no_delimiter() {
    let chars = SpecialChars::default();
    let bytes = [0x7E, 0x01, 0x00, 0x05, 0x80, 0x7E, 0x7E, 0x02, 0x00, 0x05, 0x80, 0x7E];
    let mut source = Pieces::new(&bytes, CHUNK_SIZE);
    let mut reader = FrameReader::new(&mut source, chars);
    assert_eq!(reader.read_frame(), Some(vec![0x7E, 0x01, 0x00, 0x05, 0x80, 0x7E]));
    assert_eq!(reader.read_frame(), Some(vec![0x7E, 0x02, 0x00, 0x05, 0x80, 0x7E]));
    assert_eq!(reader.read_frame(), None);
    assert_eq!(reader.read_frame(), None);
}

#[test]
fn a_single_delimiter_between_frames_closes_only() {
    let chars = SpecialChars::default();
    let frames = collect(&[&[0x7E, 0x01, 0x7E, 0x02, 0x7E, 0x03, 0x7E]], chars);
    assert_eq!(frames, vec![vec![0x7E, 0x01, 0x7E], vec![0x7E, 0x03, 0x7E]]);
}

#[test]
fn accept_keeps_bytes_until_a_frame_closes() {
    let chars = SpecialChars::default();
    let mut source = Pieces::new(&[], 1);
    let mut reader = FrameReader::new(&mut source, chars);
    assert_eq!(reader.accept(&[0x55, 0x7E, 0x01]), None);
    assert_eq!(reader.accept(&[0x02]), None);
    assert_eq!(reader.accept(&[]), None);
    assert_eq!(reader.accept(&[0x03, 0x7E, 0x7E, 0x04]), Some(vec![0x7E, 0x01, 0x02, 0x03, 0x7E]));
    assert_eq!(reader.accept(&[0x7E, 0x09]), Some(vec![0x7E, 0x04, 0x7E]));
    assert_eq!(reader.accept(&[0x7E]), None);
    assert_eq!(reader.accept(&[0x7E]), None);
    assert_eq!(reader.accept(&[0x08, 0x7E]), Some(vec![0x7E, 0x08, 0x7E]));
    assert_eq!(reader.accept(&[]), None);
}

#[test]
fn frames_do_not_depend_on_the_pieces() {
    let chars = SpecialChars::default();
    let stream: Vec<u8> = vec![
        0x01, 0x02, 0x7E, 0x7E, 0x7E, 0x10, 0x7D, 0x5E, 0x7E, 0x7E, 0x20, 0x21, 0x7E, 0x30, 0x7E,
        0x7E, 0x7E, 0x40, 0x7E, 0x50,
    ];
    let expected: Vec<Vec<u8>> = vec![
        vec![0x7E, 0x10, 0x7D, 0x5E, 0x7E],
        vec![0x7E, 0x20, 0x21, 0x7E],
        vec![0x7E, 0x40, 0x7E],
    ];
    assert_eq!(collect(&[&stream], chars), expected);
    for step in 1..=stream.len() {
        let chunks: Vec<&[u8]> = stream.chunks(step).collect();
        assert_eq!(collect(&chunks, chars), expected);
    }
    for cut in 0..=stream.len() {
        assert_eq!(collect(&[&stream[..cut], &stream[cut..]], chars), expected);
    }
}

#[test]
fn small_reads_give_the_frames_of_one_read() {
    let chars = SpecialChars::default();
    let stream = [0x09, 0x7E, 0x01, 0x02, 0x7E, 0x7E, 0x03, 0x7E, 0x04];
    let mut whole = Pieces::new(&stream, CHUNK_SIZE);
    let at_once = pull(&mut FrameReader::new(&mut whole, chars), 4);
    assert_eq!(at_once, vec![vec![0x7E, 0x01, 0x02, 0x7E], vec![0x7E, 0x03, 0x7E]]);
    for step in 1..=3 {
        let mut source = Pieces::new(&stream, step);
        let in_pieces = pull(&mut FrameReader::new(&mut source, chars), 16);
        assert_eq!(in_pieces, at_once);
    }
}

#[test]
fn bytes_before_the_first_delimiter_are_in_no_frame() {
    let chars = SpecialChars::default();
    let stream = [0x7E, 0x01, 0x7E, 0x7E, 0x02, 0x7E];
    let plain = collect(&[&stream], chars);
    assert_eq!(plain, vec![vec![0x7E, 0x01, 0x7E], vec![0x7E, 0x02, 0x7E]]);
    let mut dirty = vec![0xAA, 0x7D, 0x00, 0xBB];
    dirty.extend_from_slice(&stream);
    assert_eq!(collect(&[&dirty], chars), plain);
}

#[test]
fn a_frame_may_span_many_reads() {
    let chars = SpecialChars::default();
    let mut stream = vec![0x7E];
    stream.extend(std::iter::repeat(0x42).take(3 * CHUNK_SIZE));
    stream.push(0x7E);
    let mut source = Pieces::new(&stream, CHUNK_SIZE);
    let mut reader = FrameReader::new(&mut source, chars);
    assert_eq!(reader.read_frame(), None);
    assert_eq!(reader.read_frame(), None);
    assert_eq!(reader.read_frame(), None);
    assert_eq!(reader.read_frame(), Some(stream.clone()));
    assert_eq!(reader.read_frame(), None);
}

#[test]
fn a_reader_takes_no_more_than_its_buffer() {
    let mut source = Boaster;
    let mut reader = FrameReader::new(&mut source, SpecialChars::new(0x11, 0x7D, 0x5E, 0x5D));
    assert_eq!(reader.read_frame(), None);
    let mut source = Boaster;
    let mut reader = FrameReader::new(&mut source, SpecialChars::default());
    assert_eq!(reader.accept(&[0x7E]), None);
    let mut expected = vec![0x7E];
    expected.extend(std::iter::repeat(0x11).take(CHUNK_SIZE));
    expected.push(0x7E);
    assert_eq!(reader.read_frame(), None);
    assert_eq!(reader.accept(&[0x7E]), Some(expected));
}

#[test]
fn next_pulls_one_frame() {
    let chars = SpecialChars::default();
    let mut source = Pieces::new(&[0x7E, 0x01, 0x7E, 0x7E, 0x02, 0x7E], CHUNK_SIZE);
    let mut reader = FrameReader::new(&mut source, chars);
    assert_eq!(reader.next(), Some(vec![0x7E, 0x01, 0x7E]));
    assert_eq!(reader.next(), Some(vec![0x7E, 0x02, 0x7E]));
    assert_eq!(reader.next(), None);
}

#[test]
fn a_frame_that_does_not_decode_is_still_a_frame() {
    let chars = SpecialChars::default();
    let frames = collect(&[&[0x7E, 0x01, 0x7D, 0x00, 0x7E]], chars);
    assert_eq!(frames, vec![vec![0x7E, 0x01, 0x7D, 0x00, 0x7E]]);
    assert_eq!(decode(&frames[0], chars), Err(HDLCError::MissingTradeChar));
}
