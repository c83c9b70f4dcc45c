use bioreader::byte_reader::{
    accept_bytes, copy_to_front, cut_region, cut_stream, fill_from, hand_over, last_record_start,
    room, ByteReader, ByteReaderMmap, ByteSource, Cut, FillBuffer, ReadError,
};
use bioreader::fastq_reader::FastqReader;

struct Pieces {
    data: Vec<u8>,
    at: usize,
    step: usize,
}

impl Pieces {
    fn of(data: &[u8], step: usize) -> Pieces {
        Pieces { data: data.to_vec(), at: 0, step }
    }
}

impl ByteSource for Pieces {
    fn pull(&mut self, max: usize) -> Result<Vec<u8>, std::io::Error> {
        let n = max.min(self.step).min(self.data.len() - self.at);
        let piece = self.data[self.at..self.at + n].to_vec();
        self.at += n;
        Ok(piece)
    }
}

struct Failing {
    good: usize,
}

impl ByteSource for Failing {
    fn pull(&mut self, max: usize) -> Result<Vec<u8>, std::io::Error> {
        if self.good > 0 && max > 0 {
            self.good -= 1;
            Ok(vec![b'@'])
        } else {
            Err(std::io::Error::new(std::io::ErrorKind::UnexpectedEof, "disk on fire"))
        }
    }
}

struct Greedy;

impl ByteSource for Greedy {
    fn pull(&mut self, max: usize) -> Result<Vec<u8>, std::io::Error> {
        Ok(vec![b'@'; max + 1])
    }
}

fn plain_records(count: usize) -> Vec<u8> {
    let mut text = Vec::new();
    for i in 0..count {
        text.extend_from_slice(format!("@r{}\nACGT\n+\nIIII\n", i % 10).as_bytes());
    }
    text
}

fn chunks_of(text: &[u8], capacity: usize, step: usize) -> Result<Vec<Vec<u8>>, ReadError> {
    let mut reader = ByteReader::new(Pieces::of(text, step), capacity)?;
    let mut buffer = vec![0u8; capacity];
    let mut chunks = Vec::new();
    while let Some(n) = reader.fill_buf(&mut buffer)? {
        chunks.push(buffer[..n].to_vec());
    }
    Ok(chunks)
}

#[test]
fn stream_reader_cuts_at_the_last_header() {
    let text = plain_records(5);
    assert_eq!(text.len(), 80);
    let chunks = chunks_of(&text, 40, 7).unwrap();
    let sizes: Vec<usize> = chunks.iter().map(|c| c.len()).collect();
    assert_eq!(sizes, vec![32, 32, 16]);
    assert_eq!(chunks.concat(), text);
}

#[test]
fn stream_chunks_begin_and_end_with_a_record() {
    let text = plain_records(23);
    for capacity in [17, 18, 31, 32, 33, 47, 64, 100, 1000] {
        for step in [1, 3, 16, 1000] {
            let chunks = chunks_of(&text, capacity, step).unwrap();
            assert_eq!(chunks.concat(), text);
            for chunk in &chunks {
                assert_eq!(chunk[0], b'@');
                assert_eq!(chunk[chunk.len() - 1], b'\n');
                assert_eq!(chunk.len() % 16, 0);
                assert!(chunk.len() <= capacity);
            }
        }
    }
}

#[test]
fn buffer_of_exactly_one_record_is_too_small() {
    let text = plain_records(3);
    assert!(matches!(chunks_of(&text, 16, 5), Err(ReadError::RecordTooLarge)));
    assert!(matches!(chunks_of(&text, 9, 5), Err(ReadError::RecordTooLarge)));
    assert!(matches!(chunks_of(&text, 0, 5), Err(ReadError::RecordTooLarge)));
}

#[test]
fn input_that_fits_is_handed_over_whole() {
    let text = plain_records(3);
    let chunks = chunks_of(&text, 49, 4).unwrap();
    assert_eq!(chunks, vec![text.clone()]);
    let unfinished = b"@r1\nACGT\n+\nIIII\n@r2\nAC\n+\nII".to_vec();
    assert_eq!(chunks_of(&unfinished, 100, 100).unwrap(), vec![unfinished.clone()]);
    assert_eq!(chunks_of(b"", 10, 10).unwrap(), Vec::<Vec<u8>>::new());
}

#[test]
fn quality_line_beginning_with_at_is_no_header() {
    let record = b"@r0\nACGT\n+r0\n@III\n".to_vec();
    assert_eq!(record.len(), 18);
    let text = [record.clone(), record.clone(), record.clone()].concat();
    for capacity in [19, 30, 32, 36, 37, 50] {
        let chunks = chunks_of(&text, capacity, 5).unwrap();
        assert_eq!(chunks.concat(), text);
        for chunk in &chunks {
            assert_eq!(chunk.len() % 18, 0);
        }
    }
    assert!(matches!(chunks_of(&text, 17, 5), Err(ReadError::RecordTooLarge)));
}

#[test]
fn quality_line_beginning_with_plus_hides_the_next_header() {
    let text = b"@r\nA\n+\n+\n@r\nA\n+\n+\n@r\nA\n+\n+\n".to_vec();
    assert!(matches!(chunks_of(&text, 12, 4), Err(ReadError::RecordTooLarge)));
    assert!(matches!(chunks_of(&text, 27, 4), Err(ReadError::RecordTooLarge)));
    assert_eq!(chunks_of(&text, 28, 4).unwrap(), vec![text.clone()]);
}

#[test]
fn last_record_start_follows_the_rule() {
    assert_eq!(last_record_start(b"@a\nA\n+\n!\n@b\nC\n+\n!\n"), 9);
    assert_eq!(last_record_start(b"@a\nA\n+\n!\n@b\nC\n+\n!\n@"), 18);
    assert_eq!(last_record_start(b"@a\nA\n+\n@\n"), 0);
    assert_eq!(last_record_start(b"@a\nA\n+\n@\n@b"), 9);
    assert_eq!(last_record_start(b""), 0);
    assert_eq!(last_record_start(b"@"), 0);
    assert_eq!(last_record_start(b"\n@"), 1);
    assert_eq!(last_record_start(b"+\n@"), 0);
    assert_eq!(last_record_start(b"x\n+abc\n@q"), 0);
    assert_eq!(last_record_start(b"x\nabc+\n@q"), 7);
    assert_eq!(last_record_start(b"x\n\n@q"), 3);
    assert_eq!(last_record_start(b"ab@cd\n"), 0);
}

#[test]
fn cut_stream_names_each_case() {
    assert_eq!(cut_stream(b"", true), Cut::Drained);
    assert_eq!(cut_stream(b"@a\nA\n+\n!", true), Cut::Take(8));
    assert_eq!(cut_stream(b"", false), Cut::TooLarge);
    assert_eq!(cut_stream(b"@a\nA\n+\n!\n", false), Cut::TooLarge);
    assert_eq!(cut_stream(b"@a\nA\n+\n!\n@b\n", false), Cut::Take(9));
}

#[test]
fn read_fills_until_full_or_ended() {
    let text = plain_records(2);
    let mut reader = ByteReader::new(Pieces::of(&text, 5), 20).unwrap();
    assert_eq!(reader.read().unwrap(), Some(20));
    let mut buffer = Vec::new();
    assert_eq!(reader.fill_buf(&mut buffer).unwrap(), Some(16));
    assert_eq!(buffer, text[..16].to_vec());
    assert_eq!(reader.read().unwrap(), Some(16));
    assert_eq!(reader.read().unwrap(), None);
    assert_eq!(reader.fill_buf(&mut buffer).unwrap(), Some(16));
    assert_eq!(buffer, text[16..].to_vec());
    assert_eq!(reader.fill_buf(&mut buffer).unwrap(), None);
    assert_eq!(reader.read().unwrap(), None);
}

#[test]
fn caller_buffer_grows_and_never_shrinks() {
    let text = plain_records(4);
    let mut reader = ByteReader::new(Pieces::of(&text, 64), 65).unwrap();
    let mut small = vec![9u8; 3];
    assert_eq!(reader.fill_buf(&mut small).unwrap(), Some(64));
    assert_eq!(small, text);
    let mut reader = ByteReader::new(Pieces::of(&text, 64), 64).unwrap();
    assert_eq!(reader.fill_buf(&mut small).unwrap(), Some(48));
    assert_eq!(small.len(), 64);
    assert_eq!(reader.fill_buf(&mut small).unwrap(), Some(16));
    assert_eq!(&small[..16], &text[48..]);
    assert_eq!(reader.fill_buf(&mut small).unwrap(), None);
    let mut reader = ByteReader::new(Pieces::of(&text[..16], 64), 64).unwrap();
    let mut large = vec![9u8; 100];
    assert_eq!(reader.fill_buf(&mut large).unwrap(), Some(16));
    assert_eq!(large.len(), 100);
    assert_eq!(&large[..16], &text[..16]);
}

#[test]
fn source_failure_is_handed_on() {
    match ByteReader::new(Failing { good: 0 }, 10) {
        Err(ReadError::Io(e)) => {
            assert_eq!(e.kind(), std::io::ErrorKind::UnexpectedEof);
            assert_eq!(e.to_string(), "disk on fire");
        },
        _ => panic!("the failure of the source was not handed on"),
    }
    assert!(matches!(ByteReader::new(Failing { good: 3 }, 10), Err(ReadError::Io(_))));
    assert!(ByteReader::new(Failing { good: 3 }, 3).is_ok());
}

#[test]
fn source_that_hands_over_too_much_is_refused() {
    assert!(matches!(ByteReader::new(Greedy, 10), Err(ReadError::SourceOverrun)));
}

#[test]
fn accept_bytes_appends_or_refuses() {
    let mut pending = b"@a".to_vec();
    assert!(matches!(accept_bytes(&mut pending, 5, b"\nAC"), Ok(false)));
    assert_eq!(pending, b"@a\nAC".to_vec());
    assert!(matches!(accept_bytes(&mut pending, 5, b""), Ok(true)));
    assert_eq!(pending, b"@a\nAC".to_vec());
    assert!(matches!(accept_bytes(&mut pending, 5, b"G"), Err(ReadError::SourceOverrun)));
    assert_eq!(pending, b"@a\nAC".to_vec());
}

#[test]
fn fill_from_stops_when_full_or_ended() {
    let mut source = Pieces::of(b"0123456789", 3);
    let mut pending = b"ab".to_vec();
    let mut finished = false;
    fill_from(&mut source, &mut pending, 6, &mut finished).unwrap();
    assert_eq!(pending, b"ab0123".to_vec());
    assert!(!finished);
    pending.clear();
    fill_from(&mut source, &mut pending, 100, &mut finished).unwrap();
    assert_eq!(pending, b"456789".to_vec());
    assert!(finished);
    let mut more = Pieces::of(b"xyz", 3);
    fill_from(&mut more, &mut pending, 100, &mut finished).unwrap();
    assert_eq!(pending, b"456789".to_vec());
    assert_eq!(more.at, 0);
}

#[test]
fn hand_over_moves_the_front() {
    let mut pending = b"0123456789".to_vec();
    let mut buffer = vec![b'x'; 4];
    hand_over(&mut pending, 6, &mut buffer);
    assert_eq!(pending, b"6789".to_vec());
    assert_eq!(buffer, b"012345".to_vec());
    hand_over(&mut pending, 1, &mut buffer);
    assert_eq!(pending, b"789".to_vec());
    assert_eq!(buffer.len(), 6);
    assert_eq!(buffer[0], b'6');
    hand_over(&mut pending, 0, &mut buffer);
    assert_eq!(pending, b"789".to_vec());
    assert_eq!(buffer.len(), 6);
}

#[test]
fn copy_to_front_keeps_the_longer_length() {
    let mut buffer = vec![1u8; 5];
    copy_to_front(&mut buffer, b"abc");
    assert_eq!(buffer.len(), 5);
    assert_eq!(&buffer[..3], b"abc");
    copy_to_front(&mut buffer, b"abcdefg");
    assert_eq!(buffer, b"abcdefg".to_vec());
}

#[test]
fn mapped_reader_extends_each_chunk_to_a_header() {
    let text = plain_records(5);
    let mut reader = ByteReaderMmap::with_capacity(&text, 20);
    let mut buffer = vec![0u8; 20];
    assert_eq!(reader.fill_buf(&mut buffer).unwrap(), Some(32));
    assert_eq!(&buffer[..32], &text[..32]);
    assert_eq!(reader.fill_buf(&mut buffer).unwrap(), Some(32));
    assert_eq!(&buffer[..32], &text[32..64]);
    assert_eq!(reader.fill_buf(&mut buffer).unwrap(), Some(16));
    assert_eq!(&buffer[..16], &text[64..]);
    assert_eq!(buffer.len(), 32);
    assert_eq!(reader.fill_buf(&mut buffer).unwrap(), None);
    assert_eq!(reader.fill_buf(&mut buffer).unwrap(), None);
}

#[test]
fn mapped_chunk_of_more_than_twice_the_target_is_refused() {
    let text = plain_records(5);
    let mut reader = ByteReaderMmap::with_capacity(&text, 5);
    let mut buffer = vec![0u8; 5];
    assert!(matches!(reader.fill_buf(&mut buffer), Err(ReadError::RecordTooLarge)));
    assert!(matches!(reader.fill_buf(&mut buffer), Err(ReadError::RecordTooLarge)));
    assert_eq!(buffer, vec![0u8; 5]);
    let mut reader = ByteReaderMmap::with_capacity(&text, 8);
    assert_eq!(reader.fill_buf(&mut buffer).unwrap(), Some(16));
}

#[test]
fn cut_region_names_each_case() {
    let text = plain_records(5);
    assert_eq!(cut_region(&text, 0, 20), Cut::Take(32));
    assert_eq!(cut_region(&text, 32, 20), Cut::Take(32));
    assert_eq!(cut_region(&text, 64, 20), Cut::Take(16));
    assert_eq!(cut_region(&text, 64, 16), Cut::Take(16));
    assert_eq!(cut_region(&text, 64, 15), Cut::Take(16));
    assert_eq!(cut_region(&text, 64, 7), Cut::TooLarge);
    assert_eq!(cut_region(&text, 80, 20), Cut::Drained);
    assert_eq!(cut_region(&text, 99, 20), Cut::Drained);
    assert_eq!(cut_region(&text, 0, 15), Cut::Take(16));
    assert_eq!(cut_region(&text, 0, 16), Cut::Take(32));
    assert_eq!(cut_region(&text, 0, 8), Cut::Take(16));
    assert_eq!(cut_region(&text, 0, 7), Cut::TooLarge);
    assert_eq!(cut_region(&text, 0, 0), Cut::TooLarge);
    assert_eq!(cut_region(&text, 0, 80), Cut::Take(80));
    assert_eq!(cut_region(&text, 0, usize::MAX), Cut::Take(80));
    assert_eq!(cut_region(b"", 0, 0), Cut::Drained);
}

#[test]
fn mapped_reader_is_misled_by_a_quality_line_beginning_with_at() {
    let text = b"@a\nA\n+\n@\n@b\nC\n+\n!\n".to_vec();
    assert_eq!(cut_region(&text, 0, 4), Cut::Take(7));
    assert_eq!(cut_region(&text, 0, 7), Cut::Take(9));
}

#[test]
fn every_record_of_a_stream_is_scanned_once() {
    let text = plain_records(57);
    for capacity in [17, 40, 64, 999] {
        let mut source = ByteReader::new(Pieces::of(&text, 11), capacity).unwrap();
        let mut scanner = FastqReader::with_capacity(capacity);
        let mut heads = Vec::new();
        let mut rebuilt = Vec::new();
        while let Some(()) = scanner.load_batch(&mut source).unwrap() {
            while let Some(step) = scanner.next() {
                let record = step.unwrap();
                assert!(record.valid());
                heads.push(record.head().to_vec());
                let (start, end) = record.buf_pos.pos;
                rebuilt.extend_from_slice(&record.buffer[start..end]);
                rebuilt.push(b'\n');
            }
        }
        assert_eq!(heads.len(), 57);
        for (i, head) in heads.iter().enumerate() {
            assert_eq!(head, format!("r{}", i % 10).as_bytes());
        }
        assert_eq!(rebuilt, text);
    }
}

#[test]
fn every_record_of_a_region_is_scanned_once() {
    let text = plain_records(57);
    for target in [8, 16, 40, 64, 999] {
        let mut source = ByteReaderMmap::with_capacity(&text, target);
        let mut scanner = FastqReader::with_capacity(target);
        let mut count = 0;
        while let Some(()) = scanner.load_batch(&mut source).unwrap() {
            while let Some(record) = scanner.next_position() {
                assert_eq!(record.seq(), b"ACGT");
                count += 1;
            }
        }
        assert_eq!(count, 57);
    }
}

struct Dice(u64);

impl Dice {
    fn roll(&mut self, sides: usize) -> usize {
        self.0 = self.0.wrapping_mul(6364136223846793005).wrapping_add(1442695040888963407);
        ((self.0 >> 33) as usize) % sides
    }
}

fn random_records(dice: &mut Dice, count: usize, plus_qualities: bool) -> (Vec<u8>, Vec<usize>) {
    let letters = b"ACGTN";
    let scores = b"@+!#I5~";
    let mut text = Vec::new();
    let mut starts = Vec::new();
    for i in 0..count {
        starts.push(text.len());
        let ending: &[u8] = if dice.roll(4) == 0 { b"\r\n" } else { b"\n" };
        let n = dice.roll(12);
        text.extend_from_slice(format!("@read{} {}", i, "x".repeat(dice.roll(5))).as_bytes());
        text.extend_from_slice(ending);
        for _ in 0..n {
            text.push(letters[dice.roll(5)]);
        }
        text.extend_from_slice(ending);
        text.push(b'+');
        if dice.roll(2) == 0 {
            text.extend_from_slice(format!("read{}", i).as_bytes());
        }
        text.extend_from_slice(ending);
        for k in 0..n {
            let mut score = scores[dice.roll(7)];
            if k == 0 && score == b'+' && !plus_qualities {
                score = b'@';
            }
            text.push(score);
        }
        text.extend_from_slice(ending);
    }
    (text, starts)
}

#[test]
fn random_streams_are_cut_between_records_and_nothing_is_lost() {
    let mut dice = Dice(2024);
    for round in 0..60 {
        let (text, starts) = random_records(&mut dice, 1 + round % 17, false);
        let capacity = 75 + dice.roll(200);
        let step = 1 + dice.roll(40);
        let chunks = chunks_of(&text, capacity, step).unwrap();
        assert_eq!(chunks.concat(), text);
        let mut at = 0;
        for chunk in &chunks {
            assert!(starts.contains(&at));
            at += chunk.len();
        }
        assert_eq!(at, text.len());
    }
}

#[test]
fn random_streams_scan_to_their_records() {
    let mut dice = Dice(7);
    for round in 0..60 {
        let count = 1 + round % 23;
        let (text, starts) = random_records(&mut dice, count, false);
        let capacity = 75 + dice.roll(300);
        let mut source = ByteReader::new(Pieces::of(&text, 1 + dice.roll(64)), capacity).unwrap();
        let mut scanner = FastqReader::with_capacity(capacity);
        let mut seen = 0;
        let mut offset = 0;
        let mut rebuilt = Vec::new();
        while let Some(()) = scanner.load_batch(&mut source).unwrap() {
            let size = scanner.buffer_size();
            while let Some(step) = scanner.next() {
                let record = step.unwrap();
                assert_eq!(record.buf_pos.pos.0 + offset, starts[seen]);
                assert!(record.head().starts_with(format!("read{} ", seen).as_bytes()));
                assert!(record.valid());
                let (start, end) = record.buf_pos.pos;
                rebuilt.extend_from_slice(&record.buffer[start..end]);
                if end < size {
                    rebuilt.push(b'\n');
                }
                seen += 1;
            }
            offset += size;
        }
        assert_eq!(seen, count);
        assert_eq!(rebuilt, text);
    }
}

#[test]
fn random_streams_with_plus_qualities_are_never_cut_inside_a_record() {
    let mut dice = Dice(99);
    for round in 0..60 {
        let (text, starts) = random_records(&mut dice, 2 + round % 17, true);
        let capacity = 75 + dice.roll(200);
        let mut reader = ByteReader::new(Pieces::of(&text, 1 + dice.roll(40)), capacity).unwrap();
        let mut buffer = Vec::new();
        let mut at = 0;
        loop {
            match reader.fill_buf(&mut buffer) {
                Ok(Some(n)) => {
                    assert!(starts.contains(&at));
                    assert_eq!(&buffer[..n], &text[at..at + n]);
                    at += n;
                },
                Ok(None) => {
                    assert_eq!(at, text.len());
                    break;
                },
                Err(ReadError::RecordTooLarge) => break,
                Err(_) => panic!("unexpected failure"),
            }
        }
    }
}

#[test]
fn random_regions_without_at_qualities_are_cut_between_records() {
    let mut dice = Dice(5);
    for round in 0..60 {
        let (mut text, starts) = random_records(&mut dice, 1 + round % 17, true);
        for start in &starts {
            let mut line = 0;
            for i in *start..text.len() {
                if line == 3 {
                    if text[i] == b'@' {
                        text[i] = b'#';
                    }
                    break;
                }
                if text[i] == b'\n' {
                    line += 1;
                }
            }
        }
        let target = 40 + dice.roll(200);
        let mut reader = ByteReaderMmap::with_capacity(&text, target);
        let mut buffer = Vec::new();
        let mut at = 0;
        while let Some(n) = reader.fill_buf(&mut buffer).unwrap() {
            assert!(starts.contains(&at));
            assert_eq!(&buffer[..n], &text[at..at + n]);
            at += n;
        }
        assert_eq!(at, text.len());
    }
}

#[test]
fn room_is_what_is_missing() {
    assert_eq!(room(&b"abc".to_vec(), 10), 7);
    assert_eq!(room(&Vec::new(), 10), 10);
    assert_eq!(room(&b"abc".to_vec(), 3), 0);
}

#[test]
fn full_or_ended_reader_asks_no_source() {
    assert!(ByteReader::new(Failing { good: 0 }, 0).is_ok());
    let mut reader = ByteReader::new(Failing { good: 3 }, 3).unwrap();
    assert_eq!(reader.read().unwrap(), Some(3));
    assert_eq!(reader.read().unwrap(), Some(3));
    let mut pending = b"abc".to_vec();
    let mut finished = false;
    assert!(fill_from(&mut Failing { good: 0 }, &mut pending, 3, &mut finished).is_ok());
    assert_eq!(pending, b"abc".to_vec());
    assert!(!finished);
    finished = true;
    assert!(fill_from(&mut Failing { good: 0 }, &mut pending, 9, &mut finished).is_ok());
    assert_eq!(pending, b"abc".to_vec());
    assert!(finished);
    finished = false;
    assert!(matches!(
        fill_from(&mut Failing { good: 0 }, &mut pending, 9, &mut finished),
        Err(ReadError::Io(_))
    ));
    assert_eq!(pending, b"abc".to_vec());
}

#[test]
fn ended_reader_hands_over_its_tail_and_then_nothing() {
    let text = b"@r1\nACGT\n+\nIIII\n@r2\nAC\n+\nII".to_vec();
    let mut reader = ByteReader::new(Pieces::of(&text, 100), 100).unwrap();
    assert_eq!(reader.read().unwrap(), None);
    let mut buffer = vec![0u8; 4];
    assert_eq!(reader.fill_buf(&mut buffer).unwrap(), Some(text.len()));
    assert_eq!(buffer, text);
    for _ in 0..3 {
        assert_eq!(reader.fill_buf(&mut buffer).unwrap(), None);
        assert_eq!(buffer, text);
    }
}

#[test]
fn fatal_errors_are_told_from_the_others() {
    let io = ReadError::Io(std::io::Error::new(std::io::ErrorKind::Other, "x"));
    assert!(!io.is_fatal());
    assert!(!ReadError::LengthMismatch.is_fatal());
    assert!(ReadError::SourceOverrun.is_fatal());
    assert!(ReadError::Boundary.is_fatal());
    assert!(ReadError::RecordTooLarge.is_fatal());
    assert!(ReadError::InvalidRecord.is_fatal());
}

struct Asked {
    left: usize,
    asked: std::rc::Rc<std::cell::RefCell<Vec<usize>>>,
}

impl ByteSource for Asked {
    fn pull(&mut self, max: usize) -> Result<Vec<u8>, std::io::Error> {
        self.asked.borrow_mut().push(max);
        let n = max.min(4).min(self.left);
        self.left -= n;
        Ok(vec![b'@'; n])
    }
}

#[test]
fn source_is_asked_for_the_room_that_is_left() {
    let asked = std::rc::Rc::new(std::cell::RefCell::new(Vec::new()));
    let mut reader = ByteReader::new(Asked { left: 100, asked: asked.clone() }, 10).unwrap();
    assert_eq!(*asked.borrow(), vec![10, 6, 2]);
    assert_eq!(reader.read().unwrap(), Some(10));
    assert_eq!(*asked.borrow(), vec![10, 6, 2]);
    let short = std::rc::Rc::new(std::cell::RefCell::new(Vec::new()));
    let mut reader = ByteReader::new(Asked { left: 5, asked: short.clone() }, 10).unwrap();
    assert_eq!(*short.borrow(), vec![10, 6, 5]);
    assert_eq!(reader.read().unwrap(), None);
    assert_eq!(*short.borrow(), vec![10, 6, 5]);
}
