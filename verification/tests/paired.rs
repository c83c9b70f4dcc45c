use bioreader::byte_reader::{
    cut_pair, end_of_lines, ByteSource, FillBufferPair, PairCut, PairedByteReader, ReadError,
};
use bioreader::fastq_reader::PairedFastqReader;

struct Trickle {
    data: Vec<u8>,
    at: usize,
    step: usize,
}

impl Trickle {
    fn of(data: &[u8], step: usize) -> Trickle {
        Trickle { data: data.to_vec(), at: 0, step }
    }
}

impl ByteSource for Trickle {
    fn pull(&mut self, max: usize) -> Result<Vec<u8>, std::io::Error> {
        let n = max.min(self.step).min(self.data.len() - self.at);
        let piece = self.data[self.at..self.at + n].to_vec();
        self.at += n;
        Ok(piece)
    }
}

struct Broken;

impl ByteSource for Broken {
    fn pull(&mut self, _max: usize) -> Result<Vec<u8>, std::io::Error> {
        Err(std::io::Error::new(std::io::ErrorKind::PermissionDenied, "no way"))
    }
}

fn short_records(count: usize) -> Vec<u8> {
    let mut text = Vec::new();
    for i in 0..count {
        text.extend_from_slice(format!("@r{}\nACGT\n+\nIIII\n", i % 10).as_bytes());
    }
    text
}

fn long_records(count: usize) -> Vec<u8> {
    let mut text = Vec::new();
    for i in 0..count {
        text.extend_from_slice(format!("@r{}\nACGTACGT\n+\nIIIIIIII\n", i % 10).as_bytes());
    }
    text
}

fn line_feeds(text: &[u8]) -> usize {
    text.iter().filter(|&&b| b == b'\n').count()
}

#[test]
fn paired_chunks_hold_the_same_number_of_records() {
    let first = short_records(5);
    let second = long_records(5);
    assert_eq!(first.len(), 80);
    assert_eq!(second.len(), 120);
    let mut reader = PairedByteReader::new(Trickle::of(&first, 7), Trickle::of(&second, 13), 50);
    let mut buffer1 = vec![0u8; 50];
    let mut buffer2 = vec![0u8; 50];
    assert_eq!(reader.fill_buf(&mut buffer1, &mut buffer2).unwrap(), Some((32, 48)));
    assert_eq!(&buffer1[..32], &first[..32]);
    assert_eq!(&buffer2[..48], &second[..48]);
    assert_eq!(reader.fill_buf(&mut buffer1, &mut buffer2).unwrap(), Some((32, 48)));
    assert_eq!(&buffer1[..32], &first[32..64]);
    assert_eq!(&buffer2[..48], &second[48..96]);
    assert_eq!(reader.fill_buf(&mut buffer1, &mut buffer2).unwrap(), Some((16, 24)));
    assert_eq!(&buffer1[..16], &first[64..]);
    assert_eq!(&buffer2[..24], &second[96..]);
    assert_eq!(reader.fill_buf(&mut buffer1, &mut buffer2).unwrap(), None);
    assert!(reader.done());
    assert_eq!(reader.fill_buf(&mut buffer1, &mut buffer2).unwrap(), None);
}

#[test]
fn paired_chunks_keep_step_for_any_buffer_size() {
    let first = short_records(41);
    let second = long_records(41);
    for capacity in [25, 26, 48, 49, 100, 333, 5000] {
        for (step1, step2) in [(1, 1000), (1000, 1), (7, 13), (64, 64)] {
            let mut reader = PairedByteReader::new(
                Trickle::of(&first, step1),
                Trickle::of(&second, step2),
                capacity,
            );
            let mut buffer1 = Vec::new();
            let mut buffer2 = Vec::new();
            let mut seen1 = Vec::new();
            let mut seen2 = Vec::new();
            while let Some((n1, n2)) = reader.fill_buf(&mut buffer1, &mut buffer2).unwrap() {
                assert_eq!(buffer1[0], b'@');
                assert_eq!(buffer2[0], b'@');
                assert_eq!(buffer1[n1 - 1], b'\n');
                assert_eq!(buffer2[n2 - 1], b'\n');
                assert_eq!(line_feeds(&buffer1[..n1]), line_feeds(&buffer2[..n2]));
                assert_eq!(line_feeds(&buffer1[..n1]) % 4, 0);
                seen1.extend_from_slice(&buffer1[..n1]);
                seen2.extend_from_slice(&buffer2[..n2]);
            }
            assert_eq!(seen1, first);
            assert_eq!(seen2, second);
        }
    }
}

#[test]
fn shorter_second_file_is_a_length_mismatch() {
    let first = short_records(3);
    let second = short_records(2);
    let mut reader = PairedByteReader::new(Trickle::of(&first, 9), Trickle::of(&second, 9), 100);
    let mut buffer1 = vec![0u8; 8];
    let mut buffer2 = vec![0u8; 8];
    assert_eq!(reader.fill_buf(&mut buffer1, &mut buffer2).unwrap(), Some((32, 32)));
    let kept1 = buffer1.clone();
    let kept2 = buffer2.clone();
    assert!(matches!(
        reader.fill_buf(&mut buffer1, &mut buffer2),
        Err(ReadError::LengthMismatch)
    ));
    assert_eq!(buffer1, kept1);
    assert_eq!(buffer2, kept2);
    assert!(reader.invalid());
    assert!(!reader.done());
    assert!(matches!(
        reader.fill_buf(&mut buffer1, &mut buffer2),
        Err(ReadError::LengthMismatch)
    ));
}

#[test]
fn shorter_first_file_is_a_length_mismatch() {
    let first = short_records(4);
    let second = long_records(5);
    let mut reader = PairedByteReader::new(Trickle::of(&first, 5), Trickle::of(&second, 50), 40);
    let mut buffer1 = Vec::new();
    let mut buffer2 = Vec::new();
    let mut pairs = 0;
    let outcome = loop {
        match reader.fill_buf(&mut buffer1, &mut buffer2) {
            Ok(Some((n1, n2))) => {
                assert_eq!(line_feeds(&buffer1[..n1]), line_feeds(&buffer2[..n2]));
                pairs += line_feeds(&buffer1[..n1]) / 4;
            },
            other => break other,
        }
    };
    assert!(matches!(outcome, Err(ReadError::LengthMismatch)));
    assert_eq!(pairs, 4);
}

#[test]
fn empty_file_beside_a_full_one_is_a_length_mismatch() {
    let first = short_records(1);
    let mut reader = PairedByteReader::new(Trickle::of(&first, 9), Trickle::of(b"", 9), 100);
    let mut buffer1 = Vec::new();
    let mut buffer2 = Vec::new();
    assert!(matches!(
        reader.fill_buf(&mut buffer1, &mut buffer2),
        Err(ReadError::LengthMismatch)
    ));
    let mut reader = PairedByteReader::new(Trickle::of(b"", 9), Trickle::of(&first, 9), 100);
    assert!(matches!(reader.read(), Err(ReadError::LengthMismatch)));
}

#[test]
fn two_empty_files_end_at_once() {
    let mut reader = PairedByteReader::new(Trickle::of(b"", 9), Trickle::of(b"", 9), 100);
    assert!(!reader.done());
    assert!(!reader.invalid());
    let mut buffer1 = vec![1u8; 2];
    let mut buffer2 = vec![2u8; 2];
    assert_eq!(reader.fill_buf(&mut buffer1, &mut buffer2).unwrap(), None);
    assert!(reader.done());
    assert_eq!(buffer1, vec![1u8; 2]);
    assert_eq!(buffer2, vec![2u8; 2]);
}

#[test]
fn last_records_without_line_feed_are_the_final_chunks() {
    let first = b"@r0\nACGT\n+\nIIII\n@r1\nACGT\n+\nIIII".to_vec();
    let second = b"@r0\nAC\n+\nII\n@r1\nAC\n+\nII".to_vec();
    let mut reader = PairedByteReader::new(Trickle::of(&first, 9), Trickle::of(&second, 9), 100);
    let mut buffer1 = Vec::new();
    let mut buffer2 = Vec::new();
    assert_eq!(reader.fill_buf(&mut buffer1, &mut buffer2).unwrap(), Some((16, 12)));
    assert_eq!(reader.fill_buf(&mut buffer1, &mut buffer2).unwrap(), Some((15, 11)));
    assert_eq!(&buffer1[..15], &first[16..]);
    assert_eq!(&buffer2[..11], &second[12..]);
    assert_eq!(reader.fill_buf(&mut buffer1, &mut buffer2).unwrap(), None);
}

#[test]
fn record_longer_than_the_buffer_is_too_large() {
    let first = short_records(3);
    let second = short_records(3);
    let mut reader = PairedByteReader::new(Trickle::of(&first, 9), Trickle::of(&second, 9), 10);
    let mut buffer1 = Vec::new();
    let mut buffer2 = Vec::new();
    assert!(matches!(
        reader.fill_buf(&mut buffer1, &mut buffer2),
        Err(ReadError::RecordTooLarge)
    ));
    let long = long_records(3);
    let mut reader = PairedByteReader::new(Trickle::of(&first, 9), Trickle::of(&long, 9), 20);
    assert!(matches!(
        reader.fill_buf(&mut buffer1, &mut buffer2),
        Err(ReadError::RecordTooLarge)
    ));
    let mut reader = PairedByteReader::new(Trickle::of(&first, 9), Trickle::of(&second, 9), 0);
    assert!(matches!(
        reader.fill_buf(&mut buffer1, &mut buffer2),
        Err(ReadError::RecordTooLarge)
    ));
}

#[test]
fn stream_that_does_not_begin_with_at_is_a_boundary_error() {
    let good = short_records(2);
    let mut bad = short_records(2);
    bad[0] = b'>';
    let mut buffer1 = Vec::new();
    let mut buffer2 = Vec::new();
    let mut reader = PairedByteReader::new(Trickle::of(&bad, 9), Trickle::of(&good, 9), 100);
    assert!(matches!(reader.fill_both_buffs(), Err(ReadError::Boundary)));
    assert!(matches!(reader.read(), Err(ReadError::Boundary)));
    assert!(matches!(reader.fill_buf(&mut buffer1, &mut buffer2), Err(ReadError::Boundary)));
    let mut reader = PairedByteReader::new(Trickle::of(&good, 9), Trickle::of(&bad, 9), 100);
    assert!(matches!(reader.fill_buf(&mut buffer1, &mut buffer2), Err(ReadError::Boundary)));
}

#[test]
fn remainder_that_does_not_begin_with_at_is_a_boundary_error() {
    let good = short_records(1);
    let mut bad = short_records(1);
    bad.extend_from_slice(b"junk");
    let mut buffer1 = Vec::new();
    let mut buffer2 = Vec::new();
    let mut reader = PairedByteReader::new(Trickle::of(&bad, 9), Trickle::of(&good, 9), 100);
    assert!(matches!(reader.fill_buf(&mut buffer1, &mut buffer2), Err(ReadError::Boundary)));
    assert!(buffer1.is_empty());
    assert!(buffer2.is_empty());
}

#[test]
fn failure_of_either_source_is_handed_on() {
    let good = short_records(1);
    let mut buffer1 = Vec::new();
    let mut buffer2 = Vec::new();
    let mut reader = PairedByteReader::new(Broken, Broken, 100);
    match reader.fill_buf(&mut buffer1, &mut buffer2) {
        Err(ReadError::Io(e)) => assert_eq!(e.kind(), std::io::ErrorKind::PermissionDenied),
        _ => panic!("the failure of the source was not handed on"),
    }
    assert!(matches!(reader.fill_both_buffs(), Err(ReadError::Io(_))));
    assert!(matches!(reader.read(), Err(ReadError::Io(_))));
    let _ = good;
}

#[test]
fn read_fills_once_and_then_reports_the_end() {
    let first = short_records(2);
    let second = short_records(2);
    let mut reader = PairedByteReader::new(Trickle::of(&first, 9), Trickle::of(&second, 9), 100);
    assert!(!reader.done());
    assert_eq!(reader.read().unwrap(), Some(()));
    assert!(!reader.done());
    assert!(!reader.invalid());
    assert_eq!(reader.read().unwrap(), None);
    assert!(reader.fill_both_buffs().is_ok());
    let mut buffer1 = Vec::new();
    let mut buffer2 = Vec::new();
    assert_eq!(reader.fill_buf(&mut buffer1, &mut buffer2).unwrap(), Some((32, 32)));
    assert!(reader.done());
}

#[test]
fn end_of_lines_passes_the_lines() {
    let text = b"a\nb\n\nc";
    assert_eq!(end_of_lines(text, 0), 0);
    assert_eq!(end_of_lines(text, 1), 2);
    assert_eq!(end_of_lines(text, 2), 4);
    assert_eq!(end_of_lines(text, 3), 5);
    assert_eq!(end_of_lines(b"\n", 1), 1);
    assert_eq!(end_of_lines(b"", 0), 0);
}

#[test]
fn cut_pair_names_each_case() {
    let one = b"@a\nA\n+\n!\n".to_vec();
    let two = b"@a\nA\n+\n!\n@b\nCC\n+\n!!\n".to_vec();
    let open_end = b"@a\nA\n+\n!".to_vec();
    assert_eq!(cut_pair(b"", b"", true, true), PairCut::Drained);
    assert_eq!(cut_pair(b"", b"", true, false), PairCut::TooLarge);
    assert_eq!(cut_pair(b"", b"", false, false), PairCut::TooLarge);
    assert_eq!(cut_pair(&one, b"", true, true), PairCut::Mismatch);
    assert_eq!(cut_pair(b"", &one, false, false), PairCut::Mismatch);
    assert_eq!(cut_pair(b"x", b"", true, true), PairCut::Misaligned);
    assert_eq!(cut_pair(&one, b"x\n\n\n\n", true, true), PairCut::Misaligned);
    assert_eq!(cut_pair(&one, &one, false, false), PairCut::Take(9, 9));
    assert_eq!(cut_pair(&two, &one, false, false), PairCut::Take(9, 9));
    assert_eq!(cut_pair(&one, &two, true, true), PairCut::Take(9, 9));
    assert_eq!(cut_pair(&two, &two, true, false), PairCut::Take(20, 20));
    assert_eq!(cut_pair(&open_end, &one, false, true), PairCut::TooLarge);
    assert_eq!(cut_pair(&open_end, &one, true, false), PairCut::TooLarge);
    assert_eq!(cut_pair(&open_end, &one, true, true), PairCut::Take(8, 9));
    assert_eq!(cut_pair(&open_end, &two, true, true), PairCut::Take(8, 20));
    assert_eq!(cut_pair(b"@a\nA\n+\n!\nx", &one, true, true), PairCut::Misaligned);
    assert_eq!(cut_pair(&one, b"@a\nA\n+\n!\nx", false, false), PairCut::Misaligned);
}

fn paired_heads(
    first: &[u8],
    second: &[u8],
    capacity: usize,
) -> Result<Vec<(Vec<u8>, Vec<u8>)>, ReadError> {
    let mut reader = PairedByteReader::new(Trickle::of(first, 7), Trickle::of(second, 5), capacity);
    let mut scanner = PairedFastqReader::new(capacity);
    let mut heads = Vec::new();
    while let Some(()) = scanner.load_batch_par(&mut reader)? {
        while let Some(step) = scanner.next() {
            let (record1, record2) = step?;
            heads.push((record1.head().to_vec(), record2.seq().to_vec()));
        }
    }
    Ok(heads)
}

#[test]
fn pairs_come_once_for_each_record_with_matching_heads() {
    let first = short_records(37);
    let second = long_records(37);
    for capacity in [25, 60, 200, 4096] {
        let heads = paired_heads(&first, &second, capacity).unwrap();
        assert_eq!(heads.len(), 37);
        for (i, (head, seq)) in heads.iter().enumerate() {
            assert_eq!(head, format!("r{}", i % 10).as_bytes());
            assert_eq!(seq, b"ACGTACGT");
        }
    }
}

#[test]
fn one_record_less_in_a_file_is_reported_and_no_lone_record_returned() {
    let first = short_records(9);
    let second = long_records(8);
    for capacity in [25, 60, 200, 4096] {
        let mut reader =
            PairedByteReader::new(Trickle::of(&first, 7), Trickle::of(&second, 5), capacity);
        let mut scanner = PairedFastqReader::new(capacity);
        let mut pairs = 0;
        let outcome = loop {
            match scanner.load_batch_par(&mut reader) {
                Ok(Some(())) => {
                    while let Some(step) = scanner.next() {
                        assert!(step.is_ok());
                        pairs += 1;
                    }
                },
                other => break other,
            }
        };
        assert!(matches!(outcome, Err(ReadError::LengthMismatch)));
        assert_eq!(pairs, 8);
    }
}

#[test]
fn unequal_final_chunks_are_a_length_mismatch_in_the_scanner() {
    let first = b"@a\nA\n+\n!\n@b\nC\n+\n!".to_vec();
    let second = b"@a\nA\n+\n!".to_vec();
    let mut reader = PairedByteReader::new(Trickle::of(&first, 7), Trickle::of(&second, 5), 100);
    let mut scanner = PairedFastqReader::new(10);
    assert_eq!(scanner.load_batch_par(&mut reader).unwrap(), Some(()));
    let (buffer1, buffer2) = scanner.buffers();
    assert_eq!(buffer1, &first[..]);
    assert_eq!(buffer2, &second[..]);
    let (record1, record2) = scanner.next().unwrap().unwrap();
    assert_eq!(record1.head(), b"a");
    assert_eq!(record2.head(), b"a");
    assert!(matches!(scanner.next(), Some(Err(ReadError::LengthMismatch))));
    assert!(matches!(scanner.next(), Some(Err(ReadError::LengthMismatch))));
}

#[test]
fn paired_scanner_returns_one_view_of_each_buffer() {
    let first = b"@a\nAAAA\n+\n!!!!\n@b\nCC\n+\n##\n".to_vec();
    let second = b"@x\nG\n+\n$\n@y\nTTT\n+\n%%%\n".to_vec();
    let mut reader = PairedByteReader::new(Trickle::of(&first, 7), Trickle::of(&second, 5), 100);
    let mut scanner = PairedFastqReader::new(100);
    assert_eq!(scanner.load_batch_par(&mut reader).unwrap(), Some(()));
    {
        let (record1, record2) = scanner.next_position().unwrap();
        assert_eq!(record1.head(), b"a");
        assert_eq!(record1.seq(), b"AAAA");
        assert_eq!(record2.head(), b"x");
        assert_eq!(record2.seq(), b"G");
        assert_eq!(record2.qual(), b"$");
    }
    {
        let (record1, record2) = scanner.next_position().unwrap();
        assert_eq!(record1.head(), b"b");
        assert_eq!(record1.qual(), b"##");
        assert_eq!(record2.head(), b"y");
        assert_eq!(record2.seq(), b"TTT");
        assert_eq!(record2.buf_pos.pos, (9, 21));
    }
    assert!(scanner.next_position().is_none());
    assert!(scanner.next().is_none());
    assert_eq!(scanner.load_batch_par(&mut reader).unwrap(), None);
    let (buffer1, buffer2) = scanner.buffers();
    assert_eq!(buffer1, &first[..]);
    assert_eq!(buffer2, &second[..]);
}

#[test]
fn broken_record_in_a_pair_is_a_boundary_error() {
    let first = b"@a\nA\n+\n!\n@b\nC\n-\n!\n".to_vec();
    let second = b"@a\nA\n+\n!\n@b\nC\n+\n!\n".to_vec();
    let mut reader = PairedByteReader::new(Trickle::of(&first, 7), Trickle::of(&second, 5), 100);
    let mut scanner = PairedFastqReader::new(100);
    assert_eq!(scanner.load_batch_par(&mut reader).unwrap(), Some(()));
    assert!(scanner.next().unwrap().is_ok());
    assert!(matches!(scanner.next(), Some(Err(ReadError::Boundary))));
}

struct Coin(u64);

impl Coin {
    fn toss(&mut self, sides: usize) -> usize {
        self.0 = self.0.wrapping_mul(6364136223846793005).wrapping_add(1442695040888963407);
        ((self.0 >> 33) as usize) % sides
    }
}

fn random_file(coin: &mut Coin, count: usize) -> Vec<u8> {
    let letters = b"ACGTN";
    let scores = b"@+!#I5~";
    let mut text = Vec::new();
    for i in 0..count {
        let ending: &[u8] = if coin.toss(4) == 0 { b"\r\n" } else { b"\n" };
        let n = coin.toss(30);
        text.extend_from_slice(format!("@read{}/{}", i, coin.toss(3)).as_bytes());
        text.extend_from_slice(ending);
        for _ in 0..n {
            text.push(letters[coin.toss(5)]);
        }
        text.extend_from_slice(ending);
        text.push(b'+');
        text.extend_from_slice(ending);
        for _ in 0..n {
            text.push(scores[coin.toss(7)]);
        }
        text.extend_from_slice(ending);
    }
    text
}

#[test]
fn random_paired_files_give_one_pair_for_each_record() {
    let mut coin = Coin(11);
    for round in 0..40 {
        let count = 1 + round % 29;
        let first = random_file(&mut coin, count);
        let second = random_file(&mut coin, count);
        let capacity = 80 + coin.toss(400);
        let mut reader = PairedByteReader::new(
            Trickle::of(&first, 1 + coin.toss(50)),
            Trickle::of(&second, 1 + coin.toss(50)),
            capacity,
        );
        let mut scanner = PairedFastqReader::new(capacity);
        let mut pairs = 0;
        while let Some(()) = scanner.load_batch_par(&mut reader).unwrap() {
            while let Some(step) = scanner.next() {
                let (record1, record2) = step.unwrap();
                let name = format!("read{}/", pairs);
                assert!(record1.head().starts_with(name.as_bytes()));
                assert!(record2.head().starts_with(name.as_bytes()));
                assert!(record1.valid());
                assert!(record2.valid());
                pairs += 1;
            }
        }
        assert_eq!(pairs, count);
    }
}

#[test]
fn random_paired_files_of_unequal_length_are_reported() {
    let mut coin = Coin(3);
    for round in 0..40 {
        let count = 2 + round % 29;
        let first = random_file(&mut coin, count);
        let second = random_file(&mut coin, count - 1);
        let capacity = 160 + coin.toss(400);
        let (first, second) = if round % 2 == 0 { (first, second) } else { (second, first) };
        let mut reader = PairedByteReader::new(
            Trickle::of(&first, 1 + coin.toss(50)),
            Trickle::of(&second, 1 + coin.toss(50)),
            capacity,
        );
        let mut scanner = PairedFastqReader::new(capacity);
        let mut pairs = 0;
        let outcome = loop {
            match scanner.load_batch_par(&mut reader) {
                Ok(Some(())) => {
                    while let Some(step) = scanner.next() {
                        assert!(step.is_ok());
                        pairs += 1;
                    }
                },
                other => break other,
            }
        };
        assert!(matches!(outcome, Err(ReadError::LengthMismatch)));
        assert_eq!(pairs, count - 1);
    }
}

#[test]
fn open_last_record_of_the_shorter_file_needs_room_for_the_rest_of_the_longer() {
    let first = short_records(3);
    let second = b"@r0\nACGT\n+\nIIII\n@r1\nACGT\n+\nIIII".to_vec();
    let mut roomy = PairedByteReader::new(Trickle::of(&first, 9), Trickle::of(&second, 9), 100);
    let mut scanner = PairedFastqReader::new(100);
    assert_eq!(scanner.load_batch_par(&mut roomy).unwrap(), Some(()));
    assert!(scanner.next().unwrap().is_ok());
    assert!(scanner.next().is_none());
    assert_eq!(scanner.load_batch_par(&mut roomy).unwrap(), Some(()));
    assert!(scanner.next().unwrap().is_ok());
    assert!(matches!(scanner.next(), Some(Err(ReadError::LengthMismatch))));

    let mut tight = PairedByteReader::new(Trickle::of(&first, 9), Trickle::of(&second, 9), 20);
    let mut buffer1 = Vec::new();
    let mut buffer2 = Vec::new();
    assert_eq!(tight.fill_buf(&mut buffer1, &mut buffer2).unwrap(), Some((16, 16)));
    assert!(matches!(
        tight.fill_buf(&mut buffer1, &mut buffer2),
        Err(ReadError::RecordTooLarge)
    ));
}

#[test]
fn loading_a_pair_that_fails_leaves_the_chunks() {
    let first = short_records(3);
    let second = short_records(2);
    let mut reader = PairedByteReader::new(Trickle::of(&first, 9), Trickle::of(&second, 9), 100);
    let mut scanner = PairedFastqReader::new(10);
    assert_eq!(scanner.load_batch_par(&mut reader).unwrap(), Some(()));
    assert!(scanner.next().unwrap().is_ok());
    assert!(matches!(scanner.load_batch_par(&mut reader), Err(ReadError::LengthMismatch)));
    let (buffer1, buffer2) = scanner.buffers();
    assert_eq!(buffer1, &first[..32]);
    assert_eq!(buffer2, &second[..]);
    let (record1, record2) = scanner.next().unwrap().unwrap();
    assert_eq!(record1.buf_pos.pos, (0, 15));
    assert_eq!(record2.buf_pos.pos, (0, 15));
}

struct Counted {
    data: Vec<u8>,
    at: usize,
    pulls: std::rc::Rc<std::cell::Cell<usize>>,
    asked: std::rc::Rc<std::cell::Cell<usize>>,
}

impl ByteSource for Counted {
    fn pull(&mut self, max: usize) -> Result<Vec<u8>, std::io::Error> {
        self.pulls.set(self.pulls.get() + 1);
        self.asked.set(max);
        let n = max.min(5).min(self.data.len() - self.at);
        let piece = self.data[self.at..self.at + n].to_vec();
        self.at += n;
        Ok(piece)
    }
}

#[test]
fn filled_paired_reader_asks_no_source() {
    let text = short_records(4);
    let pulls = std::rc::Rc::new(std::cell::Cell::new(0));
    let asked = std::rc::Rc::new(std::cell::Cell::new(0));
    let source = |text: &[u8]| Counted {
        data: text.to_vec(),
        at: 0,
        pulls: pulls.clone(),
        asked: asked.clone(),
    };
    let mut reader = PairedByteReader::new(source(&text), source(&text), 20);
    assert!(reader.fill_both_buffs().is_ok());
    assert_eq!(pulls.get(), 8);
    assert_eq!(asked.get(), 5);
    assert!(reader.fill_both_buffs().is_ok());
    assert_eq!(reader.read().unwrap(), Some(()));
    assert_eq!(pulls.get(), 8);
}
