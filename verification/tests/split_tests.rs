use splitter::join::join_bytes;
use splitter::split::{split_bytes, SplitStep, Splitter};

fn sample(len: usize) -> Vec<u8> {
    let mut data = Vec::new();
    let mut i: usize = 0;
    while i < len {
        data.push((i * 7 + 3) as u8);
        i += 1;
    }
    data
}

#[test]
fn split_cuts_full_chunks_and_a_rest() {
    let data = sample(10);
    let parts = split_bytes(&data, 4).unwrap();
    assert_eq!(parts.len(), 3);
    assert_eq!(parts[0], data[0..4].to_vec());
    assert_eq!(parts[1], data[4..8].to_vec());
    assert_eq!(parts[2], data[8..10].to_vec());
}

#[test]
fn split_of_an_exact_multiple_has_no_short_part() {
    let data = sample(12);
    let parts = split_bytes(&data, 4).unwrap();
    assert_eq!(parts.len(), 3);
    assert_eq!(parts[2].len(), 4);
}

#[test]
fn split_of_an_empty_stream_has_no_parts() {
    let parts = split_bytes(&[], 4).unwrap();
    assert_eq!(parts.len(), 0);
}

#[test]
fn split_with_a_large_chunk_gives_one_part() {
    let data = sample(5);
    let parts = split_bytes(&data, 100).unwrap();
    assert_eq!(parts, vec![data.clone()]);
    let exact = split_bytes(&data, 5).unwrap();
    assert_eq!(exact, vec![data]);
}

#[test]
fn split_refuses_a_chunk_size_of_zero() {
    assert_eq!(split_bytes(&sample(5), 0), None);
    assert_eq!(split_bytes(&[], 0), None);
}

#[test]
fn part_count_and_sizes() {
    let mut size: usize = 0;
    while size <= 40 {
        let data = sample(size);
        let mut c: usize = 1;
        while c <= 12 {
            let parts = split_bytes(&data, c).unwrap();
            let count = (size + c - 1) / c;
            assert_eq!(parts.len(), count);
            let mut i: usize = 0;
            while i + 1 < count {
                assert_eq!(parts[i].len(), c);
                i += 1;
            }
            if count > 0 {
                assert_eq!(parts[count - 1].len(), size - c * (count - 1));
            }
            c += 1;
        }
        size += 1;
    }
}

#[test]
fn split_then_join_gives_the_stream_back() {
    let mut size: usize = 0;
    while size <= 40 {
        let data = sample(size);
        let mut c: usize = 1;
        while c <= 12 {
            let parts = split_bytes(&data, c).unwrap();
            assert_eq!(join_bytes(&parts), data);
            c += 1;
        }
        size += 1;
    }
}

#[test]
fn splitter_refuses_a_chunk_size_of_zero() {
    assert!(Splitter::new(0).is_none());
    assert!(Splitter::new(1).is_some());
}

#[test]
fn splitter_starts_empty() {
    let s = Splitter::new(8).unwrap();
    assert_eq!(s.chunk_size(), 8);
    assert_eq!(s.parts_written(), 0);
    assert_eq!(s.buffered(), 0);
    assert!(!s.is_finished());
}

#[test]
fn splitter_with_full_reads() {
    let mut s = Splitter::new(4).unwrap();
    assert_eq!(s.on_read(4), SplitStep::Write { index: 1, len: 4, last: false });
    assert_eq!(s.on_read(4), SplitStep::Write { index: 2, len: 4, last: false });
    assert_eq!(s.on_read(2), SplitStep::Fill { offset: 2 });
    assert_eq!(s.on_read(0), SplitStep::Write { index: 3, len: 2, last: true });
    assert!(s.is_finished());
    assert_eq!(s.parts_written(), 3);
    assert_eq!(s.on_read(0), SplitStep::Done);
}

#[test]
fn splitter_fills_the_buffer_over_short_reads() {
    let mut s = Splitter::new(5).unwrap();
    assert_eq!(s.on_read(2), SplitStep::Fill { offset: 2 });
    assert_eq!(s.buffered(), 2);
    assert_eq!(s.on_read(1), SplitStep::Fill { offset: 3 });
    assert_eq!(s.on_read(2), SplitStep::Write { index: 1, len: 5, last: false });
    assert_eq!(s.buffered(), 0);
    assert_eq!(s.parts_written(), 1);
    assert_eq!(s.on_read(0), SplitStep::Done);
    assert!(s.is_finished());
}

#[test]
fn splitter_on_an_empty_stream_writes_nothing() {
    let mut s = Splitter::new(5).unwrap();
    assert_eq!(s.on_read(0), SplitStep::Done);
    assert_eq!(s.parts_written(), 0);
    assert!(s.is_finished());
    assert_eq!(s.on_read(0), SplitStep::Done);
}

#[test]
fn splitter_stays_done() {
    let mut s = Splitter::new(3).unwrap();
    assert_eq!(s.on_read(1), SplitStep::Fill { offset: 1 });
    assert_eq!(s.on_read(0), SplitStep::Write { index: 1, len: 1, last: true });
    assert_eq!(s.on_read(2), SplitStep::Done);
    assert_eq!(s.on_read(0), SplitStep::Done);
    assert_eq!(s.parts_written(), 1);
}

fn stream_split(data: &[u8], chunk_size: usize, read_sizes: &[usize]) -> Vec<(u64, Vec<u8>)> {
    let mut s = Splitter::new(chunk_size).unwrap();
    let mut buffer = vec![0u8; chunk_size];
    let mut written: Vec<(u64, Vec<u8>)> = Vec::new();
    let mut pos: usize = 0;
    let mut offset: usize = 0;
    let mut turn: usize = 0;
    loop {
        let want = read_sizes[turn % read_sizes.len()];
        turn += 1;
        let room = chunk_size - offset;
        let n = want.min(room).min(data.len() - pos);
        buffer[offset..offset + n].copy_from_slice(&data[pos..pos + n]);
        pos += n;
        match s.on_read(n) {
            SplitStep::Fill { offset: o } => offset = o,
            SplitStep::Write { index, len, last } => {
                written.push((index, buffer[..len].to_vec()));
                if last {
                    break;
                }
                offset = 0;
            }
            SplitStep::Done => break,
            SplitStep::TooManyParts => panic!("too many parts"),
        }
    }
    written
}

#[test]
fn splitter_writes_the_chunks_whatever_the_reads() {
    let patterns: [&[usize]; 4] = [&[1000], &[1], &[3, 1, 2], &[2, 7]];
    let mut size: usize = 0;
    while size <= 30 {
        let data = sample(size);
        let mut c: usize = 1;
        while c <= 9 {
            let expected = split_bytes(&data, c).unwrap();
            for pattern in patterns.iter() {
                let written = stream_split(&data, c, pattern);
                assert_eq!(written.len(), expected.len());
                let mut i: usize = 0;
                while i < written.len() {
                    assert_eq!(written[i].0, (i + 1) as u64);
                    assert_eq!(written[i].1, expected[i]);
                    i += 1;
                }
            }
            c += 1;
        }
        size += 1;
    }
}
