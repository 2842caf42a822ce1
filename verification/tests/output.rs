use fishbowl::wutil::output::{
    unescape_bytes_and_write_to_fd, write_blocks, Progress, WriteResult, CAPACITY,
};

/// The bytes of each character; bytes that are no part of one stand alone.
fn chunks_of(input: &[u8]) -> Vec<Vec<u8>> {
    let mut chunks = Vec::new();
    for part in input.utf8_chunks() {
        for c in part.valid().chars() {
            let mut buf = [0u8; 4];
            chunks.push(c.encode_utf8(&mut buf).as_bytes().to_vec());
        }
        for &b in part.invalid() {
            chunks.push(vec![b]);
        }
    }
    chunks
}

/// Writes everything to a sink that takes at most `most` bytes at once.
fn write_all(input: &[u8], most: usize) -> (Option<usize>, Vec<u8>) {
    let mut sink = Vec::new();
    let mut out = unescape_bytes_and_write_to_fd(&chunks_of(input));
    while !out.pending().is_empty() {
        let n = out.pending().len().min(most);
        sink.extend_from_slice(&out.pending()[..n]);
        out.accept(WriteResult::Wrote(n));
    }
    (out.outcome(), sink)
}

#[test]
fn test_wwrite_to_fd() {
    let sizes = [1, 2, 3, 5, 13, 23, 64, 128, 255, 4096, 4096 * 2];
    let mut state: u64 = 0x1234_5678_9abc_def1;
    for size in sizes {
        let mut input: Vec<u8> = Vec::new();
        for _ in 0..size {
            state ^= state << 13;
            state ^= state >> 7;
            state ^= state << 17;
            input.push((state >> 24) as u8);
        }
        for most in [1, 7, 512, usize::MAX] {
            let (amt, contents) = write_all(&input, most);
            assert_eq!(amt, Some(input.len()));
            assert_eq!(contents, input);
        }
    }
}

#[test]
fn small_chunks_are_gathered() {
    let chunks: Vec<Vec<u8>> = (0..1000u32).map(|i| vec![i as u8]).collect();
    let blocks = write_blocks(&chunks);
    assert_eq!(blocks.len(), 2);
    assert_eq!(blocks[0].len(), CAPACITY);
    assert_eq!(blocks[1].len(), 1000 - CAPACITY);
    assert_eq!(blocks.concat(), chunks.concat());
}

#[test]
fn large_chunks_are_written_at_once() {
    let chunks = vec![vec![1u8; 10], vec![2u8; 600], vec![3u8; 4], vec![4u8; 509], vec![]];
    let lens: Vec<usize> = write_blocks(&chunks).iter().map(|b| b.len()).collect();
    assert_eq!(lens, [10, 600, 4, 509]);
    assert_eq!(write_blocks(&chunks).concat(), chunks.concat());
    assert!(write_blocks(&[]).is_empty());
}

#[test]
fn a_chunk_that_just_fits() {
    let chunks = vec![vec![1u8; 500], vec![2u8; 12], vec![3u8; 1]];
    let lens: Vec<usize> = write_blocks(&chunks).iter().map(|b| b.len()).collect();
    assert_eq!(lens, [512, 1]);
}

#[test]
fn empty_output_is_done_at_once() {
    let out = unescape_bytes_and_write_to_fd(&[]);
    assert!(out.pending().is_empty());
    assert_eq!(out.outcome(), Some(0));
}

#[test]
fn interrupted_writes_are_repeated() {
    let mut out = unescape_bytes_and_write_to_fd(&chunks_of(b"hello"));
    assert_eq!(out.accept(WriteResult::Wrote(2)), Progress::More);
    assert_eq!(out.accept(WriteResult::Interrupted { cancelled: false }), Progress::More);
    assert_eq!(out.pending(), b"llo");
    assert_eq!(out.outcome(), None);
    assert_eq!(out.accept(WriteResult::Wrote(0)), Progress::More);
    assert_eq!(out.accept(WriteResult::Wrote(3)), Progress::Done);
    assert_eq!(out.outcome(), Some(5));
}

#[test]
fn failed_writes_end_the_output() {
    for (result, progress) in [
        (WriteResult::Interrupted { cancelled: true }, Progress::Aborted),
        (WriteResult::BrokenPipe, Progress::Aborted),
        (WriteResult::Failed, Progress::Report),
    ] {
        let mut out = unescape_bytes_and_write_to_fd(&chunks_of(b"hello"));
        assert_eq!(out.accept(WriteResult::Wrote(1)), Progress::More);
        assert_eq!(out.accept(result), progress);
        assert!(out.pending().is_empty());
        assert_eq!(out.outcome(), None);
        assert_eq!(out.total, 1);
    }
}
