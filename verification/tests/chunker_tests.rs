use teledustry::chunker::chunk_frame;
use teledustry::frame::OutputFrame;

fn frame_of(lines: Vec<&[u8]>) -> OutputFrame {
    OutputFrame::from_lines(lines.into_iter().map(|l| l.to_vec()).collect())
}

fn concat(chunks: &[teledustry::chunker::Chunk]) -> Vec<u8> {
    let mut all = Vec::new();
    for c in chunks {
        all.extend_from_slice(&c.text);
    }
    all
}

#[test]
fn empty_frame_yields_zero_chunks() {
    let frame = frame_of(vec![]);
    let chunks = chunk_frame(&frame, 4096);
    assert!(chunks.is_empty());
}

#[test]
fn concatenation_reproduces_the_joined_text() {
    let frame = frame_of(vec![b"alpha", b"beta", b"gamma", b"", b"delta"]);
    let chunks = chunk_frame(&frame, 8);
    assert_eq!(concat(&chunks), b"alpha\nbeta\ngamma\n\ndelta\n".to_vec());
    for (i, c) in chunks.iter().enumerate() {
        assert_eq!(c.sequence_index, i);
        assert!(c.text.len() <= 8);
        assert!(!c.text.is_empty());
    }
}

#[test]
fn scenario_exact_double_limit_gives_two_full_chunks() {
    // Joined text of length exactly 2 * max, split over lines of equal
    // size, comes out as exactly two chunks, each within the limit.
    let frame = frame_of(vec![b"abc", b"xyz"]);
    assert_eq!(frame.byte_length, 8);
    let chunks = chunk_frame(&frame, 4);
    assert_eq!(chunks.len(), 2);
    assert_eq!(chunks[0].text, b"abc\n".to_vec());
    assert_eq!(chunks[1].text, b"xyz\n".to_vec());
}

#[test]
fn single_oversized_line_is_emitted_alone() {
    let frame = frame_of(vec![b"ok", b"this line is far too long", b"end"]);
    let chunks = chunk_frame(&frame, 8);
    assert_eq!(chunks[0].text, b"ok\n".to_vec());
    assert_eq!(chunks[1].text, b"this line is far too long\n".to_vec());
    assert_eq!(chunks[2].text, b"end\n".to_vec());
    assert_eq!(concat(&chunks), frame_joined(&frame));
}

fn frame_joined(frame: &OutputFrame) -> Vec<u8> {
    let mut all = Vec::new();
    for l in &frame.lines {
        all.extend_from_slice(l);
        all.push(b'\n');
    }
    all
}

#[test]
fn greedy_packing_fills_chunks_first_fit() {
    // max 10: "aa\n" (3) + "bbb\n" (4) = 7, "cccc\n" (5) would overflow.
    let frame = frame_of(vec![b"aa", b"bbb", b"cccc", b"d"]);
    let chunks = chunk_frame(&frame, 10);
    assert_eq!(chunks.len(), 2);
    assert_eq!(chunks[0].text, b"aa\nbbb\n".to_vec());
    assert_eq!(chunks[1].text, b"cccc\nd\n".to_vec());
}

#[test]
fn one_short_frame_is_one_chunk() {
    let frame = frame_of(vec![b"hello"]);
    let chunks = chunk_frame(&frame, 4096);
    assert_eq!(chunks.len(), 1);
    assert_eq!(chunks[0].text, b"hello\n".to_vec());
    assert_eq!(chunks[0].sequence_index, 0);
}
