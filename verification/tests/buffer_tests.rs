use seqrun::buffer::CapturedOutput;
use seqrun::buffer::Fragment;
use seqrun::buffer::OutputBuffer;
use seqrun::buffer::Stream;
use seqrun::buffer::finalize_outcome;
use seqrun::buffer::write_fragment;

fn flatten(head: &[Fragment], tail: &[Fragment]) -> Vec<u8> {
    let mut bytes = Vec::new();
    for fragment in head {
        bytes.extend_from_slice(&fragment.data);
    }
    for fragment in tail {
        bytes.extend_from_slice(&fragment.data);
    }
    bytes
}

#[test]
fn keeps_complete_output_when_within_limit() {
    let mut output = OutputBuffer::new(10);
    output.push(Stream::Stdout, b"hello");
    output.push(Stream::Stderr, b"!");

    let output = output.finish();
    assert!(!output.truncated);
    assert_eq!(flatten(&output.head, &output.tail), b"hello!");
}

#[test]
fn keeps_start_and_end_when_truncated() {
    let mut output = OutputBuffer::new(10);
    output.push(Stream::Stdout, b"0123456789ABCDE");

    let output = output.finish();
    assert!(output.truncated);
    assert_eq!(flatten(&output.head, &output.tail), b"01234ABCDE");
}

#[test]
fn window_lengths_stay_within_budget() {
    let mut buffer = OutputBuffer::new(10);
    buffer.push(Stream::Stdout, b"abcdefgh");
    buffer.push(Stream::Stderr, b"ijklmnop");
    buffer.push(Stream::Stdout, b"qrstuvwx");
    assert!(buffer.head_len <= 5);
    assert!(buffer.tail_len <= 5);
    assert!(buffer.head_len + buffer.tail_len <= 10);
}

#[test]
fn total_len_counts_every_pushed_byte() {
    let mut buffer = OutputBuffer::new(6);
    buffer.push(Stream::Stdout, b"aaaa");
    buffer.push(Stream::Stderr, b"bbbbb");
    buffer.push(Stream::Stdout, b"cc");
    assert_eq!(buffer.total_len, 11);
    let output = buffer.finish();
    assert_eq!(output.total_len, 11);
}

#[test]
fn truncated_flag_tracks_limit() {
    let mut within = OutputBuffer::new(8);
    within.push(Stream::Stdout, b"12345678");
    let within = within.finish();
    assert!(!within.truncated);

    let mut over = OutputBuffer::new(8);
    over.push(Stream::Stdout, b"123456789");
    let over = over.finish();
    assert!(over.truncated);
}

#[test]
fn empty_push_changes_nothing() {
    let mut buffer = OutputBuffer::new(10);
    buffer.push(Stream::Stdout, b"abc");
    let total_before = buffer.total_len;
    let head_len_before = buffer.head_len;
    let tail_len_before = buffer.tail_len;
    let head_frags_before = buffer.head.len();
    let tail_frags_before = buffer.tail.len();

    buffer.push(Stream::Stderr, b"");

    assert_eq!(buffer.total_len, total_before);
    assert_eq!(buffer.head_len, head_len_before);
    assert_eq!(buffer.tail_len, tail_len_before);
    assert_eq!(buffer.head.len(), head_frags_before);
    assert_eq!(buffer.tail.len(), tail_frags_before);
}

#[test]
fn chunk_split_at_head_tail_boundary() {
    let mut buffer = OutputBuffer::new(4);
    buffer.push(Stream::Stdout, b"abc");
    buffer.push(Stream::Stdout, b"def");
    let output = buffer.finish();
    assert!(output.truncated);
    assert_eq!(flatten(&output.head, &output.tail), b"abef");
}

#[test]
fn same_stream_fragments_coalesce() {
    let mut buffer = OutputBuffer::new(100);
    buffer.push(Stream::Stdout, b"one");
    buffer.push(Stream::Stdout, b"two");
    buffer.push(Stream::Stderr, b"three");
    buffer.push(Stream::Stdout, b"four");
    let output = buffer.finish();
    assert_eq!(output.head.len(), 3);
    assert_eq!(output.head[0].stream, Stream::Stdout);
    assert_eq!(output.head[0].data, b"onetwo");
    assert_eq!(output.head[1].stream, Stream::Stderr);
    assert_eq!(output.head[1].data, b"three");
    assert_eq!(output.head[2].stream, Stream::Stdout);
    assert_eq!(output.head[2].data, b"four");
}

#[test]
fn tail_trims_oldest_bytes_first() {
    let mut buffer = OutputBuffer::new(4);
    buffer.push(Stream::Stdout, b"ab");
    buffer.push(Stream::Stderr, b"cd");
    buffer.push(Stream::Stdout, b"ef");
    buffer.push(Stream::Stderr, b"gh");
    let output = buffer.finish();
    assert!(output.truncated);
    assert_eq!(flatten(&output.head, &output.tail), b"abgh");
    assert_eq!(output.tail.len(), 1);
    assert_eq!(output.tail[0].stream, Stream::Stderr);
}

#[test]
fn omitted_count_reports_discarded_bytes() {
    let mut buffer = OutputBuffer::new(10);
    buffer.push(Stream::Stdout, b"0123456789ABCDE");
    let output = buffer.finish();
    assert_eq!(output.omitted_count(), 5);

    let mut small = OutputBuffer::new(10);
    small.push(Stream::Stdout, b"xy");
    let small = small.finish();
    assert_eq!(small.omitted_count(), 0);
}

#[test]
fn empty_snapshot_has_no_fragments() {
    let output = CapturedOutput::empty(64);
    assert_eq!(output.limit, 64);
    assert_eq!(output.head_limit, 32);
    assert_eq!(output.tail_limit, 32);
    assert_eq!(output.total_len, 0);
    assert!(!output.truncated);
    assert!(output.head.is_empty());
    assert!(output.tail.is_empty());
}

#[test]
fn write_fragment_routes_by_stream() {
    let mut stdout: Vec<u8> = b"out:".to_vec();
    let mut stderr: Vec<u8> = b"err:".to_vec();
    let out_frag = Fragment { stream: Stream::Stdout, data: b"alpha".to_vec() };
    let err_frag = Fragment { stream: Stream::Stderr, data: b"beta".to_vec() };

    write_fragment(&mut stdout, &mut stderr, &out_frag);
    assert_eq!(stdout, b"out:alpha");
    assert_eq!(stderr, b"err:");

    write_fragment(&mut stdout, &mut stderr, &err_frag);
    assert_eq!(stdout, b"out:alpha");
    assert_eq!(stderr, b"err:beta");
}

#[test]
fn odd_limit_gives_tail_the_extra_byte() {
    let mut buffer = OutputBuffer::new(5);
    buffer.push(Stream::Stdout, b"0123456789");
    let output = buffer.finish();
    assert!(output.truncated);
    assert_eq!(output.head_limit, 2);
    assert_eq!(output.tail_limit, 3);
    assert_eq!(flatten(&output.head, &output.tail), b"01789");
}

#[test]
fn limit_one_keeps_only_last_byte() {
    let mut buffer = OutputBuffer::new(1);
    buffer.push(Stream::Stdout, b"abc");
    let output = buffer.finish();
    assert!(output.truncated);
    assert_eq!(output.head_limit, 0);
    assert_eq!(output.tail_limit, 1);
    assert_eq!(flatten(&output.head, &output.tail), b"c");
}

#[test]
fn success_discards_captured_output() {
    let mut buffer = OutputBuffer::new(10);
    buffer.push(Stream::Stdout, b"ignored");
    let (code, output) = finalize_outcome(0, buffer);
    assert_eq!(code, 0);
    assert_eq!(output.total_len, 0);
    assert!(!output.truncated);
    assert!(output.head.is_empty());
    assert!(output.tail.is_empty());
    assert_eq!(output.limit, 10);
}

#[test]
fn failure_keeps_captured_output() {
    let mut buffer = OutputBuffer::new(10);
    buffer.push(Stream::Stderr, b"boom");
    let (code, output) = finalize_outcome(3, buffer);
    assert_eq!(code, 3);
    assert_eq!(output.total_len, 4);
    assert!(!output.truncated);
    assert_eq!(flatten(&output.head, &output.tail), b"boom");
}
