use audio_frame_parser::constants::{PACKET_LENGTH, TARGET_SEQUENCE};
use audio_frame_parser::parser::{FrameConsumer, FrameType, Parser};

struct Collector {
    frames: Vec<(FrameType, Vec<u8>)>,
}

impl Collector {
    fn new() -> Collector {
        Collector { frames: Vec::new() }
    }
}

impl FrameConsumer for Collector {
    fn on_frame(&mut self, kind: FrameType, bytes: &Vec<u8>) {
        self.frames.push((kind, bytes.clone()));
    }
}

fn sync_pattern() -> Vec<u8> {
    vec![0xFF, 0x01, 0xFF, 0x02, 0xFF, 0x03, 0xFF, 0x04]
}

/// A complete on-wire audio frame: 4000 payload bytes, the little-endian
/// sequence field, the marker.
fn audio_frame(sequence: u32) -> Vec<u8> {
    let mut frame = vec![0u8; 4000];
    frame.extend_from_slice(&sequence.to_le_bytes());
    frame.extend_from_slice(&sync_pattern());
    frame
}

fn run_in_chunks(data: &[u8], chunk_sizes: &[usize]) -> Vec<(FrameType, Vec<u8>)> {
    let mut parser: Parser<Collector> = Parser::new(sync_pattern());
    let mut emitted: Vec<(FrameType, Vec<u8>)> = Vec::new();
    let mut offset = 0;
    for &size in chunk_sizes {
        let end = (offset + size).min(data.len());
        parser.push_data(&data[offset..end]);
        emitted.extend(parser.process());
        offset = end;
    }
    parser.push_data(&data[offset..]);
    emitted.extend(parser.process());
    emitted
}

#[test]
fn test_extract_sequence_zero() {
    let frame = audio_frame(0);
    assert_eq!(frame[4000..4004], [0x00, 0x00, 0x00, 0x00]);
    assert_eq!(Parser::<Collector>::extract_frame_number(&frame), 0);
}

#[test]
fn test_extract_sequence_one() {
    let frame = audio_frame(1);
    assert_eq!(frame[4000..4004], [0x01, 0x00, 0x00, 0x00]);
    assert_eq!(Parser::<Collector>::extract_frame_number(&frame), 1);
}

#[test]
fn test_extract_sequence_all_bytes_weighted() {
    let mut frame = audio_frame(0);
    frame[4000] = 0x04;
    frame[4001] = 0x03;
    frame[4002] = 0x02;
    frame[4003] = 0x01;
    assert_eq!(Parser::<Collector>::extract_frame_number(&frame), 0x01020304);
}

#[test]
fn test_single_frame_with_log_prefix() {
    let mut stream: Vec<u8> = b"boot message".to_vec();
    stream.extend_from_slice(&audio_frame(9));
    let mut parser: Parser<Collector> = Parser::new(sync_pattern());
    parser.push_data(&stream);
    let frames = parser.process();
    assert_eq!(frames.len(), 2);
    assert_eq!(frames[0].0, FrameType::LogData);
    assert_eq!(frames[0].1, b"boot message".to_vec());
    assert_eq!(frames[1].0, FrameType::AudioData);
    assert_eq!(frames[1].1, audio_frame(9));
    assert_eq!(Parser::<Collector>::extract_frame_number(&frames[1].1), 9);
    assert_eq!(parser.buffered_len(), 0);
}

#[test]
fn test_early_marker_is_skipped() {
    // A marker with too few preceding bytes cannot terminate a fully
    // buffered audio frame: it is skipped, and its bytes stay part of the
    // log region that the next resolved marker closes.
    let mut stream: Vec<u8> = b"hello".to_vec();
    stream.extend_from_slice(&sync_pattern());
    stream.extend_from_slice(b"world");
    stream.extend_from_slice(&audio_frame(1));
    let mut parser: Parser<Collector> = Parser::new(sync_pattern());
    parser.push_data(&stream);
    let frames = parser.process();
    assert_eq!(frames.len(), 2);
    assert_eq!(frames[0].0, FrameType::LogData);
    let mut expected_log: Vec<u8> = b"hello".to_vec();
    expected_log.extend_from_slice(&sync_pattern());
    expected_log.extend_from_slice(b"world");
    assert_eq!(frames[0].1, expected_log);
    assert_eq!(frames[1].0, FrameType::AudioData);
    assert_eq!(Parser::<Collector>::extract_frame_number(&frames[1].1), 1);
    assert_eq!(parser.buffered_len(), 0);
}

#[test]
fn test_two_consecutive_audio_frames_no_empty_log() {
    let mut stream = audio_frame(0);
    stream.extend_from_slice(&audio_frame(1));
    let mut parser: Parser<Collector> = Parser::new(sync_pattern());
    parser.push_data(&stream);
    let frames = parser.process();
    assert_eq!(frames.len(), 2);
    assert_eq!(frames[0].0, FrameType::AudioData);
    assert_eq!(frames[1].0, FrameType::AudioData);
    assert_eq!(Parser::<Collector>::extract_frame_number(&frames[0].1), 0);
    assert_eq!(Parser::<Collector>::extract_frame_number(&frames[1].1), 1);
    assert_eq!(parser.buffered_len(), 0);
}

#[test]
fn test_split_marker_is_not_lost() {
    // The first chunk ends partway through the marker; the partial marker
    // must stay buffered, not be flushed as log bytes.
    let mut stream: Vec<u8> = (0u8..100).collect();
    stream.extend_from_slice(&audio_frame(7));
    let mut parser: Parser<Collector> = Parser::new(sync_pattern());
    parser.push_data(&stream[..4108]);
    let frames = parser.process();
    assert_eq!(frames.len(), 0);
    assert_eq!(parser.buffered_len(), 4108);
    parser.push_data(&stream[4108..]);
    let frames = parser.process();
    assert_eq!(frames.len(), 2);
    assert_eq!(frames[0].0, FrameType::LogData);
    assert_eq!(frames[0].1, (0u8..100).collect::<Vec<u8>>());
    assert_eq!(frames[1].0, FrameType::AudioData);
    assert_eq!(Parser::<Collector>::extract_frame_number(&frames[1].1), 7);
    assert_eq!(parser.buffered_len(), 0);
}

#[test]
fn test_chunking_invariance() {
    let mut stream: Vec<u8> = b"abc".to_vec();
    stream.extend_from_slice(&audio_frame(0));
    stream.extend_from_slice(b"defgh");
    stream.extend_from_slice(&audio_frame(1));
    stream.extend_from_slice(&audio_frame(2));
    stream.extend_from_slice(b"tail");

    let whole = run_in_chunks(&stream, &[]);
    let tiny_then_big = run_in_chunks(&stream, &[1, 4011, 57, 3000, 2000]);
    let mid_marker = run_in_chunks(&stream, &[4005, 4012, 1, 1, 1]);
    let halves = run_in_chunks(&stream, &[stream.len() / 2]);

    assert_eq!(whole.len(), 5);
    assert_eq!(whole[0].0, FrameType::LogData);
    assert_eq!(whole[0].1, b"abc".to_vec());
    assert_eq!(whole[1].0, FrameType::AudioData);
    assert_eq!(whole[2].0, FrameType::LogData);
    assert_eq!(whole[2].1, b"defgh".to_vec());
    assert_eq!(whole[3].0, FrameType::AudioData);
    assert_eq!(whole[4].0, FrameType::AudioData);
    assert_eq!(whole, tiny_then_big);
    assert_eq!(whole, mid_marker);
    assert_eq!(whole, halves);
}

#[test]
fn test_order_preservation() {
    let mut stream: Vec<u8> = b"first".to_vec();
    stream.extend_from_slice(&audio_frame(10));
    stream.extend_from_slice(b"second");
    stream.extend_from_slice(&audio_frame(11));
    let mut parser: Parser<Collector> = Parser::new(sync_pattern());
    parser.set_callback(Collector::new());
    parser.push_data(&stream);
    let frames = parser.process();
    let kinds: Vec<FrameType> = frames.iter().map(|f| f.0).collect();
    assert_eq!(
        kinds,
        vec![
            FrameType::LogData,
            FrameType::AudioData,
            FrameType::LogData,
            FrameType::AudioData
        ]
    );
    assert_eq!(frames[0].1, b"first".to_vec());
    assert_eq!(frames[2].1, b"second".to_vec());
    assert_eq!(Parser::<Collector>::extract_frame_number(&frames[1].1), 10);
    assert_eq!(Parser::<Collector>::extract_frame_number(&frames[3].1), 11);
}

#[test]
fn test_consumer_receives_frames_in_emission_order() {
    let mut stream: Vec<u8> = b"log line".to_vec();
    stream.extend_from_slice(&audio_frame(3));
    stream.extend_from_slice(&audio_frame(4));
    let mut parser: Parser<Collector> = Parser::new(sync_pattern());
    parser.set_callback(Collector::new());
    parser.push_data(&stream);
    let returned = parser.process();
    // The registered consumer saw exactly the returned frames, in order.
    let mut probe = Collector::new();
    for f in &returned {
        probe.on_frame(f.0, &f.1);
    }
    assert_eq!(probe.frames, returned);
    assert_eq!(returned.len(), 3);
}

#[test]
fn test_idempotent_discard() {
    let mut stream: Vec<u8> = b"noise".to_vec();
    stream.extend_from_slice(&audio_frame(0));
    stream.extend_from_slice(&audio_frame(1));
    stream.extend_from_slice(b"rest");
    let mut parser: Parser<Collector> = Parser::new(sync_pattern());
    parser.push_data(&stream);
    let before = parser.buffered_len();
    let frames = parser.process();
    let emitted_total: usize = frames.iter().map(|f| f.1.len()).sum();
    assert_eq!(parser.buffered_len(), before - emitted_total);
    // A second pass with no new data emits nothing and discards nothing.
    let len_after = parser.buffered_len();
    let again = parser.process();
    assert_eq!(again.len(), 0);
    assert_eq!(parser.buffered_len(), len_after);
}

#[test]
fn test_without_consumer_frames_are_dropped_silently() {
    let mut parser: Parser<Collector> = Parser::new(sync_pattern());
    parser.push_data(&audio_frame(5));
    let frames = parser.process();
    assert_eq!(frames.len(), 1);
    assert_eq!(frames[0].0, FrameType::AudioData);
}

#[test]
fn test_short_buffer_left_untouched() {
    let frame = audio_frame(2);
    let mut parser: Parser<Collector> = Parser::new(sync_pattern());
    parser.push_data(&frame[..4011]);
    let frames = parser.process();
    assert_eq!(frames.len(), 0);
    assert_eq!(parser.buffered_len(), 4011);
}

#[test]
fn test_unresolvable_marker_keeps_bytes() {
    // A marker at the very start has no room for a frame before it; the
    // pass resolves nothing, emits nothing, and discards nothing.
    let mut stream = sync_pattern();
    stream.extend_from_slice(&vec![0u8; 4004]);
    let mut parser: Parser<Collector> = Parser::new(sync_pattern());
    parser.push_data(&stream);
    let frames = parser.process();
    assert_eq!(frames.len(), 0);
    assert_eq!(parser.buffered_len(), 4012);
}

#[test]
fn test_marker_shaped_bytes_inside_payload() {
    // A marker-shaped sequence closer than one whole frame to a real marker
    // is indistinguishable from a true terminator on this wire format: the
    // pass resolves both, the second audio frame reaching back over already
    // emitted bytes. No byte after the markers is lost.
    let mut stream = vec![0u8; 4004];
    stream.extend_from_slice(&sync_pattern());
    stream.extend_from_slice(b"abcdef");
    stream.extend_from_slice(&sync_pattern());
    assert_eq!(stream.len(), 4026);
    let mut parser: Parser<Collector> = Parser::new(sync_pattern());
    parser.push_data(&stream);
    let frames = parser.process();
    assert_eq!(frames.len(), 2);
    assert_eq!(frames[0].0, FrameType::AudioData);
    assert_eq!(frames[0].1, stream[..4012].to_vec());
    assert_eq!(frames[1].0, FrameType::AudioData);
    assert_eq!(frames[1].1, stream[14..4026].to_vec());
    assert_eq!(parser.buffered_len(), 0);
}

#[test]
fn test_constants_form_one_unit() {
    assert_eq!(PACKET_LENGTH, 4012);
    assert_eq!(TARGET_SEQUENCE.to_vec(), sync_pattern());
    assert_eq!(audio_frame(0).len(), PACKET_LENGTH);
}
