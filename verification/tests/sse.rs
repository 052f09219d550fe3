use std::collections::VecDeque;

use sonar::json::Json;
use sonar::questioner::{drain_frames, event_text_of, SseDecoder};

fn delta(t: &str) -> String {
    format!(
        "event: content_block_delta\ndata: {{\"type\":\"content_block_delta\",\"index\":0,\"delta\":{{\"type\":\"text_delta\",\"text\":\"{t}\"}}}}\n\n"
    )
}

#[test]
fn drain_takes_complete_frames_and_keeps_the_rest() {
    let mut buf = String::new();
    buf.push_str("event: message_start\ndata: {\"type\":\"message_start\",\"message\":{\"usage\":{\"input_tokens\":1174}}}\n\n");
    buf.push_str(&delta("辞めると"));
    buf.push_str(&delta("決めたのは"));
    buf.push_str("event: content_block_delta\ndata: {\"type\":\"content_bl");
    let mut pending = VecDeque::new();
    drain_frames(&mut buf, &mut pending);
    assert_eq!(pending, VecDeque::from(vec!["辞めると".to_string(), "決めたのは".to_string()]));
    assert_eq!(buf, "event: content_block_delta\ndata: {\"type\":\"content_bl");
}

#[test]
fn drain_ignores_other_events_and_bad_json() {
    let mut buf = String::new();
    buf.push_str("data: {\"type\":\"message_delta\",\"delta\":{\"stop_reason\":\"end_turn\"},\"usage\":{\"output_tokens\":40}}\n\n");
    buf.push_str("data: not json\n\n");
    buf.push_str(": ping\n\n");
    buf.push_str("data: {\"type\":\"content_block_delta\",\"delta\":{\"type\":\"input_json_delta\"}}\n\n");
    let mut pending = VecDeque::new();
    drain_frames(&mut buf, &mut pending);
    assert!(pending.is_empty());
    assert_eq!(buf, "");
}

#[test]
fn drain_handles_crlf_lines() {
    let mut buf = "data: {\"type\":\"content_block_delta\",\"delta\":{\"text\":\"あ\"}}\r\n\n".to_string();
    let mut pending = VecDeque::new();
    drain_frames(&mut buf, &mut pending);
    assert_eq!(pending, VecDeque::from(vec!["あ".to_string()]));
    assert_eq!(buf, "");
}

#[test]
fn drain_without_blank_line_keeps_everything() {
    let mut buf = "data: {\"type\":\"content_block_delta\",\"delta\":{\"text\":\"x\"}}\n".to_string();
    let mut pending = VecDeque::from(vec!["earlier".to_string()]);
    drain_frames(&mut buf, &mut pending);
    assert_eq!(pending, VecDeque::from(vec!["earlier".to_string()]));
    assert_eq!(buf, "data: {\"type\":\"content_block_delta\",\"delta\":{\"text\":\"x\"}}\n");
}

#[test]
fn decoder_reads_frames_split_across_chunks() {
    let whole = format!("{}{}", delta("いちばん"), delta("強く"));
    let bytes = whole.as_bytes();
    let mut d = SseDecoder::new();
    assert_eq!(d.next_text(), None);
    // split in the middle of the first frame's blank line
    let cut = delta("いちばん").len() - 1;
    d.feed(&bytes[..cut]);
    assert_eq!(d.next_text(), None);
    d.feed(&bytes[cut..]);
    assert_eq!(d.next_text(), Some("いちばん".to_string()));
    assert_eq!(d.next_text(), Some("強く".to_string()));
    assert_eq!(d.next_text(), None);
}

#[test]
fn decoder_replaces_invalid_utf8() {
    let mut d = SseDecoder::new();
    let mut chunk = b"data: {\"type\":\"content_block_delta\",\"delta\":{\"text\":\"a".to_vec();
    chunk.push(0xff);
    chunk.extend_from_slice(b"b\"}}\n\n");
    d.feed(&chunk);
    assert_eq!(d.next_text(), Some("a\u{fffd}b".to_string()));
}

#[test]
fn decoder_feed_text() {
    let mut d = SseDecoder::new();
    d.feed_text(&delta("問い"));
    assert_eq!(d.next_text(), Some("問い".to_string()));
}

#[test]
fn decoder_keeps_a_character_split_between_chunks() {
    let whole = delta("あい");
    let bytes = whole.as_bytes();
    let at = whole.find("あ").unwrap() + 1; // inside the three bytes of あ
    let mut d = SseDecoder::new();
    d.feed(&bytes[..at]);
    assert_eq!(d.next_text(), None);
    d.feed(&bytes[at..at + 1]);
    assert_eq!(d.next_text(), None);
    d.feed(&bytes[at + 1..]);
    assert_eq!(d.next_text(), Some("あい".to_string()));
    assert_eq!(d.next_text(), None);
}

#[test]
fn decoder_reads_every_chunking_alike() {
    let whole = format!("{}{}", delta("店長のこと"), delta("どちらが"));
    let bytes = whole.as_bytes();
    for cut in 0..=bytes.len() {
        let mut d = SseDecoder::new();
        d.feed(&bytes[..cut]);
        d.feed(&bytes[cut..]);
        let mut got = String::new();
        while let Some(t) = d.next_text() {
            got.push_str(&t);
        }
        assert_eq!(got, "店長のことどちらが", "cut at {cut}");
    }
}

#[test]
fn delta_reads_nested_text_only() {
    let mut buf = String::new();
    buf.push_str("data: {\"type\":\"content_block_delta\",\"delta\":{\"content\":\"no\"}}\n\n");
    buf.push_str("data: {\"type\":\"content_block_delta\",\"text\":\"no\"}\n\n");
    buf.push_str("data: {\"type\":\"content_block_delta\",\"delta\":{\"text\":7}}\n\n");
    buf.push_str("data: {\"type\":[\"content_block_delta\"],\"delta\":{\"text\":\"no\"}}\n\n");
    buf.push_str("data: {\"delta\":{\"text\":\"no\"},\"type\":\"content_block_delta\",\"index\":1.5}\n\n");
    let mut pending = VecDeque::new();
    drain_frames(&mut buf, &mut pending);
    assert_eq!(pending, VecDeque::from(vec!["no".to_string()]));
}

#[test]
fn decoder_reads_three_chunks_cut_inside_characters() {
    let whole = format!("{}{}", delta("店長のこと"), delta("どちらが"));
    let bytes = whole.as_bytes();
    for first in 0..=bytes.len() {
        for second in first..=bytes.len() {
            let mut d = SseDecoder::new();
            d.feed(&bytes[..first]);
            d.feed(&bytes[first..second]);
            d.feed(&bytes[second..]);
            let mut got = String::new();
            while let Some(t) = d.next_text() {
                got.push_str(&t);
            }
            assert_eq!(got, "店長のことどちらが", "cuts at {first} and {second}");
        }
    }
}

#[test]
fn event_text_reads_only_content_block_deltas() {
    let text = |s: &str| Json::Str(s.to_string());
    let event = |kind: Json, delta: Json| {
        Json::Object(vec![("type".to_string(), kind), ("delta".to_string(), delta)])
    };
    let with_text = || Json::Object(vec![("text".to_string(), text("何が"))]);
    assert_eq!(
        event_text_of(&event(text("content_block_delta"), with_text())),
        Some("何が".to_string())
    );
    assert_eq!(event_text_of(&event(text("message_delta"), with_text())), None);
    assert_eq!(event_text_of(&event(Json::Null, with_text())), None);
    assert_eq!(
        event_text_of(&event(
            text("content_block_delta"),
            Json::Object(vec![("text".to_string(), Json::Number("7".to_string()))])
        )),
        None
    );
    assert_eq!(event_text_of(&Json::Array(vec![])), None);
}
