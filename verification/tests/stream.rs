use piglmbridger::json::Json;
use piglmbridger::stream::{describe_leftover, frame_lines, truncate_mid, SseNormalizer};

#[test]
fn forwards_complete_lines_and_joins_split_frames() {
    let mut n = SseNormalizer::new();
    let out1 = n.push(b"data: {\"a\":1}\n\ndata: {\"b\":");
    assert_eq!(out1, vec!["data: {\"a\":1}"]);
    let out2 = n.push(b"2}\n\n");
    assert_eq!(out2, vec!["data: {\"b\":2}"]);
    assert!(n.buffer.is_empty());
}

#[test]
fn drops_abruptly_truncated_data_frame() {
    let mut n = SseNormalizer::new();
    let out1 = n.push(b"data: {\"role\": \"assistant\", \"content\": \"changg\n");
    assert_eq!(out1, vec!["data: {\"role\": \"assistant\", \"content\": \"changg"]);
    let out2 = n.push(b"data: {\"role\": \"tool\", \"arguments\": \"{\"q...");
    assert!(out2.is_empty());
    let dropped = n.drain_abrupt();
    assert!(dropped.is_some(), "should log the discarded frame");
    assert!(n.buffer.is_empty());
    assert_eq!(n.dropped, 1, "dropped count incremented");
    assert_eq!(n.emitted, 1, "already-complete line must be kept");
}

#[test]
fn clean_end_after_done_has_no_leftover() {
    let mut n = SseNormalizer::new();
    let out1 = n.push(b"data: [DONE]\n\n");
    assert_eq!(out1, vec!["data: [DONE]"]);
    assert!(n.drain_abrupt().is_none());
    assert_eq!(n.dropped, 0);
}

#[test]
fn glm_mixed_block_tail_completes_on_next_block() {
    let mut n = SseNormalizer::new();
    let out1 = n.push("data: {\"role\":\"assistant\",\"content\":\"你好\"}\n\ndata: {\"tool_calls\":[".as_bytes());
    assert_eq!(out1, vec!["data: {\"role\":\"assistant\",\"content\":\"你好\"}"]);
    let out2 = n.push("{\"index\":0}]}\n\n".as_bytes());
    assert_eq!(out2, vec!["data: {\"tool_calls\":[{\"index\":0}]}"]);
    assert!(n.buffer.is_empty(), "拼完应无残留");
}

#[test]
fn empty_tail_after_trailing_newline_drops_nothing() {
    let mut n = SseNormalizer::new();
    let out = n.push("data: {\"x\":1}\n\n".as_bytes());
    assert_eq!(out, vec!["data: {\"x\":1}"]);
    assert!(n.buffer.is_empty());
}

#[test]
fn usage_extraction_from_final_chunk() {
    let mut n = SseNormalizer::new();
    let _ = n.push(b"data: {\"choices\":[{\"delta\":{\"content\":\"hi\"}}]}\n\n");
    assert_eq!(n.usage_tokens, None, "无 usage 的帧不产生值");
    let _ = n.push(
        b"data: {\"choices\":[],\"usage\":{\"prompt_tokens\":10,\"completion_tokens\":1240,\"total_tokens\":1250}}\n\n",
    );
    assert_eq!(n.usage_tokens, Some(1250));
    let out = n.push(b"data: [DONE]\n\n");
    assert_eq!(out, vec!["data: [DONE]"]);
}

#[test]
fn usage_extraction_works_after_cross_chunk_rejoin() {
    let mut n = SseNormalizer::new();
    let _ = n.push(b"data: {\"usage\":{\"total_tokens\":");
    assert_eq!(n.usage_tokens, None, "残帧不解析");
    let _ = n.push(b"999}}\n\n");
    assert_eq!(n.usage_tokens, Some(999));
}

#[test]
fn every_cut_gives_the_same_lines() {
    let text = "event: x\r\ndata:  {\"a\":\"你好🙂\"}\n\ndata:\n: note\ndata: [DONE]\n\ndata: [DONE]\ntail".as_bytes();
    let mut whole = SseNormalizer::new();
    let expected = whole.push(text);
    assert_eq!(expected, vec!["event: x", "data: {\"a\":\"你好🙂\"}", ": note", "data: [DONE]"]);
    for i in 0..=text.len() {
        for j in i..=text.len() {
            let mut n = SseNormalizer::new();
            let mut out = n.push(&text[..i]);
            out.extend(n.push(&text[i..j]));
            out.extend(n.push(&text[j..]));
            assert_eq!(out, expected);
            assert_eq!(n.buffer, whole.buffer);
            assert_eq!(n.done_seen, whole.done_seen);
            assert_eq!((n.dropped, n.emitted), (whole.dropped, whole.emitted));
        }
    }
}

#[test]
fn done_goes_out_once_and_frames_are_counted() {
    let mut n = SseNormalizer::new();
    let out = n.push(b"data: [DONE]\ndata:[DONE]\n\ndata: \nevent: end\n");
    assert_eq!(out, vec!["data: [DONE]", "event: end"]);
    assert!(n.done_seen);
    assert_eq!(n.dropped, 2);
    assert_eq!(n.emitted, 2);
    assert!(n.push(b"data: [DONE]\n").is_empty());
    assert_eq!(n.dropped, 3);
}

#[test]
fn rejoined_counts_lines_joined_over_chunks() {
    let mut n = SseNormalizer::new();
    assert!(n.push(b"data: a").is_empty());
    assert_eq!(n.push(b"b\ndata: c\n"), vec!["data: ab", "data: c"]);
    assert_eq!(n.rejoined, 1);
    assert_eq!(n.push(b"data: d\n"), vec!["data: d"]);
    assert_eq!(n.rejoined, 1);
}

#[test]
fn open_line_waits() {
    let mut n = SseNormalizer::new();
    assert!(n.push("data: 半".as_bytes()).is_empty());
    assert_eq!(n.buffer, "data: 半".as_bytes());
    assert_eq!(n.emitted, 0);
}

#[test]
fn a_character_cut_in_half_waits_for_its_end() {
    let bytes = "data: 好\n".as_bytes();
    let mut n = SseNormalizer::new();
    assert!(n.push(&bytes[..7]).is_empty());
    assert_eq!(n.buffer, &bytes[..7]);
    assert_eq!(n.push(&bytes[7..]), vec!["data: 好"]);
}

#[test]
fn a_byte_that_is_no_text_does_not_hold_its_line_back() {
    let mut n = SseNormalizer::new();
    assert_eq!(n.push(b"ab\xFFcd\n"), vec!["ab\u{FFFD}cd"]);
    assert!(n.buffer.is_empty());
    assert_eq!(n.push(b"data: a\x80\n"), vec!["data: a\u{FFFD}"]);
    assert_eq!(n.push(b"data: b\xE5\n"), vec!["data: b\u{FFFD}"]);
    assert_eq!(n.push(b"data: \xFF\xFE\ndata: [DONE]\n"), vec!["data: \u{FFFD}\u{FFFD}", "data: [DONE]"]);
    assert!(n.done_seen);
    assert!(n.drain_abrupt().is_none());
}

#[test]
fn half_a_character_behind_an_ill_formed_byte_waits() {
    let mut n = SseNormalizer::new();
    assert!(n.push(b"data: \xFF\xE5\xA5").is_empty());
    assert_eq!(n.buffer, b"data: \xFF\xE5\xA5");
    assert_eq!(n.push(b"\xBD\n"), vec!["data: \u{FFFD}\u{597D}"]);
    assert!(n.push(b"\xF0\x9F").is_empty());
    assert_eq!(n.push(b"\n"), vec!["\u{FFFD}\u{FFFD}"]);
    assert!(n.push(b"\xED\xA0").is_empty());
    assert_eq!(n.buffer, b"\xED\xA0");
}

#[test]
fn a_leftover_is_read_as_it_was_kept() {
    let mut n = SseNormalizer::new();
    assert!(n.push(b"\xE4\xBDA").is_empty());
    assert_eq!(n.buffer, b"\xE4\xBDA");
    assert_eq!(n.drain_abrupt().as_deref(), Some("流结束后缓冲区残留 4B（非 data 残帧，已丢弃）"));
    assert!(n.push(b"x\xE4\xBDAB").is_empty());
    assert_eq!(n.buffer, b"x\xEF\xBF\xBD\xBDAB");
    assert_eq!(n.drain_abrupt().as_deref(), Some("流结束后缓冲区残留 9B（非 data 残帧，已丢弃）"));
    assert!(n.push(b"\x80\x80").is_empty());
    assert_eq!(n.buffer, b"\xEF\xBF\xBD\x80");
    assert_eq!(n.push(b"\n"), vec!["\u{FFFD}\u{FFFD}"]);
    assert_eq!(n.dropped, 0);
    assert!(n.push(b"\xFFdata: x").is_empty());
    assert!(n.drain_abrupt().is_some());
    assert_eq!(n.dropped, 1);
}

#[test]
fn cuts_do_not_matter_to_ill_formed_bytes() {
    let bytes = b"data: \xE5\xA5\xBD\xFF\ndata: \xF0\x9F\x98x\n\xC0\xAF\ndata: \xED\xA0\x80\n";
    let mut whole = SseNormalizer::new();
    let expected = whole.push(bytes);
    assert_eq!(expected.len(), 4);
    for size in 1..bytes.len() {
        let mut n = SseNormalizer::new();
        let mut got = Vec::new();
        for chunk in bytes.chunks(size) {
            got.extend(n.push(chunk));
        }
        assert_eq!(got, expected, "chunks of {size}");
    }
}

#[test]
fn half_a_frame_is_counted_once() {
    let mut n = SseNormalizer::new();
    n.push("data: {\"x\":\"好".as_bytes());
    n.push(b"\xE5\xA5");
    let Some(report) = n.drain_abrupt() else { panic!("nothing is left") };
    assert!(report.contains("data: {"), "{report}");
    assert_eq!(n.dropped, 1);
    assert!(n.buffer.is_empty());
    assert_eq!(n.drain_abrupt(), None);
    assert_eq!(n.dropped, 1);
}

#[test]
fn a_normal_line_stays() {
    for line in ["data:\t x", "data: x", "event: e", " data:x", ": note", ""] {
        let mut n = SseNormalizer::new();
        let Some(once) = n.normalize_line(line) else { panic!("dropped") };
        let (done, dropped, usage, emitted) = (n.done_seen, n.dropped, n.usage_tokens, n.emitted);
        let again = n.normalize_line(&once);
        assert_eq!((n.done_seen, n.dropped, n.usage_tokens), (done, dropped, usage));
        assert_eq!(n.emitted, emitted + 1);
        assert_eq!(again, Some(once));
    }
}

#[test]
fn usage_is_taken_from_unsigned_numbers_only() {
    let mut n = SseNormalizer::new();
    n.push(b"data: {\"usage\":{\"total_tokens\":7}}\n");
    assert_eq!(n.usage_tokens, Some(7));
    n.push(b"data: {\"usage\":{\"total_tokens\":-1}}\n");
    n.push(b"data: {\"usage\":{\"total_tokens\":\"9\"}}\n");
    n.push(b"data: {\"usage\":null}\n");
    n.push(b"data: {\"usage\" broken\n");
    assert_eq!(n.usage_tokens, Some(7));
    n.push(b"data: {\"usage\":{\"total_tokens\":8}}\n");
    assert_eq!(n.usage_tokens, Some(8));
    n.note_usage(&Json::Missing);
    n.note_usage(&Json::Malformed);
    n.note_usage(&Json::Other);
    n.note_usage(&Json::Text("5".to_string()));
    assert_eq!(n.usage_tokens, Some(8));
    n.note_usage(&Json::Unsigned(5));
    assert_eq!(n.usage_tokens, Some(5));
}

#[test]
fn sent_lines_read_back() {
    let mut n = SseNormalizer::new();
    let lines = n.push("data:\t{\"t\":\"中\"}\r\nid: 3\ndata: [DONE]\n".as_bytes());
    let sent = frame_lines(&lines);
    assert_eq!(sent, "data: {\"t\":\"中\"}\n\nid: 3\n\ndata: [DONE]\n\n".as_bytes());
    let mut m = SseNormalizer::new();
    assert_eq!(m.push(&sent), lines);
    assert_eq!(m.dropped, 0);
    assert!(m.done_seen && m.buffer.is_empty());
}

#[test]
fn error_frame_is_two_lines() {
    let n = SseNormalizer::new();
    let frame = n.error_frame("读空闲\n\"5s\"\u{1}");
    assert_eq!(
        String::from_utf8(frame.clone()).unwrap(),
        "data: {\"error\":{\"message\":\"读空闲\\n\\\"5s\\\"\\u0001\",\"proxy\":\"piglmbridger\",\"type\":\"proxy_upstream_error\"}}\n\ndata: [DONE]\n\n"
    );
    let mut m = SseNormalizer::new();
    let lines = m.push(&frame);
    assert_eq!(lines.len(), 2);
    assert_eq!(lines[1], "data: [DONE]");
    assert!(m.done_seen && m.buffer.is_empty());
}

#[test]
fn leftovers_are_described() {
    let mut n = SseNormalizer::new();
    n.push(b"data: {\"a\"");
    assert_eq!(
        n.drain_abrupt().unwrap(),
        "流被上游切断：残留未终结的 data 残帧(10B)已丢弃: data: {\"a\"…"
    );
    n.push(b"ping");
    assert_eq!(n.drain_abrupt().unwrap(), "流结束后缓冲区残留 4B（非 data 残帧，已丢弃）");
    assert_eq!(n.dropped, 1);
    n.push(b"x\xe4\xbd");
    assert_eq!(n.drain_abrupt().unwrap(), "流结束后缓冲区残留 4B（非 data 残帧，已丢弃）");
    assert_eq!(describe_leftover("data: x\n"), "流结束后缓冲区残留 8B（非 data 残帧，已丢弃）");
}

#[test]
fn long_texts_are_cut_in_the_middle() {
    assert_eq!(truncate_mid("中文字符串", 4), "中文…符串");
    assert_eq!(truncate_mid("abcde", 5), "abcde");
    assert_eq!(truncate_mid("abcde", 0), "abcde");
    assert_eq!(truncate_mid("abcde", 1), "…");
}
