use piglmbridger::clock::Duration;
use piglmbridger::logger::{ColorMode, Effect, Logger};
use piglmbridger::proxy::{
    enter, is_admitted, is_forwarded, leave, plan_for_model, plan_request, plan_request_at,
    rand_u24, reject_body, request_id, route_for, stats_line, stream_passed, stream_passed_at,
    upstream_failed, upstream_failed_at, url_for, wants_repair, whole_read, whole_read_at, Failure,
    Plan, Route,
};
use piglmbridger::repair::{Action, Event, StreamState};
use piglmbridger::state::{
    cleanup_stream, refresh_status, spinner_frame, stream_status_text, AppState, NotifyDrop,
};
use piglmbridger::table::Table;

const STAMP: &str = "2026-09-06 17:45:04.322";

fn state(upstream: &str, auth_token: &str) -> AppState {
    AppState::new(upstream, Logger::memory(), 0, auth_token)
}

fn debug_state() -> AppState {
    let log = Logger::new_with_mode("/tmp/proxy.log", ColorMode::Never, false, true, true);
    AppState::new("http://up/v4//", log, 5, "")
}

fn sse_frames() -> Vec<u8> {
    let mut b = Vec::new();
    b.extend_from_slice(b"data: {\"choices\":[{\"delta\":{\"content\":\"A\"}}]}\n\n");
    let u = b"data: {\"usage\":{\"total_tokens\":150}}\n\n";
    let half = u.len() / 2;
    b.extend_from_slice(&u[..half]);
    b.extend_from_slice(&u[half..]);
    b.extend_from_slice(b"data: [DONE]\n\n");
    b
}

fn names(list: &[&str]) -> Vec<String> {
    list.iter().map(|s| s.to_string()).collect()
}

/// Feeds the chunks and then the end, as the loop around the stream does.
fn drive(app: &mut AppState, stream: &mut StreamState, chunks: &[&[u8]]) -> Vec<u8> {
    let mut sent = Vec::new();
    let mut at = 0;
    for chunk in chunks {
        at += 10;
        assert!(stream.has_room(app, &Event::Chunk(chunk)));
        let (action, _) = stream.step(app, Duration::from_millis(at), Event::Chunk(chunk));
        if let Action::Send(bytes) = action {
            sent.extend(bytes);
        }
    }
    while !stream.is_done() {
        let (action, _) = stream.step(app, Duration::from_millis(at + 1), Event::End);
        if let Action::Send(bytes) = action {
            sent.extend(bytes);
        }
    }
    sent
}

#[test]
fn normal_finish_logs_req_resp_tokens() {
    let mut app = state("http://127.0.0.1:9", "");
    let (plan, _) = plan_request(&mut app, "abcdef", None, "/v1/chat/completions", &names(&["content-type"]), b"{\"model\":\"glm-5.3-flash\"}");
    let Plan::Forward { normalize, .. } = plan else { panic!("not forwarded") };
    assert_eq!(route_for("text/event-stream", normalize), Route::Repair);
    let mut stream = StreamState::open(&mut app, "abcdef", 200, 25, Duration::from_millis(5));
    let frames = sse_frames();
    let body = String::from_utf8(drive(&mut app, &mut stream, &[&frames])).unwrap();
    assert!(body.contains("data: [DONE]"), "应含 [DONE]: {body}");
    assert!(!body.contains("proxy_upstream_error"), "正常收尾不应有 error 帧");

    let lines = app.logger.captured();
    assert_eq!(lines.iter().filter(|l| l.contains("<- 200")).count(), 1, "结束行重复: {lines:?}");
    let finish = lines.iter().find(|l| l.contains("<- 200")).expect("应有结束行");
    assert!(finish.contains("req "), "req 字节数: {finish}");
    assert!(finish.contains("resp"), "resp 字节数: {finish}");
    assert!(finish.contains("150 tok"), "tokens: {finish}");
    assert!(finish.contains("首包"), "真·首包: {finish}");
    assert_eq!(app.active_streams.len(), 0);
    assert!(stream.is_finished());
}

#[test]
fn truncated_upstream_drops_frame_and_emits_error() {
    let mut app = state("http://127.0.0.1:9", "");
    let mut stream = StreamState::open(&mut app, "abcdef", 200, 25, Duration::from_millis(5));
    let half = "data: {\"choices\":[{\"delta\":{\"content\":\"半".as_bytes();
    let body = String::from_utf8(drive(&mut app, &mut stream, &[half])).unwrap();
    assert!(body.contains("proxy_upstream_error"), "应含带内 error 帧: {body}");
    assert!(body.contains("data: [DONE]"), "error 帧后应跟 [DONE]");

    let lines = app.logger.captured();
    assert!(
        lines.iter().any(|l| l.contains("上游异常切断") || l.contains("残帧")),
        "应记录异常切断: {lines:?}"
    );
    assert_eq!(lines.iter().filter(|l| l.contains("<- 200")).count(), 1);
    assert_eq!(app.total_dropped, 1);
}

#[test]
fn non_glm_model_passthrough_bytes_unchanged() {
    let mut app = state("http://127.0.0.1:9", "");
    let (plan, _) = plan_request(&mut app, "abcdef", None, "/v1/chat/completions", &names(&[]), b"{\"model\":\"deepseek-v4\"}");
    let Plan::Forward { normalize, .. } = plan else { panic!("not forwarded") };
    assert!(!normalize);
    assert_eq!(route_for("text/event-stream; charset=utf-8", normalize), Route::Stream);
}

#[test]
fn auth_token_rejects_without_reaching_upstream() {
    let mut app = state("http://127.0.0.1:1", "secret");
    let (plan, _) = plan_request(&mut app, "abcdef", None, "/v1/chat/completions", &names(&[]), b"{\"model\":\"glm-5.3-flash\"}");
    assert!(matches!(plan, Plan::Reject));
    assert_eq!(app.logger.captured(), vec!["[ERROR] [abcdef] 令牌校验失败，拒绝转发"]);
    let (plan, _) = plan_request(&mut app, "abcdef", Some("Bearer other"), "/", &names(&[]), b"");
    assert!(matches!(plan, Plan::Reject));
    let (plan, _) = plan_request(&mut app, "abcdef", Some("Bearer secret"), "/", &names(&[]), b"");
    assert!(matches!(plan, Plan::Forward { .. }));
    assert_eq!(
        reject_body(),
        "{\"error\":{\"message\":\"invalid or missing proxy token\",\"type\":\"proxy_auth\"}}"
    );
    assert!(is_admitted("", None));
    assert!(!is_admitted("t", Some("t")));
    assert!(is_admitted("t", Some("Bearer t")));
}

#[test]
fn a_plan_logs_the_model_and_the_headers_that_are_left_out() {
    let mut app = debug_state();
    let (plan, out) = plan_request_at(
        &mut app, STAMP, "abcdef", None, "/chat/completions",
        &names(&["host", "accept", "x-secret", "user-agent", "cookie", "authorization", "content-type", "accept-encoding"]),
        b"{\"model\":\"glm-5.3\\n\"}",
    );
    let Plan::Forward { url, normalize, headers } = plan else { panic!("not forwarded") };
    assert_eq!(url, "http://up/v4/chat/completions");
    assert!(normalize);
    assert_eq!(headers, vec![false, true, false, true, false, true, true, false]);
    let lines: Vec<String> = out.iter().map(|e| match e {
        Effect::Append(l) => l[STAMP.len()..].to_string(),
        Effect::Print(_) => panic!("nothing goes to the terminal"),
    }).collect();
    assert_eq!(
        lines,
        vec![
            " [DEBUG] [abcdef] model=Some(\"glm-5.3\\n\") normalize=true",
            " [DEBUG] [abcdef] 滤除头: x-secret",
            " [DEBUG] [abcdef] 滤除头: cookie",
            " [INFO ] [abcdef] -> glm-5.3\n POST /chat/completions (req 21B) 转发至 http://up/v4/chat/completions",
        ]
    );
    let (_, out) = plan_for_model(&mut app, STAMP, "abcdef", None, "/p", &vec![], None, 3);
    assert_eq!(
        out[0],
        Effect::Append(format!("{STAMP} [DEBUG] [abcdef] model=None normalize=false"))
    );
}

#[test]
fn models_headers_and_addresses() {
    assert!(wants_repair(Some("glm-5.3-flash")));
    assert!(wants_repair(Some("glm-5.3")));
    assert!(!wants_repair(Some("glm-5")));
    assert!(!wants_repair(Some("GLM-5.3")));
    assert!(!wants_repair(None));
    assert!(is_forwarded("accept") && !is_forwarded("Accept") && !is_forwarded("cookie"));
    assert_eq!(url_for("https://h/v4///", "/c"), "https://h/v4/c");
    assert_eq!(route_for("application/json", true), Route::Whole);
    assert_eq!(route_for("", true), Route::Whole);
}

#[test]
fn bodies_that_name_no_model() {
    for body in ["", "not json", "[1]", "{\"model\":5}", "{\"model\":null}", "{\"other\":\"glm-5.3\"}"] {
        let mut app = state("u", "");
        let (plan, _) = plan_request(&mut app, "abcdef", None, "/", &vec![], body.as_bytes());
        assert!(matches!(plan, Plan::Forward { normalize: false, .. }), "{body}");
        assert!(app.logger.captured()[0].contains("-> - POST"), "{body}");
    }
}

#[test]
fn ids_are_six_hexadecimal_digits() {
    for nanos in [0u32, 1, 5, 123_456_789, 999_999_999] {
        let mut x = nanos;
        x ^= x << 13;
        x ^= x >> 17;
        x ^= x << 5;
        assert_eq!(rand_u24(nanos), x & 0xff_ffff);
        assert_eq!(request_id(nanos), format!("{:06x}", x & 0xff_ffff));
    }
}

#[test]
fn requests_are_counted() {
    let mut app = state("u", "");
    enter(&mut app);
    enter(&mut app);
    leave(&mut app);
    assert_eq!((app.inflight, app.total_requests), (1, 2));
    assert_eq!(
        stats_line("2026-09-06T17:45:04+08:00", "ab\"c", 12, 200),
        "{\"elapsed_ms\":12,\"id\":\"ab\\\"c\",\"status\":200,\"ts\":\"2026-09-06T17:45:04+08:00\"}"
    );
}

#[test]
fn answers_that_are_not_repaired() {
    let ms = Duration::from_millis(1500);
    let mut app = debug_state();
    let out = stream_passed_at(&mut app, STAMP, "abcdef", 200, ms, 9);
    assert_eq!(
        out,
        vec![
            Effect::Append(format!("{STAMP} [DEBUG] [abcdef] SSE 字节级直通（非 glm-5.3，不归一化）")),
            Effect::Append(format!("{STAMP} [INFO ] [abcdef] <- 200 耗时 1.50s req 9B")),
        ]
    );
    let out = whole_read_at(&mut app, STAMP, "abcdef", 429, ms, 9, 10);
    assert_eq!(
        out,
        vec![Effect::Append(format!("{STAMP} [INFO ] [abcdef] <- 429 耗时 1.50s req 9B resp 10B 上游拒绝"))]
    );
    let (reply, out) = upstream_failed_at(&mut app, STAMP, "abcdef", Failure::Connect, 0, ms, 9, "refused");
    assert_eq!(reply, "upstream connect error: refused");
    assert_eq!(
        out,
        vec![
            Effect::Append(format!("{STAMP} [INFO ] [abcdef] <- 502 耗时 1.50s req 9B 上游连接失败")),
            Effect::Append(format!("{STAMP} [ERROR] [abcdef] 上游连接失败: refused")),
        ]
    );
    let (reply, out) = upstream_failed_at(&mut app, STAMP, "abcdef", Failure::Read, 200, ms, 9, "reset");
    assert_eq!(reply, "upstream read error: reset");
    assert_eq!(
        out[0],
        Effect::Append(format!("{STAMP} [INFO ] [abcdef] <- 200 耗时 1.50s req 9B 上游读取错误"))
    );
    assert_eq!(app.logger.summaries(9).len(), 4);
}

#[test]
fn answers_are_logged_at_the_present_time() {
    let ms = Duration::from_millis(7);
    let mut app = state("u", "");
    assert!(stream_passed(&mut app, "a", 200, ms, 1).is_empty());
    assert!(whole_read(&mut app, "b", 200, ms, 1, 2).is_empty());
    assert_eq!(upstream_failed(&mut app, "c", Failure::Read, 200, ms, 1, "e").0, "upstream read error: e");
    assert_eq!(
        app.logger.captured(),
        vec![
            "[INFO] [a] <- 200 耗时 0.01s req 1B",
            "[INFO] [b] <- 200 耗时 0.01s req 1B resp 2B",
            "[INFO] [c] <- 200 耗时 0.01s req 1B 上游读取错误",
            "[ERROR] [c] 上游读取错误: e",
        ]
    );
}

#[test]
fn the_client_does_not_see_the_cuts() {
    let text = "data: {\"x\":\"你好\"}\r\n\n: note\n\ndata:\n\ndata:   [DONE]\n\ndata: [DONE]\n\n".as_bytes();
    let mut app = state("u", "");
    let mut whole = StreamState::open(&mut app, "a", 200, 1, Duration::from_millis(0));
    let expected = drive(&mut app, &mut whole, &[text]);
    assert_eq!(expected, "data: {\"x\":\"你好\"}\n\n: note\n\ndata: [DONE]\n\n".as_bytes());
    for size in 1..text.len() {
        let chunks: Vec<&[u8]> = text.chunks(size).collect();
        let mut stream = StreamState::open(&mut app, "a", 200, 1, Duration::from_millis(0));
        assert_eq!(drive(&mut app, &mut stream, &chunks), expected, "chunks of {size}");
    }
}

#[test]
fn an_idle_stream_is_given_up() {
    let mut app = state("u", "");
    app.idle_secs = 5;
    let mut stream = StreamState::open(&mut app, "abcdef", 200, 25, Duration::from_millis(5));
    let (action, _) = stream.step(&mut app, Duration::from_millis(20), Event::Chunk(b"data: {"));
    assert!(matches!(action, Action::Wait));
    let (action, _) = stream.step(&mut app, Duration::from_secs(6), Event::Idle);
    let Action::Send(bytes) = action else { panic!("nothing sent") };
    let text = String::from_utf8(bytes).unwrap();
    assert!(text.starts_with("data: {\"error\":{\"message\":\"读空闲 5s 无数据，主动中止上游（疑似链路静默断开）\""));
    assert!(text.ends_with("data: [DONE]\n\n"));
    assert!(stream.is_done() && stream.is_finished());
    assert_eq!(app.total_dropped, 1);
    assert_eq!(
        app.logger.captured(),
        vec![
            "[ERROR] [abcdef] 读空闲 5s 无数据，主动中止上游（疑似链路静默断开）",
            "[INFO] [abcdef] <- 504 耗时 6.00s 首包 20ms req 25B resp 7B 读空闲中止",
        ]
    );
    let (action, out) = stream.step(&mut app, Duration::from_secs(7), Event::Chunk(b"data: x\n"));
    assert!(matches!(action, Action::Close) && out.is_empty());
    assert_eq!(app.logger.captured().len(), 2);
}

#[test]
fn a_stream_that_fails_ends_in_an_error() {
    let mut app = state("u", "");
    let mut stream = StreamState::open(&mut app, "abcdef", 200, 25, Duration::from_millis(5));
    let (action, _) = stream.step(&mut app, Duration::from_secs(1), Event::Failed("reset"));
    let Action::Send(bytes) = action else { panic!("nothing sent") };
    let text = String::from_utf8(bytes).unwrap();
    assert!(text.starts_with("data: {\"error\":{\"message\":\"上游流错误: reset\""), "{text}");
    assert!(text.ends_with("data: [DONE]\n\n"));
    assert!(stream.is_done() && stream.is_finished());
    assert_eq!(
        app.logger.captured(),
        vec![
            "[ERROR] [abcdef] 上游流错误: reset",
            "[INFO] [abcdef] <- 200 耗时 1.00s req 25B resp 0B 上游流错误",
        ]
    );
    assert_eq!(app.active_streams.len(), 0);
    let (action, out) = stream.step(&mut app, Duration::from_secs(2), Event::End);
    assert!(matches!(action, Action::Close) && out.is_empty());
    assert_eq!(app.logger.captured().len(), 2);
}

#[test]
fn a_stream_that_ends_without_a_mark_is_no_success() {
    let mut app = state("u", "");
    let mut stream = StreamState::open(&mut app, "abcdef", 200, 25, Duration::from_millis(5));
    let sent = drive(&mut app, &mut stream, &[b"data: a\n\n"]);
    assert_eq!(sent, b"data: a\n\n");
    assert!(app.logger.summaries(1)[0].contains("✘ 200"));
    assert_eq!(app.total_dropped, 0);
}

#[test]
fn signs_of_life() {
    let log = Logger::new_with_mode("/tmp/proxy.log", ColorMode::Always, false, false, false);
    let mut app = AppState::new("u", log, 0, "");
    let mut stream = StreamState::open(&mut app, "abcdef", 200, 25, Duration::from_millis(100));
    let (_, out) = stream.step_at(&mut app, STAMP, Duration::from_millis(1099), Event::Chunk(b"x"));
    assert!(out.is_empty());
    let (_, out) = stream.step_at(&mut app, STAMP, Duration::from_millis(1100), Event::Chunk(b"x"));
    assert_eq!(
        out,
        vec![
            Effect::Append(format!("{STAMP} [INFO ] [abcdef] … ↓ 2B")),
            Effect::Print("\r\x1b[2K\x1b[36m⠙\x1b[0m \x1b[1;36m[abcdef]\x1b[0m \x1b[34m↓\x1b[0m \x1b[2m2B…\x1b[0m".to_string()),
        ]
    );
    let (_, out) = stream.step_at(&mut app, STAMP, Duration::from_millis(4099), Event::Chunk(b"x"));
    assert!(out.is_empty());
    let big = vec![b'x'; 256 * 1024];
    let (_, out) = stream.step_at(&mut app, STAMP, Duration::from_millis(4099), Event::Chunk(&big));
    assert_eq!(out.len(), 2);
    let (_, out) = stream.step_at(&mut app, STAMP, Duration::from_millis(7099), Event::Chunk(b"x"));
    assert_eq!(out.len(), 2);
}

#[test]
fn the_status_line_tells_of_the_open_streams() {
    let mut streams: Table<u64> = Table::new();
    assert_eq!(
        stream_status_text(&streams, "ab", '⠹'),
        "\x1b[36m⠹\x1b[0m \x1b[1;36m[  ab  ]\x1b[0m \x1b[34m↓\x1b[0m \x1b[2m0B…\x1b[0m"
    );
    streams.insert("a", 1024);
    streams.insert("b", 5);
    streams.insert("a", 2048);
    assert_eq!(
        stream_status_text(&streams, "ab", '⠋'),
        "\x1b[36m⠋\x1b[0m \x1b[2m2 个流 · ↓ 2.0KB…\x1b[0m"
    );
    let mut log = Logger::new_with_mode("/tmp/proxy.log", ColorMode::Always, false, false, false);
    assert_eq!(refresh_status(&mut log, &streams).len(), 1);
    assert_eq!(cleanup_stream(&mut log, &mut streams, "a").len(), 1);
    assert_eq!((streams.len(), streams.sum()), (1, 5));
    assert_eq!(
        cleanup_stream(&mut log, &mut streams, "b"),
        vec![Effect::Print("\r\x1b[2K".to_string())]
    );
    assert!(refresh_status(&mut log, &streams).is_empty());
    let frames: String = (0..9).map(spinner_frame).collect();
    assert_eq!(frames, "⠋⠙⠹⠸⠼⠴⠦⠧⠋");
}

#[test]
fn a_client_that_goes_away() {
    let mut app = debug_state();
    app.active_streams.insert("abcdef", 3);
    let mut watch = NotifyDrop::new("abcdef");
    let out = watch.on_drop_at(&mut app, STAMP);
    assert_eq!(
        out,
        vec![Effect::Append(format!(
            "{STAMP} [DEBUG] [abcdef] 客户端提前断开：body 被 cancel，上游请求已随之中止（取消透传生效）"
        ))]
    );
    assert_eq!(app.active_streams.len(), 0);
    watch.finished = true;
    assert!(watch.on_drop(&mut app).is_empty());
}

#[test]
fn tables_replace_and_remove() {
    let mut t: Table<u64> = Table::new();
    t.insert("x", 1);
    t.insert("y", 2);
    t.insert("x", 3);
    assert_eq!((t.len(), t.sum()), (2, 5));
    assert_eq!(t.remove("x"), Some(3));
    assert_eq!(t.remove("x"), None);
    assert_eq!((t.len(), t.sum()), (1, 2));
}
