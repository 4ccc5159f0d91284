use piglmbridger::clock::{clock_of, Duration};
use piglmbridger::logger::{rotation_due, use_color, ColorMode, Effect, Logger};

const STAMP: &str = "2026-09-06 17:45:04.322";
const UPSTREAM: &str = "https://open.bigmodel.cn/api/paas/v4/chat/completions";

fn print(text: &str) -> Effect {
    Effect::Print(text.to_string())
}

fn append(text: &str) -> Effect {
    Effect::Append(text.to_string())
}

fn plain_log() -> Logger {
    Logger::new_with_mode("/tmp/proxy.log", ColorMode::Auto, false, false, false)
}

fn color_log() -> Logger {
    Logger::new_with_mode("/tmp/proxy.log", ColorMode::Auto, true, false, true)
}

#[test]
fn start_finish_lines_do_not_panic_on_multibyte() {
    let mut log = Logger::disabled();
    log.start_request("07ae85", Some("glm-5.3-flash"), "POST", "/v1/chat/completions", "https://上游.example/中文", 6246);
    log.finish_request(
        "07ae85",
        200,
        true,
        Some(Duration::from_millis(3987)),
        Some(Duration::from_millis(812)),
        Some(1250),
        Some(6246),
        Some(3277),
        "",
    );
}

#[test]
fn captured_vec_must_not_grow_in_production() {
    let mut lg = Logger::new_with_mode("/tmp/piglmb-cap/proxy.log", ColorMode::Auto, false, false, false);
    lg.info("a");
    lg.error("b");
    assert!(lg.captured().is_empty(), "生产 Logger 不应捕获进内存: {:?}", lg.captured());

    let mut m = Logger::memory();
    m.info("x");
    assert_eq!(m.captured().len(), 1);
}

#[test]
fn summary_single_line_format() {
    let mut log = Logger::disabled();
    log.start_request("3fcef8", Some("glm-5.3-flash"), "POST", "/chat/completions", "https://open.bigmodel.cn/api/paas/v4/chat/completions", 111_202);
    log.finish_request(
        "3fcef8", 200, true,
        Some(Duration::from_millis(26_080)), Some(Duration::from_millis(3833)),
        Some(30214), Some(111_202), Some(173_432), "",
    );
    let s = log.summaries(50);
    assert_eq!(s.len(), 1);
    let l = &s[0];
    assert!(l.contains("▶ [3fcef8] glm-5.3-flash → bigmodel.cn/chat/completions"), "{l}");
    assert!(l.contains("↑ 108.6KB"), "{l}");
    assert!(l.contains("✔ 200 +26.1s"), "{l}");
    assert!(l.contains("首包 3833ms"), "{l}");
    assert!(l.contains("↓ 169.4KB"), "{l}");
    assert!(l.contains("30214 tok"), "{l}");
    let ts = l.split(' ').next().unwrap();
    assert_eq!(ts.len(), 12, "{l}");
}

#[test]
fn summary_error_and_missing_fields() {
    let mut log = Logger::disabled();
    log.start_request("abc123", Some("glm-5.3-flash"), "POST", "/chat/completions", "https://open.bigmodel.cn/api/paas/v4/chat/completions", 1024);
    log.finish_request(
        "abc123", 504, false,
        Some(Duration::from_millis(120_000)), None, None,
        Some(1024), Some(512), "读空闲中止",
    );
    let l = &log.summaries(10)[0];
    assert!(l.contains("✘ 504 +2:00.0s") || l.contains("✘ 504 +120.0s"), "{l}");
    assert!(!l.contains("首包"), "缺首包应省略: {l}");
    assert!(!l.contains(" tok"), "缺 tok 应省略: {l}");
    assert!(l.contains("读空闲中止"), "{l}");
    log.finish_request("fffff1", 401, false, None, None, None, None, None, "");
    let l = &log.summaries(10)[1];
    assert!(l.contains("[fffff1] - ✘ 401"), "{l}");
}

#[test]
fn summary_ring_buffer_evicts_oldest() {
    let mut log = Logger::disabled();
    for i in 0..250 {
        let id = format!("r{i:05x}");
        log.start_request(&id, Some("m"), "POST", "/c", "https://x.example/c", 1);
        log.finish_request(&id, 200, true, None, None, None, Some(1), None, "");
    }
    let s = log.summaries(500);
    assert_eq!(s.len(), 200, "容量上限 200");
    assert!(!s[0].contains("[r00000]"), "{}", s[0]);
    assert!(s.last().unwrap().contains("[r000f9]"), "{}", s.last().unwrap());
    assert_eq!(log.summaries(500).len(), 200);
    assert!(s[0].contains("[r00032]"), "{}", s[0]);
    assert_eq!(log.summaries(3), s[197..].to_vec());
    assert!(log.summaries(0).is_empty());
}

#[test]
fn lines_go_to_the_file_in_plain_text() {
    let mut log = plain_log();
    let mut out = Vec::new();
    log.info_at(&mut out, STAMP, "hello");
    log.warn_at(&mut out, STAMP, "careful".to_string());
    log.error_at(&mut out, STAMP, "[6f11b1] bad");
    log.debug_at(&mut out, STAMP, "unseen");
    assert_eq!(
        out,
        vec![
            print("2026-09-06 17:45:04.322 [INFO ] hello\n"),
            append("2026-09-06 17:45:04.322 [INFO ] hello"),
            print("2026-09-06 17:45:04.322 [WARN ] careful\n"),
            append("2026-09-06 17:45:04.322 [WARN ] careful"),
            print("2026-09-06 17:45:04.322 [ERROR] [6f11b1] bad\n"),
            append("2026-09-06 17:45:04.322 [ERROR] [6f11b1] bad"),
        ]
    );
}

#[test]
fn a_terminal_gets_colors() {
    let mut log = color_log();
    let mut out = Vec::new();
    log.error_at(&mut out, STAMP, "[6f11b1] bad");
    log.warn_at(&mut out, STAMP, "w".to_string());
    log.debug_at(&mut out, STAMP, "d");
    assert_eq!(
        out,
        vec![
            print("2026-09-06 17:45:04.322 [\x1b[1;31mERROR\x1b[0m] \x1b[36m[6f11b1]\x1b[0m bad\n"),
            append("2026-09-06 17:45:04.322 [ERROR] [6f11b1] bad"),
            print("2026-09-06 17:45:04.322 [\x1b[1;33mWARN \x1b[0m] w\n"),
            append("2026-09-06 17:45:04.322 [WARN ] w"),
            print("2026-09-06 17:45:04.322 [\x1b[2mDEBUG\x1b[0m] d\n"),
            append("2026-09-06 17:45:04.322 [DEBUG] d"),
        ]
    );
}

#[test]
fn requests_on_a_terminal() {
    let mut log = color_log();
    let mut out = Vec::new();
    log.start_request_at(&mut out, STAMP, "3fcef8", Some("glm-5.3-flash"), "POST", "/chat/completions", UPSTREAM, 111_202);
    log.finish_request_at(
        &mut out, "2026-09-06 17:45:30.405", "3fcef8", 200, true,
        Some(Duration::from_millis(26_080)), Some(Duration::from_millis(3833)),
        Some(30214), Some(111_202), Some(173_432), "",
    );
    log.finish_request_at(&mut out, STAMP, "ab", 502, false, None, None, None, None, None, "上游连接失败");
    log.finish_request_at(&mut out, STAMP, "ab", 200, true, None, None, None, None, None, "note");
    assert_eq!(
        out,
        vec![
            print("\x1b[2m17:45:04.322\x1b[0m \x1b[1;36m▶\x1b[0m \x1b[1;36m[3fcef8]\x1b[0m \x1b[1mglm-5.3-flash\x1b[0m \x1b[34m→ bigmodel.cn/chat/completions\x1b[0m \x1b[1;32m↑\x1b[0m \x1b[2m108.6KB\x1b[0m\n"),
            append("2026-09-06 17:45:04.322 [INFO ] [3fcef8] -> glm-5.3-flash POST /chat/completions (req 108.6KB) 转发至 https://open.bigmodel.cn/api/paas/v4/chat/completions"),
            print("\x1b[2m17:45:30.405\x1b[0m \x1b[1;32m✔\x1b[0m \x1b[1;36m[3fcef8]\x1b[0m \x1b[1;32m200\x1b[0m \x1b[2m·\x1b[0m \x1b[1;35m+26.1s\x1b[0m \x1b[2m·\x1b[0m \x1b[2m首包 3833ms\x1b[0m \x1b[2m·\x1b[0m \x1b[1;32m↑\x1b[0m \x1b[2m108.6KB\x1b[0m \x1b[2m·\x1b[0m \x1b[34m↓\x1b[0m \x1b[2m169.4KB\x1b[0m \x1b[2m·\x1b[0m \x1b[2m30214 tok\x1b[0m\n"),
            append("2026-09-06 17:45:30.405 [INFO ] [3fcef8] <- 200 耗时 26.08s 首包 3833ms req 108.6KB resp 169.4KB 30214 tok"),
            print("\x1b[2m17:45:04.322\x1b[0m \x1b[1;31m✘\x1b[0m \x1b[1;36m[  ab  ]\x1b[0m \x1b[1;31m502\x1b[0m \x1b[1;31m上游连接失败\x1b[0m\n"),
            append("2026-09-06 17:45:04.322 [INFO ] [ab] <- 502 上游连接失败"),
            print("\x1b[2m17:45:04.322\x1b[0m \x1b[1;32m✔\x1b[0m \x1b[1;36m[  ab  ]\x1b[0m \x1b[1;32m200\x1b[0m note\n"),
            append("2026-09-06 17:45:04.322 [INFO ] [ab] <- 200 note"),
        ]
    );
    assert_eq!(
        log.summaries(9),
        vec![
            "17:45:04.322 ▶ [3fcef8] glm-5.3-flash → bigmodel.cn/chat/completions ↑ 108.6KB · ✔ 200 +26.1s · 首包 3833ms · ↓ 169.4KB · 30214 tok",
            "17:45:04.322 ▶ [ab] - ✘ 502 上游连接失败",
            "17:45:04.322 ▶ [ab] - ✔ 200 note",
        ]
    );
}

#[test]
fn requests_in_a_pipe() {
    let mut log = plain_log();
    let mut out = Vec::new();
    log.start_request_at(&mut out, STAMP, "ab", None, "POST", "/c", "not a url", 5);
    log.progress_at(&mut out, STAMP, "ab", 2048, "\r spinner");
    let line = "2026-09-06 17:45:04.322 [INFO ] [ab] -> - POST /c (req 5B) 转发至 not a url";
    let moving = "2026-09-06 17:45:04.322 [INFO ] [ab] … ↓ 2.0KB";
    assert_eq!(
        out,
        vec![append(line), print(&format!("{line}\n")), append(moving), print(&format!("{moving}\n"))]
    );
    log.finish_request(&"ab", 200, true, None, None, None, None, None, "");
    assert_eq!(log.summaries(1), vec!["17:45:04.322 ▶ [ab] - → not a url ↑ 5B · ✔ 200"]);
}

#[test]
fn a_log_for_the_file_alone_leaves_the_terminal_alone() {
    let mut log = Logger::new_with_mode("/tmp/proxy.log", ColorMode::Always, true, true, true);
    let mut out = Vec::new();
    log.info_at(&mut out, STAMP, "x");
    log.start_request_at(&mut out, STAMP, "ab", None, "POST", "/c", "u", 5);
    log.progress_at(&mut out, STAMP, "ab", 2048, "text");
    log.finish_request_at(&mut out, STAMP, "ab", 200, true, None, None, None, None, None, "");
    log.update_status_to(&mut out, "status");
    log.clear_status_to(&mut out);
    assert_eq!(out.len(), 4);
    assert!(out.iter().all(|e| matches!(e, Effect::Append(_))));
    assert_eq!(log.file_path().as_deref(), Some("/tmp/proxy.log"));
}

#[test]
fn the_status_line_is_erased_before_a_line() {
    let mut log = color_log();
    assert_eq!(log.update_status("busy"), vec![print("\r\x1b[2Kbusy")]);
    let mut out = Vec::new();
    log.info_at(&mut out, STAMP, "x");
    assert_eq!(out[0], print("\r\x1b[2K"));
    assert_eq!(out.len(), 3);
    assert!(log.clear_status().is_empty());
    log.update_status("busy");
    assert_eq!(log.clear_status(), vec![print("\r\x1b[2K")]);
    assert!(plain_log().update_status("busy").is_empty());
}

#[test]
fn markers_and_file_lines() {
    let mut log = plain_log();
    assert_eq!(log.marker("###### x"), vec![append("###### x")]);
    let mut out = Vec::new();
    log.info_file_at(&mut out, STAMP, "bye");
    assert_eq!(out, vec![append("2026-09-06 17:45:04.322 [INFO ] bye")]);
    let mut off = Logger::disabled();
    assert!(off.marker("x").is_empty());
    assert!(off.info("x").is_empty());
    assert!(off.info_file("x").is_empty());
    assert_eq!(off.warn("x".to_string()).len(), 1);
    assert_eq!(off.file_path(), None);
}

#[test]
fn memory_keeps_lines_and_writes_nothing() {
    let mut log = Logger::memory();
    assert!(log.info("a").is_empty());
    assert!(log.error("b").is_empty());
    assert!(log.debug("c").is_empty());
    assert!(log.progress("d", 1, "e").is_empty());
    assert_eq!(log.captured(), vec!["[INFO] a", "[ERROR] b", "[INFO] [d] … ↓ 1B"]);
}

#[test]
fn stamps_have_the_form_of_a_date_and_a_time() {
    let mut log = plain_log();
    let out = log.info("x");
    let Effect::Append(line) = &out[1] else { panic!("no line for the file") };
    let b = line.as_bytes();
    assert_eq!((b[4], b[7], b[10], b[13], b[16], b[19]), (b'-', b'-', b' ', b':', b':', b'.'));
    assert!(line.ends_with(" [INFO ] x"));
    assert_eq!(line.len(), 23 + 10);
    assert_eq!(clock_of(&line[..23]).len(), 12);
}

#[test]
fn too_many_open_requests_are_forgotten() {
    let mut log = Logger::disabled();
    for i in 0..500 {
        log.start_request(&format!("{i}"), Some("m"), "POST", "/c", "u", 1);
    }
    log.start_request("last", Some("m"), "POST", "/c", "u", 1);
    log.finish_request("0", 200, true, None, None, None, None, None, "");
    log.finish_request("last", 200, true, None, None, None, None, None, "");
    let s = log.summaries(2);
    assert!(s[0].contains("[0] - ✔ 200"), "{}", s[0]);
    assert!(s[1].contains("[last] m → u ↑ 1B · ✔ 200"), "{}", s[1]);
}

#[test]
fn colors_and_rotation() {
    assert!(use_color(ColorMode::Always, false));
    assert!(!use_color(ColorMode::Never, true));
    assert!(use_color(ColorMode::Auto, true));
    assert!(!use_color(ColorMode::Auto, false));
    assert!(!rotation_due(10 * 1024 * 1024));
    assert!(rotation_due(10 * 1024 * 1024 + 1));
}
