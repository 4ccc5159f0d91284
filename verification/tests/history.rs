use piglmbridger::clock::Duration;
use piglmbridger::history::{read_log, record_of, Reading, Record};
use piglmbridger::logger::{ColorMode, Effect, Logger};

/// Reads the seconds of each record as single precision does.
fn readings(data: &[u8]) -> Vec<Reading> {
    read_log(data)
        .iter()
        .map(|r| match r.elapsed_text().map(|t| t.parse::<f32>()) {
            Some(Ok(secs)) => match std::time::Duration::try_from_secs_f32(secs) {
                Ok(d) => Reading::Span(Duration::new(d.as_secs(), d.subsec_nanos())),
                Err(_) => Reading::Unusable,
            },
            _ => Reading::Nothing,
        })
        .collect()
}

fn tail(text: &str, n: usize) -> Vec<String> {
    let data = text.as_bytes();
    Logger::file_summary_tail(data, &readings(data), n)
}

#[test]
fn file_summary_tail_parses_pairs() {
    let s = tail(
        concat_lines(&[
            "2026-09-06 17:45:04.322 [INFO ] [3fcef8] -> glm-5.3-flash POST /chat/completions (req 108.6KB) 转发至 https://open.bigmodel.cn/api/paas/v4/chat/completions\n",
            "2026-09-06 17:45:09.184 [INFO ] [3fcef8] … ↓ 6.4KB\n",
            "2026-09-06 17:45:30.405 [INFO ] [3fcef8] <- 200 耗时 26.08s 首包 3833ms req 108.6KB resp 169.4KB 30214 tok\n",
            "2026-09-06 17:48:28.410 [INFO ] [f59161] -> glm-5.3-flash POST /chat/completions (req 112.9KB) 转发至 https://open.bigmodel.cn/api/paas/v4/chat/completions\n",
            "2026-09-06 17:48:36.074 [INFO ] [f59161] <- 504 耗时 7.66s req 112.9KB 读空闲中止\n",
        ])
        .as_str(),
        50,
    );
    assert_eq!(s.len(), 2, "{s:?}");
    assert!(s[0].starts_with("17:45:04.322 "), "用开始时刻时间戳: {}", s[0]);
    assert!(s[0].contains("▶ [3fcef8] glm-5.3-flash → bigmodel.cn/chat/completions ↑ 108.6KB · ✔ 200 +26.1s · 首包 3833ms · ↓ 169.4KB · 30214 tok"), "{}", s[0]);
    assert!(s[1].contains("↑ 112.9KB · ✘ 504 +7.7s") && s[1].ends_with("读空闲中止"), "{}", s[1]);
    assert!(tail("", 50).is_empty());
}

fn concat_lines(lines: &[&str]) -> String {
    lines.concat()
}

#[test]
fn file_summary_tail_handles_multibyte() {
    let s = tail("2026-09-06 17:00:00.000 [INFO ] [ab12cd] -> m POST /路/径 (req 1B) 转发至 https://上游.example/中文\n", 50);
    assert!(s.is_empty() || s[0].contains("[ab12cd]"), "{s:?}");
}

#[test]
fn the_summary_in_memory_is_read_back_from_the_file() {
    let mut log = Logger::new_with_mode("/tmp/proxy.log", ColorMode::Never, false, true, false);
    let mut out = Vec::new();
    let url = "https://open.bigmodel.cn/api/paas/v4/chat/completions";
    log.start_request_at(&mut out, "2026-09-06 17:45:04.322", "3fcef8", Some("glm-5.3-flash"), "POST", "/chat/completions", url, 111_202);
    log.finish_request_at(
        &mut out, "2026-09-06 17:45:30.405", "3fcef8", 200, true,
        Some(Duration::from_millis(26_080)), Some(Duration::from_millis(3833)),
        Some(30214), Some(111_202), Some(173_432), "",
    );
    log.start_request_at(&mut out, "2026-09-06 17:46:00.000", "ab12cd", None, "POST", "/c", url, 7);
    log.finish_request_at(
        &mut out, "2026-09-06 17:46:01.000", "ab12cd", 504, false,
        Some(Duration::from_millis(500)), None, None, None, Some(1), "读空闲中止",
    );
    let mut file = String::new();
    for e in &out {
        let Effect::Append(line) = e else { panic!("nothing goes to the terminal") };
        file.push_str(line);
        file.push('\n');
    }
    assert_eq!(tail(&file, 10), log.summaries(10));
}

#[test]
fn a_summary_is_read_back_behind_other_lines() {
    let mut log = Logger::new_with_mode("/tmp/proxy.log", ColorMode::Never, false, true, false);
    let mut out = Vec::new();
    let url = "https://api.z.ai/api/paas/v4/chat/completions";
    log.start_request_at(&mut out, "2026-09-06 17:45:04.322", "3fcef8", Some("glm->x"), "POST", "/c", url, 9);
    out.push(Effect::Append("2026-09-06 17:45:05.000 [INFO ] [000001] <- 200".to_string()));
    out.push(Effect::Append("2026-09-06 17:45:06.000 [INFO ] 中文".to_string()));
    log.finish_request_at(
        &mut out, "2026-09-06 17:45:30.405", "3fcef8", 200, true,
        Some(Duration::from_millis(1500)), None, None, Some(9), Some(2), "重试 -> 成功",
    );
    let mut file = "\n=== 会话 ===\n2026-09-05 10:00:00.000 [INFO ] [3fcef8] -> m POST /c\n".to_string();
    for e in &out {
        let Effect::Append(line) = e else { panic!("nothing goes to the terminal") };
        file.push_str(line);
        file.push('\n');
    }
    assert_eq!(tail(&file, 10).last(), log.summaries(1).last());
}

#[test]
fn broken_lines_are_skipped() {
    let text = concat_lines(&[
        "no bracket\n",
        "x [INFO ] ] -> m POST\n",
        "x [INFO ] 中a] -> m POST /c\n",
        "x [INFO ] ] <- 200\n",
        "x [INFO ] xabc] <- 200\n",
        "x [INFO ] [a] -> m\n",
        "x [INFO ] [a] <- abc\n",
        "x [INFO ] [a] <- 70000\n",
        "x 1 [INFO ] [n] <- 200 耗时 -1s\n",
        "x 2 [INFO ] [b] <- +200 耗时 xs 首包 yms req - resp\r\n",
        "x 3 [INFO ] [c] <- 404",
    ]);
    assert_eq!(tail(&text, 10), vec!["2 ▶ [b] - ✔ 200", "3 ▶ [c] - ✘ 404"]);
    assert!(record_of("no bracket").is_none());
}

#[test]
fn the_fields_of_a_line() {
    let Some(Record::Start(s)) = record_of("d 1:2 [INFO ] [id] -> m POST /p (req 1B) 转发至  u ") else {
        panic!("no start")
    };
    assert_eq!((s.id.as_str(), s.clock.as_str(), s.model.as_str()), ("id", "1:2", "m"));
    assert_eq!((s.url.as_str(), s.req.as_str()), ("u", "1B"));
    let Some(Record::Start(s)) = record_of("d t [INFO ] [id] -> m x") else { panic!("no start") };
    assert_eq!((s.url.as_str(), s.req.as_str()), ("", "-"));
    let Some(Record::Finish(f)) = record_of("d t [INFO ] [id] <- 200 耗时 1.50s 7 tok a b") else {
        panic!("no end")
    };
    assert_eq!((f.status, f.fields.tokens), (200, Some(7)));
    assert_eq!(f.fields.elapsed.as_deref(), Some("1.50"));
    assert_eq!(f.fields.detail, vec!["a", "b"]);
    let Some(Record::Finish(f)) = record_of("d t [INFO ] [id] <- 200 resp 2B 7 times") else {
        panic!("no end")
    };
    assert_eq!(f.fields.tokens, None);
    assert_eq!(f.fields.detail, vec!["7", "times"]);
    let Some(Record::Finish(f)) = record_of("d t [INFO ] [id] <- 200 首包 5ms m x") else {
        panic!("no end")
    };
    assert_eq!(f.fields.first, Some(5));
    assert_eq!(f.fields.detail, vec!["m", "x"]);
}

#[test]
fn only_the_newest_are_read_back() {
    let mut text = String::new();
    for i in 0..230 {
        text.push_str(&format!("d t [INFO ] [{i}] <- 200\n"));
    }
    let s = tail(&text, 500);
    assert_eq!(s.len(), 200);
    assert_eq!(s[0], "t ▶ [30] - ✔ 200");
    assert_eq!(tail(&text, 1), vec!["t ▶ [229] - ✔ 200"]);
}

#[test]
fn an_ill_formed_log_is_read_as_far_as_it_goes() {
    let data = b"\xff\xfe\nd t [INFO ] [a] <- 200\n";
    assert_eq!(Logger::file_summary_tail(data, &vec![], 5), vec!["t ▶ [a] - ✔ 200"]);
}
