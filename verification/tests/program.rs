use piglmbridger::clock::Duration;
use piglmbridger::console::{banner, bullet_line, farewell, listen_failed, session_mark, status_line};
use piglmbridger::doctor::{
    check_config, check_port, check_upstream, exit_code, probe_url, upstream_unreachable,
};
use piglmbridger::log_view::{follow_from, last_lines, replay, session_start_offset};
use piglmbridger::logger::{ColorMode, Effect, Logger};
use piglmbridger::proxy::stats_line;
use piglmbridger::service::{
    daemon_args_of, describe_state, go_down, go_down_at, mark_session, parse_pid, process,
    refuse_start, stop_line, wait_on, Patience, Process,
};
use piglmbridger::settings::{
    bind_of, color_mode_of, config_file, default_log_dir, override_config, path_under, pid_file,
    wants_debug, Config, Found, Overrides,
};
use piglmbridger::state::AppState;
use piglmbridger::stats::{
    count_line, count_lines, fmt_percent, no_file, no_requests, row, show_stats, since_of, width_of,
    Totals,
};

#[test]
fn the_command_line_goes_over_the_file() {
    let c = Config::with_defaults("/logs");
    assert_eq!((c.port, c.timeout_secs, c.idle_timeout_secs), (8123, 300, 120));
    assert_eq!(c.addr, "127.0.0.1");
    assert_eq!(c.upstream, "https://open.bigmodel.cn/api/paas/v4");
    assert_eq!((c.auth_token.as_str(), c.log_dir.as_str()), ("", "/logs"));
    let c = override_config(c, Overrides { addr: None, port: Some(1), upstream: Some("u".to_string()), timeout: None });
    assert_eq!((c.port, c.timeout_secs), (1, 300));
    assert_eq!((c.addr.as_str(), c.upstream.as_str()), ("127.0.0.1", "u"));
    let c = override_config(c, Overrides { addr: Some("::1".to_string()), port: None, upstream: None, timeout: Some(9) });
    assert_eq!((c.addr.as_str(), c.upstream.as_str()), ("::1", "u"));
    assert_eq!((c.port, c.timeout_secs), (1, 9));
}

#[test]
fn only_a_missing_file_is_written() {
    let none = Config::load(Found::Missing, "/c.toml", "/logs", false);
    assert!(none.create);
    assert_eq!((none.config.port, none.config.log_dir.as_str()), (8123, "/logs"));
    assert_eq!(none.notice.as_deref(), Some("! 已生成默认配置文件: /c.toml"));
    let broken = Config::load(Found::Broken("line 1".to_string()), "/c.toml", "/logs", true);
    assert!(!broken.create);
    assert_eq!((broken.config.port, broken.config.log_dir.as_str()), (8123, "/logs"));
    assert_eq!(
        broken.notice.as_deref(),
        Some("\x1b[1;31m✗\x1b[0m 配置文件解析失败 /c.toml: line 1，使用默认配置")
    );
    let mut config = Config::with_defaults("/l");
    config.port = 9;
    let read = Config::load(Found::Settings(config), "/c.toml", "/logs", false);
    assert!(!read.create && read.notice.is_none());
    assert_eq!((read.config.port, read.config.log_dir.as_str()), (9, "/l"));
}

#[test]
fn addresses_and_arguments() {
    assert_eq!(bind_of("0.0.0.0", 8123), "0.0.0.0:8123");
    assert_eq!(bind_of("0.0.0.0:99", 8123), "0.0.0.0:99");
    assert_eq!(color_mode_of("always"), ColorMode::Always);
    assert_eq!(color_mode_of("never"), ColorMode::Never);
    assert_eq!(color_mode_of("auto"), ColorMode::Auto);
    assert_eq!(color_mode_of("ALWAYS"), ColorMode::Auto);
    assert!(wants_debug("debug") && !wants_debug("info"));
    assert_eq!(
        config_file("port = 1\n"),
        "# piglmbridger 配置文件（优先级：CLI 参数 > 此文件 > 内置默认值）\nport = 1\n"
    );
}

#[test]
fn files_of_the_service() {
    assert_eq!(pid_file("/home/a"), "/home/a/.piglmbridger/piglmbridged.pid");
    assert_eq!(Config::config_path("/home/a/"), "/home/a/.piglmbridger/config.toml");
    assert_eq!(default_log_dir("."), "./.piglmbridger/logs");
    assert_eq!(path_under("", "x"), "x");
}

#[test]
fn lines_with_marks() {
    assert_eq!(bullet_line(true, "\x1b[36m", "x"), "\x1b[36m●\x1b[0m x");
    assert_eq!(bullet_line(false, "\x1b[36m", "x"), "● x");
    assert_eq!(status_line(true, Some(true), "x"), "\x1b[1;32m✓\x1b[0m x");
    assert_eq!(status_line(true, Some(false), "x"), "\x1b[1;31m✗\x1b[0m x");
    assert_eq!(status_line(true, None, "x"), "\x1b[1;33m!\x1b[0m x");
    assert_eq!(status_line(false, None, "x"), "! x");
}

#[test]
fn the_banner() {
    assert_eq!(
        banner(false, "127.0.0.1:8123", "https://open.bigmodel.cn/v4", "/l/proxy.log"),
        vec![
            "● Listening on  127.0.0.1:8123",
            "● Upstream      https://open.bigmodel.cn/v4 (国内站，确认 key 匹配)",
            "● Log file      /l/proxy.log",
            "● Follow logs   piglmbridger log --follow",
        ]
    );
    assert_eq!(
        banner(true, "b", "u", "l"),
        vec![
            "\x1b[36m●\x1b[0m \x1b[2mListening on  \x1b[0m\x1b[36mb\x1b[0m",
            "\x1b[34m●\x1b[0m \x1b[2mUpstream      \x1b[0m\x1b[34mu\x1b[0m\x1b[2m\x1b[0m",
            "\x1b[2m●\x1b[0m \x1b[2mLog file      \x1b[0ml",
            "\x1b[2m●\x1b[0m \x1b[2mFollow logs   \x1b[0mpiglmbridger log --follow",
        ]
    );
}

#[test]
fn coming_and_going() {
    assert_eq!(
        listen_failed("b", "in use"),
        "监听 b 失败: in use（端口被占用？试试 --port 换端口，或 piglmbridger service status 查看已有实例）"
    );
    assert_eq!(session_mark("t", "b"), "###### t 启动 http://b ######");
    assert_eq!(farewell(Duration::from_millis(61_500), 3, 1), "退出 · 运行 +61.5s · 3 个请求 · 上游残断 1");
    let mut log = Logger::new_with_mode("/tmp/proxy.log", ColorMode::Never, false, false, false);
    let out = mark_session(&mut log, "b");
    let Effect::Append(line) = &out[0] else { panic!("no line") };
    assert!(line.starts_with("###### ") && line.ends_with(" 启动 http://b ######"));
    assert_eq!(line.len(), "###### 2026-09-06 17:45:04 启动 http://b ######".len());
}

#[test]
fn the_first_instant_that_is_asked_for() {
    assert_eq!(since_of((1_000_000, 7), 0), None);
    assert_eq!(since_of((1_000_000, 7), 1), Some((913_600, 7)));
    assert_eq!(since_of((0, 999_999_999), 7), Some((-604_800, 999_999_999)));
}

#[test]
fn going_down() {
    let mut app = AppState::new("u", Logger::memory(), 0, "");
    let (going, _) = go_down(&mut app, true, false);
    assert!(going.shown.is_none() && !going.wait);
    app.inflight = 2;
    let (going, out) = go_down_at(&mut app, "s", true, false);
    assert!(going.wait);
    assert_eq!(going.shown.as_deref(), Some("\n● 收到退出信号，等待 2 个在途流收尾（最长 30s）…"));
    assert!(out.is_empty());
    let (going, _) = go_down(&mut app, false, false);
    assert!(going.shown.is_none() && going.wait);
    assert_eq!(
        app.logger.captured(),
        vec![
            "[INFO] 收到退出信号，无在途流，直接退出",
            "[INFO] 收到退出信号，等待 2 个在途流收尾（最长 30s）…",
            "[INFO] 收到退出信号，等待 2 个在途流收尾（最长 30s）…",
        ]
    );
    assert_eq!(wait_on(false, Duration::from_secs(99)), Patience::Over);
    assert_eq!(wait_on(true, Duration::from_secs(30)), Patience::Wait);
    assert_eq!(wait_on(true, Duration::new(30, 1)), Patience::GiveUp);
}

#[test]
fn the_process_in_the_background() {
    assert_eq!(parse_pid(" 42\n"), Some(42));
    assert_eq!(parse_pid("4294967295"), Some(u32::MAX));
    for bad in ["", "x", "4294967296", "-1", "1 2"] {
        assert_eq!(parse_pid(bad), None);
    }
    assert_eq!(daemon_args_of(None, None), vec!["serve", "--daemon"]);
    assert_eq!(
        daemon_args_of(Some("a"), Some(7)),
        vec!["serve", "--daemon", "--addr", "a", "--port", "7"]
    );
    assert_eq!(process(None, true), Process::Unknown);
    assert_eq!(process(Some(1), true), Process::Alive(1));
    assert_eq!(process(Some(1), false), Process::Gone(1));
    assert_eq!(
        refuse_start(false, Process::Alive(5)).unwrap(),
        vec!["✗ 已有实例在运行 (pid 5)", "! 如需重启：piglmbridger service restart"]
    );
    assert!(refuse_start(false, Process::Gone(5)).is_none());
    assert_eq!(stop_line(false, Process::Unknown), "! 没有正在运行的服务（无 pid 文件）");
    assert_eq!(stop_line(false, Process::Gone(5)), "! pid 5 已不存在，清理 pid 文件");
    assert_eq!(
        stop_line(true, Process::Alive(5)),
        "\x1b[2m向 piglmbridged (pid 5) 发送 SIGTERM，等待优雅退出…\x1b[0m"
    );
    assert_eq!(
        describe_state(false, Process::Alive(5), "b", true),
        vec!["✓ 服务运行中 (pid 5)", "✓ 端口 b 可达"]
    );
    assert_eq!(
        describe_state(false, Process::Gone(5), "b", false),
        vec![
            "! pid 5 已死（stale），运行 piglmbridger service start 重新启动",
            "✗ 端口 b 不可达（未监听）",
        ]
    );
    assert_eq!(describe_state(false, Process::Unknown, "b", true)[0], "! 服务未运行（无 pid 文件）");
}

#[test]
fn the_checkup() {
    let good = check_config(false, true, "/c", 1, "a", 300, "/l");
    assert!(good.good);
    assert_eq!(good.lines, vec!["✓  配置文件 /c", "   ! port=1 · addr=a · timeout=300s"]);
    let bad = check_config(true, false, "/c", 1, "a", 300, "/l");
    assert_eq!(
        bad.lines,
        vec!["\x1b[1;31m✗\x1b[0m  配置文件 /c", "   \x1b[1;33m!\x1b[0m \x1b[2m日志目录不可写: /l\x1b[0m"]
    );
    assert_eq!(check_port(false, "b", false, Process::Unknown).lines, vec!["✓  端口 b 空闲"]);
    assert_eq!(
        check_port(false, "b", true, Process::Alive(3)).lines,
        vec!["✓  端口 b 本代理运行中 (pid 3)", "   ! 如需重新监听：piglmbridger service restart"]
    );
    let taken = check_port(false, "b", true, Process::Gone(3));
    assert!(!taken.good);
    assert_eq!(taken.lines[0], "✗  端口 b 已被其他进程占用");
    assert_eq!(probe_url("u//"), "u/chat/completions");
    assert_eq!(check_upstream(false, "u", 200, false).lines, vec!["✓  200 u 上游可达", "   ! key 有效，模型可用"]);
    assert!(check_upstream(false, "u", 401, false).good);
    let denied = check_upstream(false, "u", 401, true);
    assert_eq!(denied.lines, vec!["✗  401 u 上游可达", "   ! key 被拒绝"]);
    assert_eq!(check_upstream(false, "u", 500, true).lines, vec!["✗  500 u 上游异常响应"]);
    assert_eq!(
        upstream_unreachable(false, "u", "连接失败", "e").lines,
        vec!["✗  上游 u 连接失败: e"]
    );
    assert_eq!(exit_code(&vec![good]), 0);
    assert_eq!(exit_code(&vec![denied, bad]), 1);
    assert_eq!(exit_code(&vec![]), 0);
}

#[test]
fn statistics_add_up() {
    let lines: Vec<String> = [
        "{\"elapsed_ms\":100,\"id\":\"a\",\"status\":200,\"ts\":\"2026-09-06T00:00:00+00:00\"}",
        "not json",
        "{\"elapsed_ms\":300,\"status\":502,\"ts\":\"2026-09-07T08:00:00+08:00\"}",
        "{\"status\":\"200\",\"elapsed_ms\":-5}",
        "[]",
    ]
    .iter()
    .map(|s| s.to_string())
    .collect();
    let t = count_lines(&lines, None);
    assert_eq!((t.count, t.ok, t.err, t.total_ms, t.max_ms), (4, 1, 3, 400, 300));
    let since = 1_788_739_200; // 2026-09-07T00:00:00Z
    let t = count_lines(&lines, Some((since, 0)));
    assert_eq!((t.count, t.ok, t.err), (3, 0, 3));
    let t = count_lines(&lines, Some((since, 1)));
    assert_eq!((t.count, t.err), (2, 2));
    let mut t = Totals::new();
    count_line(&mut t, "{\"ts\":\"yesterday\",\"status\":299,\"elapsed_ms\":7}", Some((since, 0)));
    assert_eq!((t.count, t.ok, t.max_ms), (1, 1, 7));
}

#[test]
fn what_was_written_is_counted() {
    let lines = vec![
        stats_line("2026-09-06T00:00:00+00:00", "a\"\\\u{1}中", 100, 200),
        stats_line("2026-09-07T00:00:00+00:00", "b", u64::MAX, 404),
        stats_line("", "", 0, 299),
    ];
    let t = count_lines(&lines, None);
    assert_eq!((t.count, t.ok, t.err), (3, 2, 1));
    assert_eq!((t.total_ms, t.max_ms), (u64::MAX as u128 + 100, u64::MAX));
    let t = count_lines(&lines, Some((1_788_739_200, 0)));
    assert_eq!((t.count, t.ok, t.err), (2, 1, 1));
}

#[test]
fn percentages_are_shown_as_double_precision_shows_them() {
    let mut pairs: Vec<(u64, u64)> = vec![(0, 1), (1, 1), (u64::MAX, u64::MAX), (1, u64::MAX), (u64::MAX / 3, u64::MAX), ((1 << 53) + 1, (1 << 54) + 3)];
    for count in 1..130u64 {
        for ok in 0..=count {
            pairs.push((ok, count));
        }
    }
    for i in 1..3000u64 {
        let count = i.wrapping_mul(6364136223846793005).wrapping_add(1442695040888963407) >> (i % 64);
        let ok = i.wrapping_mul(0x9e37_79b9_7f4a_7c15);
        if count > 0 {
            pairs.push((ok % count, count));
            pairs.push((count / 2000, count));
        }
    }
    for (ok, count) in pairs {
        assert_eq!(
            fmt_percent(ok, count),
            format!("{:.1}", ok as f64 * 100.0 / count as f64),
            "{ok} of {count}"
        );
    }
}

#[test]
fn statistics_are_shown() {
    let t = Totals { count: 3, ok: 2, err: 1, total_ms: 4001, max_ms: 2500 };
    assert_eq!(
        show_stats(&t, 0, false, "/s"),
        vec![
            "● Stats",
            "总请求     3",
            "成功       2 (66.7%)",
            "非2xx      1",
            "平均耗时   1.3s",
            "最大耗时   2.5s",
            "数据源     /s",
        ]
    );
    let shown = show_stats(&t, 7, true, "/s");
    assert_eq!(shown[0], "\x1b[36m●\x1b[0m Stats\x1b[2m · 最近 7 天\x1b[0m");
    assert_eq!(shown[2], "\x1b[2m成功\x1b[0m       \x1b[1;32m2 (66.7%)\x1b[0m");
    assert_eq!(no_file("/s"), "● Stats · 暂无数据（/s 不存在，先跑一些请求）");
    assert_eq!(no_requests(0), "● Stats · 所选时间范围内没有请求");
    assert_eq!(no_requests(3), "● Stats · 最近 3 天 · 所选时间范围内没有请求");
    assert_eq!(width_of("非2xx"), 5);
    assert_eq!(row(false, "a", "b"), "a          b");
}

#[test]
fn the_last_lines_of_a_log() {
    assert_eq!(last_lines(b"a\nb\r\nc\n", 2).unwrap(), "b\nc\n");
    assert_eq!(last_lines(b"a\nb\r", 9).unwrap(), "a\nb\r\n");
    assert_eq!(last_lines(b"", 5).unwrap(), "\n");
    assert_eq!(last_lines(b"a\n\xff\n", 1), None);
}

#[test]
fn following_begins_at_the_last_session() {
    let mark = session_mark("t", "b");
    let log = format!("old\n{mark}\nx\n{mark}\ny\n######");
    let at = session_start_offset(log.as_bytes()).unwrap();
    assert_eq!(at, 4 + mark.len() + 1 + 2);
    assert_eq!(replay(log.as_bytes(), 1).unwrap(), format!("{mark}\ny\n######"));
    assert_eq!(session_start_offset(b"######"), None);
    assert_eq!(session_start_offset(b"\xff######\n"), None);
    assert_eq!(replay(b"a\nb\n", 1).unwrap(), "b\n");
    assert_eq!(replay(b"\xff\n######\n\xff", 1).unwrap(), "######\n\u{fffd}");
    assert_eq!(replay(b"\xff\n", 1), None);
    assert_eq!((follow_from(5, 9), follow_from(5, 4)), (5, 0));
}
