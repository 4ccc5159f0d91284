use piglmbridger::clock::Duration;
use piglmbridger::format::{
    colorize_req_ids, fmt_bytes, fmt_duration, fmt_seconds, shorten_parts, shorten_upstream,
};

fn span(d: std::time::Duration) -> Duration {
    Duration::new(d.as_secs(), d.subsec_nanos())
}

#[test]
fn colors_req_id_and_survives_multibyte() {
    let l = "2026-09-04 13:00:00.000 [ INFO] [6f11b1] 监听 127.0.0.1:8123 失败：中文行";
    let c = colorize_req_ids(l);
    assert!(c.contains("\x1b[36m[6f11b1]\x1b[0m"));
    assert!(c.contains("监听 127.0.0.1:8123 失败"));
    assert_eq!(colorize_req_ids("plain 中文 line"), "plain 中文 line");
    assert_eq!(colorize_req_ids("[zzzzzz] x"), "[zzzzzz] x");
}

#[test]
fn every_id_of_a_line_is_colored() {
    assert_eq!(
        colorize_req_ids("[[AB12cd][000000]x[123456"),
        "[\x1b[36m[AB12cd]\x1b[0m\x1b[36m[000000]\x1b[0mx[123456"
    );
    assert_eq!(colorize_req_ids("[12中345]"), "[12中345]");
}

#[test]
fn duration_and_bytes_formatting() {
    assert_eq!(fmt_duration(Duration::from_millis(0)), "+0ms");
    assert_eq!(fmt_duration(Duration::from_millis(832)), "+832ms");
    assert_eq!(fmt_duration(Duration::from_millis(999)), "+999ms");
    assert_eq!(fmt_duration(Duration::from_millis(1000)), "+1.0s");
    assert_eq!(fmt_duration(span(std::time::Duration::from_secs_f32(4.2))), "+4.2s");

    assert_eq!(fmt_bytes(0), "0B");
    assert_eq!(fmt_bytes(1023), "1023B");
    assert_eq!(fmt_bytes(1024), "1.0KB");
    assert_eq!(fmt_bytes(3277), "3.2KB");
    assert_eq!(fmt_bytes(1024 * 1024), "1.0MB");
}

#[test]
fn sizes_are_shown_as_double_precision_shows_them() {
    let mut sizes: Vec<u64> = Vec::new();
    for i in 0..2000u64 {
        sizes.push(1024 + i * 128);
        sizes.push(1024 * 1024 + i * 13107);
        sizes.push((1024 * 1024 + i * 1024 * 1024) / 20);
        sizes.push(1u64.wrapping_mul(6364136223846793005).wrapping_mul(i + 1).wrapping_add(1442695040888963407));
    }
    sizes.push(u64::MAX);
    sizes.push((1 << 53) + 1);
    sizes.push((1 << 53) + 3);
    for b in sizes {
        let expected = if b < 1024 {
            format!("{b}B")
        } else if b < 1024 * 1024 {
            format!("{:.1}KB", b as f64 / 1024.0)
        } else {
            format!("{:.1}MB", b as f64 / (1024.0 * 1024.0))
        };
        assert_eq!(fmt_bytes(b), expected);
    }
}

#[test]
fn spans_are_shown_as_single_precision_shows_them() {
    let mut spans: Vec<std::time::Duration> = Vec::new();
    for i in 0..4000u64 {
        spans.push(std::time::Duration::from_millis(1000 + i * 50));
        spans.push(std::time::Duration::from_micros(1_000_000 + i * 4999));
        let x = (i + 1).wrapping_mul(6364136223846793005).wrapping_add(1442695040888963407);
        spans.push(std::time::Duration::new(x >> (i % 60), (x % 1_000_000_000) as u32));
        spans.push(std::time::Duration::new(i, ((x >> 7) % 1_000_000_000) as u32));
    }
    spans.push(std::time::Duration::new(u64::MAX, 999_999_999));
    spans.push(std::time::Duration::new(16_777_216, 999_999_999));
    for d in spans {
        if d.as_millis() < 1000 {
            assert_eq!(fmt_duration(span(d)), format!("+{}ms", d.as_millis()));
        } else {
            assert_eq!(fmt_duration(span(d)), format!("+{:.1}s", d.as_secs_f32()));
        }
        assert_eq!(fmt_seconds(span(d)), format!("{:.2}", d.as_secs_f32()));
    }
}

#[test]
fn spans_convert() {
    let d = Duration::from_millis(3987);
    assert_eq!((d.as_secs(), d.subsec_nanos()), (3, 987_000_000));
    assert_eq!((d.as_millis(), d.as_nanos()), (3987, 3_987_000_000));
    assert_eq!(Duration::from_secs(2).as_millis(), 2000);
}

#[test]
fn shorten_upstream_variants() {
    assert_eq!(
        shorten_upstream("https://open.bigmodel.cn/api/paas/v4/chat/completions"),
        "bigmodel.cn/chat/completions"
    );
    assert_eq!(
        shorten_upstream("https://api.z.ai/api/paas/v4/chat/completions"),
        "z.ai/chat/completions"
    );
    assert_eq!(shorten_upstream("https://example.com/v1"), "example.com/v1");
    assert_eq!(shorten_upstream("https://example.com"), "example.com/");
    assert_eq!(shorten_upstream("not a url"), "not a url");
}

#[test]
fn addresses_are_shortened_by_their_parts() {
    assert_eq!(shorten_parts(None, "a//b/c/"), "unknown/b/c");
    assert_eq!(shorten_parts(Some("open.api.x".to_string()), "/"), "api.x/");
    assert_eq!(shorten_upstream("mailto:a@b"), "unknown/a@b");
}

#[test]
fn a_short_form_stays() {
    for address in [
        "https://open.bigmodel.cn/api/paas/v4/chat/completions",
        "http://api.x.cn:8080/a:b/c",
        "http://[::1]:8080/v1/x",
        "https://example.com",
        "mailto:a@b",
        "file:///a/b:c",
        "a/b:c",
        "not a url",
    ] {
        let short = shorten_upstream(address);
        assert_eq!(shorten_upstream(&short), short);
    }
    assert_eq!(shorten_upstream("http://[::1]:8080/v1/x"), "[::1]/v1/x");
}
