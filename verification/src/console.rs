//! What the program shows on the console: the banner, single lines with a mark, and what it says
//! when it goes.
use crate::clock::Duration;
use crate::decimal::{decimal, decimal_text};
use crate::format::{duration_text, fmt_duration};
use crate::text::{
    contains, contains_text, ends_with, law_contained_stands_somewhere, pad_right, padded_right,
    stands_in, starts_with,
};
use vstd::prelude::*;

verus! {

/// A line with a bullet, colored on a terminal.
pub open spec fn bullet_text(tty: bool, color: Seq<char>, text: Seq<char>) -> Seq<char> {
    if tty {
        color + "●\x1b[0m "@ + text
    } else {
        "● "@ + text
    }
}

/// A line with a bullet, colored on a terminal.
pub fn bullet_line(tty: bool, color: &str, text: &str) -> (r: String)
    ensures
        r@ == bullet_text(tty, color@, text@),
{
    if tty {
        let mut out = color.to_owned();
        out.append("●\x1b[0m ");
        out.append(text);
        out
    } else {
        let mut out = "● ".to_owned();
        out.append(text);
        out
    }
}

/// The mark of a line: a green check for good, a red cross for bad, a yellow point for neither.
pub open spec fn mark(good: Option<bool>) -> (Seq<char>, Seq<char>) {
    match good {
        Some(true) => ("✓"@, "\x1b[1;32m"@),
        Some(false) => ("✗"@, "\x1b[1;31m"@),
        None => ("!"@, "\x1b[1;33m"@),
    }
}

/// A line with a mark, colored on a terminal.
pub open spec fn marked(tty: bool, good: Option<bool>, text: Seq<char>) -> Seq<char> {
    let (sign, color) = mark(good);
    if tty {
        color + sign + "\x1b[0m "@ + text
    } else {
        sign + " "@ + text
    }
}

/// A line with a mark, colored on a terminal.
pub fn status_line(tty: bool, good: Option<bool>, text: &str) -> (r: String)
    ensures
        r@ == marked(tty, good, text@),
{
    let (sign, color) = match good {
        Some(true) => ("✓", "\x1b[1;32m"),
        Some(false) => ("✗", "\x1b[1;31m"),
        None => ("!", "\x1b[1;33m"),
    };
    if tty {
        let mut out = color.to_owned();
        out.append(sign);
        out.append("\x1b[0m ");
        out.append(text);
        out
    } else {
        let mut out = sign.to_owned();
        out.append(" ");
        out.append(text);
        out
    }
}

/// A control sequence on a terminal, and nothing elsewhere.
pub open spec fn on_tty(tty: bool, sequence: Seq<char>) -> Seq<char> {
    if tty {
        sequence
    } else {
        ""@
    }
}

/// A control sequence on a terminal, and nothing elsewhere.
pub fn if_tty<'a>(tty: bool, sequence: &'a str) -> (r: &'a str)
    ensures
        r@ == on_tty(tty, sequence@),
{
    if tty {
        sequence
    } else {
        ""
    }
}

// ---------------------------------------------------------------------------
// The banner
// ---------------------------------------------------------------------------

/// A line of the banner: a bullet, a label of fixed width, and a text.
pub open spec fn banner_text(tty: bool, color: Seq<char>, label: Seq<char>, text: Seq<char>) -> Seq<
    char,
> {
    let reset = on_tty(tty, "\x1b[0m"@);
    on_tty(tty, color) + "●"@ + reset + " "@ + on_tty(tty, "\x1b[2m"@) + pad_right(label, 14)
        + reset + text
}

fn banner_line(tty: bool, color: &str, label: &str, text: &str) -> (r: String)
    ensures
        r@ == banner_text(tty, color@, label@, text@),
{
    let mut out = if_tty(tty, color).to_owned();
    out.append("●");
    out.append(if_tty(tty, "\x1b[0m"));
    out.append(" ");
    out.append(if_tty(tty, "\x1b[2m"));
    out.append(padded_right(label, 14).as_str());
    out.append(if_tty(tty, "\x1b[0m"));
    out.append(text);
    out
}

/// The note behind the address of upstream.
pub open spec fn upstream_note(upstream: Seq<char>) -> Seq<char> {
    if contains(upstream, "bigmodel.cn"@) {
        " (国内站，确认 key 匹配)"@
    } else {
        ""@
    }
}

/// The lines of the banner: what the service listens on, where it forwards to, and where the
/// log is.
pub open spec fn banner_lines(
    tty: bool,
    bind: Seq<char>,
    upstream: Seq<char>,
    log_file: Seq<char>,
) -> Seq<Seq<char>> {
    let dim = on_tty(tty, "\x1b[2m"@);
    let cyan = on_tty(tty, "\x1b[36m"@);
    let blue = on_tty(tty, "\x1b[34m"@);
    let reset = on_tty(tty, "\x1b[0m"@);
    seq![
        banner_text(tty, "\x1b[36m"@, "Listening on"@, cyan + bind + reset),
        banner_text(
            tty,
            "\x1b[34m"@,
            "Upstream"@,
            blue + upstream + reset + dim + upstream_note(upstream) + reset,
        ),
        banner_text(tty, "\x1b[2m"@, "Log file"@, log_file),
        banner_text(tty, "\x1b[2m"@, "Follow logs"@, "piglmbridger log --follow"@),
    ]
}

/// The lines of the banner.
pub fn banner(tty: bool, bind: &str, upstream: &str, log_file: &str) -> (r: Vec<String>)
    ensures
        r.deep_view() == banner_lines(tty, bind@, upstream@, log_file@),
{
    let mut listening = if_tty(tty, "\x1b[36m").to_owned();
    listening.append(bind);
    listening.append(if_tty(tty, "\x1b[0m"));
    let mut target = if_tty(tty, "\x1b[34m").to_owned();
    target.append(upstream);
    target.append(if_tty(tty, "\x1b[0m"));
    target.append(if_tty(tty, "\x1b[2m"));
    if contains_text(upstream, "bigmodel.cn") {
        target.append(" (国内站，确认 key 匹配)");
    } else {
        target.append("");
    }
    target.append(if_tty(tty, "\x1b[0m"));
    let mut out: Vec<String> = Vec::new();
    out.push(banner_line(tty, "\x1b[36m", "Listening on", listening.as_str()));
    out.push(banner_line(tty, "\x1b[34m", "Upstream", target.as_str()));
    out.push(banner_line(tty, "\x1b[2m", "Log file", log_file));
    out.push(banner_line(tty, "\x1b[2m", "Follow logs", "piglmbridger log --follow"));
    assert(out.deep_view() =~= banner_lines(tty, bind@, upstream@, log_file@));
    out
}

// ---------------------------------------------------------------------------
// Coming and going
// ---------------------------------------------------------------------------

/// What is said where the service cannot listen.
pub fn listen_failed(bind: &str, error: &str) -> (r: String)
    ensures
        r@ == "监听 "@ + bind@ + " 失败: "@ + error@
            + "（端口被占用？试试 --port 换端口，或 piglmbridger service status 查看已有实例）"@,
{
    let mut out = "监听 ".to_owned();
    out.append(bind);
    out.append(" 失败: ");
    out.append(error);
    out.append("（端口被占用？试试 --port 换端口，或 piglmbridger service status 查看已有实例）");
    out
}

/// The line in the log file with which a session begins.
pub open spec fn session_text(time: Seq<char>, bind: Seq<char>) -> Seq<char> {
    "###### "@ + time + " 启动 http://"@ + bind + " ######"@
}

/// The line in the log file with which a session begins.
pub fn session_mark(time: &str, bind: &str) -> (r: String)
    ensures
        r@ == session_text(time@, bind@),
{
    let mut out = "###### ".to_owned();
    out.append(time);
    out.append(" 启动 http://");
    out.append(bind);
    out.append(" ######");
    out
}

/// What is said at the end: how long the service ran, how many requests came, and how many
/// streams upstream broke off.
pub open spec fn farewell_text(uptime: nat, requests: nat, dropped: nat) -> Seq<char> {
    "退出 · 运行 "@ + duration_text(uptime) + " · "@ + decimal(requests) + " 个请求 · 上游残断 "@
        + decimal(dropped)
}

/// What is said at the end.
pub fn farewell(uptime: Duration, requests: u64, dropped: u64) -> (r: String)
    ensures
        r@ == farewell_text(uptime@, requests as nat, dropped as nat),
{
    let mut out = "退出 · 运行 ".to_owned();
    out.append(fmt_duration(uptime).as_str());
    out.append(" · ");
    out.append(decimal_text(requests as u128).as_str());
    out.append(" 个请求 · 上游残断 ");
    out.append(decimal_text(dropped as u128).as_str());
    out
}

/// What is said at the end tells how long the service ran, how many requests came, and how many
/// streams were broken off.
pub proof fn law_farewell_tells_the_counts(uptime: nat, requests: nat, dropped: nat)
    ensures
        ({
            let s = farewell_text(uptime, requests, dropped);
            &&& stands_in("运行 "@ + duration_text(uptime), s)
            &&& stands_in(decimal(requests) + " 个请求"@, s)
            &&& ends_with(s, "上游残断 "@ + decimal(dropped))
        }),
{
    reveal_strlit("退出 · 运行 ");
    reveal_strlit("运行 ");
    reveal_strlit(" · ");
    reveal_strlit(" 个请求 · 上游残断 ");
    reveal_strlit(" 个请求");
    reveal_strlit("上游残断 ");
    let s = farewell_text(uptime, requests, dropped);
    let a = "运行 "@ + duration_text(uptime);
    assert(s.subrange(5int, 5int + a.len()) =~= a);
    let b = decimal(requests) + " 个请求"@;
    let k = 5 + a.len() + 3;
    assert(s.subrange(k as int, k as int + b.len()) =~= b);
    let c = "上游残断 "@ + decimal(dropped);
    assert(s.skip(s.len() - c.len()) =~= c);
}

/// A line with a mark is the mark and the text: a check for good, a cross for bad, an exclamation
/// mark for neither.
pub proof fn law_mark_tells_good_from_bad(good: Option<bool>, text: Seq<char>)
    ensures
        marked(false, good, text) == (match good {
            Some(true) => "✓ "@,
            Some(false) => "✗ "@,
            None => "! "@,
        }) + text,
        marked(true, good, text) == (match good {
            Some(true) => "\x1b[1;32m✓\x1b[0m "@,
            Some(false) => "\x1b[1;31m✗\x1b[0m "@,
            None => "\x1b[1;33m!\x1b[0m "@,
        }) + text,
{
    reveal_strlit(" ");
    reveal_strlit("✓");
    reveal_strlit("✗");
    reveal_strlit("!");
    reveal_strlit("✓ ");
    reveal_strlit("✗ ");
    reveal_strlit("! ");
    reveal_strlit("\x1b[1;32m");
    reveal_strlit("\x1b[1;31m");
    reveal_strlit("\x1b[1;33m");
    reveal_strlit("\x1b[0m ");
    reveal_strlit("\x1b[1;32m✓\x1b[0m ");
    reveal_strlit("\x1b[1;31m✗\x1b[0m ");
    reveal_strlit("\x1b[1;33m!\x1b[0m ");
    let (sign, color) = mark(good);
    assert(sign + " "@ =~= match good {
        Some(true) => "✓ "@,
        Some(false) => "✗ "@,
        None => "! "@,
    });
    assert(color + sign + "\x1b[0m "@ =~= match good {
        Some(true) => "\x1b[1;32m✓\x1b[0m "@,
        Some(false) => "\x1b[1;31m✗\x1b[0m "@,
        None => "\x1b[1;33m!\x1b[0m "@,
    });
}

/// The banner tells what the service listens on, where it forwards to, and where the log is, one
/// on a line.
pub proof fn law_banner_tells_the_settings(
    tty: bool,
    bind: Seq<char>,
    upstream: Seq<char>,
    log_file: Seq<char>,
)
    ensures
        ({
            let lines = banner_lines(tty, bind, upstream, log_file);
            &&& lines.len() == 4
            &&& stands_in(bind, lines[0])
            &&& stands_in(upstream, lines[1])
            &&& ends_with(lines[2], log_file)
        }),
{
    let lines = banner_lines(tty, bind, upstream, log_file);
    let reset = on_tty(tty, "\x1b[0m"@);
    let cyan = on_tty(tty, "\x1b[36m"@);
    let blue = on_tty(tty, "\x1b[34m"@);
    let a = lines[0];
    let k = a.len() - reset.len() - bind.len();
    assert(a.subrange(k, k + bind.len()) =~= bind);
    let b = lines[1];
    let tail = reset + on_tty(tty, "\x1b[2m"@) + upstream_note(upstream) + reset;
    let m = b.len() - tail.len() - upstream.len();
    assert(b.subrange(m, m + upstream.len()) =~= upstream);
    let c = lines[2];
    assert(c.skip(c.len() - log_file.len()) =~= log_file);
}

/// The banner warns of the key where upstream is that of the mainland, and nowhere else.
pub proof fn law_banner_warns_of_the_key(upstream: Seq<char>)
    ensures
        stands_in("bigmodel.cn"@, upstream) ==> upstream_note(upstream)
            == " (国内站，确认 key 匹配)"@,
        !stands_in("bigmodel.cn"@, upstream) ==> upstream_note(upstream).len() == 0,
{
    reveal_strlit("");
    law_contained_stands_somewhere(upstream, "bigmodel.cn"@);
}

/// The mark of a session tells when it began, and where it listens.
pub proof fn law_session_mark_tells_the_address(time: Seq<char>, bind: Seq<char>)
    ensures
        starts_with(session_text(time, bind), "###### "@ + time + " "@),
        stands_in("http://"@ + bind + " "@, session_text(time, bind)),
{
    reveal_strlit(" ");
    reveal_strlit("http://");
    reveal_strlit(" 启动 http://");
    reveal_strlit(" ######");
    let s = session_text(time, bind);
    let front = "###### "@ + time + " "@;
    assert(s.take(front.len() as int) =~= front);
    let shown = "http://"@ + bind + " "@;
    let n = "###### "@.len() + time.len() + 4;
    assert(s.subrange(n as int, n as int + shown.len()) =~= shown);
}

} // verus!
