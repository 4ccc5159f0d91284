//! The checkup: configuration, port and upstream, one conclusion on a line.
use crate::decimal::{decimal, decimal_text};
use crate::proxy::{law_address_is_base_and_path, slashes};
use crate::service::{with_pid, Process};
use crate::text::{
    chars_of, ends_with, stands_in, starts_with, text_of, trim_end_char, trim_end_char_of,
};
use vstd::prelude::*;

verus! {

/// A conclusion: a check or a cross, and a text.
pub open spec fn verdict(tty: bool, good: bool, text: Seq<char>) -> Seq<char> {
    if tty {
        if good {
            "\x1b[1;32m✓\x1b[0m  "@ + text
        } else {
            "\x1b[1;31m✗\x1b[0m  "@ + text
        }
    } else if good {
        "✓  "@ + text
    } else {
        "✗  "@ + text
    }
}

/// A note under a conclusion.
pub open spec fn note(tty: bool, text: Seq<char>) -> Seq<char> {
    if tty {
        "   \x1b[1;33m!\x1b[0m \x1b[2m"@ + text + "\x1b[0m"@
    } else {
        "   ! "@ + text
    }
}

/// A conclusion.
pub fn verdict_line(tty: bool, good: bool, text: &str) -> (r: String)
    ensures
        r@ == verdict(tty, good, text@),
{
    let mut out = if tty {
        if good {
            "\x1b[1;32m✓\x1b[0m  ".to_owned()
        } else {
            "\x1b[1;31m✗\x1b[0m  ".to_owned()
        }
    } else if good {
        "✓  ".to_owned()
    } else {
        "✗  ".to_owned()
    };
    out.append(text);
    out
}

/// A note under a conclusion.
pub fn note_line(tty: bool, text: &str) -> (r: String)
    ensures
        r@ == note(tty, text@),
{
    if tty {
        let mut out = "   \x1b[1;33m!\x1b[0m \x1b[2m".to_owned();
        out.append(text);
        out.append("\x1b[0m");
        out
    } else {
        let mut out = "   ! ".to_owned();
        out.append(text);
        out
    }
}

/// A check: whether it went well, and what is shown of it.
pub struct Check {
    pub good: bool,
    pub lines: Vec<String>,
}

/// The model of [`Check`].
#[verifier::ext_equal]
pub struct CheckView {
    pub good: bool,
    pub lines: Seq<Seq<char>>,
}

impl View for Check {
    type V = CheckView;

    open spec fn view(&self) -> CheckView {
        CheckView { good: self.good, lines: self.lines.deep_view() }
    }
}

fn one_line_check(good: bool, line: String) -> (r: Check)
    ensures
        r@ == (CheckView { good, lines: seq![line@] }),
{
    let mut lines: Vec<String> = Vec::new();
    lines.push(line);
    assert(lines.deep_view() =~= seq![line@]);
    Check { good, lines }
}

fn two_line_check(good: bool, first: String, second: String) -> (r: Check)
    ensures
        r@ == (CheckView { good, lines: seq![first@, second@] }),
{
    let mut lines: Vec<String> = Vec::new();
    lines.push(first);
    lines.push(second);
    assert(lines.deep_view() =~= seq![first@, second@]);
    Check { good, lines }
}

/// The check of the configuration: whether the log can be written.
pub open spec fn config_checked(
    tty: bool,
    writable: bool,
    config_path: Seq<char>,
    port: nat,
    addr: Seq<char>,
    timeout_secs: nat,
    log_dir: Seq<char>,
) -> CheckView {
    CheckView {
        good: writable,
        lines: seq![
            verdict(tty, writable, "配置文件 "@ + config_path),
            note(
                tty,
                if writable {
                    "port="@ + decimal(port) + " · addr="@ + addr + " · timeout="@ + decimal(
                        timeout_secs,
                    ) + "s"@
                } else {
                    "日志目录不可写: "@ + log_dir
                },
            ),
        ],
    }
}

/// The check of the configuration.
pub fn check_config(
    tty: bool,
    writable: bool,
    config_path: &str,
    port: u16,
    addr: &str,
    timeout_secs: u64,
    log_dir: &str,
) -> (r: Check)
    ensures
        r@ == config_checked(
            tty,
            writable,
            config_path@,
            port as nat,
            addr@,
            timeout_secs as nat,
            log_dir@,
        ),
        r.good == writable,
{
    let mut head = "配置文件 ".to_owned();
    head.append(config_path);
    let text = if writable {
        let mut t = "port=".to_owned();
        t.append(decimal_text(port as u128).as_str());
        t.append(" · addr=");
        t.append(addr);
        t.append(" · timeout=");
        t.append(decimal_text(timeout_secs as u128).as_str());
        t.append("s");
        t
    } else {
        let mut t = "日志目录不可写: ".to_owned();
        t.append(log_dir);
        t
    };
    two_line_check(
        writable,
        verdict_line(tty, writable, head.as_str()),
        note_line(tty, text.as_str()),
    )
}

/// The check of the port: free, held by this service, or held by another process.
pub open spec fn port_checked(tty: bool, bind: Seq<char>, taken: bool, p: Process) -> CheckView {
    if !taken {
        CheckView { good: true, lines: seq![verdict(tty, true, "端口 "@ + bind + " 空闲"@)] }
    } else {
        match p {
            Process::Alive(pid) => CheckView {
                good: true,
                lines: seq![
                    verdict(
                        tty,
                        true,
                        with_pid("端口 "@ + bind + " 本代理运行中 (pid "@, pid, ")"@),
                    ),
                    note(tty, "如需重新监听：piglmbridger service restart"@),
                ],
            },
            _ => CheckView {
                good: false,
                lines: seq![
                    verdict(tty, false, "端口 "@ + bind + " 已被其他进程占用"@),
                    note(
                        tty,
                        "代理将无法监听；若是残留进程请结束它，或换端口（--port / config.toml）"@,
                    ),
                ],
            },
        }
    }
}

/// The check of the port.
pub fn check_port(tty: bool, bind: &str, taken: bool, p: Process) -> (r: Check)
    ensures
        r@ == port_checked(tty, bind@, taken, p),
        r.good <==> !taken || p is Alive,
{
    let mut text = "端口 ".to_owned();
    text.append(bind);
    if !taken {
        text.append(" 空闲");
        return one_line_check(true, verdict_line(tty, true, text.as_str()));
    }
    match p {
        Process::Alive(pid) => {
            text.append(" 本代理运行中 (pid ");
            text.append(decimal_text(pid as u128).as_str());
            text.append(")");
            two_line_check(
                true,
                verdict_line(tty, true, text.as_str()),
                note_line(tty, "如需重新监听：piglmbridger service restart"),
            )
        },
        _ => {
            text.append(" 已被其他进程占用");
            two_line_check(
                false,
                verdict_line(tty, false, text.as_str()),
                note_line(
                    tty,
                    "代理将无法监听；若是残留进程请结束它，或换端口（--port / config.toml）",
                ),
            )
        },
    }
}

/// The address that upstream is tried at.
pub fn probe_url(upstream: &str) -> (r: String)
    ensures
        r@ == trim_end_char(upstream@, '/') + "/chat/completions"@,
        forall|base: Seq<char>, n: nat|
            upstream@ == #[trigger] (base + slashes(n)) && (base.len() == 0 || base.last() != '/')
                ==> r@ == base + "/chat/completions"@,
{
    proof {
        assert forall|base: Seq<char>, n: nat|
            upstream@ == #[trigger] (base + slashes(n)) && (base.len() == 0 || base.last() != '/')
            implies trim_end_char(upstream@, '/') + "/chat/completions"@ == base
            + "/chat/completions"@ by {
            law_upstream_is_tried_at_its_address(base, n);
        }
    }
    let cs = chars_of(upstream);
    let mut out = text_of(trim_end_char_of(cs.as_slice(), '/'));
    out.append("/chat/completions");
    out
}

/// The check of upstream by the status of its answer, and by whether a key was shown.
pub open spec fn upstream_checked(
    tty: bool,
    upstream: Seq<char>,
    status: nat,
    with_key: bool,
) -> CheckView {
    let reached = decimal(status) + " "@ + upstream + " 上游可达"@;
    if status == 200 {
        CheckView {
            good: true,
            lines: seq![verdict(tty, true, reached), note(tty, "key 有效，模型可用"@)],
        }
    } else if status == 401 && !with_key {
        CheckView {
            good: true,
            lines: seq![verdict(tty, true, reached), note(tty, "未带 key，被要求鉴权属预期"@)],
        }
    } else if status == 401 {
        CheckView {
            good: false,
            lines: seq![verdict(tty, false, reached), note(tty, "key 被拒绝"@)],
        }
    } else {
        CheckView {
            good: false,
            lines: seq![
                verdict(tty, false, decimal(status) + " "@ + upstream + " 上游异常响应"@),
            ],
        }
    }
}

/// The check of upstream by the status of its answer.
pub fn check_upstream(tty: bool, upstream: &str, status: u16, with_key: bool) -> (r: Check)
    ensures
        r@ == upstream_checked(tty, upstream@, status as nat, with_key),
        r.good <==> status == 200 || (status == 401 && !with_key),
        r.good ==> marked_good(r@.lines[0], tty),
        !r.good ==> marked_bad(r@.lines[0], tty),
        status != 200 && status != 401 ==> r@.lines.len() == 1,
{
    proof {
        law_upstream_is_good_where_it_answers(tty, upstream@, status as nat, with_key);
    }
    let mut text = decimal_text(status as u128);
    text.append(" ");
    text.append(upstream);
    if status == 200 {
        text.append(" 上游可达");
        two_line_check(
            true,
            verdict_line(tty, true, text.as_str()),
            note_line(tty, "key 有效，模型可用"),
        )
    } else if status == 401 && !with_key {
        text.append(" 上游可达");
        two_line_check(
            true,
            verdict_line(tty, true, text.as_str()),
            note_line(tty, "未带 key，被要求鉴权属预期"),
        )
    } else if status == 401 {
        text.append(" 上游可达");
        two_line_check(
            false,
            verdict_line(tty, false, text.as_str()),
            note_line(tty, "key 被拒绝"),
        )
    } else {
        text.append(" 上游异常响应");
        one_line_check(false, verdict_line(tty, false, text.as_str()))
    }
}

/// The check of upstream where it could not be asked.
pub fn upstream_unreachable(tty: bool, upstream: &str, what: &str, error: &str) -> (r: Check)
    ensures
        r@ == (CheckView {
            good: false,
            lines: seq![
                verdict(tty, false, "上游 "@ + upstream@ + " "@ + what@ + ": "@ + error@),
            ],
        }),
{
    let mut text = "上游 ".to_owned();
    text.append(upstream);
    text.append(" ");
    text.append(what);
    text.append(": ");
    text.append(error);
    one_line_check(false, verdict_line(tty, false, text.as_str()))
}

/// The exit code of the checkup: 0 where every check went well, else 1.
pub fn exit_code(checks: &Vec<Check>) -> (r: i32)
    ensures
        r == 0 || r == 1,
        r == 0 <==> forall|i: int| 0 <= i < checks@.len() ==> (#[trigger] checks@[i]).good,
{
    for i in 0..checks.len()
        invariant
            forall|j: int| 0 <= j < i ==> (#[trigger] checks@[j]).good,
    {
        if !checks[i].good {
            return 1;
        }
    }
    0
}

// ---------------------------------------------------------------------------
// What a conclusion means
// ---------------------------------------------------------------------------

/// The mark at the start of a conclusion.
pub open spec fn marked_good(line: Seq<char>, tty: bool) -> bool {
    starts_with(
        line,
        if tty {
            "\x1b[1;32m✓\x1b[0m  "@
        } else {
            "✓  "@
        },
    )
}

/// The mark at the start of a conclusion that is not good.
pub open spec fn marked_bad(line: Seq<char>, tty: bool) -> bool {
    starts_with(
        line,
        if tty {
            "\x1b[1;31m✗\x1b[0m  "@
        } else {
            "✗  "@
        },
    )
}

/// A conclusion is a mark, and the text as it is; the mark tells a good one from another.
pub proof fn law_conclusion_is_marked(tty: bool, good: bool, text: Seq<char>)
    ensures
        good ==> marked_good(verdict(tty, good, text), tty) && !marked_bad(
            verdict(tty, good, text),
            tty,
        ),
        !good ==> marked_bad(verdict(tty, good, text), tty) && !marked_good(
            verdict(tty, good, text),
            tty,
        ),
        text.len() <= verdict(tty, good, text).len(),
        verdict(tty, good, text).skip(verdict(tty, good, text).len() - text.len()) == text,
{
    reveal_strlit("\x1b[1;32m✓\x1b[0m  ");
    reveal_strlit("\x1b[1;31m✗\x1b[0m  ");
    reveal_strlit("✓  ");
    reveal_strlit("✗  ");
    let line = verdict(tty, good, text);
    let mark = if tty {
        if good {
            "\x1b[1;32m✓\x1b[0m  "@
        } else {
            "\x1b[1;31m✗\x1b[0m  "@
        }
    } else if good {
        "✓  "@
    } else {
        "✗  "@
    };
    assert(line =~= mark + text);
    assert(line.take(mark.len() as int) =~= mark);
    assert(line.skip(line.len() - text.len()) =~= text);
    if tty {
        let other = if good {
            "\x1b[1;31m✗\x1b[0m  "@
        } else {
            "\x1b[1;32m✓\x1b[0m  "@
        };
        assert(line.take(other.len() as int)[5] == mark[5]);
    } else {
        let other = if good {
            "✗  "@
        } else {
            "✓  "@
        };
        assert(line.take(other.len() as int)[0] == mark[0]);
    }
}

/// The check of upstream is good exactly where the status is 200, or where it is 401 and no key
/// was shown. Its first line is marked so, and tells the status and the address. For a status that
/// is neither there is no other line; a key is called valid only for 200.
pub proof fn law_upstream_is_good_where_it_answers(
    tty: bool,
    upstream: Seq<char>,
    status: nat,
    with_key: bool,
)
    ensures
        ({
            let c = upstream_checked(tty, upstream, status, with_key);
            &&& c.good <==> status == 200 || (status == 401 && !with_key)
            &&& c.lines.len() == (if status == 200 || status == 401 {
                2nat
            } else {
                1nat
            })
            &&& c.good ==> marked_good(c.lines[0], tty)
            &&& !c.good ==> marked_bad(c.lines[0], tty)
            &&& ends_with(
                c.lines[0],
                decimal(status) + " "@ + upstream + (if status == 200 || status == 401 {
                    " 上游可达"@
                } else {
                    " 上游异常响应"@
                }),
            )
            &&& status == 200 ==> c.lines[1] == note(tty, "key 有效，模型可用"@)
            &&& status == 401 && with_key ==> c.lines[1] == note(tty, "key 被拒绝"@)
            &&& status == 401 && !with_key ==> c.lines[1] == note(
                tty,
                "未带 key，被要求鉴权属预期"@,
            )
        }),
{
    let text = decimal(status) + " "@ + upstream + (if status == 200 || status == 401 {
        " 上游可达"@
    } else {
        " 上游异常响应"@
    });
    law_conclusion_is_marked(tty, status == 200 || (status == 401 && !with_key), text);
}

/// A note is its text, marked as a note: two notes are the same only where their texts are.
pub proof fn law_note_is_its_text(tty: bool, a: Seq<char>, b: Seq<char>)
    ensures
        note(tty, a) == note(tty, b) ==> a == b,
        stands_in(a, note(tty, a)),
{
    let x = note(tty, a);
    let y = note(tty, b);
    let n: int = if tty {
        "   \x1b[1;33m!\x1b[0m \x1b[2m"@.len() as int
    } else {
        "   ! "@.len() as int
    };
    assert(x.subrange(n, n + a.len()) =~= a);
    if x == y {
        if tty {
            assert(x.len() == n + a.len() + "\x1b[0m"@.len());
            assert(y.len() == n + b.len() + "\x1b[0m"@.len());
        } else {
            assert(x.len() == n + a.len());
            assert(y.len() == n + b.len());
        }
        assert(y.subrange(n, n + b.len()) =~= b);
    }
}

/// The check of the port is good exactly where it is free, or where this service holds it. Its
/// first line is marked so, and names the port.
pub proof fn law_port_is_good_where_it_can_be_had(
    tty: bool,
    bind: Seq<char>,
    taken: bool,
    p: Process,
)
    ensures
        ({
            let c = port_checked(tty, bind, taken, p);
            &&& c.good <==> !taken || p is Alive
            &&& c.lines.len() == (if taken {
                2nat
            } else {
                1nat
            })
            &&& c.good ==> marked_good(c.lines[0], tty)
            &&& !c.good ==> marked_bad(c.lines[0], tty)
            &&& !taken ==> ends_with(c.lines[0], "端口 "@ + bind + " 空闲"@)
            &&& taken && p is Alive ==> ends_with(
                c.lines[0],
                "端口 "@ + bind + " 本代理运行中 (pid "@ + decimal(p->Alive_0 as nat) + ")"@,
            )
            &&& taken && !(p is Alive) ==> ends_with(
                c.lines[0],
                "端口 "@ + bind + " 已被其他进程占用"@,
            )
        }),
{
    let text = if !taken {
        "端口 "@ + bind + " 空闲"@
    } else {
        match p {
            Process::Alive(pid) => "端口 "@ + bind + " 本代理运行中 (pid "@ + decimal(pid as nat) + ")"@,
            _ => "端口 "@ + bind + " 已被其他进程占用"@,
        }
    };
    law_conclusion_is_marked(tty, !taken || p is Alive, text);
}

/// The check of the configuration is good exactly where the log can be written. It names the file,
/// and then the settings, or the directory that cannot be written.
pub proof fn law_configuration_is_good_where_the_log_is(
    tty: bool,
    writable: bool,
    config_path: Seq<char>,
    port: nat,
    addr: Seq<char>,
    timeout_secs: nat,
    log_dir: Seq<char>,
)
    ensures
        ({
            let c = config_checked(tty, writable, config_path, port, addr, timeout_secs, log_dir);
            &&& c.good <==> writable
            &&& c.lines.len() == 2
            &&& c.good ==> marked_good(c.lines[0], tty)
            &&& !c.good ==> marked_bad(c.lines[0], tty)
            &&& ends_with(c.lines[0], "配置文件 "@ + config_path)
            &&& writable ==> c.lines[1] == note(
                tty,
                "port="@ + decimal(port) + " · addr="@ + addr + " · timeout="@ + decimal(
                    timeout_secs,
                ) + "s"@,
            )
            &&& !writable ==> c.lines[1] == note(tty, "日志目录不可写: "@ + log_dir)
        }),
{
    law_conclusion_is_marked(tty, writable, "配置文件 "@ + config_path);
}

/// Upstream is tried at its address, without the slashes at its end, and the path of the main
/// route.
pub proof fn law_upstream_is_tried_at_its_address(base: Seq<char>, n: nat)
    requires
        base.len() == 0 || base.last() != '/',
    ensures
        trim_end_char(base + slashes(n), '/') + "/chat/completions"@ == base
            + "/chat/completions"@,
{
    law_address_is_base_and_path(base, n, "/chat/completions"@);
}

} // verus!
