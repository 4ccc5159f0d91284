//! The life of the service: starting it in the background, stopping it, asking for its state,
//! and letting the requests that are under way come to their end.
use crate::clock::{is_stamp, local_stamp, Duration};
use crate::console::{bullet_line, bullet_text, marked, session_mark, session_text, status_line};
use crate::decimal::{
    all_digits, decimal, decimal_text, decimal_value, is_digit, lemma_decimal_is_parsed,
    lemma_decimal_reads_back, parse_unsigned, parsed,
};
use crate::logger::{
    begin, info_file_run, info_run, marker_run, run, Effect, EffectView, Logger, Run,
};
use crate::state::{AppState, AppView};
use crate::text::{
    chars_of, head_of, opt_string, stands_in, text_of, trim, trim_end, trim_start, trim_text,
    white_space,
};
use vstd::prelude::*;

verus! {

/// How long the end of requests, or of the process, is waited for.
pub const GRACE_NANOS: u128 = 30_000_000_000;

// ---------------------------------------------------------------------------
// The process in the background
// ---------------------------------------------------------------------------

/// The process id in the text of its file.
pub open spec fn pid_in(text: Seq<char>) -> Option<nat> {
    parsed(trim(text), u32::MAX as nat)
}

/// Reads a process id.
pub fn parse_pid(raw: &str) -> (r: Option<u32>)
    ensures
        (match r {
            Some(pid) => pid_in(raw@) == Some(pid as nat),
            None => pid_in(raw@) is None,
        }),
{
    match parse_unsigned(chars_of(trim_text(raw).as_str()).as_slice(), 0xffff_ffff) {
        Some(pid) => Some(pid as u32),
        None => None,
    }
}

/// The id of a process reads as what it is, with or without white space around it.
pub proof fn law_pid_reads_back(before: Seq<char>, pid: nat, after: Seq<char>)
    requires
        pid <= u32::MAX,
        forall|i: int| 0 <= i < before.len() ==> #[trigger] before[i] == ' ' || before[i] == '\n',
        forall|i: int| 0 <= i < after.len() ==> #[trigger] after[i] == ' ' || after[i] == '\n',
    ensures
        pid_in(before + decimal(pid) + after) == Some(pid),
{
    let d = decimal(pid);
    lemma_decimal_reads_back(pid);
    lemma_decimal_is_parsed(pid, u32::MAX as nat);
    assert(is_digit(d[0]) && is_digit(d[d.len() - 1]));
    lemma_trimmed_front(before, d + after);
    lemma_trimmed_end(d, after);
    assert(before + d + after =~= before + (d + after));
}

proof fn lemma_trimmed_front(w: Seq<char>, s: Seq<char>)
    requires
        forall|i: int| 0 <= i < w.len() ==> #[trigger] w[i] == ' ' || w[i] == '\n',
        s.len() > 0 && !white_space(s[0]),
    ensures
        trim_start(w + s) == s,
    decreases w.len(),
{
    let t = w + s;
    if w.len() > 0 {
        assert(w[0] == ' ' || w[0] == '\n');
        let v = w.skip(1);
        assert forall|i: int| 0 <= i < v.len() implies #[trigger] v[i] == ' ' || v[i] == '\n' by {
            assert(v[i] == w[i + 1]);
        }
        lemma_trimmed_front(v, s);
        assert(t.skip(1) =~= v + s);
    } else {
        assert(t =~= s);
    }
}

proof fn lemma_trimmed_end(s: Seq<char>, w: Seq<char>)
    requires
        forall|i: int| 0 <= i < w.len() ==> #[trigger] w[i] == ' ' || w[i] == '\n',
        s.len() > 0 && !white_space(s.last()),
    ensures
        trim_end(s + w) == s,
    decreases w.len(),
{
    let t = s + w;
    if w.len() > 0 {
        assert(w[w.len() - 1] == ' ' || w[w.len() - 1] == '\n');
        let v = w.drop_last();
        assert forall|i: int| 0 <= i < v.len() implies #[trigger] v[i] == ' ' || v[i] == '\n' by {
            assert(v[i] == w[i]);
        }
        lemma_trimmed_end(s, v);
        assert(t.drop_last() =~= s + v);
    } else {
        assert(t =~= s);
    }
}

/// The arguments with which the process in the background is started.
pub open spec fn daemon_args(addr: Option<Seq<char>>, port: Option<nat>) -> Seq<Seq<char>> {
    seq!["serve"@, "--daemon"@] + (match addr {
        Some(a) => seq!["--addr"@, a],
        None => seq![],
    }) + (match port {
        Some(p) => seq!["--port"@, decimal(p)],
        None => seq![],
    })
}

/// The arguments with which the process in the background is started.
pub fn daemon_args_of(addr: Option<&str>, port: Option<u16>) -> (r: Vec<String>)
    ensures
        r.deep_view() == daemon_args(
            crate::text::opt_str(addr),
            match port {
                Some(p) => Some(p as nat),
                None => None,
            },
        ),
{
    let mut out: Vec<String> = Vec::new();
    out.push("serve".to_owned());
    out.push("--daemon".to_owned());
    assert(out.deep_view() =~= seq!["serve"@, "--daemon"@]);
    let ghost first = out.deep_view();
    if let Some(a) = addr {
        out.push("--addr".to_owned());
        out.push(a.to_owned());
        assert(out.deep_view() =~= first + seq!["--addr"@, a@]);
    } else {
        assert(out.deep_view() =~= first + Seq::<Seq<char>>::empty());
    }
    let ghost second = out.deep_view();
    if let Some(p) = port {
        let text = decimal_text(p as u128);
        out.push("--port".to_owned());
        out.push(text);
        assert(out.deep_view() =~= second + seq!["--port"@, text@]);
    } else {
        assert(out.deep_view() =~= second + Seq::<Seq<char>>::empty());
    }
    out
}

/// What is known of the process in the background.
#[derive(Clone, Copy, PartialEq, Eq, Structural, Debug)]
pub enum Process {
    /// There is no file with its id.
    Unknown,
    /// Its id is known, and it is alive.
    Alive(u32),
    /// Its id is known, and it is gone.
    Gone(u32),
}

/// What is known of the process, by its id and whether that is alive.
pub fn process(pid: Option<u32>, alive: bool) -> (r: Process)
    ensures
        r == (match pid {
            None => Process::Unknown,
            Some(pid) => if alive {
                Process::Alive(pid)
            } else {
                Process::Gone(pid)
            },
        }),
{
    match pid {
        None => Process::Unknown,
        Some(pid) => if alive {
            Process::Alive(pid)
        } else {
            Process::Gone(pid)
        },
    }
}

/// A text with a process id in it.
pub open spec fn with_pid(before: Seq<char>, pid: u32, after: Seq<char>) -> Seq<char> {
    before + decimal(pid as nat) + after
}

fn around_pid(before: &str, pid: u32, after: &str) -> (r: String)
    ensures
        r@ == with_pid(before@, pid, after@),
{
    let mut out = before.to_owned();
    out.append(decimal_text(pid as u128).as_str());
    out.append(after);
    out
}

/// Whether the service can be started: not where it runs already, which is then told.
pub open spec fn start_refused(tty: bool, p: Process) -> Option<Seq<Seq<char>>> {
    match p {
        Process::Alive(pid) => Some(
            seq![
                marked(tty, Some(false), with_pid("已有实例在运行 (pid "@, pid, ")"@)),
                marked(tty, None, "如需重启：piglmbridger service restart"@),
            ],
        ),
        _ => None,
    }
}

/// Why the service cannot be started, if it cannot.
pub fn refuse_start(tty: bool, p: Process) -> (r: Option<Vec<String>>)
    ensures
        (match r {
            Some(lines) => start_refused(tty, p) == Some(lines.deep_view()),
            None => start_refused(tty, p) is None,
        }),
        r is Some <==> p is Alive,
{
    match p {
        Process::Alive(pid) => {
            let mut lines: Vec<String> = Vec::new();
            let text = around_pid("已有实例在运行 (pid ", pid, ")");
            lines.push(status_line(tty, Some(false), text.as_str()));
            lines.push(status_line(tty, None, "如需重启：piglmbridger service restart"));
            assert(lines.deep_view() =~= start_refused(tty, p)->0);
            Some(lines)
        },
        _ => None,
    }
}

/// What is said before the service is stopped.
pub open spec fn stop_text(tty: bool, p: Process) -> Seq<char> {
    match p {
        Process::Unknown => marked(tty, None, "没有正在运行的服务（无 pid 文件）"@),
        Process::Gone(pid) => marked(tty, None, with_pid("pid "@, pid, " 已不存在，清理 pid 文件"@)),
        Process::Alive(pid) => {
            let text = with_pid(
                "向 piglmbridged (pid "@,
                pid,
                ") 发送 SIGTERM，等待优雅退出…"@,
            );
            if tty {
                "\x1b[2m"@ + text + "\x1b[0m"@
            } else {
                text
            }
        },
    }
}

/// What is said before the service is stopped.
pub fn stop_line(tty: bool, p: Process) -> (r: String)
    ensures
        r@ == stop_text(tty, p),
{
    match p {
        Process::Unknown => status_line(tty, None, "没有正在运行的服务（无 pid 文件）"),
        Process::Gone(pid) => {
            let text = around_pid("pid ", pid, " 已不存在，清理 pid 文件");
            status_line(tty, None, text.as_str())
        },
        Process::Alive(pid) => {
            let text = around_pid("向 piglmbridged (pid ", pid, ") 发送 SIGTERM，等待优雅退出…");
            if tty {
                let mut out = "\x1b[2m".to_owned();
                out.append(text.as_str());
                out.append("\x1b[0m");
                out
            } else {
                text
            }
        },
    }
}

/// What is done while an end is waited for.
#[derive(Clone, Copy, PartialEq, Eq, Structural, Debug)]
pub enum Patience {
    /// It has come.
    Over,
    /// Wait on.
    Wait,
    /// It did not come in time.
    GiveUp,
}

/// Whether to wait on for an end, after having waited for a while.
pub open spec fn patience(pending: bool, waited: nat) -> Patience {
    if !pending {
        Patience::Over
    } else if waited > GRACE_NANOS {
        Patience::GiveUp
    } else {
        Patience::Wait
    }
}

/// Whether to wait on for an end, after having waited for a while.
pub fn wait_on(pending: bool, waited: Duration) -> (r: Patience)
    ensures
        r == patience(pending, waited@),
        r is Over <==> !pending,
        r is GiveUp <==> pending && waited@ > 30_000_000_000,
{
    if !pending {
        Patience::Over
    } else if waited.as_nanos() > GRACE_NANOS {
        Patience::GiveUp
    } else {
        Patience::Wait
    }
}

/// What is said of the state of the service, and whether its port can be reached.
pub open spec fn state_lines(tty: bool, p: Process, bind: Seq<char>, reachable: bool) -> Seq<
    Seq<char>,
> {
    seq![
        match p {
            Process::Alive(pid) => marked(tty, Some(true), with_pid("服务运行中 (pid "@, pid, ")"@)),
            Process::Gone(pid) => marked(
                tty,
                None,
                with_pid("pid "@, pid, " 已死（stale），运行 piglmbridger service start 重新启动"@),
            ),
            Process::Unknown => marked(tty, None, "服务未运行（无 pid 文件）"@),
        },
        if reachable {
            marked(tty, Some(true), "端口 "@ + bind + " 可达"@)
        } else {
            marked(tty, Some(false), "端口 "@ + bind + " 不可达（未监听）"@)
        },
    ]
}

/// What is said of the state of the service.
pub fn describe_state(tty: bool, p: Process, bind: &str, reachable: bool) -> (r: Vec<String>)
    ensures
        r.deep_view() == state_lines(tty, p, bind@, reachable),
{
    let first = match p {
        Process::Alive(pid) => {
            let text = around_pid("服务运行中 (pid ", pid, ")");
            status_line(tty, Some(true), text.as_str())
        },
        Process::Gone(pid) => {
            let text = around_pid(
                "pid ",
                pid,
                " 已死（stale），运行 piglmbridger service start 重新启动",
            );
            status_line(tty, None, text.as_str())
        },
        Process::Unknown => status_line(tty, None, "服务未运行（无 pid 文件）"),
    };
    let mut port = "端口 ".to_owned();
    port.append(bind);
    if reachable {
        port.append(" 可达");
    } else {
        port.append(" 不可达（未监听）");
    }
    let mut out: Vec<String> = Vec::new();
    out.push(first);
    out.push(status_line(tty, Some(reachable), port.as_str()));
    assert(out.deep_view() =~= state_lines(tty, p, bind@, reachable));
    out
}

// ---------------------------------------------------------------------------
// Coming up
// ---------------------------------------------------------------------------

/// A stamp to the second.
pub open spec fn to_the_second(stamp: Seq<char>) -> Seq<char> {
    stamp.take(stamp.len() - 4)
}

/// Marks the start of a session in the log file: following the log begins there.
pub fn mark_session(logger: &mut Logger, bind: &str) -> (r: Vec<Effect>)
    requires
        old(logger).wf(),
    ensures
        final(logger).wf(),
        exists|stamp: Seq<char>| #[trigger]
            is_stamp(stamp) && run(final(logger)@, r.deep_view()) == marker_run(
                begin(old(logger)@),
                session_text(to_the_second(stamp), bind@),
            ),
{
    let stamp = local_stamp();
    let cs = chars_of(stamp.as_str());
    let time = text_of(head_of(cs.as_slice(), cs.len() - 4));
    let text = session_mark(time.as_str(), bind);
    logger.marker(text.as_str())
}

// ---------------------------------------------------------------------------
// Going down
// ---------------------------------------------------------------------------

/// What is said when the service is told to go down.
pub open spec fn going_text(inflight: nat) -> Seq<char> {
    if inflight > 0 {
        "收到退出信号，等待 "@ + decimal(inflight) + " 个在途流收尾（最长 30s）…"@
    } else {
        "收到退出信号，无在途流，直接退出"@
    }
}

/// What is logged then: in the foreground the console shows it, and the log goes to the file.
pub open spec fn going_run(app: AppView, stamp: Seq<char>, foreground: bool) -> Run {
    let msg = going_text(app.inflight as nat);
    if foreground {
        info_file_run(begin(app.logger), stamp, msg)
    } else {
        info_run(begin(app.logger), stamp, msg)
    }
}

/// What the console shows then; where nothing is waited for, nothing.
pub open spec fn going_line(inflight: nat, foreground: bool, tty: bool) -> Option<Seq<char>> {
    if inflight > 0 && foreground {
        Some("\n"@ + bullet_text(tty, "\x1b[1;33m"@, going_text(inflight)))
    } else {
        None
    }
}

/// How the service goes down.
pub struct Going {
    /// What the console shows.
    pub shown: Option<String>,
    /// Whether requests are under way, and waited for.
    pub wait: bool,
}

/// The service is told to go down: how it does, and what is logged.
pub fn go_down_at(app: &mut AppState, stamp: &str, foreground: bool, tty: bool) -> (r: (
    Going,
    Vec<Effect>,
))
    requires
        old(app).wf(),
    ensures
        final(app).wf(),
        opt_string(r.0.shown) == going_line(old(app).inflight as nat, foreground, tty),
        r.0.wait == (old(app).inflight > 0),
        ({
            let d = going_run(old(app)@, stamp@, foreground);
            &&& final(app)@ == (AppView { logger: d.state, ..old(app)@ })
            &&& r.1.deep_view() == d.effects
        }),
{
    let mut out: Vec<Effect> = Vec::new();
    assert(out.deep_view() =~= Seq::<EffectView>::empty());
    let wait = app.inflight > 0;
    let msg = if wait {
        let mut m = "收到退出信号，等待 ".to_owned();
        m.append(decimal_text(app.inflight as u128).as_str());
        m.append(" 个在途流收尾（最长 30s）…");
        m
    } else {
        "收到退出信号，无在途流，直接退出".to_owned()
    };
    if foreground {
        app.logger.info_file_at(&mut out, stamp, msg.as_str());
    } else {
        app.logger.info_at(&mut out, stamp, msg.as_str());
    }
    if wait && foreground {
        let mut shown = "\n".to_owned();
        shown.append(bullet_line(tty, "\x1b[1;33m", msg.as_str()).as_str());
        (Going { shown: Some(shown), wait }, out)
    } else {
        (Going { shown: None, wait }, out)
    }
}

/// The service is told to go down at the present time.
pub fn go_down(app: &mut AppState, foreground: bool, tty: bool) -> (r: (Going, Vec<Effect>))
    requires
        old(app).wf(),
    ensures
        final(app).wf(),
        opt_string(r.0.shown) == going_line(old(app).inflight as nat, foreground, tty),
        r.0.wait == (old(app).inflight > 0),
        exists|stamp: Seq<char>| #[trigger]
            is_stamp(stamp) && ({
                let d = going_run(old(app)@, stamp, foreground);
                &&& final(app)@ == (AppView { logger: d.state, ..old(app)@ })
                &&& r.1.deep_view() == d.effects
            }),
{
    let stamp = local_stamp();
    go_down_at(app, stamp.as_str(), foreground, tty)
}

// ---------------------------------------------------------------------------
// What is told
// ---------------------------------------------------------------------------

/// The process in the background serves as a daemon, and gets the address and the port that are
/// given, each behind its flag.
pub proof fn law_daemon_gets_what_is_given(addr: Option<Seq<char>>, port: Option<nat>)
    ensures
        ({
            let args = daemon_args(addr, port);
            &&& args[0] == "serve"@ && args[1] == "--daemon"@
            &&& addr matches Some(a) ==> args.len() >= 4 && args[2] == "--addr"@ && args[3] == a
            &&& port matches Some(p) ==> {
                let n = args.len();
                n >= 4 && args[n - 2] == "--port"@ && all_digits(args[n - 1]) && decimal_value(
                    args[n - 1],
                ) == p
            }
            &&& args.len() == 2 + (if addr is Some {
                2nat
            } else {
                0nat
            }) + (if port is Some {
                2nat
            } else {
                0nat
            })
        }),
{
    if let Some(p) = port {
        lemma_decimal_reads_back(p);
    }
}

/// The id of a process is told in digits.
pub proof fn law_pid_is_told(before: Seq<char>, pid: u32, after: Seq<char>)
    ensures
        exists|d: Seq<char>|
            all_digits(d) && decimal_value(d) == pid && with_pid(before, pid, after)
                == #[trigger] (before + d + after),
{
    lemma_decimal_reads_back(pid as nat);
    let d = decimal(pid as nat);
    assert(with_pid(before, pid, after) == before + d + after);
}

/// What is told before the service is stopped: that there is none, that it is gone, or that its
/// end is waited for; with its id where that is known.
pub proof fn law_stop_is_told(tty: bool, p: Process)
    ensures
        p is Unknown ==> stop_text(tty, p) == marked(
            tty,
            None,
            "没有正在运行的服务（无 pid 文件）"@,
        ),
        p matches Process::Gone(pid) ==> stop_text(tty, p) == marked(
            tty,
            None,
            "pid "@ + decimal(pid as nat) + " 已不存在，清理 pid 文件"@,
        ),
        p matches Process::Alive(pid) ==> stands_in(
            "向 piglmbridged (pid "@ + decimal(pid as nat) + ") 发送 SIGTERM，等待优雅退出…"@,
            stop_text(tty, p),
        ),
{
    if let Process::Alive(pid) = p {
        let text = "向 piglmbridged (pid "@ + decimal(pid as nat)
            + ") 发送 SIGTERM，等待优雅退出…"@;
        let s = stop_text(tty, p);
        let n: int = if tty {
            "\x1b[2m"@.len() as int
        } else {
            0
        };
        assert(s.subrange(n, n + text.len()) =~= text);
    }
}

/// The state of the service is told in two lines: whether the process runs, and whether its port
/// can be reached. Only what is so is marked as good.
pub proof fn law_state_is_told(tty: bool, p: Process, bind: Seq<char>, reachable: bool)
    ensures
        ({
            let lines = state_lines(tty, p, bind, reachable);
            &&& lines.len() == 2
            &&& p matches Process::Alive(pid) ==> lines[0] == marked(
                tty,
                Some(true),
                "服务运行中 (pid "@ + decimal(pid as nat) + ")"@,
            )
            &&& p matches Process::Gone(pid) ==> lines[0] == marked(
                tty,
                None,
                "pid "@ + decimal(pid as nat)
                    + " 已死（stale），运行 piglmbridger service start 重新启动"@,
            )
            &&& p is Unknown ==> lines[0] == marked(tty, None, "服务未运行（无 pid 文件）"@)
            &&& lines[1] == marked(
                tty,
                Some(reachable),
                "端口 "@ + bind + (if reachable {
                    " 可达"@
                } else {
                    " 不可达（未监听）"@
                }),
            )
        }),
{
}

/// What is told when the service goes down: how many requests are waited for, or that there are
/// none.
pub proof fn law_going_is_told(inflight: nat)
    ensures
        inflight > 0 ==> going_text(inflight) == "收到退出信号，等待 "@ + decimal(inflight)
            + " 个在途流收尾（最长 30s）…"@,
        inflight == 0 ==> going_text(inflight) == "收到退出信号，无在途流，直接退出"@,
{
}

/// The mark of a session tells the time to the second: the milliseconds are left out.
pub proof fn law_mark_is_to_the_second(stamp: Seq<char>)
    requires
        is_stamp(stamp),
    ensures
        to_the_second(stamp).len() + 4 == stamp.len(),
        stamp.take(stamp.len() - 4) == to_the_second(stamp),
        stamp[stamp.len() - 4] == '.',
{
    let n = stamp.len() - 13;
    assert(stamp.skip(n + 1)[8] == '.');
}

} // verus!
