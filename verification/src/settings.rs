//! The settings of the service: the command line over the configuration file over the defaults.
use crate::console::{marked, status_line};
use crate::decimal::{all_digits, decimal, decimal_text, decimal_value, lemma_decimal_reads_back};
use crate::logger::ColorMode;
use crate::text::{
    chars_of, contains, contains_text, law_contained_stands_somewhere, opt_string, same_text,
    stands_in,
};
use vstd::prelude::*;

verus! {

/// The settings in the configuration file.
pub struct Config {
    /// The port to listen on.
    pub port: u16,
    /// The address to listen on.
    pub addr: String,
    /// The base address of the upstream service.
    pub upstream: String,
    /// After how many seconds a request to upstream is given up.
    pub timeout_secs: u64,
    /// After how many seconds without data a stream is given up; 0 for never.
    pub idle_timeout_secs: u64,
    /// The token that clients must show; empty for none.
    pub auth_token: String,
    /// The directory of the log.
    pub log_dir: String,
}

/// The model of [`Config`].
#[verifier::ext_equal]
pub struct ConfigView {
    pub port: u16,
    pub addr: Seq<char>,
    pub upstream: Seq<char>,
    pub timeout_secs: u64,
    pub idle_timeout_secs: u64,
    pub auth_token: Seq<char>,
    pub log_dir: Seq<char>,
}

impl View for Config {
    type V = ConfigView;

    open spec fn view(&self) -> ConfigView {
        ConfigView {
            port: self.port,
            addr: self.addr@,
            upstream: self.upstream@,
            timeout_secs: self.timeout_secs,
            idle_timeout_secs: self.idle_timeout_secs,
            auth_token: self.auth_token@,
            log_dir: self.log_dir@,
        }
    }
}

/// The address to listen on where none is given: this machine alone.
pub fn default_addr() -> (r: String)
    ensures
        r@ == "127.0.0.1"@,
{
    "127.0.0.1".to_owned()
}

/// The seconds without data after which a stream is given up where none are given.
pub fn default_idle() -> (r: u64)
    ensures
        r == 120,
{
    120
}

impl Config {
    /// The configuration file.
    pub fn config_path(home: &str) -> (r: String)
        ensures
            r@ == under(home@, ".piglmbridger/config.toml"@),
    {
        path_under(home, ".piglmbridger/config.toml")
    }

    /// The settings where there is no configuration file.
    pub fn with_defaults(log_dir: &str) -> (r: Self)
        ensures
            r@ == defaults(log_dir@),
            r.port == 8123 && r.timeout_secs == 300 && r.idle_timeout_secs == 120,
            r.addr@ == "127.0.0.1"@ && r.upstream@ == "https://open.bigmodel.cn/api/paas/v4"@,
            r.auth_token@ == ""@ && r.log_dir@ == log_dir@,
    {
        Config {
            port: 8123,
            addr: default_addr(),
            upstream: "https://open.bigmodel.cn/api/paas/v4".to_owned(),
            timeout_secs: 300,
            idle_timeout_secs: default_idle(),
            auth_token: "".to_owned(),
            log_dir: log_dir.to_owned(),
        }
    }

    /// The settings of the file. Where it is missing, the defaults, and a file with them is to be
    /// written; where it cannot be understood, the defaults, and the file stays as it is.
    pub fn load(found: Found, path: &str, log_dir: &str, tty: bool) -> (r: Loaded)
        ensures
            (match found {
                Found::Settings(config) => r.config == config && !r.create && r.notice is None,
                Found::Broken(why) => {
                    &&& r.config@ == defaults(log_dir@)
                    &&& !r.create
                    &&& opt_string(r.notice) == Some(
                        marked(tty, Some(false), broken_text(path@, why@)),
                    )
                },
                Found::Missing => {
                    &&& r.config@ == defaults(log_dir@)
                    &&& r.create
                    &&& opt_string(r.notice) == Some(marked(tty, None, created_text(path@)))
                },
            }),
    {
        match found {
            Found::Settings(config) => Loaded { config, create: false, notice: None },
            Found::Broken(why) => {
                let mut text = "配置文件解析失败 ".to_owned();
                text.append(path);
                text.append(": ");
                text.append(why.as_str());
                text.append("，使用默认配置");
                let notice = Some(status_line(tty, Some(false), text.as_str()));
                Loaded { config: Config::with_defaults(log_dir), create: false, notice }
            },
            Found::Missing => {
                let mut text = "已生成默认配置文件: ".to_owned();
                text.append(path);
                let notice = Some(status_line(tty, None, text.as_str()));
                Loaded { config: Config::with_defaults(log_dir), create: true, notice }
            },
        }
    }
}

/// What stands in the place of the configuration file.
pub enum Found {
    /// There is no file.
    Missing,
    /// A file that cannot be understood, and why.
    Broken(String),
    /// A file with settings.
    Settings(Config),
}

/// What comes of reading the configuration file.
pub struct Loaded {
    /// The settings to go by.
    pub config: Config,
    /// Whether a file with these settings is to be written.
    pub create: bool,
    /// What to tell the user, once the file is written where one is to be.
    pub notice: Option<String>,
}

/// The settings where there is no configuration file.
pub open spec fn defaults(log_dir: Seq<char>) -> ConfigView {
    ConfigView {
        port: 8123,
        addr: "127.0.0.1"@,
        upstream: "https://open.bigmodel.cn/api/paas/v4"@,
        timeout_secs: 300,
        idle_timeout_secs: 120,
        auth_token: ""@,
        log_dir,
    }
}

/// What is told of a file that cannot be understood.
pub open spec fn broken_text(path: Seq<char>, why: Seq<char>) -> Seq<char> {
    "配置文件解析失败 "@ + path + ": "@ + why + "，使用默认配置"@
}

/// What is told of a new file.
pub open spec fn created_text(path: Seq<char>) -> Seq<char> {
    "已生成默认配置文件: "@ + path
}

/// The text of a new configuration file, with the given settings.
pub fn config_file(settings: &str) -> (r: String)
    ensures
        r@ == "# piglmbridger 配置文件（优先级：CLI 参数 > 此文件 > 内置默认值）\n"@ + settings@,
{
    let mut out = "# piglmbridger 配置文件（优先级：CLI 参数 > 此文件 > 内置默认值）\n".to_owned();
    out.append(settings);
    out
}

/// A name under a directory.
pub open spec fn under(dir: Seq<char>, name: Seq<char>) -> Seq<char> {
    if dir.len() == 0 || dir.last() == '/' {
        dir + name
    } else {
        dir + "/"@ + name
    }
}

/// A name under a directory.
pub fn path_under(dir: &str, name: &str) -> (r: String)
    ensures
        r@ == under(dir@, name@),
        dir@.len() > 0 && dir@.last() != '/' ==> r@ == dir@ + "/"@ + name@,
        dir@.len() > 0 && dir@.last() == '/' ==> r@ == dir@ + name@,
{
    let mut out = dir.to_owned();
    let cs = chars_of(dir);
    if cs.len() > 0 && cs[cs.len() - 1] != '/' {
        out.append("/");
    }
    out.append(name);
    out
}

/// The file with the id of the process in the background.
pub fn pid_file(home: &str) -> (r: String)
    ensures
        r@ == under(home@, ".piglmbridger/piglmbridged.pid"@),
{
    path_under(home, ".piglmbridger/piglmbridged.pid")
}

/// The directory of the log where none is given.
pub fn default_log_dir(home: &str) -> (r: String)
    ensures
        r@ == under(home@, ".piglmbridger/logs"@),
{
    path_under(home, ".piglmbridger/logs")
}

/// What the command line sets.
pub struct Overrides {
    pub addr: Option<String>,
    pub port: Option<u16>,
    pub upstream: Option<String>,
    pub timeout: Option<u64>,
}

/// The text that is given, or the other one.
pub open spec fn text_or(given: Option<String>, other: Seq<char>) -> Seq<char> {
    match given {
        Some(s) => s@,
        None => other,
    }
}

/// The settings after the command line.
pub open spec fn overridden(c: ConfigView, o: Overrides) -> ConfigView {
    ConfigView {
        addr: text_or(o.addr, c.addr),
        port: match o.port {
            Some(p) => p,
            None => c.port,
        },
        upstream: text_or(o.upstream, c.upstream),
        timeout_secs: match o.timeout {
            Some(t) => t,
            None => c.timeout_secs,
        },
        ..c
    }
}

/// Sets what the command line sets.
pub fn override_config(config: Config, o: Overrides) -> (r: Config)
    ensures
        r@ == overridden(config@, o),
        o.addr matches Some(a) ==> r.addr@ == a@,
        o.addr is None ==> r.addr@ == config.addr@,
        o.port matches Some(p) ==> r.port == p,
        o.port is None ==> r.port == config.port,
        o.upstream matches Some(u) ==> r.upstream@ == u@,
        o.upstream is None ==> r.upstream@ == config.upstream@,
        o.timeout matches Some(t) ==> r.timeout_secs == t,
        o.timeout is None ==> r.timeout_secs == config.timeout_secs,
        r.idle_timeout_secs == config.idle_timeout_secs,
        r.auth_token@ == config.auth_token@,
        r.log_dir@ == config.log_dir@,
{
    let Config { port, addr, upstream, timeout_secs, idle_timeout_secs, auth_token, log_dir } =
        config;
    Config {
        port: match o.port {
            Some(p) => p,
            None => port,
        },
        addr: match o.addr {
            Some(a) => a,
            None => addr,
        },
        upstream: match o.upstream {
            Some(u) => u,
            None => upstream,
        },
        timeout_secs: match o.timeout {
            Some(t) => t,
            None => timeout_secs,
        },
        idle_timeout_secs,
        auth_token,
        log_dir,
    }
}

/// The address and the port, one after the other.
pub open spec fn address(addr: Seq<char>, port: nat) -> Seq<char> {
    addr + ":"@ + decimal(port)
}

/// What to listen on: the address, with the port unless it holds one.
pub open spec fn bind_text(addr: Seq<char>, port: nat) -> Seq<char> {
    if contains(addr, ":"@) {
        addr
    } else {
        address(addr, port)
    }
}

/// Whether a text is an address, a colon, and a port in digits.
pub open spec fn is_address(s: Seq<char>, addr: Seq<char>, port: nat) -> bool {
    exists|d: Seq<char>|
        all_digits(d) && decimal_value(d) == port && s == #[trigger] (addr + ":"@ + d)
}

/// The port behind an address reads as what it is.
pub proof fn law_address_tells_the_port(addr: Seq<char>, port: nat)
    ensures
        is_address(address(addr, port), addr, port),
{
    lemma_decimal_reads_back(port);
    assert(address(addr, port) == addr + ":"@ + decimal(port));
}

/// The address and the port, one after the other.
pub fn address_of(addr: &str, port: u16) -> (r: String)
    ensures
        r@ == address(addr@, port as nat),
        is_address(r@, addr@, port as nat),
{
    proof {
        law_address_tells_the_port(addr@, port as nat);
    }
    let mut out = addr.to_owned();
    out.append(":");
    out.append(decimal_text(port as u128).as_str());
    out
}

/// What to listen on.
pub fn bind_of(addr: &str, port: u16) -> (r: String)
    ensures
        r@ == bind_text(addr@, port as nat),
        stands_in(":"@, addr@) ==> r@ == addr@,
        !stands_in(":"@, addr@) ==> is_address(r@, addr@, port as nat),
{
    proof {
        law_contained_stands_somewhere(addr@, ":"@);
    }
    if contains_text(addr, ":") {
        addr.to_owned()
    } else {
        address_of(addr, port)
    }
}

/// The color mode of an argument; what is not known is taken for `auto`.
pub open spec fn color_mode(arg: Seq<char>) -> ColorMode {
    if arg == "always"@ {
        ColorMode::Always
    } else if arg == "never"@ {
        ColorMode::Never
    } else {
        ColorMode::Auto
    }
}

/// The color mode of an argument.
pub fn color_mode_of(arg: &str) -> (r: ColorMode)
    ensures
        r == color_mode(arg@),
        r is Always <==> arg@ == "always"@,
        r is Never <==> arg@ == "never"@,
{
    proof {
        reveal_strlit("always");
        reveal_strlit("never");
        assert("always"@.len() != "never"@.len());
    }
    if same_text(arg, "always") {
        ColorMode::Always
    } else if same_text(arg, "never") {
        ColorMode::Never
    } else {
        ColorMode::Auto
    }
}

/// Whether an argument for the log level asks for debug lines.
pub fn wants_debug(arg: &str) -> (r: bool)
    ensures
        r == (arg@ == "debug"@),
{
    same_text(arg, "debug")
}

/// What is said of a file of settings tells where it is; of one that cannot be read, why.
pub proof fn law_notice_tells_the_file(path: Seq<char>, why: Seq<char>)
    ensures
        stands_in(path, created_text(path)),
        stands_in(path, broken_text(path, why)),
        stands_in(why, broken_text(path, why)),
{
    let a = created_text(path);
    let n = a.len() - path.len();
    assert(a.subrange(n, n + path.len()) =~= path);
    let b = broken_text(path, why);
    let k = "配置文件解析失败 "@.len() as int;
    assert(b.subrange(k, k + path.len()) =~= path);
    let m = k + path.len() + ": "@.len();
    assert(b.subrange(m, m + why.len()) =~= why);
}

} // verus!
