//! Forwarding a request: who may send one, where it goes, what is passed on, and what is done
//! with the answer.
use crate::clock::{is_stamp, local_stamp, Duration};
use crate::decimal::{decimal, decimal_text, hex, hex_text};
use crate::format::{bytes_text, short_upstream};
use crate::json::{
    are_plain, doc_at, is_document, json_at, json_literal, lookup, member_at, member_of,
    member_text, object_text, quoted, Doc, Json, JsonView,
};
use crate::log_lines::{finish_text, opt_nat, plain_text, Outcome};
use crate::logger::{
    begin, debug_run, error_run, finish_run, run, start_run, Effect, EffectView, Run,
};
use crate::logger_laws::{appended, lemma_start_appends};
use crate::state::{refresh_run, refresh_status_to, AppState, AppView};
use crate::text::{
    chars_of, contains, contains_text, join, join_texts, law_contained_stands_somewhere, opt_str,
    same_text, stands_in, starts_with, starts_with_text, text_of, trim_end_char, trim_end_char_of,
};
use vstd::prelude::*;
use vstd::utf8::encode_utf8;

verus! {

// ---------------------------------------------------------------------------
// Request ids
// ---------------------------------------------------------------------------

/// A step of a xorshift generator, cut to 24 bits.
pub open spec fn scrambled(seed: u32) -> u32 {
    let a = seed ^ (seed << 13);
    let b = a ^ (a >> 17);
    let c = b ^ (b << 5);
    c & 0xff_ffff
}

/// A number below 2^24 from the nanoseconds of the clock.
pub fn rand_u24(nanos: u32) -> (r: u32)
    ensures
        r == scrambled(nanos),
        r <= 0xff_ffff,
        ({
            let a = nanos ^ (nanos << 13);
            let b = a ^ (a >> 17);
            r == (b ^ (b << 5)) & 0xff_ffff
        }),
{
    let a: u32 = nanos ^ (nanos << 13);
    let b: u32 = a ^ (a >> 17);
    let c: u32 = b ^ (b << 5);
    assert(c & 0xff_ffff <= 0xff_ffff) by (bit_vector);
    c & 0xff_ffff
}

/// The id of a request: six hexadecimal digits.
pub fn request_id(nanos: u32) -> (r: String)
    ensures
        r@ == hex(scrambled(nanos) as nat, 6),
{
    hex_text(rand_u24(nanos), 6)
}

// ---------------------------------------------------------------------------
// Counting requests
// ---------------------------------------------------------------------------

/// A request comes in.
pub fn enter(app: &mut AppState)
    requires
        old(app).wf(),
    ensures
        final(app).wf(),
        final(app)@ == (AppView {
            inflight: old(app).inflight.wrapping_add(1),
            total_requests: old(app).total_requests.wrapping_add(1),
            ..old(app)@
        }),
{
    app.inflight = app.inflight.wrapping_add(1);
    app.total_requests = app.total_requests.wrapping_add(1);
}

/// A request is answered.
pub fn leave(app: &mut AppState)
    requires
        old(app).wf(),
    ensures
        final(app).wf(),
        final(app)@ == (AppView { inflight: old(app).inflight.wrapping_sub(1), ..old(app)@ }),
{
    app.inflight = app.inflight.wrapping_sub(1);
}

/// What the file of statistics says of a request.
pub open spec fn stats_members(ts: Seq<char>, id: Seq<char>, elapsed_ms: u64, status: u16) -> Seq<
    (Seq<char>, JsonView),
> {
    seq![
        ("elapsed_ms"@, JsonView::Unsigned(elapsed_ms)),
        ("id"@, JsonView::Text(id)),
        ("status"@, JsonView::Unsigned(status as u64)),
        ("ts"@, JsonView::Text(ts)),
    ]
}

/// The line for a request in the file of statistics: a JSON object.
pub open spec fn stats_text(ts: Seq<char>, id: Seq<char>, elapsed_ms: u64, status: u16) -> Seq<
    char,
> {
    object_text(stats_members(ts, id, elapsed_ms, status))
}

/// The line for a request in the file of statistics, given the time.
pub fn stats_line(ts: &str, req_id: &str, elapsed_ms: u64, status: u16) -> (r: String)
    ensures
        r@ == stats_text(ts@, req_id@, elapsed_ms, status),
{
    let mut members: Vec<String> = Vec::new();
    members.push(member_of("elapsed_ms", decimal_text(elapsed_ms as u128).as_str()));
    members.push(member_of("id", quoted(req_id).as_str()));
    members.push(member_of("status", decimal_text(status as u128).as_str()));
    members.push(member_of("ts", quoted(ts).as_str()));
    proof {
        let all = stats_members(ts@, req_id@, elapsed_ms, status);
        assert(members.deep_view() =~= Seq::new(all.len(), |i: int| member_text(all[i])));
    }
    let mut out = "{".to_owned();
    out.append(join_texts(&members, ",").as_str());
    out.append("}");
    out
}

// ---------------------------------------------------------------------------
// Who may send a request
// ---------------------------------------------------------------------------

/// Whether a request is admitted: no token is asked for, or the right one is shown.
pub open spec fn admitted(token: Seq<char>, authorization: Option<Seq<char>>) -> bool {
    token.len() == 0 || authorization == Some("Bearer "@ + token)
}

/// Whether a request with the given `authorization` header is admitted.
pub fn is_admitted(token: &str, authorization: Option<&str>) -> (r: bool)
    ensures
        r == admitted(token@, opt_str(authorization)),
        r <==> token@.len() == 0 || opt_str(authorization) == Some("Bearer "@ + token@),
{
    if token.is_empty() {
        return true;
    }
    let mut expected = "Bearer ".to_owned();
    expected.append(token);
    match authorization {
        Some(shown) => same_text(shown, expected.as_str()),
        None => false,
    }
}

/// The body of the answer to a request that is not admitted.
pub fn reject_body() -> (r: String)
    ensures
        r@ == "{\"error\":{\"message\":\"invalid or missing proxy token\",\"type\":\"proxy_auth\"}}"@,
{
    "{\"error\":{\"message\":\"invalid or missing proxy token\",\"type\":\"proxy_auth\"}}".to_owned()
}

// ---------------------------------------------------------------------------
// Where it goes, and what is passed on
// ---------------------------------------------------------------------------

/// The model in the result of a lookup.
pub open spec fn model_in(found: JsonView) -> Option<Seq<char>> {
    match found {
        JsonView::Text(s) => Some(s),
        _ => None,
    }
}

/// The model that a body asks for.
pub open spec fn model_of(body: Seq<u8>) -> Option<Seq<char>> {
    model_in(json_at(body, "model"@, None))
}

/// Whether the stream for a model is repaired: only those of the GLM-5.3 family are.
pub open spec fn repairs(model: Option<Seq<char>>) -> bool {
    match model {
        Some(m) => starts_with(m, "glm-5.3"@),
        None => false,
    }
}

/// Whether the stream for a model is repaired.
pub fn wants_repair(model: Option<&str>) -> (r: bool)
    ensures
        r == repairs(opt_str(model)),
        r <==> (model matches Some(m) && m@.len() >= 7 && m@.take(7) == "glm-5.3"@),
{
    proof {
        reveal_strlit("glm-5.3");
    }
    match model {
        Some(m) => starts_with_text(m, "glm-5.3"),
        None => false,
    }
}

/// The text that `{:?}` writes for a string.
pub uninterp spec fn debug_literal(s: Seq<char>) -> Seq<char>;

/// Writes a string with `{:?}`, the `Debug` of `str`: between quotes, with escapes. Which
/// characters are escaped is not said.
#[verifier::external_body]
fn debug_quoted(s: &str) -> (r: String)
    ensures
        r@ == debug_literal(s@),
{
    format!("{s:?}")
}

/// The line that tells of the model of a request.
pub open spec fn model_text(id: Seq<char>, model: Option<Seq<char>>) -> Seq<char> {
    "["@ + id + "] model="@ + (match model {
        Some(m) => "Some("@ + debug_literal(m) + ")"@,
        None => "None"@,
    }) + " normalize="@ + (if repairs(model) {
        "true"@
    } else {
        "false"@
    })
}

fn model_line(req_id: &str, model: Option<&str>) -> (r: String)
    ensures
        r@ == model_text(req_id@, opt_str(model)),
{
    let mut out = "[".to_owned();
    out.append(req_id);
    out.append("] model=");
    let shown = match model {
        Some(m) => {
            let mut s = "Some(".to_owned();
            s.append(debug_quoted(m).as_str());
            s.append(")");
            s
        },
        None => "None".to_owned(),
    };
    out.append(shown.as_str());
    out.append(" normalize=");
    if wants_repair(model) {
        out.append("true");
    } else {
        out.append("false");
    }
    out
}

/// The address that a request is forwarded to.
pub open spec fn target_url(upstream: Seq<char>, path: Seq<char>) -> Seq<char> {
    trim_end_char(upstream, '/') + path
}

/// The address that a request is forwarded to.
pub fn url_for(upstream: &str, path: &str) -> (r: String)
    ensures
        r@ == target_url(upstream@, path@),
        forall|base: Seq<char>, n: nat|
            upstream@ == #[trigger] (base + slashes(n)) && (base.len() == 0 || base.last() != '/')
                ==> r@ == base + path@,
{
    proof {
        assert forall|base: Seq<char>, n: nat|
            upstream@ == #[trigger] (base + slashes(n)) && (base.len() == 0 || base.last() != '/')
            implies target_url(upstream@, path@) == base + path@ by {
            law_address_is_base_and_path(base, n, path@);
        }
    }
    let cs = chars_of(upstream);
    let mut out = text_of(trim_end_char_of(cs.as_slice(), '/'));
    out.append(path);
    out
}

/// Whether a header is passed on.
pub open spec fn forwarded(name: Seq<char>) -> bool {
    name == "authorization"@ || name == "content-type"@ || name == "accept"@ || name
        == "user-agent"@
}

/// Whether a header that is not passed on goes without a word.
pub open spec fn dropped_silently(name: Seq<char>) -> bool {
    name == "host"@ || name == "content-length"@ || name == "connection"@ || name
        == "accept-encoding"@
}

/// Whether a header is passed on.
pub fn is_forwarded(name: &str) -> (r: bool)
    ensures
        r == forwarded(name@),
        r <==> name@ == "authorization"@ || name@ == "content-type"@ || name@ == "accept"@ || name@
            == "user-agent"@,
{
    same_text(name, "authorization") || same_text(name, "content-type") || same_text(name, "accept")
        || same_text(name, "user-agent")
}

fn is_dropped_silently(name: &str) -> (r: bool)
    ensures
        r == dropped_silently(name@),
{
    same_text(name, "host") || same_text(name, "content-length") || same_text(name, "connection")
        || same_text(name, "accept-encoding")
}

/// Logs the headers that are left out.
pub open spec fn filter_run(r: Run, stamp: Seq<char>, id: Seq<char>, names: Seq<Seq<char>>) -> Run
    decreases names.len(),
{
    if names.len() == 0 {
        r
    } else {
        let before = filter_run(r, stamp, id, names.drop_last());
        let name = names.last();
        if forwarded(name) || dropped_silently(name) {
            before
        } else {
            debug_run(before, stamp, "["@ + id + "] 滤除头: "@ + name)
        }
    }
}

/// Which of the headers are passed on.
pub open spec fn filtered(names: Seq<Seq<char>>) -> Seq<bool> {
    Seq::new(names.len(), |i: int| forwarded(names[i]))
}

/// What is to be done with a request.
pub enum Plan {
    /// It is not admitted, and answered with status 401.
    Reject,
    /// It is forwarded.
    Forward {
        /// The address that it goes to.
        url: String,
        /// Whether the stream that comes back is repaired.
        normalize: bool,
        /// For each header, whether it is passed on.
        headers: Vec<bool>,
    },
}

/// The model of [`Plan`].
pub enum PlanView {
    Reject,
    Forward { url: Seq<char>, normalize: bool, headers: Seq<bool> },
}

impl View for Plan {
    type V = PlanView;

    open spec fn view(&self) -> PlanView {
        match self {
            Plan::Reject => PlanView::Reject,
            Plan::Forward { url, normalize, headers } => PlanView::Forward {
                url: url@,
                normalize: *normalize,
                headers: headers@,
            },
        }
    }
}

/// What is done with a request.
pub open spec fn plan(
    app: AppView,
    authorization: Option<Seq<char>>,
    path: Seq<char>,
    names: Seq<Seq<char>>,
    model: Option<Seq<char>>,
) -> PlanView {
    if admitted(app.auth_token, authorization) {
        PlanView::Forward {
            url: target_url(app.upstream, path),
            normalize: repairs(model),
            headers: filtered(names),
        }
    } else {
        PlanView::Reject
    }
}

/// What is logged of it.
pub open spec fn plan_run(
    app: AppView,
    stamp: Seq<char>,
    id: Seq<char>,
    authorization: Option<Seq<char>>,
    path: Seq<char>,
    names: Seq<Seq<char>>,
    model: Option<Seq<char>>,
    req_bytes: nat,
) -> Run {
    if admitted(app.auth_token, authorization) {
        let m = debug_run(begin(app.logger), stamp, model_text(id, model));
        let f = filter_run(m, stamp, id, names);
        start_run(
            f,
            stamp,
            id,
            model,
            "POST"@,
            path,
            target_url(app.upstream, path),
            req_bytes,
        )
    } else {
        error_run(begin(app.logger), stamp, "["@ + id + "] 令牌校验失败，拒绝转发"@)
    }
}

/// Decides what is done with a request for the given model.
pub fn plan_for_model(
    app: &mut AppState,
    stamp: &str,
    req_id: &str,
    authorization: Option<&str>,
    path: &str,
    names: &Vec<String>,
    model: Option<&str>,
    req_bytes: u64,
) -> (r: (Plan, Vec<Effect>))
    requires
        old(app).wf(),
    ensures
        final(app).wf(),
        r.0@ == plan(
            old(app)@,
            opt_str(authorization),
            path@,
            names.deep_view(),
            opt_str(model),
        ),
        ({
            let d = plan_run(
                old(app)@,
                stamp@,
                req_id@,
                opt_str(authorization),
                path@,
                names.deep_view(),
                opt_str(model),
                req_bytes as nat,
            );
            &&& final(app)@ == (AppView { logger: d.state, ..old(app)@ })
            &&& r.1.deep_view() == d.effects
        }),
{
    let mut out: Vec<Effect> = Vec::new();
    assert(out.deep_view() =~= Seq::<EffectView>::empty());
    let mut tag = "[".to_owned();
    tag.append(req_id);
    if !is_admitted(app.auth_token.as_str(), authorization) {
        tag.append("] 令牌校验失败，拒绝转发");
        app.logger.error_at(&mut out, stamp, tag.as_str());
        return (Plan::Reject, out);
    }
    app.logger.debug_at(&mut out, stamp, model_line(req_id, model).as_str());
    let url = url_for(app.upstream.as_str(), path);
    let mut headers: Vec<bool> = Vec::new();
    let ghost all = names.deep_view();
    let ghost before = app@;
    let ghost m = run(app.logger@, out.deep_view());
    assert(all.take(0) =~= Seq::<Seq<char>>::empty());
    for i in 0..names.len()
        invariant
            app.wf(),
            all == names.deep_view(),
            app@ == (AppView { logger: app.logger@, ..before }),
            headers@ =~= filtered(all.take(i as int)),
            run(app.logger@, out.deep_view()) == filter_run(m, stamp@, req_id@, all.take(i as int)),
    {
        let name = names[i].as_str();
        proof {
            assert(all.take(i + 1).drop_last() =~= all.take(i as int));
            assert(all.take(i + 1).last() == name@);
        }
        let pass = is_forwarded(name);
        if !pass && !is_dropped_silently(name) {
            let mut msg = "[".to_owned();
            msg.append(req_id);
            msg.append("] 滤除头: ");
            msg.append(name);
            app.logger.debug_at(&mut out, stamp, msg.as_str());
        }
        headers.push(pass);
    }
    assert(all.take(all.len() as int) =~= all);
    app.logger.start_request_at(
        &mut out,
        stamp,
        req_id,
        model,
        "POST",
        path,
        url.as_str(),
        req_bytes,
    );
    (Plan::Forward { url, normalize: wants_repair(model), headers }, out)
}

/// Decides what is done with a request, by its body. The model is the text that the body holds
/// under `model`, whatever else it holds; the stream is repaired where it begins with `glm-5.3`.
pub fn plan_request_at(
    app: &mut AppState,
    stamp: &str,
    req_id: &str,
    authorization: Option<&str>,
    path: &str,
    names: &Vec<String>,
    body: &[u8],
) -> (r: (Plan, Vec<Effect>))
    requires
        old(app).wf(),
    ensures
        final(app).wf(),
        r.0@ == plan(
            old(app)@,
            opt_str(authorization),
            path@,
            names.deep_view(),
            model_of(body@),
        ),
        ({
            let d = plan_run(
                old(app)@,
                stamp@,
                req_id@,
                opt_str(authorization),
                path@,
                names.deep_view(),
                model_of(body@),
                body@.len(),
            );
            &&& final(app)@ == (AppView { logger: d.state, ..old(app)@ })
            &&& r.1.deep_view() == d.effects
        }),
        forall|members: Seq<(Seq<char>, JsonView)>|
            body@ == #[trigger] encode_utf8(object_text(members)) && are_plain(members)
                ==> model_of(body@) == model_in(member_at(members, "model"@)),
        forall|d: Doc| #[trigger]
            is_document(body@, d) ==> match doc_at(d, "model"@, None) {
                JsonView::Text(m) => model_of(body@) == Some(m) && (
                r.0@ matches PlanView::Forward { normalize, .. } ==> (normalize <==> m.len() >= 7
                    && m.take(7) == "glm-5.3"@)),
                _ => model_of(body@) is None && (
                r.0@ matches PlanView::Forward { normalize, .. } ==> !normalize),
            },
{
    proof {
        reveal_strlit("glm-5.3");
    }
    match lookup(body, "model", None) {
        Json::Text(m) => plan_for_model(
            app,
            stamp,
            req_id,
            authorization,
            path,
            names,
            Some(m.as_str()),
            body.len() as u64,
        ),
        _ => plan_for_model(
            app,
            stamp,
            req_id,
            authorization,
            path,
            names,
            None,
            body.len() as u64,
        ),
    }
}

/// Decides what is done with a request at the present time.
pub fn plan_request(
    app: &mut AppState,
    req_id: &str,
    authorization: Option<&str>,
    path: &str,
    names: &Vec<String>,
    body: &[u8],
) -> (r: (Plan, Vec<Effect>))
    requires
        old(app).wf(),
    ensures
        final(app).wf(),
        r.0@ == plan(
            old(app)@,
            opt_str(authorization),
            path@,
            names.deep_view(),
            model_of(body@),
        ),
        exists|stamp: Seq<char>| #[trigger]
            is_stamp(stamp) && ({
                let d = plan_run(
                    old(app)@,
                    stamp,
                    req_id@,
                    opt_str(authorization),
                    path@,
                    names.deep_view(),
                    model_of(body@),
                    body@.len(),
                );
                &&& final(app)@ == (AppView { logger: d.state, ..old(app)@ })
                &&& r.1.deep_view() == d.effects
            }),
        forall|members: Seq<(Seq<char>, JsonView)>|
            body@ == #[trigger] encode_utf8(object_text(members)) && are_plain(members)
                ==> model_of(body@) == model_in(member_at(members, "model"@)),
        forall|d: Doc| #[trigger]
            is_document(body@, d) ==> match doc_at(d, "model"@, None) {
                JsonView::Text(m) => model_of(body@) == Some(m) && (
                r.0@ matches PlanView::Forward { normalize, .. } ==> (normalize <==> m.len() >= 7
                    && m.take(7) == "glm-5.3"@)),
                _ => model_of(body@) is None && (
                r.0@ matches PlanView::Forward { normalize, .. } ==> !normalize),
            },
{
    let stamp = local_stamp();
    plan_request_at(app, stamp.as_str(), req_id, authorization, path, names, body)
}

// ---------------------------------------------------------------------------
// What comes back
// ---------------------------------------------------------------------------

/// What is done with an answer.
#[derive(Clone, Copy, PartialEq, Eq, Structural, Debug)]
pub enum Route {
    /// It is a stream, and is repaired.
    Repair,
    /// It is a stream, and is passed on byte by byte.
    Stream,
    /// It is read as a whole.
    Whole,
}

/// What is done with an answer of the given content type.
pub open spec fn route(content_type: Seq<char>, normalize: bool) -> Route {
    if !contains(content_type, "text/event-stream"@) {
        Route::Whole
    } else if normalize {
        Route::Repair
    } else {
        Route::Stream
    }
}

/// What is done with an answer of the given content type, empty where it has none.
pub fn route_for(content_type: &str, normalize: bool) -> (r: Route)
    ensures
        r == route(content_type@, normalize),
        r is Whole <==> !stands_in("text/event-stream"@, content_type@),
        r is Repair <==> normalize && stands_in("text/event-stream"@, content_type@),
{
    proof {
        law_contained_stands_somewhere(content_type@, "text/event-stream"@);
    }
    if !contains_text(content_type, "text/event-stream") {
        Route::Whole
    } else if normalize {
        Route::Repair
    } else {
        Route::Stream
    }
}

/// How a request ended whose answer was not repaired.
pub open spec fn plain_outcome(
    status: u16,
    ok: bool,
    elapsed: Duration,
    req_bytes: u64,
    bytes: Option<u64>,
    detail: Seq<char>,
) -> Outcome {
    Outcome {
        status: status as nat,
        ok,
        elapsed: Some(elapsed@),
        first_byte: None,
        tokens: None,
        req_bytes: Some(req_bytes as nat),
        bytes: opt_nat(bytes),
        detail,
    }
}

/// Logs the end of a request whose answer was not repaired, and redraws the status line.
pub open spec fn settle_run(
    r: Run,
    streams: Map<Seq<char>, u64>,
    stamp: Seq<char>,
    id: Seq<char>,
    o: Outcome,
) -> Run {
    refresh_run(finish_run(r, stamp, id, o), streams)
}

fn settle(
    app: &mut AppState,
    out: &mut Vec<Effect>,
    stamp: &str,
    req_id: &str,
    status: u16,
    ok: bool,
    elapsed: Duration,
    req_bytes: u64,
    bytes: Option<u64>,
    detail: &str,
)
    requires
        old(app).wf(),
    ensures
        final(app).wf(),
        ({
            let d = settle_run(
                run(old(app)@.logger, old(out).deep_view()),
                old(app)@.active_streams,
                stamp@,
                req_id@,
                plain_outcome(status, ok, elapsed, req_bytes, bytes, detail@),
            );
            &&& final(app)@ == (AppView { logger: d.state, ..old(app)@ })
            &&& final(out).deep_view() == d.effects
        }),
{
    app.logger.finish_request_at(
        out,
        stamp,
        req_id,
        status,
        ok,
        Some(elapsed),
        None,
        None,
        Some(req_bytes),
        bytes,
        detail,
    );
    refresh_status_to(&mut app.logger, out, &app.active_streams);
}

/// What is logged of a stream that is passed on byte by byte.
pub open spec fn passed_run(
    app: AppView,
    stamp: Seq<char>,
    id: Seq<char>,
    o: Outcome,
) -> Run {
    settle_run(
        debug_run(
            begin(app.logger),
            stamp,
            "["@ + id + "] SSE 字节级直通（非 glm-5.3，不归一化）"@,
        ),
        app.active_streams,
        stamp,
        id,
        o,
    )
}

/// Logs a stream that is passed on byte by byte.
pub fn stream_passed_at(
    app: &mut AppState,
    stamp: &str,
    req_id: &str,
    status: u16,
    elapsed: Duration,
    req_bytes: u64,
) -> (r: Vec<Effect>)
    requires
        old(app).wf(),
    ensures
        final(app).wf(),
        ({
            let d = passed_run(
                old(app)@,
                stamp@,
                req_id@,
                plain_outcome(status, true, elapsed, req_bytes, None, ""@),
            );
            &&& final(app)@ == (AppView { logger: d.state, ..old(app)@ })
            &&& r.deep_view() == d.effects
        }),
{
    let mut out: Vec<Effect> = Vec::new();
    assert(out.deep_view() =~= Seq::<EffectView>::empty());
    let mut msg = "[".to_owned();
    msg.append(req_id);
    msg.append("] SSE 字节级直通（非 glm-5.3，不归一化）");
    app.logger.debug_at(&mut out, stamp, msg.as_str());
    settle(app, &mut out, stamp, req_id, status, true, elapsed, req_bytes, None, "");
    out
}

/// How a request ended whose answer was read as a whole.
pub open spec fn whole_outcome(
    status: u16,
    elapsed: Duration,
    req_bytes: u64,
    bytes: u64,
) -> Outcome {
    let ok = 200 <= status < 300;
    plain_outcome(
        status,
        ok,
        elapsed,
        req_bytes,
        Some(bytes),
        if ok {
            ""@
        } else {
            "上游拒绝"@
        },
    )
}

/// Logs an answer that was read as a whole.
pub fn whole_read_at(
    app: &mut AppState,
    stamp: &str,
    req_id: &str,
    status: u16,
    elapsed: Duration,
    req_bytes: u64,
    bytes: u64,
) -> (r: Vec<Effect>)
    requires
        old(app).wf(),
    ensures
        final(app).wf(),
        ({
            let d = settle_run(
                begin(old(app)@.logger),
                old(app)@.active_streams,
                stamp@,
                req_id@,
                whole_outcome(status, elapsed, req_bytes, bytes),
            );
            &&& final(app)@ == (AppView { logger: d.state, ..old(app)@ })
            &&& r.deep_view() == d.effects
        }),
{
    let mut out: Vec<Effect> = Vec::new();
    assert(out.deep_view() =~= Seq::<EffectView>::empty());
    let ok = 200 <= status && status < 300;
    let detail = if ok {
        ""
    } else {
        "上游拒绝"
    };
    settle(app, &mut out, stamp, req_id, status, ok, elapsed, req_bytes, Some(bytes), detail);
    out
}

/// A failure on the way to upstream or back.
#[derive(Clone, Copy, PartialEq, Eq, Structural, Debug)]
pub enum Failure {
    /// Upstream could not be reached.
    Connect,
    /// The answer could not be read.
    Read,
}

/// The short text for a failure.
pub open spec fn failure_detail(f: Failure) -> Seq<char> {
    match f {
        Failure::Connect => "上游连接失败"@,
        Failure::Read => "上游读取错误"@,
    }
}

/// The text of the answer for a failure; its status is 502.
pub open spec fn failure_reply(f: Failure, error: Seq<char>) -> Seq<char> {
    match f {
        Failure::Connect => "upstream connect error: "@ + error,
        Failure::Read => "upstream read error: "@ + error,
    }
}

/// The status that is logged for a failure: that of the answer, where there was one.
pub open spec fn failure_status(f: Failure, status: u16) -> u16 {
    match f {
        Failure::Connect => 502,
        Failure::Read => status,
    }
}

/// What is logged of a failure.
pub open spec fn failed_run(
    app: AppView,
    stamp: Seq<char>,
    id: Seq<char>,
    f: Failure,
    o: Outcome,
    error: Seq<char>,
) -> Run {
    error_run(
        settle_run(begin(app.logger), app.active_streams, stamp, id, o),
        stamp,
        "["@ + id + "] "@ + failure_detail(f) + ": "@ + error,
    )
}

/// Logs a failure, and returns the text of the answer.
pub fn upstream_failed_at(
    app: &mut AppState,
    stamp: &str,
    req_id: &str,
    failure: Failure,
    status: u16,
    elapsed: Duration,
    req_bytes: u64,
    error: &str,
) -> (r: (String, Vec<Effect>))
    requires
        old(app).wf(),
    ensures
        final(app).wf(),
        r.0@ == failure_reply(failure, error@),
        ({
            let d = failed_run(
                old(app)@,
                stamp@,
                req_id@,
                failure,
                plain_outcome(
                    failure_status(failure, status),
                    false,
                    elapsed,
                    req_bytes,
                    None,
                    failure_detail(failure),
                ),
                error@,
            );
            &&& final(app)@ == (AppView { logger: d.state, ..old(app)@ })
            &&& r.1.deep_view() == d.effects
        }),
{
    let mut out: Vec<Effect> = Vec::new();
    assert(out.deep_view() =~= Seq::<EffectView>::empty());
    let (detail, head, logged) = match failure {
        Failure::Connect => ("上游连接失败", "upstream connect error: ", 502u16),
        Failure::Read => ("上游读取错误", "upstream read error: ", status),
    };
    settle(app, &mut out, stamp, req_id, logged, false, elapsed, req_bytes, None, detail);
    let mut msg = "[".to_owned();
    msg.append(req_id);
    msg.append("] ");
    msg.append(detail);
    msg.append(": ");
    msg.append(error);
    app.logger.error_at(&mut out, stamp, msg.as_str());
    let mut reply = head.to_owned();
    reply.append(error);
    (reply, out)
}

/// Logs a stream that is passed on byte by byte, at the present time.
pub fn stream_passed(
    app: &mut AppState,
    req_id: &str,
    status: u16,
    elapsed: Duration,
    req_bytes: u64,
) -> (r: Vec<Effect>)
    requires
        old(app).wf(),
    ensures
        final(app).wf(),
        exists|stamp: Seq<char>| #[trigger]
            is_stamp(stamp) && ({
                let d = passed_run(
                    old(app)@,
                    stamp,
                    req_id@,
                    plain_outcome(status, true, elapsed, req_bytes, None, ""@),
                );
                &&& final(app)@ == (AppView { logger: d.state, ..old(app)@ })
                &&& r.deep_view() == d.effects
            }),
{
    let stamp = local_stamp();
    stream_passed_at(app, stamp.as_str(), req_id, status, elapsed, req_bytes)
}

/// Logs an answer that was read as a whole, at the present time.
pub fn whole_read(
    app: &mut AppState,
    req_id: &str,
    status: u16,
    elapsed: Duration,
    req_bytes: u64,
    bytes: u64,
) -> (r: Vec<Effect>)
    requires
        old(app).wf(),
    ensures
        final(app).wf(),
        exists|stamp: Seq<char>| #[trigger]
            is_stamp(stamp) && ({
                let d = settle_run(
                    begin(old(app)@.logger),
                    old(app)@.active_streams,
                    stamp,
                    req_id@,
                    whole_outcome(status, elapsed, req_bytes, bytes),
                );
                &&& final(app)@ == (AppView { logger: d.state, ..old(app)@ })
                &&& r.deep_view() == d.effects
            }),
{
    let stamp = local_stamp();
    whole_read_at(app, stamp.as_str(), req_id, status, elapsed, req_bytes, bytes)
}

/// Logs a failure at the present time, and returns the text of the answer.
pub fn upstream_failed(
    app: &mut AppState,
    req_id: &str,
    failure: Failure,
    status: u16,
    elapsed: Duration,
    req_bytes: u64,
    error: &str,
) -> (r: (String, Vec<Effect>))
    requires
        old(app).wf(),
    ensures
        final(app).wf(),
        r.0@ == failure_reply(failure, error@),
        exists|stamp: Seq<char>| #[trigger]
            is_stamp(stamp) && ({
                let d = failed_run(
                    old(app)@,
                    stamp,
                    req_id@,
                    failure,
                    plain_outcome(
                        failure_status(failure, status),
                        false,
                        elapsed,
                        req_bytes,
                        None,
                        failure_detail(failure),
                    ),
                    error@,
                );
                &&& final(app)@ == (AppView { logger: d.state, ..old(app)@ })
                &&& r.1.deep_view() == d.effects
            }),
{
    let stamp = local_stamp();
    upstream_failed_at(app, stamp.as_str(), req_id, failure, status, elapsed, req_bytes, error)
}

// ---------------------------------------------------------------------------
// What is let through, and where it goes
// ---------------------------------------------------------------------------

/// Where a token is asked for, a request without it, or with another, is rejected, and nothing
/// of it is noted; one that shows it is forwarded. Where none is asked for, every request is
/// forwarded.
pub proof fn law_token_guards_every_request(
    app: AppView,
    stamp: Seq<char>,
    id: Seq<char>,
    authorization: Option<Seq<char>>,
    path: Seq<char>,
    names: Seq<Seq<char>>,
    model: Option<Seq<char>>,
    req_bytes: nat,
)
    ensures
        app.auth_token.len() == 0 ==> plan(app, authorization, path, names, model) is Forward,
        authorization == Some("Bearer "@ + app.auth_token) ==> plan(
            app,
            authorization,
            path,
            names,
            model,
        ) is Forward,
        app.auth_token.len() > 0 && authorization != Some("Bearer "@ + app.auth_token) ==> {
            let d = plan_run(app, stamp, id, authorization, path, names, model, req_bytes);
            &&& plan(app, authorization, path, names, model) is Reject
            &&& d.state.pending == app.logger.pending
            &&& d.state.summaries == app.logger.summaries
        },
{
}

/// The headers for authorization and content negotiation are passed on, and no others.
pub proof fn law_only_listed_headers_pass(
    app: AppView,
    authorization: Option<Seq<char>>,
    path: Seq<char>,
    names: Seq<Seq<char>>,
    model: Option<Seq<char>>,
)
    ensures
        plan(app, authorization, path, names, model) matches PlanView::Forward { headers, .. } ==> {
            &&& headers.len() == names.len()
            &&& forall|i: int|
                0 <= i < names.len() ==> (#[trigger] headers[i] <==> names[i] == "authorization"@
                    || names[i] == "content-type"@ || names[i] == "accept"@ || names[i]
                    == "user-agent"@)
        },
{
}

/// Slashes, as many as are asked for.
pub open spec fn slashes(n: nat) -> Seq<char> {
    Seq::new(n, |i: int| '/')
}

/// An address that ends with slashes is that without them, and the path.
pub proof fn law_address_is_base_and_path(base: Seq<char>, n: nat, path: Seq<char>)
    requires
        base.len() == 0 || base.last() != '/',
    ensures
        target_url(base + slashes(n), path) == base + path,
    decreases n,
{
    let s = base + slashes(n);
    if n > 0 {
        law_address_is_base_and_path(base, (n - 1) as nat, path);
        assert(s.last() == '/');
        assert(s.drop_last() =~= base + slashes((n - 1) as nat));
    } else {
        assert(s =~= base);
    }
}

/// A request that is let through goes to the address of upstream, without the slashes at its
/// end, and the path, as it came.
pub proof fn law_request_goes_to_upstream(
    app: AppView,
    base: Seq<char>,
    n: nat,
    authorization: Option<Seq<char>>,
    path: Seq<char>,
    names: Seq<Seq<char>>,
    model: Option<Seq<char>>,
)
    requires
        app.upstream == base + slashes(n),
        base.len() == 0 || base.last() != '/',
    ensures
        plan(app, authorization, path, names, model) matches PlanView::Forward { url, .. } ==> url
            == base + path,
{
    law_address_is_base_and_path(base, n, path);
}

/// A stream is repaired where the model begins with `glm-5.3`; for any other, and where there is
/// none, the stream is passed on as it is. An answer that is no stream is read as a whole.
pub proof fn law_only_one_family_is_repaired(
    app: AppView,
    authorization: Option<Seq<char>>,
    path: Seq<char>,
    names: Seq<Seq<char>>,
    model: Option<Seq<char>>,
    content_type: Seq<char>,
)
    ensures
        plan(app, authorization, path, names, model) matches PlanView::Forward { normalize, .. }
            ==> route(content_type, normalize) == (if !stands_in("text/event-stream"@, content_type) {
            Route::Whole
        } else if model is Some && model->0.len() >= 7 && model->0.take(7) == "glm-5.3"@ {
            Route::Repair
        } else {
            Route::Stream
        }),
{
    reveal_strlit("glm-5.3");
    law_contained_stands_somewhere(content_type, "text/event-stream"@);
}

/// A request that is let through is noted under its id, with its model, where it goes and its
/// size, and its start is the last thing that is written to the file.
pub proof fn law_forwarded_request_is_noted(
    app: AppView,
    stamp: Seq<char>,
    id: Seq<char>,
    authorization: Option<Seq<char>>,
    path: Seq<char>,
    names: Seq<Seq<char>>,
    model: Seq<char>,
    url: Seq<char>,
    req_bytes: nat,
)
    requires
        app.logger.file is Some,
        plan(app, authorization, path, names, Some(model)) matches PlanView::Forward { url: u, .. }
            && u == url,
    ensures
        ({
            let d = plan_run(app, stamp, id, authorization, path, names, Some(model), req_bytes);
            let lines = appended(d.effects);
            &&& d.state.pending.contains_key(id)
            &&& d.state.pending[id].head == model + " → "@ + short_upstream(url)
            &&& d.state.pending[id].req_bytes == req_bytes
            &&& lines.len() > 0
            &&& lines.last() == plain_text(
                stamp,
                "INFO"@,
                "["@ + id + "] -> "@ + model + " POST "@ + path + " (req "@ + bytes_text(req_bytes)
                    + ") 转发至 "@ + url,
            )
        }),
{
    let m = debug_run(begin(app.logger), stamp, model_text(id, Some(model)));
    let f = filter_run(m, stamp, id, names);
    lemma_filter_keeps_the_file(m, stamp, id, names);
    lemma_start_appends(f, stamp, id, Some(model), "POST"@, path, url, req_bytes);
    reveal_strlit(" ");
    reveal_strlit("POST");
    reveal_strlit(" POST ");
    assert(" "@ + "POST"@ + " "@ =~= " POST "@);
    let a = "["@ + id + "] -> "@ + model;
    assert(a + " "@ + "POST"@ + " "@ =~= a + " POST "@);
}

proof fn lemma_filter_keeps_the_file(r: Run, stamp: Seq<char>, id: Seq<char>, names: Seq<Seq<char>>)
    ensures
        filter_run(r, stamp, id, names).state.file == r.state.file,
    decreases names.len(),
{
    if names.len() > 0 {
        lemma_filter_keeps_the_file(r, stamp, id, names.drop_last());
    }
}

/// The id of a request is six hexadecimal digits, in lower case.
pub proof fn law_id_is_six_digits(nanos: u32)
    ensures
        hex(scrambled(nanos) as nat, 6).len() == 6,
        forall|i: int|
            0 <= i < 6 ==> '0' <= #[trigger] hex(scrambled(nanos) as nat, 6)[i] <= '9' || 'a'
                <= hex(scrambled(nanos) as nat, 6)[i] <= 'f',
{
    lemma_hex_digits(scrambled(nanos) as nat, 6);
}

proof fn lemma_hex_digits(n: nat, width: nat)
    ensures
        hex(n, width).len() == width,
        forall|i: int|
            0 <= i < width ==> '0' <= #[trigger] hex(n, width)[i] <= '9' || 'a' <= hex(n, width)[i]
                <= 'f',
    decreases width,
{
    if width > 0 {
        let before = hex(n / 16, (width - 1) as nat);
        lemma_hex_digits(n / 16, (width - 1) as nat);
        assert forall|i: int| 0 <= i < width implies '0' <= #[trigger] hex(n, width)[i] <= '9' || 'a'
            <= hex(n, width)[i] <= 'f' by {
            if i < width - 1 {
                assert(hex(n, width)[i] == before[i]);
            }
        }
    }
}

/// An answer that was read as a whole is a success exactly where its status is one of success,
/// and is summed up with its status, its time and the sizes of both bodies.
pub proof fn law_whole_answer_is_summed_up(
    status: u16,
    elapsed: Duration,
    req_bytes: u64,
    bytes: u64,
)
    ensures
        whole_outcome(status, elapsed, req_bytes, bytes) == (Outcome {
            status: status as nat,
            ok: status / 100 == 2,
            elapsed: Some(elapsed@),
            first_byte: None,
            tokens: None,
            req_bytes: Some(req_bytes as nat),
            bytes: Some(bytes as nat),
            detail: if status / 100 == 2 {
                ""@
            } else {
                "上游拒绝"@
            },
        }),
{
}

/// A failure is answered with what it was, and is never summed up as a success. Where there was
/// no answer, it is summed up with status 502, else with the status of the answer.
pub proof fn law_failure_is_no_success(
    failure: Failure,
    status: u16,
    elapsed: Duration,
    req_bytes: u64,
    error: Seq<char>,
)
    ensures
        failure_reply(failure, error) == (if failure == Failure::Connect {
            "upstream connect error: "@
        } else {
            "upstream read error: "@
        }) + error,
        plain_outcome(
            failure_status(failure, status),
            false,
            elapsed,
            req_bytes,
            None,
            failure_detail(failure),
        ) == (Outcome {
            status: if failure == Failure::Connect {
                502
            } else {
                status as nat
            },
            ok: false,
            elapsed: Some(elapsed@),
            first_byte: None,
            tokens: None,
            req_bytes: Some(req_bytes as nat),
            bytes: None,
            detail: if failure == Failure::Connect {
                "上游连接失败"@
            } else {
                "上游读取错误"@
            },
        }),
{
}

/// The line for a request in the file of statistics is a JSON object with its time, its id, how
/// many milliseconds it took, and its status.
pub proof fn law_stats_line_is_an_object(
    ts: Seq<char>,
    id: Seq<char>,
    elapsed_ms: u64,
    status: u16,
)
    ensures
        ({
            let a = json_literal("elapsed_ms"@) + ":"@ + decimal(elapsed_ms as nat);
            let b = json_literal("id"@) + ":"@ + json_literal(id);
            let c = json_literal("status"@) + ":"@ + decimal(status as nat);
            let d = json_literal("ts"@) + ":"@ + json_literal(ts);
            stats_text(ts, id, elapsed_ms, status) == "{"@ + (a + ","@ + b + ","@ + c + ","@ + d)
                + "}"@
        }),
{
    let all = stats_members(ts, id, elapsed_ms, status);
    let parts = Seq::new(all.len(), |i: int| member_text(all[i]));
    let a = json_literal("elapsed_ms"@) + ":"@ + decimal(elapsed_ms as nat);
    let b = json_literal("id"@) + ":"@ + json_literal(id);
    let c = json_literal("status"@) + ":"@ + decimal(status as nat);
    let d = json_literal("ts"@) + ":"@ + json_literal(ts);
    assert(parts =~= seq![a, b, c, d]);
    assert(parts.drop_last() =~= seq![a, b, c]);
    assert(parts.drop_last().drop_last() =~= seq![a, b]);
    assert(parts.drop_last().drop_last().drop_last() =~= seq![a]);
    reveal_with_fuel(join, 5);
    assert(join(parts, ","@) == a + ","@ + b + ","@ + c + ","@ + d);
}

/// A request that comes in and is answered leaves the number of those under way as it was, and
/// is counted once.
pub proof fn law_request_is_under_way_once(app: AppView)
    ensures
        app.inflight.wrapping_add(1).wrapping_sub(1) == app.inflight,
        app.inflight < u64::MAX ==> app.inflight.wrapping_add(1) == app.inflight + 1,
{
}

/// A header that is not passed on is noted, except the four that every request has and that are
/// left out without a word.
pub proof fn law_other_headers_are_noted(
    r: Run,
    stamp: Seq<char>,
    id: Seq<char>,
    names: Seq<Seq<char>>,
    name: Seq<char>,
)
    requires
        r.state.captured is Some,
        !r.state.disabled,
        r.state.level is Debug,
    ensures
        ({
            let before = filter_run(r, stamp, id, names).state.captured;
            let after = filter_run(r, stamp, id, names.push(name)).state.captured;
            let known = seq![
                "authorization"@,
                "content-type"@,
                "accept"@,
                "user-agent"@,
                "host"@,
                "content-length"@,
                "connection"@,
                "accept-encoding"@,
            ];
            &&& before is Some
            &&& known.contains(name) ==> after == before
            &&& !known.contains(name) ==> after == Some(
                before->0.push("[DEBUG] ["@ + id + "] 滤除头: "@ + name),
            )
        }),
{
    lemma_filter_keeps_the_rest(r, stamp, id, names);
    reveal_strlit("[");
    reveal_strlit("] ");
    reveal_strlit("DEBUG");
    reveal_strlit("[DEBUG] [");
    assert(names.push(name).drop_last() =~= names);
    let known = seq![
        "authorization"@,
        "content-type"@,
        "accept"@,
        "user-agent"@,
        "host"@,
        "content-length"@,
        "connection"@,
        "accept-encoding"@,
    ];
    assert(known[0] == "authorization"@);
    assert(known[1] == "content-type"@);
    assert(known[2] == "accept"@);
    assert(known[3] == "user-agent"@);
    assert(known[4] == "host"@);
    assert(known[5] == "content-length"@);
    assert(known[6] == "connection"@);
    assert(known[7] == "accept-encoding"@);
    let msg = "["@ + id + "] 滤除头: "@ + name;
    assert("["@ + "DEBUG"@ + "] "@ + msg =~= "[DEBUG] ["@ + id + "] 滤除头: "@ + name);
}

proof fn lemma_filter_keeps_the_rest(
    r: Run,
    stamp: Seq<char>,
    id: Seq<char>,
    names: Seq<Seq<char>>,
)
    ensures
        ({
            let f = filter_run(r, stamp, id, names).state;
            &&& f.disabled == r.state.disabled
            &&& f.level == r.state.level
            &&& f.captured is Some == r.state.captured is Some
        }),
    decreases names.len(),
{
    if names.len() > 0 {
        lemma_filter_keeps_the_rest(r, stamp, id, names.drop_last());
    }
}

/// A stream that is passed on as it is, is noted as such, and summed up as every other request.
pub proof fn law_passed_stream_is_noted(app: AppView, stamp: Seq<char>, id: Seq<char>, o: Outcome)
    requires
        app.logger.captured is Some,
        !app.logger.disabled,
        app.logger.level is Debug,
    ensures
        ({
            let n = app.logger.captured->0.len() as int;
            let after = passed_run(app, stamp, id, o).state;
            &&& after.captured is Some
            &&& after.captured->0.len() == n + 2
            &&& after.captured->0[n] == "[DEBUG] ["@ + id
                + "] SSE 字节级直通（非 glm-5.3，不归一化）"@
            &&& after.captured->0[n + 1] == "[INFO] "@ + finish_text(id, o)
            &&& !after.pending.contains_key(id)
        }),
{
    reveal_strlit("[");
    reveal_strlit("] ");
    reveal_strlit("DEBUG");
    reveal_strlit("INFO");
    reveal_strlit("[DEBUG] [");
    reveal_strlit("[INFO] ");
    let end = "] SSE 字节级直通（非 glm-5.3，不归一化）"@;
    assert("["@ + "DEBUG"@ + "] "@ + ("["@ + id + end) =~= "[DEBUG] ["@ + id + end);
    assert("["@ + "INFO"@ + "] "@ + finish_text(id, o) =~= "[INFO] "@ + finish_text(id, o));
}

/// The number behind an id is a linear image of the clock: what two readings have in common
/// cancels out.
pub proof fn law_scramble_is_linear(a: u32, b: u32)
    ensures
        scrambled(a ^ b) == scrambled(a) ^ scrambled(b),
{
    assert(scrambled(a ^ b) == scrambled(a) ^ scrambled(b)) by (bit_vector);
}

} // verus!
