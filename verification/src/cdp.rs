//! JavaScript for the NetEase Cloud Music renderer, and the DevTools protocol
//! that evaluates it.
//!
//! The macOS player is native, so the position is pushed from native code to JS
//! once per second and persisted to localStorage under `lastPlaying` (encrypted
//! by native code). Decrypting it needs no key: the client's own `ncmChannelOSX`
//! bridge exposes the inverse operation, `deData`.

use serde_json::Value;
use vstd::prelude::*;

use crate::json;
use crate::json::Json;
use crate::text;

verus! {

/// Read `lastPlaying` and decrypt it through the native bridge, yielding the plaintext JSON.
pub const STATE_JS: &'static str = r#"
(function () {
  var raw = localStorage.getItem("lastPlaying");
  if (!raw) return null;
  return window.ncmChannelOSX.callSyncWithParams(
    JSON.stringify({ method: "deData", params: [raw] })) || null;
})()
"#;

/// The track script up to the track id.
pub const TRACK_JS_HEAD: &'static str = r#"
(async function () {
  var id = "#;

/// The track script behind the track id.
pub const TRACK_JS_TAIL: &'static str = r#";
  var detailUrl = "https://music.163.com/api/song/detail?ids=%5B" + encodeURIComponent(id) + "%5D";
  var lyricUrl = "https://music.163.com/api/song/lyric/v1?id=" + encodeURIComponent(id)
    + "&cp=false&lv=-1&kv=-1&tv=-1&rv=-1&yv=-1&ytv=-1&yrv=-1";
  var results = await Promise.all([
    fetch(detailUrl, { credentials: "include" }).then(function (r) { return r.json(); }),
    fetch(lyricUrl, { credentials: "include" }).then(function (r) { return r.json(); })
  ]);
  var detail = results[0], lyric = results[1];
  var s = (detail.songs || [])[0] || null;
  return JSON.stringify({
    song: s ? {
      id: String(id),
      name: s.name || "",
      artists: (s.artists || []).map(function (a) { return a.name; }),
      album: s.album ? s.album.name : "",
      albumPic: s.album ? (s.album.picUrl || "") : "",
      durationMs: s.duration || 0
    } : null,
    yrc: (lyric.yrc && lyric.yrc.lyric) || null,
    lrc: (lyric.lrc && lyric.lrc.lyric) || null,
    tlyric: (lyric.tlyric && lyric.tlyric.lyric) || null
  });
})()
"#;

/// The text that the `Debug` format of a string gives: the string in double
/// quotes, with escapes.
pub uninterp spec fn debug_text(s: Seq<char>) -> Seq<char>;

/// `format!` with `{:?}` writes a string in its `Debug` format, which depends on
/// the string alone. Which characters are escaped, and how, is left unsaid.
#[verifier::external_body]
fn debug_quoted(s: &str) -> (r: String)
    ensures
        r@ == debug_text(s@),
{
    format!("{:?}", s)
}

/// The script that fetches a track, with the given literal as the track id.
pub open spec fn track_script(literal: Seq<char>) -> Seq<char> {
    TRACK_JS_HEAD@ + literal + TRACK_JS_TAIL@
}

/// Builds the script that fetches a track, with the given literal as the track
/// id.
pub fn track_js_for(literal: &str) -> (r: String)
    ensures
        r@ == track_script(literal@),
{
    let mut out: String = TRACK_JS_HEAD.to_owned();
    out.append(literal);
    out.append(TRACK_JS_TAIL);
    out
}

/// Fetch song detail and lyrics from the page context: same origin with session cookies
/// already attached, so there is no eapi signing to deal with.
pub fn track_js(id: &str) -> (r: String)
    ensures
        r@ == track_script(debug_text(id@)),
{
    track_js_for(debug_quoted(id).as_str())
}

/// Where the client with the given debugging port lists its targets.
pub fn list_url(port: u16) -> (r: String)
    ensures
        r@ == "http://127.0.0.1:"@ + text::decimal(port as nat) + "/json/list"@,
{
    let mut out: String = "http://127.0.0.1:".to_owned();
    text::push_decimal(&mut out, port as u64);
    out.append("/json/list");
    out
}

/// Whether a target is a page.
pub open spec fn is_page(target: Json) -> bool {
    json::member(target, "type"@) == Some(Json::Text("page"@))
}

/// The first page among several targets.
pub open spec fn first_page(targets: Seq<Json>) -> Option<Json>
    decreases targets.len(),
{
    if targets.len() == 0 {
        None
    } else if is_page(targets.first()) {
        Some(targets.first())
    } else {
        first_page(targets.drop_first())
    }
}

/// The text that a JSON string holds.
pub open spec fn as_text(v: Option<Json>) -> Option<Seq<char>> {
    match v {
        Some(Json::Text(s)) => Some(s),
        _ => None,
    }
}

/// Where the first page of a target list takes DevTools connections.
pub open spec fn page_socket(list: Json) -> Option<Seq<char>> {
    match list {
        Json::Array(targets) => match first_page(targets) {
            Some(page) => as_text(json::member(page, "webSocketDebuggerUrl"@)),
            None => None,
        },
        _ => None,
    }
}

/// The text that a member of an object holds, if it is a JSON string.
fn text_member(v: &Value, key: &str) -> (r: Option<String>)
    ensures
        match r {
            Some(s) => as_text(json::member(json::json_tree(*v), key@)) == Some(s@),
            None => as_text(json::member(json::json_tree(*v), key@)) is None,
        },
{
    match json::get(v, key) {
        Some(w) => match w.as_str() {
            Some(s) => Some(s.to_owned()),
            None => None,
        },
        None => None,
    }
}

/// Finds where the first page of a target list takes DevTools connections.
pub fn find_page_socket(list: &Value) -> (r: Option<String>)
    ensures
        match r {
            Some(url) => page_socket(json::json_tree(*list)) == Some(url@),
            None => page_socket(json::json_tree(*list)) is None,
        },
{
    match list.as_array() {
        Some(targets) => {
            let ghost all = json::trees(targets@);
            let mut i: usize = 0;
            assert(all.skip(0) == all);
            while i < targets.len()
                invariant
                    i <= targets@.len(),
                    all == json::trees(targets@),
                    json::json_tree(*list) == Json::Array(all),
                    first_page(all) == first_page(all.skip(i as int)),
                decreases targets@.len() - i,
            {
                let target: &Value = &targets[i];
                assert(all.skip(i as int).first() == json::json_tree(*target));
                assert(all.skip(i as int).drop_first() == all.skip(i + 1));
                match text_member(target, "type") {
                    Some(kind) => {
                        if kind == "page".to_owned() {
                            return text_member(target, "webSocketDebuggerUrl");
                        }
                    },
                    None => {},
                }
                i = i + 1;
            }
            None
        },
        None => None,
    }
}

/// Why no page could be found in a target list.
#[derive(Debug)]
pub enum ConnectError {
    /// The list is not JSON.
    NotJson(serde_json::Error),
    /// The list holds no page with an address.
    NoPage,
}

/// Finds where the page takes DevTools connections, in the body of the reply of
/// `/json/list`.
pub fn page_target(body: &[u8]) -> (r: Result<String, ConnectError>)
    ensures
        match (json::json_from_slice(body@), r) {
            (None, Err(ConnectError::NotJson(_))) => true,
            (Some(list), Ok(url)) => page_socket(list) == Some(url@),
            (Some(list), Err(ConnectError::NoPage)) => page_socket(list) is None,
            _ => false,
        },
{
    match json::parse_slice(body) {
        Ok(list) => match find_page_socket(&list) {
            Some(url) => Ok(url),
            None => Err(ConnectError::NoPage),
        },
        Err(e) => Err(ConnectError::NotJson(e)),
    }
}

/// How long the page may take to evaluate an expression, in milliseconds.
pub const EVALUATE_TIMEOUT_MS: u64 = 8000;

/// The message that asks the page to evaluate an expression.
pub open spec fn request_tree(id: u64, expr: Seq<char>) -> Json {
    Json::Object(
        map![
            "id"@ => Json::Unsigned(id),
            "method"@ => Json::Text("Runtime.evaluate"@),
            "params"@ => Json::Object(map![
                "expression"@ => Json::Text(expr),
                "returnByValue"@ => Json::Bool(true),
                "awaitPromise"@ => Json::Bool(true),
                "timeout"@ => Json::Unsigned(EVALUATE_TIMEOUT_MS),
            ]),
        ],
    )
}

/// Builds the message that asks the page to evaluate an expression.
fn request(id: u64, expr: &str) -> (r: Value)
    ensures
        json::json_tree(r) == request_tree(id, expr@),
{
    proof {
        reveal_strlit("id");
        reveal_strlit("method");
        reveal_strlit("params");
        reveal_strlit("expression");
        reveal_strlit("returnByValue");
        reveal_strlit("awaitPromise");
        reveal_strlit("timeout");
        assert("id"@.len() == 2);
        assert("method"@.len() == 6 && "method"@[0] == 'm');
        assert("params"@.len() == 6 && "params"@[0] == 'p');
        assert("expression"@.len() == 10);
        assert("returnByValue"@.len() == 13);
        assert("awaitPromise"@.len() == 12);
        assert("timeout"@.len() == 7);
        reveal_with_fuel(json::members, 5);
    }
    let params: Vec<(&'static str, Value)> = vec![
        ("expression", json::string(expr)),
        ("returnByValue", json::boolean(true)),
        ("awaitPromise", json::boolean(true)),
        ("timeout", json::unsigned(EVALUATE_TIMEOUT_MS)),
    ];
    let fields: Vec<(&'static str, Value)> = vec![
        ("id", json::unsigned(id)),
        ("method", json::string("Runtime.evaluate")),
        ("params", json::object(params)),
    ];
    json::object(fields)
}

/// The requests of one connection, numbered from one.
#[derive(Debug)]
pub struct Requests {
    last_id: u64,
}

impl Requests {
    /// How many requests there have been.
    pub closed spec fn count(&self) -> u64 {
        self.last_id
    }

    /// The requests of a new connection.
    pub fn new() -> (r: Requests)
        ensures
            r.count() == 0,
    {
        Requests { last_id: 0 }
    }

    /// The number of the latest request; zero if there has been none.
    pub fn last_id(&self) -> (r: u64)
        ensures
            r == self.count(),
    {
        self.last_id
    }

    /// The text of the next request, which asks the page to evaluate an
    /// expression.
    pub fn evaluate(&mut self, expr: &str) -> (r: String)
        requires
            old(self).count() < u64::MAX,
        ensures
            final(self).count() == old(self).count() + 1,
            r@ == json::json_text(request_tree(final(self).count(), expr@)),
    {
        self.last_id = self.last_id + 1;
        json::to_text(&request(self.last_id, expr))
    }
}

/// What a message of the page means to the request with a given number.
pub enum Reply {
    /// It is an event, or the reply to another request.
    Foreign,
    /// The expression threw.
    Threw(Json),
    /// The expression gave a string, or something else.
    Value(Option<Seq<char>>),
}

/// The member of a member, if there is one.
pub open spec fn member_of(v: Option<Json>, key: Seq<char>) -> Option<Json> {
    match v {
        Some(tree) => json::member(tree, key),
        None => None,
    }
}

/// What a message means to the request with the number `id`.
pub open spec fn reply(message: Json, id: u64) -> Reply {
    let result = json::member(message, "result"@);
    if json::member(message, "id"@) != Some(Json::Unsigned(id)) {
        Reply::Foreign
    } else {
        match member_of(result, "exceptionDetails"@) {
            Some(details) => Reply::Threw(details),
            None => Reply::Value(as_text(member_of(member_of(result, "result"@), "value"@))),
        }
    }
}

/// What comes in on a DevTools connection.
#[derive(Debug)]
pub enum Incoming {
    /// A text message.
    Text(String),
    /// A close message, or the end of the connection.
    Closed,
    /// Any other message, such as ping and pong.
    Other,
}

/// What to do about it while a request waits for its reply.
#[derive(Debug)]
pub enum EvalStep {
    /// Keep waiting.
    Wait,
    /// The request is done: the string that the expression gave; `None` if it
    /// gave anything else.
    Done(Option<String>),
    /// The request failed: the connection closed.
    Closed,
    /// The request failed: a message is not JSON.
    NotJson(serde_json::Error),
    /// The request failed: the expression threw these details.
    Threw(String),
}

impl EvalStep {
    /// Whether this is what a message calls for: only the reply of the request
    /// with the number `id` ends the wait.
    pub open spec fn answers(self, message: Json, id: u64) -> bool {
        match (self, reply(message, id)) {
            (EvalStep::Wait, Reply::Foreign) => true,
            (EvalStep::Threw(text), Reply::Threw(details)) => text@ == json::json_text(details),
            (EvalStep::Done(Some(s)), Reply::Value(Some(t))) => s@ == t,
            (EvalStep::Done(None), Reply::Value(None)) => true,
            _ => false,
        }
    }
}

/// Decides what to do about a message while the request with the number `id`
/// waits for its reply.
pub fn on_message(message: &Value, id: u64) -> (r: EvalStep)
    ensures
        r.answers(json::json_tree(*message), id),
{
    match json::get(message, "id") {
        Some(v) => match v.as_u64() {
            Some(n) => {
                if n != id {
                    return EvalStep::Wait;
                }
            },
            None => {
                return EvalStep::Wait;
            },
        },
        None => {
            return EvalStep::Wait;
        },
    }
    match json::get(message, "result") {
        Some(result) => match json::get(result, "exceptionDetails") {
            Some(details) => EvalStep::Threw(json::to_text(details)),
            None => match json::get(result, "result") {
                Some(inner) => EvalStep::Done(text_member(inner, "value")),
                None => EvalStep::Done(None),
            },
        },
        None => EvalStep::Done(None),
    }
}

/// Decides what to do about something that came in while the request with the
/// number `id` waits for its reply.
pub fn on_incoming(incoming: Incoming, id: u64) -> (r: EvalStep)
    ensures
        match incoming {
            Incoming::Text(text) => match json::json_from_str(text@) {
                Some(message) => r.answers(message, id),
                None => r is NotJson,
            },
            Incoming::Closed => r is Closed,
            Incoming::Other => r is Wait,
        },
{
    match incoming {
        Incoming::Text(text) => match json::parse_str(text.as_str()) {
            Ok(message) => on_message(&message, id),
            Err(e) => EvalStep::NotJson(e),
        },
        Incoming::Closed => EvalStep::Closed,
        Incoming::Other => EvalStep::Wait,
    }
}

/// The reply to one request is never taken for that to another.
pub proof fn law_replies_do_not_mix(message: Json, id: u64, other: u64)
    requires
        !(reply(message, id) is Foreign),
        other != id,
    ensures
        reply(message, other) is Foreign,
{
}

/// What answers a message: it keeps waiting exactly if the message does not carry
/// the number of the request. Otherwise it has failed if the message holds the
/// details of an exception, with their JSON text, and else it is done, with the
/// string that the expression gave or with nothing.
pub proof fn law_answer_follows_the_message(step: EvalStep, message: Json, id: u64)
    requires
        step.answers(message, id),
    ensures
        step is Wait <==> json::member(message, "id"@) != Some(Json::Unsigned(id)),
        !(step is Wait) ==> {
            let result = json::member(message, "result"@);
            let details = if result is Some {
                json::member(result->0, "exceptionDetails"@)
            } else {
                None
            };
            let inner = if result is Some {
                json::member(result->0, "result"@)
            } else {
                None
            };
            let value = if inner is Some {
                json::member(inner->0, "value"@)
            } else {
                None
            };
            match details {
                Some(d) => step matches EvalStep::Threw(text) && text@ == json::json_text(d),
                None => step matches EvalStep::Done(given) && match value {
                    Some(Json::Text(t)) => given matches Some(g) && g@ == t,
                    _ => given is None,
                },
            }
        },
{
}

/// The address is that of the first target that is a page, if it has one. There
/// is none without a page.
pub proof fn law_first_page_is_taken(targets: Seq<Json>, i: int)
    requires
        0 <= i <= targets.len(),
        forall|j: int|
            0 <= j < i ==> json::member(#[trigger] targets[j], "type"@) != Some(
                Json::Text("page"@),
            ),
        i < targets.len() ==> json::member(targets[i], "type"@) == Some(Json::Text("page"@)),
    ensures
        page_socket(Json::Array(targets)) == if i < targets.len() {
            match json::member(targets[i], "webSocketDebuggerUrl"@) {
                Some(Json::Text(url)) => Some(url),
                _ => None,
            }
        } else {
            None
        },
{
    lemma_first_page(targets, i);
}

proof fn lemma_first_page(targets: Seq<Json>, i: int)
    requires
        0 <= i <= targets.len(),
        forall|j: int| 0 <= j < i ==> !is_page(#[trigger] targets[j]),
        i < targets.len() ==> is_page(targets[i]),
    ensures
        first_page(targets) == if i < targets.len() {
            Some(targets[i])
        } else {
            None
        },
    decreases targets.len(),
{
    if i > 0 {
        assert(!is_page(targets[0]));
        assert forall|j: int| 0 <= j < i - 1 implies !is_page(
            #[trigger] targets.drop_first()[j],
        ) by {
            assert(targets.drop_first()[j] == targets[j + 1]);
        }
        lemma_first_page(targets.drop_first(), i - 1);
    }
}

/// Only a list of targets has an address.
pub proof fn law_only_a_list_has_pages(list: Json)
    requires
        !(list is Array),
    ensures
        page_socket(list) is None,
{
}

/// The script that fetches a track differs for every literal, and by the literal
/// alone.
pub proof fn law_script_carries_the_literal(a: Seq<char>, b: Seq<char>)
    ensures
        track_script(a) == track_script(b) <==> a == b,
        track_script(a).subrange(
            TRACK_JS_HEAD@.len() as int,
            TRACK_JS_HEAD@.len() as int + a.len() as int,
        ) == a,
        track_script(a).take(TRACK_JS_HEAD@.len() as int) == TRACK_JS_HEAD@,
        track_script(a).skip(TRACK_JS_HEAD@.len() as int + a.len() as int) == TRACK_JS_TAIL@,
{
    let n = TRACK_JS_HEAD@.len() as int;
    assert(track_script(a).subrange(n, n + a.len()) == a);
    assert(track_script(b).subrange(n, n + b.len()) == b);
    assert(track_script(a).take(n) == TRACK_JS_HEAD@);
    assert(track_script(a).skip(n + a.len()) == TRACK_JS_TAIL@);
}

/// A request carries its number and the expression, which the page is to
/// evaluate within eight seconds, waiting for a promise, and to give by value. It
/// carries nothing else.
pub proof fn law_request_members(id: u64, expr: Seq<char>)
    ensures
        json::member(request_tree(id, expr), "id"@) == Some(Json::Unsigned(id)),
        json::member(request_tree(id, expr), "method"@) == Some(Json::Text("Runtime.evaluate"@)),
        json::member(request_tree(id, expr), "params"@) is Some,
        ({
            let params = json::member(request_tree(id, expr), "params"@)->0;
            &&& json::member(params, "expression"@) == Some(Json::Text(expr))
            &&& json::member(params, "returnByValue"@) == Some(Json::Bool(true))
            &&& json::member(params, "awaitPromise"@) == Some(Json::Bool(true))
            &&& json::member(params, "timeout"@) == Some(Json::Unsigned(8000))
            &&& params matches Json::Object(m) && m.dom() =~= set![
                "expression"@,
                "returnByValue"@,
                "awaitPromise"@,
                "timeout"@,
            ]
        }),
        request_tree(id, expr) matches Json::Object(m) && m.dom() =~= set![
            "id"@,
            "method"@,
            "params"@,
        ],
{
    reveal_strlit("id");
    reveal_strlit("method");
    reveal_strlit("params");
    reveal_strlit("expression");
    reveal_strlit("returnByValue");
    reveal_strlit("awaitPromise");
    reveal_strlit("timeout");
    assert("id"@.len() == 2);
    assert("method"@.len() == 6 && "method"@[0] == 'm');
    assert("params"@.len() == 6 && "params"@[0] == 'p');
    assert("expression"@.len() == 10);
    assert("returnByValue"@.len() == 13);
    assert("awaitPromise"@.len() == 12);
    assert("timeout"@.len() == 7);
}

} // verus!
