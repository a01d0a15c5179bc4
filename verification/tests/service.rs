use ncm_nowplaying::cache::{join_path, Cache};
use ncm_nowplaying::cdp::{
    find_page_socket, list_url, on_incoming, on_message, page_target, track_js, track_js_for, ConnectError, EvalStep, Incoming,
    Requests, STATE_JS,
};
use ncm_nowplaying::config::{Config, ConfigError, Vars};
use ncm_nowplaying::playback::Event;
use ncm_nowplaying::server::{message_of, on_input, Action, Input, Message};
use serde_json::Value;

fn json(s: &str) -> Value {
    serde_json::from_str(s).unwrap()
}

fn no_vars() -> Vars {
    Vars {
        host: None,
        port: None,
        devtools_port: None,
        poll_ms: None,
        cache_dir: None,
        home: None,
    }
}

#[test]
fn scripts() {
    assert!(STATE_JS.starts_with("\n(function () {\n  var raw = localStorage"));
    assert!(STATE_JS.contains("JSON.stringify({ method: \"deData\", params: [raw] })) || null;"));
    let s = track_js("108965");
    assert!(s.starts_with("\n(async function () {\n  var id = \"108965\";\n  var detailUrl = "));
    assert!(s.ends_with("  });\n})()\n"));
    assert!(s.contains("fetch(detailUrl, { credentials: \"include\" }).then(function (r) { return r.json(); }),"));
    assert_eq!(s, track_js_for("\"108965\""));
    assert!(track_js("a\"b\\").contains("var id = \"a\\\"b\\\\\";"));
}

#[test]
fn target_list_address() {
    assert_eq!(list_url(9222), "http://127.0.0.1:9222/json/list");
    assert_eq!(list_url(0), "http://127.0.0.1:0/json/list");
}

#[test]
fn page_targets() {
    let list = br#"[{"type":"worker","webSocketDebuggerUrl":"ws://w"},
        {"type":"page","webSocketDebuggerUrl":"ws://p"},
        {"type":"page","webSocketDebuggerUrl":"ws://q"}]"#;
    assert_eq!(page_target(list).unwrap(), "ws://p");
    for s in [
        "[]",
        "{}",
        "[{\"type\":\"worker\"}]",
        "[{\"type\":\"page\"},{\"type\":\"page\",\"webSocketDebuggerUrl\":\"ws://q\"}]",
        "[{\"type\":\"page\",\"webSocketDebuggerUrl\":3}]",
        "[{\"type\":{\"page\":1}}, 3]",
    ] {
        assert!(matches!(page_target(s.as_bytes()), Err(ConnectError::NoPage)), "{}", s);
    }
    assert!(matches!(page_target(b"<html>"), Err(ConnectError::NotJson(_))));
    assert!(matches!(page_target(b"\xff"), Err(ConnectError::NotJson(_))));
}

#[test]
fn requests_are_numbered() {
    let mut r = Requests::new();
    assert_eq!(r.last_id(), 0);
    let first = r.evaluate("1 + \"x\"");
    assert_eq!(r.last_id(), 1);
    assert_eq!(
        json(&first),
        json(
            r#"{"id":1,"method":"Runtime.evaluate","params":{"expression":"1 + \"x\"",
                "returnByValue":true,"awaitPromise":true,"timeout":8000}}"#
        )
    );
    assert_eq!(json(&r.evaluate("")).get("id"), Some(&Value::from(2u64)));
}

fn incoming(s: &str, id: u64) -> EvalStep {
    on_incoming(Incoming::Text(s.to_string()), id)
}

#[test]
fn replies() {
    let value = r#"{"id":4,"result":{"result":{"type":"string","value":"plain"}}}"#;
    match incoming(value, 4) {
        EvalStep::Done(Some(s)) => assert_eq!(s, "plain"),
        other => panic!("{:?}", other),
    }
    assert!(matches!(incoming(value, 5), EvalStep::Wait));
    assert!(matches!(incoming(r#"{"method":"x"}"#, 4), EvalStep::Wait));
    assert!(matches!(incoming(r#"{"id":"4"}"#, 4), EvalStep::Wait));
    assert!(matches!(incoming(r#"{"id":4.0}"#, 4), EvalStep::Wait));
    assert!(matches!(incoming("[4]", 4), EvalStep::Wait));
    for s in [
        r#"{"id":4}"#,
        r#"{"id":4,"result":3}"#,
        r#"{"id":4,"result":{"result":{"value":null}}}"#,
        r#"{"id":4,"result":{"result":{"value":7}}}"#,
        r#"{"id":4,"error":{"code":1}}"#,
    ] {
        assert!(matches!(incoming(s, 4), EvalStep::Done(None)), "{}", s);
    }
    match incoming(r#"{"id":4,"result":{"exceptionDetails":{"b": 1, "a": [2]},"result":{}}}"#, 4) {
        EvalStep::Threw(s) => assert_eq!(s, r#"{"a":[2],"b":1}"#),
        other => panic!("{:?}", other),
    }
    assert!(matches!(
        incoming(r#"{"id":4,"result":{"exceptionDetails":null}}"#, 4),
        EvalStep::Threw(_)
    ));
    assert!(matches!(incoming("{", 4), EvalStep::NotJson(_)));
    assert!(matches!(on_incoming(Incoming::Closed, 4), EvalStep::Closed));
    assert!(matches!(on_incoming(Incoming::Other, 4), EvalStep::Wait));
}

#[test]
fn parsed_messages_and_lists() {
    let v = json(r#"{"id":1,"result":{"result":{"value":"v"}}}"#);
    assert!(matches!(on_message(&v, 1), EvalStep::Done(Some(_))));
    assert!(matches!(on_message(&v, 2), EvalStep::Wait));
    let list = json(r#"[{"type":"page","webSocketDebuggerUrl":"ws://p"}]"#);
    assert_eq!(find_page_socket(&list), Some("ws://p".to_string()));
    assert_eq!(find_page_socket(&v), None);
}

#[test]
fn cache_files() {
    let c = Cache::new("/tmp/lyrics".to_string());
    assert_eq!(c.dir(), "/tmp/lyrics");
    assert_eq!(c.path("108965"), "/tmp/lyrics/108965.json");
    assert_eq!(c.path("../../etc/pass wd"), "/tmp/lyrics/etcpasswd.json");
    assert_eq!(c.path("aZ_-09.海"), "/tmp/lyrics/aZ_-09.json");
    assert_eq!(c.path(""), "/tmp/lyrics/.json");
    assert_ne!(c.path("1"), c.path("2"));
    assert_ne!(c.path("a/b"), c.path("ba"));
    assert_eq!(c.path("a/b"), c.path("ab"));
}

#[test]
fn paths_join_as_in_std() {
    for dir in ["", "/", "/a", "/a/", "a", "a//"] {
        for name in ["b.json", "Library/Caches", ".json"] {
            let want = std::path::PathBuf::from(dir).join(name);
            assert_eq!(join_path(dir, name), want.to_str().unwrap());
        }
    }
}

#[test]
fn default_settings() {
    let vars = Vars { home: Some("/Users/you".to_string()), ..no_vars() };
    let c = Config::from_vars(&vars).unwrap();
    assert_eq!(c.bind, "127.0.0.1:3574");
    assert_eq!(c.devtools_port, 9222);
    assert_eq!(c.poll_ms, 250);
    assert_eq!(c.cache_dir, "/Users/you/Library/Caches/ncm-nowplaying/lyrics");
}

#[test]
fn settings() {
    let vars = Vars {
        host: Some("0.0.0.0".to_string()),
        port: Some("x".to_string()),
        devtools_port: Some("+65535".to_string()),
        poll_ms: Some("49".to_string()),
        cache_dir: Some("c".to_string()),
        home: None,
    };
    let c = Config::from_vars(&vars).unwrap();
    assert_eq!(c.bind, "0.0.0.0:x");
    assert_eq!(c.devtools_port, 65535);
    assert_eq!(c.poll_ms, 50);
    assert_eq!(c.cache_dir, "c");
    let c = Config::from_vars(&Vars { poll_ms: Some("51".to_string()), ..vars }).unwrap();
    assert_eq!(c.poll_ms, 51);
}

#[test]
fn bad_settings() {
    let bad = |port: &str, poll: &str| {
        let vars = Vars {
            devtools_port: Some(port.to_string()),
            poll_ms: Some(poll.to_string()),
            ..no_vars()
        };
        Config::from_vars(&vars).err().unwrap()
    };
    assert_eq!(bad("65536", "x"), ConfigError::DevtoolsPort);
    assert_eq!(bad(" 1", "1"), ConfigError::DevtoolsPort);
    assert_eq!(bad("1", "x"), ConfigError::PollMs);
    assert_eq!(bad("1", "1"), ConfigError::Home);
    assert_eq!(ConfigError::DevtoolsPort.message(), "NCM_DEVTOOLS_PORT is not a valid port");
    assert_eq!(ConfigError::PollMs.message(), "NCM_POLL_MS is not a valid number");
    assert_eq!(ConfigError::Home.message(), "cannot read HOME");
}

#[test]
fn messages() {
    let data = json(r#"{"b":[1,null],"a":"x"}"#);
    assert_eq!(
        json(&Message::Snapshot(data.clone()).into_text()),
        json(r#"{"type":"snapshot","data":{"a":"x","b":[1,null]}}"#)
    );
    assert_eq!(
        json(&Message::MusicChange(data).into_text()),
        json(r#"{"type":"musicchange","data":{"a":"x","b":[1,null]}}"#)
    );
    let tick = |line_index: Option<usize>| {
        Message::TimeChange { playing: true, current_sec: 547, position_ms: 547_000, line_index }
            .into_value()
    };
    assert_eq!(
        tick(Some(0)),
        json(r#"{"type":"timechange","playing":true,"currentSec":547,"positionMs":547000,"lineIndex":0}"#)
    );
    assert_eq!(
        tick(None),
        json(r#"{"type":"timechange","playing":true,"currentSec":547,"positionMs":547000,"lineIndex":null}"#)
    );
    assert_eq!(Message::Idle.into_text(), r#"{"type":"idle"}"#);
}

#[test]
fn events_go_out_as_messages() {
    let text = |event: Event| json(&message_of(event, json(r#"{"a":1}"#)).into_text());
    assert_eq!(text(Event::MusicChange), json(r#"{"type":"musicchange","data":{"a":1}}"#));
    let tick =
        Event::TimeChange { playing: false, current_sec: 3, position_ms: 3_004, line_index: Some(5) };
    assert_eq!(
        text(tick),
        json(r#"{"type":"timechange","playing":false,"currentSec":3,"positionMs":3004,"lineIndex":5}"#)
    );
    assert_eq!(text(Event::Idle), json(r#"{"type":"idle"}"#));
}

#[test]
fn session() {
    assert!(matches!(on_input(Input::Connected), Action::SendSnapshot));
    match on_input(Input::Event("e".to_string())) {
        Action::Send(s) => assert_eq!(s, "e"),
        other => panic!("{:?}", other),
    }
    assert!(matches!(on_input(Input::Lagged), Action::SendSnapshot));
    assert!(matches!(on_input(Input::EventsEnded), Action::Stop));
    assert!(matches!(on_input(Input::ClientGone), Action::Stop));
    assert!(matches!(on_input(Input::ClientSpoke), Action::Wait));
    assert!(matches!(on_input(Input::SendFailed), Action::Stop));
}
