use ext_protocol::handle::close_request;
use ext_protocol::handle::open_request;
use ext_protocol::handle::request_id;
use ext_protocol::origin::base_url;
use ext_protocol::origin::content_host;
use ext_protocol::origin::entry_url;
use ext_protocol::origin::Platform;
use ext_protocol::policy::content_answer;
use ext_protocol::policy::refusal_answer;
use ext_protocol::serve::begin;
use ext_protocol::serve::step;
use ext_protocol::serve::Event;
use ext_protocol::serve::PathPart;
use ext_protocol::serve::Serving;

const P: Platform = Platform::Other;

fn disk(path: &str) -> Option<Vec<PathPart>> {
    Some(
        path.split('/')
            .map(|p| PathPart { bytes: p.as_bytes().to_vec(), name: p.to_string() })
            .collect(),
    )
}

fn outcome(state: Serving) -> Result<(String, Vec<u8>), u16> {
    match state {
        Serving::Done(outcome) => outcome,
        _ => panic!("not done"),
    }
}

/// Serves `raw` with everything in order but what the arguments say.
fn serve(
    raw: &str,
    root: &str,
    full: &str,
    is_file: bool,
    sensitive: &[&str],
    content: Option<&[u8]>,
) -> Result<(String, Vec<u8>), u16> {
    let mut state = begin(P, raw, None);
    state = step(state, Event::Resolved(true));
    state = step(state, Event::Located { root: disk(root), full: disk(full) });
    state = step(state, Event::Probed(is_file));
    state = step(state, Event::Judged(sensitive.iter().map(|s| s.to_string()).collect()));
    state = step(state, Event::Loaded(content.map(|c| c.to_vec())));
    state = step(state, Event::Injected("<bridged/>".to_string()));
    outcome(state)
}

#[test]
fn a_public_file_is_sent_as_it_is() {
    assert_eq!(
        serve("com.x/a/b.js", "/ext/com.x", "/ext/com.x/a/b.js", true, &[], Some(b"1")),
        Ok(("text/javascript; charset=utf-8".to_string(), b"1".to_vec()))
    );
}

#[test]
fn a_page_is_sent_with_the_bridge() {
    assert_eq!(
        serve("com.x/i.html", "/ext/com.x", "/ext/com.x/i.html", true, &[], Some(b"<p>")),
        Ok(("text/html; charset=utf-8".to_string(), b"<bridged/>".to_vec()))
    );
    // A page that is not UTF-8 stays as it is.
    assert_eq!(
        serve("com.x/i.html", "/ext/com.x", "/ext/com.x/i.html", true, &[], Some(b"\xff")),
        Ok(("text/html; charset=utf-8".to_string(), b"\xff".to_vec()))
    );
    // The text of the page is handed out for it.
    let mut state = begin(P, "com.x/i.html", None);
    state = step(state, Event::Resolved(true));
    state = step(state, Event::Located { root: disk("/e"), full: disk("/e/i.html") });
    state = step(state, Event::Probed(true));
    state = step(state, Event::Judged(Vec::new()));
    state = step(state, Event::Loaded(Some("<p>页".as_bytes().to_vec())));
    match state {
        Serving::Inject { mime, page } => {
            assert_eq!(mime, "text/html; charset=utf-8");
            assert_eq!(page, "<p>页");
        }
        _ => panic!("no page to inject into"),
    }
}

#[test]
fn what_was_found_decides_the_type() {
    // A link named like a script that leads to a page.
    let got = serve("com.x/a.js", "/e", "/e/real.html", true, &[], Some(b"x")).unwrap();
    assert_eq!(got.0, "text/html; charset=utf-8");
}

#[test]
fn links_do_not_lead_out() {
    for full in ["/ext/com.y/a.js", "/ext", "/ext/com.xx/a.js", "/etc/passwd"] {
        assert_eq!(serve("com.x/a.js", "/ext/com.x", full, true, &[], Some(b"1")), Err(403));
    }
}

#[test]
fn hidden_files_are_refused() {
    let root = "/ext/com.x";
    // As asked for.
    assert_eq!(
        serve("com.x/.env", root, "/ext/com.x/ok.js", true, &[], Some(b"1")),
        Err(403)
    );
    // Where it really lies.
    assert_eq!(
        serve("com.x/ok.js", root, "/ext/com.x/Server/key.js", true, &[], Some(b"1")),
        Err(403)
    );
    // By a sensitive name.
    assert_eq!(
        serve("com.x/App.DB", root, "/ext/com.x/App.DB", true, &["app.db"], Some(b"1")),
        Err(403)
    );
    // The names above the directory do not count.
    assert!(serve("com.x/a.js", "/data/com.x", "/data/com.x/a.js", true, &[], Some(b"1")).is_ok());
}

#[test]
fn what_is_not_there_is_not_found() {
    let root = "/ext/com.x";
    assert_eq!(serve("com.x/a", root, "/ext/com.x/a", false, &[], Some(b"1")), Err(404));
    assert_eq!(serve("com.x/a", root, "/ext/com.x/a", true, &[], None), Err(404));
    for (r, f) in [(None, disk("/e/a")), (disk("/e"), None), (None, None)] {
        let state = step(begin(P, "com.x/a", None), Event::Resolved(true));
        assert_eq!(outcome(step(state, Event::Located { root: r, full: f })), Err(404));
    }
    assert_eq!(outcome(step(begin(P, "com.x/a", None), Event::Resolved(false))), Err(404));
    assert_eq!(outcome(begin(P, "com.x", None)), Err(404));
    assert_eq!(outcome(begin(P, "com.x/..", None)), Err(400));
}

#[test]
fn a_lost_id_is_found_by_the_referer() {
    let referer = format!("{}com.x/tool.html", base_url(P));
    let state = step(begin(P, "assets/a.js", Some(&referer)), Event::Resolved(false));
    match &state {
        Serving::Resolve { id, parts, fallback } => {
            assert_eq!(id, "com.x");
            assert_eq!(parts, &vec!["assets", "a.js"]);
            assert!(fallback.is_none());
        }
        _ => panic!("nothing to resolve"),
    }
    assert_eq!(outcome(step(state, Event::Resolved(false))), Err(404));
    // The file of the extension that the referer names is sent.
    let mut state = begin(P, "assets/a.js", Some(&referer));
    state = step(state, Event::Resolved(false));
    state = step(state, Event::Resolved(true));
    state = step(
        state,
        Event::Located { root: disk("/e/com.x"), full: disk("/e/com.x/assets/a.js") },
    );
    state = step(state, Event::Probed(true));
    state = step(state, Event::Judged(Vec::new()));
    state = step(state, Event::Loaded(Some(vec![1])));
    assert_eq!(outcome(state), Ok(("text/javascript; charset=utf-8".to_string(), vec![1])));
    // A referer of another site is of no use.
    let elsewhere = format!("https://evil.example/?u={referer}");
    let state = step(begin(P, "assets/a.js", Some(&elsewhere)), Event::Resolved(false));
    assert_eq!(outcome(state), Err(404));
    // An extension that is there is not replaced.
    match step(begin(P, "assets/a.js", Some(&referer)), Event::Resolved(true)) {
        Serving::Locate { parts } => assert_eq!(parts, vec!["a.js"]),
        _ => panic!("nothing to locate"),
    }
}

#[test]
fn a_reply_to_another_question_changes_nothing() {
    let state = step(begin(P, "com.x/a", None), Event::Probed(true));
    assert!(matches!(state, Serving::Resolve { .. }));
    let done = step(Serving::Done(Err(404)), Event::Resolved(true));
    assert_eq!(outcome(done), Err(404));
}

#[test]
fn a_request_is_opened_for_the_extension_of_its_host() {
    for platform in [Platform::Windows, Platform::Android, Platform::Other] {
        let host = content_host("com.x");
        match open_request(platform, &host, "//com.x/a%20b.js", None) {
            Serving::Resolve { id, parts, fallback } => {
                assert_eq!(id, "com.x");
                assert_eq!(parts, vec!["a b.js"]);
                assert!(fallback.is_none());
            }
            _ => panic!("nothing to resolve"),
        }
        assert_eq!(request_id(platform, &host, "//com.x/a%20b.js", None), "com.x");
        assert_eq!(outcome(open_request(platform, &host, "/com.y/a.js", None)), Err(403));
        assert_eq!(outcome(open_request(platform, "localhost", "/com.x/a.js", None)), Err(403));
        let referer = entry_url(platform, "com.x", "index.html");
        match open_request(platform, &host, "/assets/a.js", Some(&referer)) {
            Serving::Resolve { id, parts, .. } => {
                assert_eq!(id, "com.x");
                assert_eq!(parts, vec!["assets", "a.js"]);
            }
            _ => panic!("nothing to resolve"),
        }
        assert_eq!(request_id(platform, &host, "/assets/a.js", Some(&referer)), "com.x");
        assert_eq!(request_id(platform, &host, "/assets/a.js", None), "");
    }
}

#[test]
fn answers_carry_their_headers() {
    let sent = content_answer("image/png", "default-src 'none'", vec![1, 2]);
    assert_eq!(sent.status, 200);
    assert_eq!(sent.body, vec![1, 2]);
    let headers: Vec<(&str, &str)> =
        sent.headers.iter().map(|(n, v)| (n.as_str(), v.as_str())).collect();
    assert_eq!(
        headers,
        vec![
            ("Content-Type", "image/png"),
            ("Cache-Control", "no-store"),
            ("Content-Security-Policy", "default-src 'none'"),
            ("X-Content-Type-Options", "nosniff"),
            ("Referrer-Policy", "same-origin"),
            ("Origin-Agent-Cluster", "?1"),
            (
                "Permissions-Policy",
                "camera=(), microphone=(), geolocation=(), document-domain=()"
            ),
        ]
    );
    let refused = refusal_answer(403);
    assert_eq!(refused.status, 403);
    assert!(refused.body.is_empty());
    assert_eq!(refused.headers, vec![("Cache-Control".to_string(), "no-store".to_string())]);
    assert_eq!(close_request(Err(404), "unused").status, 404);
    let closed = close_request(Ok(("text/css".to_string(), vec![3])), "csp");
    assert_eq!((closed.status, closed.body), (200, vec![3]));
    assert_eq!(closed.headers[2].1, "csp");
}
