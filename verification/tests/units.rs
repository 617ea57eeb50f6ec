use ext_protocol::content::is_html;
use ext_protocol::content::judged_names;
use ext_protocol::content::mime_for;
use ext_protocol::content::public_content_path;
use ext_protocol::dirs::resolve_ext_dir;
use ext_protocol::dirs::DevExtensionDirs;
use ext_protocol::origin::base_url;
use ext_protocol::origin::content_host;
use ext_protocol::origin::encode_rel_path;
use ext_protocol::origin::entry_url;
use ext_protocol::origin::host_of_digest;
use ext_protocol::origin::is_valid_ext_id;
use ext_protocol::origin::origin;
use ext_protocol::origin::Platform;
use ext_protocol::path::is_unsafe_segment;
use ext_protocol::path::parse_rel_path;
use ext_protocol::path::parse_request_path;
use ext_protocol::percent::decode_segment;
use ext_protocol::percent::encode_segment;
use ext_protocol::policy::asks_for_network;
use ext_protocol::policy::build_content_csp;
use ext_protocol::policy::content_csp;
use ext_protocol::referer::claim_of;
use ext_protocol::referer::decide_path;
use ext_protocol::referer::fallback_from_referer;
use ext_protocol::referer::request_path_for_host;
use ext_protocol::referer::resolved_id;
use ext_protocol::referer::Claim;
use ext_protocol::text::join_text;
use ext_protocol::text::lower_text;
use ext_protocol::text::split_text;
use ext_protocol::text::starts_with_text;
use ext_protocol::text::trim_start_text;
use std::path::PathBuf;

fn strings(parts: &[&str]) -> Vec<String> {
    parts.iter().map(|p| p.to_string()).collect()
}

#[test]
fn texts_are_split_and_joined() {
    assert_eq!(split_text("", '/'), vec![""]);
    assert_eq!(split_text("a//b/", '/'), vec!["a", "", "b", ""]);
    assert_eq!(join_text(&strings(&["a", "", "b", ""]), '/'), "a//b/");
    assert_eq!(join_text(&strings(&[]), '/'), "");
    assert_eq!(trim_start_text("//a/", '/'), "a/");
    assert!(starts_with_text("页面", "页"));
    assert!(starts_with_text("abc", ""));
    assert!(!starts_with_text("abc", "abcd"));
    assert!(!starts_with_text("xabc", "abc"));
    assert_eq!(lower_text("ÄBc-Z"), "Äbc-z");
}

#[test]
fn segments_are_escaped_byte_by_byte() {
    assert_eq!(encode_segment("a b"), "a%20b");
    assert_eq!(encode_segment("页"), "%E9%A1%B5");
    assert_eq!(encode_segment("\"#%<>?`{}/\\^|"), "%22%23%25%3C%3E%3F%60%7B%7D%2F%5C%5E%7C");
    assert_eq!(encode_segment("\u{0}\u{1f}\u{7f}"), "%00%1F%7F");
    assert_eq!(encode_segment("az-AZ_09.~"), "az-AZ_09.~");
    assert_eq!(encode_segment("a+b"), "a%2Bb");
    assert_eq!(
        encode_segment("!$&'()*+,;=:@[]"),
        "%21%24%26%27%28%29%2A%2B%2C%3B%3D%3A%40%5B%5D"
    );
    assert_eq!(encode_segment(""), "");
}

#[test]
fn segments_are_decoded_where_two_digits_follow() {
    assert_eq!(decode_segment("%41%7a%7A").unwrap(), "Azz");
    assert_eq!(decode_segment("%").unwrap(), "%");
    assert_eq!(decode_segment("%4").unwrap(), "%4");
    assert_eq!(decode_segment("%%41%zz").unwrap(), "%A%zz");
    assert_eq!(decode_segment("%E9%A1%B5").unwrap(), "页");
    assert!(decode_segment("%E9%A1").is_none());
    assert!(decode_segment("%ff").is_none());
}

#[test]
fn every_character_survives_encoding() {
    for c in (0u32..0x3000).chain(0xfff0..0x10010).filter_map(char::from_u32) {
        let text = format!("x{c}y");
        let written = encode_segment(&text);
        assert!(written.chars().all(|w| w.is_ascii_alphanumeric() || "-_.~%".contains(w)));
        assert!(text.chars().count() <= written.len() && written.len() <= 2 + 12);
        assert_eq!(decode_segment(&written).unwrap(), text);
    }
}

#[test]
fn ids_have_limits() {
    assert!(is_valid_ext_id(&"a".repeat(128)));
    assert!(!is_valid_ext_id(&"a".repeat(129)));
    assert!(is_valid_ext_id("a."));
    assert!(!is_valid_ext_id("a b"));
    assert!(!is_valid_ext_id("a%20"));
}

#[test]
fn hosts_are_made_of_the_digest() {
    assert_eq!(content_host("com.x-hub.a"), "e-c677fb9bbc4ad53742c751c1a0898a1c.localhost");
    assert_eq!(content_host("com.x-hub.ctool"), "e-2da8fe414f90cb61e6bd16316fced052.localhost");
    let digest: Vec<u8> = (0u8..32).map(|b| b * 8).collect();
    assert_eq!(host_of_digest(&digest), "e-00081018202830384048505860687078.localhost");
}

#[test]
fn origins_differ_by_platform() {
    let host = "e-c677fb9bbc4ad53742c751c1a0898a1c.localhost";
    let id = "com.x-hub.a";
    assert_eq!(origin(Platform::Windows, id), format!("http://xhub-ext.{host}"));
    assert_eq!(origin(Platform::Android, id), format!("http://xhub-ext.{host}"));
    assert_eq!(origin(Platform::Other, id), format!("xhub-ext://{host}"));
    assert_eq!(base_url(Platform::Windows), "http://xhub-ext.localhost/");
    assert_eq!(base_url(Platform::Android), "xhub-ext://localhost/");
    assert_eq!(base_url(Platform::Other), "xhub-ext://localhost/");
    assert_eq!(
        entry_url(Platform::Other, id, ".\\view\\a b.html"),
        format!("xhub-ext://{host}/com.x-hub.a/view/a%20b.html")
    );
    assert_eq!(encode_rel_path("././/a/./b//"), "a/b");
    assert_eq!(encode_rel_path(""), "");
}

#[test]
fn lengths_are_known_beforehand() {
    for id in ["a", "com.x-hub.a", "页"] {
        assert_eq!(content_host(id).len(), 44);
        assert_eq!(origin(Platform::Windows, id).len(), 60);
        assert_eq!(origin(Platform::Android, id).len(), 60);
        assert_eq!(origin(Platform::Other, id).len(), 55);
    }
    // Four bytes in UTF-8, three characters for each of them.
    assert_eq!(encode_segment("😀").len(), 12);
    assert_eq!(entry_url(Platform::Other, "ab", "😀/c").len(), 55 + 2 + 2 + 14);
    assert_eq!(entry_url(Platform::Other, "ab", "").len(), 55 + 2 + 2);
}

#[test]
fn unsafe_parts_are_recognised() {
    for part in ["..", "a\\b", "a/b", "C:", "\u{0}", "a\u{9f}", "\u{7f}"] {
        assert!(is_unsafe_segment(part), "{part:?}");
    }
    for part in ["...", ".a", "a..b", "", "页 面", "\u{a0}"] {
        assert!(!is_unsafe_segment(part), "{part:?}");
    }
}

#[test]
fn relative_paths_are_read() {
    assert_eq!(parse_rel_path("a/./%2e/b%20c").unwrap(), vec!["a", "b c"]);
    assert_eq!(parse_rel_path("//").unwrap_err(), 404);
    assert_eq!(parse_rel_path("a/%2e%2e").unwrap_err(), 400);
    assert_eq!(parse_rel_path("%ff").unwrap_err(), 400);
    assert_eq!(parse_request_path("%ff/a").unwrap_err(), 400);
    assert_eq!(parse_request_path("/a").unwrap_err(), 404);
}

#[test]
fn entry_urls_lead_back_to_their_file() {
    let id = "com.x-hub.a";
    for rel in ["./module/index.html", "a b/页.html", "x#y?z%41/[1].js"] {
        let url = entry_url(Platform::Other, id, rel);
        let prefix = format!("{}/", origin(Platform::Other, id));
        let path = url.strip_prefix(&prefix).unwrap();
        let (got, parts) = parse_request_path(path).unwrap();
        assert_eq!(got, id);
        assert_eq!(parts.join("/"), rel.trim_start_matches("./"));
        assert_eq!(
            request_path_for_host(Platform::Other, &content_host(id), path, None).unwrap(),
            path
        );
    }
}

#[test]
fn referers_attribute_only_to_their_own_origin() {
    let (a, b) = ("com.x-hub.a", "com.x-hub.b");
    for platform in [Platform::Windows, Platform::Android, Platform::Other] {
        let referer = entry_url(platform, a, "页/index.html");
        let host = content_host(a);
        // To the host of another extension, or to none.
        assert_eq!(
            request_path_for_host(platform, &content_host(b), "x.js", Some(&referer)).unwrap_err(),
            403
        );
        // From another origin that names the extension in its path.
        let elsewhere = format!("https://evil.example/{a}/index.html");
        assert_eq!(
            request_path_for_host(platform, &host, "x.js", Some(&elsewhere)).unwrap_err(),
            403
        );
        // A referer that is no URI.
        assert_eq!(
            request_path_for_host(platform, &host, "x.js", Some("no uri at all")).unwrap_err(),
            403
        );
        // A refused path keeps its status.
        assert_eq!(
            request_path_for_host(platform, &host, "a%5Cb", Some(&referer)).unwrap_err(),
            400
        );
        assert_eq!(request_path_for_host(platform, &host, "/", Some(&referer)).unwrap_err(), 404);
        // A query and a fragment do not matter.
        for tail in ["?", "?v=1", "?to=https://evil.example/{x}`|\\^~", "#top", "?v=1#top"] {
            let page = format!("{referer}{tail}");
            assert_eq!(
                request_path_for_host(platform, &host, "x.js", Some(&page)).unwrap(),
                format!("{a}/x.js"),
                "{tail}"
            );
        }
        // The page may be written in any way that a URI can be.
        let page = format!("{}/{a}/./x+y/!$&'()*,;=:@[]|^~", origin(platform, a));
        assert_eq!(
            request_path_for_host(platform, &host, "x.js", Some(&page)).unwrap_err(),
            403
        );
        let page = format!("{}/{a}/./x+y/!$&'()*,;=@[]|^~", origin(platform, a));
        assert_eq!(
            request_path_for_host(platform, &host, "x.js", Some(&page)).unwrap(),
            format!("{a}/x.js")
        );
        assert_eq!(resolved_id(platform, &host, "x.js", Some(&referer)), a);
        assert_eq!(resolved_id(platform, &host, "x.js", None), "");
        assert_eq!(resolved_id(platform, &host, &format!("{a}/x.js"), None), a);
    }
}

#[test]
fn paths_are_decided_on_host_and_claim() {
    let claim = |same_origin: bool| {
        Some(Claim { id: "x".to_string(), host: "h".to_string(), same_origin })
    };
    assert_eq!(decide_path("h", "y/z", Some("h"), None).unwrap(), "y/z");
    assert_eq!(decide_path("h", "y/z", Some("other"), claim(true)).unwrap(), "x/y/z");
    assert_eq!(decide_path("h", "y/z", None, claim(false)).unwrap_err(), 403);
    assert_eq!(decide_path("g", "y/z", None, claim(true)).unwrap_err(), 403);
    assert_eq!(decide_path("h", "..", None, claim(true)).unwrap_err(), 400);
    assert_eq!(decide_path("h", "", None, claim(true)).unwrap_err(), 404);
    let referer = "xhub-ext://e-c677fb9bbc4ad53742c751c1a0898a1c.localhost/com.x-hub.a/i.html";
    let read = claim_of(Platform::Other, referer, Some("/com.x-hub.a/i.html")).unwrap();
    assert_eq!(read.id, "com.x-hub.a");
    assert!(read.same_origin);
    assert!(!claim_of(Platform::Windows, referer, Some("/com.x-hub.a/i.html")).unwrap().same_origin);
    assert!(claim_of(Platform::Other, referer, Some("/")).is_none());
    assert!(claim_of(Platform::Other, referer, None).is_none());
}

#[test]
fn the_base_url_attributes_what_stands_behind_it() {
    for rest in ["", "/", "/a.html", "?v", "#f"] {
        let referer = format!("{}com.x{rest}", base_url(Platform::Other));
        let (id, parts) = fallback_from_referer(Platform::Other, "a/b", &referer).unwrap();
        assert_eq!((id.as_str(), parts), ("com.x", strings(&["a", "b"])));
    }
    // More slashes do not matter.
    let slashes = format!("{}//com.x/a", base_url(Platform::Other));
    assert_eq!(fallback_from_referer(Platform::Other, "a", &slashes).unwrap().0, "com.x");
}

#[test]
fn the_base_url_counts_only_in_front() {
    for platform in [Platform::Windows, Platform::Android, Platform::Other] {
        let base = base_url(platform);
        for referer in [
            format!("https://evil.example/?u={base}com.x-hub.ctool/tool.html"),
            format!("https://evil.example/{base}com.x-hub.ctool/tool.html"),
            format!(" {base}com.x-hub.ctool/tool.html"),
            format!("{}x/com.x-hub.ctool/tool.html", base.trim_end_matches('/')),
            format!("{}com.x-hub.ctool/tool.html", base.trim_end_matches('/')),
            base.trim_end_matches('/').to_string(),
            base.to_string(),
            String::new(),
        ] {
            assert!(
                fallback_from_referer(platform, "assets/a.js", &referer).is_none(),
                "{referer}"
            );
        }
    }
    let other = format!("{}com.x/a", base_url(Platform::Other));
    assert!(fallback_from_referer(Platform::Windows, "a", &other).is_none());
}

#[test]
fn media_types_go_by_extension() {
    for (path, mime) in [
        ("a.html", "text/html; charset=utf-8"),
        ("a.HTM", "text/html; charset=utf-8"),
        ("a.js", "text/javascript; charset=utf-8"),
        ("a.mjs", "text/javascript; charset=utf-8"),
        ("a.cjs", "text/javascript; charset=utf-8"),
        ("a.css", "text/css; charset=utf-8"),
        ("a.json", "application/json; charset=utf-8"),
        ("a.js.map", "application/json; charset=utf-8"),
        ("a.svg", "image/svg+xml"),
        ("a.PNG", "image/png"),
        ("a.jpg", "image/jpeg"),
        ("a.jpeg", "image/jpeg"),
        ("a.gif", "image/gif"),
        ("a.webp", "image/webp"),
        ("a.ico", "image/x-icon"),
        ("a.woff", "font/woff"),
        ("a.woff2", "font/woff2"),
        ("a.ttf", "font/ttf"),
        ("a.otf", "font/otf"),
        ("a.wasm", "application/wasm"),
        ("a.txt", "text/plain; charset=utf-8"),
        ("README.md", "text/plain; charset=utf-8"),
        ("a.bin", "application/octet-stream"),
        ("noext", "application/octet-stream"),
        ("x.html/noext", "application/octet-stream"),
        (".html", "application/octet-stream"),
        ("a.html/..", "application/octet-stream"),
        ("a.html/", "text/html; charset=utf-8"),
        ("a.html/.", "text/html; charset=utf-8"),
        ("a.", "application/octet-stream"),
        ("", "application/octet-stream"),
    ] {
        assert_eq!(mime_for(path), mime, "{path}");
        assert_eq!(is_html(path), mime == "text/html; charset=utf-8", "{path}");
    }
}

#[test]
fn media_types_agree_with_the_paths_of_the_system() {
    for path in ["a.html", ".html", "a/.b.html", "a.html/b", "a.html/./", "..", "a/..", "x.y.JS"] {
        let ext = std::path::Path::new(path).extension().and_then(|e| e.to_str()).unwrap_or("");
        assert_eq!(mime_for(path), mime_for(&format!("x.{ext}")), "{path}");
    }
}

#[test]
fn private_names_hide_a_path() {
    let none: Vec<String> = Vec::new();
    for name in ["backend", "SERVER", "node_modules", "Data", "logs", ".git"] {
        assert!(!public_content_path(&strings(&["a", name, "b.js"]), &none), "{name}");
    }
    assert!(public_content_path(&strings(&["database", "a.b"]), &none));
    assert!(public_content_path(&none, &none));
    let parts = strings(&["a", "Key.PEM"]);
    assert_eq!(judged_names(&parts), vec!["a", "key.pem"]);
    assert!(!public_content_path(&parts, &strings(&["key.pem"])));
    assert!(public_content_path(&parts, &strings(&["Key.PEM"])));
}

#[test]
fn policies_are_written_out() {
    assert_eq!(
        build_content_csp(false, ""),
        "default-src 'none'; script-src 'self' 'unsafe-inline' 'wasm-unsafe-eval'; style-src 'self' 'unsafe-inline'; img-src 'self' data: blob:; font-src 'self' data:; connect-src 'self'; media-src 'self' blob:; frame-src 'none'; object-src 'none'; base-uri 'self'; form-action 'none'; worker-src 'self' blob:"
    );
    assert_eq!(
        build_content_csp(true, " P"),
        "default-src 'none'; script-src 'self' 'unsafe-inline' 'wasm-unsafe-eval'; style-src 'self' 'unsafe-inline'; img-src 'self' data: blob: https: wss:; font-src 'self' data:; connect-src 'self' P https: wss:; media-src 'self' blob: https: wss:; frame-src 'none'; object-src 'none'; base-uri 'self'; form-action 'none'; worker-src 'self' blob:"
    );
}

#[test]
fn network_needs_the_manifest_and_the_grant() {
    let asks = strings(&["storage", "network"]);
    let other = strings(&["networks"]);
    assert!(asks_for_network(&asks));
    assert!(!asks_for_network(&other));
    let proxy = " http://127.0.0.1:60123 ws://127.0.0.1:60123";
    let open = build_content_csp(true, proxy);
    let closed = build_content_csp(false, proxy);
    assert_eq!(content_csp(Some(&asks), true, Some(60123)), open);
    assert_eq!(content_csp(Some(&asks), false, Some(60123)), closed);
    assert_eq!(content_csp(Some(&other), true, Some(60123)), closed);
    assert_eq!(content_csp(None, true, Some(60123)), closed);
    assert_eq!(content_csp(None, false, None), build_content_csp(false, ""));
    assert!(content_csp(None, false, Some(0)).contains(" ws://127.0.0.1:0;"));
    assert!(!closed.contains("https:") && !closed.contains("wss:"));
}

#[test]
fn registered_directories_are_kept_by_id() {
    let mut dirs = DevExtensionDirs::default();
    assert_eq!(dirs.get("a"), None);
    dirs.insert("a".to_string(), PathBuf::from("/1"));
    dirs.insert("b".to_string(), PathBuf::from("/2"));
    dirs.insert("a".to_string(), PathBuf::from("/3"));
    assert_eq!(dirs.get("a"), Some(PathBuf::from("/3")));
    assert_eq!(dirs.get("b"), Some(PathBuf::from("/2")));
    let mut all = dirs.snapshot();
    all.sort();
    assert_eq!(
        all,
        vec![
            ("a".to_string(), PathBuf::from("/3")),
            ("b".to_string(), PathBuf::from("/2"))
        ]
    );
    dirs.remove("a");
    dirs.remove("c");
    assert_eq!(dirs.get("a"), None);
    assert_eq!(dirs.get("b"), Some(PathBuf::from("/2")));
    dirs.clear();
    assert!(dirs.snapshot().is_empty());
    assert!(DevExtensionDirs::new().snapshot().is_empty());
}

#[test]
fn registered_directories_come_first() {
    let (dev, installed) = (PathBuf::from("/dev"), PathBuf::from("/installed"));
    assert_eq!(
        resolve_ext_dir("a", Some(dev.clone()), Ok(Some(installed.clone()))),
        Ok(dev.clone())
    );
    assert_eq!(resolve_ext_dir("a", Some(dev.clone()), Err("x".to_string())), Ok(dev));
    assert_eq!(resolve_ext_dir("a", None, Ok(Some(installed.clone()))), Ok(installed));
    assert_eq!(
        resolve_ext_dir("a", None, Ok(None)),
        Err("NOT_FOUND: 扩展 a 不存在".to_string())
    );
    assert_eq!(resolve_ext_dir("a", None, Err("x".to_string())), Err("x".to_string()));
}
