use ext_protocol::content::is_html;
use ext_protocol::content::judged_names;
use ext_protocol::content::mime_for;
use ext_protocol::content::public_content_path;
use ext_protocol::origin::base_url;
use ext_protocol::origin::content_host;
use ext_protocol::origin::entry_url;
use ext_protocol::origin::is_valid_ext_id;
use ext_protocol::origin::origin;
use ext_protocol::origin::Platform;
use ext_protocol::path::parse_request_path;
use ext_protocol::percent::decode_segment;
use ext_protocol::percent::encode_segment;
use ext_protocol::policy::build_content_csp;
use ext_protocol::referer::fallback_from_referer;
use ext_protocol::referer::request_path_for_host;

const PLATFORMS: [Platform; 3] = [Platform::Windows, Platform::Android, Platform::Other];

/// A packaging rule: databases and credentials do not belong into a package.
fn sensitive(names: Vec<String>) -> Vec<String> {
    names
        .into_iter()
        .filter(|n| n.ends_with(".db") || n.starts_with("credentials"))
        .collect()
}

fn is_public(parts: &[String]) -> bool {
    public_content_path(parts, &sensitive(judged_names(parts)))
}

#[test]
fn security_network_permission_controls_content_policy() {
    let blocked = build_content_csp(false, " http://127.0.0.1:12345");
    assert!(!blocked.contains("https:"));
    assert!(blocked.contains("http://127.0.0.1:12345"));
    assert!(blocked.contains("frame-src 'none'"));
    assert!(blocked.contains("form-action 'none'"));
    assert!(build_content_csp(true, "").contains("https: wss:"));
}

#[test]
fn ext_id_shape_is_validated() {
    assert!(is_valid_ext_id("com.x-hub.ctool"));
    assert!(is_valid_ext_id("my_ext-1"));
    assert!(!is_valid_ext_id(""));
    assert!(!is_valid_ext_id(".hidden"));
    assert!(!is_valid_ext_id("a..b"));
    assert!(!is_valid_ext_id("a/b"));
    assert!(!is_valid_ext_id("扩展"));
}

#[test]
fn entry_url_encodes_each_segment() {
    for platform in PLATFORMS {
        assert_eq!(
            entry_url(platform, "com.x-hub.ctool", "./module/index.html"),
            format!(
                "{}/com.x-hub.ctool/module/index.html",
                origin(platform, "com.x-hub.ctool")
            )
        );
        // Spaces and Chinese characters are encoded within their segment, slashes stay.
        let url = entry_url(platform, "com.x-hub.x", "./my dir/页 面.html");
        assert!(
            url.ends_with("/my%20dir/%E9%A1%B5%20%E9%9D%A2.html"),
            "{url}"
        );
    }
}

#[test]
fn segment_encoding_roundtrips() {
    for seg in ["a b", "中文", "#x", "%y", "a+b"] {
        let enc = encode_segment(seg);
        assert_eq!(decode_segment(&enc).unwrap(), seg);
    }
}

#[test]
fn falls_back_to_referer_for_legacy_asset_paths() {
    for platform in PLATFORMS {
        // `../assets/x.js` becomes `/assets/x.js` in the browser, without the extension id.
        let referer = format!("{}com.x-hub.ctool/tool.html", base_url(platform));
        let got =
            fallback_from_referer(platform, "assets/tool-abc.js", &referer).expect("应能回退");
        assert_eq!(got.0, "com.x-hub.ctool");
        assert_eq!(got.1, vec!["assets", "tool-abc.js"]);

        // The same for a path that goes up to the root.
        assert_eq!(
            fallback_from_referer(platform, "favicon.ico", &referer).unwrap().0,
            "com.x-hub.ctool"
        );

        // A query in the referer does not matter.
        let with_query = format!("{}com.x-hub.ctool/tool.html?v=1", base_url(platform));
        assert_eq!(
            fallback_from_referer(platform, "assets/a.css", &with_query).unwrap().0,
            "com.x-hub.ctool"
        );

        // A referer from elsewhere attributes nothing.
        assert!(fallback_from_referer(platform, "assets/a.js", "https://evil.example/x").is_none());
        assert!(
            fallback_from_referer(platform, "assets/a.js", "http://asset.localhost/x").is_none()
        );
        // Nor does one whose first segment is not an id.
        assert!(fallback_from_referer(
            platform,
            "assets/a.js",
            &format!("{}.hidden/x.html", base_url(platform))
        )
        .is_none());
        assert!(fallback_from_referer(
            platform,
            "assets/a.js",
            &format!("{}a..b/x.html", base_url(platform))
        )
        .is_none());

        // Unsafe paths are refused here as well.
        assert!(fallback_from_referer(platform, "%2e%2e/secret", &referer).is_none());
        assert!(fallback_from_referer(platform, "a%5Cb.js", &referer).is_none());
    }
}

#[test]
fn detects_html_for_bridge_injection() {
    // The extension of the file decides, not the media type.
    for name in ["index.html", "view.HTML", "a/b/module.htm"] {
        assert!(is_html(name), "{name} 应判为 HTML");
    }
    for name in ["app.js", "style.css", "data.json", "icon.svg", "noext"] {
        assert!(!is_html(name), "{name} 不应判为 HTML");
    }
    assert_ne!(mime_for("index.html"), "text/html");
}

#[test]
fn parses_valid_request_paths() {
    let (id, parts) = parse_request_path("com.x-hub.ctool/module/index.html").unwrap();
    assert_eq!(id, "com.x-hub.ctool");
    assert_eq!(parts, vec!["module", "index.html"]);

    // Repeated slashes and `./` are passed over.
    let (id2, parts2) = parse_request_path("com.x-hub.ctool//.//view/index.html").unwrap();
    assert_eq!(id2, "com.x-hub.ctool");
    assert_eq!(parts2, vec!["view", "index.html"]);

    // Segments are decoded.
    let (_, parts3) =
        parse_request_path("com.x-hub.ctool/%E4%B8%AD%E6%96%87/a%20b.html").unwrap();
    assert_eq!(parts3, vec!["中文", "a b.html"]);
}

#[test]
fn rejects_unsafe_request_paths() {
    // No path, or a directory only: directories are not listed.
    assert_eq!(parse_request_path("").unwrap_err(), 404);
    assert_eq!(parse_request_path("com.x-hub.ctool").unwrap_err(), 404);
    assert_eq!(parse_request_path("com.x-hub.ctool/").unwrap_err(), 404);
    assert_eq!(parse_request_path("com.x-hub.ctool/./").unwrap_err(), 404);

    // Not an id.
    assert_eq!(parse_request_path(".hidden/index.html").unwrap_err(), 400);
    assert_eq!(parse_request_path("a..b/index.html").unwrap_err(), 400);
    assert_eq!(parse_request_path("%E6%89%A9%E5%B1%95/index.html").unwrap_err(), 400);

    // Ways out of the directory, and what cannot stand in a name.
    assert_eq!(parse_request_path("com.x-hub.x/../secret.txt").unwrap_err(), 400);
    assert_eq!(parse_request_path("com.x-hub.x/%2e%2e/secret.txt").unwrap_err(), 400);
    assert_eq!(parse_request_path("com.x-hub.x/a%5Cb.js").unwrap_err(), 400);
    assert_eq!(parse_request_path("com.x-hub.x/C:/Windows/win.ini").unwrap_err(), 400);
    assert_eq!(parse_request_path("com.x-hub.x/a%00b.js").unwrap_err(), 400);
    assert_eq!(parse_request_path("com.x-hub.x/a%0Ab.js").unwrap_err(), 400);
}

#[test]
fn security_content_origins_and_private_files_are_isolated() {
    let a = "com.x-hub.a";
    let b = "com.x-hub.b";
    for platform in PLATFORMS {
        assert_ne!(origin(platform, a), origin(platform, b));
        assert!(
            request_path_for_host(platform, &content_host(a), &format!("{a}/index.html"), None)
                .is_ok()
        );
        assert!(
            request_path_for_host(platform, &content_host(a), &format!("{b}/index.html"), None)
                .is_err()
        );
        assert!(
            request_path_for_host(platform, "localhost", &format!("{a}/index.html"), None).is_err()
        );
        let referer = entry_url(platform, a, "index.html");
        assert_eq!(
            request_path_for_host(platform, &content_host(a), "assets/app.js", Some(&referer))
                .unwrap(),
            format!("{a}/assets/app.js")
        );
    }
    for p in [
        ".config.json",
        ".storage.json",
        ".env",
        "app.db",
        "credentials.json",
        "server/key.js",
        "data/cache.json",
    ] {
        assert!(!is_public(&p.split('/').map(String::from).collect::<Vec<_>>()), "{p}");
    }
    assert!(is_public(&vec!["assets".into(), "app.js".into()]));
    assert!(parse_request_path(&format!("{a}/a%2F..%2Fsecret")).is_err());
}
