//! The answers of the protocol: the content security policy, the headers, and refusals.

use vstd::prelude::*;

use crate::text::contains;
use crate::text::is_free_of;
use crate::text::occurs_at;
use crate::text::texts;

verus! {

/// What stands between two directives.
pub open spec fn directive_separator() -> Seq<char> {
    seq![';', ' ']
}

/// Directives written one behind the other.
pub open spec fn join_directives(directives: Seq<Seq<char>>) -> Seq<char>
    decreases directives.len(),
{
    if directives.len() == 0 {
        seq![]
    } else if directives.len() == 1 {
        directives[0]
    } else {
        directives[0] + directive_separator() + join_directives(directives.drop_first())
    }
}

/// The sources on the network that an extension may use.
pub open spec fn remote_sources(network: bool) -> Seq<char> {
    if network {
        " https: wss:"@
    } else {
        seq![]
    }
}

/// The directives of the policy: everything is closed but the extension's own origin, what it makes
/// itself, and, where it may use the network, secure remote sources. `proxy` is where the host
/// application listens for the extension.
pub open spec fn policy_directives(network: bool, proxy: Seq<char>) -> Seq<Seq<char>> {
    let remote = remote_sources(network);
    seq![
        "default-src 'none'"@,
        "script-src 'self' 'unsafe-inline' 'wasm-unsafe-eval'"@,
        "style-src 'self' 'unsafe-inline'"@,
        "img-src 'self' data: blob:"@ + remote,
        "font-src 'self' data:"@,
        "connect-src 'self'"@ + proxy + remote,
        "media-src 'self' blob:"@ + remote,
        "frame-src 'none'"@,
        "object-src 'none'"@,
        "base-uri 'self'"@,
        "form-action 'none'"@,
        "worker-src 'self' blob:"@,
    ]
}

/// The content security policy.
pub open spec fn policy_text(network: bool, proxy: Seq<char>) -> Seq<char> {
    join_directives(policy_directives(network, proxy))
}

/// What `join_directives` adds behind the first `i` directives.
spec fn directives_rest(directives: Seq<Seq<char>>, i: int) -> Seq<char> {
    if i == 0 {
        join_directives(directives)
    } else if i >= directives.len() {
        seq![]
    } else {
        directive_separator() + join_directives(directives.skip(i))
    }
}

/// Writes directives one behind the other.
fn join_directives_text(directives: &Vec<String>) -> (s: String)
    ensures
        s@ == join_directives(texts(directives@)),
{
    let mut s = String::new();
    let mut i: usize = 0;
    let ghost all = texts(directives@);
    assert(all.skip(0) =~= all);
    while i < directives.len()
        invariant
            i <= directives@.len(),
            all == texts(directives@),
            s@ + directives_rest(all, i as int) == join_directives(all),
        decreases directives@.len() - i,
    {
        let ghost before = s@;
        if i > 0 {
            s.push(';');
            s.push(' ');
        }
        s.append(directives[i].as_str());
        proof {
            let rest = all.skip(i as int);
            assert(rest[0] == directives@[i as int]@);
            assert(rest.drop_first() =~= all.skip(i + 1));
            assert(s@ + directives_rest(all, i + 1) =~= before + directives_rest(all, i as int));
        }
        i = i + 1;
    }
    assert(s@ + directives_rest(all, i as int) =~= s@);
    s
}

/// The text made of two others.
fn concat_text(a: &str, b: &str) -> (s: String)
    ensures
        s@ == a@ + b@,
{
    let mut s = String::new();
    s.append(a);
    s.append(b);
    assert(s@ =~= a@ + b@);
    s
}

/// The content security policy for an extension: `network` says whether it may use remote sources,
/// and `proxy` lists the sources under which the host application listens for it.
pub fn build_content_csp(network: bool, proxy: &str) -> (csp: String)
    ensures
        csp@ == policy_text(network, proxy@),
{
    let remote = if network {
        " https: wss:"
    } else {
        ""
    };
    proof {
        reveal_strlit("");
        assert(remote@ =~= remote_sources(network));
    }
    let mut directives: Vec<String> = Vec::new();
    directives.push("default-src 'none'".to_owned());
    directives.push("script-src 'self' 'unsafe-inline' 'wasm-unsafe-eval'".to_owned());
    directives.push("style-src 'self' 'unsafe-inline'".to_owned());
    directives.push(concat_text("img-src 'self' data: blob:", remote));
    directives.push("font-src 'self' data:".to_owned());
    let connect = concat_text("connect-src 'self'", proxy);
    directives.push(concat_text(connect.as_str(), remote));
    directives.push(concat_text("media-src 'self' blob:", remote));
    directives.push("frame-src 'none'".to_owned());
    directives.push("object-src 'none'".to_owned());
    directives.push("base-uri 'self'".to_owned());
    directives.push("form-action 'none'".to_owned());
    directives.push("worker-src 'self' blob:".to_owned());
    assert(texts(directives@) =~= policy_directives(network, proxy@));
    join_directives_text(&directives)
}

/// A number written in decimal digits.
pub open spec fn decimal(n: nat) -> Seq<char>
    decreases n,
{
    if n < 10 {
        seq![(n + '0' as int) as char]
    } else {
        decimal(n / 10) + seq![(n % 10 + '0' as int) as char]
    }
}

/// Writes a number in decimal digits.
fn decimal_text(n: u16) -> (s: String)
    ensures
        s@ == decimal(n as nat),
    decreases n,
{
    let digit = (48 + (n % 10) as u8) as char;
    if n < 10 {
        let mut s = String::new();
        s.push(digit);
        assert(s@ =~= decimal(n as nat));
        s
    } else {
        let mut s = decimal_text(n / 10);
        s.push(digit);
        assert(s@ =~= decimal(n as nat));
        s
    }
}

/// The sources under which the host application listens on a port of the local machine.
pub open spec fn proxy_sources(port: Option<u16>) -> Seq<char> {
    match port {
        Some(p) => " http://127.0.0.1:"@ + decimal(p as nat) + " ws://127.0.0.1:"@ + decimal(
            p as nat,
        ),
        None => seq![],
    }
}

/// Whether the permissions that a manifest asks for have the network among them.
pub fn asks_for_network(permissions: &[String]) -> (r: bool)
    ensures
        r == texts(permissions@).contains("network"@),
{
    let mut i: usize = 0;
    while i < permissions.len()
        invariant
            i <= permissions@.len(),
            forall|j: int| 0 <= j < i ==> texts(permissions@)[j] != "network"@,
        decreases permissions@.len() - i,
    {
        if *permissions[i].as_str() == *"network" {
            assert(texts(permissions@)[i as int] == "network"@);
            return true;
        }
        i = i + 1;
    }
    false
}

/// The content security policy for an extension. It may use the network if its manifest can be read
/// and asks for it, and if it was `granted`; `port` is where the host application listens, if it
/// does.
pub fn content_csp(permissions: Option<&[String]>, granted: bool, port: Option<u16>) -> (csp: String)
    ensures
        csp@ == policy_text(
            permissions is Some && texts(permissions->0@).contains("network"@) && granted,
            proxy_sources(port),
        ),
        !granted || permissions is None || !texts(permissions->0@).contains("network"@)
            ==> names_no_remote(csp@),
        granted && permissions is Some && texts(permissions->0@).contains("network"@) ==> contains(
            csp@,
            "https: wss:"@,
        ),
{
    proof {
        law_extension_without_network_is_closed(port);
        law_policy_holds_its_directives(true, proxy_sources(port));
    }
    let network = match permissions {
        Some(asked) => asks_for_network(asked) && granted,
        None => false,
    };
    let mut proxy = String::new();
    if let Some(p) = port {
        let digits = decimal_text(p);
        proxy.append(" http://127.0.0.1:");
        proxy.append(digits.as_str());
        proxy.append(" ws://127.0.0.1:");
        proxy.append(digits.as_str());
    }
    assert(proxy@ =~= proxy_sources(port));
    build_content_csp(network, proxy.as_str())
}

/// An answer, before it is handed to the web view.
pub struct Answer {
    pub status: u16,
    pub headers: Vec<(String, String)>,
    pub body: Vec<u8>,
}

/// The views of header names and values.
pub open spec fn header_texts(headers: Seq<(String, String)>) -> Seq<(Seq<char>, Seq<char>)> {
    headers.map_values(|header: (String, String)| (header.0@, header.1@))
}

/// The headers that content is sent with.
pub open spec fn content_headers(mime: Seq<char>, csp: Seq<char>) -> Seq<(Seq<char>, Seq<char>)> {
    seq![
        ("Content-Type"@, mime),
        ("Cache-Control"@, "no-store"@),
        ("Content-Security-Policy"@, csp),
        ("X-Content-Type-Options"@, "nosniff"@),
        ("Referrer-Policy"@, "same-origin"@),
        ("Origin-Agent-Cluster"@, "?1"@),
        (
            "Permissions-Policy"@,
            "camera=(), microphone=(), geolocation=(), document-domain=()"@,
        ),
    ]
}

/// The headers that a refusal is sent with.
pub open spec fn refusal_headers() -> Seq<(Seq<char>, Seq<char>)> {
    seq![("Cache-Control"@, "no-store"@)]
}

/// A header of the given name and value.
fn header(name: &str, value: &str) -> (h: (String, String))
    ensures
        h.0@ == name@,
        h.1@ == value@,
{
    (name.to_owned(), value.to_owned())
}

/// The answer that sends content of the given media type under the given policy.
pub fn content_answer(mime: &str, csp: &str, body: Vec<u8>) -> (answer: Answer)
    ensures
        answer.status == 200,
        header_texts(answer.headers@) == content_headers(mime@, csp@),
        answer.body == body,
{
    let mut headers: Vec<(String, String)> = Vec::new();
    headers.push(header("Content-Type", mime));
    headers.push(header("Cache-Control", "no-store"));
    headers.push(header("Content-Security-Policy", csp));
    headers.push(header("X-Content-Type-Options", "nosniff"));
    headers.push(header("Referrer-Policy", "same-origin"));
    headers.push(header("Origin-Agent-Cluster", "?1"));
    headers.push(
        header(
            "Permissions-Policy",
            "camera=(), microphone=(), geolocation=(), document-domain=()",
        ),
    );
    assert(header_texts(headers@) =~= content_headers(mime@, csp@));
    Answer { status: 200, headers, body }
}

/// The answer that refuses a request with the given status, and says nothing else.
pub fn refusal_answer(status: u16) -> (answer: Answer)
    ensures
        answer.status == status,
        header_texts(answer.headers@) == refusal_headers(),
        answer.body@.len() == 0,
{
    let mut headers: Vec<(String, String)> = Vec::new();
    headers.push(header("Cache-Control", "no-store"));
    assert(header_texts(headers@) =~= refusal_headers());
    Answer { status, headers, body: Vec::new() }
}

/// Each directive stands in the joined text.
proof fn lemma_directive_stands(directives: Seq<Seq<char>>, k: int)
    requires
        0 <= k < directives.len(),
    ensures
        contains(join_directives(directives), directives[k]),
    decreases directives.len(),
{
    let all = join_directives(directives);
    if directives.len() == 1 {
        assert(all.subrange(0, all.len() as int) =~= directives[0]);
        assert(occurs_at(all, directives[0], 0));
    } else if k == 0 {
        assert(all.subrange(0, directives[0].len() as int) =~= directives[0]);
        assert(occurs_at(all, directives[0], 0));
    } else {
        let rest = directives.drop_first();
        let tail = join_directives(rest);
        lemma_directive_stands(rest, k - 1);
        let directive = rest[k - 1];
        let i = choose|i: int| occurs_at(tail, directive, i);
        let n = directives[0].len() as int + 2;
        assert(all.subrange(i + n, i + n + directives[k].len()) =~= tail.subrange(
            i,
            i + directives[k].len(),
        ));
        assert(occurs_at(all, directives[k], i + n));
    }
}

/// Whether nowhere before position `n` the characters `a` and `b` follow one another.
spec fn pair_free(s: Seq<char>, a: char, b: char, n: nat) -> bool
    decreases n,
{
    n == 0 || (!(s[n - 1] == a && s[n as int] == b) && pair_free(s, a, b, (n - 1) as nat))
}

proof fn lemma_pair_free(s: Seq<char>, a: char, b: char, n: nat, i: int)
    requires
        pair_free(s, a, b, n),
        0 <= i < n,
    ensures
        !(s[i] == a && s[i + 1] == b),
    decreases n,
{
    if i < n - 1 {
        lemma_pair_free(s, a, b, (n - 1) as nat, i);
    }
}

/// Where the first two characters of a pattern do not follow one another, it does not stand.
proof fn lemma_pattern_absent(s: Seq<char>, pattern: Seq<char>)
    requires
        pattern.len() >= 2,
        s.len() >= 1,
        pair_free(s, pattern[0], pattern[1], (s.len() - 1) as nat),
    ensures
        !contains(s, pattern),
{
    if contains(s, pattern) {
        let i = choose|i: int| occurs_at(s, pattern, i);
        let found = s.subrange(i, i + pattern.len());
        assert(found[0] == pattern[0] && found[1] == pattern[1]);
        lemma_pair_free(s, pattern[0], pattern[1], (s.len() - 1) as nat, i);
    }
}

/// A pattern that stands in neither of two texts does not stand in the two together, if it cannot
/// start in the first.
proof fn lemma_absent_behind(head: Seq<char>, tail: Seq<char>, pattern: Seq<char>)
    requires
        pattern.len() > 0,
        is_free_of(head, pattern[0]),
        !contains(tail, pattern),
    ensures
        !contains(head + tail, pattern),
{
    let all = head + tail;
    if contains(all, pattern) {
        let i = choose|i: int| occurs_at(all, pattern, i);
        let found = all.subrange(i, i + pattern.len());
        assert(found[0] == pattern[0]);
        if i < head.len() {
            assert(all[i] == head[i]);
        } else {
            let j = i - head.len();
            assert(tail.subrange(j, j + pattern.len()) =~= found);
            assert(occurs_at(tail, pattern, j));
        }
    }
}

/// A pattern that stands in no directive does not stand in the joined text, if it could not reach
/// over a separator.
proof fn lemma_absent_from_directives(directives: Seq<Seq<char>>, pattern: Seq<char>)
    requires
        pattern.len() > 0,
        is_free_of(pattern, ';'),
        is_free_of(pattern, ' '),
        forall|k: int| 0 <= k < directives.len() ==> !contains(#[trigger] directives[k], pattern),
    ensures
        !contains(join_directives(directives), pattern),
    decreases directives.len(),
{
    let all = join_directives(directives);
    if directives.len() == 1 {
        assert(!contains(directives[0], pattern));
    } else if directives.len() > 1 {
        let head = directives[0];
        let rest = directives.drop_first();
        let tail = join_directives(rest);
        assert forall|k: int| 0 <= k < rest.len() implies !contains(#[trigger] rest[k], pattern) by {
            assert(rest[k] == directives[k + 1]);
        }
        lemma_absent_from_directives(rest, pattern);
        assert(!contains(head, pattern));
        if contains(all, pattern) {
            let i = choose|i: int| occurs_at(all, pattern, i);
            let found = all.subrange(i, i + pattern.len());
            let n = head.len() as int;
            if i + pattern.len() <= n {
                assert(head.subrange(i, i + pattern.len()) =~= found);
                assert(occurs_at(head, pattern, i));
            } else if i >= n + 2 {
                assert(tail.subrange(i - n - 2, i - n - 2 + pattern.len()) =~= found);
                assert(occurs_at(tail, pattern, i - n - 2));
            } else if i <= n {
                assert(all[n] == ';');
                assert(found[n - i] == ';');
            } else {
                assert(all[n + 1] == ' ');
                assert(found[n + 1 - i] == ' ');
            }
        }
    }
}

/// Whether a text holds no remote source.
pub open spec fn names_no_remote(s: Seq<char>) -> bool {
    !contains(s, "https:"@) && !contains(s, "wss:"@)
}

/// A text in which neither remote source can start.
proof fn lemma_no_remote(s: Seq<char>)
    requires
        s.len() >= 1,
        pair_free(s, 'h', 't', (s.len() - 1) as nat),
        pair_free(s, 'w', 's', (s.len() - 1) as nat),
    ensures
        names_no_remote(s),
{
    reveal_strlit("https:");
    reveal_strlit("wss:");
    lemma_pattern_absent(s, "https:"@);
    lemma_pattern_absent(s, "wss:"@);
}

/// Whether `c` does not stand before position `n`.
spec fn char_free(s: Seq<char>, c: char, n: nat) -> bool
    decreases n,
{
    n == 0 || (s[n - 1] != c && char_free(s, c, (n - 1) as nat))
}

proof fn lemma_char_free(s: Seq<char>, c: char, n: nat)
    requires
        char_free(s, c, n),
        n <= s.len(),
    ensures
        forall|i: int| 0 <= i < n ==> s[i] != c,
    decreases n,
{
    if n > 0 {
        lemma_char_free(s, c, (n - 1) as nat);
    }
}

/// The directives that are the same for every extension name no remote source.
proof fn lemma_fixed_directives()
    ensures
        names_no_remote("default-src 'none'"@),
        names_no_remote("script-src 'self' 'unsafe-inline' 'wasm-unsafe-eval'"@),
        names_no_remote("style-src 'self' 'unsafe-inline'"@),
        names_no_remote("img-src 'self' data: blob:"@),
        names_no_remote("font-src 'self' data:"@),
        names_no_remote("media-src 'self' blob:"@),
        names_no_remote("frame-src 'none'"@),
        names_no_remote("object-src 'none'"@),
        names_no_remote("base-uri 'self'"@),
        names_no_remote("form-action 'none'"@),
        names_no_remote("worker-src 'self' blob:"@),
{
    assert(names_no_remote("default-src 'none'"@)) by {
        reveal_strlit("default-src 'none'");
        reveal_with_fuel(pair_free, 18);
        lemma_no_remote("default-src 'none'"@);
    }
    assert(names_no_remote("script-src 'self' 'unsafe-inline' 'wasm-unsafe-eval'"@)) by {
        reveal_strlit("script-src 'self' 'unsafe-inline' 'wasm-unsafe-eval'");
        reveal_with_fuel(pair_free, 52);
        lemma_no_remote("script-src 'self' 'unsafe-inline' 'wasm-unsafe-eval'"@);
    }
    assert(names_no_remote("style-src 'self' 'unsafe-inline'"@)) by {
        reveal_strlit("style-src 'self' 'unsafe-inline'");
        reveal_with_fuel(pair_free, 32);
        lemma_no_remote("style-src 'self' 'unsafe-inline'"@);
    }
    assert(names_no_remote("img-src 'self' data: blob:"@)) by {
        reveal_strlit("img-src 'self' data: blob:");
        reveal_with_fuel(pair_free, 26);
        lemma_no_remote("img-src 'self' data: blob:"@);
    }
    assert(names_no_remote("font-src 'self' data:"@)) by {
        reveal_strlit("font-src 'self' data:");
        reveal_with_fuel(pair_free, 21);
        lemma_no_remote("font-src 'self' data:"@);
    }
    assert(names_no_remote("media-src 'self' blob:"@)) by {
        reveal_strlit("media-src 'self' blob:");
        reveal_with_fuel(pair_free, 22);
        lemma_no_remote("media-src 'self' blob:"@);
    }
    assert(names_no_remote("frame-src 'none'"@)) by {
        reveal_strlit("frame-src 'none'");
        reveal_with_fuel(pair_free, 16);
        lemma_no_remote("frame-src 'none'"@);
    }
    assert(names_no_remote("object-src 'none'"@)) by {
        reveal_strlit("object-src 'none'");
        reveal_with_fuel(pair_free, 17);
        lemma_no_remote("object-src 'none'"@);
    }
    assert(names_no_remote("base-uri 'self'"@)) by {
        reveal_strlit("base-uri 'self'");
        reveal_with_fuel(pair_free, 15);
        lemma_no_remote("base-uri 'self'"@);
    }
    assert(names_no_remote("form-action 'none'"@)) by {
        reveal_strlit("form-action 'none'");
        reveal_with_fuel(pair_free, 18);
        lemma_no_remote("form-action 'none'"@);
    }
    assert(names_no_remote("worker-src 'self' blob:"@)) by {
        reveal_strlit("worker-src 'self' blob:");
        reveal_with_fuel(pair_free, 23);
        lemma_no_remote("worker-src 'self' blob:"@);
    }
}

/// Without the network permission the policy names no remote source, unless the host application
/// itself is listed as one.
pub proof fn law_no_network_no_remote_source(proxy: Seq<char>)
    requires
        names_no_remote(proxy),
    ensures
        names_no_remote(policy_text(false, proxy)),
{
    reveal_strlit("https:");
    reveal_strlit("wss:");
    let own = "connect-src 'self'"@;
    assert(is_free_of(own, 'h') && is_free_of(own, 'w')) by {
        reveal_strlit("connect-src 'self'");
        reveal_with_fuel(char_free, 19);
        lemma_char_free(own, 'h', own.len());
        lemma_char_free(own, 'w', own.len());
    }
    lemma_absent_behind(own, proxy, "https:"@);
    lemma_absent_behind(own, proxy, "wss:"@);
    lemma_fixed_directives();
    let none = remote_sources(false);
    let directives = policy_directives(false, proxy);
    assert(own + proxy + none =~= own + proxy);
    assert(directives[3] =~= "img-src 'self' data: blob:"@);
    assert(directives[6] =~= "media-src 'self' blob:"@);
    assert forall|k: int| 0 <= k < directives.len() implies names_no_remote(
        #[trigger] directives[k],
    ) by {}
    assert("https:"@ =~= seq!['h', 't', 't', 'p', 's', ':']);
    assert("wss:"@ =~= seq!['w', 's', 's', ':']);
    lemma_absent_from_directives(directives, "https:"@);
    lemma_absent_from_directives(directives, "wss:"@);
}

/// A decimal number is made of digits.
proof fn lemma_decimal_digits(n: nat)
    ensures
        forall|i: int| 0 <= i < decimal(n).len() ==> '0' <= #[trigger] decimal(n)[i] <= '9',
    decreases n,
{
    if n >= 10 {
        lemma_decimal_digits(n / 10);
        let front = decimal(n / 10);
        assert forall|i: int| 0 <= i < decimal(n).len() implies '0' <= #[trigger] decimal(n)[i]
            <= '9' by {
            if i < front.len() {
                assert(decimal(n)[i] == front[i]);
            }
        }
    }
}

/// Whether nowhere in `s` the character `b` follows `a`.
spec fn lacks_pair(s: Seq<char>, a: char, b: char) -> bool {
    forall|i: int, j: int|
        0 <= i && j == i + 1 && j < s.len() ==> !(#[trigger] s[i] == a && #[trigger] s[j] == b)
}

proof fn lemma_lacks_pair_joined(s: Seq<char>, t: Seq<char>, a: char, b: char)
    requires
        lacks_pair(s, a, b),
        lacks_pair(t, a, b),
        s.len() > 0,
        s.last() != a,
    ensures
        lacks_pair(s + t, a, b),
{
    let all = s + t;
    assert forall|i: int, j: int| 0 <= i && j == i + 1 && j < all.len() implies !(#[trigger] all[i]
        == a && #[trigger] all[j] == b) by {
        if j < s.len() {
            assert(all[i] == s[i] && all[j] == s[j]);
        } else if i >= s.len() {
            assert(all[i] == t[i - s.len()] && all[j] == t[j - s.len()]);
        } else {
            assert(all[i] == s.last());
        }
    }
}

/// The sources of the host application are not remote ones: with `a` and `b`, two characters that
/// follow one another in a pattern, the pattern stands nowhere in them.
proof fn lemma_proxy_lacks_pair(p: u16, a: char, b: char)
    requires
        (a == 'p' && b == 's') || (a == 's' && b == 's'),
    ensures
        lacks_pair(proxy_sources(Some(p)), a, b),
{
    let digits = decimal(p as nat);
    lemma_decimal_digits(p as nat);
    let (x, y) = (" http://127.0.0.1:"@, " ws://127.0.0.1:"@);
    reveal_strlit(" http://127.0.0.1:");
    reveal_strlit(" ws://127.0.0.1:");
    assert(x.len() == 18 && x.last() == ':' && y.len() == 16 && y.last() == ':');
    assert(lacks_pair(x, a, b)) by {
        reveal_with_fuel(pair_free, 18);
        assert(pair_free(x, a, b, 17));
        assert forall|i: int, j: int| 0 <= i && j == i + 1 && j < x.len() implies !(#[trigger] x[i]
            == a && #[trigger] x[j] == b) by {
            lemma_pair_free(x, a, b, 17, i);
        }
    }
    assert(lacks_pair(y, a, b)) by {
        reveal_with_fuel(pair_free, 16);
        assert(pair_free(y, a, b, 15));
        assert forall|i: int, j: int| 0 <= i && j == i + 1 && j < y.len() implies !(#[trigger] y[i]
            == a && #[trigger] y[j] == b) by {
            lemma_pair_free(y, a, b, 15, i);
        }
    }
    assert(lacks_pair(digits, a, b));
    assert(digits.len() > 0);
    lemma_lacks_pair_joined(x, digits, a, b);
    lemma_lacks_pair_joined(x + digits, y, a, b);
    lemma_lacks_pair_joined(x + digits + y, digits, a, b);
}

/// An extension that may not use the network is sent a policy without any remote source, whether
/// the host application listens for it or not.
pub proof fn law_extension_without_network_is_closed(port: Option<u16>)
    ensures
        names_no_remote(policy_text(false, proxy_sources(port))),
{
    let proxy = proxy_sources(port);
    let (https, wss) = ("https:"@, "wss:"@);
    reveal_strlit("https:");
    reveal_strlit("wss:");
    if let Some(p) = port {
        lemma_proxy_lacks_pair(p, 'p', 's');
        lemma_proxy_lacks_pair(p, 's', 's');
    }
    if contains(proxy, https) {
        let i = choose|i: int| occurs_at(proxy, https, i);
        let found = proxy.subrange(i, i + https.len());
        assert(found[3] == 'p' && found[4] == 's');
        assert(proxy[i + 3] == 'p' && proxy[i + 4] == 's');
    }
    if contains(proxy, wss) {
        let i = choose|i: int| occurs_at(proxy, wss, i);
        let found = proxy.subrange(i, i + wss.len());
        assert(found[1] == 's' && found[2] == 's');
        assert(proxy[i + 1] == 's' && proxy[i + 2] == 's');
    }
    law_no_network_no_remote_source(proxy);
}

/// The policy names where the host application listens, and the remote sources if the extension
/// may use the network. Whatever these are, scripts and styles of the extension run, inline ones and
/// WebAssembly among them, its fonts and workers load, and its base stays its own; frames, plug-ins
/// and forms are closed, and so is what the policy does not name.
pub proof fn law_policy_holds_its_directives(network: bool, proxy: Seq<char>)
    ensures
        contains(policy_text(network, proxy), "default-src 'none'"@),
        contains(
            policy_text(network, proxy),
            "script-src 'self' 'unsafe-inline' 'wasm-unsafe-eval'"@,
        ),
        contains(policy_text(network, proxy), "style-src 'self' 'unsafe-inline'"@),
        contains(policy_text(network, proxy), "font-src 'self' data:"@),
        contains(policy_text(network, proxy), "base-uri 'self'"@),
        contains(policy_text(network, proxy), "worker-src 'self' blob:"@),
        contains(policy_text(network, proxy), "frame-src 'none'"@),
        contains(policy_text(network, proxy), "object-src 'none'"@),
        contains(policy_text(network, proxy), "form-action 'none'"@),
        contains(policy_text(network, proxy), "connect-src 'self'"@ + proxy),
        network ==> contains(policy_text(network, proxy), "https: wss:"@),
{
    let directives = policy_directives(network, proxy);
    let all = policy_text(network, proxy);
    lemma_directive_stands(directives, 0);
    lemma_directive_stands(directives, 1);
    lemma_directive_stands(directives, 2);
    lemma_directive_stands(directives, 4);
    lemma_directive_stands(directives, 5);
    lemma_directive_stands(directives, 7);
    lemma_directive_stands(directives, 8);
    lemma_directive_stands(directives, 9);
    lemma_directive_stands(directives, 10);
    lemma_directive_stands(directives, 11);
    let connect = "connect-src 'self'"@ + proxy;
    let whole = directives[5];
    let i = choose|i: int| occurs_at(all, whole, i);
    assert(whole == connect + remote_sources(network));
    assert(all.subrange(i, i + connect.len()) =~= connect) by {
        assert(all.subrange(i, i + whole.len()).take(connect.len() as int) =~= connect);
        assert(all.subrange(i, i + whole.len()).take(connect.len() as int) =~= all.subrange(
            i,
            i + connect.len(),
        ));
    }
    assert(occurs_at(all, connect, i));
    if network {
        reveal_strlit("https: wss:");
        reveal_strlit(" https: wss:");
        let (behind, n) = ("https: wss:"@, i + connect.len() + 1);
        assert(behind =~= seq!['h', 't', 't', 'p', 's', ':', ' ', 'w', 's', 's', ':']);
        assert(" https: wss:"@ =~= seq![' '] + behind);
        assert(all.subrange(n, n + behind.len()) =~= behind) by {
            assert(all.subrange(i, i + whole.len()).skip(connect.len() as int + 1) =~= behind);
            assert(all.subrange(i, i + whole.len()).skip(connect.len() as int + 1)
                =~= all.subrange(n, n + behind.len()));
        }
        assert(occurs_at(all, behind, n));
    }
}

/// No answer is kept by the web view, neither content nor a refusal.
pub proof fn law_nothing_is_cached(mime: Seq<char>, csp: Seq<char>)
    ensures
        content_headers(mime, csp).contains(("Cache-Control"@, "no-store"@)),
        refusal_headers().contains(("Cache-Control"@, "no-store"@)),
{
    assert(content_headers(mime, csp)[1] == ("Cache-Control"@, "no-store"@));
    assert(refusal_headers()[0] == ("Cache-Control"@, "no-store"@));
}

/// The directives of every policy, in their order and with a semicolon and a space between each two.
/// The network permission adds the same two sources to images, connections and media, and the
/// proxy's sources stand among the connections; nothing else depends on them.
pub proof fn law_policy_is_spelled_out(network: bool, proxy: Seq<char>)
    ensures
        ({
            let end = seq![';', ' '];
            let remote = if network {
                " https: wss:"@
            } else {
                Seq::<char>::empty()
            };
            policy_text(network, proxy) == "default-src 'none'"@ + end
                + "script-src 'self' 'unsafe-inline' 'wasm-unsafe-eval'"@ + end
                + "style-src 'self' 'unsafe-inline'"@ + end + "img-src 'self' data: blob:"@ + remote
                + end + "font-src 'self' data:"@ + end + "connect-src 'self'"@ + proxy + remote + end
                + "media-src 'self' blob:"@ + remote + end + "frame-src 'none'"@ + end
                + "object-src 'none'"@ + end + "base-uri 'self'"@ + end + "form-action 'none'"@ + end
                + "worker-src 'self' blob:"@
        }),
{
    let end = seq![';', ' '];
    let remote = if network {
        " https: wss:"@
    } else {
        Seq::<char>::empty()
    };
    let all = policy_directives(network, proxy);
    assert(all.skip(0) =~= all);
    let h0 = all[0] + end;
    lemma_join_step(all, 0);
    lemma_join_step(all, 1);
    lemma_regroup(h0, "script-src 'self' 'unsafe-inline' 'wasm-unsafe-eval'"@, seq![], seq![], end, join_directives(all.skip(2)));
    let h1 = h0 + "script-src 'self' 'unsafe-inline' 'wasm-unsafe-eval'"@ + end;
    assert(h0 + join_directives(all.skip(1)) == h1 + join_directives(all.skip(2)));
    lemma_join_step(all, 2);
    lemma_regroup(h1, "style-src 'self' 'unsafe-inline'"@, seq![], seq![], end, join_directives(all.skip(3)));
    let h2 = h1 + "style-src 'self' 'unsafe-inline'"@ + end;
    assert(h1 + join_directives(all.skip(2)) == h2 + join_directives(all.skip(3)));
    lemma_join_step(all, 3);
    lemma_regroup(h2, "img-src 'self' data: blob:"@, seq![], remote, end, join_directives(all.skip(4)));
    let h3 = h2 + "img-src 'self' data: blob:"@ + remote + end;
    assert(h2 + join_directives(all.skip(3)) == h3 + join_directives(all.skip(4)));
    lemma_join_step(all, 4);
    lemma_regroup(h3, "font-src 'self' data:"@, seq![], seq![], end, join_directives(all.skip(5)));
    let h4 = h3 + "font-src 'self' data:"@ + end;
    assert(h3 + join_directives(all.skip(4)) == h4 + join_directives(all.skip(5)));
    lemma_join_step(all, 5);
    lemma_regroup(h4, "connect-src 'self'"@, proxy, remote, end, join_directives(all.skip(6)));
    let h5 = h4 + "connect-src 'self'"@ + proxy + remote + end;
    assert(h4 + join_directives(all.skip(5)) == h5 + join_directives(all.skip(6)));
    lemma_join_step(all, 6);
    lemma_regroup(h5, "media-src 'self' blob:"@, seq![], remote, end, join_directives(all.skip(7)));
    let h6 = h5 + "media-src 'self' blob:"@ + remote + end;
    assert(h5 + join_directives(all.skip(6)) == h6 + join_directives(all.skip(7)));
    lemma_join_step(all, 7);
    lemma_regroup(h6, "frame-src 'none'"@, seq![], seq![], end, join_directives(all.skip(8)));
    let h7 = h6 + "frame-src 'none'"@ + end;
    assert(h6 + join_directives(all.skip(7)) == h7 + join_directives(all.skip(8)));
    lemma_join_step(all, 8);
    lemma_regroup(h7, "object-src 'none'"@, seq![], seq![], end, join_directives(all.skip(9)));
    let h8 = h7 + "object-src 'none'"@ + end;
    assert(h7 + join_directives(all.skip(8)) == h8 + join_directives(all.skip(9)));
    lemma_join_step(all, 9);
    lemma_regroup(h8, "base-uri 'self'"@, seq![], seq![], end, join_directives(all.skip(10)));
    let h9 = h8 + "base-uri 'self'"@ + end;
    assert(h8 + join_directives(all.skip(9)) == h9 + join_directives(all.skip(10)));
    lemma_join_step(all, 10);
    lemma_regroup(h9, "form-action 'none'"@, seq![], seq![], end, join_directives(all.skip(11)));
    let h10 = h9 + "form-action 'none'"@ + end;
    assert(h9 + join_directives(all.skip(10)) == h10 + join_directives(all.skip(11)));
    assert(all.skip(11) =~= seq![all[11]]);
    assert(join_directives(all.skip(11)) == all[11]);
}

/// A row of directives is the first of them and the rest.
proof fn lemma_join_step(directives: Seq<Seq<char>>, k: int)
    requires
        0 <= k < directives.len() - 1,
    ensures
        join_directives(directives.skip(k)) == directives[k] + seq![';', ' '] + join_directives(
            directives.skip(k + 1),
        ),
{
    assert(directives.skip(k).drop_first() =~= directives.skip(k + 1));
}

/// Texts one behind the other can be put together in any grouping.
proof fn lemma_regroup(
    front: Seq<char>,
    a: Seq<char>,
    b: Seq<char>,
    c: Seq<char>,
    end: Seq<char>,
    rest: Seq<char>,
)
    ensures
        front + (a + b + c + end + rest) == front + a + b + c + end + rest,
        front + (a + c + end + rest) == front + a + c + end + rest,
        front + (a + end + rest) == front + a + end + rest,
{
    assert(front + (a + b + c + end + rest) =~= front + a + b + c + end + rest);
    assert(front + (a + c + end + rest) =~= front + a + c + end + rest);
    assert(front + (a + end + rest) =~= front + a + end + rest);
}

/// A number below ten is written as one digit, and a digit behind a number makes it ten times as
/// large, and larger by the digit.
pub proof fn law_decimal_digits(n: nat, digit: nat)
    requires
        digit < 10,
    ensures
        decimal(digit) == seq!["0123456789"@[digit as int]],
        n > 0 ==> decimal(10 * n + digit) == decimal(n) + seq!["0123456789"@[digit as int]],
{
    reveal_strlit("0123456789");
    let c = (digit + '0' as int) as char;
    assert("0123456789"@[digit as int] == c) by {
        assert("0123456789"@ =~= seq!['0', '1', '2', '3', '4', '5', '6', '7', '8', '9']);
    }
    if n > 0 {
        assert((10 * n + digit) / 10 == n);
        assert((10 * n + digit) % 10 == digit);
    }
}

/// The host application is named twice, for requests and for sockets, with the number of its port;
/// and not at all if it does not listen.
pub proof fn law_proxy_is_named_by_its_port(port: u16)
    ensures
        proxy_sources(Some(port)) == " http://127.0.0.1:"@ + decimal(port as nat)
            + " ws://127.0.0.1:"@ + decimal(port as nat),
        proxy_sources(None) == Seq::<char>::empty(),
{
}

/// The headers of an answer: seven for content, one for a refusal.
pub proof fn law_headers_are_spelled_out(mime: Seq<char>, csp: Seq<char>, headers: Seq<(String, String)>)
    ensures
        content_headers(mime, csp).len() == 7,
        content_headers(mime, csp)[0] == ("Content-Type"@, mime),
        content_headers(mime, csp)[1] == ("Cache-Control"@, "no-store"@),
        content_headers(mime, csp)[2] == ("Content-Security-Policy"@, csp),
        content_headers(mime, csp)[3] == ("X-Content-Type-Options"@, "nosniff"@),
        content_headers(mime, csp)[4] == ("Referrer-Policy"@, "same-origin"@),
        content_headers(mime, csp)[5] == ("Origin-Agent-Cluster"@, "?1"@),
        content_headers(mime, csp)[6] == (
            "Permissions-Policy"@,
            "camera=(), microphone=(), geolocation=(), document-domain=()"@,
        ),
        refusal_headers().len() == 1,
        refusal_headers()[0] == ("Cache-Control"@, "no-store"@),
        header_texts(headers).len() == headers.len(),
        forall|i: int|
            0 <= i < headers.len() ==> #[trigger] header_texts(headers)[i] == (
                headers[i].0@,
                headers[i].1@,
            ),
{
}

} // verus!
