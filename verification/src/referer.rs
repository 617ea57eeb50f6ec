//! Holding a request to the origin that it was sent to.
//!
//! The host name of a request and the id in its path have to agree. Where a page refers to
//! `../assets/x.js`, the browser drops the id from the path; then the `Referer` header, which a
//! page's own scripts cannot forge, says which extension the request belongs to.

use http::Uri;
use vstd::prelude::*;

use crate::origin::base_url;
use crate::origin::base_url_of;
use crate::origin::content_host;
use crate::origin::encoded_rel_path;
use crate::origin::entry_path;
use crate::origin::entry_url_of;
use crate::origin::hex;
use crate::origin::host_of;
use crate::origin::is_id_char;
use crate::origin::is_valid_ext_id;
use crate::origin::law_id_is_written_as_it_is;
use crate::origin::origin;
use crate::origin::origin_of;
use crate::origin::path_components;
use crate::origin::valid_ext_id;
use crate::origin::Platform;
use crate::path::law_accepted_rel_path_is_safe;
use crate::path::law_accepted_request_is_safe;
use crate::path::law_entry_path_is_read_back;
use crate::path::law_id_in_front_names_the_extension;
use crate::path::parse_rel_path;
use crate::path::parse_request_path;
use crate::path::rel_path;
use crate::path::request_path;
use crate::path::safe_part;
use crate::path::FORBIDDEN;
use crate::percent::decode_segment;
use crate::percent::decoded;
use crate::percent::encoded;
use crate::percent::is_segment_char;
use crate::percent::law_decode_encoded;
use crate::percent::law_encoded_is_one_segment;
use crate::text::before;
use crate::text::before_text;
use crate::text::chars_of;
use crate::text::find_char;
use crate::text::is_free_of;
use crate::text::join;
use crate::text::lemma_find_char;
use crate::text::lemma_find_char_is;
use crate::text::starts_with;
use crate::text::starts_with_text;
use crate::text::text_of;
use crate::text::texts;
use crate::text::trim_start;
use crate::text::trim_start_text;

verus! {

/// The path that a text has when it is read as a URI, or `None` if it is not one.
pub uninterp spec fn parsed_uri_path(text: Seq<char>) -> Option<Seq<char>>;

/// Whether `uri` is written `<scheme>://<authority><path><query>`, with nothing but letters, digits
/// and hyphens in the scheme, and dots besides them in the authority; with a path that starts with a
/// slash, and with a query or none; and no longer than a URI may be.
pub open spec fn is_plain_uri(
    uri: Seq<char>,
    scheme: Seq<char>,
    authority: Seq<char>,
    path: Seq<char>,
    query: Seq<char>,
) -> bool {
    &&& uri == scheme + seq![':', '/', '/'] + authority + path + query
    &&& uri.len() < 0xffff
    &&& 1 <= scheme.len() <= 64
    &&& forall|i: int| 0 <= i < scheme.len() ==> is_host_char(#[trigger] scheme[i]) && scheme[i] != '.'
    &&& 1 <= authority.len()
    &&& forall|i: int| 0 <= i < authority.len() ==> is_host_char(#[trigger] authority[i])
    &&& 1 <= path.len() && path[0] == '/'
    &&& is_path_text(path)
    &&& is_query(query)
}

/// Whether every character of a text may stand in the path of a URI: printable ASCII but for the
/// double quote, `#`, `<`, `>`, `?`, the back quote, `{` and `}`.
pub open spec fn is_path_text(path: Seq<char>) -> bool {
    forall|i: int| 0 <= i < path.len() ==> is_path_char(#[trigger] path[i])
}

/// The characters of the path of a URI.
pub open spec fn is_path_char(c: char) -> bool {
    '!' <= c <= '~' && c != '"' && c != '#' && c != '<' && c != '>' && c != '?' && c != '`' && c
        != '{' && c != '}'
}

/// Whether a text is the query of a URI with its question mark, or empty.
pub open spec fn is_query(query: Seq<char>) -> bool {
    query.len() > 0 ==> query[0] == '?' && forall|i: int|
        0 <= i < query.len() ==> is_query_char(#[trigger] query[i])
}

/// The characters of the query of a URI: printable ASCII but for the double quote, `#`, `<` and `>`.
pub open spec fn is_query_char(c: char) -> bool {
    '!' <= c <= '~' && c != '"' && c != '#' && c != '<' && c != '>'
}

/// The characters of a plain host name.
pub open spec fn is_host_char(c: char) -> bool {
    'a' <= c <= 'z' || 'A' <= c <= 'Z' || '0' <= c <= '9' || c == '-' || c == '.'
}

/// `http::Uri`'s `from_str` reads the text as a URI, and `path` gives the URI's path. Of a plain
/// absolute URI that is what stands between the authority and the query.
#[verifier::external_body]
fn uri_path(text: &str) -> (r: Option<String>)
    ensures
        r is Some <==> parsed_uri_path(text@) is Some,
        r is Some ==> r->0@ == parsed_uri_path(text@)->0,
        forall|scheme: Seq<char>, authority: Seq<char>, path: Seq<char>, query: Seq<char>| #[trigger]
            is_plain_uri(text@, scheme, authority, path, query) ==> r is Some && r->0@ == path,
{
    text.parse::<Uri>().ok().map(|uri| uri.path().to_string())
}

/// The extension and the file that a request without an extension id belongs to, going by a
/// referer under the protocol's base URL.
pub open spec fn fallback(platform: Platform, raw_path: Seq<char>, referer: Seq<char>) -> Option<
    (Seq<char>, Seq<Seq<char>>),
> {
    let base = base_url_of(platform);
    if !starts_with(referer, base) {
        None
    } else {
        let rest = trim_start(referer.skip(base.len() as int), '/');
        match decoded(before(before(before(rest, '/'), '?'), '#')) {
            Some(id) if valid_ext_id(id) => match rel_path(raw_path) {
                Ok(parts) => Some((id, parts)),
                Err(_) => None,
            },
            _ => None,
        }
    }
}

/// The view of an attribution.
pub open spec fn attribution_view(r: Option<(String, Vec<String>)>) -> Option<
    (Seq<char>, Seq<Seq<char>>),
> {
    match r {
        Some((id, parts)) => Some((id@, texts(parts@))),
        None => None,
    }
}

/// Attributes a request whose path has lost the extension id, by the referer: the id is what
/// follows the protocol's base URL at the start of the referer, and the whole path is the relative
/// one. `None` if the referer does not start with the base URL, if what follows it has not the shape
/// of an id, or if the path is refused.
///
/// That the extension exists is not checked here.
pub fn fallback_from_referer(platform: Platform, raw_path: &str, referer: &str) -> (r: Option<
    (String, Vec<String>),
>)
    ensures
        attribution_view(r) == fallback(platform, raw_path@, referer@),
{
    let base = base_url(platform);
    if !starts_with_text(referer, base) {
        return None;
    }
    let v = chars_of(referer);
    let n = chars_of(base).len();
    let behind = text_of(&v, n, v.len());
    assert(behind@ =~= referer@.skip(n as int));
    let rest = trim_start_text(behind.as_str(), '/');
    let to_slash = before_text(rest.as_str(), '/');
    let to_query = before_text(to_slash.as_str(), '?');
    let id_raw = before_text(to_query.as_str(), '#');
    match decode_segment(id_raw.as_str()) {
        None => None,
        Some(id) => {
            if !is_valid_ext_id(id.as_str()) {
                return None;
            }
            match parse_rel_path(raw_path) {
                Ok(parts) => Some((id, parts)),
                Err(_) => None,
            }
        },
    }
}

/// What a referer says of the request that it came with.
pub struct Claim {
    /// The extension that the referring page belongs to.
    pub id: String,
    /// The host name of that extension.
    pub host: String,
    /// Whether the referer lies under the origin of that extension.
    pub same_origin: bool,
}

impl View for Claim {
    type V = (Seq<char>, Seq<char>, bool);

    open spec fn view(&self) -> (Seq<char>, Seq<char>, bool) {
        (self.id@, self.host@, self.same_origin)
    }
}

/// The host name of the extension that a request path names.
pub open spec fn path_host(path: Seq<char>) -> Option<Seq<char>> {
    match request_path(path) {
        Ok((id, _)) => Some(host_of(id)),
        Err(_) => None,
    }
}

/// What a referer claims, given the path it has as a URI.
pub open spec fn referer_claim(
    platform: Platform,
    referer: Seq<char>,
    referer_path: Option<Seq<char>>,
) -> Option<(Seq<char>, Seq<char>, bool)> {
    match referer_path {
        None => None,
        Some(path) => match request_path(trim_start(path, '/')) {
            Ok((id, _)) => Some(
                (id, host_of(id), starts_with(referer, origin_of(platform, id) + seq!['/'])),
            ),
            Err(_) => None,
        },
    }
}

/// The request path to serve for a request to `host`, given the host name that its path calls for
/// and what its referer claims.
pub open spec fn decided_path(
    host: Seq<char>,
    path: Seq<char>,
    own_host: Option<Seq<char>>,
    claim: Option<(Seq<char>, Seq<char>, bool)>,
) -> Result<Seq<char>, u16> {
    if own_host == Some(host) {
        Ok(path)
    } else {
        match claim {
            Some((id, claimed_host, same_origin)) if same_origin && claimed_host == host => {
                match rel_path(path) {
                    Ok(_) => Ok(id + seq!['/'] + path),
                    Err(status) => Err(status),
                }
            },
            _ => Err(FORBIDDEN),
        }
    }
}

/// The request path to serve for a request to `host`.
pub open spec fn host_path(
    platform: Platform,
    host: Seq<char>,
    path: Seq<char>,
    referer: Option<Seq<char>>,
) -> Result<Seq<char>, u16> {
    let claim = match referer {
        Some(text) => referer_claim(platform, text, parsed_uri_path(text)),
        None => None,
    };
    decided_path(host, path, path_host(path), claim)
}

/// The view of a decided request path.
pub open spec fn path_view(r: Result<String, u16>) -> Result<Seq<char>, u16> {
    match r {
        Ok(path) => Ok(path@),
        Err(status) => Err(status),
    }
}

/// The view of an optional text.
pub open spec fn option_view(text: Option<&str>) -> Option<Seq<char>> {
    match text {
        Some(t) => Some(t@),
        None => None,
    }
}

/// What a referer claims, given the path it has as a URI: the extension whose id that path starts
/// with.
pub fn claim_of(platform: Platform, referer: &str, referer_path: Option<&str>) -> (r: Option<Claim>)
    ensures
        (match r {
            Some(claim) => Some(claim@),
            None => None,
        }) == referer_claim(platform, referer@, option_view(referer_path)),
{
    match referer_path {
        None => None,
        Some(path) => {
            let trimmed = trim_start_text(path, '/');
            match parse_request_path(trimmed.as_str()) {
                Err(_) => None,
                Ok((id, _)) => {
                    let mut prefix = origin(platform, id.as_str());
                    prefix.push('/');
                    assert(prefix@ =~= origin_of(platform, id@) + seq!['/']);
                    let same_origin = starts_with_text(referer, prefix.as_str());
                    let host = content_host(id.as_str());
                    Some(Claim { id, host, same_origin })
                },
            }
        },
    }
}

/// Decides which request path to serve for a request to `host`: the path itself, if the extension
/// it names has that host; else the path behind the id of the extension that the referer claims, if
/// that one has the host and the referer lies under its origin. Anything else is [`FORBIDDEN`].
pub fn decide_path(host: &str, path: &str, own_host: Option<&str>, claim: Option<Claim>) -> (r:
    Result<String, u16>)
    ensures
        path_view(r) == decided_path(
            host@,
            path@,
            option_view(own_host),
            (match claim {
                Some(c) => Some(c@),
                None => None,
            }),
        ),
{
    if let Some(own) = own_host {
        if *own == *host {
            return Ok(path.to_owned());
        }
    }
    match claim {
        None => Err(FORBIDDEN),
        Some(c) => {
            if !c.same_origin || !(*c.host.as_str() == *host) {
                return Err(FORBIDDEN);
            }
            match parse_rel_path(path) {
                Err(status) => Err(status),
                Ok(_) => {
                    let mut full = c.id;
                    full.push('/');
                    full.append(path);
                    assert(full@ =~= c.id@ + seq!['/'] + path@);
                    Ok(full)
                },
            }
        },
    }
}

/// Whether `referer` is the URL of a page of extension `id`: the origin of the extension, a request
/// path that names it, and a query or none.
pub open spec fn is_page_referer(
    platform: Platform,
    referer: Seq<char>,
    id: Seq<char>,
    page: Seq<char>,
    query: Seq<char>,
) -> bool {
    &&& referer == origin_of(platform, id) + seq!['/'] + page + query
    &&& referer.len() < 0xffff
    &&& request_path(page) is Ok && request_path(page)->Ok_0.0 == id
    &&& is_path_text(page)
    &&& is_query(query)
}

/// The characters of a host name of the protocol.
proof fn lemma_host_chars(id: Seq<char>)
    ensures
        host_of(id).len() > 0,
        forall|i: int| 0 <= i < host_of(id).len() ==> is_host_char(#[trigger] host_of(id)[i]),
{
    reveal_strlit("e-");
    reveal_strlit(".localhost");
    let digest = crate::origin::sha256_digest(vstd::utf8::encode_utf8(id));
    let key = digest.take(16);
    let digits = hex(key);
    assert forall|i: int| 0 <= i < digits.len() implies is_host_char(#[trigger] digits[i]) by {
        let byte = key[i / 2];
        assert(0 <= byte as int / 16 < 16);
        assert(0 <= byte as int % 16 < 16);
    }
    let front = "e-"@ + digits;
    assert forall|i: int| 0 <= i < host_of(id).len() implies is_host_char(
        #[trigger] host_of(id)[i],
    ) by {
        if i < 2 {
            assert(host_of(id)[i] == "e-"@[i]);
        } else if i < front.len() {
            assert(host_of(id)[i] == digits[i - 2]);
        } else {
            assert(host_of(id)[i] == ".localhost"@[i - front.len()]);
        }
    }
}

/// The characters of joined segments.
proof fn lemma_joined_chars(pieces: Seq<Seq<char>>)
    requires
        forall|i: int, j: int|
            0 <= i < pieces.len() && 0 <= j < pieces[i].len() ==> is_segment_char(
                #[trigger] pieces[i][j],
            ),
    ensures
        forall|i: int|
            0 <= i < join(pieces, '/').len() ==> #[trigger] join(pieces, '/')[i] == '/'
                || is_segment_char(join(pieces, '/')[i]),
    decreases pieces.len(),
{
    if pieces.len() > 1 {
        let rest = pieces.drop_first();
        assert forall|i: int, j: int| 0 <= i < rest.len() && 0 <= j < rest[i].len() implies
            is_segment_char(#[trigger] rest[i][j]) by {
            assert(rest[i] == pieces[i + 1]);
            assert(is_segment_char(pieces[i + 1][j]));
        }
        lemma_joined_chars(rest);
        let all = join(pieces, '/');
        let tail = join(rest, '/');
        assert forall|i: int| 0 <= i < all.len() implies #[trigger] all[i] == '/'
            || is_segment_char(all[i]) by {
            let n = pieces[0].len() as int;
            if i < n {
                assert(all[i] == pieces[0][i]);
            } else if i > n {
                assert(all[i] == tail[i - n - 1]);
            }
        }
    }
}

/// The URL of a page is a plain URI whose path is a slash and the request path of the page.
proof fn lemma_page_url_is_plain(
    platform: Platform,
    referer: Seq<char>,
    id: Seq<char>,
    page: Seq<char>,
    query: Seq<char>,
) -> (r: (Seq<char>, Seq<char>))
    requires
        is_page_referer(platform, referer, id, page, query),
    ensures
        is_plain_uri(referer, r.0, r.1, seq!['/'] + page, query),
{
    reveal_strlit("http://xhub-ext.");
    reveal_strlit("xhub-ext://");
    lemma_host_chars(id);
    let host = host_of(id);
    let path = seq!['/'] + page;
    assert forall|i: int| 0 <= i < path.len() implies is_path_char(#[trigger] path[i]) by {
        if i > 0 {
            assert(path[i] == page[i - 1]);
        }
    }
    let (scheme, authority) = match platform {
        Platform::Windows | Platform::Android => (
            seq!['h', 't', 't', 'p'],
            seq!['x', 'h', 'u', 'b', '-', 'e', 'x', 't', '.'] + host,
        ),
        Platform::Other => (seq!['x', 'h', 'u', 'b', '-', 'e', 'x', 't'], host),
    };
    assert(referer =~= scheme + seq![':', '/', '/'] + authority + path + query);
    assert forall|i: int| 0 <= i < authority.len() implies is_host_char(#[trigger] authority[i]) by {
        if platform != Platform::Other && i >= 9 {
            assert(authority[i] == host[i - 9]);
        }
    }
    (scheme, authority)
}

/// A request path that is accepted does not start with a slash.
proof fn lemma_accepted_path_trimmed(page: Seq<char>)
    requires
        request_path(page) is Ok,
    ensures
        trim_start(seq!['/'] + page, '/') == page,
{
    lemma_find_char(page, '/');
    assert(page.len() > 0 && page[0] != '/');
    assert((seq!['/'] + page).drop_first() =~= page);
    reveal_with_fuel(trim_start, 3);
}

/// The URL of a page as a referer claims its own extension.
proof fn lemma_page_referer_claim(
    platform: Platform,
    referer: Seq<char>,
    id: Seq<char>,
    page: Seq<char>,
    query: Seq<char>,
)
    requires
        is_page_referer(platform, referer, id, page, query),
    ensures
        referer_claim(platform, referer, Some(seq!['/'] + page)) == Some((id, host_of(id), true)),
{
    lemma_accepted_path_trimmed(page);
    let prefix = origin_of(platform, id) + seq!['/'];
    assert(referer.subrange(0, prefix.len() as int) =~= prefix);
}

/// The request path to serve for a request to `host`, or the status to answer with. A request that
/// comes from a page of an extension, as the referer shows, is served from that extension, and only
/// over its own host.
pub fn request_path_for_host(
    platform: Platform,
    host: &str,
    path: &str,
    referer: Option<&str>,
) -> (r: Result<String, u16>)
    ensures
        path_view(r) == host_path(platform, host@, path@, option_view(referer)),
        forall|id: Seq<char>, page: Seq<char>, query: Seq<char>|
            referer is Some && #[trigger] is_page_referer(platform, referer->0@, id, page, query)
                && path_host(path@) != Some(host@) ==> path_view(r) == if host@ == host_of(id) {
                match rel_path(path@) {
                    Ok(_) => Ok(id + seq!['/'] + path@),
                    Err(status) => Err(status),
                }
            } else {
                Err(FORBIDDEN)
            },
{
    let own_host: Option<String> = match parse_request_path(path) {
        Ok((id, _)) => Some(content_host(id.as_str())),
        Err(_) => None,
    };
    let claim: Option<Claim> = match referer {
        None => None,
        Some(text) => {
            let read = uri_path(text);
            assert forall|id: Seq<char>, page: Seq<char>, query: Seq<char>| #[trigger]
                is_page_referer(platform, text@, id, page, query) implies referer_claim(
                platform,
                text@,
                parsed_uri_path(text@),
            ) == Some((id, host_of(id), true)) by {
                lemma_page_url_is_plain(platform, text@, id, page, query);
                lemma_page_referer_claim(platform, text@, id, page, query);
            }
            match read {
                Some(p) => claim_of(platform, text, Some(p.as_str())),
                None => None,
            }
        },
    };
    match own_host {
        Some(own) => decide_path(host, path, Some(own.as_str()), claim),
        None => decide_path(host, path, None, claim),
    }
}

/// The id of the extension that a request is served from; empty if it is served from none.
pub open spec fn served_id(
    platform: Platform,
    host: Seq<char>,
    path: Seq<char>,
    referer: Option<Seq<char>>,
) -> Seq<char> {
    match host_path(platform, host, path, referer) {
        Ok(full) => match request_path(full) {
            Ok((id, _)) => id,
            Err(_) => seq![],
        },
        Err(_) => seq![],
    }
}

/// The id of the extension that a request is served from; empty if it is served from none.
pub fn resolved_id(platform: Platform, host: &str, path: &str, referer: Option<&str>) -> (id: String)
    ensures
        id@ == served_id(platform, host@, path@, option_view(referer)),
{
    match request_path_for_host(platform, host, path, referer) {
        Err(_) => String::new(),
        Ok(full) => match parse_request_path(full.as_str()) {
            Ok((id, _)) => id,
            Err(_) => String::new(),
        },
    }
}

/// A request is not attributed by a referer that does not start with the base URL of the protocol,
/// wherever else that may stand in it; and where it is attributed, it is to an id of the proper
/// shape and with a path that cannot lead out of a directory.
pub proof fn law_attribution_needs_the_base_url(
    platform: Platform,
    raw_path: Seq<char>,
    referer: Seq<char>,
)
    ensures
        match fallback(platform, raw_path, referer) {
            Some((id, parts)) => {
                &&& starts_with(referer, base_url_of(platform))
                &&& valid_ext_id(id)
                &&& rel_path(raw_path) == Ok::<Seq<Seq<char>>, u16>(parts)
                &&& parts.len() > 0
                &&& forall|i: int| 0 <= i < parts.len() ==> safe_part(#[trigger] parts[i])
            },
            None => true,
        },
{
    if rel_path(raw_path) is Ok {
        law_accepted_rel_path_is_safe(raw_path);
    }
}

/// A request from a page under the base URL is attributed to the extension whose id stands behind
/// it, be there a path, a query or a fragment behind the id or nothing; unless its path is refused.
pub proof fn law_page_under_base_url_is_attributed(
    platform: Platform,
    raw_path: Seq<char>,
    id: Seq<char>,
    rest: Seq<char>,
)
    requires
        valid_ext_id(id),
        rest.len() == 0 || rest[0] == '/' || rest[0] == '?' || rest[0] == '#',
    ensures
        fallback(platform, raw_path, base_url_of(platform) + id + rest) == match rel_path(raw_path) {
            Ok(parts) => Some((id, parts)),
            Err(_) => None,
        },
{
    let base = base_url_of(platform);
    let referer = base + id + rest;
    let page = id + rest;
    assert(referer.subrange(0, base.len() as int) =~= base);
    assert(referer.skip(base.len() as int) =~= page);
    assert(is_id_char(id[0]));
    assert(trim_start(page, '/') == page);
    lemma_before_id(id, rest);
    law_id_is_written_as_it_is(id);
    law_decode_encoded(id);
}

/// The id is what stands before the first delimiter.
proof fn lemma_before_id(id: Seq<char>, rest: Seq<char>)
    requires
        valid_ext_id(id),
        rest.len() == 0 || rest[0] == '/' || rest[0] == '?' || rest[0] == '#',
    ensures
        before(before(before(id + rest, '/'), '?'), '#') == id,
{
    assert(is_free_of(id, '/') && is_free_of(id, '?') && is_free_of(id, '#')) by {
        assert forall|i: int| 0 <= i < id.len() implies id[i] != '/' && id[i] != '?' && id[i]
            != '#' by {
            assert(is_id_char(id[i]));
        }
    }
    lemma_before_delimiter(id, rest);
}

/// What stands before a character that the first part of a text does not hold.
proof fn lemma_before_behind(head: Seq<char>, tail: Seq<char>, c: char)
    requires
        is_free_of(head, c),
    ensures
        before(head + tail, c) == head + before(tail, c),
{
    let all = head + tail;
    let n = find_char(tail, c);
    lemma_find_char(tail, c);
    assert forall|j: int| 0 <= j < head.len() + n implies all[j] != c by {
        if j < head.len() {
            assert(all[j] == head[j]);
        } else {
            assert(all[j] == tail[j - head.len()]);
        }
    }
    lemma_find_char_is(all, c, head.len() + n);
    assert(before(all, c) =~= head + before(tail, c));
}

/// What stands before a character starts as the text does, unless that character comes first.
proof fn lemma_before_first(s: Seq<char>, c: char)
    ensures
        before(s, c).len() == 0 <==> s.len() == 0 || s[0] == c,
        before(s, c).len() > 0 ==> before(s, c)[0] == s[0],
{
    lemma_find_char(s, c);
}

/// A request is only ever served from the extension that the host name of the request belongs to,
/// whatever its path and its referer say.
pub proof fn law_host_and_extension_agree(
    platform: Platform,
    host: Seq<char>,
    path: Seq<char>,
    referer: Option<Seq<char>>,
)
    requires
        host_path(platform, host, path, referer) is Ok,
    ensures
        request_path(host_path(platform, host, path, referer)->Ok_0) is Ok,
        host_of(served_id(platform, host, path, referer)) == host,
        valid_ext_id(served_id(platform, host, path, referer)),
{
    if path_host(path) == Some(host) {
        law_accepted_request_is_safe(path);
    } else {
        let text = referer->0;
        let (id, _, _) = referer_claim(platform, text, parsed_uri_path(text))->0;
        law_accepted_request_is_safe(trim_start(parsed_uri_path(text)->0, '/'));
        law_id_in_front_names_the_extension(id, path);
    }
}

/// What an encoded segment is made of may stand in the path of a URI.
proof fn lemma_segment_char_in_path(c: char)
    requires
        is_segment_char(c),
    ensures
        is_path_char(c),
{
}

/// The URL of a file that can be asked for, with a query behind it or without, is the URL of a page
/// of its extension, as long as it is not too long for a URI.
pub proof fn law_entry_url_is_a_page(
    platform: Platform,
    id: Seq<char>,
    rel: Seq<char>,
    query: Seq<char>,
)
    requires
        valid_ext_id(id),
        request_path(entry_path(id, rel)) is Ok,
        is_query(query),
        entry_url_of(platform, id, rel).len() + query.len() < 0xffff,
    ensures
        is_page_referer(
            platform,
            entry_url_of(platform, id, rel) + query,
            id,
            entry_path(id, rel),
            query,
        ),
{
    let page = entry_path(id, rel);
    law_entry_path_is_read_back(id, rel);
    let parts = path_components(rel);
    let pieces = parts.map_values(|part: Seq<char>| encoded(part));
    assert forall|i: int, j: int| 0 <= i < pieces.len() && 0 <= j < pieces[i].len() implies
        is_segment_char(#[trigger] pieces[i][j]) by {
        law_encoded_is_one_segment(parts[i]);
    }
    lemma_joined_chars(pieces);
    law_encoded_is_one_segment(id);
    let tail = encoded_rel_path(rel);
    assert forall|i: int| 0 <= i < page.len() implies is_path_char(#[trigger] page[i]) by {
        let n = encoded(id).len() as int;
        if i < n {
            assert(page[i] == encoded(id)[i]);
            lemma_segment_char_in_path(page[i]);
        } else if i > n {
            assert(page[i] == tail[i - n - 1]);
            if page[i] != '/' {
                lemma_segment_char_in_path(page[i]);
            }
        }
    }
    assert(entry_url_of(platform, id, rel) + query =~= origin_of(platform, id) + seq!['/'] + page
        + query);
}

/// A request for an entry URL, sent to the host of its extension, is served from the path it asks
/// for, whatever its referer.
pub proof fn law_entry_url_is_served(
    platform: Platform,
    id: Seq<char>,
    rel: Seq<char>,
    referer: Option<Seq<char>>,
)
    requires
        valid_ext_id(id),
        request_path(entry_path(id, rel)) is Ok,
    ensures
        host_path(platform, host_of(id), entry_path(id, rel), referer) == Ok::<Seq<char>, u16>(
            entry_path(id, rel),
        ),
        served_id(platform, host_of(id), entry_path(id, rel), referer) == id,
{
    law_entry_path_is_read_back(id, rel);
}

/// What stands before the first of three delimiters, in a text that starts without them.
proof fn lemma_before_delimiter(head: Seq<char>, rest: Seq<char>)
    requires
        is_free_of(head, '/'),
        is_free_of(head, '?'),
        is_free_of(head, '#'),
        rest.len() == 0 || rest[0] == '/' || rest[0] == '?' || rest[0] == '#',
    ensures
        before(before(before(head + rest, '/'), '?'), '#') == head,
{
    lemma_before_behind(head, rest, '/');
    let x = before(rest, '/');
    lemma_before_behind(head, x, '?');
    let y = before(x, '?');
    lemma_before_behind(head, y, '#');
    let z = before(y, '#');
    lemma_before_first(rest, '/');
    lemma_before_first(x, '?');
    lemma_before_first(y, '#');
    assert(z.len() == 0);
    assert(head + z =~= head);
}

/// A row of the character in front is trimmed off.
proof fn lemma_trim_row(row: Seq<char>, s: Seq<char>, c: char)
    requires
        forall|i: int| 0 <= i < row.len() ==> #[trigger] row[i] == c,
        s.len() == 0 || s[0] != c,
    ensures
        trim_start(row + s, c) == s,
    decreases row.len(),
{
    if row.len() == 0 {
        assert(row + s =~= s);
    } else {
        let rest = row.drop_first();
        assert forall|i: int| 0 <= i < rest.len() implies #[trigger] rest[i] == c by {
            assert(rest[i] == row[i + 1]);
        }
        lemma_trim_row(rest, s, c);
        assert((row + s)[0] == row[0]);
        assert((row + s).drop_first() =~= rest + s);
    }
}

/// A referer under the base URL is read up to the first slash, question mark or number sign behind
/// it, with more slashes in front passed over. If that reads as an extension id and the path is
/// accepted, the request is attributed to that extension with the whole path; else to none.
pub proof fn law_referer_under_base_url_is_read(
    platform: Platform,
    raw_path: Seq<char>,
    slashes: Seq<char>,
    raw_id: Seq<char>,
    rest: Seq<char>,
)
    requires
        forall|i: int| 0 <= i < slashes.len() ==> #[trigger] slashes[i] == '/',
        is_free_of(raw_id, '/'),
        is_free_of(raw_id, '?'),
        is_free_of(raw_id, '#'),
        rest.len() == 0 || rest[0] == '/' || rest[0] == '?' || rest[0] == '#',
        raw_id.len() > 0 || rest.len() == 0 || rest[0] != '/',
    ensures
        fallback(platform, raw_path, base_url_of(platform) + slashes + raw_id + rest) == match (
            decoded(raw_id),
            rel_path(raw_path),
        ) {
            (Some(id), Ok(parts)) => if valid_ext_id(id) {
                Some((id, parts))
            } else {
                None
            },
            _ => None,
        },
{
    let base = base_url_of(platform);
    let page = raw_id + rest;
    let referer = base + slashes + raw_id + rest;
    assert(referer.subrange(0, base.len() as int) =~= base);
    assert(referer.skip(base.len() as int) =~= slashes + page);
    if raw_id.len() > 0 {
        assert(page[0] == raw_id[0]);
    }
    lemma_trim_row(slashes, page, '/');
    lemma_before_delimiter(raw_id, rest);
}

/// A request whose path names an extension, sent to the host of that extension, is served from that
/// path, whatever its referer.
pub proof fn law_own_path_is_served(
    platform: Platform,
    path: Seq<char>,
    referer: Option<Seq<char>>,
)
    requires
        request_path(path) is Ok,
    ensures
        host_path(platform, host_of(request_path(path)->Ok_0.0), path, referer) == Ok::<
            Seq<char>,
            u16,
        >(path),
        served_id(platform, host_of(request_path(path)->Ok_0.0), path, referer) == request_path(
            path,
        )->Ok_0.0,
        path_host(path) == Some(host_of(request_path(path)->Ok_0.0)),
{
}

/// A request whose path does not name the extension of its host is served only if it has a referer
/// that is a URI, under the origin of the extension that its path names, and that extension is the
/// one of the host. Then it is served from its whole path in that extension, or refused as that path
/// is. All else is forbidden.
pub proof fn law_other_paths_need_a_referer(
    platform: Platform,
    host: Seq<char>,
    path: Seq<char>,
    referer: Seq<char>,
)
    ensures
        (request_path(path) is Ok ==> host_of(request_path(path)->Ok_0.0) != host) ==> {
            &&& host_path(platform, host, path, None) == Err::<Seq<char>, u16>(403)
            &&& host_path(platform, host, path, Some(referer)) == match parsed_uri_path(referer) {
                None => Err::<Seq<char>, u16>(403),
                Some(uri_path) => match request_path(trim_start(uri_path, '/')) {
                    Err(_) => Err(403),
                    Ok((id, _)) => if host == host_of(id) && starts_with(
                        referer,
                        origin_of(platform, id) + seq!['/'],
                    ) {
                        match rel_path(path) {
                            Ok(_) => Ok(id + seq!['/'] + path),
                            Err(status) => Err(status),
                        }
                    } else {
                        Err(403)
                    },
                },
            }
        },
{
}

/// The id that a request is served from is the one that the path it is served from names, and there
/// is none for a request that is refused.
pub proof fn law_served_id_is_named_by_the_path(
    platform: Platform,
    host: Seq<char>,
    path: Seq<char>,
    referer: Option<Seq<char>>,
)
    ensures
        match host_path(platform, host, path, referer) {
            Ok(full) => request_path(full) is Ok && served_id(platform, host, path, referer)
                == request_path(full)->Ok_0.0,
            Err(_) => served_id(platform, host, path, referer).len() == 0,
        },
{
    if host_path(platform, host, path, referer) is Ok {
        law_host_and_extension_agree(platform, host, path, referer);
    }
}

/// A claim is of use only for the host of the extension that is claimed, and only from under its
/// origin; and the host that the path itself calls for comes first.
pub proof fn law_decisions(
    host: Seq<char>,
    path: Seq<char>,
    own_host: Option<Seq<char>>,
    claim: Option<(Seq<char>, Seq<char>, bool)>,
    id: Seq<char>,
    other: Seq<char>,
    same: bool,
)
    ensures
        decided_path(host, path, Some(host), claim) == Ok::<Seq<char>, u16>(path),
        own_host != Some(host) ==> {
            &&& decided_path(host, path, own_host, None) == Err::<Seq<char>, u16>(403)
            &&& decided_path(host, path, own_host, Some((id, host, false))) == Err::<Seq<char>, u16>(
                403,
            )
            &&& decided_path(host, path, own_host, Some((id, host, true))) == match rel_path(path) {
                Ok(_) => Ok::<Seq<char>, u16>(id + seq!['/'] + path),
                Err(status) => Err(status),
            }
            &&& other != host ==> decided_path(host, path, own_host, Some((id, other, same))) == Err::<
                Seq<char>,
                u16,
            >(403)
        },
{
}

/// A referer claims the extension that its path as a URI names, with the host name of that
/// extension, and rightly so if it starts with the origin of the extension and a slash.
pub proof fn law_claims(platform: Platform, referer: Seq<char>, uri_path: Seq<char>)
    ensures
        referer_claim(platform, referer, None) is None,
        referer_claim(platform, referer, Some(uri_path)) == match request_path(
            trim_start(uri_path, '/'),
        ) {
            Ok((id, _)) => Some(
                (id, host_of(id), starts_with(referer, origin_of(platform, id) + seq!['/'])),
            ),
            Err(_) => None,
        },
{
}

/// What the functions of this module take and return is seen in full.
pub proof fn law_attributions_are_seen_in_full(
    id: String,
    parts: Vec<String>,
    status: u16,
    claim: Claim,
    text: &str,
)
    ensures
        attribution_view(Some((id, parts))) == Some((id@, texts(parts@))),
        attribution_view(None) is None,
        path_view(Ok(id)) == Ok::<Seq<char>, u16>(id@),
        path_view(Err(status)) == Err::<Seq<char>, u16>(status),
        claim@ == (claim.id@, claim.host@, claim.same_origin),
        option_view(Some(text)) == Some(text@),
        option_view(None) is None,
{
}

} // verus!
