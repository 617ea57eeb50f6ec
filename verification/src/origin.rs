//! Extension ids, and the origin that each extension's content has to itself.

use sha2::{Digest, Sha256};
use vstd::prelude::*;
use vstd::utf8::encode_utf8;

use crate::percent::encode_segment;
use crate::percent::encoded;
use crate::percent::is_reserved;
use crate::percent::is_segment_char;
use crate::percent::law_encoded_is_one_segment;
use crate::percent::law_encoded_length;
use crate::percent::law_plain_text_is_written_as_it_is;
use crate::percent::lemma_plain_encoded;
use crate::text::chars_of;
use crate::text::contains;
use crate::text::find_char;
use crate::text::is_free_of;
use crate::text::join;
use crate::text::join_text;
use crate::text::law_split_of_two;
use crate::text::lemma_find_char;
use crate::text::lemma_split_joined;
use crate::text::lemma_split_single;
use crate::text::occurs_at;
use crate::text::replace;
use crate::text::replace_text;
use crate::text::split;
use crate::text::split_text;
use crate::text::texts;

verus! {

/// Where the content is shown. The web view decides how the URL of a custom scheme is written.
#[derive(Clone, Copy, PartialEq, Eq, Debug, Structural)]
pub enum Platform {
    Windows,
    Android,
    Other,
}

/// The characters of an extension id.
pub open spec fn is_id_char(c: char) -> bool {
    'a' <= c <= 'z' || 'A' <= c <= 'Z' || '0' <= c <= '9' || c == '.' || c == '_' || c == '-'
}

/// The shape of an extension id, a reversed domain name: one to 128 characters out of
/// `[A-Za-z0-9._-]`, with no dot in front (that would be a hidden directory) and no two dots in a
/// row. All of them are ASCII, so the length is the same in bytes.
pub open spec fn valid_ext_id(id: Seq<char>) -> bool {
    &&& 1 <= id.len() <= 128
    &&& id[0] != '.'
    &&& forall|i: int, j: int|
        0 <= i && j == i + 1 && j < id.len() ==> !(#[trigger] id[i] == '.' && #[trigger] id[j] == '.')
    &&& forall|i: int| 0 <= i < id.len() ==> is_id_char(#[trigger] id[i])
}

/// Whether a text has the shape of an extension id.
pub fn is_valid_ext_id(id: &str) -> (r: bool)
    ensures
        r == valid_ext_id(id@),
{
    let v = chars_of(id);
    if v.len() == 0 || v.len() > 128 || v[0] == '.' {
        return false;
    }
    let mut i: usize = 0;
    while i < v.len()
        invariant
            i <= v@.len(),
            forall|k: int, j: int|
                0 <= k && j == k + 1 && j < i ==> !(#[trigger] v@[k] == '.' && #[trigger] v@[j]
                    == '.'),
            forall|k: int| 0 <= k < i ==> is_id_char(#[trigger] v@[k]),
            id@ == v@,
        decreases v@.len() - i,
    {
        let c = v[i];
        if !(('a' <= c && c <= 'z') || ('A' <= c && c <= 'Z') || ('0' <= c && c <= '9') || c == '.'
            || c == '_' || c == '-') {
            return false;
        }
        if i > 0 && c == '.' && v[i - 1] == '.' {
            assert(id@[i - 1] == '.' && id@[i as int] == '.');
            return false;
        }
        i = i + 1;
    }
    true
}

/// What SHA-256 makes of some bytes.
pub uninterp spec fn sha256_digest(data: Seq<u8>) -> Seq<u8>;

/// `sha2::Sha256::digest` gives the SHA-256 digest of the bytes, which is 32 bytes long.
#[verifier::external_body]
fn sha256(data: &[u8]) -> (digest: Vec<u8>)
    ensures
        digest@ == sha256_digest(data@),
        digest@.len() == 32,
{
    Sha256::digest(data).to_vec()
}

/// The lower-case hexadecimal digit for a value below sixteen.
pub open spec fn lower_hex_digit(n: int) -> char {
    if n < 10 {
        (n + '0' as int) as char
    } else {
        (n - 10 + 'a' as int) as char
    }
}

/// Bytes written with two lower-case hexadecimal digits each.
pub open spec fn hex(bytes: Seq<u8>) -> Seq<char> {
    Seq::new(
        2 * bytes.len(),
        |i: int|
            if i % 2 == 0 {
                lower_hex_digit(bytes[i / 2] as int / 16)
            } else {
                lower_hex_digit(bytes[i / 2] as int % 16)
            },
    )
}

/// The host name for an extension whose id has the given digest: the first sixteen bytes of the
/// digest say which extension it is.
pub open spec fn digest_host(digest: Seq<u8>) -> Seq<char> {
    "e-"@ + hex(digest.take(16)) + ".localhost"@
}

/// The host name that only the extension `id` has.
pub open spec fn host_of(id: Seq<char>) -> Seq<char> {
    digest_host(sha256_digest(encode_utf8(id)))
}

/// What stands before the host name in an origin.
pub open spec fn origin_prefix(platform: Platform) -> Seq<char> {
    match platform {
        Platform::Windows | Platform::Android => "http://xhub-ext."@,
        Platform::Other => "xhub-ext://"@,
    }
}

/// The origin of the content of extension `id`.
pub open spec fn origin_of(platform: Platform, id: Seq<char>) -> Seq<char> {
    origin_prefix(platform) + host_of(id)
}

/// The length of an origin, which depends on the platform alone.
pub open spec fn origin_len(platform: Platform) -> nat {
    match platform {
        Platform::Windows | Platform::Android => 60,
        Platform::Other => 55,
    }
}

/// The parts of a relative path that count: between slashes or backslashes, without those that are
/// empty or a single dot.
pub open spec fn path_components(rel: Seq<char>) -> Seq<Seq<char>> {
    split(replace(rel, '\\', '/'), '/').filter(|part: Seq<char>| is_component(part))
}

/// Whether a part of a relative path counts.
pub open spec fn is_component(part: Seq<char>) -> bool {
    part.len() > 0 && part != seq!['.']
}

/// A relative path with each of its parts encoded.
pub open spec fn encoded_rel_path(rel: Seq<char>) -> Seq<char> {
    join(path_components(rel).map_values(|part: Seq<char>| encoded(part)), '/')
}

/// The request path of the file `rel` of extension `id`.
pub open spec fn entry_path(id: Seq<char>, rel: Seq<char>) -> Seq<char> {
    encoded(id) + seq!['/'] + encoded_rel_path(rel)
}

/// The URL of the file `rel` of extension `id`.
pub open spec fn entry_url_of(platform: Platform, id: Seq<char>, rel: Seq<char>) -> Seq<char> {
    origin_of(platform, id) + seq!['/'] + entry_path(id, rel)
}

/// The URL prefix of the protocol as a whole.
pub open spec fn base_url_of(platform: Platform) -> Seq<char> {
    match platform {
        Platform::Windows => "http://xhub-ext.localhost/"@,
        Platform::Android | Platform::Other => "xhub-ext://localhost/"@,
    }
}

/// The URL prefix of the protocol: WebView2 writes a custom scheme as `http://<scheme>.localhost/`,
/// other web views as `<scheme>://localhost/`.
pub fn base_url(platform: Platform) -> (r: &'static str)
    ensures
        r@ == base_url_of(platform),
{
    match platform {
        Platform::Windows => "http://xhub-ext.localhost/",
        Platform::Android | Platform::Other => "xhub-ext://localhost/",
    }
}

/// The lower-case hexadecimal digit for a value below sixteen.
fn hex_digit(n: u8) -> (c: char)
    requires
        n < 16,
    ensures
        c == lower_hex_digit(n as int),
{
    if n < 10 {
        (n + 48) as char
    } else {
        (n + 87) as char
    }
}

/// The host name for an extension whose id has the given digest.
pub fn host_of_digest(digest: &[u8]) -> (host: String)
    requires
        digest@.len() >= 16,
    ensures
        host@ == digest_host(digest@),
        host@.len() == 44,
{
    proof {
        reveal_strlit("e-");
        reveal_strlit(".localhost");
        assert("e-"@.len() == 2 && ".localhost"@.len() == 10);
    }
    let mut host = String::new();
    host.append("e-");
    let mut i: usize = 0;
    while i < 16
        invariant
            i <= 16 <= digest@.len(),
            host@ =~= "e-"@ + hex(digest@.take(i as int)),
        decreases 16 - i,
    {
        host.push(hex_digit(digest[i] / 16));
        host.push(hex_digit(digest[i] % 16));
        i = i + 1;
    }
    host.append(".localhost");
    host
}

/// The host name that only the extension `id` has. It depends on the id alone, and all host names
/// are equally long.
pub fn content_host(id: &str) -> (host: String)
    ensures
        host@ == host_of(id@),
        host@.len() == 44,
{
    let digest = sha256(id.as_bytes());
    host_of_digest(digest.as_slice())
}

/// The origin of the content of extension `id`: a host of its own, so that no two extensions share
/// one and none shares it with the host application.
pub fn origin(platform: Platform, id: &str) -> (r: String)
    ensures
        r@ == origin_of(platform, id@),
        r@.len() == origin_len(platform),
{
    proof {
        reveal_strlit("http://xhub-ext.");
        reveal_strlit("xhub-ext://");
        assert("http://xhub-ext."@.len() == 16 && "xhub-ext://"@.len() == 11);
    }
    let mut r = String::new();
    match platform {
        Platform::Windows | Platform::Android => {
            r.append("http://xhub-ext.");
        },
        Platform::Other => {
            r.append("xhub-ext://");
        },
    }
    let host = content_host(id);
    r.append(host.as_str());
    r
}

/// Writes a relative path into a URL: part by part, without empty parts and single dots.
pub fn encode_rel_path(rel: &str) -> (r: String)
    ensures
        r@ == encoded_rel_path(rel@),
{
    let slashed = replace_text(rel, '\\', '/');
    let pieces = split_text(slashed.as_str(), '/');
    let mut parts: Vec<String> = Vec::new();
    let mut i: usize = 0;
    let ghost all = texts(pieces@);
    let ghost counts = |part: Seq<char>| is_component(part);
    let ghost enc = |part: Seq<char>| encoded(part);
    while i < pieces.len()
        invariant
            i <= pieces@.len(),
            all == texts(pieces@),
            counts == (|part: Seq<char>| is_component(part)),
            enc == (|part: Seq<char>| encoded(part)),
            texts(parts@) =~= all.take(i as int).filter(counts).map_values(enc),
        decreases pieces@.len() - i,
    {
        let piece = pieces[i].as_str();
        proof {
            reveal_strlit(".");
            assert("."@ =~= seq!['.']);
            assert(all[i as int] == piece@);
            assert(all.take(i + 1).drop_last() =~= all.take(i as int));
            assert(all.take(i + 1).last() == piece@);
            reveal(Seq::filter);
        }
        let ghost done = all.take(i as int).filter(counts);
        let ghost before = texts(parts@);
        if !piece.is_empty() && !(*piece == *".") {
            parts.push(encode_segment(piece));
            assert(counts(piece@));
            assert(all.take(i + 1).filter(counts) == done.push(piece@));
            assert(texts(parts@) =~= before.push(encoded(piece@)));
        } else {
            assert(!counts(piece@));
            assert(all.take(i + 1).filter(counts) == done);
        }
        i = i + 1;
    }
    assert(all.take(i as int) =~= all);
    join_text(&parts, '/')
}

/// The URL under which a web view loads the file `rel` of extension `id`. A manifest gives `rel` as
/// a path like `./module/index.html`.
pub fn entry_url(platform: Platform, id: &str, rel: &str) -> (url: String)
    ensures
        url@ == entry_url_of(platform, id@, rel@),
        url@.len() == origin_len(platform) + 2 + encoded(id@).len() + encoded_rel_path(rel@).len(),
        url@.len() <= origin_len(platform) + 2 + 12 * (id@.len() + rel@.len()),
{
    proof {
        law_encoded_length(id@);
        law_encoded_rel_path_length(rel@);
    }
    let path = encode_rel_path(rel);
    let mut url = origin(platform, id);
    url.push('/');
    let segment = encode_segment(id);
    url.append(segment.as_str());
    url.push('/');
    url.append(path.as_str());
    assert(url@ =~= entry_url_of(platform, id@, rel@));
    url
}

/// The length of all pieces, counting a separator behind each.
spec fn total_len(pieces: Seq<Seq<char>>) -> nat
    decreases pieces.len(),
{
    if pieces.len() == 0 {
        0
    } else {
        total_len(pieces.drop_last()) + pieces.last().len() + 1
    }
}

/// The first piece counts as the last one does.
proof fn lemma_total_len_first(pieces: Seq<Seq<char>>)
    requires
        pieces.len() > 0,
    ensures
        total_len(pieces) == pieces[0].len() + 1 + total_len(pieces.drop_first()),
    decreases pieces.len(),
{
    let rest = pieces.drop_first();
    if pieces.len() > 1 {
        lemma_total_len_first(pieces.drop_last());
        assert(pieces.drop_last().drop_first() =~= rest.drop_last());
        assert(pieces.drop_last()[0] == pieces[0]);
        assert(rest.last() == pieces.last());
    } else {
        assert(pieces.drop_last() =~= rest);
        assert(total_len(rest) == 0);
    }
}

/// Splitting a text loses nothing of its length.
proof fn lemma_split_len(s: Seq<char>, sep: char)
    ensures
        total_len(split(s, sep)) == s.len() + 1,
    decreases s.len(),
{
    lemma_find_char(s, sep);
    let i = find_char(s, sep);
    let pieces = split(s, sep);
    lemma_total_len_first(pieces);
    if i < s.len() {
        let rest = s.skip(i + 1);
        lemma_split_len(rest, sep);
        assert(pieces.drop_first() =~= split(rest, sep));
    } else {
        assert(pieces.drop_first() =~= Seq::<Seq<char>>::empty());
    }
}

/// Joined pieces have a separator less than they have pieces.
proof fn lemma_join_len(pieces: Seq<Seq<char>>, sep: char)
    ensures
        pieces.len() > 0 ==> join(pieces, sep).len() + 1 == total_len(pieces),
    decreases pieces.len(),
{
    if pieces.len() > 0 {
        lemma_total_len_first(pieces);
        lemma_join_len(pieces.drop_first(), sep);
        if pieces.len() == 1 {
            assert(pieces.drop_first() =~= Seq::<Seq<char>>::empty());
        }
    }
}

/// The parts that count are no longer than all of them, and each becomes at most twelve times as
/// long.
proof fn lemma_encoded_parts_len(pieces: Seq<Seq<char>>)
    ensures
        ({
            let parts = pieces.filter(|part: Seq<char>| is_component(part));
            let written = parts.map_values(|part: Seq<char>| encoded(part));
            total_len(written) + 11 * parts.len() <= 12 * total_len(pieces)
        }),
    decreases pieces.len(),
{
    reveal(Seq::filter);
    let counts = |part: Seq<char>| is_component(part);
    let enc = |part: Seq<char>| encoded(part);
    let parts = pieces.filter(counts);
    if pieces.len() > 0 {
        let front = pieces.drop_last();
        lemma_encoded_parts_len(front);
        let last = pieces.last();
        law_encoded_length(last);
        if counts(last) {
            assert(parts == front.filter(counts).push(last));
            let written = parts.map_values(enc);
            assert(written.drop_last() =~= front.filter(counts).map_values(enc));
            assert(written.last() == encoded(last));
        }
    } else {
        assert(parts.map_values(enc) =~= Seq::<Seq<char>>::empty());
    }
}

/// A relative path is at most twelve times as long in a URL.
pub proof fn law_encoded_rel_path_length(rel: Seq<char>)
    ensures
        encoded_rel_path(rel).len() <= 12 * rel.len(),
{
    let pieces = split(replace(rel, '\\', '/'), '/');
    let parts = path_components(rel);
    lemma_split_len(replace(rel, '\\', '/'), '/');
    lemma_encoded_parts_len(pieces);
    lemma_join_len(parts.map_values(|part: Seq<char>| encoded(part)), '/');
}

/// An id is written into a URL as it is.
pub proof fn law_id_is_written_as_it_is(id: Seq<char>)
    requires
        valid_ext_id(id),
    ensures
        encoded(id) == id,
{
    assert forall|i: int| 0 <= i < id.len() implies '\0' <= #[trigger] id[i] <= '\u{7f}'
        && !is_reserved(id[i] as u8) by {
        let c = id[i];
        assert(is_id_char(c));
    }
    lemma_plain_encoded(id);
}

/// Different bytes are written differently.
proof fn lemma_hex_injective(a: Seq<u8>, b: Seq<u8>)
    requires
        hex(a) == hex(b),
    ensures
        a == b,
{
    assert(hex(a).len() == 2 * a.len() && hex(b).len() == 2 * b.len());
    assert forall|i: int| 0 <= i < a.len() implies a[i] == b[i] by {
        let (x, y) = (a[i], b[i]);
        let (k, l) = (2 * i, 2 * i + 1);
        assert(k % 2 == 0 && l % 2 == 1 && k / 2 == i && l / 2 == i);
        assert(hex(a)[k] == lower_hex_digit(x as int / 16));
        assert(hex(b)[k] == lower_hex_digit(y as int / 16));
        assert(hex(a)[l] == lower_hex_digit(x as int % 16));
        assert(hex(b)[l] == lower_hex_digit(y as int % 16));
        assert(x as int / 16 == y as int / 16);
        assert(x as int % 16 == y as int % 16);
    }
    assert(a =~= b);
}

/// Two extensions share a host name only if the first sixteen bytes of the digests of their ids are
/// the same.
pub proof fn law_host_tells_extensions_apart(a: Seq<char>, b: Seq<char>)
    ensures
        host_of(a) == host_of(b) <==> sha256_digest(encode_utf8(a)).take(16) == sha256_digest(
            encode_utf8(b),
        ).take(16),
{
    let (x, y) = (sha256_digest(encode_utf8(a)).take(16), sha256_digest(encode_utf8(b)).take(16));
    if host_of(a) == host_of(b) {
        let (n, m) = ("e-"@.len() as int, ".localhost"@.len() as int);
        assert(hex(x) =~= host_of(a).subrange(n, host_of(a).len() - m));
        assert(hex(y) =~= host_of(b).subrange(n, host_of(b).len() - m));
        lemma_hex_injective(x, y);
    }
}

/// Two extensions share an origin only if they share a host name, on every platform.
pub proof fn law_origin_tells_extensions_apart(platform: Platform, a: Seq<char>, b: Seq<char>)
    ensures
        origin_of(platform, a) == origin_of(platform, b) <==> host_of(a) == host_of(b),
{
    if origin_of(platform, a) == origin_of(platform, b) {
        let n = origin_prefix(platform).len() as int;
        assert(host_of(a) =~= origin_of(platform, a).skip(n));
        assert(host_of(b) =~= origin_of(platform, b).skip(n));
    }
}

/// A text is an extension id exactly if it has one to 128 characters, each of them a letter or digit
/// of ASCII, a dot, an underscore or a hyphen, and neither starts with a dot nor contains two in a
/// row.
pub proof fn law_ids_are_told_by_their_shape(id: Seq<char>)
    ensures
        valid_ext_id(id) <==> {
            &&& 1 <= id.len() <= 128
            &&& id[0] != '.'
            &&& !contains(id, seq!['.', '.'])
            &&& forall|i: int|
                0 <= i < id.len() ==> ('a' <= #[trigger] id[i] <= 'z' || 'A' <= id[i] <= 'Z' || '0'
                    <= id[i] <= '9' || id[i] == '.' || id[i] == '_' || id[i] == '-')
        },
{
    let two = seq!['.', '.'];
    if contains(id, two) {
        let i = choose|i: int| occurs_at(id, two, i);
        let found = id.subrange(i, i + 2);
        assert(found[0] == '.' && found[1] == '.');
        assert(id[i] == '.' && id[i + 1] == '.');
    } else {
        assert forall|i: int, j: int| 0 <= i && j == i + 1 && j < id.len() implies !(#[trigger] id[i]
            == '.' && #[trigger] id[j] == '.') by {
            if id[i] == '.' && id[j] == '.' {
                assert(id.subrange(i, i + 2) =~= two);
                assert(occurs_at(id, two, i));
            }
        }
    }
    if valid_ext_id(id) {
        assert forall|i: int| 0 <= i < id.len() implies ('a' <= #[trigger] id[i] <= 'z' || 'A'
            <= id[i] <= 'Z' || '0' <= id[i] <= '9' || id[i] == '.' || id[i] == '_' || id[i] == '-') by {
            assert(is_id_char(id[i]));
        }
    }
}


/// A host name is `e-`, the first sixteen bytes of the digest, each as two lower-case hexadecimal
/// digits, and `.localhost`; and the digest is that of the id.
pub proof fn law_host_spells_out_the_digest(digest: Seq<u8>, id: Seq<char>)
    requires
        digest.len() >= 16,
    ensures
        host_of(id) == digest_host(sha256_digest(encode_utf8(id))),
        digest_host(digest).len() == 44,
        digest_host(digest).take(2) == seq!['e', '-'],
        digest_host(digest).skip(34) == seq!['.', 'l', 'o', 'c', 'a', 'l', 'h', 'o', 's', 't'],
        forall|k: int|
            0 <= k < 16 ==> {
                let byte = #[trigger] digest[k];
                let (high, low) = (digest_host(digest)[2 + 2 * k], digest_host(digest)[3 + 2 * k]);
                &&& '0' <= high <= '9' || 'a' <= high <= 'f'
                &&& '0' <= low <= '9' || 'a' <= low <= 'f'
                &&& byte as int == 16 * (if high <= '9' {
                    high as int - '0' as int
                } else {
                    high as int - 'a' as int + 10
                }) + (if low <= '9' {
                    low as int - '0' as int
                } else {
                    low as int - 'a' as int + 10
                })
            },
{
    reveal_strlit("e-");
    reveal_strlit(".localhost");
    let key = digest.take(16);
    let host = digest_host(digest);
    assert("e-"@.len() == 2 && ".localhost"@.len() == 10 && hex(key).len() == 32);
    assert(host.take(2) =~= seq!['e', '-']);
    assert(host.skip(34) =~= seq!['.', 'l', 'o', 'c', 'a', 'l', 'h', 'o', 's', 't']);
    assert forall|k: int| 0 <= k < 16 implies {
        let byte = #[trigger] digest[k];
        let (high, low) = (host[2 + 2 * k], host[3 + 2 * k]);
        &&& '0' <= high <= '9' || 'a' <= high <= 'f'
        &&& '0' <= low <= '9' || 'a' <= low <= 'f'
        &&& byte as int == 16 * (if high <= '9' {
            high as int - '0' as int
        } else {
            high as int - 'a' as int + 10
        }) + (if low <= '9' {
            low as int - '0' as int
        } else {
            low as int - 'a' as int + 10
        })
    } by {
        let byte = digest[k];
        let (i, j) = (2 * k, 2 * k + 1);
        assert(i % 2 == 0 && j % 2 == 1 && i / 2 == k && j / 2 == k);
        assert(key[k] == byte);
        assert(host[2 + 2 * k] == hex(key)[i]);
        assert(host[3 + 2 * k] == hex(key)[j]);
        assert(0 <= byte as int / 16 < 16 && 0 <= byte as int % 16 < 16);
    }
}

/// An origin is the host name behind the scheme, as the platform writes it.
pub proof fn law_origin_is_scheme_and_host(id: Seq<char>)
    ensures
        origin_of(Platform::Windows, id) == "http://xhub-ext."@ + host_of(id),
        origin_of(Platform::Android, id) == "http://xhub-ext."@ + host_of(id),
        origin_of(Platform::Other, id) == "xhub-ext://"@ + host_of(id),
        base_url_of(Platform::Windows) == "http://xhub-ext.localhost/"@,
        base_url_of(Platform::Android) == "xhub-ext://localhost/"@,
        base_url_of(Platform::Other) == "xhub-ext://localhost/"@,
{
}

/// A path of two paths, with a slash or a backslash between them, has the parts of the first and
/// then those of the second.
pub proof fn law_components_of_two(a: Seq<char>, b: Seq<char>)
    ensures
        path_components(a + seq!['/'] + b) == path_components(a) + path_components(b),
        path_components(a + seq!['\\'] + b) == path_components(a) + path_components(b),
{
    let counts = |part: Seq<char>| is_component(part);
    let (x, y) = (replace(a, '\\', '/'), replace(b, '\\', '/'));
    assert(replace(a + seq!['/'] + b, '\\', '/') =~= x + seq!['/'] + y);
    assert(replace(a + seq!['\\'] + b, '\\', '/') =~= x + seq!['/'] + y);
    law_split_of_two(x, y, '/');
    Seq::filter_distributes_over_add(split(x, '/'), split(y, '/'), counts);
}

/// A text without slashes and backslashes is a part of a path by itself, unless it is empty or a
/// single dot.
pub proof fn law_component_of_one(part: Seq<char>)
    requires
        is_free_of(part, '/'),
        is_free_of(part, '\\'),
    ensures
        path_components(part) == if part.len() == 0 || part == seq!['.'] {
            seq![]
        } else {
            seq![part]
        },
{
    assert(replace(part, '\\', '/') =~= part);
    lemma_split_single(part, '/');
    reveal(Seq::filter);
    let counts = |p: Seq<char>| is_component(p);
    assert(seq![part].drop_last() =~= Seq::<Seq<char>>::empty());
    reveal_with_fuel(Seq::filter, 2);
    assert(seq![part].filter(counts) =~= if counts(part) {
        seq![part]
    } else {
        seq![]
    });
}

/// No part of a path is lost, and none is added: parts that are joined with slashes come out again,
/// however many there are.
pub proof fn law_no_component_is_lost(parts: Seq<Seq<char>>)
    requires
        forall|i: int|
            0 <= i < parts.len() ==> (#[trigger] parts[i]).len() > 0 && parts[i] != seq!['.']
                && is_free_of(parts[i], '/') && is_free_of(parts[i], '\\'),
    ensures
        path_components(join(parts, '/')) == parts,
    decreases parts.len(),
{
    if parts.len() == 0 {
        law_component_of_one(Seq::<char>::empty());
        assert(path_components(join(parts, '/')) =~= parts);
    } else if parts.len() == 1 {
        law_component_of_one(parts[0]);
        assert(path_components(join(parts, '/')) =~= parts);
    } else {
        let rest = parts.drop_first();
        assert forall|i: int| 0 <= i < rest.len() implies (#[trigger] rest[i]).len() > 0 && rest[i]
            != seq!['.'] && is_free_of(rest[i], '/') && is_free_of(rest[i], '\\') by {
            assert(rest[i] == parts[i + 1]);
        }
        law_no_component_is_lost(rest);
        law_component_of_one(parts[0]);
        law_components_of_two(parts[0], join(rest, '/'));
        assert(path_components(join(parts, '/')) =~= parts);
    }
}

/// In a URL each part of a relative path is one segment, encoded by itself, in the same order.
pub proof fn law_each_component_is_a_segment(rel: Seq<char>)
    ensures
        path_components(rel).len() == 0 ==> encoded_rel_path(rel).len() == 0,
        path_components(rel).len() > 0 ==> {
            let segments = split(encoded_rel_path(rel), '/');
            &&& segments.len() == path_components(rel).len()
            &&& forall|k: int|
                0 <= k < segments.len() ==> #[trigger] segments[k] == encoded(
                    path_components(rel)[k],
                )
        },
{
    let parts = path_components(rel);
    let pieces = parts.map_values(|part: Seq<char>| encoded(part));
    if parts.len() > 0 {
        assert forall|i: int| 0 <= i < pieces.len() implies is_free_of(#[trigger] pieces[i], '/') by {
            law_encoded_is_one_segment(parts[i]);
            assert forall|j: int| 0 <= j < pieces[i].len() implies #[trigger] pieces[i][j] != '/' by {
                assert(is_segment_char(encoded(parts[i])[j]));
            }
        }
        lemma_split_joined(pieces, '/');
    }
}

/// An entry URL is made of the origin, the encoded id and the encoded relative path, with slashes
/// between them, whatever the id.
pub proof fn law_entry_url_is_made_of_three_parts(platform: Platform, id: Seq<char>, rel: Seq<char>)
    ensures
        entry_path(id, rel) == encoded(id) + seq!['/'] + encoded_rel_path(rel),
        entry_url_of(platform, id, rel) == origin_of(platform, id) + seq!['/'] + encoded(id) + seq![
            '/',
        ] + encoded_rel_path(rel),
{
    assert(entry_url_of(platform, id, rel) =~= origin_of(platform, id) + seq!['/'] + encoded(id)
        + seq!['/'] + encoded_rel_path(rel));
}

/// An entry URL is the origin, the id and the relative path, with slashes between them: where the
/// parts of the path are plain names, the very same text.
pub proof fn law_entry_url_spells_out_the_file(
    platform: Platform,
    id: Seq<char>,
    rel: Seq<char>,
    parts: Seq<Seq<char>>,
)
    requires
        valid_ext_id(id),
        forall|i: int|
            0 <= i < parts.len() ==> (#[trigger] parts[i]).len() > 0 && parts[i] != seq!['.'],
        forall|i: int, j: int|
            0 <= i < parts.len() && 0 <= j < parts[i].len() ==> ('a' <= #[trigger] parts[i][j] <= 'z'
                || 'A' <= parts[i][j] <= 'Z' || '0' <= parts[i][j] <= '9' || parts[i][j] == '-'
                || parts[i][j] == '_' || parts[i][j] == '.' || parts[i][j] == '~'),
    ensures
        entry_path(id, rel) == id + seq!['/'] + encoded_rel_path(rel),
        entry_url_of(platform, id, rel) == origin_of(platform, id) + seq!['/'] + id + seq!['/']
            + encoded_rel_path(rel),
        entry_url_of(platform, id, join(parts, '/')) == origin_of(platform, id) + seq!['/'] + id
            + seq!['/'] + join(parts, '/'),
{
    law_id_is_written_as_it_is(id);
    assert(entry_url_of(platform, id, rel) =~= origin_of(platform, id) + seq!['/'] + id + seq!['/']
        + encoded_rel_path(rel));
    assert forall|i: int| 0 <= i < parts.len() implies (#[trigger] parts[i]).len() > 0 && parts[i]
        != seq!['.'] && is_free_of(parts[i], '/') && is_free_of(parts[i], '\\') && encoded(parts[i])
        == parts[i] by {
        let part = parts[i];
        assert forall|j: int| 0 <= j < part.len() implies ('a' <= #[trigger] part[j] <= 'z' || 'A'
            <= part[j] <= 'Z' || '0' <= part[j] <= '9' || part[j] == '-' || part[j] == '_'
            || part[j] == '.' || part[j] == '~') by {
            assert(part[j] == parts[i][j]);
        }
        law_plain_text_is_written_as_it_is(part);
    }
    law_no_component_is_lost(parts);
    assert(parts.map_values(|part: Seq<char>| encoded(part)) =~= parts);
    assert(entry_url_of(platform, id, join(parts, '/')) =~= origin_of(platform, id) + seq!['/'] + id
        + seq!['/'] + join(parts, '/'));
}

} // verus!
