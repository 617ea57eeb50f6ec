//! Request paths: which extension a request is for, and which of its files.
//!
//! A request path is `<extension id>/<relative path>`, each part of it percent encoded. Everything
//! that could lead out of the extension's directory is refused here: a part that is `..` once
//! decoded, and slashes, backslashes, colons (Windows drives and NTFS streams), NUL and control
//! characters inside a part.

use vstd::prelude::*;

use crate::origin::encoded_rel_path;
use crate::origin::entry_path;
use crate::origin::is_component;
use crate::origin::is_id_char;
use crate::origin::is_valid_ext_id;
use crate::origin::law_id_is_written_as_it_is;
use crate::origin::path_components;
use crate::origin::valid_ext_id;
use crate::percent::decode_segment;
use crate::percent::decoded;
use crate::percent::encoded;
use crate::percent::is_segment_char;
use crate::percent::law_decode_encoded;
use crate::percent::law_encoded_is_one_segment;
use crate::percent::law_text_without_escapes_is_read_as_it_is;
use crate::text::chars_of;
use crate::text::is_free_of;
use crate::text::join;
use crate::text::law_split_of_two;
use crate::text::lemma_split_first;
use crate::text::lemma_split_joined;
use crate::text::lemma_split_single;
use crate::text::replace;
use crate::text::split;
use crate::text::split_text;
use crate::text::texts;

verus! {

/// The request cannot be understood or asks for something that is not allowed in a path.
pub const BAD_REQUEST: u16 = 400;

/// The request is not allowed.
pub const FORBIDDEN: u16 = 403;

/// There is nothing to be had under the path.
pub const NOT_FOUND: u16 = 404;

/// The control characters: Unicode's general category Cc.
pub open spec fn is_control_char(c: char) -> bool {
    c <= '\u{1f}' || '\u{7f}' <= c <= '\u{9f}'
}

/// The characters that must not stand in a part of a path.
pub open spec fn is_unsafe_char(c: char) -> bool {
    c == '\\' || c == '/' || c == ':' || is_control_char(c)
}

/// Whether a part of a path could lead out of the directory or name something else than a file in
/// it.
pub open spec fn unsafe_part(part: Seq<char>) -> bool {
    ||| part == seq!['.', '.']
    ||| exists|i: int| 0 <= i < part.len() && is_unsafe_char(#[trigger] part[i])
}

/// Whether a piece between two slashes may stand in a path: it is empty, or it decodes to a single
/// dot or to a part that is not unsafe.
pub open spec fn piece_allowed(piece: Seq<char>) -> bool {
    piece.len() == 0 || match decoded(piece) {
        Some(part) => part == seq!['.'] || !unsafe_part(part),
        None => false,
    }
}

/// The part that a piece adds to the path: none if it is empty or a single dot.
pub open spec fn piece_part(piece: Seq<char>) -> Option<Seq<char>> {
    if piece.len() == 0 || decoded(piece) == Some(seq!['.']) {
        None
    } else {
        decoded(piece)
    }
}

/// The path that some pieces make up. One piece that is not allowed spoils it, and so does it when
/// nothing is left: directories are not listed.
pub open spec fn pieces_path(pieces: Seq<Seq<char>>) -> Result<Seq<Seq<char>>, u16> {
    let parts = pieces.filter_map(|piece: Seq<char>| piece_part(piece));
    if !(forall|i: int| 0 <= i < pieces.len() ==> piece_allowed(#[trigger] pieces[i])) {
        Err(BAD_REQUEST)
    } else if parts.len() == 0 {
        Err(NOT_FOUND)
    } else {
        Ok(parts)
    }
}

/// The parts of a relative path.
pub open spec fn rel_path(raw: Seq<char>) -> Result<Seq<Seq<char>>, u16> {
    pieces_path(split(raw, '/'))
}

/// The extension id and the parts of the relative path of a request path.
pub open spec fn request_path(raw: Seq<char>) -> Result<(Seq<char>, Seq<Seq<char>>), u16> {
    let pieces = split(raw, '/');
    if pieces[0].len() == 0 {
        Err(NOT_FOUND)
    } else {
        match decoded(pieces[0]) {
            Some(id) if valid_ext_id(id) => match pieces_path(pieces.drop_first()) {
                Ok(parts) => Ok((id, parts)),
                Err(status) => Err(status),
            },
            _ => Err(BAD_REQUEST),
        }
    }
}

/// The view of a parsed relative path.
pub open spec fn rel_view(r: Result<Vec<String>, u16>) -> Result<Seq<Seq<char>>, u16> {
    match r {
        Ok(parts) => Ok(texts(parts@)),
        Err(status) => Err(status),
    }
}

/// The view of a parsed request path.
pub open spec fn request_view(r: Result<(String, Vec<String>), u16>) -> Result<
    (Seq<char>, Seq<Seq<char>>),
    u16,
> {
    match r {
        Ok((id, parts)) => Ok((id@, texts(parts@))),
        Err(status) => Err(status),
    }
}

/// Whether a part of a path could lead out of the directory or name something else than a file in
/// it: `..`, or a backslash, a slash, a colon or a control character in it.
pub fn is_unsafe_segment(part: &str) -> (r: bool)
    ensures
        r == unsafe_part(part@),
{
    proof {
        reveal_strlit("..");
        assert(".."@ =~= seq!['.', '.']);
    }
    if *part == *".." {
        return true;
    }
    let v = chars_of(part);
    let mut i: usize = 0;
    while i < v.len()
        invariant
            i <= v@.len(),
            v@ == part@,
            forall|j: int| 0 <= j < i ==> !is_unsafe_char(#[trigger] part@[j]),
        decreases v@.len() - i,
    {
        let c = v[i];
        if c == '\\' || c == '/' || c == ':' || c <= '\u{1f}' || ('\u{7f}' <= c && c <= '\u{9f}') {
            assert(is_unsafe_char(part@[i as int]));
            return true;
        }
        i = i + 1;
    }
    false
}

/// Reads the pieces from position `from` on as a path.
fn parse_pieces(pieces: &Vec<String>, from: usize) -> (r: Result<Vec<String>, u16>)
    requires
        from <= pieces@.len(),
    ensures
        rel_view(r) == pieces_path(texts(pieces@).skip(from as int)),
{
    let ghost all = texts(pieces@).skip(from as int);
    let ghost part_of = |piece: Seq<char>| piece_part(piece);
    let mut parts: Vec<String> = Vec::new();
    let mut i: usize = from;
    proof {
        reveal_strlit(".");
        assert("."@ =~= seq!['.']);
    }
    while i < pieces.len()
        invariant
            from <= i <= pieces@.len(),
            "."@ == seq!['.'],
            all == texts(pieces@).skip(from as int),
            part_of == (|piece: Seq<char>| piece_part(piece)),
            forall|j: int| 0 <= j < i - from ==> piece_allowed(#[trigger] all[j]),
            texts(parts@) =~= all.take(i - from).filter_map(part_of),
        decreases pieces@.len() - i,
    {
        let piece = pieces[i].as_str();
        let ghost before = texts(parts@);
        proof {
            assert(all[i - from] == piece@);
            assert(all.take(i - from + 1).drop_last() =~= all.take(i - from));
            assert(all.take(i - from + 1).last() == piece@);
        }
        if !piece.is_empty() {
            match decode_segment(piece) {
                None => {
                    assert(!piece_allowed(all[i - from]));
                    return Err(BAD_REQUEST);
                },
                Some(part) => {
                    if !(*part.as_str() == *".") {
                        if is_unsafe_segment(part.as_str()) {
                            assert(!piece_allowed(all[i - from]));
                            return Err(BAD_REQUEST);
                        }
                        let ghost part_view = part@;
                        parts.push(part);
                        assert(part_of(piece@) == Some(part_view));
                        assert(texts(parts@) =~= before + seq![part_view]);
                    } else {
                        assert(part_of(piece@) is None);
                    }
                },
            }
        } else {
            assert(part_of(piece@) is None);
        }
        i = i + 1;
    }
    assert(all.take(i - from) =~= all);
    if parts.len() == 0 {
        assert(texts(parts@).len() == 0);
        return Err(NOT_FOUND);
    }
    Ok(parts)
}

/// Reads a relative path: its parts, decoded, or the status to answer with. Empty parts and single
/// dots are passed over. The status is [`BAD_REQUEST`] if a part is unsafe or is not UTF-8, and
/// [`NOT_FOUND`] if nothing is left.
pub fn parse_rel_path(raw_path: &str) -> (r: Result<Vec<String>, u16>)
    ensures
        rel_view(r) == rel_path(raw_path@),
{
    let pieces = split_text(raw_path, '/');
    assert(texts(pieces@).skip(0) =~= texts(pieces@));
    parse_pieces(&pieces, 0)
}

/// Reads a request path: the extension id and the parts of the relative path, or the status to
/// answer with. That is [`NOT_FOUND`] if the path names no extension or nothing in it, and
/// [`BAD_REQUEST`] if the first part has not the shape of an extension id or another is unsafe.
pub fn parse_request_path(raw_path: &str) -> (r: Result<(String, Vec<String>), u16>)
    ensures
        request_view(r) == request_path(raw_path@),
{
    let pieces = split_text(raw_path, '/');
    assert(texts(pieces@)[0] == pieces@[0]@);
    if pieces[0].as_str().is_empty() {
        return Err(NOT_FOUND);
    }
    match decode_segment(pieces[0].as_str()) {
        None => Err(BAD_REQUEST),
        Some(id) => {
            if !is_valid_ext_id(id.as_str()) {
                return Err(BAD_REQUEST);
            }
            assert(texts(pieces@).skip(1) =~= texts(pieces@).drop_first());
            match parse_pieces(&pieces, 1) {
                Ok(parts) => Ok((id, parts)),
                Err(status) => Err(status),
            }
        },
    }
}

/// Whether a part is the name of something directly inside a directory: not empty, neither `.` nor
/// `..`, and free of separators, colons and control characters.
pub open spec fn safe_part(part: Seq<char>) -> bool {
    part.len() > 0 && part != seq!['.'] && !unsafe_part(part)
}

/// A piece that is not empty does not decode to the empty text.
proof fn lemma_decoded_nonempty(piece: Seq<char>)
    requires
        piece.len() > 0,
    ensures
        decoded(piece) != Some(Seq::<char>::empty()),
{
    vstd::utf8::encode_utf8_first_scalar(piece);
    let bytes = crate::percent::decode_bytes(vstd::utf8::encode_utf8(piece));
    assert(bytes.len() > 0);
}

/// The parts that allowed pieces add are safe.
proof fn lemma_parts_safe(pieces: Seq<Seq<char>>)
    requires
        forall|i: int| 0 <= i < pieces.len() ==> piece_allowed(#[trigger] pieces[i]),
    ensures
        ({
            let parts = pieces.filter_map(|piece: Seq<char>| piece_part(piece));
            forall|i: int| 0 <= i < parts.len() ==> safe_part(#[trigger] parts[i])
        }),
    decreases pieces.len(),
{
    if pieces.len() > 0 {
        let part_of = |piece: Seq<char>| piece_part(piece);
        let front = pieces.drop_last();
        assert forall|i: int| 0 <= i < front.len() implies piece_allowed(#[trigger] front[i]) by {
            assert(front[i] == pieces[i]);
        }
        lemma_parts_safe(front);
        let last = pieces.last();
        assert(piece_allowed(pieces[pieces.len() - 1]));
        if last.len() > 0 {
            lemma_decoded_nonempty(last);
        }
        let parts = pieces.filter_map(part_of);
        let front_parts = front.filter_map(part_of);
        assert forall|i: int| 0 <= i < parts.len() implies safe_part(#[trigger] parts[i]) by {
            if i < front_parts.len() {
                assert(parts[i] == front_parts[i]);
            } else {
                assert(parts[i] == part_of(last)->0);
                if parts[i].len() == 0 {
                    assert(parts[i] =~= Seq::<char>::empty());
                }
            }
        }
    }
}

/// A path that is accepted cannot lead out of the directory that it is joined to: it has at least
/// one part, and each part names something directly inside what the parts before it lead to.
pub proof fn law_accepted_rel_path_is_safe(raw: Seq<char>)
    requires
        rel_path(raw) is Ok,
    ensures
        rel_path(raw)->Ok_0.len() > 0,
        forall|i: int| 0 <= i < rel_path(raw)->Ok_0.len() ==> safe_part(
            #[trigger] rel_path(raw)->Ok_0[i],
        ),
{
    lemma_parts_safe(split(raw, '/'));
}

/// A request path that is accepted names an extension by an id of the proper shape, and something
/// inside its directory by parts that cannot lead out of it.
pub proof fn law_accepted_request_is_safe(raw: Seq<char>)
    requires
        request_path(raw) is Ok,
    ensures
        valid_ext_id(request_path(raw)->Ok_0.0),
        request_path(raw)->Ok_0.1.len() > 0,
        forall|i: int| 0 <= i < request_path(raw)->Ok_0.1.len() ==> safe_part(
            #[trigger] request_path(raw)->Ok_0.1[i],
        ),
{
    lemma_parts_safe(split(raw, '/').drop_first());
}

/// An id in front of a path makes it a request path for that extension.
pub proof fn law_id_in_front_names_the_extension(id: Seq<char>, path: Seq<char>)
    requires
        valid_ext_id(id),
    ensures
        request_path(id + seq!['/'] + path) == match rel_path(path) {
            Ok(parts) => Ok((id, parts)),
            Err(status) => Err(status),
        },
{
    law_id_is_written_as_it_is(id);
    law_decode_encoded(id);
    assert(is_free_of(id, '/')) by {
        assert forall|i: int| 0 <= i < id.len() implies #[trigger] id[i] != '/' by {
            assert(is_id_char(id[i]));
        }
    }
    lemma_split_first(id, path, '/');
    let pieces = split(id + seq!['/'] + path, '/');
    assert(pieces.drop_first() =~= split(path, '/'));
}

/// The parts that encoded parts add are the parts.
proof fn lemma_encoded_parts(parts: Seq<Seq<char>>)
    requires
        forall|i: int| 0 <= i < parts.len() ==> is_component(#[trigger] parts[i]),
    ensures
        parts.map_values(|part: Seq<char>| encoded(part)).filter_map(
            |piece: Seq<char>| piece_part(piece),
        ) == parts,
    decreases parts.len(),
{
    let enc = |part: Seq<char>| encoded(part);
    let part_of = |piece: Seq<char>| piece_part(piece);
    let pieces = parts.map_values(enc);
    if parts.len() > 0 {
        let front = parts.drop_last();
        assert forall|i: int| 0 <= i < front.len() implies is_component(#[trigger] front[i]) by {
            assert(front[i] == parts[i]);
        }
        lemma_encoded_parts(front);
        assert(pieces.drop_last() =~= front.map_values(enc));
        let last = parts[parts.len() - 1];
        assert(is_component(last));
        assert(pieces.last() == encoded(last));
        law_decode_encoded(last);
        law_encoded_is_one_segment(last);
        assert(part_of(pieces.last()) == Some(last));
        assert(front + seq![last] =~= parts);
    } else {
        assert(pieces.filter_map(part_of) =~= parts);
    }
}

/// The path that an entry URL is written with is read back as the same extension and the same parts
/// of the relative path. It is refused if one of those parts is unsafe, and names nothing if there
/// are none.
pub proof fn law_entry_path_is_read_back(id: Seq<char>, rel: Seq<char>)
    requires
        valid_ext_id(id),
    ensures
        ({
            let parts = path_components(rel);
            request_path(entry_path(id, rel)) == if exists|i: int|
                0 <= i < parts.len() && unsafe_part(#[trigger] parts[i]) {
                Err(BAD_REQUEST)
            } else if parts.len() == 0 {
                Err(NOT_FOUND)
            } else {
                Ok((id, parts))
            }
        }),
{
    let enc = |part: Seq<char>| encoded(part);
    let parts = path_components(rel);
    let pieces = parts.map_values(enc);
    law_id_is_written_as_it_is(id);
    law_id_in_front_names_the_extension(id, encoded_rel_path(rel));
    assert forall|i: int| 0 <= i < parts.len() implies is_component(#[trigger] parts[i]) by {
        split(replace(rel, '\\', '/'), '/').lemma_filter_pred(
            |part: Seq<char>| is_component(part),
            i,
        );
    }
    assert forall|i: int| 0 <= i < pieces.len() implies is_free_of(#[trigger] pieces[i], '/')
        && piece_allowed(pieces[i]) == !unsafe_part(parts[i]) by {
        let part = parts[i];
        assert(is_component(part));
        law_decode_encoded(part);
        law_encoded_is_one_segment(part);
        assert forall|j: int| 0 <= j < pieces[i].len() implies #[trigger] pieces[i][j] != '/' by {
            assert(is_segment_char(encoded(part)[j]));
        }
    }
    lemma_encoded_parts(parts);
    if parts.len() == 0 {
        let empty = Seq::<char>::empty();
        assert(encoded_rel_path(rel) =~= empty);
        lemma_split_single(empty, '/');
        let none = seq![empty];
        assert(none.drop_last() =~= Seq::<Seq<char>>::empty());
        assert(none.filter_map(|piece: Seq<char>| piece_part(piece)) =~= Seq::<Seq<char>>::empty()) by {
            reveal_with_fuel(Seq::filter_map, 2);
        }
        assert(forall|i: int| 0 <= i < none.len() ==> piece_allowed(#[trigger] none[i]));
    } else {
        lemma_split_joined(pieces, '/');
        if exists|i: int| 0 <= i < parts.len() && unsafe_part(#[trigger] parts[i]) {
            let k = choose|i: int| 0 <= i < parts.len() && unsafe_part(#[trigger] parts[i]);
            assert(!piece_allowed(pieces[k]));
        }
    }
}

/// A part is unsafe exactly if it is `..` or holds a backslash, a slash, a colon or a control
/// character, of which there are those below the space and those from DEL to U+009F. Every other
/// part is safe.
pub proof fn law_only_dots_separators_and_controls_are_unsafe(part: Seq<char>, i: int)
    ensures
        part == seq!['.', '.'] ==> unsafe_part(part),
        0 <= i < part.len() && (part[i] == '\\' || part[i] == '/' || part[i] == ':' || (
        part[i] as int) < 0x20 || 0x7f <= part[i] as int <= 0x9f) ==> unsafe_part(part),
        part != seq!['.', '.'] && (forall|j: int|
            0 <= j < part.len() ==> #[trigger] part[j] != '\\' && part[j] != '/' && part[j] != ':' && (
            0x20 <= part[j] as int <= 0x7e || 0xa0 <= part[j] as int)) ==> !unsafe_part(part),
{
    if 0 <= i < part.len() && (part[i] == '\\' || part[i] == '/' || part[i] == ':' || (
    part[i] as int) < 0x20 || 0x7f <= part[i] as int <= 0x9f) {
        assert(is_unsafe_char(part[i]));
    }
}

/// The parts that two rows of pieces add are those of the first and then those of the second.
proof fn lemma_parts_of_two(a: Seq<Seq<char>>, b: Seq<Seq<char>>)
    ensures
        ({
            let part_of = |piece: Seq<char>| piece_part(piece);
            (a + b).filter_map(part_of) == a.filter_map(part_of) + b.filter_map(part_of)
        }),
    decreases b.len(),
{
    let part_of = |piece: Seq<char>| piece_part(piece);
    if b.len() == 0 {
        assert(a + b =~= a);
        assert(a.filter_map(part_of) + b.filter_map(part_of) =~= a.filter_map(part_of));
    } else {
        lemma_parts_of_two(a, b.drop_last());
        assert((a + b).drop_last() =~= a + b.drop_last());
        assert((a + b).last() == b.last());
        assert((a + b).filter_map(part_of) =~= a.filter_map(part_of) + b.filter_map(part_of));
    }
}

/// A path of two paths, with a slash between them, has the parts of the first and then those of the
/// second. It is a bad request if one of them is, and one that names nothing adds nothing.
pub proof fn law_rel_path_of_two(a: Seq<char>, b: Seq<char>)
    ensures
        rel_path(a + seq!['/'] + b) == match (rel_path(a), rel_path(b)) {
            (Ok(x), Ok(y)) => Ok::<Seq<Seq<char>>, u16>(x + y),
            (Ok(x), Err(status)) => if status == 404 {
                Ok(x)
            } else {
                Err(400)
            },
            (Err(status), Ok(y)) => if status == 404 {
                Ok(y)
            } else {
                Err(400)
            },
            (Err(s), Err(t)) => if s == 404 && t == 404 {
                Err(404)
            } else {
                Err(400)
            },
        },
{
    law_split_of_two(a, b, '/');
    let (x, y) = (split(a, '/'), split(b, '/'));
    let all = x + y;
    let part_of = |piece: Seq<char>| piece_part(piece);
    lemma_parts_of_two(x, y);
    let fx = forall|i: int| 0 <= i < x.len() ==> piece_allowed(#[trigger] x[i]);
    let fy = forall|i: int| 0 <= i < y.len() ==> piece_allowed(#[trigger] y[i]);
    let fall = forall|i: int| 0 <= i < all.len() ==> piece_allowed(#[trigger] all[i]);
    assert(fall == (fx && fy)) by {
        if fx && fy {
            assert forall|i: int| 0 <= i < all.len() implies piece_allowed(#[trigger] all[i]) by {
                if i < x.len() {
                    assert(all[i] == x[i]);
                } else {
                    assert(all[i] == y[i - x.len()]);
                }
            }
        }
        if fall {
            assert forall|i: int| 0 <= i < x.len() implies piece_allowed(#[trigger] x[i]) by {
                assert(all[i] == x[i]);
            }
            assert forall|i: int| 0 <= i < y.len() implies piece_allowed(#[trigger] y[i]) by {
                assert(all[i + x.len()] == y[i]);
            }
        }
    }
    let (px, py) = (x.filter_map(part_of), y.filter_map(part_of));
    assert(all.filter_map(part_of) == px + py);
    if px.len() == 0 {
        assert(px + py =~= py);
    }
    if py.len() == 0 {
        assert(px + py =~= px);
    }
}

/// A path without slashes names what it reads as, if that is the name of something directly inside
/// a directory. It names nothing if it is empty or reads as a single dot, and is a bad request
/// otherwise.
pub proof fn law_rel_path_of_one(piece: Seq<char>)
    requires
        is_free_of(piece, '/'),
    ensures
        rel_path(piece) == match decoded(piece) {
            None => Err::<Seq<Seq<char>>, u16>(400),
            Some(part) => if part.len() == 0 || part == seq!['.'] {
                Err(404)
            } else if unsafe_part(part) {
                Err(400)
            } else {
                Ok(seq![part])
            },
        },
{
    lemma_split_single(piece, '/');
    let part_of = |p: Seq<char>| piece_part(p);
    let one = seq![piece];
    assert(one.drop_last() =~= Seq::<Seq<char>>::empty());
    reveal_with_fuel(Seq::filter_map, 2);
    assert(one[0] == piece);
    if piece.len() > 0 {
        lemma_decoded_nonempty(piece);
        if decoded(piece) is Some && decoded(piece)->0.len() == 0 {
            assert(decoded(piece)->0 =~= Seq::<char>::empty());
        }
        if decoded(piece) is Some && decoded(piece)->0 != seq!['.'] {
            assert(one.filter_map(part_of) =~= seq![decoded(piece)->0]);
        } else if decoded(piece) is Some {
            assert(one.filter_map(part_of) =~= Seq::<Seq<char>>::empty());
        }
    } else {
        assert(piece =~= Seq::<char>::empty());
        law_text_without_escapes_is_read_as_it_is(piece);
        assert(one.filter_map(part_of) =~= Seq::<Seq<char>>::empty());
    }
    if !(forall|i: int| 0 <= i < one.len() ==> piece_allowed(#[trigger] one[i])) {
        assert(!piece_allowed(piece));
    } else {
        assert(piece_allowed(one[0]));
    }
}

/// What stands before the first slash of a request path names the extension, and what stands behind
/// it is the relative path. The request names no extension if nothing stands before the slash, and
/// is a bad one if that is no id.
pub proof fn law_request_path_of_id_and_rel(head: Seq<char>, tail: Seq<char>)
    requires
        is_free_of(head, '/'),
    ensures
        request_path(head + seq!['/'] + tail) == if head.len() == 0 {
            Err::<(Seq<char>, Seq<Seq<char>>), u16>(404)
        } else {
            match decoded(head) {
                None => Err(400),
                Some(id) => if !valid_ext_id(id) {
                    Err(400)
                } else {
                    match rel_path(tail) {
                        Ok(parts) => Ok((id, parts)),
                        Err(status) => Err(status),
                    }
                },
            }
        },
        request_path(head) == if head.len() == 0 {
            Err::<(Seq<char>, Seq<Seq<char>>), u16>(404)
        } else {
            match decoded(head) {
                None => Err(400),
                Some(id) => if valid_ext_id(id) {
                    Err(404)
                } else {
                    Err(400)
                },
            }
        },
{
    lemma_split_first(head, tail, '/');
    let pieces = split(head + seq!['/'] + tail, '/');
    assert(pieces.drop_first() =~= split(tail, '/'));
    lemma_split_single(head, '/');
    let none = seq![head].drop_first();
    assert(none =~= Seq::<Seq<char>>::empty());
    assert(none.filter_map(|piece: Seq<char>| piece_part(piece)).len() == 0);
    assert(forall|i: int| 0 <= i < none.len() ==> piece_allowed(#[trigger] none[i]));
}

/// Names of files and directories, however many there are, come back as they are, written plainly
/// or encoded. A name may hold any characters but the unsafe ones; written plainly, it must not hold
/// `%` either.
pub proof fn law_safe_names_come_back(id: Seq<char>, parts: Seq<Seq<char>>)
    requires
        valid_ext_id(id),
        parts.len() > 0,
        forall|i: int|
            0 <= i < parts.len() ==> (#[trigger] parts[i]).len() > 0 && parts[i] != seq!['.']
                && parts[i] != seq!['.', '.'],
        forall|i: int, j: int|
            0 <= i < parts.len() && 0 <= j < parts[i].len() ==> #[trigger] parts[i][j] != '\\'
                && parts[i][j] != '/' && parts[i][j] != ':' && (0x20 <= parts[i][j] as int <= 0x7e
                || 0xa0 <= parts[i][j] as int),
    ensures
        rel_path(join(parts.map_values(|part: Seq<char>| encoded(part)), '/')) == Ok::<
            Seq<Seq<char>>,
            u16,
        >(parts),
        request_path(
            id + seq!['/'] + join(parts.map_values(|part: Seq<char>| encoded(part)), '/'),
        ) == Ok::<(Seq<char>, Seq<Seq<char>>), u16>((id, parts)),
        (forall|i: int, j: int|
            0 <= i < parts.len() && 0 <= j < parts[i].len() ==> #[trigger] parts[i][j] != '%') ==> {
            &&& rel_path(join(parts, '/')) == Ok::<Seq<Seq<char>>, u16>(parts)
            &&& request_path(id + seq!['/'] + join(parts, '/')) == Ok::<
                (Seq<char>, Seq<Seq<char>>),
                u16,
            >((id, parts))
        },
{
    let written = parts.map_values(|part: Seq<char>| encoded(part));
    assert forall|i: int| 0 <= i < parts.len() implies safe_part(#[trigger] parts[i]) by {
        let part = parts[i];
        assert forall|j: int| 0 <= j < part.len() implies #[trigger] part[j] != '\\' && part[j]
            != '/' && part[j] != ':' && (0x20 <= part[j] as int <= 0x7e || 0xa0 <= part[j] as int) by {
            assert(part[j] == parts[i][j]);
        }
        law_only_dots_separators_and_controls_are_unsafe(part, 0);
    }
    assert forall|i: int| 0 <= i < parts.len() implies #[trigger] decoded(written[i]) == Some(
        parts[i],
    ) && is_free_of(written[i], '/') by {
        law_decode_encoded(parts[i]);
        law_encoded_is_one_segment(parts[i]);
        assert forall|j: int| 0 <= j < written[i].len() implies #[trigger] written[i][j] != '/' by {
            assert(is_segment_char(encoded(parts[i])[j]));
        }
    }
    lemma_read_parts(written, parts);
    law_id_in_front_names_the_extension(id, join(written, '/'));
    if forall|i: int, j: int|
        0 <= i < parts.len() && 0 <= j < parts[i].len() ==> #[trigger] parts[i][j] != '%' {
        assert forall|i: int| 0 <= i < parts.len() implies #[trigger] decoded(parts[i]) == Some(
            parts[i],
        ) && is_free_of(parts[i], '/') by {
            let part = parts[i];
            assert forall|j: int| 0 <= j < part.len() implies #[trigger] part[j] != '%' && part[j]
                != '/' by {
                assert(part[j] == parts[i][j]);
            }
            law_text_without_escapes_is_read_as_it_is(part);
        }
        lemma_read_parts(parts, parts);
        law_id_in_front_names_the_extension(id, join(parts, '/'));
    }
}

/// Joined pieces that read as safe parts are read as those parts.
proof fn lemma_read_parts(pieces: Seq<Seq<char>>, parts: Seq<Seq<char>>)
    requires
        pieces.len() == parts.len() > 0,
        forall|i: int| 0 <= i < parts.len() ==> safe_part(#[trigger] parts[i]),
        forall|i: int|
            0 <= i < parts.len() ==> #[trigger] decoded(pieces[i]) == Some(parts[i]) && is_free_of(
                pieces[i],
                '/',
            ),
    ensures
        rel_path(join(pieces, '/')) == Ok::<Seq<Seq<char>>, u16>(parts),
    decreases pieces.len(),
{
    assert(decoded(pieces[0]) == Some(parts[0]));
    assert(safe_part(parts[0]));
    law_rel_path_of_one(pieces[0]);
    if pieces.len() == 1 {
        assert(seq![parts[0]] =~= parts);
    } else {
        let (rest, names) = (pieces.drop_first(), parts.drop_first());
        assert forall|i: int| 0 <= i < names.len() implies safe_part(#[trigger] names[i]) by {
            assert(names[i] == parts[i + 1]);
        }
        assert forall|i: int| 0 <= i < names.len() implies #[trigger] decoded(rest[i]) == Some(
            names[i],
        ) && is_free_of(rest[i], '/') by {
            assert(decoded(pieces[i + 1]) == Some(parts[i + 1]));
        }
        lemma_read_parts(rest, names);
        law_rel_path_of_two(pieces[0], join(rest, '/'));
        assert(seq![parts[0]] + names =~= parts);
    }
}

/// What a parser returns is seen in full: the parts one by one, the id, and the status.
pub proof fn law_parsed_paths_are_seen_in_full(parts: Vec<String>, id: String, status: u16)
    ensures
        rel_view(Ok(parts)) == Ok::<Seq<Seq<char>>, u16>(texts(parts@)),
        rel_view(Err(status)) == Err::<Seq<Seq<char>>, u16>(status),
        request_view(Ok((id, parts))) == Ok::<(Seq<char>, Seq<Seq<char>>), u16>(
            (id@, texts(parts@)),
        ),
        request_view(Err(status)) == Err::<(Seq<char>, Seq<Seq<char>>), u16>(status),
{
}

} // verus!
