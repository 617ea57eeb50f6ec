//! The files of an extension: which of them may be shown at all, and as what.

use vstd::prelude::*;

use crate::origin::is_component;
use crate::text::chars_of;
use crate::text::is_free_of;
use crate::text::law_split_of_two;
use crate::text::lemma_split_single;
use crate::text::lower;
use crate::text::lower_text;
use crate::text::split;
use crate::text::split_text;
use crate::text::text_of;
use crate::text::texts;

verus! {

/// The position of the last `c` in `s`, or -1 if there is none.
pub open spec fn find_last(s: Seq<char>, c: char) -> int
    decreases s.len(),
{
    if s.len() == 0 {
        -1
    } else if s.last() == c {
        s.len() - 1
    } else {
        find_last(s.drop_last(), c)
    }
}

/// The name of the file that a path with slashes leads to: its last part, not counting empty parts
/// and single dots. A path that ends in `..`, or has no parts, has none.
pub open spec fn file_name(path: Seq<char>) -> Option<Seq<char>> {
    let parts = split(path, '/').filter(|part: Seq<char>| is_component(part));
    if parts.len() == 0 || parts.last() == seq!['.', '.'] {
        None
    } else {
        Some(parts.last())
    }
}

/// The extension of a file name: what follows its last dot. A name without a dot has none, and
/// neither has one whose only dot stands in front.
pub open spec fn name_extension(name: Seq<char>) -> Option<Seq<char>> {
    if find_last(name, '.') <= 0 {
        None
    } else {
        Some(name.skip(find_last(name, '.') + 1))
    }
}

/// The extension of the file that a path leads to, in small letters; empty if there is none.
pub open spec fn extension(path: Seq<char>) -> Seq<char> {
    match file_name(path) {
        Some(name) => match name_extension(name) {
            Some(ext) => lower(ext),
            None => seq![],
        },
        None => seq![],
    }
}

/// Whether a path leads to a page.
pub open spec fn is_page(path: Seq<char>) -> bool {
    extension(path) == "html"@ || extension(path) == "htm"@
}

/// The media type for a file extension in small letters.
pub open spec fn media_type(ext: Seq<char>) -> Seq<char> {
    if ext == "html"@ || ext == "htm"@ {
        "text/html; charset=utf-8"@
    } else if ext == "js"@ || ext == "mjs"@ || ext == "cjs"@ {
        "text/javascript; charset=utf-8"@
    } else if ext == "css"@ {
        "text/css; charset=utf-8"@
    } else if ext == "json"@ {
        "application/json; charset=utf-8"@
    } else if ext == "svg"@ {
        "image/svg+xml"@
    } else if ext == "png"@ {
        "image/png"@
    } else if ext == "jpg"@ || ext == "jpeg"@ {
        "image/jpeg"@
    } else if ext == "gif"@ {
        "image/gif"@
    } else if ext == "webp"@ {
        "image/webp"@
    } else if ext == "ico"@ {
        "image/x-icon"@
    } else if ext == "woff"@ {
        "font/woff"@
    } else if ext == "woff2"@ {
        "font/woff2"@
    } else if ext == "ttf"@ {
        "font/ttf"@
    } else if ext == "otf"@ {
        "font/otf"@
    } else if ext == "wasm"@ {
        "application/wasm"@
    } else if ext == "txt"@ || ext == "md"@ {
        "text/plain; charset=utf-8"@
    } else if ext == "map"@ {
        "application/json; charset=utf-8"@
    } else {
        "application/octet-stream"@
    }
}

/// The extension of the file that a path leads to, in small letters; empty if there is none.
fn extension_of(path: &str) -> (ext: String)
    ensures
        ext@ == extension(path@),
{
    let pieces = split_text(path, '/');
    let ghost all = texts(pieces@);
    let ghost counts = |part: Seq<char>| is_component(part);
    let mut name: Option<usize> = None;
    let mut i: usize = 0;
    proof {
        reveal_strlit(".");
        assert("."@ =~= seq!['.']);
        reveal_strlit("..");
        assert(".."@ =~= seq!['.', '.']);
        reveal(Seq::filter);
        assert(all.take(0) =~= Seq::<Seq<char>>::empty());
    }
    while i < pieces.len()
        invariant
            i <= pieces@.len(),
            "."@ == seq!['.'],
            all == texts(pieces@),
            counts == (|part: Seq<char>| is_component(part)),
            match name {
                Some(k) => k < i && all.take(i as int).filter(counts).len() > 0 && all.take(
                    i as int,
                ).filter(counts).last() == all[k as int],
                None => all.take(i as int).filter(counts).len() == 0,
            },
        decreases pieces@.len() - i,
    {
        let piece = pieces[i].as_str();
        proof {
            assert(all[i as int] == piece@);
            assert(all.take(i + 1).drop_last() =~= all.take(i as int));
            assert(all.take(i + 1).last() == piece@);
            reveal(Seq::filter);
        }
        if !piece.is_empty() && !(*piece == *".") {
            assert(counts(piece@));
            name = Some(i);
        } else {
            assert(!counts(piece@));
        }
        i = i + 1;
    }
    assert(all.take(i as int) =~= all);
    match name {
        None => String::new(),
        Some(k) => {
            let file = pieces[k].as_str();
            assert(all[k as int] == file@);
            if *file == *".." {
                return String::new();
            }
            let v = chars_of(file);
            let mut n: usize = v.len();
            assert(v@.take(n as int) =~= v@);
            while n > 0 && v[n - 1] != '.'
                invariant
                    n <= v@.len(),
                    find_last(v@.take(n as int), '.') == find_last(v@, '.'),
                decreases n,
            {
                assert(v@.take(n as int).drop_last() =~= v@.take(n - 1));
                n = n - 1;
            }
            if n <= 1 {
                return String::new();
            }
            let ext = text_of(&v, n, v.len());
            assert(ext@ =~= file@.skip(n as int));
            lower_text(ext.as_str())
        },
    }
}

/// Whether a path leads to a page, into which the bridge script goes. The file extension decides,
/// not the media type.
pub fn is_html(path: &str) -> (r: bool)
    ensures
        r == is_page(path@),
{
    let ext = extension_of(path);
    *ext.as_str() == *"html" || *ext.as_str() == *"htm"
}

/// The media type of the file that a path leads to, by its extension, in whatever case that is
/// written. None of the known extensions can be written with a capital outside ASCII.
pub fn mime_for(path: &str) -> (r: &'static str)
    ensures
        r@ == media_type(extension(path@)),
{
    let owned = extension_of(path);
    let ext = owned.as_str();
    if *ext == *"html" || *ext == *"htm" {
        "text/html; charset=utf-8"
    } else if *ext == *"js" || *ext == *"mjs" || *ext == *"cjs" {
        "text/javascript; charset=utf-8"
    } else if *ext == *"css" {
        "text/css; charset=utf-8"
    } else if *ext == *"json" {
        "application/json; charset=utf-8"
    } else if *ext == *"svg" {
        "image/svg+xml"
    } else if *ext == *"png" {
        "image/png"
    } else if *ext == *"jpg" || *ext == *"jpeg" {
        "image/jpeg"
    } else if *ext == *"gif" {
        "image/gif"
    } else if *ext == *"webp" {
        "image/webp"
    } else if *ext == *"ico" {
        "image/x-icon"
    } else if *ext == *"woff" {
        "font/woff"
    } else if *ext == *"woff2" {
        "font/woff2"
    } else if *ext == *"ttf" {
        "font/ttf"
    } else if *ext == *"otf" {
        "font/otf"
    } else if *ext == *"wasm" {
        "application/wasm"
    } else if *ext == *"txt" || *ext == *"md" {
        "text/plain; charset=utf-8"
    } else if *ext == *"map" {
        "application/json; charset=utf-8"
    } else {
        "application/octet-stream"
    }
}

/// The names that belong to an extension's back end, its data and its development, in small
/// letters: hidden files, and some directories.
pub open spec fn is_private_name(name: Seq<char>) -> bool {
    ||| name.len() > 0 && name[0] == '.'
    ||| name == "backend"@
    ||| name == "server"@
    ||| name == "node_modules"@
    ||| name == "data"@
    ||| name == "logs"@
}

/// Whether a path may be shown: none of its parts, in small letters, is private or among the
/// sensitive names.
pub open spec fn is_public_path(parts: Seq<Seq<char>>, sensitive: Seq<Seq<char>>) -> bool {
    forall|i: int|
        0 <= i < parts.len() ==> !is_private_name(lower(#[trigger] parts[i])) && !sensitive.contains(
            lower(parts[i]),
        )
}

/// Whether a text is among some others.
fn is_among(text: &str, others: &[String]) -> (r: bool)
    ensures
        r == texts(others@).contains(text@),
{
    let mut i: usize = 0;
    while i < others.len()
        invariant
            i <= others@.len(),
            forall|j: int| 0 <= j < i ==> texts(others@)[j] != text@,
        decreases others@.len() - i,
    {
        if *others[i].as_str() == *text {
            assert(texts(others@)[i as int] == text@);
            return true;
        }
        i = i + 1;
    }
    false
}

/// The parts of a path in small letters: the names by which it is judged.
pub fn judged_names(parts: &[String]) -> (names: Vec<String>)
    ensures
        texts(names@) == texts(parts@).map_values(|part: Seq<char>| lower(part)),
{
    let mut names: Vec<String> = Vec::new();
    let mut i: usize = 0;
    while i < parts.len()
        invariant
            i <= parts@.len(),
            names@.len() == i,
            forall|j: int| 0 <= j < i ==> #[trigger] names@[j]@ == lower(parts@[j]@),
        decreases parts@.len() - i,
    {
        names.push(lower_text(parts[i].as_str()));
        i = i + 1;
    }
    assert(texts(names@) =~= texts(parts@).map_values(|part: Seq<char>| lower(part)));
    names
}

/// Whether a path may be shown: configuration, credentials, runtime data and development files may
/// not. `sensitive` are those of the [`judged_names`] that must not be in a package.
pub fn public_content_path(parts: &[String], sensitive: &[String]) -> (r: bool)
    ensures
        r == is_public_path(texts(parts@), texts(sensitive@)),
{
    let mut i: usize = 0;
    while i < parts.len()
        invariant
            i <= parts@.len(),
            forall|j: int|
                0 <= j < i ==> !is_private_name(lower(#[trigger] texts(parts@)[j])) && !texts(
                    sensitive@,
                ).contains(lower(texts(parts@)[j])),
        decreases parts@.len() - i,
    {
        let owned = lower_text(parts[i].as_str());
        let name = owned.as_str();
        assert(lower(texts(parts@)[i as int]) == name@);
        let v = chars_of(name);
        if (v.len() > 0 && v[0] == '.') || *name == *"backend" || *name == *"server" || *name
            == *"node_modules" || *name == *"data" || *name == *"logs" {
            return false;
        }
        if is_among(name, sensitive) {
            return false;
        }
        i = i + 1;
    }
    true
}

/// A file is sent as a page exactly if it is treated as one, and a page is always sent with its
/// character set.
pub proof fn law_pages_are_sent_as_pages(path: Seq<char>)
    ensures
        is_page(path) <==> media_type(extension(path)) == "text/html; charset=utf-8"@,
{
    reveal_strlit("text/html; charset=utf-8");
    let page = "text/html; charset=utf-8"@;
    assert(page.len() == 24);
    reveal_strlit("text/javascript; charset=utf-8");
    assert("text/javascript; charset=utf-8"@.len() == 30);
    reveal_strlit("text/css; charset=utf-8");
    assert("text/css; charset=utf-8"@.len() == 23);
    reveal_strlit("application/json; charset=utf-8");
    assert("application/json; charset=utf-8"@.len() == 31);
    reveal_strlit("image/svg+xml");
    assert("image/svg+xml"@.len() == 13);
    reveal_strlit("image/png");
    assert("image/png"@.len() == 9);
    reveal_strlit("image/jpeg");
    assert("image/jpeg"@.len() == 10);
    reveal_strlit("image/gif");
    assert("image/gif"@.len() == 9);
    reveal_strlit("image/webp");
    assert("image/webp"@.len() == 10);
    reveal_strlit("image/x-icon");
    assert("image/x-icon"@.len() == 12);
    reveal_strlit("font/woff");
    assert("font/woff"@.len() == 9);
    reveal_strlit("font/woff2");
    assert("font/woff2"@.len() == 10);
    reveal_strlit("font/ttf");
    assert("font/ttf"@.len() == 8);
    reveal_strlit("font/otf");
    assert("font/otf"@.len() == 8);
    reveal_strlit("application/wasm");
    assert("application/wasm"@.len() == 16);
    reveal_strlit("text/plain; charset=utf-8");
    assert("text/plain; charset=utf-8"@.len() == 25);
    reveal_strlit("application/octet-stream");
    assert("application/octet-stream"@[0] != page[0]);
}

/// It does not matter in which case a path is written: it is shown, or not, as the same path in
/// small letters is.
pub proof fn law_case_does_not_matter(parts: Seq<Seq<char>>, sensitive: Seq<Seq<char>>)
    ensures
        is_public_path(parts.map_values(|part: Seq<char>| lower(part)), sensitive) == is_public_path(
            parts,
            sensitive,
        ),
{
    let small = parts.map_values(|part: Seq<char>| lower(part));
    assert forall|i: int| 0 <= i < parts.len() implies lower(#[trigger] small[i]) == lower(
        parts[i],
    ) by {
        assert(lower(lower(parts[i])) =~= lower(parts[i]));
    }
    if is_public_path(small, sensitive) {
        assert forall|i: int| 0 <= i < parts.len() implies !is_private_name(
            lower(#[trigger] parts[i]),
        ) && !sensitive.contains(lower(parts[i])) by {
            assert(lower(small[i]) == lower(parts[i]));
        }
    }
}

/// What stands behind the last dot of a file name is its extension, and its case does not matter. A
/// name without a dot has none, nor has one whose only dot stands in front.
pub proof fn law_extension_stands_behind_the_last_dot(stem: Seq<char>, ext: Seq<char>)
    requires
        is_free_of(stem, '/'),
        is_free_of(ext, '/'),
        is_free_of(ext, '.'),
    ensures
        stem.len() > 0 ==> extension(stem + seq!['.'] + ext) == lower(ext),
        extension(seq!['.'] + ext) == Seq::<char>::empty(),
        extension(ext) == Seq::<char>::empty(),
{
    let name = stem + seq!['.'] + ext;
    let hidden = seq!['.'] + ext;
    lemma_last_dot(stem, ext);
    lemma_last_dot(seq![], ext);
    lemma_find_last_absent(ext, '.');
    assert(Seq::<char>::empty() + seq!['.'] + ext =~= hidden);
    lemma_file_name_of_one(hidden);
    lemma_file_name_of_one(ext);
    if stem.len() > 0 {
        lemma_file_name_of_one(name);
        assert(name.len() >= 2);
        assert(name.skip(stem.len() as int + 1) =~= ext);
        if name == seq!['.', '.'] {
            assert(name.len() == 2);
            assert(ext =~= Seq::<char>::empty());
            assert(lower(ext) =~= Seq::<char>::empty());
        }
    }
}

/// The position of the last dot.
proof fn lemma_last_dot(stem: Seq<char>, ext: Seq<char>)
    requires
        is_free_of(ext, '.'),
    ensures
        find_last(stem + seq!['.'] + ext, '.') == stem.len(),
    decreases ext.len(),
{
    let name = stem + seq!['.'] + ext;
    if ext.len() > 0 {
        assert(name.last() == ext[ext.len() - 1]);
        assert(name.drop_last() =~= stem + seq!['.'] + ext.drop_last());
        lemma_last_dot(stem, ext.drop_last());
    }
}

proof fn lemma_find_last_absent(s: Seq<char>, c: char)
    requires
        is_free_of(s, c),
    ensures
        find_last(s, c) == -1,
    decreases s.len(),
{
    if s.len() > 0 {
        assert(s[s.len() - 1] != c);
        lemma_find_last_absent(s.drop_last(), c);
    }
}

/// The name of the file that a path without slashes leads to.
proof fn lemma_file_name_of_one(name: Seq<char>)
    requires
        is_free_of(name, '/'),
    ensures
        file_name(name) == if name.len() == 0 || name == seq!['.'] || name == seq!['.', '.'] {
            None
        } else {
            Some(name)
        },
{
    lemma_split_single(name, '/');
    lemma_filter_one(name);
}

/// The directories before the name do not matter: the last name of a path decides, and neither an
/// empty one nor a single dot counts as such.
pub proof fn law_last_name_decides_the_extension(dir: Seq<char>, name: Seq<char>)
    requires
        is_free_of(name, '/'),
    ensures
        extension(dir + seq!['/'] + name) == if name.len() == 0 || name == seq!['.'] {
            extension(dir)
        } else {
            extension(name)
        },
{
    let counts = |part: Seq<char>| is_component(part);
    law_split_of_two(dir, name, '/');
    lemma_file_name_of_one(name);
    lemma_filter_one(name);
    lemma_split_single(name, '/');
    let before = split(dir, '/');
    let all = split(dir + seq!['/'] + name, '/');
    Seq::filter_distributes_over_add(before, seq![name], counts);
    assert(all.filter(counts) == before.filter(counts) + seq![name].filter(counts));
    if is_component(name) {
        assert(seq![name].filter(counts) == seq![name]);
        assert(all.filter(counts).last() == name);
        assert(file_name(dir + seq!['/'] + name) == file_name(name));
    } else {
        assert(seq![name].filter(counts) == Seq::<Seq<char>>::empty());
        assert(all.filter(counts) =~= before.filter(counts));
        assert(file_name(dir + seq!['/'] + name) == file_name(dir));
    }
}

/// A single part, if it counts.
proof fn lemma_filter_one(name: Seq<char>)
    ensures
        seq![name].filter(|part: Seq<char>| is_component(part)) == if is_component(name) {
            seq![name]
        } else {
            Seq::<Seq<char>>::empty()
        },
{
    let counts = |part: Seq<char>| is_component(part);
    reveal_with_fuel(Seq::filter, 2);
    assert(seq![name].drop_last() =~= Seq::<Seq<char>>::empty());
    assert(seq![name].last() == name);
    assert(seq![name].filter(counts) =~= if counts(name) {
        seq![name]
    } else {
        Seq::<Seq<char>>::empty()
    });
}

/// A path leads to a page exactly if its extension is `html` or `htm`.
pub proof fn law_pages_have_one_of_two_extensions(path: Seq<char>)
    ensures
        is_page(path) <==> extension(path) == seq!['h', 't', 'm', 'l'] || extension(path) == seq![
            'h',
            't',
            'm',
        ],
{
    reveal_strlit("html");
    reveal_strlit("htm");
    assert("html"@ =~= seq!['h', 't', 'm', 'l']);
    assert("htm"@ =~= seq!['h', 't', 'm']);
}

/// The media type of each known extension, and the one of all others.
pub proof fn law_media_types(ext: Seq<char>)
    ensures
        ext == "html"@ || ext == "htm"@ ==> media_type(ext) == "text/html; charset=utf-8"@,
        ext == "js"@ || ext == "mjs"@ || ext == "cjs"@
            ==> media_type(ext) == "text/javascript; charset=utf-8"@,
        ext == "css"@ ==> media_type(ext) == "text/css; charset=utf-8"@,
        ext == "json"@ || ext == "map"@ ==> media_type(ext) == "application/json; charset=utf-8"@,
        ext == "svg"@ ==> media_type(ext) == "image/svg+xml"@,
        ext == "png"@ ==> media_type(ext) == "image/png"@,
        ext == "jpg"@ || ext == "jpeg"@ ==> media_type(ext) == "image/jpeg"@,
        ext == "gif"@ ==> media_type(ext) == "image/gif"@,
        ext == "webp"@ ==> media_type(ext) == "image/webp"@,
        ext == "ico"@ ==> media_type(ext) == "image/x-icon"@,
        ext == "woff"@ ==> media_type(ext) == "font/woff"@,
        ext == "woff2"@ ==> media_type(ext) == "font/woff2"@,
        ext == "ttf"@ ==> media_type(ext) == "font/ttf"@,
        ext == "otf"@ ==> media_type(ext) == "font/otf"@,
        ext == "wasm"@ ==> media_type(ext) == "application/wasm"@,
        ext == "txt"@ || ext == "md"@ ==> media_type(ext) == "text/plain; charset=utf-8"@,
        ext != "html"@ && ext != "htm"@ && ext != "js"@ && ext != "mjs"@ && ext != "cjs"@
            && ext != "css"@ && ext != "json"@ && ext != "map"@ && ext != "svg"@ && ext != "png"@
            && ext != "jpg"@ && ext != "jpeg"@ && ext != "gif"@ && ext != "webp"@ && ext != "ico"@
            && ext != "woff"@ && ext != "woff2"@ && ext != "ttf"@ && ext != "otf"@
            && ext != "wasm"@ && ext != "txt"@ && ext != "md"@
            ==> media_type(ext) == "application/octet-stream"@,
{
    reveal_strlit("html");
    assert("html"@.len() == 4 && "html"@[0] == 'h' && "html"@[1] == 't' && "html"@[2] == 'm'
        && "html"@[3] == 'l');
    reveal_strlit("htm");
    assert("htm"@.len() == 3 && "htm"@[0] == 'h' && "htm"@[1] == 't' && "htm"@[2] == 'm');
    reveal_strlit("js");
    assert("js"@.len() == 2 && "js"@[0] == 'j' && "js"@[1] == 's');
    reveal_strlit("mjs");
    assert("mjs"@.len() == 3 && "mjs"@[0] == 'm' && "mjs"@[1] == 'j' && "mjs"@[2] == 's');
    reveal_strlit("cjs");
    assert("cjs"@.len() == 3 && "cjs"@[0] == 'c' && "cjs"@[1] == 'j' && "cjs"@[2] == 's');
    reveal_strlit("css");
    assert("css"@.len() == 3 && "css"@[0] == 'c' && "css"@[1] == 's' && "css"@[2] == 's');
    reveal_strlit("json");
    assert("json"@.len() == 4 && "json"@[0] == 'j' && "json"@[1] == 's' && "json"@[2] == 'o'
        && "json"@[3] == 'n');
    reveal_strlit("map");
    assert("map"@.len() == 3 && "map"@[0] == 'm' && "map"@[1] == 'a' && "map"@[2] == 'p');
    reveal_strlit("svg");
    assert("svg"@.len() == 3 && "svg"@[0] == 's' && "svg"@[1] == 'v' && "svg"@[2] == 'g');
    reveal_strlit("png");
    assert("png"@.len() == 3 && "png"@[0] == 'p' && "png"@[1] == 'n' && "png"@[2] == 'g');
    reveal_strlit("jpg");
    assert("jpg"@.len() == 3 && "jpg"@[0] == 'j' && "jpg"@[1] == 'p' && "jpg"@[2] == 'g');
    reveal_strlit("jpeg");
    assert("jpeg"@.len() == 4 && "jpeg"@[0] == 'j' && "jpeg"@[1] == 'p' && "jpeg"@[2] == 'e'
        && "jpeg"@[3] == 'g');
    reveal_strlit("gif");
    assert("gif"@.len() == 3 && "gif"@[0] == 'g' && "gif"@[1] == 'i' && "gif"@[2] == 'f');
    reveal_strlit("webp");
    assert("webp"@.len() == 4 && "webp"@[0] == 'w' && "webp"@[1] == 'e' && "webp"@[2] == 'b'
        && "webp"@[3] == 'p');
    reveal_strlit("ico");
    assert("ico"@.len() == 3 && "ico"@[0] == 'i' && "ico"@[1] == 'c' && "ico"@[2] == 'o');
    reveal_strlit("woff");
    assert("woff"@.len() == 4 && "woff"@[0] == 'w' && "woff"@[1] == 'o' && "woff"@[2] == 'f'
        && "woff"@[3] == 'f');
    reveal_strlit("woff2");
    assert("woff2"@.len() == 5 && "woff2"@[0] == 'w' && "woff2"@[1] == 'o'
        && "woff2"@[2] == 'f' && "woff2"@[3] == 'f' && "woff2"@[4] == '2');
    reveal_strlit("ttf");
    assert("ttf"@.len() == 3 && "ttf"@[0] == 't' && "ttf"@[1] == 't' && "ttf"@[2] == 'f');
    reveal_strlit("otf");
    assert("otf"@.len() == 3 && "otf"@[0] == 'o' && "otf"@[1] == 't' && "otf"@[2] == 'f');
    reveal_strlit("wasm");
    assert("wasm"@.len() == 4 && "wasm"@[0] == 'w' && "wasm"@[1] == 'a' && "wasm"@[2] == 's'
        && "wasm"@[3] == 'm');
    reveal_strlit("txt");
    assert("txt"@.len() == 3 && "txt"@[0] == 't' && "txt"@[1] == 'x' && "txt"@[2] == 't');
    reveal_strlit("md");
    assert("md"@.len() == 2 && "md"@[0] == 'm' && "md"@[1] == 'd');
}

/// A path is public exactly if none of its names, in small letters, starts with a dot, is one of the
/// five private ones or is sensitive. A name that only starts or ends like one of them is not
/// private.
pub proof fn law_public_paths(parts: Seq<Seq<char>>, sensitive: Seq<Seq<char>>)
    ensures
        is_public_path(parts, sensitive) <==> forall|i: int|
            0 <= i < parts.len() ==> {
                let name = lower(#[trigger] parts[i]);
                &&& name.len() == 0 || name[0] != '.'
                &&& name != "backend"@
                &&& name != "server"@
                &&& name != "node_modules"@
                &&& name != "data"@
                &&& name != "logs"@
                &&& !sensitive.contains(name)
            },
{
    if is_public_path(parts, sensitive) {
        assert forall|i: int| 0 <= i < parts.len() implies {
            let name = lower(#[trigger] parts[i]);
            &&& name.len() == 0 || name[0] != '.'
            &&& name != "backend"@
            &&& name != "server"@
            &&& name != "node_modules"@
            &&& name != "data"@
            &&& name != "logs"@
            &&& !sensitive.contains(name)
        } by {
            assert(!is_private_name(lower(parts[i])));
        }
    }
}

/// A path is public exactly if each part of it is by itself.
pub proof fn law_public_paths_of_two(
    a: Seq<Seq<char>>,
    b: Seq<Seq<char>>,
    sensitive: Seq<Seq<char>>,
)
    ensures
        is_public_path(a + b, sensitive) <==> is_public_path(a, sensitive) && is_public_path(
            b,
            sensitive,
        ),
{
    let all = a + b;
    if is_public_path(all, sensitive) {
        assert forall|i: int| 0 <= i < a.len() implies !is_private_name(lower(#[trigger] a[i]))
            && !sensitive.contains(lower(a[i])) by {
            assert(all[i] == a[i]);
        }
        assert forall|i: int| 0 <= i < b.len() implies !is_private_name(lower(#[trigger] b[i]))
            && !sensitive.contains(lower(b[i])) by {
            assert(all[i + a.len()] == b[i]);
        }
    }
}

} // verus!
