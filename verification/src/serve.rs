//! Serving a request, step by step.
//!
//! What has to be looked up on disk, or asked of the host application, is done outside; [`step`]
//! decides what to look up next, and what the outcome is. A request starts with [`begin`] and is
//! finished in the state [`Serving::Done`].

use vstd::prelude::*;
use vstd::utf8::{decode_utf8, encode_utf8, valid_utf8};

use crate::content::extension;
use crate::content::is_html;
use crate::content::is_page;
use crate::content::is_public_path;
use crate::content::media_type;
use crate::content::mime_for;
use crate::content::public_content_path;
use crate::origin::Platform;
use crate::path::law_accepted_rel_path_is_safe;
use crate::path::law_accepted_request_is_safe;
use crate::path::parse_request_path;
use crate::path::rel_path;
use crate::path::request_path;
use crate::path::safe_part;
use crate::path::FORBIDDEN;
use crate::path::NOT_FOUND;
use crate::referer::fallback;
use crate::referer::fallback_from_referer;
use crate::referer::option_view;
use crate::text::texts;

verus! {

/// One component of a path on disk: its bytes, by which it is compared, and the name it is shown
/// under.
pub struct PathPart {
    pub bytes: Vec<u8>,
    pub name: String,
}

impl View for PathPart {
    type V = (Seq<u8>, Seq<char>);

    open spec fn view(&self) -> (Seq<u8>, Seq<char>) {
        (self.bytes@, self.name@)
    }
}

/// The views of the components of a path on disk.
pub open spec fn part_views(parts: Seq<PathPart>) -> Seq<(Seq<u8>, Seq<char>)> {
    parts.map_values(|part: PathPart| part@)
}

/// Whether `full` is `root` or something below it.
pub open spec fn is_within(root: Seq<(Seq<u8>, Seq<char>)>, full: Seq<(Seq<u8>, Seq<char>)>) -> bool {
    root.len() <= full.len() && forall|i: int|
        0 <= i < root.len() ==> (#[trigger] root[i]).0 == full[i].0
}

/// The names of the components behind the first `n`.
pub open spec fn names_behind(full: Seq<(Seq<u8>, Seq<char>)>, n: int) -> Seq<Seq<char>> {
    full.skip(n).map_values(|part: (Seq<u8>, Seq<char>)| part.1)
}

/// The name that a path on disk ends in; empty if it has no components.
pub open spec fn last_name(full: Seq<(Seq<u8>, Seq<char>)>) -> Seq<char> {
    if full.len() == 0 {
        seq![]
    } else {
        full.last().1
    }
}

/// How far a request has come, and what is to be done next.
pub enum Serving {
    /// Find the directory of extension `id`.
    Resolve { id: String, parts: Vec<String>, fallback: Option<(String, Vec<String>)> },
    /// Join `parts` to the directory, and find where the directory and the result really are, with
    /// every link followed.
    Locate { parts: Vec<String> },
    /// See whether a file is there. `found` is where it really is, below the directory.
    Probe { parts: Vec<String>, found: Vec<String>, file: String },
    /// Say which names on the way to the file are sensitive.
    Judge { parts: Vec<String>, found: Vec<String>, file: String },
    /// Read the file.
    Read { file: String },
    /// Put the bridge script into the page.
    Inject { mime: String, page: String },
    /// The media type and the content, or the status to answer with.
    Done(Result<(String, Vec<u8>), u16>),
}

/// What came of the last thing to be done.
pub enum Event {
    /// Whether the directory is there.
    Resolved(bool),
    /// Where the directory and the file really are, each if it could be found out.
    Located { root: Option<Vec<PathPart>>, full: Option<Vec<PathPart>> },
    /// Whether a file is there.
    Probed(bool),
    /// The sensitive names, in small letters.
    Judged(Vec<String>),
    /// The bytes of the file, if it could be read.
    Loaded(Option<Vec<u8>>),
    /// The page with the bridge script in it.
    Injected(String),
}

/// The model of [`Serving`].
pub ghost enum Stage {
    Resolve {
        id: Seq<char>,
        parts: Seq<Seq<char>>,
        fallback: Option<(Seq<char>, Seq<Seq<char>>)>,
    },
    Locate { parts: Seq<Seq<char>> },
    Probe { parts: Seq<Seq<char>>, found: Seq<Seq<char>>, file: Seq<char> },
    Judge { parts: Seq<Seq<char>>, found: Seq<Seq<char>>, file: Seq<char> },
    Read { file: Seq<char> },
    Inject { mime: Seq<char>, page: Seq<char> },
    Done(Result<(Seq<char>, Seq<u8>), u16>),
}

/// The model of [`Event`].
pub ghost enum Reply {
    Resolved(bool),
    Located {
        root: Option<Seq<(Seq<u8>, Seq<char>)>>,
        full: Option<Seq<(Seq<u8>, Seq<char>)>>,
    },
    Probed(bool),
    Judged(Seq<Seq<char>>),
    Loaded(Option<Seq<u8>>),
    Injected(Seq<char>),
}

impl View for Serving {
    type V = Stage;

    open spec fn view(&self) -> Stage {
        match *self {
            Serving::Resolve { id, parts, fallback } => Stage::Resolve {
                id: id@,
                parts: texts(parts@),
                fallback: match fallback {
                    Some((other, others)) => Some((other@, texts(others@))),
                    None => None,
                },
            },
            Serving::Locate { parts } => Stage::Locate { parts: texts(parts@) },
            Serving::Probe { parts, found, file } => Stage::Probe {
                parts: texts(parts@),
                found: texts(found@),
                file: file@,
            },
            Serving::Judge { parts, found, file } => Stage::Judge {
                parts: texts(parts@),
                found: texts(found@),
                file: file@,
            },
            Serving::Read { file } => Stage::Read { file: file@ },
            Serving::Inject { mime, page } => Stage::Inject { mime: mime@, page: page@ },
            Serving::Done(Ok((mime, body))) => Stage::Done(Ok((mime@, body@))),
            Serving::Done(Err(status)) => Stage::Done(Err(status)),
        }
    }
}

/// The view of components that may not be known.
pub open spec fn option_parts(parts: Option<Vec<PathPart>>) -> Option<Seq<(Seq<u8>, Seq<char>)>> {
    match parts {
        Some(p) => Some(part_views(p@)),
        None => None,
    }
}

impl View for Event {
    type V = Reply;

    open spec fn view(&self) -> Reply {
        match *self {
            Event::Resolved(found) => Reply::Resolved(found),
            Event::Located { root, full } => Reply::Located {
                root: option_parts(root),
                full: option_parts(full),
            },
            Event::Probed(is_file) => Reply::Probed(is_file),
            Event::Judged(sensitive) => Reply::Judged(texts(sensitive@)),
            Event::Loaded(Some(bytes)) => Reply::Loaded(Some(bytes@)),
            Event::Loaded(None) => Reply::Loaded(None),
            Event::Injected(page) => Reply::Injected(page@),
        }
    }
}

/// The first stage of a request.
pub open spec fn first_stage(
    platform: Platform,
    raw_path: Seq<char>,
    referer: Option<Seq<char>>,
) -> Stage {
    match request_path(raw_path) {
        Ok((id, parts)) => Stage::Resolve {
            id,
            parts,
            fallback: match referer {
                Some(text) => fallback(platform, raw_path, text),
                None => None,
            },
        },
        Err(status) => Stage::Done(Err(status)),
    }
}

/// The stage that follows on a reply. A reply to another question changes nothing.
pub open spec fn next_stage(stage: Stage, reply: Reply) -> Stage {
    match (stage, reply) {
        (Stage::Resolve { id, parts, fallback }, Reply::Resolved(found)) => if found {
            Stage::Locate { parts }
        } else {
            match fallback {
                Some((other, others)) => Stage::Resolve {
                    id: other,
                    parts: others,
                    fallback: None,
                },
                None => Stage::Done(Err(NOT_FOUND)),
            }
        },
        (Stage::Locate { parts }, Reply::Located { root, full }) => match (root, full) {
            (Some(r), Some(f)) => if is_within(r, f) {
                Stage::Probe {
                    parts,
                    found: names_behind(f, r.len() as int),
                    file: last_name(f),
                }
            } else {
                Stage::Done(Err(FORBIDDEN))
            },
            _ => Stage::Done(Err(NOT_FOUND)),
        },
        (Stage::Probe { parts, found, file }, Reply::Probed(is_file)) => if is_file {
            Stage::Judge { parts, found, file }
        } else {
            Stage::Done(Err(NOT_FOUND))
        },
        (Stage::Judge { parts, found, file }, Reply::Judged(sensitive)) => if is_public_path(
            parts,
            sensitive,
        ) && is_public_path(found, sensitive) {
            Stage::Read { file }
        } else {
            Stage::Done(Err(FORBIDDEN))
        },
        (Stage::Read { file }, Reply::Loaded(bytes)) => match bytes {
            Some(content) => if is_page(file) && valid_utf8(content) {
                Stage::Inject { mime: media_type(extension(file)), page: decode_utf8(content) }
            } else {
                Stage::Done(Ok((media_type(extension(file)), content)))
            },
            None => Stage::Done(Err(NOT_FOUND)),
        },
        (Stage::Inject { mime, .. }, Reply::Injected(page)) => Stage::Done(
            Ok((mime, encode_utf8(page))),
        ),
        _ => stage,
    }
}

/// `std::str::from_utf8` gives the text that the bytes encode, or an error if they are not UTF-8.
#[verifier::external_body]
fn utf8_text(bytes: &[u8]) -> (r: Option<String>)
    ensures
        r is Some <==> valid_utf8(bytes@),
        r is Some ==> r->0@ == decode_utf8(bytes@),
{
    std::str::from_utf8(bytes).ok().map(|text| text.to_owned())
}

/// Starts serving a request path. `referer` is what a path that has lost its extension id may be
/// attributed by, if the extension that it seems to name is not there.
pub fn begin(platform: Platform, raw_path: &str, referer: Option<&str>) -> (state: Serving)
    ensures
        state@ == first_stage(platform, raw_path@, option_view(referer)),
{
    match parse_request_path(raw_path) {
        Err(status) => Serving::Done(Err(status)),
        Ok((id, parts)) => {
            let other = match referer {
                Some(text) => fallback_from_referer(platform, raw_path, text),
                None => None,
            };
            Serving::Resolve { id, parts, fallback: other }
        },
    }
}

/// Whether two byte strings are the same.
fn same_bytes(a: &Vec<u8>, b: &Vec<u8>) -> (r: bool)
    ensures
        r == (a@ == b@),
{
    if a.len() != b.len() {
        return false;
    }
    let mut i: usize = 0;
    while i < a.len()
        invariant
            i <= a@.len(),
            a@.len() == b@.len(),
            forall|j: int| 0 <= j < i ==> a@[j] == b@[j],
        decreases a@.len() - i,
    {
        if a[i] != b[i] {
            return false;
        }
        i = i + 1;
    }
    assert(a@ =~= b@);
    true
}

/// Whether `full` is `root` or something below it.
fn within(root: &Vec<PathPart>, full: &Vec<PathPart>) -> (r: bool)
    ensures
        r == is_within(part_views(root@), part_views(full@)),
{
    if root.len() > full.len() {
        return false;
    }
    let ghost (x, y) = (part_views(root@), part_views(full@));
    let mut i: usize = 0;
    while i < root.len()
        invariant
            i <= root@.len() <= full@.len(),
            x == part_views(root@),
            y == part_views(full@),
            forall|j: int| 0 <= j < i ==> (#[trigger] x[j]).0 == y[j].0,
        decreases root@.len() - i,
    {
        assert(x[i as int].0 == root@[i as int].bytes@);
        assert(y[i as int].0 == full@[i as int].bytes@);
        if !same_bytes(&root[i].bytes, &full[i].bytes) {
            return false;
        }
        i = i + 1;
    }
    true
}

/// The names of the components behind the first `n`.
fn collect_names(full: &Vec<PathPart>, n: usize) -> (names: Vec<String>)
    requires
        n <= full@.len(),
    ensures
        texts(names@) == names_behind(part_views(full@), n as int),
{
    let mut names: Vec<String> = Vec::new();
    let mut i: usize = n;
    while i < full.len()
        invariant
            n <= i <= full@.len(),
            names@.len() == i - n,
            forall|j: int| 0 <= j < i - n ==> (#[trigger] names@[j])@ == full@[j + n].name@,
        decreases full@.len() - i,
    {
        names.push(full[i].name.clone());
        i = i + 1;
    }
    assert(texts(names@) =~= names_behind(part_views(full@), n as int));
    names
}

/// Goes one step on: decides what is to be done next, or how the request ends.
pub fn step(state: Serving, event: Event) -> (next: Serving)
    ensures
        next@ == next_stage(state@, event@),
{
    match (state, event) {
        (Serving::Resolve { id, parts, fallback }, Event::Resolved(found)) => {
            if found {
                return Serving::Locate { parts };
            }
            match fallback {
                Some((other, others)) => Serving::Resolve {
                    id: other,
                    parts: others,
                    fallback: None,
                },
                None => Serving::Done(Err(NOT_FOUND)),
            }
        },
        (Serving::Locate { parts }, Event::Located { root, full }) => match (root, full) {
            (Some(r), Some(f)) => {
                if !within(&r, &f) {
                    return Serving::Done(Err(FORBIDDEN));
                }
                let found = collect_names(&f, r.len());
                let file = if f.len() == 0 {
                    String::new()
                } else {
                    f[f.len() - 1].name.clone()
                };
                assert(file@ =~= last_name(part_views(f@)));
                Serving::Probe { parts, found, file }
            },
            _ => Serving::Done(Err(NOT_FOUND)),
        },
        (Serving::Probe { parts, found, file }, Event::Probed(is_file)) => {
            if is_file {
                Serving::Judge { parts, found, file }
            } else {
                Serving::Done(Err(NOT_FOUND))
            }
        },
        (Serving::Judge { parts, found, file }, Event::Judged(sensitive)) => {
            if public_content_path(parts.as_slice(), sensitive.as_slice()) && public_content_path(
                found.as_slice(),
                sensitive.as_slice(),
            ) {
                Serving::Read { file }
            } else {
                Serving::Done(Err(FORBIDDEN))
            }
        },
        (Serving::Read { file }, Event::Loaded(bytes)) => match bytes {
            None => Serving::Done(Err(NOT_FOUND)),
            Some(content) => {
                let mime = mime_for(file.as_str()).to_owned();
                if is_html(file.as_str()) {
                    if let Some(page) = utf8_text(content.as_slice()) {
                        return Serving::Inject { mime, page };
                    }
                }
                Serving::Done(Ok((mime, content)))
            },
        },
        (Serving::Inject { mime, page: _ }, Event::Injected(page)) => {
            Serving::Done(Ok((mime, page.as_str().as_bytes_vec())))
        },
        (unchanged, _) => unchanged,
    }
}

/// The stage that some replies, one after the other, lead to.
pub open spec fn run(stage: Stage, replies: Seq<Reply>) -> Stage
    decreases replies.len(),
{
    if replies.len() == 0 {
        stage
    } else {
        next_stage(run(stage, replies.drop_last()), replies.last())
    }
}

/// Whether the parts of a path cannot lead out of a directory.
pub open spec fn are_safe(parts: Seq<Seq<char>>) -> bool {
    parts.len() > 0 && forall|i: int| 0 <= i < parts.len() ==> safe_part(#[trigger] parts[i])
}

/// Whether among the replies is one by which a file of that name was found at `found`, below the
/// directory of the extension.
pub open spec fn was_located(replies: Seq<Reply>, found: Seq<Seq<char>>, file: Seq<char>) -> bool {
    exists|root: Seq<(Seq<u8>, Seq<char>)>, full: Seq<(Seq<u8>, Seq<char>)>|
        {
            &&& #[trigger] replies.contains(Reply::Located { root: Some(root), full: Some(full) })
            &&& is_within(root, full)
            &&& found == names_behind(full, root.len() as int)
            &&& file == last_name(full)
        }
}

/// Whether among the replies is one by which neither the path that was asked for nor the one that
/// was found is hidden.
pub open spec fn was_judged_public(
    replies: Seq<Reply>,
    parts: Seq<Seq<char>>,
    found: Seq<Seq<char>>,
) -> bool {
    exists|sensitive: Seq<Seq<char>>|
        {
            &&& #[trigger] replies.contains(Reply::Judged(sensitive))
            &&& is_public_path(parts, sensitive)
            &&& is_public_path(found, sensitive)
        }
}

/// The replies on whether a directory is there, in their order.
pub open spec fn directory_replies(replies: Seq<Reply>) -> Seq<bool>
    decreases replies.len(),
{
    if replies.len() == 0 {
        seq![]
    } else {
        let front = directory_replies(replies.drop_last());
        match replies.last() {
            Reply::Resolved(found) => front.push(found),
            _ => front,
        }
    }
}

/// The extension, and the parts of the path in it, that a request turned out to ask for: what its
/// path says, if the directory of that extension is there; else what the referer says, if the
/// directory of that one is.
pub open spec fn asked_for(
    platform: Platform,
    raw_path: Seq<char>,
    referer: Option<Seq<char>>,
    replies: Seq<Reply>,
) -> Option<(Seq<char>, Seq<Seq<char>>)> {
    let found = directory_replies(replies);
    match request_path(raw_path) {
        Ok((id, parts)) => if found.len() >= 1 && found[0] {
            Some((id, parts))
        } else if found.len() >= 2 && found[1] && referer is Some {
            fallback(platform, raw_path, referer->0)
        } else {
            None
        },
        Err(_) => None,
    }
}

/// Whether by the replies the file of that name may be sent for the parts that were asked for: they
/// are safe, they led to something below the directory, it is a file, and nothing on the way to it
/// is hidden.
pub open spec fn may_be_sent(replies: Seq<Reply>, parts: Seq<Seq<char>>, file: Seq<char>) -> bool {
    exists|found: Seq<Seq<char>>|
        {
            &&& are_safe(parts)
            &&& was_located(replies, found, file)
            &&& replies.contains(Reply::Probed(true))
            &&& #[trigger] was_judged_public(replies, parts, found)
        }
}

/// Whether by the replies `body` is what the file of that name is sent as: what was read from it,
/// or, if that is a page in UTF-8, the page with the bridge script in it.
pub open spec fn is_body(replies: Seq<Reply>, file: Seq<char>, body: Seq<u8>) -> bool {
    exists|content: Seq<u8>|
        {
            &&& #[trigger] replies.contains(Reply::Loaded(Some(content)))
            &&& if is_page(file) && valid_utf8(content) {
                exists|page: Seq<char>| #[trigger]
                    replies.contains(Reply::Injected(page)) && body == encode_utf8(page)
            } else {
                body == content
            }
        }
}

/// Whether by the replies the file of that name, which may be sent, is a page in UTF-8.
spec fn is_loaded_page(replies: Seq<Reply>, file: Seq<char>) -> bool {
    &&& is_page(file)
    &&& exists|content: Seq<u8>| #[trigger]
        replies.contains(Reply::Loaded(Some(content))) && valid_utf8(content)
}

/// Whether a request for `raw_path` turned out to ask for `parts`.
spec fn is_asked(
    platform: Platform,
    raw_path: Seq<char>,
    referer: Option<Seq<char>>,
    replies: Seq<Reply>,
    parts: Seq<Seq<char>>,
) -> bool {
    asked_for(platform, raw_path, referer, replies) matches Some((_, asked)) && asked == parts
}

/// What is known at a stage of a request.
spec fn justified(
    platform: Platform,
    raw_path: Seq<char>,
    referer: Option<Seq<char>>,
    stage: Stage,
    replies: Seq<Reply>,
) -> bool {
    match stage {
        Stage::Resolve { id, parts, fallback } => {
            let found = directory_replies(replies);
            &&& are_safe(parts)
            &&& fallback matches Some((_, others)) ==> are_safe(others)
            &&& if found.len() == 0 {
                stage == first_stage(platform, raw_path, referer)
            } else {
                &&& found.len() == 1 && !found[0]
                &&& request_path(raw_path) is Ok
                &&& referer is Some && crate::referer::fallback(platform, raw_path, referer->0)
                    == Some((id, parts))
                &&& fallback is None
            }
        },
        Stage::Locate { parts } => {
            &&& are_safe(parts)
            &&& is_asked(platform, raw_path, referer, replies, parts)
        },
        Stage::Probe { parts, found, file } => {
            &&& are_safe(parts)
            &&& is_asked(platform, raw_path, referer, replies, parts)
            &&& was_located(replies, found, file)
        },
        Stage::Judge { parts, found, file } => {
            &&& are_safe(parts)
            &&& is_asked(platform, raw_path, referer, replies, parts)
            &&& was_located(replies, found, file)
            &&& replies.contains(Reply::Probed(true))
        },
        Stage::Read { file } => {
            &&& asked_for(platform, raw_path, referer, replies) matches Some((_, parts))
            &&& may_be_sent(replies, parts, file)
        },
        Stage::Inject { mime, page: _ } => {
            &&& asked_for(platform, raw_path, referer, replies) matches Some((_, parts))
            &&& exists|file: Seq<char>| #[trigger]
                may_be_sent(replies, parts, file) && mime == media_type(extension(file))
                    && is_loaded_page(replies, file)
        },
        Stage::Done(Ok((mime, body))) => {
            &&& asked_for(platform, raw_path, referer, replies) matches Some((_, parts))
            &&& exists|file: Seq<char>| #[trigger]
                may_be_sent(replies, parts, file) && mime == media_type(extension(file))
                    && is_body(replies, file, body)
        },
        Stage::Done(Err(_)) => true,
    }
}

/// What a request asks for is not changed by later replies.
proof fn lemma_asked_stays(
    platform: Platform,
    raw_path: Seq<char>,
    referer: Option<Seq<char>>,
    replies: Seq<Reply>,
    reply: Reply,
)
    ensures
        directory_replies(replies.push(reply)) == match reply {
            Reply::Resolved(found) => directory_replies(replies).push(found),
            _ => directory_replies(replies),
        },
        asked_for(platform, raw_path, referer, replies) is Some ==> asked_for(
            platform,
            raw_path,
            referer,
            replies.push(reply),
        ) == asked_for(platform, raw_path, referer, replies),
{
    assert(replies.push(reply).drop_last() =~= replies);
}

/// What was among the replies stays among them.
proof fn lemma_replies_grow(replies: Seq<Reply>, reply: Reply)
    ensures
        replies.push(reply).contains(reply),
        forall|r: Reply| replies.contains(r) ==> #[trigger] replies.push(reply).contains(r),
        forall|found: Seq<Seq<char>>, file: Seq<char>|
            was_located(replies, found, file) ==> #[trigger] was_located(
                replies.push(reply),
                found,
                file,
            ),
        forall|parts: Seq<Seq<char>>, found: Seq<Seq<char>>|
            was_judged_public(replies, parts, found) ==> #[trigger] was_judged_public(
                replies.push(reply),
                parts,
                found,
            ),
        forall|parts: Seq<Seq<char>>, file: Seq<char>|
            may_be_sent(replies, parts, file) ==> #[trigger] may_be_sent(
                replies.push(reply),
                parts,
                file,
            ),
        forall|file: Seq<char>, body: Seq<u8>|
            is_body(replies, file, body) ==> #[trigger] is_body(replies.push(reply), file, body),
        forall|file: Seq<char>|
            is_loaded_page(replies, file) ==> #[trigger] is_loaded_page(replies.push(reply), file),
{
    let more = replies.push(reply);
    assert(more[replies.len() as int] == reply);
    assert forall|r: Reply| replies.contains(r) implies #[trigger] more.contains(r) by {
        let i = choose|i: int| 0 <= i < replies.len() && replies[i] == r;
        assert(more[i] == r);
    }
    assert forall|found: Seq<Seq<char>>, file: Seq<char>|
        was_located(replies, found, file) implies #[trigger] was_located(more, found, file) by {
        let (root, full) = choose|root: Seq<(Seq<u8>, Seq<char>)>, full: Seq<(Seq<u8>, Seq<char>)>|
            {
                &&& #[trigger] replies.contains(
                    Reply::Located { root: Some(root), full: Some(full) },
                )
                &&& is_within(root, full)
                &&& found == names_behind(full, root.len() as int)
                &&& file == last_name(full)
            };
        assert(more.contains(Reply::Located { root: Some(root), full: Some(full) }));
    }
    assert forall|parts: Seq<Seq<char>>, found: Seq<Seq<char>>|
        was_judged_public(replies, parts, found) implies #[trigger] was_judged_public(
        more,
        parts,
        found,
    ) by {
        let sensitive = choose|sensitive: Seq<Seq<char>>|
            {
                &&& #[trigger] replies.contains(Reply::Judged(sensitive))
                &&& is_public_path(parts, sensitive)
                &&& is_public_path(found, sensitive)
            };
        assert(more.contains(Reply::Judged(sensitive)));
    }
    assert forall|parts: Seq<Seq<char>>, file: Seq<char>|
        may_be_sent(replies, parts, file) implies #[trigger] may_be_sent(more, parts, file) by {
        let found = choose|found: Seq<Seq<char>>|
            {
                &&& are_safe(parts)
                &&& was_located(replies, found, file)
                &&& replies.contains(Reply::Probed(true))
                &&& #[trigger] was_judged_public(replies, parts, found)
            };
        assert(was_judged_public(more, parts, found));
    }
    assert forall|file: Seq<char>, body: Seq<u8>| is_body(replies, file, body) implies #[trigger]
        is_body(more, file, body) by {
        let content = choose|content: Seq<u8>|
            {
                &&& #[trigger] replies.contains(Reply::Loaded(Some(content)))
                &&& if is_page(file) && valid_utf8(content) {
                    exists|page: Seq<char>| #[trigger]
                        replies.contains(Reply::Injected(page)) && body == encode_utf8(page)
                } else {
                    body == content
                }
            };
        assert(more.contains(Reply::Loaded(Some(content))));
        if is_page(file) && valid_utf8(content) {
            let page = choose|page: Seq<char>| #[trigger]
                replies.contains(Reply::Injected(page)) && body == encode_utf8(page);
            assert(more.contains(Reply::Injected(page)));
        }
    }
    assert forall|file: Seq<char>| is_loaded_page(replies, file) implies #[trigger] is_loaded_page(
        more,
        file,
    ) by {
        let content = choose|content: Seq<u8>| #[trigger]
            replies.contains(Reply::Loaded(Some(content))) && valid_utf8(content);
        assert(more.contains(Reply::Loaded(Some(content))));
    }
}

/// What is known at a stage is known at the next.
proof fn lemma_step_justified(
    platform: Platform,
    raw_path: Seq<char>,
    referer: Option<Seq<char>>,
    stage: Stage,
    replies: Seq<Reply>,
    reply: Reply,
)
    requires
        justified(platform, raw_path, referer, stage, replies),
    ensures
        justified(platform, raw_path, referer, next_stage(stage, reply), replies.push(reply)),
{
    let more = replies.push(reply);
    lemma_replies_grow(replies, reply);
    lemma_asked_stays(platform, raw_path, referer, replies, reply);
    let asked = match asked_for(platform, raw_path, referer, replies) {
        Some((_, parts)) => parts,
        None => seq![],
    };
    match (stage, reply) {
        (Stage::Locate { parts }, Reply::Located { root: Some(root), full: Some(full) }) => {
            if is_within(root, full) {
                assert(more.contains(Reply::Located { root: Some(root), full: Some(full) }));
                assert(was_located(more, names_behind(full, root.len() as int), last_name(full)));
            }
        },
        (Stage::Judge { parts, found, file }, Reply::Judged(sensitive)) => {
            if is_public_path(parts, sensitive) && is_public_path(found, sensitive) {
                assert(more.contains(Reply::Judged(sensitive)));
                assert(was_judged_public(more, parts, found));
                assert(was_located(more, found, file));
                assert(may_be_sent(more, parts, file));
            }
        },
        (Stage::Read { file }, Reply::Loaded(Some(content))) => {
            assert(may_be_sent(more, asked, file));
            assert(more.contains(Reply::Loaded(Some(content))));
            if is_page(file) && valid_utf8(content) {
                assert(is_loaded_page(more, file));
            } else {
                assert(is_body(more, file, content));
            }
        },
        (Stage::Read { file }, _) => {
            assert(may_be_sent(more, asked, file));
        },
        (Stage::Inject { mime, page: _ }, _) => {
            let file = choose|file: Seq<char>| #[trigger]
                may_be_sent(replies, asked, file) && mime == media_type(extension(file))
                    && is_loaded_page(replies, file);
            assert(may_be_sent(more, asked, file));
            assert(is_loaded_page(more, file));
            if let Reply::Injected(page) = reply {
                let content = choose|content: Seq<u8>| #[trigger]
                    more.contains(Reply::Loaded(Some(content))) && valid_utf8(content);
                assert(more.contains(Reply::Loaded(Some(content))));
                assert(more.contains(Reply::Injected(page)));
                assert(is_body(more, file, encode_utf8(page)));
            }
        },
        (Stage::Done(Ok((mime, body))), _) => {
            let file = choose|file: Seq<char>| #[trigger]
                may_be_sent(replies, asked, file) && mime == media_type(extension(file))
                    && is_body(replies, file, body);
            assert(may_be_sent(more, asked, file));
            assert(is_body(more, file, body));
        },
        _ => {},
    }
}

/// What is known at the first stage.
proof fn lemma_first_justified(platform: Platform, raw_path: Seq<char>, referer: Option<Seq<char>>)
    ensures
        justified(
            platform,
            raw_path,
            referer,
            first_stage(platform, raw_path, referer),
            seq![],
        ),
{
    if request_path(raw_path) is Ok {
        law_accepted_request_is_safe(raw_path);
        if rel_path(raw_path) is Ok {
            law_accepted_rel_path_is_safe(raw_path);
        }
    }
}

proof fn lemma_run_justified(
    platform: Platform,
    raw_path: Seq<char>,
    referer: Option<Seq<char>>,
    replies: Seq<Reply>,
)
    ensures
        justified(
            platform,
            raw_path,
            referer,
            run(first_stage(platform, raw_path, referer), replies),
            replies,
        ),
    decreases replies.len(),
{
    if replies.len() == 0 {
        lemma_first_justified(platform, raw_path, referer);
        assert(replies =~= seq![]);
    } else {
        let front = replies.drop_last();
        lemma_run_justified(platform, raw_path, referer, front);
        lemma_step_justified(
            platform,
            raw_path,
            referer,
            run(first_stage(platform, raw_path, referer), front),
            front,
            replies.last(),
        );
        assert(front.push(replies.last()) =~= replies);
    }
}

/// Content is only ever sent for the path that was asked for: the one in the request, or, if the
/// extension that it names is not there, the one that the referer attributes the request by. Its
/// parts are safe, what they lead to really lies below the directory of the extension, and no
/// private or sensitive name is on the way, neither as it was asked for nor where it really lies;
/// whatever is asked, and in whatever order the replies come. It is sent under the media type of the
/// file that was found, and it is what was read from it, with the bridge script in it if it is a
/// page.
pub proof fn law_only_public_files_are_sent(
    platform: Platform,
    raw_path: Seq<char>,
    referer: Option<Seq<char>>,
    replies: Seq<Reply>,
)
    ensures
        match run(first_stage(platform, raw_path, referer), replies) {
            Stage::Done(Ok((mime, body))) => {
                &&& asked_for(platform, raw_path, referer, replies) matches Some((_, parts))
                &&& exists|file: Seq<char>| #[trigger]
                    may_be_sent(replies, parts, file) && mime == media_type(extension(file))
                        && is_body(replies, file, body)
            },
            _ => true,
        },
{
    lemma_run_justified(platform, raw_path, referer, replies);
}

/// Whether a reply answers what a stage asks.
pub open spec fn is_reply_to(stage: Stage, reply: Reply) -> bool {
    match stage {
        Stage::Resolve { .. } => reply is Resolved,
        Stage::Locate { .. } => reply is Located,
        Stage::Probe { .. } => reply is Probed,
        Stage::Judge { .. } => reply is Judged,
        Stage::Read { .. } => reply is Loaded,
        Stage::Inject { .. } => reply is Injected,
        Stage::Done(_) => false,
    }
}

/// How many more replies a stage can lead to at most.
pub open spec fn replies_left(stage: Stage) -> nat {
    match stage {
        Stage::Resolve { id: _, parts: _, fallback } => if fallback is Some {
            7
        } else {
            6
        },
        Stage::Locate { .. } => 5,
        Stage::Probe { .. } => 4,
        Stage::Judge { .. } => 3,
        Stage::Read { .. } => 2,
        Stage::Inject { .. } => 1,
        Stage::Done(_) => 0,
    }
}

/// Every reply to what was asked brings a request nearer to its end, so each request ends. What was
/// decided once stays decided, whatever comes after.
pub proof fn law_every_request_ends(stage: Stage, reply: Reply)
    ensures
        is_reply_to(stage, reply) ==> replies_left(next_stage(stage, reply)) < replies_left(stage),
        !is_reply_to(stage, reply) ==> next_stage(stage, reply) == stage,
        stage is Done ==> next_stage(stage, reply) == stage,
        stage is Resolve ==> (is_reply_to(stage, reply) <==> reply is Resolved),
        stage is Locate ==> (is_reply_to(stage, reply) <==> reply is Located),
        stage is Probe ==> (is_reply_to(stage, reply) <==> reply is Probed),
        stage is Judge ==> (is_reply_to(stage, reply) <==> reply is Judged),
        stage is Read ==> (is_reply_to(stage, reply) <==> reply is Loaded),
        stage is Inject ==> (is_reply_to(stage, reply) <==> reply is Injected),
{
}

/// The replies that come for a file that is there: where it is, that it is a file, which names are
/// sensitive, what it holds, and the page that it becomes.
pub open spec fn file_replies(
    root: Seq<(Seq<u8>, Seq<char>)>,
    full: Seq<(Seq<u8>, Seq<char>)>,
    sensitive: Seq<Seq<char>>,
    content: Seq<u8>,
    page: Seq<char>,
) -> Seq<Reply> {
    seq![
        Reply::Located { root: Some(root), full: Some(full) },
        Reply::Probed(true),
        Reply::Judged(sensitive),
        Reply::Loaded(Some(content)),
        Reply::Injected(page),
    ]
}

/// What a file is sent as: its media type, and its content unchanged, or, if it is a page in UTF-8,
/// the page as the host application gives it back.
pub open spec fn sent_file(file: Seq<char>, content: Seq<u8>, page: Seq<char>) -> Stage {
    let body = if is_page(file) && valid_utf8(content) {
        encode_utf8(page)
    } else {
        content
    };
    Stage::Done(Ok((media_type(extension(file)), body)))
}

/// Once the directory is found, a public file below it is sent.
proof fn lemma_located_file_is_sent(
    first: Stage,
    before: Seq<Reply>,
    parts: Seq<Seq<char>>,
    root: Seq<(Seq<u8>, Seq<char>)>,
    full: Seq<(Seq<u8>, Seq<char>)>,
    sensitive: Seq<Seq<char>>,
    content: Seq<u8>,
    page: Seq<char>,
)
    requires
        run(first, before) == (Stage::Locate { parts }),
        is_within(root, full),
        is_public_path(parts, sensitive),
        is_public_path(names_behind(full, root.len() as int), sensitive),
    ensures
        run(first, before + file_replies(root, full, sensitive, content, page)) == sent_file(
            last_name(full),
            content,
            page,
        ),
{
    let r1 = before.push(Reply::Located { root: Some(root), full: Some(full) });
    let r2 = r1.push(Reply::Probed(true));
    let r3 = r2.push(Reply::Judged(sensitive));
    let r4 = r3.push(Reply::Loaded(Some(content)));
    let r5 = r4.push(Reply::Injected(page));
    assert(r1.drop_last() =~= before);
    assert(r2.drop_last() =~= r1);
    assert(r3.drop_last() =~= r2);
    assert(r4.drop_last() =~= r3);
    assert(r5.drop_last() =~= r4);
    assert(run(first, r1) is Probe);
    assert(run(first, r2) is Judge);
    assert(run(first, r3) is Read);
    assert(run(first, r4) is Inject || run(first, r4) is Done);
    assert(run(first, r5) is Done);
    assert(before + file_replies(root, full, sensitive, content, page) =~= r5);
}

/// A file that is there, below the directory of the extension that the path names, readable and not
/// hidden, is sent.
pub proof fn law_public_file_is_sent(
    platform: Platform,
    raw_path: Seq<char>,
    referer: Option<Seq<char>>,
    root: Seq<(Seq<u8>, Seq<char>)>,
    full: Seq<(Seq<u8>, Seq<char>)>,
    sensitive: Seq<Seq<char>>,
    content: Seq<u8>,
    page: Seq<char>,
)
    requires
        request_path(raw_path) is Ok,
        is_within(root, full),
        is_public_path(request_path(raw_path)->Ok_0.1, sensitive),
        is_public_path(names_behind(full, root.len() as int), sensitive),
    ensures
        run(
            first_stage(platform, raw_path, referer),
            seq![Reply::Resolved(true)] + file_replies(root, full, sensitive, content, page),
        ) == sent_file(last_name(full), content, page),
{
    let first = first_stage(platform, raw_path, referer);
    let before = seq![Reply::Resolved(true)];
    let parts = request_path(raw_path)->Ok_0.1;
    assert(before.drop_last() =~= seq![]);
    assert(run(first, before.drop_last()) == first);
    lemma_located_file_is_sent(first, before, parts, root, full, sensitive, content, page);
}

/// If the extension that the path names is not there, but the one that the referer attributes the
/// request to is, then that one's file at the whole path is sent, if it is there, below the
/// directory, readable and not hidden.
pub proof fn law_attributed_file_is_sent(
    platform: Platform,
    raw_path: Seq<char>,
    referer: Seq<char>,
    root: Seq<(Seq<u8>, Seq<char>)>,
    full: Seq<(Seq<u8>, Seq<char>)>,
    sensitive: Seq<Seq<char>>,
    content: Seq<u8>,
    page: Seq<char>,
)
    requires
        request_path(raw_path) is Ok,
        fallback(platform, raw_path, referer) is Some,
        is_within(root, full),
        rel_path(raw_path) matches Ok(parts) && is_public_path(parts, sensitive),
        is_public_path(names_behind(full, root.len() as int), sensitive),
    ensures
        run(
            first_stage(platform, raw_path, Some(referer)),
            seq![Reply::Resolved(false), Reply::Resolved(true)] + file_replies(
                root,
                full,
                sensitive,
                content,
                page,
            ),
        ) == sent_file(last_name(full), content, page),
{
    let first = first_stage(platform, raw_path, Some(referer));
    let lost = seq![Reply::Resolved(false)];
    let before = seq![Reply::Resolved(false), Reply::Resolved(true)];
    let parts = rel_path(raw_path)->Ok_0;
    assert(lost.drop_last() =~= seq![]);
    assert(run(first, lost.drop_last()) == first);
    assert(before.drop_last() =~= lost);
    assert(run(first, lost) is Resolve);
    assert(run(first, before) == (Stage::Locate { parts }));
    lemma_located_file_is_sent(first, before, parts, root, full, sensitive, content, page);
}

/// Whatever is below a directory counts as within it, however deep: the directory with any further
/// components behind it, or with none. What is within it starts with all of its components, compared
/// by their bytes.
pub proof fn law_everything_below_is_within(
    root: Seq<(Seq<u8>, Seq<char>)>,
    rest: Seq<(Seq<u8>, Seq<char>)>,
    full: Seq<(Seq<u8>, Seq<char>)>,
)
    ensures
        is_within(root, root + rest),
        is_within(root, full) <==> root.len() <= full.len() && root.map_values(
            |part: (Seq<u8>, Seq<char>)| part.0,
        ) == full.take(root.len() as int).map_values(|part: (Seq<u8>, Seq<char>)| part.0),
{
    let bytes = |part: (Seq<u8>, Seq<char>)| part.0;
    if root.len() <= full.len() {
        let (x, y) = (root.map_values(bytes), full.take(root.len() as int).map_values(bytes));
        if x == y {
            assert forall|i: int| 0 <= i < root.len() implies (#[trigger] root[i]).0 == full[i].0 by {
                assert(x[i] == y[i]);
            }
        }
        if is_within(root, full) {
            assert(x =~= y);
        }
    }
}

/// The names behind the directory are those of the further components, all of them and in their
/// order, and a path is named by its last component.
pub proof fn law_names_below_the_directory(
    root: Seq<(Seq<u8>, Seq<char>)>,
    rest: Seq<(Seq<u8>, Seq<char>)>,
    part: (Seq<u8>, Seq<char>),
)
    ensures
        names_behind(root + rest, root.len() as int).len() == rest.len(),
        forall|i: int|
            0 <= i < rest.len() ==> #[trigger] names_behind(root + rest, root.len() as int)[i]
                == rest[i].1,
        last_name(root.push(part)) == part.1,
        last_name(seq![]) == Seq::<char>::empty(),
{
    assert((root + rest).skip(root.len() as int) =~= rest);
}

/// A request starts with the extension that its path names and the parts of the path, and with what
/// the referer attributes it to, if there is one; and ends at once with the status of a path that is
/// refused.
pub proof fn law_requests_start_with_their_path(
    platform: Platform,
    raw_path: Seq<char>,
    referer: Seq<char>,
)
    ensures
        match request_path(raw_path) {
            Ok((id, parts)) => {
                &&& first_stage(platform, raw_path, None) == (Stage::Resolve {
                    id,
                    parts,
                    fallback: None,
                })
                &&& first_stage(platform, raw_path, Some(referer)) == (Stage::Resolve {
                    id,
                    parts,
                    fallback: fallback(platform, raw_path, referer),
                })
            },
            Err(status) => {
                &&& first_stage(platform, raw_path, None) == Stage::Done(Err(status))
                &&& first_stage(platform, raw_path, Some(referer)) == Stage::Done(Err(status))
            },
        },
{
}

/// A public file at any depth below the directory is sent: the directory, the components behind it
/// and nothing else decide where it is, none of the names asked for or found is hidden, and it is
/// sent as what its name says, unchanged or, as a page in UTF-8, as the host application gives it
/// back.
pub proof fn law_public_file_at_any_depth_is_sent(
    id: Seq<char>,
    parts: Seq<Seq<char>>,
    other: Option<(Seq<char>, Seq<Seq<char>>)>,
    root: Seq<(Seq<u8>, Seq<char>)>,
    rest: Seq<(Seq<u8>, Seq<char>)>,
    sensitive: Seq<Seq<char>>,
    content: Seq<u8>,
    page: Seq<char>,
)
    requires
        rest.len() > 0,
        is_public_path(parts, sensitive),
        is_public_path(
            rest.map_values(|part: (Seq<u8>, Seq<char>)| part.1),
            sensitive,
        ),
    ensures
        ({
            let first = Stage::Resolve { id, parts, fallback: other };
            let found = next_stage(first, Reply::Resolved(true));
            let located = next_stage(
                found,
                Reply::Located { root: Some(root), full: Some(root + rest) },
            );
            let probed = next_stage(located, Reply::Probed(true));
            let judged = next_stage(probed, Reply::Judged(sensitive));
            let loaded = next_stage(judged, Reply::Loaded(Some(content)));
            let mime = media_type(extension(rest.last().1));
            if is_page(rest.last().1) && valid_utf8(content) {
                &&& loaded == (Stage::Inject { mime, page: decode_utf8(content) })
                &&& next_stage(loaded, Reply::Injected(page)) == Stage::Done(
                    Ok((mime, encode_utf8(page))),
                )
            } else {
                loaded == Stage::Done(Ok((mime, content)))
            }
        }),
{
    let full = root + rest;
    law_everything_below_is_within(root, rest, full);
    law_names_below_the_directory(root, rest, rest.last());
    assert(names_behind(full, root.len() as int) =~= rest.map_values(
        |part: (Seq<u8>, Seq<char>)| part.1,
    ));
    assert(full.last() == rest.last());
}

/// Each step on the way to a file: the parts stay as they were asked for, the file is known by the
/// names below the directory and by its own, and neither is forgotten before the file is judged.
pub proof fn law_steps_forward(
    id: Seq<char>,
    parts: Seq<Seq<char>>,
    other: Option<(Seq<char>, Seq<Seq<char>>)>,
    root: Seq<(Seq<u8>, Seq<char>)>,
    rest: Seq<(Seq<u8>, Seq<char>)>,
    found: Seq<Seq<char>>,
    file: Seq<char>,
    sensitive: Seq<Seq<char>>,
    content: Seq<u8>,
    mime: Seq<char>,
    page: Seq<char>,
    injected: Seq<char>,
)
    ensures
        next_stage(Stage::Resolve { id, parts, fallback: other }, Reply::Resolved(true)) == (
        Stage::Locate { parts }),
        next_stage(
            Stage::Locate { parts },
            Reply::Located { root: Some(root), full: Some(root + rest) },
        ) == (Stage::Probe {
            parts,
            found: rest.map_values(|part: (Seq<u8>, Seq<char>)| part.1),
            file: last_name(root + rest),
        }),
        next_stage(Stage::Probe { parts, found, file }, Reply::Probed(true)) == (Stage::Judge {
            parts,
            found,
            file,
        }),
        is_public_path(parts, sensitive) && is_public_path(found, sensitive) ==> next_stage(
            Stage::Judge { parts, found, file },
            Reply::Judged(sensitive),
        ) == (Stage::Read { file }),
        is_page(file) && valid_utf8(content) ==> next_stage(
            Stage::Read { file },
            Reply::Loaded(Some(content)),
        ) == (Stage::Inject { mime: media_type(extension(file)), page: decode_utf8(content) }),
        !is_page(file) || !valid_utf8(content) ==> next_stage(
            Stage::Read { file },
            Reply::Loaded(Some(content)),
        ) == Stage::Done(Ok((media_type(extension(file)), content))),
        next_stage(Stage::Inject { mime, page }, Reply::Injected(injected)) == Stage::Done(
            Ok((mime, encode_utf8(injected))),
        ),
{
    law_everything_below_is_within(root, rest, root + rest);
    assert(names_behind(root + rest, root.len() as int) =~= rest.map_values(
        |part: (Seq<u8>, Seq<char>)| part.1,
    )) by {
        assert((root + rest).skip(root.len() as int) =~= rest);
    }
}

/// Each way in which a request is refused: the extension is not there, nor the one that the request
/// is attributed to; the directory or the file is not there; the file really lies elsewhere; it is
/// no file; a name on the way is hidden; it cannot be read.
pub proof fn law_refusals(
    id: Seq<char>,
    parts: Seq<Seq<char>>,
    other: Seq<char>,
    others: Seq<Seq<char>>,
    root: Seq<(Seq<u8>, Seq<char>)>,
    full: Seq<(Seq<u8>, Seq<char>)>,
    found: Seq<Seq<char>>,
    file: Seq<char>,
    sensitive: Seq<Seq<char>>,
)
    ensures
        next_stage(Stage::Resolve { id, parts, fallback: None }, Reply::Resolved(false))
            == Stage::Done(Err(404)),
        next_stage(
            Stage::Resolve { id, parts, fallback: Some((other, others)) },
            Reply::Resolved(false),
        ) == (Stage::Resolve { id: other, parts: others, fallback: None }),
        next_stage(
            Stage::Locate { parts },
            Reply::Located { root: None, full: Some(full) },
        ) == Stage::Done(Err(404)),
        next_stage(
            Stage::Locate { parts },
            Reply::Located { root: Some(root), full: None },
        ) == Stage::Done(Err(404)),
        next_stage(Stage::Locate { parts }, Reply::Located { root: None, full: None })
            == Stage::Done(Err(404)),
        !is_within(root, full) ==> next_stage(
            Stage::Locate { parts },
            Reply::Located { root: Some(root), full: Some(full) },
        ) == Stage::Done(Err(403)),
        next_stage(Stage::Probe { parts, found, file }, Reply::Probed(false)) == Stage::Done(
            Err(404),
        ),
        !is_public_path(parts, sensitive) || !is_public_path(found, sensitive) ==> next_stage(
            Stage::Judge { parts, found, file },
            Reply::Judged(sensitive),
        ) == Stage::Done(Err(403)),
        next_stage(Stage::Read { file }, Reply::Loaded(None)) == Stage::Done(Err(404)),
{
}

/// What a state holds is seen in full.
pub proof fn law_states_are_seen_in_full(
    id: String,
    parts: Vec<String>,
    other: Option<(String, Vec<String>)>,
    found: Vec<String>,
    file: String,
    bytes: Vec<u8>,
    status: u16,
)
    ensures
        (Serving::Resolve { id, parts, fallback: other })@ == (Stage::Resolve {
            id: id@,
            parts: texts(parts@),
            fallback: match other {
                Some((name, names)) => Some((name@, texts(names@))),
                None => None,
            },
        }),
        (Serving::Locate { parts })@ == (Stage::Locate { parts: texts(parts@) }),
        (Serving::Probe { parts, found, file })@ == (Stage::Probe {
            parts: texts(parts@),
            found: texts(found@),
            file: file@,
        }),
        (Serving::Judge { parts, found, file })@ == (Stage::Judge {
            parts: texts(parts@),
            found: texts(found@),
            file: file@,
        }),
        (Serving::Read { file })@ == (Stage::Read { file: file@ }),
        (Serving::Inject { mime: id, page: file })@ == (Stage::Inject { mime: id@, page: file@ }),
        Serving::Done(Ok((file, bytes)))@ == Stage::Done(Ok((file@, bytes@))),
        Serving::Done(Err(status))@ == Stage::Done(Err(status)),
{
}

/// What an event holds is seen in full: each component of a path with its bytes and its name, the
/// sensitive names, the bytes of a file and the text of a page.
pub proof fn law_events_are_seen_in_full(
    root: Vec<PathPart>,
    full: Vec<PathPart>,
    names: Vec<String>,
    bytes: Vec<u8>,
    page: String,
    yes: bool,
)
    ensures
        Event::Resolved(yes)@ == Reply::Resolved(yes),
        (Event::Located { root: Some(root), full: Some(full) })@ == (Reply::Located {
            root: Some(part_views(root@)),
            full: Some(part_views(full@)),
        }),
        (Event::Located { root: None, full: Some(full) })@ == (Reply::Located {
            root: None,
            full: Some(part_views(full@)),
        }),
        (Event::Located { root: Some(root), full: None })@ == (Reply::Located {
            root: Some(part_views(root@)),
            full: None,
        }),
        (Event::Located { root: None, full: None })@ == (Reply::Located { root: None, full: None }),
        Event::Probed(yes)@ == Reply::Probed(yes),
        Event::Judged(names)@ == Reply::Judged(texts(names@)),
        Event::Loaded(Some(bytes))@ == Reply::Loaded(Some(bytes@)),
        Event::Loaded(None)@ == Reply::Loaded(None),
        Event::Injected(page)@ == Reply::Injected(page@),
        part_views(root@).len() == root@.len(),
        forall|i: int|
            0 <= i < root@.len() ==> #[trigger] part_views(root@)[i] == (
                root@[i].bytes@,
                root@[i].name@,
            ),
{
}

} // verus!
