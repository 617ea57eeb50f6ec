//! A request from the web view, from its first line to the answer.

use vstd::prelude::*;

use crate::content::extension;
use crate::content::media_type;
use crate::origin::host_of;
use crate::origin::valid_ext_id;
use crate::origin::Platform;
use crate::path::law_accepted_request_is_safe;
use crate::path::law_id_in_front_names_the_extension;
use crate::path::rel_path;
use crate::path::request_path;
use crate::path::BAD_REQUEST;
use crate::path::FORBIDDEN;
use crate::path::NOT_FOUND;
use crate::policy::content_answer;
use crate::policy::content_headers;
use crate::policy::header_texts;
use crate::policy::refusal_answer;
use crate::policy::refusal_headers;
use crate::policy::Answer;
use crate::referer::host_path;
use crate::referer::law_host_and_extension_agree;
use crate::referer::option_view;
use crate::referer::parsed_uri_path;
use crate::referer::referer_claim;
use crate::referer::request_path_for_host;
use crate::referer::resolved_id;
use crate::referer::served_id;
use crate::serve::asked_for;
use crate::serve::begin;
use crate::serve::first_stage;
use crate::serve::is_body;
use crate::serve::law_only_public_files_are_sent;
use crate::serve::may_be_sent;
use crate::serve::next_stage;
use crate::serve::run;
use crate::serve::Reply;
use crate::serve::Serving;
use crate::serve::Stage;
use crate::text::trim_start;
use crate::text::trim_start_text;

verus! {

/// The stage that a request starts with: what its host, its path and its referer let it be served
/// from. The referer has then had its say and is not asked again.
pub open spec fn opened_stage(
    platform: Platform,
    host: Seq<char>,
    uri_path: Seq<char>,
    referer: Option<Seq<char>>,
) -> Stage {
    match host_path(platform, host, trim_start(uri_path, '/'), referer) {
        Ok(path) => first_stage(platform, path, None),
        Err(status) => Stage::Done(Err(status)),
    }
}

/// Starts on a request to `host` for the path of a URI, with the referer it came with.
pub fn open_request(platform: Platform, host: &str, uri_path: &str, referer: Option<&str>) -> (state:
    Serving)
    ensures
        state@ == opened_stage(platform, host@, uri_path@, option_view(referer)),
{
    let raw_path = trim_start_text(uri_path, '/');
    match request_path_for_host(platform, host, raw_path.as_str(), referer) {
        Ok(path) => begin(platform, path.as_str(), None),
        Err(status) => Serving::Done(Err(status)),
    }
}

/// The id of the extension by whose permissions the answer to a request is sent; empty if it is
/// served from none.
pub fn request_id(platform: Platform, host: &str, uri_path: &str, referer: Option<&str>) -> (id:
    String)
    ensures
        id@ == served_id(platform, host@, trim_start(uri_path@, '/'), option_view(referer)),
{
    let raw_path = trim_start_text(uri_path, '/');
    resolved_id(platform, host, raw_path.as_str(), referer)
}

/// The answer to a request that ended with `outcome`. `csp` is the policy for the content, and is
/// not used for a refusal.
pub fn close_request(outcome: Result<(String, Vec<u8>), u16>, csp: &str) -> (answer: Answer)
    ensures
        match outcome {
            Ok((mime, body)) => answer.status == 200 && header_texts(answer.headers@)
                == content_headers(mime@, csp@) && answer.body == body,
            Err(status) => answer.status == status && header_texts(answer.headers@)
                == refusal_headers() && answer.body@.len() == 0,
        },
{
    match outcome {
        Ok((mime, body)) => content_answer(mime.as_str(), csp, body),
        Err(status) => refusal_answer(status),
    }
}

/// A request reaches only the extension that its host name belongs to, by whose permissions it is
/// answered too; it is never attributed to another one later.
pub proof fn law_request_stays_in_its_extension(
    platform: Platform,
    host: Seq<char>,
    uri_path: Seq<char>,
    referer: Option<Seq<char>>,
)
    ensures
        match opened_stage(platform, host, uri_path, referer) {
            Stage::Resolve { id, parts: _, fallback } => {
                &&& host_of(id) == host
                &&& valid_ext_id(id)
                &&& id == served_id(platform, host, trim_start(uri_path, '/'), referer)
                &&& fallback is None
            },
            Stage::Done(outcome) => outcome is Err,
            _ => false,
        },
{
    let path = trim_start(uri_path, '/');
    if host_path(platform, host, path, referer) is Ok {
        law_host_and_extension_agree(platform, host, path, referer);
    }
}

/// A request that has ended is not taken up again.
proof fn lemma_done_stays(stage: Stage, replies: Seq<Reply>)
    requires
        stage is Done,
    ensures
        run(stage, replies) == stage,
    decreases replies.len(),
{
    if replies.len() > 0 {
        lemma_done_stays(stage, replies.drop_last());
    }
}

/// Content that a request is answered with comes from a public file below the directory of an
/// extension. That extension is the one that the host name of the request belongs to, its directory
/// was found, and the file is what the parts of the request path that is served for that host led
/// to; whatever the request says, and whatever replies come on the way.
pub proof fn law_content_comes_from_the_hosts_extension(
    platform: Platform,
    host: Seq<char>,
    uri_path: Seq<char>,
    referer: Option<Seq<char>>,
    replies: Seq<Reply>,
)
    ensures
        match run(opened_stage(platform, host, uri_path, referer), replies) {
            Stage::Done(Ok((mime, body))) => {
                let path = host_path(platform, host, trim_start(uri_path, '/'), referer);
                &&& path is Ok && request_path(path->Ok_0) is Ok
                &&& host_of(request_path(path->Ok_0)->Ok_0.0) == host
                &&& asked_for(platform, path->Ok_0, None, replies) == Some(
                    request_path(path->Ok_0)->Ok_0,
                )
                &&& exists|file: Seq<char>| #[trigger]
                    may_be_sent(replies, request_path(path->Ok_0)->Ok_0.1, file) && mime
                        == media_type(extension(file)) && is_body(replies, file, body)
            },
            _ => true,
        },
{
    let path = trim_start(uri_path, '/');
    match host_path(platform, host, path, referer) {
        Ok(full) => {
            law_host_and_extension_agree(platform, host, path, referer);
            law_only_public_files_are_sent(platform, full, None, replies);
        },
        Err(status) => {
            lemma_done_stays(opened_stage(platform, host, uri_path, referer), replies);
        },
    }
}

/// The statuses that a request is refused with.
pub open spec fn is_refusal_status(status: u16) -> bool {
    status == BAD_REQUEST || status == FORBIDDEN || status == NOT_FOUND
}

/// A request that is not answered with content is refused with one of three statuses.
pub proof fn law_refusals_have_a_refusal_status(
    platform: Platform,
    host: Seq<char>,
    uri_path: Seq<char>,
    referer: Option<Seq<char>>,
    replies: Seq<Reply>,
)
    ensures
        match run(opened_stage(platform, host, uri_path, referer), replies) {
            Stage::Done(Err(status)) => is_refusal_status(status),
            _ => true,
        },
    decreases replies.len(),
{
    let stage = opened_stage(platform, host, uri_path, referer);
    if replies.len() > 0 {
        law_refusals_have_a_refusal_status(
            platform,
            host,
            uri_path,
            referer,
            replies.drop_last(),
        );
        let before = run(stage, replies.drop_last());
        assert(run(stage, replies) == next_stage(before, replies.last()));
    }
}

/// A request is opened for the extension of its host. If its path, behind any slashes, names that
/// extension, it starts with the parts behind the id; if it is served by its referer, it starts with
/// the parts of the whole path. One that is refused ends at once with its status.
pub proof fn law_requests_open_with_their_path(
    platform: Platform,
    host: Seq<char>,
    uri_path: Seq<char>,
    referer: Option<Seq<char>>,
)
    ensures
        ({
            let path = trim_start(uri_path, '/');
            let opened = opened_stage(platform, host, uri_path, referer);
            let is_own = request_path(path) is Ok && host_of(request_path(path)->Ok_0.0) == host;
            match host_path(platform, host, path, referer) {
                Err(status) => !is_own && opened == Stage::Done(Err(status)),
                Ok(_) => if is_own {
                    opened == (Stage::Resolve {
                        id: request_path(path)->Ok_0.0,
                        parts: request_path(path)->Ok_0.1,
                        fallback: None,
                    })
                } else {
                    &&& rel_path(path) is Ok
                    &&& host_of(served_id(platform, host, path, referer)) == host
                    &&& opened == (Stage::Resolve {
                        id: served_id(platform, host, path, referer),
                        parts: rel_path(path)->Ok_0,
                        fallback: None,
                    })
                },
            }
        }),
{
    let path = trim_start(uri_path, '/');
    let is_own = request_path(path) is Ok && host_of(request_path(path)->Ok_0.0) == host;
    if host_path(platform, host, path, referer) is Ok && !is_own {
        law_host_and_extension_agree(platform, host, path, referer);
        let text = referer->0;
        let (id, _, _) = referer_claim(platform, text, parsed_uri_path(text))->0;
        law_accepted_request_is_safe(trim_start(parsed_uri_path(text)->0, '/'));
        law_id_in_front_names_the_extension(id, path);
    }
}

} // verus!
