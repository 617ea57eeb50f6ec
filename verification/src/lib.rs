//! The content protocol `xhub-ext://`: the only way to the entry pages of extensions and to the
//! files they refer to.
//!
//! Every extension has an origin of its own, apart from those of the other extensions and of the
//! host application, so that no extension reads what is not its own by a `fetch`. A URL of the
//! protocol is `<origin of the extension>/<extension id>/<relative path>`.
//!
//! The library decides, and does no input or output: which extension a request belongs to
//! ([`referer`]), which file it asks for ([`path`]), whether the file may be shown and as what
//! ([`content`]), what is to be looked up next ([`serve`]), and how it is answered ([`policy`],
//! [`handle`]).

pub mod content;
pub mod dirs;
pub mod handle;
pub mod origin;
pub mod path;
pub mod percent;
pub mod policy;
pub mod referer;
pub mod serve;
pub mod text;
