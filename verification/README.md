# ext_protocol

The content protocol `xhub-ext://`, which shows the files of extensions in web views. Each extension
has an origin of its own, and nothing but the public files below its directory can be read through
it.

- `src/` is the library, verified with Verus:
  - `text`: texts as sequences of characters;
  - `percent`: percent encoding of path segments;
  - `origin`: extension ids, hosts, origins and entry URLs;
  - `path`: request paths, and what is refused in them;
  - `referer`: which extension a request belongs to, by host and referer;
  - `content`: media types, and the names that are never shown;
  - `policy`: the content security policy and the headers of an answer;
  - `dirs`: the directories of extensions under development;
  - `serve`: the steps from a request path to the content of a file;
  - `handle`: a request as a whole.
- `app/` is the handler around it: it reads the disk and asks the host application.
- `tests/` runs the library on examples.

The functions whose names start with `law_` state what holds of the library as a whole.
