//! The request side of the two local HTTP servers: reading the request line,
//! choosing between the API and static files, static file paths, content
//! types and response headers.
use crate::recognize::split_char;
use crate::render::{decimal, push_decimal};
use crate::scan::{file_extension, file_extension_of};
use crate::server::{HttpResponse, ResponseView, json_type};
use crate::strs::{in_set, lines, lines_of, seqs_view, split_on, split_whitespace, trim_start_by, trim_start_set, words};
use crate::text::{chars_of, ends_with, eq_lit, has_prefix, has_suffix, owned, push_all, push_str, starts_with, string_of};
use crate::web::{percent_decode_with, percent_decoded, result_view, target_parts, Dialect};
use vstd::prelude::*;

verus! {

broadcast use vstd::string::group_string_axioms;

/// The method and target of a request: the first two words of its first
/// line, the method empty and the target `/` where words are missing; none
/// when the request has no line.
pub open spec fn request_parts(request: Seq<char>) -> Option<(Seq<char>, Seq<char>)> {
    let ls = lines(request);
    if ls.len() == 0 {
        None
    } else {
        let w = words(ls[0]);
        Some((if w.len() > 0 { w[0] } else { Seq::empty() }, if w.len() > 1 { w[1] } else { "/"@ }))
    }
}

/// Reads the method and target from the text of a request.
pub fn request_line(request: &str) -> (r: Option<(String, String)>)
    ensures
        match r {
            Some(p) => request_parts(request@) == Some((p.0@, p.1@)),
            None => request_parts(request@) is None,
        },
{
    let rv = chars_of(request);
    let ls = lines_of(rv.as_slice());
    proof {
        assert(seqs_view(ls@) == lines(request@));
    }
    if ls.len() == 0 {
        return None;
    }
    assert(ls@[0]@ == lines(request@)[0]);
    let w = split_whitespace(ls[0].as_slice());
    assert(seqs_view(w@) == words(lines(request@)[0]));
    let method = if w.len() > 0 {
        assert(w@[0]@ == seqs_view(w@)[0]);
        string_of(w[0].as_slice())
    } else {
        let e = String::new();
        assert(e@ =~= Seq::<char>::empty());
        e
    };
    let target = if w.len() > 1 {
        assert(w@[1]@ == seqs_view(w@)[1]);
        string_of(w[1].as_slice())
    } else {
        owned("/")
    };
    Some((method, target))
}

/// What the command-line UI server does with a request.
pub enum Connection {
    /// Answer at once.
    Respond(HttpResponse),
    /// Answer from the API with this target.
    Api(String),
    /// Serve a static file for this target.
    Static(String),
}

/// A connection decision read as plain values.
pub enum ConnectionView {
    Respond(ResponseView),
    Api(Seq<char>),
    Static(Seq<char>),
}

impl View for Connection {
    type V = ConnectionView;

    open spec fn view(&self) -> ConnectionView {
        match self {
            Connection::Respond(r) => ConnectionView::Respond(r@),
            Connection::Api(t) => ConnectionView::Api(t@),
            Connection::Static(t) => ConnectionView::Static(t@),
        }
    }
}

/// How the command-line UI server answers a request: a missing request line
/// is refused with 400, a method other than `GET` with 405; targets below
/// `/api/` go to the API, the others to the static files.
pub open spec fn connection_plan(request: Seq<char>) -> ConnectionView {
    match request_parts(request) {
        None => ConnectionView::Respond(
            ResponseView { status: 400, content_type: "text/plain; charset=utf-8"@, body: "missing request line"@ },
        ),
        Some((method, target)) => if method != "GET"@ {
            ConnectionView::Respond(
                ResponseView { status: 405, content_type: json_type(), body: "{\"error\":\"method not allowed\"}"@ },
            )
        } else if has_prefix(target, "/api/"@) {
            ConnectionView::Api(target)
        } else {
            ConnectionView::Static(target)
        },
    }
}

/// Decides how the command-line UI server answers a request.
pub fn plan_connection(request: &str) -> (r: Connection)
    ensures
        r@ == connection_plan(request@),
{
    match request_line(request) {
        None => Connection::Respond(
            HttpResponse { status: 400, content_type: "text/plain; charset=utf-8", body: owned("missing request line") },
        ),
        Some((method, target)) => {
            let m = chars_of(method.as_str());
            if !eq_lit(m.as_slice(), "GET") {
                return Connection::Respond(
                    HttpResponse {
                        status: 405,
                        content_type: "application/json; charset=utf-8",
                        body: owned("{\"error\":\"method not allowed\"}"),
                    },
                );
            }
            let t = chars_of(target.as_str());
            let api = chars_of("/api/");
            if starts_with(t.as_slice(), api.as_slice()) {
                Connection::Api(target)
            } else {
                Connection::Static(target)
            }
        },
    }
}

/// The target the desktop UI server reads from a request: the second word of
/// its first line, `/` where there is none.
pub open spec fn ui_target(request: Seq<char>) -> Seq<char> {
    match request_parts(request) {
        Some((_, t)) => t,
        None => "/"@,
    }
}

/// Reads the target of a request for the desktop UI server.
pub fn ui_request_target(request: &str) -> (r: String)
    ensures
        r@ == ui_target(request@),
{
    match request_line(request) {
        Some((_, t)) => t,
        None => owned("/"),
    }
}

/// The static file a target asks for.
pub enum StaticFile {
    /// This path below the UI build directory.
    File(String),
    /// A path that climbs out of the build directory.
    Forbidden,
    /// A path whose percent escapes are refused, with the message.
    Failed(String),
}

/// A static file decision read as plain values.
pub enum StaticView {
    File(Seq<char>),
    Forbidden,
    Failed(Seq<char>),
}

impl View for StaticFile {
    type V = StaticView;

    open spec fn view(&self) -> StaticView {
        match self {
            StaticFile::File(p) => StaticView::File(p@),
            StaticFile::Forbidden => StaticView::Forbidden,
            StaticFile::Failed(e) => StaticView::Failed(e@),
        }
    }
}

/// `s` without its leading slashes.
pub open spec fn without_leading_slashes(s: Seq<char>) -> Seq<char> {
    trim_start_by(s, in_set(seq!['/']))
}

/// The static file a target asks for: `/` is `index.html`; any other path is
/// percent-decoded without its leading slashes, and refused when one of its
/// `/`-separated segments is `..`.
pub open spec fn static_plan(target: Seq<char>) -> StaticView {
    let path = target_parts(target).0;
    if path == "/"@ {
        StaticView::File("index.html"@)
    } else {
        match percent_decoded(without_leading_slashes(path), Dialect::Cli) {
            Err(e) => StaticView::Failed(e),
            Ok(decoded) => if split_on(decoded, '/').contains(".."@) {
                StaticView::Forbidden
            } else {
                StaticView::File(decoded)
            },
        }
    }
}

fn strip_slashes(s: &[char]) -> (r: Vec<char>)
    ensures
        r@ == without_leading_slashes(s@),
{
    let set: Vec<char> = vec!['/'];
    assert(set@ =~= seq!['/']);
    trim_start_set(s, set.as_slice())
}

/// Decides which static file a target asks for.
pub fn static_route(target: &str) -> (r: StaticFile)
    ensures
        r@ == static_plan(target@),
{
    let (path, _) = crate::web::split_target(target);
    let pv = chars_of(path.as_str());
    if eq_lit(pv.as_slice(), "/") {
        return StaticFile::File(owned("index.html"));
    }
    let stripped = strip_slashes(pv.as_slice());
    let s = string_of(stripped.as_slice());
    match percent_decode_with(s.as_str(), Dialect::Cli) {
        Err(e) => StaticFile::Failed(e),
        Ok(decoded) => {
            let dv = chars_of(decoded.as_str());
            let segments = split_char(dv.as_slice(), '/');
            let ghost sv = seqs_view(segments@);
            assert(static_plan(target@) == (if sv.contains(".."@) {
                StaticView::Forbidden
            } else {
                StaticView::File(decoded@)
            }));
            let mut i: usize = 0;
            while i < segments.len()
                invariant
                    static_plan(target@) == (if sv.contains(".."@) {
                        StaticView::Forbidden
                    } else {
                        StaticView::File(decoded@)
                    }),
                    i <= segments@.len(),
                    sv == seqs_view(segments@),
                    sv == split_on(decoded@, '/'),
                    forall|j: int| 0 <= j < i ==> sv[j] != ".."@,
                decreases segments.len() - i,
            {
                assert(sv[i as int] == segments@[i as int]@);
                if eq_lit(segments[i].as_slice(), "..") {
                    assert(sv.contains(".."@));
                    return StaticFile::Forbidden;
                }
                i += 1;
            }
            assert(!sv.contains(".."@));
            StaticFile::File(decoded)
        },
    }
}

/// The answer to a path that climbs out of the build directory.
pub fn forbidden_response() -> (r: HttpResponse)
    ensures
        r@ == (ResponseView { status: 403, content_type: "text/plain; charset=utf-8"@, body: "path traversal is not allowed"@ }),
{
    HttpResponse { status: 403, content_type: "text/plain; charset=utf-8", body: owned("path traversal is not allowed") }
}

/// The embedded asset a path of the desktop UI asks for: `/` is
/// `index.html`, any other path loses its leading slashes.
pub open spec fn asset_path(path: Seq<char>) -> Seq<char> {
    if path == "/"@ {
        "index.html"@
    } else {
        without_leading_slashes(path)
    }
}

/// Names the embedded asset a desktop UI path asks for.
pub fn asset_path_for(path: &str) -> (r: String)
    ensures
        r@ == asset_path(path@),
{
    let pv = chars_of(path);
    if eq_lit(pv.as_slice(), "/") {
        owned("index.html")
    } else {
        string_of(strip_slashes(pv.as_slice()).as_slice())
    }
}

/// The content type of a static file, by its extension.
pub open spec fn static_type(ext: Option<Seq<char>>) -> Seq<char> {
    match ext {
        Some(e) => if e == "html"@ {
            "text/html; charset=utf-8"@
        } else if e == "css"@ {
            "text/css; charset=utf-8"@
        } else if e == "js"@ {
            "text/javascript; charset=utf-8"@
        } else if e == "svg"@ {
            "image/svg+xml; charset=utf-8"@
        } else if e == "json"@ {
            "application/json; charset=utf-8"@
        } else if e == "png"@ {
            "image/png"@
        } else {
            "application/octet-stream"@
        },
        None => "application/octet-stream"@,
    }
}

/// The content type a static file with this name is served with.
pub fn content_type_for(file_name: &str) -> (r: &'static str)
    ensures
        r@ == static_type(file_extension(file_name@)),
{
    match file_extension_of(file_name) {
        None => "application/octet-stream",
        Some(e) => {
            let ev = chars_of(e.as_str());
            let x = ev.as_slice();
            if eq_lit(x, "html") {
                "text/html; charset=utf-8"
            } else if eq_lit(x, "css") {
                "text/css; charset=utf-8"
            } else if eq_lit(x, "js") {
                "text/javascript; charset=utf-8"
            } else if eq_lit(x, "svg") {
                "image/svg+xml; charset=utf-8"
            } else if eq_lit(x, "json") {
                "application/json; charset=utf-8"
            } else if eq_lit(x, "png") {
                "image/png"
            } else {
                "application/octet-stream"
            }
        },
    }
}

/// The content type of an embedded asset, by the end of its path.
pub open spec fn asset_type(p: Seq<char>) -> Seq<char> {
    if has_suffix(p, ".html"@) {
        "text/html; charset=utf-8"@
    } else if has_suffix(p, ".css"@) {
        "text/css; charset=utf-8"@
    } else if has_suffix(p, ".js"@) || has_suffix(p, ".mjs"@) {
        "text/javascript; charset=utf-8"@
    } else if has_suffix(p, ".svg"@) {
        "image/svg+xml; charset=utf-8"@
    } else if has_suffix(p, ".json"@) {
        "application/json; charset=utf-8"@
    } else if has_suffix(p, ".png"@) {
        "image/png"@
    } else if has_suffix(p, ".ico"@) {
        "image/x-icon"@
    } else if has_suffix(p, ".woff2"@) {
        "font/woff2"@
    } else if has_suffix(p, ".woff"@) {
        "font/woff"@
    } else {
        "application/octet-stream"@
    }
}

fn ends_lit(p: &[char], suffix: &str) -> (r: bool)
    ensures
        r == has_suffix(p@, suffix@),
{
    let s = chars_of(suffix);
    ends_with(p, s.as_slice())
}

/// The content type an embedded asset is served with.
pub fn mime_for(path: &str) -> (r: &'static str)
    ensures
        r@ == asset_type(path@),
{
    let pv = chars_of(path);
    let p = pv.as_slice();
    if ends_lit(p, ".html") {
        "text/html; charset=utf-8"
    } else if ends_lit(p, ".css") {
        "text/css; charset=utf-8"
    } else if ends_lit(p, ".js") || ends_lit(p, ".mjs") {
        "text/javascript; charset=utf-8"
    } else if ends_lit(p, ".svg") {
        "image/svg+xml; charset=utf-8"
    } else if ends_lit(p, ".json") {
        "application/json; charset=utf-8"
    } else if ends_lit(p, ".png") {
        "image/png"
    } else if ends_lit(p, ".ico") {
        "image/x-icon"
    } else if ends_lit(p, ".woff2") {
        "font/woff2"
    } else if ends_lit(p, ".woff") {
        "font/woff"
    } else {
        "application/octet-stream"
    }
}

/// The reason phrase of a status.
pub open spec fn reason_phrase(status: u16, d: Dialect) -> Seq<char> {
    if status == 200 {
        "OK"@
    } else if status == 400 {
        "Bad Request"@
    } else if status == 404 {
        "Not Found"@
    } else if d == Dialect::Cli && status == 403 {
        "Forbidden"@
    } else if d == Dialect::Cli && status == 405 {
        "Method Not Allowed"@
    } else if d == Dialect::Cli {
        "Internal Server Error"@
    } else {
        "Error"@
    }
}

/// The head of a response: status line, content type, length, no caching,
/// closing connection (and, from the desktop UI, any origin allowed).
pub open spec fn response_head(status: u16, content_type: Seq<char>, len: nat, d: Dialect) -> Seq<char> {
    "HTTP/1.1 "@ + decimal(status as nat) + " "@ + reason_phrase(status, d) + "\r\nContent-Type: "@ + content_type
        + "\r\nContent-Length: "@ + decimal(len) + (if d == Dialect::Ui {
        "\r\nAccess-Control-Allow-Origin: *"@
    } else {
        Seq::empty()
    }) + "\r\nCache-Control: no-store\r\nConnection: close\r\n\r\n"@
}

fn reason(status: u16, d: Dialect) -> (r: &'static str)
    ensures
        r@ == reason_phrase(status, d),
{
    if status == 200 {
        "OK"
    } else if status == 400 {
        "Bad Request"
    } else if status == 404 {
        "Not Found"
    } else {
        match d {
            Dialect::Cli => if status == 403 {
                "Forbidden"
            } else if status == 405 {
                "Method Not Allowed"
            } else {
                "Internal Server Error"
            },
            Dialect::Ui => "Error",
        }
    }
}

/// Writes the head of a response with a body of `len` bytes.
pub fn response_header(status: u16, content_type: &str, len: usize, d: Dialect) -> (r: String)
    ensures
        r@ == response_head(status, content_type@, len as nat, d),
{
    let mut out: Vec<char> = Vec::new();
    push_str(&mut out, "HTTP/1.1 ");
    push_decimal(&mut out, status as usize);
    push_str(&mut out, " ");
    push_str(&mut out, reason(status, d));
    push_str(&mut out, "\r\nContent-Type: ");
    push_str(&mut out, content_type);
    push_str(&mut out, "\r\nContent-Length: ");
    push_decimal(&mut out, len);
    match d {
        Dialect::Ui => push_str(&mut out, "\r\nAccess-Control-Allow-Origin: *"),
        Dialect::Cli => {},
    }
    push_str(&mut out, "\r\nCache-Control: no-store\r\nConnection: close\r\n\r\n");
    assert(out@ =~= response_head(status, content_type@, len as nat, d));
    string_of(out.as_slice())
}

/// Whether a request path belongs to the API.
pub fn is_api_path(path: &str) -> (r: bool)
    ensures
        r == has_prefix(path@, "/api/"@),
{
    let p = chars_of(path);
    let api = chars_of("/api/");
    starts_with(p.as_slice(), api.as_slice())
}

} // verus!
