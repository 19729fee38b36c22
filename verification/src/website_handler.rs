//! Routing of requests for a static website, and the minimal template engine
//! used to answer POST requests.
//!
//! Serving a request takes one round trip through the caller: the handler
//! first names the file it needs (`file_to_read`); the caller reads that file
//! below the public directory and hands its contents back (`respond`).
use vstd::prelude::*;
use vstd::string::*;
use vstd::utf8::*;

use crate::http::method::Method;
use crate::http::request::{Request, RequestView, CLOSE_BRACE, OPEN_BRACE};
use crate::http::response::{optional_text_bytes, Response, ResponseView};
use crate::http::status_code::StatusCode;
use crate::text::{
    bytes_equal, empty_string, find_byte, first_index, lemma_boundary_after_ascii,
    lemma_boundary_at_ascii, lemma_first_of_bounds, lemma_str_bytes, push_text, string_bytes,
    string_text, substring,
};

verus! {

broadcast use vstd::utf8::group_utf8_lib;

/// The byte `-`.
pub const DASH: u8 = 0x2d;

/// The placeholder `{-}` that a template's content replaces.
pub open spec fn placeholder() -> Seq<u8> {
    seq![OPEN_BRACE, DASH, CLOSE_BRACE]
}

/// `s` with every occurrence of `pattern`, scanning from the left and
/// without overlaps, replaced by `replacement`.
pub open spec fn replace_all(s: Seq<u8>, pattern: Seq<u8>, replacement: Seq<u8>) -> Seq<u8>
    decreases s.len(),
{
    if s.len() == 0 {
        Seq::empty()
    } else if 0 < pattern.len() <= s.len() && s.take(pattern.len() as int) == pattern {
        replacement + replace_all(s.skip(pattern.len() as int), pattern, replacement)
    } else {
        seq![s[0]] + replace_all(s.skip(1), pattern, replacement)
    }
}

/// `pattern` occurs in `s` at position `i`.
pub open spec fn occurs_at(s: Seq<u8>, pattern: Seq<u8>, i: int) -> bool {
    0 <= i && i + pattern.len() <= s.len() && s.subrange(i, i + pattern.len()) == pattern
}

/// A template without the placeholder renders to itself, whatever the content.
pub proof fn lemma_render_without_placeholder(template: Seq<u8>, content: Seq<u8>)
    requires
        forall|i: int| !#[trigger] occurs_at(template, placeholder(), i),
    ensures
        replace_all(template, placeholder(), content) == template,
    decreases template.len(),
{
    if template.len() > 0 {
        assert(!occurs_at(template, placeholder(), 0));
        if 3 <= template.len() {
            assert(template.subrange(0, 3) =~= template.take(3));
        }
        let rest = template.skip(1);
        assert forall|i: int| !#[trigger] occurs_at(rest, placeholder(), i) by {
            if occurs_at(rest, placeholder(), i) {
                assert(template.subrange(i + 1, i + 4) =~= rest.subrange(i, i + 3));
                assert(occurs_at(template, placeholder(), i + 1));
            }
        }
        lemma_render_without_placeholder(rest, content);
        assert(seq![template[0]] + rest =~= template);
    }
}

/// Rendering a template that is exactly `{-}` gives the content, whatever
/// it is (the empty content too).
pub proof fn lemma_render_placeholder_alone(content: Seq<u8>)
    ensures
        replace_all(seq![OPEN_BRACE, DASH, CLOSE_BRACE], placeholder(), content) == content,
{
    let t = seq![OPEN_BRACE, DASH, CLOSE_BRACE];
    let empty = Seq::<u8>::empty();
    lemma_render_first_placeholder(empty, empty, content);
    assert(empty + t + empty =~= t);
    assert(replace_all(empty, placeholder(), content) == empty);
    assert(empty + content + empty =~= content);
}

/// Rendering `a {-} b`, where `a` holds no `{-}`, gives `a`, then the
/// content, then `b` rendered: each placeholder is replaced by the content
/// and none is left in place, for every content (the empty content too).
pub proof fn lemma_render_first_placeholder(a: Seq<u8>, b: Seq<u8>, content: Seq<u8>)
    requires
        forall|i: int| !#[trigger] occurs_at(a, placeholder(), i),
    ensures
        replace_all(a + seq![OPEN_BRACE, DASH, CLOSE_BRACE] + b, placeholder(), content) == a
            + content + replace_all(b, placeholder(), content),
    decreases a.len(),
{
    let t = a + seq![OPEN_BRACE, DASH, CLOSE_BRACE] + b;
    if a.len() == 0 {
        assert(t.take(3) =~= placeholder());
        assert(t.skip(3) =~= b);
        assert(a + content + replace_all(b, placeholder(), content) =~= content + replace_all(
            b,
            placeholder(),
            content,
        ));
    } else {
        assert(!occurs_at(a, placeholder(), 0));
        assert(t.len() >= 3);
        assert(t.take(3) != placeholder()) by {
            if t.take(3) == placeholder() {
                assert(t.take(3)[0] == t[0] && t.take(3)[1] == t[1] && t.take(3)[2] == t[2]);
                if a.len() >= 3 {
                    assert(a.subrange(0, 3) =~= t.take(3));
                } else if a.len() == 2 {
                    assert(t[2] == OPEN_BRACE);
                } else {
                    assert(t[1] == OPEN_BRACE);
                }
            }
        }
        assert(t[0] == a[0]);
        assert(replace_all(t, placeholder(), content) == seq![t[0]] + replace_all(
            t.skip(1),
            placeholder(),
            content,
        ));
        let rest = a.skip(1);
        assert forall|i: int| !#[trigger] occurs_at(rest, placeholder(), i) by {
            if occurs_at(rest, placeholder(), i) {
                assert(a.subrange(i + 1, i + 4) =~= rest.subrange(i, i + 3));
                assert(occurs_at(a, placeholder(), i + 1));
            }
        }
        lemma_render_first_placeholder(rest, b, content);
        assert(t.skip(1) =~= rest + seq![OPEN_BRACE, DASH, CLOSE_BRACE] + b);
        assert(seq![a[0]] + (rest + content + replace_all(b, placeholder(), content)) =~= a
            + content + replace_all(b, placeholder(), content));
    }
}

/// The request path that names the home page.
pub open spec fn root_path() -> Seq<u8> {
    encode_utf8("/"@)
}

/// The template used for POST requests when `post.html` cannot be read.
pub open spec fn default_template() -> Seq<u8> {
    encode_utf8("<pre>{-}</pre>"@)
}

/// The answer to a POST request to any path but the root.
pub open spec fn echo_text(path: Seq<u8>, body: Seq<u8>) -> Seq<u8> {
    encode_utf8("POST "@) + path + encode_utf8(" received with body: "@) + body
}

/// The file, relative to the public directory, that answering `r` needs.
pub open spec fn requested_file(r: RequestView) -> Option<Seq<u8>> {
    match r.method {
        Method::Get => if r.path == root_path() {
            Some(encode_utf8("index.html"@))
        } else {
            Some(r.path)
        },
        Method::Post => if r.path == root_path() {
            Some(encode_utf8("post.html"@))
        } else {
            None
        },
        _ => None,
    }
}

/// The response to `r`, given the contents of the requested file (`None`
/// when it could not be read).
pub open spec fn response_for(r: RequestView, file: Option<Seq<u8>>) -> ResponseView {
    match r.method {
        Method::Get => if r.path == root_path() {
            ResponseView { status_code: StatusCode::OK, body: file }
        } else {
            match file {
                Some(contents) => ResponseView {
                    status_code: StatusCode::OK,
                    body: Some(contents),
                },
                None => ResponseView { status_code: StatusCode::NotFound, body: None },
            }
        },
        Method::Post => if r.path == root_path() {
            let template = match file {
                Some(t) => t,
                None => default_template(),
            };
            ResponseView {
                status_code: StatusCode::OK,
                body: Some(replace_all(template, placeholder(), r.body)),
            }
        } else {
            ResponseView { status_code: StatusCode::OK, body: Some(echo_text(r.path, r.body)) }
        },
        _ => ResponseView { status_code: StatusCode::NotFound, body: None },
    }
}

// ---------------------------------------------------------------------------
// Path components
// ---------------------------------------------------------------------------

/// The byte `/`, which separates the components of a path.
pub const SLASH: u8 = 0x2f;

/// The byte `.`.
pub const DOT: u8 = 0x2e;

/// The component that one piece between slashes gives: none for an empty
/// piece or for `.`, the piece itself otherwise.
pub open spec fn piece_component(piece: Seq<u8>) -> Seq<Seq<u8>> {
    if piece.len() == 0 || piece == seq![DOT] {
        Seq::empty()
    } else {
        seq![piece]
    }
}

/// The components given by the pieces of `p` between slashes, in order.
pub open spec fn body_components(p: Seq<u8>) -> Seq<Seq<u8>>
    decreases p.len(),
{
    match first_index(p, SLASH) {
        Some(i) => {
            proof {
                lemma_first_of_bounds(p, SLASH, SLASH);
            }
            piece_component(p.take(i)) + body_components(p.skip(i + 1))
        },
        None => piece_component(p),
    }
}

/// The components of a Unix path, as `Path::components` yields them: a root
/// (written as the empty piece) when the path starts with `/`, a leading `.`
/// when a relative path is `.` or starts with `./`, then each piece between
/// slashes, leaving out empty pieces and `.`.
pub open spec fn path_components(p: Seq<u8>) -> Seq<Seq<u8>> {
    if p.len() > 0 && p[0] == SLASH {
        seq![Seq::<u8>::empty()] + body_components(p)
    } else if p.len() > 0 && p[0] == DOT && (p.len() == 1 || p[1] == SLASH) {
        seq![seq![DOT]] + body_components(p)
    } else {
        body_components(p)
    }
}

/// The components `a` are the first components of `b`.
pub open spec fn components_prefix(a: Seq<Seq<u8>>, b: Seq<Seq<u8>>) -> bool {
    a.len() <= b.len() && b.take(a.len() as int) == a
}

/// The bytes of each slice of a sequence.
pub open spec fn slices_bytes(v: Seq<&[u8]>) -> Seq<Seq<u8>> {
    v.map_values(|x: &[u8]| x@)
}

/// Appends the component of one piece.
fn push_piece<'a>(out: &mut Vec<&'a [u8]>, piece: &'a [u8])
    ensures
        slices_bytes(final(out)@) == slices_bytes(old(out)@) + piece_component(piece@),
{
    if piece.len() == 0 || (piece.len() == 1 && piece[0] == DOT) {
        assert(piece.len() == 0 || piece@ =~= seq![DOT]);
        assert(slices_bytes(out@) + piece_component(piece@) =~= slices_bytes(out@));
    } else {
        assert(piece@ != seq![DOT]);
        out.push(piece);
        assert(slices_bytes(out@) =~= slices_bytes(old(out)@) + piece_component(piece@));
    }
}

/// The components given by the pieces of `p` between slashes.
fn body_components_of<'a>(p: &'a [u8]) -> (res: Vec<&'a [u8]>)
    ensures
        slices_bytes(res@) == body_components(p@),
{
    let mut out: Vec<&'a [u8]> = Vec::new();
    let mut rest: &'a [u8] = p;
    assert(body_components(p@) =~= slices_bytes(out@) + body_components(rest@));
    loop
        invariant_except_break
            body_components(p@) == slices_bytes(out@) + body_components(rest@),
        ensures
            slices_bytes(out@) == body_components(p@),
        decreases rest@.len(),
    {
        let ghost rest_bytes = rest@;
        match find_byte(rest, SLASH) {
            Some(i) => {
                proof {
                    lemma_first_of_bounds(rest_bytes, SLASH, SLASH);
                }
                let (piece, tail) = rest.split_at(i);
                let (_, after) = tail.split_at(1);
                let ghost before = slices_bytes(out@);
                push_piece(&mut out, piece);
                proof {
                    assert(piece@ =~= rest_bytes.take(i as int));
                    assert(after@ =~= rest_bytes.skip(i + 1));
                    assert(body_components(rest_bytes) == piece_component(piece@)
                        + body_components(after@));
                    assert(before + body_components(rest_bytes) =~= slices_bytes(out@)
                        + body_components(after@));
                }
                rest = after;
            },
            None => {
                let ghost before = slices_bytes(out@);
                push_piece(&mut out, rest);
                assert(body_components(rest_bytes) == piece_component(rest_bytes));
                break;
            },
        }
    }
    out
}

/// The components of the path `p`.
fn path_components_of<'a>(p: &'a [u8]) -> (res: Vec<&'a [u8]>)
    ensures
        slices_bytes(res@) == path_components(p@),
{
    let mut res: Vec<&'a [u8]> = Vec::new();
    if p.len() > 0 && p[0] == SLASH {
        let (root, _) = p.split_at(0);
        res.push(root);
        assert(root@ =~= Seq::<u8>::empty());
        assert(res@ =~= seq![root]);
        assert(slices_bytes(res@)[0] == root@);
        assert(slices_bytes(res@) =~= seq![Seq::<u8>::empty()]);
    } else if p.len() > 0 && p[0] == DOT && (p.len() == 1 || p[1] == SLASH) {
        let (dot, _) = p.split_at(1);
        res.push(dot);
        assert(dot@ =~= seq![DOT]);
        assert(res@ =~= seq![dot]);
        assert(slices_bytes(res@)[0] == dot@);
        assert(slices_bytes(res@) =~= seq![seq![DOT]]);
    }
    assert(res@.len() == 0 ==> slices_bytes(res@) =~= Seq::<Seq<u8>>::empty());
    let ghost first = slices_bytes(res@);
    let mut body = body_components_of(p);
    let ghost body_view = slices_bytes(body@);
    res.append(&mut body);
    assert(slices_bytes(res@) =~= first + body_view);
    assert(slices_bytes(res@) =~= path_components(p@));
    res
}

/// Only GET and POST are served: a request with any other method is answered
/// 404 Not Found without a body, whatever its path and whatever file contents
/// are handed in, and it asks for no file.
pub proof fn lemma_other_methods_not_found(r: RequestView, file: Option<Seq<u8>>)
    requires
        r.method != Method::Get,
        r.method != Method::Post,
    ensures
        response_for(r, file).status_code == StatusCode::NotFound,
        response_for(r, file).body is None,
        requested_file(r) is None,
{
}

/// A GET for a path other than `/` is answered 404 without a body exactly
/// when the file cannot be read, and otherwise 200 with the file's contents.
pub proof fn lemma_get_serves_file(r: RequestView, file: Option<Seq<u8>>)
    requires
        r.method == Method::Get,
        r.path != encode_utf8("/"@),
    ensures
        requested_file(r) == Some(r.path),
        file is None ==> response_for(r, file).status_code == StatusCode::NotFound
            && response_for(r, file).body is None,
        file matches Some(contents) ==> response_for(r, file).status_code == StatusCode::OK
            && response_for(r, file).body == Some(contents),
{
}

/// Serves files below a public directory and answers POST requests.
pub struct WebsiteHandler {
    public_path: String,
}

impl WebsiteHandler {
    pub closed spec fn spec_public_path(&self) -> Seq<u8> {
        string_bytes(&self.public_path)
    }

    pub fn new(public_path: String) -> (res: Self)
        ensures
            res.spec_public_path() == string_bytes(&public_path),
    {
        WebsiteHandler { public_path }
    }

    /// The directory below which files are served.
    pub fn public_path(&self) -> (res: &str)
        ensures
            res.spec_bytes() == self.spec_public_path(),
    {
        string_text(&self.public_path)
    }

    /// The path of a file below the public directory: `<public>/<file_path>`.
    pub fn full_path(&self, file_path: &str) -> (res: String)
        ensures
            string_bytes(&res) == self.spec_public_path() + encode_utf8("/"@)
                + file_path.spec_bytes(),
    {
        let mut full = empty_string();
        push_text(&mut full, string_text(&self.public_path));
        push_text(&mut full, "/");
        push_text(&mut full, file_path);
        assert(string_bytes(&full) =~= self.spec_public_path() + encode_utf8("/"@)
            + file_path.spec_bytes());
        full
    }

    /// Whether a file whose canonical path is `canonical` lies below the
    /// public directory, comparing whole path components as
    /// `Path::starts_with` does. Files elsewhere are not served, which blocks
    /// directory traversal such as `GET /../../etc/passwd`.
    pub fn serves_below(&self, canonical: &str) -> (res: bool)
        ensures
            res == components_prefix(
                path_components(self.spec_public_path()),
                path_components(canonical.spec_bytes()),
            ),
    {
        let base = path_components_of(string_text(&self.public_path).as_bytes());
        let target = path_components_of(canonical.as_bytes());
        let ghost base_view = slices_bytes(base@);
        let ghost target_view = slices_bytes(target@);
        if base.len() > target.len() {
            return false;
        }
        let mut i: usize = 0;
        while i < base.len()
            invariant
                base_view == slices_bytes(base@),
                target_view == slices_bytes(target@),
                base_view == path_components(self.spec_public_path()),
                target_view == path_components(canonical.spec_bytes()),
                base@.len() <= target@.len(),
                i <= base@.len(),
                forall|j: int| 0 <= j < i ==> base_view[j] == target_view[j],
            decreases base@.len() - i,
        {
            if !bytes_equal(base[i], target[i]) {
                assert(base_view[i as int] != target_view[i as int]);
                assert(target_view.take(base_view.len() as int)[i as int] != base_view[i as int]);
                return false;
            }
            i = i + 1;
        }
        assert(target_view.take(base_view.len() as int) =~= base_view);
        true
    }

    /// Replaces every `{-}` placeholder in a template with the given content.
    pub fn render_template(template_html: &str, content: &str) -> (res: String)
        ensures
            string_bytes(&res) == replace_all(
                template_html.spec_bytes(),
                placeholder(),
                content.spec_bytes(),
            ),
    {
        let ghost b = template_html.spec_bytes();
        let ghost rep = content.spec_bytes();
        let bytes = template_html.as_bytes();
        let n = bytes.len();
        let mut out = empty_string();
        let mut segment_start: usize = 0;
        let mut i: usize = 0;
        proof {
            lemma_str_bytes(template_html);
            assert(b.skip(0) =~= b);
            assert(b.subrange(0, 0) =~= Seq::<u8>::empty());
            assert(string_bytes(&out) + b.subrange(0, 0) + replace_all(b.skip(0), placeholder(), rep)
                =~= replace_all(b, placeholder(), rep));
        }
        while i < n
            invariant
                bytes@ == b,
                n == b.len(),
                b == template_html.spec_bytes(),
                rep == content.spec_bytes(),
                valid_utf8(b),
                segment_start <= i <= n,
                is_char_boundary(b, segment_start as int),
                replace_all(b, placeholder(), rep) == string_bytes(&out) + b.subrange(
                    segment_start as int,
                    i as int,
                ) + replace_all(b.skip(i as int), placeholder(), rep),
            decreases n - i,
        {
            let ghost rest = b.skip(i as int);
            if n - i >= 3 && bytes[i] == OPEN_BRACE && bytes[i + 1] == DASH && bytes[i + 2]
                == CLOSE_BRACE {
                proof {
                    lemma_boundary_at_ascii(b, i as int);
                    lemma_boundary_after_ascii(b, i + 2);
                    assert(rest.take(3) =~= placeholder());
                    assert(rest.skip(3) =~= b.skip(i + 3));
                }
                let segment = substring(template_html, segment_start, i);
                let ghost before = string_bytes(&out);
                push_text(&mut out, segment);
                push_text(&mut out, content);
                proof {
                    assert(b.subrange(i + 3, i + 3) =~= Seq::<u8>::empty());
                    assert(string_bytes(&out) + b.subrange(i + 3, i + 3) + replace_all(
                        b.skip(i + 3),
                        placeholder(),
                        rep,
                    ) =~= before + b.subrange(segment_start as int, i as int) + replace_all(
                        rest,
                        placeholder(),
                        rep,
                    ));
                }
                i = i + 3;
                segment_start = i;
            } else {
                proof {
                    if n - i >= 3 {
                        assert(rest.take(3)[0] == bytes@[i as int]);
                        assert(rest.take(3)[1] == bytes@[i + 1]);
                        assert(rest.take(3)[2] == bytes@[i + 2]);
                        assert(rest.take(3) != placeholder());
                    }
                    assert(rest.skip(1) =~= b.skip(i + 1));
                    assert(rest[0] == b[i as int]);
                    assert(b.subrange(segment_start as int, i as int) + seq![b[i as int]]
                        =~= b.subrange(segment_start as int, i + 1));
                    assert(string_bytes(&out) + b.subrange(segment_start as int, i + 1)
                        + replace_all(b.skip(i + 1), placeholder(), rep) =~= string_bytes(&out)
                        + b.subrange(segment_start as int, i as int) + replace_all(
                        rest,
                        placeholder(),
                        rep,
                    ));
                }
                i = i + 1;
            }
        }
        let tail = substring(template_html, segment_start, n);
        let ghost before = string_bytes(&out);
        push_text(&mut out, tail);
        proof {
            assert(b.skip(n as int) =~= Seq::<u8>::empty());
            assert(string_bytes(&out) =~= before + b.subrange(segment_start as int, n as int)
                + replace_all(b.skip(n as int), placeholder(), rep));
        }
        out
    }

    /// The file that answering `request` needs, relative to the public
    /// directory, or `None` when the answer needs no file.
    pub fn file_to_read<'a>(&self, request: &'a Request) -> (res: Option<&'a str>)
        ensures
            match res {
                Some(p) => requested_file(request@) == Some(p.spec_bytes()),
                None => requested_file(request@) is None,
            },
    {
        let path = request.path();
        let at_root = bytes_equal(path.as_bytes(), "/".as_bytes());
        match request.method() {
            Method::Get => if at_root {
                Some("index.html")
            } else {
                Some(path)
            },
            Method::Post => if at_root {
                Some("post.html")
            } else {
                None
            },
            _ => None,
        }
    }

    /// The response to `request`, given the contents of the file that
    /// `file_to_read` named (`None` when it named none or it could not be
    /// read).
    pub fn respond(&self, request: &Request, file_contents: Option<String>) -> (res: Response)
        ensures
            res@ == response_for(request@, optional_text_bytes(file_contents)),
    {
        let path = request.path();
        let at_root = bytes_equal(path.as_bytes(), "/".as_bytes());
        match request.method() {
            Method::Get => if at_root {
                Response::new(StatusCode::OK, file_contents)
            } else {
                match file_contents {
                    Some(contents) => Response::new(StatusCode::OK, Some(contents)),
                    None => Response::new(StatusCode::NotFound, None),
                }
            },
            Method::Post => if at_root {
                let rendered_html = match &file_contents {
                    Some(template) => Self::render_template(string_text(template), request.body()),
                    None => Self::render_template("<pre>{-}</pre>", request.body()),
                };
                Response::new(StatusCode::OK, Some(rendered_html))
            } else {
                let mut echo_response = empty_string();
                push_text(&mut echo_response, "POST ");
                push_text(&mut echo_response, path);
                push_text(&mut echo_response, " received with body: ");
                push_text(&mut echo_response, request.body());
                assert(string_bytes(&echo_response) =~= echo_text(request@.path, request@.body));
                Response::new(StatusCode::OK, Some(echo_response))
            },
            _ => Response::new(StatusCode::NotFound, None),
        }
    }
}

} // verus!
