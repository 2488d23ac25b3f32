//! The server core: the route registry, the asset mount table, and the
//! dispatcher. The dispatcher is split around the caller's I/O: `plan` decides
//! from the parsed request whether a file must be read or a body read or
//! drained, and `finish_route` takes the completed request and produces the
//! wire bytes, invoking the registered handler where one matches.

use vstd::prelude::*;

verus! {

use vstd::string::StrSliceExecFns;
use vstd::string::StringExecFns;
use crate::error::Error;
use crate::http::mime::{read_mime, spec_mime, HTML_UTF_8};
use crate::http::request::{Request, spec_content_length};
use crate::http::response::{Response, Status, spec_serialize, status_head_bytes,
    default_response};
use crate::table::{StrTable, assoc_contains, assoc_get, assoc_index, lemma_assoc_get_index};
use crate::text::{last_index_of_char, rfind_char, lower_string, lower_chars};
use crate::utils::{find_directory, spec_find_directory};

/// The view of one path's method table: lowercased method names, each with
/// the first handler registered for it.
pub open spec fn methods_view<F>(ms: Seq<(String, F)>) -> Seq<(Seq<char>, F)> {
    ms.map_values(|p: (String, F)| (p.0@, p.1))
}

/// The view of the route registry: each path with its method table, in
/// registration order.
pub open spec fn routes_view<F>(rs: Seq<(String, Vec<(String, F)>)>) -> Seq<
    (Seq<char>, Seq<(Seq<char>, F)>),
> {
    rs.map_values(|e: (String, Vec<(String, F)>)| (e.0@, methods_view(e.1@)))
}

/// The registry after registering a handler: a new path opens a fresh method
/// table; a new method on a known path extends its table; a (path, method)
/// pair already present is left alone, so the first registration wins.
pub open spec fn spec_register<F>(
    rs: Seq<(Seq<char>, Seq<(Seq<char>, F)>)>,
    path: Seq<char>,
    method: Seq<char>,
    h: F,
) -> Seq<(Seq<char>, Seq<(Seq<char>, F)>)> {
    if assoc_contains(rs, path) {
        let i = assoc_index(rs, path);
        let table = rs[i].1;
        if assoc_contains(table, method) {
            rs
        } else {
            rs.update(i, (path, table.push((method, h))))
        }
    } else {
        rs.push((path, seq![(method, h)]))
    }
}

/// The last path segment: everything after the final slash, or the whole path
/// when it has none.
pub open spec fn final_segment(p: Seq<char>) -> Seq<char> {
    match last_index_of_char(p, '/') {
        None => p,
        Some(i) => p.skip(i + 1),
    }
}

/// True when the request path looks like a file reference: it does not end in
/// a slash and its final segment contains a dot.
pub open spec fn is_file_path(p: Seq<char>) -> bool {
    p.len() > 0 && p.last() != '/' && last_index_of_char(final_segment(p), '.') is Some
}

/// The path with its final segment removed: up to the last slash, the root
/// slash kept, empty when there is no slash.
pub open spec fn parent_path(p: Seq<char>) -> Seq<char> {
    match last_index_of_char(p, '/') {
        None => Seq::empty(),
        Some(i) => if i == 0 {
            p.take(1)
        } else {
            p.take(i)
        },
    }
}

/// The path used for mount and route lookup: the parent directory for a file
/// reference, the path itself otherwise.
pub open spec fn lookup_path(p: Seq<char>) -> Seq<char> {
    if is_file_path(p) {
        parent_path(p)
    } else {
        p
    }
}

/// The extension of the final segment: what follows its last dot, provided
/// the dot is not its first character; empty otherwise.
pub open spec fn extension_of(p: Seq<char>) -> Seq<char> {
    let seg = final_segment(p);
    match last_index_of_char(seg, '.') {
        None => Seq::empty(),
        Some(i) => if i > 0 {
            seg.skip(i + 1)
        } else {
            Seq::empty()
        },
    }
}

/// `a` and `b` joined as filesystem paths, with exactly the slashes already
/// present at the seam, or one added when neither side brings one; an empty
/// `b` leaves `a` alone.
pub open spec fn join_path(a: Seq<char>, b: Seq<char>) -> Seq<char> {
    if b.len() == 0 {
        a
    } else if a.len() > 0 && a.last() == '/' && b.first() == '/' {
        a + b.skip(1)
    } else if (a.len() == 0 || a.last() != '/') && b.first() != '/' {
        a + seq!['/'] + b
    } else {
        a + b
    }
}

/// The mount table scanned with prefixes of `lp` of growing length, starting
/// at one character: the first prefix that is a mount key wins, with its
/// directory.
pub open spec fn scan_mounts(
    ms: Seq<(Seq<char>, Seq<char>)>,
    lp: Seq<char>,
    y: int,
) -> Option<(Seq<char>, Seq<char>)>
    decreases lp.len() - y + 1,
{
    if y < 1 || y > lp.len() {
        None
    } else {
        match assoc_get(ms, lp.take(y)) {
            Some(d) => Some((lp.take(y), d)),
            None => scan_mounts(ms, lp, y + 1),
        }
    }
}

/// The mount serving `lp`, by the growing-prefix scan.
pub open spec fn find_mount(ms: Seq<(Seq<char>, Seq<char>)>, lp: Seq<char>) -> Option<
    (Seq<char>, Seq<char>),
> {
    scan_mounts(ms, lp, 1)
}

/// The file served for request path `p` from the mount (`key`, `dir`): the
/// part of `p` after `key` appended to `dir`, and `index.html` appended for a
/// directory request.
pub open spec fn asset_file_path(p: Seq<char>, key: Seq<char>, dir: Seq<char>) -> Seq<char> {
    let rem = match spec_find_directory(key, p) {
        Some(r) => r,
        None => Seq::empty(),
    };
    let base = join_path(dir, rem);
    if is_file_path(p) {
        base
    } else {
        join_path(base, "index.html"@)
    }
}

/// The MIME type served for request path `p`: by extension for a file
/// reference, HTML for a directory request.
pub open spec fn asset_mime(p: Seq<char>) -> Seq<char> {
    if is_file_path(p) {
        spec_mime(extension_of(p))
    } else {
        "text/html; charset=utf-8"@
    }
}

/// The last path segment of `p`.
fn final_segment_str<'a>(p: &'a str) -> (r: &'a str)
    ensures
        r@ == final_segment(p@),
{
    match rfind_char(p, '/') {
        None => p,
        Some(i) => {
            proof {
                crate::text::lemma_last_index_of_char(p@, '/');
            }
            let n = p.unicode_len();
            p.substring_char(i + 1, n)
        },
    }
}

/// Whether the request path looks like a file reference.
fn is_file_request(p: &str) -> (r: bool)
    ensures
        r == is_file_path(p@),
{
    let n = p.unicode_len();
    if n == 0 {
        return false;
    }
    if p.get_char(n - 1) == '/' {
        return false;
    }
    let seg = final_segment_str(p);
    rfind_char(seg, '.').is_some()
}

/// The lookup path of the request path, as an owned string.
fn lookup_path_string(p: &str) -> (r: String)
    ensures
        r@ == lookup_path(p@),
{
    if is_file_request(p) {
        match rfind_char(p, '/') {
            None => String::new(),
            Some(i) => {
                proof {
                    crate::text::lemma_last_index_of_char(p@, '/');
                }
                if i == 0 {
                    String::from_str(p.substring_char(0, 1))
                } else {
                    String::from_str(p.substring_char(0, i))
                }
            },
        }
    } else {
        String::from_str(p)
    }
}

/// The extension of the request path's final segment, or the empty string.
fn extension_str<'a>(p: &'a str) -> (r: &'a str)
    ensures
        r@ == extension_of(p@),
{
    let seg = final_segment_str(p);
    match rfind_char(seg, '.') {
        None => {
            proof {
                reveal_strlit("");
                assert(""@ =~= extension_of(p@));
            }
            ""
        },
        Some(i) => {
            proof {
                crate::text::lemma_last_index_of_char(seg@, '.');
            }
            let n = seg.unicode_len();
            if i > 0 {
                seg.substring_char(i + 1, n)
            } else {
                proof {
                    reveal_strlit("");
                    assert(""@ =~= extension_of(p@));
                }
                ""
            }
        },
    }
}

/// The two paths joined.
fn join_path_str(a: &str, b: &str) -> (r: String)
    ensures
        r@ == join_path(a@, b@),
{
    let alen = a.unicode_len();
    let blen = b.unicode_len();
    if blen == 0 {
        let r = String::from_str(a);
        proof {
            assert(r@ =~= join_path(a@, b@));
        }
        return r;
    }
    let a_slash = alen > 0 && a.get_char(alen - 1) == '/';
    let b_slash = b.get_char(0) == '/';
    if a_slash && b_slash {
        let mut r = String::from_str(a);
        r.append(b.substring_char(1, blen));
        proof {
            assert(r@ =~= join_path(a@, b@));
        }
        r
    } else if !a_slash && !b_slash {
        let mut r = String::from_str(a);
        r.append("/");
        r.append(b);
        proof {
            reveal_strlit("/");
            assert("/"@ =~= seq!['/']);
            assert(r@ =~= join_path(a@, b@));
        }
        r
    } else {
        let mut r = String::from_str(a);
        r.append(b);
        proof {
            assert(r@ =~= join_path(a@, b@));
        }
        r
    }
}

/// What the caller must do next for a request: serve a file from disk, read
/// the body and invoke the route's handler, or drain the body and let the
/// route lookup report its failure.
pub enum Dispatch {
    /// The request is served by a mount: read this file and answer with this
    /// MIME type.
    Asset { file: String, mime: String },
    /// A route table exists for the lookup path: read `content_length` bytes
    /// of body if present, then finish the route.
    Route { content_length: Option<usize> },
    /// No mount and no route table: drain `content_length` bytes if present,
    /// then finish the route, which reports the failure status.
    Deny { content_length: Option<usize> },
}

/// The server: a listen port, the route registry (exact path, then lowercased
/// method, to handler; the first registration of a pair wins) and the asset
/// mount table (path prefix to directory; the first registration of a prefix
/// wins). Registration happens before serving begins; serving reads only.
pub struct Rymo<F> {
    pub port: String,
    pub routes: Vec<(String, Vec<(String, F)>)>,
    pub assets_routes: StrTable,
}

impl<F> Rymo<F> {
    /// The route registry, as (path, method table) pairs.
    pub open spec fn spec_routes(&self) -> Seq<(Seq<char>, Seq<(Seq<char>, F)>)> {
        routes_view(self.routes@)
    }

    /// The mount table, as (prefix, directory) pairs.
    pub open spec fn spec_mounts(&self) -> Seq<(Seq<char>, Seq<char>)> {
        self.assets_routes@
    }

    /// A server for the given port with nothing registered.
    pub fn new(port: &str) -> (r: Rymo<F>)
        ensures
            r.port@ == port@,
            r.spec_routes() == Seq::<(Seq<char>, Seq<(Seq<char>, F)>)>::empty(),
            r.spec_mounts() == Seq::<(Seq<char>, Seq<char>)>::empty(),
    {
        let r = Rymo { port: String::from_str(port), routes: Vec::new(), assets_routes:
            StrTable::new() };
        proof {
            assert(r.spec_routes() =~= Seq::<(Seq<char>, Seq<(Seq<char>, F)>)>::empty());
        }
        r
    }

    /// The index of the route entry for `path`, if any.
    fn find_path_index(&self, path: &str) -> (r: Option<usize>)
        ensures
            match r {
                Some(i) => assoc_contains(self.spec_routes(), path@) && i == assoc_index(
                    self.spec_routes(),
                    path@,
                ) && i < self.spec_routes().len(),
                None => !assoc_contains(self.spec_routes(), path@),
            },
    {
        let mut i: usize = 0;
        while i < self.routes.len()
            invariant
                i <= self.routes@.len(),
                self.spec_routes().len() == self.routes@.len(),
                forall|j: int| 0 <= j < i ==> (#[trigger] self.spec_routes()[j]).0 != path@,
            decreases self.routes@.len() - i,
        {
            if crate::text::str_eq(self.routes[i].0.as_str(), path) {
                proof {
                    lemma_assoc_get_index(self.spec_routes(), path@);
                    assert(self.spec_routes()[i as int].0 == path@);
                    assert(assoc_index(self.spec_routes(), path@) == i);
                }
                return Some(i);
            }
            i = i + 1;
        }
        None
    }

    /// Registers `handler` for the exact pair (`path`, `method`); the first
    /// registration for a pair wins and later ones are ignored. The method
    /// table is keyed by lowercased method names, as the dispatcher looks
    /// them up.
    pub fn register(&mut self, path: &str, method: &str, handler: F)
        ensures
            final(self).port@ == old(self).port@,
            final(self).spec_mounts() == old(self).spec_mounts(),
            final(self).spec_routes() == spec_register(
                old(self).spec_routes(),
                path@,
                lower_chars(method@),
                handler,
            ),
    {
        let lowered = lower_string(method);
        let method = lowered.as_str();
        let ghost gh = handler;
        let ghost old_routes = self.spec_routes();
        match self.find_path_index(path) {
            Some(i) => {
                proof {
                    lemma_assoc_get_index(old_routes, path@);
                }
                let mut entry = self.routes.remove(i);
                let ghost old_table = methods_view(entry.1@);
                proof {
                    assert(old_routes[i as int] == (entry.0@, old_table));
                }
                match find_method_index(&entry.1, method) {
                    Some(_) => {
                        self.routes.insert(i, entry);
                        proof {
                            assert(self.spec_routes() =~= old_routes);
                        }
                    },
                    None => {
                        entry.1.push((String::from_str(method), handler));
                        proof {
                            assert(methods_view(entry.1@) =~= old_table.push((method@, gh)));
                        }
                        self.routes.insert(i, entry);
                        proof {
                            assert(self.spec_routes() =~= old_routes.update(
                                i as int,
                                (path@, old_table.push((method@, gh))),
                            ));
                        }
                    },
                }
            },
            None => {
                let mut table: Vec<(String, F)> = Vec::new();
                table.push((String::from_str(method), handler));
                proof {
                    assert(methods_view(table@) =~= seq![(method@, gh)]);
                }
                self.routes.push((String::from_str(path), table));
                proof {
                    assert(self.spec_routes() =~= old_routes.push(
                        (path@, seq![(method@, gh)]),
                    ));
                }
            },
        }
    }

    /// Registers `handler` for `GET` requests on `path`.
    pub fn get(&mut self, path: &str, handler: F)
        ensures
            final(self).port@ == old(self).port@,
            final(self).spec_mounts() == old(self).spec_mounts(),
            final(self).spec_routes() == spec_register(
                old(self).spec_routes(),
                path@,
                "get"@,
                handler,
            ),
    {
        proof {
            reveal_strlit("get");
            assert(lower_chars("get"@) =~= "get"@);
        }
        self.register(path, "get", handler)
    }

    /// Registers `handler` for `HEAD` requests on `path`.
    pub fn head(&mut self, path: &str, handler: F)
        ensures
            final(self).port@ == old(self).port@,
            final(self).spec_mounts() == old(self).spec_mounts(),
            final(self).spec_routes() == spec_register(
                old(self).spec_routes(),
                path@,
                "head"@,
                handler,
            ),
    {
        proof {
            reveal_strlit("head");
            assert(lower_chars("head"@) =~= "head"@);
        }
        self.register(path, "head", handler)
    }

    /// Registers `handler` for `POST` requests on `path`.
    pub fn post(&mut self, path: &str, handler: F)
        ensures
            final(self).port@ == old(self).port@,
            final(self).spec_mounts() == old(self).spec_mounts(),
            final(self).spec_routes() == spec_register(
                old(self).spec_routes(),
                path@,
                "post"@,
                handler,
            ),
    {
        proof {
            reveal_strlit("post");
            assert(lower_chars("post"@) =~= "post"@);
        }
        self.register(path, "post", handler)
    }

    /// Registers `handler` for `PUT` requests on `path`.
    pub fn put(&mut self, path: &str, handler: F)
        ensures
            final(self).port@ == old(self).port@,
            final(self).spec_mounts() == old(self).spec_mounts(),
            final(self).spec_routes() == spec_register(
                old(self).spec_routes(),
                path@,
                "put"@,
                handler,
            ),
    {
        proof {
            reveal_strlit("put");
            assert(lower_chars("put"@) =~= "put"@);
        }
        self.register(path, "put", handler)
    }

    /// Registers `handler` for `DELETE` requests on `path`.
    pub fn delete(&mut self, path: &str, handler: F)
        ensures
            final(self).port@ == old(self).port@,
            final(self).spec_mounts() == old(self).spec_mounts(),
            final(self).spec_routes() == spec_register(
                old(self).spec_routes(),
                path@,
                "delete"@,
                handler,
            ),
    {
        proof {
            reveal_strlit("delete");
            assert(lower_chars("delete"@) =~= "delete"@);
        }
        self.register(path, "delete", handler)
    }

    /// Registers `handler` for `CONNECT` requests on `path`.
    pub fn connect(&mut self, path: &str, handler: F)
        ensures
            final(self).port@ == old(self).port@,
            final(self).spec_mounts() == old(self).spec_mounts(),
            final(self).spec_routes() == spec_register(
                old(self).spec_routes(),
                path@,
                "connect"@,
                handler,
            ),
    {
        proof {
            reveal_strlit("connect");
            assert(lower_chars("connect"@) =~= "connect"@);
        }
        self.register(path, "connect", handler)
    }

    /// Registers `handler` for `OPTIONS` requests on `path`.
    pub fn options(&mut self, path: &str, handler: F)
        ensures
            final(self).port@ == old(self).port@,
            final(self).spec_mounts() == old(self).spec_mounts(),
            final(self).spec_routes() == spec_register(
                old(self).spec_routes(),
                path@,
                "options"@,
                handler,
            ),
    {
        proof {
            reveal_strlit("options");
            assert(lower_chars("options"@) =~= "options"@);
        }
        self.register(path, "options", handler)
    }

    /// Registers `handler` for `TRACE` requests on `path`.
    pub fn trace(&mut self, path: &str, handler: F)
        ensures
            final(self).port@ == old(self).port@,
            final(self).spec_mounts() == old(self).spec_mounts(),
            final(self).spec_routes() == spec_register(
                old(self).spec_routes(),
                path@,
                "trace"@,
                handler,
            ),
    {
        proof {
            reveal_strlit("trace");
            assert(lower_chars("trace"@) =~= "trace"@);
        }
        self.register(path, "trace", handler)
    }

    /// Registers `handler` for `PATCH` requests on `path`.
    pub fn patch(&mut self, path: &str, handler: F)
        ensures
            final(self).port@ == old(self).port@,
            final(self).spec_mounts() == old(self).spec_mounts(),
            final(self).spec_routes() == spec_register(
                old(self).spec_routes(),
                path@,
                "patch"@,
                handler,
            ),
    {
        proof {
            reveal_strlit("patch");
            assert(lower_chars("patch"@) =~= "patch"@);
        }
        self.register(path, "patch", handler)
    }

    /// Mounts the directory `assets_path` at the path prefix `route_path`;
    /// the first mount for a prefix wins. The handler argument is kept for
    /// the registration surface and is not consulted.
    pub fn assets(&mut self, route_path: &str, assets_path: &str, _handler: F)
        ensures
            final(self).port@ == old(self).port@,
            final(self).spec_routes() == old(self).spec_routes(),
            final(self).spec_mounts() == if assoc_contains(old(self).spec_mounts(), route_path@) {
                old(self).spec_mounts()
            } else {
                old(self).spec_mounts().push((route_path@, assets_path@))
            },
    {
        self.assets_routes.insert_if_absent(
            String::from_str(route_path),
            String::from_str(assets_path),
        );
    }

    /// The mount serving `lp`, scanning its prefixes from the shortest up.
    fn find_mount_str(&self, lp: &str) -> (r: Option<(String, String)>)
        ensures
            match r {
                Some(kd) => find_mount(self.spec_mounts(), lp@) == Some((kd.0@, kd.1@)),
                None => find_mount(self.spec_mounts(), lp@) is None,
            },
    {
        let n = lp.unicode_len();
        let mut y0: usize = 0;
        while y0 < n
            invariant
                y0 <= n,
                n == lp@.len(),
                scan_mounts(self.spec_mounts(), lp@, 1) == scan_mounts(
                    self.spec_mounts(),
                    lp@,
                    y0 + 1,
                ),
            decreases n - y0,
        {
            let y = y0 + 1;
            let pre = lp.substring_char(0, y);
            match self.assets_routes.get(pre) {
                Some(d) => {
                    proof {
                        assert(pre@ == lp@.take(y as int));
                    }
                    return Some((String::from_str(pre), d.clone()));
                },
                None => {
                    proof {
                        assert(assoc_get(self.spec_mounts(), lp@.take(y as int)) is None);
                    }
                },
            }
            y0 = y;
        }
        None
    }

    /// Decides how the request is served: by a mount (a file to read), by the
    /// route registry (a body to read, then a handler), or by neither (a body
    /// to drain, then a failure status). A present but malformed
    /// content-length is a `BadRequest` wherever a body would be read.
    pub fn plan(&self, req: &Request) -> (r: Result<Dispatch, Error>)
        ensures
            ({
                let lp = lookup_path(req@.path);
                match find_mount(self.spec_mounts(), lp) {
                    Some(kd) => r matches Ok(d) && d matches Dispatch::Asset { file, mime }
                        && file@ == asset_file_path(req@.path, kd.0, kd.1) && mime@ == asset_mime(
                        req@.path,
                    ),
                    None => {
                        match spec_content_length(req@.headers) {
                            None => r matches Err(e) && e is BadRequest,
                            Some(cl) => r matches Ok(d) && ({
                                let want = if assoc_contains(self.spec_routes(), lp) {
                                    d matches Dispatch::Route { content_length } && ({
                                        let got = content_length;
                                        match cl {
                                            None => got is None,
                                            Some(l) => got matches Some(g) && g == l,
                                        }
                                    })
                                } else {
                                    d matches Dispatch::Deny { content_length } && ({
                                        let got = content_length;
                                        match cl {
                                            None => got is None,
                                            Some(l) => got matches Some(g) && g == l,
                                        }
                                    })
                                };
                                want
                            }),
                        }
                    },
                }
            }),
    {
        let lp = lookup_path_string(req.path.as_str());
        match self.find_mount_str(lp.as_str()) {
            Some((key, dir)) => {
                let rem: String = match find_directory(key.as_str(), req.path.as_str()) {
                    Some(rest) => String::from_str(rest),
                    None => String::new(),
                };
                proof {
                    assert(rem@ == (match spec_find_directory(key@, req@.path) {
                        Some(r_) => r_,
                        None => Seq::<char>::empty(),
                    }));
                }
                let base = join_path_str(dir.as_str(), rem.as_str());
                if is_file_request(req.path.as_str()) {
                    let ext = extension_str(req.path.as_str());
                    let mime = String::from_str(read_mime(ext));
                    Ok(Dispatch::Asset { file: base, mime })
                } else {
                    let file = join_path_str(base.as_str(), "index.html");
                    let mime = String::from_str(HTML_UTF_8);
                    Ok(Dispatch::Asset { file, mime })
                }
            },
            None => {
                let registered = self.find_path_index(lp.as_str()).is_some();
                match req.content_length() {
                    Err(e) => Err(e),
                    Ok(cl) => {
                        if registered {
                            Ok(Dispatch::Route { content_length: cl })
                        } else {
                            Ok(Dispatch::Deny { content_length: cl })
                        }
                    },
                }
            },
        }
    }
}

/// The routing law behind dispatch: registering `h` for (`path`, `method`) in
/// a registry that has no entry for `path` makes the lookup of `path` find
/// exactly the one-entry method table; in that table `method` finds `h` and
/// any other method finds nothing, and any other unregistered path still
/// finds no table. Through the contract of `finish_route`, a request whose
/// lookup path and lowercased method match the registration invokes `h`, one
/// with another method is answered 405, and one for an unknown path 404.
pub proof fn lemma_routing<F>(
    rs: Seq<(Seq<char>, Seq<(Seq<char>, F)>)>,
    path: Seq<char>,
    method: Seq<char>,
    h: F,
    other_method: Seq<char>,
    other_path: Seq<char>,
)
    requires
        !assoc_contains(rs, path),
        other_method != method,
        other_path != path,
        !assoc_contains(rs, other_path),
    ensures
        ({
            let rs2 = spec_register(rs, path, method, h);
            &&& assoc_get(rs2, path) == Some(seq![(method, h)])
            &&& assoc_get(seq![(method, h)], method) == Some(h)
            &&& assoc_get(seq![(method, h)], other_method) is None
            &&& assoc_get(rs2, other_path) is None
        }),
{
    let t = seq![(method, h)];
    let rs2 = rs.push((path, t));
    assert(spec_register(rs, path, method, h) == rs2);
    lemma_assoc_get_index(rs, path);
    lemma_assoc_get_index(rs, other_path);
    crate::table::lemma_assoc_get_push(rs, (path, t), path);
    crate::table::lemma_assoc_get_push(rs, (path, t), other_path);
    assert(t.first() == (method, h));
    assert(t.drop_first() =~= Seq::<(Seq<char>, F)>::empty());
    assert(assoc_get(Seq::<(Seq<char>, F)>::empty(), other_method) is None);
    assert(assoc_get(t, method) == Some(h));
    assert(assoc_get(t, other_method) is None);
    assert(assoc_get(rs2, path) == Some(t));
    assert(assoc_get(rs2, other_path) is None);
}

/// The index of the first entry for `method` in a method table, if any.
fn find_method_index<F>(ms: &Vec<(String, F)>, method: &str) -> (r: Option<usize>)
    ensures
        match r {
            Some(j) => assoc_contains(methods_view(ms@), method@) && j == assoc_index(
                methods_view(ms@),
                method@,
            ) && j < ms@.len(),
            None => !assoc_contains(methods_view(ms@), method@),
        },
{
    let mut j: usize = 0;
    while j < ms.len()
        invariant
            j <= ms@.len(),
            methods_view(ms@).len() == ms@.len(),
            forall|i: int| 0 <= i < j ==> (#[trigger] methods_view(ms@)[i]).0 != method@,
        decreases ms@.len() - j,
    {
        if crate::text::str_eq(ms[j].0.as_str(), method) {
            proof {
                lemma_assoc_get_index(methods_view(ms@), method@);
                assert(methods_view(ms@)[j as int].0 == method@);
                assert(assoc_index(methods_view(ms@), method@) == j);
            }
            return Some(j);
        }
        j = j + 1;
    }
    None
}

impl<F: Fn(Request, Response) -> Result<Response, String>> Rymo<F> {
    /// Finishes a request whose body is settled: looks the lookup path up in
    /// the registry and the lowercased method in its table, invokes the
    /// handler on the request and a fresh default response, and serializes
    /// what the handler returns. A missing path is NotFound, a missing method
    /// MethodNotAllowed, and a handler error an InternalServerError carrying
    /// the handler's message.
    #[verifier::rlimit(100)]
    pub fn finish_route(&self, req: Request) -> (r: Result<Vec<u8>, Error>)
        requires
            ({
                let lp = lookup_path(req@.path);
                match assoc_get(self.spec_routes(), lp) {
                    Some(table) => match assoc_get(table, lower_chars(req@.method)) {
                        Some(f) => forall|res0: Response|
                            res0@ == default_response() ==> call_requires(f, (req, res0)),
                        None => true,
                    },
                    None => true,
                }
            }),
        ensures
            ({
                let lp = lookup_path(req@.path);
                match assoc_get(self.spec_routes(), lp) {
                    None => r matches Ok(b) && b@ == status_head_bytes(Status::NotFound),
                    Some(table) => match assoc_get(table, lower_chars(req@.method)) {
                        None => r matches Ok(b) && b@ == status_head_bytes(
                            Status::MethodNotAllowed,
                        ),
                        Some(f) => match r {
                            Ok(b) => exists|res0: Response, resp: Response|
                                res0@ == default_response() && #[trigger] call_ensures(
                                    f,
                                    (req, res0),
                                    Ok(resp),
                                ) && b@ == spec_serialize(resp@),
                            Err(e) => e matches Error::InternalServerError(m) && exists|
                                res0: Response,
                            |
                                res0@ == default_response() && #[trigger] call_ensures(
                                    f,
                                    (req, res0),
                                    Err(m),
                                ),
                        },
                    },
                }
            }),
    {
        let lp = lookup_path_string(req.path.as_str());
        proof {
            lemma_assoc_get_index(self.spec_routes(), lp@);
        }
        let pi = match self.find_path_index(lp.as_str()) {
            Some(i) => i,
            None => {
                proof {
                    assert(assoc_get(self.spec_routes(), lookup_path(req@.path)) is None);
                }
                return Ok(Status::NotFound.head_bytes());
            },
        };
        let lm = lower_string(req.method.as_str());
        let ghost table = self.spec_routes()[pi as int].1;
        proof {
            lemma_assoc_get_index(table, lm@);
            assert(assoc_get(self.spec_routes(), lp@) == Some(table));
            assert(methods_view(self.routes@[pi as int].1@) == table);
        }
        let mj = match find_method_index(&self.routes[pi].1, lm.as_str()) {
            Some(j) => j,
            None => {
                proof {
                    assert(assoc_get(self.spec_routes(), lookup_path(req@.path)) == Some(table));
                    assert(assoc_get(table, lower_chars(req@.method)) is None);
                }
                return Ok(Status::MethodNotAllowed.head_bytes());
            },
        };
        let f = &self.routes[pi].1[mj].1;
        proof {
            assert(table[mj as int].1 == *f);
            assert(assoc_get(table, lm@) == Some(*f));
        }
        let res0 = Response::default();
        let ghost gres0 = res0;
        match f(req, res0) {
            Ok(resp) => {
                let ghost gresp = resp;
                proof {
                    assert(call_ensures(*f, (req, gres0), Ok::<Response, String>(gresp)));
                }
                let b = resp.serialize();
                proof {
                    assert(b@ == spec_serialize(gresp@));
                }
                Ok(b)
            },
            Err(msg) => {
                let ghost gmsg = msg;
                let out = Err(Error::InternalServerError(msg));
                proof {
                    assert(out matches Err(e) && e matches Error::InternalServerError(m) && m
                        == gmsg);
                    assert(exists|res0: Response|
                        res0@ == default_response() && #[trigger] call_ensures(
                            *f,
                            (req, res0),
                            Err::<Response, String>(gmsg),
                        ));
                }
                out
            },
        }
    }
}

/// Sets the asset's MIME type and body on a response: the `Content-Type`
/// header is set (replacing an existing one) and the body replaced by the
/// file's bytes.
pub fn asset_response(res: Response, mime: &str, file: Vec<u8>) -> (r: Response)
    ensures
        r@.status == res@.status,
        r@.body == file@,
        r@.headers == if assoc_contains(res@.headers, "Content-Type"@) {
            res@.headers.update(
                assoc_index(res@.headers, "Content-Type"@),
                ("Content-Type"@, mime@),
            )
        } else {
            res@.headers.push(("Content-Type"@, mime@))
        },
{
    let mut res = res;
    res.headers.insert(String::from_str("Content-Type"), String::from_str(mime));
    res.body = file;
    res
}

/// The handler registered alongside an asset mount: it returns the response
/// unchanged, because asset requests are answered from the mount table before
/// routing.
pub fn static_handler(_req: Request, res: Response) -> (r: Result<Response, String>)
    ensures
        r matches Ok(out) && out == res,
{
    Ok(res)
}

} // verus!

