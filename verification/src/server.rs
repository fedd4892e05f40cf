//! Resource resolution: the preload table, MIME assignment, error pages, and
//! the decision core of the connection handler.
use vstd::prelude::*;

verus! {

use vstd::string::StrSliceExecFns;
use vstd::string::StringExecFns;
use crate::http::parse_request_spec;
use crate::text::{clone_bytes, dec_chars, rfind, rfind_char, seq_eq_ic, str_eq, str_eq_ic};

/// Error kinds of the server: transport or filesystem failure, a request
/// that could not be parsed, and configuration that could not be read.
#[derive(Debug, PartialEq, Eq, Structural, Clone, Copy)]
pub enum ServerError {
    IoFailure,
    ParseFailure,
    ConfigFailure,
}

impl ServerError {
    /// A short description of the error.
    pub fn message(&self) -> (r: String)
        ensures
            *self is IoFailure ==> r@ == "transport or filesystem failure"@,
            *self is ParseFailure ==> r@ == "malformed input"@,
            *self is ConfigFailure ==> r@ == "unparseable configuration"@,
    {
        match self {
            ServerError::IoFailure => "transport or filesystem failure".to_owned(),
            ServerError::ParseFailure => "malformed input".to_owned(),
            ServerError::ConfigFailure => "unparseable configuration".to_owned(),
        }
    }
}

/// Log verbosity levels the configuration recognizes.
#[derive(Debug, PartialEq, Eq, Structural, Clone, Copy)]
pub enum LogLevel {
    Off,
    Error,
    Warn,
    Info,
    Debug,
    Trace,
}

/// Server configuration, loaded once at startup and immutable thereafter.
#[derive(Debug)]
pub struct Config {
    pub port: u16,
    pub resources: String,
    pub preload: Vec<String>,
    pub mimetypes: Vec<(String, String)>,
    pub loglevel: LogLevel,
}

impl Config {
    /// Bundle the configuration values.
    pub fn new(
        port: u16,
        resources: String,
        preload: Vec<String>,
        mimetypes: Vec<(String, String)>,
        loglevel: LogLevel,
    ) -> (r: Config)
        ensures
            r.port == port,
            r.resources == resources,
            r.preload == preload,
            r.mimetypes == mimetypes,
            r.loglevel == loglevel,
    {
        Config { port, resources, preload, mimetypes, loglevel }
    }
}

/// View of an optional preloaded content.
pub open spec fn opt_bytes(c: Option<Vec<u8>>) -> Option<Seq<u8>> {
    match c {
        Some(v) => Some(v@),
        None => None,
    }
}

/// The entry stored under `key`, scanning in insertion order.
pub open spec fn table_get(
    t: Seq<(Seq<char>, Option<Seq<u8>>)>,
    key: Seq<char>,
) -> Option<Option<Seq<u8>>>
    decreases t.len(),
{
    if t.len() == 0 {
        None
    } else if t[0].0 == key {
        Some(t[0].1)
    } else {
        table_get(t.drop_first(), key)
    }
}

/// A lookup that stops at index `i` returns the entry stored there.
pub proof fn lemma_table_get_at(t: Seq<(Seq<char>, Option<Seq<u8>>)>, key: Seq<char>, i: int)
    requires
        0 <= i < t.len(),
        t[i].0 == key,
        forall|j: int| 0 <= j < i ==> (#[trigger] t[j]).0 != key,
    ensures
        table_get(t, key) == Some(t[i].1),
    decreases i,
{
    if i > 0 {
        let u = t.drop_first();
        assert forall|j: int| 0 <= j < i - 1 implies (#[trigger] u[j]).0 != key by {
            assert(u[j] == t[j + 1]);
        }
        assert(u[i - 1] == t[i]);
        lemma_table_get_at(u, key, i - 1);
    }
}

/// A key stored nowhere is not found.
pub proof fn lemma_table_get_none(t: Seq<(Seq<char>, Option<Seq<u8>>)>, key: Seq<char>)
    requires
        forall|j: int| 0 <= j < t.len() ==> (#[trigger] t[j]).0 != key,
    ensures
        table_get(t, key) is None,
    decreases t.len(),
{
    if t.len() > 0 {
        let u = t.drop_first();
        assert forall|j: int| 0 <= j < u.len() implies (#[trigger] u[j]).0 != key by {
            assert(u[j] == t[j + 1]);
        }
        lemma_table_get_none(u, key);
    }
}

/// The preload/resource table: normalized path to optional preloaded bytes.
/// An entry holding `None` marks a file that exists under the resource root
/// and is read on demand; an absent key may still exist on disk. Built once
/// at startup, read-only afterwards.
#[derive(Debug)]
pub struct ResourceTable {
    entries: Vec<(String, Option<Vec<u8>>)>,
}

impl View for ResourceTable {
    type V = Seq<(Seq<char>, Option<Seq<u8>>)>;

    closed spec fn view(&self) -> Seq<(Seq<char>, Option<Seq<u8>>)> {
        Seq::new(self.entries@.len(), |i: int| (self.entries@[i].0@, opt_bytes(self.entries@[i].1)))
    }
}

impl ResourceTable {
    /// An empty table.
    pub fn new() -> (r: ResourceTable)
        ensures
            r@ == Seq::<(Seq<char>, Option<Seq<u8>>)>::empty(),
    {
        let r = ResourceTable { entries: Vec::new() };
        proof {
            assert(r@ =~= Seq::<(Seq<char>, Option<Seq<u8>>)>::empty());
        }
        r
    }

    /// Record one resource. Lookups scan in insertion order and the startup
    /// walk deduplicates keys, so each key is inserted once.
    pub fn insert(&mut self, path: String, content: Option<Vec<u8>>)
        ensures
            final(self)@ == old(self)@.push((path@, opt_bytes(content))),
    {
        let ghost p = path@;
        let ghost c = opt_bytes(content);
        self.entries.push((path, content));
        proof {
            assert(self@ =~= old(self)@.push((p, c)));
        }
    }

    /// The entry stored under `path`, cloned out.
    pub fn get(&self, path: &str) -> (r: Option<Option<Vec<u8>>>)
        ensures
            match r {
                Some(c) => table_get(self@, path@) == Some(opt_bytes(c)),
                None => table_get(self@, path@) is None,
            },
    {
        let mut i: usize = 0;
        while i < self.entries.len()
            invariant
                0 <= i <= self.entries@.len(),
                forall|j: int| 0 <= j < i ==> (#[trigger] self@[j]).0 != path@,
            decreases self.entries@.len() - i,
        {
            if str_eq(self.entries[i].0.as_str(), path) {
                proof {
                    lemma_table_get_at(self@, path@, i as int);
                }
                let found: Option<Vec<u8>> = match &self.entries[i].1 {
                    Some(v) => Some(clone_bytes(v)),
                    None => None,
                };
                return Some(found);
            }
            i += 1;
        }
        proof {
            lemma_table_get_none(self@, path@);
        }
        None
    }
}

/// The path used for lookups: the root rewritten to the canonical index
/// page; every other path is used as it stands. The rewritten form never
/// reaches the client: responses carry no request path.
pub open spec fn lookup_path_spec(p: Seq<char>) -> Seq<char> {
    if p == "/"@ {
        "/index.html"@
    } else {
        p
    }
}

/// Exec rewrite of the root path.
pub fn lookup_path_of(path: &str) -> (r: String)
    ensures
        r@ == lookup_path_spec(path@),
{
    if str_eq(path, "/") {
        "/index.html".to_owned()
    } else {
        path.to_owned()
    }
}

/// The file extension of a path: what follows the last dot of the last
/// segment, unless that dot begins the segment.
pub open spec fn extension_of(p: Seq<char>) -> Option<Seq<char>> {
    let seg = match rfind(p, '/') {
        Some(i) => p.skip(i + 1),
        None => p,
    };
    match rfind(seg, '.') {
        Some(d) => if d > 0 {
            Some(seg.skip(d + 1))
        } else {
            None
        },
        None => None,
    }
}

/// Exec extraction of the file extension.
pub fn extension_exec(path: &str) -> (r: Option<String>)
    ensures
        match r {
            Some(e) => extension_of(path@) == Some(e@),
            None => extension_of(path@) is None,
        },
{
    let len = path.unicode_len();
    let seg = match rfind_char(path, '/') {
        Some(i) => path.substring_char(i + 1, len),
        None => path,
    };
    proof {
        match rfind(path@, '/') {
            Some(i) => {
                assert(seg@ =~= path@.skip(i + 1));
            },
            None => {},
        }
    }
    let slen = seg.unicode_len();
    match rfind_char(seg, '.') {
        Some(d) => {
            if d > 0 {
                let e = seg.substring_char(d + 1, slen).to_owned();
                proof {
                    assert(e@ =~= seg@.skip(d + 1));
                }
                Some(e)
            } else {
                None
            }
        },
        None => None,
    }
}

/// Views of the MIME table entries.
pub open spec fn mime_views(ms: Seq<(String, String)>) -> Seq<(Seq<char>, Seq<char>)> {
    Seq::new(ms.len(), |i: int| (ms[i].0@, ms[i].1@))
}

/// First MIME entry whose extension equals `ext` up to ASCII case.
pub open spec fn mime_get(ms: Seq<(Seq<char>, Seq<char>)>, ext: Seq<char>) -> Option<Seq<char>>
    decreases ms.len(),
{
    if ms.len() == 0 {
        None
    } else if seq_eq_ic(ms[0].0, ext) {
        Some(ms[0].1)
    } else {
        mime_get(ms.drop_first(), ext)
    }
}

/// A scan that stops at index `i` returns the type stored there.
pub proof fn lemma_mime_get_at(ms: Seq<(Seq<char>, Seq<char>)>, ext: Seq<char>, i: int)
    requires
        0 <= i < ms.len(),
        seq_eq_ic(ms[i].0, ext),
        forall|j: int| 0 <= j < i ==> !seq_eq_ic((#[trigger] ms[j]).0, ext),
    ensures
        mime_get(ms, ext) == Some(ms[i].1),
    decreases i,
{
    if i > 0 {
        let u = ms.drop_first();
        assert forall|j: int| 0 <= j < i - 1 implies !seq_eq_ic((#[trigger] u[j]).0, ext) by {
            assert(u[j] == ms[j + 1]);
        }
        assert(u[i - 1] == ms[i]);
        lemma_mime_get_at(u, ext, i - 1);
    }
}

/// An extension matching no entry finds nothing.
pub proof fn lemma_mime_get_none(ms: Seq<(Seq<char>, Seq<char>)>, ext: Seq<char>)
    requires
        forall|j: int| 0 <= j < ms.len() ==> !seq_eq_ic((#[trigger] ms[j]).0, ext),
    ensures
        mime_get(ms, ext) is None,
    decreases ms.len(),
{
    if ms.len() > 0 {
        let u = ms.drop_first();
        assert forall|j: int| 0 <= j < u.len() implies !seq_eq_ic((#[trigger] u[j]).0, ext) by {
            assert(u[j] == ms[j + 1]);
        }
        lemma_mime_get_none(u, ext);
    }
}

/// Content type of a lookup path: its extension through the table; the
/// default type when the extension is unmapped or absent.
pub open spec fn mime_for(ms: Seq<(Seq<char>, Seq<char>)>, lookup: Seq<char>) -> Seq<char> {
    match extension_of(lookup) {
        Some(e) => match mime_get(ms, e) {
            Some(m) => m,
            None => "application/octet-stream"@,
        },
        None => "application/octet-stream"@,
    }
}

/// Exec content-type assignment.
pub fn content_type_for(mimetypes: &Vec<(String, String)>, lookup: &str) -> (r: String)
    ensures
        r@ == mime_for(mime_views(mimetypes@), lookup@),
{
    match extension_exec(lookup) {
        None => "application/octet-stream".to_owned(),
        Some(ext) => {
            let mut i: usize = 0;
            while i < mimetypes.len()
                invariant
                    extension_of(lookup@) == Some(ext@),
                    0 <= i <= mimetypes@.len(),
                    forall|j: int|
                        0 <= j < i ==> !seq_eq_ic(
                            (#[trigger] mime_views(mimetypes@)[j]).0,
                            ext@,
                        ),
                decreases mimetypes@.len() - i,
            {
                if str_eq_ic(mimetypes[i].0.as_str(), ext.as_str()) {
                    proof {
                        assert(mime_views(mimetypes@)[i as int]
                            == (mimetypes@[i as int].0@, mimetypes@[i as int].1@));
                        lemma_mime_get_at(mime_views(mimetypes@), ext@, i as int);
                    }
                    return mimetypes[i].1.clone();
                }
                i += 1;
            }
            proof {
                lemma_mime_get_none(mime_views(mimetypes@), ext@);
            }
            "application/octet-stream".to_owned()
        },
    }
}

/// The built-in bad-request page.
pub open spec fn error400_chars() -> Seq<char> {
    "<!DOCTYPE html><html lang=\"en\" dir=\"ltr\"><head><meta charset=\"utf-8\"><title>400 Bad Request</title></head><body><h1>400 Bad Request</h1></body></html>"@
}

/// The built-in not-found page.
pub open spec fn error404_chars() -> Seq<char> {
    "<!DOCTYPE html><html lang=\"en\" dir=\"ltr\"><head><meta charset=\"utf-8\"><title>404 Not Found</title></head><body><h1>404 Not Found</h1></body></html>"@
}

/// The reserved lookup path for an operator-supplied error page.
pub open spec fn error_page_key(code: int) -> Seq<char> {
    if code == 400 {
        "/400.html"@
    } else {
        "/404.html"@
    }
}

/// The body of an error page: the operator's preloaded override when the
/// table holds one under the reserved path, else the built-in page.
pub open spec fn error_body_spec(
    t: Seq<(Seq<char>, Option<Seq<u8>>)>,
    code: int,
    builtin: Seq<char>,
) -> Seq<u8> {
    match table_get(t, error_page_key(code)) {
        Some(Some(c)) => c,
        _ => vstd::utf8::encode_utf8(builtin),
    }
}

/// A complete error response as the handler emits it: a `text/html` body,
/// the exact content length, and the uniform server stamp.
pub open spec fn error_response_spec(code: int, body: Seq<u8>) -> crate::http::ResponseView {
    crate::http::ResponseView {
        version: "1.1"@,
        status: code,
        headers: seq![
            crate::http::HeaderView { name: "Content-Type"@, value: "text/html"@ },
            crate::http::HeaderView {
                name: "Content-Length"@,
                value: dec_chars(body.len() as int),
            },
            crate::http::HeaderView { name: "server"@, value: "GlassCannon"@ },
        ],
        body,
    }
}

/// A complete success response: the resolved content, its exact length, its
/// content type, and the uniform server stamp.
pub open spec fn ok_response_spec(body: Seq<u8>, ctype: Seq<char>) -> crate::http::ResponseView {
    crate::http::ResponseView {
        version: "1.1"@,
        status: 200,
        headers: seq![
            crate::http::HeaderView {
                name: "Content-Length"@,
                value: dec_chars(body.len() as int),
            },
            crate::http::HeaderView { name: "Content-Type"@, value: ctype },
            crate::http::HeaderView { name: "server"@, value: "GlassCannon"@ },
        ],
        body,
    }
}

/// Build the complete error response for `code` from the table.
pub fn error_response(code: usize, table: &ResourceTable) -> (r: crate::http::HttpResponse)
    requires
        code == 400 || code == 404,
    ensures
        code == 400 ==> r@ == error_response_spec(
            400,
            error_body_spec(table@, 400, error400_chars()),
        ),
        code == 404 ==> r@ == error_response_spec(
            404,
            error_body_spec(table@, 404, error404_chars()),
        ),
{
    let key: &str = if code == 400 {
        "/400.html"
    } else {
        "/404.html"
    };
    let body: Vec<u8> = match table.get(key) {
        Some(Some(c)) => c,
        _ => {
            if code == 400 {
                "<!DOCTYPE html><html lang=\"en\" dir=\"ltr\"><head><meta charset=\"utf-8\"><title>400 Bad Request</title></head><body><h1>400 Bad Request</h1></body></html>".as_bytes_vec()
            } else {
                "<!DOCTYPE html><html lang=\"en\" dir=\"ltr\"><head><meta charset=\"utf-8\"><title>404 Not Found</title></head><body><h1>404 Not Found</h1></body></html>".as_bytes_vec()
            }
        },
    };
    let ghost body0 = body@;
    let mut b = crate::http::HttpResponse::new();
    b.status(code);
    b.header("Content-Type", "text/html");
    b.body(body);
    let mut resp = b.build();
    resp.set_header("server", "GlassCannon");
    proof {
        reveal_strlit("Content-Type");
        reveal_strlit("Content-Length");
        reveal_strlit("server");
        assert("Content-Type"@.len() == 12);
        assert("Content-Length"@.len() == 14);
        assert("server"@.len() == 6);
        let e = Seq::<crate::http::HeaderView>::empty();
        let ct = crate::http::HeaderView { name: "Content-Type"@, value: "text/html"@ };
        let cl = crate::http::HeaderView {
            name: "Content-Length"@,
            value: dec_chars(body0.len() as int),
        };
        let sv = crate::http::HeaderView { name: "server"@, value: "GlassCannon"@ };
        crate::http::lemma_header_upsert_append(e, "Content-Type"@, "text/html"@);
        let h1 = crate::http::header_upsert(e, "Content-Type"@, "text/html"@);
        assert(h1 =~= seq![ct]);
        crate::http::lemma_header_upsert_append(
            h1,
            "Content-Length"@,
            dec_chars(body0.len() as int),
        );
        let h2 = crate::http::header_upsert(h1, "Content-Length"@, dec_chars(body0.len() as int));
        assert(h2 =~= seq![ct, cl]);
        crate::http::lemma_header_lookup_at(h2, "Content-Type"@, 0);
        crate::http::lemma_header_upsert_append(h2, "server"@, "GlassCannon"@);
        let h3 = crate::http::header_upsert(h2, "server"@, "GlassCannon"@);
        assert(h3 =~= seq![ct, cl, sv]);
                assert(resp@.headers =~= seq![ct, cl, sv]);
    }
    resp
}

/// Build the complete success response for resolved content.
pub fn ok_response(body: Vec<u8>, ctype: &str) -> (r: crate::http::HttpResponse)
    ensures
        r@ == ok_response_spec(body@, ctype@),
{
    let ghost body0 = body@;
    let mut b = crate::http::HttpResponse::new();
    b.status(200);
    b.body(body);
    let mut resp = b.build();
    resp.set_header("Content-Type", ctype);
    resp.set_header("server", "GlassCannon");
    proof {
        reveal_strlit("Content-Type");
        reveal_strlit("Content-Length");
        reveal_strlit("server");
        assert("Content-Type"@.len() == 12);
        assert("Content-Length"@.len() == 14);
        assert("server"@.len() == 6);
        let e = Seq::<crate::http::HeaderView>::empty();
        let cl = crate::http::HeaderView {
            name: "Content-Length"@,
            value: dec_chars(body0.len() as int),
        };
        let cto = crate::http::HeaderView {
            name: "Content-Type"@,
            value: "application/octet-stream"@,
        };
        let ct = crate::http::HeaderView { name: "Content-Type"@, value: ctype@ };
        let sv = crate::http::HeaderView { name: "server"@, value: "GlassCannon"@ };
        crate::http::lemma_header_upsert_append(
            e,
            "Content-Length"@,
            dec_chars(body0.len() as int),
        );
        let h1 = crate::http::header_upsert(e, "Content-Length"@, dec_chars(body0.len() as int));
        assert(h1 =~= seq![cl]);
        crate::http::lemma_header_lookup_none(h1, "Content-Type"@);
        crate::http::lemma_header_upsert_append(h1, "Content-Type"@, "application/octet-stream"@);
        let h2 = crate::http::header_upsert(h1, "Content-Type"@, "application/octet-stream"@);
        assert(h2 =~= seq![cl, cto]);
        crate::http::lemma_header_upsert_at(h2, "Content-Type"@, ctype@, 1);
        let h3 = crate::http::header_upsert(h2, "Content-Type"@, ctype@);
        assert(h3 =~= seq![cl, ct]);
        crate::http::lemma_header_upsert_append(h3, "server"@, "GlassCannon"@);
        let h4 = crate::http::header_upsert(h3, "server"@, "GlassCannon"@);
        assert(h4 =~= seq![cl, ct, sv]);
                assert(resp@.headers =~= seq![cl, ct, sv]);
    }
    resp
}

/// What the resolver decides without touching the disk: either a complete
/// response, or the disk file to try together with the lookup path.
pub enum Resolution {
    Done(crate::http::HttpResponse),
    NeedDisk { file_path: String, lookup_path: String },
}

/// The on-disk location of a lookup path under the resource root.
pub open spec fn disk_path_spec(root: Seq<char>, lookup: Seq<char>) -> Seq<char> {
    if root.len() > 0 && root[root.len() - 1] == '/' {
        root + lookup.skip(1)
    } else {
        root + lookup
    }
}

/// Exec construction of the on-disk location.
pub fn disk_path_of(root: &str, lookup: &str) -> (r: String)
    requires
        lookup@.len() >= 1,
    ensures
        r@ == disk_path_spec(root@, lookup@),
{
    let rlen = root.unicode_len();
    let mut s = root.to_owned();
    if rlen > 0 && root.get_char(rlen - 1) == '/' {
        let llen = lookup.unicode_len();
        let tail = lookup.substring_char(1, llen);
        s.append(tail);
        proof {
            assert(tail@ =~= lookup@.skip(1));
        }
    } else {
        s.append(lookup);
    }
    s
}

/// What a correct resolution of `path` is, given the table, the MIME map and
/// the resource root: preloaded content is served outright with its content
/// type; otherwise the disk location is handed back and the disk is not
/// consulted here.
pub open spec fn resolves(
    r: Resolution,
    path: Seq<char>,
    t: Seq<(Seq<char>, Option<Seq<u8>>)>,
    ms: Seq<(Seq<char>, Seq<char>)>,
    root: Seq<char>,
) -> bool {
    match r {
        Resolution::Done(resp) => table_get(t, lookup_path_spec(path)) matches Some(Some(c))
            && resp@ == ok_response_spec(c, mime_for(ms, lookup_path_spec(path))),
        Resolution::NeedDisk { file_path, lookup_path } => {
            &&& !(table_get(t, lookup_path_spec(path)) matches Some(Some(_)))
            &&& lookup_path@ == lookup_path_spec(path)
            &&& file_path@ == disk_path_spec(root, lookup_path_spec(path))
        },
    }
}

/// Resolve a parsed request against the preload table. Content preloaded
/// under the lookup path is served with no disk access; otherwise the
/// caller is told which file to try.
pub fn resolve_request(
    req: &crate::http::HttpRequest,
    table: &ResourceTable,
    config: &Config,
) -> (r: Resolution)
    requires
        req@.path.len() >= 1,
    ensures
        resolves(r, req@.path, table@, mime_views(config.mimetypes@), config.resources@),
{
    let lookup = lookup_path_of(req.path.as_str());
    proof {
        reveal_strlit("/index.html");
    }
    match table.get(lookup.as_str()) {
        Some(Some(content)) => {
            let ctype = content_type_for(&config.mimetypes, lookup.as_str());
            Resolution::Done(ok_response(content, ctype.as_str()))
        },
        _ => {
            let file_path = disk_path_of(config.resources.as_str(), lookup.as_str());
            Resolution::NeedDisk { file_path, lookup_path: lookup }
        },
    }
}

/// Complete a resolution that needed the disk: serve what was read, or the
/// not-found page when the file was missing or unreadable.
pub fn resolve_with_disk(
    lookup_path: &str,
    disk: Option<Vec<u8>>,
    table: &ResourceTable,
    config: &Config,
) -> (r: crate::http::HttpResponse)
    ensures
        match disk {
            Some(c) => r@ == ok_response_spec(
                c@,
                mime_for(mime_views(config.mimetypes@), lookup_path@),
            ),
            None => r@ == error_response_spec(
                404,
                error_body_spec(table@, 404, error404_chars()),
            ),
        },
{
    match disk {
        Some(contents) => {
            let ctype = content_type_for(&config.mimetypes, lookup_path);
            ok_response(contents, ctype.as_str())
        },
        None => error_response(404, table),
    }
}

/// The bad-request response the handler emits when parsing fails.
pub fn bad_request_response(table: &ResourceTable) -> (r: crate::http::HttpResponse)
    ensures
        r@ == error_response_spec(400, error_body_spec(table@, 400, error400_chars())),
{
    error_response(400, table)
}

/// One connection's decision core, from raw request text: a failed parse is
/// answered with the bad-request page; a parsed request is resolved against
/// the preload table, possibly asking the caller to try the disk.
pub fn handle_request_bytes(input: &str, table: &ResourceTable, config: &Config) -> (r: Resolution)
    ensures
        match parse_request_spec(input@) {
            None => r matches Resolution::Done(resp) && resp@ == error_response_spec(
                400,
                error_body_spec(table@, 400, error400_chars()),
            ),
            Some(p) => resolves(
                r,
                p.0.path,
                table@,
                mime_views(config.mimetypes@),
                config.resources@,
            ),
        },
{
    match crate::http::HttpRequest::parse(input) {
        Ok(p) => resolve_request(&p.1, table, config),
        Err(_) => Resolution::Done(bad_request_response(table)),
    }
}

/// A preloaded entry always wins: when the table holds content under the
/// lookup path, resolution is complete and the disk is never consulted.
pub proof fn lemma_preload_wins(
    r: Resolution,
    path: Seq<char>,
    t: Seq<(Seq<char>, Option<Seq<u8>>)>,
    ms: Seq<(Seq<char>, Seq<char>)>,
    root: Seq<char>,
    c: Seq<u8>,
)
    requires
        resolves(r, path, t, ms, root),
        table_get(t, lookup_path_spec(path)) == Some(Some(c)),
    ensures
        r matches Resolution::Done(resp) && resp@ == ok_response_spec(
            c,
            mime_for(ms, lookup_path_spec(path)),
        ),
{
}

/// The root path resolves exactly as the canonical index path does, for any
/// table, MIME map and root; the response carries no request path, so the
/// rewritten form is never surfaced.
pub proof fn lemma_root_resolves_as_index(
    r: Resolution,
    t: Seq<(Seq<char>, Option<Seq<u8>>)>,
    ms: Seq<(Seq<char>, Seq<char>)>,
    root: Seq<char>,
)
    ensures
        resolves(r, "/"@, t, ms, root) <==> resolves(r, "/index.html"@, t, ms, root),
{
    reveal_strlit("/");
    reveal_strlit("/index.html");
    assert(lookup_path_spec("/"@) == "/index.html"@);
    assert("/index.html"@ != "/"@);
    assert(lookup_path_spec("/index.html"@) == "/index.html"@);
}

/// Views of a sequence of strings.
pub open spec fn str_views(ss: Seq<String>) -> Seq<Seq<char>> {
    Seq::new(ss.len(), |i: int| ss[i]@)
}

/// How many leading characters of a walked path belong to the root: all of
/// it, except a trailing slash which the lookup key keeps.
pub open spec fn trim_off(root: Seq<char>) -> int {
    if root.len() > 0 && root[root.len() - 1] == '/' {
        root.len() - 1
    } else {
        root.len() as int
    }
}

/// A walked file path with the resource root trimmed off: the lookup key.
pub open spec fn trimmed_key(root: Seq<char>, path: Seq<char>) -> Seq<char> {
    path.skip(trim_off(root))
}

pub open spec fn plan_has_key(plan: Seq<(Seq<char>, bool)>, key: Seq<char>) -> bool {
    exists|i: int| 0 <= i < plan.len() && (#[trigger] plan[i]).0 == key
}

pub open spec fn seq_has_str(ss: Seq<Seq<char>>, key: Seq<char>) -> bool {
    exists|i: int| 0 <= i < ss.len() && #[trigger] ss[i] == key
}

/// The startup plan: each walked file's lookup key, duplicates collapsed to
/// the first occurrence, marked whether the operator listed it for preload.
pub open spec fn plan_spec(
    paths: Seq<Seq<char>>,
    root: Seq<char>,
    preload: Seq<Seq<char>>,
) -> Seq<(Seq<char>, bool)>
    decreases paths.len(),
{
    if paths.len() == 0 {
        Seq::empty()
    } else {
        let prior = plan_spec(paths.drop_last(), root, preload);
        let key = trimmed_key(root, paths.last());
        if plan_has_key(prior, key) {
            prior
        } else {
            prior.push((key, seq_has_str(preload, key)))
        }
    }
}

/// Views of the computed plan entries.
pub open spec fn plan_views(p: Seq<(String, bool)>) -> Seq<(Seq<char>, bool)> {
    Seq::new(p.len(), |i: int| (p[i].0@, p[i].1))
}

/// Membership of a string in a list.
fn contains_str(ss: &Vec<String>, key: &str) -> (r: bool)
    ensures
        r == seq_has_str(str_views(ss@), key@),
{
    let mut j: usize = 0;
    while j < ss.len()
        invariant
            0 <= j <= ss@.len(),
            forall|q: int| 0 <= q < j ==> #[trigger] str_views(ss@)[q] != key@,
        decreases ss@.len() - j,
    {
        if str_eq(ss[j].as_str(), key) {
            proof {
                assert(str_views(ss@)[j as int] == key@);
            }
            return true;
        }
        j += 1;
    }
    false
}

/// Deduplicate the walked file paths by lookup key and mark which keys the
/// configuration lists for preloading: the semantics of the startup walk.
pub fn preload_plan(paths: &Vec<String>, config: &Config) -> (r: Vec<(String, bool)>)
    requires
        forall|i: int|
            0 <= i < paths@.len() ==> (#[trigger] paths@[i])@.len() >= config.resources@.len(),
    ensures
        plan_views(r@) == plan_spec(
            str_views(paths@),
            config.resources@,
            str_views(config.preload@),
        ),
{
    let root = config.resources.as_str();
    let rlen = root.unicode_len();
    let off: usize = if rlen > 0 && root.get_char(rlen - 1) == '/' {
        rlen - 1
    } else {
        rlen
    };
    let mut out: Vec<(String, bool)> = Vec::new();
    let mut i: usize = 0;
    proof {
        assert(plan_views(out@) =~= Seq::<(Seq<char>, bool)>::empty());
        assert(str_views(paths@.take(0)) =~= Seq::<Seq<char>>::empty());
    }
    while i < paths.len()
        invariant
            0 <= i <= paths@.len(),
            off as int == trim_off(config.resources@),
            forall|q: int|
                0 <= q < paths@.len() ==> (#[trigger] paths@[q])@.len()
                    >= config.resources@.len(),
            plan_views(out@) == plan_spec(
                str_views(paths@.take(i as int)),
                config.resources@,
                str_views(config.preload@),
            ),
        decreases paths@.len() - i,
    {
        let plen = paths[i].as_str().unicode_len();
        let key = paths[i].as_str().substring_char(off, plen).to_owned();
        proof {
            assert(key@ =~= trimmed_key(config.resources@, paths@[i as int]@));
        }
        let mut found = false;
        let mut j: usize = 0;
        while !found && j < out.len()
            invariant
                0 <= j <= out@.len(),
                !found ==> forall|q: int|
                    0 <= q < j ==> (#[trigger] plan_views(out@)[q]).0 != key@,
                found ==> plan_has_key(plan_views(out@), key@),
            decreases out@.len() - j + (if found { 0int } else { 1int }),
        {
            if str_eq(out[j].0.as_str(), key.as_str()) {
                proof {
                    assert((plan_views(out@)[j as int]).0 == key@);
                }
                found = true;
            } else {
                j += 1;
            }
        }
        let ghost before = out@;
        if !found {
            let mark = contains_str(&config.preload, key.as_str());
            let ghost keyv = key@;
            out.push((key, mark));
            proof {
                assert(plan_views(out@) =~= plan_views(before).push((keyv, mark)));
            }
        }
        proof {
            let pv = str_views(paths@.take(i + 1));
            assert(pv.drop_last() =~= str_views(paths@.take(i as int)));
            assert(pv.last() == paths@[i as int]@);
        }
        i += 1;
    }
    proof {
        assert(paths@.take(paths@.len() as int) =~= paths@);
    }
    out
}

/// Every response the engine serves is framed: it carries a
/// `Content-Length` equal to the exact byte length of its body and a
/// `Content-Type`, on the success path and on the error path alike.
pub proof fn lemma_responses_are_framed(body: Seq<u8>, ctype: Seq<char>, code: int)
    ensures
        crate::http::header_lookup(ok_response_spec(body, ctype).headers, "Content-Length"@)
            == Some(dec_chars(body.len() as int)),
        crate::http::header_lookup(ok_response_spec(body, ctype).headers, "Content-Type"@)
            == Some(ctype),
        crate::http::header_lookup(error_response_spec(code, body).headers, "Content-Length"@)
            == Some(dec_chars(body.len() as int)),
        crate::http::header_lookup(error_response_spec(code, body).headers, "Content-Type"@)
            == Some("text/html"@),
{
    reveal_strlit("Content-Length");
    reveal_strlit("Content-Type");
    assert("Content-Length"@.len() == 14);
    assert("Content-Type"@.len() == 12);
    let okh = ok_response_spec(body, ctype).headers;
    assert(okh[0].name == "Content-Length"@);
    assert(okh.drop_first() =~= seq![okh[1], okh[2]]);
    assert(okh.drop_first()[0].name == "Content-Type"@);
    assert(crate::http::header_lookup(okh.drop_first(), "Content-Type"@) == Some(ctype));
    let erh = error_response_spec(code, body).headers;
    assert(erh[0].name == "Content-Type"@);
    assert(erh.drop_first() =~= seq![erh[1], erh[2]]);
    assert(erh.drop_first()[0].name == "Content-Length"@);
    assert(crate::http::header_lookup(erh.drop_first(), "Content-Length"@) == Some(
        dec_chars(body.len() as int),
    ));
}

} // verus!
