//! Requests: the data type, the parser from raw header-block bytes, the
//! incremental reader that finds the end of a header block, and the
//! content-length rule for bodies.

use vstd::prelude::*;

verus! {

use vstd::utf8::{valid_utf8, decode_utf8};
use crate::error::Error;
use crate::table::{StrTable, assoc_contains, assoc_get, lemma_assoc_get_push};
use crate::text::{split_on, clean_lines, find_colon_space, lower_chars, SP, CR, LF, COLON,
    split_clean_lines, split_bytes, sub_vec, bytes_to_string, bytes_to_lower_string,
    all_digits, dec_value, parse_decimal, views_of, lemma_find_colon_space,
    lemma_split_on_append, lemma_split_on_no_sep, tidy_lines, strip_cr,
    lemma_split_on_valid_utf8, lemma_valid_utf8_concat_ascii};

/// The abstract value of a parsed request.
pub struct RequestModel {
    pub method: Seq<char>,
    pub path: Seq<char>,
    pub version: Seq<char>,
    pub headers: Seq<(Seq<char>, Seq<char>)>,
    pub body: Seq<u8>,
}

/// The model of a request parsed from an empty byte stream: every part empty.
pub open spec fn empty_request_model() -> RequestModel {
    RequestModel {
        method: Seq::empty(),
        path: Seq::empty(),
        version: Seq::empty(),
        headers: Seq::empty(),
        body: Seq::empty(),
    }
}

/// One parsed request: the request line split into method, path and version,
/// the headers with lowercased names, and the body (empty until it is read
/// against a content-length).
#[derive(Debug)]
pub struct Request {
    pub path: String,
    pub method: String,
    pub version: String,
    pub headers: StrTable,
    pub body: Vec<u8>,
}

impl View for Request {
    type V = RequestModel;

    open spec fn view(&self) -> RequestModel {
        RequestModel {
            method: self.method@,
            path: self.path@,
            version: self.version@,
            headers: self.headers@,
            body: self.body@,
        }
    }
}

impl Default for Request {
    /// A request with every part empty.
    fn default() -> (r: Request)
        ensures
            r@ == empty_request_model(),
    {
        let r = Request {
            path: String::new(),
            method: String::new(),
            version: String::new(),
            headers: StrTable::new(),
            body: Vec::new(),
        };
        proof {
            assert(r@.method =~= empty_request_model().method);
            assert(r@.path =~= empty_request_model().path);
            assert(r@.version =~= empty_request_model().version);
            assert(r@.headers =~= empty_request_model().headers);
            assert(r@.body =~= empty_request_model().body);
        }
        r
    }
}

/// The request line split on spaces into (method, path, version): exactly
/// three tokens, each valid UTF-8; anything else is a parse error.
pub open spec fn parse_request_line(l: Seq<u8>) -> Option<(Seq<char>, Seq<char>, Seq<char>)> {
    let toks = split_on(l, SP);
    if toks.len() == 3 && valid_utf8(toks[0]) && valid_utf8(toks[1]) && valid_utf8(toks[2]) {
        Some((decode_utf8(toks[0]), decode_utf8(toks[1]), decode_utf8(toks[2])))
    } else {
        None
    }
}

/// A header line split at its first `": "` into name and value, the name
/// ASCII-lowercased. A line without the separator, or with bytes that are not
/// valid UTF-8 on either side, is a parse error.
pub open spec fn parse_header_line(l: Seq<u8>) -> Option<(Seq<char>, Seq<char>)> {
    match find_colon_space(l) {
        None => None,
        Some(i) => {
            let kb = l.take(i);
            let vb = l.skip(i + 2);
            if valid_utf8(kb) && valid_utf8(vb) {
                Some((lower_chars(decode_utf8(kb)), decode_utf8(vb)))
            } else {
                None
            }
        },
    }
}


/// The request line's condition restated over the whole line: it parses
/// exactly when it splits into three tokens and every byte of the line is
/// valid UTF-8.
pub proof fn lemma_parse_request_line_utf8(l: Seq<u8>)
    ensures
        parse_request_line(l) is Some <==> (split_on(l, SP).len() == 3 && valid_utf8(l)),
{
    lemma_split_on_valid_utf8(l, SP);
    let toks = split_on(l, SP);
    if toks.len() == 3 {
        if valid_utf8(l) {
            assert(valid_utf8(toks[0]) && valid_utf8(toks[1]) && valid_utf8(toks[2]));
        }
        if valid_utf8(toks[0]) && valid_utf8(toks[1]) && valid_utf8(toks[2]) {
            assert forall|i: int| 0 <= i < toks.len() implies valid_utf8(
                #[trigger] toks[i]) by {}
        }
    }
}

/// A header line's condition restated over the whole line: it parses exactly
/// when it holds a `": "` separator and every byte of the line is valid
/// UTF-8.
pub proof fn lemma_parse_header_line_utf8(l: Seq<u8>)
    ensures
        parse_header_line(l) is Some <==> (find_colon_space(l) is Some && valid_utf8(l)),
{
    lemma_find_colon_space(l);
    match find_colon_space(l) {
        None => {},
        Some(i) => {
            let kb = l.take(i);
            let vb = l.skip(i + 2);
            let inner = seq![SP] + vb;
            assert(Seq::<u8>::empty() + seq![SP] + vb =~= inner);
            lemma_valid_utf8_concat_ascii(Seq::<u8>::empty(), SP, vb);
            assert(valid_utf8(Seq::<u8>::empty()));
            assert(valid_utf8(inner) <==> valid_utf8(vb));
            assert(l =~= kb + seq![COLON] + inner);
            lemma_valid_utf8_concat_ascii(kb, COLON, inner);
            assert(valid_utf8(l) <==> (valid_utf8(kb) && valid_utf8(vb)));
        },
    }
}

/// The header lines folded into a table from left to right; a pair is dropped
/// when its name is already present, so the first occurrence of a name wins.
pub open spec fn parse_header_lines(
    lines: Seq<Seq<u8>>,
    acc: Seq<(Seq<char>, Seq<char>)>,
) -> Option<Seq<(Seq<char>, Seq<char>)>>
    decreases lines.len(),
{
    if lines.len() == 0 {
        Some(acc)
    } else {
        match parse_header_line(lines.first()) {
            None => None,
            Some(kv) => parse_header_lines(
                lines.drop_first(),
                if assoc_contains(acc, kv.0) {
                    acc
                } else {
                    acc.push(kv)
                },
            ),
        }
    }
}


/// The first occurrence of a header name wins: once the fold over header
/// lines has bound a name, no later line changes its value.
pub proof fn lemma_first_header_occurrence_wins(
    lines: Seq<Seq<u8>>,
    acc: Seq<(Seq<char>, Seq<char>)>,
    k: Seq<char>,
    v: Seq<char>,
)
    requires
        assoc_get(acc, k) == Some(v),
        parse_header_lines(lines, acc) is Some,
    ensures
        assoc_get(parse_header_lines(lines, acc)->0, k) == Some(v),
    decreases lines.len(),
{
    if lines.len() == 0 {
    } else {
        let r = parse_header_line(lines.first());
        assert(r is Some);
        let kv = r->0;
        let acc2 = if assoc_contains(acc, kv.0) {
            acc
        } else {
            acc.push(kv)
        };
        assert(parse_header_lines(lines, acc) == parse_header_lines(lines.drop_first(), acc2));
        if !assoc_contains(acc, kv.0) {
            lemma_assoc_get_push(acc, kv, k);
        }
        assert(assoc_get(acc2, k) == Some(v));
        lemma_first_header_occurrence_wins(lines.drop_first(), acc2, k, v);
    }
}

/// A whole header block parsed: the raw bytes are split into cleaned lines;
/// the first line is the request line and the rest are headers. A block with
/// no lines at all parses as the empty request (a connection that closed
/// without sending anything is not an error). The body is left empty.
pub open spec fn spec_parse_request(bs: Seq<u8>) -> Option<RequestModel> {
    let ls = clean_lines(bs);
    if ls.len() == 0 {
        Some(empty_request_model())
    } else {
        match parse_request_line(ls.first()) {
            None => None,
            Some(mpv) => match parse_header_lines(ls.drop_first(), Seq::empty()) {
                None => None,
                Some(hs) => Some(
                    RequestModel {
                        method: mpv.0,
                        path: mpv.1,
                        version: mpv.2,
                        headers: hs,
                        body: Seq::empty(),
                    },
                ),
            },
        }
    }
}

/// The content-length rule over a header table: the outer `None` is a
/// malformed header (an error); `Some(None)` means the header is absent and no
/// body is owed; `Some(Some(n))` is the parsed length.
pub open spec fn spec_content_length(hs: Seq<(Seq<char>, Seq<char>)>) -> Option<Option<int>> {
    match assoc_get(hs, "content-length"@) {
        None => Some(None),
        Some(v) => if v.len() > 0 && all_digits(v) && dec_value(v) <= usize::MAX {
            Some(Some(dec_value(v)))
        } else {
            None
        },
    }
}


/// Parsing a well-formed one-header request. For any method, path and version
/// free of spaces, carriage returns and line feeds, and any header name and
/// value free of carriage returns and line feeds, where the name holds no
/// `": "` separator and every part is valid UTF-8, the bytes
/// `<method> <path> <version>\r\n<name>: <value>\r\n\r\n` parse into exactly
/// those parts, with the header name lowercased.
pub proof fn lemma_parse_well_formed_request(
    m: Seq<u8>,
    p: Seq<u8>,
    v: Seq<u8>,
    k: Seq<u8>,
    w: Seq<u8>,
)
    requires
        forall|i: int| 0 <= i < m.len() ==> #[trigger] m[i] != SP && m[i] != CR && m[i] != LF,
        forall|i: int| 0 <= i < p.len() ==> #[trigger] p[i] != SP && p[i] != CR && p[i] != LF,
        forall|i: int| 0 <= i < v.len() ==> #[trigger] v[i] != SP && v[i] != CR && v[i] != LF,
        forall|i: int| 0 <= i < k.len() ==> #[trigger] k[i] != CR && k[i] != LF,
        forall|i: int| 0 <= i < w.len() ==> #[trigger] w[i] != CR && w[i] != LF,
        forall|i: int| 0 <= i && i + 1 < k.len() ==> !(#[trigger] k[i] == COLON && k[i + 1] == SP),
        valid_utf8(m),
        valid_utf8(p),
        valid_utf8(v),
        valid_utf8(k),
        valid_utf8(w),
    ensures
        spec_parse_request(
            m + seq![SP] + p + seq![SP] + v + seq![CR, LF] + k + seq![COLON, SP] + w + seq![CR, LF]
                + seq![CR, LF],
        ) == Some(
            RequestModel {
                method: decode_utf8(m),
                path: decode_utf8(p),
                version: decode_utf8(v),
                headers: seq![(lower_chars(decode_utf8(k)), decode_utf8(w))],
                body: Seq::<u8>::empty(),
            },
        ),
{
    let bytes = m + seq![SP] + p + seq![SP] + v + seq![CR, LF] + k + seq![COLON, SP] + w + seq![
        CR,
        LF,
    ] + seq![CR, LF];
    let line1 = m + seq![SP] + p + seq![SP] + v;
    let line2 = k + seq![COLON, SP] + w;
    let a = line1 + seq![CR];
    let b = line2 + seq![CR];
    let tail = seq![CR] + seq![LF] + Seq::<u8>::empty();
    let rest1 = b + seq![LF] + tail;

    // The buffer splits on line feeds into the two lines (each still carrying
    // its carriage return), one lone carriage return, and an empty piece.
    assert(bytes =~= a + seq![LF] + rest1);
    lemma_split_on_append(a, rest1, LF);
    lemma_split_on_append(b, tail, LF);
    lemma_split_on_append(seq![CR], Seq::<u8>::empty(), LF);
    assert(split_on(Seq::<u8>::empty(), LF) == seq![Seq::<u8>::empty()]);
    assert(split_on(tail, LF) == seq![seq![CR]] + seq![Seq::<u8>::empty()]);
    assert(split_on(rest1, LF) == seq![b] + (seq![seq![CR]] + seq![Seq::<u8>::empty()]));
    assert(split_on(bytes, LF) =~= seq![a, b, seq![CR], Seq::<u8>::empty()]);

    // Tidying strips the carriage returns and drops the two empty pieces.
    let pieces = seq![a, b, seq![CR], Seq::<u8>::empty()];
    assert(strip_cr(a) =~= line1);
    assert(strip_cr(b) =~= line2);
    assert(strip_cr(seq![CR]) =~= Seq::<u8>::empty());
    assert(line1.len() > 0 && line2.len() > 0);
    let p2 = seq![b, seq![CR], Seq::<u8>::empty()];
    let p3 = seq![seq![CR], Seq::<u8>::empty()];
    let p4 = seq![Seq::<u8>::empty()];
    assert(pieces.first() == a && pieces.drop_first() =~= p2);
    assert(p2.first() == b && p2.drop_first() =~= p3);
    assert(p3.first() == seq![CR] && p3.drop_first() =~= p4);
    assert(p4.first() =~= Seq::<u8>::empty() && p4.drop_first() =~= Seq::<Seq<u8>>::empty());
    assert(tidy_lines(Seq::<Seq<u8>>::empty()) == Seq::<Seq<u8>>::empty());
    assert(tidy_lines(p4) == Seq::<Seq<u8>>::empty());
    assert(tidy_lines(p3) == Seq::<Seq<u8>>::empty());
    assert(tidy_lines(p2) == seq![line2] + Seq::<Seq<u8>>::empty());
    assert(tidy_lines(pieces) =~= seq![line1, line2]);
    assert(clean_lines(bytes) == seq![line1, line2]);

    // The request line splits on spaces into exactly the three tokens.
    assert(line1 =~= m + seq![SP] + (p + seq![SP] + v));
    lemma_split_on_append(m, p + seq![SP] + v, SP);
    lemma_split_on_append(p, v, SP);
    lemma_split_on_no_sep(v, SP);
    assert(split_on(p + seq![SP] + v, SP) == seq![p] + seq![v]);
    assert(split_on(line1, SP) =~= seq![m, p, v]);
    let toks = split_on(line1, SP);
    assert(toks.len() == 3 && toks[0] == m && toks[1] == p && toks[2] == v);
    assert(parse_request_line(line1) == Some((decode_utf8(m), decode_utf8(p), decode_utf8(v))));

    // The header line's first ": " sits exactly at the end of the name.
    let kn = k.len() as int;
    assert(line2[kn] == COLON && line2[kn + 1] == SP);
    assert(forall|i: int| 0 <= i < kn ==> #[trigger] line2[i] == k[i]);
    assert forall|j: int| 0 <= j < kn implies !(#[trigger] line2[j] == COLON && line2[j + 1]
        == SP) by {
        if j + 1 < kn {
            assert(line2[j] == k[j] && line2[j + 1] == k[j + 1]);
        } else {
            assert(line2[j + 1] == COLON);
        }
    }
    lemma_find_colon_space(line2);
    match find_colon_space(line2) {
        None => {
            assert(line2[kn] == COLON && line2[kn + 1] == SP);
            assert(false);
        },
        Some(i) => {
            if i < kn {
                assert(line2[i] == COLON && line2[i + 1] == SP);
                assert(false);
            }
            if i > kn {
                assert(!(line2[kn] == COLON && line2[kn + 1] == SP));
                assert(false);
            }
            assert(i == kn);
        },
    }
    assert(find_colon_space(line2) == Some(kn));
    assert(line2.take(kn) =~= k);
    assert(line2.skip(kn + 2) =~= w);
    let kv = (lower_chars(decode_utf8(k)), decode_utf8(w));
    assert(parse_header_line(line2) == Some(kv));

    // Folding the single header line gives the one-pair table.
    let empty_acc = Seq::<(Seq<char>, Seq<char>)>::empty();
    assert(!assoc_contains(empty_acc, kv.0));
    let one_line = seq![line2];
    assert(one_line.first() == line2 && one_line.drop_first() =~= Seq::<Seq<u8>>::empty());
    assert(parse_header_lines(Seq::<Seq<u8>>::empty(), empty_acc.push(kv)) == Some(
        empty_acc.push(kv),
    ));
    assert(parse_header_lines(one_line, empty_acc) == Some(empty_acc.push(kv)));

    // Assembling the parse result.
    let ls = clean_lines(bytes);
    assert(ls.len() == 2);
    assert(ls.first() == line1);
    assert(ls.drop_first() =~= one_line);
    assert(empty_acc.push(kv) =~= seq![kv]);
    assert(spec_parse_request(bytes) == Some(
        RequestModel {
            method: decode_utf8(m),
            path: decode_utf8(p),
            version: decode_utf8(v),
            headers: seq![(lower_chars(decode_utf8(k)), decode_utf8(w))],
            body: Seq::<u8>::empty(),
        },
    ));
}

impl Request {
    /// Parses a request from the raw bytes of a header block. Returns exactly
    /// what `spec_parse_request` names, with every failure a `BadRequest`.
    #[verifier::loop_isolation(false)]
    pub fn parse_from_bytes(bytes: Vec<u8>) -> (r: Result<Request, Error>)
        ensures
            r is Ok <==> spec_parse_request(bytes@) is Some,
            r matches Ok(req) ==> Some(req@) == spec_parse_request(bytes@),
            r matches Err(e) ==> e is BadRequest,
    {
        let ghost ls = clean_lines(bytes@);
        let lines = split_clean_lines(&bytes);
        if lines.len() == 0 {
            proof {
                assert(ls.len() == 0);
            }
            return Ok(Request::default());
        }
        proof {
            assert(views_of(lines@)[0] == lines@[0]@);
            assert(ls.first() == lines@[0]@);
        }
        let toks = split_bytes(&lines[0], SP);
        proof {
            assert(views_of(toks@).len() == toks@.len());
        }
        if toks.len() != 3 {
            return Err(Error::BadRequest(String::from_str("malformed request line")));
        }
        proof {
            assert(views_of(toks@)[0] == toks@[0]@);
            assert(views_of(toks@)[1] == toks@[1]@);
            assert(views_of(toks@)[2] == toks@[2]@);
        }
        let method = match bytes_to_string(&toks[0]) {
            Some(s) => s,
            None => {
                return Err(Error::BadRequest(String::from_str("request line is not utf-8")));
            },
        };
        let path = match bytes_to_string(&toks[1]) {
            Some(s) => s,
            None => {
                return Err(Error::BadRequest(String::from_str("request line is not utf-8")));
            },
        };
        let version = match bytes_to_string(&toks[2]) {
            Some(s) => s,
            None => {
                return Err(Error::BadRequest(String::from_str("request line is not utf-8")));
            },
        };
        let ghost mpv = parse_request_line(ls.first())->0;
        proof {
            assert(parse_request_line(ls.first()) is Some);
            assert(mpv == (method@, path@, version@));
        }
        let mut headers = StrTable::new();
        let mut j: usize = 1;
        proof {
            assert(ls.skip(1) =~= views_of(lines@).skip(1));
            assert(ls.drop_first() =~= ls.skip(1));
            assert(headers@ =~= Seq::<(Seq<char>, Seq<char>)>::empty());
        }
        while j < lines.len()
            invariant
                1 <= j <= lines@.len(),
                ls == views_of(lines@),
                ls.len() == lines@.len(),
                parse_header_lines(ls.skip(j as int), headers@) == parse_header_lines(
                    ls.skip(1),
                    Seq::<(Seq<char>, Seq<char>)>::empty(),
                ),
            decreases lines@.len() - j,
        {
            let ghost rest = ls.skip(j as int);
            proof {
                assert(rest.first() == ls[j as int]);
                assert(ls[j as int] == lines@[j as int]@);
                assert(rest.drop_first() =~= ls.skip(j + 1));
            }
            let line = &lines[j];
            let sep = match crate::text::find_header_sep(line) {
                Some(i) => i,
                None => {
                    proof {
                        assert(parse_header_line(rest.first()) is None);
                        assert(parse_header_lines(rest, headers@) is None);
                        assert(ls.drop_first() =~= ls.skip(1));
                    }
                    return Err(Error::BadRequest(String::from_str("malformed header line")));
                },
            };
            proof {
                lemma_find_colon_space(line@);
            }
            let kb = sub_vec(line, 0, sep);
            let vb = sub_vec(line, sep + 2, line.len());
            proof {
                assert(kb@ == line@.take(sep as int));
                assert(vb@ == line@.skip(sep + 2));
            }
            let key = match bytes_to_lower_string(&kb) {
                Some(s) => s,
                None => {
                    proof {
                        assert(parse_header_line(rest.first()) is None);
                        assert(parse_header_lines(rest, headers@) is None);
                        assert(ls.drop_first() =~= ls.skip(1));
                    }
                    return Err(Error::BadRequest(String::from_str("header line is not utf-8")));
                },
            };
            let value = match bytes_to_string(&vb) {
                Some(s) => s,
                None => {
                    proof {
                        assert(parse_header_line(rest.first()) is None);
                        assert(parse_header_lines(rest, headers@) is None);
                        assert(ls.drop_first() =~= ls.skip(1));
                    }
                    return Err(Error::BadRequest(String::from_str("header line is not utf-8")));
                },
            };
            let ghost kv = (key@, value@);
            proof {
                assert(parse_header_line(rest.first()) == Some(kv));
            }
            let ghost old_headers = headers@;
            headers.insert_if_absent(key, value);
            proof {
                assert(headers@ == if assoc_contains(old_headers, kv.0) {
                    old_headers
                } else {
                    old_headers.push(kv)
                });
            }
            j = j + 1;
        }
        proof {
            assert(ls.skip(lines@.len() as int) =~= Seq::<Seq<u8>>::empty());
            assert(parse_header_lines(ls.skip(lines@.len() as int), headers@) == Some(headers@));
            assert(ls.drop_first() =~= ls.skip(1));
        }
        let req = Request { path, method, version, headers, body: Vec::new() };
        proof {
            assert(req@.body =~= Seq::<u8>::empty());
            assert(Some(req@) == spec_parse_request(bytes@));
        }
        Ok(req)
    }

    /// Stores the body read from the connection on the request; everything
    /// else is unchanged.
    pub fn attach_body(&mut self, body: Vec<u8>)
        ensures
            final(self)@.body == body@,
            final(self)@.method == old(self)@.method,
            final(self)@.path == old(self)@.path,
            final(self)@.version == old(self)@.version,
            final(self)@.headers == old(self)@.headers,
    {
        self.body = body;
    }

    /// The request's content-length rule: `None` when the header is absent (no
    /// body is owed), the length when it parses as a decimal number that fits,
    /// and a `BadRequest` error when the header is present but malformed.
    pub fn content_length(&self) -> (r: Result<Option<usize>, Error>)
        ensures
            match spec_content_length(self@.headers) {
                None => r matches Err(e) && e is BadRequest,
                Some(None) => r == Result::<Option<usize>, Error>::Ok(Option::<usize>::None),
                Some(Some(n)) => r matches Ok(Some(m)) && m == n,
            },
    {
        match self.headers.get("content-length") {
            None => Ok(None),
            Some(v) => match parse_decimal(v.as_str()) {
                Some(n) => Ok(Some(n)),
                None => Err(Error::BadRequest(String::from_str("malformed content-length"))),
            },
        }
    }
}

/// True when the buffer ends with the header terminator: an empty line, that
/// is `\r\n\r\n`.
pub open spec fn ends_with_terminator(s: Seq<u8>) -> bool {
    let n = s.len();
    n >= 4 && s[n - 4] == CR && s[n - 3] == LF && s[n - 2] == CR && s[n - 1] == LF
}

/// An incremental reader for a header block: bytes from the connection are
/// pushed one at a time, and the scan reports completion as soon as the
/// buffer ends with the terminator, so it stops at the first occurrence.
/// When the stream ends before a terminator, whatever was pushed is the
/// (possibly empty) header block.
pub struct HeaderScan {
    buf: Vec<u8>,
    done: bool,
}

impl HeaderScan {
    /// The bytes pushed so far.
    pub closed spec fn bytes(&self) -> Seq<u8> {
        self.buf@
    }

    /// Whether the terminator has been seen.
    pub closed spec fn scan_done(&self) -> bool {
        self.done
    }

    /// No proper prefix of the buffer ends with the terminator: the scan
    /// would have stopped there.
    pub closed spec fn wf(&self) -> bool {
        &&& self.done == ends_with_terminator(self.buf@)
        &&& forall|i: int| 0 <= i < self.buf@.len() ==> !ends_with_terminator(
            #[trigger] self.buf@.take(i))
    }

    /// An empty scan.
    pub fn new() -> (r: HeaderScan)
        ensures
            r.bytes() == Seq::<u8>::empty(),
            !r.scan_done(),
            r.wf(),
    {
        let r = HeaderScan { buf: Vec::new(), done: false };
        proof {
            assert forall|i: int| 0 <= i < r.buf@.len() implies !ends_with_terminator(
                #[trigger] r.buf@.take(i)) by {}
        }
        r
    }

    /// Whether the terminator has been seen.
    pub fn is_done(&self) -> (r: bool)
        ensures
            r == self.scan_done(),
    {
        self.done
    }

    /// Feeds one byte from the connection; the result reports whether the
    /// buffer now ends with the terminator.
    pub fn push_byte(&mut self, b: u8) -> (r: bool)
        requires
            old(self).wf(),
            !old(self).scan_done(),
        ensures
            final(self).bytes() == old(self).bytes().push(b),
            final(self).scan_done() == ends_with_terminator(final(self).bytes()),
            r == final(self).scan_done(),
            final(self).wf(),
    {
        let ghost old_buf = self.buf@;
        self.buf.push(b);
        let n = self.buf.len();
        if n >= 4 && self.buf[n - 4] == CR && self.buf[n - 3] == LF && self.buf[n - 2] == CR
            && self.buf[n - 1] == LF {
            self.done = true;
        }
        proof {
            assert forall|i: int| 0 <= i < self.buf@.len() implies !ends_with_terminator(
                #[trigger] self.buf@.take(i)) by {
                assert(self.buf@.take(i) =~= old_buf.take(i));
                if i == old_buf.len() {
                    assert(old_buf.take(i) =~= old_buf);
                }
            }
        }
        self.done
    }

    /// The header block read so far; consumes the scan.
    pub fn into_bytes(self) -> (r: Vec<u8>)
        ensures
            r@ == self.bytes(),
    {
        self.buf
    }
}

} // verus!
