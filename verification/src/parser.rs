//! The request parser and its data model.
//!
//! A request buffer is an immutable byte slice.  Every parsed field is a
//! [`Span`], a byte range into that buffer; the parser never copies buffer
//! text.  The grammar is the usual HTTP/1.1 request framing:
//!
//! ```text
//! METHOD SP PATH SP VERSION CRLF
//! (Name ":" SP+ Value CRLF)*
//! CRLF
//! [Body]
//! ```
//!
//! Matching is deliberately permissive and structural:
//! * the request line is split greedily, so the method token absorbs any
//!   embedded extra spaces and the path and version are the tokens between
//!   the last two spaces of the line;
//! * every line of the buffer is scanned for a header, the name ending at the
//!   last `": "` of its line; lines without one are skipped silently;
//! * the body is whatever follows the first blank-line separator, if anything
//!   does.
//!
//! Only a malformed request line makes a parse fail.

use vstd::prelude::*;

use crate::scan::find_first;
use crate::scan::find_last;
use crate::scan::find_last_colon_space;
use crate::scan::find_separator;
use crate::scan::lemma_find_separator_is;
use crate::scan::lemma_find_separator_none;
use crate::scan::separator_at;
use crate::scan::seek_byte;
use crate::scan::seek_last_byte_before;
use crate::scan::seek_last_colon_space;
use crate::scan::seek_past_spaces;
use crate::scan::skip_spaces;

verus! {

/// A view into a request buffer: the bytes at indices `start..end`.
#[derive(Clone, Copy, Debug, PartialEq, Eq, Structural)]
pub struct Span {
    pub start: usize,
    pub end: usize,
}

impl Span {
    /// The range lies inside a buffer of the given length.
    pub open spec fn wf(self, buf: Seq<u8>) -> bool {
        self.start <= self.end <= buf.len()
    }

    /// The bytes the span selects from `buf`.
    pub open spec fn bytes(self, buf: Seq<u8>) -> Seq<u8> {
        buf.subrange(self.start as int, self.end as int)
    }
}

/// One header field: views of its name and of its value.
#[derive(Clone, Copy, Debug, PartialEq, Eq, Structural)]
pub struct Header {
    pub name: Span,
    pub value: Span,
}

/// The one fatal condition: the request line does not have the
/// three-token-plus-terminator shape.
#[derive(Clone, Copy, Debug, PartialEq, Eq, Structural)]
pub enum ParseError {
    MalformedRequestLine,
}

/// Content of the buffer's first line: the bytes before the first `"\r\n"`.
/// `None` when the first line does not end in `"\r\n"`.
pub open spec fn spec_first_line(buf: Seq<u8>) -> Option<Seq<u8>> {
    match find_first(buf, 10u8) {
        Some(i) => if i >= 1 && buf[i - 1] == 13u8 {
            Some(buf.take(i - 1))
        } else {
            None
        },
        None => None,
    }
}

/// The greedy three-way split of the request line.
///
/// The method is everything before the second-to-last space of the line, the
/// path the token between the last two spaces, the version what follows the
/// last space.  `None` when the first line does not end in `"\r\n"` or holds
/// fewer than two spaces.
pub open spec fn spec_request_line(buf: Seq<u8>) -> Option<(Seq<u8>, Seq<u8>, Seq<u8>)> {
    match spec_first_line(buf) {
        None => None,
        Some(c) => match find_last(c, 32u8) {
            None => None,
            Some(k) => match find_last(c.take(k), 32u8) {
                None => None,
                Some(j) => Some(
                    (c.take(j), c.subrange(j + 1, k), c.subrange(k + 1, c.len() as int)),
                ),
            },
        },
    }
}

/// Strips one trailing carriage return, as line splitting does.
pub open spec fn chomp_cr(line: Seq<u8>) -> Seq<u8> {
    if line.len() > 0 && line[line.len() - 1] == 13u8 {
        line.drop_last()
    } else {
        line
    }
}

/// The buffer split into lines: separated on each line feed, one trailing
/// carriage return stripped from a separated line, and no empty line after a
/// final line feed.
pub open spec fn spec_lines(buf: Seq<u8>) -> Seq<Seq<u8>>
    decreases buf.len(),
{
    if buf.len() == 0 {
        Seq::empty()
    } else {
        match find_first(buf, 10u8) {
            None => seq![buf],
            Some(i) => if 0 <= i < buf.len() {
                seq![chomp_cr(buf.take(i))] + spec_lines(buf.skip(i + 1))
            } else {
                Seq::empty()
            },
        }
    }
}

/// The header a line carries, if any: the name is everything before the last
/// `": "` of the line, the value everything after that colon and the spaces
/// that follow it.
pub open spec fn spec_header_line(line: Seq<u8>) -> Option<(Seq<u8>, Seq<u8>)> {
    match find_last_colon_space(line) {
        None => None,
        Some(c) => Some(
            (line.take(c), line.subrange(skip_spaces(line, c + 1), line.len() as int)),
        ),
    }
}

/// Folds one line into the header mapping: a line that carries a header
/// inserts it, overwriting any earlier value under the same name.
pub open spec fn header_step(m: Map<Seq<u8>, Seq<u8>>, line: Seq<u8>) -> Map<Seq<u8>, Seq<u8>> {
    match spec_header_line(line) {
        None => m,
        Some((n, v)) => m.insert(n, v),
    }
}

/// Folds a sequence of lines into a header mapping, front to back.
pub open spec fn headers_fold(lines: Seq<Seq<u8>>, m: Map<Seq<u8>, Seq<u8>>) -> Map<
    Seq<u8>,
    Seq<u8>,
>
    decreases lines.len(),
{
    if lines.len() == 0 {
        m
    } else {
        headers_fold(lines.drop_first(), header_step(m, lines.first()))
    }
}

/// The header mapping of a whole buffer.  Total: a buffer without header
/// lines yields the empty mapping.
pub open spec fn spec_headers(buf: Seq<u8>) -> Map<Seq<u8>, Seq<u8>> {
    headers_fold(spec_lines(buf), Map::empty())
}

/// The body: what follows the first `"\r\n\r\n"`, when that is non-empty.
pub open spec fn spec_body(buf: Seq<u8>) -> Option<Seq<u8>> {
    match find_separator(buf) {
        None => None,
        Some(i) => if i + 4 < buf.len() {
            Some(buf.skip(i + 4))
        } else {
            None
        },
    }
}

/// All spans of a header vector lie inside the buffer.
pub open spec fn headers_wf(hs: Seq<Header>, buf: Seq<u8>) -> bool {
    forall|i: int|
        0 <= i < hs.len() ==> (#[trigger] hs[i]).name.wf(buf) && hs[i].value.wf(buf)
}

/// No two entries of a header vector select the same name.
pub open spec fn header_names_unique(hs: Seq<Header>, buf: Seq<u8>) -> bool {
    forall|i: int, j: int|
        0 <= i < j < hs.len() ==> (#[trigger] hs[i]).name.bytes(buf) != (
        #[trigger] hs[j]).name.bytes(buf)
}

/// The mapping a header vector denotes, later entries overwriting earlier
/// ones.
pub open spec fn pairs_map(hs: Seq<Header>, buf: Seq<u8>) -> Map<Seq<u8>, Seq<u8>>
    decreases hs.len(),
{
    if hs.len() == 0 {
        Map::empty()
    } else {
        pairs_map(hs.drop_last(), buf).insert(
            hs.last().name.bytes(buf),
            hs.last().value.bytes(buf),
        )
    }
}

/// A name is a key of the mapping exactly when some entry selects it.
pub proof fn lemma_pairs_map_dom(hs: Seq<Header>, buf: Seq<u8>, n: Seq<u8>)
    ensures
        pairs_map(hs, buf).contains_key(n) <==> exists|i: int|
            0 <= i < hs.len() && (#[trigger] hs[i]).name.bytes(buf) == n,
    decreases hs.len(),
{
    if hs.len() > 0 {
        lemma_pairs_map_dom(hs.drop_last(), buf, n);
        let t = hs.drop_last();
        if hs.last().name.bytes(buf) == n {
            assert(hs[hs.len() - 1].name.bytes(buf) == n);
        } else {
            if pairs_map(hs, buf).contains_key(n) {
                let i = choose|i: int| 0 <= i < t.len() && (#[trigger] t[i]).name.bytes(buf) == n;
                assert(hs[i].name.bytes(buf) == n);
            }
            if exists|i: int| 0 <= i < hs.len() && (#[trigger] hs[i]).name.bytes(buf) == n {
                let i = choose|i: int| 0 <= i < hs.len() && (#[trigger] hs[i]).name.bytes(buf)
                    == n;
                assert(t[i] == hs[i]);
            }
        }
    }
}

/// With unique names, each entry's value is the one the mapping carries.
pub proof fn lemma_pairs_map_value(hs: Seq<Header>, buf: Seq<u8>, t: int)
    requires
        0 <= t < hs.len(),
        header_names_unique(hs, buf),
    ensures
        pairs_map(hs, buf).contains_key(hs[t].name.bytes(buf)),
        pairs_map(hs, buf)[hs[t].name.bytes(buf)] == hs[t].value.bytes(buf),
    decreases hs.len(),
{
    if t < hs.len() - 1 {
        let d = hs.drop_last();
        assert forall|i: int, j: int| 0 <= i < j < d.len() implies (#[trigger] d[i]).name.bytes(
            buf,
        ) != (#[trigger] d[j]).name.bytes(buf) by {
            assert(d[i] == hs[i]);
            assert(d[j] == hs[j]);
        }
        lemma_pairs_map_value(d, buf, t);
        assert(d[t] == hs[t]);
        assert(hs.last() == hs[hs.len() - 1]);
        assert(hs[t].name.bytes(buf) != hs[hs.len() - 1].name.bytes(buf));
    }
}

/// Overwriting one entry's value, name kept, inserts that pair into the
/// mapping.
proof fn lemma_pairs_map_update(hs: Seq<Header>, buf: Seq<u8>, t: int, h: Header)
    requires
        0 <= t < hs.len(),
        header_names_unique(hs, buf),
        h.name.bytes(buf) == hs[t].name.bytes(buf),
    ensures
        pairs_map(hs.update(t, h), buf) == pairs_map(hs, buf).insert(
            h.name.bytes(buf),
            h.value.bytes(buf),
        ),
    decreases hs.len(),
{
    let u = hs.update(t, h);
    let m = pairs_map(hs.drop_last(), buf);
    if t == hs.len() - 1 {
        assert(u.drop_last() =~= hs.drop_last());
        assert(u.last() == h);
        assert(m.insert(hs.last().name.bytes(buf), hs.last().value.bytes(buf)).insert(
            h.name.bytes(buf),
            h.value.bytes(buf),
        ) =~= m.insert(h.name.bytes(buf), h.value.bytes(buf)));
    } else {
        let d = hs.drop_last();
        assert forall|i: int, j: int| 0 <= i < j < d.len() implies (#[trigger] d[i]).name.bytes(
            buf,
        ) != (#[trigger] d[j]).name.bytes(buf) by {
            assert(d[i] == hs[i]);
            assert(d[j] == hs[j]);
        }
        assert(d[t] == hs[t]);
        lemma_pairs_map_update(d, buf, t, h);
        assert(u.drop_last() =~= d.update(t, h));
        assert(u.last() == hs.last());
        let n = h.name.bytes(buf);
        let v = h.value.bytes(buf);
        let nl = hs.last().name.bytes(buf);
        let vl = hs.last().value.bytes(buf);
        assert(hs.last() == hs[hs.len() - 1]);
        assert(n != nl);
        assert(m.insert(n, v).insert(nl, vl) =~= m.insert(nl, vl).insert(n, v));
    }
}

/// Byte-for-byte equality of two views into one buffer.
fn span_eq(buf: &[u8], a: Span, b: Span) -> (r: bool)
    requires
        a.wf(buf@),
        b.wf(buf@),
    ensures
        r <==> a.bytes(buf@) == b.bytes(buf@),
{
    let alen = a.end - a.start;
    let blen = b.end - b.start;
    if alen != blen {
        proof {
            assert(a.bytes(buf@).len() != b.bytes(buf@).len());
        }
        return false;
    }
    let mut i: usize = 0;
    while i < alen
        invariant
            i <= alen,
            alen == blen,
            a.wf(buf@),
            b.wf(buf@),
            alen == a.end - a.start,
            blen == b.end - b.start,
            forall|j: int| 0 <= j < i ==> a.bytes(buf@)[j] == b.bytes(buf@)[j],
        decreases alen - i,
    {
        let x = buf[a.start + i];
        let y = buf[b.start + i];
        proof {
            assert(a.bytes(buf@)[i as int] == buf@[a.start + i]);
            assert(b.bytes(buf@)[i as int] == buf@[b.start + i]);
        }
        if x != y {
            return false;
        }
        i = i + 1;
    }
    proof {
        assert(a.bytes(buf@) =~= b.bytes(buf@));
    }
    true
}

/// The header vector went from `before` to `after` by folding in the line at
/// `buf[start..end]`, as [`header_step`] describes.
pub open spec fn folded_line(
    before: Seq<Header>,
    after: Seq<Header>,
    buf: Seq<u8>,
    start: int,
    end: int,
) -> bool {
    pairs_map(after, buf) == header_step(pairs_map(before, buf), buf.subrange(start, end))
}

/// Folds one line of the buffer into the header vector: a line carrying a
/// header is inserted, overwriting the value of an entry with the same name.
fn scan_header_line(request: &[u8], hs: &mut Vec<Header>, start: usize, end: usize)
    requires
        start <= end <= request@.len(),
        headers_wf(old(hs)@, request@),
        header_names_unique(old(hs)@, request@),
    ensures
        headers_wf(final(hs)@, request@),
        header_names_unique(final(hs)@, request@),
        folded_line(old(hs)@, final(hs)@, request@, start as int, end as int),
{
    let ghost line = request@.subrange(start as int, end as int);
    let c = match seek_last_colon_space(request, start, end) {
        None => {
            return;
        },
        Some(c) => c,
    };
    let vs = seek_past_spaces(request, start, end, c + 2);
    let name = Span { start, end: c };
    let value = Span { start: vs, end };
    proof {
        assert(line[c - start + 1] == request@[c as int + 1]);
        assert(skip_spaces(line, c - start + 1) == skip_spaces(line, c - start + 2));
        assert(name.bytes(request@) =~= line.take(c - start));
        assert(value.bytes(request@) =~= line.subrange(vs - start, line.len() as int));
        assert(spec_header_line(line) == Some((name.bytes(request@), value.bytes(request@))));
    }
    let mut t: usize = 0;
    while t < hs.len()
        invariant
            t <= hs@.len(),
            hs@ == old(hs)@,
            headers_wf(hs@, request@),
            header_names_unique(hs@, request@),
            name.wf(request@),
            value.wf(request@),
            (spec_header_line(request@.subrange(start as int, end as int)) == Some(
                (name.bytes(request@), value.bytes(request@)),
            )),
            forall|u: int|
                0 <= u < t ==> (#[trigger] hs@[u]).name.bytes(request@) != name.bytes(request@),
        decreases hs@.len() - t,
    {
        let cand = hs[t].name;
        proof {
            assert(hs@[t as int].name.wf(request@));
        }
        if span_eq(request, cand, name) {
            let nh = Header { name: cand, value };
            hs.set(t, nh);
            proof {
                lemma_pairs_map_update(old(hs)@, request@, t as int, nh);
                assert(hs@ == old(hs)@.update(t as int, nh));
                assert forall|i: int|
                    0 <= i < hs@.len() implies (#[trigger] hs@[i]).name == old(hs)@[i].name
                    && hs@[i].name.wf(request@) && hs@[i].value.wf(request@) by {
                    if i != t {
                        assert(hs@[i] == old(hs)@[i]);
                    } else {
                        assert(hs@[i] == nh);
                        assert(nh.name == old(hs)@[t as int].name);
                    }
                }
            }
            return;
        }
        t = t + 1;
    }
    let nh = Header { name, value };
    hs.push(nh);
    proof {
        assert(hs@.drop_last() =~= old(hs)@);
        assert(hs@.last() == nh);
    }
}

/// The three request-line spans stand where the grammar puts them: the method
/// starts the buffer, single spaces separate the tokens, and `"\r\n"` closes
/// the line.
pub open spec fn spans_match_request_line(m: Span, p: Span, v: Span, buf: Seq<u8>) -> bool {
    &&& m.wf(buf) && p.wf(buf) && v.wf(buf)
    &&& m.start == 0
    &&& p.start == m.end + 1
    &&& v.start == p.end + 1
    &&& v.end + 2 <= buf.len()
    &&& buf[m.end as int] == 32u8
    &&& buf[p.end as int] == 32u8
    &&& buf[v.end as int] == 13u8
    &&& buf[v.end as int + 1] == 10u8
    &&& spec_request_line(buf) == Some((m.bytes(buf), p.bytes(buf), v.bytes(buf)))
}

/// The abstract content of a parsed request: the bytes each field selects.
pub struct RequestView {
    pub method: Seq<u8>,
    pub path: Seq<u8>,
    pub version: Seq<u8>,
    pub headers: Map<Seq<u8>, Seq<u8>>,
    pub body: Option<Seq<u8>>,
}

/// What parsing a buffer yields, as a function of the buffer alone.
pub open spec fn spec_parse(buf: Seq<u8>) -> Option<RequestView> {
    match spec_request_line(buf) {
        None => None,
        Some((m, p, v)) => Some(
            RequestView {
                method: m,
                path: p,
                version: v,
                headers: spec_headers(buf),
                body: spec_body(buf),
            },
        ),
    }
}

/// One parsed request.  Every field is a view into the buffer the request
/// was parsed from; the struct owns none of the text.
#[derive(Debug, PartialEq, Eq)]
pub struct Request {
    pub method: Span,
    pub path: Span,
    pub version: Span,
    pub headers: Vec<Header>,
    pub body: Option<Span>,
}

impl Request {
    /// Every stored view is a valid sub-range of a buffer of this shape.
    pub open spec fn wf(self, buf: Seq<u8>) -> bool {
        &&& self.method.wf(buf)
        &&& self.path.wf(buf)
        &&& self.version.wf(buf)
        &&& headers_wf(self.headers@, buf)
        &&& header_names_unique(self.headers@, buf)
        &&& (self.body matches Some(b) ==> b.wf(buf))
    }

    /// The abstract content this request selects from `buf`.
    pub open spec fn view_in(self, buf: Seq<u8>) -> RequestView {
        RequestView {
            method: self.method.bytes(buf),
            path: self.path.bytes(buf),
            version: self.version.bytes(buf),
            headers: pairs_map(self.headers@, buf),
            body: match self.body {
                Some(b) => Some(b.bytes(buf)),
                None => None,
            },
        }
    }

    /// Splits the request line into method, path and version views.
    ///
    /// Fails exactly when the first line of the buffer does not end in
    /// `"\r\n"` or holds fewer than two spaces.  On success the three views
    /// are the greedy split that [`spec_request_line`] describes.
    pub fn parse_request_line(request: &[u8]) -> (r: Result<(Span, Span, Span), ParseError>)
        ensures
            r is Ok <==> spec_request_line(request@) is Some,
            r matches Ok((m, p, v)) ==> spans_match_request_line(m, p, v, request@),
            r matches Err(e) ==> e == ParseError::MalformedRequestLine,
    {
        proof {
            assert(request@.skip(0) =~= request@);
        }
        let lf = match seek_byte(request, 0, 10u8) {
            Some(i) => i,
            None => {
                return Err(ParseError::MalformedRequestLine);
            },
        };
        if lf == 0 || request[lf - 1] != 13u8 {
            return Err(ParseError::MalformedRequestLine);
        }
        let e = lf - 1;
        let ghost c = request@.take(e as int);
        let k = match seek_last_byte_before(request, e, 32u8) {
            Some(i) => i,
            None => {
                return Err(ParseError::MalformedRequestLine);
            },
        };
        let j = match seek_last_byte_before(request, k, 32u8) {
            Some(i) => i,
            None => {
                proof {
                    assert(c.take(k as int) =~= request@.take(k as int));
                }
                return Err(ParseError::MalformedRequestLine);
            },
        };
        let m = Span { start: 0, end: j };
        let p = Span { start: j + 1, end: k };
        let v = Span { start: k + 1, end: e };
        proof {
            assert(c.take(k as int) =~= request@.take(k as int));
            assert(m.bytes(request@) =~= c.take(j as int));
            assert(p.bytes(request@) =~= c.subrange(j + 1, k as int));
            assert(v.bytes(request@) =~= c.subrange(k + 1, c.len() as int));
            assert(request@.take(k as int)[j as int] == request@[j as int]);
            assert(c[k as int] == request@[k as int]);
        }
        Ok((m, p, v))
    }

    /// Extracts the body view: everything after the first blank-line
    /// separator, or `None` when there is no separator or nothing follows it.
    pub fn parse_body(request: &[u8]) -> (r: Option<Span>)
        ensures
            match r {
                Some(b) => b.wf(request@) && b.end == request@.len() && spec_body(request@)
                    == Some(b.bytes(request@)),
                None => spec_body(request@) is None,
            },
    {
        let n = request.len();
        if n < 4 {
            proof {
                lemma_find_separator_none(request@);
            }
            return None;
        }
        let mut i: usize = 0;
        while i <= n - 4
            invariant
                n == request@.len(),
                4 <= n,
                i <= n - 3,
                forall|j: int| 0 <= j < i ==> !separator_at(request@, j),
            decreases n - i,
        {
            if request[i] == 13u8 && request[i + 1] == 10u8 && request[i + 2] == 13u8 && request[i
                + 3] == 10u8 {
                proof {
                    lemma_find_separator_is(request@, i as int);
                }
                if i + 4 < n {
                    let b = Span { start: i + 4, end: n };
                    proof {
                        assert(b.bytes(request@) =~= request@.skip(i + 4));
                    }
                    return Some(b);
                } else {
                    return None;
                }
            }
            i = i + 1;
        }
        proof {
            lemma_find_separator_none(request@);
        }
        None
    }

    /// Collects the header fields of the whole buffer, scanning it line by
    /// line.  Total: it never fails, and a buffer without header lines
    /// yields an empty vector.  The vector selects unique names and denotes
    /// exactly the mapping [`spec_headers`] describes.
    pub fn parse_headers(request: &[u8]) -> (hs: Vec<Header>)
        ensures
            headers_wf(hs@, request@),
            header_names_unique(hs@, request@),
            pairs_map(hs@, request@) == spec_headers(request@),
    {
        let mut hs: Vec<Header> = Vec::new();
        let mut pos: usize = 0;
        proof {
            assert(request@.skip(0) =~= request@);
        }
        while pos < request.len()
            invariant
                pos <= request@.len(),
                headers_wf(hs@, request@),
                header_names_unique(hs@, request@),
                (headers_fold(spec_lines(request@.skip(pos as int)), pairs_map(hs@, request@))
                    == spec_headers(request@)),
            decreases request@.len() - pos,
        {
            let ghost rem = request@.skip(pos as int);
            let ghost m0 = pairs_map(hs@, request@);
            match seek_byte(request, pos, 10u8) {
                Some(lf) => {
                    let cend = if lf > pos && request[lf - 1] == 13u8 {
                        lf - 1
                    } else {
                        lf
                    };
                    proof {
                        let i = lf as int - pos as int;
                        let line = chomp_cr(rem.take(i));
                        assert(rem.take(i) =~= request@.subrange(pos as int, lf as int));
                        if lf > pos && request@[lf as int - 1] == 13u8 {
                            assert(rem.take(i)[i - 1] == request@[lf as int - 1]);
                            assert(rem.take(i).drop_last() =~= request@.subrange(
                                pos as int,
                                cend as int,
                            ));
                        } else {
                            assert(line =~= request@.subrange(pos as int, cend as int));
                        }
                        assert(line == request@.subrange(pos as int, cend as int));
                        assert(rem.skip(i + 1) =~= request@.skip(lf as int + 1));
                        assert(spec_lines(rem) == seq![line] + spec_lines(
                            request@.skip(lf as int + 1),
                        ));
                        let ls = seq![line] + spec_lines(request@.skip(lf as int + 1));
                        assert(ls.first() == line);
                        assert(ls.drop_first() =~= spec_lines(request@.skip(lf as int + 1)));
                        assert(headers_fold(ls, m0) == headers_fold(
                            spec_lines(request@.skip(lf as int + 1)),
                            header_step(m0, line),
                        ));
                    }
                    scan_header_line(request, &mut hs, pos, cend);
                    pos = lf + 1;
                }
                None => {
                    proof {
                        assert(rem =~= request@.subrange(pos as int, request@.len() as int));
                        assert(spec_lines(rem) == seq![rem]);
                        let ls = seq![rem];
                        assert(ls.first() == rem);
                        assert(ls.drop_first() =~= Seq::<Seq<u8>>::empty());
                        assert(headers_fold(Seq::<Seq<u8>>::empty(), header_step(m0, rem))
                            == header_step(m0, rem));
                        assert(headers_fold(ls, m0) == header_step(m0, rem));
                        assert(request@.skip(request@.len() as int) =~= Seq::<u8>::empty());
                    }
                    scan_header_line(request, &mut hs, pos, request.len());
                    pos = request.len();
                }
            }
        }
        proof {
            assert(request@.skip(pos as int) =~= Seq::<u8>::empty());
        }
        hs
    }

    /// Parses one complete request buffer.
    ///
    /// Fails, with the buffer untouched, exactly when the request line is
    /// malformed; header and body extraction are total and run over the whole
    /// buffer.  On success the returned request is a bundle of views into
    /// `buff` whose content is [`spec_parse`] of the buffer — a function of
    /// the buffer alone, so parsing the same buffer again yields the same
    /// content.
    pub fn new(buff: &[u8]) -> (r: Result<Request, ParseError>)
        ensures
            r is Ok <==> spec_parse(buff@) is Some,
            r is Ok <==> spec_request_line(buff@) is Some,
            r matches Ok(req) ==> req.wf(buff@) && spec_parse(buff@) == Some(req.view_in(buff@)),
            r matches Ok(req) ==> spans_match_request_line(req.method, req.path, req.version, buff@),
            r matches Err(e) ==> e == ParseError::MalformedRequestLine,
    {
        let (method, path, version) = match Request::parse_request_line(buff) {
            Ok(t) => t,
            Err(e) => {
                return Err(e);
            },
        };
        let headers = Request::parse_headers(buff);
        let body = Request::parse_body(buff);
        Ok(Request { method, path, version, headers, body })
    }

    /// Looks a header up by name: the view of its value, or `None` when no
    /// header of that name was parsed.
    pub fn header_value(&self, buff: &[u8], name: &[u8]) -> (r: Option<Span>)
        requires
            self.wf(buff@),
        ensures
            match r {
                Some(v) => v.wf(buff@) && pairs_map(self.headers@, buff@).contains_key(name@)
                    && pairs_map(self.headers@, buff@)[name@] == v.bytes(buff@),
                None => !pairs_map(self.headers@, buff@).contains_key(name@),
            },
    {
        let mut t: usize = 0;
        while t < self.headers.len()
            invariant
                t <= self.headers@.len(),
                self.wf(buff@),
                forall|u: int|
                    0 <= u < t ==> (#[trigger] self.headers@[u]).name.bytes(buff@) != name@,
            decreases self.headers@.len() - t,
        {
            let h = self.headers[t];
            proof {
                assert(self.headers@[t as int].name.wf(buff@));
            }
            if span_matches(buff, h.name, name) {
                proof {
                    lemma_pairs_map_value(self.headers@, buff@, t as int);
                }
                return Some(h.value);
            }
            t = t + 1;
        }
        proof {
            lemma_pairs_map_dom(self.headers@, buff@, name@);
        }
        None
    }
}

/// Byte-for-byte equality of a view with a free-standing byte string.
fn span_matches(buf: &[u8], a: Span, name: &[u8]) -> (r: bool)
    requires
        a.wf(buf@),
    ensures
        r <==> a.bytes(buf@) == name@,
{
    let alen = a.end - a.start;
    if alen != name.len() {
        proof {
            assert(a.bytes(buf@).len() != name@.len());
        }
        return false;
    }
    let mut i: usize = 0;
    while i < alen
        invariant
            i <= alen,
            a.wf(buf@),
            alen == a.end - a.start,
            alen == name@.len(),
            forall|j: int| 0 <= j < i ==> a.bytes(buf@)[j] == name@[j],
        decreases alen - i,
    {
        let x = buf[a.start + i];
        let y = name[i];
        proof {
            assert(a.bytes(buf@)[i as int] == buf@[a.start + i]);
        }
        if x != y {
            return false;
        }
        i = i + 1;
    }
    proof {
        assert(a.bytes(buf@) =~= name@);
    }
    true
}

} // verus!
