//! The fixture codec: the markdown-flavoured capture format, its grammar as
//! spec-level definitions, and the verified `decode` and `encode` between a
//! document and a [`PlaybackData`] record.
//!
//! A well-formed document holds, in order: a heading line opening with
//! `## ` whose trimmed remainder ends in `.xml` (the captured request URI),
//! a `### Response headers recorded for playback` line followed by a fenced
//! block of `Name: Value` lines, and a
//! `### Response body recorded for playback` line followed by a fenced block
//! holding the raw response body. Anything around those anchors is ignored,
//! and the first such triple wins.

use crate::servirtium_error::ServirtiumServerError;
use crate::servirtium_server::ServirtiumServer;
use crate::text::{
    first_index, has_prefix, has_suffix, is_blank, join_lines, join_region, lemma_first_index_concat,
    lemma_join_split, lemma_split_lines_line_free, lemma_split_unlines, lemma_trim_keeps_first,
    lemma_trim_noop, lemma_unlines_add, lemma_unlines_join, lemma_unlines_one, line_free,
    split_lines, split_str_lines, str_eq, trim, trim_str, unlines,
};
use vstd::prelude::*;
use vstd::string::*;

verus! {

/// One captured interaction, immutable once parsed: the request URI the
/// fixture answers for, the recorded response headers in order (duplicates
/// allowed), and the raw response body.
#[derive(Debug, Clone, PartialEq, Eq)]
pub struct PlaybackData {
    pub uri: String,
    pub headers: Vec<(String, String)>,
    pub response_body: String,
}

/// The mathematical shadow of a [`PlaybackData`]: the same three fields as
/// character sequences.
pub ghost struct PlaybackDataView {
    pub uri: Seq<char>,
    pub headers: Seq<(Seq<char>, Seq<char>)>,
    pub response_body: Seq<char>,
}

impl View for PlaybackData {
    type V = PlaybackDataView;

    open spec fn view(&self) -> PlaybackDataView {
        PlaybackDataView {
            uri: self.uri@,
            headers: self.headers.deep_view(),
            response_body: self.response_body@,
        }
    }
}

/// A heading line: `## ` followed by text whose trimmed form ends in the
/// known extension `.xml` — the shape that announces a captured request URI.
pub open spec fn is_heading_line(l: Seq<char>) -> bool {
    &&& l.len() >= 3
    &&& l.take(3) == "## "@
    &&& heading_uri(l).len() >= 4
    &&& heading_uri(l).skip(heading_uri(l).len() - 4) == ".xml"@
}

/// The URI token a heading line carries: everything after the marker,
/// trimmed.
pub open spec fn heading_uri(l: Seq<char>) -> Seq<char> {
    trim(l.skip(3))
}

/// The sub-heading that announces the recorded response headers.
pub open spec fn is_headers_label(l: Seq<char>) -> bool {
    trim(l) == "### Response headers recorded for playback"@
}

/// The sub-heading that announces the recorded response body.
pub open spec fn is_body_label(l: Seq<char>) -> bool {
    trim(l) == "### Response body recorded for playback"@
}

/// A fence line: three backticks, alone on the line up to surrounding
/// blanks.
pub open spec fn is_fence(l: Seq<char>) -> bool {
    trim(l) == "```"@
}

/// The first heading line at or after position `from`.
pub open spec fn find_heading(ls: Seq<Seq<char>>, from: int) -> Option<int>
    decreases ls.len() - from,
{
    if from < 0 || from >= ls.len() {
        None
    } else if is_heading_line(ls[from]) {
        Some(from)
    } else {
        find_heading(ls, from + 1)
    }
}

/// The first headers sub-heading at or after position `from`.
pub open spec fn find_headers_label(ls: Seq<Seq<char>>, from: int) -> Option<int>
    decreases ls.len() - from,
{
    if from < 0 || from >= ls.len() {
        None
    } else if is_headers_label(ls[from]) {
        Some(from)
    } else {
        find_headers_label(ls, from + 1)
    }
}

/// The first body sub-heading at or after position `from`.
pub open spec fn find_body_label(ls: Seq<Seq<char>>, from: int) -> Option<int>
    decreases ls.len() - from,
{
    if from < 0 || from >= ls.len() {
        None
    } else if is_body_label(ls[from]) {
        Some(from)
    } else {
        find_body_label(ls, from + 1)
    }
}

/// The first fence line at or after position `from`.
pub open spec fn find_fence(ls: Seq<Seq<char>>, from: int) -> Option<int>
    decreases ls.len() - from,
{
    if from < 0 || from >= ls.len() {
        None
    } else if is_fence(ls[from]) {
        Some(from)
    } else {
        find_fence(ls, from + 1)
    }
}

/// A character a header name may consist of: an ASCII letter or a hyphen.
pub open spec fn is_header_key_char(c: char) -> bool {
    ('a' <= c && c <= 'z') || ('A' <= c && c <= 'Z') || c == '-'
}

/// A non-empty run of header-name characters.
pub open spec fn valid_header_key(k: Seq<char>) -> bool {
    k.len() > 0 && (forall|i: int| 0 <= i < k.len() ==> is_header_key_char(#[trigger] k[i]))
}

/// What one line of the headers block contributes: `Name: Value` yields the
/// trimmed pair, any other shape yields nothing and the line is ignored.
/// The colon must follow the name directly — a blank just before it
/// disqualifies the line — and leading blanks before the name are allowed.
pub open spec fn parse_header_line(l: Seq<char>) -> Option<(Seq<char>, Seq<char>)> {
    match first_index(l, ':') {
        None => None,
        Some(i) => if 0 < i && i + 1 < l.len() && l[i + 1] == ' ' && !is_blank(l[i - 1]) {
            let k = trim(l.take(i));
            if valid_header_key(k) {
                Some((k, trim(l.skip(i + 2))))
            } else {
                None
            }
        } else {
            None
        },
    }
}

/// The header pairs a block of lines yields, in order, duplicates kept.
pub open spec fn parse_header_lines(ls: Seq<Seq<char>>) -> Seq<(Seq<char>, Seq<char>)>
    decreases ls.len(),
{
    if ls.len() == 0 {
        Seq::empty()
    } else {
        match parse_header_line(ls[0]) {
            None => parse_header_lines(ls.drop_first()),
            Some(kv) => seq![kv] + parse_header_lines(ls.drop_first()),
        }
    }
}

/// The header pairs a block of raw text yields, scanned line by line.
pub open spec fn spec_parse_headers(s: Seq<char>) -> Seq<(Seq<char>, Seq<char>)> {
    parse_header_lines(split_lines(s))
}

/// What decoding a document yields: the first well-formed triple of
/// anchored sections, or nothing if the anchors never line up. The header
/// block is the region strictly between the first fence pair after the
/// headers sub-heading; the body is the region between the next fence pair
/// after the body sub-heading, trimmed.
pub open spec fn spec_decode(doc: Seq<char>) -> Option<PlaybackDataView> {
    let ls = split_lines(doc);
    match find_heading(ls, 0) {
        None => None,
        Some(h) => match find_headers_label(ls, h + 1) {
            None => None,
            Some(p) => match find_fence(ls, p + 1) {
                None => None,
                Some(f1) => match find_fence(ls, f1 + 1) {
                    None => None,
                    Some(f2) => match find_body_label(ls, f2 + 1) {
                        None => None,
                        Some(b) => match find_fence(ls, b + 1) {
                            None => None,
                            Some(f3) => match find_fence(ls, f3 + 1) {
                                None => None,
                                Some(f4) => Some(
                                    PlaybackDataView {
                                        uri: heading_uri(ls[h]),
                                        headers: parse_header_lines(ls.subrange(f1 + 1, f2)),
                                        response_body: trim(
                                            join_lines(ls.subrange(f3 + 1, f4)),
                                        ),
                                    },
                                ),
                            },
                        },
                    },
                },
            },
        },
    }
}

/// `parse_header_lines` distributes over concatenation of line blocks.
pub proof fn lemma_parse_header_lines_add(a: Seq<Seq<char>>, b: Seq<Seq<char>>)
    ensures
        parse_header_lines(a + b) == parse_header_lines(a) + parse_header_lines(b),
    decreases a.len(),
{
    if a.len() == 0 {
        assert(a + b =~= b);
        assert(parse_header_lines(a + b) =~= parse_header_lines(a) + parse_header_lines(b));
    } else {
        lemma_parse_header_lines_add(a.drop_first(), b);
        assert((a + b).drop_first() =~= a.drop_first() + b);
        assert(parse_header_lines(a + b) =~= parse_header_lines(a) + parse_header_lines(b));
    }
}

/// What one line of a headers block yields, executably: the trimmed
/// `Name: Value` pair, or nothing for a line of any other shape.
pub(crate) fn parse_header_line_str(l: &str) -> (r: Option<(String, String)>)
    ensures
        match r {
            Some(kv) => parse_header_line(l@) == Some((kv.0@, kv.1@)),
            None => parse_header_line(l@) is None,
        },
{
    let len = l.unicode_len();
    let i = match crate::text::find_char(l, ':') {
        None => {
            return None;
        },
        Some(i) => i,
    };
    if i == 0 || i + 1 >= len {
        return None;
    }
    if l.get_char(i + 1) != ' ' {
        return None;
    }
    if crate::text::is_blank_char(l.get_char(i - 1)) {
        return None;
    }
    let kpart = trim_str(l.substring_char(0, i));
    proof {
        assert(l@.subrange(0, i as int) =~= l@.take(i as int));
    }
    let klen = kpart.unicode_len();
    if klen == 0 {
        return None;
    }
    let mut j: usize = 0;
    while j < klen
        invariant
            klen == kpart@.len(),
            0 <= j <= klen,
            forall|m: int| 0 <= m < j ==> is_header_key_char(#[trigger] kpart@[m]),
            len == l@.len(),
            first_index(l@, ':') == Some(i as int),
            0 < i,
            i + 1 < len,
            l@[i + 1] == ' ',
            !is_blank(l@[i - 1]),
            kpart@ == trim(l@.take(i as int)),
        decreases klen - j,
    {
        let c = kpart.get_char(j);
        if !(('a' <= c && c <= 'z') || ('A' <= c && c <= 'Z') || c == '-') {
            return None;
        }
        j = j + 1;
    }
    let v = trim_str(l.substring_char(i + 2, len));
    proof {
        assert(l@.subrange(i + 2, len as int) =~= l@.skip(i + 2));
    }
    Some((String::from_str(kpart), String::from_str(v)))
}

/// Whether `l` is a heading line carrying a URI token.
pub fn is_heading_line_str(l: &str) -> (r: bool)
    ensures
        r == is_heading_line(l@),
{
    proof {
        reveal_strlit("## ");
    }
    if !has_prefix(l, "## ") {
        return false;
    }
    let len = l.unicode_len();
    let rest = l.substring_char(3, len);
    proof {
        assert(rest@ =~= l@.skip(3));
        reveal_strlit(".xml");
    }
    let t = trim_str(rest);
    has_suffix(t, ".xml")
}

/// Whether `l` is the headers sub-heading.
pub fn is_headers_label_str(l: &str) -> (r: bool)
    ensures
        r == is_headers_label(l@),
{
    str_eq(trim_str(l), "### Response headers recorded for playback")
}

/// Whether `l` is the body sub-heading.
pub fn is_body_label_str(l: &str) -> (r: bool)
    ensures
        r == is_body_label(l@),
{
    str_eq(trim_str(l), "### Response body recorded for playback")
}

/// Whether `l` is a fence line.
pub fn is_fence_str(l: &str) -> (r: bool)
    ensures
        r == is_fence(l@),
{
    str_eq(trim_str(l), "```")
}

/// The first heading line of `lines` at or after `from`.
fn find_heading_from(lines: &Vec<String>, from: usize) -> (r: Option<usize>)
    requires
        from <= lines@.len(),
    ensures
        match r {
            Some(i) => from <= i < lines@.len() && find_heading(lines.deep_view(), from as int)
                == Some(i as int) && is_heading_line(lines.deep_view()[i as int]),
            None => find_heading(lines.deep_view(), from as int) is None,
        },
{
    let mut i: usize = from;
    while i < lines.len()
        invariant
            from <= i <= lines@.len(),
            find_heading(lines.deep_view(), from as int) == find_heading(
                lines.deep_view(),
                i as int,
            ),
        decreases lines@.len() - i,
    {
        if is_heading_line_str(lines[i].as_str()) {
            return Some(i);
        }
        i = i + 1;
    }
    None
}

/// The first headers sub-heading of `lines` at or after `from`.
fn find_headers_label_from(lines: &Vec<String>, from: usize) -> (r: Option<usize>)
    requires
        from <= lines@.len(),
    ensures
        match r {
            Some(i) => from <= i < lines@.len() && find_headers_label(
                lines.deep_view(),
                from as int,
            ) == Some(i as int) && is_headers_label(lines.deep_view()[i as int]),
            None => find_headers_label(lines.deep_view(), from as int) is None,
        },
{
    let mut i: usize = from;
    while i < lines.len()
        invariant
            from <= i <= lines@.len(),
            find_headers_label(lines.deep_view(), from as int) == find_headers_label(
                lines.deep_view(),
                i as int,
            ),
        decreases lines@.len() - i,
    {
        if is_headers_label_str(lines[i].as_str()) {
            return Some(i);
        }
        i = i + 1;
    }
    None
}

/// The first body sub-heading of `lines` at or after `from`.
fn find_body_label_from(lines: &Vec<String>, from: usize) -> (r: Option<usize>)
    requires
        from <= lines@.len(),
    ensures
        match r {
            Some(i) => from <= i < lines@.len() && find_body_label(lines.deep_view(), from as int)
                == Some(i as int) && is_body_label(lines.deep_view()[i as int]),
            None => find_body_label(lines.deep_view(), from as int) is None,
        },
{
    let mut i: usize = from;
    while i < lines.len()
        invariant
            from <= i <= lines@.len(),
            find_body_label(lines.deep_view(), from as int) == find_body_label(
                lines.deep_view(),
                i as int,
            ),
        decreases lines@.len() - i,
    {
        if is_body_label_str(lines[i].as_str()) {
            return Some(i);
        }
        i = i + 1;
    }
    None
}

/// The first fence line of `lines` at or after `from`.
fn find_fence_from(lines: &Vec<String>, from: usize) -> (r: Option<usize>)
    requires
        from <= lines@.len(),
    ensures
        match r {
            Some(i) => from <= i < lines@.len() && find_fence(lines.deep_view(), from as int)
                == Some(i as int) && is_fence(lines.deep_view()[i as int]),
            None => find_fence(lines.deep_view(), from as int) is None,
        },
{
    let mut i: usize = from;
    while i < lines.len()
        invariant
            from <= i <= lines@.len(),
            find_fence(lines.deep_view(), from as int) == find_fence(lines.deep_view(), i as int),
        decreases lines@.len() - i,
    {
        if is_fence_str(lines[i].as_str()) {
            return Some(i);
        }
        i = i + 1;
    }
    None
}

impl PlaybackData {
    /// Parse a fixture document. The record of the first well-formed triple
    /// of anchor sections comes back; a document in which they never line up
    /// is rejected whole with `InvalidMarkdownFormat`, never partially
    /// accepted.
    pub fn decode(document: &str) -> (r: Result<PlaybackData, ServirtiumServerError>)
        ensures
            match r {
                Ok(d) => spec_decode(document@) == Some(d@),
                Err(e) => e is InvalidMarkdownFormat && spec_decode(document@) is None,
            },
    {
        let lines = split_str_lines(document);
        let h = match find_heading_from(&lines, 0) {
            Some(h) => h,
            None => {
                return Err(ServirtiumServerError::InvalidMarkdownFormat);
            },
        };
        let p = match find_headers_label_from(&lines, h + 1) {
            Some(p) => p,
            None => {
                return Err(ServirtiumServerError::InvalidMarkdownFormat);
            },
        };
        let f1 = match find_fence_from(&lines, p + 1) {
            Some(f1) => f1,
            None => {
                return Err(ServirtiumServerError::InvalidMarkdownFormat);
            },
        };
        let f2 = match find_fence_from(&lines, f1 + 1) {
            Some(f2) => f2,
            None => {
                return Err(ServirtiumServerError::InvalidMarkdownFormat);
            },
        };
        let b = match find_body_label_from(&lines, f2 + 1) {
            Some(b) => b,
            None => {
                return Err(ServirtiumServerError::InvalidMarkdownFormat);
            },
        };
        let f3 = match find_fence_from(&lines, b + 1) {
            Some(f3) => f3,
            None => {
                return Err(ServirtiumServerError::InvalidMarkdownFormat);
            },
        };
        let f4 = match find_fence_from(&lines, f3 + 1) {
            Some(f4) => f4,
            None => {
                return Err(ServirtiumServerError::InvalidMarkdownFormat);
            },
        };
        let heading = lines[h].as_str();
        let heading_len = heading.unicode_len();
        let uri = String::from_str(trim_str(heading.substring_char(3, heading_len)));
        proof {
            assert(heading@.subrange(3, heading@.len() as int) =~= heading@.skip(3));
        }
        let headers_text = join_region(&lines, f1 + 1, f2);
        let headers = ServirtiumServer::parse_headers(headers_text.as_str());
        proof {
            let region = lines.deep_view().subrange(f1 + 1, f2 as int);
            crate::text::lemma_split_lines_line_free(document@);
            if region.len() == 0 {
                assert(join_lines(region) == Seq::<char>::empty());
                assert(first_index(Seq::<char>::empty(), '\n') is None);
                assert(split_lines(Seq::<char>::empty()) == seq![Seq::<char>::empty()]);
                assert(first_index(Seq::<char>::empty(), ':') is None);
                assert(parse_header_line(Seq::<char>::empty()) is None);
                assert(seq![Seq::<char>::empty()].drop_first() =~= Seq::<Seq<char>>::empty());
                assert(parse_header_lines(Seq::<Seq<char>>::empty()) == Seq::<(
                    Seq<char>,
                    Seq<char>,
                )>::empty());
                assert(parse_header_lines(seq![Seq::<char>::empty()]) =~= Seq::<(
                    Seq<char>,
                    Seq<char>,
                )>::empty());
                assert(parse_header_lines(region) == Seq::<(Seq<char>, Seq<char>)>::empty());
            } else {
                crate::text::lemma_split_join(region);
            }
        }
        let body_text = join_region(&lines, f3 + 1, f4);
        let response_body = String::from_str(trim_str(body_text.as_str()));
        Ok(PlaybackData { uri, headers, response_body })
    }
}

/// The `Name: Value` line a header pair prints as.
pub open spec fn header_line_of(h: (Seq<char>, Seq<char>)) -> Seq<char> {
    h.0 + ": "@ + h.1
}

/// The lines `encode` lays down, in order: the heading with the URI, the
/// headers sub-heading and its fenced block of header lines, then the body
/// sub-heading and its fenced block holding the raw body.
pub open spec fn encode_lines(d: PlaybackDataView) -> Seq<Seq<char>> {
    seq!["## "@ + d.uri] + seq!["### Response headers recorded for playback"@] + seq!["```"@]
        + d.headers.map_values(|h: (Seq<char>, Seq<char>)| header_line_of(h)) + seq!["```"@]
        + seq!["### Response body recorded for playback"@] + seq!["```"@] + split_lines(
        d.response_body,
    ) + seq!["```"@]
}

/// The document `encode` prints: its lines, each closed by a line feed.
pub open spec fn spec_encode(d: PlaybackDataView) -> Seq<char> {
    unlines(encode_lines(d))
}

impl PlaybackData {
    /// Print the record in the fixture format: the document whose lines are
    /// `encode_lines` of this record. On an encodable record, `decode`
    /// reads this document back to the record itself.
    pub fn encode(&self) -> (r: String)
        ensures
            r@ == spec_encode(self@),
    {
        let ghost nl: Seq<char> = seq!['\n'];
        let ghost l0: Seq<char> = "## "@ + self.uri@;
        let ghost l1: Seq<char> = "### Response headers recorded for playback"@;
        let ghost q: Seq<char> = "```"@;
        let ghost l4: Seq<char> = "### Response body recorded for playback"@;
        let ghost m = self.headers.deep_view().map_values(
            |h: (Seq<char>, Seq<char>)| header_line_of(h),
        );
        let mut out = String::new();
        out.append("## ");
        out.append(self.uri.as_str());
        out.append("\n");
        out.append("### Response headers recorded for playback");
        out.append("\n");
        out.append("```");
        out.append("\n");
        let ghost front = out@;
        proof {
            reveal_strlit("\n");
            assert("\n"@ =~= nl);
            assert(front =~= l0 + nl + l1 + nl + q + nl);
            assert(m.take(0) =~= Seq::<Seq<char>>::empty());
            assert(unlines(Seq::<Seq<char>>::empty()) == Seq::<char>::empty());
            assert(out@ =~= front + unlines(m.take(0)));
        }
        let mut i: usize = 0;
        while i < self.headers.len()
            invariant
                0 <= i <= self.headers@.len(),
                m == self.headers.deep_view().map_values(
                    |h: (Seq<char>, Seq<char>)| header_line_of(h),
                ),
                m.len() == self.headers@.len(),
                front == l0 + nl + l1 + nl + q + nl,
                nl == seq!['\n'],
                out@ == front + unlines(m.take(i as int)),
            decreases self.headers@.len() - i,
        {
            let ghost pre = m.take(i as int);
            let pair = &self.headers[i];
            out.append(pair.0.as_str());
            out.append(": ");
            out.append(pair.1.as_str());
            out.append("\n");
            proof {
                reveal_strlit("\n");
                let hl = m[i as int];
                assert(hl == header_line_of(self.headers.deep_view()[i as int]));
                assert(m.take(i + 1) =~= pre + seq![hl]);
                lemma_unlines_add(pre, seq![hl]);
                lemma_unlines_one(hl);
                assert(out@ =~= front + unlines(m.take(i + 1)));
            }
            i = i + 1;
        }
        out.append("```");
        out.append("\n");
        out.append("### Response body recorded for playback");
        out.append("\n");
        out.append("```");
        out.append("\n");
        out.append(self.response_body.as_str());
        out.append("\n");
        out.append("```");
        out.append("\n");
        proof {
            reveal_strlit("\n");
            assert(m.take(m.len() as int) =~= m);
            let b = split_lines(self.response_body@);
            let els = encode_lines(self@);
            let p1 = seq![l0] + seq![l1];
            lemma_unlines_add(seq![l0], seq![l1]);
            let p2 = p1 + seq![q];
            lemma_unlines_add(p1, seq![q]);
            let p3 = p2 + m;
            lemma_unlines_add(p2, m);
            let p4 = p3 + seq![q];
            lemma_unlines_add(p3, seq![q]);
            let p5 = p4 + seq![l4];
            lemma_unlines_add(p4, seq![l4]);
            let p6 = p5 + seq![q];
            lemma_unlines_add(p5, seq![q]);
            let p7 = p6 + b;
            lemma_unlines_add(p6, b);
            let p8 = p7 + seq![q];
            lemma_unlines_add(p7, seq![q]);
            assert(els =~= p8);
            lemma_unlines_one(l0);
            lemma_unlines_one(l1);
            lemma_unlines_one(q);
            lemma_unlines_one(l4);
            lemma_unlines_join(b);
            lemma_join_split(self.response_body@);
            assert(unlines(b) == self.response_body@ + nl);
            assert(out@ =~= unlines(els));
        }
        out
    }
}

/// A search for a heading finds nothing in a sequence with no heading line.
proof fn lemma_find_heading_none(ls: Seq<Seq<char>>, from: int)
    requires
        forall|i: int| 0 <= i < ls.len() ==> !is_heading_line(#[trigger] ls[i]),
    ensures
        find_heading(ls, from) is None,
    decreases ls.len() - from,
{
    if 0 <= from < ls.len() {
        lemma_find_heading_none(ls, from + 1);
    }
}

/// A search for the headers sub-heading finds nothing in a sequence with no
/// such line.
proof fn lemma_find_headers_label_none(ls: Seq<Seq<char>>, from: int)
    requires
        forall|i: int| 0 <= i < ls.len() ==> !is_headers_label(#[trigger] ls[i]),
    ensures
        find_headers_label(ls, from) is None,
    decreases ls.len() - from,
{
    if 0 <= from < ls.len() {
        lemma_find_headers_label_none(ls, from + 1);
    }
}

/// A search for the body sub-heading finds nothing in a sequence with no
/// such line.
proof fn lemma_find_body_label_none(ls: Seq<Seq<char>>, from: int)
    requires
        forall|i: int| 0 <= i < ls.len() ==> !is_body_label(#[trigger] ls[i]),
    ensures
        find_body_label(ls, from) is None,
    decreases ls.len() - from,
{
    if 0 <= from < ls.len() {
        lemma_find_body_label_none(ls, from + 1);
    }
}

/// A search for a fence finds nothing in a sequence with no fence line.
proof fn lemma_find_fence_none(ls: Seq<Seq<char>>, from: int)
    requires
        forall|i: int| 0 <= i < ls.len() ==> !is_fence(#[trigger] ls[i]),
    ensures
        find_fence(ls, from) is None,
    decreases ls.len() - from,
{
    if 0 <= from < ls.len() {
        lemma_find_fence_none(ls, from + 1);
    }
}

/// A document in which one of the three anchor sections never occurs — no
/// heading line carrying a URI token, no headers sub-heading, no body
/// sub-heading, or no fence line to open a block at all — decodes to
/// nothing, so `decode` rejects it whole with `InvalidMarkdownFormat`.
pub proof fn lemma_missing_anchor_fails(doc: Seq<char>)
    requires
        (forall|i: int|
            0 <= i < split_lines(doc).len() ==> !is_heading_line(#[trigger] split_lines(doc)[i]))
            || (forall|i: int|
            0 <= i < split_lines(doc).len() ==> !is_headers_label(
                #[trigger] split_lines(doc)[i],
            )) || (forall|i: int|
            0 <= i < split_lines(doc).len() ==> !is_body_label(#[trigger] split_lines(doc)[i]))
            || (forall|i: int|
            0 <= i < split_lines(doc).len() ==> !is_fence(#[trigger] split_lines(doc)[i])),
    ensures
        spec_decode(doc) is None,
{
    let ls = split_lines(doc);
    if forall|i: int| 0 <= i < ls.len() ==> !is_heading_line(#[trigger] ls[i]) {
        lemma_find_heading_none(ls, 0);
    } else if forall|i: int| 0 <= i < ls.len() ==> !is_headers_label(#[trigger] ls[i]) {
        match find_heading(ls, 0) {
            None => {},
            Some(h) => {
                lemma_find_headers_label_none(ls, h + 1);
            },
        }
    } else if forall|i: int| 0 <= i < ls.len() ==> !is_body_label(#[trigger] ls[i]) {
        match find_heading(ls, 0) {
            None => {},
            Some(h) => match find_headers_label(ls, h + 1) {
                None => {},
                Some(p) => match find_fence(ls, p + 1) {
                    None => {},
                    Some(f1) => match find_fence(ls, f1 + 1) {
                        None => {},
                        Some(f2) => {
                            lemma_find_body_label_none(ls, f2 + 1);
                        },
                    },
                },
            },
        }
    } else {
        match find_heading(ls, 0) {
            None => {},
            Some(h) => match find_headers_label(ls, h + 1) {
                None => {},
                Some(p) => {
                    lemma_find_fence_none(ls, p + 1);
                },
            },
        }
    }
}

/// A pair the fixture format can carry on one header line: a well-formed
/// name, and a value that is already trimmed and fits on a single line.
pub open spec fn valid_header_pair(h: (Seq<char>, Seq<char>)) -> bool {
    &&& valid_header_key(h.0)
    &&& h.1 == trim(h.1)
    &&& line_free(h.1)
}

/// A record the fixture format can carry faithfully: the URI is a trimmed,
/// single-line token ending in the known extension; every header pair fits
/// its line; and the body is trimmed and contains no line a reader would
/// take for a fence.
pub open spec fn encodable(d: PlaybackDataView) -> bool {
    &&& d.uri == trim(d.uri)
    &&& line_free(d.uri)
    &&& d.uri.len() >= 4
    &&& d.uri.skip(d.uri.len() - 4) == ".xml"@
    &&& forall|i: int| 0 <= i < d.headers.len() ==> valid_header_pair(#[trigger] d.headers[i])
    &&& d.response_body == trim(d.response_body)
    &&& forall|i: int|
        0 <= i < split_lines(d.response_body).len() ==> !is_fence(
            #[trigger] split_lines(d.response_body)[i],
        )
}

/// A search for a fence line skips a stretch of lines that are none.
proof fn lemma_find_fence_skip(ls: Seq<Seq<char>>, from: int, to: int)
    requires
        0 <= from <= to <= ls.len(),
        forall|i: int| from <= i < to ==> !is_fence(#[trigger] ls[i]),
    ensures
        find_fence(ls, from) == find_fence(ls, to),
    decreases to - from,
{
    if from < to {
        assert(!is_fence(ls[from]));
        lemma_find_fence_skip(ls, from + 1, to);
    }
}

/// The printed line of a well-formed header pair parses back to that pair.
proof fn lemma_parse_header_line_of(h: (Seq<char>, Seq<char>))
    requires
        valid_header_pair(h),
    ensures
        parse_header_line(header_line_of(h)) == Some(h),
{
    reveal_strlit(": ");
    let k = h.0;
    let v = h.1;
    let l = header_line_of(h);
    let sep = ": "@;
    assert(sep.len() == 2 && sep[0] == ':' && sep[1] == ' ');
    assert(forall|i: int| 0 <= i < k.len() ==> (#[trigger] k[i]) != ':');
    assert(l =~= k + (sep + v));
    lemma_first_index_concat(k, sep + v, ':');
    assert(first_index(l, ':') == Some(k.len() as int));
    assert(l[k.len() as int + 1] == ' ');
    assert(l[k.len() as int - 1] == k[k.len() - 1]);
    assert(!is_blank(k[k.len() - 1]));
    assert(l.take(k.len() as int) =~= k);
    assert(!is_blank(k[0]) && !is_blank(k[k.len() - 1]));
    lemma_trim_noop(k);
    assert(l.skip(k.len() as int + 2) =~= v);
}

/// A block made of the printed lines of well-formed header pairs parses
/// back to exactly those pairs, in order.
proof fn lemma_parse_of_header_lines(hs: Seq<(Seq<char>, Seq<char>)>)
    requires
        forall|i: int| 0 <= i < hs.len() ==> valid_header_pair(#[trigger] hs[i]),
    ensures
        parse_header_lines(hs.map_values(|h: (Seq<char>, Seq<char>)| header_line_of(h))) == hs,
    decreases hs.len(),
{
    let m = hs.map_values(|h: (Seq<char>, Seq<char>)| header_line_of(h));
    if hs.len() == 0 {
        assert(parse_header_lines(m) =~= hs);
    } else {
        lemma_parse_header_line_of(hs[0]);
        lemma_parse_of_header_lines(hs.drop_first());
        assert(m[0] == header_line_of(hs[0]));
        assert(m.drop_first() =~= hs.drop_first().map_values(
            |h: (Seq<char>, Seq<char>)| header_line_of(h),
        ));
        assert(parse_header_lines(m) =~= seq![hs[0]] + parse_header_lines(m.drop_first()));
        assert(parse_header_lines(m) =~= hs);
    }
}

/// The codec is format-idempotent: decoding what `encode` prints for an
/// encodable record restores that record exactly — the round trip that
/// recording relies on.
pub proof fn lemma_encode_decode_round_trip(d: PlaybackDataView)
    requires
        encodable(d),
    ensures
        spec_decode(spec_encode(d)) == Some(d),
{
    reveal_strlit("## ");
    reveal_strlit(".xml");
    reveal_strlit("```");
    reveal_strlit(": ");
    reveal_strlit("### Response headers recorded for playback");
    reveal_strlit("### Response body recorded for playback");
    let hlab = "### Response headers recorded for playback"@;
    let blab = "### Response body recorded for playback"@;
    let q = "```"@;
    let l0 = "## "@ + d.uri;
    let b = split_lines(d.response_body);
    let els = encode_lines(d);
    let n = d.headers.len() as int;
    let nb = b.len() as int;
    assert(els.len() == 7 + n + nb);
    assert(els[0] == l0 && els[1] == hlab && els[2] == q);
    assert(forall|i: int|
        0 <= i < n ==> els[3 + i] == header_line_of(#[trigger] d.headers[i]));
    assert(els[3 + n] == q && els[4 + n] == blab && els[5 + n] == q);
    assert(forall|i: int| 0 <= i < nb ==> els[6 + n + i] == #[trigger] b[i]);
    assert(els[6 + n + nb] == q);

    // every laid-down line is a genuine line
    assert(line_free(l0));
    assert(line_free(hlab));
    assert(line_free(blab));
    assert(line_free(q));
    lemma_split_lines_line_free(d.response_body);
    assert forall|i: int| 0 <= i < n implies line_free(header_line_of(#[trigger] d.headers[i])) by {
        assert(valid_header_pair(d.headers[i]));
        assert(forall|j: int|
            0 <= j < d.headers[i].0.len() ==> (#[trigger] d.headers[i].0[j]) != '\n');
    }
    assert forall|i: int| 0 <= i < els.len() implies line_free(#[trigger] els[i]) by {
        if 3 <= i < 3 + n {
            assert(els[i] == header_line_of(d.headers[i - 3]));
        } else if 6 + n <= i < 6 + n + nb {
            assert(els[i] == b[i - 6 - n]);
        }
    }
    lemma_split_unlines(els);
    let ls = split_lines(spec_encode(d));
    assert(ls == els + seq![Seq::<char>::empty()]);
    assert(ls.len() == 8 + n + nb);

    // the anchors are found exactly where they were laid down
    assert(l0.take(3) =~= "## "@);
    assert(l0.skip(3) =~= d.uri);
    assert(heading_uri(l0) == d.uri);
    assert(is_heading_line(l0));
    assert(find_heading(ls, 0) == Some(0int));
    lemma_trim_noop(hlab);
    assert(is_headers_label(hlab));
    assert(find_headers_label(ls, 1) == Some(1int));
    lemma_trim_noop(q);
    assert(is_fence(q));
    assert(find_fence(ls, 2) == Some(2int));
    assert forall|i: int| 3 <= i < 3 + n implies !is_fence(#[trigger] ls[i]) by {
        let h = d.headers[i - 3];
        assert(valid_header_pair(h));
        let hl = header_line_of(h);
        assert(ls[i] == hl);
        assert(hl[0] == h.0[0]);
        assert(!is_blank(h.0[0]));
        lemma_trim_keeps_first(hl);
        if is_fence(hl) {
            assert(trim(hl)[0] == '`');
            assert(is_header_key_char('`'));
            assert(false);
        }
    }
    lemma_find_fence_skip(ls, 3, 3 + n);
    assert(find_fence(ls, 3) == Some(3 + n));
    lemma_trim_noop(blab);
    assert(is_body_label(blab));
    assert(find_body_label(ls, 4 + n) == Some(4 + n));
    assert(find_fence(ls, 5 + n) == Some(5 + n));
    assert forall|i: int| 6 + n <= i < 6 + n + nb implies !is_fence(#[trigger] ls[i]) by {
        assert(ls[i] == b[i - 6 - n]);
    }
    lemma_find_fence_skip(ls, 6 + n, 6 + n + nb);
    assert(find_fence(ls, 6 + n) == Some(6 + n + nb));

    // the regions hand back exactly what encode laid down
    assert(ls.subrange(3, 3 + n) =~= d.headers.map_values(
        |h: (Seq<char>, Seq<char>)| header_line_of(h),
    ));
    lemma_parse_of_header_lines(d.headers);
    assert(parse_header_lines(ls.subrange(3, 3 + n)) == d.headers);
    assert(ls.subrange(6 + n, 6 + n + nb) =~= b);
    lemma_join_split(d.response_body);
    assert(trim(join_lines(ls.subrange(6 + n, 6 + n + nb))) == d.response_body);
    assert(spec_decode(spec_encode(d)) == Some(
        PlaybackDataView { uri: d.uri, headers: d.headers, response_body: d.response_body },
    ));
    assert(PlaybackDataView { uri: d.uri, headers: d.headers, response_body: d.response_body }
        == d);
}

} // verus!
