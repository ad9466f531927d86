//! Rewriting of links to sites with embed-unfriendly previews (Twitter/X,
//! Bluesky, pixiv, some paywalled news sites) into embed-friendly mirrors,
//! keeping Discord spoiler wrapping, and the decision of how to answer a message.
use std::ops::Range;
use vstd::prelude::*;
use vstd::string::*;
use vstd::utf8::*;

use crate::text::{
    join_strings, joined, texts,
    has_alphanumeric, is_alphanumeric,
    concat3, opt_text, str_eq,
    lemma_boundary_at_seam, lemma_boundary_in_prefix, lemma_boundary_in_suffix, lemma_utf8_concat, lemma_utf8_round_trip,
    str_slice, text_of, utf8_len, utf8_of,
};

verus! {

/// The pattern that finds URLs in a message. Group 1 is the host name (with
/// any leading `www.` left outside the group).
pub const URL_PATTERN: &'static str =
    r"https?:\/\/(?:www\.)?([-a-zA-Z0-9@:%._\+~#=]{1,256}\.[a-zA-Z0-9()]{1,6})\b[-a-zA-Z0-9()@:%_\+.~#?&//=]*";

/// Why links could not be extracted from a message.
#[derive(Debug, Clone, Copy, PartialEq, Eq)]
pub enum LinkError {
    /// The regex engine refused the URL pattern.
    InvalidPattern,
    /// The regex engine reported a host group outside its whole match (or
    /// other spans that do not fit the message).
    MalformedMatch,
}

#[verifier::external_type_specification]
#[verifier::external_body]
pub struct ExRegexError(regex::Error);

#[verifier::external_type_specification]
#[verifier::external_body]
pub struct ExRegex(regex::Regex);

/// Whether the `regex` crate accepts `pattern` as a regex.
pub uninterp spec fn regex_compiles(pattern: Seq<char>) -> bool;

/// The byte spans of every successive non-overlapping match, in `haystack`,
/// of the regex compiled from `pattern`, in order: the whole match and
/// capture group 1 (if it took part).
pub uninterp spec fn regex_captures(pattern: Seq<char>, haystack: Seq<char>) -> Seq<
    (usize, usize, Option<(usize, usize)>),
>;

/// A compiled regex, together with the pattern it was compiled from (its view).
pub struct CompiledPattern {
    re: regex::Regex,
    pattern: Ghost<Seq<char>>,
}

impl View for CompiledPattern {
    type V = Seq<char>;

    closed spec fn view(&self) -> Seq<char> {
        self.pattern@
    }
}

/// Compiles `pattern`.
///
/// Trusted: calls `regex::Regex::new`; the contract only says that it succeeds
/// exactly when `regex_compiles` holds of the pattern, which is left unstated.
#[verifier::external_body]
fn regex_new(pattern: &str) -> (r: Result<regex::Regex, regex::Error>)
    ensures
        r is Ok <==> regex_compiles(pattern@),
{
    regex::Regex::new(pattern)
}

impl CompiledPattern {
    /// Compiles `pattern`, or gives the regex crate's error when it is not a valid regex.
    pub fn new(pattern: &str) -> (r: Result<CompiledPattern, regex::Error>)
        ensures
            r is Ok <==> regex_compiles(pattern@),
            r matches Ok(c) ==> c@ == pattern@,
    {
        match regex_new(pattern) {
            Ok(re) => Ok(CompiledPattern { re, pattern: Ghost(pattern@) }),
            Err(e) => Err(e),
        }
    }
}

/// Lists the spans of all matches of a compiled regex in `haystack`.
///
/// Trusted: calls `regex::Regex::captures_iter` and reads, for each
/// `Captures`, the span of the whole match (`get_match`) and of group 1
/// (`get(1)`). The contract names the outcome `regex_captures` of the regex's
/// pattern and the haystack, and states what the crate documents of every
/// `Match` of a `Regex` on a `&str`: `start <= end`, both offsets on character
/// boundaries of the haystack, and the matches successive and non-overlapping.
/// Nothing is stated of what a pattern matches, nor that group 1 lies within
/// its whole match (which the documentation does not say).
#[verifier::external_body]
fn pattern_captures(c: &CompiledPattern, haystack: &str) -> (r: Vec<(usize, usize, Option<(usize, usize)>)>)
    ensures
        r@ == regex_captures(c@, haystack@),
        forall|i: int|
            0 <= i < r.len() ==> span_ok(haystack.spec_bytes(), (#[trigger] r@[i]).0 as int, r@[i].1 as int)
                && (r@[i].2 matches Some(h) ==> span_ok(haystack.spec_bytes(), h.0 as int, h.1 as int)),
        forall|i: int, j: int| 0 <= i < j < r.len() ==> (#[trigger] r@[i]).1 <= (#[trigger] r@[j]).0,
{
    let mut spans = Vec::new();
    for caps in c.re.captures_iter(haystack) {
        let whole = caps.get_match();
        let host = match caps.get(1) {
            Some(m) => Some((m.start(), m.end())),
            None => None,
        };
        spans.push((whole.start(), whole.end(), host));
    }
    spans
}

/// `start..end` is a span of `b` whose ends fall on character boundaries.
pub open spec fn span_ok(b: Seq<u8>, start: int, end: int) -> bool {
    &&& 0 <= start <= end <= b.len()
    &&& is_char_boundary(b, start)
    &&& is_char_boundary(b, end)
}

/// A match span, with its host group inside it, fits the message bytes `b`.
pub open spec fn capture_ok(b: Seq<u8>, c: (usize, usize, Option<(usize, usize)>)) -> bool {
    &&& span_ok(b, c.0 as int, c.1 as int)
    &&& match c.2 {
        None => true,
        Some(h) => c.0 <= h.0 && h.1 <= c.1 && span_ok(b, h.0 as int, h.1 as int),
    }
}

/// All match spans fit `b` and come in order without overlapping.
pub open spec fn captures_ok(b: Seq<u8>, caps: Seq<(usize, usize, Option<(usize, usize)>)>) -> bool {
    &&& forall|i: int| 0 <= i < caps.len() ==> capture_ok(b, #[trigger] caps[i])
    &&& forall|i: int, j: int|
        0 <= i < j < caps.len() ==> (#[trigger] caps[i]).1 <= (#[trigger] caps[j]).0
}

/// Every host group lies within its whole match.
pub open spec fn hosts_within(caps: Seq<(usize, usize, Option<(usize, usize)>)>) -> bool {
    forall|i: int|
        0 <= i < caps.len() ==> ((#[trigger] caps[i]).2 matches Some(h) ==> caps[i].0 <= h.0 && h.1 <= caps[i].1)
}

/// One URL found in a message: its text, where it stands in the message, and
/// where its host name stands within it.
#[derive(Debug)]
pub struct UrlCapture {
    url: String,
    start: usize,
    end: usize,
    host: Option<(usize, usize)>,
}

/// What a [`UrlCapture`] holds, as mathematical values.
pub struct CaptureView {
    /// The text of the URL.
    pub url: Seq<char>,
    /// The byte offset of the URL in the message.
    pub start: int,
    /// The byte offset just past the URL in the message.
    pub end: int,
    /// The byte span of the host name within the URL's text.
    pub host: Option<(usize, usize)>,
}

impl View for UrlCapture {
    type V = CaptureView;

    closed spec fn view(&self) -> CaptureView {
        CaptureView { url: self.url@, start: self.start as int, end: self.end as int, host: self.host }
    }
}

impl UrlCapture {
    #[verifier::type_invariant]
    closed spec fn host_fits(&self) -> bool {
        &&& self.start <= self.end
        &&& match self.host {
            None => true,
            Some(h) => span_ok(utf8_of(self.url@), h.0 as int, h.1 as int),
        }
    }

    /// The text of the URL.
    pub fn url(&self) -> (r: &str)
        ensures
            r@ == self@.url,
    {
        self.url.as_str()
    }
}

/// The capture that a match span of the message bytes `b` describes: the text
/// of the whole match, its place, and the host span made relative to the match.
pub open spec fn capture_view_of(b: Seq<u8>, m: (usize, usize, Option<(usize, usize)>)) -> CaptureView {
    CaptureView {
        url: text_of(b.subrange(m.0 as int, m.1 as int)),
        start: m.0 as int,
        end: m.1 as int,
        host: match m.2 {
            None => None::<(usize, usize)>,
            Some(h) => Some(((h.0 - m.0) as usize, (h.1 - m.0) as usize)),
        },
    }
}

/// A boundary between two boundaries of `b` is a boundary of the slice between them.
proof fn lemma_boundary_in_slice(b: Seq<u8>, s: int, e: int, i: int)
    requires
        valid_utf8(b),
        0 <= s <= i <= e <= b.len(),
        is_char_boundary(b, s),
        is_char_boundary(b, e),
        is_char_boundary(b, i),
    ensures
        is_char_boundary(b.subrange(s, e), i - s),
{
    let t = b.subrange(s, b.len() as int);
    lemma_boundary_in_suffix(b, s, e);
    lemma_boundary_in_suffix(b, s, i);
    lemma_boundary_in_prefix(t, e - s, i - s);
    assert(t.subrange(0, e - s) =~= b.subrange(s, e));
}

/// Checks at run time that the match spans fit the message.
fn spans_fit(content: &str, caps: &Vec<(usize, usize, Option<(usize, usize)>)>) -> (r: bool)
    ensures
        r == captures_ok(content.spec_bytes(), caps@),
{
    let ghost b = content.spec_bytes();
    let n = content.as_bytes().len();
    let mut i: usize = 0;
    while i < caps.len()
        invariant
            n == b.len(),
            b == content.spec_bytes(),
            i <= caps.len(),
            forall|k: int| 0 <= k < i ==> capture_ok(b, #[trigger] caps@[k]),
            forall|k: int, j: int| 0 <= k < j < i ==> (#[trigger] caps@[k]).1 <= (#[trigger] caps@[j]).0,
        decreases caps.len() - i,
    {
        let (s, e, h) = caps[i];
        let mut ok = s <= e && e <= n && content.is_char_boundary(s) && content.is_char_boundary(e);
        if ok {
            match h {
                None => {},
                Some((hs, he)) => {
                    ok = s <= hs && hs <= he && he <= e && content.is_char_boundary(hs)
                        && content.is_char_boundary(he);
                },
            }
        }
        if ok && i > 0 {
            ok = caps[i - 1].1 <= s;
        }
        if !ok {
            proof {
                if capture_ok(b, caps@[i as int]) {
                    assert(i > 0 && caps@[i - 1].1 > caps@[i as int].0);
                }
            }
            return false;
        }
        proof {
            assert forall|k: int, j: int| 0 <= k < j < i + 1 implies (#[trigger] caps@[k]).1
                <= (#[trigger] caps@[j]).0 by {
                if j == i && k < i - 1 {
                    assert(caps@[k].1 <= caps@[i - 1].0);
                    assert(capture_ok(b, caps@[i - 1]));
                }
            }
        }
        i = i + 1;
    }
    true
}

/// Lists the URLs that the URL pattern finds in `content`, in order (what
/// `URL_REGEX.captures_iter(content)` yields).
pub fn url_captures(content: &str) -> (r: Result<Vec<UrlCapture>, LinkError>)
    ensures
        !regex_compiles(URL_PATTERN@) ==> r == Err::<Vec<UrlCapture>, LinkError>(LinkError::InvalidPattern),
        regex_compiles(URL_PATTERN@) ==> (captures_ok(content.spec_bytes(), regex_captures(URL_PATTERN@, content@))
            <==> hosts_within(regex_captures(URL_PATTERN@, content@))),
        regex_compiles(URL_PATTERN@) ==> {
            let m = regex_captures(URL_PATTERN@, content@);
            if captures_ok(content.spec_bytes(), m) {
                r matches Ok(v) && v.len() == m.len() && forall|i: int|
                    0 <= i < m.len() ==> (#[trigger] v@[i])@ == capture_view_of(content.spec_bytes(), m[i])
            } else {
                r == Err::<Vec<UrlCapture>, LinkError>(LinkError::MalformedMatch)
            }
        },
{
    let url_regex = match CompiledPattern::new(URL_PATTERN) {
        Ok(c) => c,
        Err(_) => return Err(LinkError::InvalidPattern),
    };
    let spans = pattern_captures(&url_regex, content);
    proof {
        let b = content.spec_bytes();
        if hosts_within(spans@) {
            assert forall|i: int| 0 <= i < spans@.len() implies capture_ok(b, #[trigger] spans@[i]) by {
                assert(span_ok(b, spans@[i].0 as int, spans@[i].1 as int));
            }
        }
        if captures_ok(b, spans@) {
            assert forall|i: int| 0 <= i < spans@.len() implies ((#[trigger] spans@[i]).2 matches Some(h)
                ==> spans@[i].0 <= h.0 && h.1 <= spans@[i].1) by {
                assert(capture_ok(b, spans@[i]));
            }
        }
    }
    if !spans_fit(content, &spans) {
        return Err(LinkError::MalformedMatch);
    }
    let ghost b = content.spec_bytes();
    proof {
        lemma_utf8_round_trip(content@);
    }
    let mut out: Vec<UrlCapture> = Vec::new();
    let mut i: usize = 0;
    while i < spans.len()
        invariant
            b == content.spec_bytes(),
            valid_utf8(b),
            captures_ok(b, spans@),
            i <= spans.len(),
            out.len() == i,
            forall|k: int| 0 <= k < i ==> (#[trigger] out@[k])@ == capture_view_of(b, spans@[k]),
        decreases spans.len() - i,
    {
        let (s, e, h) = spans[i];
        assert(capture_ok(b, spans@[i as int]));
        let url = str_slice(content, s, e).to_owned();
        let host = match h {
            None => None,
            Some((hs, he)) => {
                proof {
                    lemma_boundary_in_slice(b, s as int, e as int, hs as int);
                    lemma_boundary_in_slice(b, s as int, e as int, he as int);
                    assert(utf8_of(url@) == b.subrange(s as int, e as int));
                }
                Some((hs - s, he - s))
            },
        };
        let cap = UrlCapture { url, start: s, end: e, host };
        out.push(cap);
        i = i + 1;
    }
    Ok(out)
}


/// The mirror that a URL is rewritten to, given the byte span of its host name:
/// `twitter.com` and `x.com` become `fxtwitter.com`, `bsky.app` becomes
/// `fxbsky.app`, `pixiv.net` becomes `phixiv.net` (the rest of the URL kept as
/// it is), and a URL on `atlantic.com` or `nytimes.com` is put behind the
/// `https://yeet.knx.pw/` proxy whole. Any other host is not rewritten.
pub open spec fn rewritten_url(url: Seq<char>, host: Option<(usize, usize)>) -> Option<Seq<char>> {
    match host {
        None => None,
        Some(h) => {
            let b = utf8_of(url);
            let before = text_of(b.subrange(0, h.0 as int));
            let name = text_of(b.subrange(h.0 as int, h.1 as int));
            let after = text_of(b.subrange(h.1 as int, b.len() as int));
            if name == "twitter.com"@ || name == "x.com"@ {
                Some(before + "fxtwitter.com"@ + after)
            } else if name == "bsky.app"@ {
                Some(before + "fxbsky.app"@ + after)
            } else if name == "pixiv.net"@ {
                Some(before + "phixiv.net"@ + after)
            } else if name == "atlantic.com"@ || name == "nytimes.com"@ {
                Some("https://yeet.knx.pw/"@ + url)
            } else {
                None
            }
        },
    }
}

/// Rewrites one captured URL to its embed-friendly mirror, if its host has one.
pub fn rewrite_captured_link(caps: &UrlCapture) -> (r: Option<String>)
    ensures
        opt_text(r) == rewritten_url(caps@.url, caps@.host),
{
    proof {
        use_type_invariant(caps);
    }
    match caps.host {
        None => None,
        Some((hs, he)) => {
            let url = caps.url.as_str();
            let len = url.as_bytes().len();
            proof {
                lemma_utf8_round_trip(url@);
                is_char_boundary_start_end_of_seq(url.spec_bytes());
            }
            let before = str_slice(url, 0, hs);
            let name = str_slice(url, hs, he);
            let after = str_slice(url, he, len);
            if str_eq(name, "twitter.com") || str_eq(name, "x.com") {
                Some(concat3(before, "fxtwitter.com", after))
            } else if str_eq(name, "bsky.app") {
                Some(concat3(before, "fxbsky.app", after))
            } else if str_eq(name, "pixiv.net") {
                Some(concat3(before, "phixiv.net", after))
            } else if str_eq(name, "atlantic.com") || str_eq(name, "nytimes.com") {
                let mut proxied = "https://yeet.knx.pw/".to_owned();
                proxied.append(url);
                Some(proxied)
            } else {
                None
            }
        },
    }
}


/// A spoiler delimiter `||` starts at byte `i` of `b`.
pub open spec fn delimiter_at(b: Seq<u8>, i: int) -> bool {
    0 <= i && i + 2 <= b.len() && b[i] == 124u8 && b[i + 1] == 124u8
}

/// The first byte offset at or after `from` where a `||` delimiter starts.
pub open spec fn first_delimiter(b: Seq<u8>, from: int) -> Option<int>
    decreases b.len() - from,
{
    if from < 0 || from + 2 > b.len() {
        None
    } else if delimiter_at(b, from) {
        Some(from)
    } else {
        first_delimiter(b, from + 1)
    }
}

/// `first_delimiter` finds the first delimiter at or after `from`, if any.
pub proof fn lemma_first_delimiter(b: Seq<u8>, from: int)
    requires
        0 <= from,
    ensures
        match first_delimiter(b, from) {
            None => forall|j: int| from <= j ==> !delimiter_at(b, j),
            Some(i) => from <= i && delimiter_at(b, i) && forall|j: int|
                from <= j < i ==> !delimiter_at(b, j),
        },
    decreases b.len() - from,
{
    if from + 2 > b.len() {
    } else if delimiter_at(b, from) {
    } else {
        lemma_first_delimiter(b, from + 1);
    }
}

/// The spoiler regions of `b` from byte `cursor` on, as byte spans that include
/// both delimiters: delimiters are paired greedily left to right, and a `||`
/// left without a partner opens no region.
pub open spec fn spoiler_spans(b: Seq<u8>, cursor: int) -> Seq<(int, int)>
    decreases b.len() - cursor,
{
    if cursor < 0 || cursor > b.len() {
        seq![]
    } else {
        match first_delimiter(b, cursor) {
            None => seq![],
            Some(open) => match first_delimiter(b, open + 2) {
                None => seq![],
                Some(close) => {
                    proof {
                        lemma_first_delimiter(b, cursor);
                        lemma_first_delimiter(b, open + 2);
                    }
                    seq![(open, close + 2)] + spoiler_spans(b, close + 2)
                },
            },
        }
    }
}

/// Finds the first `||` at or after byte `from`.
fn find_delimiter(b: &[u8], from: usize) -> (r: Option<usize>)
    ensures
        match r {
            None => first_delimiter(b@, from as int) is None,
            Some(i) => first_delimiter(b@, from as int) == Some(i as int),
        },
{
    let mut i = from;
    while i < b.len() && b.len() - i >= 2
        invariant
            from <= i,
            first_delimiter(b@, from as int) == first_delimiter(b@, i as int),
        decreases b.len() - i,
    {
        if b[i] == 124u8 && b[i + 1] == 124u8 {
            return Some(i);
        }
        i = i + 1;
    }
    None
}

/// Byte ranges in `content` wrapped in Discord spoiler tags (`||...||`).
/// Delimiters are paired greedily left-to-right; an unmatched trailing `||` is
/// not a spoiler and is ignored.
pub fn spoiler_ranges(content: &str) -> (r: Vec<Range<usize>>)
    ensures
        r.len() == spoiler_spans(content.spec_bytes(), 0).len(),
        forall|i: int|
            0 <= i < r.len() ==> (#[trigger] r@[i]).start == spoiler_spans(content.spec_bytes(), 0)[i].0
                && r@[i].end == spoiler_spans(content.spec_bytes(), 0)[i].1,
{
    let b = content.as_bytes();
    let ghost spans = spoiler_spans(b@, 0);
    let mut ranges: Vec<Range<usize>> = Vec::new();
    let mut cursor: usize = 0;
    loop
        invariant
            b@ == content.spec_bytes(),
            spans == spoiler_spans(b@, 0),
            cursor <= b.len(),
            ranges.len() + spoiler_spans(b@, cursor as int).len() == spans.len(),
            forall|i: int|
                0 <= i < ranges.len() ==> (#[trigger] ranges@[i]).start == spans[i].0
                    && ranges@[i].end == spans[i].1,
            forall|i: int|
                0 <= i < spoiler_spans(b@, cursor as int).len() ==> spans[ranges.len() + i]
                    == #[trigger] spoiler_spans(b@, cursor as int)[i],
        ensures
            ranges.len() == spans.len(),
            forall|i: int|
                0 <= i < ranges.len() ==> (#[trigger] ranges@[i]).start == spans[i].0
                    && ranges@[i].end == spans[i].1,
        decreases b.len() - cursor,
    {
        let ghost rest = spoiler_spans(b@, cursor as int);
        let open = match find_delimiter(b, cursor) {
            None => {
                assert(rest.len() == 0);
                break;
            },
            Some(open) => open,
        };
        proof {
            lemma_first_delimiter(b@, cursor as int);
        }
        let close = match find_delimiter(b, open + 2) {
            None => {
                assert(rest.len() == 0);
                break;
            },
            Some(close) => close,
        };
        proof {
            lemma_first_delimiter(b@, open + 2);
            assert(rest == seq![(open as int, close + 2)] + spoiler_spans(b@, close + 2));
            assert(spans[ranges.len() as int] == rest[0]);
            assert forall|i: int| 0 <= i < spoiler_spans(b@, close + 2).len() implies spans[ranges.len()
                + 1 + i] == #[trigger] spoiler_spans(b@, close + 2)[i] by {
                assert(rest[i + 1] == spoiler_spans(b@, close + 2)[i]);
            }
        }
        ranges.push(open..close + 2);
        cursor = close + 2;
    }
    ranges
}


/// `[start, end)` lies inside one of the spoiler regions.
pub open spec fn spoilered(spoilers: Seq<(int, int)>, start: int, end: int) -> bool {
    exists|i: int| 0 <= i < spoilers.len() && (#[trigger] spoilers[i]).0 <= start && end <= spoilers[i].1
}

/// A rewritten link, wrapped in `||` when the original sat inside a spoiler.
pub open spec fn with_spoiler(link: Seq<char>, hidden: bool) -> Seq<char> {
    if hidden {
        "||"@ + link + "||"@
    } else {
        link
    }
}

/// The links rewritten from `caps` (in order, each spoilered if its original
/// was) and the message spans of the URLs they came from.
pub open spec fn rewrite_fold(b: Seq<u8>, caps: Seq<CaptureView>) -> (Seq<Seq<char>>, Seq<(int, int)>)
    decreases caps.len(),
{
    if caps.len() == 0 {
        (seq![], seq![])
    } else {
        let prev = rewrite_fold(b, caps.drop_last());
        let c = caps.last();
        match rewritten_url(c.url, c.host) {
            None => prev,
            Some(link) => (
                prev.0.push(with_spoiler(link, spoilered(spoiler_spans(b, 0), c.start, c.end))),
                prev.1.push((c.start, c.end)),
            ),
        }
    }
}

/// The start of the text kept after the `k`-th removed span.
pub open spec fn gap_start(spans: Seq<(int, int)>, k: int) -> int {
    if k <= 0 {
        0
    } else {
        spans[k - 1].1
    }
}

/// The text of `b` in front of the `k`-th removed span, with the first `k`
/// spans removed.
pub open spec fn kept_text(b: Seq<u8>, spans: Seq<(int, int)>, k: int) -> Seq<char>
    decreases k,
{
    if k <= 0 {
        seq![]
    } else {
        kept_text(b, spans, k - 1) + text_of(b.subrange(gap_start(spans, k - 1), spans[k - 1].0))
    }
}

/// The text of `b` with the (ordered, disjoint) spans removed.
pub open spec fn leftover_text(b: Seq<u8>, spans: Seq<(int, int)>) -> Seq<char> {
    kept_text(b, spans, spans.len() as int) + text_of(
        b.subrange(gap_start(spans, spans.len() as int), b.len() as int),
    )
}

/// The message held nothing but the links that were rewritten: at least one
/// link was rewritten, and removing the rewritten URLs leaves no alphanumeric
/// character (only whitespace and markdown formatting such as `**` or `||`).
pub open spec fn only_rewritten(b: Seq<u8>, caps: Seq<CaptureView>) -> bool {
    let (links, spans) = rewrite_fold(b, caps);
    let rest = leftover_text(b, spans);
    links.len() > 0 && forall|i: int| 0 <= i < rest.len() ==> !is_alphanumeric(#[trigger] rest[i])
}

/// The captures lie on character boundaries of the message bytes `b`, in
/// order and without overlapping.
pub open spec fn captures_fit(b: Seq<u8>, caps: Seq<CaptureView>) -> bool {
    &&& forall|i: int| 0 <= i < caps.len() ==> span_ok(b, (#[trigger] caps[i]).start, caps[i].end)
    &&& forall|i: int, j: int|
        0 <= i < j < caps.len() ==> (#[trigger] caps[i]).end <= (#[trigger] caps[j]).start
}

/// The views of a list of captures.
pub open spec fn capture_views(v: Seq<UrlCapture>) -> Seq<CaptureView> {
    v.map_values(|c: UrlCapture| c@)
}

/// The result of scanning a message for links we rewrite.
pub struct Rewrites {
    /// The rewritten links, in order, each spoilered if its original was.
    pub links: Vec<String>,
    /// `true` when the message held no *words* outside the links we rewrote —
    /// i.e. stripping those links leaves nothing but whitespace and markdown
    /// formatting (`**`, `||`, `~~`, …). The original is then redundant and can
    /// be deleted. A non-rewritten URL or any prose counts as words and keeps
    /// this `false`.
    pub only_rewritten_links: bool,
}

/// Whether `[start, end)` lies inside one of the spoiler ranges.
fn in_spoiler(spoilers: &Vec<Range<usize>>, start: usize, end: usize, Ghost(spans): Ghost<Seq<(int, int)>>) -> (r: bool)
    requires
        spoilers.len() == spans.len(),
        forall|i: int|
            0 <= i < spoilers.len() ==> (#[trigger] spoilers@[i]).start == spans[i].0
                && spoilers@[i].end == spans[i].1,
    ensures
        r == spoilered(spans, start as int, end as int),
{
    let mut i: usize = 0;
    while i < spoilers.len()
        invariant
            spoilers.len() == spans.len(),
            forall|k: int|
                0 <= k < spoilers.len() ==> (#[trigger] spoilers@[k]).start == spans[k].0
                    && spoilers@[k].end == spans[k].1,
            i <= spoilers.len(),
            forall|k: int| 0 <= k < i ==> !((#[trigger] spans[k]).0 <= start && end <= spans[k].1),
        decreases spoilers.len() - i,
    {
        if spoilers[i].start <= start && end <= spoilers[i].end {
            assert(spans[i as int].0 <= start && end <= spans[i as int].1);
            return true;
        }
        i = i + 1;
    }
    false
}

/// Extracts and rewrites every supported link among the URLs captured in
/// `content`. A link sitting inside a Discord spoiler (`||...||`) yields a
/// spoilered rewrite so we don't reveal something the author deliberately hid.
pub fn rewrite_links_in(content: &str, captures: &Vec<UrlCapture>) -> (r: Rewrites)
    requires
        captures_fit(content.spec_bytes(), capture_views(captures@)),
    ensures
        texts(r.links@) == rewrite_fold(content.spec_bytes(), capture_views(captures@)).0,
        r.only_rewritten_links == only_rewritten(content.spec_bytes(), capture_views(captures@)),
{
    let ghost b = content.spec_bytes();
    let ghost caps = capture_views(captures@);
    let spoilers = spoiler_ranges(content);
    let mut links: Vec<String> = Vec::new();
    let mut spans: Vec<(usize, usize)> = Vec::new();
    let mut i: usize = 0;
    while i < captures.len()
        invariant
            b == content.spec_bytes(),
            caps == capture_views(captures@),
            captures_fit(b, caps),
            spoilers.len() == spoiler_spans(b, 0).len(),
            forall|k: int|
                0 <= k < spoilers.len() ==> (#[trigger] spoilers@[k]).start == spoiler_spans(b, 0)[k].0
                    && spoilers@[k].end == spoiler_spans(b, 0)[k].1,
            i <= captures.len(),
            texts(links@) == rewrite_fold(b, caps.take(i as int)).0,
            spans@.map_values(|p: (usize, usize)| (p.0 as int, p.1 as int)) == rewrite_fold(b, caps.take(i as int)).1,
            forall|k: int| 0 <= k < spans.len() ==> span_ok(b, (#[trigger] spans@[k]).0 as int, spans@[k].1 as int),
            forall|k: int, l: int| 0 <= k < l < spans.len() ==> (#[trigger] spans@[k]).1 <= (#[trigger] spans@[l]).0,
            forall|k: int, j: int| 0 <= k < spans.len() && i <= j < caps.len() ==> (#[trigger] spans@[k]).1 <= (#[trigger] caps[j]).start,
        decreases captures.len() - i,
    {
        let cap = &captures[i];
        assert(caps.take(i + 1).drop_last() =~= caps.take(i as int));
        assert(caps[i as int] == cap@);
        match rewrite_captured_link(cap) {
            None => {},
            Some(link) => {
                let hidden = in_spoiler(&spoilers, cap.start, cap.end, Ghost(spoiler_spans(b, 0)));
                let shown = if hidden {
                    concat3("||", link.as_str(), "||")
                } else {
                    link
                };
                links.push(shown);
                spans.push((cap.start, cap.end));
                proof {
                    assert(texts(links@) =~= rewrite_fold(b, caps.take(i + 1)).0);
                    assert(spans@.map_values(|p: (usize, usize)| (p.0 as int, p.1 as int)) =~= rewrite_fold(b, caps.take(i + 1)).1);
                    assert forall|k: int, j: int| 0 <= k < spans.len() && i + 1 <= j < caps.len() implies (#[trigger] spans@[k]).1 <= (#[trigger] caps[j]).start by {
                        if k == spans.len() - 1 {
                            assert(caps[i as int].end <= caps[j].start);
                        }
                    }
                }
            },
        }
        i = i + 1;
    }
    assert(caps.take(captures.len() as int) =~= caps);
    let ghost sp = spans@.map_values(|p: (usize, usize)| (p.0 as int, p.1 as int));
    let len = content.as_bytes().len();
    let mut leftover = String::new();
    let mut cursor: usize = 0;
    let mut k: usize = 0;
    proof {
        lemma_utf8_round_trip(content@);
        is_char_boundary_start_end_of_seq(b);
    }
    while k < spans.len()
        invariant
            b == content.spec_bytes(),
            valid_utf8(b),
            len == b.len(),
            sp == spans@.map_values(|p: (usize, usize)| (p.0 as int, p.1 as int)),
            forall|q: int| 0 <= q < spans.len() ==> span_ok(b, (#[trigger] spans@[q]).0 as int, spans@[q].1 as int),
            forall|q: int, l: int| 0 <= q < l < spans.len() ==> (#[trigger] spans@[q]).1 <= (#[trigger] spans@[l]).0,
            k <= spans.len(),
            cursor as int == gap_start(sp, k as int),
            span_ok(b, cursor as int, cursor as int),
            k < spans.len() ==> cursor <= spans@[k as int].0,
            leftover@ == kept_text(b, sp, k as int),
        decreases spans.len() - k,
    {
        let (s, e) = spans[k];
        leftover.append(str_slice(content, cursor, s));
        cursor = e;
        k = k + 1;
    }
    leftover.append(str_slice(content, cursor, len));
    assert(sp.len() == spans.len());
    assert(leftover@ == leftover_text(b, sp));
    assert(links.len() == texts(links@).len());
    let only = links.len() > 0 && !has_alphanumeric(leftover.as_str());
    Rewrites { links, only_rewritten_links: only }
}


/// The captures that the match spans `m` describe in the message bytes `b`.
pub open spec fn found_views(b: Seq<u8>, m: Seq<(usize, usize, Option<(usize, usize)>)>) -> Seq<CaptureView> {
    m.map_values(|x: (usize, usize, Option<(usize, usize)>)| capture_view_of(b, x))
}

/// Extract and rewrite every supported link in `content` (see
/// [`rewrite_links_in`]), finding the URLs with [`URL_PATTERN`].
pub fn rewrite_links(content: &str) -> (r: Result<Rewrites, LinkError>)
    ensures
        !regex_compiles(URL_PATTERN@) ==> r is Err && r->Err_0 == LinkError::InvalidPattern,
        regex_compiles(URL_PATTERN@) ==> (captures_ok(content.spec_bytes(), regex_captures(URL_PATTERN@, content@))
            <==> hosts_within(regex_captures(URL_PATTERN@, content@))),
        regex_compiles(URL_PATTERN@) ==> {
            let m = regex_captures(URL_PATTERN@, content@);
            if captures_ok(content.spec_bytes(), m) {
                &&& r is Ok
                &&& texts(r->Ok_0.links@) == rewrite_fold(content.spec_bytes(), found_views(content.spec_bytes(), m)).0
                &&& r->Ok_0.only_rewritten_links == only_rewritten(content.spec_bytes(), found_views(content.spec_bytes(), m))
            } else {
                r is Err && r->Err_0 == LinkError::MalformedMatch
            }
        },
{
    let captures = url_captures(content)?;
    let ghost b = content.spec_bytes();
    let ghost m = regex_captures(URL_PATTERN@, content@);
    assert(capture_views(captures@) =~= found_views(b, m));
    Ok(rewrite_links_in(content, &captures))
}


/// The links rewritten from `content` and whether it held nothing else, or
/// `None` when the URL pattern does not compile or reports spans that do not
/// fit the message.
pub open spec fn expected_rewrites(content: &str) -> Option<(Seq<Seq<char>>, bool)> {
    let b = content.spec_bytes();
    let m = regex_captures(URL_PATTERN@, content@);
    if regex_compiles(URL_PATTERN@) && captures_ok(b, m) {
        Some((rewrite_fold(b, found_views(b, m)).0, only_rewritten(b, found_views(b, m))))
    } else {
        None
    }
}

/// The error of a message whose links cannot be extracted.
pub open spec fn rewrite_error(content: &str) -> LinkError {
    if !regex_compiles(URL_PATTERN@) {
        LinkError::InvalidPattern
    } else {
        LinkError::MalformedMatch
    }
}

/// How the bot answers a message.
#[derive(Debug)]
pub enum LinkReply {
    /// Leave the message untouched.
    Nothing,
    /// Send this text to the channel, then delete the original message.
    ReplaceOriginal(String),
    /// Reply to the original with this text, then strip the original's embeds.
    ReplyAndSuppress(String),
}

/// The answer to a message whose rewritten links are `links`, written by the
/// user mentioned as `mention`: nothing when no link was rewritten; when the
/// message held nothing but those links, a replacement that credits the author
/// (one link inline, several on their own lines); otherwise a reply listing
/// the links, one per line.
pub open spec fn reply_fits(r: LinkReply, mention: Seq<char>, links: Seq<Seq<char>>, only: bool) -> bool {
    if links.len() == 0 {
        r is Nothing
    } else if only {
        let sep = if links.len() == 1 { " "@ } else { "\n"@ };
        r matches LinkReply::ReplaceOriginal(t) && t@ == mention + " sent:"@ + sep + joined(links, "\n"@)
    } else {
        r matches LinkReply::ReplyAndSuppress(t) && t@ == joined(links, "\n"@)
    }
}

/// Decides the answer to a message from its rewritten links (see [`reply_fits`]).
pub fn plan_reply(author_mention: &str, rewrites: &Rewrites) -> (r: LinkReply)
    ensures
        reply_fits(r, author_mention@, texts(rewrites.links@), rewrites.only_rewritten_links),
{
    if rewrites.links.len() == 0 {
        return LinkReply::Nothing;
    }
    let joined_links = join_strings(&rewrites.links, "\n");
    if rewrites.only_rewritten_links {
        let separator = if rewrites.links.len() == 1 { " " } else { "\n" };
        let mut text = concat3(author_mention, " sent:", separator);
        text.append(joined_links.as_str());
        LinkReply::ReplaceOriginal(text)
    } else {
        LinkReply::ReplyAndSuppress(joined_links)
    }
}

/// Rewrites links posted in a channel to embed-friendly mirrors.
pub struct DiscordLinkRewriter;

impl DiscordLinkRewriter {
    pub fn new() -> Self {
        Self
    }

    /// Decides how to answer a new message: never for messages of bots
    /// (itself included); otherwise as [`plan_reply`] says for the links that
    /// [`rewrite_links`] finds in `content`.
    pub fn answer(&self, author_is_bot: bool, author_mention: &str, content: &str) -> (r: Result<
        LinkReply,
        LinkError,
    >)
        ensures
            author_is_bot ==> r matches Ok(LinkReply::Nothing),
            !author_is_bot ==> match expected_rewrites(content) {
                None => r == Err::<LinkReply, LinkError>(rewrite_error(content)),
                Some(x) => r matches Ok(reply) && reply_fits(reply, author_mention@, x.0, x.1),
            },
    {
        if author_is_bot {
            return Ok(LinkReply::Nothing);
        }
        let rewrites = rewrite_links(content)?;
        Ok(plan_reply(author_mention, &rewrites))
    }
}


/// Every link rewritten from a message comes from one of its URLs: there are
/// no more links than URLs, and one removed span per link.
pub proof fn law_links_come_from_urls(b: Seq<u8>, caps: Seq<CaptureView>)
    ensures
        rewrite_fold(b, caps).0.len() <= caps.len(),
        rewrite_fold(b, caps).0.len() == rewrite_fold(b, caps).1.len(),
    decreases caps.len(),
{
    if caps.len() > 0 {
        law_links_come_from_urls(b, caps.drop_last());
    }
}

/// A message is only ever called "nothing but rewritten links" when at least
/// one link was rewritten.
pub proof fn law_only_rewritten_needs_a_link(b: Seq<u8>, caps: Seq<CaptureView>)
    ensures
        only_rewritten(b, caps) ==> rewrite_fold(b, caps).0.len() > 0,
{
}

/// A message that is exactly one URL which gets rewritten holds nothing but
/// rewritten links (so the original may be replaced).
pub proof fn law_bare_link_is_only_rewritten(b: Seq<u8>, c: CaptureView)
    requires
        c.start == 0,
        c.end == b.len(),
        rewritten_url(c.url, c.host) is Some,
    ensures
        only_rewritten(b, seq![c]),
{
    let caps = seq![c];
    assert(caps.drop_last() =~= Seq::<CaptureView>::empty());
    assert(caps.last() == c);
    assert(rewrite_fold(b, Seq::<CaptureView>::empty()) == (Seq::<Seq<char>>::empty(), Seq::<(int, int)>::empty()));
    let (links, spans) = rewrite_fold(b, caps);
    assert(spans =~= seq![(0int, b.len() as int)]);
    assert(b.subrange(0, 0) =~= Seq::<u8>::empty());
    assert(b.subrange(b.len() as int, b.len() as int) =~= Seq::<u8>::empty());
    assert(text_of(Seq::<u8>::empty()) =~= Seq::<char>::empty());
    assert(kept_text(b, spans, 0) =~= Seq::<char>::empty());
    assert(leftover_text(b, spans) =~= Seq::<char>::empty());
}

/// Links that already point at a mirror (`fxtwitter.com`, `fxbsky.app`,
/// `phixiv.net`) are never rewritten again.
pub proof fn law_mirrors_are_not_rewritten(url: Seq<char>, h: (usize, usize))
    requires
        ({
            let b = utf8_of(url);
            let name = text_of(b.subrange(h.0 as int, h.1 as int));
            name == "fxtwitter.com"@ || name == "fxbsky.app"@ || name == "phixiv.net"@
        }),
    ensures
        rewritten_url(url, Some(h)) is None,
{
    reveal_strlit("fxtwitter.com");
    reveal_strlit("fxbsky.app");
    reveal_strlit("phixiv.net");
    reveal_strlit("twitter.com");
    reveal_strlit("x.com");
    reveal_strlit("bsky.app");
    reveal_strlit("pixiv.net");
    reveal_strlit("atlantic.com");
    reveal_strlit("nytimes.com");
    let b = utf8_of(url);
    let name = text_of(b.subrange(h.0 as int, h.1 as int));
    assert("fxtwitter.com"@.len() == 13);
    assert("fxbsky.app"@.len() == 10);
    assert("phixiv.net"@.len() == 10);
    assert("twitter.com"@.len() == 11);
    assert("x.com"@.len() == 5);
    assert("bsky.app"@.len() == 8);
    assert("pixiv.net"@.len() == 9);
    assert("atlantic.com"@.len() == 12);
    assert("nytimes.com"@.len() == 11);
    assert(name.len() == 13 || name.len() == 10);
}

/// The spoiler regions found from byte `cursor` on are in order and disjoint;
/// each starts and ends with a `||` delimiter, and no delimiter starts between
/// its two (the closing one is the first after the opening one).
pub proof fn law_spoiler_regions_are_paired_delimiters(b: Seq<u8>, cursor: int)
    requires
        0 <= cursor,
    ensures
        forall|k: int|
            0 <= k < spoiler_spans(b, cursor).len() ==> {
                let r = #[trigger] spoiler_spans(b, cursor)[k];
                &&& cursor <= r.0
                &&& r.0 + 4 <= r.1
                &&& delimiter_at(b, r.0)
                &&& delimiter_at(b, r.1 - 2)
                &&& forall|j: int| r.0 + 2 <= j < r.1 - 2 ==> !delimiter_at(b, j)
            },
        forall|k: int, l: int|
            0 <= k < l < spoiler_spans(b, cursor).len() ==> (#[trigger] spoiler_spans(b, cursor)[k]).1
                <= (#[trigger] spoiler_spans(b, cursor)[l]).0,
    decreases b.len() - cursor,
{
    if cursor <= b.len() {
        lemma_first_delimiter(b, cursor);
        if let Some(open) = first_delimiter(b, cursor) {
            lemma_first_delimiter(b, open + 2);
            if let Some(close) = first_delimiter(b, open + 2) {
                let rest = spoiler_spans(b, close + 2);
                law_spoiler_regions_are_paired_delimiters(b, close + 2);
                let all = spoiler_spans(b, cursor);
                assert(all == seq![(open, close + 2)] + rest);
                assert forall|k: int| 1 <= k < all.len() implies all[k] == rest[k - 1] by {}
                assert forall|k: int, l: int| 0 <= k < l < all.len() implies (#[trigger] all[k]).1
                    <= (#[trigger] all[l]).0 by {
                    if k == 0 {
                        assert(all[l] == rest[l - 1]);
                    } else {
                        assert(all[k] == rest[k - 1]);
                        assert(all[l] == rest[l - 1]);
                    }
                }
                assert forall|k: int| 0 <= k < all.len() implies {
                    let r = #[trigger] all[k];
                    &&& cursor <= r.0
                    &&& r.0 + 4 <= r.1
                    &&& delimiter_at(b, r.0)
                    &&& delimiter_at(b, r.1 - 2)
                    &&& forall|j: int| r.0 + 2 <= j < r.1 - 2 ==> !delimiter_at(b, j)
                } by {
                    if k > 0 {
                        assert(all[k] == rest[k - 1]);
                    }
                }
            }
        }
    }
}

/// The spans removed for rewritten links are spans of captures: when every
/// capture lies on boundaries of `b` and starts at or after `p`, so does
/// every removed span.
proof fn lemma_removed_spans_from_captures(b: Seq<u8>, caps: Seq<CaptureView>, p: int)
    requires
        forall|j: int| 0 <= j < caps.len() ==> p <= (#[trigger] caps[j]).start && span_ok(b, caps[j].start, caps[j].end),
    ensures
        forall|k: int|
            0 <= k < rewrite_fold(b, caps).1.len() ==> p <= (#[trigger] rewrite_fold(b, caps).1[k]).0 && span_ok(
                b,
                rewrite_fold(b, caps).1[k].0,
                rewrite_fold(b, caps).1[k].1,
            ),
    decreases caps.len(),
{
    if caps.len() > 0 {
        let t = caps.drop_last();
        assert forall|j: int| 0 <= j < t.len() implies p <= (#[trigger] t[j]).start && span_ok(b, t[j].start, t[j].end) by {
            assert(t[j] == caps[j]);
        }
        lemma_removed_spans_from_captures(b, t, p);
        assert(caps.last() == caps[caps.len() - 1]);
        let prev = rewrite_fold(b, t).1;
        let now = rewrite_fold(b, caps).1;
        assert forall|k: int| 0 <= k < now.len() implies p <= (#[trigger] now[k]).0 && span_ok(b, now[k].0, now[k].1) by {
            if k < prev.len() {
                assert(now[k] == prev[k]);
            } else {
                assert(now[k] == (caps.last().start, caps.last().end));
            }
        }
    }
}

/// The text kept in front of the first removed span begins every longer kept text.
proof fn lemma_kept_text_prefix(b: Seq<u8>, spans: Seq<(int, int)>, k: int)
    requires
        1 <= k,
    ensures
        kept_text(b, spans, 1).len() <= kept_text(b, spans, k).len(),
        kept_text(b, spans, k).subrange(0, kept_text(b, spans, 1).len() as int) == kept_text(b, spans, 1),
    decreases k,
{
    if k > 1 {
        lemma_kept_text_prefix(b, spans, k - 1);
        let before = kept_text(b, spans, k - 1);
        let more = text_of(b.subrange(gap_start(spans, k - 1), spans[k - 1].0));
        assert(kept_text(b, spans, k) == before + more);
        let l = kept_text(b, spans, 1).len() as int;
        assert((before + more).subrange(0, l) =~= before.subrange(0, l));
    } else {
        assert(kept_text(b, spans, 1).subrange(0, kept_text(b, spans, 1).len() as int) =~= kept_text(b, spans, 1));
    }
}

/// Words in front of every URL keep the original: when the message starts
/// with text holding an alphanumeric character (such as `hi `) and no URL
/// starts inside that text, the message is never taken to hold nothing but
/// rewritten links.
pub proof fn law_words_before_links_keep_original(words: Seq<char>, rest: Seq<char>, caps: Seq<CaptureView>)
    requires
        captures_fit(utf8_of(words + rest), caps),
        forall|j: int| 0 <= j < caps.len() ==> utf8_len(words) <= (#[trigger] caps[j]).start,
        exists|i: int| 0 <= i < words.len() && is_alphanumeric(#[trigger] words[i]),
    ensures
        !only_rewritten(utf8_of(words + rest), caps),
{
    let b = utf8_of(words + rest);
    let p = utf8_len(words);
    lemma_boundary_at_seam(words, rest);
    lemma_utf8_concat(words, rest);
    lemma_removed_spans_from_captures(b, caps, p);
    let spans = rewrite_fold(b, caps).1;
    let q = if spans.len() == 0 {
        b.len() as int
    } else {
        spans[0].0
    };
    is_char_boundary_start_end_of_seq(b);
    if spans.len() > 0 {
        assert(span_ok(b, spans[0].0, spans[0].1));
    }
    lemma_boundary_in_prefix(b, q, p);
    decode_utf8_split(b.subrange(0, q), p);
    assert(b.subrange(0, q).subrange(0, p) =~= b.subrange(0, p));
    assert(b.subrange(0, p) =~= utf8_of(words));
    lemma_utf8_round_trip(words);
    let tq = text_of(b.subrange(0, q));
    assert(forall|i: int| 0 <= i < words.len() ==> tq[i] == words[i]);
    let left = leftover_text(b, spans);
    if spans.len() == 0 {
        assert(kept_text(b, spans, 0) =~= Seq::<char>::empty());
        assert(left =~= tq);
    } else {
        lemma_kept_text_prefix(b, spans, spans.len() as int);
        assert(kept_text(b, spans, 0) =~= Seq::<char>::empty());
        assert(kept_text(b, spans, 1) =~= tq);
    }
    let i = choose|i: int| 0 <= i < words.len() && is_alphanumeric(#[trigger] words[i]);
    let n = spans.len() as int;
    let tail = text_of(b.subrange(gap_start(spans, n), b.len() as int));
    assert(left == kept_text(b, spans, n) + tail);
    assert(tq.len() >= words.len());
    if spans.len() > 0 {
        assert(kept_text(b, spans, 1)[i] == tq[i]);
        assert(kept_text(b, spans, n).subrange(0, kept_text(b, spans, 1).len() as int)[i] == tq[i]);
        assert(kept_text(b, spans, n)[i] == tq[i]);
    }
    assert(left[i] == tq[i]);
    assert(left[i] == words[i]);
}

/// A capture moved `p` bytes further into a message.
pub open spec fn shifted(c: CaptureView, p: int) -> CaptureView {
    CaptureView { start: c.start + p, end: c.end + p, ..c }
}

/// Captures moved `p` bytes further into a message.
pub open spec fn shifted_all(caps: Seq<CaptureView>, p: int) -> Seq<CaptureView> {
    caps.map_values(|c: CaptureView| shifted(c, p))
}

/// Spans moved `p` bytes further into a message.
pub open spec fn shifted_spans(spans: Seq<(int, int)>, p: int) -> Seq<(int, int)> {
    spans.map_values(|r: (int, int)| (r.0 + p, r.1 + p))
}

/// Delimiters in a message behind a prefix of `p` bytes are the message's own, moved by `p`.
proof fn lemma_first_delimiter_shift(pre: Seq<u8>, b: Seq<u8>, x: int)
    requires
        0 <= x,
    ensures
        first_delimiter(pre + b, x + pre.len()) == match first_delimiter(b, x) {
            None => None::<int>,
            Some(i) => Some(i + pre.len()),
        },
    decreases b.len() - x,
{
    let b2 = pre + b;
    let p = pre.len() as int;
    if x + 2 > b.len() {
    } else {
        assert(b2[x + p] == b[x] && b2[x + p + 1] == b[x + 1]);
        if !delimiter_at(b, x) {
            lemma_first_delimiter_shift(pre, b, x + 1);
            assert(x + 1 + p == x + p + 1);
        }
    }
}

/// With no delimiter starting in the prefix, the first delimiter from the start
/// is the first one from the end of the prefix.
proof fn lemma_first_delimiter_skips_prefix(b2: Seq<u8>, p: int, y: int)
    requires
        0 <= y <= p <= b2.len(),
        forall|j: int| 0 <= j < p ==> !delimiter_at(b2, j),
    ensures
        first_delimiter(b2, y) == first_delimiter(b2, p),
    decreases p - y,
{
    if y < p {
        if y + 2 > b2.len() {
            assert(p + 2 > b2.len());
        } else {
            assert(!delimiter_at(b2, y));
            lemma_first_delimiter_skips_prefix(b2, p, y + 1);
        }
    }
}

/// The spoiler regions of a message behind a prefix, found from the end of the
/// prefix on, are the message's own regions moved by the prefix's length.
proof fn lemma_spoiler_spans_shift(pre: Seq<u8>, b: Seq<u8>, x: int)
    requires
        0 <= x <= b.len(),
    ensures
        spoiler_spans(pre + b, x + pre.len()) == shifted_spans(spoiler_spans(b, x), pre.len() as int),
    decreases b.len() - x,
{
    let b2 = pre + b;
    let p = pre.len() as int;
    lemma_first_delimiter_shift(pre, b, x);
    lemma_first_delimiter(b, x);
    match first_delimiter(b, x) {
        None => {
            assert(shifted_spans(spoiler_spans(b, x), p) =~= Seq::<(int, int)>::empty());
        },
        Some(open) => {
            lemma_first_delimiter_shift(pre, b, open + 2);
            assert(open + 2 + p == open + p + 2);
            lemma_first_delimiter(b, open + 2);
            match first_delimiter(b, open + 2) {
                None => {
                    assert(shifted_spans(spoiler_spans(b, x), p) =~= Seq::<(int, int)>::empty());
                },
                Some(close) => {
                    lemma_spoiler_spans_shift(pre, b, close + 2);
                    assert(close + 2 + p == close + p + 2);
                    let rest = spoiler_spans(b, close + 2);
                    assert(spoiler_spans(b, x) == seq![(open, close + 2)] + rest);
                    assert(spoiler_spans(b2, x + p) == seq![(open + p, close + p + 2)] + spoiler_spans(b2, close + 2 + p));
                    assert(shifted_spans(seq![(open, close + 2)] + rest, p) =~= seq![(open + p, close + p + 2)]
                        + shifted_spans(rest, p));
                },
            }
        },
    }
}

/// Lying inside a spoiler region does not change when regions and span move together.
proof fn lemma_spoilered_shift(spans: Seq<(int, int)>, p: int, start: int, end: int)
    ensures
        spoilered(shifted_spans(spans, p), start + p, end + p) == spoilered(spans, start, end),
{
    let sh = shifted_spans(spans, p);
    if spoilered(spans, start, end) {
        let i = choose|i: int| 0 <= i < spans.len() && (#[trigger] spans[i]).0 <= start && end <= spans[i].1;
        assert(sh[i] == (spans[i].0 + p, spans[i].1 + p));
    }
    if spoilered(sh, start + p, end + p) {
        let i = choose|i: int| 0 <= i < sh.len() && (#[trigger] sh[i]).0 <= start + p && end + p <= sh[i].1;
        assert(sh[i] == (spans[i].0 + p, spans[i].1 + p));
    }
}

/// The links rewritten from captures are the same when the message and its
/// captures move behind a prefix whose spoiler regions stay the message's own.
proof fn lemma_rewrite_fold_shift(b: Seq<u8>, b2: Seq<u8>, caps: Seq<CaptureView>, p: int)
    requires
        spoiler_spans(b2, 0) == shifted_spans(spoiler_spans(b, 0), p),
    ensures
        rewrite_fold(b2, shifted_all(caps, p)).0 == rewrite_fold(b, caps).0,
    decreases caps.len(),
{
    if caps.len() > 0 {
        let sc = shifted_all(caps, p);
        assert(sc.drop_last() =~= shifted_all(caps.drop_last(), p));
        assert(sc.last() == shifted(caps.last(), p));
        lemma_rewrite_fold_shift(b, b2, caps.drop_last(), p);
        lemma_spoilered_shift(spoiler_spans(b, 0), p, caps.last().start, caps.last().end);
    }
}

/// Words in front of the links leave the rewritten links as they are: when a
/// message is put behind a prefix in which no `||` starts (and none straddles
/// the join), and its URLs are found at the same places moved by the prefix's
/// length, the same links are rewritten, each spoilered exactly as before.
pub proof fn law_prefix_keeps_rewritten_links(words: Seq<char>, rest: Seq<char>, caps: Seq<CaptureView>)
    requires
        forall|j: int| 0 <= j < utf8_len(words) ==> !delimiter_at(utf8_of(words + rest), j),
    ensures
        rewrite_fold(utf8_of(words + rest), shifted_all(caps, utf8_len(words))).0 == rewrite_fold(utf8_of(rest), caps).0,
{
    let pre = utf8_of(words);
    let b = utf8_of(rest);
    let b2 = utf8_of(words + rest);
    let p = utf8_len(words);
    lemma_utf8_concat(words, rest);
    assert(b2 == pre + b);
    lemma_first_delimiter_skips_prefix(b2, p, 0);
    lemma_spoiler_spans_shift(pre, b, 0);
    assert(spoiler_spans(b2, 0) == spoiler_spans(b2, p));
    lemma_rewrite_fold_shift(b, b2, caps, p);
}

/// The spans removed for rewritten links are the spans of the captures that
/// get rewritten, in order and without overlapping.
proof fn lemma_removed_spans(b: Seq<u8>, caps: Seq<CaptureView>)
    requires
        captures_fit(b, caps),
    ensures
        forall|k: int|
            0 <= k < rewrite_fold(b, caps).1.len() ==> exists|j: int|
                0 <= j < caps.len() && (#[trigger] rewrite_fold(b, caps).1[k]) == ((#[trigger] caps[j]).start, caps[j].end)
                    && rewritten_url(caps[j].url, caps[j].host) is Some,
        forall|k: int, l: int|
            0 <= k < l < rewrite_fold(b, caps).1.len() ==> (#[trigger] rewrite_fold(b, caps).1[k]).1
                <= (#[trigger] rewrite_fold(b, caps).1[l]).0,
    decreases caps.len(),
{
    if caps.len() > 0 {
        let t = caps.drop_last();
        let last = caps.len() - 1;
        assert(caps.last() == caps[last]);
        assert(captures_fit(b, t)) by {
            assert forall|i: int| 0 <= i < t.len() implies span_ok(b, (#[trigger] t[i]).start, t[i].end) by {
                assert(t[i] == caps[i]);
            }
            assert forall|i: int, j: int| 0 <= i < j < t.len() implies (#[trigger] t[i]).end <= (#[trigger] t[j]).start by {
                assert(t[i] == caps[i] && t[j] == caps[j]);
            }
        }
        lemma_removed_spans(b, t);
        let prev = rewrite_fold(b, t).1;
        let now = rewrite_fold(b, caps).1;
        assert forall|k: int| 0 <= k < now.len() implies exists|j: int|
            0 <= j < caps.len() && (#[trigger] now[k]) == ((#[trigger] caps[j]).start, caps[j].end) && rewritten_url(
                caps[j].url,
                caps[j].host,
            ) is Some by {
            if k < prev.len() {
                assert(now[k] == prev[k]);
                let j = choose|j: int|
                    0 <= j < t.len() && (#[trigger] prev[k]) == ((#[trigger] t[j]).start, t[j].end) && rewritten_url(
                        t[j].url,
                        t[j].host,
                    ) is Some;
                assert(t[j] == caps[j]);
            } else {
                assert(now[k] == (caps[last].start, caps[last].end));
            }
        }
        assert forall|k: int, l: int| 0 <= k < l < now.len() implies (#[trigger] now[k]).1 <= (#[trigger] now[l]).0 by {
            if l < prev.len() {
                assert(now[k] == prev[k] && now[l] == prev[l]);
            } else {
                assert(now[k] == prev[k]);
                assert(now[l] == (caps[last].start, caps[last].end));
                let j = choose|j: int|
                    0 <= j < t.len() && (#[trigger] prev[k]) == ((#[trigger] t[j]).start, t[j].end) && rewritten_url(
                        t[j].url,
                        t[j].host,
                    ) is Some;
                assert(t[j] == caps[j]);
                assert(caps[j].end <= caps[last].start);
            }
        }
    }
}

/// The text kept in front of the `k`-th removed span begins the text kept in
/// front of every later one.
proof fn lemma_kept_text_grows(b: Seq<u8>, spans: Seq<(int, int)>, k: int, n: int)
    requires
        0 <= k <= n,
    ensures
        kept_text(b, spans, k).len() <= kept_text(b, spans, n).len(),
        kept_text(b, spans, n).subrange(0, kept_text(b, spans, k).len() as int) == kept_text(b, spans, k),
    decreases n,
{
    if k == n {
        assert(kept_text(b, spans, n).subrange(0, kept_text(b, spans, n).len() as int) =~= kept_text(b, spans, n));
    } else {
        lemma_kept_text_grows(b, spans, k, n - 1);
        let before = kept_text(b, spans, n - 1);
        let more = text_of(b.subrange(gap_start(spans, n - 1), spans[n - 1].0));
        assert(kept_text(b, spans, n) == before + more);
        let l = kept_text(b, spans, k).len() as int;
        assert((before + more).subrange(0, l) =~= before.subrange(0, l));
    }
}

/// A character that starts at byte `p` of `b` is among the characters of any
/// slice of `b` between boundaries around `p`.
proof fn lemma_char_in_slice(b: Seq<u8>, g: int, e: int, p: int, ch: char)
    requires
        valid_utf8(b),
        0 <= g <= p < e <= b.len(),
        is_char_boundary(b, g),
        is_char_boundary(b, p),
        is_char_boundary(b, e),
        text_of(b.subrange(p, b.len() as int)).len() > 0,
        text_of(b.subrange(p, b.len() as int))[0] == ch,
    ensures
        exists|j: int| 0 <= j < text_of(b.subrange(g, e)).len() && text_of(b.subrange(g, e))[j] == ch,
{
    let s = b.subrange(g, b.len() as int);
    lemma_boundary_in_suffix(b, g, e);
    lemma_boundary_in_suffix(b, g, p);
    let x = s.subrange(0, e - g);
    assert(x =~= b.subrange(g, e));
    lemma_boundary_in_prefix(s, e - g, p - g);
    decode_utf8_split(x, p - g);
    assert(x.subrange(p - g, x.len() as int) =~= b.subrange(p, e));
    let y = b.subrange(p, b.len() as int);
    lemma_boundary_in_suffix(b, p, e);
    decode_utf8_split(y, e - p);
    assert(y.subrange(0, e - p) =~= b.subrange(p, e));
    let mid = b.subrange(p, e);
    lemma_boundary_in_prefix(y, e - p, 0);
    assert(valid_utf8(mid));
    assert(mid.len() > 0);
    assert(text_of(mid).len() > 0);
    assert(text_of(y)[0] == text_of(mid)[0]);
    let j = text_of(x.subrange(0, p - g)).len() as int;
    assert(text_of(b.subrange(g, e))[j] == ch);
}

/// A character at byte `p` that lies outside every removed span, at or after
/// the start of the `k`-th kept stretch, shows in the text left after
/// removing the spans.
proof fn lemma_kept_char(b: Seq<u8>, spans: Seq<(int, int)>, k: int, p: int, ch: char)
    requires
        valid_utf8(b),
        forall|i: int| 0 <= i < spans.len() ==> span_ok(b, (#[trigger] spans[i]).0, spans[i].1),
        forall|i: int, l: int| 0 <= i < l < spans.len() ==> (#[trigger] spans[i]).1 <= (#[trigger] spans[l]).0,
        forall|i: int| 0 <= i < spans.len() ==> !((#[trigger] spans[i]).0 <= p < spans[i].1),
        0 <= k <= spans.len(),
        gap_start(spans, k) <= p < b.len(),
        is_char_boundary(b, p),
        text_of(b.subrange(p, b.len() as int)).len() > 0,
        text_of(b.subrange(p, b.len() as int))[0] == ch,
    ensures
        exists|j: int| 0 <= j < leftover_text(b, spans).len() && leftover_text(b, spans)[j] == ch,
    decreases spans.len() - k,
{
    let n = spans.len() as int;
    let g = gap_start(spans, k);
    is_char_boundary_start_end_of_seq(b);
    if k > 0 {
        assert(span_ok(b, spans[k - 1].0, spans[k - 1].1));
    }
    let left = leftover_text(b, spans);
    if k == n {
        lemma_char_in_slice(b, g, b.len() as int, p, ch);
        let tail = text_of(b.subrange(g, b.len() as int));
        let j = choose|j: int| 0 <= j < tail.len() && tail[j] == ch;
        assert(left == kept_text(b, spans, n) + tail);
        assert(left[kept_text(b, spans, n).len() + j] == ch);
    } else if p < spans[k].0 {
        assert(span_ok(b, spans[k].0, spans[k].1));
        if k > 0 {
            assert(spans[k - 1].1 <= spans[k].0);
        }
        lemma_char_in_slice(b, g, spans[k].0, p, ch);
        let gap = text_of(b.subrange(g, spans[k].0));
        let j = choose|j: int| 0 <= j < gap.len() && gap[j] == ch;
        let kt = kept_text(b, spans, k);
        assert(kept_text(b, spans, k + 1) == kt + gap);
        assert(kept_text(b, spans, k + 1)[kt.len() + j] == ch);
        lemma_kept_text_grows(b, spans, k + 1, n);
        let big = kept_text(b, spans, n);
        assert(big.subrange(0, kept_text(b, spans, k + 1).len() as int)[kt.len() + j] == ch);
        assert(big[kt.len() + j] == ch);
        assert(left[kt.len() + j] == ch);
    } else {
        assert(!(spans[k].0 <= p < spans[k].1));
        lemma_kept_char(b, spans, k + 1, p, ch);
    }
}

/// Any word outside the rewritten links keeps the original: if some character
/// of the message that lies outside every rewritten URL's span (before the
/// first, between two, or after the last) is alphanumeric, the message is not
/// one of nothing but rewritten links.
pub proof fn law_words_outside_links_keep_original(pre: Seq<char>, ch: char, post: Seq<char>, caps: Seq<CaptureView>)
    requires
        captures_fit(utf8_of(pre + seq![ch] + post), caps),
        is_alphanumeric(ch),
        forall|j: int|
            0 <= j < caps.len() && rewritten_url((#[trigger] caps[j]).url, caps[j].host) is Some ==> !(caps[j].start
                <= utf8_len(pre) < caps[j].end),
    ensures
        !only_rewritten(utf8_of(pre + seq![ch] + post), caps),
{
    let rest = seq![ch] + post;
    let b = utf8_of(pre + seq![ch] + post);
    let p = utf8_len(pre);
    assert(pre + seq![ch] + post =~= pre + rest);
    lemma_boundary_at_seam(pre, rest);
    lemma_utf8_concat(pre, rest);
    assert(b.subrange(p, b.len() as int) =~= utf8_of(rest));
    lemma_utf8_round_trip(rest);
    assert(text_of(utf8_of(rest))[0] == ch);
    if utf8_of(rest).len() == 0 {
        assert(text_of(utf8_of(rest)) =~= Seq::<char>::empty());
    }
    lemma_removed_spans(b, caps);
    let spans = rewrite_fold(b, caps).1;
    assert forall|i: int| 0 <= i < spans.len() implies span_ok(b, (#[trigger] spans[i]).0, spans[i].1) && !(spans[i].0
        <= p < spans[i].1) by {
        let j = choose|j: int|
            0 <= j < caps.len() && (#[trigger] spans[i]) == ((#[trigger] caps[j]).start, caps[j].end) && rewritten_url(
                caps[j].url,
                caps[j].host,
            ) is Some;
        assert(span_ok(b, caps[j].start, caps[j].end));
    }
    lemma_kept_char(b, spans, 0, p, ch);
}

} // verus!
