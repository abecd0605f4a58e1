use vstd::prelude::*;
use vstd::string::StringExecFns;
use vstd::utf8::{decode_utf8, valid_utf8};
use crate::strmap::StrMap;
use crate::text::{
    CharClass, chars_of, has_at, lemma_scan, lower_text, matches_at, scan, scan_chars, string_of,
    string_of_range, text_from_utf8, to_lowercase, trim, trim_range, utf8_error_text,
};

verus! {

broadcast use vstd::string::group_string_axioms;

#[derive(Debug)]
pub enum NetworkError {
    InvalidUrl(String),
    ConnectionFailed(String),
    TlsError(String),
    HttpError(String),
    Timeout,
    IoError(String),
}

/// A network error as a mathematical value.
pub enum NetErr {
    InvalidUrl(Seq<char>),
    ConnectionFailed(Seq<char>),
    TlsError(Seq<char>),
    HttpError(Seq<char>),
    Timeout,
    IoError(Seq<char>),
}

impl View for NetworkError {
    type V = NetErr;

    open spec fn view(&self) -> NetErr {
        match self {
            NetworkError::InvalidUrl(s) => NetErr::InvalidUrl(s@),
            NetworkError::ConnectionFailed(s) => NetErr::ConnectionFailed(s@),
            NetworkError::TlsError(s) => NetErr::TlsError(s@),
            NetworkError::HttpError(s) => NetErr::HttpError(s@),
            NetworkError::Timeout => NetErr::Timeout,
            NetworkError::IoError(s) => NetErr::IoError(s@),
        }
    }
}

/// The text that describes an error.
pub open spec fn net_err_text(e: NetErr) -> Seq<char> {
    match e {
        NetErr::InvalidUrl(s) => "Invalid URL: "@ + s,
        NetErr::ConnectionFailed(s) => "Connection failed: "@ + s,
        NetErr::TlsError(s) => "TLS error: "@ + s,
        NetErr::HttpError(s) => "HTTP error: "@ + s,
        NetErr::Timeout => "Connection timed out"@,
        NetErr::IoError(s) => "I/O error: "@ + s,
    }
}

fn prefixed(prefix: &str, detail: &str) -> (r: String)
    ensures
        r@ == prefix@ + detail@,
{
    let mut r = prefix.to_string();
    r.append(detail);
    r
}

impl NetworkError {
    /// The text that describes the error.
    pub fn message(&self) -> (r: String)
        ensures
            r@ == net_err_text(self@),
    {
        match self {
            NetworkError::InvalidUrl(s) => prefixed("Invalid URL: ", s.as_str()),
            NetworkError::ConnectionFailed(s) => prefixed("Connection failed: ", s.as_str()),
            NetworkError::TlsError(s) => prefixed("TLS error: ", s.as_str()),
            NetworkError::HttpError(s) => prefixed("HTTP error: ", s.as_str()),
            NetworkError::Timeout => "Connection timed out".to_string(),
            NetworkError::IoError(s) => prefixed("I/O error: ", s.as_str()),
        }
    }
}

// ---------------------------------------------------------------------------------------------
// URLs

pub struct ParsedUrl {
    pub scheme: String,
    pub host: String,
    pub port: u16,
    pub path: String,
}

/// A parsed URL as a mathematical value.
pub struct Url {
    pub scheme: Seq<char>,
    pub host: Seq<char>,
    pub port: u16,
    pub path: Seq<char>,
}

impl View for ParsedUrl {
    type V = Url;

    open spec fn view(&self) -> Url {
        Url { scheme: self.scheme@, host: self.host@, port: self.port, path: self.path@ }
    }
}

pub open spec fn is_digit(c: char) -> bool {
    '0' <= c && c <= '9'
}

/// The number that a sequence of decimal digits writes.
pub open spec fn digits_value(d: Seq<char>) -> int
    decreases d.len(),
{
    if d.len() == 0 {
        0
    } else {
        digits_value(d.drop_last()) * 10 + ((d.last() as u32) - ('0' as u32))
    }
}

/// `u16::from_str`: an optional `+`, then one or more decimal digits, for a value that fits.
pub open spec fn parse_u16(t: Seq<char>) -> Option<u16> {
    let d = unsigned_digits(t);
    if d.len() > 0 && all_digits(d) && digits_value(d) <= 65535 {
        Some(digits_value(d) as u16)
    } else {
        None
    }
}

/// The text of a number without its optional leading `+`.
pub open spec fn unsigned_digits(t: Seq<char>) -> Seq<char> {
    if t.len() > 0 && t[0] == '+' {
        t.skip(1)
    } else {
        t
    }
}

pub open spec fn all_digits(d: Seq<char>) -> bool {
    forall|i: int| 0 <= i < d.len() ==> is_digit(#[trigger] d[i])
}

/// The index of the last `c` in `s`, or -1.
pub open spec fn last_index_of(s: Seq<char>, c: char) -> int
    decreases s.len(),
{
    if s.len() == 0 {
        -1
    } else if s.last() == c {
        s.len() - 1
    } else {
        last_index_of(s.drop_last(), c)
    }
}

/// What `parse_url` gives for a URL.
pub open spec fn url_of(url: Seq<char>) -> Result<Url, NetErr> {
    let https = has_at(url, 0, "https://"@);
    let http = has_at(url, 0, "http://"@);
    if !https && !http {
        Err(NetErr::InvalidUrl("Unsupported scheme in URL: "@ + url))
    } else {
        let scheme = if https { "https"@ } else { "http"@ };
        let rest = if https { url.skip(8) } else { url.skip(7) };
        let slash = scan(rest, 0, CharClass::Not('/'));
        let authority = rest.take(slash);
        let path0 = if slash < rest.len() { rest.skip(slash) } else { "/"@ };
        let path = if path0.len() == 0 { "/"@ } else { path0 };
        let default_port: u16 = if https { 443 } else { 80 };
        let colon = last_index_of(authority, ':');
        if colon >= 0 && parse_u16(authority.skip(colon + 1)) is None {
            Err(NetErr::InvalidUrl("Invalid port in URL: "@ + url))
        } else {
            let host = if colon >= 0 { authority.take(colon) } else { authority };
            let port = if colon >= 0 { parse_u16(authority.skip(colon + 1)).unwrap() } else { default_port };
            if host.len() == 0 {
                Err(NetErr::InvalidUrl("Missing host in URL: "@ + url))
            } else {
                Ok(Url { scheme, host, port, path })
            }
        }
    }
}

pub open spec fn url_res(r: Result<ParsedUrl, NetworkError>) -> Result<Url, NetErr> {
    match r {
        Ok(u) => Ok(u@),
        Err(e) => Err(e@),
    }
}

/// `u16::from_str` on the characters `lo..hi` of `v`.
pub fn parse_u16_range(v: &Vec<char>, lo: usize, hi: usize) -> (r: Option<u16>)
    requires
        lo <= hi <= v@.len(),
    ensures
        r == parse_u16(v@.subrange(lo as int, hi as int)),
{
    let ghost t = v@.subrange(lo as int, hi as int);
    let mut start = lo;
    if lo < hi && v[lo] == '+' {
        start = lo + 1;
    }
    let ghost d = v@.subrange(start as int, hi as int);
    assert(d =~= unsigned_digits(t));
    if start == hi {
        return None;
    }
    let mut value: u32 = 0;
    let mut i = start;
    while i < hi
        invariant
            start <= i <= hi <= v@.len(),
            lo <= start,
            d == v@.subrange(start as int, hi as int),
            t == v@.subrange(lo as int, hi as int),
            d == unsigned_digits(t),
            forall|k: int| start <= k < i ==> is_digit(#[trigger] v@[k]),
            value == digits_value(v@.subrange(start as int, i as int)),
            value <= 65535,
        decreases hi - i,
    {
        let c = v[i];
        if !('0' <= c && c <= '9') {
            assert(!is_digit(d[i - start]));
            assert(!all_digits(d));
            return None;
        }
        let digit = (c as u32) - ('0' as u32);
        assert(v@.subrange(start as int, i + 1).drop_last() =~= v@.subrange(start as int, i as int));
        let next = value * 10 + digit;
        i += 1;
        if next > 65535 {
            proof {
                if all_digits(d) {
                    lemma_digits_prefix_bound(d, i - start);
                    assert(d.take(i - start) =~= v@.subrange(start as int, i as int));
                }
            }
            return None;
        }
        value = next;
    }
    assert(v@.subrange(start as int, i as int) =~= d);
    assert forall|k: int| 0 <= k < d.len() implies is_digit(#[trigger] d[k]) by {
        assert(d[k] == v@[start + k]);
    }
    Some(value as u16)
}

/// A longer run of digits writes at least the number of its prefix.
pub proof fn lemma_digits_prefix_bound(d: Seq<char>, n: int)
    requires
        0 <= n <= d.len(),
        forall|i: int| 0 <= i < d.len() ==> is_digit(#[trigger] d[i]),
    ensures
        digits_value(d) >= digits_value(d.take(n)),
        digits_value(d) >= 0,
    decreases d.len(),
{
    if d.len() > 0 {
        assert forall|i: int| 0 <= i < d.drop_last().len() implies is_digit(#[trigger] d.drop_last()[i]) by {
            assert(d.drop_last()[i] == d[i]);
        }
        assert(is_digit(d[d.len() - 1]));
        if n == d.len() {
            assert(d.take(n) =~= d);
            lemma_digits_prefix_bound(d.drop_last(), 0);
        } else {
            lemma_digits_prefix_bound(d.drop_last(), n);
            assert(d.drop_last().take(n) =~= d.take(n));
        }
    } else {
        assert(d.take(n) =~= d);
    }
}

/// Splits an `http://` or `https://` URL into scheme, host, port and path.
pub fn parse_url(url: &str) -> (r: Result<ParsedUrl, NetworkError>)
    ensures
        url_res(r) == url_of(url@),
{
    proof {
        reveal_strlit("https://");
        reveal_strlit("http://");
        reveal_strlit("/");
        reveal_strlit("https");
        reveal_strlit("http");
    }
    let u = chars_of(url);
    let https_prefix = chars_of("https://");
    let http_prefix = chars_of("http://");
    let is_https = matches_at(&u, 0, &https_prefix);
    let is_http = matches_at(&u, 0, &http_prefix);
    if !is_https && !is_http {
        return Err(NetworkError::InvalidUrl(prefixed("Unsupported scheme in URL: ", url)));
    }
    let scheme = if is_https { "https".to_string() } else { "http".to_string() };
    let rest_start: usize = if is_https { 8 } else { 7 };
    let ghost rest = u@.skip(rest_start as int);
    let slash = scan_chars(&u, rest_start, CharClass::Not('/'));
    proof {
        lemma_scan(u@, rest_start as int, CharClass::Not('/'));
        lemma_scan(rest, 0, CharClass::Not('/'));
        lemma_scan_shift(u@, rest_start as int, CharClass::Not('/'));
    }
    let path = if slash < u.len() {
        string_of_range(&u, slash, u.len())
    } else {
        "/".to_string()
    };
    assert(slash < u@.len() ==> rest.skip(slash - rest_start) =~= u@.subrange(slash as int, u@.len() as int));
    let path = if path.as_str().is_empty() { "/".to_string() } else { path };
    let default_port: u16 = if is_https { 443 } else { 80 };
    let ghost authority = rest.take(slash - rest_start);
    assert(authority =~= u@.subrange(rest_start as int, slash as int));
    let mut colon = slash;
    while colon > rest_start && u[colon - 1] != ':'
        invariant
            rest_start <= colon <= slash <= u@.len(),
            authority == u@.subrange(rest_start as int, slash as int),
            last_index_of(u@.subrange(rest_start as int, colon as int), ':') == last_index_of(authority, ':'),
        decreases colon,
    {
        assert(u@.subrange(rest_start as int, colon as int).drop_last() =~= u@.subrange(rest_start as int, colon - 1));
        colon -= 1;
    }
    let (host, port) = if colon > rest_start {
        let c = colon - 1;
        assert(last_index_of(authority, ':') == c - rest_start) by {
            assert(u@.subrange(rest_start as int, colon as int).last() == ':');
        }
        assert(authority.skip(c - rest_start + 1) =~= u@.subrange(colon as int, slash as int));
        assert(authority.take(c - rest_start) =~= u@.subrange(rest_start as int, c as int));
        match parse_u16_range(&u, colon, slash) {
            Some(p) => (string_of_range(&u, rest_start, c), p),
            None => {
                return Err(NetworkError::InvalidUrl(prefixed("Invalid port in URL: ", url)));
            },
        }
    } else {
        assert(u@.subrange(rest_start as int, colon as int).len() == 0);
        (string_of_range(&u, rest_start, slash), default_port)
    };
    if host.as_str().is_empty() {
        return Err(NetworkError::InvalidUrl(prefixed("Missing host in URL: ", url)));
    }
    Ok(ParsedUrl { scheme, host, port, path })
}

pub proof fn lemma_scan_shift(s: Seq<char>, a: int, k: CharClass)
    requires
        0 <= a <= s.len(),
    ensures
        scan(s.skip(a), 0, k) == scan(s, a, k) - a,
{
    lemma_scan_shift_from(s, a, a, k);
}

proof fn lemma_scan_shift_from(s: Seq<char>, a: int, i: int, k: CharClass)
    requires
        0 <= a <= i <= s.len(),
    ensures
        scan(s.skip(a), i - a, k) == scan(s, i, k) - a,
    decreases s.len() - i,
{
    if i < s.len() {
        assert(s.skip(a)[i - a] == s[i]);
        if in_class_at(s, i, k) {
            lemma_scan_shift_from(s, a, i + 1, k);
        }
    }
}

spec fn in_class_at(s: Seq<char>, i: int, k: CharClass) -> bool {
    crate::text::in_class(k, s[i])
}

/// The request line and headers that ask a host for a path.
pub open spec fn request_text(host: Seq<char>, path: Seq<char>) -> Seq<char> {
    "GET "@ + path + " HTTP/1.1\r\nHost: "@ + host + "\r\nConnection: close\r\nUser-Agent: Astra/0.1\r\n\r\n"@
}

pub fn build_request(host: &str, path: &str) -> (r: String)
    ensures
        r@ == request_text(host@, path@),
{
    let mut r = "GET ".to_string();
    r.append(path);
    r.append(" HTTP/1.1\r\nHost: ");
    r.append(host);
    r.append("\r\nConnection: close\r\nUser-Agent: Astra/0.1\r\n\r\n");
    r
}


// ---------------------------------------------------------------------------------------------
// Responses

#[derive(Debug)]
pub struct Response {
    pub status: u16,
    pub headers: StrMap<String>,
    pub body: Vec<u8>,
}

/// A response as a mathematical value.
pub struct Resp {
    pub status: u16,
    pub headers: Map<Seq<char>, Seq<char>>,
    pub body: Seq<u8>,
}

impl View for Response {
    type V = Resp;

    open spec fn view(&self) -> Resp {
        Resp { status: self.status, headers: self.headers@, body: self.body@ }
    }
}

pub open spec fn separator_at(raw: Seq<u8>, p: int) -> bool {
    0 <= p && p + 4 <= raw.len() && raw[p] == 13 && raw[p + 1] == 10 && raw[p + 2] == 13 && raw[p + 3] == 10
}

/// The first index from `p` on where `\r\n\r\n` starts, or -1.
pub open spec fn first_separator(raw: Seq<u8>, p: int) -> int
    decreases raw.len() - p,
{
    if p < 0 || p + 4 > raw.len() {
        -1
    } else if separator_at(raw, p) {
        p
    } else {
        first_separator(raw, p + 1)
    }
}

/// `str::lines`: the text split at `\n`, with a `\r` before the `\n` cut too, and no empty
/// last line after a final `\n`.
pub open spec fn lines_of(s: Seq<char>) -> Seq<Seq<char>>
    decreases s.len(),
{
    if s.len() == 0 {
        Seq::empty()
    } else {
        let j = scan(s, 0, CharClass::Not('\n'));
        if j >= s.len() {
            seq![s]
        } else {
            let piece = s.take(j);
            let line = if piece.len() > 0 && piece.last() == '\r' { piece.drop_last() } else { piece };
            proof {
                lemma_scan(s, 0, CharClass::Not('\n'));
            }
            seq![line] + lines_of(s.skip(j + 1))
        }
    }
}

/// What `parse_status_line` gives for a status line.
pub open spec fn status_of(line: Seq<char>) -> Result<u16, NetErr> {
    let j1 = scan(line, 0, CharClass::Not(' '));
    let version = line.take(j1);
    if !has_at(version, 0, "HTTP/"@) {
        Err(NetErr::HttpError("Invalid HTTP version: "@ + version))
    } else if j1 >= line.len() {
        Err(NetErr::HttpError("Missing status code"@))
    } else {
        let j2 = scan(line, j1 + 1, CharClass::Not(' '));
        let code = line.subrange(j1 + 1, j2);
        match parse_u16(code) {
            Some(c) => Ok(c),
            None => Err(NetErr::HttpError("Invalid status code: "@ + code)),
        }
    }
}

/// A header line with a `:`: its name (trimmed, lowercase) and value (trimmed).
pub open spec fn header_entry(line: Seq<char>) -> Option<(Seq<char>, Seq<char>)> {
    let c = scan(line, 0, CharClass::Not(':'));
    if c < line.len() {
        Some((lower_text(trim(line.take(c))), trim(line.skip(c + 1))))
    } else {
        None
    }
}

/// The headers of `lines` added in order to `acc`; a later header of a name wins.
pub open spec fn headers_of(lines: Seq<Seq<char>>, acc: Map<Seq<char>, Seq<char>>) -> Map<Seq<char>, Seq<char>>
    decreases lines.len(),
{
    if lines.len() == 0 {
        acc
    } else {
        headers_of(
            lines.drop_first(),
            match header_entry(lines[0]) {
                Some((k, v)) => acc.insert(k, v),
                None => acc,
            },
        )
    }
}

/// What `parse_response` gives for the bytes of a response.
pub open spec fn response_of(raw: Seq<u8>) -> Result<Resp, NetErr> {
    let p = first_separator(raw, 0);
    if p < 0 {
        Err(NetErr::HttpError("Missing header/body separator"@))
    } else if !valid_utf8(raw.take(p)) {
        Err(NetErr::HttpError("Invalid UTF-8 in headers: "@ + utf8_error_text(raw.take(p))))
    } else {
        let ls = lines_of(decode_utf8(raw.take(p)));
        if ls.len() == 0 {
            Err(NetErr::HttpError("Empty response"@))
        } else {
            match status_of(ls[0]) {
                Err(e) => Err(e),
                Ok(st) => Ok(Resp { status: st, headers: headers_of(ls.drop_first(), Map::empty()), body: raw.skip(p + 4) }),
            }
        }
    }
}

pub open spec fn resp_res(r: Result<Response, NetworkError>) -> Result<Resp, NetErr> {
    match r {
        Ok(x) => Ok(x@),
        Err(e) => Err(e@),
    }
}

/// Splits a raw response into status, headers and body.
pub fn parse_response(raw: &[u8]) -> (r: Result<Response, NetworkError>)
    ensures
        resp_res(r) == response_of(raw@),
        r matches Ok(x) ==> x.headers.wf(),
{
    let n = raw.len();
    let mut p: usize = 0;
    let mut found = false;
    while !found && p < n && n - p >= 4
        invariant
            n == raw@.len(),
            p <= n,
            found ==> separator_at(raw@, p as int) && first_separator(raw@, 0) == p,
            !found ==> first_separator(raw@, p as int) == first_separator(raw@, 0),
        decreases n + 1 - p, if found { 0int } else { 1int },
    {
        if raw[p] == 13 && raw[p + 1] == 10 && raw[p + 2] == 13 && raw[p + 3] == 10 {
            found = true;
        } else {
            p += 1;
        }
    }
    if !found {
        return Err(NetworkError::HttpError("Missing header/body separator".to_string()));
    }
    let mut head: Vec<u8> = Vec::new();
    let mut i: usize = 0;
    while i < p
        invariant
            p + 4 <= n == raw@.len(),
            i <= p,
            head@ == raw@.take(i as int),
        decreases p - i,
    {
        head.push(raw[i]);
        i += 1;
        assert(head@ =~= raw@.take(i as int));
    }
    let header_section = match text_from_utf8(head.as_slice()) {
        Ok(t) => t,
        Err(m) => {
            return Err(NetworkError::HttpError(prefixed("Invalid UTF-8 in headers: ", m.as_str())));
        },
    };
    let mut body: Vec<u8> = Vec::new();
    let mut k: usize = p + 4;
    while k < n
        invariant
            p + 4 <= k <= n == raw@.len(),
            body@ == raw@.subrange(p + 4, k as int),
        decreases n - k,
    {
        body.push(raw[k]);
        k += 1;
        assert(body@ =~= raw@.subrange(p + 4, k as int));
    }
    assert(body@ =~= raw@.skip(p + 4));
    let text = chars_of(header_section.as_str());
    let lines = split_lines(&text);
    if lines.len() == 0 {
        return Err(NetworkError::HttpError("Empty response".to_string()));
    }
    let status = parse_status_line(string_of(lines[0].as_slice()).as_str())?;
    let mut headers: StrMap<String> = StrMap::new();
    let ghost ls = lines_view(lines@);
    let mut j: usize = 1;
    while j < lines.len()
        invariant
            1 <= j <= lines@.len(),
            ls == lines_view(lines@),
            headers.wf(),
            headers_of(ls.skip(j as int), headers@) == headers_of(ls.drop_first(), Map::empty()),
        decreases lines@.len() - j,
    {
        let line = &lines[j];
        let colon = scan_chars(line, 0, CharClass::Not(':'));
        proof {
            lemma_scan(line@, 0, CharClass::Not(':'));
            assert(ls.skip(j as int).drop_first() =~= ls.skip(j + 1));
            assert(ls.skip(j as int)[0] == line@);
        }
        if colon < line.len() {
            let (a, b) = trim_range(line, 0, colon);
            let key = to_lowercase(string_of_range(line, a, b).as_str());
            let (c, d) = trim_range(line, colon + 1, line.len());
            let value = string_of_range(line, c, d);
            assert(line@.take(colon as int) =~= line@.subrange(0, colon as int));
            assert(line@.skip(colon + 1) =~= line@.subrange(colon + 1, line@.len() as int));
            headers.insert(key, value);
        }
        j += 1;
    }
    assert(ls.skip(lines@.len() as int) =~= Seq::<Seq<char>>::empty());
    Ok(Response { status, headers, body })
}

pub open spec fn lines_view(v: Seq<Vec<char>>) -> Seq<Seq<char>> {
    v.map_values(|l: Vec<char>| l@)
}

/// Splits text into lines; see `lines_of`.
pub(crate) fn split_lines(text: &Vec<char>) -> (r: Vec<Vec<char>>)
    ensures
        lines_view(r@) == lines_of(text@),
{
    let mut out: Vec<Vec<char>> = Vec::new();
    let n = text.len();
    let mut start: usize = 0;
    assert(text@.skip(0) =~= text@);
    while start < n
        invariant
            n == text@.len(),
            start <= n,
            lines_view(out@) + lines_of(text@.skip(start as int)) == lines_of(text@),
        decreases n - start,
    {
        let ghost rest = text@.skip(start as int);
        let j = scan_chars(text, start, CharClass::Not('\n'));
        proof {
            lemma_scan(text@, start as int, CharClass::Not('\n'));
            lemma_scan_shift(text@, start as int, CharClass::Not('\n'));
        }
        if j >= n {
            let line = sub_chars(text, start, n);
            proof {
                assert(rest =~= line@);
                assert(lines_view(out@.push(line)) =~= lines_view(out@).push(line@));
                assert(lines_of(rest) == seq![rest]);
                assert(text@.skip(n as int) =~= Seq::<char>::empty());
                assert(lines_view(out@).push(line@) =~= lines_view(out@) + seq![rest]);
            }
            out.push(line);
            start = n;
        } else {
            let end = if j > start && text[j - 1] == '\r' { j - 1 } else { j };
            let line = sub_chars(text, start, end);
            proof {
                let piece = rest.take(j - start);
                assert(piece =~= text@.subrange(start as int, j as int));
                if j > start {
                    assert(piece.last() == text@[j - 1]);
                    assert(piece.drop_last() =~= text@.subrange(start as int, j - 1));
                }
                assert(rest.skip(j - start + 1) =~= text@.skip(j + 1));
                assert(lines_view(out@.push(line)) =~= lines_view(out@).push(line@));
                assert(lines_view(out@).push(line@) + lines_of(text@.skip(j + 1)) =~= lines_view(out@) + (seq![line@] + lines_of(text@.skip(j + 1))));
            }
            out.push(line);
            start = j + 1;
        }
    }
    assert(text@.skip(n as int) =~= Seq::<char>::empty());
    assert(lines_view(out@) + Seq::<Seq<char>>::empty() =~= lines_view(out@));
    out
}

fn sub_chars(v: &Vec<char>, lo: usize, hi: usize) -> (r: Vec<char>)
    requires
        lo <= hi <= v@.len(),
    ensures
        r@ == v@.subrange(lo as int, hi as int),
{
    crate::text::sub_vec(v, lo, hi)
}

/// Reads the status code from a status line such as `HTTP/1.1 200 OK`.
pub fn parse_status_line(line: &str) -> (r: Result<u16, NetworkError>)
    ensures
        match r {
            Ok(c) => status_of(line@) == Ok::<u16, NetErr>(c),
            Err(e) => status_of(line@) == Err::<u16, NetErr>(e@),
        },
{
    proof {
        reveal_strlit("HTTP/");
    }
    let v = chars_of(line);
    let j1 = scan_chars(&v, 0, CharClass::Not(' '));
    let version = sub_chars(&v, 0, j1);
    assert(version@ =~= v@.take(j1 as int));
    let http = chars_of("HTTP/");
    if !matches_at(&version, 0, &http) {
        return Err(NetworkError::HttpError(prefixed("Invalid HTTP version: ", string_of(version.as_slice()).as_str())));
    }
    if j1 >= v.len() {
        return Err(NetworkError::HttpError("Missing status code".to_string()));
    }
    let j2 = scan_chars(&v, j1 + 1, CharClass::Not(' '));
    match parse_u16_range(&v, j1 + 1, j2) {
        Some(c) => Ok(c),
        None => Err(NetworkError::HttpError(prefixed("Invalid status code: ", string_of_range(&v, j1 + 1, j2).as_str()))),
    }
}

// ---------------------------------------------------------------------------------------------
// Fetching

/// How a page is to be fetched: over TLS or not, from which host and port, with which request.
pub struct FetchPlan {
    pub secure: bool,
    pub host: String,
    pub port: u16,
    pub request: String,
}

/// The plan that a parsed URL calls for.
pub open spec fn plan_matches(p: FetchPlan, u: Url) -> bool {
    &&& p.secure == (u.scheme == "https"@)
    &&& p.host@ == u.host
    &&& p.port == u.port
    &&& p.request@ == request_text(u.host, u.path)
}

/// Fetches pages over HTTP and HTTPS. The connection and the reading are the embedder's: this
/// type decides what to send where, and reads the reply (`parse_response`).
pub struct NetworkStack;

impl NetworkStack {
    /// The connection and request that fetching `url` takes, or the error in the URL.
    pub fn fetch(url: &str) -> (r: Result<FetchPlan, NetworkError>)
        ensures
            match url_of(url@) {
                Ok(u) => r matches Ok(p) && plan_matches(p, u),
                Err(e) => r matches Err(x) && x@ == e,
            },
    {
        let parsed = match parse_url(url) {
            Ok(p) => p,
            Err(e) => {
                return Err(e);
            },
        };
        let https = crate::text::str_eq(parsed.scheme.as_str(), "https");
        let http = crate::text::str_eq(parsed.scheme.as_str(), "http");
        if https || http {
            let request = build_request(parsed.host.as_str(), parsed.path.as_str());
            Ok(FetchPlan { secure: https, host: parsed.host, port: parsed.port, request })
        } else {
            Err(NetworkError::InvalidUrl(prefixed("Unsupported scheme: ", parsed.scheme.as_str())))
        }
    }
}

proof fn lemma_last_index_none(s: Seq<char>, c: char)
    requires
        !s.contains(c),
    ensures
        last_index_of(s, c) == -1,
    decreases s.len(),
{
    if s.len() > 0 {
        assert(s[s.len() - 1] != c);
        assert(!s.drop_last().contains(c)) by {
            if s.drop_last().contains(c) {
                let i = choose|i: int| 0 <= i < s.drop_last().len() && s.drop_last()[i] == c;
                assert(s[i] == c);
            }
        }
        lemma_last_index_none(s.drop_last(), c);
    }
}

/// A parsed URL's path starts with `/` (it is `/` where the URL names none), and where no `:`
/// follows the scheme the port is the scheme's: 443 for HTTPS, 80 for HTTP.
pub proof fn law_url_defaults(url: Seq<char>)
    ensures
        url_of(url) matches Ok(u) ==> u.path.len() > 0 && u.path[0] == '/',
        url_of(url) matches Ok(u) ==> (!url.skip(u.scheme.len() as int + 3).contains(':') ==> u.port == (
        if u.scheme == "https"@ {
            443u16
        } else {
            80u16
        })),
{
    reveal_strlit("https://");
    reveal_strlit("http://");
    reveal_strlit("https");
    reveal_strlit("http");
    reveal_strlit("/");
    if let Ok(u) = url_of(url) {
        let https = has_at(url, 0, "https://"@);
        let rest = if https { url.skip(8) } else { url.skip(7) };
        let slash = scan(rest, 0, CharClass::Not('/'));
        lemma_scan(rest, 0, CharClass::Not('/'));
        if slash < rest.len() {
            assert(rest.skip(slash)[0] == rest[slash]);
        }
        let authority = rest.take(slash);
        assert(u.scheme.len() as int + 3 == if https { 8int } else { 7int });
        if !url.skip(u.scheme.len() as int + 3).contains(':') {
            assert(url.skip(u.scheme.len() as int + 3) == rest);
            assert(!authority.contains(':')) by {
                if authority.contains(':') {
                    let i = choose|i: int| 0 <= i < authority.len() && authority[i] == ':';
                    assert(rest[i] == ':');
                }
            }
            lemma_last_index_none(authority, ':');
        }
    }
}

/// A header line is cut at its first `:`: the name before it (trimmed, in lowercase) and the
/// value after it (trimmed), whatever `:` the value holds.
pub proof fn law_header_split_at_first_colon(name: Seq<char>, value: Seq<char>)
    requires
        forall|i: int| 0 <= i < name.len() ==> #[trigger] name[i] != ':',
    ensures
        header_entry(name + seq![':'] + value) == Some((lower_text(trim(name)), trim(value))),
{
    let line = name + seq![':'] + value;
    assert forall|m: int| 0 <= m < name.len() implies crate::text::in_class(CharClass::Not(':'), #[trigger] line[m]) by {
        assert(line[m] == name[m]);
    }
    assert(line[name.len() as int] == ':');
    crate::text::lemma_scan_run(line, 0, name.len() as int, CharClass::Not(':'));
    assert(line.take(name.len() as int) =~= name);
    assert(line.skip(name.len() as int + 1) =~= value);
}

/// A line with no `:` is no header.
pub proof fn law_line_without_colon_is_no_header(line: Seq<char>)
    requires
        forall|i: int| 0 <= i < line.len() ==> #[trigger] line[i] != ':',
    ensures
        header_entry(line) is None,
{
    assert forall|m: int| 0 <= m < line.len() implies crate::text::in_class(CharClass::Not(':'), #[trigger] line[m]) by {}
    crate::text::lemma_scan_run(line, 0, line.len() as int, CharClass::Not(':'));
}

} // verus!
