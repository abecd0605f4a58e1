use vstd::prelude::*;
use vstd::string::StringSliceAdditionalSpecFns;
use vstd::string::StringExecFns;
use vstd::utf8::{decode_utf8, encode_utf8, is_char_boundary, valid_utf8};
use crate::css::{CssTokenizer, RuleView, Stylesheet, rules_from};
use crate::dom::{DomNode, Node};
use crate::error::{BErr, BrowserError, browser_error_text, error_page, error_page_html};
use crate::html::{HtmlParser, html_err_text, parse_document};
use crate::strmap::StrMap;
use crate::text::{find_bytes, lemma_boundary_after_ascii, find_bytes_from, lemma_find_bytes, lower_text, text_from_utf8, to_lowercase, utf8_error_text, utf8_slice};

verus! {

broadcast use vstd::string::group_string_axioms;

/// Where a page load stands.
#[derive(Debug, Clone, PartialEq)]
pub enum LoadingState {
    Idle,
    Loading(String),
    Complete,
    Error(String),
}

/// A loading state as a mathematical value.
pub enum Loading {
    Idle,
    Loading(Seq<char>),
    Complete,
    Error(Seq<char>),
}

impl View for LoadingState {
    type V = Loading;

    open spec fn view(&self) -> Loading {
        match self {
            LoadingState::Idle => Loading::Idle,
            LoadingState::Loading(u) => Loading::Loading(u@),
            LoadingState::Complete => Loading::Complete,
            LoadingState::Error(m) => Loading::Error(m@),
        }
    }
}

impl LoadingState {
    /// The state once a load has ended: complete, or the error's text.
    pub fn settled<T>(result: &Result<T, BrowserError>) -> (s: LoadingState)
        ensures
            match result {
                Ok(_) => s@ == Loading::Complete,
                Err(e) => s@ == Loading::Error(browser_error_text(e@)),
            },
    {
        match result {
            Ok(_) => LoadingState::Complete,
            Err(e) => LoadingState::Error(e.message()),
        }
    }
}

/// Page sources fetched before, by URL.
pub struct ResourceCache {
    entries: StrMap<String>,
}

impl View for ResourceCache {
    type V = Map<Seq<char>, Seq<char>>;

    closed spec fn view(&self) -> Map<Seq<char>, Seq<char>> {
        self.entries@
    }
}

impl ResourceCache {
    pub closed spec fn wf(&self) -> bool {
        self.entries.wf()
    }

    pub fn new() -> (c: Self)
        ensures
            c.wf(),
            c@ == Map::<Seq<char>, Seq<char>>::empty(),
    {
        ResourceCache { entries: StrMap::new() }
    }

    /// The source cached for `url`, if any.
    pub fn get_cached(&self, url: &str) -> (r: Option<&str>)
        requires
            self.wf(),
        ensures
            match r {
                Some(s) => self@.contains_key(url@) && s@ == self@[url@],
                None => !self@.contains_key(url@),
            },
    {
        match self.entries.get(url) {
            Some(s) => Some(s.as_str()),
            None => None,
        }
    }

    /// Keeps `content` as the source of `url`, in place of any older one.
    pub fn cache(&mut self, url: &str, content: String)
        requires
            old(self).wf(),
        ensures
            final(self).wf(),
            final(self)@ == old(self)@.insert(url@, content@),
    {
        self.entries.insert(url.to_string(), content);
    }

    /// Forgets the source of `url`.
    pub fn invalidate(&mut self, url: &str)
        requires
            old(self).wf(),
        ensures
            final(self).wf(),
            final(self)@ == old(self)@.remove(url@),
    {
        self.entries.remove(url);
    }

    /// Forgets every source.
    pub fn clear_cache(&mut self)
        ensures
            final(self).wf(),
            final(self)@ == Map::<Seq<char>, Seq<char>>::empty(),
    {
        self.entries.clear();
    }

    /// Settles a load of `url` that found nothing cached: a fetched source is kept for `url`
    /// and handed back; an error is handed back, and the cache stays as it was.
    pub fn store_fetched(&mut self, url: &str, fetched: Result<String, BrowserError>) -> (r: Result<
        String,
        BrowserError,
    >)
        requires
            old(self).wf(),
        ensures
            final(self).wf(),
            match fetched {
                Ok(c) => r matches Ok(t) && t@ == c@ && final(self)@ == old(self)@.insert(url@, c@),
                Err(e) => r matches Err(f) && f@ == e@ && final(self)@ == old(self)@,
            },
    {
        match fetched {
            Ok(c) => {
                self.cache(url, c.clone());
                Ok(c)
            },
            Err(e) => Err(e),
        }
    }

    pub fn len(&self) -> (n: usize)
        requires
            self.wf(),
        ensures
            n == self@.len(),
    {
        self.entries.len()
    }

    pub fn is_empty(&self) -> (b: bool)
        requires
            self.wf(),
        ensures
            b == (self@.len() == 0),
    {
        self.entries.is_empty()
    }
}

/// The source of a page fetched over the network: its body read as UTF-8, or a network
/// error that says why it could not be.
pub fn network_page_text(body: &[u8]) -> (r: Result<String, BrowserError>)
    ensures
        valid_utf8(body@) ==> (r matches Ok(t) && t@ == decode_utf8(body@)),
        !valid_utf8(body@) ==> (r matches Err(e) && e@ == BErr::Network(
            "UTF-8 decode error: "@ + utf8_error_text(body@),
        )),
{
    match text_from_utf8(body) {
        Ok(t) => Ok(t),
        Err(m) => {
            let mut msg = "UTF-8 decode error: ".to_string();
            msg.append(m.as_str());
            Err(BrowserError::NetworkError(msg))
        },
    }
}

/// A source read after it was cached is the source cached; other URLs keep theirs.
pub proof fn law_cache_read_after_write(m: Map<Seq<char>, Seq<char>>, url: Seq<char>, content: Seq<char>, other: Seq<char>)
    ensures
        m.insert(url, content).contains_key(url),
        m.insert(url, content)[url] == content,
        other != url ==> (m.insert(url, content).contains_key(other) <==> m.contains_key(other)),
        other != url && m.contains_key(other) ==> m.insert(url, content)[other] == m[other],
{
}

/// After an invalidation the URL is no longer cached, and the others are as they were.
pub proof fn law_cache_invalidate(m: Map<Seq<char>, Seq<char>>, url: Seq<char>, other: Seq<char>)
    ensures
        !m.remove(url).contains_key(url),
        other != url ==> (m.remove(url).contains_key(other) <==> m.contains_key(other)),
{
}

/// What `extract_style_content` finds in a page whose bytes are `h` and whose lowercase form
/// has bytes `l`: `None` where it would cut a text off a character boundary, else the byte
/// range of the first `<style>` element's content (`Some(None)` where there is none).
pub open spec fn style_range(h: Seq<u8>, l: Seq<u8>) -> Option<Option<(int, int)>> {
    let start = find_bytes(l, 0, "<style".spec_bytes());
    if start < 0 {
        Some(None)
    } else if !is_char_boundary(h, start) {
        None
    } else {
        let gt = find_bytes(h, start, ">".spec_bytes());
        if gt < 0 {
            Some(None)
        } else if !is_char_boundary(l, gt + 1) {
            None
        } else {
            let end = find_bytes(l, gt + 1, "</style".spec_bytes());
            if end < 0 {
                Some(None)
            } else if !is_char_boundary(h, end) {
                None
            } else {
                Some(Some((gt + 1, end)))
            }
        }
    }
}

/// The style range of a page.
pub open spec fn page_style_range(html: Seq<char>) -> Option<Option<(int, int)>> {
    style_range(encode_utf8(html), encode_utf8(lower_text(html)))
}

/// The stylesheet text that a style range stands for.
pub open spec fn style_text(h: Seq<u8>, r: Option<(int, int)>) -> Seq<char> {
    match r {
        Some((a, b)) => decode_utf8(h.subrange(a, b)),
        None => Seq::empty(),
    }
}

/// The content of the first `<style>` element of a page, or `None` where the positions found
/// in its lowercase form do not fall on character boundaries (there, `extract_style_content`
/// cannot cut the page).
pub fn try_extract_style_content(html: &str) -> (r: Option<String>)
    ensures
        match r {
            Some(t) => page_style_range(html@) matches Some(rg) && t@ == style_text(
                html.spec_bytes(),
                rg,
            ),
            None => page_style_range(html@) is None,
        },
{
    let lower = to_lowercase(html);
    let l = lower.as_str().as_bytes();
    let h = html.as_bytes();
    proof {
        reveal_strlit(">");
        vstd::string::is_ascii_spec_bytes(">");
        vstd::utf8::encode_utf8_valid_utf8(html@);
        vstd::utf8::encode_utf8_valid_utf8(lower@);
    }
    let start = match find_bytes_from(l, 0, "<style".as_bytes()) {
        Some(s) => s,
        None => {
            return Some(String::new());
        },
    };
    if !html.is_char_boundary(start) {
        return None;
    }
    proof {
        lemma_find_bytes(l@, 0, "<style".spec_bytes());
    }
    let gt = match find_bytes_from(h, start, ">".as_bytes()) {
        Some(g) => g,
        None => {
            return Some(String::new());
        },
    };
    proof {
        lemma_find_bytes(h@, start as int, ">".spec_bytes());
    }
    let hn = h.len();
    let content_start = gt + 1;
    proof {
        assert(h@.subrange(gt as int, gt + 1) == ">".spec_bytes());
        assert(h@[gt as int] == h@.subrange(gt as int, gt + 1)[0]);
        vstd::utf8::is_char_boundary_iff_not_is_continuation_byte(h@, gt as int);
        crate::text::lemma_boundary_after_ascii(h@, gt as int);
    }
    if !lower.as_str().is_char_boundary(content_start) {
        return None;
    }
    let end = match find_bytes_from(l, content_start, "</style".as_bytes()) {
        Some(e) => e,
        None => {
            return Some(String::new());
        },
    };
    proof {
        lemma_find_bytes(l@, content_start as int, "</style".spec_bytes());
    }
    if !html.is_char_boundary(end) {
        return None;
    }
    Some(utf8_slice(html, content_start, end))
}

/// The content of the first `<style>` element of a page (empty where there is none): after
/// the first `<style` (in any case), from the next `>` to the next `</style`.
pub fn extract_style_content(html: &str) -> (r: String)
    requires
        page_style_range(html@) is Some,
    ensures
        r@ == style_text(html.spec_bytes(), page_style_range(html@)->0),
{
    match try_extract_style_content(html) {
        Some(t) => t,
        None => String::new(),
    }
}

/// The pages visited, and which of them is shown.
pub struct History {
    entries: Vec<String>,
    index: usize,
}

/// A history as a mathematical value: the URLs, and the index of the one shown.
pub struct Hist {
    pub entries: Seq<Seq<char>>,
    pub index: int,
}

/// A history whose index points at an entry, or is 0 with no entries.
pub open spec fn hist_wf(h: Hist) -> bool {
    (h.entries.len() == 0 && h.index == 0) || (0 <= h.index < h.entries.len())
}

pub open spec fn hist_can_go_back(h: Hist) -> bool {
    h.entries.len() > 0 && h.index > 0
}

pub open spec fn hist_can_go_forward(h: Hist) -> bool {
    h.entries.len() > 0 && h.index + 1 < h.entries.len()
}

/// A visit: the entries after the shown one are dropped, the URL is added and shown.
pub open spec fn hist_push(h: Hist, url: Seq<char>) -> Hist {
    let kept = if h.entries.len() == 0 { h.entries } else { h.entries.take(h.index + 1) };
    Hist { entries: kept.push(url), index: kept.len() as int }
}

pub open spec fn hist_back(h: Hist) -> Hist {
    if hist_can_go_back(h) { Hist { entries: h.entries, index: h.index - 1 } } else { h }
}

pub open spec fn hist_forward(h: Hist) -> Hist {
    if hist_can_go_forward(h) { Hist { entries: h.entries, index: h.index + 1 } } else { h }
}

impl View for History {
    type V = Hist;

    closed spec fn view(&self) -> Hist {
        Hist { entries: self.entries@.map_values(|u: String| u@), index: self.index as int }
    }
}

impl History {
    /// Well formed: the index shown lies within the entries, or is 0 when there are none.
    pub open spec fn wf(&self) -> bool {
        hist_wf(self@)
    }

    pub fn new() -> (h: History)
        ensures
            h.wf(),
            h@.entries == Seq::<Seq<char>>::empty(),
            h@.index == 0,
    {
        let h = History { entries: Vec::new(), index: 0 };
        assert(h@.entries =~= Seq::<Seq<char>>::empty());
        h
    }

    /// Records a visit to `url`.
    pub fn push(&mut self, url: &str)
        requires
            old(self).wf(),
        ensures
            final(self).wf(),
            final(self)@ == hist_push(old(self)@, url@),
    {
        let ghost before = self@;
        if self.entries.len() > 0 {
            self.entries.truncate(self.index + 1);
        }
        proof {
            if before.entries.len() > 0 {
                assert(self.entries@.map_values(|u: String| u@) =~= before.entries.take(
                    before.index + 1,
                ));
            }
        }
        let ghost kept = self.entries@;
        self.entries.push(url.to_string());
        self.index = self.entries.len() - 1;
        proof {
            assert(self.entries@.map_values(|u: String| u@) =~= kept.map_values(
                |u: String| u@,
            ).push(url@));
        }
    }

    pub fn can_go_back(&self) -> (b: bool)
        requires
            self.wf(),
        ensures
            b == hist_can_go_back(self@),
    {
        self.entries.len() > 0 && self.index > 0
    }

    pub fn can_go_forward(&self) -> (b: bool)
        requires
            self.wf(),
        ensures
            b == hist_can_go_forward(self@),
    {
        self.entries.len() > 0 && self.index + 1 < self.entries.len()
    }

    /// Steps back, if there is a page before the shown one, and gives the URL now shown.
    pub fn navigate_back(&mut self) -> (r: Option<&str>)
        requires
            old(self).wf(),
        ensures
            final(self).wf(),
            final(self)@ == hist_back(old(self)@),
            match r {
                Some(u) => hist_can_go_back(old(self)@) && u@ == final(self)@.entries[final(self)@.index],
                None => !hist_can_go_back(old(self)@),
            },
    {
        if self.can_go_back() {
            self.index -= 1;
            Some(self.entries[self.index].as_str())
        } else {
            None
        }
    }

    /// Steps forward, if there is a page after the shown one, and gives the URL now shown.
    pub fn navigate_forward(&mut self) -> (r: Option<&str>)
        requires
            old(self).wf(),
        ensures
            final(self).wf(),
            final(self)@ == hist_forward(old(self)@),
            match r {
                Some(u) => hist_can_go_forward(old(self)@) && u@ == final(self)@.entries[final(self)@.index],
                None => !hist_can_go_forward(old(self)@),
            },
    {
        if self.can_go_forward() {
            let n = self.entries.len();
            assert(self@.entries.len() == n);
            self.index += 1;
            Some(self.entries[self.index].as_str())
        } else {
            None
        }
    }

    /// The URL shown, if any.
    pub fn current_url(&self) -> (r: Option<&str>)
        requires
            self.wf(),
        ensures
            match r {
                Some(u) => self@.entries.len() > 0 && u@ == self@.entries[self@.index],
                None => self@.entries.len() == 0,
            },
    {
        if self.index < self.entries.len() {
            Some(self.entries[self.index].as_str())
        } else {
            None
        }
    }

    /// The number of entries.
    pub fn len(&self) -> (n: usize)
        ensures
            n == self@.entries.len(),
    {
        self.entries.len()
    }

    /// Whether nothing has been visited.
    pub fn is_empty(&self) -> (b: bool)
        ensures
            b == (self@.entries.len() == 0),
    {
        self.entries.len() == 0
    }
}

/// Going back and then forward again shows the same page as before.
pub proof fn law_back_then_forward(h: Hist)
    requires
        hist_wf(h),
        hist_can_go_back(h),
    ensures
        hist_forward(hist_back(h)) == h,
{
}

/// Going forward and then back again shows the same page as before.
pub proof fn law_forward_then_back(h: Hist)
    requires
        hist_wf(h),
        hist_can_go_forward(h),
    ensures
        hist_back(hist_forward(h)) == h,
{
}

/// After a visit the visited URL is shown, nothing lies ahead of it, and the pages up to the
/// one shown before are kept in order.
pub proof fn law_visit_truncates_forward(h: Hist, url: Seq<char>)
    requires
        hist_wf(h),
    ensures
        hist_wf(hist_push(h, url)),
        hist_push(h, url).entries[hist_push(h, url).index] == url,
        !hist_can_go_forward(hist_push(h, url)),
        h.entries.len() > 0 ==> hist_push(h, url).entries.len() == h.index + 2,
        h.entries.len() > 0 ==> hist_push(h, url).entries.take(h.index + 1) == h.entries.take(
            h.index + 1,
        ),
        h.entries.len() > 0 ==> hist_can_go_back(hist_push(h, url)),
{
    let p = hist_push(h, url);
    if h.entries.len() > 0 {
        assert(p.entries.take(h.index + 1) =~= h.entries.take(h.index + 1));
    }
}

/// Where a page's source comes from.
pub enum ContentSource {
    /// A file, by the path after `file://`.
    File(String),
    /// An `http://` or `https://` URL.
    Network(String),
    /// A path on disk, as given.
    Path(String),
}

/// `fetch_content`'s choice of source for a URL.
pub open spec fn source_of(url: Seq<char>) -> (int, Seq<char>) {
    if crate::text::has_at(url, 0, "file://"@) {
        (0, url.skip("file://"@.len() as int))
    } else if crate::text::has_at(url, 0, "http://"@) || crate::text::has_at(url, 0, "https://"@) {
        (1, url)
    } else {
        (2, url)
    }
}

impl ContentSource {
    pub open spec fn kind_and_target(&self) -> (int, Seq<char>) {
        match self {
            ContentSource::File(p) => (0, p@),
            ContentSource::Network(u) => (1, u@),
            ContentSource::Path(p) => (2, p@),
        }
    }

    /// Where the source of `url` is read from.
    pub fn of(url: &str) -> (s: ContentSource)
        ensures
            s.kind_and_target() == source_of(url@),
    {
        let v = crate::text::chars_of(url);
        let file = crate::text::chars_of("file://");
        if crate::text::matches_at(&v, 0, &file) {
            return ContentSource::File(crate::text::string_of_range(&v, file.len(), v.len()));
        }
        let http = crate::text::chars_of("http://");
        let https = crate::text::chars_of("https://");
        if crate::text::matches_at(&v, 0, &http) || crate::text::matches_at(&v, 0, &https) {
            return ContentSource::Network(url.to_string());
        }
        ContentSource::Path(url.to_string())
    }
}

/// What a page's text becomes: its document, or where it does not parse, the document of the
/// error page that reports why; where even that fails, a render error.
pub open spec fn page_document_of(html: Seq<char>) -> Result<DomNode, BErr> {
    match parse_document(html, 0).0 {
        Ok(d) => Ok(d),
        Err(e) => match parse_document(error_page(BErr::HtmlParse(html_err_text(e))), 0).0 {
            Ok(d) => Ok(d),
            Err(e2) => Err(BErr::Render("Failed to render error page: "@ + html_err_text(e2))),
        },
    }
}

/// The document of a page: its parse, or the parse of the error page that reports the parse
/// error.
pub fn page_document(html: String) -> (r: Result<Node, BrowserError>)
    ensures
        match page_document_of(html@) {
            Ok(d) => r matches Ok(n) && n@ == d && n.wf(),
            Err(e) => r matches Err(x) && x@ == e,
        },
{
    match HtmlParser::new(html).parse() {
        Ok(node) => Ok(node),
        Err(e) => {
            let error_html = error_page_html(&BrowserError::HtmlParseError(e.message()));
            match HtmlParser::new(error_html).parse() {
                Ok(node) => Ok(node),
                Err(e2) => {
                    let mut m = "Failed to render error page: ".to_string();
                    m.append(e2.message().as_str());
                    Err(BrowserError::RenderError(m))
                },
            }
        },
    }
}

/// The rules of a page's stylesheet: those of its first `<style>` element, or none where they
/// do not parse.
pub open spec fn page_rules(html: Seq<char>, r: Option<(int, int)>) -> Seq<RuleView> {
    match rules_from(style_text(encode_utf8(html), r), 0, Seq::empty()).0 {
        Ok(rules) => rules,
        Err(_) => Seq::empty(),
    }
}

/// The stylesheet of a page, or `None` where its style element cannot be cut out (see
/// `try_extract_style_content`).
pub fn page_stylesheet(html: &str) -> (r: Option<Stylesheet>)
    ensures
        match page_style_range(html@) {
            Some(rg) => r matches Some(ss) && ss@ == page_rules(html@, rg),
            None => r is None,
        },
{
    let css_source = match try_extract_style_content(html) {
        Some(c) => c,
        None => {
            return None;
        },
    };
    match CssTokenizer::new(css_source).parse() {
        Ok(ss) => Some(ss),
        Err(_) => {
            let ss = Stylesheet { rules: Vec::new() };
            assert(ss@ =~= Seq::<RuleView>::empty());
            Some(ss)
        },
    }
}

} // verus!
