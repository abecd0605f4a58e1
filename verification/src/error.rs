use vstd::prelude::*;
use vstd::string::StringExecFns;

verus! {

broadcast use vstd::string::group_string_axioms;

/// What can go wrong while a page is loaded.
#[derive(Debug, Clone, PartialEq)]
pub enum BrowserError {
    HtmlParseError(String),
    CssParseError(String),
    NetworkError(String),
    IoError(String),
    RenderError(String),
}

/// A browser error as a mathematical value.
pub enum BErr {
    HtmlParse(Seq<char>),
    CssParse(Seq<char>),
    Network(Seq<char>),
    Io(Seq<char>),
    Render(Seq<char>),
}

impl View for BrowserError {
    type V = BErr;

    open spec fn view(&self) -> BErr {
        match self {
            BrowserError::HtmlParseError(m) => BErr::HtmlParse(m@),
            BrowserError::CssParseError(m) => BErr::CssParse(m@),
            BrowserError::NetworkError(m) => BErr::Network(m@),
            BrowserError::IoError(m) => BErr::Io(m@),
            BrowserError::RenderError(m) => BErr::Render(m@),
        }
    }
}

/// The line that describes an error: its kind, a colon, and its detail.
pub open spec fn browser_error_text(e: BErr) -> Seq<char> {
    match e {
        BErr::HtmlParse(m) => "HTML parse error: "@ + m,
        BErr::CssParse(m) => "CSS parse error: "@ + m,
        BErr::Network(m) => "Network error: "@ + m,
        BErr::Io(m) => "I/O error: "@ + m,
        BErr::Render(m) => "Render error: "@ + m,
    }
}

/// The heading of the error page for each kind of error, and the detail shown under it.
pub open spec fn error_title(e: BErr) -> (Seq<char>, Seq<char>) {
    match e {
        BErr::HtmlParse(m) => ("Page could not be displayed"@, m),
        BErr::CssParse(m) => ("Stylesheet error"@, m),
        BErr::Network(m) => ("Failed to load page"@, m),
        BErr::Io(m) => ("File not found"@, m),
        BErr::Render(m) => ("Rendering error"@, m),
    }
}

/// The page shown in place of one that could not be loaded.
pub open spec fn error_page(e: BErr) -> Seq<char> {
    "<html><body><h1>Error: "@ + error_title(e).0 + "</h1><p>"@ + error_title(e).1
        + "</p></body></html>"@
}

fn joined(prefix: &str, detail: &str) -> (r: String)
    ensures
        r@ == prefix@ + detail@,
{
    let mut r = prefix.to_string();
    r.append(detail);
    r
}

impl BrowserError {
    /// The line that describes the error.
    pub fn message(&self) -> (r: String)
        ensures
            r@ == browser_error_text(self@),
    {
        match self {
            BrowserError::HtmlParseError(m) => joined("HTML parse error: ", m.as_str()),
            BrowserError::CssParseError(m) => joined("CSS parse error: ", m.as_str()),
            BrowserError::NetworkError(m) => joined("Network error: ", m.as_str()),
            BrowserError::IoError(m) => joined("I/O error: ", m.as_str()),
            BrowserError::RenderError(m) => joined("Render error: ", m.as_str()),
        }
    }
}

/// The HTML of the page that reports an error.
pub fn error_page_html(error: &BrowserError) -> (r: String)
    ensures
        r@ == error_page(error@),
{
    let (title, detail) = match error {
        BrowserError::HtmlParseError(m) => ("Page could not be displayed", m.as_str()),
        BrowserError::CssParseError(m) => ("Stylesheet error", m.as_str()),
        BrowserError::NetworkError(m) => ("Failed to load page", m.as_str()),
        BrowserError::IoError(m) => ("File not found", m.as_str()),
        BrowserError::RenderError(m) => ("Rendering error", m.as_str()),
    };
    let mut r = "<html><body><h1>Error: ".to_string();
    r.append(title);
    r.append("</h1><p>");
    r.append(detail);
    r.append("</p></body></html>");
    r
}

} // verus!
