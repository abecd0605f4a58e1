use vstd::prelude::*;
use vstd::string::StringExecFns;
use crate::dom::{AttrMap, DomNode, Node, lemma_nodes_dom, lemma_nodes_push, nodes_dom, nodes_wf};
use crate::strmap::StrMap;
use crate::text::{
    str_eq,
    CharClass, ascii_lower, chars_of, has_at, in_class, is_ws, lemma_scan, matches_at,
    scan, scan_chars, string_of_range, to_ascii_lower, trim, trim_range, utf8_len,
    lemma_utf8_len_ge, width,
};

verus! {

broadcast use vstd::string::group_string_axioms;

#[derive(Debug, Clone, PartialEq)]
pub enum ParseError {
    UnexpectedEof,
    InvalidCharacter(char),
    MalformedTag(String),
    MissingClosingTag(String),
    InvalidAttribute(String),
}

/// A parse error as a mathematical value.
pub enum HtmlErr {
    UnexpectedEof,
    InvalidCharacter(char),
    MalformedTag(Seq<char>),
    MissingClosingTag(Seq<char>),
    InvalidAttribute(Seq<char>),
}

impl View for ParseError {
    type V = HtmlErr;

    open spec fn view(&self) -> HtmlErr {
        match self {
            ParseError::UnexpectedEof => HtmlErr::UnexpectedEof,
            ParseError::InvalidCharacter(c) => HtmlErr::InvalidCharacter(*c),
            ParseError::MalformedTag(s) => HtmlErr::MalformedTag(s@),
            ParseError::MissingClosingTag(s) => HtmlErr::MissingClosingTag(s@),
            ParseError::InvalidAttribute(s) => HtmlErr::InvalidAttribute(s@),
        }
    }
}

#[derive(Debug)]
pub enum Token {
    StartTag { name: String, attributes: AttrMap, self_closing: bool },
    EndTag { name: String },
    Text(String),
    Doctype(String),
    Comment(String),
    Eof,
}

/// A token as a mathematical value.
pub enum Tok {
    StartTag(Seq<char>, Map<Seq<char>, Seq<char>>, bool),
    EndTag(Seq<char>),
    Text(Seq<char>),
    Doctype(Seq<char>),
    Comment(Seq<char>),
    Eof,
}

impl View for Token {
    type V = Tok;

    open spec fn view(&self) -> Tok {
        match self {
            Token::StartTag { name, attributes, self_closing } => Tok::StartTag(name@, attributes@, *self_closing),
            Token::EndTag { name } => Tok::EndTag(name@),
            Token::Text(s) => Tok::Text(s@),
            Token::Doctype(s) => Tok::Doctype(s@),
            Token::Comment(s) => Tok::Comment(s@),
            Token::Eof => Tok::Eof,
        }
    }
}

impl Token {
    /// A start tag's attribute map is well formed.
    pub open spec fn wf(&self) -> bool {
        match self {
            Token::StartTag { attributes, .. } => attributes.wf(),
            _ => true,
        }
    }
}

/// What a step of the tokenizer or parser gives, and the index it stops at.
pub type Step<T> = (Result<T, HtmlErr>, int);

pub open spec fn res_view<T: View, E: View>(r: Result<T, E>) -> Result<T::V, E::V> {
    match r {
        Ok(t) => Ok(t@),
        Err(e) => Err(e@),
    }
}

/// A tag (or attribute) name from `i`: letters, digits, `-` and `_`, at least one.
pub open spec fn tag_name_at(s: Seq<char>, i: int) -> Step<Seq<char>> {
    let j = scan(s, i, CharClass::Name);
    if j == i {
        (Err(HtmlErr::MalformedTag("Empty tag name"@)), j)
    } else {
        (Ok(s.subrange(i, j)), j)
    }
}

/// Moves from `i` to the next `t`; an error where none follows.
pub open spec fn skip_to(s: Seq<char>, i: int, t: char) -> Step<()> {
    let j = scan(s, i, CharClass::Not(t));
    if j < s.len() {
        (Ok(()), j)
    } else {
        (Err(HtmlErr::UnexpectedEof), j)
    }
}

/// An attribute value from `i`: quoted (the quote closes it, or the end of input does)
/// or bare (up to whitespace, `>` or `/`).
pub open spec fn attr_value(s: Seq<char>, i: int) -> Step<Seq<char>> {
    if i < 0 || i >= s.len() {
        (Err(HtmlErr::UnexpectedEof), i)
    } else if s[i] == '"' || s[i] == '\'' {
        let j = scan(s, i + 1, CharClass::Not(s[i]));
        (Ok(s.subrange(i + 1, j)), if j < s.len() { j + 1 } else { j })
    } else {
        let j = scan(s, i, CharClass::Unquoted);
        (Ok(s.subrange(i, j)), j)
    }
}

pub proof fn lemma_scan_ge(s: Seq<char>, i: int, k: CharClass)
    ensures
        scan(s, i, k) >= i,
        0 <= i <= s.len() ==> scan(s, i, k) <= s.len(),
    decreases s.len() - i,
{
    if 0 <= i < s.len() && in_class(k, s[i]) {
        lemma_scan_ge(s, i + 1, k);
    }
}

/// The attributes of a start tag from `i`, added to `acc`; a later attribute of the same
/// name replaces an earlier one.
pub open spec fn attrs(s: Seq<char>, i: int, acc: Map<Seq<char>, Seq<char>>) -> Step<Map<Seq<char>, Seq<char>>>
    decreases s.len() - i,
{
    let i1 = scan(s, i, CharClass::Space);
    if i1 < 0 || i1 >= s.len() {
        (Ok(acc), i1)
    } else if s[i1] == '>' || s[i1] == '/' {
        (Ok(acc), i1)
    } else {
        match tag_name_at(s, i1) {
            (Err(e), i2) => (Err(e), i2),
            (Ok(name), i2) => {
                let i3 = scan(s, i2, CharClass::Space);
                proof {
                    lemma_scan_ge(s, i, CharClass::Space);
                    lemma_scan_ge(s, i1, CharClass::Name);
                    lemma_scan_ge(s, i2, CharClass::Space);
                }
                if i3 < s.len() {
                    if s[i3] == '=' {
                        let i4 = scan(s, i3 + 1, CharClass::Space);
                        proof {
                            lemma_scan_ge(s, i3 + 1, CharClass::Space);
                            lemma_scan_ge(s, i4 + 1, CharClass::Not(s[i4]));
                            lemma_scan_ge(s, i4, CharClass::Unquoted);
                        }
                        match attr_value(s, i4) {
                            (Err(e), i5) => (Err(e), i5),
                            (Ok(v), i5) => attrs(s, i5, acc.insert(name, v)),
                        }
                    } else {
                        attrs(s, i3, acc.insert(name, Seq::empty()))
                    }
                } else {
                    (Ok(acc.insert(name, Seq::empty())), i3)
                }
            },
        }
    }
}

/// Whether the UTF-8 encoding of the input from `q` on is longer than two bytes.
pub open spec fn rest_over_two(s: Seq<char>, q: int) -> bool {
    utf8_len(s.skip(q)) > 2
}

/// Where a comment's text ends: at `-->`, or where at most two bytes of input are left.
pub open spec fn comment_scan(s: Seq<char>, q: int) -> int
    decreases s.len() - q,
{
    if q < 0 || q >= s.len() || !rest_over_two(s, q) || has_at(s, q, "-->"@) {
        q
    } else {
        comment_scan(s, q + 1)
    }
}

/// A `<!...>` construct, with `k` at the `!`.
pub open spec fn special(s: Seq<char>, k: int) -> Step<Tok> {
    let k1 = k + 1;
    if has_at(s, k1, "DOCTYPE"@) {
        let j0 = k1 + 7;
        let j = scan(s, j0, CharClass::Not('>'));
        (Ok(Tok::Doctype(trim(s.subrange(j0, j)))), if j < s.len() { j + 1 } else { j })
    } else if has_at(s, k1, "--"@) {
        let c0 = k1 + 2;
        let q = comment_scan(s, c0);
        (Ok(Tok::Comment(s.subrange(c0, q))), if rest_over_two(s, q) { q + 3 } else { q })
    } else {
        (Err(HtmlErr::MalformedTag("Unknown special construct"@)), k1)
    }
}

/// A tag, with `i` at its `<`.
pub open spec fn tag_at(s: Seq<char>, i: int) -> Step<Tok> {
    let k = i + 1;
    if k >= s.len() {
        (Err(HtmlErr::UnexpectedEof), k)
    } else if s[k] == '!' {
        special(s, k)
    } else if s[k] == '/' {
        match tag_name_at(s, k + 1) {
            (Err(e), j) => (Err(e), j),
            (Ok(n), j) => match skip_to(s, j, '>') {
                (Err(e), p) => (Err(e), p),
                (Ok(_), p) => (Ok(Tok::EndTag(n)), p + 1),
            },
        }
    } else {
        match tag_name_at(s, k) {
            (Err(e), j) => (Err(e), j),
            (Ok(n), j) => match attrs(s, j, Map::empty()) {
                (Err(e), a) => (Err(e), a),
                (Ok(m), a) => {
                    let sc = 0 <= a < s.len() && s[a] == '/';
                    let b = if sc { a + 1 } else { a };
                    match skip_to(s, b, '>') {
                        (Err(e), p) => (Err(e), p),
                        (Ok(_), p) => (Ok(Tok::StartTag(n, m, sc)), p + 1),
                    }
                },
            },
        }
    }
}

/// A text token from `j`: up to the next `<`, trimmed.
pub open spec fn text_at(s: Seq<char>, j: int) -> Step<Tok> {
    let q = scan(s, j, CharClass::Not('<'));
    (Ok(Tok::Text(trim(s.subrange(j, q)))), q)
}

/// The token that the tokenizer reads from index `i`, and the index after it.
pub open spec fn next_token(s: Seq<char>, i: int) -> Step<Tok> {
    let j = scan(s, i, CharClass::Space);
    if j >= s.len() {
        (Ok(Tok::Eof), j)
    } else if s[j] == '<' {
        tag_at(s, j)
    } else {
        text_at(s, j)
    }
}

/// `to_ascii_lowercase` of a name is one of the void elements of HTML.
pub open spec fn is_void(n: Seq<char>) -> bool {
    let l = n.map_values(|c: char| ascii_lower(c));
    ||| l == "area"@
    ||| l == "base"@
    ||| l == "br"@
    ||| l == "col"@
    ||| l == "embed"@
    ||| l == "hr"@
    ||| l == "img"@
    ||| l == "input"@
    ||| l == "link"@
    ||| l == "meta"@
    ||| l == "param"@
    ||| l == "source"@
    ||| l == "track"@
    ||| l == "wbr"@
}

pub open spec fn mismatch_message(parent: Seq<char>, found: Seq<char>) -> Seq<char> {
    "Expected closing tag for '"@ + parent + "', found '"@ + found + "'"@
}

pub proof fn lemma_attrs(s: Seq<char>, i: int, acc: Map<Seq<char>, Seq<char>>)
    requires
        0 <= i <= s.len(),
    ensures
        i <= attrs(s, i, acc).1 <= s.len(),
    decreases s.len() - i,
{
    let i1 = scan(s, i, CharClass::Space);
    lemma_scan(s, i, CharClass::Space);
    if 0 <= i1 < s.len() && !(s[i1] == '>' || s[i1] == '/') {
        lemma_scan(s, i1, CharClass::Name);
        if let (Ok(name), i2) = tag_name_at(s, i1) {
            let i3 = scan(s, i2, CharClass::Space);
            lemma_scan(s, i2, CharClass::Space);
            if i3 < s.len() {
                if s[i3] == '=' {
                    let i4 = scan(s, i3 + 1, CharClass::Space);
                    lemma_scan(s, i3 + 1, CharClass::Space);
                    if 0 <= i4 < s.len() {
                        lemma_scan(s, i4 + 1, CharClass::Not(s[i4]));
                        lemma_scan(s, i4, CharClass::Unquoted);
                    }
                    if let (Ok(v), i5) = attr_value(s, i4) {
                        lemma_attrs(s, i5, acc.insert(name, v));
                    }
                } else {
                    lemma_attrs(s, i3, acc.insert(name, Seq::empty()));
                }
            }
        }
    }
}

pub proof fn lemma_comment_scan(s: Seq<char>, q: int)
    requires
        0 <= q <= s.len(),
    ensures
        q <= comment_scan(s, q) <= s.len(),
        rest_over_two(s, comment_scan(s, q)) ==> comment_scan(s, q) + 3 <= s.len(),
    decreases s.len() - q,
{
    reveal_strlit("-->");
    if q >= s.len() {
        assert(s.skip(q) =~= Seq::<char>::empty());
    } else if rest_over_two(s, q) && !has_at(s, q, "-->"@) {
        lemma_comment_scan(s, q + 1);
    }
}

pub proof fn lemma_next_token(s: Seq<char>, i: int)
    requires
        0 <= i <= s.len(),
    ensures
        i <= next_token(s, i).1 <= s.len(),
        next_token(s, i).0 matches Ok(t) && t != Tok::Eof ==> next_token(s, i).1 > i,
{
    reveal_strlit("DOCTYPE");
    reveal_strlit("--");
    let j = scan(s, i, CharClass::Space);
    lemma_scan(s, i, CharClass::Space);
    if j < s.len() {
        if s[j] == '<' {
            let k = j + 1;
            if k < s.len() {
                if s[k] == '!' {
                    let k1 = k + 1;
                    if has_at(s, k1, "DOCTYPE"@) {
                        lemma_scan(s, k1 + 7, CharClass::Not('>'));
                    } else if has_at(s, k1, "--"@) {
                        lemma_comment_scan(s, k1 + 2);
                    }
                } else if s[k] == '/' {
                    lemma_scan(s, k + 1, CharClass::Name);
                    let j2 = scan(s, k + 1, CharClass::Name);
                    lemma_scan(s, j2, CharClass::Not('>'));
                } else {
                    lemma_scan(s, k, CharClass::Name);
                    let j2 = scan(s, k, CharClass::Name);
                    lemma_attrs(s, j2, Map::empty());
                    let a = attrs(s, j2, Map::empty()).1;
                    lemma_scan(s, a, CharClass::Not('>'));
                    if 0 <= a < s.len() && s[a] == '/' {
                        lemma_scan(s, a + 1, CharClass::Not('>'));
                    }
                }
            }
        } else {
            lemma_scan(s, j, CharClass::Not('<'));
        }
    }
}

/// The children of an element named `parent`, read from index `i` on and added to `acc`,
/// up to and with the end tag that closes `parent`.
pub open spec fn element_children(s: Seq<char>, i: int, parent: Seq<char>, acc: Seq<DomNode>) -> Step<Seq<DomNode>>
    decreases s.len() - i,
{
    if i < 0 || i >= s.len() {
        (Err(HtmlErr::MissingClosingTag(parent)), i)
    } else {
        proof {
            lemma_next_token(s, i);
        }
        match next_token(s, i) {
            (Err(e), p) => (Err(e), p),
            (Ok(Tok::Eof), p) => (Err(HtmlErr::MissingClosingTag(parent)), p),
            (Ok(Tok::Text(t)), p) => element_children(s, p, parent, if trim(t).len() > 0 { acc.push(DomNode::Text(t)) } else { acc }),
            (Ok(Tok::StartTag(n, m, sc)), p) => {
                if sc || is_void(n) {
                    element_children(s, p, parent, acc.push(DomNode::Element(n, m, Seq::empty())))
                } else {
                    match element_children(s, p, n, Seq::empty()) {
                        (Err(e), q) => (Err(e), q),
                        (Ok(ch), q) => if i < q <= s.len() {
                            element_children(s, q, parent, acc.push(DomNode::Element(n, m, ch)))
                        } else {
                            (Ok(acc), q)
                        },
                    }
                }
            },
            (Ok(Tok::EndTag(n)), p) => if n == parent {
                (Ok(acc), p)
            } else {
                (Err(HtmlErr::MalformedTag(mismatch_message(parent, n))), p)
            },
            (Ok(_), p) => element_children(s, p, parent, acc),
        }
    }
}

/// The top-level nodes read from index `i` on, added to `acc`.
pub open spec fn top_nodes(s: Seq<char>, i: int, acc: Seq<DomNode>) -> Step<Seq<DomNode>>
    decreases s.len() - i,
{
    if i < 0 || i >= s.len() {
        (Ok(acc), i)
    } else {
        proof {
            lemma_next_token(s, i);
        }
        match next_token(s, i) {
            (Err(e), p) => (Err(e), p),
            (Ok(Tok::Eof), p) => (Ok(acc), p),
            (Ok(Tok::Text(t)), p) => top_nodes(s, p, if trim(t).len() > 0 { acc.push(DomNode::Text(t)) } else { acc }),
            (Ok(Tok::StartTag(n, m, sc)), p) => {
                if sc || is_void(n) {
                    top_nodes(s, p, acc.push(DomNode::Element(n, m, Seq::empty())))
                } else {
                    match element_children(s, p, n, Seq::empty()) {
                        (Err(e), q) => (Err(e), q),
                        (Ok(ch), q) => if i < q <= s.len() {
                            top_nodes(s, q, acc.push(DomNode::Element(n, m, ch)))
                        } else {
                            (Ok(acc), q)
                        },
                    }
                }
            },
            (Ok(Tok::EndTag(_)), p) => (Err(HtmlErr::MalformedTag("Unexpected end tag"@)), p),
            (Ok(_), p) => top_nodes(s, p, acc),
        }
    }
}

/// The document read from index `i`: the one top-level node, or a `document` element that
/// holds all of them.
pub open spec fn parse_document(s: Seq<char>, i: int) -> Step<DomNode> {
    match top_nodes(s, i, Seq::empty()) {
        (Err(e), p) => (Err(e), p),
        (Ok(nodes), p) => (Ok(if nodes.len() == 1 { nodes[0] } else { DomNode::Element("document"@, Map::empty(), nodes) }), p),
    }
}


pub proof fn lemma_children_pos(s: Seq<char>, i: int, parent: Seq<char>, acc: Seq<DomNode>)
    requires
        0 <= i <= s.len(),
    ensures
        i <= element_children(s, i, parent, acc).1 <= s.len(),
    decreases s.len() - i,
{
    if i < s.len() {
        lemma_next_token(s, i);
        match next_token(s, i) {
            (Err(e), p) => {},
            (Ok(Tok::Eof), p) => {},
            (Ok(Tok::Text(t)), p) => {
                lemma_children_pos(s, p, parent, if trim(t).len() > 0 { acc.push(DomNode::Text(t)) } else { acc });
            },
            (Ok(Tok::StartTag(n, m, sc)), p) => {
                if sc || is_void(n) {
                    lemma_children_pos(s, p, parent, acc.push(DomNode::Element(n, m, Seq::empty())));
                } else {
                    lemma_children_pos(s, p, n, Seq::empty());
                    match element_children(s, p, n, Seq::empty()) {
                        (Err(e), q) => {},
                        (Ok(ch), q) => {
                            lemma_children_pos(s, q, parent, acc.push(DomNode::Element(n, m, ch)));
                        },
                    }
                }
            },
            (Ok(Tok::EndTag(n)), p) => {},
            (Ok(_), p) => {
                lemma_children_pos(s, p, parent, acc);
            },
        }
    }
}

/// Number of UTF-8 bytes of a character.
fn char_width(c: char) -> (n: usize)
    ensures
        n == width(c),
{
    let u = c as u32;
    if u <= 0x7f {
        1
    } else if u <= 0x7ff {
        2
    } else if u <= 0xffff {
        3
    } else {
        4
    }
}

fn rest_exceeds_two_bytes(v: &Vec<char>, q: usize) -> (b: bool)
    requires
        q <= v@.len(),
    ensures
        b == rest_over_two(v@, q as int),
{
    let ghost s = v@.skip(q as int);
    if v.len() - q >= 3 {
        proof {
            lemma_utf8_len_ge(v@.skip(q as int));
        }
        return true;
    }
    if v.len() == q {
        assert(s.len() == 0);
        return false;
    }
    proof {
        reveal_with_fuel(utf8_len, 3);
    }
    let w0 = char_width(v[q]);
    assert(s[0] == v@[q as int]);
    if v.len() - q == 1 {
        assert(s.drop_first().len() == 0);
        assert(utf8_len(s) == width(s[0]));
        return w0 > 2;
    }
    let w1 = char_width(v[q + 1]);
    assert(s.drop_first()[0] == v@[q + 1]);
    assert(s.drop_first().drop_first().len() == 0);
    assert(utf8_len(s.drop_first()) == width(s.drop_first()[0]));
    w0 + w1 > 2
}

/// Whether the trimmed string is empty.
fn is_blank(t: &str) -> (b: bool)
    ensures
        b == (trim(t@).len() == 0),
{
    let v = chars_of(t);
    let (a, b) = trim_range(&v, 0, v.len());
    assert(v@.subrange(0, v@.len() as int) =~= v@);
    a == b
}

#[derive(Debug)]
pub struct HtmlTokenizer {
    input: Vec<char>,
    position: usize,
}

impl HtmlTokenizer {
    /// The characters of the input.
    pub closed spec fn chars(&self) -> Seq<char> {
        self.input@
    }

    /// The index of the next character to read.
    pub closed spec fn pos(&self) -> int {
        self.position as int
    }

    pub closed spec fn wf(&self) -> bool {
        self.position <= self.input@.len()
    }

    pub fn new(input: String) -> (t: Self)
        ensures
            t.wf(),
            t.chars() == input@,
            t.pos() == 0,
    {
        HtmlTokenizer { input: chars_of(input.as_str()), position: 0 }
    }

    /// Reads the next token; see `next_token`.
    pub fn next_token(&mut self) -> (r: Result<Token, ParseError>)
        requires
            old(self).wf(),
        ensures
            final(self).wf(),
            final(self).chars() == old(self).chars(),
            (res_view(r), final(self).pos()) == next_token(old(self).chars(), old(self).pos()),
            r matches Ok(t) ==> t.wf(),
    {
        self.skip_whitespace();
        if self.position >= self.input.len() {
            return Ok(Token::Eof);
        }
        let current_char = self.current_char()?;
        if current_char == '<' {
            self.parse_tag()
        } else {
            self.parse_text()
        }
    }

    pub fn has_more_tokens(&self) -> (b: bool)
        requires
            self.wf(),
        ensures
            b == (self.pos() < self.chars().len()),
    {
        self.position < self.input.len()
    }

    fn current_char(&self) -> (r: Result<char, ParseError>)
        requires
            self.wf(),
        ensures
            r == if self.pos() < self.chars().len() {
                Ok::<char, ParseError>(self.chars()[self.pos()])
            } else {
                Err::<char, ParseError>(ParseError::UnexpectedEof)
            },
    {
        if self.position < self.input.len() {
            Ok(self.input[self.position])
        } else {
            Err(ParseError::UnexpectedEof)
        }
    }

    fn advance(&mut self)
        requires
            old(self).wf(),
        ensures
            final(self).wf(),
            final(self).chars() == old(self).chars(),
            final(self).pos() == if old(self).pos() < old(self).chars().len() {
                old(self).pos() + 1
            } else {
                old(self).pos()
            },
    {
        if self.position < self.input.len() {
            self.position += 1;
        }
    }

    fn skip_whitespace(&mut self)
        requires
            old(self).wf(),
        ensures
            final(self).wf(),
            final(self).chars() == old(self).chars(),
            final(self).pos() == scan(old(self).chars(), old(self).pos(), CharClass::Space),
    {
        self.position = scan_chars(&self.input, self.position, CharClass::Space);
    }

    fn parse_tag(&mut self) -> (r: Result<Token, ParseError>)
        requires
            old(self).wf(),
            old(self).pos() < old(self).chars().len(),
        ensures
            final(self).wf(),
            final(self).chars() == old(self).chars(),
            (res_view(r), final(self).pos()) == tag_at(old(self).chars(), old(self).pos()),
            r matches Ok(t) ==> t.wf(),
    {
        self.advance();
        match self.current_char() {
            Ok(ch) => {
                if ch == '!' {
                    return self.parse_special_construct();
                } else if ch == '/' {
                    self.advance();
                    let tag_name = self.parse_tag_name()?;
                    self.skip_to_char('>')?;
                    self.advance();
                    return Ok(Token::EndTag { name: tag_name });
                }
            },
            Err(_) => {
                return Err(ParseError::UnexpectedEof);
            },
        }
        let tag_name = self.parse_tag_name()?;
        let attributes = self.parse_attributes()?;
        let self_closing = match self.current_char() {
            Ok(ch) => {
                if ch == '/' {
                    self.advance();
                    true
                } else {
                    false
                }
            },
            Err(_) => false,
        };
        self.skip_to_char('>')?;
        self.advance();
        Ok(Token::StartTag { name: tag_name, attributes, self_closing })
    }

    fn parse_special_construct(&mut self) -> (r: Result<Token, ParseError>)
        requires
            old(self).wf(),
            old(self).pos() < old(self).chars().len(),
        ensures
            final(self).wf(),
            final(self).chars() == old(self).chars(),
            (res_view(r), final(self).pos()) == special(old(self).chars(), old(self).pos()),
    {
        self.advance();
        let doctype = chars_of("DOCTYPE");
        if matches_at(&self.input, self.position, &doctype) {
            proof {
                reveal_strlit("DOCTYPE");
            }
            assert(self.position + 7 <= self.input.len());
            self.position += 7;
            let start = self.position;
            let end = scan_chars(&self.input, start, CharClass::Not('>'));
            let (a, b) = trim_range(&self.input, start, end);
            let content = string_of_range(&self.input, a, b);
            self.position = end;
            self.advance();
            return Ok(Token::Doctype(content));
        }
        let dashes = chars_of("--");
        if matches_at(&self.input, self.position, &dashes) {
            proof {
                reveal_strlit("--");
            }
            assert(self.position + 2 <= self.input.len());
            self.position += 2;
            let start = self.position;
            let arrow = chars_of("-->");
            let ghost s = self.input@;
            while self.position < self.input.len() && rest_exceeds_two_bytes(&self.input, self.position)
                && !matches_at(&self.input, self.position, &arrow)
                invariant
                    s == self.input@,
                    start <= self.position <= s.len(),
                    arrow@ == "-->"@,
                    comment_scan(s, self.position as int) == comment_scan(s, start as int),
                decreases s.len() - self.position,
            {
                self.position += 1;
            }
            let content = string_of_range(&self.input, start, self.position);
            if rest_exceeds_two_bytes(&self.input, self.position) {
                proof {
                    lemma_comment_scan(s, start as int);
                    reveal_strlit("-->");
                }
                self.position += 3;
            }
            return Ok(Token::Comment(content));
        }
        Err(ParseError::MalformedTag("Unknown special construct".to_string()))
    }

    fn parse_tag_name(&mut self) -> (r: Result<String, ParseError>)
        requires
            old(self).wf(),
        ensures
            final(self).wf(),
            final(self).chars() == old(self).chars(),
            (res_view(r), final(self).pos()) == tag_name_at(old(self).chars(), old(self).pos()),
    {
        let start = self.position;
        let end = scan_chars(&self.input, start, CharClass::Name);
        self.position = end;
        if end == start {
            Err(ParseError::MalformedTag("Empty tag name".to_string()))
        } else {
            Ok(string_of_range(&self.input, start, end))
        }
    }

    fn parse_attributes(&mut self) -> (r: Result<AttrMap, ParseError>)
        requires
            old(self).wf(),
        ensures
            final(self).wf(),
            final(self).chars() == old(self).chars(),
            (res_view(r), final(self).pos()) == attrs(old(self).chars(), old(self).pos(), Map::empty()),
            r matches Ok(m) ==> m.wf(),
    {
        let mut attributes: AttrMap = StrMap::new();
        let ghost s = self.input@;
        let ghost target = attrs(s, self.pos(), Map::empty());
        loop
            invariant
                self.wf(),
                self.input@ == s,
                s == old(self).chars(),
                target == attrs(old(self).chars(), old(self).pos(), Map::empty()),
                attributes.wf(),
                attrs(s, self.pos(), attributes@) == target,
            decreases s.len() - self.pos(),
        {
            let ghost i = self.pos();
            proof {
                lemma_scan(s, i, CharClass::Space);
            }
            self.skip_whitespace();
            if self.position >= self.input.len() {
                return Ok(attributes);
            }
            let ch = self.current_char()?;
            if ch == '>' || ch == '/' {
                return Ok(attributes);
            }
            let ghost i1 = self.pos();
            proof {
                lemma_scan(s, i1, CharClass::Name);
            }
            let attr_name = self.parse_tag_name()?;
            let ghost i2 = self.pos();
            proof {
                lemma_scan(s, i2, CharClass::Space);
            }
            self.skip_whitespace();
            match self.current_char() {
                Ok(ch) => {
                    if ch == '=' {
                        self.advance();
                        let ghost i3 = self.pos();
                        proof {
                            lemma_scan(s, i3, CharClass::Space);
                        }
                        self.skip_whitespace();
                        let ghost i4 = self.pos();
                        proof {
                            if i4 < s.len() {
                                lemma_scan(s, i4 + 1, CharClass::Not(s[i4]));
                                lemma_scan(s, i4, CharClass::Unquoted);
                            }
                        }
                        let attr_value = self.parse_attribute_value()?;
                        attributes.insert(attr_name, attr_value);
                    } else {
                        attributes.insert(attr_name, String::new());
                    }
                },
                Err(_) => {
                    attributes.insert(attr_name, String::new());
                    return Ok(attributes);
                },
            }
        }
    }

    fn parse_attribute_value(&mut self) -> (r: Result<String, ParseError>)
        requires
            old(self).wf(),
        ensures
            final(self).wf(),
            final(self).chars() == old(self).chars(),
            (res_view(r), final(self).pos()) == attr_value(old(self).chars(), old(self).pos()),
    {
        let ch = self.current_char()?;
        if ch == '"' || ch == '\'' {
            let quote_char = ch;
            self.advance();
            let start = self.position;
            let end = scan_chars(&self.input, start, CharClass::Not(quote_char));
            let value = string_of_range(&self.input, start, end);
            self.position = end;
            self.advance();
            Ok(value)
        } else {
            let start = self.position;
            let end = scan_chars(&self.input, start, CharClass::Unquoted);
            let value = string_of_range(&self.input, start, end);
            self.position = end;
            Ok(value)
        }
    }

    fn parse_text(&mut self) -> (r: Result<Token, ParseError>)
        requires
            old(self).wf(),
        ensures
            final(self).wf(),
            final(self).chars() == old(self).chars(),
            (res_view(r), final(self).pos()) == text_at(old(self).chars(), old(self).pos()),
    {
        let start = self.position;
        let end = scan_chars(&self.input, start, CharClass::Not('<'));
        self.position = end;
        let (a, b) = trim_range(&self.input, start, end);
        Ok(Token::Text(string_of_range(&self.input, a, b)))
    }

    fn skip_to_char(&mut self, target: char) -> (r: Result<(), ParseError>)
        requires
            old(self).wf(),
        ensures
            final(self).wf(),
            final(self).chars() == old(self).chars(),
            (res_view(r), final(self).pos()) == skip_to(old(self).chars(), old(self).pos(), target),
    {
        self.position = scan_chars(&self.input, self.position, CharClass::Not(target));
        if self.position < self.input.len() {
            Ok(())
        } else {
            Err(ParseError::UnexpectedEof)
        }
    }
}


pub open spec fn nodes_res(r: Result<Vec<Node>, ParseError>) -> Result<Seq<DomNode>, HtmlErr> {
    match r {
        Ok(v) => Ok(nodes_dom(v@)),
        Err(e) => Err(e@),
    }
}

#[derive(Debug)]
pub struct HtmlParser {
    tokenizer: HtmlTokenizer,
}

impl HtmlParser {
    /// The characters of the input.
    pub closed spec fn chars(&self) -> Seq<char> {
        self.tokenizer.chars()
    }

    /// The index of the next character to read.
    pub closed spec fn pos(&self) -> int {
        self.tokenizer.pos()
    }

    pub closed spec fn wf(&self) -> bool {
        self.tokenizer.wf()
    }

    pub fn new(html: String) -> (p: Self)
        ensures
            p.wf(),
            p.chars() == html@,
            p.pos() == 0,
    {
        HtmlParser { tokenizer: HtmlTokenizer::new(html) }
    }

    /// Parses the document; see `parse_document`.
    pub fn parse(&mut self) -> (r: Result<Node, ParseError>)
        requires
            old(self).wf(),
        ensures
            final(self).wf(),
            final(self).chars() == old(self).chars(),
            (res_view(r), final(self).pos()) == parse_document(old(self).chars(), old(self).pos()),
            r matches Ok(n) ==> n.wf(),
    {
        let mut nodes: Vec<Node> = Vec::new();
        let ghost s = self.chars();
        let ghost target = top_nodes(s, self.pos(), Seq::empty());
        let mut finished = false;
        while !finished && self.tokenizer.has_more_tokens()
            invariant
                self.wf(),
                self.chars() == s,
                s == old(self).chars(),
                target == top_nodes(old(self).chars(), old(self).pos(), Seq::empty()),
                0 <= self.pos() <= s.len(),
                nodes_wf(nodes@),
                finished ==> target == (Ok::<Seq<DomNode>, HtmlErr>(nodes_dom(nodes@)), self.pos()),
                !finished ==> top_nodes(s, self.pos(), nodes_dom(nodes@)) == target,
            decreases s.len() - self.pos(), if finished { 0int } else { 1int },
        {
            let ghost i = self.pos();
            proof {
                lemma_next_token(s, i);
            }
            let token = self.tokenizer.next_token()?;
            let ghost p = self.pos();
            match token {
                Token::Eof => {
                    finished = true;
                },
                Token::Text(text) => {
                    if !is_blank(text.as_str()) {
                        let n = Node::text(text);
                        proof {
                            lemma_nodes_push(nodes@, n);
                        }
                        nodes.push(n);
                    }
                },
                Token::StartTag { name, attributes, self_closing } => {
                    if self_closing || is_void_element(name.as_str()) {
                        let empty: Vec<Node> = Vec::new();
                        proof {
                            assert(empty@ =~= Seq::<Node>::empty());
                        }
                        let n = Node::elem(name, attributes, empty);
                        proof {
                            lemma_nodes_push(nodes@, n);
                        }
                        nodes.push(n);
                    } else {
                        proof {
                            lemma_children_pos(s, p, name@, Seq::empty());
                        }
                        let children = self.parse_children(name.as_str())?;
                        let n = Node::elem(name, attributes, children);
                        proof {
                            lemma_nodes_push(nodes@, n);
                        }
                        nodes.push(n);
                    }
                },
                Token::EndTag { .. } => {
                    return Err(ParseError::MalformedTag("Unexpected end tag".to_string()));
                },
                Token::Doctype(_) | Token::Comment(_) => {},
            }
        }
        proof {
            lemma_nodes_dom(nodes@);
        }
        if nodes.len() == 1 {
            let node = nodes.pop().unwrap();
            Ok(node)
        } else {
            Ok(Node::elem("document".to_string(), StrMap::new(), nodes))
        }
    }

    fn parse_children(&mut self, parent_tag: &str) -> (r: Result<Vec<Node>, ParseError>)
        requires
            old(self).wf(),
        ensures
            final(self).wf(),
            final(self).chars() == old(self).chars(),
            (nodes_res(r), final(self).pos()) == element_children(old(self).chars(), old(self).pos(), parent_tag@, Seq::empty()),
            r matches Ok(v) ==> nodes_wf(v@),
        decreases old(self).chars().len() - old(self).pos(),
    {
        let mut children: Vec<Node> = Vec::new();
        let ghost s = self.chars();
        let ghost start = self.pos();
        let ghost target = element_children(s, self.pos(), parent_tag@, Seq::empty());
        while self.tokenizer.has_more_tokens()
            invariant
                self.wf(),
                self.chars() == s,
                s == old(self).chars(),
                start == old(self).pos(),
                target == element_children(old(self).chars(), old(self).pos(), parent_tag@, Seq::empty()),
                start <= self.pos() <= s.len(),
                nodes_wf(children@),
                element_children(s, self.pos(), parent_tag@, nodes_dom(children@)) == target,
            decreases s.len() - self.pos(),
        {
            let ghost i = self.pos();
            proof {
                lemma_next_token(s, i);
            }
            let token = self.tokenizer.next_token()?;
            let ghost p = self.pos();
            match token {
                Token::Eof => {
                    return Err(ParseError::MissingClosingTag(parent_tag.to_string()));
                },
                Token::Text(text) => {
                    if !is_blank(text.as_str()) {
                        let n = Node::text(text);
                        proof {
                            lemma_nodes_push(children@, n);
                        }
                        children.push(n);
                    }
                },
                Token::StartTag { name, attributes, self_closing } => {
                    if self_closing || is_void_element(name.as_str()) {
                        let empty: Vec<Node> = Vec::new();
                        proof {
                            assert(empty@ =~= Seq::<Node>::empty());
                        }
                        let n = Node::elem(name, attributes, empty);
                        proof {
                            lemma_nodes_push(children@, n);
                        }
                        children.push(n);
                    } else {
                        proof {
                            lemma_children_pos(s, p, name@, Seq::empty());
                        }
                        let grandchildren = self.parse_children(name.as_str())?;
                        let n = Node::elem(name, attributes, grandchildren);
                        proof {
                            lemma_nodes_push(children@, n);
                        }
                        children.push(n);
                    }
                },
                Token::EndTag { name } => {
                    if str_eq(name.as_str(), parent_tag) {
                        return Ok(children);
                    } else {
                        let mut message = "Expected closing tag for '".to_string();
                        message.append(parent_tag);
                        message.append("', found '");
                        message.append(name.as_str());
                        message.append("'");
                        return Err(ParseError::MalformedTag(message));
                    }
                },
                Token::Doctype(_) | Token::Comment(_) => {},
            }
        }
        Err(ParseError::MissingClosingTag(parent_tag.to_string()))
    }
}

/// Whether the name, in ASCII lowercase, is that of a void element (one with no end tag).
pub fn is_void_element(tag_name: &str) -> (b: bool)
    ensures
        b == is_void(tag_name@),
{
    let v = chars_of(tag_name);
    let mut lower: Vec<char> = Vec::new();
    for i in 0..v.len()
        invariant
            lower@ == v@.take(i as int).map_values(|c: char| ascii_lower(c)),
    {
        lower.push(to_ascii_lower(v[i]));
        assert(lower@ =~= v@.take(i + 1).map_values(|c: char| ascii_lower(c)));
    }
    assert(v@.take(v@.len() as int) =~= v@);
    let names = ["area", "base", "br", "col", "embed", "hr", "img", "input", "link", "meta", "param", "source", "track", "wbr"];
    let ghost l = lower@;
    let mut k: usize = 0;
    while k < 14
        invariant
            0 <= k <= 14,
            l == tag_name@.map_values(|c: char| ascii_lower(c)),
            l == lower@,
            names@ == seq!["area", "base", "br", "col", "embed", "hr", "img", "input", "link", "meta", "param", "source", "track", "wbr"],
            forall|j: int| 0 <= j < k ==> l != #[trigger] names@[j]@,
        decreases 14 - k,
    {
        let candidate = chars_of(names[k]);
        if candidate.len() == lower.len() && matches_at(&lower, 0, &candidate) {
            assert(lower@.subrange(0, candidate@.len() as int) =~= lower@);
            return true;
        }
        proof {
            if l == names@[k as int]@ {
                assert(lower@.subrange(0, candidate@.len() as int) =~= lower@);
            }
        }
        k += 1;
    }
    false
}

/// The text that describes a parse error.
pub open spec fn html_err_text(e: HtmlErr) -> Seq<char> {
    match e {
        HtmlErr::UnexpectedEof => "Unexpected end of input"@,
        HtmlErr::InvalidCharacter(c) => "Invalid character: '"@ + seq![c] + "'"@,
        HtmlErr::MalformedTag(t) => "Missing closing tag: '"@ + t + "'"@,
        HtmlErr::MissingClosingTag(t) => "Missingclosing tag: '"@ + t + "'"@,
        HtmlErr::InvalidAttribute(a) => "Invalid attribute: '"@ + a + "'"@,
    }
}

fn quoted(prefix: &str, detail: &str) -> (r: String)
    ensures
        r@ == prefix@ + detail@ + "'"@,
{
    let mut r = prefix.to_string();
    r.append(detail);
    r.append("'");
    r
}

impl ParseError {
    /// The text that describes the error.
    pub fn message(&self) -> (r: String)
        ensures
            r@ == html_err_text(self@),
    {
        match self {
            ParseError::UnexpectedEof => "Unexpected end of input".to_string(),
            ParseError::InvalidCharacter(c) => {
                let mut v = chars_of("Invalid character: '");
                v.push(*c);
                let mut r = string_of_range(&v, 0, v.len());
                r.append("'");
                assert(v@.subrange(0, v@.len() as int) =~= v@);
                r
            },
            ParseError::MalformedTag(t) => quoted("Missing closing tag: '", t.as_str()),
            ParseError::MissingClosingTag(t) => quoted("Missingclosing tag: '", t.as_str()),
            ParseError::InvalidAttribute(a) => quoted("Invalid attribute: '", a.as_str()),
        }
    }
}

/// A name the tokenizer reads whole: name characters (letters and digits as
/// `char::is_alphanumeric` has them, `-`, `_`), none of them whitespace, `!`, `/`, `<`, `>`,
/// `=` or a quote.
pub open spec fn plain_name(t: Seq<char>) -> bool {
    &&& t.len() > 0
    &&& forall|i: int|
        0 <= i < t.len() ==> in_class(CharClass::Name, #[trigger] t[i]) && !is_ws(t[i]) && t[i]
            != '!' && t[i] != '/' && t[i] != '<' && t[i] != '>' && t[i] != '=' && t[i] != '"'
            && t[i] != '\''
}

/// The start tag `<t>`.
pub open spec fn open_tag(t: Seq<char>) -> Seq<char> {
    seq!['<'] + t + seq!['>']
}

/// The end tag `</t>`.
pub open spec fn close_tag(t: Seq<char>) -> Seq<char> {
    seq!['<', '/'] + t + seq!['>']
}

/// The nodes that a text between tags becomes: its trimmed form, if anything is left.
pub open spec fn text_nodes(x: Seq<char>) -> Seq<DomNode> {
    if trim(x).len() > 0 {
        seq![DomNode::Text(trim(x))]
    } else {
        Seq::empty()
    }
}

/// A name read from `i` runs to its end where the character after it is no name character.
proof fn lemma_name_at(s: Seq<char>, i: int, t: Seq<char>)
    requires
        plain_name(t),
        0 <= i,
        i + t.len() < s.len(),
        s.subrange(i, i + t.len()) == t,
        !in_class(CharClass::Name, s[i + t.len()]),
    ensures
        tag_name_at(s, i) == (Ok::<Seq<char>, HtmlErr>(t), i + t.len()),
{
    assert forall|m: int| i <= m < i + t.len() implies in_class(CharClass::Name, #[trigger] s[m]) by {
        assert(s[m] == s.subrange(i, i + t.len())[m - i]);
    }
    crate::text::lemma_scan_run(s, i, i + t.len(), CharClass::Name);
}

/// The end tag `</t>` at `q` is read as one token.
#[verifier::spinoff_prover]
#[verifier::rlimit(50)]
proof fn lemma_end_tag(s: Seq<char>, q: int, t: Seq<char>)
    requires
        plain_name(t),
        0 <= q,
        q + t.len() + 3 <= s.len(),
        s.subrange(q, q + t.len() + 3) == close_tag(t),
    ensures
        next_token(s, q) == (Ok::<Tok, HtmlErr>(Tok::EndTag(t)), q + t.len() + 3),
{
    let c = close_tag(t);
    assert(s[q] == c[0]);
    assert(s[q + 1] == c[1]);
    assert(s[q + t.len() + 2] == c[t.len() as int + 2]);
    assert(s.subrange(q + 2, q + 2 + t.len()) =~= t) by {
        assert forall|m: int| 0 <= m < t.len() implies s.subrange(q + 2, q + 2 + t.len())[m] == t[m] by {
            assert(s[q + 2 + m] == c[m + 2]);
        }
    }
    crate::text::lemma_scan_run(s, q, q, CharClass::Space);
    lemma_name_at(s, q + 2, t);
    crate::text::lemma_scan_run(s, q + 2 + t.len(), q + 2 + t.len(), CharClass::Not('>'));
}

/// The start tag `<t>` at `i` is read as one token.
#[verifier::spinoff_prover]
#[verifier::rlimit(50)]
proof fn lemma_open_tag(s: Seq<char>, i: int, t: Seq<char>)
    requires
        plain_name(t),
        0 <= i,
        i + t.len() + 2 <= s.len(),
        s.subrange(i, i + t.len() + 2) == open_tag(t),
    ensures
        next_token(s, i) == (Ok::<Tok, HtmlErr>(Tok::StartTag(t, Map::empty(), false)), i + t.len()
            + 2),
{
    let o = open_tag(t);
    assert(s[i] == o[0]);
    assert(s[i + t.len() + 1] == o[t.len() as int + 1]);
    assert(s[i + 1] == o[1]);
    assert(o[1] == t[0]);
    assert(s.subrange(i + 1, i + 1 + t.len()) =~= t) by {
        assert forall|m: int| 0 <= m < t.len() implies s.subrange(i + 1, i + 1 + t.len())[m] == t[m] by {
            assert(s[i + 1 + m] == o[m + 1]);
        }
    }
    crate::text::lemma_scan_run(s, i, i, CharClass::Space);
    lemma_name_at(s, i + 1, t);
    let j = i + 1 + t.len();
    crate::text::lemma_scan_run(s, j, j, CharClass::Space);
    assert(attrs(s, j, Map::empty()) == (Ok::<Map<Seq<char>, Seq<char>>, HtmlErr>(Map::empty()), j));
    crate::text::lemma_scan_run(s, j, j, CharClass::Not('>'));
}

/// What trimming does to a text whose leading whitespace ends at `lead`.
proof fn lemma_trim_facts(x: Seq<char>)
    ensures
        scan(x, 0, CharClass::Space) == x.len() ==> trim(x).len() == 0,
        scan(x, 0, CharClass::Space) < x.len() ==> {
            &&& trim(x).len() > 0
            &&& trim(x.skip(scan(x, 0, CharClass::Space))) == trim(x)
            &&& trim(trim(x)) == trim(x)
        },
{
    let lead = scan(x, 0, CharClass::Space);
    lemma_scan(x, 0, CharClass::Space);
    let y = x.skip(lead);
    crate::text::lemma_trim_end_len(y);
    if lead == x.len() {
        assert(y =~= Seq::<char>::empty());
    } else {
        assert(y[0] == x[lead]);
        let n = crate::text::trim_end_len(y);
        assert(n > 0) by {
            if n == 0 {
                assert(is_ws(y[0]));
            }
        }
        let ty = y.take(n);
        assert(ty == trim(x));
        assert(scan(y, 0, CharClass::Space) == 0);
        assert(y.skip(0) =~= y);
        assert(trim(y) == ty);
        assert(ty[0] == y[0]);
        assert(ty[n - 1] == y[n - 1]);
        crate::text::lemma_trim_plain(ty);
    }
}

/// A text with no `<`, then the end tag `</t>`: the children get the trimmed text (if any)
/// and the element is closed.
#[verifier::spinoff_prover]
#[verifier::rlimit(50)]
proof fn lemma_text_then_close(s: Seq<char>, p: int, x: Seq<char>, t: Seq<char>, acc: Seq<DomNode>)
    requires
        plain_name(t),
        forall|m: int| 0 <= m < x.len() ==> #[trigger] x[m] != '<',
        0 <= p,
        p + x.len() + t.len() + 3 <= s.len(),
        s.subrange(p, p + x.len() + t.len() + 3) == x + close_tag(t),
    ensures
        element_children(s, p, t, acc) == (Ok::<Seq<DomNode>, HtmlErr>(acc + text_nodes(x)), p + x.len()
            + t.len() + 3),
{
    let q = p + x.len();
    let whole = x + close_tag(t);
    assert(s.subrange(q, q + t.len() + 3) =~= close_tag(t)) by {
        assert forall|m: int| 0 <= m < t.len() + 3 implies s.subrange(q, q + t.len() + 3)[m] == close_tag(t)[m] by {
            assert(s[q + m] == whole[x.len() + m]);
        }
    }
    lemma_end_tag(s, q, t);
    assert(s[q] == '<') by {
        assert(s[q] == whole[x.len() as int]);
    }
    assert forall|k: int| 0 <= k < x.len() implies s[p + k] == #[trigger] x[k] by {
        assert(s[p + k] == whole[k]);
    }
    let lead = scan(x, 0, CharClass::Space);
    lemma_scan(x, 0, CharClass::Space);
    lemma_trim_facts(x);
    let j = scan(s, p, CharClass::Space);
    assert forall|m: int| p <= m < p + lead implies in_class(CharClass::Space, #[trigger] s[m]) by {
        assert(s[m] == x[m - p]);
    }
    if lead == x.len() {
        crate::text::lemma_scan_run(s, p, q, CharClass::Space);
        assert(j == q);
        assert(next_token(s, p) == next_token(s, q));
        assert(text_nodes(x) =~= Seq::<DomNode>::empty());
        assert(acc + Seq::<DomNode>::empty() =~= acc);
    } else {
        assert(s[p + lead] == x[lead]);
        assert(x[lead] != '<');
        crate::text::lemma_scan_run(s, p, p + lead, CharClass::Space);
        assert(j == p + lead);
        assert forall|m: int| j <= m < q implies in_class(CharClass::Not('<'), #[trigger] s[m]) by {
            assert(s[m] == x[m - p]);
        }
        crate::text::lemma_scan_run(s, j, q, CharClass::Not('<'));
        assert(s.subrange(j, q) =~= x.skip(lead));
        assert(next_token(s, p) == (Ok::<Tok, HtmlErr>(Tok::Text(trim(x))), q));
        let acc2 = acc.push(DomNode::Text(trim(x)));
        assert(acc2 =~= acc + text_nodes(x));
        assert(element_children(s, q, t, acc2) == (Ok::<Seq<DomNode>, HtmlErr>(acc2), q + t.len() + 3));
    }
}

/// `<t>x</t>`, with `x` free of `<`, is one element named `t` that holds the trimmed text
/// (or nothing, if only whitespace was between the tags).
#[verifier::spinoff_prover]
#[verifier::rlimit(50)]
pub proof fn law_element_with_text(t: Seq<char>, x: Seq<char>)
    requires
        plain_name(t),
        !is_void(t),
        forall|m: int| 0 <= m < x.len() ==> #[trigger] x[m] != '<',
    ensures
        parse_document(open_tag(t) + x + close_tag(t), 0).0 == Ok::<DomNode, HtmlErr>(
            DomNode::Element(t, Map::empty(), text_nodes(x)),
        ),
{
    let s = open_tag(t) + x + close_tag(t);
    let p: int = t.len() as int + 2;
    assert(s.subrange(0, p) =~= open_tag(t));
    lemma_open_tag(s, 0, t);
    assert(s.subrange(p, s.len() as int) =~= x + close_tag(t));
    lemma_text_then_close(s, p, x, t, Seq::empty());
    assert(Seq::<DomNode>::empty() + text_nodes(x) =~= text_nodes(x));
    let node = DomNode::Element(t, Map::empty(), text_nodes(x));
    assert(top_nodes(s, s.len() as int, seq![node]) == (Ok::<Seq<DomNode>, HtmlErr>(seq![node]), s.len() as int));
    assert(Seq::<DomNode>::empty().push(node) =~= seq![node]);
    assert(top_nodes(s, 0, Seq::empty()) == (Ok::<Seq<DomNode>, HtmlErr>(seq![node]), s.len() as int));
}

/// `<o><i>x</i></o>` is an element named `o` whose one child is the element named `i` that
/// holds the text.
#[verifier::rlimit(40)]
#[verifier::spinoff_prover]
pub proof fn law_nested_elements(o: Seq<char>, i: Seq<char>, x: Seq<char>)
    requires
        plain_name(o),
        plain_name(i),
        !is_void(o),
        !is_void(i),
        forall|m: int| 0 <= m < x.len() ==> #[trigger] x[m] != '<',
    ensures
        parse_document(open_tag(o) + open_tag(i) + x + close_tag(i) + close_tag(o), 0).0 == Ok::<
            DomNode,
            HtmlErr,
        >(DomNode::Element(o, Map::empty(), seq![DomNode::Element(i, Map::empty(), text_nodes(x))])),
{
    let s = open_tag(o) + open_tag(i) + x + close_tag(i) + close_tag(o);
    let p0: int = o.len() as int + 2;
    let p1: int = p0 + i.len() + 2;
    let q1: int = p1 + x.len() + i.len() + 3;
    assert(s.subrange(0, p0) =~= open_tag(o));
    lemma_open_tag(s, 0, o);
    assert(s.subrange(p0, p1) =~= open_tag(i));
    lemma_open_tag(s, p0, i);
    assert(s.subrange(p1, q1) =~= x + close_tag(i));
    lemma_text_then_close(s, p1, x, i, Seq::empty());
    assert(s.subrange(q1, s.len() as int) =~= close_tag(o));
    lemma_end_tag(s, q1, o);
    assert(Seq::<DomNode>::empty() + text_nodes(x) =~= text_nodes(x));
    let inner = DomNode::Element(i, Map::empty(), text_nodes(x));
    assert(Seq::<DomNode>::empty().push(inner) =~= seq![inner]);
    assert(element_children(s, q1, o, seq![inner]) == (Ok::<Seq<DomNode>, HtmlErr>(seq![inner]), s.len() as int));
    assert(element_children(s, p0, o, Seq::empty()) == (Ok::<Seq<DomNode>, HtmlErr>(seq![inner]), s.len() as int));
    let node = DomNode::Element(o, Map::empty(), seq![inner]);
    assert(Seq::<DomNode>::empty().push(node) =~= seq![node]);
    assert(top_nodes(s, s.len() as int, seq![node]) == (Ok::<Seq<DomNode>, HtmlErr>(seq![node]), s.len() as int));
    assert(top_nodes(s, 0, Seq::empty()) == (Ok::<Seq<DomNode>, HtmlErr>(seq![node]), s.len() as int));
}

/// `<t>` followed by text with no `<` is refused: `t` is never closed.
#[verifier::spinoff_prover]
#[verifier::rlimit(50)]
pub proof fn law_unclosed_element(t: Seq<char>, x: Seq<char>)
    requires
        plain_name(t),
        !is_void(t),
        forall|m: int| 0 <= m < x.len() ==> #[trigger] x[m] != '<',
    ensures
        parse_document(open_tag(t) + x, 0).0 == Err::<DomNode, HtmlErr>(HtmlErr::MissingClosingTag(t)),
{
    let s = open_tag(t) + x;
    let p: int = t.len() as int + 2;
    assert(s.subrange(0, p) =~= open_tag(t));
    lemma_open_tag(s, 0, t);
    assert forall|k: int| 0 <= k < x.len() implies s[p + k] == #[trigger] x[k] by {}
    let ec = element_children(s, p, t, Seq::empty());
    if p < s.len() {
        let j = scan(s, p, CharClass::Space);
        lemma_scan(s, p, CharClass::Space);
        if j < s.len() {
            assert(s[j] == x[j - p]);
            assert forall|m: int| j <= m < s.len() implies in_class(CharClass::Not('<'), #[trigger] s[m]) by {
                assert(s[m] == x[m - p]);
            }
            crate::text::lemma_scan_run(s, j, s.len() as int, CharClass::Not('<'));
            let tt = trim(s.subrange(j, s.len() as int));
            let acc = if trim(tt).len() > 0 { seq![DomNode::Text(tt)] } else { Seq::<DomNode>::empty() };
            assert(element_children(s, s.len() as int, t, acc).0 == Err::<Seq<DomNode>, HtmlErr>(HtmlErr::MissingClosingTag(t)));
        }
        assert(ec.0 == Err::<Seq<DomNode>, HtmlErr>(HtmlErr::MissingClosingTag(t)));
    }
    assert(top_nodes(s, 0, Seq::empty()).0 == Err::<Seq<DomNode>, HtmlErr>(HtmlErr::MissingClosingTag(t)));
}

/// The text of attributes written ` k="v"`, one after the other.
pub open spec fn attr_text(pairs: Seq<(Seq<char>, Seq<char>)>) -> Seq<char>
    decreases pairs.len(),
{
    if pairs.len() == 0 {
        Seq::empty()
    } else {
        seq![' '] + pairs[0].0 + seq!['=', '"'] + pairs[0].1 + seq!['"'] + attr_text(pairs.drop_first())
    }
}

/// The map after the pairs are put in, in order.
pub open spec fn insert_all(acc: Map<Seq<char>, Seq<char>>, pairs: Seq<(Seq<char>, Seq<char>)>) -> Map<
    Seq<char>,
    Seq<char>,
>
    decreases pairs.len(),
{
    if pairs.len() == 0 {
        acc
    } else {
        insert_all(acc.insert(pairs[0].0, pairs[0].1), pairs.drop_first())
    }
}

/// Attribute names that are read whole and values that hold no `"`.
pub open spec fn plain_pairs(pairs: Seq<(Seq<char>, Seq<char>)>) -> bool {
    forall|i: int|
        0 <= i < pairs.len() ==> plain_name(#[trigger] pairs[i].0) && forall|m: int|
            0 <= m < pairs[i].1.len() ==> pairs[i].1[m] != '"'
}

#[verifier::spinoff_prover]
#[verifier::rlimit(50)]
proof fn lemma_attrs_run(
    s: Seq<char>,
    i: int,
    pairs: Seq<(Seq<char>, Seq<char>)>,
    acc: Map<Seq<char>, Seq<char>>,
)
    requires
        plain_pairs(pairs),
        0 <= i,
        i + attr_text(pairs).len() < s.len(),
        s.subrange(i, i + attr_text(pairs).len()) == attr_text(pairs),
        s[i + attr_text(pairs).len()] == '>',
    ensures
        attrs(s, i, acc) == (Ok::<Map<Seq<char>, Seq<char>>, HtmlErr>(insert_all(acc, pairs)), i
            + attr_text(pairs).len()),
    decreases pairs.len(),
{
    if pairs.len() == 0 {
        crate::text::lemma_scan_run(s, i, i, CharClass::Space);
    } else {
        let k = pairs[0].0;
        let v = pairs[0].1;
        let rest = pairs.drop_first();
        let a = attr_text(pairs);
        let head = seq![' '] + k + seq!['=', '"'] + v + seq!['"'];
        assert(a =~= head + attr_text(rest));
        assert(plain_name(k));
        assert forall|m: int| 0 <= m < a.len() implies s[i + m] == #[trigger] a[m] by {
            assert(s[i + m] == s.subrange(i, i + a.len())[m]);
        }
        let i1: int = i + 1;
        let i2: int = i1 + k.len();
        let i4: int = i2 + 1 + 1;
        let j: int = i4 + v.len();
        assert(s[i] == a[0]);
        assert(s[i1] == a[1]);
        assert(a[1] == k[0]);
        crate::text::lemma_scan_run(s, i, i1, CharClass::Space);
        assert(s.subrange(i1, i2) =~= k) by {
            assert forall|m: int| 0 <= m < k.len() implies s.subrange(i1, i2)[m] == k[m] by {
                assert(s[i1 + m] == a[1 + m]);
            }
        }
        assert(s[i2] == a[1 + k.len() as int]);
        lemma_name_at(s, i1, k);
        crate::text::lemma_scan_run(s, i2, i2, CharClass::Space);
        assert(s[i2 + 1] == a[2 + k.len() as int]);
        crate::text::lemma_scan_run(s, i2 + 1, i2 + 1, CharClass::Space);
        assert forall|m: int| i4 <= m < j implies in_class(CharClass::Not('"'), #[trigger] s[m]) by {
            assert(s[m] == a[m - i]);
            assert(a[m - i] == v[m - i4]);
            assert(pairs[0].1 == v);
        }
        assert(s[j] == a[j - i]);
        crate::text::lemma_scan_run(s, i4, j, CharClass::Not('"'));
        assert(s.subrange(i4, j) =~= v) by {
            assert forall|m: int| 0 <= m < v.len() implies s.subrange(i4, j)[m] == v[m] by {
                assert(s[i4 + m] == a[i4 - i + m]);
            }
        }
        assert(plain_pairs(rest)) by {
            assert forall|n: int| 0 <= n < rest.len() implies plain_name(#[trigger] rest[n].0) && forall|m: int|
                0 <= m < rest[n].1.len() ==> rest[n].1[m] != '"' by {
                assert(rest[n] == pairs[n + 1]);
            }
        }
        let ra = attr_text(rest);
        assert(s.subrange(j + 1, j + 1 + ra.len()) =~= ra) by {
            assert forall|m: int| 0 <= m < ra.len() implies s.subrange(j + 1, j + 1 + ra.len())[m] == ra[m] by {
                assert(s[j + 1 + m] == a[head.len() + m]);
            }
        }
        lemma_attrs_run(s, j + 1, rest, acc.insert(k, v));
    }
}

/// Each pair of distinct names is found in the map after all are put in.
proof fn lemma_insert_all(acc: Map<Seq<char>, Seq<char>>, pairs: Seq<(Seq<char>, Seq<char>)>, n: int)
    requires
        0 <= n < pairs.len(),
        forall|a: int, b: int| 0 <= a < b < pairs.len() ==> pairs[a].0 != pairs[b].0,
    ensures
        insert_all(acc, pairs).contains_key(pairs[n].0),
        insert_all(acc, pairs)[pairs[n].0] == pairs[n].1,
    decreases pairs.len(),
{
    let rest = pairs.drop_first();
    if n == 0 {
        lemma_insert_all_keeps(acc.insert(pairs[0].0, pairs[0].1), rest, pairs[0].0);
    } else {
        assert(rest[n - 1] == pairs[n]);
        lemma_insert_all(acc.insert(pairs[0].0, pairs[0].1), rest, n - 1);
    }
}

proof fn lemma_insert_all_keeps(acc: Map<Seq<char>, Seq<char>>, pairs: Seq<(Seq<char>, Seq<char>)>, k: Seq<char>)
    requires
        acc.contains_key(k),
        forall|a: int| 0 <= a < pairs.len() ==> #[trigger] pairs[a].0 != k,
    ensures
        insert_all(acc, pairs).contains_key(k),
        insert_all(acc, pairs)[k] == acc[k],
    decreases pairs.len(),
{
    if pairs.len() > 0 {
        let rest = pairs.drop_first();
        assert(pairs[0].0 != k);
        assert forall|a: int| 0 <= a < rest.len() implies #[trigger] rest[a].0 != k by {
            assert(rest[a] == pairs[a + 1]);
        }
        lemma_insert_all_keeps(acc.insert(pairs[0].0, pairs[0].1), rest, k);
    }
}

/// `<t k="v" ...>x</t>` is an element named `t` whose attributes are the pairs, put in in
/// order; where the names differ, each name has its value.
#[verifier::spinoff_prover]
#[verifier::rlimit(50)]
pub proof fn law_attributes_kept(t: Seq<char>, pairs: Seq<(Seq<char>, Seq<char>)>, x: Seq<char>)
    requires
        plain_name(t),
        plain_pairs(pairs),
        !is_void(t),
        forall|m: int| 0 <= m < x.len() ==> #[trigger] x[m] != '<',
    ensures
        parse_document(seq!['<'] + t + attr_text(pairs) + seq!['>'] + x + close_tag(t), 0).0 == Ok::<
            DomNode,
            HtmlErr,
        >(DomNode::Element(t, insert_all(Map::empty(), pairs), text_nodes(x))),
        (forall|a: int, b: int| 0 <= a < b < pairs.len() ==> pairs[a].0 != pairs[b].0) ==> forall|n: int|
            0 <= n < pairs.len() ==> insert_all(Map::empty(), pairs).contains_key(#[trigger] pairs[n].0)
                && insert_all(Map::empty(), pairs)[pairs[n].0] == pairs[n].1,
{
    let at = attr_text(pairs);
    let s = seq!['<'] + t + at + seq!['>'] + x + close_tag(t);
    let j: int = 1 + t.len() as int;
    let a: int = j + at.len();
    assert forall|m: int| 0 <= m < t.len() implies s[1 + m] == #[trigger] t[m] by {}
    assert(s[0] == '<');
    assert(s[1] == t[0]);
    assert(s.subrange(1, j) =~= t);
    assert(s.subrange(j, a) =~= at);
    assert(s[a] == '>');
    assert(!in_class(CharClass::Name, s[j])) by {
        if pairs.len() > 0 {
            assert(at[0] == ' ');
            assert(s[j] == at[0]);
        }
    }
    crate::text::lemma_scan_run(s, 0, 0, CharClass::Space);
    lemma_name_at(s, 1, t);
    lemma_attrs_run(s, j, pairs, Map::empty());
    crate::text::lemma_scan_run(s, a, a, CharClass::Not('>'));
    let m = insert_all(Map::empty(), pairs);
    assert(next_token(s, 0) == (Ok::<Tok, HtmlErr>(Tok::StartTag(t, m, false)), a + 1));
    assert(s.subrange(a + 1, s.len() as int) =~= x + close_tag(t));
    lemma_text_then_close(s, a + 1, x, t, Seq::empty());
    assert(Seq::<DomNode>::empty() + text_nodes(x) =~= text_nodes(x));
    let node = DomNode::Element(t, m, text_nodes(x));
    assert(Seq::<DomNode>::empty().push(node) =~= seq![node]);
    assert(top_nodes(s, s.len() as int, seq![node]) == (Ok::<Seq<DomNode>, HtmlErr>(seq![node]), s.len() as int));
    assert(top_nodes(s, 0, Seq::empty()) == (Ok::<Seq<DomNode>, HtmlErr>(seq![node]), s.len() as int));
    if forall|a: int, b: int| 0 <= a < b < pairs.len() ==> pairs[a].0 != pairs[b].0 {
        assert forall|n: int| 0 <= n < pairs.len() implies insert_all(Map::empty(), pairs).contains_key(
            #[trigger] pairs[n].0,
        ) && insert_all(Map::empty(), pairs)[pairs[n].0] == pairs[n].1 by {
            lemma_insert_all(Map::empty(), pairs, n);
        }
    }
}

/// The void elements are `area`, `base`, `br`, `col`, `embed`, `hr`, `img`, `input`, `link`,
/// `meta`, `param`, `source`, `track` and `wbr`, in any ASCII case.
pub proof fn law_void_element_names(n: Seq<char>)
    ensures
        n.map_values(|c: char| ascii_lower(c)) == "area"@ ==> is_void(n),
        n.map_values(|c: char| ascii_lower(c)) == "base"@ ==> is_void(n),
        n.map_values(|c: char| ascii_lower(c)) == "br"@ ==> is_void(n),
        n.map_values(|c: char| ascii_lower(c)) == "col"@ ==> is_void(n),
        n.map_values(|c: char| ascii_lower(c)) == "embed"@ ==> is_void(n),
        n.map_values(|c: char| ascii_lower(c)) == "hr"@ ==> is_void(n),
        n.map_values(|c: char| ascii_lower(c)) == "img"@ ==> is_void(n),
        n.map_values(|c: char| ascii_lower(c)) == "input"@ ==> is_void(n),
        n.map_values(|c: char| ascii_lower(c)) == "link"@ ==> is_void(n),
        n.map_values(|c: char| ascii_lower(c)) == "meta"@ ==> is_void(n),
        n.map_values(|c: char| ascii_lower(c)) == "param"@ ==> is_void(n),
        n.map_values(|c: char| ascii_lower(c)) == "source"@ ==> is_void(n),
        n.map_values(|c: char| ascii_lower(c)) == "track"@ ==> is_void(n),
        n.map_values(|c: char| ascii_lower(c)) == "wbr"@ ==> is_void(n),
{
}

/// A void element needs no end tag: `<o><v></o>`, with `v` void, is the element `o` whose one
/// child is the empty element `v`.
#[verifier::spinoff_prover]
#[verifier::rlimit(50)]
pub proof fn law_void_element_closes_itself(o: Seq<char>, v: Seq<char>)
    requires
        plain_name(o),
        plain_name(v),
        !is_void(o),
        is_void(v),
    ensures
        parse_document(open_tag(o) + open_tag(v) + close_tag(o), 0).0 == Ok::<DomNode, HtmlErr>(
            DomNode::Element(o, Map::empty(), seq![DomNode::Element(v, Map::empty(), Seq::empty())]),
        ),
{
    let s = open_tag(o) + open_tag(v) + close_tag(o);
    let p0: int = o.len() as int + 2;
    let p1: int = p0 + v.len() + 2;
    assert(s.subrange(0, p0) =~= open_tag(o));
    lemma_open_tag(s, 0, o);
    assert(s.subrange(p0, p1) =~= open_tag(v));
    lemma_open_tag(s, p0, v);
    assert(s.subrange(p1, s.len() as int) =~= close_tag(o));
    lemma_end_tag(s, p1, o);
    let inner = DomNode::Element(v, Map::empty(), Seq::empty());
    assert(Seq::<DomNode>::empty().push(inner) =~= seq![inner]);
    assert(element_children(s, p1, o, seq![inner]) == (Ok::<Seq<DomNode>, HtmlErr>(seq![inner]), s.len() as int));
    assert(element_children(s, p0, o, Seq::empty()) == (Ok::<Seq<DomNode>, HtmlErr>(seq![inner]), s.len() as int));
    let node = DomNode::Element(o, Map::empty(), seq![inner]);
    assert(Seq::<DomNode>::empty().push(node) =~= seq![node]);
    assert(top_nodes(s, s.len() as int, seq![node]) == (Ok::<Seq<DomNode>, HtmlErr>(seq![node]), s.len() as int));
    assert(top_nodes(s, 0, Seq::empty()) == (Ok::<Seq<DomNode>, HtmlErr>(seq![node]), s.len() as int));
}

} // verus!
