use vstd::prelude::*;
use crate::text::{
    CharClass, alpha_char, chars_of, float_syntax, float_syntax_of, is_alphabetic, lemma_scan,
    lower_text, scan, scan_chars, str_eq, string_of, string_of_range, sub_vec, to_lowercase, trim,
    trim_range,
};

verus! {

broadcast use vstd::string::group_string_axioms;

#[derive(Debug, Clone, PartialEq)]
pub enum ParseError {
    UnexpectedEof,
    InvalidCharacter(char),
    MissingClosingBracket,
}

#[derive(Debug, Clone, PartialEq)]
pub enum Selector {
    Simple(SimpleSelector),
}

/// (ids, classes, tag names): compared from the left.
pub type Specificity = (usize, usize, usize);

#[derive(Debug, Clone, PartialEq)]
pub struct SimpleSelector {
    pub tag_name: Option<String>,
    pub id: Option<String>,
    pub class: Vec<String>,
}

/// A simple selector as a mathematical value.
pub struct Sel {
    pub tag_name: Option<Seq<char>>,
    pub id: Option<Seq<char>>,
    pub class: Seq<Seq<char>>,
}

pub open spec fn opt_view(o: Option<String>) -> Option<Seq<char>> {
    match o {
        Some(s) => Some(s@),
        None => None,
    }
}

pub open spec fn strings_view(v: Seq<String>) -> Seq<Seq<char>> {
    v.map_values(|s: String| s@)
}

impl View for SimpleSelector {
    type V = Sel;

    open spec fn view(&self) -> Sel {
        Sel { tag_name: opt_view(self.tag_name), id: opt_view(self.id), class: strings_view(self.class@) }
    }
}

impl View for Selector {
    type V = Sel;

    open spec fn view(&self) -> Sel {
        match self {
            Selector::Simple(s) => s@,
        }
    }
}

/// The specificity of a selector: one for an id, one per class, one for a tag name.
pub open spec fn sel_specificity(s: Sel) -> (int, int, int) {
    (if s.id is Some { 1int } else { 0int }, s.class.len() as int, if s.tag_name is Some { 1int } else { 0int })
}

impl SimpleSelector {
    pub fn specificity(&self) -> (r: Specificity)
        ensures
            (r.0 as int, r.1 as int, r.2 as int) == sel_specificity(self@),
    {
        let a: usize = if self.id.is_some() { 1 } else { 0 };
        let b = self.class.len();
        let c: usize = if self.tag_name.is_some() { 1 } else { 0 };
        (a, b, c)
    }
}

impl Selector {
    pub fn specificity(&self) -> (r: Specificity)
        ensures
            (r.0 as int, r.1 as int, r.2 as int) == sel_specificity(self@),
    {
        match self {
            Selector::Simple(s) => s.specificity(),
        }
    }
}

#[derive(Debug, Clone, PartialEq)]
pub enum Unit {
    Px,
    Em,
    Percent,
}

#[derive(Debug, Clone, PartialEq)]
pub struct Color {
    pub r: u8,
    pub g: u8,
    pub b: u8,
    pub a: u8,
}

/// A declared value. `Length` holds the number as written before the unit suffix: a text that
/// `f32::from_str` accepts (see `float_syntax`), which the code that lays pages out reads as a
/// number. A value whose text before the suffix is no such number is a keyword.
#[derive(Debug, Clone, PartialEq)]
pub enum Value {
    Keyword(String),
    Length(String, Unit),
    ColorValue(Color),
}

/// A declared value as a mathematical value.
pub enum Val {
    Keyword(Seq<char>),
    Length(Seq<char>, Unit),
    ColorValue(Color),
}

impl View for Value {
    type V = Val;

    open spec fn view(&self) -> Val {
        match self {
            Value::Keyword(s) => Val::Keyword(s@),
            Value::Length(s, u) => Val::Length(s@, *u),
            Value::ColorValue(c) => Val::ColorValue(*c),
        }
    }
}

#[derive(Debug, Clone, PartialEq)]
pub struct Declaration {
    pub name: String,
    pub value: Value,
}

pub struct Decl {
    pub name: Seq<char>,
    pub value: Val,
}

impl View for Declaration {
    type V = Decl;

    open spec fn view(&self) -> Decl {
        Decl { name: self.name@, value: self.value@ }
    }
}

#[derive(Debug, Clone, PartialEq)]
pub struct Rule {
    pub selectors: Vec<Selector>,
    pub declarations: Vec<Declaration>,
}

pub struct RuleView {
    pub selectors: Seq<Sel>,
    pub declarations: Seq<Decl>,
}

impl View for Rule {
    type V = RuleView;

    open spec fn view(&self) -> RuleView {
        RuleView {
            selectors: self.selectors@.map_values(|s: Selector| s@),
            declarations: self.declarations@.map_values(|d: Declaration| d@),
        }
    }
}

#[derive(Debug)]
pub struct Stylesheet {
    pub rules: Vec<Rule>,
}

impl View for Stylesheet {
    type V = Seq<RuleView>;

    open spec fn view(&self) -> Seq<RuleView> {
        self.rules@.map_values(|r: Rule| r@)
    }
}

impl View for ParseError {
    type V = ParseError;

    open spec fn view(&self) -> ParseError {
        *self
    }
}

// ---------------------------------------------------------------------------------------------
// The grammar, as functions from the input and an index to what is read and the index after it.

pub type Step<T> = (Result<T, ParseError>, int);

pub open spec fn cur(s: Seq<char>, i: int) -> Result<char, ParseError> {
    if 0 <= i < s.len() {
        Ok(s[i])
    } else {
        Err(ParseError::UnexpectedEof)
    }
}

/// Reading `expected` at `i`.
pub open spec fn expect(s: Seq<char>, i: int, expected: char) -> Step<()> {
    match cur(s, i) {
        Ok(c) => if c == expected {
            (Ok(()), i + 1)
        } else {
            (Err(ParseError::InvalidCharacter(c)), i)
        },
        Err(_) => (Err(ParseError::UnexpectedEof), i),
    }
}

pub open spec fn empty_sel() -> Sel {
    Sel { tag_name: None, id: None, class: Seq::empty() }
}

/// A simple selector from `i`: `#id`, `.class` and tag-name parts in any order, added to `acc`.
pub open spec fn simple_selector(s: Seq<char>, i: int, acc: Sel) -> Step<Sel>
    decreases s.len() - i,
{
    if !(0 <= i < s.len()) {
        (Err(ParseError::UnexpectedEof), i)
    } else {
        let c = s[i];
        proof {
            lemma_scan(s, i + 1, CharClass::Name);
            lemma_scan(s, i, CharClass::Hyphenated);
        }
        if c == '#' {
            let j = scan(s, i + 1, CharClass::Name);
            if j == i + 1 {
                (Err(ParseError::InvalidCharacter('#')), j)
            } else {
                simple_selector(s, j, Sel { id: Some(s.subrange(i + 1, j)), ..acc })
            }
        } else if c == '.' {
            let j = scan(s, i + 1, CharClass::Name);
            if j == i + 1 {
                (Err(ParseError::InvalidCharacter('.')), j)
            } else {
                simple_selector(s, j, Sel { class: acc.class.push(s.subrange(i + 1, j)), ..acc })
            }
        } else if alpha_char(c) {
            let j = scan(s, i, CharClass::Hyphenated);
            if j == i {
                (Err(ParseError::InvalidCharacter(c)), j)
            } else {
                simple_selector(s, j, Sel { tag_name: Some(s.subrange(i, j)), ..acc })
            }
        } else if acc.tag_name is None && acc.id is None && acc.class.len() == 0 {
            (Err(ParseError::InvalidCharacter(c)), i)
        } else {
            (Ok(acc), i)
        }
    }
}

pub proof fn lemma_simple_selector(s: Seq<char>, i: int, acc: Sel)
    requires
        0 <= i <= s.len(),
    ensures
        i <= simple_selector(s, i, acc).1 <= s.len(),
        simple_selector(s, i, acc).0 is Ok ==> simple_selector(s, i, acc).1 < s.len(),
    decreases s.len() - i,
{
    if i < s.len() {
        let c = s[i];
        lemma_scan(s, i + 1, CharClass::Name);
        lemma_scan(s, i, CharClass::Hyphenated);
        if c == '#' {
            let j = scan(s, i + 1, CharClass::Name);
            if j != i + 1 {
                lemma_simple_selector(s, j, Sel { id: Some(s.subrange(i + 1, j)), ..acc });
            }
        } else if c == '.' {
            let j = scan(s, i + 1, CharClass::Name);
            if j != i + 1 {
                lemma_simple_selector(s, j, Sel { class: acc.class.push(s.subrange(i + 1, j)), ..acc });
            }
        } else if alpha_char(c) {
            let j = scan(s, i, CharClass::Hyphenated);
            if j != i {
                lemma_simple_selector(s, j, Sel { tag_name: Some(s.subrange(i, j)), ..acc });
            }
        }
    }
}

/// A comma-separated list of selectors from `i`, added to `acc`; it ends before a `{`.
pub open spec fn selector_list(s: Seq<char>, i: int, acc: Seq<Sel>) -> Step<Seq<Sel>>
    decreases s.len() - i,
{
    if !(0 <= i <= s.len()) {
        (Err(ParseError::UnexpectedEof), i)
    } else {
        let i1 = scan(s, i, CharClass::Space);
        proof {
            lemma_scan(s, i, CharClass::Space);
            lemma_simple_selector(s, i1, empty_sel());
        }
        match simple_selector(s, i1, empty_sel()) {
            (Err(e), j) => (Err(e), j),
            (Ok(sel), j) => {
                let i2 = scan(s, j, CharClass::Space);
                proof {
                    lemma_scan(s, j, CharClass::Space);
                }
                match cur(s, i2) {
                    Err(e) => (Err(e), i2),
                    Ok(c) => if c == ',' {
                        let i3 = scan(s, i2 + 1, CharClass::Space);
                        proof {
                            lemma_scan(s, i2 + 1, CharClass::Space);
                        }
                        selector_list(s, i3, acc.push(sel))
                    } else if c == '{' {
                        (Ok(acc.push(sel)), i2)
                    } else {
                        (Err(ParseError::InvalidCharacter(c)), i2)
                    },
                }
            },
        }
    }
}

/// The color that a (lowercase) name stands for.
pub open spec fn color_named(l: Seq<char>) -> Option<Color> {
    if l == "red"@ {
        Some(Color { r: 255, g: 0, b: 0, a: 255 })
    } else if l == "green"@ {
        Some(Color { r: 0, g: 255, b: 0, a: 255 })
    } else if l == "blue"@ {
        Some(Color { r: 0, g: 0, b: 255, a: 255 })
    } else if l == "black"@ {
        Some(Color { r: 0, g: 0, b: 0, a: 255 })
    } else if l == "white"@ {
        Some(Color { r: 255, g: 255, b: 255, a: 255 })
    } else {
        None
    }
}

pub open spec fn ends_with(t: Seq<char>, suffix: Seq<char>) -> bool {
    suffix.len() <= t.len() && t.subrange(t.len() - suffix.len(), t.len() as int) == suffix
}

/// What a (trimmed, non-empty) value text declares: a length where it ends in a unit, a color
/// where its lowercase names one, a keyword otherwise.
pub open spec fn classify_value(t: Seq<char>) -> Val {
    match length_of(t) {
        Some(v) => v,
        None => match color_named(lower_text(t)) {
            Some(c) => Val::ColorValue(c),
            None => Val::Keyword(t),
        },
    }
}

/// A value from `i`: the text up to `;` or `}`, trimmed.
pub open spec fn value_at(s: Seq<char>, i: int) -> Step<Val> {
    let i1 = scan(s, i, CharClass::Space);
    let j = scan(s, i1, CharClass::Declared);
    let t = trim(s.subrange(i1, j));
    if t.len() == 0 {
        match cur(s, j) {
            Ok(c) => (Err(ParseError::InvalidCharacter(c)), j),
            Err(e) => (Err(e), j),
        }
    } else {
        (Ok(classify_value(t)), j)
    }
}

/// `name: value;` declarations from `i`, added to `acc`, up to a `}`.
pub open spec fn declaration_list(s: Seq<char>, i: int, acc: Seq<Decl>) -> Step<Seq<Decl>>
    decreases s.len() - i,
{
    if !(0 <= i <= s.len()) {
        (Err(ParseError::UnexpectedEof), i)
    } else {
        let i1 = scan(s, i, CharClass::Space);
        proof {
            lemma_scan(s, i, CharClass::Space);
        }
        match cur(s, i1) {
            Err(e) => (Err(e), i1),
            Ok(c) => if c == '}' {
                (Ok(acc), i1)
            } else {
                let j = scan(s, i1, CharClass::Hyphenated);
                proof {
                    lemma_scan(s, i1, CharClass::Hyphenated);
                }
                if j == i1 {
                    (Err(ParseError::InvalidCharacter(c)), j)
                } else {
                    let j2 = scan(s, j, CharClass::Space);
                    proof {
                        lemma_scan(s, j, CharClass::Space);
                    }
                    match expect(s, j2, ':') {
                        (Err(e), p) => (Err(e), p),
                        (Ok(_), j3) => {
                            let j4 = scan(s, j3, CharClass::Space);
                            proof {
                                lemma_scan(s, j3, CharClass::Space);
                                lemma_scan(s, j4, CharClass::Space);
                                lemma_scan(s, scan(s, j4, CharClass::Space), CharClass::Declared);
                            }
                            match value_at(s, j4) {
                                (Err(e), p) => (Err(e), p),
                                (Ok(v), j5) => {
                                    let j6 = scan(s, j5, CharClass::Space);
                                    proof {
                                        lemma_scan(s, j5, CharClass::Space);
                                    }
                                    match expect(s, j6, ';') {
                                        (Err(e), p) => (Err(e), p),
                                        (Ok(_), j7) => declaration_list(s, j7, acc.push(Decl { name: s.subrange(i1, j), value: v })),
                                    }
                                },
                            }
                        },
                    }
                }
            },
        }
    }
}

pub proof fn lemma_selectors(s: Seq<char>, i: int, acc: Seq<Sel>)
    requires
        0 <= i <= s.len(),
    ensures
        i <= selector_list(s, i, acc).1 <= s.len(),
        selector_list(s, i, acc).0 is Ok ==> selector_list(s, i, acc).1 < s.len() && s[selector_list(s, i, acc).1] == '{',
    decreases s.len() - i,
{
    let i1 = scan(s, i, CharClass::Space);
    lemma_scan(s, i, CharClass::Space);
    lemma_simple_selector(s, i1, empty_sel());
    if let (Ok(sel), j) = simple_selector(s, i1, empty_sel()) {
        let i2 = scan(s, j, CharClass::Space);
        lemma_scan(s, j, CharClass::Space);
        if 0 <= i2 < s.len() && s[i2] == ',' {
            lemma_scan(s, i2 + 1, CharClass::Space);
            lemma_selectors(s, scan(s, i2 + 1, CharClass::Space), acc.push(sel));
        }
    }
}

pub proof fn lemma_declarations(s: Seq<char>, i: int, acc: Seq<Decl>)
    requires
        0 <= i <= s.len(),
    ensures
        i <= declaration_list(s, i, acc).1 <= s.len(),
        declaration_list(s, i, acc).0 is Ok ==> declaration_list(s, i, acc).1 < s.len() && s[declaration_list(s, i, acc).1] == '}',
    decreases s.len() - i,
{
    let i1 = scan(s, i, CharClass::Space);
    lemma_scan(s, i, CharClass::Space);
    if 0 <= i1 < s.len() && s[i1] != '}' {
        let j = scan(s, i1, CharClass::Hyphenated);
        lemma_scan(s, i1, CharClass::Hyphenated);
        if j != i1 {
            let j2 = scan(s, j, CharClass::Space);
            lemma_scan(s, j, CharClass::Space);
            if let (Ok(_), j3) = expect(s, j2, ':') {
                let j4 = scan(s, j3, CharClass::Space);
                lemma_scan(s, j3, CharClass::Space);
                lemma_scan(s, j4, CharClass::Space);
                lemma_scan(s, scan(s, j4, CharClass::Space), CharClass::Declared);
                if let (Ok(v), j5) = value_at(s, j4) {
                    let j6 = scan(s, j5, CharClass::Space);
                    lemma_scan(s, j5, CharClass::Space);
                    if let (Ok(_), j7) = expect(s, j6, ';') {
                        lemma_declarations(s, j7, acc.push(Decl { name: s.subrange(i1, j), value: v }));
                    }
                }
            }
        }
    }
}

/// A rule from `i`: selectors, then `{`, declarations and `}`.
pub open spec fn rule_at(s: Seq<char>, i: int) -> Step<RuleView> {
    match selector_list(s, i, Seq::empty()) {
        (Err(e), j) => (Err(e), j),
        (Ok(sels), j) => match expect(s, j, '{') {
            (Err(e), p) => (Err(e), p),
            (Ok(_), j1) => match declaration_list(s, j1, Seq::empty()) {
                (Err(e), k) => (Err(e), k),
                (Ok(decls), k) => match expect(s, k, '}') {
                    (Err(e), p) => (Err(e), p),
                    (Ok(_), k1) => (Ok(RuleView { selectors: sels, declarations: decls }), k1),
                },
            },
        },
    }
}

pub proof fn lemma_rule_at(s: Seq<char>, i: int)
    requires
        0 <= i <= s.len(),
    ensures
        i <= rule_at(s, i).1 <= s.len(),
        rule_at(s, i).0 is Ok ==> rule_at(s, i).1 > i,
{
    lemma_selectors(s, i, Seq::empty());
    if let (Ok(sels), j) = selector_list(s, i, Seq::empty()) {
        lemma_declarations(s, j + 1, Seq::empty());
    }
}

/// The rules of a stylesheet from `i`, added to `acc`.
pub open spec fn rules_from(s: Seq<char>, i: int, acc: Seq<RuleView>) -> Step<Seq<RuleView>>
    decreases s.len() - i,
{
    if !(0 <= i <= s.len()) {
        (Err(ParseError::UnexpectedEof), i)
    } else {
        let i1 = scan(s, i, CharClass::Space);
        proof {
            lemma_scan(s, i, CharClass::Space);
            lemma_rule_at(s, i1);
        }
        if i1 >= s.len() {
            (Ok(acc), i1)
        } else {
            match rule_at(s, i1) {
                (Err(e), j) => (Err(e), j),
                (Ok(r), j) => rules_from(s, j, acc.push(r)),
            }
        }
    }
}


/// `try_parse_length`: a length where the value is a number followed by a unit.
pub open spec fn length_of(t: Seq<char>) -> Option<Val> {
    if ends_with(t, "px"@) {
        let n = t.subrange(0, t.len() - 2);
        if float_syntax(n) { Some(Val::Length(n, Unit::Px)) } else { None }
    } else if ends_with(t, "em"@) {
        let n = t.subrange(0, t.len() - 2);
        if float_syntax(n) { Some(Val::Length(n, Unit::Em)) } else { None }
    } else if ends_with(t, "%"@) {
        let n = t.subrange(0, t.len() - 1);
        if float_syntax(n) { Some(Val::Length(n, Unit::Percent)) } else { None }
    } else {
        None
    }
}

pub open spec fn opt_val(o: Option<Value>) -> Option<Val> {
    match o {
        Some(v) => Some(v@),
        None => None,
    }
}

pub open spec fn step_view<T: View>(r: Result<T, ParseError>) -> Result<T::V, ParseError> {
    match r {
        Ok(t) => Ok(t@),
        Err(e) => Err(e),
    }
}

pub open spec fn sels_view(v: Seq<Selector>) -> Seq<Sel> {
    v.map_values(|s: Selector| s@)
}

pub open spec fn decls_view(v: Seq<Declaration>) -> Seq<Decl> {
    v.map_values(|d: Declaration| d@)
}

pub open spec fn rules_view(v: Seq<Rule>) -> Seq<RuleView> {
    v.map_values(|r: Rule| r@)
}

pub proof fn lemma_scan_twice(s: Seq<char>, i: int, k: CharClass)
    requires
        0 <= i <= s.len(),
    ensures
        scan(s, scan(s, i, k), k) == scan(s, i, k),
{
    lemma_scan(s, i, k);
}

#[derive(Debug)]
pub struct CssTokenizer {
    input: Vec<char>,
    position: usize,
}

impl CssTokenizer {
    /// The characters of the input.
    pub closed spec fn chars(&self) -> Seq<char> {
        self.input@
    }

    /// The index of the next character to read.
    pub closed spec fn pos(&self) -> int {
        self.position as int
    }

    pub closed spec fn wf(&self) -> bool {
        self.position <= self.input@.len()
    }

    pub fn new(input: String) -> (t: Self)
        ensures
            t.wf(),
            t.chars() == input@,
            t.pos() == 0,
    {
        CssTokenizer { input: chars_of(input.as_str()), position: 0 }
    }

    /// Reads the rules up to the end of the input; see `rules_from`.
    pub fn parse(&mut self) -> (r: Result<Stylesheet, ParseError>)
        requires
            old(self).wf(),
        ensures
            final(self).wf(),
            final(self).chars() == old(self).chars(),
            (step_view(r), final(self).pos()) == rules_from(old(self).chars(), old(self).pos(), Seq::empty()),
    {
        let mut rules: Vec<Rule> = Vec::new();
        let ghost s = self.chars();
        let ghost target = rules_from(s, self.pos(), Seq::empty());
        assert(rules_view(rules@) =~= Seq::<RuleView>::empty());
        loop
            invariant
                self.wf(),
                self.chars() == s,
                s == old(self).chars(),
                target == rules_from(old(self).chars(), old(self).pos(), Seq::empty()),
                rules_from(s, self.pos(), rules_view(rules@)) == target,
            decreases s.len() - self.pos(),
        {
            let ghost i = self.pos();
            proof {
                lemma_scan(s, i, CharClass::Space);
                lemma_rule_at(s, scan(s, i, CharClass::Space));
            }
            if !self.skip_whitespace() {
                return Ok(Stylesheet { rules });
            }
            let rule = self.parse_rule()?;
            proof {
                assert(rules_view(rules@.push(rule)) =~= rules_view(rules@).push(rule@));
            }
            rules.push(rule);
        }
    }

    fn parse_rule(&mut self) -> (r: Result<Rule, ParseError>)
        requires
            old(self).wf(),
        ensures
            final(self).wf(),
            final(self).chars() == old(self).chars(),
            (step_view(r), final(self).pos()) == rule_at(old(self).chars(), old(self).pos()),
    {
        let ghost s = self.chars();
        proof {
            lemma_selectors(s, self.pos(), Seq::empty());
        }
        let selectors = self.parse_selectors()?;
        self.expect_char('{')?;
        proof {
            lemma_declarations(s, self.pos(), Seq::empty());
        }
        let declarations = self.parse_declarations()?;
        self.expect_char('}')?;
        Ok(Rule { selectors, declarations })
    }

    fn parse_selectors(&mut self) -> (r: Result<Vec<Selector>, ParseError>)
        requires
            old(self).wf(),
        ensures
            final(self).wf(),
            final(self).chars() == old(self).chars(),
            (match r {
                Ok(v) => Ok(sels_view(v@)),
                Err(e) => Err(e),
            }, final(self).pos()) == selector_list(old(self).chars(), old(self).pos(), Seq::empty()),
    {
        let mut selectors: Vec<Selector> = Vec::new();
        let ghost s = self.chars();
        let ghost target = selector_list(s, self.pos(), Seq::empty());
        assert(sels_view(selectors@) =~= Seq::<Sel>::empty());
        loop
            invariant
                self.wf(),
                self.chars() == s,
                s == old(self).chars(),
                target == selector_list(old(self).chars(), old(self).pos(), Seq::empty()),
                selector_list(s, self.pos(), sels_view(selectors@)) == target,
            decreases s.len() - self.pos(),
        {
            let ghost i = self.pos();
            proof {
                lemma_scan(s, i, CharClass::Space);
                lemma_simple_selector(s, scan(s, i, CharClass::Space), empty_sel());
            }
            self.skip_whitespace();
            let selector = self.parse_simple_selector()?;
            proof {
                assert(sels_view(selectors@.push(Selector::Simple(selector))) =~= sels_view(selectors@).push(selector@));
            }
            selectors.push(Selector::Simple(selector));
            let ghost j = self.pos();
            proof {
                lemma_scan(s, j, CharClass::Space);
            }
            self.skip_whitespace();
            match self.current_char()? {
                ',' => {
                    assert(self.position < self.input.len());
                self.position += 1;
                    proof {
                        lemma_scan_twice(s, self.pos(), CharClass::Space);
                        lemma_scan(s, self.pos(), CharClass::Space);
                    }
                    self.skip_whitespace();
                },
                '{' => {
                    return Ok(selectors);
                },
                c => {
                    return Err(ParseError::InvalidCharacter(c));
                },
            }
        }
    }

    fn parse_simple_selector(&mut self) -> (r: Result<SimpleSelector, ParseError>)
        requires
            old(self).wf(),
        ensures
            final(self).wf(),
            final(self).chars() == old(self).chars(),
            (step_view(r), final(self).pos()) == simple_selector(old(self).chars(), old(self).pos(), empty_sel()),
    {
        let mut tag_name: Option<String> = None;
        let mut id: Option<String> = None;
        let mut class: Vec<String> = Vec::new();
        let ghost s = self.chars();
        let ghost target = simple_selector(s, self.pos(), empty_sel());
        proof {
            assert(strings_view(class@) =~= Seq::<Seq<char>>::empty());
        }
        loop
            invariant
                self.wf(),
                self.chars() == s,
                s == old(self).chars(),
                target == simple_selector(old(self).chars(), old(self).pos(), empty_sel()),
                simple_selector(s, self.pos(), Sel { tag_name: opt_view(tag_name), id: opt_view(id), class: strings_view(class@) }) == target,
            decreases s.len() - self.pos(),
        {
            let ghost i = self.pos();
            proof {
                if i + 1 <= s.len() {
                    lemma_scan(s, i + 1, CharClass::Name);
                }
                lemma_scan(s, i, CharClass::Hyphenated);
            }
            let c = self.current_char()?;
            if c == '#' {
                assert(self.position < self.input.len());
                self.position += 1;
                let start = self.position;
                let id_name = self.consume_while(CharClass::Name);
                if self.position == start {
                    return Err(ParseError::InvalidCharacter('#'));
                }
                id = Some(id_name);
            } else if c == '.' {
                assert(self.position < self.input.len());
                self.position += 1;
                let start = self.position;
                let class_name = self.consume_while(CharClass::Name);
                if self.position == start {
                    return Err(ParseError::InvalidCharacter('.'));
                }
                proof {
                    assert(strings_view(class@.push(class_name)) =~= strings_view(class@).push(class_name@));
                }
                class.push(class_name);
            } else if is_alphabetic(c) {
                let start = self.position;
                let tag = self.consume_while(CharClass::Hyphenated);
                if self.position == start {
                    return Err(ParseError::InvalidCharacter(c));
                }
                tag_name = Some(tag);
            } else {
                if tag_name.is_none() && id.is_none() && class.len() == 0 {
                    return Err(ParseError::InvalidCharacter(c));
                }
                return Ok(SimpleSelector { tag_name, id, class });
            }
        }
    }

    fn parse_declarations(&mut self) -> (r: Result<Vec<Declaration>, ParseError>)
        requires
            old(self).wf(),
        ensures
            final(self).wf(),
            final(self).chars() == old(self).chars(),
            (match r {
                Ok(v) => Ok(decls_view(v@)),
                Err(e) => Err(e),
            }, final(self).pos()) == declaration_list(old(self).chars(), old(self).pos(), Seq::empty()),
    {
        let mut declarations: Vec<Declaration> = Vec::new();
        let ghost s = self.chars();
        let ghost target = declaration_list(s, self.pos(), Seq::empty());
        assert(decls_view(declarations@) =~= Seq::<Decl>::empty());
        loop
            invariant
                self.wf(),
                self.chars() == s,
                s == old(self).chars(),
                target == declaration_list(old(self).chars(), old(self).pos(), Seq::empty()),
                declaration_list(s, self.pos(), decls_view(declarations@)) == target,
            decreases s.len() - self.pos(),
        {
            let ghost i = self.pos();
            proof {
                lemma_scan(s, i, CharClass::Space);
            }
            self.skip_whitespace();
            if self.current_char()? == '}' {
                return Ok(declarations);
            }
            let start = self.position;
            proof {
                lemma_scan(s, start as int, CharClass::Hyphenated);
            }
            let name = self.consume_while(CharClass::Hyphenated);
            if self.position == start {
                return Err(ParseError::InvalidCharacter(self.current_char()?));
            }
            let ghost j = self.pos();
            proof {
                lemma_scan(s, j, CharClass::Space);
            }
            self.skip_whitespace();
            self.expect_char(':')?;
            let ghost j3 = self.pos();
            proof {
                lemma_scan(s, j3, CharClass::Space);
                lemma_scan(s, scan(s, j3, CharClass::Space), CharClass::Space);
                lemma_scan(s, scan(s, j3, CharClass::Space), CharClass::Declared);
            }
            self.skip_whitespace();
            let value = self.parse_value()?;
            let ghost j5 = self.pos();
            proof {
                lemma_scan(s, j5, CharClass::Space);
            }
            self.skip_whitespace();
            self.expect_char(';')?;
            let d = Declaration { name, value };
            proof {
                assert(decls_view(declarations@.push(d)) =~= decls_view(declarations@).push(d@));
            }
            declarations.push(d);
        }
    }

    fn parse_value(&mut self) -> (r: Result<Value, ParseError>)
        requires
            old(self).wf(),
        ensures
            final(self).wf(),
            final(self).chars() == old(self).chars(),
            (step_view(r), final(self).pos()) == value_at(old(self).chars(), old(self).pos()),
    {
        self.skip_whitespace();
        let start = self.position;
        let end = scan_chars(&self.input, start, CharClass::Declared);
        self.position = end;
        let (a, b) = trim_range(&self.input, start, end);
        if a == b {
            return Err(ParseError::InvalidCharacter(self.current_char()?));
        }
        let value_str = string_of_range(&self.input, a, b);
        if let Some(length_value) = Self::try_parse_length(value_str.as_str()) {
            return Ok(length_value);
        }
        if let Some(color_value) = Self::try_parse_color(value_str.as_str()) {
            return Ok(color_value);
        }
        Ok(Value::Keyword(value_str))
    }

    fn try_parse_length(value: &str) -> (r: Option<Value>)
        ensures
            opt_val(r) == length_of(value@),
    {
        proof {
            reveal_strlit("px");
            reveal_strlit("em");
            reveal_strlit("%");
        }
        let v = chars_of(value);
        let n = v.len();
        if n >= 2 && v[n - 2] == 'p' && v[n - 1] == 'x' {
            assert(v@.subrange(n - 2, n as int) =~= "px"@);
            let num = sub_vec(&v, 0, n - 2);
            if float_syntax_of(&num) {
                return Some(Value::Length(string_of(num.as_slice()), Unit::Px));
            }
            return None;
        }
        proof {
            if ends_with(v@, "px"@) {
                assert(v@.subrange(n - 2, n as int)[0] == v@[n - 2]);
                assert(v@.subrange(n - 2, n as int)[1] == v@[n - 1]);
            }
        }
        if n >= 2 && v[n - 2] == 'e' && v[n - 1] == 'm' {
            assert(v@.subrange(n - 2, n as int) =~= "em"@);
            let num = sub_vec(&v, 0, n - 2);
            if float_syntax_of(&num) {
                return Some(Value::Length(string_of(num.as_slice()), Unit::Em));
            }
            return None;
        }
        proof {
            if ends_with(v@, "em"@) {
                assert(v@.subrange(n - 2, n as int)[0] == v@[n - 2]);
                assert(v@.subrange(n - 2, n as int)[1] == v@[n - 1]);
            }
        }
        if n >= 1 && v[n - 1] == '%' {
            assert(v@.subrange(n - 1, n as int) =~= "%"@);
            let num = sub_vec(&v, 0, n - 1);
            if float_syntax_of(&num) {
                return Some(Value::Length(string_of(num.as_slice()), Unit::Percent));
            }
            return None;
        }
        proof {
            if ends_with(v@, "%"@) {
                assert(v@.subrange(n - 1, n as int)[0] == v@[n - 1]);
            }
        }
        None
    }

    fn try_parse_color(value: &str) -> (r: Option<Value>)
        ensures
            opt_val(r) == match color_named(lower_text(value@)) {
                Some(c) => Some(Val::ColorValue(c)),
                None => None::<Val>,
            },
    {
        let lower = to_lowercase(value);
        let l = lower.as_str();
        if str_eq(l, "red") {
            Some(Value::ColorValue(Color { r: 255, g: 0, b: 0, a: 255 }))
        } else if str_eq(l, "green") {
            Some(Value::ColorValue(Color { r: 0, g: 255, b: 0, a: 255 }))
        } else if str_eq(l, "blue") {
            Some(Value::ColorValue(Color { r: 0, g: 0, b: 255, a: 255 }))
        } else if str_eq(l, "black") {
            Some(Value::ColorValue(Color { r: 0, g: 0, b: 0, a: 255 }))
        } else if str_eq(l, "white") {
            Some(Value::ColorValue(Color { r: 255, g: 255, b: 255, a: 255 }))
        } else {
            None
        }
    }

    fn skip_whitespace(&mut self) -> (more: bool)
        requires
            old(self).wf(),
        ensures
            final(self).wf(),
            final(self).chars() == old(self).chars(),
            final(self).pos() == scan(old(self).chars(), old(self).pos(), CharClass::Space),
            more == (final(self).pos() < final(self).chars().len()),
    {
        self.consume_while(CharClass::Space);
        self.position < self.input.len()
    }

    fn consume_while(&mut self, test: CharClass) -> (r: String)
        requires
            old(self).wf(),
        ensures
            final(self).wf(),
            final(self).chars() == old(self).chars(),
            final(self).pos() == scan(old(self).chars(), old(self).pos(), test),
            r@ == old(self).chars().subrange(old(self).pos(), final(self).pos()),
    {
        let start = self.position;
        let end = scan_chars(&self.input, start, test);
        self.position = end;
        string_of_range(&self.input, start, end)
    }

    fn expect_char(&mut self, expected: char) -> (r: Result<(), ParseError>)
        requires
            old(self).wf(),
        ensures
            final(self).wf(),
            final(self).chars() == old(self).chars(),
            (r, final(self).pos()) == expect(old(self).chars(), old(self).pos(), expected),
    {
        match self.current_char() {
            Ok(c) => {
                if c == expected {
                    assert(self.position < self.input.len());
                self.position += 1;
                    Ok(())
                } else {
                    Err(ParseError::InvalidCharacter(c))
                }
            },
            Err(_) => Err(ParseError::UnexpectedEof),
        }
    }

    fn current_char(&self) -> (r: Result<char, ParseError>)
        requires
            self.wf(),
        ensures
            r == cur(self.chars(), self.pos()),
    {
        if self.position < self.input.len() {
            Ok(self.input[self.position])
        } else {
            Err(ParseError::UnexpectedEof)
        }
    }
}

#[derive(Debug)]
pub struct CssParser {
    tokenizer: CssTokenizer,
}

impl CssParser {
    pub closed spec fn chars(&self) -> Seq<char> {
        self.tokenizer.chars()
    }

    pub closed spec fn pos(&self) -> int {
        self.tokenizer.pos()
    }

    pub closed spec fn wf(&self) -> bool {
        self.tokenizer.wf()
    }

    pub fn new(css: String) -> (p: Self)
        ensures
            p.wf(),
            p.chars() == css@,
            p.pos() == 0,
    {
        CssParser { tokenizer: CssTokenizer::new(css) }
    }

    /// Reads the stylesheet; see `rules_from`.
    pub fn parse(&mut self) -> (r: Result<Stylesheet, ParseError>)
        requires
            old(self).wf(),
        ensures
            final(self).wf(),
            final(self).chars() == old(self).chars(),
            (step_view(r), final(self).pos()) == rules_from(old(self).chars(), old(self).pos(), Seq::empty()),
    {
        self.tokenizer.parse()
    }
}


/// Lexicographic `>=` on specificities.
pub open spec fn spec_ge(a: (int, int, int), b: (int, int, int)) -> bool {
    a.0 > b.0 || (a.0 == b.0 && (a.1 > b.1 || (a.1 == b.1 && a.2 >= b.2)))
}

pub open spec fn spec_of(t: Specificity) -> (int, int, int) {
    (t.0 as int, t.1 as int, t.2 as int)
}

fn specificity_ge(a: Specificity, b: Specificity) -> (r: bool)
    ensures
        r == spec_ge(spec_of(a), spec_of(b)),
{
    a.0 > b.0 || (a.0 == b.0 && (a.1 > b.1 || (a.1 == b.1 && a.2 >= b.2)))
}

impl Rule {
    /// The greatest specificity among the rule's selectors; (0, 0, 0) when it has none.
    pub fn max_specificity(&self) -> (r: Specificity)
        ensures
            self.selectors@.len() == 0 ==> r == (0usize, 0usize, 0usize),
            self.selectors@.len() > 0 ==> exists|i: int| 0 <= i < self.selectors@.len() && spec_of(r) == sel_specificity(#[trigger] self.selectors@[i]@),
            forall|i: int| 0 <= i < self.selectors@.len() ==> spec_ge(spec_of(r), sel_specificity(#[trigger] self.selectors@[i]@)),
            spec_of(r) == max_spec(self@.selectors),
    {
        let n = self.selectors.len();
        if n == 0 {
            return (0, 0, 0);
        }
        let mut best = self.selectors[0].specificity();
        let mut k: usize = 0;
        proof {
            assert(self@.selectors.take(1) =~= seq![self.selectors@[0]@]);
        }
        for i in 1..n
            invariant
                n == self.selectors@.len(),
                0 <= k < n,
                spec_of(best) == sel_specificity(self.selectors@[k as int]@),
                forall|j: int| 0 <= j < i ==> spec_ge(spec_of(best), sel_specificity(#[trigger] self.selectors@[j]@)),
                spec_of(best) == max_spec(self@.selectors.take(i as int)),
        {
            proof {
                let t = self@.selectors.take(i + 1);
                assert(t.drop_last() =~= self@.selectors.take(i as int));
                assert(t.last() == self.selectors@[i as int]@);
            }
            let sp = self.selectors[i].specificity();
            if specificity_ge(sp, best) {
                best = sp;
                k = i;
            }
        }
        assert(self@.selectors.take(n as int) =~= self@.selectors);
        best
    }
}

#[derive(Debug, Clone, PartialEq, Eq, PartialOrd, Ord)]
pub enum StyleOrigin {
    External,
    Inline,
}

/// Inline style ranks above an external stylesheet.
pub open spec fn origin_rank(o: StyleOrigin) -> int {
    match o {
        StyleOrigin::External => 0,
        StyleOrigin::Inline => 1,
    }
}

#[derive(Debug)]
pub struct MatchedDeclaration {
    pub declaration: Declaration,
    pub specificity: Specificity,
    pub origin: StyleOrigin,
}

impl Clone for MatchedDeclaration {
    fn clone(&self) -> Self {
        MatchedDeclaration {
            declaration: self.declaration.clone(),
            specificity: (self.specificity.0, self.specificity.1, self.specificity.2),
            origin: self.origin.clone(),
        }
    }
}

/// Whether `a` wins over `b` in the cascade: a higher origin wins; within one origin, a
/// specificity at least as high wins.
pub open spec fn wins_over(a: MatchedDeclaration, b: MatchedDeclaration) -> bool {
    if origin_rank(a.origin) != origin_rank(b.origin) {
        origin_rank(a.origin) > origin_rank(b.origin)
    } else {
        spec_ge(spec_of(a.specificity), spec_of(b.specificity))
    }
}

impl MatchedDeclaration {
    pub fn overrides(&self, other: &MatchedDeclaration) -> (b: bool)
        ensures
            b == wins_over(*self, *other),
    {
        let mine: u8 = match self.origin {
            StyleOrigin::External => 0,
            StyleOrigin::Inline => 1,
        };
        let theirs: u8 = match other.origin {
            StyleOrigin::External => 0,
            StyleOrigin::Inline => 1,
        };
        if mine != theirs {
            return mine > theirs;
        }
        specificity_ge(self.specificity, other.specificity)
    }
}

/// `i` is the last index of a declaration that wins over every declaration of `ds`.
pub open spec fn is_cascade_winner(ds: Seq<MatchedDeclaration>, i: int) -> bool {
    &&& 0 <= i < ds.len()
    &&& forall|j: int| 0 <= j < ds.len() ==> #[trigger] wins_over(ds[i], ds[j])
    &&& forall|j: int| i < j < ds.len() ==> !wins_over(#[trigger] ds[j], ds[i])
}

/// The declaration that the cascade applies: the last of those that win over all the others.
pub fn resolve_cascade(declarations: &[MatchedDeclaration]) -> (r: Option<&MatchedDeclaration>)
    ensures
        r is None <==> declarations@.len() == 0,
        r matches Some(m) ==> exists|i: int| is_cascade_winner(declarations@, i) && *m == declarations@[i],
{
    let n = declarations.len();
    if n == 0 {
        return None;
    }
    let mut w: usize = 0;
    for i in 1..n
        invariant
            n == declarations@.len(),
            w < i,
            forall|j: int| 0 <= j < i ==> #[trigger] wins_over(declarations@[w as int], declarations@[j]),
            forall|j: int| w < j < i ==> !wins_over(#[trigger] declarations@[j], declarations@[w as int]),
    {
        let ghost old_w = w;
        if declarations[i].overrides(&declarations[w]) {
            w = i;
            assert forall|j: int| 0 <= j < i + 1 implies #[trigger] wins_over(declarations@[w as int], declarations@[j]) by {
                if j < i {
                    assert(wins_over(declarations@[old_w as int], declarations@[j]));
                }
            }
        } else {
            assert forall|j: int| 0 <= j < i + 1 implies #[trigger] wins_over(declarations@[w as int], declarations@[j]) by {
                if j < i {
                    assert(wins_over(declarations@[old_w as int], declarations@[j]));
                }
            }
        }
    }
    assert(is_cascade_winner(declarations@, w as int));
    Some(&declarations[w])
}

/// A value's text read as a length, a named color, or else a keyword.
pub fn classify(value_str: String) -> (r: Value)
    ensures
        r@ == classify_value(value_str@),
{
    if let Some(length_value) = CssTokenizer::try_parse_length(value_str.as_str()) {
        return length_value;
    }
    if let Some(color_value) = CssTokenizer::try_parse_color(value_str.as_str()) {
        return color_value;
    }
    Value::Keyword(value_str)
}

impl Value {
    /// A copy of the value.
    pub fn duplicate(&self) -> (r: Value)
        ensures
            r@ == self@,
    {
        match self {
            Value::Keyword(k) => Value::Keyword(k.clone()),
            Value::Length(t, u) => {
                let unit = match u {
                    Unit::Px => Unit::Px,
                    Unit::Em => Unit::Em,
                    Unit::Percent => Unit::Percent,
                };
                Value::Length(t.clone(), unit)
            },
            Value::ColorValue(c) => Value::ColorValue(Color { r: c.r, g: c.g, b: c.b, a: c.a }),
        }
    }
}

impl Declaration {
    /// A copy of the declaration.
    pub fn duplicate(&self) -> (r: Declaration)
        ensures
            r@ == self@,
    {
        Declaration { name: self.name.clone(), value: self.value.duplicate() }
    }
}

/// The greatest specificity among selectors, as `Rule::max_specificity` finds it: the first
/// selector's, replaced by each later one that is at least as high.
pub open spec fn max_spec(sels: Seq<Sel>) -> (int, int, int)
    decreases sels.len(),
{
    if sels.len() == 0 {
        (0, 0, 0)
    } else if sels.len() == 1 {
        sel_specificity(sels[0])
    } else {
        let m = max_spec(sels.drop_last());
        let x = sel_specificity(sels.last());
        if spec_ge(x, m) { x } else { m }
    }
}

/// A matched declaration as a mathematical value.
pub struct MView {
    pub decl: Decl,
    pub specificity: (int, int, int),
    pub inline: bool,
}

pub open spec fn md_view(m: MatchedDeclaration) -> MView {
    MView {
        decl: m.declaration@,
        specificity: spec_of(m.specificity),
        inline: m.origin == StyleOrigin::Inline,
    }
}

/// `wins_over` on matched declarations as values.
pub open spec fn wins_view(a: MView, b: MView) -> bool {
    if a.inline != b.inline {
        a.inline
    } else {
        spec_ge(a.specificity, b.specificity)
    }
}

/// `i` is the last index of a declaration that wins over all of `ds`.
pub open spec fn is_winner_view(ds: Seq<MView>, i: int) -> bool {
    &&& 0 <= i < ds.len()
    &&& forall|j: int| 0 <= j < ds.len() ==> #[trigger] wins_view(ds[i], ds[j])
    &&& forall|j: int| i < j < ds.len() ==> !wins_view(#[trigger] ds[j], ds[i])
}

/// At most one index is the cascade's winner.
pub proof fn lemma_winner_unique(ds: Seq<MView>, i: int, j: int)
    requires
        is_winner_view(ds, i),
        is_winner_view(ds, j),
    ensures
        i == j,
{
    if i < j {
        assert(wins_view(ds[j], ds[i]));
    } else if j < i {
        assert(wins_view(ds[i], ds[j]));
    }
}

pub open spec fn md_views(ms: Seq<MatchedDeclaration>) -> Seq<MView> {
    ms.map_values(|m: MatchedDeclaration| md_view(m))
}

/// The cascade's winner among exec declarations is the winner among their values.
pub proof fn lemma_winner_views(ms: Seq<MatchedDeclaration>, i: int)
    requires
        is_cascade_winner(ms, i),
    ensures
        is_winner_view(md_views(ms), i),
{
    let vs = md_views(ms);
    assert forall|j: int| 0 <= j < vs.len() implies #[trigger] wins_view(vs[i], vs[j]) by {
        assert(wins_over(ms[i], ms[j]));
    }
    assert forall|j: int| i < j < vs.len() implies !wins_view(#[trigger] vs[j], vs[i]) by {
        assert(!wins_over(ms[j], ms[i]));
    }
}

/// The text that describes a parse error.
pub open spec fn css_err_text(e: ParseError) -> Seq<char> {
    match e {
        ParseError::UnexpectedEof => "Unexpected end of input"@,
        ParseError::InvalidCharacter(c) => "Invalid character: '"@ + seq![c] + "'"@,
        ParseError::MissingClosingBracket => "Missing closing bracket"@,
    }
}

impl ParseError {
    /// The text that describes the error.
    pub fn message(&self) -> (r: String)
        ensures
            r@ == css_err_text(*self),
    {
        match self {
            ParseError::UnexpectedEof => "Unexpected end of input".to_string(),
            ParseError::InvalidCharacter(c) => {
                let mut v = chars_of("Invalid character: '");
                v.push(*c);
                v.push('\'');
                assert(v@ =~= "Invalid character: '"@ + seq![*c] + "'"@) by {
                    reveal_strlit("'");
                }
                string_of(v.as_slice())
            },
            ParseError::MissingClosingBracket => "Missing closing bracket".to_string(),
        }
    }
}

/// A selector with an id is more specific than any selector without one, whatever its classes
/// and tag name.
pub proof fn law_id_beats_classes(a: Sel, b: Sel)
    requires
        a.id is Some,
        b.id is None,
    ensures
        spec_ge(sel_specificity(a), sel_specificity(b)),
        !spec_ge(sel_specificity(b), sel_specificity(a)),
{
}

/// An inline declaration wins over an external one, whatever their specificities; within one
/// origin, the more specific one wins.
pub proof fn law_inline_over_external(a: MView, b: MView)
    ensures
        a.inline && !b.inline ==> wins_view(a, b) && !wins_view(b, a),
        a.inline == b.inline && spec_ge(a.specificity, b.specificity) && a.specificity != b.specificity
            ==> wins_view(a, b) && !wins_view(b, a),
{
}

/// A text whose lowercase form names a color is no length: a length is all ASCII and ends in
/// `x`, `m` or `%` once lowercased, and no color name does.
proof fn lemma_color_name_is_no_length(t: Seq<char>)
    requires
        color_named(lower_text(t)) is Some,
    ensures
        length_of(t) is None,
{
    reveal_strlit("px");
    reveal_strlit("em");
    reveal_strlit("%");
    reveal_strlit("red");
    reveal_strlit("green");
    reveal_strlit("blue");
    reveal_strlit("black");
    reveal_strlit("white");
    if length_of(t) is Some {
        let k: int = if ends_with(t, "px"@) || ends_with(t, "em"@) { 2 } else { 1 };
        let n = t.subrange(0, t.len() - k);
        crate::text::lemma_float_chars(n);
        assert forall|i: int| 0 <= i < t.len() implies crate::text::ascii_char(#[trigger] t[i]) by {
            if i < t.len() - k {
                assert(t[i] == n[i]);
                assert(crate::text::float_char(n[i]));
            } else {
                assert(t[i] == t.subrange(t.len() - k, t.len() as int)[i - (t.len() - k)]);
            }
        }
        let l = lower_text(t);
        assert(l == t.map_values(|c: char| crate::text::ascii_lower(c)));
        let last = t[t.len() - 1];
        assert(last == t.subrange(t.len() - k, t.len() as int)[k - 1]);
        assert(last == 'x' || last == 'm' || last == '%');
        assert(l[l.len() - 1] == crate::text::ascii_lower(last));
        assert(l[l.len() - 1] == 'x' || l[l.len() - 1] == 'm' || l[l.len() - 1] == '%');
        assert(false);
    }
}

/// The five color names differ from one another.
proof fn lemma_color_names_differ()
    ensures
        "red"@ != "green"@,
        "red"@ != "blue"@,
        "red"@ != "black"@,
        "red"@ != "white"@,
        "green"@ != "blue"@,
        "green"@ != "black"@,
        "green"@ != "white"@,
        "blue"@ != "black"@,
        "blue"@ != "white"@,
        "black"@ != "white"@,
{
    reveal_strlit("red");
    reveal_strlit("green");
    reveal_strlit("blue");
    reveal_strlit("black");
    reveal_strlit("white");
    assert("red"@[0] != "green"@[0]);
    assert("red"@[0] != "blue"@[0]);
    assert("red"@[0] != "black"@[0]);
    assert("red"@[0] != "white"@[0]);
    assert("green"@[0] != "blue"@[0]);
    assert("green"@[0] != "black"@[0]);
    assert("green"@[0] != "white"@[0]);
    assert("blue"@.len() != "black"@.len());
    assert("blue"@[0] != "white"@[0]);
    assert("black"@[0] != "white"@[0]);
}

/// Each of the five color names, in any case, declares its own color: red (255, 0, 0),
/// green (0, 255, 0), blue (0, 0, 255), black (0, 0, 0) and white (255, 255, 255), all opaque.
pub proof fn law_named_colors(t: Seq<char>)
    ensures
        lower_text(t) == "red"@ ==> classify_value(t) == Val::ColorValue(Color { r: 255, g: 0, b: 0, a: 255 }),
        lower_text(t) == "green"@ ==> classify_value(t) == Val::ColorValue(Color { r: 0, g: 255, b: 0, a: 255 }),
        lower_text(t) == "blue"@ ==> classify_value(t) == Val::ColorValue(Color { r: 0, g: 0, b: 255, a: 255 }),
        lower_text(t) == "black"@ ==> classify_value(t) == Val::ColorValue(Color { r: 0, g: 0, b: 0, a: 255 }),
        lower_text(t) == "white"@ ==> classify_value(t) == Val::ColorValue(Color { r: 255, g: 255, b: 255, a: 255 }),
{
    reveal_strlit("red");
    reveal_strlit("green");
    reveal_strlit("blue");
    reveal_strlit("black");
    reveal_strlit("white");
    lemma_color_names_differ();
    let l = lower_text(t);
    if l == "red"@ || l == "green"@ || l == "blue"@ || l == "black"@ || l == "white"@ {
        assert(color_named(l) is Some);
        lemma_color_name_is_no_length(t);
    }
}

/// Two values that declare colors and whose names differ, once lowercased, declare different
/// colors; values whose names agree declare the same one.
pub proof fn law_color_names_distinct(t1: Seq<char>, t2: Seq<char>)
    requires
        classify_value(t1) is ColorValue,
        classify_value(t2) is ColorValue,
    ensures
        (classify_value(t1) == classify_value(t2)) <==> (lower_text(t1) == lower_text(t2)),
{
    reveal_strlit("red");
    reveal_strlit("green");
    reveal_strlit("blue");
    reveal_strlit("black");
    reveal_strlit("white");
    lemma_color_names_differ();
    assert(length_of(t1) is None);
    assert(length_of(t2) is None);
}

} // verus!
