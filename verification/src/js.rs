use vstd::prelude::*;
use vstd::string::StringSliceAdditionalSpecFns;
use vstd::utf8::{decode_utf8, is_char_boundary};
use crate::network::{lines_of, lines_view, split_lines};
use crate::strmap::StrMap;
use crate::text::{
    alnum_char, chars_of, find_bytes, find_bytes_from, find_chars, find_from, float_syntax,
    float_syntax_of, has_at, is_alphanumeric, lemma_find_bytes, lower_text,
    matches_at, range_is, string_of, string_of_range, sub_vec, to_lowercase, trim, trim_range,
    utf8_slice,
};

verus! {

broadcast use vstd::string::group_string_axioms;

/// A value of the script language. A number is kept as the text it was written with.
#[derive(Debug, PartialEq)]
pub enum JsValue {
    Undefined,
    Null,
    Boolean(bool),
    Number(String),
    String(String),
    Object(Vec<(String, JsValue)>),
}

/// A script value as a mathematical value.
pub enum JsVal {
    Undefined,
    Null,
    Boolean(bool),
    Number(Seq<char>),
    Str(Seq<char>),
    Object(Map<Seq<char>, JsVal>),
}

pub open spec fn js_val(v: JsValue) -> JsVal
    decreases v, 1int,
{
    match v {
        JsValue::Undefined => JsVal::Undefined,
        JsValue::Null => JsVal::Null,
        JsValue::Boolean(b) => JsVal::Boolean(b),
        JsValue::Number(t) => JsVal::Number(t@),
        JsValue::String(s) => JsVal::Str(s@),
        JsValue::Object(es) => JsVal::Object(props_map(es@)),
    }
}

/// The properties of an object: a later entry for a name wins.
pub open spec fn props_map(es: Seq<(String, JsValue)>) -> Map<Seq<char>, JsVal>
    decreases es, 0int,
{
    if es.len() == 0 {
        Map::empty()
    } else {
        props_map(es.subrange(0, es.len() - 1)).insert(
            es[es.len() - 1].0@,
            js_val(es[es.len() - 1].1),
        )
    }
}

impl View for JsValue {
    type V = JsVal;

    open spec fn view(&self) -> JsVal {
        js_val(*self)
    }
}

impl JsValue {
    /// A copy of the value.
    pub fn duplicate(&self) -> (r: JsValue)
        ensures
            r@ == self@,
        decreases self,
    {
        match self {
            JsValue::Undefined => JsValue::Undefined,
            JsValue::Null => JsValue::Null,
            JsValue::Boolean(b) => JsValue::Boolean(*b),
            JsValue::Number(t) => JsValue::Number(t.clone()),
            JsValue::String(s) => JsValue::String(s.clone()),
            JsValue::Object(es) => {
                let mut out: Vec<(String, JsValue)> = Vec::new();
                let mut i: usize = 0;
                while i < es.len()
                    invariant
                        *self == JsValue::Object(*es),
                        i <= es@.len(),
                        out@.len() == i,
                        props_map(out@) == props_map(es@.subrange(0, i as int)),
                        forall|j: int| 0 <= j < i ==> #[trigger] out@[j].0@ == es@[j].0@,
                    decreases es@.len() - i,
                {
                    let e = &es[i];
                    proof {
                        vstd::std_specs::vec::axiom_vec_index_decreases(*es, i as int);
                        assert(decreases_to!(*self => self->Object_0));
                        assert(self->Object_0 == *es);
                        assert(decreases_to!(*es => es@[i as int]));
                        assert(decreases_to!(es@[i as int] => es@[i as int].1));
                        assert(decreases_to!(*self => es@[i as int].1));
                    }
                    let v = e.1.duplicate();
                    let ghost before = out@;
                    out.push((e.0.clone(), v));
                    proof {
                        assert(out@.subrange(0, out@.len() - 1) =~= before);
                        assert(es@.subrange(0, i + 1).subrange(0, i as int) =~= es@.subrange(
                            0,
                            i as int,
                        ));
                        assert(es@.subrange(0, i + 1)[i as int] == es@[i as int]);
                        assert(before =~= out@.subrange(0, i as int));
                    }
                    i += 1;
                }
                proof {
                    assert(es@.subrange(0, es@.len() as int) =~= es@);
                }
                JsValue::Object(out)
            },
        }
    }

    /// The property `key` of an object value (`None` for other values or a missing name).
    pub fn property(&self, key: &str) -> (r: Option<&JsValue>)
        ensures
            match r {
                Some(p) => self@ is Object && (self@->Object_0).contains_key(key@) && p@ == (
                self@->Object_0)[key@],
                None => !(self@ is Object) || !(self@->Object_0).contains_key(key@),
            },
    {
        match self {
            JsValue::Object(es) => {
                let mut j = es.len();
                assert(es@.subrange(0, j as int) =~= es@);
                while j > 0
                    invariant
                        *self == JsValue::Object(*es),
                        j <= es@.len(),
                        forall|m: int| j <= m < es@.len() ==> #[trigger] es@[m].0@ != key@,
                        props_map(es@).contains_key(key@) == props_map(
                            es@.subrange(0, j as int),
                        ).contains_key(key@),
                        props_map(es@).contains_key(key@) ==> props_map(es@)[key@] == props_map(
                            es@.subrange(0, j as int),
                        )[key@],
                    decreases j,
                {
                    let ghost t = es@.subrange(0, j as int);
                    proof {
                        assert(t.subrange(0, t.len() - 1) =~= es@.subrange(0, j - 1));
                        assert(t[t.len() - 1] == es@[j - 1]);
                        assert(props_map(t) == props_map(es@.subrange(0, j - 1)).insert(
                            es@[j - 1].0@,
                            js_val(es@[j - 1].1),
                        ));
                    }
                    if crate::text::str_eq(es[j - 1].0.as_str(), key) {
                        return Some(&es[j - 1].1);
                    }
                    j -= 1;
                }
                proof {
                    assert(es@.subrange(0, 0) =~= Seq::<(String, JsValue)>::empty());
                }
                None
            },
            _ => None,
        }
    }
}

/// An error raised while running a script.
#[derive(Debug, PartialEq)]
pub struct JsError {
    pub message: String,
}

impl JsError {
    pub fn new(message: String) -> (e: JsError)
        ensures
            e.message@ == message@,
    {
        JsError { message }
    }
}

/// A change to the document that a script asked for.
#[derive(Debug)]
pub enum DomMutation {
    SetAttribute { element_id: String, key: String, value: String },
    SetTextContent { element_id: String, text: String },
    AppendChild { parent_id: String, tag: String, attrs: StrMap<String> },
    RemoveElement { element_id: String },
}

/// A document change as a mathematical value.
pub enum Mutation {
    SetAttribute(Seq<char>, Seq<char>, Seq<char>),
    SetTextContent(Seq<char>, Seq<char>),
    AppendChild(Seq<char>, Seq<char>, Map<Seq<char>, Seq<char>>),
    RemoveElement(Seq<char>),
}

impl View for DomMutation {
    type V = Mutation;

    open spec fn view(&self) -> Mutation {
        match self {
            DomMutation::SetAttribute { element_id, key, value } => Mutation::SetAttribute(
                element_id@,
                key@,
                value@,
            ),
            DomMutation::SetTextContent { element_id, text } => Mutation::SetTextContent(
                element_id@,
                text@,
            ),
            DomMutation::AppendChild { parent_id, tag, attrs } => Mutation::AppendChild(
                parent_id@,
                tag@,
                attrs@,
            ),
            DomMutation::RemoveElement { element_id } => Mutation::RemoveElement(element_id@),
        }
    }
}

/// `parse_string_literal`: the text between matching quotes (`"` or `'`) that open and close
/// the trimmed input.
pub open spec fn string_literal(s: Seq<char>) -> Option<Seq<char>> {
    let t = trim(s);
    if t.len() >= 2 && ((t[0] == '"' && t[t.len() - 1] == '"') || (t[0] == '\'' && t[t.len() - 1]
        == '\'')) {
        Some(t.subrange(1, t.len() - 1))
    } else {
        None
    }
}

fn literal_in(v: &Vec<char>, lo: usize, hi: usize) -> (r: Option<String>)
    requires
        lo <= hi <= v@.len(),
    ensures
        match r {
            Some(t) => string_literal(v@.subrange(lo as int, hi as int)) == Some(t@),
            None => string_literal(v@.subrange(lo as int, hi as int)) is None,
        },
{
    let (a, b) = trim_range(v, lo, hi);
    if b - a >= 2 && ((v[a] == '"' && v[b - 1] == '"') || (v[a] == '\'' && v[b - 1] == '\'')) {
        let t = string_of_range(v, a + 1, b - 1);
        assert(t@ =~= v@.subrange(a as int, b as int).subrange(1, b - a - 1));
        Some(t)
    } else {
        None
    }
}

/// The text between the quotes of a quoted string.
pub fn parse_string_literal(s: &str) -> (r: Option<String>)
    ensures
        match r {
            Some(t) => string_literal(s@) == Some(t@),
            None => string_literal(s@) is None,
        },
{
    let v = chars_of(s);
    assert(v@.subrange(0, v@.len() as int) =~= s@);
    literal_in(&v, 0, v.len())
}

/// Where `method` first stands in `stmt`, counted in characters.
pub fn find_method_call(stmt: &Vec<char>, method: &Vec<char>) -> (r: Option<usize>)
    ensures
        match r {
            Some(i) => find_from(stmt@, 0, method@) == i,
            None => find_from(stmt@, 0, method@) == -1,
        },
{
    find_chars(stmt, 0, method)
}

/// The index of the first `,` that stands outside quotes from `i` on, `q` being the quote
/// open at `i`; -1 where there is none.
pub open spec fn unquoted_comma(s: Seq<char>, i: int, q: Option<char>) -> int
    decreases s.len() - i,
{
    if i < 0 || i >= s.len() {
        -1
    } else {
        let c = s[i];
        match q {
            Some(open) => if c == open {
                unquoted_comma(s, i + 1, None)
            } else {
                unquoted_comma(s, i + 1, q)
            },
            None => if c == '"' || c == '\'' {
                unquoted_comma(s, i + 1, Some(c))
            } else if c == ',' {
                i
            } else {
                unquoted_comma(s, i + 1, None)
            },
        }
    }
}

pub proof fn lemma_unquoted_comma(s: Seq<char>, i: int, q: Option<char>)
    requires
        0 <= i,
    ensures
        unquoted_comma(s, i, q) == -1 || (i <= unquoted_comma(s, i, q) < s.len()),
    decreases s.len() - i,
{
    if i < s.len() {
        let c = s[i];
        match q {
            Some(open) => if c == open {
                lemma_unquoted_comma(s, i + 1, None);
            } else {
                lemma_unquoted_comma(s, i + 1, q);
            },
            None => if c == '"' || c == '\'' {
                lemma_unquoted_comma(s, i + 1, Some(c));
            } else if c != ',' {
                lemma_unquoted_comma(s, i + 1, None);
            },
        }
    }
}

/// `parse_two_string_args`: two quoted strings split at the first unquoted comma.
pub open spec fn two_string_args(s: Seq<char>) -> Option<(Seq<char>, Seq<char>)> {
    let c = unquoted_comma(s, 0, None);
    if c < 0 {
        None
    } else {
        match (string_literal(trim(s.take(c))), string_literal(trim(s.skip(c + 1)))) {
            (Some(a), Some(b)) => Some((a, b)),
            _ => None,
        }
    }
}

fn two_args_in(v: &Vec<char>, lo: usize, hi: usize) -> (r: Option<(String, String)>)
    requires
        lo <= hi <= v@.len(),
    ensures
        match r {
            Some((a, b)) => two_string_args(v@.subrange(lo as int, hi as int)) == Some((a@, b@)),
            None => two_string_args(v@.subrange(lo as int, hi as int)) is None,
        },
{
    let ghost s = v@.subrange(lo as int, hi as int);
    let mut in_quote: Option<char> = None;
    let mut i = lo;
    let mut comma: Option<usize> = None;
    while i < hi
        invariant_except_break
            comma is None,
            unquoted_comma(s, (i - lo) as int, in_quote) == unquoted_comma(s, 0, None),
        invariant
            lo <= i <= hi <= v@.len(),
            s == v@.subrange(lo as int, hi as int),
        ensures
            comma matches Some(p) ==> lo <= p < hi && unquoted_comma(s, 0, None) == p - lo,
            comma is None ==> unquoted_comma(s, 0, None) == -1,
        decreases hi - i,
    {
        let c = v[i];
        assert(s[(i - lo) as int] == c);
        match in_quote {
            Some(q) => {
                if c == q {
                    in_quote = None;
                }
            },
            None => {
                if c == '"' || c == '\'' {
                    in_quote = Some(c);
                } else if c == ',' {
                    comma = Some(i);
                    break;
                }
            },
        }
        i += 1;
    }
    let p = match comma {
        Some(p) => p,
        None => {
            return None;
        },
    };
    proof {
        assert(s.take(p - lo) =~= v@.subrange(lo as int, p as int));
        assert(s.skip(p - lo + 1) =~= v@.subrange(p + 1, hi as int));
    }
    let (a1, b1) = trim_range(v, lo, p);
    let first = match literal_in(v, a1, b1) {
        Some(t) => t,
        None => {
            return None;
        },
    };
    let (a2, b2) = trim_range(v, p + 1, hi);
    let second = match literal_in(v, a2, b2) {
        Some(t) => t,
        None => {
            return None;
        },
    };
    Some((first, second))
}

/// Two quoted strings separated by a comma.
pub fn parse_two_string_args(args: &str) -> (r: Option<(String, String)>)
    ensures
        match r {
            Some((a, b)) => two_string_args(args@) == Some((a@, b@)),
            None => two_string_args(args@) is None,
        },
{
    let v = chars_of(args);
    assert(v@.subrange(0, v@.len() as int) =~= args@);
    two_args_in(&v, 0, v.len())
}

/// The byte ranges of the script contents in `h`, found by searching its lowercase form `l`
/// from byte `from` on: each `<script`, the `>` after it, and the `</script>` after that.
pub open spec fn script_chunks(h: Seq<u8>, l: Seq<u8>, from: int) -> Seq<(int, int)>
    decreases l.len() + 1 - from,
{
    let o = find_bytes(l, from, "<script".spec_bytes());
    if from < 0 || o < 0 {
        Seq::empty()
    } else {
        let t = find_bytes(l, o, ">".spec_bytes());
        if t < 0 {
            Seq::empty()
        } else {
            let c = find_bytes(l, t + 1, "</script>".spec_bytes());
            if c < 0 {
                Seq::empty()
            } else {
                proof {
                    lemma_find_bytes(l, from, "<script".spec_bytes());
                    lemma_find_bytes(l, o, ">".spec_bytes());
                    lemma_find_bytes(l, t + 1, "</script>".spec_bytes());
                }
                seq![(t + 1, c)] + script_chunks(h, l, c + "</script>".spec_bytes().len())
            }
        }
    }
}

/// The script ranges of a page: its bytes searched in its lowercase form.
pub open spec fn script_ranges(html: Seq<char>) -> Seq<(int, int)> {
    script_chunks(vstd::utf8::encode_utf8(html), vstd::utf8::encode_utf8(lower_text(html)), 0)
}

/// Every range starts and ends at a character boundary of `h`.
pub open spec fn ranges_fit(h: Seq<u8>, rs: Seq<(int, int)>) -> bool {
    forall|k: int|
        0 <= k < rs.len() ==> is_char_boundary(h, #[trigger] rs[k].0) && is_char_boundary(
            h,
            rs[k].1,
        ) && rs[k].0 <= rs[k].1
}

/// The texts that the ranges of `h` encode.
pub open spec fn range_texts(h: Seq<u8>, rs: Seq<(int, int)>) -> Seq<Seq<char>> {
    rs.map_values(|r: (int, int)| decode_utf8(h.subrange(r.0, r.1)))
}

pub open spec fn strings_view(v: Seq<String>) -> Seq<Seq<char>> {
    v.map_values(|s: String| s@)
}

/// The contents of the `<script>` elements of a page, or `None` where a range found in the
/// lowercase text does not fall on character boundaries of the page itself (there,
/// `extract_scripts` cannot cut the page).
pub fn try_extract_scripts(html: &str) -> (r: Option<Vec<String>>)
    ensures
        match r {
            Some(v) => ranges_fit(html.spec_bytes(), script_ranges(html@)) && strings_view(v@)
                == range_texts(html.spec_bytes(), script_ranges(html@)),
            None => !ranges_fit(html.spec_bytes(), script_ranges(html@)),
        },
{
    let lower = to_lowercase(html);
    let l = lower.as_str().as_bytes();
    let h = html.as_bytes();
    let open = "<script".as_bytes();
    let gt = ">".as_bytes();
    let close = "</script>".as_bytes();
    let ghost hb = html.spec_bytes();
    let ghost all = script_chunks(hb, l@, 0);
    let mut out: Vec<String> = Vec::new();
    let mut from: usize = 0;
    let ghost mut done: Seq<(int, int)> = Seq::empty();
    let ln = l.len();
    proof {
        reveal_strlit(">");
        vstd::string::is_ascii_spec_bytes(">");
        vstd::utf8::encode_utf8_valid_utf8(html@);
    }
    loop
        invariant
            l@ == vstd::utf8::encode_utf8(lower@),
            lower@ == lower_text(html@),
            h@ == hb,
            hb == html.spec_bytes(),
            open@ == "<script".spec_bytes(),
            gt@ == ">".spec_bytes(),
            gt@.len() == 1,
            ln == l@.len(),
            vstd::utf8::valid_utf8(hb),
            close@ == "</script>".spec_bytes(),
            from <= l@.len(),
            all == script_chunks(hb, l@, 0),
            all == done + script_chunks(hb, l@, from as int),
            ranges_fit(hb, done),
            strings_view(out@) == range_texts(hb, done),
        ensures
            script_chunks(hb, l@, from as int) == Seq::<(int, int)>::empty(),
        decreases l@.len() + 1 - from,
    {
        let o = match find_bytes_from(l, from, open) {
            Some(o) => o,
            None => {
                break;
            },
        };
        proof {
            lemma_find_bytes(l@, from as int, open@);
        }
        let t = match find_bytes_from(l, o, gt) {
            Some(t) => t,
            None => {
                break;
            },
        };
        proof {
            lemma_find_bytes(l@, o as int, gt@);
        }
        let c = match find_bytes_from(l, t + 1, close) {
            Some(c) => c,
            None => {
                break;
            },
        };
        proof {
            lemma_find_bytes(l@, t + 1, close@);
        }
        let ghost piece = (t + 1, c as int);
        proof {
            assert(script_chunks(hb, l@, from as int) == seq![piece] + script_chunks(
                hb,
                l@,
                c + close@.len(),
            ));
            assert((done + (seq![piece] + script_chunks(hb, l@, c + close@.len())))[done.len() as int] == piece);
        }
        if !(html.is_char_boundary(t + 1) && html.is_char_boundary(c)) {
            proof {
                assert(all.len() > done.len());
                assert(all[done.len() as int] == piece);
                assert(!is_char_boundary(hb, all[done.len() as int].0) || !is_char_boundary(
                    hb,
                    all[done.len() as int].1,
                ));
                let k = done.len() as int;
                assert(0 <= k < all.len() && !(is_char_boundary(hb, all[k].0) && is_char_boundary(hb, all[k].1) && all[k].0 <= all[k].1));
                assert(!ranges_fit(hb, all)) by {
                    if ranges_fit(hb, all) {
                        assert(is_char_boundary(hb, all[k].0));
                    }
                }
            }
            return None;
        }
        let text = utf8_slice(html, t + 1, c);
        proof {
            let next = c + close@.len();
            assert(script_chunks(hb, l@, from as int) == seq![piece] + script_chunks(
                hb,
                l@,
                next,
            ));
            assert(done.push(piece) + script_chunks(hb, l@, next) =~= done + (seq![piece]
                + script_chunks(hb, l@, next)));
            assert(strings_view(out@.push(text)) =~= strings_view(out@).push(text@));
            assert(range_texts(hb, done.push(piece)) =~= range_texts(hb, done).push(text@));
            done = done.push(piece);
        }
        out.push(text);
        from = c + close.len();
    }
    proof {
        assert(done + Seq::<(int, int)>::empty() =~= done);
        assert(all == done);
        assert(script_ranges(html@) == all);
        assert(ranges_fit(hb, all));
        assert(ranges_fit(html.spec_bytes(), script_ranges(html@)));
    }
    Some(out)
}

/// The contents of the `<script>` elements of a page, in order: for each `<script` (in any
/// case), the text after the next `>` up to the next `</script>`.
pub fn extract_scripts(html: &str) -> (r: Vec<String>)
    requires
        ranges_fit(html.spec_bytes(), script_ranges(html@)),
    ensures
        strings_view(r@) == range_texts(html.spec_bytes(), script_ranges(html@)),
{
    match try_extract_scripts(html) {
        Some(v) => v,
        None => Vec::new(),
    }
}

/// Whether every character is alphanumeric or `_`.
pub open spec fn is_ident(t: Seq<char>) -> bool {
    forall|i: int| 0 <= i < t.len() ==> alnum_char(#[trigger] t[i]) || t[i] == '_'
}

fn ident_in(v: &Vec<char>, lo: usize, hi: usize) -> (r: bool)
    requires
        lo <= hi <= v@.len(),
    ensures
        r == is_ident(v@.subrange(lo as int, hi as int)),
{
    let mut i = lo;
    while i < hi
        invariant
            lo <= i <= hi <= v@.len(),
            is_ident(v@.subrange(lo as int, i as int)),
        decreases hi - i,
    {
        let c = v[i];
        if !(is_alphanumeric(c) || c == '_') {
            assert(v@.subrange(lo as int, hi as int)[i - lo] == c);
            return false;
        }
        i += 1;
        assert forall|j: int| 0 <= j < i - lo implies alnum_char(#[trigger] v@.subrange(lo as int, i as int)[j]) || v@.subrange(lo as int, i as int)[j] == '_' by {
            if j < i - lo - 1 {
                assert(v@.subrange(lo as int, i as int)[j] == v@.subrange(lo as int, i - 1)[j]);
            }
        }
    }
    true
}

/// The property under which an element object keeps its id.
pub open spec fn element_id_key() -> Seq<char> {
    "__element_id__"@
}

/// What `document.getElementById` gives: an object that carries the id.
pub open spec fn element_object(id: Seq<char>) -> JsVal {
    JsVal::Object(Map::empty().insert(element_id_key(), JsVal::Str(id)))
}

/// `eval_expr`: the value of a (trimmed) expression, with `g` the global variables.
pub open spec fn eval_spec(g: Map<Seq<char>, JsVal>, x: Seq<char>) -> JsVal {
    let e = trim(x);
    let get = "document.getElementById("@;
    if float_syntax(e) {
        JsVal::Number(e)
    } else if e == "true"@ {
        JsVal::Boolean(true)
    } else if e == "false"@ {
        JsVal::Boolean(false)
    } else if e == "null"@ {
        JsVal::Null
    } else if e == "undefined"@ {
        JsVal::Undefined
    } else if string_literal(e) is Some {
        JsVal::Str(string_literal(e)->0)
    } else if has_at(e, 0, get) && e.len() > get.len() && e[e.len() - 1] == ')' {
        let a = trim(e.subrange(get.len() as int, e.len() - 1));
        element_object(
            match string_literal(a) {
                Some(t) => t,
                None => a,
            },
        )
    } else if is_ident(e) && g.contains_key(e) {
        g[e]
    } else {
        JsVal::Undefined
    }
}

/// `resolve_element_id`: the id carried by the element object in variable `name`, or the
/// name itself.
pub open spec fn resolve_spec(g: Map<Seq<char>, JsVal>, name: Seq<char>) -> Seq<char> {
    if g.contains_key(name) && g[name] is Object && (g[name]->Object_0).contains_key(
        element_id_key(),
    ) && (g[name]->Object_0)[element_id_key()] is Str {
        (g[name]->Object_0)[element_id_key()]->Str_0
    } else {
        name
    }
}

/// The state of a runtime as a mathematical value.
pub struct RtState {
    pub globals: Map<Seq<char>, JsVal>,
    pub mutations: Seq<Mutation>,
    pub log: Seq<JsVal>,
}

/// The rest of a declaration (`var `, `let ` or `const `), if the statement is one.
pub open spec fn decl_rest(s: Seq<char>) -> Option<Seq<char>> {
    if has_at(s, 0, "var "@) {
        Some(s.skip("var "@.len() as int))
    } else if has_at(s, 0, "let "@) {
        Some(s.skip("let "@.len() as int))
    } else if has_at(s, 0, "const "@) {
        Some(s.skip("const "@.len() as int))
    } else {
        None
    }
}

pub open spec fn with_global(st: RtState, name: Seq<char>, v: JsVal) -> RtState {
    RtState { globals: st.globals.insert(name, v), mutations: st.mutations, log: st.log }
}

pub open spec fn with_mutation(st: RtState, m: Mutation) -> RtState {
    RtState { globals: st.globals, mutations: st.mutations.push(m), log: st.log }
}

/// `eval_statement`: the state after a statement, and its value.
pub open spec fn statement_spec(st: RtState, s: Seq<char>) -> (RtState, JsVal) {
    let g = st.globals;
    let log_call = "console.log("@;
    let set_call = ".setAttribute("@;
    let text_set = ".textContent = "@;
    let dr = decl_rest(s);
    let d_eq = if dr is Some { find_from(dr->0, 0, seq!['=']) } else { -1 };
    let dot = find_from(s, 0, set_call);
    let args = s.skip(dot + set_call.len());
    let t_eq = find_from(s, 0, text_set);
    let a_eq = find_from(s, 0, " = "@);
    if d_eq >= 0 {
        let rest = dr->0;
        let name = trim(rest.take(d_eq));
        let v = eval_spec(g, trim(rest.skip(d_eq + 1)));
        (with_global(st, name, v), v)
    } else if has_at(s, 0, log_call) && s.len() > log_call.len() && s[s.len() - 1] == ')' {
        let v = eval_spec(g, trim(s.subrange(log_call.len() as int, s.len() - 1)));
        (RtState { globals: g, mutations: st.mutations, log: st.log.push(v) }, JsVal::Undefined)
    } else if dot >= 0 && args.len() > 0 && args[args.len() - 1] == ')' && two_string_args(
        args.drop_last(),
    ) is Some {
        let (k, v) = two_string_args(args.drop_last())->0;
        let id = resolve_spec(g, trim(s.take(dot)));
        (with_mutation(st, Mutation::SetAttribute(id, k, v)), JsVal::Undefined)
    } else if t_eq >= 0 {
        let rhs = trim(s.skip(t_eq + text_set.len()));
        let text = match string_literal(rhs) {
            Some(t) => t,
            None => rhs,
        };
        let id = resolve_spec(g, trim(s.take(t_eq)));
        (with_mutation(st, Mutation::SetTextContent(id, text)), JsVal::Undefined)
    } else if a_eq >= 0 && is_ident(trim(s.take(a_eq))) {
        let v = eval_spec(g, trim(s.skip(a_eq + " = "@.len())));
        (with_global(st, trim(s.take(a_eq)), v), v)
    } else {
        (st, eval_spec(g, s))
    }
}

/// `s` with all its trailing `;` cut (`trim_end_matches(';')`).
pub open spec fn strip_semis(s: Seq<char>) -> Seq<char>
    decreases s.len(),
{
    if s.len() > 0 && s[s.len() - 1] == ';' {
        strip_semis(s.drop_last())
    } else {
        s
    }
}

/// The statement that a raw line holds: trimmed, trailing `;` cut.
pub open spec fn line_statement(raw: Seq<char>) -> Seq<char> {
    strip_semis(trim(raw))
}

/// Whether a line is skipped: empty, or a `//` comment.
pub open spec fn skipped(l: Seq<char>) -> bool {
    l.len() == 0 || has_at(l, 0, "//"@)
}

/// The lines run one after the other; `last` is the value of the last statement run.
pub open spec fn run_lines(st: RtState, lines: Seq<Seq<char>>, last: JsVal) -> (RtState, JsVal)
    decreases lines.len(),
{
    if lines.len() == 0 {
        (st, last)
    } else {
        let l = line_statement(lines[0]);
        if skipped(l) {
            run_lines(st, lines.drop_first(), last)
        } else {
            let (st2, v) = statement_spec(st, l);
            run_lines(st2, lines.drop_first(), v)
        }
    }
}

/// `execute`: a script run line by line from state `st`.
pub open spec fn execute_spec(st: RtState, script: Seq<char>) -> (RtState, JsVal) {
    run_lines(st, lines_of(script), JsVal::Undefined)
}

/// The written form of a value other than a number (`js_value_to_string`).
pub open spec fn value_text(v: JsVal) -> Seq<char> {
    match v {
        JsVal::Undefined => "undefined"@,
        JsVal::Null => "null"@,
        JsVal::Boolean(b) => if b { "true"@ } else { "false"@ },
        JsVal::Number(t) => t,
        JsVal::Str(s) => s,
        JsVal::Object(_) => "[object Object]"@,
    }
}

/// The text `console.log` writes for a value. A number's text takes floating-point formatting,
/// which the embedder does; this function is for the other values.
pub fn js_value_to_string(val: &JsValue) -> (r: String)
    requires
        !(val@ is Number),
    ensures
        r@ == value_text(val@),
{
    match val {
        JsValue::Undefined => "undefined".to_string(),
        JsValue::Null => "null".to_string(),
        JsValue::Boolean(b) => if *b { "true".to_string() } else { "false".to_string() },
        JsValue::Number(t) => t.clone(),
        JsValue::String(s) => s.clone(),
        JsValue::Object(_) => "[object Object]".to_string(),
    }
}

/// A small script interpreter: it keeps global variables, the values written to the console
/// and the document changes that scripts asked for.
pub struct JsRuntime {
    pub globals: StrMap<JsValue>,
    pub dom_mutations: Vec<DomMutation>,
    /// The values handed to `console.log`, in order.
    pub console_log: Vec<JsValue>,
}

impl View for JsRuntime {
    type V = RtState;

    open spec fn view(&self) -> RtState {
        RtState {
            globals: self.globals@,
            mutations: self.dom_mutations@.map_values(|m: DomMutation| m@),
            log: self.console_log@.map_values(|v: JsValue| v@),
        }
    }
}

impl JsRuntime {
    pub open spec fn wf(&self) -> bool {
        self.globals.wf()
    }

    pub fn new() -> (rt: JsRuntime)
        ensures
            rt.wf(),
            rt@.globals == Map::<Seq<char>, JsVal>::empty(),
            rt@.mutations == Seq::<Mutation>::empty(),
            rt@.log == Seq::<JsVal>::empty(),
    {
        let rt = JsRuntime { globals: StrMap::new(), dom_mutations: Vec::new(), console_log: Vec::new() };
        assert(rt@.mutations =~= Seq::<Mutation>::empty());
        assert(rt@.log =~= Seq::<JsVal>::empty());
        rt
    }

    fn eval_expr(&self, v: &Vec<char>, lo: usize, hi: usize) -> (r: JsValue)
        requires
            self.wf(),
            lo <= hi <= v@.len(),
        ensures
            r@ == eval_spec(self.globals@, v@.subrange(lo as int, hi as int)),
    {
        let (a, b) = trim_range(v, lo, hi);
        let e = sub_vec(v, a, b);
        let n = e.len();
        assert(e@.subrange(0, n as int) =~= e@);
        if float_syntax_of(&e) {
            return JsValue::Number(string_of(e.as_slice()));
        }
        if range_is(&e, 0, n, &chars_of("true")) {
            return JsValue::Boolean(true);
        }
        if range_is(&e, 0, n, &chars_of("false")) {
            return JsValue::Boolean(false);
        }
        if range_is(&e, 0, n, &chars_of("null")) {
            return JsValue::Null;
        }
        if range_is(&e, 0, n, &chars_of("undefined")) {
            return JsValue::Undefined;
        }
        if let Some(t) = literal_in(&e, 0, n) {
            return JsValue::String(t);
        }
        let get = chars_of("document.getElementById(");
        if matches_at(&e, 0, &get) && n > get.len() && e[n - 1] == ')' {
            let (c, d) = trim_range(&e, get.len(), n - 1);
            let id = match literal_in(&e, c, d) {
                Some(t) => t,
                None => string_of_range(&e, c, d),
            };
            let mut props: Vec<(String, JsValue)> = Vec::new();
            props.push(("__element_id__".to_string(), JsValue::String(id)));
            proof {
                assert(props@.subrange(0, 0) =~= Seq::<(String, JsValue)>::empty());
                assert(props_map(props@.subrange(0, 0)) == Map::<Seq<char>, JsVal>::empty());
                assert(props@[0].0@ == element_id_key());
                assert(props@.len() == 1);
                assert(js_val(props@[0].1) == JsVal::Str(id@));
                assert(props_map(props@) == props_map(props@.subrange(0, 0)).insert(
                    props@[0].0@,
                    js_val(props@[0].1),
                ));
                assert(props_map(props@) == Map::<Seq<char>, JsVal>::empty().insert(
                    element_id_key(),
                    JsVal::Str(id@),
                ));
            }
            return JsValue::Object(props);
        }
        if ident_in(&e, 0, n) {
            let key = string_of(e.as_slice());
            if let Some(val) = self.globals.get(key.as_str()) {
                return val.duplicate();
            }
        }
        JsValue::Undefined
    }

    fn resolve_element_id(&self, name: &str) -> (r: String)
        requires
            self.wf(),
        ensures
            r@ == resolve_spec(self.globals@, name@),
    {
        if let Some(val) = self.globals.get(name) {
            if let Some(JsValue::String(id)) = val.property("__element_id__") {
                return id.clone();
            }
        }
        name.to_string()
    }

    fn eval_statement(&mut self, s: &Vec<char>) -> (r: Result<JsValue, JsError>)
        requires
            old(self).wf(),
        ensures
            final(self).wf(),
            r matches Ok(v) && (final(self)@, v@) == statement_spec(old(self)@, s@),
    {
        let n = s.len();
        let var_kw = chars_of("var ");
        let let_kw = chars_of("let ");
        let const_kw = chars_of("const ");
        let start: Option<usize> = if matches_at(s, 0, &var_kw) {
            Some(var_kw.len())
        } else if matches_at(s, 0, &let_kw) {
            Some(let_kw.len())
        } else if matches_at(s, 0, &const_kw) {
            Some(const_kw.len())
        } else {
            None
        };
        let eqv: Vec<char> = vec!['='];
        assert(eqv@ =~= seq!['=']);
        if let Some(k) = start {
            let rest = sub_vec(s, k, n);
            assert(rest@ =~= s@.skip(k as int));
            if let Some(e) = find_chars(&rest, 0, &eqv) {
                proof {
                    crate::text::lemma_find_from(rest@, 0, eqv@);
                }
                let m = rest.len();
                let (a, b) = trim_range(&rest, 0, e);
                let name = string_of_range(&rest, a, b);
                let (c, d) = trim_range(&rest, e + 1, m);
                proof {
                    assert(rest@.take(e as int) =~= rest@.subrange(0, e as int));
                    assert(rest@.skip(e + 1) =~= rest@.subrange(e + 1, m as int));
                }
                let v = self.eval_expr(&rest, c, d);
                let kept = v.duplicate();
                self.globals.insert(name, kept);
                return Ok(v);
            }
        }
        let log_kw = chars_of("console.log(");
        if matches_at(s, 0, &log_kw) && n > log_kw.len() && s[n - 1] == ')' {
            let (a, b) = trim_range(s, log_kw.len(), n - 1);
            let v = self.eval_expr(s, a, b);
            let ghost before = self.console_log@;
            self.console_log.push(v);
            proof {
                assert(self.console_log@.map_values(|x: JsValue| x@) =~= before.map_values(
                    |x: JsValue| x@,
                ).push(v@));
            }
            return Ok(JsValue::Undefined);
        }
        let set_kw = chars_of(".setAttribute(");
        if let Some(dot) = find_method_call(s, &set_kw) {
            proof {
                crate::text::lemma_find_from(s@, 0, set_kw@);
            }
            let st = dot + set_kw.len();
            if st < n && s[n - 1] == ')' {
                proof {
                    let args = s@.skip(st as int);
                    assert(args.drop_last() =~= s@.subrange(st as int, n - 1));
                    assert(args[args.len() - 1] == s@[n - 1]);
                }
                if let Some((key, value)) = two_args_in(s, st, n - 1) {
                    let (a, b) = trim_range(s, 0, dot);
                    assert(s@.take(dot as int) =~= s@.subrange(0, dot as int));
                    let name = string_of_range(s, a, b);
                    let element_id = self.resolve_element_id(name.as_str());
                    let m = DomMutation::SetAttribute { element_id, key, value };
                    let ghost before = self.dom_mutations@;
                    self.dom_mutations.push(m);
                    proof {
                        assert(self.dom_mutations@.map_values(|x: DomMutation| x@)
                            =~= before.map_values(|x: DomMutation| x@).push(m@));
                    }
                    return Ok(JsValue::Undefined);
                }
            } else {
                proof {
                    let args = s@.skip(st as int);
                    if args.len() > 0 {
                        assert(args[args.len() - 1] == s@[n - 1]);
                    }
                }
            }
        }
        let text_kw = chars_of(".textContent = ");
        if let Some(eq) = find_chars(s, 0, &text_kw) {
            proof {
                crate::text::lemma_find_from(s@, 0, text_kw@);
            }
            let (a, b) = trim_range(s, 0, eq);
            assert(s@.take(eq as int) =~= s@.subrange(0, eq as int));
            let name = string_of_range(s, a, b);
            let (c, d) = trim_range(s, eq + text_kw.len(), n);
            assert(s@.skip(eq + text_kw@.len()) =~= s@.subrange(eq + text_kw@.len(), n as int));
            let text = match literal_in(s, c, d) {
                Some(t) => t,
                None => string_of_range(s, c, d),
            };
            let element_id = self.resolve_element_id(name.as_str());
            let m = DomMutation::SetTextContent { element_id, text };
            let ghost before = self.dom_mutations@;
            self.dom_mutations.push(m);
            proof {
                assert(self.dom_mutations@.map_values(|x: DomMutation| x@) =~= before.map_values(
                    |x: DomMutation| x@,
                ).push(m@));
            }
            return Ok(JsValue::Undefined);
        }
        let assign_kw = chars_of(" = ");
        if let Some(eq) = find_chars(s, 0, &assign_kw) {
            proof {
                crate::text::lemma_find_from(s@, 0, assign_kw@);
            }
            let (a, b) = trim_range(s, 0, eq);
            assert(s@.take(eq as int) =~= s@.subrange(0, eq as int));
            if ident_in(s, a, b) {
                let name = string_of_range(s, a, b);
                let (c, d) = trim_range(s, eq + assign_kw.len(), n);
                assert(s@.skip(eq + assign_kw@.len()) =~= s@.subrange(
                    eq + assign_kw@.len(),
                    n as int,
                ));
                let v = self.eval_expr(s, c, d);
                let kept = v.duplicate();
                self.globals.insert(name, kept);
                return Ok(v);
            }
        }
        assert(s@.subrange(0, n as int) =~= s@);
        Ok(self.eval_expr(s, 0, n))
    }

    /// Runs a script, line by line, and gives the value of its last statement.
    pub fn execute(&mut self, script: &str) -> (r: Result<JsValue, JsError>)
        requires
            old(self).wf(),
        ensures
            final(self).wf(),
            r matches Ok(v) && (final(self)@, v@) == execute_spec(old(self)@, script@),
    {
        let text = chars_of(script);
        let lines = split_lines(&text);
        let ghost all = lines_view(lines@);
        let slashes = chars_of("//");
        let mut last = JsValue::Undefined;
        let mut i: usize = 0;
        assert(all.skip(0) =~= all);
        while i < lines.len()
            invariant
                self.wf(),
                i <= lines@.len(),
                all == lines_view(lines@),
                all == lines_of(script@),
                slashes@ == "//"@,
                run_lines(self@, all.skip(i as int), last@) == execute_spec(old(self)@, script@),
            decreases lines@.len() - i,
        {
            let raw = &lines[i];
            let (a, b) = trim_range(raw, 0, raw.len());
            let mut e = b;
            while e > a && raw[e - 1] == ';'
                invariant
                    a <= e <= b <= raw@.len(),
                    strip_semis(raw@.subrange(a as int, e as int)) == strip_semis(
                        raw@.subrange(a as int, b as int),
                    ),
                decreases e - a,
            {
                assert(raw@.subrange(a as int, e as int).drop_last() =~= raw@.subrange(
                    a as int,
                    e - 1,
                ));
                e -= 1;
            }
            let stmt = sub_vec(raw, a, e);
            proof {
                assert(raw@.subrange(0, raw@.len() as int) =~= raw@);
                assert(all.skip(i as int)[0] == raw@);
                assert(all.skip(i as int).drop_first() =~= all.skip(i + 1));
            }
            if stmt.len() == 0 || matches_at(&stmt, 0, &slashes) {
                i += 1;
            } else {
                match self.eval_statement(&stmt) {
                    Ok(v) => {
                        last = v;
                    },
                    Err(err) => {
                        return Err(err);
                    },
                }
                i += 1;
            }
        }
        proof {
            assert(all.skip(i as int) =~= Seq::<Seq<char>>::empty());
        }
        Ok(last)
    }

    /// The document changes queued so far.
    pub fn get_dom_mutations(&self) -> (r: &[DomMutation])
        ensures
            r@ == self.dom_mutations@,
    {
        self.dom_mutations.as_slice()
    }

    /// Forgets the queued document changes.
    pub fn clear_mutations(&mut self)
        requires
            old(self).wf(),
        ensures
            final(self).wf(),
            final(self)@ == (RtState { mutations: Seq::empty(), ..old(self)@ }),
    {
        self.dom_mutations.clear();
        assert(self@.mutations =~= Seq::<Mutation>::empty());
    }
}

/// A name made of ASCII letters.
pub open spec fn letters_name(n: Seq<char>) -> bool {
    n.len() > 0 && forall|i: int| 0 <= i < n.len() ==> ('a' <= #[trigger] n[i] <= 'z') || ('A' <= n[i] <= 'Z')
}

/// A script `var NAME = NUMBER;` stores the number, as written, in the variable NAME, and gives
/// it as its value; nothing else changes.
pub proof fn law_var_declaration_stored(st: RtState, name: Seq<char>, number: Seq<char>)
    requires
        letters_name(name),
        float_syntax(number),
    ensures
        execute_spec(st, "var "@ + name + " = "@ + number + ";"@) == (
            with_global(st, name, JsVal::Number(number)),
            JsVal::Number(number),
        ),
{
    reveal_strlit("var ");
    reveal_strlit(" = ");
    reveal_strlit(";");
    crate::text::lemma_float_chars(number);
    let script = "var "@ + name + " = "@ + number + ";"@;
    let stmt = "var "@ + name + " = "@ + number;
    let rest = name + " = "@ + number;
    assert(script =~= stmt.push(';'));
    assert(stmt =~= seq!['v', 'a', 'r', ' '] + rest);
    // One line: no newline anywhere.
    assert forall|m: int| 0 <= m < script.len() implies crate::text::in_class(
        crate::text::CharClass::Not('\n'),
        #[trigger] script[m],
    ) by {
        if m >= 4 + name.len() + 3 && m < script.len() - 1 {
            assert(script[m] == number[m - 4 - name.len() - 3]);
            assert(crate::text::float_char(number[m - 4 - name.len() - 3]));
        } else if 4 <= m < 4 + name.len() {
            assert(script[m] == name[m - 4]);
        }
    }
    crate::text::lemma_scan_run(script, 0, script.len() as int, crate::text::CharClass::Not('\n'));
    assert(lines_of(script) == seq![script]);
    // The statement: trimmed, the `;` cut.
    crate::text::lemma_trim_plain(script);
    assert(stmt.len() > 0 && stmt[stmt.len() - 1] == number[number.len() - 1]);
    assert(crate::text::float_char(number[number.len() - 1]));
    assert(strip_semis(stmt) == stmt);
    assert(strip_semis(script) == stmt) by {
        assert(script.drop_last() =~= stmt);
    }
    assert(line_statement(script) == stmt);
    assert(!skipped(stmt)) by {
        if crate::text::has_at(stmt, 0, "//"@) {
            reveal_strlit("//");
            assert(stmt.subrange(0, 2)[0] == stmt[0]);
        }
    }
    // The declaration.
    assert(crate::text::has_at(stmt, 0, "var "@)) by {
        assert(stmt.subrange(0, 4) =~= "var "@);
    }
    assert(decl_rest(stmt) == Some(rest)) by {
        assert(stmt.skip(4) =~= rest);
    }
    let eq: int = name.len() as int + 1;
    assert(crate::text::has_at(rest, eq as int, seq!['='])) by {
        assert(rest.subrange(eq as int, eq + 1) =~= seq!['=']);
    }
    assert forall|m: int| 0 <= m < eq implies !#[trigger] crate::text::has_at(rest, m, seq!['=']) by {
        if crate::text::has_at(rest, m, seq!['=']) {
            assert(rest.subrange(m, m + 1)[0] == rest[m]);
            if m < name.len() {
                assert(rest[m] == name[m]);
            }
        }
    }
    crate::text::lemma_find_first(rest, seq!['='], eq as int);
    let lhs = rest.take(eq as int);
    assert(lhs =~= name.push(' '));
    assert(crate::text::trim(lhs) == name) by {
        assert(crate::text::scan(lhs, 0, crate::text::CharClass::Space) == 0);
        assert(lhs.skip(0) =~= lhs);
        assert(lhs.drop_last() =~= name);
        assert(crate::text::trim_end_len(name) == name.len());
        assert(crate::text::trim_end_len(lhs) == name.len());
        assert(lhs.take(name.len() as int) =~= name);
    }
    let rhs = rest.skip(eq + 1);
    assert(rhs =~= seq![' '] + number);
    assert(crate::text::trim(rhs) == number) by {
        assert(crate::text::scan(rhs, 1, crate::text::CharClass::Space) == 1);
        assert(crate::text::scan(rhs, 0, crate::text::CharClass::Space) == 1);
        assert(rhs.skip(1) =~= number);
        crate::text::lemma_trim_plain(number);
        assert(crate::text::scan(number, 0, crate::text::CharClass::Space) == 0);
        assert(number.skip(0) =~= number);
        assert(number.take(crate::text::trim_end_len(number)) =~= number);
    }
    assert(crate::text::trim(number) == number) by {
        crate::text::lemma_trim_plain(number);
    }
    assert(eval_spec(st.globals, number) == JsVal::Number(number));
    assert(statement_spec(st, stmt) == (
        with_global(st, name, JsVal::Number(number)),
        JsVal::Number(number),
    ));
    assert(seq![script].drop_first() =~= Seq::<Seq<char>>::empty());
    let after = with_global(st, name, JsVal::Number(number));
    assert(run_lines(after, Seq::<Seq<char>>::empty(), JsVal::Number(number)) == (
        after,
        JsVal::Number(number),
    ));
    assert(seq![script][0] == script);
    assert(run_lines(st, seq![script], JsVal::Undefined) == (after, JsVal::Number(number)));
}

/// `b` keeps all of `a`: `a`'s queued changes and console values begin `b`'s, and every global
/// of `a` is a global of `b`.
pub open spec fn keeps_all(a: RtState, b: RtState) -> bool {
    &&& a.mutations.len() <= b.mutations.len()
    &&& b.mutations.take(a.mutations.len() as int) == a.mutations
    &&& a.log.len() <= b.log.len()
    &&& b.log.take(a.log.len() as int) == a.log
    &&& forall|k: Seq<char>| a.globals.contains_key(k) ==> #[trigger] b.globals.contains_key(k)
}

proof fn lemma_keeps_all_trans(a: RtState, b: RtState, c: RtState)
    requires
        keeps_all(a, b),
        keeps_all(b, c),
    ensures
        keeps_all(a, c),
{
    assert(c.mutations.take(a.mutations.len() as int) =~= b.mutations.take(a.mutations.len() as int));
    assert(c.log.take(a.log.len() as int) =~= b.log.take(a.log.len() as int));
}

proof fn lemma_statement_keeps_all(st: RtState, s: Seq<char>)
    ensures
        keeps_all(st, statement_spec(st, s).0),
{
    let st2 = statement_spec(st, s).0;
    assert(st2.mutations.take(st.mutations.len() as int) =~= st.mutations);
    assert(st2.log.take(st.log.len() as int) =~= st.log);
}

proof fn lemma_run_lines_keeps_all(st: RtState, lines: Seq<Seq<char>>, last: JsVal)
    ensures
        keeps_all(st, run_lines(st, lines, last).0),
    decreases lines.len(),
{
    assert(st.mutations.take(st.mutations.len() as int) =~= st.mutations);
    assert(st.log.take(st.log.len() as int) =~= st.log);
    if lines.len() > 0 {
        let l = line_statement(lines[0]);
        if skipped(l) {
            lemma_run_lines_keeps_all(st, lines.drop_first(), last);
        } else {
            let (st2, v) = statement_spec(st, l);
            lemma_statement_keeps_all(st, l);
            lemma_run_lines_keeps_all(st2, lines.drop_first(), v);
            lemma_keeps_all_trans(st, st2, run_lines(st2, lines.drop_first(), v).0);
        }
    }
}

/// Running a script only adds: the document changes queued and the console values recorded
/// before stay, first and in order, and no global is removed (a global may get a new value).
pub proof fn law_execute_only_adds(st: RtState, script: Seq<char>)
    ensures
        keeps_all(st, execute_spec(st, script).0),
{
    lemma_run_lines_keeps_all(st, lines_of(script), JsVal::Undefined);
}

/// No letter word that is not `inf`, `infinity` or `nan` reads as a number.
proof fn lemma_word_not_number(w: Seq<char>)
    requires
        w.len() > 0,
        'a' <= w[0] && w[0] <= 'z',
        w[0] != 'i' && w[0] != 'n',
    ensures
        !float_syntax(w),
{
    assert(crate::text::unsigned_part(w) == w);
    crate::text::lemma_scan_run(w, 0, 0, crate::text::CharClass::Digit);
    let l = w.map_values(|c: char| crate::text::ascii_lower(c));
    assert(l[0] == w[0]);
    assert(l != seq!['i', 'n', 'f']);
    assert(l != seq!['i', 'n', 'f', 'i', 'n', 'i', 't', 'y']);
    assert(l != seq!['n', 'a', 'n']);
}

/// The literals of the language read as themselves, whatever the variables hold and whatever
/// whitespace stands around them: `true` and `false` as the two booleans, `null` and
/// `undefined` as those values, and text in quotes as that text.
pub proof fn law_literals(g: Map<Seq<char>, JsVal>, x: Seq<char>, body: Seq<char>)
    ensures
        trim(x) == "true"@ ==> eval_spec(g, x) == JsVal::Boolean(true),
        trim(x) == "false"@ ==> eval_spec(g, x) == JsVal::Boolean(false),
        trim(x) == "null"@ ==> eval_spec(g, x) == JsVal::Null,
        trim(x) == "undefined"@ ==> eval_spec(g, x) == JsVal::Undefined,
        trim(x) == seq!['\''] + body + seq!['\''] ==> eval_spec(g, x) == JsVal::Str(body),
        trim(x) == seq!['"'] + body + seq!['"'] ==> eval_spec(g, x) == JsVal::Str(body),
{
    reveal_strlit("true");
    reveal_strlit("false");
    reveal_strlit("null");
    reveal_strlit("undefined");
    let e = trim(x);
    if e == "true"@ {
        lemma_word_not_number(e);
    }
    if e == "false"@ {
        lemma_word_not_number(e);
    }
    if e == "null"@ {
        assert(crate::text::unsigned_part(e) == e);
        crate::text::lemma_scan_run(e, 0, 0, crate::text::CharClass::Digit);
        assert(e.map_values(|c: char| crate::text::ascii_lower(c)) != seq!['n', 'a', 'n']);
    }
    if e == "undefined"@ {
        lemma_word_not_number(e);
    }
    if e == seq!['\''] + body + seq!['\''] || e == seq!['"'] + body + seq!['"'] {
        assert(e[0] == '\'' || e[0] == '"');
        if float_syntax(e) {
            crate::text::lemma_float_chars(e);
            assert(crate::text::float_char(e[0]));
        }
        crate::text::lemma_trim_plain(e);
        assert(e.subrange(1, e.len() - 1) =~= body);
    }
}

} // verus!
