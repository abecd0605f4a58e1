use vstd::prelude::*;
use crate::css::{
    Decl, Declaration, MView, MatchedDeclaration, Rule, RuleView, Sel, Selector, SimpleSelector,
    StyleOrigin, Stylesheet, Val, Value, classify, classify_value, is_cascade_winner,
    is_winner_view, lemma_winner_unique, lemma_winner_views, max_spec, md_view, md_views,
    resolve_cascade,
};
use crate::dom::{DomNode, ElementData, Node, NodeType, lemma_nodes_dom, node_dom, nodes_dom};
use crate::strmap::StrMap;
use crate::text::{
    CharClass, chars_of, find_chars, find_from, has_word, lemma_scan, scan_chars, split_on,
    string_of_range, trim, trim_range, words,
};

verus! {

broadcast use vstd::string::group_string_axioms;

/// Computed style properties, by name.
pub type PropertyMap = StrMap<Value>;

/// The properties that an element passes on to its children.
pub open spec fn inherited_props() -> Seq<Seq<char>> {
    seq![
        "color"@,
        "font-size"@,
        "font-family"@,
        "font-weight"@,
        "font-style"@,
        "line-height"@,
        "text-align"@,
        "visibility"@,
    ]
}

pub open spec fn is_inherited(k: Seq<char>) -> bool {
    inherited_props().contains(k)
}

/// The value of attribute `name`, or the empty text where it is missing.
pub open spec fn attr_or_empty(attrs: Map<Seq<char>, Seq<char>>, name: Seq<char>) -> Seq<char> {
    if attrs.contains_key(name) {
        attrs[name]
    } else {
        Seq::empty()
    }
}

/// `simple_selector_matches`: the tag name, the id and every class of the selector match.
pub open spec fn selector_matches(sel: Sel, tag: Seq<char>, attrs: Map<Seq<char>, Seq<char>>) -> bool {
    &&& sel.tag_name matches Some(t) ==> t == tag
    &&& sel.id matches Some(i) ==> i == attr_or_empty(attrs, "id"@)
    &&& forall|k: int|
        0 <= k < sel.class.len() ==> words(attr_or_empty(attrs, "class"@)).contains(
            #[trigger] sel.class[k],
        )
}

/// `rule_matches`: some selector of the rule matches.
pub open spec fn rule_matches(r: RuleView, tag: Seq<char>, attrs: Map<Seq<char>, Seq<char>>) -> bool {
    exists|i: int| 0 <= i < r.selectors.len() && selector_matches(#[trigger] r.selectors[i], tag, attrs)
}

/// The declarations of a matching rule, with the rule's specificity.
pub open spec fn rule_decls(r: RuleView) -> Seq<MView> {
    r.declarations.map_values(
        |d: Decl| MView { decl: d, specificity: max_spec(r.selectors), inline: false },
    )
}

/// The declarations of the stylesheet's rules that match, rule by rule.
pub open spec fn external_decls(
    rules: Seq<RuleView>,
    tag: Seq<char>,
    attrs: Map<Seq<char>, Seq<char>>,
) -> Seq<MView>
    decreases rules.len(),
{
    if rules.len() == 0 {
        Seq::empty()
    } else {
        let last = if rule_matches(rules.last(), tag, attrs) {
            rule_decls(rules.last())
        } else {
            Seq::empty()
        };
        external_decls(rules.drop_last(), tag, attrs) + last
    }
}

/// The declaration that one `;`-separated piece of a `style` attribute holds, if any.
pub open spec fn piece_decl(piece: Seq<char>) -> Option<Decl> {
    let part = trim(piece);
    let colon = find_from(part, 0, seq![':']);
    if part.len() == 0 || colon < 0 {
        None
    } else {
        let name = trim(part.take(colon));
        let value = trim(part.skip(colon + 1));
        if name.len() == 0 || value.len() == 0 {
            None
        } else {
            Some(Decl { name, value: classify_value(value) })
        }
    }
}

pub open spec fn pieces_decls(ps: Seq<Seq<char>>) -> Seq<Decl>
    decreases ps.len(),
{
    if ps.len() == 0 {
        Seq::empty()
    } else {
        let first = match piece_decl(ps[0]) {
            Some(d) => seq![d],
            None => Seq::empty(),
        };
        first + pieces_decls(ps.drop_first())
    }
}

/// `parse_inline_style`: the declarations of a `style` attribute.
pub open spec fn inline_decls(style: Seq<char>) -> Seq<Decl> {
    pieces_decls(split_on(style, ';'))
}

/// The declarations of the element's own `style` attribute, above any stylesheet.
pub open spec fn inline_views(attrs: Map<Seq<char>, Seq<char>>) -> Seq<MView> {
    if attrs.contains_key("style"@) {
        inline_decls(attrs["style"@]).map_values(
            |d: Decl| MView { decl: d, specificity: (0, 0, 0), inline: true },
        )
    } else {
        Seq::empty()
    }
}

/// Every declaration that applies to an element, in cascade order.
pub open spec fn matched_decls(
    rules: Seq<RuleView>,
    tag: Seq<char>,
    attrs: Map<Seq<char>, Seq<char>>,
) -> Seq<MView> {
    external_decls(rules, tag, attrs) + inline_views(attrs)
}

/// The declarations of `ms` for property `k`, in order.
pub open spec fn named(ms: Seq<MView>, k: Seq<char>) -> Seq<MView>
    decreases ms.len(),
{
    if ms.len() == 0 {
        Seq::empty()
    } else {
        let last = if ms.last().decl.name == k {
            seq![ms.last()]
        } else {
            Seq::empty()
        };
        named(ms.drop_last(), k) + last
    }
}

/// The value that the cascade picks among `ds`.
pub open spec fn winner_value(ds: Seq<MView>) -> Val {
    ds[choose|i: int| is_winner_view(ds, i)].decl.value
}

/// `compute_element_styles`: the inherited properties, overridden by the cascade's winner
/// for each property that some declaration sets.
pub open spec fn element_styles(
    rules: Seq<RuleView>,
    tag: Seq<char>,
    attrs: Map<Seq<char>, Seq<char>>,
    inherited: Map<Seq<char>, Val>,
) -> Map<Seq<char>, Val> {
    let ms = matched_decls(rules, tag, attrs);
    Map::new(
        |k: Seq<char>| named(ms, k).len() > 0 || (is_inherited(k) && inherited.contains_key(k)),
        |k: Seq<char>|
            if named(ms, k).len() > 0 {
                winner_value(named(ms, k))
            } else {
                inherited[k]
            },
    )
}

/// The inherited properties alone.
pub open spec fn inherited_only(inherited: Map<Seq<char>, Val>) -> Map<Seq<char>, Val> {
    Map::new(|k: Seq<char>| is_inherited(k) && inherited.contains_key(k), |k: Seq<char>| inherited[k])
}

/// `build_inherited_map`: what the children of an element inherit.
pub open spec fn child_inherited(styles: Map<Seq<char>, Val>, inherited: Map<Seq<char>, Val>) -> Map<
    Seq<char>,
    Val,
> {
    Map::new(
        |k: Seq<char>| inherited.contains_key(k) || (is_inherited(k) && styles.contains_key(k)),
        |k: Seq<char>|
            if is_inherited(k) && styles.contains_key(k) {
                styles[k]
            } else {
                inherited[k]
            },
    )
}

/// A node with its computed style, as a mathematical value.
pub enum StyledTree {
    Styled(DomNode, Map<Seq<char>, Val>, Seq<StyledTree>),
}

/// `compute_node`: the styled tree of a node that inherits `inherited`.
pub open spec fn styled_of(rules: Seq<RuleView>, n: DomNode, inherited: Map<Seq<char>, Val>) -> StyledTree
    decreases n, 1int,
{
    match n {
        DomNode::Element(tag, attrs, kids) => {
            let st = element_styles(rules, tag, attrs, inherited);
            StyledTree::Styled(n, st, styled_list(rules, kids, child_inherited(st, inherited)))
        },
        DomNode::Text(_) => StyledTree::Styled(n, inherited_only(inherited), Seq::empty()),
    }
}

pub open spec fn styled_list(rules: Seq<RuleView>, kids: Seq<DomNode>, inherited: Map<Seq<char>, Val>) -> Seq<StyledTree>
    decreases kids, 0int,
{
    if kids.len() == 0 {
        Seq::empty()
    } else {
        styled_list(rules, kids.subrange(0, kids.len() - 1), inherited).push(
            styled_of(rules, kids[kids.len() - 1], inherited),
        )
    }
}

/// A node with its computed style.
#[derive(Debug)]
pub struct StyledNode {
    pub node: Node,
    pub styles: PropertyMap,
    pub children: Vec<StyledNode>,
}

pub open spec fn styled_view(s: StyledNode) -> StyledTree
    decreases s, 1int,
{
    StyledTree::Styled(s.node@, s.styles@, styled_views(s.children@))
}

pub open spec fn styled_views(s: Seq<StyledNode>) -> Seq<StyledTree>
    decreases s, 0int,
{
    if s.len() == 0 {
        Seq::empty()
    } else {
        styled_views(s.subrange(0, s.len() - 1)).push(styled_view(s[s.len() - 1]))
    }
}

impl View for StyledNode {
    type V = StyledTree;

    open spec fn view(&self) -> StyledTree {
        styled_view(*self)
    }
}

proof fn lemma_contains_push(s: Seq<Seq<char>>, x: Seq<char>, k: Seq<char>)
    ensures
        s.push(x).contains(k) <==> (s.contains(k) || k == x),
{
    if s.push(x).contains(k) {
        let i = choose|i: int| 0 <= i < s.push(x).len() && s.push(x)[i] == k;
        if i < s.len() {
            assert(s[i] == k);
        }
    }
    if s.contains(k) {
        let i = choose|i: int| 0 <= i < s.len() && s[i] == k;
        assert(s.push(x)[i] == k);
    }
    if k == x {
        assert(s.push(x)[s.len() as int] == k);
    }
}

proof fn lemma_named_step(ms: Seq<MView>, k: Seq<char>, i: int)
    requires
        0 <= i < ms.len(),
    ensures
        named(ms.take(i + 1), k).len() > 0 <==> (named(ms.take(i), k).len() > 0 || ms[i].decl.name == k),
{
    let t = ms.take(i + 1);
    assert(t.drop_last() =~= ms.take(i));
    assert(t.last() == ms[i]);
}

proof fn lemma_named_nonempty(ms: Seq<MView>, k: Seq<char>, i: int)
    requires
        0 <= i < ms.len(),
        ms[i].decl.name == k,
    ensures
        named(ms, k).len() > 0,
    decreases ms.len(),
{
    if i < ms.len() - 1 {
        lemma_named_nonempty(ms.drop_last(), k, i);
    }
}

/// The cascade's winner is the value `winner_value` names.
proof fn lemma_winner_value(ds: Seq<MatchedDeclaration>, i: int)
    requires
        is_cascade_winner(ds, i),
    ensures
        winner_value(md_views(ds)) == ds[i].declaration.value@,
{
    lemma_winner_views(ds, i);
    let vs = md_views(ds);
    let c = choose|c: int| is_winner_view(vs, c);
    lemma_winner_unique(vs, c, i);
}

fn copy_matched(m: &MatchedDeclaration) -> (r: MatchedDeclaration)
    ensures
        md_view(r) == md_view(*m),
{
    let origin = match m.origin {
        StyleOrigin::External => StyleOrigin::External,
        StyleOrigin::Inline => StyleOrigin::Inline,
    };
    MatchedDeclaration {
        declaration: m.declaration.duplicate(),
        specificity: (m.specificity.0, m.specificity.1, m.specificity.2),
        origin,
    }
}

/// The declarations for property `name`, in order.
fn declarations_named(matched: &Vec<MatchedDeclaration>, name: &str) -> (r: Vec<MatchedDeclaration>)
    ensures
        md_views(r@) == named(md_views(matched@), name@),
{
    let mut out: Vec<MatchedDeclaration> = Vec::new();
    let n = matched.len();
    let ghost ms = md_views(matched@);
    for j in 0..n
        invariant
            n == matched@.len(),
            ms == md_views(matched@),
            md_views(out@) == named(ms.take(j as int), name@),
    {
        let ghost before = out@;
        proof {
            let t = ms.take(j + 1);
            assert(t.drop_last() =~= ms.take(j as int));
            assert(t.last() == md_view(matched@[j as int]));
        }
        if crate::text::str_eq(matched[j].declaration.name.as_str(), name) {
            let c = copy_matched(&matched[j]);
            out.push(c);
            assert(md_views(out@) =~= md_views(before).push(md_view(c)));
        }
        proof {
            assert(named(ms.take(j + 1), name@) =~= md_views(out@));
        }
    }
    assert(ms.take(n as int) =~= ms);
    out
}

/// The inherited properties of `inherited`, alone.
fn inherited_only_map(inherited: &PropertyMap) -> (r: PropertyMap)
    requires
        inherited.wf(),
    ensures
        r.wf(),
        r@ == inherited_only(inherited@),
{
    let props = [
        "color",
        "font-size",
        "font-family",
        "font-weight",
        "font-style",
        "line-height",
        "text-align",
        "visibility",
    ];
    let ghost names = inherited_props();
    assert(props@.map_values(|p: &str| p@) =~= names);
    let mut styles: PropertyMap = StrMap::new();
    for t in 0..8
        invariant
            styles.wf(),
            inherited.wf(),
            props@.map_values(|p: &str| p@) == names,
            names == inherited_props(),
            styles@ == Map::new(
                |k: Seq<char>| names.take(t as int).contains(k) && inherited@.contains_key(k),
                |k: Seq<char>| inherited@[k],
            ),
    {
        let prop = props[t];
        proof {
            assert(names[t as int] == prop@);
            assert(names.take(t + 1) =~= names.take(t as int).push(prop@));
            assert forall|k: Seq<char>| names.take(t + 1).contains(k) <==> (names.take(
                t as int,
            ).contains(k) || k == prop@) by {
                lemma_contains_push(names.take(t as int), prop@, k);
            }
        }
        if let Some(v) = inherited.get(prop) {
            styles.insert(prop.to_string(), v.duplicate());
        }
        proof {
            let target = Map::new(
                |k: Seq<char>| names.take(t + 1).contains(k) && inherited@.contains_key(k),
                |k: Seq<char>| inherited@[k],
            );
            assert forall|k: Seq<char>| #[trigger] target.contains_key(k) <==> styles@.contains_key(k) by {
                lemma_contains_push(names.take(t as int), prop@, k);
            }
            assert forall|k: Seq<char>| #[trigger] target.contains_key(k) implies target[k] == styles@[k] by {
                lemma_contains_push(names.take(t as int), prop@, k);
            }
            assert(target.dom() =~= styles@.dom());
            assert(styles@ =~= target);
        }
    }
    assert(names.take(8) =~= names);
    assert(styles@ =~= inherited_only(inherited@));
    styles
}

/// Parses the declarations of a `style` attribute: `name: value` pieces split at `;`.
pub fn parse_inline_style(style: &str) -> (r: Vec<Declaration>)
    ensures
        r@.map_values(|d: Declaration| d@) == inline_decls(style@),
{
    let v = chars_of(style);
    let n = v.len();
    let colon: Vec<char> = vec![':'];
    assert(colon@ =~= seq![':']);
    let mut decls: Vec<Declaration> = Vec::new();
    let mut start: usize = 0;
    assert(v@.skip(0) =~= v@);
    loop
        invariant_except_break
            decls@.map_values(|d: Declaration| d@) + pieces_decls(split_on(v@.skip(start as int), ';'))
                == inline_decls(style@),
        invariant
            n == v@.len(),
            start <= n,
            colon@ == seq![':'],
            v@ == style@,
        ensures
            decls@.map_values(|d: Declaration| d@) == inline_decls(style@),
        decreases n + 1 - start,
    {
        let ghost rest = v@.skip(start as int);
        let j = scan_chars(&v, start, CharClass::Not(';'));
        proof {
            lemma_scan(v@, start as int, CharClass::Not(';'));
            crate::text::lemma_scan_shift_by(v@, start as int, CharClass::Not(';'));
        }
        let ghost piece = v@.subrange(start as int, j as int);
        let (a, b) = trim_range(&v, start, j);
        let part = crate::text::sub_vec(&v, a, b);
        let ghost found: Option<Decl> = None;
        let mut got: Option<Declaration> = None;
        if a < b {
            if let Some(c) = find_chars(&part, 0, &colon) {
                proof {
                    crate::text::lemma_find_from(part@, 0, colon@);
                }
                let m = part.len();
                let (na, nb) = trim_range(&part, 0, c);
                let (va, vb) = trim_range(&part, c + 1, m);
                proof {
                    assert(part@.take(c as int) =~= part@.subrange(0, c as int));
                    assert(part@.skip(c + 1) =~= part@.subrange(c + 1, m as int));
                }
                if na < nb && va < vb {
                    let name = string_of_range(&part, na, nb);
                    let value = classify(string_of_range(&part, va, vb));
                    got = Some(Declaration { name, value });
                }
            }
        }
        proof {
            assert(piece_decl(piece) == match got {
                Some(d) => Some(d@),
                None => None::<Decl>,
            });
        }
        let ghost before = decls@;
        if let Some(d) = got {
            decls.push(d);
        }
        proof {
            let first = match piece_decl(piece) {
                Some(d) => seq![d],
                None => Seq::<Decl>::empty(),
            };
            assert(decls@.map_values(|d: Declaration| d@) =~= before.map_values(|d: Declaration| d@)
                + first);
            if j < n {
                assert(rest.take(j - start) =~= piece);
                assert(rest.skip(j - start + 1) =~= v@.skip(j + 1));
                assert(split_on(rest, ';') == seq![piece] + split_on(v@.skip(j + 1), ';'));
                assert(pieces_decls(seq![piece] + split_on(v@.skip(j + 1), ';')) == first + pieces_decls(
                    split_on(v@.skip(j + 1), ';'),
                )) by {
                    assert((seq![piece] + split_on(v@.skip(j + 1), ';')).drop_first() =~= split_on(
                        v@.skip(j + 1),
                        ';',
                    ));
                }
            } else {
                assert(rest =~= piece);
                assert(split_on(rest, ';') == seq![piece]);
                assert(pieces_decls(seq![piece]) == first + pieces_decls(Seq::<Seq<char>>::empty())) by {
                    assert(seq![piece].drop_first() =~= Seq::<Seq<char>>::empty());
                }
                assert(decls@.map_values(|d: Declaration| d@) + Seq::<Decl>::empty() =~= decls@.map_values(
                    |d: Declaration| d@,
                ));
            }
        }
        if j >= n {
            break;
        }
        start = j + 1;
    }
    decls
}

/// Computes the style of each node of a document from a stylesheet.
pub struct StyleComputer {
    stylesheet: Stylesheet,
}

impl StyleComputer {
    pub closed spec fn rules(&self) -> Seq<RuleView> {
        self.stylesheet@
    }

    pub fn new(stylesheet: Stylesheet) -> (c: Self)
        ensures
            c.rules() == stylesheet@,
    {
        Self { stylesheet }
    }

    /// The styled tree of a document.
    pub fn compute_styles(&self, dom: &Node) -> (r: StyledNode)
        requires
            dom.wf(),
        ensures
            r@ == styled_of(self.rules(), dom@, Map::empty()),
    {
        let none: PropertyMap = StrMap::new();
        self.compute_node(dom, &none)
    }

    fn compute_node(&self, node: &Node, inherited: &PropertyMap) -> (r: StyledNode)
        requires
            node.wf(),
            inherited.wf(),
        ensures
            r@ == styled_of(self.rules(), node@, inherited@),
        decreases node,
    {
        match &node.node_type {
            NodeType::Element(elem) => {
                let styles = self.compute_element_styles(elem, inherited);
                let child_inherited = self.build_inherited_map(&styles, inherited);
                let ghost kd = nodes_dom(node.children@);
                proof {
                    lemma_nodes_dom(node.children@);
                }
                let mut children: Vec<StyledNode> = Vec::new();
                let n = node.children.len();
                let mut i: usize = 0;
                assert(kd.take(0) =~= Seq::<DomNode>::empty());
                while i < n
                    invariant
                        n == node.children@.len(),
                        i <= n,
                        child_inherited.wf(),
                        kd == nodes_dom(node.children@),
                        kd.len() == n,
                        forall|j: int| 0 <= j < n ==> #[trigger] kd[j] == node_dom(node.children@[j]),
                        forall|j: int| 0 <= j < n ==> #[trigger] crate::dom::node_wf(node.children@[j]),
                        styled_views(children@) == styled_list(self.rules(), kd.take(i as int), child_inherited@),
                    decreases n - i,
                {
                    proof {
                        vstd::std_specs::vec::axiom_vec_index_decreases(node.children, i as int);
                        assert(decreases_to!(*node => node.children));
                        assert(decreases_to!(node.children => node.children@[i as int]));
                        assert(decreases_to!(*node => node.children@[i as int]));
                    }
                    let c = self.compute_node(&node.children[i], &child_inherited);
                    let ghost before = children@;
                    children.push(c);
                    proof {
                        assert(children@.subrange(0, children@.len() - 1) =~= before);
                        let t = kd.take(i + 1);
                        assert(t.subrange(0, t.len() - 1) =~= kd.take(i as int));
                        assert(t[t.len() - 1] == kd[i as int]);
                    }
                    i += 1;
                }
                assert(kd.take(n as int) =~= kd);
                StyledNode { node: node.duplicate(), styles, children }
            },
            NodeType::Text(_) => {
                let styles = inherited_only_map(inherited);
                let r = StyledNode { node: node.duplicate(), styles, children: Vec::new() };
                assert(r.children@ =~= Seq::<StyledNode>::empty());
                r
            },
        }
    }

    fn compute_element_styles(&self, elem: &ElementData, inherited: &PropertyMap) -> (r: PropertyMap)
        requires
            elem.attributes.wf(),
            inherited.wf(),
        ensures
            r.wf(),
            r@ == element_styles(self.rules(), elem.tag_name@, elem.attributes@, inherited@),
    {
        let ghost rules = self.rules();
        let ghost tag = elem.tag_name@;
        let ghost attrs = elem.attributes@;
        let mut matched: Vec<MatchedDeclaration> = Vec::new();
        let nr = self.stylesheet.rules.len();
        let mut ri: usize = 0;
        assert(rules.take(0) =~= Seq::<RuleView>::empty());
        while ri < nr
            invariant
                nr == self.stylesheet.rules@.len(),
                rules == self.rules(),
                rules == self.stylesheet@,
                ri <= nr,
                elem.attributes.wf(),
                tag == elem.tag_name@,
                attrs == elem.attributes@,
                md_views(matched@) == external_decls(rules.take(ri as int), tag, attrs),
            decreases nr - ri,
        {
            let rule = &self.stylesheet.rules[ri];
            proof {
                let t = rules.take(ri + 1);
                assert(t.drop_last() =~= rules.take(ri as int));
                assert(t.last() == rule@);
            }
            if self.rule_matches(rule, elem) {
                let spec = rule.max_specificity();
                let nd = rule.declarations.len();
                let ghost base = md_views(matched@);
                let ghost rd = rule_decls(rule@);
                for di in 0..nd
                    invariant
                        nd == rule.declarations@.len(),
                        rd == rule_decls(rule@),
                        crate::css::spec_of(spec) == max_spec(rule@.selectors),
                        md_views(matched@) == base + rd.take(di as int),
                {
                    let ghost before = matched@;
                    let m = MatchedDeclaration {
                        declaration: rule.declarations[di].duplicate(),
                        specificity: (spec.0, spec.1, spec.2),
                        origin: StyleOrigin::External,
                    };
                    matched.push(m);
                    proof {
                        assert(md_views(matched@) =~= md_views(before).push(md_view(m)));
                        assert(rd.take(di + 1) =~= rd.take(di as int).push(rd[di as int]));
                    }
                }
                assert(rd.take(nd as int) =~= rd);
            }
            ri += 1;
        }
        assert(rules.take(nr as int) =~= rules);
        let ghost ext = md_views(matched@);
        if let Some(inline_css) = elem.attributes.get("style") {
            let inline = parse_inline_style(inline_css.as_str());
            let ghost iv = inline_views(attrs);
            let ni = inline.len();
            for di in 0..ni
                invariant
                    ni == inline@.len(),
                    inline@.map_values(|d: Declaration| d@) == inline_decls(attrs["style"@]),
                    attrs.contains_key("style"@),
                    iv == inline_views(attrs),
                    md_views(matched@) == ext + iv.take(di as int),
            {
                let ghost before = matched@;
                let m = MatchedDeclaration {
                    declaration: inline[di].duplicate(),
                    specificity: (0, 0, 0),
                    origin: StyleOrigin::Inline,
                };
                matched.push(m);
                proof {
                    assert(md_views(matched@) =~= md_views(before).push(md_view(m)));
                    assert(inline@.map_values(|d: Declaration| d@)[di as int] == inline@[di as int]@);
                    assert(iv.take(di + 1) =~= iv.take(di as int).push(iv[di as int]));
                }
            }
            assert(iv.take(ni as int) =~= iv);
        } else {
            assert(inline_views(attrs) =~= Seq::<MView>::empty());
            assert(ext + Seq::<MView>::empty() =~= ext);
        }
        let ghost ms = md_views(matched@);
        assert(ms == matched_decls(rules, tag, attrs));
        let mut styles = inherited_only_map(inherited);
        let nm = matched.len();
        let mut i: usize = 0;
        proof {
            assert(ms.take(0) =~= Seq::<MView>::empty());
            assert(styles@ =~= Map::new(
                |k: Seq<char>| named(ms.take(0), k).len() > 0 || (is_inherited(k) && inherited@.contains_key(k)),
                |k: Seq<char>| if named(ms.take(0), k).len() > 0 { winner_value(named(ms, k)) } else { inherited@[k] },
            ));
        }
        while i < nm
            invariant
                nm == matched@.len(),
                ms == md_views(matched@),
                i <= nm,
                styles.wf(),
                styles@ == Map::new(
                    |k: Seq<char>| named(ms.take(i as int), k).len() > 0 || (is_inherited(k) && inherited@.contains_key(k)),
                    |k: Seq<char>| if named(ms.take(i as int), k).len() > 0 { winner_value(named(ms, k)) } else { inherited@[k] },
                ),
            decreases nm - i,
        {
            let name = &matched[i].declaration.name;
            let group = declarations_named(&matched, name.as_str());
            proof {
                lemma_named_nonempty(ms, name@, i as int);
            }
            let ghost pre = styles@;
            match resolve_cascade(group.as_slice()) {
                Some(w) => {
                    proof {
                        let wi = choose|wi: int| is_cascade_winner(group@, wi) && *w == group@[wi];
                        lemma_winner_value(group@, wi);
                    }
                    styles.insert(name.clone(), w.declaration.value.duplicate());
                },
                None => {},
            }
            proof {
                let target = Map::new(
                    |k: Seq<char>| named(ms.take(i + 1), k).len() > 0 || (is_inherited(k) && inherited@.contains_key(k)),
                    |k: Seq<char>| if named(ms.take(i + 1), k).len() > 0 { winner_value(named(ms, k)) } else { inherited@[k] },
                );
                assert forall|k: Seq<char>| #[trigger] target.contains_key(k) <==> styles@.contains_key(k) by {
                    lemma_named_step(ms, k, i as int);
                }
                assert forall|k: Seq<char>| #[trigger] target.contains_key(k) implies target[k] == styles@[k] by {
                    lemma_named_step(ms, k, i as int);
                }
                assert(target.dom() =~= styles@.dom());
                assert(styles@ =~= target);
            }
            i += 1;
        }
        proof {
            assert(ms.take(nm as int) =~= ms);
            assert(styles@ =~= element_styles(rules, tag, attrs, inherited@));
        }
        styles
    }

    fn rule_matches(&self, rule: &Rule, elem: &ElementData) -> (b: bool)
        requires
            elem.attributes.wf(),
        ensures
            b == rule_matches(rule@, elem.tag_name@, elem.attributes@),
    {
        let n = rule.selectors.len();
        for i in 0..n
            invariant
                n == rule.selectors@.len(),
                elem.attributes.wf(),
                forall|j: int| 0 <= j < i ==> !selector_matches(#[trigger] rule@.selectors[j], elem.tag_name@, elem.attributes@),
        {
            if self.selector_matches(&rule.selectors[i], elem) {
                assert(rule@.selectors[i as int] == rule.selectors@[i as int]@);
                return true;
            }
        }
        false
    }

    fn selector_matches(&self, selector: &Selector, elem: &ElementData) -> (b: bool)
        requires
            elem.attributes.wf(),
        ensures
            b == selector_matches(selector@, elem.tag_name@, elem.attributes@),
    {
        match selector {
            Selector::Simple(simple) => self.simple_selector_matches(simple, elem),
        }
    }

    fn simple_selector_matches(&self, sel: &SimpleSelector, elem: &ElementData) -> (b: bool)
        requires
            elem.attributes.wf(),
        ensures
            b == selector_matches(sel@, elem.tag_name@, elem.attributes@),
    {
        if let Some(tag) = &sel.tag_name {
            if !crate::text::str_eq(tag.as_str(), elem.tag_name.as_str()) {
                return false;
            }
        }
        if let Some(id) = &sel.id {
            let elem_id: &str = match elem.attributes.get("id") {
                Some(s) => s.as_str(),
                None => "",
            };
            proof {
                reveal_strlit("");
                assert(elem_id@ == attr_or_empty(elem.attributes@, "id"@));
            }
            if !crate::text::str_eq(id.as_str(), elem_id) {
                return false;
            }
        }
        if sel.class.len() > 0 {
            let text: Vec<char> = match elem.attributes.get("class") {
                Some(s) => chars_of(s.as_str()),
                None => Vec::new(),
            };
            proof {
                reveal_strlit("");
            }
            assert(text@ == attr_or_empty(elem.attributes@, "class"@));
            let nc = sel.class.len();
            for k in 0..nc
                invariant
                    nc == sel.class@.len(),
                    text@ == attr_or_empty(elem.attributes@, "class"@),
                    forall|j: int| 0 <= j < k ==> words(text@).contains(#[trigger] sel@.class[j]),
            {
                let w = chars_of(sel.class[k].as_str());
                if !has_word(&text, &w) {
                    assert(sel@.class[k as int] == w@);
                    return false;
                }
            }
        }
        true
    }

    fn build_inherited_map(&self, current_styles: &PropertyMap, parent_inherited: &PropertyMap) -> (r: PropertyMap)
        requires
            current_styles.wf(),
            parent_inherited.wf(),
        ensures
            r.wf(),
            r@ == child_inherited(current_styles@, parent_inherited@),
    {
        let props = [
            "color",
            "font-size",
            "font-family",
            "font-weight",
            "font-style",
            "line-height",
            "text-align",
            "visibility",
        ];
        let ghost names = inherited_props();
        assert(props@.map_values(|p: &str| p@) =~= names);
        let mut map = parent_inherited.duplicate();
        let ghost cur = current_styles@;
        let ghost par = parent_inherited@;
        proof {
            assert(names.take(0) =~= Seq::<Seq<char>>::empty());
            assert(map@ =~= Map::new(
                |k: Seq<char>| par.contains_key(k) || (names.take(0).contains(k) && cur.contains_key(k)),
                |k: Seq<char>| if names.take(0).contains(k) && cur.contains_key(k) { cur[k] } else { par[k] },
            ));
        }
        for t in 0..8
            invariant
                map.wf(),
                current_styles.wf(),
                cur == current_styles@,
                props@.map_values(|p: &str| p@) == names,
                names == inherited_props(),
                map@ == Map::new(
                    |k: Seq<char>| par.contains_key(k) || (names.take(t as int).contains(k) && cur.contains_key(k)),
                    |k: Seq<char>| if names.take(t as int).contains(k) && cur.contains_key(k) { cur[k] } else { par[k] },
                ),
        {
            let prop = props[t];
            proof {
                assert(names[t as int] == prop@);
                assert(names.take(t + 1) =~= names.take(t as int).push(prop@));
            }
            if let Some(v) = current_styles.get(prop) {
                map.insert(prop.to_string(), v.duplicate());
            }
            proof {
                let target = Map::new(
                    |k: Seq<char>| par.contains_key(k) || (names.take(t + 1).contains(k) && cur.contains_key(k)),
                    |k: Seq<char>| if names.take(t + 1).contains(k) && cur.contains_key(k) { cur[k] } else { par[k] },
                );
                assert forall|k: Seq<char>| #[trigger] target.contains_key(k) <==> map@.contains_key(k) by {
                    lemma_contains_push(names.take(t as int), prop@, k);
                }
                assert forall|k: Seq<char>| #[trigger] target.contains_key(k) implies target[k] == map@[k] by {
                    lemma_contains_push(names.take(t as int), prop@, k);
                }
                assert(target.dom() =~= map@.dom());
                assert(map@ =~= target);
            }
        }
        assert(names.take(8) =~= names);
        assert(map@ =~= child_inherited(cur, par));
        map
    }
}

/// Children inherit only the inherited properties: a property that is not inherited reaches
/// a child only where the parent had it from above; an inherited property that the element
/// sets reaches its children with the element's value.
pub proof fn law_inheritance(styles: Map<Seq<char>, Val>, inherited: Map<Seq<char>, Val>, k: Seq<char>)
    ensures
        !is_inherited(k) ==> (child_inherited(styles, inherited).contains_key(k) <==> inherited.contains_key(k)),
        is_inherited(k) && styles.contains_key(k) ==> child_inherited(styles, inherited)[k] == styles[k],
        inherited_only(inherited).contains_key(k) ==> is_inherited(k) && inherited_only(inherited)[k] == inherited[k],
{
}

/// A property that some declaration sets gets the cascade's winner among the declarations for
/// it; any other property of the element is an inherited one, with the parent's value.
pub proof fn law_element_styles(
    rules: Seq<RuleView>,
    tag: Seq<char>,
    attrs: Map<Seq<char>, Seq<char>>,
    inherited: Map<Seq<char>, Val>,
    k: Seq<char>,
)
    ensures
        ({
            let st = element_styles(rules, tag, attrs, inherited);
            let ds = named(matched_decls(rules, tag, attrs), k);
            &&& ds.len() > 0 ==> st.contains_key(k) && st[k] == winner_value(ds)
            &&& ds.len() == 0 ==> (st.contains_key(k) <==> is_inherited(k) && inherited.contains_key(k))
            &&& ds.len() == 0 && st.contains_key(k) ==> st[k] == inherited[k]
        }),
{
}

proof fn lemma_class_required(sel: Sel, tag: Seq<char>, attrs: Map<Seq<char>, Seq<char>>, k: int)
    requires
        selector_matches(sel, tag, attrs),
        0 <= k < sel.class.len(),
    ensures
        attrs.contains_key("class"@),
        words(attrs["class"@]).contains(sel.class[k]),
{
    assert(words(attr_or_empty(attrs, "class"@)).contains(sel.class[k]));
    if !attrs.contains_key("class"@) {
        assert(attr_or_empty(attrs, "class"@) =~= Seq::<char>::empty());
        crate::text::lemma_scan(Seq::<char>::empty(), 0, crate::text::CharClass::Space);
        assert(words(Seq::<char>::empty()) =~= Seq::<Seq<char>>::empty());
    }
}

/// What a simple selector asks of an element. Where it names a tag, the element has that tag.
/// Where it names an id, the element's `id` attribute is that id (an element without one
/// matches only the empty id). Each class it names (the `k`th, for any `k`) is one of the
/// whitespace-separated words of the element's `class` attribute. A selector that names an id
/// alone matches exactly the elements with that id.
pub proof fn law_selector_requirements(
    sel: Sel,
    tag: Seq<char>,
    attrs: Map<Seq<char>, Seq<char>>,
    k: int,
)
    ensures
        selector_matches(sel, tag, attrs) && sel.tag_name is Some ==> sel.tag_name->0 == tag,
        selector_matches(sel, tag, attrs) && sel.id is Some ==> (attrs.contains_key("id"@)
            && attrs["id"@] == sel.id->0) || (!attrs.contains_key("id"@) && sel.id->0.len() == 0),
        selector_matches(sel, tag, attrs) && 0 <= k < sel.class.len() ==> attrs.contains_key(
            "class"@,
        ) && words(attrs["class"@]).contains(sel.class[k]),
        sel.tag_name is None && sel.class.len() == 0 && sel.id is Some ==> (selector_matches(
            sel,
            tag,
            attrs,
        ) <==> (attrs.contains_key("id"@) && attrs["id"@] == sel.id->0) || (!attrs.contains_key(
            "id"@,
        ) && sel.id->0.len() == 0)),
{
    if selector_matches(sel, tag, attrs) && 0 <= k < sel.class.len() {
        lemma_class_required(sel, tag, attrs, k);
    }
    if sel.id is Some && !attrs.contains_key("id"@) && sel.id->0.len() == 0 {
        assert(sel.id->0 =~= attr_or_empty(attrs, "id"@));
    }
}

} // verus!
