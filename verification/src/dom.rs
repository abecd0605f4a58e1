use vstd::prelude::*;
use crate::strmap::StrMap;

verus! {

/// Attributes of an element, by name.
pub type AttrMap = StrMap<String>;

/// A parsed document node, as a mathematical value.
pub enum DomNode {
    Element(Seq<char>, Map<Seq<char>, Seq<char>>, Seq<DomNode>),
    Text(Seq<char>),
}

#[derive(Debug)]
pub struct ElementData {
    pub tag_name: String,
    pub attributes: AttrMap,
}

#[derive(Debug)]
pub enum NodeType {
    Element(ElementData),
    Text(String),
}

#[derive(Debug)]
pub struct Node {
    pub children: Vec<Node>,
    pub node_type: NodeType,
}

pub open spec fn node_dom(n: Node) -> DomNode
    decreases n, 1int,
{
    match n.node_type {
        NodeType::Element(e) => DomNode::Element(e.tag_name@, e.attributes@, nodes_dom(n.children@)),
        NodeType::Text(t) => DomNode::Text(t@),
    }
}

pub open spec fn nodes_dom(s: Seq<Node>) -> Seq<DomNode>
    decreases s, 0int,
{
    if s.len() == 0 {
        Seq::empty()
    } else {
        nodes_dom(s.subrange(0, s.len() - 1)).push(node_dom(s[s.len() - 1]))
    }
}

impl View for Node {
    type V = DomNode;

    open spec fn view(&self) -> DomNode {
        node_dom(*self)
    }
}

impl Node {
    /// Every attribute map in the tree is well formed.
    pub open spec fn wf(&self) -> bool {
        node_wf(*self)
    }

    /// A text node: no children.
    pub fn text(data: String) -> (n: Node)
        ensures
            n@ == DomNode::Text(data@),
            n.children@.len() == 0,
            n.wf(),
    {
        let n = Node { children: Vec::new(), node_type: NodeType::Text(data) };
        proof {
            assert(n.children@ =~= Seq::<Node>::empty());
        }
        n
    }

    /// An element node with the given name, attributes and children.
    pub fn elem(name: String, attrs: AttrMap, children: Vec<Node>) -> (n: Node)
        ensures
            n@ == DomNode::Element(name@, attrs@, nodes_dom(children@)),
            n.children@ == children@,
            n.wf() == (attrs.wf() && nodes_wf(children@)),
    {
        Node { children, node_type: NodeType::Element(ElementData { tag_name: name, attributes: attrs }) }
    }
}

pub proof fn lemma_nodes_push(s: Seq<Node>, n: Node)
    ensures
        nodes_dom(s.push(n)) == nodes_dom(s).push(node_dom(n)),
        nodes_wf(s.push(n)) == (nodes_wf(s) && node_wf(n)),
{
    assert(s.push(n).subrange(0, s.len() as int) =~= s);
}

pub proof fn lemma_nodes_dom(s: Seq<Node>)
    ensures
        nodes_dom(s).len() == s.len(),
        forall|i: int| 0 <= i < s.len() ==> #[trigger] nodes_dom(s)[i] == node_dom(s[i]),
        nodes_wf(s) == forall|i: int| 0 <= i < s.len() ==> #[trigger] node_wf(s[i]),
    decreases s.len(),
{
    if s.len() > 0 {
        let p = s.subrange(0, s.len() - 1);
        lemma_nodes_dom(p);
        assert forall|i: int| 0 <= i < s.len() implies #[trigger] nodes_dom(s)[i] == node_dom(s[i]) by {
            if i < s.len() - 1 {
                assert(p[i] == s[i]);
            }
        }
        if nodes_wf(s) {
            assert forall|i: int| 0 <= i < s.len() implies #[trigger] node_wf(s[i]) by {
                if i < s.len() - 1 {
                    assert(p[i] == s[i]);
                    assert(node_wf(p[i]));
                }
            }
        }
        if forall|i: int| 0 <= i < s.len() ==> #[trigger] node_wf(s[i]) {
            assert forall|i: int| 0 <= i < p.len() implies #[trigger] node_wf(p[i]) by {
                assert(p[i] == s[i]);
            }
            assert(node_wf(s[s.len() - 1]));
        }
    }
}

pub open spec fn node_wf(n: Node) -> bool
    decreases n, 1int,
{
    &&& match n.node_type {
        NodeType::Element(e) => e.attributes.wf(),
        NodeType::Text(_) => true,
    }
    &&& nodes_wf(n.children@)
}

pub open spec fn nodes_wf(s: Seq<Node>) -> bool
    decreases s, 0int,
{
    if s.len() == 0 {
        true
    } else {
        nodes_wf(s.subrange(0, s.len() - 1)) && node_wf(s[s.len() - 1])
    }
}

impl Node {
    /// A deep copy of the node.
    pub fn duplicate(&self) -> (r: Node)
        requires
            self.wf(),
        ensures
            r@ == self@,
            r.wf(),
        decreases self,
    {
        let node_type = match &self.node_type {
            NodeType::Element(e) => NodeType::Element(
                ElementData { tag_name: e.tag_name.clone(), attributes: e.attributes.duplicate() },
            ),
            NodeType::Text(t) => NodeType::Text(t.clone()),
        };
        let mut kids: Vec<Node> = Vec::new();
        let n = self.children.len();
        let mut i: usize = 0;
        proof {
            lemma_nodes_dom(self.children@);
        }
        while i < n
            invariant
                n == self.children@.len(),
                i <= n,
                nodes_wf(self.children@),
                forall|j: int| 0 <= j < n ==> #[trigger] node_wf(self.children@[j]),
                nodes_dom(kids@) == nodes_dom(self.children@.take(i as int)),
                nodes_wf(kids@),
            decreases n - i,
        {
            proof {
                vstd::std_specs::vec::axiom_vec_index_decreases(self.children, i as int);
                assert(decreases_to!(*self => self.children));
                assert(decreases_to!(self.children => self.children@[i as int]));
                assert(decreases_to!(*self => self.children@[i as int]));
            }
            let k = self.children[i].duplicate();
            proof {
                lemma_nodes_push(kids@, k);
                lemma_nodes_push(self.children@.take(i as int), self.children@[i as int]);
                assert(self.children@.take(i as int).push(self.children@[i as int]) =~= self.children@.take(i + 1));
            }
            kids.push(k);
            i += 1;
        }
        assert(self.children@.take(n as int) =~= self.children@);
        Node { children: kids, node_type }
    }
}

} // verus!
