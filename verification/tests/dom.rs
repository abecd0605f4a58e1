use astra::dom::{AttrMap, ElementData, Node, NodeType};
use quickcheck::{Arbitrary, Gen};

#[derive(Debug, Clone)]
struct ArbElementData(String, Vec<(String, String)>);

impl Arbitrary for ArbElementData {
    fn arbitrary(g: &mut Gen) -> Self {
        let tags = ["div", "span", "p", "a", "ul", "li", "h1", "section"];
        let tag_name = tags[usize::arbitrary(g) % tags.len()].to_string();
        let mut attributes = Vec::new();
        let num_attrs = usize::arbitrary(g) % 3;
        for _ in 0..num_attrs {
            let keys = ["id", "class", "href", "style"];
            let key = keys[usize::arbitrary(g) % keys.len()].to_string();
            let value = String::arbitrary(g)
                .chars()
                .filter(|c| c.is_alphanumeric() || *c == '-' || *c == '_')
                .take(10)
                .collect();
            attributes.push((key, value));
        }
        ArbElementData(tag_name, attributes)
    }
}

impl ArbElementData {
    fn build(&self) -> ElementData {
        let mut attributes = AttrMap::new();
        for (k, v) in &self.1 {
            attributes.insert(k.clone(), v.clone());
        }
        ElementData { tag_name: self.0.clone(), attributes }
    }
}

#[derive(Debug, Clone)]
enum ArbNodeType {
    Element(ArbElementData),
    Text(String),
}

impl Arbitrary for ArbNodeType {
    fn arbitrary(g: &mut Gen) -> Self {
        if bool::arbitrary(g) {
            ArbNodeType::Element(ArbElementData::arbitrary(g))
        } else {
            let text: String = String::arbitrary(g)
                .chars()
                .filter(|c| c.is_alphanumeric() || c.is_whitespace())
                .take(20)
                .collect();
            ArbNodeType::Text(text)
        }
    }
}

#[derive(Debug, Clone)]
struct ArbNode(ArbNodeType, Vec<ArbNode>);

impl Arbitrary for ArbNode {
    fn arbitrary(g: &mut Gen) -> Self {
        let node_type = ArbNodeType::arbitrary(g);
        let children = match &node_type {
            ArbNodeType::Text(_) => vec![],
            ArbNodeType::Element(_) => {
                let num_children = if g.size() > 2 { usize::arbitrary(g) % 3 } else { 0 };
                let mut kids = Vec::new();
                if num_children > 0 {
                    let mut child_gen = Gen::new(g.size() / 2);
                    for _ in 0..num_children {
                        kids.push(ArbNode::arbitrary(&mut child_gen));
                    }
                }
                kids
            }
        };
        ArbNode(node_type, children)
    }
}

impl ArbNode {
    fn build(&self) -> Node {
        let children: Vec<Node> = self.1.iter().map(|c| c.build()).collect();
        let node_type = match &self.0 {
            ArbNodeType::Element(e) => NodeType::Element(e.build()),
            ArbNodeType::Text(t) => NodeType::Text(t.clone()),
        };
        Node { children, node_type }
    }
}

#[test]
fn text_nodes_have_no_children() {
    fn check(text: String) -> bool {
        let node = Node::text(text);
        node.children.is_empty()
    }
    quickcheck::quickcheck(check as fn(String) -> bool);
}

#[test]
fn elem_nodes_preserve_tag_and_attrs() {
    fn check(tag: String, num_children: u8) -> bool {
        let tag = if tag.is_empty() { "div".to_string() } else { tag };
        let attrs = AttrMap::new();
        let children: Vec<Node> =
            (0..num_children % 4).map(|i| Node::text(format!("child {i}"))).collect();
        let expected_children = children.len();
        let node = Node::elem(tag.clone(), attrs, children);
        match &node.node_type {
            NodeType::Element(data) => data.tag_name == tag && node.children.len() == expected_children,
            _ => false,
        }
    }
    quickcheck::quickcheck(check as fn(String, u8) -> bool);
}

#[test]
fn arbitrary_nodes_are_valid() {
    fn check(node: ArbNode) -> bool {
        let node = node.build();
        match &node.node_type {
            NodeType::Text(_) => node.children.is_empty(),
            NodeType::Element(_) => true,
        }
    }
    quickcheck::quickcheck(check as fn(ArbNode) -> bool);
}

#[test]
fn duplicate_is_a_deep_copy() {
    let mut attrs = AttrMap::new();
    attrs.insert("id".to_string(), "x".to_string());
    let node = Node::elem("p".to_string(), attrs, vec![Node::text("hi".to_string())]);
    let copy = node.duplicate();
    let NodeType::Element(e) = &copy.node_type else { panic!() };
    assert_eq!(e.tag_name, "p");
    assert_eq!(e.attributes.get("id").map(|s| s.as_str()), Some("x"));
    assert!(matches!(&copy.children[0].node_type, NodeType::Text(t) if t == "hi"));
}
