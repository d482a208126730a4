use vstd::prelude::*;

use crate::util::{str_chars, string_range};

verus! {

/// The value of one node of a parsed markup tree: the constructs the
/// rewrite passes read and write, plus an opaque stand-in for every
/// other construct, keyed for its owner to recognize.
#[derive(Clone, Debug)]
pub enum NodeValue {
    /// The document root.
    Document,
    /// A run of plain text.
    Text(String),
    /// A fenced code block: its info string and its literal text.
    CodeBlock { info: String, literal: String },
    /// An image: its URL and its title.
    Image { url: String, title: String },
    /// A block of raw HTML.
    HtmlBlock(String),
    /// A run of inline raw HTML.
    HtmlInline(String),
    /// A soft line break.
    SoftBreak,
    /// Any other construct, untouched by every pass; the key lets the
    /// caller recover what it stood for.
    Other(usize),
}

/// The mathematical value of a node value.
#[verifier::ext_equal]
pub enum NodeValueView {
    Document,
    Text(Seq<char>),
    CodeBlock { info: Seq<char>, literal: Seq<char> },
    Image { url: Seq<char>, title: Seq<char> },
    HtmlBlock(Seq<char>),
    HtmlInline(Seq<char>),
    SoftBreak,
    Other(int),
}

impl View for NodeValue {
    type V = NodeValueView;

    open spec fn view(&self) -> NodeValueView {
        match self {
            NodeValue::Document => NodeValueView::Document,
            NodeValue::Text(t) => NodeValueView::Text(t@),
            NodeValue::CodeBlock { info, literal } => NodeValueView::CodeBlock {
                info: info@,
                literal: literal@,
            },
            NodeValue::Image { url, title } => NodeValueView::Image { url: url@, title: title@ },
            NodeValue::HtmlBlock(t) => NodeValueView::HtmlBlock(t@),
            NodeValue::HtmlInline(t) => NodeValueView::HtmlInline(t@),
            NodeValue::SoftBreak => NodeValueView::SoftBreak,
            NodeValue::Other(k) => NodeValueView::Other(*k as int),
        }
    }
}

/// One node of the tree: its value, its source position (line and
/// column), and its children, as indices into the owning tree's arena.
#[derive(Clone, Debug)]
pub struct MdNode {
    pub value: NodeValue,
    pub line: usize,
    pub col: usize,
    pub children: Vec<usize>,
}

/// The mathematical value of a node.
#[verifier::ext_equal]
pub struct MdNodeView {
    pub value: NodeValueView,
    pub line: int,
    pub col: int,
    pub children: Seq<int>,
}

impl View for MdNode {
    type V = MdNodeView;

    open spec fn view(&self) -> MdNodeView {
        MdNodeView {
            value: self.value@,
            line: self.line as int,
            col: self.col as int,
            children: self.children@.map_values(|c: usize| c as int),
        }
    }
}

/// A mutable markup tree in one arena: node 0 is the root, and each
/// node's children sit strictly after it, so every walk down the tree
/// descends through increasing indices.
#[derive(Clone, Debug)]
pub struct MdTree {
    pub nodes: Vec<MdNode>,
}

impl View for MdTree {
    type V = Seq<MdNodeView>;

    open spec fn view(&self) -> Seq<MdNodeView> {
        self.nodes@.map_values(|n: MdNode| n@)
    }
}

/// Every child index points past its parent and into the arena.
pub open spec fn spec_wf_arena(t: Seq<MdNodeView>) -> bool {
    forall|n: int, i: int|
        0 <= n < t.len() && 0 <= i < t[n].children.len() ==> n < #[trigger] t[n].children[i]
            < t.len()
}

impl MdTree {
    /// Every child index points past its parent and into the arena.
    pub open spec fn wf(&self) -> bool {
        spec_wf_arena(self@)
    }

    /// An empty tree: a lone root.
    pub fn new() -> (r: Self)
        ensures
            r@.len() == 1,
            r@[0].value == NodeValueView::Document,
            r@[0].children == Seq::<int>::empty(),
            r.wf(),
    {
        let root = MdNode { value: NodeValue::Document, line: 0, col: 0, children: Vec::new() };
        let mut nodes: Vec<MdNode> = Vec::new();
        nodes.push(root);
        let r = MdTree { nodes };
        proof {
            assert(r@[0].children =~~= Seq::<int>::empty());
        }
        r
    }

    /// How many nodes the arena holds.
    pub fn len(&self) -> (r: usize)
        ensures
            r == self@.len(),
    {
        self.nodes.len()
    }
}

/// What a fenced code block's info string says about rendering it as a
/// diagram: `dot` asks for an untitled diagram, `dot:<title>` for a
/// titled one, anything else for none.
#[derive(Clone, Debug, PartialEq, Eq)]
pub enum GraphvizInfo {
    Untitled,
    Titled(String),
}

/// The mathematical value of a diagram request.
#[verifier::ext_equal]
pub enum GraphvizInfoView {
    Untitled,
    Titled(Seq<char>),
}

impl View for GraphvizInfo {
    type V = GraphvizInfoView;

    open spec fn view(&self) -> GraphvizInfoView {
        match self {
            GraphvizInfo::Untitled => GraphvizInfoView::Untitled,
            GraphvizInfo::Titled(t) => GraphvizInfoView::Titled(t@),
        }
    }
}

/// The diagram request an info string makes, if any.
pub open spec fn spec_graphviz_info(info: Seq<char>) -> Option<GraphvizInfoView> {
    if info.len() >= 4 && info.subrange(0, 4) == seq!['d', 'o', 't', ':'] {
        Some(GraphvizInfoView::Titled(info.skip(4)))
    } else if info == seq!['d', 'o', 't'] {
        Some(GraphvizInfoView::Untitled)
    } else {
        None
    }
}

/// Read a code block's info string as a diagram request: `dot:<title>`
/// asks for a titled diagram, a bare `dot` for an untitled one.
pub fn parse_graphviz_info(infostr: &str) -> (r: Option<GraphvizInfo>)
    ensures
        match r {
            Some(g) => spec_graphviz_info(infostr@) == Some(g@),
            None => spec_graphviz_info(infostr@) is None,
        },
{
    proof {
        reveal_strlit("dot:");
        reveal_strlit("dot");
        assert("dot:"@ =~~= seq!['d', 'o', 't', ':']);
        assert("dot"@ =~~= seq!['d', 'o', 't']);
    }
    let cs = str_chars(infostr);
    let n = cs.len();
    if n >= 4 && cs[0] == 'd' && cs[1] == 'o' && cs[2] == 't' && cs[3] == ':' {
        proof {
            assert(infostr@.subrange(0, 4) =~~= seq!['d', 'o', 't', ':']);
        }
        let title = string_range(&cs, 4, n);
        proof {
            assert(title@ =~~= infostr@.skip(4));
        }
        Some(GraphvizInfo::Titled(title))
    } else {
        proof {
            if infostr@.len() >= 4 && infostr@.subrange(0, 4) == seq!['d', 'o', 't', ':'] {
                assert(infostr@[0] == 'd' && infostr@[1] == 'o' && infostr@[2] == 't'
                    && infostr@[3] == ':');
                assert(false);
            }
        }
        if crate::util::str_eq(infostr, "dot") {
            Some(GraphvizInfo::Untitled)
        } else {
            None
        }
    }
}

/// One diagram to render: which node asked, its source text, its title,
/// and its source position.
#[derive(Clone, Debug)]
pub struct GraphvizJob {
    pub id: usize,
    pub literal: String,
    pub info: GraphvizInfo,
    pub line: usize,
    pub col: usize,
}

/// True when a node is a fenced code block whose info string asks for a
/// diagram.
pub open spec fn spec_is_dot_block(n: MdNodeView) -> bool {
    match n.value {
        NodeValueView::CodeBlock { info, literal } => spec_graphviz_info(info) is Some,
        _ => false,
    }
}

/// Collect every diagram request in the tree, in node order.
pub fn collect_graphviz(tree: &MdTree) -> (r: Vec<GraphvizJob>)
    ensures
        forall|k: int|
            0 <= k < r@.len() ==> {
                let j = #[trigger] r@[k];
                &&& 0 <= j.id < tree@.len()
                &&& spec_is_dot_block(tree@[j.id as int])
                &&& tree@[j.id as int].value matches NodeValueView::CodeBlock { info, literal }
                    ==> (j.literal@ == literal && spec_graphviz_info(info) == Some(j.info@))
                &&& j.line as int == tree@[j.id as int].line
                &&& j.col as int == tree@[j.id as int].col
            },
        forall|n: int|
            0 <= n < tree@.len() && spec_is_dot_block(tree@[n]) ==> exists|k: int|
                0 <= k < r@.len() && #[trigger] r@[k].id == n,
{
    let mut r: Vec<GraphvizJob> = Vec::new();
    let mut n: usize = 0;
    while n < tree.nodes.len()
        invariant
            0 <= n <= tree@.len(),
            forall|k: int|
                0 <= k < r@.len() ==> {
                    let j = #[trigger] r@[k];
                    &&& 0 <= j.id < tree@.len()
                    &&& spec_is_dot_block(tree@[j.id as int])
                    &&& tree@[j.id as int].value matches NodeValueView::CodeBlock {
                        info,
                        literal,
                    } ==> (j.literal@ == literal && spec_graphviz_info(info) == Some(j.info@))
                    &&& j.line as int == tree@[j.id as int].line
                    &&& j.col as int == tree@[j.id as int].col
                },
            forall|m: int|
                0 <= m < n && spec_is_dot_block(tree@[m]) ==> exists|k: int|
                    0 <= k < r@.len() && #[trigger] r@[k].id == m,
        decreases tree@.len() - n,
    {
        let node = &tree.nodes[n];
        match &node.value {
            NodeValue::CodeBlock { info, literal } => {
                match parse_graphviz_info(info.as_str()) {
                    Some(g) => {
                        let ghost pre = r@;
                        r.push(
                            GraphvizJob {
                                id: n,
                                literal: literal.clone(),
                                info: g,
                                line: node.line,
                                col: node.col,
                            },
                        );
                        proof {
                            assert(tree@[n as int].value matches NodeValueView::CodeBlock {
                                info: iv,
                                literal: lv,
                            } && iv == info@ && lv == literal@);
                            assert forall|m: int|
                                0 <= m < n + 1 && spec_is_dot_block(tree@[m]) implies exists|
                                k: int,
                            |
                                0 <= k < r@.len() && #[trigger] r@[k].id == m by {
                                if m == n {
                                    assert(r@[r@.len() - 1].id == m);
                                } else {
                                    let k0 = choose|k0: int|
                                        0 <= k0 < pre.len() && #[trigger] pre[k0].id == m;
                                    assert(r@[k0].id == m);
                                }
                            }
                        }
                    },
                    None => {
                        proof {
                            assert(!spec_is_dot_block(tree@[n as int]));
                        }
                    },
                }
            },
            _ => {
                proof {
                    assert(!spec_is_dot_block(tree@[n as int]));
                }
            },
        }
        n = n + 1;
    }
    r
}

} // verus!
