use comrak::nodes::{AstNode, NodeValue as CmValue};
use comrak::{parse_document, Arena, Options};
use sitegen::errors::Errors;
use sitegen::pipeline::{
    apply_graphviz, apply_math, apply_relink, collect_math, collect_relink, encode_non_ascii,
    escape_attribute, get_math_html, html_math_block, transform_image_to_picture, GraphvizOutcome,
    KatexError, MarkdownError, MathEntry, MathMode, RelinkOutcome, TransformContext,
};
use sitegen::pipeline::{apply_html_math, collect_html_math, HtmlMathOutcome};
use sitegen::tree::collect_graphviz;
use sitegen::store::{Media, MediaRegistry};
use sitegen::tree::{GraphvizInfo, MdNode, MdTree, NodeValue};

fn node(value: NodeValue, children: Vec<usize>) -> MdNode {
    MdNode {
        value,
        line: 0,
        col: 0,
        children,
    }
}

fn text(t: &str) -> NodeValue {
    NodeValue::Text(t.to_string())
}

/// Mirror a comrak syntax tree into the library's arena form, preorder.
fn convert<'a>(root: &'a AstNode<'a>) -> MdTree {
    let mut nodes: Vec<MdNode> = Vec::new();
    fn go<'a>(n: &'a AstNode<'a>, nodes: &mut Vec<MdNode>) -> usize {
        let value = match &n.data.borrow().value {
            CmValue::Document => NodeValue::Document,
            CmValue::Text(t) => NodeValue::Text(t.to_string()),
            CmValue::Image(l) => NodeValue::Image {
                url: l.url.to_string(),
                title: l.title.to_string(),
            },
            CmValue::CodeBlock(cb) => NodeValue::CodeBlock {
                info: cb.info.to_string(),
                literal: cb.literal.to_string(),
            },
            CmValue::HtmlBlock(b) => NodeValue::HtmlBlock(b.literal.to_string()),
            CmValue::HtmlInline(s) => NodeValue::HtmlInline(s.to_string()),
            CmValue::SoftBreak => NodeValue::SoftBreak,
            _ => NodeValue::Other(0),
        };
        let id = nodes.len();
        nodes.push(MdNode {
            value,
            line: 0,
            col: 0,
            children: Vec::new(),
        });
        let mut kids = Vec::new();
        for c in n.children() {
            kids.push(go(c, nodes));
        }
        nodes[id].children = kids;
        id
    }
    go(root, &mut nodes);
    MdTree { nodes }
}

/// The textual content of the attached tree, walked from the root, as a
/// renderer would see it.
fn tree_text_payloads(tree: &MdTree) -> String {
    fn go(tree: &MdTree, n: usize, all: &mut String) {
        match &tree.nodes[n].value {
            NodeValue::Text(t) => all.push_str(t),
            NodeValue::HtmlBlock(t) => all.push_str(t),
            NodeValue::HtmlInline(t) => all.push_str(t),
            NodeValue::CodeBlock { info, literal } => {
                all.push_str(info);
                all.push_str(literal);
            }
            NodeValue::Image { url, title } => {
                all.push_str(url);
                all.push_str(title);
            }
            _ => {}
        }
        for c in &tree.nodes[n].children {
            go(tree, *c, all);
        }
    }
    let mut all = String::new();
    go(tree, 0, &mut all);
    all
}

#[test]
fn transform_image_to_picture_does_not_duplicate_title() {
    let arena = Arena::new();
    let md = r#"![my title](./some.jpg)"#;
    let root = parse_document(&arena, md, &Options::default());
    let mut tree = convert(root);
    transform_image_to_picture(&mut tree);
    let all = tree_text_payloads(&tree);
    assert_eq!(
        all.match_indices("my title").count(),
        1,
        "the title must occur exactly once.\nFull content: {all}"
    );
}

#[test]
fn figure_wraps_image_and_keeps_caption_once() {
    let mut tree = MdTree {
        nodes: vec![
            node(NodeValue::Document, vec![1]),
            node(
                NodeValue::Image {
                    url: "/static/x.png".to_string(),
                    title: "The caption".to_string(),
                },
                vec![2],
            ),
            node(text("alt words"), vec![]),
        ],
    };
    transform_image_to_picture(&mut tree);
    match &tree.nodes[1].value {
        NodeValue::HtmlBlock(markup) => {
            assert!(markup.starts_with("<figure><picture><a href=\"/static/x.png\">"));
            assert!(markup.contains("alt=\"alt words\""));
            assert!(markup.contains("<figcaption>The caption</figcaption>"));
            assert!(markup.ends_with("</figure>"));
        }
        other => panic!("expected figure markup, got {other:?}"),
    }
    assert!(tree.nodes[1].children.is_empty());
}

#[test]
fn math_pass_splices_in_segment_order() {
    let mut tree = MdTree {
        nodes: vec![
            node(NodeValue::Document, vec![1]),
            node(text("foo $x$ bar"), vec![]),
        ],
    };
    let jobs = collect_math(&tree);
    assert_eq!(jobs.len(), 1);
    assert_eq!(jobs[0].blocks.len(), 3);
    let entries = vec![MathEntry {
        id: jobs[0].id,
        results: vec![
            Ok(String::new()),
            Ok("<span class=\"katex\">x</span>".to_string()),
            Ok(String::new()),
        ],
    }];
    let mut errors: Errors<KatexError> = Errors::new();
    apply_math(&mut tree, &entries, &mut errors);
    assert!(errors.is_empty());
    let kids = &tree.nodes[0].children;
    assert_eq!(kids.len(), 3);
    assert!(matches!(&tree.nodes[kids[0]].value, NodeValue::Text(t) if t == "foo "));
    assert!(
        matches!(&tree.nodes[kids[1]].value, NodeValue::HtmlInline(h) if h.contains("katex"))
    );
    assert!(matches!(&tree.nodes[kids[2]].value, NodeValue::Text(t) if t == " bar"));
}

#[test]
fn failed_math_segment_keeps_source_and_reports() {
    let mut tree = MdTree {
        nodes: vec![
            node(NodeValue::Document, vec![1]),
            node(text("a $b$ c $$d$$"), vec![]),
        ],
    };
    let jobs = collect_math(&tree);
    let entries = vec![MathEntry {
        id: jobs[0].id,
        results: vec![
            Ok(String::new()),
            Err("renderer broke".to_string()),
            Ok(String::new()),
            Ok("<span>D</span>".to_string()),
        ],
    }];
    let mut errors: Errors<KatexError> = Errors::new();
    apply_math(&mut tree, &entries, &mut errors);
    let errs = errors.iter();
    assert_eq!(errs.len(), 1);
    assert_eq!(errs[0].source, "b");
    assert_eq!(errs[0].message, "renderer broke");
    let kids = &tree.nodes[0].children;
    assert_eq!(kids.len(), 4);
    assert!(matches!(&tree.nodes[kids[1]].value, NodeValue::Text(t) if t == "$b$"));
    assert!(matches!(&tree.nodes[kids[3]].value, NodeValue::HtmlInline(h) if h == "<span>D</span>"));
}

#[test]
fn graphviz_blocks_are_collected_and_replaced() {
    let mut tree = MdTree {
        nodes: vec![
            node(NodeValue::Document, vec![1, 2]),
            node(
                NodeValue::CodeBlock {
                    info: "dot:My Graph".to_string(),
                    literal: "digraph { a -> b }".to_string(),
                },
                vec![],
            ),
            node(
                NodeValue::CodeBlock {
                    info: "rust".to_string(),
                    literal: "fn main() {}".to_string(),
                },
                vec![],
            ),
        ],
    };
    let jobs = collect_graphviz(&tree);
    assert_eq!(jobs.len(), 1);
    assert_eq!(jobs[0].literal, "digraph { a -> b }");
    assert_eq!(jobs[0].info, GraphvizInfo::Titled("My Graph".to_string()));
    let mut media = MediaRegistry::new("/static".to_string());
    let mut errors: Errors<MarkdownError> = Errors::new();
    let outcomes = vec![GraphvizOutcome {
        job: jobs.into_iter().next().unwrap(),
        result: Ok("<svg/>".to_string()),
    }];
    let writes = apply_graphviz(&mut tree, &mut media, outcomes, &mut errors);
    assert!(errors.is_empty());
    assert_eq!(writes.len(), 1);
    assert_eq!(writes[0].body, b"<svg/>");
    match &tree.nodes[1].value {
        NodeValue::Image { url, title } => {
            assert!(url.starts_with("/static/"));
            assert!(url.ends_with("/graphviz.svg"));
            assert_eq!(title, "My Graph");
        }
        other => panic!("expected an image, got {other:?}"),
    }
    assert!(matches!(&tree.nodes[2].value, NodeValue::CodeBlock { .. }));
}

#[test]
fn failed_graphviz_leaves_node_and_reports() {
    let mut tree = MdTree {
        nodes: vec![
            node(NodeValue::Document, vec![1]),
            node(
                NodeValue::CodeBlock {
                    info: "dot".to_string(),
                    literal: "digraph {}".to_string(),
                },
                vec![],
            ),
        ],
    };
    let jobs = collect_graphviz(&tree);
    let mut media = MediaRegistry::new("/static".to_string());
    let mut errors: Errors<MarkdownError> = Errors::new();
    apply_graphviz(
        &mut tree,
        &mut media,
        vec![GraphvizOutcome {
            job: jobs.into_iter().next().unwrap(),
            result: Err("dot exited 1".to_string()),
        }],
        &mut errors,
    );
    assert_eq!(errors.iter().len(), 1);
    assert!(matches!(&tree.nodes[1].value, NodeValue::CodeBlock { .. }));
}

#[test]
fn relink_rewrites_relative_image_urls() {
    let mut tree = MdTree {
        nodes: vec![
            node(NodeValue::Document, vec![1, 2]),
            node(
                NodeValue::Image {
                    url: "./img/cat.png".to_string(),
                    title: String::new(),
                },
                vec![],
            ),
            node(
                NodeValue::Image {
                    url: "https://example.com/dog.png".to_string(),
                    title: String::new(),
                },
                vec![],
            ),
        ],
    };
    let ctx = TransformContext::new("content/blog".to_string());
    let jobs = collect_relink(&tree, &ctx);
    assert_eq!(jobs.len(), 1);
    assert_eq!(jobs[0].resolved, "content/blog/img/cat.png");
    let mut media = MediaRegistry::new("/static".to_string());
    let mut errors: Errors<MarkdownError> = Errors::new();
    let writes = apply_relink(
        &mut tree,
        &mut media,
        vec![RelinkOutcome {
            job: jobs.into_iter().next().unwrap(),
            result: Ok(Media {
                filename: Some("cat.png".to_string()),
                mimetype: Some("image/png".to_string()),
                body: vec![1, 2, 3],
            }),
        }],
        &mut errors,
    );
    assert!(errors.is_empty());
    assert_eq!(writes.len(), 1);
    match &tree.nodes[1].value {
        NodeValue::Image { url, .. } => {
            assert!(url.starts_with("/static/"));
            assert!(url.ends_with("/cat.png"));
        }
        other => panic!("expected an image, got {other:?}"),
    }
    match &tree.nodes[2].value {
        NodeValue::Image { url, .. } => assert_eq!(url, "https://example.com/dog.png"),
        other => panic!("expected an image, got {other:?}"),
    }
}

#[test]
fn math_html_tags_are_recognized() {
    assert_eq!(
        get_math_html("<M>x^2</M>"),
        Some(("x^2".to_string(), MathMode::Display))
    );
    assert_eq!(
        get_math_html("<m>x</m>"),
        Some(("x".to_string(), MathMode::Inline))
    );
    assert_eq!(get_math_html("<m>x</M>"), None);
    assert_eq!(get_math_html("plain"), None);
    assert_eq!(get_math_html("<m></m>"), Some(("".to_string(), MathMode::Inline)));
}

#[test]
fn math_block_wrapper_escapes_content() {
    assert_eq!(
        html_math_block("a<b"),
        "<div class=\"math-block\">a&lt;b</div>"
    );
}

#[test]
fn attribute_escaping() {
    assert_eq!(escape_attribute("a\"b&c<d>e"), "a&quot;b&amp;c&lt;d&gt;e");
    assert_eq!(escape_attribute("plain"), "plain");
}

#[test]
fn ascii_output_stays_put_and_non_ascii_is_encoded() {
    assert_eq!(encode_non_ascii("<p>plain</p>"), b"<p>plain</p>".to_vec());
    let encoded = encode_non_ascii("a \u{2192} b");
    let s = String::from_utf8(encoded).unwrap();
    assert!(s.is_ascii(), "encoded output must be ASCII: {s}");
    assert!(s.starts_with("a "));
    assert!(s.ends_with(" b"));
    assert!(s.contains('&'));
}

#[test]
fn plaintext_becomes_a_pre_block() {
    let c = sitegen::docs::Content {
        path: "a.txt".to_string(),
        content_type: sitegen::docs::ContentType::Plaintext,
        raw: "1 < 2 & 3 > 2".to_string(),
    };
    let t = c.transform_simple().unwrap();
    assert_eq!(t.html, "<pre>1 &lt; 2 &amp; 3 &gt; 2</pre>");
}

#[test]
fn html_passes_through_unchanged() {
    let c = sitegen::docs::Content {
        path: "a.html".to_string(),
        content_type: sitegen::docs::ContentType::Html,
        raw: "<p>as is</p>".to_string(),
    };
    let t = c.transform_simple().unwrap();
    assert_eq!(t.html, "<p>as is</p>");
}

#[test]
fn html_math_blocks_are_wrapped() {
    let mut tree = MdTree {
        nodes: vec![
            node(NodeValue::Document, vec![1, 2, 3]),
            node(NodeValue::HtmlBlock("<M>x^2</M>".to_string()), vec![]),
            node(
                NodeValue::CodeBlock {
                    info: "math".to_string(),
                    literal: "y".to_string(),
                },
                vec![],
            ),
            node(NodeValue::HtmlBlock("<p>not math</p>".to_string()), vec![]),
        ],
    };
    let jobs = collect_html_math(&tree);
    assert_eq!(jobs.len(), 2);
    assert_eq!(jobs[0].source, "x^2");
    assert_eq!(jobs[0].mode, MathMode::Display);
    assert_eq!(jobs[1].source, "y");
    assert!(jobs[1].from_code);
    let mut errors: Errors<KatexError> = Errors::new();
    let outcomes = jobs
        .into_iter()
        .map(|job| HtmlMathOutcome {
            job,
            result: Ok("R".to_string()),
        })
        .collect();
    apply_html_math(&mut tree, outcomes, &mut errors);
    assert!(errors.is_empty());
    assert!(
        matches!(&tree.nodes[1].value, NodeValue::HtmlBlock(b) if b == "<div class=\"math-block\">R</div>")
    );
    assert!(
        matches!(&tree.nodes[2].value, NodeValue::HtmlBlock(b) if b == "<div class=\"math-block\">R</div>")
    );
    assert!(matches!(&tree.nodes[3].value, NodeValue::HtmlBlock(b) if b == "<p>not math</p>"));
}
