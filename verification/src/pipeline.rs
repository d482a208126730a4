use vstd::prelude::*;

use crate::errors::Errors;
use crate::store::{spec_object_url, spec_storage_path, Media, MediaRegistry, StoreWrite};
use crate::tree::{spec_wf_arena, GraphvizInfoView, GraphvizJob, MdNode, MdNodeView, MdTree, NodeValue, NodeValueView};
use crate::tokenizer::{find_katex, seg_source, spec_segments, views_of, Block, SegView};
use crate::util::{str_chars, string_range};
use vstd::string::StringExecFns;
use vstd::string::StringSliceAdditionalSpecFns;
use htmlentity::entity::ICodedDataTrait;

verus! {

/// A math fragment that failed to render: its source text and the
/// renderer's diagnostic.
#[derive(Clone, Debug)]
pub struct KatexError {
    pub source: String,
    pub message: String,
}

/// Why one fragment of a document failed to transform.
#[derive(Clone, Debug)]
pub enum MarkdownErrorKind {
    /// The diagram renderer failed, with its diagnostic.
    Graphviz(String),
    /// An image could not be read or stored, with the diagnostic.
    Image(String),
    /// A filesystem failure, with the diagnostic.
    Vfs(String),
    /// A math fragment failed to render.
    Katex(KatexError),
}

/// One fragment's failure, tagged with its source position.
#[derive(Clone, Debug)]
pub struct MarkdownError {
    pub line: usize,
    pub col: usize,
    pub kind: MarkdownErrorKind,
}

impl MarkdownError {
    /// A fragment failure at the given source position.
    pub fn new(line: usize, col: usize, kind: MarkdownErrorKind) -> (r: Self)
        ensures
            r == (MarkdownError { line, col, kind }),
    {
        MarkdownError { line, col, kind }
    }
}

/// The transform context: where the document's content sits, so that
/// relative asset links can be resolved against it.
#[derive(Clone, Debug)]
pub struct TransformContext {
    pub content_root: String,
}

impl TransformContext {
    /// A context rooted at the given content directory.
    pub fn new(content_root: String) -> (r: Self)
        ensures
            r.content_root@ == content_root@,
    {
        TransformContext { content_root }
    }

    /// The root directory to resolve relative asset links against.
    pub fn content_root(&self) -> (r: &str)
        ensures
            r@ == self.content_root@,
    {
        self.content_root.as_str()
    }
}

/// One rendered diagram, or its failure: the request together with the
/// renderer's output.
pub struct GraphvizOutcome {
    pub job: GraphvizJob,
    /// The rendered vector image, or the renderer's diagnostic.
    pub result: Result<String, String>,
}

/// The caption a diagram request gives its image: the given title, or a
/// default.
pub open spec fn spec_graphviz_title(g: GraphvizInfoView) -> Seq<char> {
    match g {
        GraphvizInfoView::Titled(t) => t,
        GraphvizInfoView::Untitled => seq![
            'G',
            'r',
            'a',
            'p',
            'h',
            'v',
            'i',
            'z',
            ' ',
            'i',
            'm',
            'a',
            'g',
            'e',
        ],
    }
}

/// The filename every rendered diagram is stored under.
pub open spec fn spec_graphviz_filename() -> Seq<char> {
    seq!['g', 'r', 'a', 'p', 'h', 'v', 'i', 'z', '.', 's', 'v', 'g']
}

/// The node value a successfully rendered diagram becomes: an image at
/// the stored rendering's public URL, titled by the request.
pub open spec fn spec_graphviz_image(
    prefix: Seq<char>,
    svg: Seq<char>,
    info: GraphvizInfoView,
) -> NodeValueView {
    NodeValueView::Image {
        url: spec_object_url(
            prefix,
            spec_storage_path(vstd::utf8::encode_utf8(svg), Some(spec_graphviz_filename())),
        ),
        title: spec_graphviz_title(info),
    }
}

/// True when the second arena has the same shape as the first: as many
/// nodes, each with the same children and source position.
pub open spec fn spec_same_shape(a: Seq<MdNodeView>, b: Seq<MdNodeView>) -> bool {
    &&& a.len() == b.len()
    &&& forall|n: int|
        0 <= n < a.len() ==> (#[trigger] b[n].children == a[n].children && b[n].line == a[n].line
            && b[n].col == a[n].col)
}

proof fn lemma_same_shape_intro(a: Seq<MdNodeView>, b: Seq<MdNodeView>)
    requires
        a.len() == b.len(),
        forall|n: int|
            0 <= n < a.len() ==> (#[trigger] b[n].children == a[n].children && b[n].line
                == a[n].line && b[n].col == a[n].col),
    ensures
        spec_same_shape(a, b),
{
}

/// Replace each successfully rendered diagram's code block with an image
/// node pointing at the stored rendering; record a failure, tagged with
/// the block's source position, for each diagram that did not render,
/// leaving its node untouched. Returns the stores still to be written.
#[verifier::rlimit(100)]
#[verifier::spinoff_prover]
pub fn apply_graphviz(
    tree: &mut MdTree,
    media: &mut MediaRegistry,
    outcomes: Vec<GraphvizOutcome>,
    errors: &mut Errors<MarkdownError>,
) -> (writes: Vec<StoreWrite>)
    requires
        old(media).wf(),
        forall|k: int| 0 <= k < outcomes@.len() ==> #[trigger] outcomes@[k].job.id < old(tree)@.len(),
        forall|k1: int, k2: int|
            0 <= k1 < k2 < outcomes@.len() ==> outcomes@[k1].job.id != outcomes@[k2].job.id,
    ensures
        final(media).wf(),
        final(media)@.url_prefix == old(media)@.url_prefix,
        final(tree)@.len() == old(tree)@.len(),
        spec_same_shape(old(tree)@, final(tree)@),
        forall|n: int|
            0 <= n < old(tree)@.len() && (forall|k: int|
                0 <= k < outcomes@.len() ==> #[trigger] outcomes@[k].job.id != n)
                ==> final(tree)@[n] == old(tree)@[n],
        forall|k: int|
            0 <= k < outcomes@.len() ==> match #[trigger] outcomes@[k].result {
                Ok(svg) => final(tree)@[outcomes@[k].job.id as int].value == spec_graphviz_image(
                    old(media)@.url_prefix,
                    svg@,
                    outcomes@[k].job.info@,
                ),
                Err(_) => final(tree)@[outcomes@[k].job.id as int].value
                    == old(tree)@[outcomes@[k].job.id as int].value,
            },
        final(errors)@.len() >= old(errors)@.len(),
        forall|i: int| 0 <= i < old(errors)@.len() ==> final(errors)@[i] == old(errors)@[i],
        forall|k: int|
            0 <= k < outcomes@.len() ==> match #[trigger] outcomes@[k].result {
                Ok(_) => true,
                Err(e) => exists|i: int|
                    old(errors)@.len() <= i < final(errors)@.len() && {
                        let err = #[trigger] final(errors)@[i];
                        &&& err.line == outcomes@[k].job.line
                        &&& err.col == outcomes@[k].job.col
                        &&& err.kind matches MarkdownErrorKind::Graphviz(m) && m@ == e@
                    },
            },
{
    let ghost old_tree = tree@;
    let ghost old_errs = errors@;
    let ghost prefix = media@.url_prefix;
    let mut writes: Vec<StoreWrite> = Vec::new();
    let mut k: usize = 0;
    while k < outcomes.len()
        invariant
            0 <= k <= outcomes@.len(),
            media.wf(),
            media@.url_prefix == prefix,
            forall|q: int|
                0 <= q < outcomes@.len() ==> #[trigger] outcomes@[q].job.id < old_tree.len(),
            forall|k1: int, k2: int|
                0 <= k1 < k2 < outcomes@.len() ==> outcomes@[k1].job.id != outcomes@[k2].job.id,
            tree@.len() == old_tree.len(),
            spec_same_shape(old_tree, tree@),
            forall|n: int|
                0 <= n < old_tree.len() && (forall|q: int|
                    0 <= q < k ==> #[trigger] outcomes@[q].job.id != n) ==> tree@[n] == old_tree[n],
            forall|q: int|
                0 <= q < k ==> match #[trigger] outcomes@[q].result {
                    Ok(svg) => tree@[outcomes@[q].job.id as int].value == spec_graphviz_image(
                        prefix,
                        svg@,
                        outcomes@[q].job.info@,
                    ),
                    Err(_) => tree@[outcomes@[q].job.id as int].value
                        == old_tree[outcomes@[q].job.id as int].value,
                },
            errors@.len() >= old_errs.len(),
            forall|i: int| 0 <= i < old_errs.len() ==> errors@[i] == old_errs[i],
            forall|q: int|
                0 <= q < k ==> match #[trigger] outcomes@[q].result {
                    Ok(_) => true,
                    Err(e) => exists|i: int|
                        old_errs.len() <= i < errors@.len() && {
                            let err = #[trigger] errors@[i];
                            &&& err.line == outcomes@[q].job.line
                            &&& err.col == outcomes@[q].job.col
                            &&& err.kind matches MarkdownErrorKind::Graphviz(m) && m@ == e@
                        },
                },
        decreases outcomes@.len() - k,
    {
        let outcome = &outcomes[k];
        let id = outcome.job.id;
        match &outcome.result {
            Ok(svg) => {
                let filename = "graphviz.svg".to_owned();
                let mimetype = "image/svg+xml".to_owned();
                proof {
                    reveal_strlit("graphviz.svg");
                    assert("graphviz.svg"@ =~~= spec_graphviz_filename());
                }
                let body = svg.as_str().as_bytes_vec();
                let (url, write) = media.upload_media(
                    Media { filename: Some(filename), mimetype: Some(mimetype), body },
                );
                match write {
                    Some(w) => {
                        writes.push(w);
                    },
                    None => {},
                }
                let title = match &outcome.job.info {
                    crate::tree::GraphvizInfo::Titled(t) => t.clone(),
                    crate::tree::GraphvizInfo::Untitled => {
                        let t = "Graphviz image".to_owned();
                        proof {
                            reveal_strlit("Graphviz image");
                            assert("Graphviz image"@ =~~= spec_graphviz_title(
                                GraphvizInfoView::Untitled,
                            ));
                        }
                        t
                    },
                };
                let n_line = tree.nodes[id].line;
                let n_col = tree.nodes[id].col;
                let kids = crate::util::copy_indices(&tree.nodes[id].children);
                let ghost pre = tree@;
                let replacement = MdNode {
                    value: NodeValue::Image { url, title },
                    line: n_line,
                    col: n_col,
                    children: kids,
                };
                tree.nodes[id] = replacement;
                proof {
                    assert(tree@[id as int].children =~~= pre[id as int].children);
                    assert(tree@[id as int].line == pre[id as int].line);
                    assert(tree@[id as int].col == pre[id as int].col);
                    assert(tree@[id as int].value == spec_graphviz_image(
                        prefix,
                        svg@,
                        outcomes@[k as int].job.info@,
                    ));
                    assert forall|n: int|
                        0 <= n < old_tree.len() && n != id implies tree@[n] == pre[n] by {}
                    assert forall|n: int|
                        0 <= n < old_tree.len() implies (#[trigger] tree@[n].children
                        == old_tree[n].children && tree@[n].line == old_tree[n].line && tree@[n].col
                        == old_tree[n].col) by {
                        assert(pre[n].children == old_tree[n].children);
                        if n != id {
                            assert(tree@[n] == pre[n]);
                        }
                    }
                    lemma_same_shape_intro(old_tree, tree@);
                }
            },
            Err(e) => {
                let ghost pre_errs = errors@;
                errors.push(
                    MarkdownError {
                        line: outcome.job.line,
                        col: outcome.job.col,
                        kind: MarkdownErrorKind::Graphviz(e.clone()),
                    },
                );
                proof {
                    let newest: int = errors@.len() - 1;
                    assert(errors@[newest].kind matches MarkdownErrorKind::Graphviz(m) && m@
                        == e@);
                    assert forall|q: int| 0 <= q < k + 1 implies match #[trigger] outcomes@[q].result {
                        Ok(_) => true,
                        Err(e2) => exists|i: int|
                            old_errs.len() <= i < errors@.len() && {
                                let err = #[trigger] errors@[i];
                                &&& err.line == outcomes@[q].job.line
                                &&& err.col == outcomes@[q].job.col
                                &&& err.kind matches MarkdownErrorKind::Graphviz(m) && m@ == e2@
                            },
                    } by {
                        if q == k {
                            assert(errors@[newest].line == outcomes@[q].job.line);
                        } else {
                            match outcomes@[q].result {
                                Ok(_) => {},
                                Err(e2) => {
                                    let i0 = choose|i0: int|
                                        old_errs.len() <= i0 < pre_errs.len() && {
                                            let err = #[trigger] pre_errs[i0];
                                            &&& err.line == outcomes@[q].job.line
                                            &&& err.col == outcomes@[q].job.col
                                            &&& err.kind matches MarkdownErrorKind::Graphviz(m)
                                                && m@ == e2@
                                        };
                                    assert(errors@[i0] == pre_errs[i0]);
                                },
                            }
                        }
                    }
                }
            },
        }
        k = k + 1;
    }
    proof {
        assert(old_tree == old(tree)@);
    }
    writes
}

/// True of an ASCII whitespace character.
pub open spec fn spec_is_ws(c: char) -> bool {
    c == ' ' || c == '\t' || c == '\n' || c == '\r'
}

/// The string without its leading ASCII whitespace.
pub open spec fn spec_skip_ws(s: Seq<char>) -> Seq<char>
    decreases s.len(),
{
    if s.len() > 0 && spec_is_ws(s[0]) {
        spec_skip_ws(s.drop_first())
    } else {
        s
    }
}

/// True when an image URL is a relative path rooted in the content
/// directory: ignoring leading whitespace, it starts with `./`.
pub open spec fn spec_is_relative_url(url: Seq<char>) -> bool {
    spec_skip_ws(url).len() >= 2 && spec_skip_ws(url)[0] == '.' && spec_skip_ws(url)[1] == '/'
}

/// True when a node is an image with a relative URL, so the relink pass
/// touches it.
pub open spec fn spec_is_relink_candidate(n: MdNodeView) -> bool {
    match n.value {
        NodeValueView::Image { url, title } => spec_is_relative_url(url),
        _ => false,
    }
}

/// The path a relative image URL resolves to: the content root, a slash,
/// and the URL without its `./` prefix.
pub open spec fn spec_resolved_rel(root: Seq<char>, url: Seq<char>) -> Seq<char> {
    root + seq!['/'] + spec_skip_ws(url).skip(2)
}

/// One image to relink: which node, its URL as written, the path it
/// resolves to, and its source position.
#[derive(Clone, Debug)]
pub struct RelinkJob {
    pub id: usize,
    pub url: String,
    pub resolved: String,
    pub line: usize,
    pub col: usize,
}

/// Collect every image whose URL is a relative path rooted in the
/// content directory, with the path each resolves to.
pub fn collect_relink(tree: &MdTree, ctx: &TransformContext) -> (r: Vec<RelinkJob>)
    ensures
        forall|k: int|
            0 <= k < r@.len() ==> {
                let j = #[trigger] r@[k];
                &&& 0 <= j.id < tree@.len()
                &&& spec_is_relink_candidate(tree@[j.id as int])
                &&& tree@[j.id as int].value matches NodeValueView::Image { url, title } ==> (
                j.url@ == url && j.resolved@ == spec_resolved_rel(ctx.content_root@, url))
                &&& j.line as int == tree@[j.id as int].line
                &&& j.col as int == tree@[j.id as int].col
            },
        forall|n: int|
            0 <= n < tree@.len() && spec_is_relink_candidate(tree@[n]) ==> exists|k: int|
                0 <= k < r@.len() && #[trigger] r@[k].id == n,
        forall|k1: int, k2: int| 0 <= k1 < k2 < r@.len() ==> r@[k1].id != r@[k2].id,
{
    let mut r: Vec<RelinkJob> = Vec::new();
    let mut n: usize = 0;
    while n < tree.nodes.len()
        invariant
            0 <= n <= tree@.len(),
            forall|k: int|
                0 <= k < r@.len() ==> {
                    let j = #[trigger] r@[k];
                    &&& 0 <= j.id < n
                    &&& spec_is_relink_candidate(tree@[j.id as int])
                    &&& tree@[j.id as int].value matches NodeValueView::Image { url, title } ==> (
                    j.url@ == url && j.resolved@ == spec_resolved_rel(ctx.content_root@, url))
                    &&& j.line as int == tree@[j.id as int].line
                    &&& j.col as int == tree@[j.id as int].col
                },
            forall|m: int|
                0 <= m < n && spec_is_relink_candidate(tree@[m]) ==> exists|k: int|
                    0 <= k < r@.len() && #[trigger] r@[k].id == m,
            forall|k1: int, k2: int| 0 <= k1 < k2 < r@.len() ==> r@[k1].id != r@[k2].id,
        decreases tree@.len() - n,
    {
        let node = &tree.nodes[n];
        match &node.value {
            NodeValue::Image { url, title } => {
                if url_is_relative(url.as_str()) {
                    let resolved = resolve_relative(ctx.content_root(), url.as_str());
                    let ghost pre = r@;
                    r.push(
                        RelinkJob {
                            id: n,
                            url: url.clone(),
                            resolved,
                            line: node.line,
                            col: node.col,
                        },
                    );
                    proof {
                        assert forall|m: int|
                            0 <= m < n + 1 && spec_is_relink_candidate(tree@[m]) implies exists|
                            k: int,
                        |
                            0 <= k < r@.len() && #[trigger] r@[k].id == m by {
                            if m == n {
                                assert(r@[r@.len() - 1].id == m);
                            } else {
                                let k0 = choose|k0: int|
                                    0 <= k0 < pre.len() && #[trigger] pre[k0].id == m;
                                assert(r@[k0].id == m);
                            }
                        }
                    }
                } else {
                    proof {
                        assert(!spec_is_relink_candidate(tree@[n as int]));
                    }
                }
            },
            _ => {
                proof {
                    assert(!spec_is_relink_candidate(tree@[n as int]));
                }
            },
        }
        n = n + 1;
    }
    r
}

/// Skip leading ASCII whitespace.
fn skip_ws_index(cs: &Vec<char>) -> (r: usize)
    ensures
        r <= cs@.len(),
        cs@.skip(r as int) == spec_skip_ws(cs@),
{
    let n = cs.len();
    let mut i: usize = 0;
    proof {
        assert(cs@.skip(0) =~~= cs@);
    }
    while i < n && (cs[i] == ' ' || cs[i] == '\t' || cs[i] == '\n' || cs[i] == '\r')
        invariant
            0 <= i <= n == cs@.len(),
            spec_skip_ws(cs@.skip(i as int)) == spec_skip_ws(cs@),
        decreases n - i,
    {
        proof {
            assert(cs@.skip(i as int)[0] == cs@[i as int]);
            assert(cs@.skip(i as int).drop_first() =~~= cs@.skip(i + 1));
        }
        i = i + 1;
    }
    proof {
        if i < n {
            assert(cs@.skip(i as int)[0] == cs@[i as int]);
            assert(!spec_is_ws(cs@.skip(i as int)[0]));
        }
        assert(spec_skip_ws(cs@.skip(i as int)) == cs@.skip(i as int));
    }
    i
}

/// True when the URL, ignoring leading whitespace, starts with `./`.
fn url_is_relative(url: &str) -> (r: bool)
    ensures
        r == spec_is_relative_url(url@),
{
    let cs = str_chars(url);
    let i = skip_ws_index(&cs);
    let n = cs.len();
    if n - i >= 2 && cs[i] == '.' && cs[i + 1] == '/' {
        proof {
            assert(spec_skip_ws(url@)[0] == cs@.skip(i as int)[0]);
            assert(spec_skip_ws(url@)[1] == cs@.skip(i as int)[1]);
        }
        true
    } else {
        proof {
            if spec_is_relative_url(url@) {
                assert(cs@.skip(i as int)[0] == '.' && cs@.skip(i as int)[1] == '/');
                assert(cs@[i as int] == '.' && cs@[i + 1] == '/');
                assert(false);
            }
        }
        false
    }
}

/// Resolve a relative image URL against the content root.
fn resolve_relative(root: &str, url: &str) -> (r: String)
    requires
        spec_is_relative_url(url@),
    ensures
        r@ == spec_resolved_rel(root@, url@),
{
    let cs = str_chars(url);
    let i = skip_ws_index(&cs);
    let n = cs.len();
    proof {
        assert(spec_skip_ws(url@).len() >= 2);
    }
    let rest = crate::util::string_range(&cs, i + 2, n);
    proof {
        assert(rest@ =~~= spec_skip_ws(url@).skip(2));
    }
    let joined = crate::store::object_url(root, rest.as_str());
    proof {
        assert(joined@ =~~= spec_resolved_rel(root@, url@));
    }
    joined
}

/// One relinked image, or its failure: the request together with the
/// payload read from the resolved path, named and typed by the caller.
pub struct RelinkOutcome {
    pub job: RelinkJob,
    /// The image bytes to store, or the diagnostic of the failed read.
    pub result: Result<Media, String>,
}

/// Rewrite each relinked image's URL to the public URL its stored bytes
/// resolve to; record a failure, tagged with the image's source
/// position, for each payload that could not be read, leaving its node
/// untouched. Returns the stores still to be written.
#[verifier::rlimit(100)]
#[verifier::spinoff_prover]
pub fn apply_relink(
    tree: &mut MdTree,
    media: &mut MediaRegistry,
    outcomes: Vec<RelinkOutcome>,
    errors: &mut Errors<MarkdownError>,
) -> (writes: Vec<StoreWrite>)
    requires
        old(media).wf(),
        forall|k: int| 0 <= k < outcomes@.len() ==> #[trigger] outcomes@[k].job.id < old(tree)@.len(),
        forall|k1: int, k2: int|
            0 <= k1 < k2 < outcomes@.len() ==> outcomes@[k1].job.id != outcomes@[k2].job.id,
        forall|k: int|
            0 <= k < outcomes@.len() ==> (#[trigger] old(tree)@[outcomes@[k].job.id as int].value
                is Image),
    ensures
        final(media).wf(),
        final(media)@.url_prefix == old(media)@.url_prefix,
        final(tree)@.len() == old(tree)@.len(),
        spec_same_shape(old(tree)@, final(tree)@),
        forall|n: int|
            0 <= n < old(tree)@.len() && (forall|k: int|
                0 <= k < outcomes@.len() ==> #[trigger] outcomes@[k].job.id != n)
                ==> final(tree)@[n] == old(tree)@[n],
        forall|k: int|
            0 <= k < outcomes@.len() ==> match #[trigger] outcomes@[k].result {
                Ok(m) => final(tree)@[outcomes@[k].job.id as int].value == (
                NodeValueView::Image {
                    url: spec_object_url(
                        old(media)@.url_prefix,
                        spec_storage_path(m@.body, m@.filename),
                    ),
                    title: old(tree)@[outcomes@[k].job.id as int].value->Image_title,
                }),
                Err(_) => final(tree)@[outcomes@[k].job.id as int].value
                    == old(tree)@[outcomes@[k].job.id as int].value,
            },
        final(errors)@.len() >= old(errors)@.len(),
        forall|i: int| 0 <= i < old(errors)@.len() ==> final(errors)@[i] == old(errors)@[i],
        forall|k: int|
            0 <= k < outcomes@.len() ==> match #[trigger] outcomes@[k].result {
                Ok(_) => true,
                Err(e) => exists|i: int|
                    old(errors)@.len() <= i < final(errors)@.len() && {
                        let err = #[trigger] final(errors)@[i];
                        &&& err.line == outcomes@[k].job.line
                        &&& err.col == outcomes@[k].job.col
                        &&& err.kind matches MarkdownErrorKind::Image(m) && m@ == e@
                    },
            },
{
    let ghost old_tree = tree@;
    let ghost old_errs = errors@;
    let ghost prefix = media@.url_prefix;
    let mut writes: Vec<StoreWrite> = Vec::new();
    let mut k: usize = 0;
    while k < outcomes.len()
        invariant
            0 <= k <= outcomes@.len(),
            media.wf(),
            media@.url_prefix == prefix,
            forall|q: int|
                0 <= q < outcomes@.len() ==> #[trigger] outcomes@[q].job.id < old_tree.len(),
            forall|k1: int, k2: int|
                0 <= k1 < k2 < outcomes@.len() ==> outcomes@[k1].job.id != outcomes@[k2].job.id,
            forall|q: int|
                0 <= q < outcomes@.len() ==> (#[trigger] old_tree[outcomes@[q].job.id as int].value
                    is Image),
            tree@.len() == old_tree.len(),
            spec_same_shape(old_tree, tree@),
            forall|n: int|
                0 <= n < old_tree.len() && (forall|q: int|
                    0 <= q < k ==> #[trigger] outcomes@[q].job.id != n) ==> tree@[n] == old_tree[n],
            forall|q: int|
                0 <= q < k ==> match #[trigger] outcomes@[q].result {
                    Ok(m) => tree@[outcomes@[q].job.id as int].value == (
                    NodeValueView::Image {
                        url: spec_object_url(prefix, spec_storage_path(m@.body, m@.filename)),
                        title: old_tree[outcomes@[q].job.id as int].value->Image_title,
                    }),
                    Err(_) => tree@[outcomes@[q].job.id as int].value
                        == old_tree[outcomes@[q].job.id as int].value,
                },
            errors@.len() >= old_errs.len(),
            forall|i: int| 0 <= i < old_errs.len() ==> errors@[i] == old_errs[i],
            forall|q: int|
                0 <= q < k ==> match #[trigger] outcomes@[q].result {
                    Ok(_) => true,
                    Err(e) => exists|i: int|
                        old_errs.len() <= i < errors@.len() && {
                            let err = #[trigger] errors@[i];
                            &&& err.line == outcomes@[q].job.line
                            &&& err.col == outcomes@[q].job.col
                            &&& err.kind matches MarkdownErrorKind::Image(m) && m@ == e@
                        },
                },
        decreases outcomes@.len() - k,
    {
        let outcome = &outcomes[k];
        let id = outcome.job.id;
        match &outcome.result {
            Ok(m) => {
                let payload = Media {
                    filename: crate::util::clone_opt_string(&m.filename),
                    mimetype: crate::util::clone_opt_string(&m.mimetype),
                    body: crate::util::copy_bytes(&m.body),
                };
                proof {
                    assert(payload@ =~~= m@);
                }
                let (url, write) = media.upload_media(payload);
                match write {
                    Some(w) => {
                        writes.push(w);
                    },
                    None => {},
                }
                let title = match &tree.nodes[id].value {
                    NodeValue::Image { url: _, title } => title.clone(),
                    _ => String::new(),
                };
                let n_line = tree.nodes[id].line;
                let n_col = tree.nodes[id].col;
                let kids = crate::util::copy_indices(&tree.nodes[id].children);
                let ghost pre = tree@;
                let replacement = MdNode {
                    value: NodeValue::Image { url, title },
                    line: n_line,
                    col: n_col,
                    children: kids,
                };
                tree.nodes[id] = replacement;
                proof {
                    assert(pre[id as int].value == old_tree[id as int].value);
                    assert(tree@[id as int].children =~~= pre[id as int].children);
                    assert forall|n: int|
                        0 <= n < old_tree.len() && n != id implies tree@[n] == pre[n] by {}
                    assert forall|n: int|
                        0 <= n < old_tree.len() implies (#[trigger] tree@[n].children
                        == old_tree[n].children && tree@[n].line == old_tree[n].line && tree@[n].col
                        == old_tree[n].col) by {
                        assert(pre[n].children == old_tree[n].children);
                        if n != id {
                            assert(tree@[n] == pre[n]);
                        }
                    }
                    lemma_same_shape_intro(old_tree, tree@);
                }
            },
            Err(e) => {
                let ghost pre_errs = errors@;
                errors.push(
                    MarkdownError {
                        line: outcome.job.line,
                        col: outcome.job.col,
                        kind: MarkdownErrorKind::Image(e.clone()),
                    },
                );
                proof {
                    let newest: int = errors@.len() - 1;
                    assert(errors@[newest].kind matches MarkdownErrorKind::Image(m) && m@ == e@);
                    assert forall|q: int| 0 <= q < k + 1 implies match #[trigger] outcomes@[q].result {
                        Ok(_) => true,
                        Err(e2) => exists|i: int|
                            old_errs.len() <= i < errors@.len() && {
                                let err = #[trigger] errors@[i];
                                &&& err.line == outcomes@[q].job.line
                                &&& err.col == outcomes@[q].job.col
                                &&& err.kind matches MarkdownErrorKind::Image(m) && m@ == e2@
                            },
                    } by {
                        if q == k {
                            assert(errors@[newest].line == outcomes@[q].job.line);
                        } else {
                            match outcomes@[q].result {
                                Ok(_) => {},
                                Err(e2) => {
                                    let i0 = choose|i0: int|
                                        old_errs.len() <= i0 < pre_errs.len() && {
                                            let err = #[trigger] pre_errs[i0];
                                            &&& err.line == outcomes@[q].job.line
                                            &&& err.col == outcomes@[q].job.col
                                            &&& err.kind matches MarkdownErrorKind::Image(m) && m@
                                                == e2@
                                        };
                                    assert(errors@[i0] == pre_errs[i0]);
                                },
                            }
                        }
                    }
                }
            },
        }
        k = k + 1;
    }
    proof {
        assert(old_tree == old(tree)@);
    }
    writes
}

/// The mathematical value of a failed math fragment.
#[verifier::ext_equal]
pub struct KatexErrorView {
    pub source: Seq<char>,
    pub message: Seq<char>,
}

impl View for KatexError {
    type V = KatexErrorView;

    open spec fn view(&self) -> KatexErrorView {
        KatexErrorView { source: self.source@, message: self.message@ }
    }
}

/// One text node's math segments, ready to render.
pub struct MathJob {
    pub id: usize,
    pub blocks: Vec<Block>,
    pub line: usize,
    pub col: usize,
}

/// The segments a text node scans into.
pub open spec fn spec_segments_of(n: MdNodeView) -> Seq<SegView> {
    spec_segments(n.value->Text_0, 0, Seq::empty())
}

/// Collect every plain-text node of the tree, scanned into its plain,
/// inline-math and block-math segments.
pub fn collect_math(tree: &MdTree) -> (r: Vec<MathJob>)
    ensures
        forall|k: int|
            0 <= k < r@.len() ==> {
                let j = #[trigger] r@[k];
                &&& 0 <= j.id < tree@.len()
                &&& tree@[j.id as int].value is Text
                &&& views_of(j.blocks@) == spec_segments_of(tree@[j.id as int])
                &&& j.line as int == tree@[j.id as int].line
                &&& j.col as int == tree@[j.id as int].col
            },
        forall|n: int|
            0 <= n < tree@.len() && tree@[n].value is Text ==> exists|k: int|
                0 <= k < r@.len() && #[trigger] r@[k].id == n,
        forall|k1: int, k2: int| 0 <= k1 < k2 < r@.len() ==> r@[k1].id != r@[k2].id,
{
    let mut r: Vec<MathJob> = Vec::new();
    let mut n: usize = 0;
    while n < tree.nodes.len()
        invariant
            0 <= n <= tree@.len(),
            forall|k: int|
                0 <= k < r@.len() ==> {
                    let j = #[trigger] r@[k];
                    &&& 0 <= j.id < n
                    &&& tree@[j.id as int].value is Text
                    &&& views_of(j.blocks@) == spec_segments_of(tree@[j.id as int])
                    &&& j.line as int == tree@[j.id as int].line
                    &&& j.col as int == tree@[j.id as int].col
                },
            forall|m: int|
                0 <= m < n && tree@[m].value is Text ==> exists|k: int|
                    0 <= k < r@.len() && #[trigger] r@[k].id == m,
            forall|k1: int, k2: int| 0 <= k1 < k2 < r@.len() ==> r@[k1].id != r@[k2].id,
        decreases tree@.len() - n,
    {
        let node = &tree.nodes[n];
        match &node.value {
            NodeValue::Text(text) => {
                let blocks = find_katex(text.as_str());
                let ghost pre = r@;
                r.push(MathJob { id: n, blocks, line: node.line, col: node.col });
                proof {
                    assert forall|m: int| 0 <= m < n + 1 && tree@[m].value is Text implies exists|
                        k: int,
                    |
                        0 <= k < r@.len() && #[trigger] r@[k].id == m by {
                        if m == n {
                            assert(r@[r@.len() - 1].id == m);
                        } else {
                            let k0 = choose|k0: int|
                                0 <= k0 < pre.len() && #[trigger] pre[k0].id == m;
                            assert(r@[k0].id == m);
                        }
                    }
                }
            },
            _ => {},
        }
        n = n + 1;
    }
    r
}

/// One text node's rendering results, one per segment in order: plain
/// segments carry no result of interest, and each math segment carries
/// its rendered HTML or the renderer's diagnostic.
pub struct MathEntry {
    pub id: usize,
    pub results: Vec<Result<String, String>>,
}

/// The mathematical value of a rendering entry.
#[verifier::ext_equal]
pub struct MathEntryView {
    pub id: int,
    pub results: Seq<Result<Seq<char>, Seq<char>>>,
}

impl View for MathEntry {
    type V = MathEntryView;

    open spec fn view(&self) -> MathEntryView {
        MathEntryView {
            id: self.id as int,
            results: self.results@.map_values(
                |r: Result<String, String>|
                    match r {
                        Ok(s) => Ok(s@),
                        Err(e) => Err(e@),
                    },
            ),
        }
    }
}

/// The node values a scanned text splices into, given the rendering
/// results: plain segments stay text, a rendered math segment becomes
/// inline HTML, and a failed math segment stays as its source text with
/// the delimiters reinstated.
pub open spec fn spec_math_values(
    segs: Seq<SegView>,
    results: Seq<Result<Seq<char>, Seq<char>>>,
) -> Seq<NodeValueView> {
    Seq::new(
        segs.len(),
        |i: int|
            match segs[i] {
                SegView::Plain(p) => NodeValueView::Text(p),
                SegView::BlockMath(m) => match results[i] {
                    Ok(h) => NodeValueView::HtmlInline(h),
                    Err(_) => NodeValueView::Text(seg_source(segs[i])),
                },
                SegView::InlineMath(m) => match results[i] {
                    Ok(h) => NodeValueView::HtmlInline(h),
                    Err(_) => NodeValueView::Text(seg_source(segs[i])),
                },
            },
    )
}

/// The failures a scanned text's rendering results contribute, in
/// segment order: one per failed math segment, tagged with the segment's
/// source text.
pub open spec fn spec_seg_errors(
    segs: Seq<SegView>,
    results: Seq<Result<Seq<char>, Seq<char>>>,
) -> Seq<KatexErrorView>
    decreases segs.len(),
{
    if segs.len() == 0 {
        Seq::empty()
    } else {
        spec_seg_errors(segs.drop_last(), results) + {
            let i = segs.len() - 1;
            match segs[i] {
                SegView::Plain(p) => Seq::empty(),
                SegView::BlockMath(m) => match results[i] {
                    Ok(_) => Seq::empty(),
                    Err(e) => seq![KatexErrorView { source: m, message: e }],
                },
                SegView::InlineMath(m) => match results[i] {
                    Ok(_) => Seq::empty(),
                    Err(e) => seq![KatexErrorView { source: m, message: e }],
                },
            }
        }
    }
}

/// The first rendering entry for a node, if any.
pub open spec fn spec_entry_for(entries: Seq<MathEntryView>, id: int) -> Option<MathEntryView>
    decreases entries.len(),
{
    if entries.len() == 0 {
        None
    } else if entries[0].id == id {
        Some(entries[0])
    } else {
        spec_entry_for(entries.drop_first(), id)
    }
}

/// The values a children list carries after the splice: each scanned
/// text child is replaced by its segments' values, in place and in
/// order; every other child keeps its value.
pub open spec fn spec_spliced_values(
    t_old: Seq<MdNodeView>,
    entries: Seq<MathEntryView>,
    cs: Seq<int>,
) -> Seq<NodeValueView>
    decreases cs.len(),
{
    if cs.len() == 0 {
        Seq::empty()
    } else {
        spec_spliced_values(t_old, entries, cs.drop_last()) + {
            let c = cs.last();
            match spec_entry_for(entries, c) {
                Some(en) => spec_math_values(spec_segments_of(t_old[c]), en.results),
                None => seq![t_old[c].value],
            }
        }
    }
}

/// The values a tree node's children carry.
pub open spec fn spec_child_values(t: Seq<MdNodeView>, n: int) -> Seq<NodeValueView> {
    Seq::new(t[n].children.len(), |i: int| t[t[n].children[i]].value)
}

proof fn lemma_entry_for_distinct(entries: Seq<MathEntryView>, j: int)
    requires
        forall|a: int, b: int| 0 <= a < b < entries.len() ==> entries[a].id != entries[b].id,
        0 <= j < entries.len(),
    ensures
        spec_entry_for(entries, entries[j].id) == Some(entries[j]),
    decreases entries.len(),
{
    if j > 0 {
        assert(entries[0].id != entries[j].id);
        assert(forall|a: int, b: int|
            0 <= a < b < entries.drop_first().len() ==> entries.drop_first()[a].id
                != entries.drop_first()[b].id);
        assert(entries.drop_first()[j - 1] == entries[j]);
        lemma_entry_for_distinct(entries.drop_first(), j - 1);
    }
}

proof fn lemma_entry_for_absent(entries: Seq<MathEntryView>, id: int)
    requires
        forall|j: int| 0 <= j < entries.len() ==> entries[j].id != id,
    ensures
        spec_entry_for(entries, id) is None,
    decreases entries.len(),
{
    if entries.len() > 0 {
        assert(forall|j: int|
            0 <= j < entries.drop_first().len() ==> entries.drop_first()[j].id != id);
        lemma_entry_for_absent(entries.drop_first(), id);
    }
}

/// The failures a whole batch of rendering entries contributes, entry by
/// entry in order.
pub open spec fn spec_entries_errors(
    t_old: Seq<MdNodeView>,
    evs: Seq<MathEntryView>,
) -> Seq<KatexErrorView>
    decreases evs.len(),
{
    if evs.len() == 0 {
        Seq::empty()
    } else {
        spec_entries_errors(t_old, evs.drop_last()) + spec_seg_errors(
            spec_segments_of(t_old[evs.last().id]),
            evs.last().results,
        )
    }
}

/// The views of collected math failures.
pub open spec fn kat_err_views(s: Seq<KatexError>) -> Seq<KatexErrorView> {
    s.map_values(|e: KatexError| e@)
}

fn push_node(tree: &mut MdTree, v: NodeValue, line: usize, col: usize) -> (id: usize)
    ensures
        id == old(tree)@.len(),
        final(tree)@.len() == old(tree)@.len() + 1,
        forall|n: int| 0 <= n < old(tree)@.len() ==> final(tree)@[n] == old(tree)@[n],
        final(tree)@[id as int].value == v@,
        final(tree)@[id as int].children == Seq::<int>::empty(),
        final(tree)@[id as int].line == line as int,
        final(tree)@[id as int].col == col as int,
{
    let id = tree.nodes.len();
    let ghost pre = tree@;
    tree.nodes.push(MdNode { value: v, line, col, children: Vec::new() });
    proof {
        assert forall|n: int| 0 <= n < pre.len() implies tree@[n] == pre[n] by {}
        assert(tree@[id as int].children =~~= Seq::<int>::empty());
    }
    id
}

fn clone_node_value(v: &NodeValue) -> (r: NodeValue)
    ensures
        r@ == v@,
{
    match v {
        NodeValue::Document => NodeValue::Document,
        NodeValue::Text(t) => NodeValue::Text(t.clone()),
        NodeValue::CodeBlock { info, literal } => NodeValue::CodeBlock {
            info: info.clone(),
            literal: literal.clone(),
        },
        NodeValue::Image { url, title } => NodeValue::Image {
            url: url.clone(),
            title: title.clone(),
        },
        NodeValue::HtmlBlock(t) => NodeValue::HtmlBlock(t.clone()),
        NodeValue::HtmlInline(t) => NodeValue::HtmlInline(t.clone()),
        NodeValue::SoftBreak => NodeValue::SoftBreak,
        NodeValue::Other(k) => NodeValue::Other(*k),
    }
}

fn find_entry(entries: &Vec<MathEntry>, c: usize) -> (r: Option<usize>)
    ensures
        match r {
            Some(j) => j < entries@.len() && entries@[j as int]@.id == c as int,
            None => forall|j: int| 0 <= j < entries@.len() ==> entries@[j]@.id != c as int,
        },
{
    let mut j: usize = 0;
    while j < entries.len()
        invariant
            0 <= j <= entries@.len(),
            forall|q: int| 0 <= q < j ==> entries@[q]@.id != c as int,
        decreases entries@.len() - j,
    {
        if entries[j].id == c {
            return Some(j);
        }
        j = j + 1;
    }
    None
}

/// Splice each scanned text node's rendering results back into the tree,
/// in original segment order: the new nodes stand exactly where the text
/// node stood, which is then detached. A failed segment contributes an
/// error, tagged with its source text, without blocking its neighbors.
#[verifier::rlimit(50)]
pub fn apply_math(tree: &mut MdTree, entries: &Vec<MathEntry>, errors: &mut Errors<KatexError>)
    requires
        old(tree).wf(),
        forall|k1: int, k2: int|
            0 <= k1 < k2 < entries@.len() ==> entries@[k1]@.id != entries@[k2]@.id,
        forall|k: int|
            0 <= k < entries@.len() ==> 0 <= #[trigger] entries@[k]@.id < old(tree)@.len(),
        forall|k: int|
            0 <= k < entries@.len() ==> old(tree)@[#[trigger] entries@[k]@.id].value is Text,
        forall|k: int|
            0 <= k < entries@.len() ==> (#[trigger] entries@[k]@.results).len()
                == spec_segments_of(old(tree)@[entries@[k]@.id]).len(),
    ensures
        final(tree)@.len() >= old(tree)@.len(),
        final(tree).wf(),
        forall|n: int|
            0 <= n < old(tree)@.len() ==> (#[trigger] final(tree)@[n].value == old(tree)@[n].value
                && final(tree)@[n].line == old(tree)@[n].line && final(tree)@[n].col == old(
                tree,
            )@[n].col),
        forall|n: int|
            0 <= n < old(tree)@.len() ==> #[trigger] spec_child_values(final(tree)@, n)
                == spec_spliced_values(
                old(tree)@,
                entries@.map_values(|e: MathEntry| e@),
                old(tree)@[n].children,
            ),
        forall|n: int|
            old(tree)@.len() <= n < final(tree)@.len() ==> #[trigger] final(tree)@[n].children
                == Seq::<int>::empty(),
        kat_err_views(final(errors)@) == kat_err_views(old(errors)@) + spec_entries_errors(
            old(tree)@,
            entries@.map_values(|e: MathEntry| e@),
        ),
{
    let ghost old_tree = tree@;
    let ghost evs = entries@.map_values(|e: MathEntry| e@);
    let ghost old_errs = errors@;
    let orig_len = tree.nodes.len();
    // First build the replacement nodes for every entry.
    let mut repl: Vec<Vec<usize>> = Vec::new();
    let mut k: usize = 0;
    proof {
        assert(evs.take(0) =~~= Seq::<MathEntryView>::empty());
        assert(kat_err_views(errors@) =~~= kat_err_views(old_errs) + spec_entries_errors(
            old_tree,
            evs.take(0),
        ));
    }
    while k < entries.len()
        invariant
            0 <= k <= entries@.len(),
            evs == entries@.map_values(|e: MathEntry| e@),
            forall|k1: int, k2: int| 0 <= k1 < k2 < evs.len() ==> evs[k1].id != evs[k2].id,
            forall|q: int| 0 <= q < evs.len() ==> 0 <= #[trigger] evs[q].id < old_tree.len(),
            forall|q: int| 0 <= q < evs.len() ==> old_tree[#[trigger] evs[q].id].value is Text,
            forall|q: int|
                0 <= q < evs.len() ==> (#[trigger] evs[q].results).len() == spec_segments_of(
                    old_tree[evs[q].id],
                ).len(),
            tree@.len() >= old_tree.len(),
            forall|n: int| 0 <= n < old_tree.len() ==> #[trigger] tree@[n] == old_tree[n],
            forall|n: int|
                old_tree.len() <= n < tree@.len() ==> #[trigger] tree@[n].children == Seq::<
                    int,
                >::empty(),
            repl@.len() == k,
            forall|j: int, i: int|
                0 <= j < k && 0 <= i < repl@[j]@.len() ==> old_tree.len()
                    <= #[trigger] repl@[j]@[i] < tree@.len(),
            forall|j: int|
                0 <= j < k ==> (#[trigger] repl@[j]@).len() == spec_segments_of(
                    old_tree[evs[j].id],
                ).len(),
            forall|j: int, i: int|
                0 <= j < k && 0 <= i < repl@[j]@.len() ==> tree@[#[trigger] repl@[j]@[i] as int].value
                    == spec_math_values(spec_segments_of(old_tree[evs[j].id]), evs[j].results)[i],
            kat_err_views(errors@) == kat_err_views(old_errs) + spec_entries_errors(
                old_tree,
                evs.take(k as int),
            ),
        decreases entries@.len() - k,
    {
        let id = entries[k].id;
        proof {
            assert(evs[k as int] == entries@[k as int]@);
            assert(evs[k as int].id == id as int);
            assert(0 <= evs[k as int].id < old_tree.len());
            assert(tree@[id as int] == old_tree[id as int]);
            assert(tree@[id as int].value is Text);
        }
        let line = tree.nodes[id].line;
        let col = tree.nodes[id].col;
        let text = match &tree.nodes[id].value {
            NodeValue::Text(t) => t.clone(),
            _ => vstd::pervasive::unreached(),
        };
        proof {
            assert(text@ == old_tree[id as int].value->Text_0);
        }
        let blocks = find_katex(text.as_str());
        let ghost segs = spec_segments_of(old_tree[evs[k as int].id]);
        proof {
            assert(views_of(blocks@) == segs);
            assert(blocks@.len() == segs.len());
        }
        let mut ids: Vec<usize> = Vec::new();
        let mut i: usize = 0;
        let ghost tree_at_entry = tree@;
        proof {
            assert(segs.take(0) =~~= Seq::<SegView>::empty());
        }
        while i < blocks.len()
            invariant
                0 <= i <= blocks@.len(),
                blocks@.len() == segs.len(),
                views_of(blocks@) == segs,
                0 <= (k as int) < evs.len(),
                segs == spec_segments_of(old_tree[evs[k as int].id]),
                evs[k as int].results.len() == segs.len(),
                evs == entries@.map_values(|e: MathEntry| e@),
                entries@[k as int]@ == evs[k as int],
                tree@.len() >= tree_at_entry.len() >= old_tree.len(),
                forall|n: int| 0 <= n < tree_at_entry.len() ==> #[trigger] tree@[n] == tree_at_entry[n],
                forall|n: int|
                    old_tree.len() <= n < tree@.len() ==> #[trigger] tree@[n].children == Seq::<
                        int,
                    >::empty(),
                ids@.len() == i,
                forall|q: int|
                    0 <= q < i ==> tree_at_entry.len() <= #[trigger] ids@[q] < tree@.len(),
                forall|q: int|
                    0 <= q < i ==> tree@[#[trigger] ids@[q] as int].value == spec_math_values(
                        segs,
                        evs[k as int].results,
                    )[q],
                kat_err_views(errors@) == kat_err_views(old_errs) + spec_entries_errors(
                    old_tree,
                    evs.take(k as int),
                ) + spec_seg_errors(segs.take(i as int), evs[k as int].results),
            decreases blocks@.len() - i,
        {
            let ghost pre_ids = ids@;
            let ghost pre_errmap = kat_err_views(errors@);
            proof {
                assert(segs.take(i + 1).drop_last() =~~= segs.take(i as int));
                assert(segs.take(i + 1).last() == segs[i as int]);
                assert(blocks@[i as int]@ == segs[i as int]);
                assert(evs[k as int].results[i as int] == match entries@[k as int].results@[i as int] {
                    Ok(s) => Ok::<Seq<char>, Seq<char>>(s@),
                    Err(e) => Err::<Seq<char>, Seq<char>>(e@),
                });
            }
            match &blocks[i] {
                Block::Plain(p) => {
                    let nid = push_node(tree, NodeValue::Text(p.clone()), line, col);
                    ids.push(nid);
                    proof {
                        assert(spec_seg_errors(segs.take(i + 1), evs[k as int].results)
                            =~~= spec_seg_errors(segs.take(i as int), evs[k as int].results));
                    }
                },
                Block::BlockMath(m) => {
                    match &entries[k].results[i] {
                        Ok(h) => {
                            let nid = push_node(tree, NodeValue::HtmlInline(h.clone()), line, col);
                            ids.push(nid);
                            proof {
                                assert(spec_seg_errors(segs.take(i + 1), evs[k as int].results)
                                    =~~= spec_seg_errors(
                                    segs.take(i as int),
                                    evs[k as int].results,
                                ));
                            }
                        },
                        Err(e) => {
                            let mut src = String::new();
                            src.append("$$");
                            src.append(m.as_str());
                            src.append("$$");
                            proof {
                                reveal_strlit("$$");
                                assert(src@ =~~= seg_source(segs[i as int]));
                            }
                            let nid = push_node(tree, NodeValue::Text(src), line, col);
                            ids.push(nid);
                            errors.push(KatexError { source: m.clone(), message: e.clone() });
                            proof {
                                assert(kat_err_views(errors@) =~~= pre_errmap + seq![
                                    KatexErrorView { source: m@, message: e@ },
                                ]);
                                assert(spec_seg_errors(segs.take(i + 1), evs[k as int].results)
                                    =~~= spec_seg_errors(segs.take(i as int), evs[k as int].results)
                                    + seq![KatexErrorView { source: m@, message: e@ }]);
                                assert(kat_err_views(errors@) =~~= kat_err_views(old_errs)
                                    + spec_entries_errors(old_tree, evs.take(k as int))
                                    + spec_seg_errors(segs.take(i + 1), evs[k as int].results));
                            }
                        },
                    }
                },
                Block::InlineMath(m) => {
                    match &entries[k].results[i] {
                        Ok(h) => {
                            let nid = push_node(tree, NodeValue::HtmlInline(h.clone()), line, col);
                            ids.push(nid);
                            proof {
                                assert(spec_seg_errors(segs.take(i + 1), evs[k as int].results)
                                    =~~= spec_seg_errors(
                                    segs.take(i as int),
                                    evs[k as int].results,
                                ));
                            }
                        },
                        Err(e) => {
                            let mut src = String::new();
                            src.append("$");
                            src.append(m.as_str());
                            src.append("$");
                            proof {
                                reveal_strlit("$");
                                assert(src@ =~~= seg_source(segs[i as int]));
                            }
                            let nid = push_node(tree, NodeValue::Text(src), line, col);
                            ids.push(nid);
                            errors.push(KatexError { source: m.clone(), message: e.clone() });
                            proof {
                                assert(kat_err_views(errors@) =~~= pre_errmap + seq![
                                    KatexErrorView { source: m@, message: e@ },
                                ]);
                                assert(spec_seg_errors(segs.take(i + 1), evs[k as int].results)
                                    =~~= spec_seg_errors(segs.take(i as int), evs[k as int].results)
                                    + seq![KatexErrorView { source: m@, message: e@ }]);
                                assert(kat_err_views(errors@) =~~= kat_err_views(old_errs)
                                    + spec_entries_errors(old_tree, evs.take(k as int))
                                    + spec_seg_errors(segs.take(i + 1), evs[k as int].results));
                            }
                        },
                    }
                },
            }
            i = i + 1;
        }
        repl.push(ids);
        proof {
            assert(segs.take(segs.len() as int) =~~= segs);
            assert(evs.take(k + 1).drop_last() =~~= evs.take(k as int));
            assert(evs.take(k + 1).last() == evs[k as int]);
            assert(kat_err_views(errors@) =~~= kat_err_views(old_errs) + spec_entries_errors(
                old_tree,
                evs.take(k + 1),
            ));
        }
        k = k + 1;
    }
    proof {
        assert(evs.take(evs.len() as int) =~~= evs);
    }
    // Then splice each parent's children, replacing each scanned text
    // child with its new nodes, in place.
    let ghost arena = tree@;
    let mut n: usize = 0;
    while n < orig_len
        invariant
            0 <= n <= orig_len == old_tree.len(),
            evs == entries@.map_values(|e: MathEntry| e@),
            forall|k1: int, k2: int| 0 <= k1 < k2 < evs.len() ==> evs[k1].id != evs[k2].id,
            forall|q: int| 0 <= q < evs.len() ==> 0 <= #[trigger] evs[q].id < old_tree.len(),
            forall|q: int| 0 <= q < evs.len() ==> old_tree[#[trigger] evs[q].id].value is Text,
            spec_wf_arena(old_tree),
            tree@.len() == arena.len() >= old_tree.len(),
            forall|m: int| 0 <= m < old_tree.len() ==> #[trigger] arena[m] == old_tree[m],
            forall|m: int|
                0 <= m < arena.len() ==> (#[trigger] tree@[m].value == arena[m].value
                    && tree@[m].line == arena[m].line && tree@[m].col == arena[m].col),
            forall|m: int|
                old_tree.len() <= m < arena.len() ==> #[trigger] tree@[m].children == Seq::<
                    int,
                >::empty(),
            forall|m: int|
                (n <= m < old_tree.len()) ==> #[trigger] tree@[m].children == old_tree[m].children,
            repl@.len() == evs.len(),
            forall|j: int, i: int|
                0 <= j < repl@.len() && 0 <= i < repl@[j]@.len() ==> old_tree.len()
                    <= #[trigger] repl@[j]@[i] < arena.len(),
            forall|j: int|
                0 <= j < repl@.len() ==> (#[trigger] repl@[j]@).len() == spec_segments_of(
                    old_tree[evs[j].id],
                ).len(),
            forall|j: int, i: int|
                0 <= j < repl@.len() && 0 <= i < repl@[j]@.len() ==> arena[#[trigger] repl@[j]@[i] as int].value
                    == spec_math_values(spec_segments_of(old_tree[evs[j].id]), evs[j].results)[i],
            forall|m: int|
                0 <= m < n ==> #[trigger] spec_child_values(tree@, m) == spec_spliced_values(
                    old_tree,
                    evs,
                    old_tree[m].children,
                ),
            forall|m: int, i: int|
                0 <= m < n && 0 <= i < tree@[m].children.len() ==> m < #[trigger] tree@[m].children[i]
                    < arena.len(),
        decreases orig_len - n,
    {
        let old_children = crate::util::copy_indices(&tree.nodes[n].children);
        let ghost ocs = old_tree[n as int].children;
        proof {
            assert(tree@[n as int].children == ocs);
            assert(old_children@.map_values(|c: usize| c as int) =~~= tree@[n as int].children);
            assert(old_children@.map_values(|c: usize| c as int) == ocs);
            assert(ocs.take(0) =~~= Seq::<int>::empty());
            assert forall|i: int| 0 <= i < ocs.len() implies (n as int) < #[trigger] ocs[i]
                < old_tree.len() by {
                assert(old_tree[n as int].children[i] == ocs[i]);
            }
        }
        let mut new_children: Vec<usize> = Vec::new();
        let mut ci: usize = 0;
        while ci < old_children.len()
            invariant
                0 <= ci <= old_children@.len(),
                old_children@.map_values(|c: usize| c as int) == ocs,
                old_children@.len() == ocs.len(),
                0 <= (n as int) < old_tree.len() <= arena.len(),
                evs == entries@.map_values(|e: MathEntry| e@),
                forall|k1: int, k2: int| 0 <= k1 < k2 < evs.len() ==> evs[k1].id != evs[k2].id,
                spec_wf_arena(old_tree),
                forall|i: int| 0 <= i < ocs.len() ==> (n as int) < #[trigger] ocs[i] < old_tree.len(),
                tree@.len() == arena.len(),
                forall|m: int|
                    0 <= m < arena.len() ==> #[trigger] tree@[m].value == arena[m].value,
                forall|m: int| 0 <= m < old_tree.len() ==> #[trigger] arena[m] == old_tree[m],
                repl@.len() == evs.len(),
                forall|j: int, i: int|
                    0 <= j < repl@.len() && 0 <= i < repl@[j]@.len() ==> old_tree.len()
                        <= #[trigger] repl@[j]@[i] < arena.len(),
                forall|j: int|
                    0 <= j < repl@.len() ==> (#[trigger] repl@[j]@).len() == spec_segments_of(
                        old_tree[evs[j].id],
                    ).len(),
                forall|j: int, i: int|
                    0 <= j < repl@.len() && 0 <= i < repl@[j]@.len() ==> arena[#[trigger] repl@[j]@[i] as int].value
                        == spec_math_values(
                        spec_segments_of(old_tree[evs[j].id]),
                        evs[j].results,
                    )[i],
                Seq::new(
                    new_children@.len(),
                    |i: int| tree@[new_children@[i] as int].value,
                ) == spec_spliced_values(old_tree, evs, ocs.take(ci as int)),
                forall|i: int|
                    0 <= i < new_children@.len() ==> ((n as int) < #[trigger] new_children@[i] as int
                        && (new_children@[i] as int) < arena.len()),
            decreases old_children@.len() - ci,
        {
            let c = old_children[ci];
            let ghost pre_new = new_children@;
            proof {
                assert(ocs.take(ci + 1).drop_last() =~~= ocs.take(ci as int));
                assert(ocs.take(ci + 1).last() == ocs[ci as int]);
                assert(ocs[ci as int] == c as int);
            }
            match find_entry(entries, c) {
                Some(j) => {
                    proof {
                        lemma_entry_for_distinct(evs, j as int);
                        assert(spec_entry_for(evs, c as int) == Some(evs[j as int]));
                    }
                    let ids = crate::util::copy_indices(&repl[j]);
                    let mut q: usize = 0;
                    while q < ids.len()
                        invariant
                            0 <= q <= ids@.len(),
                            ids@ == repl@[j as int]@,
                            0 <= (j as int) < repl@.len() == evs.len(),
                            0 <= (n as int) < old_tree.len() <= arena.len(),
                            tree@.len() == arena.len(),
                            forall|m: int|
                                0 <= m < arena.len() ==> #[trigger] tree@[m].value
                                    == arena[m].value,
                            forall|jj: int, i: int|
                                0 <= jj < repl@.len() && 0 <= i < repl@[jj]@.len()
                                    ==> old_tree.len() <= #[trigger] repl@[jj]@[i] < arena.len(),
                            forall|jj: int, i: int|
                                0 <= jj < repl@.len() && 0 <= i < repl@[jj]@.len()
                                    ==> arena[#[trigger] repl@[jj]@[i] as int].value
                                    == spec_math_values(
                                    spec_segments_of(old_tree[evs[jj].id]),
                                    evs[jj].results,
                                )[i],
                            new_children@ == pre_new + ids@.subrange(0, q as int),
                            forall|i: int|
                                0 <= i < new_children@.len() ==> ((n as int)
                                    < #[trigger] new_children@[i] as int && (new_children@[i] as int)
                                    < arena.len()),
                        decreases ids@.len() - q,
                    {
                        new_children.push(ids[q]);
                        proof {
                            assert(new_children@ =~~= pre_new + ids@.subrange(0, q + 1));
                        }
                        q = q + 1;
                    }
                    proof {
                        assert(ids@.subrange(0, ids@.len() as int) =~~= ids@);
                        let seg_vals = spec_math_values(
                            spec_segments_of(old_tree[evs[j as int].id]),
                            evs[j as int].results,
                        );
                        assert(evs[j as int].id == c as int);
                        assert(Seq::new(
                            new_children@.len(),
                            |i: int| tree@[new_children@[i] as int].value,
                        ) =~~= spec_spliced_values(old_tree, evs, ocs.take(ci as int)) + seg_vals);
                        assert(Seq::new(
                            new_children@.len(),
                            |i: int| tree@[new_children@[i] as int].value,
                        ) =~~= spec_spliced_values(old_tree, evs, ocs.take(ci + 1)));
                    }
                },
                None => {
                    proof {
                        lemma_entry_for_absent(evs, c as int);
                    }
                    new_children.push(c);
                    proof {
                        assert(tree@[c as int].value == old_tree[c as int].value);
                        assert(Seq::new(
                            new_children@.len(),
                            |i: int| tree@[new_children@[i] as int].value,
                        ) =~~= spec_spliced_values(old_tree, evs, ocs.take(ci as int)) + seq![
                            old_tree[c as int].value,
                        ]);
                        assert(Seq::new(
                            new_children@.len(),
                            |i: int| tree@[new_children@[i] as int].value,
                        ) =~~= spec_spliced_values(old_tree, evs, ocs.take(ci + 1)));
                    }
                },
            }
            ci = ci + 1;
        }
        proof {
            assert(ocs.take(ocs.len() as int) =~~= ocs);
        }
        let v = clone_node_value(&tree.nodes[n].value);
        let n_line = tree.nodes[n].line;
        let n_col = tree.nodes[n].col;
        let ghost pre_tree = tree@;
        let replacement = MdNode { value: v, line: n_line, col: n_col, children: new_children };
        tree.nodes[n] = replacement;
        proof {
            assert forall|m: int|
                0 <= m < arena.len() && m != n implies tree@[m] == pre_tree[m] by {}
            assert(tree@[n as int].value == pre_tree[n as int].value);
            assert(tree@[n as int].line == pre_tree[n as int].line);
            assert(tree@[n as int].col == pre_tree[n as int].col);
            assert forall|m: int|
                0 <= m < arena.len() implies (#[trigger] tree@[m].value == arena[m].value
                    && tree@[m].line == arena[m].line && tree@[m].col == arena[m].col) by {
                if m != n {
                    assert(tree@[m] == pre_tree[m]);
                }
            }
            assert forall|m: int|
                old_tree.len() <= m < arena.len() implies #[trigger] tree@[m].children == Seq::<
                    int,
                >::empty() by {
                assert(tree@[m] == pre_tree[m]);
            }
            assert forall|m: int|
                (n + 1 <= m < old_tree.len()) implies #[trigger] tree@[m].children
                == old_tree[m].children by {
                assert(tree@[m] == pre_tree[m]);
            }
            assert(tree@[n as int].children == replacement@.children);
            assert(spec_child_values(tree@, n as int) =~~= Seq::new(
                replacement@.children.len(),
                |i: int| tree@[replacement@.children[i] as int].value,
            ));
            assert forall|m: int|
                0 <= m < n + 1 implies #[trigger] spec_child_values(tree@, m)
                == spec_spliced_values(old_tree, evs, old_tree[m].children) by {
                if m < n {
                    assert(tree@[m] == pre_tree[m]);
                    assert(spec_child_values(tree@, m) =~~= spec_child_values(pre_tree, m));
                }
            }
            assert forall|m: int, i: int|
                0 <= m < n + 1 && 0 <= i < tree@[m].children.len() implies m
                < #[trigger] tree@[m].children[i] && tree@[m].children[i] < arena.len() by {
                if m != n {
                    assert(tree@[m] == pre_tree[m]);
                } else {
                    assert(tree@[m].children[i] == new_children@.map_values(
                        |c: usize| c as int,
                    )[i]);
                }
            }
        }
        n = n + 1;
    }
    proof {
        assert(old_tree == old(tree)@);
        assert forall|m: int|
            0 <= m < old_tree.len() implies #[trigger] spec_child_values(tree@, m)
            == spec_spliced_values(old_tree, evs, old_tree[m].children) by {}
        assert forall|m: int, i: int|
            0 <= m < tree@.len() && 0 <= i < tree@[m].children.len() implies m
            < #[trigger] tree@[m].children[i] < tree@.len() by {
            if m >= old_tree.len() {
                assert(tree@[m].children == Seq::<int>::empty());
            }
        }
    }
}

/// One character of text escaped for an HTML attribute value: `&`, `<`,
/// `>` and the double quote become entities.
pub open spec fn esc_attr_char(c: char) -> Seq<char> {
    if c == '&' {
        seq!['&', 'a', 'm', 'p', ';']
    } else if c == '<' {
        seq!['&', 'l', 't', ';']
    } else if c == '>' {
        seq!['&', 'g', 't', ';']
    } else if c == '"' {
        seq!['&', 'q', 'u', 'o', 't', ';']
    } else {
        seq![c]
    }
}

/// Text escaped for a double-quoted HTML attribute value.
pub open spec fn spec_attr_escaped(s: Seq<char>) -> Seq<char>
    decreases s.len(),
{
    if s.len() == 0 {
        Seq::empty()
    } else {
        spec_attr_escaped(s.drop_last()) + esc_attr_char(s.last())
    }
}

/// One character of regular HTML text escaped: `&`, `<` and `>` become
/// entities.
pub open spec fn esc_text_char(c: char) -> Seq<char> {
    if c == '&' {
        seq!['&', 'a', 'm', 'p', ';']
    } else if c == '<' {
        seq!['&', 'l', 't', ';']
    } else if c == '>' {
        seq!['&', 'g', 't', ';']
    } else {
        seq![c]
    }
}

/// Regular HTML text escaped.
pub open spec fn spec_text_escaped(s: Seq<char>) -> Seq<char>
    decreases s.len(),
{
    if s.len() == 0 {
        Seq::empty()
    } else {
        spec_text_escaped(s.drop_last()) + esc_text_char(s.last())
    }
}

/// Escape text for a double-quoted HTML attribute value.
pub fn escape_attribute(s: &str) -> (r: String)
    ensures
        r@ == spec_attr_escaped(s@),
{
    let cs = str_chars(s);
    let mut out: Vec<char> = Vec::new();
    let mut i: usize = 0;
    proof {
        assert(cs@.take(0) =~~= Seq::<char>::empty());
    }
    while i < cs.len()
        invariant
            0 <= i <= cs@.len(),
            cs@ == s@,
            out@ == spec_attr_escaped(cs@.take(i as int)),
        decreases cs@.len() - i,
    {
        let ghost pre = out@;
        let c = cs[i];
        if c == '&' {
            out.push('&');
            out.push('a');
            out.push('m');
            out.push('p');
            out.push(';');
        } else if c == '<' {
            out.push('&');
            out.push('l');
            out.push('t');
            out.push(';');
        } else if c == '>' {
            out.push('&');
            out.push('g');
            out.push('t');
            out.push(';');
        } else if c == '"' {
            out.push('&');
            out.push('q');
            out.push('u');
            out.push('o');
            out.push('t');
            out.push(';');
        } else {
            out.push(c);
        }
        proof {
            assert(out@ =~~= pre + esc_attr_char(cs@[i as int]));
            assert(cs@.take(i + 1).drop_last() =~~= cs@.take(i as int));
            assert(cs@.take(i + 1).last() == cs@[i as int]);
        }
        i = i + 1;
    }
    proof {
        assert(cs@.take(cs@.len() as int) =~~= cs@);
    }
    crate::util::chars_to_string(&out)
}

/// Relies on `html_escape::encode_text`: it escapes exactly `&`, `<` and
/// `>` to their named entities and keeps every other character.
#[verifier::external_body]
pub fn escape_text(s: &str) -> (r: String)
    ensures
        r@ == spec_text_escaped(s@),
{
    html_escape::encode_text(s).into_owned()
}

/// The preorder concatenation of the plain text held by a forest of
/// nodes and their descendants, watched over by a fuel bound.
pub open spec fn spec_forest_text(t: Seq<MdNodeView>, roots: Seq<int>, fuel: nat) -> Seq<char>
    decreases fuel, roots.len(),
{
    if roots.len() == 0 {
        Seq::empty()
    } else if fuel == 0 {
        Seq::empty()
    } else {
        let n = roots[0];
        (match t[n].value {
            NodeValueView::Text(txt) => txt,
            _ => Seq::empty(),
        }) + spec_forest_text(t, t[n].children, (fuel - 1) as nat) + spec_forest_text(
            t,
            roots.drop_first(),
            fuel,
        )
    }
}

/// With enough fuel, the forest text no longer depends on the exact
/// fuel: every walk descends through strictly increasing indices, so a
/// depth of `t.len() - lo` always suffices for roots past `lo`.
pub proof fn lemma_forest_text_fuel(
    t: Seq<MdNodeView>,
    roots: Seq<int>,
    lo: int,
    f1: nat,
    f2: nat,
)
    requires
        spec_wf_arena(t),
        -1 <= lo,
        forall|i: int| 0 <= i < roots.len() ==> lo < #[trigger] roots[i] < t.len(),
        f1 >= t.len() - lo,
        f2 >= t.len() - lo,
    ensures
        spec_forest_text(t, roots, f1) == spec_forest_text(t, roots, f2),
    decreases f1, roots.len(),
{
    if roots.len() == 0 {
    } else {
        let n = roots[0];
        assert(f1 > 0 && f2 > 0);
        assert forall|i: int| 0 <= i < t[n].children.len() implies n < #[trigger] t[n].children[i]
            < t.len() by {}
        lemma_forest_text_fuel(t, t[n].children, n, (f1 - 1) as nat, (f2 - 1) as nat);
        assert(forall|i: int|
            0 <= i < roots.drop_first().len() ==> lo < #[trigger] roots.drop_first()[i] < t.len());
        lemma_forest_text_fuel(t, roots.drop_first(), lo, f1, f2);
    }
}

fn forest_text(tree: &MdTree, roots: &Vec<usize>, at: usize, lo: Ghost<int>) -> (r: String)
    requires
        tree.wf(),
        at <= roots@.len(),
        -1 <= lo@,
        forall|i: int|
            0 <= i < roots@.len() ==> (lo@ < #[trigger] roots@[i] as int && (roots@[i] as int)
                < tree@.len()),
    ensures
        r@ == spec_forest_text(
            tree@,
            roots@.map_values(|c: usize| c as int).skip(at as int),
            (tree@.len() - lo@) as nat,
        ),
    decreases tree@.len() - lo@, roots@.len() - at,
{
    let ghost rs = roots@.map_values(|c: usize| c as int).skip(at as int);
    let ghost fuel = (tree@.len() - lo@) as nat;
    if at >= roots.len() {
        proof {
            assert(rs =~~= Seq::<int>::empty());
        }
        return String::new();
    }
    let n = roots[at];
    proof {
        assert(rs[0] == n as int);
        assert(fuel > 0);
    }
    let own: String = match &tree.nodes[n].value {
        NodeValue::Text(txt) => txt.clone(),
        _ => String::new(),
    };
    let kids = crate::util::copy_indices(&tree.nodes[n].children);
    proof {
        assert(kids@.map_values(|c: usize| c as int) =~~= tree@[n as int].children);
        assert forall|i: int|
            0 <= i < kids@.len() implies ((n as int) < #[trigger] kids@[i] as int && (
            kids@[i] as int) < tree@.len()) by {
            assert(tree@[n as int].children[i] == kids@[i] as int);
        }
    }
    let below = forest_text(tree, &kids, 0, Ghost(n as int));
    proof {
        assert(kids@.map_values(|c: usize| c as int).skip(0) =~~= tree@[n as int].children);
        lemma_forest_text_fuel(
            tree@,
            tree@[n as int].children,
            n as int,
            (tree@.len() - n) as nat,
            (fuel - 1) as nat,
        );
    }
    let rest = forest_text(tree, roots, at + 1, lo);
    proof {
        assert(roots@.map_values(|c: usize| c as int).skip(at + 1) =~~= rs.drop_first());
    }
    let mut out = own;
    out.append(below.as_str());
    out.append(rest.as_str());
    proof {
        assert(out@ =~~= spec_forest_text(tree@, rs, fuel));
    }
    out
}

/// The text a node's descendants hold, in preorder.
pub open spec fn spec_descendant_text(t: Seq<MdNodeView>, n: int) -> Seq<char> {
    spec_forest_text(t, t[n].children, (t.len() - n) as nat)
}

/// The caption-bearing markup an image node becomes: the image wrapped
/// in a figure, linking to itself, its accumulated descendant text as
/// the alt text, and the image's title as the caption when it has one.
pub open spec fn spec_figure_markup(url: Seq<char>, title: Seq<char>, alt: Seq<char>) -> Seq<
    char,
> {
    "<figure><picture><a href=\""@ + spec_attr_escaped(url) + "\"><img src=\""@
        + spec_attr_escaped(url) + "\" alt=\""@ + spec_attr_escaped(alt) + "\"></a></picture>"@ + (
    if title.len() > 0 {
        "<figcaption>"@ + spec_text_escaped(title) + "</figcaption>"@
    } else {
        Seq::empty()
    }) + "</figure>"@
}

fn figure_markup(url: &str, title: &str, alt: &str) -> (r: String)
    ensures
        r@ == spec_figure_markup(url@, title@, alt@),
{
    let mut s = String::new();
    s.append("<figure><picture><a href=\"");
    s.append(escape_attribute(url).as_str());
    s.append("\"><img src=\"");
    s.append(escape_attribute(url).as_str());
    s.append("\" alt=\"");
    s.append(escape_attribute(alt).as_str());
    s.append("\"></a></picture>");
    if title.unicode_len() > 0 {
        s.append("<figcaption>");
        s.append(escape_text(title).as_str());
        s.append("</figcaption>");
    }
    s.append("</figure>");
    proof {
        assert(s@ =~~= spec_figure_markup(url@, title@, alt@));
    }
    s
}

/// Wrap every image node in a caption-bearing figure: the markup links
/// the image to itself, carries the concatenation of the node's
/// descendant text as alt text, and captions it with the image's title
/// when there is one. The image node's own children are discarded after
/// the concatenation.
#[verifier::rlimit(50)]
pub fn transform_image_to_picture(tree: &mut MdTree)
    requires
        old(tree).wf(),
    ensures
        final(tree).wf(),
        final(tree)@.len() == old(tree)@.len(),
        forall|n: int|
            0 <= n < old(tree)@.len() ==> (#[trigger] final(tree)@[n].line == old(tree)@[n].line
                && final(tree)@[n].col == old(tree)@[n].col),
        forall|n: int|
            0 <= n < old(tree)@.len() && !(old(tree)@[n].value is Image) ==> final(tree)@[n] == old(
                tree,
            )@[n],
        forall|n: int|
            0 <= n < old(tree)@.len() && old(tree)@[n].value is Image ==> (
            #[trigger] final(tree)@[n].value == NodeValueView::HtmlBlock(
                spec_figure_markup(
                    old(tree)@[n].value->Image_url,
                    old(tree)@[n].value->Image_title,
                    spec_descendant_text(old(tree)@, n),
                ),
            ) && final(tree)@[n].children == Seq::<int>::empty()),
{
    let ghost old_tree = tree@;
    // First gather the markup for every image over the untouched tree.
    let mut jobs: Vec<(usize, String)> = Vec::new();
    let mut n: usize = 0;
    while n < tree.nodes.len()
        invariant
            0 <= n <= tree@.len(),
            tree.wf(),
            tree@ == old_tree,
            forall|k: int|
                0 <= k < jobs@.len() ==> {
                    let j = #[trigger] jobs@[k];
                    &&& 0 <= j.0 < n
                    &&& old_tree[j.0 as int].value is Image
                    &&& j.1@ == spec_figure_markup(
                        old_tree[j.0 as int].value->Image_url,
                        old_tree[j.0 as int].value->Image_title,
                        spec_descendant_text(old_tree, j.0 as int),
                    )
                },
            forall|m: int|
                0 <= m < n && old_tree[m].value is Image ==> exists|k: int|
                    0 <= k < jobs@.len() && #[trigger] jobs@[k].0 == m,
            forall|k1: int, k2: int| 0 <= k1 < k2 < jobs@.len() ==> jobs@[k1].0 != jobs@[k2].0,
        decreases tree@.len() - n,
    {
        let is_image = match &tree.nodes[n].value {
            NodeValue::Image { url, title } => true,
            _ => false,
        };
        if is_image {
            let (url, title) = match &tree.nodes[n].value {
                NodeValue::Image { url, title } => (url.clone(), title.clone()),
                _ => vstd::pervasive::unreached(),
            };
            let kids = crate::util::copy_indices(&tree.nodes[n].children);
            proof {
                assert(kids@.map_values(|c: usize| c as int) =~~= tree@[n as int].children);
                assert forall|i: int|
                    0 <= i < kids@.len() implies ((n as int) < #[trigger] kids@[i] as int && (
                    kids@[i] as int) < tree@.len()) by {
                    assert(tree@[n as int].children[i] == kids@[i] as int);
                }
            }
            let alt = forest_text(tree, &kids, 0, Ghost(n as int));
            proof {
                assert(kids@.map_values(|c: usize| c as int).skip(0) =~~= tree@[n as int].children);
                assert(alt@ == spec_descendant_text(old_tree, n as int));
            }
            let markup = figure_markup(url.as_str(), title.as_str(), alt.as_str());
            let ghost pre = jobs@;
            jobs.push((n, markup));
            proof {
                assert forall|m: int|
                    0 <= m < n + 1 && old_tree[m].value is Image implies exists|k: int|
                    0 <= k < jobs@.len() && #[trigger] jobs@[k].0 == m by {
                    if m == n {
                        assert(jobs@[jobs@.len() - 1].0 == m);
                    } else {
                        let k0 = choose|k0: int| 0 <= k0 < pre.len() && #[trigger] pre[k0].0 == m;
                        assert(jobs@[k0].0 == m);
                    }
                }
            }
        }
        n = n + 1;
    }
    // Then replace each image with its figure markup and drop its
    // children.
    let mut k: usize = 0;
    while k < jobs.len()
        invariant
            0 <= k <= jobs@.len(),
            tree@.len() == old_tree.len(),
            forall|q: int|
                0 <= q < jobs@.len() ==> {
                    let j = #[trigger] jobs@[q];
                    &&& 0 <= j.0 < old_tree.len()
                    &&& old_tree[j.0 as int].value is Image
                    &&& j.1@ == spec_figure_markup(
                        old_tree[j.0 as int].value->Image_url,
                        old_tree[j.0 as int].value->Image_title,
                        spec_descendant_text(old_tree, j.0 as int),
                    )
                },
            forall|m: int|
                0 <= m < old_tree.len() && old_tree[m].value is Image ==> exists|q: int|
                    0 <= q < jobs@.len() && #[trigger] jobs@[q].0 == m,
            forall|q1: int, q2: int| 0 <= q1 < q2 < jobs@.len() ==> jobs@[q1].0 != jobs@[q2].0,
            forall|m: int|
                0 <= m < old_tree.len() ==> (#[trigger] tree@[m].line == old_tree[m].line
                    && tree@[m].col == old_tree[m].col),
            forall|m: int|
                0 <= m < old_tree.len() && (forall|q: int|
                    0 <= q < k ==> #[trigger] jobs@[q].0 != m) ==> tree@[m] == old_tree[m],
            forall|q: int|
                0 <= q < k ==> (#[trigger] tree@[jobs@[q].0 as int].value
                    == NodeValueView::HtmlBlock(jobs@[q].1@) && tree@[jobs@[q].0 as int].children
                    == Seq::<int>::empty()),
            forall|m: int, i: int|
                0 <= m < tree@.len() && 0 <= i < tree@[m].children.len() ==> m
                    < #[trigger] tree@[m].children[i] && tree@[m].children[i] < tree@.len(),
        decreases jobs@.len() - k,
    {
        let id = jobs[k].0;
        let markup = jobs[k].1.clone();
        let n_line = tree.nodes[id].line;
        let n_col = tree.nodes[id].col;
        let ghost pre = tree@;
        let replacement = MdNode {
            value: NodeValue::HtmlBlock(markup),
            line: n_line,
            col: n_col,
            children: Vec::new(),
        };
        tree.nodes[id] = replacement;
        proof {
            assert forall|m: int|
                0 <= m < old_tree.len() && m != id implies tree@[m] == pre[m] by {}
            assert(tree@[id as int].children =~~= Seq::<int>::empty());
            assert forall|q: int|
                0 <= q < k + 1 implies (#[trigger] tree@[jobs@[q].0 as int].value
                == NodeValueView::HtmlBlock(jobs@[q].1@) && tree@[jobs@[q].0 as int].children
                == Seq::<int>::empty()) by {
                if q < k {
                    assert(jobs@[q].0 != id);
                    assert(tree@[jobs@[q].0 as int] == pre[jobs@[q].0 as int]);
                }
            }
            assert forall|m: int, i: int|
                0 <= m < tree@.len() && 0 <= i < tree@[m].children.len() implies m
                < #[trigger] tree@[m].children[i] && tree@[m].children[i] < tree@.len() by {
                if m != id {
                    assert(tree@[m] == pre[m]);
                } else {
                    assert(tree@[m].children =~~= Seq::<int>::empty());
                }
            }
        }
        k = k + 1;
    }
    proof {
        assert(old_tree == old(tree)@);
        assert forall|m: int|
            0 <= m < old_tree.len() && old_tree[m].value is Image implies (
            #[trigger] tree@[m].value == NodeValueView::HtmlBlock(
                spec_figure_markup(
                    old_tree[m].value->Image_url,
                    old_tree[m].value->Image_title,
                    spec_descendant_text(old_tree, m),
                ),
            ) && tree@[m].children == Seq::<int>::empty()) by {
            let q = choose|q: int| 0 <= q < jobs@.len() && #[trigger] jobs@[q].0 == m;
        }
    }
}

/// How a math fragment is rendered: inline, or display (block) mode.
#[derive(Clone, Copy, Debug, PartialEq, Eq, Structural)]
pub enum MathMode {
    Inline,
    Display,
}

/// What a raw HTML fragment asks the math renderer for: `<m>...</m>`
/// wraps inline math and `<M>...</M>` display math, giving the source
/// between the tags.
pub open spec fn spec_math_html(s: Seq<char>) -> Option<(Seq<char>, MathMode)> {
    if s.len() >= 7 && s.subrange(0, 3) == "<M>"@ && s.subrange(s.len() - 4, s.len() as int)
        == "</M>"@ {
        Some((s.subrange(3, s.len() - 4), MathMode::Display))
    } else if s.len() >= 7 && s.subrange(0, 3) == "<m>"@ && s.subrange(s.len() - 4, s.len() as int)
        == "</m>"@ {
        Some((s.subrange(3, s.len() - 4), MathMode::Inline))
    } else {
        None
    }
}

/// Read a raw HTML fragment as a math request: the source between
/// `<M>...</M>` tags renders in display mode, between `<m>...</m>` tags
/// inline.
pub fn get_math_html(html: &str) -> (r: Option<(String, MathMode)>)
    ensures
        match r {
            Some(p) => spec_math_html(html@) == Some((p.0@, p.1)),
            None => spec_math_html(html@) is None,
        },
{
    let cs = str_chars(html);
    let n = cs.len();
    proof {
        reveal_strlit("<M>");
        reveal_strlit("</M>");
        reveal_strlit("<m>");
        reveal_strlit("</m>");
        if html@.len() >= 7 {
            assert(html@.subrange(0, 3)[0] == html@[0]);
            assert(html@.subrange(0, 3)[1] == html@[1]);
            assert(html@.subrange(0, 3)[2] == html@[2]);
            assert(html@.subrange(html@.len() - 4, html@.len() as int)[0] == html@[html@.len()
                - 4]);
            assert(html@.subrange(html@.len() - 4, html@.len() as int)[1] == html@[html@.len()
                - 3]);
            assert(html@.subrange(html@.len() - 4, html@.len() as int)[2] == html@[html@.len()
                - 2]);
            assert(html@.subrange(html@.len() - 4, html@.len() as int)[3] == html@[html@.len()
                - 1]);
        }
    }
    if n >= 7 && cs[0] == '<' && cs[1] == 'M' && cs[2] == '>' && cs[n - 4] == '<' && cs[n - 3]
        == '/' && cs[n - 2] == 'M' && cs[n - 1] == '>' {
        proof {
            assert(html@.subrange(0, 3) =~~= "<M>"@);
            assert(html@.subrange(n - 4, n as int) =~~= "</M>"@);
        }
        let inner = string_range(&cs, 3, n - 4);
        Some((inner, MathMode::Display))
    } else if n >= 7 && cs[0] == '<' && cs[1] == 'm' && cs[2] == '>' && cs[n - 4] == '<' && cs[n
        - 3] == '/' && cs[n - 2] == 'm' && cs[n - 1] == '>' {
        proof {
            assert(html@.subrange(0, 3) =~~= "<m>"@);
            assert(html@.subrange(n - 4, n as int) =~~= "</m>"@);
            if html@.subrange(0, 3) == "<M>"@ {
                assert(html@[1] == 'M');
                assert(false);
            }
        }
        let inner = string_range(&cs, 3, n - 4);
        Some((inner, MathMode::Inline))
    } else {
        proof {
            if html@.len() >= 7 && html@.subrange(0, 3) == "<M>"@ && html@.subrange(
                html@.len() - 4,
                html@.len() as int,
            ) == "</M>"@ {
                assert(false);
            }
            if html@.len() >= 7 && html@.subrange(0, 3) == "<m>"@ && html@.subrange(
                html@.len() - 4,
                html@.len() as int,
            ) == "</m>"@ {
                assert(false);
            }
        }
        None
    }
}

/// The block that wraps rendered display math: a `math-block` container
/// holding the renderer's output as escaped text.
pub open spec fn spec_math_block(html: Seq<char>) -> Seq<char> {
    "<div class=\"math-block\">"@ + spec_text_escaped(html) + "</div>"@
}

/// Wrap rendered display math in its container block.
pub fn html_math_block(html: &str) -> (r: String)
    ensures
        r@ == spec_math_block(html@),
{
    let mut s = String::new();
    s.append("<div class=\"math-block\">");
    s.append(escape_text(html).as_str());
    s.append("</div>");
    proof {
        assert(s@ =~~= spec_math_block(html@));
    }
    s
}

/// The bytes of a serialized page with every character the chosen
/// character set flags encoded as an HTML entity. The encoding is a
/// fixed function of the input bytes alone.
pub uninterp spec fn entity_encoded_of(b: Seq<u8>) -> Seq<u8>;

/// Relies on `htmlentity::entity::encode` with the named-or-hex entity
/// set over non-ASCII characters: the encoding depends on the input
/// bytes alone.
#[verifier::external_body]
fn entity_encode_bytes(b: &[u8]) -> (r: Vec<u8>)
    ensures
        r@ == entity_encoded_of(b@),
{
    htmlentity::entity::encode(
        b,
        &htmlentity::entity::EncodeType::NamedOrHex,
        &htmlentity::entity::CharacterSet::NonASCII,
    ).to_bytes()
}

/// Encode a serialized page for portability: every non-ASCII character
/// becomes an HTML entity.
pub fn encode_non_ascii(html: &str) -> (r: Vec<u8>)
    ensures
        r@ == entity_encoded_of(html.spec_bytes()),
{
    let bytes = html.as_bytes();
    entity_encode_bytes(bytes)
}

/// What plain text content transforms to: the text entity-escaped inside
/// a preformatted block.
pub open spec fn spec_pre_block(raw: Seq<char>) -> Seq<char> {
    "<pre>"@ + spec_text_escaped(raw) + "</pre>"@
}

impl crate::docs::Content {
    /// Transform content that needs no markup pipeline: plain text is
    /// escaped into a preformatted block and HTML passes through
    /// unchanged. Markdown needs the full pipeline, so nothing comes
    /// back for it.
    pub fn transform_simple(&self) -> (r: Option<crate::docs::TransformedContent>)
        ensures
            match r {
                Some(tc) => match self@.content_type {
                    crate::docs::ContentType::Plaintext => tc.html@ == spec_pre_block(self@.raw),
                    crate::docs::ContentType::Html => tc.html@ == self@.raw,
                    crate::docs::ContentType::Markdown => false,
                },
                None => self@.content_type is Markdown,
            },
    {
        match self.content_type {
            crate::docs::ContentType::Plaintext => {
                let mut s = String::new();
                s.append("<pre>");
                s.append(escape_text(self.raw.as_str()).as_str());
                s.append("</pre>");
                proof {
                    assert(s@ =~~= spec_pre_block(self@.raw));
                }
                Some(crate::docs::TransformedContent { html: s })
            },
            crate::docs::ContentType::Html => Some(
                crate::docs::TransformedContent { html: self.raw.clone() },
            ),
            crate::docs::ContentType::Markdown => None,
        }
    }
}

/// One raw-HTML math request found in the tree: which node asked, the
/// math source, and the mode.
pub struct HtmlMathJob {
    pub id: usize,
    pub source: String,
    pub mode: MathMode,
    /// True when the request came from a `math` code fence rather than
    /// an HTML block.
    pub from_code: bool,
}

/// The math request a node's value makes, if any: an HTML block wrapped
/// in math tags, or a code fence whose info string is `math`.
pub open spec fn spec_html_math_of(v: NodeValueView) -> Option<(Seq<char>, MathMode, bool)> {
    match v {
        NodeValueView::HtmlBlock(b) => match spec_math_html(b) {
            Some(p) => Some((p.0, p.1, false)),
            None => None,
        },
        NodeValueView::CodeBlock { info, literal } => if info == "math"@ {
            Some((literal, MathMode::Display, true))
        } else {
            None
        },
        _ => None,
    }
}

/// Collect every raw-HTML math request in the tree, in node order.
pub fn collect_html_math(tree: &MdTree) -> (r: Vec<HtmlMathJob>)
    ensures
        forall|k: int|
            0 <= k < r@.len() ==> {
                let j = #[trigger] r@[k];
                &&& 0 <= j.id < tree@.len()
                &&& spec_html_math_of(tree@[j.id as int].value) == Some(
                    (j.source@, j.mode, j.from_code),
                )
            },
        forall|n: int|
            0 <= n < tree@.len() && spec_html_math_of(tree@[n].value) is Some ==> exists|k: int|
                0 <= k < r@.len() && #[trigger] r@[k].id == n,
        forall|k1: int, k2: int| 0 <= k1 < k2 < r@.len() ==> r@[k1].id != r@[k2].id,
{
    let mut r: Vec<HtmlMathJob> = Vec::new();
    let mut n: usize = 0;
    while n < tree.nodes.len()
        invariant
            0 <= n <= tree@.len(),
            forall|k: int|
                0 <= k < r@.len() ==> {
                    let j = #[trigger] r@[k];
                    &&& 0 <= j.id < n
                    &&& spec_html_math_of(tree@[j.id as int].value) == Some(
                        (j.source@, j.mode, j.from_code),
                    )
                },
            forall|m: int|
                0 <= m < n && spec_html_math_of(tree@[m].value) is Some ==> exists|k: int|
                    0 <= k < r@.len() && #[trigger] r@[k].id == m,
            forall|k1: int, k2: int| 0 <= k1 < k2 < r@.len() ==> r@[k1].id != r@[k2].id,
        decreases tree@.len() - n,
    {
        let ghost pre = r@;
        let mut pushed = false;
        match &tree.nodes[n].value {
            NodeValue::HtmlBlock(b) => match get_math_html(b.as_str()) {
                Some((source, mode)) => {
                    r.push(HtmlMathJob { id: n, source, mode, from_code: false });
                    pushed = true;
                },
                None => {
                    proof {
                        assert(spec_html_math_of(tree@[n as int].value) is None);
                    }
                },
            },
            NodeValue::CodeBlock { info, literal } => {
                proof {
                    reveal_strlit("math");
                }
                if crate::util::str_eq(info.as_str(), "math") {
                    r.push(
                        HtmlMathJob {
                            id: n,
                            source: literal.clone(),
                            mode: MathMode::Display,
                            from_code: true,
                        },
                    );
                    pushed = true;
                } else {
                    proof {
                        assert(spec_html_math_of(tree@[n as int].value) is None);
                    }
                }
            },
            _ => {
                proof {
                    assert(spec_html_math_of(tree@[n as int].value) is None);
                }
            },
        }
        proof {
            if pushed {
                assert forall|m: int|
                    0 <= m < n + 1 && spec_html_math_of(tree@[m].value) is Some implies exists|
                    k: int,
                |
                    0 <= k < r@.len() && #[trigger] r@[k].id == m by {
                    if m == n {
                        assert(r@[r@.len() - 1].id == m);
                    } else {
                        let k0 = choose|k0: int| 0 <= k0 < pre.len() && #[trigger] pre[k0].id == m;
                        assert(r@[k0].id == m);
                    }
                }
            }
        }
        n = n + 1;
    }
    r
}

/// One rendered raw-HTML math request, or its failure.
pub struct HtmlMathOutcome {
    pub job: HtmlMathJob,
    pub result: Result<String, String>,
}

/// Replace each successfully rendered raw-HTML math request with its
/// wrapped rendering: the request's node becomes an HTML block holding
/// the rendering inside the math container. A failed request
/// contributes an error with the source text and leaves its node
/// untouched.
#[verifier::rlimit(100)]
#[verifier::spinoff_prover]
pub fn apply_html_math(
    tree: &mut MdTree,
    outcomes: Vec<HtmlMathOutcome>,
    errors: &mut Errors<KatexError>,
)
    requires
        forall|k: int| 0 <= k < outcomes@.len() ==> #[trigger] outcomes@[k].job.id < old(tree)@.len(),
        forall|k1: int, k2: int|
            0 <= k1 < k2 < outcomes@.len() ==> outcomes@[k1].job.id != outcomes@[k2].job.id,
    ensures
        final(tree)@.len() == old(tree)@.len(),
        spec_same_shape(old(tree)@, final(tree)@),
        forall|n: int|
            0 <= n < old(tree)@.len() && (forall|k: int|
                0 <= k < outcomes@.len() ==> #[trigger] outcomes@[k].job.id != n)
                ==> final(tree)@[n] == old(tree)@[n],
        forall|k: int|
            0 <= k < outcomes@.len() ==> match #[trigger] outcomes@[k].result {
                Ok(h) => final(tree)@[outcomes@[k].job.id as int].value
                    == NodeValueView::HtmlBlock(spec_math_block(h@)),
                Err(_) => final(tree)@[outcomes@[k].job.id as int].value
                    == old(tree)@[outcomes@[k].job.id as int].value,
            },
        final(errors)@.len() >= old(errors)@.len(),
        forall|i: int| 0 <= i < old(errors)@.len() ==> final(errors)@[i] == old(errors)@[i],
        forall|k: int|
            0 <= k < outcomes@.len() ==> match #[trigger] outcomes@[k].result {
                Ok(_) => true,
                Err(e) => exists|i: int|
                    old(errors)@.len() <= i < final(errors)@.len() && {
                        let err = #[trigger] final(errors)@[i];
                        &&& err.source@ == outcomes@[k].job.source@
                        &&& err.message@ == e@
                    },
            },
{
    let ghost old_tree = tree@;
    let ghost old_errs = errors@;
    let mut k: usize = 0;
    while k < outcomes.len()
        invariant
            0 <= k <= outcomes@.len(),
            forall|q: int|
                0 <= q < outcomes@.len() ==> #[trigger] outcomes@[q].job.id < old_tree.len(),
            forall|k1: int, k2: int|
                0 <= k1 < k2 < outcomes@.len() ==> outcomes@[k1].job.id != outcomes@[k2].job.id,
            tree@.len() == old_tree.len(),
            spec_same_shape(old_tree, tree@),
            forall|n: int|
                0 <= n < old_tree.len() && (forall|q: int|
                    0 <= q < k ==> #[trigger] outcomes@[q].job.id != n) ==> tree@[n] == old_tree[n],
            forall|q: int|
                0 <= q < k ==> match #[trigger] outcomes@[q].result {
                    Ok(h) => tree@[outcomes@[q].job.id as int].value == NodeValueView::HtmlBlock(
                        spec_math_block(h@),
                    ),
                    Err(_) => tree@[outcomes@[q].job.id as int].value
                        == old_tree[outcomes@[q].job.id as int].value,
                },
            errors@.len() >= old_errs.len(),
            forall|i: int| 0 <= i < old_errs.len() ==> errors@[i] == old_errs[i],
            forall|q: int|
                0 <= q < k ==> match #[trigger] outcomes@[q].result {
                    Ok(_) => true,
                    Err(e) => exists|i: int|
                        old_errs.len() <= i < errors@.len() && {
                            let err = #[trigger] errors@[i];
                            &&& err.source@ == outcomes@[q].job.source@
                            &&& err.message@ == e@
                        },
                },
        decreases outcomes@.len() - k,
    {
        let outcome = &outcomes[k];
        let id = outcome.job.id;
        match &outcome.result {
            Ok(h) => {
                let wrapped = html_math_block(h.as_str());
                let n_line = tree.nodes[id].line;
                let n_col = tree.nodes[id].col;
                let kids = crate::util::copy_indices(&tree.nodes[id].children);
                let ghost pre = tree@;
                let replacement = MdNode {
                    value: NodeValue::HtmlBlock(wrapped),
                    line: n_line,
                    col: n_col,
                    children: kids,
                };
                tree.nodes[id] = replacement;
                proof {
                    assert(tree@[id as int].children =~~= pre[id as int].children);
                    assert forall|n: int|
                        0 <= n < old_tree.len() && n != id implies tree@[n] == pre[n] by {}
                    assert forall|n: int|
                        0 <= n < old_tree.len() implies (#[trigger] tree@[n].children
                        == old_tree[n].children && tree@[n].line == old_tree[n].line && tree@[n].col
                        == old_tree[n].col) by {
                        assert(pre[n].children == old_tree[n].children);
                        if n != id {
                            assert(tree@[n] == pre[n]);
                        }
                    }
                    lemma_same_shape_intro(old_tree, tree@);
                }
            },
            Err(e) => {
                let ghost pre_errs = errors@;
                errors.push(
                    KatexError { source: outcome.job.source.clone(), message: e.clone() },
                );
                proof {
                    let newest: int = errors@.len() - 1;
                    assert(errors@[newest].source@ == outcomes@[k as int].job.source@);
                    assert forall|q: int| 0 <= q < k + 1 implies match #[trigger] outcomes@[q].result {
                        Ok(_) => true,
                        Err(e2) => exists|i: int|
                            old_errs.len() <= i < errors@.len() && {
                                let err = #[trigger] errors@[i];
                                &&& err.source@ == outcomes@[q].job.source@
                                &&& err.message@ == e2@
                            },
                    } by {
                        if q < k {
                            match outcomes@[q].result {
                                Ok(_) => {},
                                Err(e2) => {
                                    let i0 = choose|i0: int|
                                        old_errs.len() <= i0 < pre_errs.len() && {
                                            let err = #[trigger] pre_errs[i0];
                                            &&& err.source@ == outcomes@[q].job.source@
                                            &&& err.message@ == e2@
                                        };
                                    assert(errors@[i0] == pre_errs[i0]);
                                },
                            }
                        }
                    }
                }
            },
        }
        k = k + 1;
    }
    proof {
        assert(old_tree == old(tree)@);
    }
}

} // verus!
