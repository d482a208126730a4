use vstd::prelude::*;

use crate::util::{str_chars, str_eq, string_range};

verus! {

/// A content type this system can transform.
#[derive(Clone, Copy, Debug, PartialEq, Eq, Structural)]
pub enum ContentType {
    Plaintext,
    Markdown,
    Html,
}

/// What a file's extension says the file is.
#[derive(Clone, Copy, Debug, PartialEq, Eq, Structural)]
pub enum DocumentKind {
    /// Markdown with a frontmatter block.
    Markdown,
    /// A whole-file YAML metadata sheet.
    Yaml,
    /// A whole-file TOML metadata sheet.
    Toml,
    /// Not a document: ancillary files are skipped, not errors.
    Other,
}

/// The last position of a character in a string, if any.
pub open spec fn spec_rfind(s: Seq<char>, c: char) -> Option<int>
    decreases s.len(),
{
    if s.len() == 0 {
        None
    } else if s.last() == c {
        Some(s.len() - 1)
    } else {
        spec_rfind(s.drop_last(), c)
    }
}

/// Everything before the last dot, or the whole string without one.
pub open spec fn spec_noext(s: Seq<char>) -> Seq<char> {
    match spec_rfind(s, '.') {
        Some(p) => s.take(p),
        None => s,
    }
}

/// Everything after the last dot, or nothing without one.
pub open spec fn spec_ext(s: Seq<char>) -> Seq<char> {
    match spec_rfind(s, '.') {
        Some(p) => s.skip(p + 1),
        None => Seq::empty(),
    }
}

proof fn lemma_rfind_from_suffix(s: Seq<char>, c: char, i: int)
    requires
        0 <= i <= s.len(),
        forall|k: int| i <= k < s.len() ==> s[k] != c,
    ensures
        spec_rfind(s, c) == spec_rfind(s.take(i), c),
    decreases s.len() - i,
{
    if i < s.len() {
        assert(s.take(i + 1).drop_last() =~~= s.take(i));
        lemma_rfind_from_suffix(s, c, i + 1);
        assert(s.take(s.len() as int) =~~= s);
        if i + 1 < s.len() {
        }
        assert(spec_rfind(s.take(i + 1), c) == spec_rfind(s.take(i), c));
    } else {
        assert(s.take(i) =~~= s);
    }
}

/// Split a filename's last file extension off, returning both: the part
/// before the last dot and the part after it, or the whole name and an
/// empty extension when there is no dot.
pub fn split_extension(pathname: &str) -> (r: (String, String))
    ensures
        r.0@ == spec_noext(pathname@),
        r.1@ == spec_ext(pathname@),
{
    let cs = str_chars(pathname);
    let n = cs.len();
    let mut i = n;
    while i > 0
        invariant
            0 <= i <= n == cs@.len(),
            cs@ == pathname@,
            forall|k: int| i <= k < n ==> cs@[k] != '.',
        decreases i,
    {
        if cs[i - 1] == '.' {
            proof {
                lemma_rfind_from_suffix(pathname@, '.', i as int);
                assert(pathname@.take(i as int).last() == '.');
                assert(pathname@.take(i as int).drop_last() =~~= pathname@.take(i - 1));
                assert(spec_rfind(pathname@, '.') == Some(i - 1));
            }
            let noext = string_range(&cs, 0, i - 1);
            let ext = string_range(&cs, i, n);
            proof {
                assert(noext@ =~~= pathname@.take(i - 1));
                assert(ext@ =~~= pathname@.skip(i as int));
            }
            return (noext, ext);
        }
        i = i - 1;
    }
    proof {
        lemma_rfind_from_suffix(pathname@, '.', 0);
        assert(pathname@.take(0) =~~= Seq::<char>::empty());
        assert(spec_rfind(pathname@, '.') is None);
    }
    let whole = string_range(&cs, 0, n);
    proof {
        assert(whole@ =~~= pathname@);
    }
    (whole, String::new())
}

/// The document kind an extension names: `md` and `markdown` are
/// markdown with frontmatter, `yml` and `yaml` whole-file YAML metadata,
/// `toml` whole-file TOML metadata, anything else no document at all.
pub open spec fn spec_classify(ext: Seq<char>) -> DocumentKind {
    if ext == seq!['m', 'd'] || ext == seq!['m', 'a', 'r', 'k', 'd', 'o', 'w', 'n'] {
        DocumentKind::Markdown
    } else if ext == seq!['y', 'm', 'l'] || ext == seq!['y', 'a', 'm', 'l'] {
        DocumentKind::Yaml
    } else if ext == seq!['t', 'o', 'm', 'l'] {
        DocumentKind::Toml
    } else {
        DocumentKind::Other
    }
}

/// The document kind a file extension names.
pub fn classify_extension(ext: &str) -> (r: DocumentKind)
    ensures
        r == spec_classify(ext@),
{
    proof {
        reveal_strlit("md");
        reveal_strlit("markdown");
        reveal_strlit("yml");
        reveal_strlit("yaml");
        reveal_strlit("toml");
        assert("md"@ =~~= seq!['m', 'd']);
        assert("markdown"@ =~~= seq!['m', 'a', 'r', 'k', 'd', 'o', 'w', 'n']);
        assert("yml"@ =~~= seq!['y', 'm', 'l']);
        assert("yaml"@ =~~= seq!['y', 'a', 'm', 'l']);
        assert("toml"@ =~~= seq!['t', 'o', 'm', 'l']);
    }
    if str_eq(ext, "md") || str_eq(ext, "markdown") {
        DocumentKind::Markdown
    } else if str_eq(ext, "yml") || str_eq(ext, "yaml") {
        DocumentKind::Yaml
    } else if str_eq(ext, "toml") {
        DocumentKind::Toml
    } else {
        DocumentKind::Other
    }
}

/// The first position at or after `i` where `pat` occurs in `s`.
pub open spec fn spec_find(pat: Seq<char>, s: Seq<char>, i: int) -> Option<int>
    decreases s.len() - i,
    when 0 <= i <= s.len() && pat.len() >= 1
{
    if i + pat.len() > s.len() {
        None
    } else if s.subrange(i, i + pat.len()) == pat {
        Some(i)
    } else {
        spec_find(pat, s, i + 1)
    }
}

/// A found occurrence lies in bounds and matches the pattern.
pub proof fn lemma_find_bounds(pat: Seq<char>, s: Seq<char>, i: int)
    requires
        0 <= i <= s.len(),
        pat.len() >= 1,
        spec_find(pat, s, i) is Some,
    ensures
        i <= spec_find(pat, s, i)->Some_0,
        spec_find(pat, s, i)->Some_0 + pat.len() <= s.len(),
        s.subrange(spec_find(pat, s, i)->Some_0, spec_find(pat, s, i)->Some_0 + pat.len()) == pat,
    decreases s.len() - i,
{
    if i + pat.len() > s.len() {
    } else if s.subrange(i, i + pat.len()) == pat {
    } else {
        lemma_find_bounds(pat, s, i + 1);
    }
}

pub(crate) fn chars_match_at(pat: &Vec<char>, text: &Vec<char>, at: usize) -> (r: bool)
    requires
        at + pat@.len() <= text@.len(),
    ensures
        r == (text@.subrange(at as int, at + pat@.len()) == pat@),
{
    let m = pat.len();
    let n = text.len();
    let mut j: usize = 0;
    while j < m
        invariant
            0 <= j <= m == pat@.len(),
            at + m <= n == text@.len(),
            forall|k: int| 0 <= k < j ==> text@[at + k] == pat@[k],
        decreases m - j,
    {
        if text[at + j] != pat[j] {
            proof {
                assert(text@.subrange(at as int, at + pat@.len())[j as int] != pat@[j as int]);
            }
            return false;
        }
        j = j + 1;
    }
    proof {
        assert(text@.subrange(at as int, at + pat@.len()) =~~= pat@);
    }
    true
}

/// Find the first occurrence of a pattern at or after `from`.
pub(crate) fn find_sub(pat: &Vec<char>, text: &Vec<char>, from: usize) -> (r: Option<usize>)
    requires
        from <= text@.len(),
        1 <= pat@.len(),
    ensures
        match r {
            Some(j) => spec_find(pat@, text@, from as int) == Some(j as int),
            None => spec_find(pat@, text@, from as int) is None,
        },
{
    let m = pat.len();
    let n = text.len();
    let mut i = from;
    while i < n
        invariant
            from <= i,
            i <= n == text@.len(),
            m == pat@.len() >= 1,
            spec_find(pat@, text@, from as int) == spec_find(pat@, text@, i as int),
        decreases n - i,
    {
        if m <= n - i {
            if chars_match_at(pat, text, i) {
                return Some(i);
            }
        } else {
            return None;
        }
        i = i + 1;
    }
    None
}

/// How a frontmatter file splits: the metadata text between the opening
/// `---` line and the closing `---` line, and the body after it. Nothing
/// when the text does not begin with `---` or the closing line never
/// comes.
pub open spec fn spec_split_frontmatter(s: Seq<char>) -> Option<(Seq<char>, Seq<char>)> {
    if s.len() < 4 || s.subrange(0, 4) != seq!['-', '-', '-', '\n'] {
        None
    } else {
        match spec_find(seq!['\n', '-', '-', '-', '\n'], s, 3) {
            Some(j) => Some(
                (
                    s.subrange(
                        4,
                        if j >= 4 {
                            j
                        } else {
                            4
                        },
                    ),
                    s.skip(j + 5),
                ),
            ),
            None => {
                if s.len() >= 7 && s.subrange(s.len() - 4, s.len() as int) == seq![
                    '\n',
                    '-',
                    '-',
                    '-',
                ] {
                    Some(
                        (
                            s.subrange(
                                4,
                                if s.len() - 4 >= 4 {
                                    s.len() - 4
                                } else {
                                    4
                                },
                            ),
                            Seq::empty(),
                        ),
                    )
                } else {
                    None
                }
            },
        }
    }
}

/// Split a frontmatter block off the head of a file: the text must begin
/// with a `---` line, and the metadata runs to the closing `---` line;
/// what follows is the body. Nothing comes back when either line is
/// missing.
pub fn split_frontmatter(text: &str) -> (r: Option<(String, String)>)
    ensures
        match r {
            Some(p) => spec_split_frontmatter(text@) == Some((p.0@, p.1@)),
            None => spec_split_frontmatter(text@) is None,
        },
{
    let cs = str_chars(text);
    let n = cs.len();
    let opening: Vec<char> = vec!['-', '-', '-', '\n'];
    proof {
        assert(opening@ =~~= seq!['-', '-', '-', '\n']);
    }
    if n < 4 || !chars_match_at(&opening, &cs, 0) {
        return None;
    }
    let closing: Vec<char> = vec!['\n', '-', '-', '-', '\n'];
    proof {
        assert(closing@ =~~= seq!['\n', '-', '-', '-', '\n']);
    }
    match find_sub(&closing, &cs, 3) {
        Some(j) => {
            proof {
                lemma_find_bounds(closing@, cs@, 3);
            }
            let matter_end = if j >= 4 {
                j
            } else {
                4
            };
            let matter = string_range(&cs, 4, matter_end);
            let body = string_range(&cs, j + 5, n);
            Some((matter, body))
        },
        None => {
            let tail: Vec<char> = vec!['\n', '-', '-', '-'];
            proof {
                assert(tail@ =~~= seq!['\n', '-', '-', '-']);
            }
            if n >= 7 && chars_match_at(&tail, &cs, n - 4) {
                let matter_end = if n - 4 >= 4 {
                    n - 4
                } else {
                    4
                };
                let matter = string_range(&cs, 4, matter_end);
                let body = String::new();
                Some((matter, body))
            } else {
                None
            }
        },
    }
}

/// Everything before the last slash: the directory a path sits in, or
/// nothing when the path has no slash.
pub open spec fn spec_parent_dir(s: Seq<char>) -> Seq<char> {
    match spec_rfind(s, '/') {
        Some(p) => s.take(p),
        None => Seq::empty(),
    }
}

/// The part after the last slash: the path's own filename.
pub open spec fn spec_filename(s: Seq<char>) -> Seq<char> {
    match spec_rfind(s, '/') {
        Some(p) => s.skip(p + 1),
        None => s,
    }
}

/// The directory part of a path: everything before the last slash.
pub fn parent_dir(path: &str) -> (r: String)
    ensures
        r@ == spec_parent_dir(path@),
{
    let cs = str_chars(path);
    let n = cs.len();
    let mut i = n;
    while i > 0
        invariant
            0 <= i <= n == cs@.len(),
            cs@ == path@,
            forall|k: int| i <= k < n ==> cs@[k] != '/',
        decreases i,
    {
        if cs[i - 1] == '/' {
            proof {
                lemma_rfind_from_suffix(path@, '/', i as int);
                assert(path@.take(i as int).last() == '/');
                assert(path@.take(i as int).drop_last() =~~= path@.take(i - 1));
                assert(spec_rfind(path@, '/') == Some(i - 1));
            }
            let r = string_range(&cs, 0, i - 1);
            return r;
        }
        i = i - 1;
    }
    proof {
        lemma_rfind_from_suffix(path@, '/', 0);
        assert(path@.take(0) =~~= Seq::<char>::empty());
        assert(spec_rfind(path@, '/') is None);
    }
    String::new()
}

/// The filename part of a path: everything after the last slash.
pub fn file_name(path: &str) -> (r: String)
    ensures
        r@ == spec_filename(path@),
{
    let cs = str_chars(path);
    let n = cs.len();
    let mut i = n;
    while i > 0
        invariant
            0 <= i <= n == cs@.len(),
            cs@ == path@,
            forall|k: int| i <= k < n ==> cs@[k] != '/',
        decreases i,
    {
        if cs[i - 1] == '/' {
            proof {
                lemma_rfind_from_suffix(path@, '/', i as int);
                assert(path@.take(i as int).last() == '/');
                assert(path@.take(i as int).drop_last() =~~= path@.take(i - 1));
                assert(spec_rfind(path@, '/') == Some(i - 1));
            }
            let r = string_range(&cs, i, n);
            proof {
                assert(r@ =~~= path@.skip(i as int));
            }
            return r;
        }
        i = i - 1;
    }
    proof {
        lemma_rfind_from_suffix(path@, '/', 0);
        assert(path@.take(0) =~~= Seq::<char>::empty());
        assert(spec_rfind(path@, '/') is None);
    }
    let r = string_range(&cs, 0, n);
    proof {
        assert(r@ =~~= path@);
    }
    r
}

/// Content: raw backing text with the type to interpret it as.
#[derive(Clone, Debug)]
pub struct Content {
    /// The file this content came from.
    pub path: String,
    /// Type to interpret the content as.
    pub content_type: ContentType,
    /// Raw text of the content.
    pub raw: String,
}

/// The mathematical value of a piece of content.
#[verifier::ext_equal]
pub struct ContentView {
    pub path: Seq<char>,
    pub content_type: ContentType,
    pub raw: Seq<char>,
}

impl View for Content {
    type V = ContentView;

    open spec fn view(&self) -> ContentView {
        ContentView { path: self.path@, content_type: self.content_type, raw: self.raw@ }
    }
}

/// Where a document's content is, relative to its metadata file.
#[derive(Clone, Debug)]
pub enum ContentSource {
    /// Content was embedded inside the document file.
    Embedded(Content),
    /// Content is stored separately, at the given path.
    FileRef(String),
}

/// The mathematical value of a content source.
#[verifier::ext_equal]
pub enum ContentSourceView {
    Embedded(ContentView),
    FileRef(Seq<char>),
}

impl View for ContentSource {
    type V = ContentSourceView;

    open spec fn view(&self) -> ContentSourceView {
        match self {
            ContentSource::Embedded(c) => ContentSourceView::Embedded(c@),
            ContentSource::FileRef(p) => ContentSourceView::FileRef(p@),
        }
    }
}

/// Metadata text waiting to be deserialized, with its format.
#[derive(Clone, Debug)]
pub enum MetaText {
    Yaml(String),
    Toml(String),
}

/// The mathematical value of metadata text.
#[verifier::ext_equal]
pub enum MetaTextView {
    Yaml(Seq<char>),
    Toml(Seq<char>),
}

impl View for MetaText {
    type V = MetaTextView;

    open spec fn view(&self) -> MetaTextView {
        match self {
            MetaText::Yaml(s) => MetaTextView::Yaml(s@),
            MetaText::Toml(s) => MetaTextView::Toml(s@),
        }
    }
}

/// A structurally parsed document file: its metadata text, still to be
/// deserialized into the collection's schema, and its content source.
#[derive(Clone, Debug)]
pub struct RawDocument {
    /// Path the document is at.
    pub path: String,
    /// The metadata text and its format.
    pub meta: MetaText,
    pub content: ContentSource,
}

/// The mathematical value of a structurally parsed document.
#[verifier::ext_equal]
pub struct RawDocumentView {
    pub path: Seq<char>,
    pub meta: MetaTextView,
    pub content: ContentSourceView,
}

impl View for RawDocument {
    type V = RawDocumentView;

    open spec fn view(&self) -> RawDocumentView {
        RawDocumentView { path: self.path@, meta: self.meta@, content: self.content@ }
    }
}

/// Errors of the document load phase.
#[derive(Clone, Debug)]
pub enum DocumentLoadError {
    /// A markdown file did not begin with a frontmatter block.
    MarkdownHasNoFrontmatter,
    /// A file whose extension names no document kind.
    UnrecognizedExtension(String),
    /// A filesystem failure, with its description.
    FsError(String),
    /// The metadata text did not deserialize as YAML.
    ParseYamlError(String),
    /// The metadata text did not deserialize as TOML.
    ParseTomlError(String),
}

/// The mathematical value of a document load error.
#[verifier::ext_equal]
pub enum LoadErrorView {
    MarkdownHasNoFrontmatter,
    UnrecognizedExtension(Seq<char>),
    FsError(Seq<char>),
    ParseYamlError(Seq<char>),
    ParseTomlError(Seq<char>),
}

impl View for DocumentLoadError {
    type V = LoadErrorView;

    open spec fn view(&self) -> LoadErrorView {
        match self {
            DocumentLoadError::MarkdownHasNoFrontmatter => LoadErrorView::MarkdownHasNoFrontmatter,
            DocumentLoadError::UnrecognizedExtension(s) => LoadErrorView::UnrecognizedExtension(
                s@,
            ),
            DocumentLoadError::FsError(s) => LoadErrorView::FsError(s@),
            DocumentLoadError::ParseYamlError(s) => LoadErrorView::ParseYamlError(s@),
            DocumentLoadError::ParseTomlError(s) => LoadErrorView::ParseTomlError(s@),
        }
    }
}

impl DocumentLoadError {
    /// True exactly for the error that marks a non-document file, which
    /// a directory walk skips silently.
    pub fn is_non_document(&self) -> (r: bool)
        ensures
            r == (self is UnrecognizedExtension),
    {
        match self {
            DocumentLoadError::UnrecognizedExtension(_) => true,
            _ => false,
        }
    }
}

/// Errors of the content load phase.
#[derive(Clone, Debug)]
pub enum ContentLoadError {
    /// A referenced content file whose extension is not in the
    /// allow-list, or is missing.
    UnknownExtension(String),
    /// A filesystem failure, with the offending path.
    FsError(String),
}

/// What structurally parsing one document file gives: the exact result
/// of `split_document`, case by case over the file's extension.
pub open spec fn spec_split_document(path: Seq<char>, text: Seq<char>) -> Result<
    RawDocumentView,
    LoadErrorView,
> {
    match spec_classify(spec_ext(path)) {
        DocumentKind::Markdown => match spec_split_frontmatter(text) {
            Some(p) => Ok(
                RawDocumentView {
                    path: path,
                    meta: MetaTextView::Yaml(p.0),
                    content: ContentSourceView::Embedded(
                        ContentView { path: path, content_type: ContentType::Markdown, raw: p.1 },
                    ),
                },
            ),
            None => Err(LoadErrorView::MarkdownHasNoFrontmatter),
        },
        DocumentKind::Yaml => Ok(
            RawDocumentView {
                path: path,
                meta: MetaTextView::Yaml(text),
                content: ContentSourceView::FileRef(spec_noext(path)),
            },
        ),
        DocumentKind::Toml => Ok(
            RawDocumentView {
                path: path,
                meta: MetaTextView::Toml(text),
                content: ContentSourceView::FileRef(spec_noext(path)),
            },
        ),
        DocumentKind::Other => Err(LoadErrorView::UnrecognizedExtension(spec_ext(path))),
    }
}

/// The view of a split result.
pub open spec fn split_result_view(r: Result<RawDocument, DocumentLoadError>) -> Result<
    RawDocumentView,
    LoadErrorView,
> {
    match r {
        Ok(d) => Ok(d@),
        Err(e) => Err(e@),
    }
}

/// Structurally parse one document file.
///
/// A markdown file must begin with a frontmatter block, which becomes
/// its YAML metadata text, the rest its embedded markdown content. A
/// YAML or TOML file is wholly metadata text, its content a reference to
/// the sibling file named by stripping the format extension. Any other
/// extension is no document.
pub fn split_document(path: &str, text: &str) -> (r: Result<RawDocument, DocumentLoadError>)
    ensures
        split_result_view(r) == spec_split_document(path@, text@),
{
    let (noext, ext) = split_extension(path);
    match classify_extension(ext.as_str()) {
        DocumentKind::Markdown => match split_frontmatter(text) {
            Some((matter, body)) => Ok(
                RawDocument {
                    path: path.to_owned(),
                    meta: MetaText::Yaml(matter),
                    content: ContentSource::Embedded(
                        Content {
                            path: path.to_owned(),
                            content_type: ContentType::Markdown,
                            raw: body,
                        },
                    ),
                },
            ),
            None => Err(DocumentLoadError::MarkdownHasNoFrontmatter),
        },
        DocumentKind::Yaml => Ok(
            RawDocument {
                path: path.to_owned(),
                meta: MetaText::Yaml(text.to_owned()),
                content: ContentSource::FileRef(noext),
            },
        ),
        DocumentKind::Toml => Ok(
            RawDocument {
                path: path.to_owned(),
                meta: MetaText::Toml(text.to_owned()),
                content: ContentSource::FileRef(noext),
            },
        ),
        DocumentKind::Other => Err(DocumentLoadError::UnrecognizedExtension(ext)),
    }
}

/// The mathematical value of a content load error.
#[verifier::ext_equal]
pub enum ContentErrorView {
    UnknownExtension(Seq<char>),
    FsError(Seq<char>),
}

impl View for ContentLoadError {
    type V = ContentErrorView;

    open spec fn view(&self) -> ContentErrorView {
        match self {
            ContentLoadError::UnknownExtension(s) => ContentErrorView::UnknownExtension(s@),
            ContentLoadError::FsError(s) => ContentErrorView::FsError(s@),
        }
    }
}

/// The first file recorded under a path, if any.
pub open spec fn spec_file_lookup(files: Seq<(Seq<char>, Seq<char>)>, path: Seq<char>) -> Option<
    Seq<char>,
>
    decreases files.len(),
{
    if files.len() == 0 {
        None
    } else if files[0].0 == path {
        Some(files[0].1)
    } else {
        spec_file_lookup(files.drop_first(), path)
    }
}

/// The views of an in-memory file listing.
pub open spec fn file_views(files: Seq<(String, String)>) -> Seq<(Seq<char>, Seq<char>)> {
    files.map_values(|p: (String, String)| (p.0@, p.1@))
}

fn lookup_file(files: &Vec<(String, String)>, path: &str) -> (r: Option<String>)
    ensures
        match r {
            Some(s) => spec_file_lookup(file_views(files@), path@) == Some(s@),
            None => spec_file_lookup(file_views(files@), path@) is None,
        },
{
    let ghost fv = file_views(files@);
    let mut i: usize = 0;
    proof {
        assert(fv.skip(0) =~~= fv);
    }
    while i < files.len()
        invariant
            0 <= i <= files@.len(),
            fv == file_views(files@),
            spec_file_lookup(fv, path@) == spec_file_lookup(fv.skip(i as int), path@),
        decreases files@.len() - i,
    {
        proof {
            assert(fv.skip(i as int)[0] == fv[i as int]);
        }
        if str_eq(files[i].0.as_str(), path) {
            return Some(files[i].1.clone());
        }
        proof {
            assert(fv.skip(i as int).drop_first() =~~= fv.skip(i + 1));
        }
        i = i + 1;
    }
    proof {
        assert(fv.skip(files@.len() as int) =~~= Seq::<(Seq<char>, Seq<char>)>::empty());
    }
    None
}

/// What loading a content source from a file listing gives: embedded
/// content comes back unchanged; a file reference is classified by its
/// own filename's extension, `html` or `txt`, and read from the listing.
/// A reference without an extension fails with an empty extension name;
/// a missing file is a filesystem error; any other extension fails with
/// that extension's name.
pub open spec fn spec_resolve(
    src: ContentSourceView,
    files: Seq<(Seq<char>, Seq<char>)>,
) -> Result<ContentView, ContentErrorView> {
    match src {
        ContentSourceView::Embedded(c) => Ok(c),
        ContentSourceView::FileRef(p) => {
            let ext = spec_ext(spec_filename(p));
            if ext.len() == 0 {
                Err(ContentErrorView::UnknownExtension(Seq::empty()))
            } else {
                match spec_file_lookup(files, p) {
                    None => Err(ContentErrorView::FsError(p)),
                    Some(raw) => if ext == seq!['h', 't', 'm', 'l'] {
                        Ok(ContentView { path: p, content_type: ContentType::Html, raw: raw })
                    } else if ext == seq!['t', 'x', 't'] {
                        Ok(ContentView { path: p, content_type: ContentType::Plaintext, raw: raw })
                    } else {
                        Err(ContentErrorView::UnknownExtension(ext))
                    },
                }
            }
        },
    }
}

/// The view of a resolution result.
pub open spec fn resolve_result_view(r: Result<Content, ContentLoadError>) -> Result<
    ContentView,
    ContentErrorView,
> {
    match r {
        Ok(c) => Ok(c@),
        Err(e) => Err(e@),
    }
}

fn clone_content(c: &Content) -> (r: Content)
    ensures
        r@ == c@,
{
    Content { path: c.path.clone(), content_type: c.content_type, raw: c.raw.clone() }
}

impl ContentSource {
    /// Load this source from an in-memory file listing, as
    /// `spec_resolve` describes.
    pub fn load(&self, files: &Vec<(String, String)>) -> (r: Result<Content, ContentLoadError>)
        ensures
            resolve_result_view(r) == spec_resolve(self@, file_views(files@)),
    {
        match self {
            ContentSource::Embedded(c) => Ok(clone_content(c)),
            ContentSource::FileRef(p) => {
                let fname = file_name(p.as_str());
                let (_, ext) = split_extension(fname.as_str());
                if ext.as_str().unicode_len() == 0 {
                    let none_ext = String::new();
                    proof {
                        assert(ext@ =~~= Seq::<char>::empty());
                        assert(none_ext@ =~~= Seq::<char>::empty());
                    }
                    return Err(ContentLoadError::UnknownExtension(none_ext));
                }
                match lookup_file(files, p.as_str()) {
                    None => Err(ContentLoadError::FsError(p.clone())),
                    Some(raw) => {
                        proof {
                            reveal_strlit("html");
                            reveal_strlit("txt");
                            assert("html"@ =~~= seq!['h', 't', 'm', 'l']);
                            assert("txt"@ =~~= seq!['t', 'x', 't']);
                        }
                        if str_eq(ext.as_str(), "html") {
                            Ok(
                                Content {
                                    path: p.clone(),
                                    content_type: ContentType::Html,
                                    raw,
                                },
                            )
                        } else if str_eq(ext.as_str(), "txt") {
                            Ok(
                                Content {
                                    path: p.clone(),
                                    content_type: ContentType::Plaintext,
                                    raw,
                                },
                            )
                        } else {
                            Err(ContentLoadError::UnknownExtension(ext))
                        }
                    },
                }
            },
        }
    }

    /// The path this source's content is at.
    pub fn path(&self) -> (r: String)
        ensures
            r@ == match self@ {
                ContentSourceView::Embedded(c) => c.path,
                ContentSourceView::FileRef(p) => p,
            },
    {
        match self {
            ContentSource::Embedded(c) => c.path.clone(),
            ContentSource::FileRef(p) => p.clone(),
        }
    }
}

/// A document that has metadata and a piece of content associated with
/// it. The metadata schema is supplied by the caller per collection.
#[derive(Clone, Debug)]
pub struct Document<M> {
    /// Path the document is at.
    pub path: String,
    /// Metadata associated with the document.
    pub meta: M,
    pub content: ContentSource,
}

impl<M> Document<M> {
    /// The root directory to consider assets from: the document's own
    /// directory.
    pub fn asset_root(&self) -> (r: String)
        ensures
            r@ == spec_parent_dir(self.path@),
    {
        parent_dir(self.path.as_str())
    }
}

/// Content that has been transformed into HTML.
pub struct TransformedContent {
    /// The raw HTML.
    pub html: String,
}

/// The terminal, immutable artifact of loading: the document, its
/// resolved content, and the content transformed to HTML.
pub struct FullyLoadedDocument<M> {
    pub document: Document<M>,
    pub content: Content,
    pub transformed: TransformedContent,
}

impl<M> FullyLoadedDocument<M> {
    /// The document's metadata.
    pub fn meta(&self) -> (r: &M)
        ensures
            r == &self.document.meta,
    {
        &self.document.meta
    }

    /// The transformed HTML.
    pub fn html(&self) -> (r: &str)
        ensures
            r@ == self.transformed.html@,
    {
        self.transformed.html.as_str()
    }
}

} // verus!
