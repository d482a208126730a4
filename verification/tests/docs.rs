use sitegen::docs::{
    split_document, split_extension, split_frontmatter, Content, ContentLoadError, ContentSource,
    ContentType, DocumentLoadError, MetaText, RawDocument,
};
use sitegen::errors::Errors;

#[test]
fn split_extension_basic() {
    assert_eq!(
        split_extension("spam.jpg"),
        ("spam".to_string(), "jpg".to_string())
    );
    assert_eq!(
        split_extension("/foo/bar/spam.jpg"),
        ("/foo/bar/spam".to_string(), "jpg".to_string())
    );
    assert_eq!(
        split_extension("no_extension"),
        ("no_extension".to_string(), "".to_string())
    );
    assert_eq!(
        split_extension("a.b.c"),
        ("a.b".to_string(), "c".to_string())
    );
}

#[test]
fn frontmatter_splits_matter_and_body() {
    let r = split_frontmatter("---\ntitle: x\n---\nbody here\n");
    let (matter, body) = r.expect("well-formed frontmatter");
    assert_eq!(matter, "title: x");
    assert_eq!(body, "body here\n");
}

#[test]
fn frontmatter_requires_opening_fence() {
    assert!(split_frontmatter("title: x\n---\nbody").is_none());
    assert!(split_frontmatter("").is_none());
    assert!(split_frontmatter("--\ntitle\n---\n").is_none());
}

#[test]
fn frontmatter_requires_closing_fence() {
    assert!(split_frontmatter("---\ntitle: x\nbody without close").is_none());
}

#[test]
fn frontmatter_closing_fence_at_end_of_input() {
    let (matter, body) = split_frontmatter("---\ntitle: x\n---").unwrap();
    assert_eq!(matter, "title: x");
    assert_eq!(body, "");
}

#[test]
fn markdown_file_becomes_embedded_document() {
    let doc = split_document("blog/post.md", "---\nfield: value\n---\nHello there\n").unwrap();
    assert_eq!(doc.path, "blog/post.md");
    match &doc.meta {
        MetaText::Yaml(m) => assert_eq!(m, "field: value"),
        _ => panic!("markdown frontmatter is yaml"),
    }
    match &doc.content {
        ContentSource::Embedded(c) => {
            assert_eq!(c.content_type, ContentType::Markdown);
            assert_eq!(c.raw, "Hello there\n");
            assert_eq!(c.path, "blog/post.md");
        }
        _ => panic!("markdown content is embedded"),
    }
}

#[test]
fn markdown_without_frontmatter_is_an_error() {
    match split_document("a.md", "no frontmatter at all") {
        Err(DocumentLoadError::MarkdownHasNoFrontmatter) => {}
        other => panic!("unexpected: {other:?}"),
    }
}

#[test]
fn yaml_file_references_its_sibling() {
    let doc = split_document("dir/post.html.yml", "field: v\n").unwrap();
    match &doc.meta {
        MetaText::Yaml(m) => assert_eq!(m, "field: v\n"),
        _ => panic!("yaml meta"),
    }
    match &doc.content {
        ContentSource::FileRef(p) => assert_eq!(p, "dir/post.html"),
        _ => panic!("yaml content is a file reference"),
    }
}

#[test]
fn toml_file_references_its_sibling() {
    let doc = split_document("x.txt.toml", "k = 1\n").unwrap();
    assert!(matches!(doc.meta, MetaText::Toml(_)));
    match &doc.content {
        ContentSource::FileRef(p) => assert_eq!(p, "x.txt"),
        _ => panic!("toml content is a file reference"),
    }
}

#[test]
fn other_extensions_are_not_documents() {
    match split_document("image.png", "binaryish") {
        Err(e @ DocumentLoadError::UnrecognizedExtension(_)) => {
            assert!(e.is_non_document());
            match e {
                DocumentLoadError::UnrecognizedExtension(ext) => assert_eq!(ext, "png"),
                _ => unreachable!(),
            }
        }
        other => panic!("unexpected: {other:?}"),
    }
}

#[test]
fn file_reference_loads_by_its_own_extension() {
    let files = vec![
        ("d/a.html".to_string(), "<p>hi</p>".to_string()),
        ("d/b.txt".to_string(), "plain".to_string()),
    ];
    let html = ContentSource::FileRef("d/a.html".to_string())
        .load(&files)
        .unwrap();
    assert_eq!(html.content_type, ContentType::Html);
    assert_eq!(html.raw, "<p>hi</p>");
    let txt = ContentSource::FileRef("d/b.txt".to_string())
        .load(&files)
        .unwrap();
    assert_eq!(txt.content_type, ContentType::Plaintext);
}

#[test]
fn missing_reference_is_a_filesystem_error() {
    let files: Vec<(String, String)> = vec![];
    match ContentSource::FileRef("d/a.html".to_string()).load(&files) {
        Err(ContentLoadError::FsError(p)) => assert_eq!(p, "d/a.html"),
        other => panic!("unexpected: {other:?}"),
    }
}

#[test]
fn unknown_reference_extension_is_an_error() {
    let files = vec![("d/a.jpg".to_string(), "x".to_string())];
    match ContentSource::FileRef("d/a.jpg".to_string()).load(&files) {
        Err(ContentLoadError::UnknownExtension(e)) => assert_eq!(e, "jpg"),
        other => panic!("unexpected: {other:?}"),
    }
}

#[test]
fn reference_without_extension_is_an_empty_extension_error() {
    let files = vec![("d/a".to_string(), "x".to_string())];
    match ContentSource::FileRef("d/a".to_string()).load(&files) {
        Err(ContentLoadError::UnknownExtension(e)) => assert_eq!(e, ""),
        other => panic!("unexpected: {other:?}"),
    }
}

#[test]
fn one_bad_pairing_leaves_the_good_post_standing() {
    // A content directory holding one valid markdown post and one YAML
    // metadata sheet whose paired content file is missing.
    let dir = vec![
        (
            "content/good.md".to_string(),
            "---\ntitle: good\n---\nThe body.\n".to_string(),
        ),
        ("content/widowed.html.yml".to_string(), "title: w\n".to_string()),
    ];
    let mut loaded: Vec<RawDocument> = Vec::new();
    let mut resolved: Vec<Content> = Vec::new();
    let mut errors: Errors<(String, String)> = Errors::new();
    for (path, text) in &dir {
        match split_document(path, text) {
            Ok(doc) => match doc.content.load(&dir) {
                Ok(c) => {
                    resolved.push(c);
                    loaded.push(doc);
                }
                Err(e) => errors.push((doc.content.path(), format!("{e:?}"))),
            },
            Err(e) if e.is_non_document() => {}
            Err(e) => errors.push((path.clone(), format!("{e:?}"))),
        }
    }
    assert_eq!(loaded.len(), 1);
    assert_eq!(loaded[0].path, "content/good.md");
    assert_eq!(resolved[0].raw, "The body.\n");
    let errs = errors.iter();
    assert_eq!(errs.len(), 1);
    assert!(
        errs[0].0.contains("widowed"),
        "the error references the widowed sheet's path: {:?}",
        errs[0]
    );
}

#[test]
fn errors_cast_converts_each_entry() {
    #[derive(Debug, PartialEq)]
    struct Wrapped(String);
    impl From<String> for Wrapped {
        fn from(s: String) -> Self {
            Wrapped(s)
        }
    }
    let mut errs: Errors<String> = Errors::new();
    errs.push("one".to_string());
    errs.push("two".to_string());
    let cast: Errors<Wrapped> = errs.cast();
    let v = cast.iter();
    assert_eq!(v.len(), 2);
    assert_eq!(v[0], Wrapped("one".to_string()));
    assert_eq!(v[1], Wrapped("two".to_string()));
}

#[test]
fn empty_errors_are_ok() {
    let errs: Errors<String> = Errors::new();
    assert!(errs.is_empty());
    assert!(errs.into_result().is_ok());
    let mut errs: Errors<String> = Errors::new();
    errs.push("boom".to_string());
    assert!(!errs.is_empty());
    assert!(errs.into_result().is_err());
}
