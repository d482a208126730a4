use sitegen::tags::{TagSettingsSheet, TagStyleDirective, TagStyleDirectiveBody, TagStyling};

fn body(
    text_color: Option<&str>,
    color: Option<&str>,
    class: Option<&str>,
) -> TagStyleDirectiveBody {
    TagStyleDirectiveBody {
        text_color: text_color.map(|s| s.to_string()),
        color: color.map(|s| s.to_string()),
        class: class.map(|s| s.to_string()),
    }
}

#[test]
fn later_layer_wins_per_field() {
    let a = body(None, Some("#111"), None);
    let b = body(Some("#fff"), None, None);
    let c = a.combine(&b);
    assert_eq!(c.color.as_deref(), Some("#111"));
    assert_eq!(c.text_color.as_deref(), Some("#fff"));
    assert!(c.class.is_none());
}

#[test]
fn combine_is_associative_on_values() {
    let a = body(Some("a"), None, Some("x"));
    let b = body(None, Some("b"), None);
    let c = body(Some("c"), Some("d"), None);
    let left = a.combine(&b).combine(&c);
    let right = a.combine(&b.combine(&c));
    assert_eq!(left.text_color, right.text_color);
    assert_eq!(left.color, right.color);
    assert_eq!(left.class, right.class);
}

#[test]
fn empty_layer_is_identity() {
    let a = body(Some("t"), None, Some("k"));
    let e = TagStyleDirectiveBody::default();
    let l = e.combine(&a);
    let r = a.combine(&e);
    assert_eq!(l.text_color.as_deref(), Some("t"));
    assert_eq!(r.text_color.as_deref(), Some("t"));
    assert_eq!(l.class.as_deref(), Some("k"));
    assert_eq!(r.class.as_deref(), Some("k"));
    assert!(l.color.is_none() && r.color.is_none());
}

#[test]
fn directives_for_one_tag_merge_their_fields() {
    let sheet = TagSettingsSheet {
        titles: vec![],
        styles: vec![
            TagStyleDirective {
                tags: vec!["x".to_string()],
                apply: body(None, Some("#111"), None),
            },
            TagStyleDirective {
                tags: vec!["x".to_string()],
                apply: body(Some("#fff"), None, None),
            },
        ],
    };
    let out = sheet.try_materialize(vec![]).expect("colors must parse");
    assert_eq!(out.len(), 1);
    assert_eq!(out[0].0, "x");
    match &out[0].1.styling {
        TagStyling::Colors { text, bg } => {
            assert_eq!(text, "#fff");
            assert_eq!(bg, "#111");
        }
        TagStyling::Class(_) => panic!("class should be unset"),
    }
}

#[test]
fn class_wins_over_colors() {
    let b = body(Some("#fff"), Some("#111"), Some("tagclass"));
    let s = b.materialize(None, "slug");
    match s.styling {
        TagStyling::Class(c) => assert_eq!(c, "tagclass"),
        _ => panic!("expected a class styling"),
    }
    assert_eq!(s.href, "/t/slug");
    assert_eq!(s.title, "slug");
}

#[test]
fn light_background_gets_black_text() {
    let b = body(None, Some("#ffffff"), None);
    let s = b.materialize(Some("White".to_string()), "w");
    match s.styling {
        TagStyling::Colors { text, bg } => {
            assert_eq!(text, "black");
            assert_eq!(bg, "#ffffff");
        }
        _ => panic!("expected colors"),
    }
    assert_eq!(s.title, "White");
}

#[test]
fn dark_background_gets_white_text() {
    let b = body(None, Some("#000000"), None);
    let s = b.materialize(None, "b");
    match s.styling {
        TagStyling::Colors { text, .. } => assert_eq!(text, "white"),
        _ => panic!("expected colors"),
    }
}

#[test]
fn missing_color_gets_generated_background() {
    let b = body(None, None, None);
    let s = b.materialize(None, "some-tag");
    match s.styling {
        TagStyling::Colors { text, bg } => {
            assert!(bg.starts_with("rgb("), "generated background: {bg}");
            assert!(bg.ends_with(')'));
            assert!(text == "black" || text == "white");
        }
        _ => panic!("expected colors"),
    }
}

#[test]
fn unreadable_color_is_reported() {
    let b = body(None, Some("not a color"), None);
    assert!(b.try_materialize(None, "t").is_none());
    let sheet = TagSettingsSheet {
        titles: vec![],
        styles: vec![TagStyleDirective {
            tags: vec!["t".to_string()],
            apply: body(None, Some("not a color"), None),
        }],
    };
    assert!(sheet.try_materialize(vec![]).is_none());
}

#[test]
fn observed_tags_get_default_settings() {
    let sheet = TagSettingsSheet {
        titles: vec![("seen".to_string(), "Seen".to_string())],
        styles: vec![],
    };
    let out = sheet.try_materialize(vec!["seen", "other"]).unwrap();
    assert_eq!(out.len(), 2);
    let seen = out.iter().find(|(k, _)| k == "seen").unwrap();
    assert_eq!(seen.1.title, "Seen");
    let other = out.iter().find(|(k, _)| k == "other").unwrap();
    assert_eq!(other.1.title, "other");
    assert_eq!(other.1.href, "/t/other");
}

#[test]
fn later_sheet_wins_titles_and_appends_directives() {
    let early = TagSettingsSheet {
        titles: vec![("x".to_string(), "Early".to_string())],
        styles: vec![TagStyleDirective {
            tags: vec!["x".to_string()],
            apply: body(None, Some("#222222"), None),
        }],
    };
    let late = TagSettingsSheet {
        titles: vec![("x".to_string(), "Late".to_string())],
        styles: vec![TagStyleDirective {
            tags: vec!["x".to_string()],
            apply: body(Some("#eeeeee"), None, None),
        }],
    };
    let merged = early.combine(&late);
    let out = merged.try_materialize(vec![]).unwrap();
    assert_eq!(out.len(), 1);
    assert_eq!(out[0].1.title, "Late");
    match &out[0].1.styling {
        TagStyling::Colors { text, bg } => {
            assert_eq!(text, "#eeeeee");
            assert_eq!(bg, "#222222");
        }
        _ => panic!("expected colors"),
    }
}
