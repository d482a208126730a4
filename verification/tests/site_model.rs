use sitegen::model::{
    sort_by_date, Computer, ComputerDates, DateSort, DateStamp, NavbarItem, Post, PostDates,
    PostSlug, ProjectDates, Rank, Specs, Ram, Status, Taggable, TaggableExt,
};
use sitegen::nav::{DateSlug, NavbarItem as FixedNavbarItem, TagR};
use sitegen::site::{build_tag_index, count_swears, path_has_prefix};
use sitegen::tags::{TagSettings, TagStyling};

fn day(year: u32, month: u32, day_: u32, stamp: i64) -> DateStamp {
    DateStamp {
        year,
        month,
        day: day_,
        stamp,
    }
}

#[test]
fn test_path_has_prefix() {
    let cases = [
        ("/a/b/c/d", "/a", true),
        ("/a/b/c/d", "/a/b/c/d", true),
        ("/b/c/d", "/a/b/c/d", false),
        ("/a/b/c/d", "/", true),
        ("/abcd", "/ab", false),
    ];
    for (url, prefix, expected) in cases {
        assert_eq!(
            path_has_prefix(url, prefix),
            expected,
            "path_has_prefix({url:?}, {prefix:?})"
        );
    }
}

#[test]
fn navbar_item_matches_itself_and_children() {
    let item = NavbarItem {
        name: "Top".to_string(),
        href: "/top".to_string(),
        children: vec![NavbarItem {
            name: "Deep".to_string(),
            href: "/elsewhere/deep".to_string(),
            children: vec![],
        }],
    };
    assert!(item.has_item("/top/page"));
    assert!(item.has_item("/elsewhere/deep/x"));
    assert!(!item.has_item("/other"));
}

#[test]
fn swear_counts_per_word() {
    let counts = count_swears("damn, damn and crap; a crapload");
    let damn = counts.iter().find(|(w, _)| w == "damn").unwrap();
    assert_eq!(damn.1, 2);
    let crap = counts.iter().find(|(w, _)| w == "crap").unwrap();
    assert_eq!(crap.1, 2);
    let tits = counts.iter().find(|(w, _)| w == "tits").unwrap();
    assert_eq!(tits.1, 0);
    assert_eq!(counts.len(), 8);
}

#[test]
fn post_href_is_zero_padded() {
    let post = Post {
        title: "T".to_string(),
        tagline: None,
        slug: PostSlug {
            date: None,
            ordinal: 0,
            name: "my-post".to_string(),
        },
        date: PostDates {
            created: day(2021, 3, 5, 1_614_902_400),
            published: day(2021, 3, 5, 1_614_902_400),
            updated: None,
        },
        tags: vec!["rust".to_string()],
        client: None,
        reply_to: vec![],
        location: None,
        author: None,
        color: None,
    };
    assert_eq!(post.href(), "/2021/03/05/0/my-post");
    assert!(post.has_tag("rust"));
    assert!(!post.has_tag("go"));
    assert_eq!(post.tags()[0], "rust");
}

#[test]
fn explicit_slug_date_wins() {
    let post = Post {
        title: "T".to_string(),
        tagline: None,
        slug: PostSlug {
            date: Some(day(2019, 12, 1, 0)),
            ordinal: 2,
            name: "n".to_string(),
        },
        date: PostDates {
            created: day(2021, 3, 5, 0),
            published: day(2021, 3, 5, 0),
            updated: None,
        },
        tags: vec![],
        client: None,
        reply_to: vec![],
        location: None,
        author: None,
        color: None,
    };
    assert_eq!(post.href(), "/2019/12/01/2/n");
}

#[test]
fn project_sort_key_prefers_explicit_then_finished() {
    let d = ProjectDates {
        started: day(2020, 1, 1, 100),
        finished: Some(day(2020, 6, 1, 200)),
        sort_date: Some(day(2020, 3, 1, 150)),
        published: None,
    };
    assert_eq!(d.sort_key(), DateSort::Past(150));
    let d2 = ProjectDates {
        sort_date: None,
        ..d.clone()
    };
    assert_eq!(d2.sort_key(), DateSort::Past(200));
    let d3 = ProjectDates {
        sort_date: None,
        finished: None,
        ..d.clone()
    };
    assert_eq!(d3.sort_key(), DateSort::Now);
}

#[test]
fn dates_sort_with_now_last() {
    let keys = vec![
        (DateSort::Now, 0usize),
        (DateSort::Past(5), 1usize),
        (DateSort::Past(1), 2usize),
        (DateSort::Now, 3usize),
        (DateSort::Past(3), 4usize),
    ];
    let sorted = sort_by_date(keys);
    let order: Vec<usize> = sorted.iter().map(|p| p.1).collect();
    assert_eq!(&order[0..3], &[2, 4, 1]);
    assert!(order[3..].contains(&0) && order[3..].contains(&3));
}

#[test]
fn tag_index_collects_items_in_order() {
    let keys = vec!["rust".to_string(), "quiet".to_string()];
    let items = vec![
        vec!["rust".to_string(), "web".to_string()],
        vec!["web".to_string()],
        vec!["rust".to_string()],
    ];
    let index = build_tag_index(&keys, &items);
    let rust = index.iter().find(|(k, _)| k == "rust").unwrap();
    assert_eq!(rust.1, vec![0, 2]);
    let web = index.iter().find(|(k, _)| k == "web").unwrap();
    assert_eq!(web.1, vec![0, 1]);
    let quiet = index.iter().find(|(k, _)| k == "quiet").unwrap();
    assert!(quiet.1.is_empty());
    assert_eq!(index.len(), 3);
}

#[test]
fn computers_order_decommissioned_first() {
    let specs = Specs {
        kind: "laptop".to_string(),
        model: "m".to_string(),
        cpu: "c".to_string(),
        ram: Ram {
            size: "8G".to_string(),
            gen: "ddr4".to_string(),
            speed: None,
        },
        storage: vec![],
        gpu: None,
        motherboard: None,
    };
    let mk = |acq: i64, decom: Option<i64>| Computer {
        name: "x".to_string(),
        hostname: None,
        slug: "x".to_string(),
        date: ComputerDates {
            acquired: day(2020, 1, 1, acq),
            decomissioned: decom.map(|s| day(2021, 1, 1, s)),
        },
        status: Status::InUse,
        specs: specs.clone(),
        decom_reason: None,
    };
    assert_eq!(mk(1, Some(10)).display_ordering(&mk(2, Some(20))), Rank::Less);
    assert_eq!(mk(1, None).display_ordering(&mk(2, None)), Rank::Less);
    assert_eq!(mk(5, Some(10)).display_ordering(&mk(1, None)), Rank::Less);
    assert_eq!(mk(1, None).display_ordering(&mk(5, Some(10))), Rank::Greater);
    assert_eq!(mk(3, None).display_ordering(&mk(3, None)), Rank::Equal);
    assert_eq!(mk(1, None).href(), "/computers/x");
}

#[test]
fn fixed_navbar_entries() {
    assert_eq!(FixedNavbarItem::Blog.href(), "/blog");
    assert_eq!(FixedNavbarItem::Blog.text(), "Blog");
    assert_eq!(FixedNavbarItem::Projects.href(), "/projects");
    assert_eq!(FixedNavbarItem::About.text(), "About");
}

#[test]
fn tag_render_builder() {
    let settings = TagSettings {
        title: "t".to_string(),
        href: "/t/t".to_string(),
        styling: TagStyling::Class("k".to_string()),
    };
    let tag = TagR::new(settings);
    assert!(tag.link);
    let tag = tag.with_link(false);
    assert!(!tag.link);
    assert_eq!(tag.settings.title, "t");
}

#[test]
fn date_slug_holds_its_parts() {
    let s = DateSlug::new(2021, 5, 6, 1, Some("name".to_string()));
    assert_eq!(s.year, 2021);
    assert_eq!(s.month, 5);
    assert_eq!(s.day, 6);
    assert_eq!(s.ord, 1);
    assert_eq!(s.name.as_deref(), Some("name"));
}
