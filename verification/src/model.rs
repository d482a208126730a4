use vstd::prelude::*;

use vstd::multiset::Multiset;
use vstd::string::StringExecFns;

use crate::site::{path_has_prefix, spec_path_has_prefix, spec_split};
use crate::util::{spec_decimal, spec_decimal_pad2, str_eq, u32_to_string, u32_to_string_pad2};

verus! {

/// A calendar date, possibly with a time of day: the calendar fields for
/// display, and the moment as a timestamp for ordering. The caller
/// supplies both consistently.
#[derive(Clone, Copy, Debug, PartialEq, Eq, Structural)]
pub struct DateStamp {
    pub year: u32,
    pub month: u32,
    pub day: u32,
    /// Seconds since the epoch, for ordering.
    pub stamp: i64,
}

/// A sort key over time: a concrete past moment, or the present, which
/// comes after every past moment.
#[derive(Clone, Copy, Debug, PartialEq, Eq, Structural)]
pub enum DateSort {
    Now,
    Past(i64),
}

/// The order on time sort keys: past moments by their timestamps, and
/// the present after every past moment.
pub open spec fn spec_date_le(a: DateSort, b: DateSort) -> bool {
    match (a, b) {
        (DateSort::Now, DateSort::Now) => true,
        (DateSort::Now, DateSort::Past(_)) => false,
        (DateSort::Past(_), DateSort::Now) => true,
        (DateSort::Past(x), DateSort::Past(y)) => x <= y,
    }
}

impl DateSort {
    /// True when this key sorts no later than the other.
    pub fn le(&self, other: &DateSort) -> (r: bool)
        ensures
            r == spec_date_le(*self, *other),
    {
        match (self, other) {
            (DateSort::Now, DateSort::Now) => true,
            (DateSort::Now, DateSort::Past(_)) => false,
            (DateSort::Past(_), DateSort::Now) => true,
            (DateSort::Past(x), DateSort::Past(y)) => *x <= *y,
        }
    }
}

/// Author information.
#[derive(Clone, Debug)]
pub struct Author {
    /// Name of the author.
    pub name: String,
    /// Short biography of the author.
    pub biography: String,
}

/// A URL-friendly identifier for a post, with its optional explicit
/// date and an ordinal for several posts on one day.
#[derive(Clone, Debug)]
pub struct PostSlug {
    pub date: Option<DateStamp>,
    pub ordinal: u8,
    pub name: String,
}

/// Dates important to a post.
#[derive(Clone, Debug)]
pub struct PostDates {
    /// When the document was completed.
    pub created: DateStamp,
    /// When the document was published.
    pub published: DateStamp,
    /// When the document was last updated.
    pub updated: Option<DateStamp>,
}

/// Metadata of a blog post.
#[derive(Clone, Debug)]
pub struct Post {
    /// Title of the post.
    pub title: String,
    /// Tagline of the post.
    pub tagline: Option<String>,
    /// A URL-friendly string identifying this post.
    pub slug: PostSlug,
    /// Dates important to the post.
    pub date: PostDates,
    /// Tags associated with the post.
    pub tags: Vec<String>,
    /// What client was used to write this post.
    pub client: Option<String>,
    /// What this post is in reply to, if anything at all.
    pub reply_to: Vec<String>,
    /// Where this post is associated with.
    pub location: Option<String>,
    /// Author information.
    pub author: Option<Author>,
    /// Accent color, or nothing to pick one from the slug.
    pub color: Option<String>,
}

/// The path a post is served at: its slug day, ordinal and name.
pub open spec fn spec_post_href(d: DateStamp, ordinal: int, name: Seq<char>) -> Seq<char> {
    seq!['/'] + spec_decimal(d.year as int) + seq!['/'] + spec_decimal_pad2(d.month as int) + seq![
        '/',
    ] + spec_decimal_pad2(d.day as int) + seq!['/'] + spec_decimal(ordinal) + seq!['/'] + name
}

impl Post {
    /// Where this post is served: its slug date, or its publication
    /// day, then the ordinal and the slug name.
    pub fn href(&self) -> (r: String)
        ensures
            r@ == spec_post_href(
                match self.slug.date {
                    Some(d) => d,
                    None => self.date.published,
                },
                self.slug.ordinal as int,
                self.slug.name@,
            ),
    {
        let slugday = match &self.slug.date {
            Some(d) => *d,
            None => self.date.published,
        };
        let mut s = String::new();
        s.append("/");
        s.append(u32_to_string(slugday.year).as_str());
        s.append("/");
        s.append(u32_to_string_pad2(slugday.month).as_str());
        s.append("/");
        s.append(u32_to_string_pad2(slugday.day).as_str());
        s.append("/");
        s.append(u32_to_string(self.slug.ordinal as u32).as_str());
        s.append("/");
        s.append(self.slug.name.as_str());
        proof {
            reveal_strlit("/");
            assert(s@ =~~= spec_post_href(
                match self.slug.date {
                    Some(d) => d,
                    None => self.date.published,
                },
                self.slug.ordinal as int,
                self.slug.name@,
            ));
        }
        s
    }
}

/// URLs associated with a project.
#[derive(Clone, Debug)]
pub struct ProjectUrls {
    pub site: Vec<String>,
    pub source: Vec<String>,
}

/// Dates associated with a project.
#[derive(Clone, Debug)]
pub struct ProjectDates {
    /// When the project was started.
    pub started: DateStamp,
    /// When the project was finished, if it is.
    pub finished: Option<DateStamp>,
    /// What date to sort this project by, when given.
    pub sort_date: Option<DateStamp>,
    /// When this project page was published.
    pub published: Option<DateStamp>,
}

impl ProjectDates {
    /// The key this project sorts by: its explicit sort date, else its
    /// finishing date, else the present.
    pub fn sort_key(&self) -> (r: DateSort)
        ensures
            r == match self.sort_date {
                Some(sd) => DateSort::Past(sd.stamp),
                None => match self.finished {
                    Some(f) => DateSort::Past(f.stamp),
                    None => DateSort::Now,
                },
            },
    {
        if let Some(sd) = &self.sort_date {
            return DateSort::Past(sd.stamp);
        }
        if let Some(f) = &self.finished {
            return DateSort::Past(f.stamp);
        }
        DateSort::Now
    }
}

/// Metadata of a project page.
#[derive(Clone, Debug)]
pub struct Project {
    /// Title of the project.
    pub title: String,
    /// Tagline of the project.
    pub tagline: Option<String>,
    /// A short, URL-friendly string identifying this project.
    pub slug: String,
    /// Tags associated with the project.
    pub tags: Vec<String>,
    /// Dates associated with the project.
    pub date: ProjectDates,
    /// URLs associated with the project.
    pub url: ProjectUrls,
    /// Accent color, or nothing to pick one from the slug.
    pub color: Option<String>,
}

impl Project {
    /// Where this project is served.
    pub fn href(&self) -> (r: String)
        ensures
            r@ == "/projects/"@ + self.slug@,
    {
        let mut s = String::new();
        s.append("/projects/");
        s.append(self.slug.as_str());
        s
    }
}

/// Metadata of a generic page.
#[derive(Clone, Debug)]
pub struct ArbitraryPage {
    /// Title of the page.
    pub title: String,
    /// Tags associated with the page.
    pub tags: Vec<String>,
    /// The URL path this page should have.
    pub slug: Vec<String>,
    /// Navbar path to highlight when this page is visited, if any.
    pub navbar_path: Option<Vec<String>>,
    /// Accent color, or nothing to pick one from the slug.
    pub color: Option<String>,
}

/// Something that carries tag slugs.
pub trait Taggable {
    /// The tags, as the specification sees them.
    spec fn spec_tags(&self) -> Seq<Seq<char>>;

    /// The tags associated with this item.
    fn tags(&self) -> (r: &Vec<String>)
        ensures
            r@.map_values(|s: String| s@) == self.spec_tags(),
    ;
}

impl Taggable for Post {
    open spec fn spec_tags(&self) -> Seq<Seq<char>> {
        self.tags@.map_values(|s: String| s@)
    }

    fn tags(&self) -> (r: &Vec<String>) {
        &self.tags
    }
}

impl Taggable for Project {
    open spec fn spec_tags(&self) -> Seq<Seq<char>> {
        self.tags@.map_values(|s: String| s@)
    }

    fn tags(&self) -> (r: &Vec<String>) {
        &self.tags
    }
}

impl Taggable for ArbitraryPage {
    open spec fn spec_tags(&self) -> Seq<Seq<char>> {
        self.tags@.map_values(|s: String| s@)
    }

    fn tags(&self) -> (r: &Vec<String>) {
        &self.tags
    }
}

/// What having a tag means, for anything that carries tags.
pub trait TaggableExt {
    /// The tags, as the specification sees them.
    spec fn spec_all_tags(&self) -> Seq<Seq<char>>;

    /// True exactly when one of the item's tags is the given slug.
    fn has_tag(&self, tag: &str) -> (r: bool)
        ensures
            r == self.spec_all_tags().contains(tag@),
    ;
}

impl<T: Taggable> TaggableExt for T {
    open spec fn spec_all_tags(&self) -> Seq<Seq<char>> {
        self.spec_tags()
    }

    fn has_tag(&self, tag: &str) -> (r: bool) {
        let ts = self.tags();
        let mut i: usize = 0;
        while i < ts.len()
            invariant
                0 <= i <= ts@.len(),
                ts@.map_values(|s: String| s@) == self.spec_tags(),
                forall|k: int| 0 <= k < i ==> self.spec_tags()[k] != tag@,
            decreases ts@.len() - i,
        {
            if str_eq(ts[i].as_str(), tag) {
                proof {
                    assert(self.spec_tags()[i as int] == tag@);
                }
                return true;
            }
            i = i + 1;
        }
        proof {
            if self.spec_tags().contains(tag@) {
                let k = choose|k: int|
                    0 <= k < self.spec_tags().len() && self.spec_tags()[k] == tag@;
                assert(false);
            }
        }
        false
    }
}

/// An 88 by 31 pixel web button.
#[derive(Clone, Debug)]
pub struct Button88x31 {
    pub img: String,
    pub title: Option<String>,
    pub alt: Option<String>,
    pub href: Option<String>,
    pub onclick: Option<String>,
}

/// A webring membership: neighbors and the ring's own markup.
#[derive(Clone, Debug)]
pub struct Webring {
    pub prev: String,
    pub next: String,
    pub html: String,
    pub pending: bool,
}

/// One site navigation entry, possibly with nested children.
#[derive(Debug)]
pub struct NavbarItem {
    pub name: String,
    pub href: String,
    pub children: Vec<NavbarItem>,
}

/// True when the navigation entry, or one of its descendants, covers the
/// given location: its own link is a URL parent of the location.
pub open spec fn spec_has_item(item: NavbarItem, href: Seq<char>) -> bool
    decreases item,
{
    spec_path_has_prefix(spec_split(href, '/'), spec_split(item.href@, '/')) || exists|i: int|
        0 <= i < item.children@.len() && spec_has_item(#[trigger] item.children@[i], href)
}

impl NavbarItem {
    /// True when this entry or one of its descendants covers the given
    /// location.
    pub fn has_item(&self, href: &str) -> (r: bool)
        ensures
            r == spec_has_item(*self, href@),
        decreases *self,
    {
        if path_has_prefix(href, self.href.as_str()) {
            return true;
        }
        let mut i: usize = 0;
        while i < self.children.len()
            invariant
                0 <= i <= self.children@.len(),
                forall|k: int| 0 <= k < i ==> !spec_has_item(#[trigger] self.children@[k], href@),
                !spec_path_has_prefix(spec_split(href@, '/'), spec_split(self.href@, '/')),
            decreases self.children@.len() - i,
        {
            if self.children[i].has_item(href) {
                return true;
            }
            i = i + 1;
        }
        false
    }
}

/// One dated news item.
#[derive(Clone, Debug)]
pub struct NewsItem {
    pub title: Option<String>,
    pub time: DateStamp,
    pub content: String,
}

/// The lifecycle state of a computer.
#[derive(Clone, Copy, Debug, PartialEq, Eq, Structural)]
pub enum Status {
    InUse,
    Decomissioning,
    Decomissioned,
}

/// A machine's main memory.
#[derive(Clone, Debug)]
pub struct Ram {
    pub size: String,
    pub gen: String,
    pub speed: Option<String>,
}

/// One storage device of a machine.
#[derive(Clone, Debug)]
pub struct Storage {
    pub kind: String,
    pub size: String,
}

/// A machine's hardware.
#[derive(Clone, Debug)]
pub struct Specs {
    pub kind: String,
    pub model: String,
    pub cpu: String,
    pub ram: Ram,
    pub storage: Vec<Storage>,
    pub gpu: Option<String>,
    pub motherboard: Option<String>,
}

/// When a computer was acquired and, possibly, decommissioned.
#[derive(Clone, Copy, Debug, PartialEq, Eq, Structural)]
pub struct ComputerDates {
    pub acquired: DateStamp,
    pub decomissioned: Option<DateStamp>,
}

/// A computer of the fleet.
#[derive(Clone, Debug)]
pub struct Computer {
    pub name: String,
    pub hostname: Option<String>,
    pub slug: String,
    pub date: ComputerDates,
    pub status: Status,
    pub specs: Specs,
    pub decom_reason: Option<String>,
}

/// A three-way comparison outcome.
#[derive(Clone, Copy, Debug, PartialEq, Eq, Structural)]
pub enum Rank {
    Less,
    Equal,
    Greater,
}

/// The order of two timestamps.
pub open spec fn spec_rank_of(a: int, b: int) -> Rank {
    if a < b {
        Rank::Less
    } else if a == b {
        Rank::Equal
    } else {
        Rank::Greater
    }
}

impl Computer {
    /// Where this computer's page is served.
    pub fn href(&self) -> (r: String)
        ensures
            r@ == "/computers/"@ + self.slug@,
    {
        let mut s = String::new();
        s.append("/computers/");
        s.append(self.slug.as_str());
        s
    }

    /// How two computers order for display: decommissioned machines by
    /// their decommission date, before all still-acquired machines,
    /// which order by their acquisition date.
    pub fn display_ordering(&self, other: &Self) -> (r: Rank)
        ensures
            r == match (self.date.decomissioned, other.date.decomissioned) {
                (Some(a), Some(b)) => spec_rank_of(a.stamp as int, b.stamp as int),
                (None, None) => spec_rank_of(
                    self.date.acquired.stamp as int,
                    other.date.acquired.stamp as int,
                ),
                (Some(_), None) => Rank::Less,
                (None, Some(_)) => Rank::Greater,
            },
    {
        match (&self.date.decomissioned, &other.date.decomissioned) {
            (Some(a), Some(b)) => rank_i64(a.stamp, b.stamp),
            (None, None) => rank_i64(self.date.acquired.stamp, other.date.acquired.stamp),
            (Some(_), None) => Rank::Less,
            (None, Some(_)) => Rank::Greater,
        }
    }
}

fn rank_i64(a: i64, b: i64) -> (r: Rank)
    ensures
        r == spec_rank_of(a as int, b as int),
{
    if a < b {
        Rank::Less
    } else if a == b {
        Rank::Equal
    } else {
        Rank::Greater
    }
}

/// The time order is total.
pub proof fn lemma_date_le_total(a: DateSort, b: DateSort)
    ensures
        spec_date_le(a, b) || spec_date_le(b, a),
{
}

/// The time order is transitive.
pub proof fn lemma_date_le_trans(a: DateSort, b: DateSort, c: DateSort)
    ensures
        spec_date_le(a, b) && spec_date_le(b, c) ==> spec_date_le(a, c),
{
}

/// True when the keyed entries come in time order.
pub open spec fn spec_sorted_by_date(s: Seq<(DateSort, usize)>) -> bool {
    forall|i: int, j: int| 0 <= i < j < s.len() ==> spec_date_le(s[i].0, s[j].0)
}

/// Sort keyed entries into time order: the result holds exactly the
/// given entries, in a deterministic order that never depends on how
/// the entries were produced.
pub fn sort_by_date(v: Vec<(DateSort, usize)>) -> (r: Vec<(DateSort, usize)>)
    ensures
        spec_sorted_by_date(r@),
        r@.to_multiset() == v@.to_multiset(),
        r@.len() == v@.len(),
{
    broadcast use vstd::seq_lib::group_seq_properties;

    let mut src = v;
    let mut r: Vec<(DateSort, usize)> = Vec::new();
    proof {
        src@.to_multiset_ensures();
        r@.to_multiset_ensures();
        assert(r@.to_multiset().add(src@.to_multiset()) =~~= v@.to_multiset());
    }
    while src.len() > 0
        invariant
            spec_sorted_by_date(r@),
            forall|i: int, j: int|
                0 <= i < r@.len() && 0 <= j < src@.len() ==> spec_date_le(r@[i].0, src@[j].0),
            r@.to_multiset().add(src@.to_multiset()) == v@.to_multiset(),
            r@.len() + src@.len() == v@.len(),
        decreases src@.len(),
    {
        // Find the least remaining key.
        let mut m: usize = 0;
        let mut i: usize = 1;
        while i < src.len()
            invariant
                0 <= m < src@.len(),
                m < i <= src@.len() || (i <= src@.len() && m == 0),
                forall|k: int| 0 <= k < i ==> spec_date_le(src@[m as int].0, src@[k].0),
            decreases src@.len() - i,
        {
            if !src[m].0.le(&src[i].0) {
                proof {
                    lemma_date_le_total(src@[m as int].0, src@[i as int].0);
                    assert forall|k: int| 0 <= k < i + 1 implies spec_date_le(
                        src@[i as int].0,
                        src@[k].0,
                    ) by {
                        lemma_date_le_trans(src@[i as int].0, src@[m as int].0, src@[k].0);
                    }
                }
                m = i;
            }
            i = i + 1;
        }
        let ghost pre_src = src@;
        let ghost pre_r = r@;
        let x = src.remove(m);
        r.push(x);
        proof {
            pre_src.to_multiset_ensures();
            pre_r.to_multiset_ensures();
            assert(src@.to_multiset() =~~= pre_src.to_multiset().remove(x));
            assert(r@.to_multiset() =~~= pre_r.to_multiset().insert(x));
            assert(pre_src.to_multiset().count(x) > 0) by {
                assert(pre_src[m as int] == x);
                assert(pre_src.contains(x));
            }
            assert(r@.to_multiset().add(src@.to_multiset()) =~~= v@.to_multiset());
            assert(src@ =~~= pre_src.take(m as int) + pre_src.skip(m + 1));
            assert forall|j: int| 0 <= j < src@.len() implies spec_date_le(x.0, src@[j].0) by {
                if j < m {
                    assert(src@[j] == pre_src[j]);
                } else {
                    assert(src@[j] == pre_src[j + 1]);
                }
            }
            assert forall|i2: int, j2: int|
                0 <= i2 < r@.len() && 0 <= j2 < src@.len() implies spec_date_le(
                r@[i2].0,
                src@[j2].0,
            ) by {
                if i2 < r@.len() - 1 {
                    assert(r@[i2] == pre_r[i2]);
                    lemma_date_le_trans(r@[i2].0, x.0, src@[j2].0);
                    if j2 < m {
                        assert(pre_src[j2] == src@[j2]);
                    } else {
                        assert(pre_src[j2 + 1] == src@[j2]);
                    }
                }
            }
            assert forall|i2: int, j2: int|
                0 <= i2 < j2 < r@.len() implies spec_date_le(r@[i2].0, r@[j2].0) by {
                if j2 < r@.len() - 1 {
                    assert(r@[i2] == pre_r[i2] && r@[j2] == pre_r[j2]);
                } else {
                    assert(r@[i2] == pre_r[i2]);
                    assert(pre_src.contains(x));
                }
            }
        }
    }
    proof {
        assert(src@.to_multiset() =~~= Multiset::<(DateSort, usize)>::empty());
        assert(r@.to_multiset().add(Multiset::<(DateSort, usize)>::empty()) =~~= r@.to_multiset());
    }
    r
}

} // verus!
