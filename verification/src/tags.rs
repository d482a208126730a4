use vstd::prelude::*;

use vstd::string::StringExecFns;
use vstd::utf8::encode_utf8;

use crate::color::{color_for, dark, spec_color_for, HueColorProfile};
use crate::util::{clone_opt_string, spec_decimal, u32_to_string};

verus! {

/// How a tag is presented: either explicit colors, or a stylesheet class.
#[derive(Debug, Clone)]
pub enum TagStyling {
    /// Style using colors.
    Colors { text: String, bg: String },
    /// Assign the tag a class in the stylesheet.
    Class(String),
}

/// The mathematical value of a styling choice.
#[verifier::ext_equal]
pub enum StylingView {
    Colors { text: Seq<char>, bg: Seq<char> },
    Class(Seq<char>),
}

impl View for TagStyling {
    type V = StylingView;

    open spec fn view(&self) -> StylingView {
        match self {
            TagStyling::Colors { text, bg } => StylingView::Colors { text: text@, bg: bg@ },
            TagStyling::Class(c) => StylingView::Class(c@),
        }
    }
}

/// Tag styles, fully materialized.
#[derive(Debug, Clone)]
pub struct TagSettings {
    /// Name of the tag.
    pub title: String,
    /// Where it links to.
    pub href: String,
    pub styling: TagStyling,
}

/// The mathematical value of materialized tag settings.
#[verifier::ext_equal]
pub struct TagSettingsView {
    pub title: Seq<char>,
    pub href: Seq<char>,
    pub styling: StylingView,
}

impl View for TagSettings {
    type V = TagSettingsView;

    open spec fn view(&self) -> TagSettingsView {
        TagSettingsView { title: self.title@, href: self.href@, styling: self.styling@ }
    }
}

/// One layer of partial tag styling: each field may be given or left for
/// an earlier layer to fill.
#[derive(Debug, Clone)]
pub struct TagStyleDirectiveBody {
    pub text_color: Option<String>,
    pub color: Option<String>,
    pub class: Option<String>,
}

/// The mathematical value of a partial styling layer.
#[verifier::ext_equal]
pub struct BodyView {
    pub text_color: Option<Seq<char>>,
    pub color: Option<Seq<char>>,
    pub class: Option<Seq<char>>,
}

/// The view of an optional string.
pub open spec fn opt_view(o: Option<String>) -> Option<Seq<char>> {
    match o {
        Some(s) => Some(s@),
        None => None,
    }
}

impl View for TagStyleDirectiveBody {
    type V = BodyView;

    open spec fn view(&self) -> BodyView {
        BodyView {
            text_color: opt_view(self.text_color),
            color: opt_view(self.color),
            class: opt_view(self.class),
        }
    }
}

/// The layer with every field absent: the identity of `spec_combine`.
pub open spec fn spec_empty_body() -> BodyView {
    BodyView { text_color: None, color: None, class: None }
}

/// Combine two partial styling layers, the second applied after the
/// first: each field independently prefers the later layer's value and
/// falls back to the earlier one's.
pub open spec fn spec_combine(a: BodyView, b: BodyView) -> BodyView {
    BodyView {
        text_color: if b.text_color is Some {
            b.text_color
        } else {
            a.text_color
        },
        color: if b.color is Some {
            b.color
        } else {
            a.color
        },
        class: if b.class is Some {
            b.class
        } else {
            a.class
        },
    }
}

impl Default for TagStyleDirectiveBody {
    /// The all-absent layer.
    fn default() -> (r: Self)
        ensures
            r@ == spec_empty_body(),
    {
        TagStyleDirectiveBody { text_color: None, color: None, class: None }
    }
}

impl TagStyleDirectiveBody {
    /// Combine with a later layer, whose fields win where present.
    pub fn combine(&self, other: &Self) -> (r: Self)
        ensures
            r@ == spec_combine(self@, other@),
    {
        TagStyleDirectiveBody {
            text_color: if other.text_color.is_some() {
                clone_opt_string(&other.text_color)
            } else {
                clone_opt_string(&self.text_color)
            },
            color: if other.color.is_some() {
                clone_opt_string(&other.color)
            } else {
                clone_opt_string(&self.color)
            },
            class: if other.class.is_some() {
                clone_opt_string(&other.class)
            } else {
                clone_opt_string(&self.class)
            },
        }
    }
}

/// What a CSS color string parses to, as red, green and blue bytes, or
/// nothing when the string is not a color. The parse is a fixed function
/// of the string alone.
pub uninterp spec fn css_color_of(s: Seq<char>) -> Option<(u8, u8, u8)>;

/// Relies on `csscolorparser::parse` and `csscolorparser::Color::to_rgba8`:
/// the color a CSS color string denotes, as bytes, depending on the
/// string alone.
#[verifier::external_body]
pub fn parse_css_color(s: &str) -> (r: Option<(u8, u8, u8)>)
    ensures
        r == css_color_of(s@),
{
    match csscolorparser::parse(s) {
        Ok(c) => {
            let a = c.to_rgba8();
            Some((a[0], a[1], a[2]))
        },
        Err(_) => None,
    }
}

/// True when a color reads as light: its HSL lightness, `(max + min) / 2`
/// of the components, exceeds seven tenths of the full range.
pub open spec fn spec_is_light(r: int, g: int, b: int) -> bool {
    spec_max3(r, g, b) + spec_min3(r, g, b) > 357
}

/// The largest of three.
pub open spec fn spec_max3(a: int, b: int, c: int) -> int {
    if a >= b && a >= c {
        a
    } else if b >= c {
        b
    } else {
        c
    }
}

/// The smallest of three.
pub open spec fn spec_min3(a: int, b: int, c: int) -> int {
    if a <= b && a <= c {
        a
    } else if b <= c {
        b
    } else {
        c
    }
}

fn is_light(c: (u8, u8, u8)) -> (r: bool)
    ensures
        r == spec_is_light(c.0 as int, c.1 as int, c.2 as int),
{
    let hi: u32 = if c.0 >= c.1 && c.0 >= c.2 {
        c.0 as u32
    } else if c.1 >= c.2 {
        c.1 as u32
    } else {
        c.2 as u32
    };
    let lo: u32 = if c.0 <= c.1 && c.0 <= c.2 {
        c.0 as u32
    } else if c.1 <= c.2 {
        c.1 as u32
    } else {
        c.2 as u32
    };
    hi + lo > 357
}

/// The CSS `rgb(r, g, b)` notation for a color.
pub open spec fn spec_rgb_css(r: int, g: int, b: int) -> Seq<char> {
    seq!['r', 'g', 'b', '('] + spec_decimal(r) + seq![',', ' '] + spec_decimal(g) + seq![',', ' ']
        + spec_decimal(b) + seq![')']
}

fn rgb_css(c: (u8, u8, u8)) -> (r: String)
    ensures
        r@ == spec_rgb_css(c.0 as int, c.1 as int, c.2 as int),
{
    let mut s = String::new();
    s.append("rgb(");
    s.append(u32_to_string(c.0 as u32).as_str());
    s.append(", ");
    s.append(u32_to_string(c.1 as u32).as_str());
    s.append(", ");
    s.append(u32_to_string(c.2 as u32).as_str());
    s.append(")");
    proof {
        reveal_strlit("rgb(");
        reveal_strlit(", ");
        reveal_strlit(")");
        assert(s@ =~~= spec_rgb_css(c.0 as int, c.1 as int, c.2 as int));
    }
    s
}

/// The components of a byte color, as integers.
pub open spec fn spec_ints_of(c: (u8, u8, u8)) -> (int, int, int) {
    (c.0 as int, c.1 as int, c.2 as int)
}

/// The background color a slug generates when no color is given: the
/// strong profile seeded by the slug text.
pub open spec fn spec_default_color(slug: Seq<char>) -> (int, int, int) {
    spec_color_for(
        encode_utf8(slug),
        HueColorProfile { saturation_permille: 700, lightness_permille: 500 },
    )
}

/// True when materializing this layer must parse its given color string:
/// no class, no given text color, but a given background color.
pub open spec fn spec_needs_parse(b: BodyView) -> bool {
    b.class is None && b.text_color is None && b.color is Some
}

/// The settings a styling layer materializes to for one tag.
///
/// The title falls back to the slug; the link is `/t/` plus the slug. A
/// given class wins outright. Otherwise the background is the given color
/// or, absent that, the slug's generated color in `rgb(r, g, b)`
/// notation; the text color is the given one or, absent that, black over
/// a light background and white over a dark one.
pub open spec fn spec_materialize(b: BodyView, title: Option<Seq<char>>, slug: Seq<char>) -> TagSettingsView {
    let the_title = if title is Some {
        title->0
    } else {
        slug
    };
    let href = seq!['/', 't', '/'] + slug;
    let gen = spec_default_color(slug);
    let styling = if b.class is Some {
        StylingView::Class(b.class->0)
    } else {
        let bg = if b.color is Some {
            b.color->0
        } else {
            spec_rgb_css(gen.0, gen.1, gen.2)
        };
        let comps = if b.color is Some {
            spec_ints_of(css_color_of(b.color->0)->Some_0)
        } else {
            gen
        };
        let text = if b.text_color is Some {
            b.text_color->0
        } else if spec_is_light(comps.0, comps.1, comps.2) {
            seq!['b', 'l', 'a', 'c', 'k']
        } else {
            seq!['w', 'h', 'i', 't', 'e']
        };
        StylingView::Colors { text, bg }
    };
    TagSettingsView { title: the_title, href, styling }
}

impl TagStyleDirectiveBody {
    /// Materialize this layer for one tag slug.
    ///
    /// When the layer gives a background color and no text color and no
    /// class, that color string must be a readable CSS color; this
    /// function asks its caller to rule the unreadable ones out, and
    /// `try_materialize` tests it instead.
    pub fn materialize(self, title: Option<String>, tag_slug: &str) -> (r: TagSettings)
        requires
            spec_needs_parse(self@) ==> css_color_of(self@.color->Some_0) is Some,
        ensures
            r@ == spec_materialize(self@, opt_view(title), tag_slug@),
    {
        let the_title = match title {
            Some(t) => t,
            None => tag_slug.to_owned(),
        };
        let mut href = String::new();
        href.append("/t/");
        href.append(tag_slug);
        proof {
            reveal_strlit("/t/");
            assert(href@ =~~= seq!['/', 't', '/'] + tag_slug@);
        }
        let styling = match self.class {
            Some(c) => TagStyling::Class(c),
            None => {
                let gen = color_for(tag_slug, &dark());
                match self.text_color {
                    Some(t) => {
                        let bg = match self.color {
                            Some(c) => c,
                            None => rgb_css(gen),
                        };
                        TagStyling::Colors { text: t, bg }
                    },
                    None => {
                        match self.color {
                            Some(c) => {
                                let comps = parse_css_color(c.as_str()).unwrap();
                                let text = if is_light(comps) {
                                    "black".to_owned()
                                } else {
                                    "white".to_owned()
                                };
                                proof {
                                    reveal_strlit("black");
                                    reveal_strlit("white");
                                    assert("black"@ =~~= seq!['b', 'l', 'a', 'c', 'k']);
                                    assert("white"@ =~~= seq!['w', 'h', 'i', 't', 'e']);
                                }
                                TagStyling::Colors { text, bg: c }
                            },
                            None => {
                                let text = if is_light(gen) {
                                    "black".to_owned()
                                } else {
                                    "white".to_owned()
                                };
                                proof {
                                    reveal_strlit("black");
                                    reveal_strlit("white");
                                    assert("black"@ =~~= seq!['b', 'l', 'a', 'c', 'k']);
                                    assert("white"@ =~~= seq!['w', 'h', 'i', 't', 'e']);
                                }
                                TagStyling::Colors { text, bg: rgb_css(gen) }
                            },
                        }
                    },
                }
            },
        };
        let r = TagSettings { title: the_title, href, styling };
        proof {
            assert(r@ =~~= spec_materialize(self@, opt_view(title), tag_slug@));
        }
        r
    }

    /// Materialize this layer for one tag slug, testing first that any
    /// given background color is a readable CSS color; nothing comes back
    /// when it is not.
    pub fn try_materialize(self, title: Option<String>, tag_slug: &str) -> (r: Option<TagSettings>)
        ensures
            r is None <==> (spec_needs_parse(self@) && css_color_of(self@.color->Some_0) is None),
            r matches Some(ts) ==> ts@ == spec_materialize(self@, opt_view(title), tag_slug@),
    {
        if self.class.is_none() && self.text_color.is_none() {
            match &self.color {
                Some(c) => {
                    if parse_css_color(c.as_str()).is_none() {
                        return None;
                    }
                },
                None => {},
            }
        }
        Some(self.materialize(title, tag_slug))
    }
}

/// The combine on styling layers is associative: folding layers
/// `[a, b, c]` two ways, later over earlier, gives the same layer,
/// so the same materialized settings.
pub proof fn lemma_combine_associative(a: BodyView, b: BodyView, c: BodyView)
    ensures
        spec_combine(spec_combine(a, b), c) == spec_combine(a, spec_combine(b, c)),
{
}

/// The all-absent layer is an identity on both sides: the combine is a
/// monoid.
pub proof fn lemma_combine_identity(a: BodyView)
    ensures
        spec_combine(spec_empty_body(), a) == a,
        spec_combine(a, spec_empty_body()) == a,
{
}

/// A styling directive: one partial layer applied to a set of tag slugs.
#[derive(Debug, Clone)]
pub struct TagStyleDirective {
    pub tags: Vec<String>,
    pub apply: TagStyleDirectiveBody,
}

/// The mathematical value of a styling directive.
#[verifier::ext_equal]
pub struct DirView {
    pub tags: Seq<Seq<char>>,
    pub apply: BodyView,
}

impl View for TagStyleDirective {
    type V = DirView;

    open spec fn view(&self) -> DirView {
        DirView { tags: self.tags@.map_values(|s: String| s@), apply: self.apply@ }
    }
}

/// The (tag, layer) applications one directive stands for, in order.
pub open spec fn spec_pairs_of(d: DirView) -> Seq<(Seq<char>, BodyView)> {
    d.tags.map_values(|t: Seq<char>| (t, d.apply))
}

/// All (tag, layer) applications of a directive list, in order.
pub open spec fn spec_flatten(ds: Seq<DirView>) -> Seq<(Seq<char>, BodyView)>
    decreases ds.len(),
{
    if ds.len() == 0 {
        Seq::empty()
    } else {
        spec_flatten(ds.drop_last()) + spec_pairs_of(ds.last())
    }
}

/// The layer a tag ends up with: every application naming it, folded in
/// order onto the empty layer.
pub open spec fn spec_applied(ps: Seq<(Seq<char>, BodyView)>, tag: Seq<char>) -> BodyView
    decreases ps.len(),
{
    if ps.len() == 0 {
        spec_empty_body()
    } else if ps.last().0 == tag {
        spec_combine(spec_applied(ps.drop_last(), tag), ps.last().1)
    } else {
        spec_applied(ps.drop_last(), tag)
    }
}

/// True when some application names the tag.
pub open spec fn spec_mentions(ps: Seq<(Seq<char>, BodyView)>, tag: Seq<char>) -> bool {
    exists|k: int| 0 <= k < ps.len() && ps[k].0 == tag
}

/// A tag no application names keeps the empty layer.
pub proof fn lemma_applied_unmentioned(ps: Seq<(Seq<char>, BodyView)>, tag: Seq<char>)
    requires
        !spec_mentions(ps, tag),
    ensures
        spec_applied(ps, tag) == spec_empty_body(),
    decreases ps.len(),
{
    if ps.len() > 0 {
        assert(ps.last() == ps[ps.len() - 1]);
        assert(forall|k: int| 0 <= k < ps.len() - 1 ==> ps.drop_last()[k] == ps[k]);
        lemma_applied_unmentioned(ps.drop_last(), tag);
    }
}

/// The first title recorded for a key, if any.
pub open spec fn spec_title_of(ts: Seq<(Seq<char>, Seq<char>)>, key: Seq<char>) -> Option<
    Seq<char>,
>
    decreases ts.len(),
{
    if ts.len() == 0 {
        None
    } else if ts[0].0 == key {
        Some(ts[0].1)
    } else {
        spec_title_of(ts.drop_first(), key)
    }
}

/// Looking a key up in two title lists, one after the other, prefers the
/// first list and falls back to the second.
pub proof fn lemma_title_of_concat(
    a: Seq<(Seq<char>, Seq<char>)>,
    b: Seq<(Seq<char>, Seq<char>)>,
    key: Seq<char>,
)
    ensures
        spec_title_of(a + b, key) == if spec_title_of(a, key) is Some {
            spec_title_of(a, key)
        } else {
            spec_title_of(b, key)
        },
    decreases a.len(),
{
    if a.len() == 0 {
        assert(a + b =~~= b);
    } else {
        assert((a + b)[0] == a[0]);
        if a[0].0 != key {
            assert((a + b).drop_first() =~~= a.drop_first() + b);
            lemma_title_of_concat(a.drop_first(), b, key);
        }
    }
}

/// The mathematical value of a settings sheet.
#[verifier::ext_equal]
pub struct SheetView {
    pub titles: Seq<(Seq<char>, Seq<char>)>,
    pub styles: Seq<DirView>,
}

/// Layered tag styling settings: display titles per slug, and an ordered
/// list of styling directives.
#[derive(Debug, Clone)]
pub struct TagSettingsSheet {
    pub titles: Vec<(String, String)>,
    pub styles: Vec<TagStyleDirective>,
}

impl View for TagSettingsSheet {
    type V = SheetView;

    open spec fn view(&self) -> SheetView {
        SheetView {
            titles: self.titles@.map_values(|p: (String, String)| (p.0@, p.1@)),
            styles: self.styles@.map_values(|d: TagStyleDirective| d@),
        }
    }
}

fn clone_body(b: &TagStyleDirectiveBody) -> (r: TagStyleDirectiveBody)
    ensures
        r@ == b@,
{
    TagStyleDirectiveBody {
        text_color: clone_opt_string(&b.text_color),
        color: clone_opt_string(&b.color),
        class: clone_opt_string(&b.class),
    }
}

fn clone_string_vec(v: &Vec<String>) -> (r: Vec<String>)
    ensures
        r@.map_values(|s: String| s@) == v@.map_values(|s: String| s@),
{
    let mut r: Vec<String> = Vec::new();
    let mut i: usize = 0;
    while i < v.len()
        invariant
            0 <= i <= v@.len(),
            r@.len() == i,
            forall|k: int| 0 <= k < i ==> r@[k]@ == v@[k]@,
        decreases v@.len() - i,
    {
        r.push(v[i].clone());
        i = i + 1;
    }
    proof {
        assert(r@.map_values(|s: String| s@) =~~= v@.map_values(|s: String| s@));
    }
    r
}

impl Default for TagSettingsSheet {
    /// The sheet with no titles and no directives.
    fn default() -> (r: Self)
        ensures
            r@.titles == Seq::<(Seq<char>, Seq<char>)>::empty(),
            r@.styles == Seq::<DirView>::empty(),
    {
        let r = TagSettingsSheet { titles: Vec::new(), styles: Vec::new() };
        proof {
            assert(r@.titles =~~= Seq::<(Seq<char>, Seq<char>)>::empty());
            assert(r@.styles =~~= Seq::<DirView>::empty());
        }
        r
    }
}

impl TagSettingsSheet {
    /// Merge with a later sheet: its directives come after these, and on
    /// a shared key its title wins, since titles are looked up first
    /// match and the later sheet's titles come first.
    pub fn combine(&self, other: &Self) -> (r: Self)
        ensures
            r@.titles == other@.titles + self@.titles,
            r@.styles == self@.styles + other@.styles,
    {
        let mut titles: Vec<(String, String)> = Vec::new();
        let mut i: usize = 0;
        while i < other.titles.len()
            invariant
                0 <= i <= other.titles@.len(),
                titles@.len() == i,
                forall|k: int|
                    0 <= k < i ==> (titles@[k].0@, titles@[k].1@) == (
                        other.titles@[k].0@,
                        other.titles@[k].1@,
                    ),
            decreases other.titles@.len() - i,
        {
            titles.push((other.titles[i].0.clone(), other.titles[i].1.clone()));
            i = i + 1;
        }
        let mut j: usize = 0;
        while j < self.titles.len()
            invariant
                0 <= j <= self.titles@.len(),
                titles@.len() == other.titles@.len() + j,
                forall|k: int|
                    0 <= k < other.titles@.len() ==> (titles@[k].0@, titles@[k].1@) == (
                        other.titles@[k].0@,
                        other.titles@[k].1@,
                    ),
                forall|k: int|
                    0 <= k < j ==> (titles@[other.titles@.len() + k].0@, titles@[other.titles@.len()
                        + k].1@) == (self.titles@[k].0@, self.titles@[k].1@),
            decreases self.titles@.len() - j,
        {
            titles.push((self.titles[j].0.clone(), self.titles[j].1.clone()));
            j = j + 1;
        }
        let mut styles: Vec<TagStyleDirective> = Vec::new();
        let mut a: usize = 0;
        while a < self.styles.len()
            invariant
                0 <= a <= self.styles@.len(),
                styles@.len() == a,
                forall|k: int| 0 <= k < a ==> styles@[k]@ == self.styles@[k]@,
            decreases self.styles@.len() - a,
        {
            let d = &self.styles[a];
            styles.push(
                TagStyleDirective { tags: clone_string_vec(&d.tags), apply: clone_body(&d.apply) },
            );
            a = a + 1;
        }
        let mut b: usize = 0;
        while b < other.styles.len()
            invariant
                0 <= b <= other.styles@.len(),
                styles@.len() == self.styles@.len() + b,
                forall|k: int| 0 <= k < self.styles@.len() ==> styles@[k]@ == self.styles@[k]@,
                forall|k: int|
                    0 <= k < b ==> styles@[self.styles@.len() + k]@ == other.styles@[k]@,
            decreases other.styles@.len() - b,
        {
            let d = &other.styles[b];
            styles.push(
                TagStyleDirective { tags: clone_string_vec(&d.tags), apply: clone_body(&d.apply) },
            );
            b = b + 1;
        }
        let r = TagSettingsSheet { titles, styles };
        proof {
            assert(r@.titles =~~= other@.titles + self@.titles);
            assert(r@.styles =~~= self@.styles + other@.styles);
        }
        r
    }
}

/// The views of flattened (tag, layer) pairs.
pub open spec fn pair_views(v: Seq<(String, TagStyleDirectiveBody)>) -> Seq<
    (Seq<char>, BodyView),
> {
    v.map_values(|p: (String, TagStyleDirectiveBody)| (p.0@, p.1@))
}

/// The views of materialized (slug, settings) pairs.
pub open spec fn out_views(v: Seq<(String, TagSettings)>) -> Seq<(Seq<char>, TagSettingsView)> {
    v.map_values(|p: (String, TagSettings)| (p.0@, p.1@))
}

/// What a correctly materialized sheet looks like: one entry per tag
/// named by a directive or observed in the content, no tag twice, and
/// each entry carrying exactly the settings its folded layer gives.
pub open spec fn spec_sheet_materialized(
    sheet: SheetView,
    additional: Seq<Seq<char>>,
    out: Seq<(Seq<char>, TagSettingsView)>,
) -> bool {
    let fl = spec_flatten(sheet.styles);
    &&& (forall|i: int, j: int| 0 <= i < j < out.len() ==> out[i].0 != out[j].0)
    &&& (forall|i: int|
        0 <= i < out.len() ==> out[i].1 == spec_materialize(
            spec_applied(fl, out[i].0),
            spec_title_of(sheet.titles, out[i].0),
            out[i].0,
        ))
    &&& (forall|i: int|
        0 <= i < out.len() ==> (spec_mentions(fl, out[i].0) || additional.contains(out[i].0)))
    &&& (forall|k: int|
        0 <= k < fl.len() ==> exists|i: int| 0 <= i < out.len() && out[i].0 == #[trigger] fl[k].0)
    &&& (forall|k: int|
        0 <= k < additional.len() ==> exists|i: int|
            0 <= i < out.len() && out[i].0 == #[trigger] additional[k])
}


/// True when some entry of `keys` is the tag.
pub open spec fn covered(keys: Seq<String>, tag: Seq<char>) -> bool {
    exists|j: int| 0 <= j < keys.len() && keys[j]@ == tag
}

pub(crate) proof fn lemma_covered(keys: Seq<String>, j: int, tag: Seq<char>)
    requires
        0 <= j < keys.len(),
        keys[j]@ == tag,
    ensures
        covered(keys, tag),
{
}

pub(crate) proof fn covered_witness(keys: Seq<String>, tag: Seq<char>) -> (j: int)
    requires
        covered(keys, tag),
    ensures
        0 <= j < keys.len() && keys[j]@ == tag,
{
    choose|j: int| 0 <= j < keys.len() && keys[j]@ == tag
}

pub(crate) proof fn lemma_mentioned(ps: Seq<(Seq<char>, BodyView)>, k: int)
    requires
        0 <= k < ps.len(),
    ensures
        spec_mentions(ps, ps[k].0),
{
}

pub(crate) proof fn mentions_witness(ps: Seq<(Seq<char>, BodyView)>, tag: Seq<char>) -> (k: int)
    requires
        spec_mentions(ps, tag),
    ensures
        0 <= k < ps.len() && ps[k].0 == tag,
{
    choose|k: int| 0 <= k < ps.len() && ps[k].0 == tag
}

pub(crate) fn find_tag_key(keys: &Vec<String>, t: &str) -> (r: Option<usize>)
    ensures
        match r {
            Some(j) => j < keys@.len() && keys@[j as int]@ == t@,
            None => forall|j: int| 0 <= j < keys@.len() ==> keys@[j]@ != t@,
        },
{
    let mut j: usize = 0;
    while j < keys.len()
        invariant
            0 <= j <= keys@.len(),
            forall|k: int| 0 <= k < j ==> keys@[k]@ != t@,
        decreases keys@.len() - j,
    {
        if crate::util::str_eq(keys[j].as_str(), t) {
            return Some(j);
        }
        j = j + 1;
    }
    None
}

fn title_lookup(titles: &Vec<(String, String)>, key: &str) -> (r: Option<String>)
    ensures
        opt_view(r) == spec_title_of(
            titles@.map_values(|p: (String, String)| (p.0@, p.1@)),
            key@,
        ),
{
    let ghost tv = titles@.map_values(|p: (String, String)| (p.0@, p.1@));
    let mut i: usize = 0;
    proof {
        assert(tv.skip(0) =~~= tv);
    }
    while i < titles.len()
        invariant
            0 <= i <= titles@.len(),
            tv == titles@.map_values(|p: (String, String)| (p.0@, p.1@)),
            spec_title_of(tv, key@) == spec_title_of(tv.skip(i as int), key@),
        decreases titles@.len() - i,
    {
        proof {
            assert(tv.skip(i as int)[0] == tv[i as int]);
        }
        if crate::util::str_eq(titles[i].0.as_str(), key) {
            return Some(titles[i].1.clone());
        }
        proof {
            assert(tv.skip(i as int).drop_first() =~~= tv.skip(i + 1));
        }
        i = i + 1;
    }
    proof {
        assert(tv.skip(titles@.len() as int) =~~= Seq::<(Seq<char>, Seq<char>)>::empty());
    }
    None
}

impl TagSettingsSheet {
    /// Fold every directive application onto its tags, in order, then add
    /// an empty layer for each observed tag that no directive named. The
    /// result pairs each distinct tag with its folded layer.
    fn fold_directives(&self, additional_tags: &Vec<&str>) -> (r: (
        Vec<String>,
        Vec<TagStyleDirectiveBody>,
    ))
        ensures
            ({
                let fl = spec_flatten(self@.styles);
                let add = additional_tags@.map_values(|s: &str| s@);
                let keys = r.0@;
                let bodies = r.1@;
                &&& keys.len() == bodies.len()
                &&& (forall|i: int, j: int| 0 <= i < j < keys.len() ==> keys[i]@ != keys[j]@)
                &&& (forall|j: int|
                    0 <= j < keys.len() ==> bodies[j]@ == spec_applied(fl, keys[j]@))
                &&& (forall|j: int|
                    0 <= j < keys.len() ==> (spec_mentions(fl, keys[j]@) || add.contains(
                        keys[j]@,
                    )))
                &&& (forall|k: int| 0 <= k < fl.len() ==> covered(keys, #[trigger] fl[k].0))
                &&& (forall|k: int| 0 <= k < add.len() ==> covered(keys, #[trigger] add[k]))
            }),
    {
        let ghost sv = self@.styles;
        let ghost fl = spec_flatten(sv);
        let ghost add = additional_tags@.map_values(|s: &str| s@);
        // Flatten the directives into (tag, layer) applications.
        let mut pairs: Vec<(String, TagStyleDirectiveBody)> = Vec::new();
        let mut a: usize = 0;
        while a < self.styles.len()
            invariant
                0 <= a <= self.styles@.len(),
                sv == self@.styles,
                pair_views(pairs@) == spec_flatten(sv.take(a as int)),
            decreases self.styles@.len() - a,
        {
            let d = &self.styles[a];
            let ghost dv = d@;
            let mut b: usize = 0;
            while b < d.tags.len()
                invariant
                    0 <= b <= d.tags@.len(),
                    sv == self@.styles,
                    0 <= a < self.styles@.len(),
                    d == &self.styles@[a as int],
                    dv == self.styles@[a as int]@,
                    pair_views(pairs@) == spec_flatten(sv.take(a as int)) + spec_pairs_of(
                        dv,
                    ).take(b as int),
                decreases d.tags@.len() - b,
            {
                let ghost pre = pairs@;
                pairs.push((d.tags[b].clone(), clone_body(&d.apply)));
                proof {
                    assert(pair_views(pairs@) =~~= pair_views(pre) + seq![
                        (dv.tags[b as int], dv.apply),
                    ]);
                    assert(spec_pairs_of(dv).take(b + 1) =~~= spec_pairs_of(dv).take(b as int)
                        + seq![(dv.tags[b as int], dv.apply)]);
                    assert(pair_views(pairs@) =~~= spec_flatten(sv.take(a as int))
                        + spec_pairs_of(dv).take(b + 1));
                }
                b = b + 1;
            }
            proof {
                assert(spec_pairs_of(dv).take(d.tags@.len() as int) =~~= spec_pairs_of(dv));
                assert(sv.take(a + 1).drop_last() =~~= sv.take(a as int));
                assert(sv.take(a + 1).last() == dv);
                assert(pair_views(pairs@) =~~= spec_flatten(sv.take(a + 1)));
            }
            a = a + 1;
        }
        proof {
            assert(sv.take(sv.len() as int) =~~= sv);
            assert(pair_views(pairs@) == fl);
        }
        // Fold each application onto its tag, first occurrence first.
        let ghost pv = pair_views(pairs@);
        let mut keys: Vec<String> = Vec::new();
        let mut bodies: Vec<TagStyleDirectiveBody> = Vec::new();
        let mut idx: usize = 0;
        proof {
            assert(pv.len() == pairs@.len());
            assert(pv.take(0) =~~= Seq::<(Seq<char>, BodyView)>::empty());
        }
        while idx < pairs.len()
            invariant
                0 <= idx <= pairs@.len(),
                pv == pair_views(pairs@),
                pv == fl,
                pv.len() == pairs@.len(),
                keys@.len() == bodies@.len(),
                forall|i: int, j: int| 0 <= i < j < keys@.len() ==> keys@[i]@ != keys@[j]@,
                forall|j: int|
                    0 <= j < keys@.len() ==> bodies@[j]@ == spec_applied(
                        pv.take(idx as int),
                        keys@[j]@,
                    ),
                forall|j: int|
                    0 <= j < keys@.len() ==> spec_mentions(pv.take(idx as int), keys@[j]@),
                forall|k: int| 0 <= k < idx ==> covered(keys@, #[trigger] pv[k].0),
            decreases pairs@.len() - idx,
        {
            let ghost pre_keys = keys@;
            let ghost pre_bodies = bodies@;
            let ghost tag = pairs@[idx as int].0@;
            proof {
                assert(pv[idx as int] == (pairs@[idx as int].0@, pairs@[idx as int].1@));
                assert(pv.take(idx + 1).drop_last() =~~= pv.take(idx as int));
                assert(pv.take(idx + 1).last() == pv[idx as int]);
            }
            match find_tag_key(&keys, pairs[idx].0.as_str()) {
                Some(j) => {
                    let nb = bodies[j].combine(&pairs[idx].1);
                    bodies[j] = nb;
                    proof {
                        assert(keys@[j as int]@ == tag);
                        assert forall|q: int| 0 <= q < keys@.len() implies bodies@[q]@
                            == spec_applied(pv.take(idx + 1), keys@[q]@) by {
                            if q != j {
                                assert(keys@[q]@ != tag);
                                assert(bodies@[q] == pre_bodies[q]);
                            }
                        }
                        assert forall|q: int| 0 <= q < keys@.len() implies spec_mentions(
                            pv.take(idx + 1),
                            keys@[q]@,
                        ) by {
                            let w = mentions_witness(pv.take(idx as int), keys@[q]@);
                            assert(pv.take(idx + 1)[w] == pv.take(idx as int)[w]);
                        }
                        assert forall|k: int| 0 <= k < idx + 1 implies covered(
                            keys@,
                            #[trigger] pv[k].0,
                        ) by {
                            if k == idx {
                                lemma_covered(keys@, j as int, pv[k].0);
                            }
                        }
                    }
                },
                None => {
                    proof {
                        if spec_mentions(pv.take(idx as int), tag) {
                            let w = mentions_witness(pv.take(idx as int), tag);
                            assert(covered(pre_keys, pv[w].0));
                            let z = covered_witness(pre_keys, pv[w].0);
                            assert(false);
                        }
                        lemma_applied_unmentioned(pv.take(idx as int), tag);
                    }
                    keys.push(pairs[idx].0.clone());
                    bodies.push(clone_body(&pairs[idx].1));
                    proof {
                        let last: int = keys@.len() - 1;
                        assert(keys@[last]@ == tag);
                        assert(spec_combine(spec_empty_body(), pairs@[idx as int].1@)
                            =~~= pairs@[idx as int].1@);
                        assert forall|q: int| 0 <= q < keys@.len() implies bodies@[q]@
                            == spec_applied(pv.take(idx + 1), keys@[q]@) by {
                            if q < last {
                                assert(keys@[q] == pre_keys[q]);
                                assert(bodies@[q] == pre_bodies[q]);
                                if keys@[q]@ == tag {
                                    let w = mentions_witness(pv.take(idx as int), keys@[q]@);
                                    assert(covered(pre_keys, pv[w].0));
                                    assert(false);
                                }
                            } else {
                                assert(bodies@[q]@ == pairs@[idx as int].1@);
                                assert(spec_applied(pv.take(idx + 1), tag) == spec_combine(
                                    spec_applied(pv.take(idx as int), tag),
                                    pv[idx as int].1,
                                ));
                            }
                        }
                        assert forall|q: int| 0 <= q < keys@.len() implies spec_mentions(
                            pv.take(idx + 1),
                            keys@[q]@,
                        ) by {
                            if q < last {
                                let w = mentions_witness(pv.take(idx as int), keys@[q]@);
                                assert(pv.take(idx + 1)[w] == pv.take(idx as int)[w]);
                            } else {
                                lemma_mentioned(pv.take(idx + 1), idx as int);
                            }
                        }
                        assert forall|k: int| 0 <= k < idx + 1 implies covered(
                            keys@,
                            #[trigger] pv[k].0,
                        ) by {
                            if k == idx {
                                lemma_covered(keys@, last, pv[k].0);
                            } else {
                                let q0 = covered_witness(pre_keys, pv[k].0);
                                lemma_covered(keys@, q0, pv[k].0);
                            }
                        }
                    }
                },
            }
            idx = idx + 1;
        }
        proof {
            assert(pv.take(pairs@.len() as int) =~~= pv);
        }
        // Ensure every observed tag has at least an empty layer.
        let mut c: usize = 0;
        while c < additional_tags.len()
            invariant
                0 <= c <= additional_tags@.len(),
                pv == fl,
                add == additional_tags@.map_values(|s: &str| s@),
                add.len() == additional_tags@.len(),
                keys@.len() == bodies@.len(),
                forall|i: int, j: int| 0 <= i < j < keys@.len() ==> keys@[i]@ != keys@[j]@,
                forall|j: int|
                    0 <= j < keys@.len() ==> bodies@[j]@ == spec_applied(pv, keys@[j]@),
                forall|j: int|
                    0 <= j < keys@.len() ==> (spec_mentions(pv, keys@[j]@) || add.contains(
                        keys@[j]@,
                    )),
                forall|k: int| 0 <= k < pv.len() ==> covered(keys@, #[trigger] pv[k].0),
                forall|k: int| 0 <= k < c ==> covered(keys@, #[trigger] add[k]),
            decreases additional_tags@.len() - c,
        {
            let ghost pre_keys = keys@;
            match find_tag_key(&keys, additional_tags[c]) {
                Some(j) => {
                    proof {
                        lemma_covered(keys@, j as int, add[c as int]);
                    }
                },
                None => {
                    proof {
                        if spec_mentions(pv, add[c as int]) {
                            let w = mentions_witness(pv, add[c as int]);
                            assert(covered(pre_keys, pv[w].0));
                            let z = covered_witness(pre_keys, pv[w].0);
                            assert(false);
                        }
                        lemma_applied_unmentioned(pv, add[c as int]);
                    }
                    keys.push(additional_tags[c].to_owned());
                    bodies.push(TagStyleDirectiveBody::default());
                    proof {
                        let last: int = keys@.len() - 1;
                        assert(keys@[last]@ == add[c as int]);
                        assert(add.contains(add[c as int]));
                        assert forall|i: int, j: int|
                            0 <= i < j < keys@.len() implies keys@[i]@ != keys@[j]@ by {
                            if j == last && keys@[i]@ == keys@[j]@ {
                                lemma_covered(pre_keys, i, add[c as int]);
                                let w = covered_witness(pre_keys, add[c as int]);
                                assert(false);
                            }
                        }
                        assert forall|k: int| 0 <= k < pv.len() implies covered(
                            keys@,
                            #[trigger] pv[k].0,
                        ) by {
                            let q0 = covered_witness(pre_keys, pv[k].0);
                            lemma_covered(keys@, q0, pv[k].0);
                        }
                        assert forall|k: int| 0 <= k < c + 1 implies covered(
                            keys@,
                            #[trigger] add[k],
                        ) by {
                            if k == c {
                                lemma_covered(keys@, last, add[k]);
                            } else {
                                let q0 = covered_witness(pre_keys, add[k]);
                                lemma_covered(keys@, q0, add[k]);
                            }
                        }
                    }
                },
            }
            c = c + 1;
        }
        (keys, bodies)
    }
}

/// True when a tag's folded layer, if it must parse its given color,
/// parses successfully.
pub open spec fn spec_parse_ok(ps: Seq<(Seq<char>, BodyView)>, tag: Seq<char>) -> bool {
    spec_needs_parse(spec_applied(ps, tag)) ==> css_color_of(
        spec_applied(ps, tag).color->Some_0,
    ) is Some
}

impl TagSettingsSheet {
    /// Materialize the sheet: fold the directives per tag slug in order,
    /// give every observed tag that no directive named an empty layer,
    /// and resolve each folded layer into final settings. Every given
    /// background color that materialization must read must be a
    /// readable CSS color; `try_materialize` tests that instead.
    pub fn materialize(self, additional_tags: Vec<&str>) -> (r: Vec<(String, TagSettings)>)
        requires
            forall|k: int|
                0 <= k < spec_flatten(self@.styles).len() ==> spec_parse_ok(
                    spec_flatten(self@.styles),
                    #[trigger] spec_flatten(self@.styles)[k].0,
                ),
        ensures
            spec_sheet_materialized(
                self@,
                additional_tags@.map_values(|s: &str| s@),
                out_views(r@),
            ),
    {
        let ghost fl = spec_flatten(self@.styles);
        let ghost add = additional_tags@.map_values(|s: &str| s@);
        let ghost tv = self@.titles;
        let (keys, bodies) = self.fold_directives(&additional_tags);
        let mut out: Vec<(String, TagSettings)> = Vec::new();
        let mut j: usize = 0;
        while j < keys.len()
            invariant
                0 <= j <= keys@.len(),
                fl == spec_flatten(self@.styles),
                add == additional_tags@.map_values(|s: &str| s@),
                tv == self@.titles,
                forall|k: int|
                    0 <= k < fl.len() ==> spec_parse_ok(fl, #[trigger] fl[k].0),
                keys@.len() == bodies@.len(),
                forall|i: int, q: int| 0 <= i < q < keys@.len() ==> keys@[i]@ != keys@[q]@,
                forall|q: int|
                    0 <= q < keys@.len() ==> bodies@[q]@ == spec_applied(fl, keys@[q]@),
                forall|q: int|
                    0 <= q < keys@.len() ==> (spec_mentions(fl, keys@[q]@) || add.contains(
                        keys@[q]@,
                    )),
                forall|k: int| 0 <= k < fl.len() ==> covered(keys@, #[trigger] fl[k].0),
                forall|k: int| 0 <= k < add.len() ==> covered(keys@, #[trigger] add[k]),
                out@.len() == j,
                forall|i: int| 0 <= i < j ==> out@[i].0@ == keys@[i]@,
                forall|i: int|
                    0 <= i < j ==> out@[i].1@ == spec_materialize(
                        spec_applied(fl, keys@[i]@),
                        spec_title_of(tv, keys@[i]@),
                        keys@[i]@,
                    ),
            decreases keys@.len() - j,
        {
            proof {
                if spec_needs_parse(bodies@[j as int]@) {
                    if spec_mentions(fl, keys@[j as int]@) {
                        let w = mentions_witness(fl, keys@[j as int]@);
                        assert(spec_parse_ok(fl, fl[w].0));
                    } else {
                        lemma_applied_unmentioned(fl, keys@[j as int]@);
                    }
                }
            }
            let title = title_lookup(&self.titles, keys[j].as_str());
            let s = clone_body(&bodies[j]).materialize(title, keys[j].as_str());
            out.push((keys[j].clone(), s));
            j = j + 1;
        }
        proof {
            let ov = out_views(out@);
            assert forall|i: int, q: int| 0 <= i < q < ov.len() implies ov[i].0 != ov[q].0 by {
                assert(ov[i].0 == keys@[i]@ && ov[q].0 == keys@[q]@);
            }
            assert forall|k: int| 0 <= k < fl.len() implies exists|i: int|
                0 <= i < ov.len() && ov[i].0 == #[trigger] fl[k].0 by {
                let q = covered_witness(keys@, fl[k].0);
                assert(ov[q].0 == fl[k].0);
            }
            assert forall|k: int| 0 <= k < add.len() implies exists|i: int|
                0 <= i < ov.len() && ov[i].0 == #[trigger] add[k] by {
                let q = covered_witness(keys@, add[k]);
                assert(ov[q].0 == add[k]);
            }
            assert forall|i: int|
                0 <= i < ov.len() implies (spec_mentions(fl, ov[i].0) || add.contains(
                    ov[i].0,
                )) by {
                assert(ov[i].0 == keys@[i]@);
            }
        }
        out
    }

    /// Materialize the sheet, first testing that every given background
    /// color that must be read is a readable CSS color; nothing comes
    /// back when some tag's folded color string is not.
    pub fn try_materialize(self, additional_tags: Vec<&str>) -> (r: Option<
        Vec<(String, TagSettings)>,
    >)
        ensures
            r is None <==> (exists|t: Seq<char>|
                spec_mentions(spec_flatten(self@.styles), t) && !spec_parse_ok(
                    spec_flatten(self@.styles),
                    t,
                )),
            r matches Some(out) ==> spec_sheet_materialized(
                self@,
                additional_tags@.map_values(|s: &str| s@),
                out_views(out@),
            ),
    {
        let ghost fl = spec_flatten(self@.styles);
        let (keys, bodies) = self.fold_directives(&additional_tags);
        let mut j: usize = 0;
        while j < keys.len()
            invariant
                0 <= j <= keys@.len(),
                fl == spec_flatten(self@.styles),
                keys@.len() == bodies@.len(),
                forall|q: int|
                    0 <= q < keys@.len() ==> bodies@[q]@ == spec_applied(fl, keys@[q]@),
                forall|k: int| 0 <= k < fl.len() ==> covered(keys@, #[trigger] fl[k].0),
                forall|i: int| 0 <= i < j ==> spec_parse_ok(fl, keys@[i]@),
            decreases keys@.len() - j,
        {
            if bodies[j].class.is_none() && bodies[j].text_color.is_none() {
                match &bodies[j].color {
                    Some(c) => {
                        if parse_css_color(c.as_str()).is_none() {
                            proof {
                                let tag = keys@[j as int]@;
                                assert(spec_needs_parse(spec_applied(fl, tag)));
                                if !spec_mentions(fl, tag) {
                                    lemma_applied_unmentioned(fl, tag);
                                }
                                assert(spec_mentions(fl, tag) && !spec_parse_ok(fl, tag));
                            }
                            return None;
                        }
                    },
                    None => {},
                }
            }
            j = j + 1;
        }
        proof {
            assert forall|k: int| 0 <= k < fl.len() implies spec_parse_ok(
                fl,
                #[trigger] fl[k].0,
            ) by {
                let q = covered_witness(keys@, fl[k].0);
            }
            if exists|t: Seq<char>| spec_mentions(fl, t) && !spec_parse_ok(fl, t) {
                let t = choose|t: Seq<char>| spec_mentions(fl, t) && !spec_parse_ok(fl, t);
                let w = mentions_witness(fl, t);
                assert(spec_parse_ok(fl, fl[w].0));
                assert(false);
            }
        }
        Some(self.materialize(additional_tags))
    }
}

} // verus!
