use vstd::prelude::*;

use crate::tags::TagSettings;

verus! {

/// The fixed entries of the base template's navigation bar.
#[derive(Debug, Clone, Copy, PartialEq, Eq, Structural)]
pub enum NavbarItem {
    Blog,
    Projects,
    About,
}

impl NavbarItem {
    /// Where the entry links to.
    pub fn href(&self) -> (r: &str)
        ensures
            r@ == match self {
                NavbarItem::Blog => "/blog"@,
                NavbarItem::Projects => "/projects"@,
                NavbarItem::About => "/about"@,
            },
    {
        match self {
            NavbarItem::Blog => "/blog",
            NavbarItem::Projects => "/projects",
            NavbarItem::About => "/about",
        }
    }

    /// The entry's display text.
    pub fn text(&self) -> (r: &str)
        ensures
            r@ == match self {
                NavbarItem::Blog => "Blog"@,
                NavbarItem::Projects => "Projects"@,
                NavbarItem::About => "About"@,
            },
    {
        match self {
            NavbarItem::Blog => "Blog",
            NavbarItem::Projects => "Projects",
            NavbarItem::About => "About",
        }
    }
}

/// The base template's navigation state: the highlighted entry, if any.
#[derive(Debug, Clone)]
pub struct Navbar {
    pub highlighted: Option<NavbarItem>,
}

/// What a page hands the base template: its title and which navigation
/// entry to highlight.
pub struct PageMeta {
    pub title: String,
    pub navbar_highlighted: Option<NavbarItem>,
}

/// A tag, prepared for rendering: its settings and whether it links to
/// its tag page.
#[derive(Debug, Clone)]
pub struct TagR {
    pub settings: TagSettings,
    pub link: bool,
}

impl TagR {
    /// A linked tag with the given settings.
    pub fn new(settings: TagSettings) -> (r: Self)
        ensures
            r.settings == settings,
            r.link == true,
    {
        TagR { settings, link: true }
    }

    /// The same tag, linked or not as asked.
    pub fn with_link(self, link: bool) -> (r: Self)
        ensures
            r.settings == self.settings,
            r.link == link,
    {
        TagR { settings: self.settings, link }
    }
}

/// An em dash, as rendered markup.
#[derive(Debug, Clone, Copy, PartialEq, Eq, Structural)]
pub struct EmDash;

/// A webring, prepared for rendering.
#[derive(Debug, Clone)]
pub struct RenderWebring {
    pub webring: crate::model::Webring,
}

/// A date-based slug: the day, an ordinal, and an optional name.
#[derive(Debug, Clone)]
pub struct DateSlug {
    pub year: u32,
    pub month: u32,
    pub day: u32,
    pub ord: u32,
    pub name: Option<String>,
}

impl DateSlug {
    /// A slug from its parts.
    pub fn new(year: u32, month: u32, day: u32, ord: u32, name: Option<String>) -> (r: DateSlug)
        ensures
            r == (DateSlug { year, month, day, ord, name }),
    {
        DateSlug { year, month, day, ord, name }
    }
}

/// A slug given only in part: from the year alone down to the full form.
#[derive(Debug, Clone)]
pub enum PartialSlug {
    Y(u32),
    M(u32, u32),
    D(u32, u32, u32),
    O(u32, u32, u32, u32),
    F(u32, u32, u32, u32, String),
}

/// The command line: one subcommand.
#[derive(Debug, Clone)]
pub struct TopLevel {
    pub command: Subcommand,
}

/// What the tool is asked to do.
#[derive(Debug, Clone)]
pub enum Subcommand {
    Build(BuildCommand),
    Upload(UploadCommand),
    Watch(WatchCommand),
}

/// Build a static site.
#[derive(Debug, Clone)]
pub struct BuildCommand {
    /// Content sources directory.
    pub src: String,
    /// Output directory.
    pub out: String,
}

/// Upload files to the remote object store.
#[derive(Debug, Clone)]
pub struct UploadCommand {
    /// The files to upload.
    pub src: Vec<String>,
    /// The bucket to upload to.
    pub bucket: String,
}

/// Serve on a port, watching and rebuilding.
#[derive(Debug, Clone)]
pub struct WatchCommand {
    /// Content sources directory.
    pub src: String,
    /// Port to listen on, or zero to pick one.
    pub port: u16,
}

} // verus!
