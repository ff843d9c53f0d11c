//! The data shapes generated code and a site's theme share.
use vstd::prelude::*;
use crate::ast::percent_of;
use crate::text::str_eq;

verus! {

/// One highlighted run of code, pre-coloured for both themes.
#[derive(Debug, Clone, Copy, PartialEq)]
pub struct Token {
    pub text: &'static str,
    pub light: &'static str,
    pub dark: &'static str,
}

/// Task list totals for one page, counted at build time.
#[derive(Debug, Clone, Copy, PartialEq, Eq)]
pub struct Tasks {
    pub done: u32,
    pub total: u32,
}

impl Default for Tasks {
    fn default() -> (r: Tasks)
        ensures
            r.done == 0,
            r.total == 0,
    {
        Tasks { done: 0, total: 0 }
    }
}

impl Tasks {
    /// Completion as a whole percentage; `0` when the page has no task list.
    pub fn percent(self) -> (r: u8)
        ensures
            r == percent_of(self.done, self.total),
    {
        if self.total == 0 {
            return 0;
        }
        let p = (self.done as u64 * 100) / self.total as u64;
        proof {
            assert(p == self.done as int * 100 / self.total as int);
            assert(p as u8 == (p % 256) as u8) by (bit_vector);
        }
        #[verifier::truncate]
        (p as u8)
    }

    /// Whether the page has a task list at all.
    pub fn any(self) -> (r: bool)
        ensures
            r == (self.total > 0),
    {
        self.total > 0
    }
}

#[derive(Debug, Clone, Copy, PartialEq)]
pub struct TocItem {
    pub id: &'static str,
    pub title: &'static str,
    pub level: u8,
}

/// A sidebar entry. A group without its own `index.md` has `route: None`.
#[derive(Debug, Clone, Copy, PartialEq)]
pub struct SidebarItem {
    pub title: &'static str,
    pub route: Option<&'static str>,
    pub items: &'static [SidebarItem],
}

/// Per-page metadata, in reading order.
#[derive(Debug, Clone, Copy, PartialEq)]
pub struct PageMeta {
    pub route: &'static str,
    pub title: &'static str,
    pub description: Option<&'static str>,
    pub toc: &'static [TocItem],
    /// Prose with markup stripped, used by the search index.
    pub text: &'static str,
    /// Whether prev/next steps through this page.
    pub pager: bool,
    /// Task list totals, `Tasks::default()` on a page without one.
    pub tasks: Tasks,
}

/// The index of the first page whose route is `route`, from `k` on; the number
/// of pages when there is none.
pub open spec fn first_page(pages: Seq<PageMeta>, route: Seq<char>, k: int) -> int
    decreases pages.len() - k,
{
    if k < 0 || k >= pages.len() {
        pages.len() as int
    } else if pages[k].route@ == route {
        k
    } else {
        first_page(pages, route, k + 1)
    }
}

/// Finds a page by route: the first one whose route is `route`.
pub fn page<'a>(pages: &'a [PageMeta], route: &str) -> (r: Option<&'a PageMeta>)
    ensures
        match r {
            Some(p) => first_page(pages@, route@, 0) < pages@.len() && *p == pages@[first_page(
                pages@,
                route@,
                0,
            )],
            None => first_page(pages@, route@, 0) == pages@.len(),
        },
{
    let mut i: usize = 0;
    while i < pages.len()
        invariant
            0 <= i <= pages@.len(),
            first_page(pages@, route@, i as int) == first_page(pages@, route@, 0),
        decreases pages.len() - i,
    {
        if str_eq(pages[i].route, route) {
            return Some(&pages[i]);
        }
        i += 1;
    }
    None
}

/// Site-wide settings, surfaced to the theme.
#[derive(Debug, Clone, Copy, PartialEq)]
pub struct SiteConfig {
    pub title: &'static str,
    pub description: Option<&'static str>,
    /// Shown in the navbar when set.
    pub repository: Option<&'static str>,
    /// Where the documentation index lives: `/` by default.
    pub docs_root: &'static str,
}

impl Default for SiteConfig {
    /// Titled "Documentation", with the docs at `/`.
    fn default() -> (r: SiteConfig)
        ensures
            r.title@ == "Documentation"@,
            r.description is None,
            r.repository is None,
            r.docs_root@ == "/"@,
    {
        SiteConfig { title: "Documentation", description: None, repository: None, docs_root: "/" }
    }
}

} // verus!
