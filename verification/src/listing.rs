//! From what a directory holds to the grid that is printed.

use vstd::prelude::*;
use crate::formatter::{attr_of, get_attr, Entry, EntryConfig, EntryConfigView, EntryView, Formatter};
use crate::order::{keeps_order_within_paths, sort_entries, sorted_by_path};
use crate::tabulator::{grid_text, layout, predicted, views, Config, Tabulator};

verus! {

/// What reading a directory tells of one of its children: the path, its
/// last component, and whether it is a folder.
#[derive(Debug)]
pub struct Found {
    pub path: String,
    pub name: String,
    pub is_dir: bool,
}

/// A [`Found`] as plain values.
pub struct FoundView {
    pub path: Seq<char>,
    pub name: Seq<char>,
    pub is_dir: bool,
}

impl View for Found {
    type V = FoundView;

    open spec fn view(&self) -> FoundView {
        FoundView { path: self.path@, name: self.name@, is_dir: self.is_dir }
    }
}

/// The children of a directory as plain values.
pub open spec fn found_views(found: Seq<Found>) -> Seq<FoundView> {
    Seq::new(found.len(), |i: int| found[i]@)
}

/// Every child can be given an attribute: the fallback glyph that it may
/// need is there, and a file has a name.
pub open spec fn resolvable(config: EntryConfigView, found: Seq<FoundView>) -> bool {
    forall|i: int|
        #![trigger found[i]]
        0 <= i < found.len() ==> if found[i].is_dir {
            config.folders.contains_key("folder"@)
        } else {
            config.files.contains_key("file"@) && found[i].name.len() > 0
        }
}

/// The entries that the children make, in the order in which they were
/// found: each with the attribute that the tables give it.
pub open spec fn resolved(config: EntryConfigView, found: Seq<FoundView>) -> Seq<EntryView> {
    Seq::new(
        found.len(),
        |i: int|
            EntryView {
                path: found[i].path,
                name: found[i].name,
                attr: attr_of(config, found[i].name, found[i].is_dir),
            },
    )
}

/// Gives every child its attribute.
pub fn entries_of(config: &EntryConfig, found: &Vec<Found>) -> (entries: Vec<Entry>)
    requires
        resolvable(config@, found_views(found@)),
    ensures
        views(entries@) == resolved(config@, found_views(found@)),
{
    let mut entries: Vec<Entry> = Vec::new();
    let mut i: usize = 0;
    while i < found.len()
        invariant
            i <= found.len(),
            resolvable(config@, found_views(found@)),
            entries@.len() == i,
            forall|k: int|
                0 <= k < i ==> (#[trigger] entries@[k])@ == resolved(
                    config@,
                    found_views(found@),
                )[k],
        decreases found.len() - i,
    {
        assert(found_views(found@)[i as int] == found@[i as int]@);
        let attr = get_attr(config, found[i].name.as_str(), found[i].is_dir);
        entries.push(Entry { path: found[i].path.clone(), name: found[i].name.clone(), attr });
        i += 1;
    }
    assert(views(entries@) =~= resolved(config@, found_views(found@)));
    entries
}

/// `sorted` are the entries that the children make, in the order of their
/// paths and, within one path, in the order in which they were found; and
/// `grid` is what the tabulator makes of them.
pub open spec fn is_listing<F: Formatter, T: Tabulator>(
    config: &Config<F>,
    tabulator: &T,
    found: Seq<FoundView>,
    sorted: Seq<EntryView>,
    grid: Seq<Seq<Seq<char>>>,
) -> bool {
    &&& sorted_by_path(sorted)
    &&& sorted.to_multiset() == resolved(config.entry@, found).to_multiset()
    &&& keeps_order_within_paths(sorted, resolved(config.entry@, found))
    &&& grid == layout(
        config,
        sorted,
        tabulator.columns(
            config.max_width,
            config.entry_order,
            predicted(&config.formatter, sorted),
        ),
    )
}

/// The listing of a directory: every child gets its attribute, the entries
/// are put into the order of their paths, and the tabulator lays them out.
pub fn list<F: Formatter, T: Tabulator>(config: &Config<F>, tabulator: &T, found: &Vec<Found>) -> (out:
    Vec<Vec<String>>)
    requires
        resolvable(config.entry@, found_views(found@)),
    ensures
        exists|sorted: Seq<EntryView>| #[trigger]
            is_listing(config, tabulator, found_views(found@), sorted, grid_text(out@)),
{
    let entries = entries_of(&config.entry, found);
    let sorted = sort_entries(entries);
    let ghost order = views(sorted@);
    let out = tabulator.tabulate(config, sorted);
    assert(is_listing(config, tabulator, found_views(found@), order, grid_text(out@)));
    out
}

} // verus!
