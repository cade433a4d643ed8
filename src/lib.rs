pub mod date;
pub mod file_entry;
pub mod tree;

pub use file_entry::{FileEntry, TimestampType, TreeDepth};
pub use tree::{EntryNode, FileEntryTree, NodeKind};

use tree::placed_all;

use file_entry::{entry_views, EntryView};
use vstd::prelude::*;

verus! {

/// The tree that grouping the entries of a directory by date gives.
pub type GroupedEntryTree = FileEntryTree;

impl FileEntry {
    /// Groups the entries of the directory named `root_dir_name` by date, down to the depth
    /// that `depth` selects (1 the year, 2 the month, 3 the day, any other number the year).
    /// `listing` holds the entries read from the directory, in the order in which they were
    /// read, or nothing where the directory could not be read: then there is no tree.
    pub fn group_entries_by_date(
        root_dir_name: &str,
        listing: Option<Vec<FileEntry>>,
        timestamp_field: TimestampType,
        depth: i32,
    ) -> (r: Option<GroupedEntryTree>)
        requires
            listing matches Some(v) ==> v@.len() <= i32::MAX,
        ensures
            listing is None ==> r is None,
            listing matches Some(v) ==> (r matches Some(t) && {
                &&& t.wf()
                &&& t.history() == v@.map_values(|e: FileEntry| e@)
                &&& t.spec_max_depth() == TreeDepth::from_level(depth)
                &&& t.spec_timestamp_type() == timestamp_field
                &&& t.root_node().kind_of() == NodeKind::Root
                &&& exists|fresh: tree::EntryNode| {
                    &&& fresh.kind_of() == NodeKind::Root
                    &&& fresh.depth_of() == TreeDepth::from_level(depth)
                    &&& fresh.nodes().len() == 0
                    &&& fresh.value_view() == t.root_node().value_view()
                    &&& #[trigger] placed_all(fresh, t.root_node(), entry_views(v@))
                }
                &&& t.root_node().value_view() == (EntryView {
                    year: 0,
                    month: 0,
                    day: 0,
                    name: root_dir_name@,
                })
            }),
    {
        match listing {
            Some(entries) => {
                match FileEntryTree::new(root_dir_name, timestamp_field, TreeDepth::from_level(depth)) {
                    Some(mut tree) => {
                        let ghost fresh = tree.root_node();
                        tree.build(entries);
                        assert(entry_views(entries@) == entries@.map_values(|e: FileEntry| e@));
                        assert(placed_all(fresh, tree.root_node(), entry_views(entries@)));
                        assert(fresh.depth_of() == TreeDepth::from_level(depth));
                        assert(fresh.value_view() == tree.root_node().value_view());
                        assert(tree.history() =~= entries@.map_values(|e: FileEntry| e@));
                        Some(tree)
                    },
                    None => None,
                }
            },
            None => None,
        }
    }
}

} // verus!
