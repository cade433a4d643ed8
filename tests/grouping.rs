use groupby::date::{decimal_text, extract_date};
use groupby::{EntryNode, FileEntry, FileEntryTree, GroupedEntryTree, NodeKind, TimestampType, TreeDepth};

fn entry(year: i32, month: u32, day: u32, name: &str) -> FileEntry {
    FileEntry { year, month, day, file_name: String::from(name) }
}

fn sample() -> Vec<FileEntry> {
    vec![entry(2017, 7, 1, "a.txt"), entry(2017, 7, 2, "b.txt"), entry(2018, 1, 1, "c.txt")]
}

fn names(node: &EntryNode) -> Vec<String> {
    let mut v = Vec::new();
    for i in 0..node.child_count() {
        v.push(node.child(i).file_name());
    }
    v
}

fn tree_of(depth: TreeDepth, entries: Vec<FileEntry>) -> FileEntryTree {
    let mut t = FileEntryTree::new("dir", TimestampType::MODIFIED, depth).unwrap();
    for e in entries {
        t.add_entry(e);
    }
    t
}

fn group_labels(node: &EntryNode, level: usize, out: &mut Vec<String>) {
    for i in 0..node.child_count() {
        let c = node.child(i);
        if let NodeKind::Group(_) = c.kind() {
            if level == 1 {
                out.push(c.file_name());
            } else {
                group_labels(c, level - 1, out);
            }
        }
    }
}

fn count_leaves(node: &EntryNode) -> usize {
    if node.kind() == NodeKind::Leaf {
        return 1;
    }
    let mut n = 0;
    for i in 0..node.child_count() {
        n += count_leaves(node.child(i));
    }
    n
}

#[test]
fn month_depth_scenario() {
    let t = tree_of(TreeDepth::MONTH, sample());
    let root = t.root();
    assert_eq!(names(root), vec!["2017", "2018"]);
    let y2017 = root.child(0);
    assert_eq!(names(y2017), vec!["7"]);
    assert_eq!(names(y2017.child(0)), vec!["a.txt", "b.txt"]);
    assert_eq!(y2017.child(0).child(0).kind(), NodeKind::Leaf);
    let y2018 = root.child(1);
    assert_eq!(names(y2018), vec!["1"]);
    assert_eq!(names(y2018.child(0)), vec!["c.txt"]);
    assert_eq!(t.size(), 3);
}

#[test]
fn year_depth_scenario() {
    let t = tree_of(TreeDepth::YEAR, sample());
    let root = t.root();
    assert_eq!(names(root), vec!["2017", "2018"]);
    assert_eq!(root.child(0).kind(), NodeKind::Group(TreeDepth::YEAR));
    assert_eq!(names(root.child(0)), vec!["a.txt", "b.txt"]);
    assert_eq!(root.child(0).child(1).kind(), NodeKind::Leaf);
    assert_eq!(names(root.child(1)), vec!["c.txt"]);
    assert_eq!(t.size(), 3);
}

#[test]
fn day_depth_opens_day_groups() {
    let t = tree_of(TreeDepth::DAY, sample());
    let m7 = t.root().child(0).child(0);
    assert_eq!(names(m7), vec!["1", "2"]);
    assert_eq!(m7.child(0).kind(), NodeKind::Group(TreeDepth::DAY));
    assert_eq!(names(m7.child(1)), vec!["b.txt"]);
}

#[test]
fn root_children_are_distinct_years() {
    let entries = vec![
        entry(2016, 1, 1, "x"),
        entry(2017, 2, 2, "y"),
        entry(2016, 3, 3, "z"),
        entry(2017, 4, 4, "w"),
        entry(2015, 5, 5, "v"),
    ];
    let t = tree_of(TreeDepth::YEAR, entries);
    let root = t.root();
    assert_eq!(root.child_count(), 3);
    for i in 0..root.child_count() {
        let g = root.child(i);
        for j in 0..g.child_count() {
            assert_eq!(g.child(j).entry().year, g.entry().year);
        }
    }
}

#[test]
fn permutation_keeps_size_and_labels() {
    let a = tree_of(TreeDepth::DAY, sample());
    let mut rev = sample();
    rev.reverse();
    let b = tree_of(TreeDepth::DAY, rev);
    assert_eq!(a.size(), b.size());
    for level in 1..4 {
        let mut la = Vec::new();
        let mut lb = Vec::new();
        group_labels(a.root(), level, &mut la);
        group_labels(b.root(), level, &mut lb);
        la.sort();
        la.dedup();
        lb.sort();
        lb.dedup();
        assert_eq!(la, lb);
    }
}

#[test]
fn size_counts_collisions() {
    let mut t = FileEntryTree::new("dir", TimestampType::CREATED, TreeDepth::DAY).unwrap();
    assert_eq!(t.size(), 0);
    for _ in 0..4 {
        t.add_entry(entry(2020, 2, 29, "same"));
    }
    assert_eq!(t.size(), 4);
    assert_eq!(count_leaves(t.root()), 1);
}

#[test]
fn inserting_twice_keeps_one_leaf() {
    let t = tree_of(TreeDepth::MONTH, vec![entry(2019, 12, 31, "e"), entry(2019, 12, 31, "e")]);
    let root = t.root();
    assert_eq!(root.child_count(), 1);
    assert_eq!(root.child(0).child_count(), 1);
    let month = root.child(0).child(0);
    assert_eq!(month.child_count(), 1);
    assert_eq!(month.child(0).file_name(), "e");
    assert_eq!(t.size(), 2);
}

#[test]
fn same_name_last_write_wins() {
    let t = tree_of(TreeDepth::YEAR, vec![entry(2019, 1, 5, "f"), entry(2019, 8, 9, "f")]);
    let year = t.root().child(0);
    assert_eq!(year.child_count(), 1);
    assert_eq!(year.child(0).entry().month, 8);
    assert_eq!(year.child(0).entry().day, 9);
}

#[test]
fn malformed_dates_are_plain_labels() {
    let t = tree_of(TreeDepth::DAY, vec![entry(-44, 0, 0, "old")]);
    let y = t.root().child(0);
    assert_eq!(y.file_name(), "-44");
    assert_eq!(y.child(0).file_name(), "0");
    assert_eq!(y.child(0).child(0).file_name(), "0");
}

#[test]
fn deeper_saturates_at_day() {
    assert_eq!(TreeDepth::YEAR.deeper(), TreeDepth::MONTH);
    assert_eq!(TreeDepth::MONTH.deeper(), TreeDepth::DAY);
    assert_eq!(TreeDepth::DAY.deeper(), TreeDepth::DAY);
    let mut d = TreeDepth::YEAR;
    for _ in 0..10 {
        d = d.deeper();
    }
    assert_eq!(d, TreeDepth::DAY);
}

#[test]
fn depth_from_level_number() {
    assert_eq!(TreeDepth::from_level(1), TreeDepth::YEAR);
    assert_eq!(TreeDepth::from_level(2), TreeDepth::MONTH);
    assert_eq!(TreeDepth::from_level(3), TreeDepth::DAY);
    assert_eq!(TreeDepth::from_level(0), TreeDepth::YEAR);
    assert_eq!(TreeDepth::from_level(7), TreeDepth::YEAR);
}

#[test]
fn render_draws_tree() {
    let t = tree_of(TreeDepth::MONTH, sample());
    let lines = t.render();
    assert_eq!(
        lines,
        vec![
            "dir",
            "├───2017",
            "│   └───7",
            "│       ├───a.txt",
            "│       └───b.txt",
            "└───2018",
            "    └───1",
            "        └───c.txt",
        ]
    );
}

#[test]
fn render_empty_tree() {
    let t = FileEntryTree::new("photos", TimestampType::CREATED, TreeDepth::DAY).unwrap();
    assert_eq!(t.render(), vec!["photos"]);
}

#[test]
fn decimal_labels() {
    assert_eq!(decimal_text(0), "0");
    assert_eq!(decimal_text(7), "7");
    assert_eq!(decimal_text(2017), "2017");
    assert_eq!(decimal_text(-305), "-305");
    assert_eq!(decimal_text(i64::MAX), "9223372036854775807");
    assert_eq!(decimal_text(i64::MIN), "-9223372036854775808");
    assert_eq!(decimal_text(-1), "-1");
}

#[test]
fn group_entry_labels() {
    let e = entry(2017, 7, 14, "n");
    assert_eq!(e.year_entry().file_name, "2017");
    assert_eq!(e.month_entry().file_name, "7");
    assert_eq!(e.day_entry().file_name, "14");
    assert_eq!(e.group_entry(TreeDepth::MONTH).year, 2017);
}

#[test]
fn dates_from_timestamps() {
    assert_eq!(extract_date(0), Some((1970, 1, 1)));
    assert_eq!(extract_date(86399), Some((1970, 1, 1)));
    assert_eq!(extract_date(1500000000), Some((2017, 7, 14)));
    assert_eq!(extract_date(951782400), Some((2000, 2, 29)));
    assert_eq!(extract_date(u64::MAX), None);
    assert_eq!(extract_date(i64::MAX as u64), None);
}

#[test]
fn entry_from_timestamp() {
    let e = FileEntry::from_timestamp(String::from("notes.md"), 1500000000).unwrap();
    assert_eq!(e, entry(2017, 7, 14, "notes.md"));
    assert!(FileEntry::from_timestamp(String::from("x"), u64::MAX).is_none());
}

#[test]
fn entry_from_name() {
    assert_eq!(FileEntry::from_name(String::from("/tmp")), entry(0, 0, 0, "/tmp"));
}

#[test]
fn group_entries_of_listing() {
    let t: GroupedEntryTree =
        FileEntry::group_entries_by_date("dir", Some(sample()), TimestampType::CREATED, 2).unwrap();
    assert_eq!(t.max_depth(), TreeDepth::MONTH);
    assert_eq!(t.timestamp_type(), TimestampType::CREATED);
    assert_eq!(t.size(), 3);
    assert_eq!(t.root().file_name(), "dir");
    assert_eq!(names(t.root().child(0).child(0)), vec!["a.txt", "b.txt"]);
    let u = FileEntry::group_entries_by_date("dir", Some(Vec::new()), TimestampType::CREATED, 9).unwrap();
    assert_eq!(u.max_depth(), TreeDepth::YEAR);
    assert_eq!(u.size(), 0);
}

#[test]
fn unreadable_directory_gives_no_tree() {
    assert!(FileEntry::group_entries_by_date("dir", None, TimestampType::MODIFIED, 1).is_none());
}

#[test]
fn build_inserts_all() {
    let mut t = FileEntryTree::new("d", TimestampType::MODIFIED, TreeDepth::YEAR).unwrap();
    t.build(sample());
    assert_eq!(t.size(), 3);
    assert_eq!(names(t.root()), vec!["2017", "2018"]);
}
