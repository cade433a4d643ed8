use groupby::{EntryNode, FileEntry, FileEntryTree, TimestampType, TreeDepth};

#[test]
fn test_entry_node_depth() {
    let entry_node = EntryNode::new(
        FileEntry { year: 2017, month: 7, day: 1, file_name: String::from("/etc") },
        TreeDepth::YEAR,
    );

    assert_eq!(entry_node.file_name(), String::from("/etc"));
    assert_eq!(entry_node.depth(), TreeDepth::YEAR);
    assert_eq!(entry_node.next_depth(), TreeDepth::MONTH);
}

#[test]
fn test_entry_node_add_child() {
    let mut parent_node = EntryNode::new(
        FileEntry { year: 2017, month: 7, day: 1, file_name: String::from("/etc") },
        TreeDepth::YEAR,
    );

    let child_entry = FileEntry { year: 2017, month: 7, day: 1, file_name: String::from("passwd") };

    // /etc
    //  ├───2017
    //     └── passwd
    parent_node.add_child(child_entry);

    let c = parent_node.children().unwrap();

    assert_eq!(c.file_name(), String::from("2017"));
    assert_eq!(c.children().unwrap().file_name(), String::from("passwd"));
}

#[test]
fn test_entry_node_add_deeper_child() {
    let mut parent_node = EntryNode::new(
        FileEntry { year: 2017, month: 7, day: 1, file_name: String::from("/etc") },
        TreeDepth::MONTH,
    );

    let child_entry = FileEntry { year: 2017, month: 7, day: 1, file_name: String::from("passwd") };

    // /etc
    //  ├───2017
    //      ├───7
    //          └── passwd
    parent_node.add_child(child_entry);

    let c = parent_node.children().unwrap();

    assert_eq!(parent_node.file_name(), String::from("/etc"));
    assert_eq!(c.file_name(), String::from("2017"));
    assert_eq!(c.children().unwrap().file_name(), String::from("7"));
    assert_eq!(c.children().unwrap().children().unwrap().file_name(), String::from("passwd"));
}

#[test]
fn test_create_file_entry_tree() {
    let tree_optional = FileEntryTree::new(".", TimestampType::CREATED, TreeDepth::YEAR);

    assert_eq!(tree_optional.is_some(), true);
}

#[test]
fn test_add_entry() {
    let mut tree = FileEntryTree::new(".", TimestampType::CREATED, TreeDepth::YEAR).unwrap();

    tree.add_entry(FileEntry { year: 2017, month: 7, day: 1, file_name: String::from("main.rs") });

    // the count is of inserted entries: one insertion, a size of one
    assert_eq!(tree.size(), 1);
}
