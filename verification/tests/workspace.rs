use writerm::workspace::{
    arrange, entry_rank, is_text_less, list_by_key, pick_default_markdown_file,
    sort_writerm_entries, EntryKey, WorkspaceEntry, WorkspaceEntryKind,
};

fn entry(name: &str, kind: WorkspaceEntryKind) -> WorkspaceEntry {
    WorkspaceEntry { name: name.to_string(), kind }
}

fn folder() -> Vec<WorkspaceEntry> {
    vec![
        entry("z.txt", WorkspaceEntryKind::File),
        entry("B.md", WorkspaceEntryKind::File),
        entry("a.md", WorkspaceEntryKind::File),
        entry("src", WorkspaceEntryKind::Directory),
        entry("Cargo.toml", WorkspaceEntryKind::File),
        entry("..", WorkspaceEntryKind::Parent),
        entry("b.md", WorkspaceEntryKind::File),
        entry("Docs", WorkspaceEntryKind::Directory),
        entry("Élan.md", WorkspaceEntryKind::File),
        entry("éa.md", WorkspaceEntryKind::File),
    ]
}

fn names(entries: &Vec<WorkspaceEntry>) -> Vec<&str> {
    entries.iter().map(|e| e.name.as_str()).collect()
}

#[test]
fn entries_are_listed_by_group_and_name() {
    let sorted = sort_writerm_entries(folder(), true);
    assert_eq!(
        names(&sorted),
        vec![
            "..", "Docs", "src", "a.md", "B.md", "b.md", "éa.md", "Élan.md", "z.txt", "Cargo.toml"
        ]
    );
    let again = sort_writerm_entries(sorted.clone(), true);
    assert_eq!(names(&again), names(&sorted));
}

#[test]
fn entries_stay_as_they_are_without_markdown_first() {
    let entries = folder();
    let kept = sort_writerm_entries(folder(), false);
    assert_eq!(names(&kept), names(&entries));
}

#[test]
fn groups_are_parent_folders_markdown_text_and_others() {
    assert_eq!(entry_rank(&entry("a.md", WorkspaceEntryKind::Parent)), 0);
    assert_eq!(entry_rank(&entry("a.md", WorkspaceEntryKind::Directory)), 1);
    assert_eq!(entry_rank(&entry("a.MD", WorkspaceEntryKind::File)), 2);
    assert_eq!(entry_rank(&entry("a.text", WorkspaceEntryKind::File)), 3);
    assert_eq!(entry_rank(&entry("md", WorkspaceEntryKind::File)), 4);
}

#[test]
fn texts_are_ordered_as_std_orders_them() {
    let texts = ["", "a", "ab", "b", "B", "é", "日本", "日"];
    for a in texts {
        for b in texts {
            let less = is_text_less(&a.chars().collect(), &b.chars().collect());
            assert_eq!(less, a < b, "{a:?} {b:?}");
        }
    }
}

#[test]
fn listings_are_stable_and_name_each_item_once() {
    let key = |rank, name: &str| EntryKey { rank, name: name.chars().collect() };
    let keys = vec![key(2, "b"), key(1, "z"), key(2, "a"), key(2, "b"), key(1, "z")];
    let order = list_by_key(&keys);
    assert_eq!(order, vec![1, 4, 2, 0, 3]);
    assert_eq!(list_by_key(&Vec::new()), Vec::<usize>::new());
    let entries = folder();
    assert_eq!(names(&arrange(&entries, &vec![2, 0, 2])), vec!["a.md", "z.txt", "a.md"]);
}

#[test]
fn the_first_file_is_the_index_the_readme_or_the_first_markdown() {
    let pick = |names: &[&str]| {
        let names: Vec<String> = names.iter().map(|n| n.to_string()).collect();
        pick_default_markdown_file(&names)
    };
    assert_eq!(pick(&["readme.md", "README.md"]), Some("README.md".to_string()));
    assert_eq!(pick(&["a.md", "readme.md"]), Some("readme.md".to_string()));
    assert_eq!(pick(&["b.md", "a.txt", "C.md"]), Some("C.md".to_string()));
    assert_eq!(pick(&["a.txt", "index.txt"]), None);
    assert_eq!(pick(&[]), None);
}
