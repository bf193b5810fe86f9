//! The file browser: how entries are ordered, and which file is opened first.

use crate::paths::{
    is_markdown_name, is_markdown_path, is_plain_text_name, markdown_path, text_path,
};
use crate::text::{group_views, same_text, to_chars, views};
use vstd::prelude::*;

verus! {

broadcast use group_views;

/// What a workspace entry is.
#[derive(Debug, Clone, Copy, PartialEq, Eq, Structural)]
pub enum WorkspaceEntryKind {
    Parent,
    Directory,
    File,
}

/// An entry of the file browser.
#[derive(Debug, Clone)]
pub struct WorkspaceEntry {
    pub name: String,
    pub kind: WorkspaceEntryKind,
}

/// What a [`WorkspaceEntry`] holds.
pub struct EntryModel {
    pub name: Seq<char>,
    pub kind: WorkspaceEntryKind,
}

impl View for WorkspaceEntry {
    type V = EntryModel;

    open spec fn view(&self) -> EntryModel {
        EntryModel { name: self.name@, kind: self.kind }
    }
}

impl WorkspaceEntry {
    /// A copy of this entry.
    pub fn copied(&self) -> (entry: WorkspaceEntry)
        ensures
            entry@ == self@,
    {
        WorkspaceEntry { name: self.name.clone(), kind: self.kind }
    }
}

/// The group that an entry is listed in: the parent directory, directories,
/// Markdown files, plain text files, other files.
pub open spec fn rank(entry: EntryModel) -> u8 {
    match entry.kind {
        WorkspaceEntryKind::Parent => 0,
        WorkspaceEntryKind::Directory => 1,
        WorkspaceEntryKind::File => if markdown_path(entry.name) {
            2
        } else if text_path(entry.name) {
            3
        } else {
            4
        },
    }
}

/// The group that an entry is listed in.
pub fn entry_rank(entry: &WorkspaceEntry) -> (r: u8)
    ensures
        r == rank(entry@),
{
    match entry.kind {
        WorkspaceEntryKind::Parent => 0,
        WorkspaceEntryKind::Directory => 1,
        WorkspaceEntryKind::File => if is_markdown_name(entry.name.as_str()) {
            2
        } else if is_plain_text_name(entry.name.as_str()) {
            3
        } else {
            4
        },
    }
}

// ---------------------------------------------------------------------------
// Order of texts
// ---------------------------------------------------------------------------
/// Text `a` comes before text `b` in the order of their characters.
pub open spec fn text_less(a: Seq<char>, b: Seq<char>) -> bool
    decreases a.len(),
{
    if b.len() == 0 {
        false
    } else if a.len() == 0 {
        true
    } else if a[0] != b[0] {
        a[0] < b[0]
    } else {
        text_less(a.skip(1), b.skip(1))
    }
}

pub proof fn lemma_text_less_irreflexive(a: Seq<char>)
    ensures
        !text_less(a, a),
    decreases a.len(),
{
    if a.len() > 0 {
        lemma_text_less_irreflexive(a.skip(1));
    }
}

pub proof fn lemma_text_less_total(a: Seq<char>, b: Seq<char>)
    ensures
        text_less(a, b) || text_less(b, a) || a == b,
    decreases a.len(),
{
    if a.len() == 0 || b.len() == 0 {
        if a.len() == 0 && b.len() == 0 {
            assert(a =~= b);
        }
    } else if a[0] == b[0] {
        lemma_text_less_total(a.skip(1), b.skip(1));
        if a.skip(1) == b.skip(1) {
            assert(a =~= seq![a[0]] + a.skip(1));
            assert(b =~= seq![b[0]] + b.skip(1));
        }
    }
}

pub proof fn lemma_text_less_transitive(a: Seq<char>, b: Seq<char>, c: Seq<char>)
    requires
        text_less(a, b),
        text_less(b, c),
    ensures
        text_less(a, c),
    decreases a.len(),
{
    if a.len() > 0 && a[0] == b[0] && b[0] == c[0] {
        lemma_text_less_transitive(a.skip(1), b.skip(1), c.skip(1));
    }
}

/// Texts are ordered as in a dictionary: by the first character in which they
/// differ, and what goes on comes behind what has ended.
pub proof fn law_texts_are_ordered_as_in_a_dictionary(
    same: Seq<char>,
    a: char,
    b: char,
    x: Seq<char>,
    y: Seq<char>,
)
    requires
        a < b,
    ensures
        text_less(same + seq![a] + x, same + seq![b] + y),
        !text_less(same + seq![b] + y, same + seq![a] + x),
        text_less(same, same + seq![a] + x),
        !text_less(same + seq![a] + x, same),
    decreases same.len(),
{
    let low = same + seq![a] + x;
    let high = same + seq![b] + y;
    if same.len() == 0 {
        assert(low[0] == a && high[0] == b);
    } else {
        assert(low[0] == same[0] && high[0] == same[0]);
        assert(low.skip(1) =~= same.skip(1) + seq![a] + x);
        assert(high.skip(1) =~= same.skip(1) + seq![b] + y);
        law_texts_are_ordered_as_in_a_dictionary(same.skip(1), a, b, x, y);
    }
}

/// Whether text `a` comes before text `b`.
pub fn is_text_less(a: &Vec<char>, b: &Vec<char>) -> (less: bool)
    ensures
        less == text_less(a@, b@),
{
    let mut i: usize = 0;
    proof {
        assert(a@.skip(0) == a@);
        assert(b@.skip(0) == b@);
    }
    while i < a.len() && i < b.len() && a[i] == b[i]
        invariant
            i <= a@.len(),
            i <= b@.len(),
            text_less(a@, b@) == text_less(a@.skip(i as int), b@.skip(i as int)),
        decreases a@.len() - i,
    {
        proof {
            assert(a@.skip(i as int).skip(1) == a@.skip(i + 1));
            assert(b@.skip(i as int).skip(1) == b@.skip(i + 1));
        }
        i = i + 1;
    }
    if i >= b.len() {
        false
    } else if i >= a.len() {
        true
    } else {
        a[i] < b[i]
    }
}

// ---------------------------------------------------------------------------
// Order of entries
// ---------------------------------------------------------------------------
/// What an entry is ordered by: its group, then its name in lower case.
#[derive(Debug)]
pub struct EntryKey {
    pub rank: u8,
    pub name: Vec<char>,
}

/// What an [`EntryKey`] holds.
pub struct KeyModel {
    pub rank: u8,
    pub name: Seq<char>,
}

impl View for EntryKey {
    type V = KeyModel;

    open spec fn view(&self) -> KeyModel {
        KeyModel { rank: self.rank, name: self.name@ }
    }
}

/// A text in lower case, in the sense of Unicode.
pub uninterp spec fn lowercase(text: Seq<char>) -> Seq<char>;

/// `str::to_lowercase`: the text in lower case, as the Unicode property
/// `Lowercase` defines it.
pub assume_specification[ str::to_lowercase ](s: &str) -> (lower: String)
    ensures
        lower@ == lowercase(s@),
;

/// What an entry is ordered by.
pub open spec fn key_of(entry: EntryModel) -> KeyModel {
    KeyModel { rank: rank(entry), name: lowercase(entry.name) }
}

/// Key `a` comes before key `b`.
pub open spec fn key_less(a: KeyModel, b: KeyModel) -> bool {
    a.rank < b.rank || (a.rank == b.rank && text_less(a.name, b.name))
}

/// Item `i` is listed before item `j`: its key comes first, or the keys are
/// the same and it stood first.
pub open spec fn listed_before(keys: Seq<KeyModel>, i: int, j: int) -> bool {
    key_less(keys[i], keys[j]) || (keys[i] == keys[j] && i < j)
}

/// `order` lists all items in order: every item once, each before those that
/// it is listed before.
pub open spec fn listing(keys: Seq<KeyModel>, order: Seq<int>) -> bool {
    &&& order.len() == keys.len()
    &&& forall|i: int| 0 <= i < order.len() ==> 0 <= #[trigger] order[i] < keys.len()
    &&& forall|i: int, j: int|
        0 <= i < j < order.len() ==> listed_before(keys, #[trigger] order[i], #[trigger] order[j])
}

proof fn lemma_listed_before_transitive(keys: Seq<KeyModel>, i: int, j: int, k: int)
    requires
        listed_before(keys, i, j),
        listed_before(keys, j, k),
    ensures
        listed_before(keys, i, k),
{
    let (a, b, c) = (keys[i], keys[j], keys[k]);
    if a.rank == b.rank && b.rank == c.rank && text_less(a.name, b.name) && text_less(
        b.name,
        c.name,
    ) {
        lemma_text_less_transitive(a.name, b.name, c.name);
    }
}

proof fn lemma_listed_before_total(keys: Seq<KeyModel>, i: int, j: int)
    requires
        i != j,
    ensures
        listed_before(keys, i, j) || listed_before(keys, j, i),
{
    lemma_text_less_total(keys[i].name, keys[j].name);
}

/// No item is listed before itself, so a listing names no item twice.
pub proof fn law_listings_name_each_item_once(keys: Seq<KeyModel>, order: Seq<int>, i: int, j: int)
    requires
        listing(keys, order),
        0 <= i < j < order.len(),
    ensures
        order[i] != order[j],
{
    lemma_text_less_irreflexive(keys[order[i]].name);
    assert(listed_before(keys, order[i], order[j]));
}

/// There is only one listing.
pub proof fn law_listings_are_unique(keys: Seq<KeyModel>, a: Seq<int>, b: Seq<int>)
    requires
        listing(keys, a),
        listing(keys, b),
    ensures
        a == b,
{
    lemma_listings_agree(keys, a, b, a.len() as int);
    assert(a =~= b);
}

proof fn lemma_listings_agree(keys: Seq<KeyModel>, a: Seq<int>, b: Seq<int>, n: int)
    requires
        listing(keys, a),
        listing(keys, b),
        0 <= n <= a.len(),
    ensures
        forall|i: int| 0 <= i < n ==> a[i] == b[i],
    decreases n,
{
    if n > 0 {
        lemma_listings_agree(keys, a, b, n - 1);
        let k = n - 1;
        let p = lemma_listing_names(keys, b, a[k]);
        let q = lemma_listing_names(keys, a, b[k]);
        if p < k {
            assert(a[p] == b[p]);
            law_listings_name_each_item_once(keys, a, p, k);
        } else if q < k {
            assert(a[q] == b[q]);
            law_listings_name_each_item_once(keys, b, q, k);
        } else if p > k && q > k {
            assert(listed_before(keys, b[k], b[p]));
            assert(listed_before(keys, a[k], a[q]));
            lemma_text_less_irreflexive(keys[a[k]].name);
            lemma_listed_before_transitive(keys, a[k], b[k], a[k]);
        }
    }
}

/// A listing names every item: where it names `item`.
proof fn lemma_listing_names(keys: Seq<KeyModel>, order: Seq<int>, item: int) -> (at: int)
    requires
        listing(keys, order),
        0 <= item < keys.len(),
    ensures
        0 <= at < order.len(),
        order[at] == item,
{
    let names = order.to_set();
    let all = vstd::set_lib::set_int_range(0, keys.len() as int);
    assert(order.no_duplicates()) by {
        assert forall|i: int, j: int| 0 <= i < j < order.len() implies order[i] != order[j] by {
            law_listings_name_each_item_once(keys, order, i, j);
        }
    }
    order.unique_seq_to_set();
    vstd::set_lib::lemma_int_range(0, keys.len() as int);
    assert(names.subset_of(all));
    vstd::set_lib::lemma_subset_equality(names, all);
    assert(names.contains(item));
    choose|at: int| 0 <= at < order.len() && order[at] == item
}

/// Indices as mathematical integers.
pub open spec fn ints(indices: Seq<usize>) -> Seq<int> {
    Seq::new(indices.len(), |i: int| indices[i] as int)
}

fn is_key_less(a: &EntryKey, b: &EntryKey) -> (less: bool)
    ensures
        less == key_less(a@, b@),
{
    a.rank < b.rank || (a.rank == b.rank && is_text_less(&a.name, &b.name))
}

/// Lists items by their keys; items with the same key keep their order.
pub fn list_by_key(keys: &Vec<EntryKey>) -> (order: Vec<usize>)
    ensures
        listing(views(keys@), ints(order@)),
{
    let ghost all = views(keys@);
    let mut order: Vec<usize> = Vec::new();
    let mut k: usize = 0;
    while k < keys.len()
        invariant
            k <= keys@.len(),
            all == views(keys@),
            order@.len() == k,
            forall|i: int| 0 <= i < k ==> #[trigger] order@[i] < k,
            forall|i: int, j: int|
                0 <= i < j < k ==> listed_before(
                    all,
                    (#[trigger] order@[i]) as int,
                    (#[trigger] order@[j]) as int,
                ),
        decreases keys@.len() - k,
    {
        let mut at: usize = k;
        while at > 0 && is_key_less(&keys[k], &keys[order[at - 1]])
            invariant
                at <= k < keys@.len(),
                all == views(keys@),
                order@.len() == k,
                forall|i: int| 0 <= i < k ==> #[trigger] order@[i] < k,
                forall|i: int|
                    at <= i < k ==> key_less(all[k as int], all[#[trigger] order@[i] as int]),
            decreases at,
        {
            at = at - 1;
        }
        let ghost before = order@;
        proof {
            if at > 0 {
                let p = before[at - 1] as int;
                lemma_listed_before_total(all, p, k as int);
                assert(listed_before(all, p, k as int));
                assert forall|i: int| 0 <= i < at implies listed_before(
                    all,
                    (#[trigger] before[i]) as int,
                    k as int,
                ) by {
                    if i < at - 1 {
                        lemma_listed_before_transitive(all, before[i] as int, p, k as int);
                    }
                }
            }
        }
        order.insert(at, k);
        proof {
            assert forall|i: int, j: int| 0 <= i < j < k + 1 implies listed_before(
                all,
                (#[trigger] order@[i]) as int,
                (#[trigger] order@[j]) as int,
            ) by {
                if i < at {
                    assert(order@[i] == before[i]);
                    if j > at {
                        assert(order@[j] == before[j - 1]);
                    } else if j < at {
                        assert(order@[j] == before[j]);
                    }
                } else {
                    assert(order@[j] == before[j - 1]);
                    if i > at {
                        assert(order@[i] == before[i - 1]);
                    }
                }
            }
            assert forall|i: int| 0 <= i < k + 1 implies #[trigger] order@[i] < k + 1 by {
                if i < at {
                    assert(order@[i] == before[i]);
                } else if i > at {
                    assert(order@[i] == before[i - 1]);
                }
            }
        }
        k = k + 1;
    }
    order
}

/// The keys of some entries.
pub open spec fn keys_of(entries: Seq<EntryModel>) -> Seq<KeyModel> {
    Seq::new(entries.len(), |i: int| key_of(entries[i]))
}

/// `sorted` are the entries in the order of a listing.
pub open spec fn arranged(
    entries: Seq<EntryModel>,
    order: Seq<int>,
    sorted: Seq<EntryModel>,
) -> bool {
    &&& sorted.len() == order.len()
    &&& forall|i: int| 0 <= i < sorted.len() ==> #[trigger] sorted[i] == entries[order[i]]
}

/// `sorted` are the entries as the file browser lists them: by group and name,
/// or as they were.
pub open spec fn browser_order(
    entries: Seq<EntryModel>,
    markdown_first: bool,
    sorted: Seq<EntryModel>,
) -> bool {
    if markdown_first {
        exists|order: Seq<int>| #[trigger]
            listing(keys_of(entries), order) && arranged(entries, order, sorted)
    } else {
        sorted == entries
    }
}

/// Orders entries by group and name, where `markdown_first` says so; entries
/// that are alike keep their order.
pub fn sort_writerm_entries(entries: Vec<WorkspaceEntry>, markdown_first: bool) -> (sorted: Vec<
    WorkspaceEntry,
>)
    ensures
        browser_order(views(entries@), markdown_first, views(sorted@)),
{
    if !markdown_first {
        return entries;
    }
    let ghost all = views(entries@);
    let mut keys: Vec<EntryKey> = Vec::new();
    let mut i: usize = 0;
    while i < entries.len()
        invariant
            i <= entries@.len(),
            all == views(entries@),
            views(keys@) == keys_of(all).take(i as int),
        decreases entries@.len() - i,
    {
        let entry = &entries[i];
        let lower = entry.name.as_str().to_lowercase();
        keys.push(EntryKey { rank: entry_rank(entry), name: to_chars(lower.as_str()) });
        proof {
            assert(keys_of(all).take(i + 1) =~= keys_of(all).take(i as int).push(
                key_of(all[i as int]),
            ));
        }
        i = i + 1;
    }
    proof {
        assert(keys_of(all).take(i as int) =~= keys_of(all));
    }
    let order = list_by_key(&keys);
    proof {
        assert forall|k: int| 0 <= k < order@.len() implies #[trigger] order@[k] < entries@.len() by {
            assert(0 <= ints(order@)[k] < keys_of(all).len());
        }
    }
    arrange(&entries, &order)
}

/// The entries in the order of `order`.
pub fn arrange(entries: &Vec<WorkspaceEntry>, order: &Vec<usize>) -> (sorted: Vec<WorkspaceEntry>)
    requires
        forall|i: int| 0 <= i < order@.len() ==> #[trigger] order@[i] < entries@.len(),
    ensures
        arranged(views(entries@), ints(order@), views(sorted@)),
{
    let mut sorted: Vec<WorkspaceEntry> = Vec::new();
    let mut i: usize = 0;
    while i < order.len()
        invariant
            i <= order@.len(),
            sorted@.len() == i,
            forall|k: int| 0 <= k < order@.len() ==> #[trigger] order@[k] < entries@.len(),
            forall|k: int|
                0 <= k < i ==> (#[trigger] sorted@[k])@ == entries@[order@[k] as int]@,
        decreases order@.len() - i,
    {
        let entry = entries[order[i]].copied();
        sorted.push(entry);
        i = i + 1;
    }
    sorted
}

/// A file that is Markdown.
pub open spec fn markdown_file(entry: EntryModel) -> bool {
    entry.kind == WorkspaceEntryKind::File && markdown_path(entry.name)
}

/// A file that is plain text, and no Markdown.
pub open spec fn text_file(entry: EntryModel) -> bool {
    entry.kind == WorkspaceEntryKind::File && text_path(entry.name) && !markdown_path(entry.name)
}

/// The file browser lists the parent directory before all else, directories
/// before files, Markdown before other files and plain text before the rest; and
/// what is alike in that by name, without regard to case.
pub proof fn law_browser_lists_groups(
    entries: Seq<EntryModel>,
    sorted: Seq<EntryModel>,
    i: int,
    j: int,
)
    requires
        browser_order(entries, true, sorted),
        0 <= i < j < sorted.len(),
    ensures
        ({
            let (above, below) = (sorted[i], sorted[j]);
            &&& below.kind == WorkspaceEntryKind::Parent ==> above.kind
                == WorkspaceEntryKind::Parent
            &&& below.kind == WorkspaceEntryKind::Directory ==> above.kind
                != WorkspaceEntryKind::File
            &&& markdown_file(below) && above.kind == WorkspaceEntryKind::File ==> markdown_file(
                above,
            )
            &&& text_file(below) && above.kind == WorkspaceEntryKind::File ==> markdown_file(above)
                || text_file(above)
            &&& above.kind == below.kind && (above.kind == WorkspaceEntryKind::File ==> (
            markdown_file(above) == markdown_file(below) && text_file(above) == text_file(below)))
                ==> !text_less(lowercase(below.name), lowercase(above.name))
        }),
{
    let keys = keys_of(entries);
    let order = choose|order: Seq<int>| #[trigger]
        listing(keys, order) && arranged(entries, order, sorted);
    assert(listed_before(keys, order[i], order[j]));
    let (a, b) = (lowercase(sorted[i].name), lowercase(sorted[j].name));
    lemma_text_less_irreflexive(a);
    if text_less(a, b) && text_less(b, a) {
        lemma_text_less_transitive(a, b, a);
    }
}

/// The file browser lists every entry once: where it lists `item`, and no entry
/// besides. Without sorting it lists them as they are.
pub proof fn law_browser_lists_every_entry(
    entries: Seq<EntryModel>,
    markdown_first: bool,
    sorted: Seq<EntryModel>,
    item: int,
) -> (at: int)
    requires
        browser_order(entries, markdown_first, sorted),
        0 <= item < entries.len(),
    ensures
        sorted.len() == entries.len(),
        0 <= at < sorted.len(),
        sorted[at] == entries[item],
        !markdown_first ==> at == item,
{
    if markdown_first {
        let keys = keys_of(entries);
        let order = choose|order: Seq<int>| #[trigger]
            listing(keys, order) && arranged(entries, order, sorted);
        lemma_listing_names(keys, order, item)
    } else {
        item
    }
}

// ---------------------------------------------------------------------------
// The file that is opened first
// ---------------------------------------------------------------------------
/// `name` is the Markdown file among `names` that comes first.
pub open spec fn first_markdown(names: Seq<Seq<char>>, name: Seq<char>) -> bool {
    &&& names.contains(name)
    &&& markdown_path(name)
    &&& forall|i: int|
        0 <= i < names.len() && markdown_path(#[trigger] names[i]) ==> !text_less(names[i], name)
}

/// Some of `names` is a Markdown file.
pub open spec fn some_markdown(names: Seq<Seq<char>>) -> bool {
    exists|i: int| 0 <= i < names.len() && markdown_path(#[trigger] names[i])
}

/// `pick` is the file that is opened first in a folder with files of the given
/// names: its index, its readme, or else the Markdown file that comes first.
pub open spec fn opened_first(names: Seq<Seq<char>>, pick: Option<Seq<char>>) -> bool {
    match pick {
        Some(name) => if names.contains("index.md"@) {
            name == "index.md"@
        } else if names.contains("README.md"@) {
            name == "README.md"@
        } else if names.contains("readme.md"@) {
            name == "readme.md"@
        } else {
            first_markdown(names, name)
        },
        None => {
            &&& !names.contains("index.md"@)
            &&& !names.contains("README.md"@)
            &&& !names.contains("readme.md"@)
            &&& !some_markdown(names)
        },
    }
}

/// The name of an index.
pub open spec fn index_name() -> Seq<char> {
    seq!['i', 'n', 'd', 'e', 'x', '.', 'm', 'd']
}

/// The names of a readme.
pub open spec fn readme_name(name: Seq<char>) -> bool {
    ||| name == seq!['R', 'E', 'A', 'D', 'M', 'E', '.', 'm', 'd']
    ||| name == seq!['r', 'e', 'a', 'd', 'm', 'e', '.', 'm', 'd']
}

/// What is opened first is one of the files. An index goes before a readme, and
/// a readme before all else; among other files it is Markdown, and no Markdown
/// file comes before it. Nothing is opened only where there is no Markdown file.
pub proof fn law_the_index_is_opened_first(names: Seq<Seq<char>>, pick: Option<Seq<char>>, i: int)
    requires
        opened_first(names, pick),
        0 <= i < names.len(),
    ensures
        names[i] == index_name() ==> pick == Some(names[i]),
        readme_name(names[i]) ==> pick is Some && (pick->0 == index_name() || readme_name(pick->0)),
        match pick {
            Some(name) => {
                &&& names.contains(name)
                &&& name == index_name() || readme_name(name) || (markdown_path(name) && (
                markdown_path(names[i]) ==> !text_less(names[i], name)))
            },
            None => !markdown_path(names[i]),
        },
{
    reveal_strlit("index.md");
    reveal_strlit("README.md");
    reveal_strlit("readme.md");
    assert("index.md"@ =~= index_name());
    assert("README.md"@ =~= seq!['R', 'E', 'A', 'D', 'M', 'E', '.', 'm', 'd']);
    assert("readme.md"@ =~= seq!['r', 'e', 'a', 'd', 'm', 'e', '.', 'm', 'd']);
    assert(names.contains(names[i]));
}

fn has_name(names: &Vec<String>, wanted: &str) -> (found: bool)
    ensures
        found == views(names@).contains(wanted@),
{
    let mut i: usize = 0;
    while i < names.len()
        invariant
            i <= names@.len(),
            forall|k: int| 0 <= k < i ==> (#[trigger] views(names@)[k]) != wanted@,
        decreases names@.len() - i,
    {
        if same_text(names[i].as_str(), wanted) {
            proof {
                assert(views(names@)[i as int] == wanted@);
            }
            return true;
        }
        i = i + 1;
    }
    false
}

/// The file that is opened in a folder with files of the given names: its
/// index, its readme, or else the Markdown file that comes first.
pub fn pick_default_markdown_file(names: &Vec<String>) -> (pick: Option<String>)
    ensures
        opened_first(
            views(names@),
            match pick {
                Some(name) => Some(name@),
                None => None,
            },
        ),
{
    if has_name(names, "index.md") {
        return Some("index.md".to_string());
    }
    if has_name(names, "README.md") {
        return Some("README.md".to_string());
    }
    if has_name(names, "readme.md") {
        return Some("readme.md".to_string());
    }
    let ghost all = views(names@);
    let mut best: Option<usize> = None;
    let mut i: usize = 0;
    while i < names.len()
        invariant
            i <= names@.len(),
            all == views(names@),
            match best {
                Some(b) => {
                    &&& b < i
                    &&& markdown_path(all[b as int])
                    &&& forall|k: int|
                        0 <= k < i && markdown_path(#[trigger] all[k]) ==> !text_less(
                            all[k],
                            all[b as int],
                        )
                },
                None => forall|k: int| 0 <= k < i ==> !markdown_path(#[trigger] all[k]),
            },
        decreases names@.len() - i,
    {
        if is_markdown_path(names[i].as_str()) {
            let better = match best {
                Some(b) => is_text_less(
                    &to_chars(names[i].as_str()),
                    &to_chars(names[b].as_str()),
                ),
                None => true,
            };
            proof {
                let new = all[i as int];
                lemma_text_less_irreflexive(new);
                if let Some(b) = best {
                    if better {
                        assert forall|k: int|
                            0 <= k < i + 1 && markdown_path(#[trigger] all[k]) implies !text_less(
                            all[k],
                            new,
                        ) by {
                            if k < i && text_less(all[k], new) {
                                lemma_text_less_transitive(all[k], new, all[b as int]);
                            }
                        }
                    }
                }
            }
            if better {
                best = Some(i);
            }
        }
        i = i + 1;
    }
    match best {
        Some(b) => {
            proof {
                assert(all.contains(all[b as int]));
            }
            Some(names[b].clone())
        },
        None => None,
    }
}

} // verus!
