use keyboard_remap::cost::{calc_cost, ORIGIN_2_KEY_CHARS};
use keyboard_remap::counts::{count_chars, CharCountMap, CounterFull};
use keyboard_remap::filter::file_name_filter;
use keyboard_remap::walk::{choose_action, classify, count_tree, Action, Walk};

/// A file tree held in memory, to walk over.
enum Entry {
    File {
        name: &'static str,
        content: Option<&'static str>,
    },
    Dir {
        name: &'static str,
        entries: Vec<Entry>,
    },
    Other {
        name: &'static str,
    },
}

impl Entry {
    fn name(&self) -> &'static str {
        match self {
            Entry::File { name, .. } => name,
            Entry::Dir { name, .. } => name,
            Entry::Other { name } => name,
        }
    }
}

fn file(name: &'static str, content: &'static str) -> Entry {
    Entry::File {
        name,
        content: Some(content),
    }
}

fn unreadable(name: &'static str) -> Entry {
    Entry::File {
        name,
        content: None,
    }
}

fn dir(name: &'static str, entries: Vec<Entry>) -> Entry {
    Entry::Dir { name, entries }
}

/// Walks over `roots` as a program would over a file system, and gives the
/// names in the order visited, the names of the files read, and the counts.
fn walk_over(roots: &[Entry], pattern: Option<&str>) -> (Vec<&'static str>, Vec<&'static str>, CharCountMap) {
    let filter = file_name_filter(pattern).ok().unwrap();
    let mut count = CharCountMap::new();
    let mut visited = Vec::new();
    let mut read = Vec::new();
    let mut walk = Walk::new(roots.iter().collect::<Vec<&Entry>>());
    while let Some(entry) = walk.next() {
        visited.push(entry.name());
        let is_file = matches!(entry, Entry::File { .. });
        let is_dir = matches!(entry, Entry::Dir { .. });
        match classify(&filter, is_file, entry.name(), is_dir) {
            Action::Read => {
                read.push(entry.name());
                if let Entry::File {
                    content: Some(text),
                    ..
                } = entry
                {
                    assert_eq!(count_chars(&mut count, text), Ok(()));
                }
            }
            Action::List => {
                if let Entry::Dir { entries, .. } = entry {
                    walk.descend(entries.iter().collect());
                }
            }
            Action::Skip => {}
        }
    }
    (visited, read, count)
}

#[test]
fn choose_action_follows_the_three_cases() {
    assert_eq!(choose_action(true, true, false), Action::Read);
    assert_eq!(choose_action(true, true, true), Action::Read);
    assert_eq!(choose_action(true, false, false), Action::Skip);
    assert_eq!(choose_action(true, false, true), Action::List);
    assert_eq!(choose_action(false, true, true), Action::List);
    assert_eq!(choose_action(false, false, true), Action::List);
    assert_eq!(choose_action(false, true, false), Action::Skip);
    assert_eq!(choose_action(false, false, false), Action::Skip);
}

#[test]
fn classify_reads_files_whose_name_passes() {
    let filter = file_name_filter(None).ok().unwrap();
    assert_eq!(classify(&filter, true, "A.java", false), Action::Read);
    assert_eq!(classify(&filter, true, "A.txt", false), Action::Skip);
    assert_eq!(classify(&filter, false, "src", true), Action::List);
    // A directory is listed whatever its name is.
    assert_eq!(classify(&filter, false, "old.java", true), Action::List);
    assert_eq!(classify(&filter, false, "A.java", false), Action::Skip);
    assert_eq!(classify(&filter, false, "", false), Action::Skip);
}

#[test]
fn classify_goes_by_the_filter_given() {
    let filter = file_name_filter(Some("^notes")).ok().unwrap();
    assert_eq!(classify(&filter, true, "notes.txt", false), Action::Read);
    assert_eq!(classify(&filter, true, "A.java", false), Action::Skip);
}

#[test]
fn walk_hands_out_roots_in_order() {
    let mut walk = Walk::new(vec!["a", "b", "c"]);
    assert_eq!(walk.next(), Some("a"));
    assert_eq!(walk.next(), Some("b"));
    assert_eq!(walk.next(), Some("c"));
    assert_eq!(walk.next(), None);
    assert_eq!(walk.next(), None);
}

#[test]
fn walk_without_roots_is_over_at_once() {
    let mut walk: Walk<String> = Walk::new(Vec::new());
    assert_eq!(walk.next(), None);
}

#[test]
fn descend_puts_entries_in_front() {
    let mut walk = Walk::new(vec![1, 2]);
    assert_eq!(walk.next(), Some(1));
    walk.descend(vec![10, 11, 12]);
    assert_eq!(walk.next(), Some(10));
    walk.descend(vec![100]);
    walk.descend(Vec::new());
    assert_eq!(walk.next(), Some(100));
    assert_eq!(walk.next(), Some(11));
    assert_eq!(walk.next(), Some(12));
    assert_eq!(walk.next(), Some(2));
    assert_eq!(walk.next(), None);
}

#[test]
fn traversal_visits_every_file_once() {
    let roots = vec![
        dir(
            "src",
            vec![
                file("A.java", "(a)"),
                dir(
                    "deep",
                    vec![
                        dir("deeper", vec![file("B.java", "{b}")]),
                        file("notes.txt", "((((((("),
                        dir("empty", vec![]),
                    ],
                ),
                Entry::Other { name: "socket" },
                file("C.java", "c_c"),
            ],
        ),
        file("D.java", "@"),
        file("README", "(){}"),
    ];
    let (visited, read, count) = walk_over(&roots, None);
    assert_eq!(
        visited,
        vec![
            "src",
            "A.java",
            "deep",
            "deeper",
            "B.java",
            "notes.txt",
            "empty",
            "socket",
            "C.java",
            "D.java",
            "README"
        ]
    );
    assert_eq!(read, vec!["A.java", "B.java", "C.java", "D.java"]);
    let mut entries = count.entries();
    entries.sort();
    assert_eq!(
        entries,
        vec![
            ('(', 1),
            (')', 1),
            ('@', 1),
            ('_', 1),
            ('a', 1),
            ('b', 1),
            ('c', 2),
            ('{', 1),
            ('}', 1)
        ]
    );
    assert_eq!(calc_cost(ORIGIN_2_KEY_CHARS, &count), 10 + 6);
}

#[test]
fn unreadable_file_is_skipped_and_the_walk_goes_on() {
    let roots = vec![dir(
        "src",
        vec![
            file("A.java", "aa"),
            unreadable("Locked.java"),
            file("B.java", "bb"),
        ],
    )];
    let (visited, read, count) = walk_over(&roots, None);
    assert_eq!(visited, vec!["src", "A.java", "Locked.java", "B.java"]);
    assert_eq!(read, vec!["A.java", "Locked.java", "B.java"]);
    let mut entries = count.entries();
    entries.sort();
    assert_eq!(entries, vec![('a', 2), ('b', 2)]);
}

#[test]
fn traversal_of_nothing_counts_nothing() {
    let (visited, read, count) = walk_over(&[], None);
    assert!(visited.is_empty());
    assert!(read.is_empty());
    assert!(count.entries().is_empty());
}

#[test]
fn traversal_reads_what_the_pattern_selects() {
    let roots = vec![dir(
        "d",
        vec![file("x.rs", "fn"), file("y.java", "class"), file("z.rs", "()")],
    )];
    let (_, read, count) = walk_over(&roots, Some("[.]rs$"));
    assert_eq!(read, vec!["x.rs", "z.rs"]);
    assert_eq!(count.get('f'), 1);
    assert_eq!(count.get('c'), 0);
    assert_eq!(calc_cost(ORIGIN_2_KEY_CHARS, &count), 2 + 4);
}

fn text_file(name: &str, content: &str) -> keyboard_remap::walk::Entry {
    keyboard_remap::walk::Entry::File {
        name: name.to_string(),
        content: Some(content.to_string()),
    }
}

fn locked_file(name: &str) -> keyboard_remap::walk::Entry {
    keyboard_remap::walk::Entry::File {
        name: name.to_string(),
        content: None,
    }
}

fn folder(entries: Vec<keyboard_remap::walk::Entry>) -> keyboard_remap::walk::Entry {
    keyboard_remap::walk::Entry::Dir { entries }
}

#[test]
fn count_tree_counts_every_matching_file_once() {
    let filter = file_name_filter(None).ok().unwrap();
    let roots = vec![
        folder(vec![
            text_file("A.java", "(a)"),
            folder(vec![
                folder(vec![text_file("B.java", "{b}")]),
                text_file("notes.txt", "((((((("),
                folder(vec![]),
            ]),
            keyboard_remap::walk::Entry::Other,
            text_file("C.java", "c_c"),
        ]),
        text_file("D.java", "@"),
        text_file("README", "(){}"),
    ];
    let mut count = CharCountMap::new();
    assert!(count.add('a', 4));
    assert_eq!(count_tree(&filter, &mut count, roots), Ok(()));
    let mut entries = count.entries();
    entries.sort();
    assert_eq!(
        entries,
        vec![
            ('(', 1),
            (')', 1),
            ('@', 1),
            ('_', 1),
            ('a', 5),
            ('b', 1),
            ('c', 2),
            ('{', 1),
            ('}', 1)
        ]
    );
}

#[test]
fn count_tree_with_nothing_to_read_leaves_the_count_empty() {
    let filter = file_name_filter(None).ok().unwrap();
    let mut count = CharCountMap::new();
    assert_eq!(count_tree(&filter, &mut count, Vec::new()), Ok(()));
    assert!(count.entries().is_empty());
    assert_eq!(count_tree(&filter, &mut count, vec![folder(vec![])]), Ok(()));
    assert!(count.entries().is_empty());
    let roots = vec![folder(vec![
        folder(vec![text_file("notes.txt", "text")]),
        text_file("Empty.java", ""),
        locked_file("Locked.java"),
        keyboard_remap::walk::Entry::Other,
    ])];
    assert_eq!(count_tree(&filter, &mut count, roots), Ok(()));
    assert!(count.entries().is_empty());
    assert_eq!(calc_cost(ORIGIN_2_KEY_CHARS, &count), 0);
}

#[test]
fn count_tree_skips_an_unreadable_file_and_goes_on() {
    let filter = file_name_filter(None).ok().unwrap();
    let mut count = CharCountMap::new();
    assert!(count.add('z', 1));
    assert_eq!(
        count_tree(&filter, &mut count, vec![locked_file("Locked.java")]),
        Ok(())
    );
    let roots = vec![
        text_file("A.java", "aa"),
        locked_file("Locked.java"),
        text_file("B.java", "bb"),
    ];
    assert_eq!(count_tree(&filter, &mut count, roots), Ok(()));
    let mut entries = count.entries();
    entries.sort();
    assert_eq!(entries, vec![('a', 2), ('b', 2), ('z', 1)]);
}

#[test]
fn count_tree_stops_at_a_full_counter() {
    let filter = file_name_filter(None).ok().unwrap();
    let mut count = CharCountMap::new();
    assert!(count.add('b', u32::MAX - 1));
    let roots = vec![
        folder(vec![text_file("A.java", "ab")]),
        text_file("B.java", "cbd"),
        text_file("C.java", "e"),
    ];
    assert_eq!(
        count_tree(&filter, &mut count, roots),
        Err(CounterFull { character: 'b' })
    );
    let mut entries = count.entries();
    entries.sort();
    assert_eq!(entries, vec![('a', 1), ('b', u32::MAX), ('c', 1)]);
}
