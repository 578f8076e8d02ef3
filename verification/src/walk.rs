//! Walking a file tree: which paths are still to be visited, and what is to
//! be done with each.
//!
//! The caller looks at the file system and reads from it; what to do next is
//! decided here.

use crate::counts::{count_chars, within_u32, CharCountMap, CounterFull};
use crate::filter::{is_match, regex_is_match};
use regex::Regex;
use vstd::multiset::Multiset;
use vstd::prelude::*;

verus! {

/// What is to be done with a path.
#[derive(Clone, Copy, Debug, PartialEq, Eq, Structural)]
pub enum Action {
    /// Read the file and count its characters.
    Read,
    /// List the directory and visit each of its entries.
    List,
    /// Leave it alone.
    Skip,
}

/// A regular file whose name passes the filter is read; a directory is
/// listed; anything else is left alone, a regular file with another name too.
pub open spec fn action_for(is_file: bool, name_passes: bool, is_dir: bool) -> Action {
    if is_file && name_passes {
        Action::Read
    } else if is_dir {
        Action::List
    } else {
        Action::Skip
    }
}

/// What is to be done with a path, given what the file system says of it and
/// whether its name passes the filter.
pub fn choose_action(is_file: bool, name_passes: bool, is_dir: bool) -> (action: Action)
    ensures
        action == action_for(is_file, name_passes, is_dir),
{
    if is_file && name_passes {
        Action::Read
    } else if is_dir {
        Action::List
    } else {
        Action::Skip
    }
}

/// What is to be done with a path, given what the file system says of it.
/// The name is held against the filter only where the path is a regular file.
pub fn classify(filter: &Regex, is_file: bool, file_name: &str, is_dir: bool) -> (action: Action)
    ensures
        action == action_for(is_file, regex_is_match(*filter, file_name@), is_dir),
{
    let name_passes = is_file && is_match(filter, file_name);
    choose_action(is_file, name_passes, is_dir)
}

/// The paths that are still to be visited.
pub struct Walk<T> {
    /// The next path to visit is the last one.
    stack: Vec<T>,
}

impl<T> View for Walk<T> {
    type V = Seq<T>;

    /// The paths to visit, the next one first.
    closed spec fn view(&self) -> Seq<T> {
        self.stack@.reverse()
    }
}

impl<T> Walk<T> {
    /// A walk that visits `roots` in their order.
    pub fn new(roots: Vec<T>) -> (walk: Self)
        ensures
            walk@ == roots@,
    {
        let mut walk = Walk { stack: Vec::new() };
        walk.descend(roots);
        proof {
            assert(roots@ + Seq::<T>::empty() =~= roots@);
        }
        walk
    }

    /// Hands out the next path to visit, if one is left.
    pub fn next(&mut self) -> (path: Option<T>)
        ensures
            match path {
                Some(p) => old(self)@.len() > 0 && p == old(self)@[0] && final(self)@ == old(
                    self,
                )@.drop_first(),
                None => old(self)@.len() == 0 && final(self)@ == old(self)@,
            },
    {
        let path = self.stack.pop();
        proof {
            assert(self@ =~= if path is Some {
                old(self)@.drop_first()
            } else {
                old(self)@
            });
        }
        path
    }

    /// Puts the entries of a directory in front of what is left to visit, in
    /// their order.
    pub fn descend(&mut self, entries: Vec<T>)
        ensures
            final(self)@ == entries@ + old(self)@,
    {
        let mut entries = entries;
        let ghost listed = entries@;
        while entries.len() > 0
            invariant
                entries@.len() <= listed.len(),
                entries@ == listed.take(entries@.len() as int),
                self@ == listed.skip(entries@.len() as int) + old(self)@,
            decreases entries.len(),
        {
            let ghost before = self@;
            let entry = entries.pop().unwrap();
            self.stack.push(entry);
            proof {
                assert(self@ =~= seq![entry] + before);
                assert(self@ =~= listed.skip(entries@.len() as int) + old(self)@);
            }
        }
        proof {
            assert(listed.skip(0) =~= listed);
        }
    }
}

/// A file tree as a walk meets it, for stating what a walk comes to.
pub enum Node {
    /// A regular file: whether its name passes the filter, and its text,
    /// unless the file cannot be read.
    File { name_passes: bool, content: Option<Seq<char>> },
    /// A directory with its entries.
    Dir { entries: Seq<Node> },
    /// Neither of the two.
    Other,
}

impl Node {
    /// What is to be done with this node.
    pub open spec fn action(self) -> Action {
        action_for(self is File, self is File && self->name_passes, self is Dir)
    }

    /// The entries of a directory; nothing for any other node.
    pub open spec fn listing(self) -> Seq<Node> {
        match self {
            Node::Dir { entries } => entries,
            _ => Seq::empty(),
        }
    }

    /// The characters that reading this node gives: the text of a regular
    /// file that can be read, nothing otherwise.
    pub open spec fn text(self) -> Multiset<char> {
        match self {
            Node::File { content: Some(text), .. } => text.to_multiset(),
            _ => Multiset::empty(),
        }
    }
}

/// How many nodes the trees in `nodes` have between them.
pub open spec fn size(nodes: Seq<Node>) -> nat
    decreases nodes,
{
    if nodes.len() == 0 {
        0
    } else {
        let below = match nodes[0] {
            Node::Dir { entries } => size(entries),
            _ => 0,
        };
        1 + below + size(nodes.drop_first())
    }
}

/// All nodes of the trees in `nodes`: tree after tree, a directory before
/// its entries. Each node stands in this list once.
pub open spec fn preorder(nodes: Seq<Node>) -> Seq<Node>
    decreases nodes,
{
    if nodes.len() == 0 {
        Seq::empty()
    } else {
        let below = match nodes[0] {
            Node::Dir { entries } => preorder(entries),
            _ => Seq::empty(),
        };
        seq![nodes[0]] + below + preorder(nodes.drop_first())
    }
}

/// The characters of all regular files in the trees in `nodes` whose name
/// passes the filter and which can be read, each file taken once.
pub open spec fn texts_of(nodes: Seq<Node>) -> Multiset<char>
    decreases nodes,
{
    if nodes.len() == 0 {
        Multiset::empty()
    } else {
        let first = match nodes[0] {
            Node::File { name_passes: true, content: Some(text) } => text.to_multiset(),
            Node::Dir { entries } => texts_of(entries),
            _ => Multiset::empty(),
        };
        first.add(texts_of(nodes.drop_first()))
    }
}

/// A whole walk over file trees. It starts with `pending` left to visit and
/// `seen` counted, and goes on until nothing is left: it takes the next node
/// as `Walk::next` does, does with it what `action_for` says, counts what is
/// read as `count_chars` does while no count is full, and puts the entries of
/// a listed directory in front as `Walk::descend` does. The result is the
/// nodes in the order in which they were visited, and the characters counted
/// at the end.
pub open spec fn walk(pending: Seq<Node>, seen: Multiset<char>) -> (Seq<Node>, Multiset<char>)
    decreases size(pending),
{
    if pending.len() == 0 {
        (Seq::empty(), seen)
    } else {
        let node = pending[0];
        let rest = pending.drop_first();
        let after = match node.action() {
            Action::Read => walk(rest, seen.add(node.text())),
            Action::List => {
                proof {
                    lemma_size_concat(node.listing(), rest);
                }
                walk(node.listing() + rest, seen)
            },
            Action::Skip => walk(rest, seen),
        };
        (seq![node] + after.0, after.1)
    }
}

/// Trees side by side have as many nodes as they have one by one.
pub proof fn lemma_size_concat(a: Seq<Node>, b: Seq<Node>)
    ensures
        size(a + b) == size(a) + size(b),
    decreases a.len(),
{
    if a.len() == 0 {
        assert(a + b =~= b);
    } else {
        assert((a + b).drop_first() =~= a.drop_first() + b);
        lemma_size_concat(a.drop_first(), b);
    }
}

/// The nodes of trees side by side are the nodes of the first ones, then
/// those of the others.
pub proof fn lemma_preorder_concat(a: Seq<Node>, b: Seq<Node>)
    ensures
        preorder(a + b) == preorder(a) + preorder(b),
    decreases a.len(),
{
    if a.len() == 0 {
        assert(a + b =~= b);
        assert(preorder(a) + preorder(b) =~= preorder(b));
    } else {
        assert((a + b).drop_first() =~= a.drop_first() + b);
        lemma_preorder_concat(a.drop_first(), b);
        let below = match a[0] {
            Node::Dir { entries } => preorder(entries),
            _ => Seq::empty(),
        };
        assert(seq![a[0]] + below + (preorder(a.drop_first()) + preorder(b)) =~= seq![a[0]] + below
            + preorder(a.drop_first()) + preorder(b));
    }
}

/// The texts of trees side by side are the texts of all of them together.
pub proof fn lemma_texts_concat(a: Seq<Node>, b: Seq<Node>)
    ensures
        texts_of(a + b) == texts_of(a).add(texts_of(b)),
    decreases a.len(),
{
    if a.len() == 0 {
        assert(a + b =~= b);
        assert(texts_of(a).add(texts_of(b)) =~= texts_of(b));
    } else {
        assert((a + b).drop_first() =~= a.drop_first() + b);
        lemma_texts_concat(a.drop_first(), b);
        assert(texts_of(a + b) =~= texts_of(a).add(texts_of(b)));
    }
}

/// A walk visits every node of the trees it starts with exactly once, a
/// directory before its entries and the trees in their order, wherever a
/// node lies. At its end it has counted, on top of what was counted before,
/// the characters of every regular file whose name passes the filter and
/// which can be read, each file once. A file that cannot be read adds
/// nothing and does not end the walk.
pub proof fn lemma_walk_visits_each_once(pending: Seq<Node>, seen: Multiset<char>)
    ensures
        walk(pending, seen).0 == preorder(pending),
        walk(pending, seen).1 == seen.add(texts_of(pending)),
    decreases size(pending),
{
    if pending.len() == 0 {
        assert(seen.add(texts_of(pending)) =~= seen);
    } else {
        let node = pending[0];
        let rest = pending.drop_first();
        match node.action() {
            Action::Read => {
                lemma_walk_visits_each_once(rest, seen.add(node.text()));
                assert(seq![node] + Seq::<Node>::empty() + preorder(rest) =~= seq![node] + preorder(
                    rest,
                ));
                assert(seen.add(node.text()).add(texts_of(rest)) =~= seen.add(texts_of(pending)));
            },
            Action::List => {
                lemma_size_concat(node.listing(), rest);
                lemma_preorder_concat(node.listing(), rest);
                lemma_texts_concat(node.listing(), rest);
                lemma_walk_visits_each_once(node.listing() + rest, seen);
                assert(seq![node] + (preorder(node.listing()) + preorder(rest)) =~= preorder(
                    pending,
                ));
                assert(seen.add(texts_of(node.listing()).add(texts_of(rest))) =~= seen.add(
                    texts_of(pending),
                ));
            },
            Action::Skip => {
                lemma_walk_visits_each_once(rest, seen);
                assert(seq![node] + Seq::<Node>::empty() + preorder(rest) =~= seq![node] + preorder(
                    rest,
                ));
                assert(seen.add(texts_of(rest)) =~= seen.add(texts_of(pending)));
            },
        }
    }
}

/// Trees in which no file that is read has any character leave nothing to
/// count: trees without a regular file whose name passes the filter, empty
/// directories, files that cannot be read.
pub proof fn lemma_nothing_to_read(nodes: Seq<Node>)
    requires
        forall|i: int|
            0 <= i < preorder(nodes).len() && (#[trigger] preorder(nodes)[i]).action()
                == Action::Read ==> preorder(nodes)[i].text().len() == 0,
    ensures
        texts_of(nodes) == Multiset::<char>::empty(),
    decreases nodes,
{
    if nodes.len() > 0 {
        let below = match nodes[0] {
            Node::Dir { entries } => preorder(entries),
            _ => Seq::empty(),
        };
        let rest = preorder(nodes.drop_first());
        let all = preorder(nodes);
        assert(all == seq![nodes[0]] + below + rest);
        assert(all[0] == nodes[0]);
        assert forall|i: int| 0 <= i < rest.len() && (#[trigger] rest[i]).action()
            == Action::Read implies rest[i].text().len() == 0 by {
            assert(all[1 + below.len() + i] == rest[i]);
        }
        lemma_nothing_to_read(nodes.drop_first());
        match nodes[0] {
            Node::Dir { entries } => {
                assert forall|i: int| 0 <= i < below.len() && (#[trigger] below[i]).action()
                    == Action::Read implies below[i].text().len() == 0 by {
                    assert(all[1 + i] == below[i]);
                }
                lemma_nothing_to_read(entries);
            },
            _ => {},
        }
        assert(texts_of(nodes) =~= Multiset::<char>::empty());
    }
}

/// A file tree held in memory.
pub enum Entry {
    /// A regular file with its name, and its text unless it cannot be read.
    File { name: String, content: Option<String> },
    /// A directory with its entries.
    Dir { entries: Vec<Entry> },
    /// Neither of the two.
    Other,
}

/// What a walk with this filter meets in `entry`.
pub open spec fn model(entry: Entry, filter: Regex) -> Node
    decreases entry,
{
    match entry {
        Entry::File { name, content } => Node::File {
            name_passes: regex_is_match(filter, name@),
            content: match content {
                Some(text) => Some(text@),
                None => None,
            },
        },
        Entry::Dir { entries } => Node::Dir { entries: models(entries@, filter) },
        Entry::Other => Node::Other,
    }
}

/// What a walk with this filter meets in each of `entries`.
pub open spec fn models(entries: Seq<Entry>, filter: Regex) -> Seq<Node>
    decreases entries,
{
    if entries.len() == 0 {
        Seq::empty()
    } else {
        seq![model(entries[0], filter)] + models(entries.drop_first(), filter)
    }
}

/// Trees side by side are met one after the other.
pub proof fn lemma_models_concat(a: Seq<Entry>, b: Seq<Entry>, filter: Regex)
    ensures
        models(a + b, filter) == models(a, filter) + models(b, filter),
    decreases a.len(),
{
    if a.len() == 0 {
        assert(a + b =~= b);
        assert(models(a, filter) + models(b, filter) =~= models(b, filter));
    } else {
        assert((a + b).drop_first() =~= a.drop_first() + b);
        lemma_models_concat(a.drop_first(), b, filter);
        assert(models(a + b, filter) =~= models(a, filter) + models(b, filter));
    }
}

/// Walks over the trees in `roots` and counts into `count` the characters of
/// every regular file whose name passes the filter and which can be read,
/// each file once, wherever it lies. All of them are counted where every
/// count stays within `u32`; otherwise the walk ends at the first character
/// whose count is full and reports it.
pub fn count_tree(filter: &Regex, count: &mut CharCountMap, roots: Vec<Entry>) -> (r: Result<
    (),
    CounterFull,
>)
    ensures
        r is Ok <==> within_u32(old(count)@, texts_of(models(roots@, *filter))),
        r is Ok ==> final(count)@ == old(count)@.add(texts_of(models(roots@, *filter))),
        r is Ok ==> final(count)@ == walk(models(roots@, *filter), old(count)@).1,
        r matches Err(full) ==> final(count)@.count(full.character) == u32::MAX,
        old(count)@.subset_of(final(count)@),
        final(count)@.subset_of(old(count)@.add(texts_of(models(roots@, *filter)))),
{
    let ghost total = texts_of(models(roots@, *filter));
    let mut pending = Walk::new(roots);
    proof {
        lemma_walk_visits_each_once(models(roots@, *filter), count@);
    }
    loop
        invariant
            total == texts_of(models(roots@, *filter)),
            old(count)@.add(total) == count@.add(texts_of(models(pending@, *filter))),
            old(count)@.add(total) == walk(models(roots@, *filter), old(count)@).1,
            old(count)@.subset_of(count@),
        decreases size(models(pending@, *filter)),
    {
        let ghost before = pending@;
        let ghost counted = count@;
        let entry = match pending.next() {
            Some(entry) => entry,
            None => {
                proof {
                    count.lemma_counts_bounded();
                    assert(count@ =~= old(count)@.add(total));
                    assert forall|c: char|
                        old(count)@.count(c) + #[trigger] total.count(c) <= u32::MAX by {
                        assert(count@.count(c) <= u32::MAX);
                    }
                }
                return Ok(());
            },
        };
        let ghost rest = pending@;
        proof {
            assert(models(before, *filter).drop_first() =~= models(rest, *filter));
            assert(models(before, *filter)[0] == model(entry, *filter));
        }
        match entry {
            Entry::File { name, content } => {
                match classify(filter, true, name.as_str(), false) {
                    Action::Read => {
                        match content {
                            Some(text) => {
                                match count_chars(count, text.as_str()) {
                                    Ok(_) => {
                                        proof {
                                            assert(old(count)@.add(total) =~= count@.add(
                                                texts_of(models(rest, *filter)),
                                            ));
                                        }
                                    },
                                    Err(full) => {
                                        proof {
                                            let c = choose|c: char|
                                                counted.count(c) + #[trigger] text@.to_multiset().count(
                                                    c,
                                                ) > u32::MAX;
                                            assert(old(count)@.add(total).count(c) == counted.add(
                                                texts_of(models(before, *filter)),
                                            ).count(c));
                                            assert(old(count)@.count(c) + total.count(c) > u32::MAX);
                                            let k = crate::counts::room_for(counted, text@) as int;
                                            assert(text@ =~= text@.take(k) + text@.skip(k));
                                            vstd::seq_lib::lemma_multiset_commutative(
                                                text@.take(k),
                                                text@.skip(k),
                                            );
                                        }
                                        return Err(full);
                                    },
                                }
                            },
                            None => {},
                        }
                    },
                    _ => {},
                }
            },
            Entry::Dir { entries } => {
                proof {
                    lemma_models_concat(entries@, rest, *filter);
                    lemma_texts_concat(models(entries@, *filter), models(rest, *filter));
                    lemma_size_concat(models(entries@, *filter), models(rest, *filter));
                }
                pending.descend(entries);
            },
            Entry::Other => {},
        }
    }
}

} // verus!
