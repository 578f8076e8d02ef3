//! The character frequency map.

use std::collections::HashMap;
use vstd::multiset::Multiset;
use vstd::prelude::*;
use vstd::std_specs::hash::{axiom_spec_hash_map_iter, spec_hash_map_iter};
use vstd::std_specs::iter::IteratorSpec;

verus! {

/// `n` copies of the character `c`.
pub open spec fn copies(c: char, n: nat) -> Multiset<char>
    decreases n,
{
    if n == 0 {
        Multiset::empty()
    } else {
        copies(c, (n - 1) as nat).insert(c)
    }
}

/// The characters that a list of (character, count) entries stands for.
pub open spec fn spelled_out(entries: Seq<(char, u32)>) -> Multiset<char>
    decreases entries.len(),
{
    if entries.len() == 0 {
        Multiset::empty()
    } else {
        spelled_out(entries.drop_last()).add(copies(entries.last().0, entries.last().1 as nat))
    }
}

/// No character has two entries.
pub open spec fn one_entry_each(entries: Seq<(char, u32)>) -> bool {
    forall|i: int, j: int|
        0 <= i < j < entries.len() ==> (#[trigger] entries[i]).0 != (#[trigger] entries[j]).0
}

/// `copies(c, n)` holds `c` exactly `n` times and nothing else.
pub proof fn lemma_copies(c: char, n: nat)
    ensures
        copies(c, n).count(c) == n,
        forall|d: char| d != c ==> copies(c, n).count(d) == 0,
        copies(c, n).len() == n,
    decreases n,
{
    if n > 0 {
        lemma_copies(c, (n - 1) as nat);
    }
}

/// An entry's character occurs in what the list stands for as often as the
/// entry says, where no character has two entries.
pub proof fn lemma_spelled_out_entry(entries: Seq<(char, u32)>, i: int)
    requires
        one_entry_each(entries),
        0 <= i < entries.len(),
    ensures
        spelled_out(entries).count(entries[i].0) == entries[i].1,
    decreases entries.len(),
{
    let front = entries.drop_last();
    let last = entries.last();
    lemma_copies(last.0, last.1 as nat);
    assert forall|j: int| 0 <= j < front.len() implies #[trigger] front[j] == entries[j] by {}
    if i == entries.len() - 1 {
        assert forall|j: int| 0 <= j < front.len() implies (#[trigger] front[j]).0 != last.0 by {
            assert(front[j] == entries[j]);
        }
        lemma_spelled_out_absent(front, last.0);
    } else {
        assert(front[i] == entries[i]);
        lemma_spelled_out_entry(front, i);
    }
}

/// A character without an entry does not occur in what the list stands for.
pub proof fn lemma_spelled_out_absent(entries: Seq<(char, u32)>, c: char)
    requires
        forall|i: int| 0 <= i < entries.len() ==> (#[trigger] entries[i]).0 != c,
    ensures
        spelled_out(entries).count(c) == 0,
    decreases entries.len(),
{
    if entries.len() > 0 {
        let front = entries.drop_last();
        let last = entries.last();
        lemma_copies(last.0, last.1 as nat);
        assert forall|j: int| 0 <= j < front.len() implies (#[trigger] front[j]).0 != c by {
            assert(front[j] == entries[j]);
        }
        lemma_spelled_out_absent(front, c);
    }
}

/// How often each character has been seen.
pub struct CharCountMap {
    /// Keyed by code point; a slot holds the character itself and its count.
    slots: HashMap<u32, (char, u32)>,
}

impl View for CharCountMap {
    type V = Multiset<char>;

    /// The characters seen, each as often as it was counted.
    closed spec fn view(&self) -> Multiset<char> {
        Multiset::from_map(self.tally())
    }
}

impl CharCountMap {
    /// The count of every character that has a slot.
    closed spec fn tally(&self) -> Map<char, nat> {
        Map::new(
            |c: char| self.slots@.contains_key(c as u32),
            |c: char| self.slots@[c as u32].1 as nat,
        )
    }

    #[verifier::type_invariant]
    closed spec fn well_formed(&self) -> bool {
        forall|k: u32| #[trigger]
            self.slots@.contains_key(k) ==> self.slots@[k].0 as u32 == k && self.slots@[k].1 >= 1
    }

    /// An empty map: nothing has been seen.
    pub fn new() -> (count: Self)
        ensures
            count@ == Multiset::<char>::empty(),
    {
        let count = CharCountMap { slots: HashMap::new() };
        proof {
            assert(count.tally() =~= Map::<char, nat>::empty());
            assert(count@ =~= Multiset::<char>::empty());
        }
        count
    }

    /// How often `c` has been seen.
    pub fn get(&self, c: char) -> (n: u32)
        ensures
            n == self@.count(c),
    {
        proof {
            self.lemma_tally_finite();
        }
        let key: u32 = c as u32;
        match self.slots.get(&key) {
            Some(slot) => slot.1,
            None => 0,
        }
    }

    /// Records `times` more occurrences of `c`, unless its count would pass
    /// `u32::MAX`; the map is then left as it was.
    pub fn add(&mut self, c: char, times: u32) -> (added: bool)
        ensures
            added == (old(self)@.count(c) + times <= u32::MAX),
            added ==> final(self)@ == old(self)@.add(copies(c, times as nat)),
            !added ==> final(self)@ == old(self)@,
    {
        let seen: u32 = self.get(c);
        if times > u32::MAX - seen {
            return false;
        }
        if times > 0 {
            let key: u32 = c as u32;
            proof {
                use_type_invariant(&*self);
            }
            // The slots are taken out while they change, so that `self` is
            // well-formed whenever it is borrowed.
            let mut slots: HashMap<u32, (char, u32)> = HashMap::new();
            std::mem::swap(&mut self.slots, &mut slots);
            slots.insert(key, (c, seen + times));
            std::mem::swap(&mut self.slots, &mut slots);
        }
        proof {
            old(self).lemma_tally_finite();
            self.lemma_tally_finite();
            lemma_copies(c, times as nat);
            assert forall|d: char|
                self@.count(d) == #[trigger] old(self)@.add(copies(c, times as nat)).count(d) by {
                lemma_code_point(d);
                lemma_code_point(c);
            }
            assert(self@ =~= old(self)@.add(copies(c, times as nat)));
        }
        true
    }

    /// The map's contents as a list: one entry for each character seen, with
    /// its count, in no particular order.
    pub fn entries(&self) -> (list: Vec<(char, u32)>)
        ensures
            one_entry_each(list@),
            forall|i: int| 0 <= i < list@.len() ==> (#[trigger] list@[i]).1 >= 1,
            spelled_out(list@) == self@,
    {
        let mut list: Vec<(char, u32)> = Vec::new();
        for entry in it: self.slots.iter()
            invariant
                it.seq() == spec_hash_map_iter(&self.slots).remaining(),
                it.seq().no_duplicates(),
                list@.len() == it.index(),
                forall|i: int| 0 <= i < it.index() ==> #[trigger] list@[i] == *it.seq()[i].1,
        {
            list.push(*entry.1);
        }
        proof {
            use_type_invariant(self);
            self.lemma_tally_finite();
            let served = spec_hash_map_iter(&self.slots).remaining();
            axiom_spec_hash_map_iter(&self.slots);
            assert(list@.len() == served.len());
            assert forall|i: int| 0 <= i < list@.len() implies self.slots@.contains_key(
                *served[i].0,
            ) && self.slots@[*served[i].0] == #[trigger] list@[i] by {}
            assert forall|i: int, j: int| 0 <= i < j < list@.len() implies (#[trigger] list@[i]).0
                != (#[trigger] list@[j]).0 by {
                if list@[i].0 == list@[j].0 {
                    assert(*served[i].0 == *served[j].0);
                    assert(served[i] == served[j]);
                }
            }
            assert forall|d: char| spelled_out(list@).count(d) == #[trigger] self@.count(d) by {
                lemma_code_point(d);
                if self.slots@.contains_key(d as u32) {
                    let slot = self.slots@[d as u32];
                    assert(served.contains((&(d as u32), &slot)));
                    let i = choose|i: int| 0 <= i < served.len() && served[i] == (&(d as u32), &slot);
                    assert(list@[i] == slot);
                    lemma_code_point(slot.0);
                    assert(slot.0 == d);
                    lemma_spelled_out_entry(list@, i);
                } else {
                    assert forall|i: int| 0 <= i < list@.len() implies (#[trigger] list@[i]).0
                        != d by {
                        assert(self.slots@.contains_key(*served[i].0));
                    }
                    lemma_spelled_out_absent(list@, d);
                }
            }
            assert(spelled_out(list@) =~= self@);
        }
        list
    }

    /// Every count fits in `u32`.
    pub proof fn lemma_counts_bounded(&self)
        ensures
            forall|c: char| #[trigger] self@.count(c) <= u32::MAX,
    {
        self.lemma_tally_finite();
    }

    proof fn lemma_tally_finite(&self)
        ensures
            self.tally().dom().finite(),
    {
        let keys = self.slots@.dom();
        let chars = keys.map(|k: u32| k as char);
        keys.lemma_map_finite(|k: u32| k as char);
        assert forall|c: char| self.tally().dom().contains(c) implies chars.contains(c) by {
            lemma_code_point(c);
            assert(keys.contains(c as u32));
        }
        vstd::set_lib::lemma_len_subset(self.tally().dom(), chars);
    }
}

/// How many leading characters of `text` can be counted on top of `seen`
/// before one of them meets a count that stands at `u32::MAX`.
pub open spec fn room_for(seen: Multiset<char>, text: Seq<char>) -> nat
    decreases text.len(),
{
    if text.len() == 0 || seen.count(text[0]) >= u32::MAX {
        0
    } else {
        1 + room_for(seen.insert(text[0]), text.drop_first())
    }
}

/// Whether every count stays within `u32` when the characters `more` come
/// on top of `seen`.
pub open spec fn within_u32(seen: Multiset<char>, more: Multiset<char>) -> bool {
    forall|c: char| seen.count(c) + #[trigger] more.count(c) <= u32::MAX
}

/// Whether every count stays within `u32` when `text` is counted on top of
/// `seen`.
pub open spec fn fits(seen: Multiset<char>, text: Seq<char>) -> bool {
    within_u32(seen, text.to_multiset())
}

/// All of a text can be counted exactly when every count stays within `u32`.
pub proof fn lemma_room_for_all(seen: Multiset<char>, text: Seq<char>)
    requires
        forall|c: char| #[trigger] seen.count(c) <= u32::MAX,
    ensures
        room_for(seen, text) <= text.len(),
        room_for(seen, text) == text.len() <==> fits(seen, text),
    decreases text.len(),
{
    if text.len() == 0 {
        lemma_empty_text();
        assert(text =~= Seq::<char>::empty());
    } else {
        let head = text[0];
        let rest = text.drop_first();
        assert(text =~= seq![head] + rest);
        vstd::seq_lib::lemma_seq_union_to_multiset_commutative(seq![head], rest);
        vstd::seq_lib::lemma_seq_union_to_multiset_commutative(rest, seq![head]);
        assert(rest + seq![head] =~= rest.push(head));
        vstd::seq_lib::to_multiset_build(rest, head);
        assert(text.to_multiset() =~= rest.to_multiset().insert(head));
        if seen.count(head) >= u32::MAX {
            assert(seen.count(head) + text.to_multiset().count(head) > u32::MAX);
        } else {
            let more = seen.insert(head);
            assert forall|c: char| #[trigger] more.count(c) <= u32::MAX by {}
            lemma_room_for_all(more, rest);
            if fits(more, rest) {
                assert forall|c: char|
                    seen.count(c) + #[trigger] text.to_multiset().count(c) <= u32::MAX by {
                    assert(more.count(c) + rest.to_multiset().count(c) <= u32::MAX);
                }
            }
            if fits(seen, text) {
                assert forall|c: char|
                    more.count(c) + #[trigger] rest.to_multiset().count(c) <= u32::MAX by {
                    assert(seen.count(c) + text.to_multiset().count(c) <= u32::MAX);
                }
            }
        }
    }
}

/// A character whose count stands at `u32::MAX` and cannot be raised.
#[derive(Clone, Copy, Debug, PartialEq, Eq, Structural)]
pub struct CounterFull {
    pub character: char,
}

/// Counts the characters of `content` into `count`, one by one from the
/// front. All of them are counted where every count stays within `u32`.
/// Otherwise the counting stops at the first character whose count is full
/// and reports it; what came before it stays counted.
pub fn count_chars(count: &mut CharCountMap, content: &str) -> (r: Result<(), CounterFull>)
    ensures
        r is Ok <==> fits(old(count)@, content@),
        r is Ok ==> final(count)@ == old(count)@.add(content@.to_multiset()),
        final(count)@ == old(count)@.add(
            content@.take(room_for(old(count)@, content@) as int).to_multiset(),
        ),
        match r {
            Ok(_) => room_for(old(count)@, content@) == content@.len(),
            Err(full) => {
                &&& room_for(old(count)@, content@) < content@.len()
                &&& full.character == content@[room_for(old(count)@, content@) as int]
                &&& final(count)@.count(full.character) == u32::MAX
            },
        },
{
    proof {
        count.lemma_counts_bounded();
        lemma_room_for_all(count@, content@);
        assert(content@.take(0) =~= Seq::<char>::empty());
        assert(content@.skip(0) =~= content@);
        lemma_empty_text();
        assert(count@ =~= count@.add(Seq::<char>::empty().to_multiset()));
    }
    for c in it: content.chars()
        invariant
            it.seq() == content@,
            room_for(old(count)@, content@) == content@.len() <==> fits(old(count)@, content@),
            count@ == old(count)@.add(content@.take(it.index()).to_multiset()),
            room_for(old(count)@, content@) == it.index() + room_for(
                count@,
                content@.skip(it.index()),
            ),
    {
        let ghost i = it.index();
        let ghost before = count@;
        proof {
            assert(0 <= i < content@.len());
            assert(content@.skip(i)[0] == c);
            assert(content@.skip(i).drop_first() =~= content@.skip(i + 1));
            assert(content@.take(i + 1) =~= content@.take(i).push(c));
            vstd::seq_lib::to_multiset_build(content@.take(i), c);
        }
        if !count.add(c, 1) {
            proof {
                count.lemma_counts_bounded();
            }
            return Err(CounterFull { character: c });
        }
        proof {
            assert(copies(c, 1) =~= Multiset::<char>::empty().insert(c)) by {
                reveal_with_fuel(copies, 2);
            }
            assert(count@ =~= before.insert(c));
            assert(count@ =~= old(count)@.add(content@.take(i + 1).to_multiset()));
        }
    }
    proof {
        assert(content@.take(content@.len() as int) =~= content@);
        assert(content@.skip(content@.len() as int) =~= Seq::<char>::empty());
    }
    Ok(())
}

/// An empty text holds no characters.
pub proof fn lemma_empty_text()
    ensures
        Seq::<char>::empty().to_multiset() == Multiset::<char>::empty(),
{
    vstd::seq_lib::to_multiset_len(Seq::<char>::empty());
    assert(Seq::<char>::empty().to_multiset() =~= Multiset::<char>::empty());
}

/// A character and its code point stand for each other.
proof fn lemma_code_point(c: char)
    ensures
        (c as u32) as char == c,
{
}

} // verus!
