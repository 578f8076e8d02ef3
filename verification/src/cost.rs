//! The cost of typing a body of text on a keyboard layout.
//!
//! A layout is given by its two-key characters: those that need a modifier
//! and so cost two key presses. Every other character costs one.

use crate::counts::{copies, spelled_out, CharCountMap};
use vstd::multiset::Multiset;
use vstd::prelude::*;

verus! {

/// The two-key characters of the layout in use.
pub const ORIGIN_2_KEY_CHARS: &'static str = "(){}_\"@";

/// The two-key characters of the layout under consideration.
pub const NEW_2_KEY_CHARS: &'static str = "90[]2'";

/// The key presses needed to type `typed` on a layout whose two-key
/// characters are `two_key`: one for each character, and one more for each
/// two-key character.
pub open spec fn key_presses(two_key: Set<char>, typed: Multiset<char>) -> nat {
    typed.len() + typed.filter(|c: char| two_key.contains(c)).len()
}

/// Typing nothing costs nothing, on any layout.
pub proof fn lemma_key_presses_empty(two_key: Set<char>)
    ensures
        key_presses(two_key, Multiset::empty()) == 0,
{
    let f = |c: char| two_key.contains(c);
    assert(Multiset::<char>::empty().filter(f) =~= Multiset::<char>::empty());
}

/// Typing one text after another costs the sum of both.
pub proof fn lemma_key_presses_add(two_key: Set<char>, a: Multiset<char>, b: Multiset<char>)
    ensures
        key_presses(two_key, a.add(b)) == key_presses(two_key, a) + key_presses(two_key, b),
{
    let f = |c: char| two_key.contains(c);
    assert(a.add(b).filter(f) =~= a.filter(f).add(b.filter(f)));
}

/// Typing a character `n` times costs `2 * n` key presses if it is a two-key
/// character and `n` if it is not.
pub proof fn lemma_key_presses_copies(two_key: Set<char>, c: char, n: nat)
    ensures
        key_presses(two_key, copies(c, n)) == if two_key.contains(c) {
            2 * n
        } else {
            n
        },
{
    let f = |c: char| two_key.contains(c);
    crate::counts::lemma_copies(c, n);
    if two_key.contains(c) {
        assert(copies(c, n).filter(f) =~= copies(c, n));
    } else {
        assert(copies(c, n).filter(f) =~= Multiset::<char>::empty());
    }
}

/// A text made up of two-key characters alone costs two key presses for each
/// of its characters.
pub proof fn lemma_two_key_text(two_key: Set<char>, text: Seq<char>)
    requires
        forall|i: int| 0 <= i < text.len() ==> two_key.contains(#[trigger] text[i]),
    ensures
        key_presses(two_key, text.to_multiset()) == 2 * text.len(),
{
    let f = |c: char| two_key.contains(c);
    let typed = text.to_multiset();
    text.to_multiset_ensures();
    assert forall|c: char| typed.filter(f).count(c) == #[trigger] typed.count(c) by {
        if typed.count(c) > 0 {
            assert(text.contains(c));
        }
    }
    assert(typed.filter(f) =~= typed);
}

/// Moving one character into a layout's two-key set, or out of it, changes
/// that layout's cost by one key press for each time the character is typed.
pub proof fn lemma_two_key_moved(two_key: Set<char>, c: char, typed: Multiset<char>)
    ensures
        key_presses(two_key.insert(c), typed) == key_presses(two_key.remove(c), typed)
            + typed.count(c),
{
    let with = |x: char| two_key.insert(c).contains(x);
    let without = |x: char| two_key.remove(c).contains(x);
    crate::counts::lemma_copies(c, typed.count(c));
    assert(typed.filter(with) =~= typed.filter(without).add(copies(c, typed.count(c))));
}

/// Whether `c` is one of `two_key_chars`.
pub fn is_two_key(two_key_chars: &str, c: char) -> (found: bool)
    ensures
        found == two_key_chars@.to_set().contains(c),
{
    for a in it: two_key_chars.chars()
        invariant
            it.seq() == two_key_chars@,
            forall|i: int| 0 <= i < it.index() ==> two_key_chars@[i] != c,
    {
        if a == c {
            return true;
        }
    }
    false
}

/// What the first `k` entries of a list cost, given what one entry fewer
/// costs.
proof fn lemma_next_entry(two_key: Set<char>, entries: Seq<(char, u32)>, k: int)
    requires
        0 <= k < entries.len(),
    ensures
        key_presses(two_key, spelled_out(entries.take(k + 1))) == key_presses(
            two_key,
            spelled_out(entries.take(k)),
        ) + if two_key.contains(entries[k].0) {
            2 * entries[k].1
        } else {
            entries[k].1 as int
        },
{
    let (c, n) = entries[k];
    assert(entries.take(k + 1).drop_last() =~= entries.take(k));
    assert(entries.take(k + 1).last() == entries[k]);
    lemma_key_presses_add(two_key, spelled_out(entries.take(k)), copies(c, n as nat));
    lemma_key_presses_copies(two_key, c, n as nat);
}

/// The first `k` entries of a list cost no more than the whole list.
proof fn lemma_prefix_costs_less(two_key: Set<char>, entries: Seq<(char, u32)>, k: int)
    requires
        0 <= k <= entries.len(),
    ensures
        key_presses(two_key, spelled_out(entries.take(k))) <= key_presses(
            two_key,
            spelled_out(entries),
        ),
    decreases entries.len() - k,
{
    if k == entries.len() {
        assert(entries.take(k) =~= entries);
    } else {
        lemma_next_entry(two_key, entries, k);
        lemma_prefix_costs_less(two_key, entries, k + 1);
    }
}

/// The key presses needed to type everything in `count` on a layout whose
/// two-key characters are `two_key_chars`, or `None` if the number does not
/// fit in `u32`.
pub fn checked_calc_cost(two_key_chars: &str, count: &CharCountMap) -> (cost: Option<u32>)
    ensures
        match cost {
            Some(total) => total == key_presses(two_key_chars@.to_set(), count@),
            None => key_presses(two_key_chars@.to_set(), count@) > u32::MAX,
        },
{
    let entries = count.entries();
    let ghost two_key = two_key_chars@.to_set();
    let mut cost: u32 = 0;
    let mut i: usize = 0;
    proof {
        assert(entries@.take(0) =~= Seq::<(char, u32)>::empty());
        lemma_key_presses_empty(two_key);
    }
    while i < entries.len()
        invariant
            i <= entries.len(),
            two_key == two_key_chars@.to_set(),
            spelled_out(entries@) == count@,
            cost == key_presses(two_key, spelled_out(entries@.take(i as int))),
        decreases entries.len() - i,
    {
        let (c, n) = entries[i];
        proof {
            lemma_next_entry(two_key, entries@, i as int);
            lemma_prefix_costs_less(two_key, entries@, i + 1);
        }
        let charge = if is_two_key(two_key_chars, c) {
            match n.checked_mul(2) {
                Some(doubled) => doubled,
                None => {
                    return None;
                },
            }
        } else {
            n
        };
        cost = match cost.checked_add(charge) {
            Some(sum) => sum,
            None => {
                return None;
            },
        };
        i += 1;
    }
    proof {
        assert(entries@.take(entries.len() as int) =~= entries@);
    }
    Some(cost)
}

/// The key presses needed to type everything in `count` on a layout whose
/// two-key characters are `two_key_chars`.
pub fn calc_cost(two_key_chars: &str, count: &CharCountMap) -> (cost: u32)
    requires
        key_presses(two_key_chars@.to_set(), count@) <= u32::MAX,
    ensures
        cost == key_presses(two_key_chars@.to_set(), count@),
{
    checked_calc_cost(two_key_chars, count).unwrap()
}

/// What typing a body of text costs on the layout in use and on the one under
/// consideration.
#[derive(Clone, Copy, Debug, PartialEq, Eq, Structural)]
pub struct Estimate {
    pub origin_cost: u32,
    pub new_cost: u32,
}

/// The two costs of typing `typed`, on a layout with the two-key characters
/// `origin` and on one with `new`.
pub open spec fn costs(origin: Set<char>, new: Set<char>, typed: Multiset<char>) -> (nat, nat) {
    (key_presses(origin, typed), key_presses(new, typed))
}

/// With nothing typed both costs are zero.
pub proof fn lemma_nothing_typed(origin: Set<char>, new: Set<char>)
    ensures
        costs(origin, new, Multiset::empty()) == (0nat, 0nat),
{
    lemma_key_presses_empty(origin);
    lemma_key_presses_empty(new);
}

/// Moving a character into or out of one layout's two-key set changes that
/// layout's cost alone: the other layout's cost stays as it was.
pub proof fn lemma_layouts_independent(
    origin: Set<char>,
    new: Set<char>,
    c: char,
    typed: Multiset<char>,
)
    ensures
        costs(origin.insert(c), new, typed).1 == costs(origin.remove(c), new, typed).1,
        costs(origin.insert(c), new, typed).0 == costs(origin.remove(c), new, typed).0
            + typed.count(c),
        costs(origin, new.insert(c), typed).0 == costs(origin, new.remove(c), typed).0,
        costs(origin, new.insert(c), typed).1 == costs(origin, new.remove(c), typed).1
            + typed.count(c),
{
    lemma_two_key_moved(origin, c, typed);
    lemma_two_key_moved(new, c, typed);
}

/// Both costs of typing everything in `count`, or `None` if one of them does
/// not fit in `u32`. The map is only read.
pub fn estimate(count: &CharCountMap) -> (both: Option<Estimate>)
    ensures
        match both {
            Some(e) => (e.origin_cost as nat, e.new_cost as nat) == costs(
                ORIGIN_2_KEY_CHARS@.to_set(),
                NEW_2_KEY_CHARS@.to_set(),
                count@,
            ),
            None => key_presses(ORIGIN_2_KEY_CHARS@.to_set(), count@) > u32::MAX || key_presses(
                NEW_2_KEY_CHARS@.to_set(),
                count@,
            ) > u32::MAX,
        },
{
    let origin_cost = match checked_calc_cost(ORIGIN_2_KEY_CHARS, count) {
        Some(cost) => cost,
        None => {
            return None;
        },
    };
    let new_cost = match checked_calc_cost(NEW_2_KEY_CHARS, count) {
        Some(cost) => cost,
        None => {
            return None;
        },
    };
    Some(Estimate { origin_cost, new_cost })
}

impl Estimate {
    /// The key presses that the new layout saves, if it saves any.
    pub open spec fn saving(self) -> Option<u32> {
        if self.new_cost < self.origin_cost {
            Some((self.origin_cost - self.new_cost) as u32)
        } else {
            None
        }
    }

    /// Where there is a saving, the cost on the layout in use is above zero:
    /// the saving can be put in proportion to it. With both costs at zero
    /// there is none.
    pub proof fn lemma_saving_has_base(self)
        ensures
            self.saving() is Some ==> self.origin_cost > 0,
            self.origin_cost == 0 ==> self.saving() is None,
    {
    }

    /// The key presses that the new layout saves, if it saves any.
    pub fn profit(&self) -> (saved: Option<u32>)
        ensures
            saved == self.saving(),
    {
        if self.new_cost < self.origin_cost {
            Some(self.origin_cost - self.new_cost)
        } else {
            None
        }
    }
}

} // verus!
