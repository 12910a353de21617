//! The state behind the unlocker's window: the saves, the shown lists of
//! achievements and items, and the masks that decide which entries are
//! shown. Each callback of the window is a method here.

use vstd::prelude::*;
use crate::masks::{
    positions_to_ids, range_mask, range_selection, set_positions, sorted_intersection,
    span, span_vec, strictly_increasing,
};
use crate::text::{
    contains_chars, occurs_at, str_equal, find_chars, lines_of, lowercase_text, lowercase_chars, matches_query, split_lines,
    strings_view,
};

verus! {

broadcast use vstd::string::group_string_axioms;

/// An entry of a shown list: its number and whether it is unlocked.
#[derive(Clone, Copy, Debug, PartialEq, Eq, Structural)]
pub struct Achievement {
    pub id: i32,
    pub unlocked: bool,
}

/// What one save holds: a flag for each achievement and each item.
pub struct SaveSlot {
    pub achievements: Vec<bool>,
    pub items: Vec<bool>,
}

/// Which entries the type selector lets through.
#[derive(Clone, Copy, Debug, PartialEq, Eq, Structural)]
pub enum TypeFilter {
    All,
    Locked,
    Unlocked,
}

/// The window's state.
pub struct Unlocker {
    pub saves: Vec<Option<SaveSlot>>,
    pub achievement_names: Vec<String>,
    pub item_names: Vec<String>,
    pub achievements_total: usize,
    pub items_total: usize,
    pub achievements: Vec<Achievement>,
    pub items: Vec<Achievement>,
    pub type_achievement_mask: Vec<i32>,
    pub type_items_mask: Vec<i32>,
    pub search_achievement_mask: Vec<i32>,
    pub search_items_mask: Vec<i32>,
    pub indexes: Vec<i32>,
    pub items_indexes: Vec<i32>,
}

// ---------------------------------------------------------------------------
// The model
// ---------------------------------------------------------------------------

/// The entries shown for a save's flags: entry `i` has number `i`.
pub open spec fn entries_of(flags: Seq<bool>) -> Seq<Achievement> {
    Seq::new(flags.len(), |i: int| Achievement { id: i as i32, unlocked: flags[i] })
}

/// Entry `k` has number `k`.
pub open spec fn numbered_by_position(entries: Seq<Achievement>) -> bool {
    forall|k: int| 0 <= k < entries.len() ==> #[trigger] entries[k].id == k
}

/// The numbers of the entries whose flag is `unlocked`, in list order.
pub open spec fn ids_with(entries: Seq<Achievement>, unlocked: bool) -> Seq<i32>
    decreases entries.len(),
{
    if entries.len() == 0 {
        Seq::<i32>::empty()
    } else {
        let r = ids_with(entries.drop_last(), unlocked);
        if entries.last().unlocked == unlocked {
            r.push(entries.last().id)
        } else {
            r
        }
    }
}

/// The mask that a type filter gives for a list of `total` entries.
pub open spec fn filter_mask(ty: TypeFilter, entries: Seq<Achievement>, total: int) -> Seq<i32> {
    match ty {
        TypeFilter::All => span(0, total),
        TypeFilter::Locked => ids_with(entries, false),
        TypeFilter::Unlocked => ids_with(entries, true),
    }
}

/// The flags written to a save: `total` flags, all unset, then for each
/// entry in turn the flag at its number set to the entry's state.
pub open spec fn unlock_flags_of(entries: Seq<Achievement>, total: nat) -> Seq<bool>
    decreases entries.len(),
{
    if entries.len() == 0 {
        Seq::new(total, |i: int| false)
    } else {
        unlock_flags_of(entries.drop_last(), total).update(entries.last().id as int, entries.last().unlocked)
    }
}

/// The list with every entry unlocked.
pub open spec fn all_unlocked(entries: Seq<Achievement>) -> Seq<Achievement> {
    entries.map_values(|e: Achievement| Achievement { id: e.id, unlocked: true })
}

/// `shown` is, ascending, exactly the numbers in both `type_mask` and
/// `search_mask`.
pub open spec fn shows_intersection(type_mask: Seq<i32>, search_mask: Seq<i32>, shown: Seq<i32>) -> bool {
    &&& strictly_increasing(shown)
    &&& forall|x: i32| #[trigger] shown.contains(x) <==> (type_mask.contains(x) && search_mask.contains(x))
}

/// `ids` lists, ascending, the numbers of the lines that contain the query.
pub open spec fn lists_matches(names: Seq<Seq<char>>, query: Seq<char>, ids: Seq<i32>) -> bool {
    &&& strictly_increasing(ids)
    &&& forall|x: i32| #[trigger] ids.contains(x) <==> (0 <= x < names.len() && matches_query(names[x as int], query))
}

/// Some line contains the query.
pub open spec fn any_match(names: Seq<Seq<char>>, query: Seq<char>) -> bool {
    exists|k: int| 0 <= k < names.len() && #[trigger] matches_query(names[k], query)
}

impl Unlocker {
    /// The invariant of the state.
    pub open spec fn wf(&self) -> bool {
        &&& self.achievements_total <= i32::MAX
        &&& self.items_total <= i32::MAX
        &&& self.achievement_names@.len() <= i32::MAX
        &&& self.item_names@.len() <= i32::MAX
        &&& forall|k: int|
            0 <= k < self.saves@.len() && #[trigger] self.saves@[k] is Some ==> {
                &&& self.saves@[k]->0.achievements@.len() == self.achievements_total
                &&& self.saves@[k]->0.items@.len() == self.items_total
            }
        &&& self.achievements@.len() <= self.achievements_total
        &&& self.items@.len() <= self.items_total
        &&& numbered_by_position(self.achievements@)
        &&& numbered_by_position(self.items@)
        &&& strictly_increasing(self.indexes@)
        &&& strictly_increasing(self.items_indexes@)
        &&& forall|x: i32| #[trigger] self.indexes@.contains(x) ==> self.type_achievement_mask@.contains(x)
        &&& forall|x: i32| #[trigger] self.items_indexes@.contains(x) ==> self.type_items_mask@.contains(x)
    }

    /// The shown numbers are those that both the type mask and the search
    /// mask let through.
    pub open spec fn shows_masks(&self) -> bool {
        &&& shows_intersection(self.type_achievement_mask@, self.search_achievement_mask@, self.indexes@)
        &&& shows_intersection(self.type_items_mask@, self.search_items_mask@, self.items_indexes@)
    }

    /// The save at one-based number `n` exists.
    pub open spec fn has_save(&self, n: int) -> bool {
        1 <= n <= self.saves@.len() && self.saves@[n - 1] is Some
    }
}

// ---------------------------------------------------------------------------
// Facts about the model
// ---------------------------------------------------------------------------

/// In a numbered list, the numbers with a given state are, ascending, exactly
/// the positions whose entry has that state.
pub proof fn lemma_ids_with(entries: Seq<Achievement>, unlocked: bool)
    requires
        numbered_by_position(entries),
    ensures
        strictly_increasing(ids_with(entries, unlocked)),
        forall|k: int|
            0 <= k < ids_with(entries, unlocked).len() ==> 0 <= #[trigger] ids_with(entries, unlocked)[k]
                < entries.len(),
        forall|x: i32| #[trigger]
            ids_with(entries, unlocked).contains(x) <==> (0 <= x < entries.len() && entries[x as int].unlocked
                == unlocked),
    decreases entries.len(),
{
    if entries.len() > 0 {
        let init = entries.drop_last();
        assert(numbered_by_position(init)) by {
            assert forall|k: int| 0 <= k < init.len() implies #[trigger] init[k].id == k by {
                assert(init[k] == entries[k]);
            }
        }
        lemma_ids_with(init, unlocked);
        let r = ids_with(init, unlocked);
        let last = entries.last();
        assert(last.id == entries.len() - 1);
        assert forall|x: i32| #[trigger]
            ids_with(entries, unlocked).contains(x) <==> (0 <= x < entries.len() && entries[x as int].unlocked
                == unlocked) by {
            if 0 <= x < init.len() {
                assert(entries[x as int] == init[x as int]);
            }
            if last.unlocked == unlocked {
                let s = r.push(last.id);
                if s.contains(x) {
                    let k = choose|k: int| 0 <= k < s.len() && s[k] == x;
                    if k < r.len() {
                        assert(r[k] == x);
                    }
                }
                if r.contains(x) {
                    let k = choose|k: int| 0 <= k < r.len() && r[k] == x;
                    assert(s[k] == x);
                }
                if x == last.id {
                    assert(s[r.len() as int] == x);
                }
            }
        }
    }
}

/// For a numbered list of at most `total` entries, the unlock flags are
/// `total` flags, flag `i` set exactly where entry `i` exists and is unlocked.
pub proof fn lemma_unlock_flags(entries: Seq<Achievement>, total: nat)
    requires
        numbered_by_position(entries),
        entries.len() <= total,
    ensures
        unlock_flags_of(entries, total).len() == total,
        forall|i: int|
            0 <= i < total ==> #[trigger] unlock_flags_of(entries, total)[i] == (i < entries.len()
                && entries[i].unlocked),
    decreases entries.len(),
{
    if entries.len() > 0 {
        let init = entries.drop_last();
        assert(numbered_by_position(init)) by {
            assert forall|k: int| 0 <= k < init.len() implies #[trigger] init[k].id == k by {
                assert(init[k] == entries[k]);
            }
        }
        lemma_unlock_flags(init, total);
        assert(entries.last().id == entries.len() - 1);
        assert forall|i: int| 0 <= i < total implies #[trigger] unlock_flags_of(entries, total)[i] == (i
            < entries.len() && entries[i].unlocked) by {
            if i < init.len() {
                assert(init[i] == entries[i]);
            }
        }
    }
}

/// Reading a save's flags into a list and writing the list back, with no
/// entry changed in between, writes the flags that were read.
pub proof fn lemma_unlock_round_trip(flags: Seq<bool>)
    requires
        flags.len() <= i32::MAX,
    ensures
        unlock_flags_of(entries_of(flags), flags.len()) == flags,
{
    let e = entries_of(flags);
    assert(numbered_by_position(e));
    lemma_unlock_flags(e, flags.len());
    assert(unlock_flags_of(e, flags.len()) =~= flags);
}

/// After everything is unlocked, a full list writes a set flag for every
/// achievement.
pub proof fn lemma_unlock_all_sets_every_flag(entries: Seq<Achievement>, total: nat)
    requires
        numbered_by_position(entries),
        entries.len() == total,
    ensures
        unlock_flags_of(all_unlocked(entries), total) == Seq::new(total, |i: int| true),
{
    let a = all_unlocked(entries);
    assert(numbered_by_position(a));
    lemma_unlock_flags(a, total);
    assert(unlock_flags_of(a, total) =~= Seq::new(total, |i: int| true));
}

/// The locked and the unlocked filter split a numbered list: each number of
/// the list is in exactly one of the two masks, and no other number is in
/// either.
pub proof fn lemma_locked_unlocked_partition(entries: Seq<Achievement>, total: int)
    requires
        numbered_by_position(entries),
    ensures
        forall|x: i32|
            #![trigger filter_mask(TypeFilter::Locked, entries, total).contains(x)]
            #![trigger filter_mask(TypeFilter::Unlocked, entries, total).contains(x)]
            (filter_mask(TypeFilter::Locked, entries, total).contains(x) || filter_mask(
                TypeFilter::Unlocked,
                entries,
                total,
            ).contains(x)) <==> 0 <= x < entries.len(),
        forall|x: i32|
            !(#[trigger] filter_mask(TypeFilter::Locked, entries, total).contains(x) && #[trigger] filter_mask(
                TypeFilter::Unlocked,
                entries,
                total,
            ).contains(x)),
{
    lemma_ids_with(entries, true);
    lemma_ids_with(entries, false);
}

// ---------------------------------------------------------------------------
// List building
// ---------------------------------------------------------------------------

/// The entries shown for a save's flags (`enumerate` into numbered entries).
pub fn entries_from_flags(flags: &Vec<bool>) -> (r: Vec<Achievement>)
    requires
        flags@.len() <= i32::MAX,
    ensures
        r@ == entries_of(flags@),
{
    let mut r: Vec<Achievement> = Vec::new();
    let mut i: usize = 0;
    while i < flags.len()
        invariant
            i <= flags@.len() <= i32::MAX,
            r@ =~= entries_of(flags@).take(i as int),
        decreases flags.len() - i,
    {
        r.push(Achievement { id: i as i32, unlocked: flags[i] });
        i = i + 1;
    }
    assert(entries_of(flags@).take(flags@.len() as int) =~= entries_of(flags@));
    r
}

/// The numbers of the entries whose state is `unlocked`, in list order.
pub fn ids_where(entries: &Vec<Achievement>, unlocked: bool) -> (r: Vec<i32>)
    ensures
        r@ == ids_with(entries@, unlocked),
{
    let mut r: Vec<i32> = Vec::new();
    let mut i: usize = 0;
    while i < entries.len()
        invariant
            i <= entries@.len(),
            r@ == ids_with(entries@.take(i as int), unlocked),
        decreases entries.len() - i,
    {
        assert(entries@.take(i + 1).drop_last() =~= entries@.take(i as int));
        if entries[i].unlocked == unlocked {
            r.push(entries[i].id);
        }
        i = i + 1;
    }
    assert(entries@.take(entries@.len() as int) =~= entries@);
    r
}

/// The flags that an unlock writes for `entries`, `total` of them.
pub fn flags_from_entries(entries: &Vec<Achievement>, total: usize) -> (r: Vec<bool>)
    requires
        forall|k: int| 0 <= k < entries@.len() ==> 0 <= #[trigger] entries@[k].id < total,
    ensures
        r@ == unlock_flags_of(entries@, total as nat),
{
    let mut r: Vec<bool> = Vec::new();
    let mut j: usize = 0;
    while j < total
        invariant
            j <= total,
            r@ =~= Seq::new(j as nat, |i: int| false),
        decreases total - j,
    {
        r.push(false);
        j = j + 1;
    }
    assert(r@ == unlock_flags_of(entries@.take(0), total as nat));
    let mut i: usize = 0;
    while i < entries.len()
        invariant
            i <= entries@.len(),
            forall|k: int| 0 <= k < entries@.len() ==> 0 <= #[trigger] entries@[k].id < total,
            r@ == unlock_flags_of(entries@.take(i as int), total as nat),
            r@.len() == total,
        decreases entries.len() - i,
    {
        assert(entries@.take(i + 1).drop_last() =~= entries@.take(i as int));
        let e = entries[i];
        assert(0 <= e.id < total);
        r.set(e.id as usize, e.unlocked);
        i = i + 1;
    }
    assert(entries@.take(entries@.len() as int) =~= entries@);
    r
}

/// Every entry of `entries` unlocked.
fn unlock_every(entries: &mut Vec<Achievement>)
    ensures
        final(entries)@ == all_unlocked(old(entries)@),
{
    let mut i: usize = 0;
    while i < entries.len()
        invariant
            i <= entries@.len() == old(entries)@.len(),
            forall|k: int| 0 <= k < i ==> #[trigger] entries@[k] == (Achievement { id: old(entries)@[k].id, unlocked: true }),
            forall|k: int| i <= k < entries@.len() ==> #[trigger] entries@[k] == old(entries)@[k],
        decreases entries.len() - i,
    {
        let id = entries[i].id;
        entries.set(i, Achievement { id, unlocked: true });
        i = i + 1;
    }
    assert(entries@ =~= all_unlocked(old(entries)@));
}

/// For each line, whether it contains the (already lowercase) query once
/// lowercased itself.
fn match_flags(names: &Vec<String>, lower_query: &Vec<char>) -> (r: Vec<bool>)
    ensures
        r@.len() == names@.len(),
        forall|k: int|
            0 <= k < names@.len() ==> #[trigger] r@[k] == contains_chars(lowercase_text(names@[k]@), lower_query@),
{
    let mut r: Vec<bool> = Vec::new();
    let mut i: usize = 0;
    while i < names.len()
        invariant
            i <= names@.len(),
            r@.len() == i,
            forall|k: int| 0 <= k < i ==> #[trigger] r@[k] == contains_chars(lowercase_text(names@[k]@), lower_query@),
        decreases names.len() - i,
    {
        let line = lowercase_chars(names[i].as_str());
        r.push(find_chars(&line, lower_query));
        i = i + 1;
    }
    r
}

/// The numbers of the lines that contain the query, ignoring case; `None`
/// where no line does.
pub fn matching_ids(names: &Vec<String>, query: &str) -> (r: Option<Vec<i32>>)
    requires
        names@.len() <= i32::MAX,
    ensures
        match r {
            None => !any_match(strings_view(names@), query@),
            Some(ids) => any_match(strings_view(names@), query@) && lists_matches(strings_view(names@), query@, ids@),
        },
        query@.len() == 0 ==> forall|k: int| 0 <= k < names@.len() ==> #[trigger] matches_query(strings_view(names@)[k], query@),
{
    let q = lowercase_chars(query);
    let flags = match_flags(names, &q);
    let ghost nv = strings_view(names@);
    assert forall|k: int| 0 <= k < names@.len() implies flags@[k] == #[trigger] matches_query(nv[k], query@) by {
        assert(nv[k] == names@[k]@);
    }
    proof {
        if query@.len() == 0 {
            assert forall|k: int| 0 <= k < names@.len() implies #[trigger] matches_query(nv[k], query@) by {
                let h = lowercase_text(nv[k]);
                assert(h.subrange(0, 0) =~= lowercase_text(query@));
                assert(occurs_at(h, lowercase_text(query@), 0));
            }
        }
    }
    match set_positions(&flags) {
        None => {
            assert(!any_match(nv, query@)) by {
                if any_match(nv, query@) {
                    let k = choose|k: int| 0 <= k < nv.len() && #[trigger] matches_query(nv[k], query@);
                    assert(flags@[k]);
                }
            }
            None
        },
        Some(pos) => {
            assert forall|k: int| 0 <= k < pos@.len() implies #[trigger] pos@[k] <= i32::MAX by {
                assert(pos@.contains(pos@[k]));
            }
            let ids = positions_to_ids(&pos);
            proof {
                let k0 = choose|k: int| 0 <= k < flags@.len() && flags@[k];
                assert(matches_query(nv[k0], query@));
                assert forall|x: i32| #[trigger] ids@.contains(x) <==> (0 <= x < nv.len() && matches_query(nv[x as int], query@)) by {
                    if ids@.contains(x) {
                        let k = choose|k: int| 0 <= k < ids@.len() && ids@[k] == x;
                        assert(pos@.contains(pos@[k]));
                    }
                    if 0 <= x < nv.len() && matches_query(nv[x as int], query@) {
                        assert(pos@.contains(x as usize));
                        let k = choose|k: int| 0 <= k < pos@.len() && pos@[k] == x as usize;
                        assert(ids@[k] == x);
                    }
                }
            }
            Some(ids)
        },
    }
}

// ---------------------------------------------------------------------------
// The window's callbacks
// ---------------------------------------------------------------------------

/// The filter that the type selector's text names.
pub open spec fn filter_named(name: Seq<char>) -> Option<TypeFilter> {
    if name == "All"@ {
        Some(TypeFilter::All)
    } else if name == "Locked"@ {
        Some(TypeFilter::Locked)
    } else if name == "Unlocked"@ {
        Some(TypeFilter::Unlocked)
    } else {
        None
    }
}

impl TypeFilter {
    /// The filter named `"All"`, `"Locked"` or `"Unlocked"`; `None` for any
    /// other text.
    pub fn from_name(name: &str) -> (r: Option<TypeFilter>)
        ensures
            r == filter_named(name@),
    {
        if str_equal(name, "All") {
            Some(TypeFilter::All)
        } else if str_equal(name, "Locked") {
            Some(TypeFilter::Locked)
        } else if str_equal(name, "Unlocked") {
            Some(TypeFilter::Unlocked)
        } else {
            None
        }
    }
}

/// `v` lists, ascending, the one-based numbers of the saves that exist.
pub open spec fn lists_saves(saves: Seq<Option<SaveSlot>>, v: Seq<usize>) -> bool {
    &&& forall|a: int, b: int| 0 <= a < b < v.len() ==> v[a] < v[b]
    &&& forall|n: usize| #[trigger] v.contains(n) <==> (1 <= n <= saves.len() && saves[n - 1] is Some)
}

impl Unlocker {
    /// The saves, names and totals are those of `other`.
    pub open spec fn same_data(&self, other: &Unlocker) -> bool {
        &&& self.saves == other.saves
        &&& self.achievement_names == other.achievement_names
        &&& self.item_names == other.item_names
        &&& self.achievements_total == other.achievements_total
        &&& self.items_total == other.items_total
    }

    /// The masks and shown numbers are those of `other`.
    pub open spec fn same_masks(&self, other: &Unlocker) -> bool {
        &&& self.type_achievement_mask@ == other.type_achievement_mask@
        &&& self.type_items_mask@ == other.type_items_mask@
        &&& self.search_achievement_mask@ == other.search_achievement_mask@
        &&& self.search_items_mask@ == other.search_items_mask@
        &&& self.indexes@ == other.indexes@
        &&& self.items_indexes@ == other.items_indexes@
    }

    /// A state over these saves and name texts, with nothing shown yet.
    pub fn new(
        saves: Vec<Option<SaveSlot>>,
        achievement_names: &str,
        item_names: &str,
        achievements_total: usize,
        items_total: usize,
    ) -> (r: Unlocker)
        requires
            achievements_total <= i32::MAX,
            items_total <= i32::MAX,
            lines_of(achievement_names@).len() <= i32::MAX,
            lines_of(item_names@).len() <= i32::MAX,
            forall|k: int|
                0 <= k < saves@.len() && #[trigger] saves@[k] is Some ==> {
                    &&& saves@[k]->0.achievements@.len() == achievements_total
                    &&& saves@[k]->0.items@.len() == items_total
                },
        ensures
            r.wf(),
            r.shows_masks(),
            r.saves == saves,
            strings_view(r.achievement_names@) == lines_of(achievement_names@),
            strings_view(r.item_names@) == lines_of(item_names@),
            r.achievements_total == achievements_total,
            r.items_total == items_total,
            r.achievements@.len() == 0,
            r.items@.len() == 0,
            r.type_achievement_mask@.len() == 0,
            r.type_items_mask@.len() == 0,
            r.search_achievement_mask@.len() == 0,
            r.search_items_mask@.len() == 0,
            r.indexes@.len() == 0,
            r.items_indexes@.len() == 0,
    {
        let an = split_lines(achievement_names);
        let inames = split_lines(item_names);
        assert(an@.len() == strings_view(an@).len());
        assert(inames@.len() == strings_view(inames@).len());
        Unlocker {
            saves,
            achievement_names: an,
            item_names: inames,
            achievements_total,
            items_total,
            achievements: Vec::new(),
            items: Vec::new(),
            type_achievement_mask: Vec::new(),
            type_items_mask: Vec::new(),
            search_achievement_mask: Vec::new(),
            search_items_mask: Vec::new(),
            indexes: Vec::new(),
            items_indexes: Vec::new(),
        }
    }

    /// The one-based numbers of the saves that exist, ascending.
    pub fn save_numbers(&self) -> (v: Vec<usize>)
        ensures
            lists_saves(self.saves@, v@),
    {
        let mut v: Vec<usize> = Vec::new();
        let mut i: usize = 0;
        while i < self.saves.len()
            invariant
                i <= self.saves@.len(),
                forall|a: int, b: int| 0 <= a < b < v@.len() ==> v@[a] < v@[b],
                forall|k: int| 0 <= k < v@.len() ==> #[trigger] v@[k] <= i,
                forall|n: usize| #[trigger] v@.contains(n) <==> (1 <= n <= i && self.saves@[n - 1] is Some),
            decreases self.saves@.len() - i,
        {
            let ghost before = v@;
            if self.saves[i].is_some() {
                v.push(i + 1);
                assert forall|n: usize| #[trigger] v@.contains(n) <==> (1 <= n <= i + 1 && self.saves@[n - 1] is Some) by {
                    if v@.contains(n) {
                        let k = choose|k: int| 0 <= k < v@.len() && v@[k] == n;
                        if k < before.len() {
                            assert(before.contains(n));
                        }
                    }
                    if before.contains(n) {
                        let k = choose|k: int| 0 <= k < before.len() && before[k] == n;
                        assert(v@[k] == n);
                    }
                    if n == i + 1 {
                        assert(v@[before.len() as int] == n);
                    }
                }
            }
            i = i + 1;
        }
        v
    }

    /// Sets up the lists for the save at one-based number `savefile`, with
    /// every entry shown, and gives the numbers of the saves that exist.
    pub fn init(&mut self, savefile: usize) -> (saves: Vec<usize>)
        requires
            old(self).wf(),
            old(self).has_save(savefile as int),
        ensures
            final(self).wf(),
            final(self).shows_masks(),
            final(self).same_data(old(self)),
            lists_saves(final(self).saves@, saves@),
            final(self).achievements@ == entries_of(old(self).saves@[savefile - 1]->0.achievements@),
            final(self).items@ == entries_of(old(self).saves@[savefile - 1]->0.items@),
            final(self).type_achievement_mask@ == span(0, final(self).achievements_total as int),
            final(self).search_achievement_mask@ == span(0, final(self).achievements_total as int),
            final(self).indexes@ == span(0, final(self).achievements_total as int),
            final(self).type_items_mask@ == span(0, final(self).items_total as int),
            final(self).search_items_mask@ == span(0, final(self).items_total as int),
            final(self).items_indexes@ == span(0, final(self).items_total as int),
    {
        let numbers = self.save_numbers();
        assert(self.saves@[savefile - 1] is Some);
        let (achievements, items) = match &self.saves[savefile - 1] {
            Some(save) => (entries_from_flags(&save.achievements), entries_from_flags(&save.items)),
            None => (Vec::new(), Vec::new()),
        };
        let at = self.achievements_total as i32;
        let it = self.items_total as i32;
        self.achievements = achievements;
        self.items = items;
        self.type_achievement_mask = span_vec(0, at);
        self.search_achievement_mask = span_vec(0, at);
        self.indexes = span_vec(0, at);
        self.type_items_mask = span_vec(0, it);
        self.search_items_mask = span_vec(0, it);
        self.items_indexes = span_vec(0, it);
        numbers
    }

    /// The masks that a type filter gives for the shown achievements and
    /// items.
    pub fn type_filter(&self, ty: TypeFilter) -> (r: (Vec<i32>, Vec<i32>))
        requires
            self.achievements_total <= i32::MAX,
            self.items_total <= i32::MAX,
        ensures
            r.0@ == filter_mask(ty, self.achievements@, self.achievements_total as int),
            r.1@ == filter_mask(ty, self.items@, self.items_total as int),
    {
        match ty {
            TypeFilter::All => (span_vec(0, self.achievements_total as i32), span_vec(0, self.items_total as i32)),
            TypeFilter::Locked => (ids_where(&self.achievements, false), ids_where(&self.items, false)),
            TypeFilter::Unlocked => (ids_where(&self.achievements, true), ids_where(&self.items, true)),
        }
    }

    /// The type selector changed: the type masks become the filter's and
    /// the shown numbers those that also pass the search masks.
    pub fn type_select(&mut self, ty: TypeFilter)
        requires
            old(self).wf(),
        ensures
            final(self).wf(),
            final(self).shows_masks(),
            final(self).same_data(old(self)),
            final(self).achievements@ == old(self).achievements@,
            final(self).items@ == old(self).items@,
            final(self).type_achievement_mask@ == filter_mask(ty, old(self).achievements@, old(self).achievements_total as int),
            final(self).type_items_mask@ == filter_mask(ty, old(self).items@, old(self).items_total as int),
            final(self).search_achievement_mask@ == old(self).search_achievement_mask@,
            final(self).search_items_mask@ == old(self).search_items_mask@,
    {
        let (ta, ti) = self.type_filter(ty);
        let shown = sorted_intersection(&self.search_achievement_mask, &ta);
        let shown_items = sorted_intersection(&self.search_items_mask, &ti);
        self.type_achievement_mask = ta;
        self.type_items_mask = ti;
        self.indexes = shown;
        self.items_indexes = shown_items;
    }

    /// Another save was selected (one-based `save`): its lists are shown,
    /// filtered by the type selector's current filter `ty`.
    pub fn select_save(&mut self, save: i32, ty: TypeFilter)
        requires
            old(self).wf(),
            old(self).has_save(save as int),
        ensures
            final(self).wf(),
            final(self).shows_masks(),
            final(self).same_data(old(self)),
            final(self).achievements@ == entries_of(old(self).saves@[save - 1]->0.achievements@),
            final(self).items@ == entries_of(old(self).saves@[save - 1]->0.items@),
            final(self).type_achievement_mask@ == filter_mask(ty, final(self).achievements@, old(self).achievements_total as int),
            final(self).type_items_mask@ == filter_mask(ty, final(self).items@, old(self).items_total as int),
            final(self).search_achievement_mask@ == old(self).search_achievement_mask@,
            final(self).search_items_mask@ == old(self).search_items_mask@,
    {
        let index = (save - 1) as usize;
        assert(self.saves@[index as int] is Some);
        let (achievements, items) = match &self.saves[index] {
            Some(data) => (entries_from_flags(&data.achievements), entries_from_flags(&data.items)),
            None => (Vec::new(), Vec::new()),
        };
        self.achievements = achievements;
        self.items = items;
        // the shown numbers only shrink to the new type masks below
        self.indexes = Vec::new();
        self.items_indexes = Vec::new();
        self.type_select(ty);
    }

    /// The range fields changed to `x..=y` (one-based): the search masks
    /// become the range (the achievement range in the items' search mask and
    /// the item range in the achievements', as the window stores them) and
    /// the shown numbers those of the type masks within the range.
    pub fn range_change(&mut self, x: i32, y: i32)
        requires
            old(self).wf(),
            x > i32::MIN,
        ensures
            final(self).wf(),
            final(self).same_data(old(self)),
            final(self).achievements@ == old(self).achievements@,
            final(self).items@ == old(self).items@,
            final(self).type_achievement_mask@ == old(self).type_achievement_mask@,
            final(self).type_items_mask@ == old(self).type_items_mask@,
            final(self).search_items_mask@ == range_selection(x as int, y as int, old(self).achievements_total as int),
            final(self).search_achievement_mask@ == range_selection(x as int, y as int, old(self).items_total as int),
            shows_intersection(
                old(self).type_achievement_mask@,
                range_selection(x as int, y as int, old(self).achievements_total as int),
                final(self).indexes@,
            ),
            shows_intersection(
                old(self).type_items_mask@,
                range_selection(x as int, y as int, old(self).items_total as int),
                final(self).items_indexes@,
            ),
            old(self).achievements_total == old(self).items_total ==> final(self).shows_masks(),
    {
        let items_mask = range_mask(x, y, self.items_total as i32);
        let achievement_mask = range_mask(x, y, self.achievements_total as i32);
        let items_index = sorted_intersection(&self.type_items_mask, &items_mask);
        let achievement_index = sorted_intersection(&self.type_achievement_mask, &achievement_mask);
        self.search_items_mask = achievement_mask;
        self.search_achievement_mask = items_mask;
        self.indexes = achievement_index;
        self.items_indexes = items_index;
    }

    /// The search text changed: where some achievement name contains it
    /// (ignoring case), the achievement search mask becomes those names'
    /// numbers and the shown achievements those that the type mask also
    /// lets through; where none does, the achievements stay as they were.
    /// The same for the items.
    pub fn search(&mut self, query: &str)
        requires
            old(self).wf(),
        ensures
            final(self).wf(),
            final(self).same_data(old(self)),
            final(self).achievements@ == old(self).achievements@,
            final(self).items@ == old(self).items@,
            final(self).type_achievement_mask@ == old(self).type_achievement_mask@,
            final(self).type_items_mask@ == old(self).type_items_mask@,
            if any_match(strings_view(old(self).achievement_names@), query@) {
                &&& lists_matches(strings_view(old(self).achievement_names@), query@, final(self).search_achievement_mask@)
                &&& shows_intersection(
                    old(self).type_achievement_mask@,
                    final(self).search_achievement_mask@,
                    final(self).indexes@,
                )
            } else {
                &&& final(self).search_achievement_mask@ == old(self).search_achievement_mask@
                &&& final(self).indexes@ == old(self).indexes@
            },
            if any_match(strings_view(old(self).item_names@), query@) {
                &&& lists_matches(strings_view(old(self).item_names@), query@, final(self).search_items_mask@)
                &&& shows_intersection(
                    old(self).type_items_mask@,
                    final(self).search_items_mask@,
                    final(self).items_indexes@,
                )
            } else {
                &&& final(self).search_items_mask@ == old(self).search_items_mask@
                &&& final(self).items_indexes@ == old(self).items_indexes@
            },
            old(self).shows_masks() ==> final(self).shows_masks(),
            query@.len() == 0 && old(self).achievement_names@.len() > 0 ==> forall|x: i32|
                #[trigger] final(self).search_achievement_mask@.contains(x) <==> 0 <= x < old(self).achievement_names@.len(),
            query@.len() == 0 && old(self).item_names@.len() > 0 ==> forall|x: i32|
                #[trigger] final(self).search_items_mask@.contains(x) <==> 0 <= x < old(self).item_names@.len(),
    {
        let anames = matching_ids(&self.achievement_names, query);
        let inames = matching_ids(&self.item_names, query);
        proof {
            let av = strings_view(self.achievement_names@);
            let iv = strings_view(self.item_names@);
            assert(av.len() == self.achievement_names@.len());
            assert(iv.len() == self.item_names@.len());
            if query@.len() == 0 && av.len() > 0 {
                assert(matches_query(av[0], query@));
                assert(any_match(av, query@));
            }
            if query@.len() == 0 && iv.len() > 0 {
                assert(matches_query(iv[0], query@));
                assert(any_match(iv, query@));
            }
        }
        match anames {
            Some(index) => {
                let shown = sorted_intersection(&self.type_achievement_mask, &index);
                self.search_achievement_mask = index;
                self.indexes = shown;
            },
            None => {},
        }
        match inames {
            Some(index) => {
                let shown = sorted_intersection(&self.type_items_mask, &index);
                self.search_items_mask = index;
                self.items_indexes = shown;
            },
            None => {},
        }
    }

    /// The user set the achievement at list position `pos` to `unlocked`.
    pub fn set_achievement_unlocked(&mut self, pos: usize, unlocked: bool)
        requires
            old(self).wf(),
            pos < old(self).achievements@.len(),
        ensures
            final(self).wf(),
            final(self).same_data(old(self)),
            final(self).same_masks(old(self)),
            final(self).items@ == old(self).items@,
            final(self).achievements@ == old(self).achievements@.update(
                pos as int,
                Achievement { id: old(self).achievements@[pos as int].id, unlocked },
            ),
    {
        let id = self.achievements[pos].id;
        self.achievements.set(pos, Achievement { id, unlocked });
        assert forall|k: int| 0 <= k < self.achievements@.len() implies #[trigger] self.achievements@[k].id == k by {
            if k != pos {
                assert(self.achievements@[k] == old(self).achievements@[k]);
            }
        }
    }

    /// The flags that unlocking writes to the current save: one per
    /// achievement, set where the shown entry is unlocked.
    pub fn unlock(&self) -> (flags: Vec<bool>)
        requires
            forall|k: int|
                0 <= k < self.achievements@.len() ==> 0 <= #[trigger] self.achievements@[k].id
                    < self.achievements_total,
        ensures
            flags@ == unlock_flags_of(self.achievements@, self.achievements_total as nat),
    {
        flags_from_entries(&self.achievements, self.achievements_total)
    }

    /// Unlock everything: every shown achievement becomes unlocked, and the
    /// flags to write to the current save are given.
    pub fn unlock_all(&mut self) -> (flags: Vec<bool>)
        requires
            old(self).wf(),
        ensures
            final(self).wf(),
            final(self).same_data(old(self)),
            final(self).same_masks(old(self)),
            final(self).items@ == old(self).items@,
            final(self).achievements@ == all_unlocked(old(self).achievements@),
            flags@ == unlock_flags_of(final(self).achievements@, old(self).achievements_total as nat),
    {
        unlock_every(&mut self.achievements);
        assert forall|k: int| 0 <= k < self.achievements@.len() implies #[trigger] self.achievements@[k].id == k by {
            assert(old(self).achievements@[k].id == k);
        }
        flags_from_entries(&self.achievements, self.achievements_total)
    }
}

} // verus!
