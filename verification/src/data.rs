//! The records of an inventory and the inventory itself.

use vstd::prelude::*;
use vstd::string::*;
use crate::order::{key_precedes, lemma_keys_exactly_one, lemma_keys_transitive, place_of, Place};

verus! {

/// Whether a sound is a short alert tone or a ringtone.
#[derive(Debug, Clone, Copy, PartialEq, Eq, Structural)]
pub enum MediaKind {
    Tone,
    Ringtone,
}

/// What is known of one sound file.
#[derive(Debug, Clone, PartialEq, Eq)]
pub struct Tone {
    /// The name of the file without its extension.
    pub name: String,
    /// The playing time, in nanoseconds.
    pub total_time: u128,
    /// The kind of the sound under the threshold of the scan.
    pub media_kind: MediaKind,
    /// Whether the sound is protected; no scan marks a sound so.
    pub protected_content: bool,
    /// The numeric identifier.
    pub pid: u64,
    /// The short identifier.
    pub guid: String,
}

/// A `Tone` as a mathematical value.
pub struct ToneView {
    pub name: Seq<char>,
    pub total_time: u128,
    pub media_kind: MediaKind,
    pub protected_content: bool,
    pub pid: u64,
    pub guid: Seq<char>,
}

impl View for Tone {
    type V = ToneView;

    open spec fn view(&self) -> ToneView {
        ToneView {
            name: self.name@,
            total_time: self.total_time,
            media_kind: self.media_kind,
            protected_content: self.protected_content,
            pid: self.pid,
            guid: self.guid@,
        }
    }
}

impl Tone {
    /// Whether the two records agree in every field.
    pub fn same_as(&self, other: &Tone) -> (same: bool)
        ensures
            same == (self@ == other@),
    {
        self.name == other.name && self.total_time == other.total_time && self.media_kind
            == other.media_kind && self.protected_content == other.protected_content && self.pid
            == other.pid && self.guid == other.guid
    }
}

/// A name with the record that is filed under it.
pub type Pair = (Seq<char>, ToneView);

/// Whether the names of `pairs` ascend strictly; no name then occurs twice.
pub open spec fn sorted_by_name(pairs: Seq<Pair>) -> bool {
    forall|i: int, j: int|
        0 <= i < j < pairs.len() ==> key_precedes((#[trigger] pairs[i]).0, (#[trigger] pairs[j]).0)
}

/// Whether some pair of `pairs` has the name `key`.
pub open spec fn has_key(pairs: Seq<Pair>, key: Seq<char>) -> bool {
    exists|i: int| 0 <= i < pairs.len() && (#[trigger] pairs[i]).0 == key
}

/// The position of a pair with the name `key`.
pub open spec fn index_of_key(pairs: Seq<Pair>, key: Seq<char>) -> int {
    choose|i: int| 0 <= i < pairs.len() && (#[trigger] pairs[i]).0 == key
}

/// The mapping from names to records that `pairs` lists.
pub open spec fn pairs_map(pairs: Seq<Pair>) -> Map<Seq<char>, ToneView> {
    Map::new(|key: Seq<char>| has_key(pairs, key), |key: Seq<char>| pairs[index_of_key(pairs, key)].1)
}

/// In a list sorted by name, two different places hold two different names.
pub proof fn lemma_sorted_distinct(pairs: Seq<Pair>, i: int, j: int)
    requires
        sorted_by_name(pairs),
        0 <= i < pairs.len(),
        0 <= j < pairs.len(),
        i != j,
    ensures
        pairs[i].0 != pairs[j].0,
{
    lemma_keys_exactly_one(pairs[i].0, pairs[j].0);
    if i < j {
        assert(key_precedes(pairs[i].0, pairs[j].0));
    } else {
        assert(key_precedes(pairs[j].0, pairs[i].0));
    }
}

/// In a list sorted by name, every name maps to the record that stands beside
/// it.
pub proof fn lemma_lookup(pairs: Seq<Pair>, i: int)
    requires
        sorted_by_name(pairs),
        0 <= i < pairs.len(),
    ensures
        pairs_map(pairs).contains_key(pairs[i].0),
        pairs_map(pairs)[pairs[i].0] == pairs[i].1,
{
    let key = pairs[i].0;
    assert(has_key(pairs, key));
    let j = index_of_key(pairs, key);
    if j != i {
        lemma_sorted_distinct(pairs, i, j);
    }
}

/// Putting a new name at its place in a sorted list keeps the list sorted and
/// adds the name to the mapping.
pub proof fn lemma_insert_new(pairs: Seq<Pair>, at: int, key: Seq<char>, tone: ToneView)
    requires
        sorted_by_name(pairs),
        0 <= at <= pairs.len(),
        forall|j: int| 0 <= j < at ==> key_precedes((#[trigger] pairs[j]).0, key),
        at < pairs.len() ==> key_precedes(key, pairs[at].0),
    ensures
        sorted_by_name(pairs.insert(at, (key, tone))),
        pairs_map(pairs.insert(at, (key, tone))) == pairs_map(pairs).insert(key, tone),
{
    let grown = pairs.insert(at, (key, tone));
    assert forall|j: int| at <= j < pairs.len() implies key_precedes(key, (#[trigger] pairs[j]).0) by {
        if j > at {
            lemma_keys_transitive(key, pairs[at].0, pairs[j].0);
        }
    }
    assert forall|i: int, j: int| 0 <= i < j < grown.len() implies key_precedes(
        (#[trigger] grown[i]).0,
        (#[trigger] grown[j]).0,
    ) by {
        if i < at && j > at {
            assert(grown[i] == pairs[i]);
            assert(grown[j] == pairs[j - 1]);
        } else if i < at && j < at {
            assert(grown[i] == pairs[i]);
            assert(grown[j] == pairs[j]);
        } else if i > at {
            assert(grown[i] == pairs[i - 1]);
            assert(grown[j] == pairs[j - 1]);
        } else if i == at {
            assert(grown[j] == pairs[j - 1]);
        } else {
            assert(grown[i] == pairs[i]);
        }
    }
    let before = pairs_map(pairs);
    let after = pairs_map(grown);
    assert forall|k: Seq<char>| after.contains_key(k) <==> before.insert(key, tone).contains_key(k) by {
        if has_key(grown, k) {
            let j = index_of_key(grown, k);
            if j < at {
                assert(grown[j] == pairs[j]);
            } else if j > at {
                assert(grown[j] == pairs[j - 1]);
            }
        }
        if has_key(pairs, k) {
            let j = index_of_key(pairs, k);
            if j < at {
                assert(grown[j] == pairs[j]);
            } else {
                assert(grown[j + 1] == pairs[j]);
            }
        }
        if k == key {
            assert(grown[at].0 == key);
        }
    }
    assert forall|k: Seq<char>| after.contains_key(k) implies after[k] == before.insert(key, tone)[k] by {
        let j = index_of_key(grown, k);
        lemma_lookup(grown, j);
        if j < at {
            assert(grown[j] == pairs[j]);
            lemma_lookup(pairs, j);
            lemma_keys_exactly_one(pairs[j].0, key);
        } else if j > at {
            assert(grown[j] == pairs[j - 1]);
            lemma_lookup(pairs, j - 1);
            lemma_keys_exactly_one(key, pairs[j - 1].0);
        }
    }
    assert(after =~= before.insert(key, tone));
}

/// Putting another record under a name of a sorted list keeps the list sorted
/// and changes the mapping at that name only.
pub proof fn lemma_replace(pairs: Seq<Pair>, at: int, tone: ToneView)
    requires
        sorted_by_name(pairs),
        0 <= at < pairs.len(),
    ensures
        sorted_by_name(pairs.update(at, (pairs[at].0, tone))),
        pairs_map(pairs.update(at, (pairs[at].0, tone))) == pairs_map(pairs).insert(pairs[at].0, tone),
{
    let key = pairs[at].0;
    let changed = pairs.update(at, (key, tone));
    assert forall|i: int, j: int| 0 <= i < j < changed.len() implies key_precedes(
        (#[trigger] changed[i]).0,
        (#[trigger] changed[j]).0,
    ) by {
        assert(changed[i].0 == pairs[i].0);
        assert(changed[j].0 == pairs[j].0);
    }
    let before = pairs_map(pairs);
    let after = pairs_map(changed);
    assert forall|k: Seq<char>| after.contains_key(k) <==> before.insert(key, tone).contains_key(k) by {
        if has_key(changed, k) {
            let j = index_of_key(changed, k);
            assert(changed[j].0 == pairs[j].0);
        }
        if has_key(pairs, k) {
            let j = index_of_key(pairs, k);
            assert(changed[j].0 == pairs[j].0);
        }
        if k == key {
            assert(changed[at].0 == key);
        }
    }
    assert forall|k: Seq<char>| after.contains_key(k) implies after[k] == before.insert(key, tone)[k] by {
        let j = index_of_key(changed, k);
        lemma_lookup(changed, j);
        if j != at {
            assert(changed[j] == pairs[j]);
            lemma_lookup(pairs, j);
            lemma_sorted_distinct(pairs, j, at);
        }
    }
    assert(after =~= before.insert(key, tone));
}

/// A list sorted by name holds as many pairs as its mapping holds names.
pub proof fn lemma_pairs_map_len(pairs: Seq<Pair>)
    requires
        sorted_by_name(pairs),
    ensures
        pairs_map(pairs).dom().finite(),
        pairs_map(pairs).dom().len() == pairs.len(),
    decreases pairs.len(),
{
    if pairs.len() == 0 {
        assert(pairs_map(pairs).dom() =~= Set::<Seq<char>>::empty());
    } else {
        let earlier = pairs.drop_last();
        let last = pairs.last().0;
        lemma_pairs_map_len(earlier);
        assert forall|key: Seq<char>| pairs_map(pairs).dom().contains(key) <==> pairs_map(
            earlier,
        ).dom().insert(last).contains(key) by {
            if has_key(pairs, key) {
                let i = index_of_key(pairs, key);
                if i < earlier.len() {
                    assert(earlier[i].0 == key);
                }
            }
            if has_key(earlier, key) {
                let i = index_of_key(earlier, key);
                assert(pairs[i].0 == key);
            }
            if key == last {
                assert(pairs[pairs.len() - 1].0 == key);
            }
        }
        assert(pairs_map(pairs).dom() =~= pairs_map(earlier).dom().insert(last));
        if has_key(earlier, last) {
            let i = index_of_key(earlier, last);
            assert(earlier[i] == pairs[i]);
            lemma_sorted_distinct(pairs, i, pairs.len() - 1);
        }
    }
}

/// Two lists sorted by name that list the same mapping are the same list: an
/// inventory keeps its records in one order only, whatever the order in which
/// they were filed.
pub proof fn lemma_sorted_pairs_are_determined(first: Seq<Pair>, second: Seq<Pair>)
    requires
        sorted_by_name(first),
        sorted_by_name(second),
        pairs_map(first) == pairs_map(second),
    ensures
        first == second,
    decreases first.len(),
{
    lemma_pairs_map_len(first);
    lemma_pairs_map_len(second);
    if first.len() > 0 {
        let a = first.last();
        let b = second.last();
        lemma_lookup(first, first.len() - 1);
        lemma_lookup(second, second.len() - 1);
        // the last name of either list is in the other list, and nothing comes after it
        assert(has_key(second, a.0));
        assert(has_key(first, b.0));
        let i = index_of_key(second, a.0);
        let j = index_of_key(first, b.0);
        lemma_keys_exactly_one(a.0, b.0);
        if i < second.len() - 1 {
            assert(key_precedes(second[i].0, second[second.len() - 1].0));
        }
        if j < first.len() - 1 {
            assert(key_precedes(first[j].0, first[first.len() - 1].0));
        }
        assert(a.0 == b.0);
        assert(a == b);
        let shorter_first = first.drop_last();
        let shorter_second = second.drop_last();
        assert forall|key: Seq<char>| has_key(shorter_first, key) <==> has_key(shorter_second, key) by {
            if has_key(shorter_first, key) {
                let at = index_of_key(shorter_first, key);
                assert(first[at].0 == key);
                lemma_sorted_distinct(first, at, first.len() - 1);
                assert(pairs_map(second).contains_key(key));
                let to = index_of_key(second, key);
                assert(shorter_second[to].0 == key);
            }
            if has_key(shorter_second, key) {
                let at = index_of_key(shorter_second, key);
                assert(second[at].0 == key);
                lemma_sorted_distinct(second, at, second.len() - 1);
                assert(pairs_map(first).contains_key(key));
                let to = index_of_key(first, key);
                assert(shorter_first[to].0 == key);
            }
        }
        assert forall|key: Seq<char>| has_key(shorter_first, key) implies pairs_map(shorter_first)[key]
            == pairs_map(shorter_second)[key] by {
            let at = index_of_key(shorter_first, key);
            let to = index_of_key(shorter_second, key);
            lemma_lookup(shorter_first, at);
            lemma_lookup(shorter_second, to);
            assert(first[at] == shorter_first[at]);
            assert(second[to] == shorter_second[to]);
            lemma_lookup(first, at);
            lemma_lookup(second, to);
        }
        assert(pairs_map(shorter_first) =~= pairs_map(shorter_second));
        lemma_sorted_pairs_are_determined(shorter_first, shorter_second);
        assert(first =~= shorter_first.push(a));
        assert(second =~= shorter_second.push(b));
    } else {
        assert(first =~= second);
    }
}

/// An inventory: the records of a set of sound files, each under the name of
/// its file. No name occurs twice, and the records are kept in the order of
/// their names, so that two inventories of the same files list them in the
/// same order.
#[derive(Debug)]
pub struct Ringtones {
    entries: Vec<(String, Tone)>,
}

impl View for Ringtones {
    type V = Map<Seq<char>, ToneView>;

    open spec fn view(&self) -> Map<Seq<char>, ToneView> {
        pairs_map(self.pairs())
    }
}

impl Ringtones {
    /// The names and records of the inventory, in the order in which it keeps
    /// them.
    pub closed spec fn pairs(&self) -> Seq<Pair> {
        self.entries@.map_values(|entry: (String, Tone)| (entry.0@, entry.1@))
    }

    /// What holds of every inventory: its names ascend strictly.
    pub open spec fn wf(&self) -> bool {
        sorted_by_name(self.pairs())
    }

    /// An inventory without records.
    pub fn new() -> (tones: Ringtones)
        ensures
            tones.wf(),
            tones.pairs() == Seq::<Pair>::empty(),
            tones@ == Map::<Seq<char>, ToneView>::empty(),
    {
        let tones = Ringtones { entries: Vec::new() };
        assert(tones.pairs() =~= Seq::<Pair>::empty());
        assert(tones@ =~= Map::<Seq<char>, ToneView>::empty());
        tones
    }

    /// The number of records.
    pub fn len(&self) -> (count: usize)
        requires
            self.wf(),
        ensures
            count == self.pairs().len(),
            count == self@.len(),
    {
        proof {
            lemma_pairs_map_len(self.pairs());
        }
        self.entries.len()
    }

    /// The name under which the record at position `at` is filed.
    pub fn name_at(&self, at: usize) -> (name: &String)
        requires
            at < self.pairs().len(),
        ensures
            name@ == self.pairs()[at as int].0,
    {
        &self.entries[at].0
    }

    /// The record at position `at`.
    pub fn tone_at(&self, at: usize) -> (tone: &Tone)
        requires
            at < self.pairs().len(),
        ensures
            tone@ == self.pairs()[at as int].1,
    {
        &self.entries[at].1
    }

    /// The first position whose name does not come before `name`, and whether
    /// that name is `name` itself.
    fn position(&self, name: &str) -> (place: (usize, bool))
        requires
            self.wf(),
        ensures
            place.0 <= self.pairs().len(),
            forall|j: int| 0 <= j < place.0 ==> key_precedes((#[trigger] self.pairs()[j]).0, name@),
            place.1 ==> place.0 < self.pairs().len() && self.pairs()[place.0 as int].0 == name@,
            !place.1 && place.0 < self.pairs().len() ==> key_precedes(
                name@,
                self.pairs()[place.0 as int].0,
            ),
            place.1 <==> has_key(self.pairs(), name@),
    {
        let mut at: usize = 0;
        let mut found = false;
        while at < self.entries.len()
            invariant_except_break
                !found,
            invariant
                at <= self.entries.len(),
                self.entries.len() == self.pairs().len(),
                forall|j: int| 0 <= j < at ==> key_precedes((#[trigger] self.pairs()[j]).0, name@),
            ensures
                at <= self.entries.len(),
                forall|j: int| 0 <= j < at ==> key_precedes((#[trigger] self.pairs()[j]).0, name@),
                found ==> at < self.pairs().len() && self.pairs()[at as int].0 == name@,
                !found && at < self.pairs().len() ==> key_precedes(name@, self.pairs()[at as int].0),
            decreases self.entries.len() - at,
        {
            let place = place_of(self.entries[at].0.as_str(), name);
            assert(self.pairs()[at as int].0 == self.entries[at as int].0@);
            match place {
                Place::Before => {
                    at = at + 1;
                },
                Place::Same => {
                    found = true;
                    break;
                },
                Place::After => {
                    break;
                },
            }
        }
        proof {
            let pairs = self.pairs();
            if !found {
                assert forall|j: int| 0 <= j < pairs.len() implies (#[trigger] pairs[j]).0 != name@ by {
                    lemma_keys_exactly_one(pairs[j].0, name@);
                    if j > at {
                        lemma_keys_transitive(name@, pairs[at as int].0, pairs[j].0);
                    }
                }
            }
        }
        (at, found)
    }

    /// The record filed under `name`, if there is one.
    pub fn get(&self, name: &str) -> (found: Option<&Tone>)
        requires
            self.wf(),
        ensures
            found is Some <==> self@.contains_key(name@),
            found matches Some(tone) ==> tone@ == self@[name@],
    {
        let (at, found) = self.position(name);
        if found {
            proof {
                lemma_lookup(self.pairs(), at as int);
            }
            Some(&self.entries[at].1)
        } else {
            None
        }
    }

    /// Whether a record is filed under `name`.
    pub fn contains_key(&self, name: &str) -> (found: bool)
        requires
            self.wf(),
        ensures
            found == self@.contains_key(name@),
    {
        self.position(name).1
    }

    /// Files `tone` under `name`, in place of the record that was filed under
    /// that name, if there was one.
    pub fn insert(&mut self, name: String, tone: Tone)
        requires
            old(self).wf(),
        ensures
            final(self).wf(),
            final(self)@ == old(self)@.insert(name@, tone@),
    {
        let (at, found) = self.position(name.as_str());
        let ghost before = self.pairs();
        if found {
            proof {
                lemma_replace(before, at as int, tone@);
            }
            self.entries.set(at, (name, tone));
            assert(self.pairs() =~= before.update(at as int, (name@, tone@)));
        } else {
            proof {
                lemma_insert_new(before, at as int, name@, tone@);
            }
            self.entries.insert(at, (name, tone));
            assert(self.pairs() =~= before.insert(at as int, (name@, tone@)));
        }
    }
}

} // verus!
