//! The reading positions of one book, section by section.

use vstd::prelude::*;

use crate::text::same_text;

verus! {

/// A reader's place in one section: the element at the top of the page, as the
/// child indices that lead to it, and how far it is scrolled.
pub struct ReadPosition {
    pub file_name: String,
    pub node_path: Vec<usize>,
    pub offset: usize,
}

/// What a [`ReadPosition`] holds.
#[verifier::ext_equal]
pub struct Position {
    pub file_name: Seq<char>,
    pub node_path: Seq<usize>,
    pub offset: usize,
}

impl View for ReadPosition {
    type V = Position;

    open spec fn view(&self) -> Position {
        Position { file_name: self.file_name@, node_path: self.node_path@, offset: self.offset }
    }
}

/// The place at the start of the section `file_name`.
pub open spec fn start_of(file_name: Seq<char>) -> Position {
    Position { file_name, node_path: seq![], offset: 0 }
}

impl Clone for ReadPosition {
    fn clone(&self) -> (position: Self)
        ensures
            position@ == self@,
    {
        let node_path = self.node_path.clone();
        assert(node_path@ == self.node_path@);
        ReadPosition { file_name: self.file_name.clone(), node_path, offset: self.offset }
    }
}

impl ReadPosition {
    /// The place at the start of the section `file_name`.
    pub fn new_default(file_name: String) -> (position: Self)
        ensures
            position@ == start_of(file_name@),
    {
        ReadPosition { file_name, node_path: Vec::new(), offset: 0 }
    }
}

/// The reading positions of one book: at most one for each section name.
pub struct ReadPositionFileData {
    pub read_position: Vec<(String, ReadPosition)>,
}

/// The map that a list of keyed positions stands for.
pub open spec fn position_map(entries: Seq<(String, ReadPosition)>) -> Map<Seq<char>, Position>
    decreases entries.len(),
{
    if entries.len() == 0 {
        Map::empty()
    } else {
        position_map(entries.drop_last()).insert(entries.last().0@, entries.last().1@)
    }
}

/// No name is listed twice.
pub open spec fn names_differ(entries: Seq<(String, ReadPosition)>) -> bool {
    forall|i: int, j: int|
        0 <= i < j < entries.len() ==> (#[trigger] entries[i]).0@ != (#[trigger] entries[j]).0@
}

impl View for ReadPositionFileData {
    type V = Map<Seq<char>, Position>;

    open spec fn view(&self) -> Map<Seq<char>, Position> {
        position_map(self.read_position@)
    }
}

/// Every listed entry stands in the map, and the map holds nothing else.
pub proof fn lemma_position_map(entries: Seq<(String, ReadPosition)>)
    requires
        names_differ(entries),
    ensures
        forall|i: int|
            0 <= i < entries.len() ==> {
                &&& position_map(entries).dom().contains((#[trigger] entries[i]).0@)
                &&& position_map(entries)[entries[i].0@] == entries[i].1@
            },
        forall|k: Seq<char>| #[trigger]
            position_map(entries).dom().contains(k) ==> exists|i: int|
                0 <= i < entries.len() && (#[trigger] entries[i]).0@ == k,
    decreases entries.len(),
{
    if entries.len() > 0 {
        let front = entries.drop_last();
        let last = entries.last();
        lemma_position_map(front);
        assert forall|i: int| 0 <= i < entries.len() implies {
            &&& position_map(entries).dom().contains((#[trigger] entries[i]).0@)
            &&& position_map(entries)[entries[i].0@] == entries[i].1@
        } by {
            if i < front.len() {
                assert(front[i] == entries[i]);
                assert(entries[i].0@ != entries[entries.len() - 1].0@);
            }
        }
        assert forall|k: Seq<char>| #[trigger]
            position_map(entries).dom().contains(k) implies exists|i: int|
            0 <= i < entries.len() && (#[trigger] entries[i]).0@ == k by {
            if k == last.0@ {
                assert(entries[entries.len() - 1].0@ == k);
            } else {
                assert(position_map(front).dom().contains(k));
                let i = choose|i: int| 0 <= i < front.len() && (#[trigger] front[i]).0@ == k;
                assert(entries[i].0@ == k);
            }
        }
    }
}

impl ReadPositionFileData {
    /// No section name is listed twice.
    pub open spec fn wf(&self) -> bool {
        names_differ(self.read_position@)
    }

    /// Where `name` is listed.
    fn index_of(&self, name: &str) -> (at: Option<usize>)
        ensures
            match at {
                Some(i) => i < self.read_position@.len() && self.read_position@[i as int].0@
                    == name@,
                None => forall|i: int|
                    0 <= i < self.read_position@.len() ==> (
                    #[trigger] self.read_position@[i]).0@ != name@,
            },
    {
        for i in 0..self.read_position.len()
            invariant
                forall|j: int| 0 <= j < i ==> (#[trigger] self.read_position@[j]).0@ != name@,
        {
            if same_text(self.read_position[i].0.as_str(), name) {
                return Some(i);
            }
        }
        None
    }

    /// The position kept for the section `name`.
    pub fn get(&self, name: &str) -> (position: Option<&ReadPosition>)
        requires
            self.wf(),
        ensures
            match position {
                Some(p) => self@.dom().contains(name@) && p@ == self@[name@],
                None => !self@.dom().contains(name@),
            },
    {
        proof {
            lemma_position_map(self.read_position@);
        }
        match self.index_of(name) {
            Some(i) => {
                assert(self.read_position@[i as int].0@ == name@);
                Some(&self.read_position[i].1)
            },
            None => None,
        }
    }

    /// Keeps `position` for the section `name`, in place of the one kept before.
    pub fn insert(&mut self, name: String, position: ReadPosition)
        requires
            old(self).wf(),
        ensures
            final(self).wf(),
            final(self)@ == old(self)@.insert(name@, position@),
    {
        let at = self.index_of(name.as_str());
        let ghost before = self.read_position@;
        match at {
            Some(i) => {
                self.read_position.set(i, (name, position));
                let ghost after = self.read_position@;
                proof {
                    assert(names_differ(after)) by {
                        assert forall|a: int, b: int| 0 <= a < b < after.len() implies (
                        #[trigger] after[a]).0@ != (#[trigger] after[b]).0@ by {
                            assert(after[a].0@ == before[a].0@);
                            assert(after[b].0@ == before[b].0@);
                        }
                    }
                    lemma_map_update(before, after, i as int);
                }
            },
            None => {
                self.read_position.push((name, position));
                let ghost after = self.read_position@;
                proof {
                    assert(after.drop_last() == before);
                    assert(names_differ(after)) by {
                        assert forall|a: int, b: int| 0 <= a < b < after.len() implies (
                        #[trigger] after[a]).0@ != (#[trigger] after[b]).0@ by {
                            assert(after[a] == before[a]);
                        }
                    }
                }
            },
        }
    }
}

/// Replacing one entry by another of the same name replaces its position.
proof fn lemma_map_update(
    before: Seq<(String, ReadPosition)>,
    after: Seq<(String, ReadPosition)>,
    i: int,
)
    requires
        0 <= i < before.len(),
        after == before.update(i, after[i]),
        after[i].0@ == before[i].0@,
        names_differ(before),
    ensures
        position_map(after) == position_map(before).insert(after[i].0@, after[i].1@),
    decreases before.len(),
{
    if i == before.len() - 1 {
        assert(after.drop_last() == before.drop_last());
        assert(position_map(after) == position_map(before).insert(after[i].0@, after[i].1@));
    } else {
        assert(after.drop_last() == before.drop_last().update(i, after[i]));
        assert(names_differ(before.drop_last()));
        assert(before[i].0@ != before[before.len() - 1].0@);
        lemma_map_update(before.drop_last(), after.drop_last(), i);
        assert(position_map(after) == position_map(before).insert(after[i].0@, after[i].1@));
    }
}

impl Default for ReadPositionFileData {
    fn default() -> (data: Self)
        ensures
            data.wf(),
            data@ == Map::<Seq<char>, Position>::empty(),
    {
        ReadPositionFileData { read_position: Vec::new() }
    }
}

/// The start of a section is its top: no element is passed, and nothing is scrolled.
pub proof fn law_start_of_a_section(name: Seq<char>)
    ensures
        start_of(name).file_name == name,
        start_of(name).node_path.len() == 0,
        start_of(name).offset == 0,
{
}

/// Of two places kept under one name the later one counts, and every other name is as
/// before.
pub proof fn law_places_by_name(entries: Seq<(String, ReadPosition)>, entry: (String, ReadPosition))
    ensures
        position_map(entries.push(entry)) == position_map(entries).insert(entry.0@, entry.1@),
        position_map(seq![]) == Map::<Seq<char>, Position>::empty(),
{
    assert(entries.push(entry).drop_last() == entries);
}

/// What a reading position and a list of them hold.
pub proof fn law_what_positions_hold(position: ReadPosition, data: ReadPositionFileData)
    ensures
        position@.file_name == position.file_name@,
        position@.node_path == position.node_path@,
        position@.offset == position.offset,
        data@ == position_map(data.read_position@),
{
}

} // verus!
