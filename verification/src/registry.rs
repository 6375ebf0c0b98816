//! The color registry: labels for every color that has appeared as a cell.

use vstd::prelude::*;
use crate::color::Rgb8;

verus! {

/// The label pair recorded for a color: a full name and a one-character
/// abbreviation.
#[derive(Debug)]
pub struct ColorEntry {
    pub full_name: String,
    pub one_char: String,
}

/// Asking for the labels of a color that was never registered.
#[derive(Clone, Copy, Debug, PartialEq, Eq, Structural)]
pub struct LookupError {
    pub color: Rgb8,
}

/// A mapping from colors to their label pairs. A color is either fully
/// absent or carries both a full name and a one-character abbreviation;
/// registering a color again overwrites its previous labels.
#[derive(Debug)]
pub struct ColorMap {
    entries: Vec<(Rgb8, ColorEntry)>,
}

/// The mapping that a sequence of entries denotes, later entries winning.
spec fn entries_map(s: Seq<(Rgb8, ColorEntry)>) -> Map<Rgb8, (Seq<char>, Seq<char>)>
    decreases s.len(),
{
    if s.len() == 0 {
        Map::empty()
    } else {
        entries_map(s.drop_last()).insert(
            s.last().0,
            (s.last().1.full_name@, s.last().1.one_char@),
        )
    }
}

proof fn lemma_entries_map_contains(s: Seq<(Rgb8, ColorEntry)>, c: Rgb8)
    ensures
        entries_map(s).contains_key(c) <==> exists|i: int| 0 <= i < s.len() && s[i].0 == c,
    decreases s.len(),
{
    if s.len() > 0 {
        lemma_entries_map_contains(s.drop_last(), c);
        if entries_map(s).contains_key(c) {
            if s.last().0 == c {
                assert(s[s.len() - 1].0 == c);
            }
        }
        if exists|i: int| 0 <= i < s.len() && s[i].0 == c {
            let i = choose|i: int| 0 <= i < s.len() && s[i].0 == c;
            if i < s.len() - 1 {
                assert(s.drop_last()[i].0 == c);
            }
        }
    }
}

proof fn lemma_entries_map_at(s: Seq<(Rgb8, ColorEntry)>, i: int)
    requires
        0 <= i < s.len(),
        forall|j: int| i < j < s.len() ==> s[j].0 != s[i].0,
    ensures
        entries_map(s).contains_key(s[i].0),
        entries_map(s)[s[i].0] == (s[i].1.full_name@, s[i].1.one_char@),
    decreases s.len(),
{
    if i == s.len() - 1 {
    } else {
        lemma_entries_map_at(s.drop_last(), i);
        assert(s.drop_last()[i] == s[i]);
    }
}

impl ColorMap {
    /// All the recorded labels, as one map from color to label pair.
    pub closed spec fn view(&self) -> Map<Rgb8, (Seq<char>, Seq<char>)> {
        entries_map(self.entries@)
    }

    /// Internal shape: each color is recorded at most once.
    pub closed spec fn wf(&self) -> bool {
        forall|i: int, j: int|
            0 <= i < j < self.entries@.len() ==> self.entries@[i].0 != self.entries@[j].0
    }

    /// An empty registry.
    pub fn new() -> (m: ColorMap)
        ensures
            m.wf(),
            m@ == Map::<Rgb8, (Seq<char>, Seq<char>)>::empty(),
    {
        ColorMap { entries: Vec::new() }
    }

    /// True iff both labels are recorded for `color`.
    pub fn has(&self, color: Rgb8) -> (present: bool)
        ensures
            present == self@.contains_key(color),
    {
        proof {
            lemma_entries_map_contains(self.entries@, color);
        }
        let mut i: usize = 0;
        while i < self.entries.len()
            invariant
                i <= self.entries@.len(),
                forall|j: int| 0 <= j < i ==> self.entries@[j].0 != color,
            decreases self.entries@.len() - i,
        {
            if self.entries[i].0 == color {
                proof {
                    lemma_entries_map_contains(self.entries@, color);
                }
                return true;
            }
            i = i + 1;
        }
        false
    }

    /// Records both labels for `color`, overwriting any prior entry for
    /// that exact color.
    pub fn add_entry(&mut self, color: Rgb8, entry: ColorEntry)
        requires
            old(self).wf(),
        ensures
            final(self).wf(),
            final(self)@ == old(self)@.insert(color, (entry.full_name@, entry.one_char@)),
    {
        let ghost pre = self.entries@;
        let mut i: usize = 0;
        while i < self.entries.len()
            invariant
                self.entries@ == pre,
                old(self)@ == entries_map(pre),
                forall|j: int, k: int| 0 <= j < k < pre.len() ==> pre[j].0 != pre[k].0,
                i <= pre.len(),
                forall|j: int| 0 <= j < i ==> pre[j].0 != color,
            decreases pre.len() - i,
        {
            if self.entries[i].0 == color {
                self.entries.set(i, (color, entry));
                proof {
                    lemma_entries_map_update(pre, i as int, color, entry);
                    assert(forall|j: int, k: int|
                        0 <= j < k < self.entries@.len() ==> self.entries@[j].0
                            != self.entries@[k].0);
                }
                return ;
            }
            i = i + 1;
        }
        self.entries.push((color, entry));
        proof {
            assert(self.entries@.drop_last() =~= pre);
        }
    }

    /// The full name recorded for `color`, or a `LookupError` if it was
    /// never registered.
    pub fn full_name(&self, color: Rgb8) -> (name: Result<String, LookupError>)
        requires
            self.wf(),
        ensures
            match name {
                Ok(n) => self@.contains_key(color) && n@ == self@[color].0,
                Err(e) => !self@.contains_key(color) && e.color == color,
            },
    {
        proof {
            lemma_entries_map_contains(self.entries@, color);
        }
        let mut i: usize = 0;
        while i < self.entries.len()
            invariant
                self.wf(),
                i <= self.entries@.len(),
                forall|j: int| 0 <= j < i ==> self.entries@[j].0 != color,
            decreases self.entries@.len() - i,
        {
            if self.entries[i].0 == color {
                proof {
                    lemma_entries_map_at(self.entries@, i as int);
                }
                return Ok(self.entries[i].1.full_name.clone());
            }
            i = i + 1;
        }
        Err(LookupError { color })
    }

    /// Every recorded color with its label pair, one entry per color:
    /// exactly the graph of the mapping, for persisting it.
    pub fn entries(&self) -> (list: Vec<(Rgb8, ColorEntry)>)
        requires
            self.wf(),
        ensures
            forall|i: int|
                0 <= i < list@.len() ==> self@.contains_key(#[trigger] list@[i].0)
                    && self@[list@[i].0] == (list@[i].1.full_name@, list@[i].1.one_char@),
            forall|color: Rgb8|
                self@.contains_key(color) ==> exists|i: int|
                    0 <= i < list@.len() && #[trigger] list@[i].0 == color,
            forall|i: int, j: int| 0 <= i < j < list@.len() ==> list@[i].0 != list@[j].0,
    {
        let mut list: Vec<(Rgb8, ColorEntry)> = Vec::new();
        let mut i: usize = 0;
        while i < self.entries.len()
            invariant
                self.wf(),
                i <= self.entries@.len(),
                list@.len() == i,
                forall|j: int|
                    0 <= j < i ==> #[trigger] list@[j].0 == self.entries@[j].0 && list@[j].1.full_name@
                        == self.entries@[j].1.full_name@ && list@[j].1.one_char@
                        == self.entries@[j].1.one_char@,
            decreases self.entries@.len() - i,
        {
            let color = self.entries[i].0;
            let full_name = self.entries[i].1.full_name.clone();
            let one_char = self.entries[i].1.one_char.clone();
            list.push((color, ColorEntry { full_name, one_char }));
            i = i + 1;
        }
        proof {
            assert forall|k: int| 0 <= k < list@.len() implies self@.contains_key(
                #[trigger] list@[k].0,
            ) && self@[list@[k].0] == (list@[k].1.full_name@, list@[k].1.one_char@) by {
                lemma_entries_map_at(self.entries@, k);
            }
            assert forall|color: Rgb8| self@.contains_key(color) implies exists|k: int|
                0 <= k < list@.len() && #[trigger] list@[k].0 == color by {
                lemma_entries_map_contains(self.entries@, color);
                let k = choose|k: int| 0 <= k < self.entries@.len() && self.entries@[k].0 == color;
                assert(list@[k].0 == color);
            }
        }
        list
    }

    /// The one-character abbreviation recorded for `color`, or a
    /// `LookupError` if it was never registered.
    pub fn one_char(&self, color: Rgb8) -> (abbrev: Result<String, LookupError>)
        requires
            self.wf(),
        ensures
            match abbrev {
                Ok(a) => self@.contains_key(color) && a@ == self@[color].1,
                Err(e) => !self@.contains_key(color) && e.color == color,
            },
    {
        proof {
            lemma_entries_map_contains(self.entries@, color);
        }
        let mut i: usize = 0;
        while i < self.entries.len()
            invariant
                self.wf(),
                i <= self.entries@.len(),
                forall|j: int| 0 <= j < i ==> self.entries@[j].0 != color,
            decreases self.entries@.len() - i,
        {
            if self.entries[i].0 == color {
                proof {
                    lemma_entries_map_at(self.entries@, i as int);
                }
                return Ok(self.entries[i].1.one_char.clone());
            }
            i = i + 1;
        }
        Err(LookupError { color })
    }
}

proof fn lemma_entries_map_update(
    s: Seq<(Rgb8, ColorEntry)>,
    i: int,
    color: Rgb8,
    entry: ColorEntry,
)
    requires
        0 <= i < s.len(),
        s[i].0 == color,
        forall|j: int, k: int| 0 <= j < k < s.len() ==> s[j].0 != s[k].0,
    ensures
        entries_map(s.update(i, (color, entry))) == entries_map(s).insert(
            color,
            (entry.full_name@, entry.one_char@),
        ),
    decreases s.len(),
{
    let s2 = s.update(i, (color, entry));
    if i == s.len() - 1 {
        assert(s2.drop_last() =~= s.drop_last());
        assert(entries_map(s2) =~= entries_map(s).insert(
            color,
            (entry.full_name@, entry.one_char@),
        ));
    } else {
        assert(s2.drop_last() =~= s.drop_last().update(i, (color, entry)));
        lemma_entries_map_update(s.drop_last(), i, color, entry);
        assert(s2.last() == s.last());
        assert(s.last().0 != color);
        assert(entries_map(s2) =~= entries_map(s).insert(
            color,
            (entry.full_name@, entry.one_char@),
        ));
    }
}

} // verus!
