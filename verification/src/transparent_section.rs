//! Transparent array sections: sections that hold one list of items and
//! are written as a bare array, in a single file and in a split file alike.

use vstd::prelude::*;
use crate::meta::same_path;

verus! {

/// A section that holds only a list of items.
#[derive(Debug, Clone, PartialEq, Default)]
pub struct ArraySection<T> {
    /// The section's items.
    pub items: Vec<T>,
}

impl<T> ArraySection<T> {
    /// Returns the items.
    pub fn as_slice(&self) -> (r: &[T])
        ensures
            r@ == self.items@,
    {
        self.items.as_slice()
    }

    /// Returns the number of items.
    pub fn len(&self) -> (r: usize)
        ensures
            r == self.items@.len(),
    {
        self.items.len()
    }

    /// Returns whether there are no items.
    pub fn is_empty(&self) -> (r: bool)
        ensures
            r == (self.items@.len() == 0),
    {
        self.items.len() == 0
    }

    /// Decomposes the section into its items.
    pub fn into_items(self) -> (r: Vec<T>)
        ensures
            r == self.items,
    {
        self.items
    }
}

/// The names of the transparent sections a load has seen, each once.
#[derive(Debug, Clone)]
pub struct TransparentSectionTracker {
    seen: Vec<String>,
}

impl TransparentSectionTracker {
    /// The recorded names.
    pub closed spec fn seen_sections(&self) -> Seq<Seq<char>> {
        self.seen.deep_view()
    }

    /// No name is recorded twice.
    pub closed spec fn wf(&self) -> bool {
        self.seen.deep_view().no_duplicates()
    }

    /// A tracker that has seen nothing.
    pub fn new() -> (r: Self)
        ensures
            r.wf(),
            r.seen_sections().len() == 0,
    {
        let t = TransparentSectionTracker { seen: Vec::new() };
        proof {
            assert(t.seen.deep_view() =~= Seq::<Seq<char>>::empty());
        }
        t
    }

    /// Whether a section name was recorded.
    pub fn contains(&self, section: &str) -> (r: bool)
        ensures
            r == self.seen_sections().contains(section@),
    {
        let mut i: usize = 0;
        while i < self.seen.len()
            invariant
                i <= self.seen@.len(),
                forall|j: int| 0 <= j < i ==> self.seen@[j]@ != section@,
            decreases self.seen@.len() - i,
        {
            if crate::text::text_eq(self.seen[i].as_str(), section) {
                proof {
                    assert(self.seen.deep_view()[i as int] == section@);
                }
                return true;
            }
            i = i + 1;
        }
        proof {
            if self.seen.deep_view().contains(section@) {
                let k = choose|k: int| 0 <= k < self.seen.deep_view().len() && self.seen.deep_view()[k] == section@;
                assert(self.seen@[k]@ == section@);
            }
        }
        false
    }

    /// Records a section name; empty names are ignored.
    pub fn record_section(&mut self, section: &str)
        requires
            old(self).wf(),
        ensures
            final(self).wf(),
            final(self).seen_sections().to_set() == if section@.len() == 0 {
                old(self).seen_sections().to_set()
            } else {
                old(self).seen_sections().to_set().insert(section@)
            },
    {
        if section.unicode_len() == 0 {
            return;
        }
        if self.contains(section) {
            proof {
                assert(old(self).seen_sections().to_set().insert(section@) =~= old(self).seen_sections().to_set());
            }
            return;
        }
        let ghost before = self.seen.deep_view();
        self.seen.push(section.to_owned());
        proof {
            assert(self.seen.deep_view() =~= before.push(section@));
            assert forall|x: Seq<char>| #[trigger] self.seen.deep_view().to_set().contains(x) <==> before.to_set().insert(section@).contains(x) by {
                if x == section@ {
                    assert(self.seen.deep_view()[before.len() as int] == x);
                } else if before.contains(x) {
                    let k = choose|k: int| 0 <= k < before.len() && before[k] == x;
                    assert(self.seen.deep_view()[k] == x);
                }
            }
            assert(self.seen.deep_view().to_set() =~= before.to_set().insert(section@));
        }
    }
}

/// Whether a section path is one of the transparent section paths.
pub fn is_transparent_split_section(section_path: &Vec<String>, transparent_paths: &Vec<Vec<String>>) -> (r: bool)
    ensures
        r == transparent_paths.deep_view().contains(section_path.deep_view()),
{
    crate::meta::contains_path(transparent_paths, section_path)
}

} // verus!
