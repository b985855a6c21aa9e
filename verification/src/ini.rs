//! The document type and its operations.

use vstd::prelude::*;
use crate::model::{entries_of, lookup, with_pair, with_section, without_pair, Doc, Entries};
use crate::sorted::SortedMap;
use crate::text::without_leading_space;

verus! {

/// An INI document: sections by name, each a map from keys to values, both
/// kept in alphabetical order; and the file it belongs to.
///
/// Both fields are open to callers. Who changes `config_map` by hand keeps
/// [`Ini::wf`] true.
#[derive(Clone, Debug, PartialEq, Eq)]
pub struct Ini {
    pub config_map: SortedMap<SortedMap<String>>,
    /// The path of the file behind the document; empty where there is none.
    pub config_file: String,
}

/// One section as a mathematical map.
pub open spec fn entries_view(section: SortedMap<String>) -> Entries {
    Map::new(|k: Seq<char>| section@.contains_key(k), |k: Seq<char>| section@[k]@)
}

impl View for Ini {
    type V = Doc;

    open spec fn view(&self) -> Doc {
        Map::new(
            |s: Seq<char>| self.config_map@.contains_key(s),
            |s: Seq<char>| entries_view(self.config_map@[s]),
        )
    }
}

impl Ini {
    /// The section names and, in each section, the keys ascend strictly.
    pub open spec fn wf(&self) -> bool {
        &&& self.config_map.wf()
        &&& forall|s: Seq<char>| #[trigger]
            self.config_map@.contains_key(s) ==> self.config_map@[s].wf()
    }

    /// An empty document that belongs to `location`.
    pub fn empty(location: String) -> (doc: Ini)
        ensures
            doc.wf(),
            doc@ == Map::<Seq<char>, Entries>::empty(),
            doc.config_file == location,
    {
        let doc = Ini { config_map: SortedMap::new(), config_file: location };
        assert(doc@ =~= Map::<Seq<char>, Entries>::empty());
        doc
    }

    /// The value of `key` in `section`, without one leading space.
    pub fn get(&self, section: &str, key: &str) -> (r: Option<String>)
        requires
            self.wf(),
        ensures
            match r {
                Some(v) => lookup(self@, section@, key@) == Some(v@),
                None => lookup(self@, section@, key@) is None,
            },
    {
        match self.config_map.get(section) {
            Some(entries) => match entries.get(key) {
                Some(value) => Some(without_leading_space(value.as_str())),
                None => None,
            },
            None => None,
        }
    }

    /// Makes sure that `section` is there, empty if it is new.
    pub fn open_section(&mut self, section: &str)
        requires
            old(self).wf(),
        ensures
            final(self).wf(),
            final(self)@ == with_section(old(self)@, section@),
            final(self).config_file == old(self).config_file,
    {
        if !self.config_map.contains_key(section) {
            let fresh: SortedMap<String> = SortedMap::new();
            assert(entries_view(fresh) =~= Map::<Seq<char>, Seq<char>>::empty());
            self.config_map.insert(String::from_str(section), fresh);
        }
        assert(final(self)@ =~= with_section(old(self)@, section@));
    }

    /// Sets `key` to `value` in `section`, and makes the section and the key
    /// where they are missing.
    pub fn set(&mut self, section: &str, key: &str, value: &str)
        requires
            old(self).wf(),
        ensures
            final(self).wf(),
            final(self)@ == with_pair(old(self)@, section@, key@, value@),
            final(self).config_file == old(self).config_file,
    {
        let mut entries: SortedMap<String> = match self.config_map.remove(section) {
            Some(e) => e,
            None => SortedMap::new(),
        };
        let ghost before = entries;
        assert(entries_view(before) =~= entries_of(old(self)@, section@));
        entries.insert(String::from_str(key), String::from_str(value));
        assert(entries_view(entries) =~= entries_view(before).insert(key@, value@));
        self.config_map.insert(String::from_str(section), entries);
        assert(final(self)@ =~= with_pair(old(self)@, section@, key@, value@));
    }

    /// Takes `key` out of `section`. Nothing is made: without the section or
    /// without the key the document stays as it is.
    pub fn remove(&mut self, section: &str, key: &str)
        requires
            old(self).wf(),
        ensures
            final(self).wf(),
            final(self)@ == without_pair(old(self)@, section@, key@),
            final(self).config_file == old(self).config_file,
    {
        match self.config_map.remove(section) {
            Some(e) => {
                let mut entries = e;
                let ghost before = entries;
                entries.remove(key);
                assert(entries_view(entries) =~= entries_view(before).remove(key@));
                self.config_map.insert(String::from_str(section), entries);
            },
            None => {},
        }
        assert(final(self)@ =~= without_pair(old(self)@, section@, key@));
    }

    /// Takes `section` out with all that it holds.
    pub fn remove_section(&mut self, section: &str)
        requires
            old(self).wf(),
        ensures
            final(self).wf(),
            final(self)@ == old(self)@.remove(section@),
            final(self).config_file == old(self).config_file,
    {
        self.config_map.remove(section);
        assert(final(self)@ =~= old(self)@.remove(section@));
    }
    /// Whether the document is well formed, for documents whose fields were
    /// set by hand.
    pub fn is_wf(&self) -> (b: bool)
        ensures
            b == self.wf(),
    {
        if !self.config_map.is_wf() {
            return false;
        }
        let n = self.config_map.values.len();
        let mut i: usize = 0;
        while i < n
            invariant
                self.config_map.wf(),
                n == self.config_map.values@.len(),
                i <= n,
                forall|j: int| 0 <= j < i ==> (#[trigger] self.config_map.values@[j]).wf(),
            decreases n - i,
        {
            if !self.config_map.values[i].is_wf() {
                proof {
                    self.config_map.lemma_stored(i as int);
                }
                return false;
            }
            i += 1;
        }
        proof {
            assert forall|s: Seq<char>| #[trigger]
                self.config_map@.contains_key(s) implies self.config_map@[s].wf() by {
                let p = self.config_map.position(s);
                assert(self.config_map.stored_at(s, p));
                assert(self.config_map.values@[p].wf());
            }
        }
        true
    }
}

} // verus!
