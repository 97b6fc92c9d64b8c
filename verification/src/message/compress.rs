//! The table of earlier name positions that name compression points back to.
use vstd::prelude::*;

verus! {

/// A table entry's key: a name suffix, label by label.
pub type Labels = Seq<Seq<char>>;

pub open spec fn table_has(t: Seq<(Labels, u16)>, key: Labels) -> bool {
    exists|i: int| 0 <= i < t.len() && #[trigger] t[i].0 == key
}

/// An index whose entry has `key`, if there is one.
pub open spec fn table_index(t: Seq<(Labels, u16)>, key: Labels) -> int {
    choose|i: int| 0 <= i < t.len() && #[trigger] t[i].0 == key
}

/// The offset recorded for `key`, if any.
pub open spec fn table_get(t: Seq<(Labels, u16)>, key: Labels) -> Option<u16> {
    if table_has(t, key) {
        Some(t[table_index(t, key)].1)
    } else {
        None
    }
}

/// `t` with `key` mapped to `off`: the entry replaced if the key is there,
/// else appended.
pub open spec fn table_insert(t: Seq<(Labels, u16)>, key: Labels, off: u16) -> Seq<(Labels, u16)> {
    if table_has(t, key) {
        t.update(table_index(t, key), (key, off))
    } else {
        t.push((key, off))
    }
}

/// No key occurs twice.
pub open spec fn table_keys_unique(t: Seq<(Labels, u16)>) -> bool {
    forall|i: int, j: int| 0 <= i < t.len() && 0 <= j < t.len() && i != j ==> #[trigger] t[i].0
        != #[trigger] t[j].0
}

/// Maps name suffixes to the message offsets where they were written in
/// full, so that a later name ending in the same labels can point at them.
pub struct NameOffsets {
    entries: Vec<(Vec<String>, u16)>,
}

pub open spec fn strings_view(v: Seq<String>) -> Labels {
    v.map_values(|s: String| s@)
}

impl View for NameOffsets {
    type V = Seq<(Labels, u16)>;

    closed spec fn view(&self) -> Seq<(Labels, u16)> {
        self.entries@.map_values(|e: (Vec<String>, u16)| (strings_view(e.0@), e.1))
    }
}

/// Whether two label lists are equal, label by label.
pub fn labels_eq(a: &[String], b: &[String]) -> (r: bool)
    ensures
        r == (strings_view(a@) == strings_view(b@)),
{
    if a.len() != b.len() {
        assert(strings_view(a@).len() != strings_view(b@).len());
        return false;
    }
    let mut i: usize = 0;
    while i < a.len()
        invariant
            a@.len() == b@.len(),
            i <= a@.len(),
            forall|k: int| 0 <= k < i ==> a@[k]@ == b@[k]@,
        decreases a@.len() - i,
    {
        if a[i] != b[i] {
            assert(strings_view(a@)[i as int] != strings_view(b@)[i as int]);
            return false;
        }
        i = i + 1;
    }
    assert(strings_view(a@) =~= strings_view(b@));
    true
}

impl NameOffsets {
    pub closed spec fn wf(&self) -> bool {
        table_keys_unique(self@)
    }

    pub fn new() -> (t: NameOffsets)
        ensures
            t@ == Seq::<(Labels, u16)>::empty(),
            t.wf(),
    {
        let t = NameOffsets { entries: Vec::new() };
        assert(t@ =~= Seq::<(Labels, u16)>::empty());
        t
    }

    fn find(&self, key: &[String]) -> (r: Option<usize>)
        requires
            self.wf(),
        ensures
            match r {
                Some(i) => i < self@.len() && self@[i as int].0 == strings_view(key@),
                None => forall|i: int| 0 <= i < self@.len() ==> #[trigger] self@[i].0 != strings_view(
                    key@,
                ),
            },
    {
        let mut i: usize = 0;
        while i < self.entries.len()
            invariant
                i <= self.entries@.len(),
                self@.len() == self.entries@.len(),
                forall|k: int| 0 <= k < i ==> #[trigger] self@[k].0 != strings_view(key@),
            decreases self.entries@.len() - i,
        {
            if labels_eq(self.entries[i].0.as_slice(), key) {
                return Some(i);
            }
            i = i + 1;
        }
        None
    }

    /// The offset recorded for `key`.
    pub fn get(&self, key: &[String]) -> (r: Option<u16>)
        requires
            self.wf(),
        ensures
            r == table_get(self@, strings_view(key@)),
    {
        match self.find(key) {
            Some(i) => {
                let ghost k = strings_view(key@);
                assert(self@[i as int].0 == k);
                assert(table_has(self@, k));
                let ghost c = table_index(self@, k);
                assert(c == i as int);
                Some(self.entries[i].1)
            },
            None => None,
        }
    }

    /// Records `off` for `key`, replacing what was recorded for it.
    pub fn insert(&mut self, key: Vec<String>, off: u16)
        requires
            old(self).wf(),
        ensures
            final(self).wf(),
            final(self)@ == table_insert(old(self)@, strings_view(key@), off),
    {
        let ghost k = strings_view(key@);
        match self.find(key.as_slice()) {
            Some(i) => {
                assert(table_has(old(self)@, k));
                let ghost c = table_index(old(self)@, k);
                assert(c == i as int);
                self.entries.set(i, (key, off));
                assert(self@ =~= old(self)@.update(i as int, (k, off)));
            },
            None => {
                self.entries.push((key, off));
                assert(self@ =~= old(self)@.push((k, off)));
            },
        }
    }
}

} // verus!
