//! Which files have line-state records, and dropping records.
use vstd::prelude::*;
use crate::own::OwnershipStore;
use crate::text::{chars_of, starts_with, starts_with_chars, string_views};

verus! {

/// The test of a recorded name: it starts with `prefix`.
pub open spec fn under(prefix: Seq<char>) -> spec_fn(Seq<char>) -> bool {
    |name: Seq<char>| starts_with(name, prefix)
}

impl OwnershipStore {
    /// The recorded file names, in order.
    pub open spec fn names(&self) -> Seq<Seq<char>> {
        self.files.keys()
    }

    /// The recorded files whose names start with `prefix`, in name order.
    pub fn files_under(&self, prefix: &str) -> (r: Vec<String>)
        requires
            self.wf(),
        ensures
            string_views(r@) == self.names().filter(under(prefix@)),
    {
        let p = chars_of(prefix);
        let ghost names = self.names();
        let mut r: Vec<String> = Vec::new();
        let mut i: usize = 0;
        while i < self.files.len()
            invariant
                i <= names.len(),
                names == self.names(),
                p@ == prefix@,
                string_views(r@) == names.take(i as int).filter(under(prefix@)),
            decreases names.len() - i,
        {
            let name = self.files.key_at(i);
            proof {
                assert(names.take(i + 1).drop_last() =~= names.take(i as int));
                assert(names.take(i + 1).last() == name@);
                reveal(Seq::filter);
            }
            let nc = chars_of(name.as_str());
            if starts_with_chars(nc.as_slice(), p.as_slice()) {
                let ghost before = string_views(r@);
                r.push(name.clone());
                proof {
                    assert(string_views(r@) =~= before.push(name@));
                }
            }
            i = i + 1;
        }
        proof {
            assert(names.take(i as int) =~= names);
        }
        r
    }

    /// Drops the record of `file_name`; says whether it had a record.
    pub fn untrack(&mut self, file_name: &str) -> (b: bool)
        requires
            old(self).wf(),
        ensures
            final(self).wf(),
            final(self).own_dir == old(self).own_dir,
            b == old(self).model().contains_key(file_name@),
            final(self).model() == old(self).model().remove(file_name@),
    {
        let ghost before = self.model();
        let r = self.files.remove(file_name);
        proof {
            assert(self.model() =~= before.remove(file_name@));
        }
        r.is_some()
    }
}

} // verus!
