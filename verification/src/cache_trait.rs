//! The pluggable page store. The trait contracts every operation against a
//! model of the file system: a map from file id to page contents. An
//! implementation may cache pages however it likes, as long as reads return
//! the file's current contents and appends persist them. `NoCache` is the
//! null implementation: it performs every read and write directly against
//! its backing store and caches nothing.
use vstd::prelude::*;

verus! {

use std::collections::HashMap;
use crate::buffer::{copy_buffer, Buffer};

broadcast use vstd::std_specs::hash::group_hash_axioms;

/// The pages of one file, each page as its 512-word sequence.
pub open spec fn pages_view(v: Seq<Buffer>) -> Seq<Seq<i64>> {
    v.map_values(|b: Buffer| b@)
}

/// The model of a store's files: file id to the sequence of its pages.
pub type FilesModel = Map<u64, Seq<Seq<i64>>>;

/// A page store addressed by whole 4 KiB pages, keyed by plain file ids;
/// the database assigns ids to the files of its index slots.
pub trait Cache: Sized {
    /// The store's files: file id to the sequence of its pages.
    spec fn files(&self) -> FilesModel;

    /// Create an empty file under an id not in use.
    fn create_file(&mut self, id: u64)
        requires
            !old(self).files().contains_key(id),
        ensures
            final(self).files() == old(self).files().insert(id, Seq::<Seq<i64>>::empty()),
    ;

    /// Remove a file and its pages.
    fn delete_file(&mut self, id: u64)
        requires
            old(self).files().contains_key(id),
        ensures
            final(self).files() == old(self).files().remove(id),
    ;

    /// How many pages a file holds.
    fn num_pages(&self, id: u64) -> (r: u64)
        requires
            self.files().contains_key(id),
            self.files()[id].len() <= u64::MAX,
        ensures
            r == self.files()[id].len(),
    ;

    /// Fetch one page. The flags let an implementation consult or fill its
    /// cache; what comes back is always the file's current contents.
    fn get_page(&mut self, id: u64, page_num: u64, check_cache: bool, add_to_cache: bool) -> (r:
        Buffer)
        requires
            old(self).files().contains_key(id),
            page_num < old(self).files()[id].len(),
        ensures
            final(self).files() == old(self).files(),
            r@ == old(self).files()[id][page_num as int],
    ;

    /// Append one page to a file and persist it. `page_num` names the page's
    /// position, which for this append-only store is the current page count.
    fn write_page(&mut self, id: u64, page_num: u64, buffer: Buffer)
        requires
            old(self).files().contains_key(id),
            buffer.wf(),
            page_num == old(self).files()[id].len(),
        ensures
            final(self).files() == old(self).files().insert(
                id,
                old(self).files()[id].push(buffer@),
            ),
    ;
}

/// Every stored page is a whole page.
spec fn file_wf(v: Vec<Buffer>) -> bool {
    forall|j: int| 0 <= j < v@.len() ==> (#[trigger] v@[j]).wf()
}

/// The null store: direct reads and writes against in-memory files, with no
/// caching at all. It is the store the correctness tests run on; a disk
/// store implements the same trait outside the verified crate.
pub struct NoCache {
    files: HashMap<u64, Vec<Buffer>>,
}

impl NoCache {
    #[verifier::type_invariant]
    closed spec fn inv(&self) -> bool {
        forall|id: u64| self.files@.contains_key(id) ==> file_wf(#[trigger] self.files@[id])
    }

    /// An empty store.
    pub fn new() -> (r: NoCache)
        ensures
            r.files() == Map::<u64, Seq<Seq<i64>>>::empty(),
    {
        let r = NoCache { files: HashMap::new() };
        proof {
            assert(r.files() =~= Map::<u64, Seq<Seq<i64>>>::empty());
        }
        r
    }
}

impl Cache for NoCache {
    closed spec fn files(&self) -> Map<u64, Seq<Seq<i64>>> {
        Map::new(
            |id: u64| self.files@.contains_key(id),
            |id: u64| pages_view(self.files@[id]@),
        )
    }

    fn create_file(&mut self, id: u64) {
        proof {
            use_type_invariant(&*self);
        }
        let mut files: HashMap<u64, Vec<Buffer>> = HashMap::new();
        core::mem::swap(&mut files, &mut self.files);
        let empty: Vec<Buffer> = Vec::new();
        files.insert(id, empty);
        core::mem::swap(&mut files, &mut self.files);
        proof {
            assert(pages_view(Seq::<Buffer>::empty()) =~= Seq::<Seq<i64>>::empty());
            assert(self.files() =~= old(self).files().insert(id, Seq::<Seq<i64>>::empty()));
        }
    }

    fn delete_file(&mut self, id: u64) {
        proof {
            use_type_invariant(&*self);
        }
        let mut files: HashMap<u64, Vec<Buffer>> = HashMap::new();
        core::mem::swap(&mut files, &mut self.files);
        files.remove(&id);
        core::mem::swap(&mut files, &mut self.files);
        proof {
            assert(self.files() =~= old(self).files().remove(id));
        }
    }

    fn num_pages(&self, id: u64) -> (r: u64) {
        proof {
            use_type_invariant(&*self);
        }
        match self.files.get(&id) {
            Some(pages) => pages.len() as u64,
            None => {
                proof {
                    assert(false);
                }
                0
            },
        }
    }

    fn get_page(&mut self, id: u64, page_num: u64, _check_cache: bool, _add_to_cache: bool) -> (r:
        Buffer) {
        proof {
            use_type_invariant(&*self);
        }
        match self.files.get(&id) {
            Some(pages) => {
                proof {
                    assert(self.files@[id] == *pages);
                    assert(file_wf(*pages));
                    assert(page_num < pages@.len());
                }
                let n: usize = pages.len();
                proof {
                    assert(page_num < n);
                }
                let idx: usize = page_num as usize;
                proof {
                    assert(idx as int == page_num as int);
                    assert(pages@[idx as int].wf());
                }
                let b = copy_buffer(&pages[idx]);
                proof {
                    assert(b@ == pages@[idx as int]@);
                    assert(pages_view(pages@)[idx as int] == pages@[idx as int]@);
                }
                b
            },
            None => {
                proof {
                    assert(false);
                }
                Buffer::new_0()
            },
        }
    }

    fn write_page(&mut self, id: u64, page_num: u64, buffer: Buffer) {
        proof {
            use_type_invariant(&*self);
        }
        let mut files: HashMap<u64, Vec<Buffer>> = HashMap::new();
        core::mem::swap(&mut files, &mut self.files);
        match files.remove(&id) {
            Some(mut pages) => {
                pages.push(buffer);
                files.insert(id, pages);
                core::mem::swap(&mut files, &mut self.files);
                proof {
                    assert(pages_view(pages@) =~= pages_view(old(self).files@[id]@).push(buffer@));
                    assert(self.files() =~= old(self).files().insert(
                        id,
                        old(self).files()[id].push(buffer@),
                    ));
                }
            },
            None => {
                core::mem::swap(&mut files, &mut self.files);
                proof {
                    assert(false);
                }
            },
        }
    }
}

} // verus!
