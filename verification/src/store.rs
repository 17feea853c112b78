use vstd::prelude::*;

use crate::util::{bytes_eq, subvec};

verus! {

/// What one read of a file gave: its full text, or nothing when it could not
/// be read.
pub struct FileEntry {
    pub path: Vec<u8>,
    pub content: Option<Vec<u8>>,
}

impl View for FileEntry {
    type V = (Seq<u8>, Option<Seq<u8>>);

    open spec fn view(&self) -> (Seq<u8>, Option<Seq<u8>>) {
        (
            self.path@,
            match self.content {
                Some(ref c) => Some(c@),
                None => None,
            },
        )
    }
}

/// The file texts the engine works from: a snapshot, keyed by resolved path,
/// of what reading each file gave.  The engine itself never touches the file
/// system; whoever drives it records reads here.
pub struct FileStore {
    pub entries: Vec<FileEntry>,
}

pub open spec fn map_of(entries: Seq<FileEntry>) -> Map<Seq<u8>, Option<Seq<u8>>>
    decreases entries.len(),
{
    if entries.len() == 0 {
        Map::empty()
    } else {
        map_of(entries.drop_last()).insert(entries.last()@.0, entries.last()@.1)
    }
}

impl View for FileStore {
    type V = Map<Seq<u8>, Option<Seq<u8>>>;

    open spec fn view(&self) -> Map<Seq<u8>, Option<Seq<u8>>> {
        map_of(self.entries@)
    }
}

/// What looking a path up in the store gives.
pub enum Lookup {
    Missing,
    Unreadable,
    Content(Vec<u8>),
}

impl FileStore {
    /// An empty snapshot.
    pub fn new() -> (s: FileStore)
        ensures
            s@ == Map::<Seq<u8>, Option<Seq<u8>>>::empty(),
    {
        FileStore { entries: Vec::new() }
    }

    /// Record what reading `path` gave; a later record for the same path wins.
    pub fn insert(&mut self, path: Vec<u8>, content: Option<Vec<u8>>)
        ensures
            final(self)@ == old(self)@.insert(
                path@,
                match content {
                    Some(ref c) => Some(c@),
                    None => None,
                },
            ),
    {
        let ghost old_entries = self.entries@;
        let e = FileEntry { path, content };
        let ghost ev = e@;
        self.entries.push(e);
        proof {
            assert(self.entries@.drop_last() =~= old_entries);
            assert(self.entries@.last()@ == ev);
        }
    }

    /// Look a path up: the recorded text, the recorded failure, or nothing
    /// when no read of it was recorded yet.
    pub fn get(&self, path: &[u8]) -> (r: Lookup)
        ensures
            match r {
                Lookup::Missing => !self@.contains_key(path@),
                Lookup::Unreadable => self@.contains_key(path@) && self@[path@] is None,
                Lookup::Content(c) => self@.contains_key(path@) && self@[path@] == Some(c@),
            },
    {
        let n = self.entries.len();
        let mut i: usize = n;
        proof {
            assert(self.entries@.subrange(0, n as int) =~= self.entries@);
        }
        while i > 0
            invariant
                i <= n == self.entries@.len(),
                map_of(self.entries@).contains_key(path@) == map_of(
                    self.entries@.subrange(0, i as int),
                ).contains_key(path@),
                map_of(self.entries@).contains_key(path@) ==> map_of(self.entries@)[path@]
                    == map_of(self.entries@.subrange(0, i as int))[path@],
            decreases i,
        {
            proof {
                assert(self.entries@.subrange(0, i as int).drop_last() =~= self.entries@.subrange(
                    0,
                    i - 1,
                ));
                assert(self.entries@.subrange(0, i as int).last() == self.entries@[i - 1]);
            }
            let e = &self.entries[i - 1];
            if bytes_eq(e.path.as_slice(), path) {
                match &e.content {
                    Some(c) => {
                        let copy = subvec(c.as_slice(), 0, c.len());
                        proof {
                            assert(c@.subrange(0, c@.len() as int) =~= c@);
                        }
                        return Lookup::Content(copy);
                    },
                    None => {
                        return Lookup::Unreadable;
                    },
                }
            }
            i = i - 1;
        }
        proof {
            assert(self.entries@.subrange(0, 0) =~= Seq::<FileEntry>::empty());
        }
        Lookup::Missing
    }
}

} // verus!
