//! A cache of tilesets keyed by the path they were loaded from, so that a
//! tileset shared by several maps is read once.
use vstd::prelude::*;
use std::sync::Arc;
use crate::model::Tileset;
use crate::text::text_is;

verus! {

/// Holds resources such as tilesets and maps each to its path, so that no
/// resource is loaded more than once.
pub trait ResourceCache {
    /// The tilesets held, by path.
    spec fn cached(&self) -> Map<Seq<char>, Tileset>;

    /// The tileset held for `path`, if there is one.
    fn get_tileset(&self, path: &str) -> (r: Option<Arc<Tileset>>)
        ensures
            match r {
                Some(t) => self.cached().contains_key(path@) && *t == self.cached()[path@],
                None => !self.cached().contains_key(path@),
            };

    /// The tileset held for `path`; where there is none, calls `f` once and
    /// keeps what it returns. An error of `f` is handed back and leaves the
    /// cache as it was.
    fn get_or_try_insert_tileset_with<F, E>(&mut self, path: String, f: F) -> (r: Result<Arc<Tileset>, E>) where
        F: FnOnce() -> Result<Tileset, E>
        requires
            !old(self).cached().contains_key(path@) ==> f.requires(()),
        ensures
            old(self).cached().contains_key(path@) ==> {
                &&& final(self).cached() == old(self).cached()
                &&& r matches Ok(t) && *t == old(self).cached()[path@]
            },
            !old(self).cached().contains_key(path@) ==> match r {
                Ok(t) => {
                    &&& f.ensures((), Ok::<Tileset, E>(*t))
                    &&& final(self).cached() == old(self).cached().insert(path@, *t)
                },
                Err(e) => {
                    &&& f.ensures((), Err::<Tileset, E>(e))
                    &&& final(self).cached() == old(self).cached()
                },
            };
}

/// A cache that identifies resources by their path in the filesystem.
#[derive(Debug)]
pub struct FilesystemResourceCache {
    tilesets: Vec<(String, Arc<Tileset>)>,
}

/// The mapping that a list of path/tileset pairs stands for.
pub open spec fn path_map(e: Seq<(String, Arc<Tileset>)>) -> Map<Seq<char>, Tileset>
    decreases e.len(),
{
    if e.len() == 0 {
        Map::empty()
    } else {
        path_map(e.drop_last()).insert(e.last().0@, *e.last().1)
    }
}

impl FilesystemResourceCache {
    /// Creates an empty cache.
    pub fn new() -> (r: Self)
        ensures
            r.cached() == Map::<Seq<char>, Tileset>::empty(),
    {
        FilesystemResourceCache { tilesets: Vec::new() }
    }

    fn find(&self, path: &str) -> (r: Option<usize>)
        ensures
            match r {
                Some(i) => i < self.tilesets@.len() && self.cached().contains_key(path@)
                    && self.cached()[path@] == *self.tilesets@[i as int].1,
                None => !self.cached().contains_key(path@),
            },
    {
        let mut found: Option<usize> = None;
        let mut i: usize = 0;
        while i < self.tilesets.len()
            invariant
                i <= self.tilesets@.len(),
                match found {
                    Some(k) => k < i && path_map(self.tilesets@.subrange(0, i as int)).contains_key(path@)
                        && path_map(self.tilesets@.subrange(0, i as int))[path@] == *self.tilesets@[k as int].1,
                    None => !path_map(self.tilesets@.subrange(0, i as int)).contains_key(path@),
                },
            decreases self.tilesets@.len() - i,
        {
            assert(self.tilesets@.subrange(0, i + 1).drop_last() =~= self.tilesets@.subrange(0, i as int));
            if text_is(self.tilesets[i].0.as_str(), path) {
                found = Some(i);
            }
            i = i + 1;
        }
        assert(self.tilesets@.subrange(0, i as int) =~= self.tilesets@);
        found
    }
}

impl ResourceCache for FilesystemResourceCache {
    closed spec fn cached(&self) -> Map<Seq<char>, Tileset> {
        path_map(self.tilesets@)
    }

    fn get_tileset(&self, path: &str) -> (r: Option<Arc<Tileset>>) {
        match self.find(path) {
            Some(i) => Some(Arc::clone(&self.tilesets[i].1)),
            None => None,
        }
    }

    fn get_or_try_insert_tileset_with<F, E>(&mut self, path: String, f: F) -> (r: Result<Arc<Tileset>, E>) where
        F: FnOnce() -> Result<Tileset, E>
    {
        match self.find(path.as_str()) {
            Some(i) => Ok(Arc::clone(&self.tilesets[i].1)),
            None => match f() {
                Ok(t) => {
                    let a = Arc::new(t);
                    let ghost before = self.tilesets@;
                    self.tilesets.push((path, Arc::clone(&a)));
                    assert(self.tilesets@.drop_last() =~= before);
                    Ok(a)
                },
                Err(e) => Err(e),
            },
        }
    }
}

} // verus!
