//! What the planner knows of the files on disk: a cache of stat results.
//!
//! The library does no I/O.  The program stats the paths that planning
//! reads and records the results here; planning then reads them from the
//! cache, and the executor forgets the outputs it rewrites.
use vstd::prelude::*;

use rustc_hash::FxHashMap;

use crate::fxmap::{meta_entries, meta_map_get, meta_map_insert, meta_map_new, meta_map_remove};
use crate::strutil::push_str;

verus! {

/// What a stat of an existing file found: its modification time, in
/// nanoseconds since the Unix epoch.
#[derive(Debug, Clone, Copy, PartialEq, Eq, Structural)]
pub struct FileMeta {
    pub mtime: i128,
}

/// Stat results by path, and the directory that relative paths start from.
pub struct StatCache {
    cache: FxHashMap<String, Option<FileMeta>>,
    workdir: String,
}

/// `dir` joined with `path` as `Path::join` does it on Unix: an absolute
/// path stands alone, else a `/` goes between unless `dir` is empty or
/// ends with one.
pub open spec fn joined(dir: Seq<char>, path: Seq<char>) -> Seq<char> {
    if path.len() > 0 && path[0] == '/' {
        path
    } else if dir.len() == 0 || dir.last() == '/' {
        dir + path
    } else {
        dir + seq!['/'] + path
    }
}

/// `dir` joined with `path`.
pub fn join_path(dir: &str, path: &str) -> (r: String)
    ensures
        r@ == joined(dir@, path@),
{
    let pc = crate::strutil::chars_of(path);
    if pc.len() > 0 && pc[0] == '/' {
        return path.to_owned();
    }
    let wc = crate::strutil::chars_of(dir);
    let mut r = dir.to_owned();
    if wc.len() > 0 && wc[wc.len() - 1] != '/' {
        crate::strutil::push_char(&mut r, '/');
    }
    push_str(&mut r, path);
    r
}

/// The position of the last `/` before `k`, or -1 when there is none.
pub open spec fn last_slash(p: Seq<char>, k: int) -> int
    decreases k,
{
    if k <= 0 {
        -1
    } else if p[k - 1] == '/' {
        k - 1
    } else {
        last_slash(p, k - 1)
    }
}

/// Where the run of `/` that ends at `k` starts.
pub open spec fn slashes_start(p: Seq<char>, k: int) -> int
    decreases k,
{
    if k <= 0 {
        0
    } else if p[k - 1] == '/' {
        slashes_start(p, k - 1)
    } else {
        k
    }
}

/// The directory of a file path: the text before its last `/` without the
/// `/`s that end it, `/` for a file in the root, and empty for a bare name.
pub open spec fn dir_of(p: Seq<char>) -> Seq<char> {
    let s = last_slash(p, p.len() as int);
    if s < 0 {
        seq![]
    } else if slashes_start(p, s) == 0 {
        seq!['/']
    } else {
        p.take(slashes_start(p, s))
    }
}

/// The file that `include rel` names when written in the file `from`: a
/// relative `rel` is taken from the directory of `from`.
pub fn include_path(from: &str, rel: &str) -> (r: String)
    ensures
        r@ == joined(dir_of(from@), rel@),
{
    let fc = crate::strutil::chars_of(from);
    let mut s = fc.len();
    while s > 0 && fc[s - 1] != '/'
        invariant
            s <= fc@.len(),
            last_slash(fc@, fc@.len() as int) == last_slash(fc@, s as int),
        decreases s,
    {
        s = s - 1;
    }
    let dir = if s == 0 {
        String::new()
    } else {
        let slash = s - 1;
        let mut e = slash;
        while e > 0 && fc[e - 1] == '/'
            invariant
                e <= slash < fc@.len(),
                slashes_start(fc@, slash as int) == slashes_start(fc@, e as int),
            decreases e,
        {
            e = e - 1;
        }
        if e == 0 {
            let mut r = String::new();
            crate::strutil::push_char(&mut r, '/');
            assert(r@ =~= seq!['/']);
            r
        } else {
            let r = crate::strutil::string_of_range(&fc, 0, e);
            assert(fc@.subrange(0, e as int) =~= fc@.take(e as int));
            r
        }
    };
    assert(dir@ == dir_of(from@));
    join_path(dir.as_str(), rel)
}

impl StatCache {
    /// The stat results recorded so far.
    pub closed spec fn entries(&self) -> Map<Seq<char>, Option<FileMeta>> {
        meta_entries(self.cache)
    }

    pub closed spec fn dir(&self) -> Seq<char> {
        self.workdir@
    }

    /// An empty cache for paths under `workdir`.
    pub fn new(workdir: String) -> (r: Self)
        ensures
            r.entries().dom().is_empty(),
            r.dir() == workdir@,
    {
        StatCache { cache: meta_map_new(), workdir }
    }

    /// The path to stat for `path`.
    pub fn full_path(&self, path: &str) -> (r: String)
        ensures
            r@ == joined(self.dir(), path@),
    {
        join_path(self.workdir.as_str(), path)
    }

    /// The recorded result for `path`, if there is one.
    pub fn lookup(&self, path: &str) -> (r: Option<Option<FileMeta>>)
        ensures
            r is Some <==> self.entries().contains_key(path@),
            r matches Some(m) ==> m == self.entries()[path@],
    {
        meta_map_get(&self.cache, path)
    }

    /// Records what a stat of `path` found.
    pub fn record(&mut self, path: &str, meta: Option<FileMeta>)
        ensures
            final(self).entries() == old(self).entries().insert(path@, meta),
            final(self).dir() == old(self).dir(),
    {
        meta_map_insert(&mut self.cache, path.to_owned(), meta);
    }

    /// Forgets what was recorded for `path`.
    pub fn invalidate(&mut self, path: &str)
        ensures
            final(self).entries() == old(self).entries().remove(path@),
            final(self).dir() == old(self).dir(),
    {
        meta_map_remove(&mut self.cache, path);
    }
}

} // verus!
