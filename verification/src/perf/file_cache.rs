//! File contents that are kept in memory.
use crate::error::{AppError, AppResult, ReasonCode};
use crate::perf::ratio::{hit_share, share_of, Ratio};
use crate::text::{noted, push_decimal, same_text};
use vstd::prelude::*;

verus! {

/// A cached file.
#[derive(Debug, Clone)]
pub struct FileCacheEntry {
    pub data: Vec<u8>,
    /// When the file was last put in or fetched, on the cache's own clock.
    pub last_access: u64,
    /// How often the file was fetched.
    pub access_count: u64,
}

#[derive(Debug)]
struct CachedFile {
    path: String,
    entry: FileCacheEntry,
}

#[verifier::ext_equal]
pub struct CachedFileModel {
    pub path: Seq<char>,
    pub data: Seq<u8>,
    pub last_access: int,
    pub access_count: int,
}

impl DeepView for CachedFile {
    type V = CachedFileModel;

    closed spec fn deep_view(&self) -> CachedFileModel {
        CachedFileModel {
            path: self.path@,
            data: self.entry.data@,
            last_access: self.entry.last_access as int,
            access_count: self.entry.access_count as int,
        }
    }
}

/// The bytes of all files.
pub open spec fn total_size(files: Seq<CachedFileModel>) -> nat
    decreases files.len(),
{
    if files.len() == 0 {
        0
    } else {
        total_size(files.drop_last()) + files.last().data.len()
    }
}

/// `path` is cached at place `i`.
pub open spec fn cached_at(files: Seq<CachedFileModel>, path: Seq<char>, i: int) -> bool {
    0 <= i < files.len() && files[i].path == path
}

pub open spec fn is_cached(files: Seq<CachedFileModel>, path: Seq<char>) -> bool {
    exists|i: int| cached_at(files, path, i)
}

pub open spec fn place_of(files: Seq<CachedFileModel>, path: Seq<char>) -> int {
    choose|i: int| cached_at(files, path, i)
}

/// `files` without `path`.
pub open spec fn without(files: Seq<CachedFileModel>, path: Seq<char>) -> Seq<CachedFileModel> {
    if is_cached(files, path) {
        files.remove(place_of(files, path))
    } else {
        files
    }
}

/// The file at place `i` was used least recently.
pub open spec fn oldest_at(files: Seq<CachedFileModel>, i: int) -> bool {
    &&& 0 <= i < files.len()
    &&& forall|j: int|
        0 <= j < files.len() ==> files[i].last_access <= (#[trigger] files[j]).last_access
}

pub open spec fn oldest(files: Seq<CachedFileModel>) -> int {
    choose|i: int| oldest_at(files, i)
}

/// What stays of `files` so that `needed` more bytes keep within `limit`: the
/// least recently used file leaves first.
pub open spec fn made_room(files: Seq<CachedFileModel>, needed: nat, limit: nat) -> Seq<
    CachedFileModel,
>
    decreases files.len(),
{
    if files.len() == 0 || total_size(files) + needed <= limit {
        files
    } else if 0 <= oldest(files) < files.len() {
        made_room(files.remove(oldest(files)), needed, limit)
    } else {
        files
    }
}

/// No path occurs twice, no two files were last used at the same time, and
/// none after `clock`.
pub open spec fn well_kept(files: Seq<CachedFileModel>, clock: int) -> bool {
    &&& forall|i: int, j: int|
        0 <= i < j < files.len() ==> #[trigger] files[i].path != #[trigger] files[j].path
    &&& forall|i: int, j: int|
        0 <= i < j < files.len() ==> #[trigger] files[i].last_access
            != #[trigger] files[j].last_access
    &&& forall|i: int|
        0 <= i < files.len() ==> (#[trigger] files[i]).last_access <= clock
            && files[i].access_count <= clock
}

proof fn lemma_size_without(files: Seq<CachedFileModel>, i: int)
    requires
        0 <= i < files.len(),
    ensures
        total_size(files.remove(i)) + files[i].data.len() == total_size(files),
    decreases files.len(),
{
    if i == files.len() - 1 {
        assert(files.remove(i) =~= files.drop_last());
    } else {
        lemma_size_without(files.drop_last(), i);
        assert(files.remove(i).drop_last() =~= files.drop_last().remove(i));
        assert(files.remove(i).last() == files.last());
    }
}

proof fn lemma_kept_without(files: Seq<CachedFileModel>, i: int, clock: int)
    requires
        well_kept(files, clock),
        0 <= i < files.len(),
    ensures
        well_kept(files.remove(i), clock),
{
    let rest = files.remove(i);
    assert forall|a: int| 0 <= a < rest.len() implies #[trigger] rest[a] == files[if a < i {
        a
    } else {
        a + 1
    }] by {}
}

proof fn lemma_one_place(files: Seq<CachedFileModel>, path: Seq<char>, i: int, clock: int)
    requires
        well_kept(files, clock),
        cached_at(files, path, i),
    ensures
        is_cached(files, path),
        place_of(files, path) == i,
{
    let j = place_of(files, path);
    assert(cached_at(files, path, j));
    assert(files[i].path == files[j].path);
}

proof fn lemma_one_oldest(files: Seq<CachedFileModel>, i: int, clock: int)
    requires
        well_kept(files, clock),
        oldest_at(files, i),
    ensures
        oldest(files) == i,
{
    let j = oldest(files);
    assert(oldest_at(files, j));
    assert(files[i].last_access <= files[j].last_access);
    assert(files[j].last_access <= files[i].last_access);
}

proof fn lemma_has_oldest(files: Seq<CachedFileModel>)
    requires
        files.len() > 0,
    ensures
        oldest_at(files, oldest(files)),
    decreases files.len(),
{
    let front = files.drop_last();
    let last = files.len() - 1;
    if front.len() == 0 {
        assert(oldest_at(files, last));
    } else {
        lemma_has_oldest(front);
        let i = oldest(front);
        if files[last].last_access < files[i].last_access {
            assert forall|j: int| 0 <= j < files.len() implies files[last].last_access <= (
            #[trigger] files[j]).last_access by {
                if j < last {
                    assert(front[j] == files[j]);
                }
            }
            assert(oldest_at(files, last));
        } else {
            assert forall|j: int| 0 <= j < files.len() implies files[i].last_access <= (
            #[trigger] files[j]).last_access by {
                if j < last {
                    assert(front[j] == files[j]);
                }
            }
            assert(oldest_at(files, i));
        }
    }
}

/// Making room leaves files that fit, all of them files that were there, and
/// every file that left was used less recently than every one that stayed.
pub proof fn lemma_least_recently_used_leave(
    files: Seq<CachedFileModel>,
    needed: nat,
    limit: nat,
)
    requires
        needed <= limit,
    ensures
        total_size(made_room(files, needed, limit)) + needed <= limit,
        made_room(files, needed, limit).len() <= files.len(),
        forall|file: CachedFileModel| #[trigger]
            made_room(files, needed, limit).contains(file) ==> files.contains(file),
        forall|gone: CachedFileModel, kept: CachedFileModel|
            #![trigger files.contains(gone), made_room(files, needed, limit).contains(kept)]
            files.contains(gone) && !made_room(files, needed, limit).contains(gone) && made_room(
                files,
                needed,
                limit,
            ).contains(kept) ==> gone.last_access <= kept.last_access,
    decreases files.len(),
{
    if files.len() > 0 && total_size(files) + needed > limit {
        lemma_has_oldest(files);
        let at = oldest(files);
        let rest = files.remove(at);
        lemma_least_recently_used_leave(rest, needed, limit);
        let kept_files = made_room(files, needed, limit);
        assert(kept_files == made_room(rest, needed, limit));
        assert forall|file: CachedFileModel| #[trigger]
            kept_files.contains(file) implies files.contains(file) by {
            assert(rest.contains(file));
            let i = choose|i: int| 0 <= i < rest.len() && rest[i] == file;
            assert(files[if i < at {
                i
            } else {
                i + 1
            }] == file);
        }
        assert forall|gone: CachedFileModel, kept: CachedFileModel|
            #![trigger files.contains(gone), kept_files.contains(kept)]
            files.contains(gone) && !kept_files.contains(gone) && kept_files.contains(
                kept,
            ) implies gone.last_access <= kept.last_access by {
            let i = choose|i: int| 0 <= i < files.len() && files[i] == gone;
            if i == at {
                assert(files.contains(kept));
                let k = choose|k: int| 0 <= k < files.len() && files[k] == kept;
                assert(files[at].last_access <= files[k].last_access);
            } else {
                assert(rest[if i < at {
                    i
                } else {
                    i - 1
                }] == gone);
                assert(rest.contains(gone));
            }
        }
    }
}

/// A file that was put in is there, with the bytes that were put in.
pub proof fn lemma_inserted_is_cached(
    kept: Seq<CachedFileModel>,
    file: CachedFileModel,
    clock: int,
)
    requires
        well_kept(kept.push(file), clock),
    ensures
        is_cached(kept.push(file), file.path),
        kept.push(file)[place_of(kept.push(file), file.path)] == file,
{
    let files = kept.push(file);
    assert(cached_at(files, file.path, kept.len() as int));
    lemma_one_place(files, file.path, kept.len() as int, clock);
}

/// Keeps files in memory, up to a number of bytes.
pub struct FileCache {
    files: Vec<CachedFile>,
    max_size_bytes: usize,
    used_bytes: usize,
    hits: u64,
    misses: u64,
    access_counter: u64,
}

impl FileCache {
    /// The cached files.
    pub closed spec fn files(&self) -> Seq<CachedFileModel> {
        self.files.deep_view()
    }

    /// The most bytes that the cache holds.
    pub closed spec fn limit(&self) -> nat {
        self.max_size_bytes as nat
    }

    pub closed spec fn used(&self) -> nat {
        self.used_bytes as nat
    }

    pub closed spec fn hit_count(&self) -> u64 {
        self.hits
    }

    pub closed spec fn miss_count(&self) -> u64 {
        self.misses
    }

    /// How many files were put in or asked for.
    pub closed spec fn clock(&self) -> u64 {
        self.access_counter
    }

    /// The bytes in use are those of the cached files and keep within the
    /// limit.
    pub open spec fn valid(&self) -> bool {
        &&& well_kept(self.files(), self.clock() as int)
        &&& self.used() == total_size(self.files())
        &&& self.used() <= self.limit()
        &&& self.hit_count() + self.miss_count() <= self.clock()
    }

    /// An empty cache for `max_size_bytes` bytes.
    pub fn new(max_size_bytes: usize) -> (cache: Self)
        ensures
            cache.valid(),
            cache.files() == Seq::<CachedFileModel>::empty(),
            cache.limit() == max_size_bytes,
            cache.hit_count() == 0,
            cache.miss_count() == 0,
            cache.clock() == 0,
    {
        let cache = FileCache {
            files: Vec::new(),
            max_size_bytes,
            used_bytes: 0,
            hits: 0,
            misses: 0,
            access_counter: 0,
        };
        assert(cache.files() =~= Seq::<CachedFileModel>::empty());
        cache
    }

    fn position(&self, path: &str) -> (found: Option<usize>)
        ensures
            match found {
                Some(i) => i < self.files@.len() && cached_at(self.files(), path@, i as int),
                None => !is_cached(self.files(), path@),
            },
    {
        let mut i: usize = 0;
        while i < self.files.len()
            invariant
                i <= self.files@.len(),
                forall|j: int| 0 <= j < i ==> !cached_at(self.files(), path@, j),
            decreases self.files@.len() - i,
        {
            if same_text(self.files[i].path.as_str(), path) {
                assert(cached_at(self.files(), path@, i as int));
                return Some(i);
            }
            i += 1;
        }
        None
    }

    /// The bytes of a cached file, which is then the most recently used one.
    pub fn get(&mut self, path: &str) -> (data: Option<&[u8]>)
        requires
            old(self).valid(),
            old(self).clock() < u64::MAX,
        ensures
            final(self).valid(),
            final(self).limit() == old(self).limit(),
            final(self).clock() == old(self).clock() + 1,
            data is Some <==> is_cached(old(self).files(), path@),
            data matches Some(bytes) ==> {
                let i = place_of(old(self).files(), path@);
                let file = old(self).files()[i];
                &&& bytes@ == file.data
                &&& final(self).files() == old(self).files().update(
                    i,
                    (CachedFileModel {
                        last_access: old(self).clock() + 1,
                        access_count: file.access_count + 1,
                        ..file
                    }),
                )
                &&& final(self).hit_count() == old(self).hit_count() + 1
                &&& final(self).miss_count() == old(self).miss_count()
            },
            data is None ==> {
                &&& final(self).files() == old(self).files()
                &&& final(self).hit_count() == old(self).hit_count()
                &&& final(self).miss_count() == old(self).miss_count() + 1
            },
    {
        let ghost before = self.files();
        let ghost clock = self.clock() as int;
        self.access_counter += 1;
        match self.position(path) {
            Some(i) => {
                proof {
                    lemma_one_place(before, path@, i as int, clock);
                    assert(before[i as int].access_count <= clock);
                }
                let mut file = self.files.remove(i);
                let ghost model = file.deep_view();
                assert(model == before[i as int]);
                file.entry.last_access = self.access_counter;
                file.entry.access_count = file.entry.access_count + 1;
                let ghost touched = file.deep_view();
                assert(touched == (CachedFileModel {
                    last_access: clock + 1,
                    access_count: model.access_count + 1,
                    ..model
                }));
                self.files.insert(i, file);
                self.hits += 1;
                proof {
                    assert(self.files() =~= before.update(i as int, touched));
                    lemma_size_updated(before, i as int, touched);
                }
                Some(self.files[i].entry.data.as_slice())
            },
            None => {
                self.misses += 1;
                None
            },
        }
    }

    /// Puts a file in, in place of what was there under its path. The least
    /// recently used files leave until there is room. A file that is larger
    /// than the whole cache is an error.
    pub fn insert(&mut self, path: &str, data: Vec<u8>) -> (outcome: AppResult<()>)
        requires
            old(self).valid(),
            old(self).clock() < u64::MAX,
        ensures
            final(self).valid(),
            final(self).limit() == old(self).limit(),
            final(self).hit_count() == old(self).hit_count(),
            final(self).miss_count() == old(self).miss_count(),
            outcome is Ok <==> data@.len() <= old(self).limit(),
            outcome matches Err(error) ==> error.code == ReasonCode::RcIo && final(self).files()
                == old(self).files() && final(self).clock() == old(self).clock(),
            outcome is Ok ==> {
                &&& final(self).clock() == old(self).clock() + 1
                &&& final(self).files() == made_room(
                    without(old(self).files(), path@),
                    data@.len(),
                    old(self).limit(),
                ).push(
                    (CachedFileModel {
                        path: path@,
                        data: data@,
                        last_access: old(self).clock() + 1,
                        access_count: 0,
                    }),
                )
            },
    {
        let size: usize = data.len();
        if size > self.max_size_bytes {
            let mut message: String = noted(
                "file cache: data size ",
                size as u64,
                " exceeds max cache size ",
            );
            push_decimal(&mut message, self.max_size_bytes as u64);
            return Err(AppError::new(ReasonCode::RcIo, &message));
        }
        let ghost clock = self.clock() as int;
        self.invalidate(path);
        let ghost base = self.files();
        assert(base == without(old(self).files(), path@));
        while self.files.len() > 0 && size > self.max_size_bytes - self.used_bytes
            invariant
                self.valid(),
                clock == self.clock(),
                size <= self.limit(),
                size == data@.len(),
                self.clock() == old(self).clock(),
                self.limit() == old(self).limit(),
                self.hit_count() == old(self).hit_count(),
                self.miss_count() == old(self).miss_count(),
                made_room(self.files(), size as nat, self.limit()) == made_room(
                    base,
                    size as nat,
                    self.limit(),
                ),
                !is_cached(self.files(), path@),
            decreases self.files@.len(),
        {
            let at: usize = self.oldest_place();
            let ghost sooner = self.files();
            proof {
                lemma_one_oldest(sooner, at as int, clock);
                lemma_size_without(sooner, at as int);
                lemma_kept_without(sooner, at as int, clock);
            }
            let gone = self.files.remove(at);
            assert(gone.deep_view() == sooner[at as int]);
            self.used_bytes = self.used_bytes - gone.entry.data.len();
            assert(self.files() =~= sooner.remove(at as int));
            assert(!is_cached(self.files(), path@)) by {
                if is_cached(self.files(), path@) {
                    let i = place_of(self.files(), path@);
                    assert(cached_at(self.files(), path@, i));
                    assert(cached_at(
                        sooner,
                        path@,
                        if i < at {
                            i
                        } else {
                            i + 1
                        },
                    ));
                }
            }
        }
        let ghost kept = self.files();
        assert(total_size(kept) + size <= self.limit()) by {
            if kept.len() == 0 {
                assert(total_size(kept) == 0);
            }
        }
        self.access_counter += 1;
        self.used_bytes += size;
        let file = CachedFile {
            path: path.to_owned(),
            entry: FileCacheEntry { data, last_access: self.access_counter, access_count: 0 },
        };
        let ghost model = file.deep_view();
        self.files.push(file);
        proof {
            assert(self.files() =~= kept.push(model));
            assert(self.files().drop_last() =~= kept);
            let files = self.files();
            assert forall|i: int, j: int|
                0 <= i < j < files.len() implies #[trigger] files[i].path
                != #[trigger] files[j].path by {
                if j == kept.len() {
                    assert(!cached_at(kept, path@, i));
                }
            }
        }
        Ok(())
    }

    fn oldest_place(&self) -> (at: usize)
        requires
            self.files@.len() > 0,
        ensures
            at < self.files@.len(),
            oldest_at(self.files(), at as int),
    {
        let mut at: usize = 0;
        let mut i: usize = 1;
        while i < self.files.len()
            invariant
                1 <= i <= self.files@.len(),
                at < i,
                forall|j: int|
                    0 <= j < i ==> self.files()[at as int].last_access <= (
                    #[trigger] self.files()[j]).last_access,
            decreases self.files@.len() - i,
        {
            if self.files[i].entry.last_access < self.files[at].entry.last_access {
                at = i;
            }
            i += 1;
        }
        at
    }

    /// Forgets a file.
    pub fn invalidate(&mut self, path: &str)
        requires
            old(self).valid(),
        ensures
            final(self).valid(),
            final(self).files() == without(old(self).files(), path@),
            !is_cached(final(self).files(), path@),
            final(self).limit() == old(self).limit(),
            final(self).hit_count() == old(self).hit_count(),
            final(self).miss_count() == old(self).miss_count(),
            final(self).clock() == old(self).clock(),
    {
        let ghost before = self.files();
        let ghost clock = self.clock() as int;
        match self.position(path) {
            Some(i) => {
                proof {
                    lemma_one_place(before, path@, i as int, clock);
                    lemma_size_without(before, i as int);
                    lemma_kept_without(before, i as int, clock);
                }
                let gone = self.files.remove(i);
                assert(gone.deep_view() == before[i as int]);
                self.used_bytes = self.used_bytes - gone.entry.data.len();
                assert(self.files() =~= before.remove(i as int));
                assert(!is_cached(self.files(), path@)) by {
                    if is_cached(self.files(), path@) {
                        let j = place_of(self.files(), path@);
                        assert(cached_at(self.files(), path@, j));
                        let k = if j < i {
                            j
                        } else {
                            j + 1
                        };
                        assert(cached_at(before, path@, k));
                        lemma_one_place(before, path@, k, clock);
                    }
                }
            },
            None => {},
        }
    }

    /// Forgets all files.
    pub fn invalidate_all(&mut self)
        requires
            old(self).valid(),
        ensures
            final(self).valid(),
            final(self).files() == Seq::<CachedFileModel>::empty(),
            final(self).limit() == old(self).limit(),
            final(self).hit_count() == old(self).hit_count(),
            final(self).miss_count() == old(self).miss_count(),
            final(self).clock() == old(self).clock(),
    {
        self.files.clear();
        self.used_bytes = 0;
        assert(self.files() =~= Seq::<CachedFileModel>::empty());
    }

    /// Hits, misses, and the share of hits.
    pub fn stats(&self) -> (stats: (u64, u64, Ratio))
        ensures
            stats.0 == self.hit_count(),
            stats.1 == self.miss_count(),
            stats.2 == share_of(self.hit_count(), self.miss_count()),
    {
        (self.hits, self.misses, hit_share(self.hits, self.misses))
    }

    /// The number of cached files.
    pub fn entry_count(&self) -> (count: usize)
        ensures
            count == self.files().len(),
    {
        self.files.len()
    }

    /// The number of bytes in use.
    pub fn used_bytes(&self) -> (count: usize)
        ensures
            count == self.used(),
    {
        self.used_bytes
    }
}

proof fn lemma_size_updated(files: Seq<CachedFileModel>, i: int, file: CachedFileModel)
    requires
        0 <= i < files.len(),
        file.data == files[i].data,
    ensures
        total_size(files.update(i, file)) == total_size(files),
    decreases files.len(),
{
    let changed = files.update(i, file);
    if i == files.len() - 1 {
        assert(changed.drop_last() =~= files.drop_last());
    } else {
        lemma_size_updated(files.drop_last(), i, file);
        assert(changed.drop_last() =~= files.drop_last().update(i, file));
    }
}

/// Nothing leaves a cache that has room, and no more leaves than must: while
/// there is no room, one that was used least recently goes, and the rest is
/// judged anew.
pub proof fn lemma_no_more_leave(files: Seq<CachedFileModel>, needed: nat, limit: nat)
    ensures
        total_size(files) + needed <= limit ==> made_room(files, needed, limit) == files,
        files.len() > 0 && total_size(files) + needed > limit ==> exists|i: int|
            {
                &&& 0 <= i < files.len()
                &&& forall|j: int|
                    0 <= j < files.len() ==> files[i].last_access <= (
                    #[trigger] files[j]).last_access
                &&& made_room(files, needed, limit) == made_room(
                    #[trigger] files.remove(i),
                    needed,
                    limit,
                )
            },
{
    if files.len() > 0 && total_size(files) + needed > limit {
        lemma_has_oldest(files);
        let i = oldest(files);
        assert(oldest_at(files, i));
        assert(made_room(files, needed, limit) == made_room(files.remove(i), needed, limit));
    }
}

} // verus!
