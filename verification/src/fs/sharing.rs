//! Which open files exclude each other.
use crate::error::{AppError, AppResult, ReasonCode};
use crate::fs::resolver::{ResolverModel, WindowsPathResolver};
use crate::names::NameMap;
use crate::text::{push_hexadecimal, push_text, surrounded};
use vstd::multiset::Multiset;
use vstd::prelude::*;

verus! {

/// Others may read the file.
pub const FILE_SHARE_READ: u32 = 0x1;

/// Others may write the file.
pub const FILE_SHARE_WRITE: u32 = 0x2;

/// Others may delete the file.
pub const FILE_SHARE_DELETE: u32 = 0x4;

/// The file is read.
pub const ACCESS_READ: u32 = 0x1;

/// The file is written.
pub const ACCESS_WRITE: u32 = 0x2;

/// What an open file claims: what is done with it, and what others may do.
#[derive(Debug, Clone, Copy, PartialEq, Eq, Structural)]
pub struct HandleClaim {
    /// The accesses of the file.
    pub access: u32,
    /// The accesses that others may have.
    pub share: u32,
}

/// Two claims exclude each other: one of them has an access that the other
/// does not share.
pub open spec fn excluded(one: HandleClaim, other: HandleClaim) -> bool {
    other.access & !one.share != 0 || one.access & !other.share != 0
}

/// Whether two claims exclude each other.
pub fn share_conflict(existing: HandleClaim, incoming: HandleClaim) -> (conflict: bool)
    ensures
        conflict == excluded(existing, incoming),
{
    incoming.access & !existing.share != 0 || existing.access & !incoming.share != 0
}

/// One of the claims excludes a new one.
pub open spec fn any_excludes(claims: Seq<HandleClaim>, claim: HandleClaim) -> bool {
    exists|i: int| 0 <= i < claims.len() && excluded(#[trigger] claims[i], claim)
}

/// No two of the claims exclude each other.
pub open spec fn compatible(claims: Seq<HandleClaim>) -> bool {
    forall|i: int, j: int|
        0 <= i < j < claims.len() ==> !excluded(#[trigger] claims[i], #[trigger] claims[j])
}

/// The claims without the first that equals `claim`.
pub open spec fn without_first(claims: Seq<HandleClaim>, claim: HandleClaim) -> Seq<HandleClaim>
    decreases claims.len(),
{
    if claims.len() == 0 {
        claims
    } else if claims[0] == claim {
        claims.drop_first()
    } else {
        seq![claims[0]] + without_first(claims.drop_first(), claim)
    }
}

proof fn lemma_without_first_is(claims: Seq<HandleClaim>, claim: HandleClaim, at: int)
    requires
        0 <= at <= claims.len(),
        forall|i: int| 0 <= i < at ==> claims[i] != claim,
        at < claims.len() ==> claims[at] == claim,
    ensures
        without_first(claims, claim) == (if at < claims.len() {
            claims.remove(at)
        } else {
            claims
        }),
    decreases claims.len(),
{
    if claims.len() > 0 {
        if at == 0 {
            assert(claims.remove(0) =~= claims.drop_first());
        } else {
            assert(claims[0] != claim);
            let rest = claims.drop_first();
            assert forall|i: int| 0 <= i < at - 1 implies rest[i] != claim by {
                assert(claims[i + 1] != claim);
            }
            lemma_without_first_is(rest, claim, at - 1);
            if at < claims.len() {
                assert(seq![claims[0]] + rest.remove(at - 1) =~= claims.remove(at));
            } else {
                assert(seq![claims[0]] + rest =~= claims);
            }
        }
    }
}

/// A claim that is registered and released again leaves the claims as they
/// were, but for their order.
pub proof fn lemma_released_again(claims: Seq<HandleClaim>, claim: HandleClaim)
    ensures
        without_first(claims.push(claim), claim).to_multiset() == claims.to_multiset(),
    decreases claims.len(),
{
    broadcast use vstd::seq_lib::group_to_multiset_ensures;

    let longer = claims.push(claim);
    if claims.len() == 0 {
        assert(longer.drop_first() =~= claims);
    } else if claims[0] == claim {
        assert(longer.drop_first() =~= claims.drop_first().push(claim));
        assert(claims =~= seq![claim] + claims.drop_first());
        vstd::seq_lib::lemma_multiset_commutative(seq![claim], claims.drop_first());
        vstd::seq_lib::lemma_multiset_commutative(claims.drop_first(), seq![claim]);
        assert(claims.drop_first().push(claim) =~= claims.drop_first() + seq![claim]);
        assert(longer.drop_first().to_multiset() =~= claims.to_multiset());
    } else {
        let rest = claims.drop_first();
        lemma_released_again(rest, claim);
        assert(longer.drop_first() =~= rest.push(claim));
        vstd::seq_lib::lemma_multiset_commutative(
            seq![claims[0]],
            without_first(rest.push(claim), claim),
        );
        vstd::seq_lib::lemma_multiset_commutative(seq![claims[0]], rest);
        assert(claims =~= seq![claims[0]] + rest);
    }
}

/// Releasing a claim takes just one of the claims that equal it: two files
/// opened alike do not release each other.
pub proof fn lemma_release_takes_one(claims: Seq<HandleClaim>, claim: HandleClaim)
    requires
        claims.contains(claim),
    ensures
        without_first(claims, claim).to_multiset() == claims.to_multiset().remove(claim),
    decreases claims.len(),
{
    broadcast use vstd::seq_lib::group_to_multiset_ensures;

    let first = claims[0];
    let rest = claims.drop_first();
    assert(claims =~= seq![first] + rest);
    vstd::seq_lib::lemma_multiset_commutative(seq![first], rest);
    assert(seq![first].to_multiset() =~= Multiset::singleton(first)) by {
        assert(seq![first] =~= Seq::<HandleClaim>::empty().push(first));
    }
    if first == claim {
        assert(rest.to_multiset() =~= claims.to_multiset().remove(claim));
    } else {
        let k = choose|k: int| 0 <= k < claims.len() && claims[k] == claim;
        assert(rest[k - 1] == claim);
        lemma_release_takes_one(rest, claim);
        vstd::seq_lib::lemma_multiset_commutative(seq![first], without_first(rest, claim));
        assert(rest.to_multiset().count(claim) > 0);
        assert(without_first(claims, claim).to_multiset() =~= claims.to_multiset().remove(claim));
    }
}

/// Two claims exclude each other or not, whichever came first.
pub proof fn lemma_excluded_both_ways(one: HandleClaim, other: HandleClaim)
    ensures
        excluded(one, other) == excluded(other, one),
{
}

/// The claims on open files, by their path.
pub struct ShareRegistry {
    handles: NameMap<Vec<HandleClaim>>,
}

impl ShareRegistry {
    /// The claims on a path.
    pub closed spec fn claims(&self, path: Seq<char>) -> Seq<HandleClaim> {
        if self.handles@.contains_key(path) {
            self.handles@[path]@
        } else {
            Seq::empty()
        }
    }

    /// No two claims on a path exclude each other.
    pub open spec fn valid(&self) -> bool {
        forall|path: Seq<char>| compatible(#[trigger] self.claims(path))
    }

    /// A registry without claims.
    pub fn new() -> (registry: Self)
        ensures
            registry.valid(),
            forall|path: Seq<char>| #[trigger]
                registry.claims(path) == Seq::<HandleClaim>::empty(),
    {
        ShareRegistry { handles: NameMap::new() }
    }

    /// Whether a new claim on a path is not excluded.
    pub fn admits(&self, path: &str, claim: HandleClaim) -> (admitted: bool)
        ensures
            admitted == !any_excludes(self.claims(path@), claim),
    {
        match self.handles.get(path) {
            None => true,
            Some(list) => {
                let mut i: usize = 0;
                while i < list.len()
                    invariant
                        i <= list.len(),
                        list@ == self.claims(path@),
                        forall|k: int| 0 <= k < i ==> !excluded(#[trigger] list@[k], claim),
                    decreases list.len() - i,
                {
                    if share_conflict(list[i], claim) {
                        return false;
                    }
                    i += 1;
                }
                true
            },
        }
    }

    /// Registers a claim, unless one on the path excludes it.
    pub fn register(&mut self, path: &str, claim: HandleClaim) -> (registered: bool)
        requires
            old(self).valid(),
        ensures
            final(self).valid(),
            registered == !any_excludes(old(self).claims(path@), claim),
            forall|other: Seq<char>| #[trigger]
                final(self).claims(other) == (if registered && other == path@ {
                    old(self).claims(other).push(claim)
                } else {
                    old(self).claims(other)
                }),
    {
        if !self.admits(path, claim) {
            return false;
        }
        let ghost before = *self;
        let ghost was = self.claims(path@);
        let mut list: Vec<HandleClaim> = match self.handles.remove(path) {
            Some(list) => list,
            None => Vec::new(),
        };
        assert(list@ =~= was);
        list.push(claim);
        self.handles.insert(path.to_owned(), list);
        proof {
            assert forall|other: Seq<char>| #[trigger] self.claims(other) == (if other == path@ {
                before.claims(other).push(claim)
            } else {
                before.claims(other)
            }) by {}
            assert forall|other: Seq<char>| compatible(#[trigger] self.claims(other)) by {
                assert(compatible(before.claims(other)));
                if other == path@ {
                    let is = self.claims(other);
                    assert forall|i: int, j: int| 0 <= i < j < is.len() implies !excluded(
                        #[trigger] is[i],
                        #[trigger] is[j],
                    ) by {
                        if j < was.len() {
                            assert(!excluded(was[i], was[j]));
                        } else {
                            assert(!excluded(was[i], claim));
                        }
                    }
                }
            }
        }
        true
    }

    /// Releases a claim: one that equals it, where several do.
    pub fn release(&mut self, path: &str, claim: HandleClaim)
        requires
            old(self).valid(),
        ensures
            final(self).valid(),
            forall|other: Seq<char>| #[trigger]
                final(self).claims(other) == (if other == path@ {
                    without_first(old(self).claims(other), claim)
                } else {
                    old(self).claims(other)
                }),
    {
        let ghost before = *self;
        let ghost was = self.claims(path@);
        match self.handles.remove(path) {
            None => {
                assert forall|other: Seq<char>| #[trigger] self.claims(other) == before.claims(
                    other,
                ) by {}
                assert(without_first(was, claim) =~= was);
                assert(self.valid()) by {
                    assert forall|other: Seq<char>| compatible(#[trigger] self.claims(other)) by {
                        assert(compatible(before.claims(other)));
                    }
                }
            },
            Some(list) => {
                let mut list: Vec<HandleClaim> = list;
                let mut at: usize = 0;
                while at < list.len() && !(list[at].access == claim.access && list[at].share
                    == claim.share)
                    invariant
                        at <= list.len(),
                        list@ == was,
                        forall|k: int| 0 <= k < at ==> #[trigger] list@[k] != claim,
                    decreases list.len() - at,
                {
                    at += 1;
                }
                proof {
                    lemma_without_first_is(was, claim, at as int);
                }
                if at < list.len() {
                    list.remove(at);
                }
                let ghost left = list@;
                assert(left == without_first(was, claim));
                if list.len() > 0 {
                    self.handles.insert(path.to_owned(), list);
                }
                proof {
                    assert forall|other: Seq<char>| #[trigger] self.claims(other) == (if other
                        == path@ {
                        left
                    } else {
                        before.claims(other)
                    }) by {
                        if left.len() == 0 {
                            assert(left =~= Seq::<HandleClaim>::empty());
                        }
                    }
                    assert forall|other: Seq<char>| compatible(#[trigger] self.claims(other)) by {
                        assert(compatible(before.claims(other)));
                        if other == path@ {
                            assert forall|i: int, j: int| 0 <= i < j < left.len() implies !excluded(
                                #[trigger] left[i],
                                #[trigger] left[j],
                            ) by {
                                let k = if i < at {
                                    i
                                } else {
                                    i + 1
                                };
                                let l = if j < at {
                                    j
                                } else {
                                    j + 1
                                };
                                if at < was.len() {
                                    assert(!excluded(was[k], was[l]));
                                } else {
                                    assert(!excluded(was[i], was[j]));
                                }
                            }
                        }
                    }
                }
            },
        }
    }
}

/// How a file is opened: what others may do, and whether it goes when it is
/// closed.
#[derive(Debug, Clone, Copy, PartialEq, Eq, Structural)]
pub struct OpenFileOptions {
    pub share_mode: u32,
    pub delete_on_close: bool,
}

impl Default for OpenFileOptions {
    fn default() -> (options: Self)
        ensures
            options == (OpenFileOptions { share_mode: 0, delete_on_close: false }),
    {
        OpenFileOptions { share_mode: 0, delete_on_close: false }
    }
}

/// How the host is asked to open a file.
#[derive(Debug, Clone, Copy, PartialEq, Eq, Structural)]
pub struct OpenRequest {
    pub read: bool,
    pub write: bool,
    pub create: bool,
    pub truncate: bool,
    /// The claim that was registered.
    pub claim: HandleClaim,
    pub delete_on_close: bool,
}

/// The accesses of a file.
pub open spec fn access_bits(can_read: bool, can_write: bool) -> u32 {
    if can_read && can_write {
        3
    } else if can_read {
        ACCESS_READ
    } else if can_write {
        ACCESS_WRITE
    } else {
        0
    }
}

/// How the host is asked to open a file: it is created or emptied only where
/// it is written.
pub open spec fn request_for(
    can_read: bool,
    can_write: bool,
    create: bool,
    truncate: bool,
    options: OpenFileOptions,
) -> OpenRequest {
    OpenRequest {
        read: can_read,
        write: can_write,
        create: create && can_write,
        truncate: truncate && can_write,
        claim: HandleClaim {
            access: access_bits(can_read, can_write),
            share: options.share_mode,
        },
        delete_on_close: options.delete_on_close,
    }
}

/// What a sandbox profile said of a path: it may be used, or why not.
pub fn check_permission(decision: Result<(), String>) -> (outcome: AppResult<()>)
    ensures
        match outcome {
            Ok(()) => decision is Ok,
            Err(error) => decision is Err && error.code == ReasonCode::RcSandboxPathViolation,
        },
{
    match decision {
        Ok(()) => Ok(()),
        Err(reason) => Err(
            AppError::new(
                ReasonCode::RcSandboxPathViolation,
                &crate::text::joined("path denied by sandbox profile: ", &reason),
            ),
        ),
    }
}

/// Checks that a file was opened for reading.
pub fn check_readable(can_read: bool) -> (outcome: AppResult<()>)
    ensures
        match outcome {
            Ok(()) => can_read,
            Err(error) => !can_read && error.code == ReasonCode::RcCliInvalid,
        },
{
    if can_read {
        Ok(())
    } else {
        Err(AppError::new(ReasonCode::RcCliInvalid, "file not opened for reading"))
    }
}

/// Checks that a file was opened for writing.
pub fn check_writable(can_write: bool) -> (outcome: AppResult<()>)
    ensures
        match outcome {
            Ok(()) => can_write,
            Err(error) => !can_write && error.code == ReasonCode::RcCliInvalid,
        },
{
    if can_write {
        Ok(())
    } else {
        Err(AppError::new(ReasonCode::RcCliInvalid, "file not opened for writing"))
    }
}

/// A file system: where its paths lead, and which of its files are open.
pub struct RealFilesystem {
    resolver: WindowsPathResolver,
    registry: ShareRegistry,
}

/// The same under a shorter name.
pub type RealFs = RealFilesystem;

impl RealFilesystem {
    /// Where the paths lead.
    pub closed spec fn paths(&self) -> ResolverModel {
        self.resolver@
    }

    /// The claims on the open files.
    pub closed spec fn open_files(&self) -> ShareRegistry {
        self.registry
    }

    /// A file system without open files.
    pub fn new(resolver: WindowsPathResolver) -> (files: Self)
        ensures
            files.paths() == resolver@,
            files.open_files().valid(),
            forall|path: Seq<char>| #[trigger]
                files.open_files().claims(path) == Seq::<HandleClaim>::empty(),
    {
        RealFilesystem { resolver, registry: ShareRegistry::new() }
    }

    /// Where the paths lead.
    pub fn resolver(&self) -> (resolver: &WindowsPathResolver)
        ensures
            resolver@ == self.paths(),
    {
        &self.resolver
    }

    /// Claims a file that is to be opened, and says how the host is to open
    /// it. The path is the one on the host. No directory is ever created on
    /// the way.
    pub fn open_file_with_options(
        &mut self,
        real_path: &str,
        can_read: bool,
        can_write: bool,
        create: bool,
        truncate: bool,
        options: OpenFileOptions,
    ) -> (outcome: AppResult<OpenRequest>)
        requires
            old(self).open_files().valid(),
        ensures
            final(self).open_files().valid(),
            final(self).paths() == old(self).paths(),
            ({
                let request = request_for(can_read, can_write, create, truncate, options);
                let claims = old(self).open_files().claims(real_path@);
                match outcome {
                    Ok(given) => {
                        &&& !any_excludes(claims, request.claim)
                        &&& given == request
                        &&& forall|other: Seq<char>| #[trigger]
                            final(self).open_files().claims(other) == (if other == real_path@ {
                                claims.push(request.claim)
                            } else {
                                old(self).open_files().claims(other)
                            })
                    },
                    Err(error) => {
                        &&& any_excludes(claims, request.claim)
                        &&& error.code == ReasonCode::RcFsSharingViolation
                        &&& forall|other: Seq<char>| #[trigger]
                            final(self).open_files().claims(other) == old(
                                self,
                            ).open_files().claims(other)
                    },
                }
            }),
    {
        let access: u32 = if can_read && can_write {
            3
        } else if can_read {
            ACCESS_READ
        } else if can_write {
            ACCESS_WRITE
        } else {
            0
        };
        let claim = HandleClaim { access, share: options.share_mode };
        if !self.registry.register(real_path, claim) {
            let mut message: String = surrounded(
                "cannot open ",
                real_path,
                ": share-mode conflict (access=0x",
            );
            push_hexadecimal(&mut message, access as u64);
            push_text(&mut message, ", share=0x");
            push_hexadecimal(&mut message, options.share_mode as u64);
            push_text(&mut message, ")");
            return Err(AppError::new(ReasonCode::RcFsSharingViolation, &message));
        }
        Ok(
            OpenRequest {
                read: can_read,
                write: can_write,
                create: create && can_write,
                truncate: truncate && can_write,
                claim,
                delete_on_close: options.delete_on_close,
            },
        )
    }

    /// Claims a file that is to be opened for itself alone.
    pub fn open_file(
        &mut self,
        real_path: &str,
        can_read: bool,
        can_write: bool,
        create: bool,
        truncate: bool,
    ) -> (outcome: AppResult<OpenRequest>)
        requires
            old(self).open_files().valid(),
        ensures
            final(self).open_files().valid(),
            final(self).paths() == old(self).paths(),
            ({
                let request = request_for(
                    can_read,
                    can_write,
                    create,
                    truncate,
                    (OpenFileOptions { share_mode: 0, delete_on_close: false }),
                );
                let claims = old(self).open_files().claims(real_path@);
                match outcome {
                    Ok(given) => {
                        &&& !any_excludes(claims, request.claim)
                        &&& given == request
                        &&& forall|other: Seq<char>| #[trigger]
                            final(self).open_files().claims(other) == (if other == real_path@ {
                                claims.push(request.claim)
                            } else {
                                old(self).open_files().claims(other)
                            })
                    },
                    Err(error) => {
                        &&& any_excludes(claims, request.claim)
                        &&& error.code == ReasonCode::RcFsSharingViolation
                        &&& forall|other: Seq<char>| #[trigger]
                            final(self).open_files().claims(other) == old(
                                self,
                            ).open_files().claims(other)
                    },
                }
            }),
    {
        self.open_file_with_options(
            real_path,
            can_read,
            can_write,
            create,
            truncate,
            OpenFileOptions { share_mode: 0, delete_on_close: false },
        )
    }

    /// Releases the claim on a file that was closed, or that the host did not
    /// open.
    pub fn close_file(&mut self, real_path: &str, claim: HandleClaim)
        requires
            old(self).open_files().valid(),
        ensures
            final(self).open_files().valid(),
            final(self).paths() == old(self).paths(),
            forall|other: Seq<char>| #[trigger]
                final(self).open_files().claims(other) == (if other == real_path@ {
                    without_first(old(self).open_files().claims(other), claim)
                } else {
                    old(self).open_files().claims(other)
                }),
    {
        self.registry.release(real_path, claim);
    }
}

/// Two claims can stand side by side exactly where each one's accesses are all
/// among those that the other shares.
pub proof fn lemma_excluded_unless_shared(one: HandleClaim, other: HandleClaim)
    ensures
        !excluded(one, other) <==> other.access & one.share == other.access && one.access
            & other.share == one.access,
        one.access == 0 && other.access == 0 ==> !excluded(one, other),
        one.share == 0 && other.access != 0 ==> excluded(one, other),
{
    let a = one.access;
    let b = other.access;
    let s = one.share;
    let t = other.share;
    assert((b & !s == 0) == (b & s == b)) by (bit_vector);
    assert((a & !t == 0) == (a & t == a)) by (bit_vector);
    assert(0u32 & !s == 0) by (bit_vector);
    assert(0u32 & !t == 0) by (bit_vector);
    assert(b & !0u32 == b) by (bit_vector);
}

/// A request claims bit 0 to read and bit 1 to write, shares what its options
/// say, and creates or empties a file only where it may write.
pub proof fn lemma_request_claims(
    can_read: bool,
    can_write: bool,
    create: bool,
    truncate: bool,
    options: OpenFileOptions,
)
    ensures
        ({
            let request = request_for(can_read, can_write, create, truncate, options);
            &&& request.claim.access % 2 == 1 <==> can_read
            &&& request.claim.access / 2 % 2 == 1 <==> can_write
            &&& request.claim.access < 4
            &&& request.claim.share == options.share_mode
            &&& request.read == can_read && request.write == can_write
            &&& request.create <==> create && can_write
            &&& request.truncate <==> truncate && can_write
            &&& request.delete_on_close == options.delete_on_close
        }),
{
}

/// Handles that only read can stand side by side where all share reading; one
/// that writes and any other that does not share writing cannot.
pub proof fn lemma_readers_and_writers(first: OpenFileOptions, second: OpenFileOptions)
    ensures
        ({
            let reader = request_for(true, false, false, false, first).claim;
            let other = request_for(true, false, false, false, second).claim;
            let writer = request_for(false, true, false, false, second).claim;
            &&& first.share_mode & 1 != 0 && second.share_mode & 1 != 0 <==> !excluded(
                reader,
                other,
            )
            &&& first.share_mode & 2 == 0 ==> excluded(reader, writer)
            &&& second.share_mode & 1 == 0 ==> excluded(reader, writer)
            &&& first.share_mode & 2 != 0 && second.share_mode & 1 != 0 ==> !excluded(
                reader,
                writer,
            )
        }),
{
    let s = first.share_mode;
    let t = second.share_mode;
    assert((1u32 & !s == 0) == (s & 1 != 0)) by (bit_vector);
    assert((1u32 & !t == 0) == (t & 1 != 0)) by (bit_vector);
    assert((2u32 & !s == 0) == (s & 2 != 0)) by (bit_vector);
}

} // verus!
