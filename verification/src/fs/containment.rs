//! Whether a path can lead out of the root directory.
use crate::error::{AppError, AppResult, ReasonCode};
use crate::text::surrounded;
use vstd::prelude::*;

verus! {

/// What the host says of a path or of one of the directories above it.
#[derive(Debug, Clone, Copy, PartialEq, Eq, Structural)]
pub struct PathFacts {
    /// There is something at this path, be it a link that leads nowhere.
    pub present: bool,
    /// The path as it is written lies below the root.
    pub inside: bool,
    /// Whether the path, all links followed, lies below the root; nothing where
    /// a link leads nowhere.
    pub followed_inside: Option<bool>,
}

/// The first of the paths from `from` on that is there.
pub open spec fn first_present(chain: Seq<PathFacts>, from: int) -> int
    decreases chain.len() - from,
{
    if from < 0 || from >= chain.len() {
        chain.len() as int
    } else if chain[from].present {
        from
    } else {
        first_present(chain, from + 1)
    }
}

/// A path cannot lead out of the root: of it and the directories above it, the
/// first that is there lies below the root when all links are followed, and
/// none of the directories up to it lies outside as it is written. Nothing can
/// lead out of a root that does not exist.
pub open spec fn contained(root_exists: bool, chain: Seq<PathFacts>) -> bool {
    let found = first_present(chain, 0);
    !root_exists || {
        &&& found < chain.len()
        &&& forall|k: int| 1 <= k <= found ==> (#[trigger] chain[k]).inside
        &&& chain[found].followed_inside == Some(true)
    }
}

proof fn lemma_first_present(chain: Seq<PathFacts>, from: int)
    requires
        0 <= from <= chain.len(),
    ensures
        from <= first_present(chain, from) <= chain.len(),
    decreases chain.len() - from,
{
    if from < chain.len() && !chain[from].present {
        lemma_first_present(chain, from + 1);
    }
}

/// The refusal of a path that may lead out of the root.
fn escaping(path: &str, how: &str) -> (outcome: AppResult<()>)
    ensures
        outcome matches Err(error) && error.code == ReasonCode::RcFsSandboxEscape && error.message@
            == "path "@ + path@ + how@,
{
    Err(AppError::new(ReasonCode::RcFsSandboxEscape, &surrounded("path ", path, how)))
}

/// Checks that a path cannot lead out of the root. The chain is the path
/// itself and then the directories above it.
pub fn verify_within_root(path: &str, root_exists: bool, chain: &[PathFacts]) -> (outcome: AppResult<
    (),
>)
    ensures
        match outcome {
            Ok(()) => contained(root_exists, chain@),
            Err(error) => !contained(root_exists, chain@) && error.code
                == ReasonCode::RcFsSandboxEscape,
        },
{
    if !root_exists {
        return Ok(());
    }
    let mut at: usize = 0;
    while at < chain.len() && !chain[at].present
        invariant
            root_exists,
            at <= chain.len(),
            first_present(chain@, 0) == first_present(chain@, at as int),
            forall|k: int| 1 <= k <= at && k < chain.len() ==> (#[trigger] chain@[k]).inside,
        decreases chain.len() - at,
    {
        if at + 1 < chain.len() && !chain[at + 1].inside {
            proof {
                lemma_first_present(chain@, at + 1);
                assert(!chain@[at + 1].inside);
            }
            return escaping(path, " leaves the GE root");
        }
        at += 1;
    }
    if at >= chain.len() {
        return escaping(path, " has no existing ancestor inside the GE root");
    }
    match chain[at].followed_inside {
        Some(true) => Ok(()),
        Some(false) => escaping(path, " escapes the GE root via a symlink"),
        None => escaping(
            path,
            " contains a dangling symlink whose target cannot be verified inside the GE root",
        ),
    }
}

/// The path that is judged is the first of the chain where something is.
pub proof fn lemma_judged_path(chain: Seq<PathFacts>)
    ensures
        ({
            let found = first_present(chain, 0);
            &&& 0 <= found <= chain.len()
            &&& forall|i: int| 0 <= i < found ==> !(#[trigger] chain[i]).present
            &&& found < chain.len() ==> chain[found].present
        }),
{
    lemma_present_from(chain, 0);
}

proof fn lemma_present_from(chain: Seq<PathFacts>, from: int)
    requires
        0 <= from <= chain.len(),
    ensures
        ({
            let found = first_present(chain, from);
            &&& from <= found <= chain.len()
            &&& forall|i: int| from <= i < found ==> !(#[trigger] chain[i]).present
            &&& found < chain.len() ==> chain[found].present
        }),
    decreases chain.len() - from,
{
    if from < chain.len() && !chain[from].present {
        lemma_present_from(chain, from + 1);
    }
}

/// Where nothing is at the root nothing can lie outside it. Else what is there
/// has to lead to the inside with all links followed, every parent up to it has
/// to be written below the root, and a chain without anything there is refused.
pub proof fn lemma_contained(chain: Seq<PathFacts>, at: int)
    requires
        0 <= at < chain.len(),
    ensures
        contained(false, chain),
        (forall|i: int| 0 <= i < chain.len() ==> !(#[trigger] chain[i]).present) ==> !contained(
            true,
            chain,
        ),
        chain[at].present && (forall|i: int| 0 <= i < at ==> !(#[trigger] chain[i]).present) ==> {
            &&& chain[at].followed_inside != Some(true) ==> !contained(true, chain)
            &&& (exists|k: int| 1 <= k <= at && !(#[trigger] chain[k]).inside) ==> !contained(
                true,
                chain,
            )
            &&& chain[at].followed_inside == Some(true) && (forall|k: int|
                1 <= k <= at ==> (#[trigger] chain[k]).inside) ==> contained(true, chain)
        },
{
    lemma_judged_path(chain);
}

} // verus!
