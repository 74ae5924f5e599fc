//! Decisions about the workspace layout, on paths given as components.
use vstd::prelude::*;
use crate::error::{CorruptState, EvsError};
use crate::hash::bytes_eq;
use crate::store::copy_bytes;

verus! {

/// What is found at a path.
#[derive(Clone, Copy, Debug, PartialEq, Eq, Structural)]
pub enum PathKind {
    Missing,
    File,
    Dir,
}

pub open spec fn components(v: Seq<Vec<u8>>) -> Seq<Seq<u8>> {
    v.map_values(|c: Vec<u8>| c@)
}

/// `target` lies under `workspace` and not under its repository directory.
pub open spec fn inside_workspace(ws: Seq<Seq<u8>>, repo_name: Seq<u8>, target: Seq<Seq<u8>>) -> bool {
    &&& ws.is_prefix_of(target)
    &&& !(target.len() > ws.len() && target[ws.len() as int] == repo_name)
}

/// The components of `target` below the workspace, or `None` where it lies
/// outside the workspace or inside the repository directory.
pub fn relative_path(workspace: &Vec<Vec<u8>>, repo_name: &Vec<u8>, target: &Vec<Vec<u8>>) -> (r:
    Option<Vec<Vec<u8>>>)
    ensures
        r is Some <==> inside_workspace(components(workspace@), repo_name@, components(target@)),
        r matches Some(v) ==> components(v@) == components(target@).subrange(
            workspace@.len() as int,
            target@.len() as int,
        ),
{
    let ghost ws = components(workspace@);
    let ghost t = components(target@);
    if workspace.len() > target.len() {
        return None;
    }
    let mut i: usize = 0;
    while i < workspace.len()
        invariant
            i <= workspace@.len() <= target@.len(),
            ws == components(workspace@),
            t == components(target@),
            forall|j: int| 0 <= j < i ==> #[trigger] ws[j] == t[j],
        decreases workspace@.len() - i,
    {
        if !bytes_eq(workspace[i].as_slice(), target[i].as_slice()) {
            assert(ws[i as int] != t[i as int]);
            return None;
        }
        i += 1;
    }
    assert(ws.is_prefix_of(t)) by {
        assert(ws =~= t.subrange(0, ws.len() as int));
    }
    if target.len() > workspace.len() && bytes_eq(target[workspace.len()].as_slice(), repo_name.as_slice()) {
        return None;
    }
    let mut rel: Vec<Vec<u8>> = Vec::new();
    let mut k = workspace.len();
    while k < target.len()
        invariant
            workspace@.len() <= k <= target@.len(),
            t == components(target@),
            components(rel@) == t.subrange(workspace@.len() as int, k as int),
        decreases target@.len() - k,
    {
        let c = copy_bytes(&target[k]);
        let ghost before = components(rel@);
        rel.push(c);
        k += 1;
        assert(components(rel@) =~= before.push(t[k - 1]));
        assert(components(rel@) =~= t.subrange(workspace@.len() as int, k as int));
    }
    Some(rel)
}

/// Checks the repository layout that was found on disk: the repository
/// directory, its store directory and its lock file, in that order.
pub fn check_layout(
    repo: PathKind,
    repo_path: &Vec<u8>,
    store: PathKind,
    store_path: &Vec<u8>,
    lock: PathKind,
    lock_path: &Vec<u8>,
) -> (r: Result<(), EvsError>)
    ensures
        repo == PathKind::Missing ==> (r matches Err(EvsError::MissingRepository(p)) && p@ == repo_path@),
        repo == PathKind::File ==> (r matches Err(
            EvsError::CorruptStateDetected(CorruptState::DirectoryIsFile(p)),
        ) && p@ == repo_path@),
        repo == PathKind::Dir && store == PathKind::Missing ==> (r matches Err(
            EvsError::CorruptStateDetected(CorruptState::MissingPath(p)),
        ) && p@ == store_path@),
        repo == PathKind::Dir && store == PathKind::File ==> (r matches Err(
            EvsError::CorruptStateDetected(CorruptState::DirectoryIsFile(p)),
        ) && p@ == store_path@),
        repo == PathKind::Dir && store == PathKind::Dir && lock == PathKind::Missing ==> (r matches Err(
            EvsError::CorruptStateDetected(CorruptState::MissingPath(p)),
        ) && p@ == lock_path@),
        repo == PathKind::Dir && store == PathKind::Dir && lock == PathKind::Dir ==> (r matches Err(
            EvsError::CorruptStateDetected(CorruptState::FileIsDirectory(p)),
        ) && p@ == lock_path@),
        r is Ok <==> (repo == PathKind::Dir && store == PathKind::Dir && lock == PathKind::File),
{
    match repo {
        PathKind::Missing => {
            return Err(EvsError::MissingRepository(copy_bytes(repo_path)));
        },
        PathKind::File => {
            return Err(
                EvsError::CorruptStateDetected(CorruptState::DirectoryIsFile(copy_bytes(repo_path))),
            );
        },
        PathKind::Dir => {},
    }
    match store {
        PathKind::Missing => {
            return Err(EvsError::CorruptStateDetected(CorruptState::MissingPath(copy_bytes(store_path))));
        },
        PathKind::File => {
            return Err(
                EvsError::CorruptStateDetected(CorruptState::DirectoryIsFile(copy_bytes(store_path))),
            );
        },
        PathKind::Dir => {},
    }
    match lock {
        PathKind::Missing => Err(
            EvsError::CorruptStateDetected(CorruptState::MissingPath(copy_bytes(lock_path))),
        ),
        PathKind::Dir => Err(
            EvsError::CorruptStateDetected(CorruptState::FileIsDirectory(copy_bytes(lock_path))),
        ),
        PathKind::File => Ok(()),
    }
}

/// Whether the upward search for a repository goes on after an attempt to
/// open one failed with `e`: only where no repository was there.
pub fn keep_searching(e: &EvsError) -> (r: bool)
    ensures
        r == (e is MissingRepository),
{
    match e {
        EvsError::MissingRepository(_) => true,
        _ => false,
    }
}

} // verus!
