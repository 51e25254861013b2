//! Calls into gix: reading objects, commits and trees, resolving a revision
//! and walking the first-parent history.
//!
//! An object id crosses this boundary as an `Oid`, its twenty SHA-1 bytes
//! split into the first sixteen and the last four, both read big-endian.
//! Every object id of this build is a SHA-1 id (gix is built with its
//! `sha1` hash only), so its byte slice has twenty bytes.
//!
//! What the repository holds is read from disk: nothing here claims what a
//! read returns. Each read attests its answer to the question it was asked
//! (`size_read`, `tree_read`, ...), and only an attested answer can be
//! recorded (see `world` and `walk`).
use crate::counter::StatsError;
use crate::walk::{CommitError, WalkError};
use crate::world::{entry_views, EntryKind, EntryView, Oid};
use vstd::prelude::*;

verus! {

#[verifier::external_type_specification]
#[verifier::external_body]
pub struct ExRepository(gix::Repository);

#[verifier::external_type_specification]
#[verifier::external_body]
pub struct ExFindError(gix::objs::find::existing::Error);

#[verifier::external_type_specification]
#[verifier::external_body]
pub struct ExTryIntoError(gix::object::try_into::Error);

#[verifier::external_type_specification]
#[verifier::external_body]
pub struct ExDecodeError(gix::objs::decode::Error);

#[verifier::external_type_specification]
#[verifier::external_body]
pub struct ExRevParseError(gix::revision::spec::parse::single::Error);

#[verifier::external_type_specification]
#[verifier::external_body]
pub struct ExWalkError(gix::revision::walk::Error);

#[verifier::external_type_specification]
#[verifier::external_body]
pub struct ExWalkStepError(gix::revision::walk::iter::Error);

#[verifier::external_type_specification]
#[verifier::external_body]
pub struct ExCommitError(gix::object::commit::Error);

/// Reading the header of the object `oid` gave `size`.
pub uninterp spec fn size_read(oid: Oid, size: u64) -> bool;

/// Reading the object `oid` gave these bytes.
pub uninterp spec fn data_read(oid: Oid, data: Seq<u8>) -> bool;

/// Reading the tree `oid` gave these bytes.
pub uninterp spec fn tree_data_read(oid: Oid, data: Seq<u8>) -> bool;

/// The entries `TreeRef::from_bytes` decodes from a tree's bytes.
pub uninterp spec fn tree_entries(data: Seq<u8>) -> Seq<EntryView>;

/// Reading the object `oid` gave an object of this kind.
pub uninterp spec fn kind_read(oid: Oid, kind: ObjectKind) -> bool;

/// Reading and decoding the tag `oid` gave this target.
pub uninterp spec fn target_read(oid: Oid, target: Oid) -> bool;

/// Resolving the revision specification gave this id.
pub uninterp spec fn revision_read(spec: Seq<char>, id: Oid) -> bool;

/// The first-parent walk from `tip` yielded these commits, in this order.
pub uninterp spec fn walk_read(tip: Oid, ids: Seq<Oid>) -> bool;

/// Reading the commit `id` gave this time of its committer signature (not
/// its author signature) and this tree.
pub uninterp spec fn commit_read(id: Oid, time: i64, tree: Oid) -> bool;

/// `Repository::find_header`: the size the object's header declares, read
/// without decoding the object's payload; the size read is attested as the
/// answer for `oid`.
#[verifier::external_body]
pub(crate) fn find_header_size(repo: &gix::Repository, oid: Oid) -> (r: Result<
    u64,
    gix::objs::find::existing::Error,
>)
    ensures
        r matches Ok(size) ==> size_read(oid, size),
{
    let mut bytes = [0u8; 20];
    bytes[..16].copy_from_slice(&oid.0.to_be_bytes());
    bytes[16..].copy_from_slice(&oid.1.to_be_bytes());
    repo.find_header(gix::ObjectId::from(bytes)).map(|header| header.size())
}

/// `Repository::find_object`, then `Object::detach`: the bytes of the
/// object `oid`, attested as the answer for `oid`.
#[verifier::external_body]
pub(crate) fn read_blob(repo: &gix::Repository, oid: Oid) -> (r: Result<
    Vec<u8>,
    gix::objs::find::existing::Error,
>)
    ensures
        r matches Ok(data) ==> data_read(oid, data@),
{
    let mut bytes = [0u8; 20];
    bytes[..16].copy_from_slice(&oid.0.to_be_bytes());
    bytes[16..].copy_from_slice(&oid.1.to_be_bytes());
    Ok(repo.find_object(gix::ObjectId::from(bytes))?.detach().data)
}

/// `Repository::find_object`, `Object::try_into_tree`, then
/// `Object::detach`: the bytes of the tree `oid`, attested as the answer
/// for `oid`. Each failure is reported with the id.
#[verifier::external_body]
pub(crate) fn read_tree_data(repo: &gix::Repository, oid: Oid) -> (r: Result<Vec<u8>, StatsError>)
    ensures
        r matches Ok(data) ==> tree_data_read(oid, data@),
        r matches Err(e) ==> e is ReadTree || e is NotATree,
{
    let mut bytes = [0u8; 20];
    bytes[..16].copy_from_slice(&oid.0.to_be_bytes());
    bytes[16..].copy_from_slice(&oid.1.to_be_bytes());
    let object = repo.find_object(gix::ObjectId::from(bytes)).map_err(|e| StatsError::ReadTree(oid, e))?;
    let tree = object.try_into_tree().map_err(|e| StatsError::NotATree(oid, e))?;
    Ok(tree.detach().data)
}

/// `TreeRef::from_bytes` with SHA-1 ids (the decoding `Tree::iter`
/// performs in this build): the entries in the order they are stored, each
/// as its file name, the id it names and the kind of its mode. The result
/// is a function of the bytes.
#[verifier::external_body]
pub(crate) fn decode_tree(data: &[u8]) -> (r: Result<
    Vec<(Vec<u8>, Oid, EntryKind)>,
    gix::objs::decode::Error,
>)
    ensures
        r matches Ok(entries) ==> entry_views(entries@) == tree_entries(data@),
{
    let decoded = gix::objs::TreeRef::from_bytes(data, gix::hash::Kind::Sha1)?;
    Ok(decoded.entries.iter().map(|e| {
        let b = e.oid.as_bytes();
        let id = (u128::from_be_bytes(b[..16].try_into().unwrap()), u32::from_be_bytes(b[16..].try_into().unwrap()));
        (e.filename.to_vec(), id, entry_kind_of(e.mode.kind() as u16))
    }).collect())
}

/// The kind of a tree entry from the code of gix's `EntryKind` (its
/// `repr(u16)` discriminant, the git mode it stands for).
pub fn entry_kind_of(code: u16) -> (r: EntryKind)
    ensures
        r == (if code == 0o040000 {
            EntryKind::Tree
        } else if code == 0o100644 {
            EntryKind::Blob
        } else if code == 0o100755 {
            EntryKind::BlobExecutable
        } else if code == 0o120000 {
            EntryKind::Link
        } else {
            EntryKind::Commit
        }),
{
    if code == 0o040000 {
        EntryKind::Tree
    } else if code == 0o100644 {
        EntryKind::Blob
    } else if code == 0o100755 {
        EntryKind::BlobExecutable
    } else if code == 0o120000 {
        EntryKind::Link
    } else {
        EntryKind::Commit
    }
}

/// The kind of an object: `gix::object::Kind`.
#[derive(Clone, Copy, PartialEq, Eq, Structural, Debug)]
pub enum ObjectKind {
    Tree,
    Blob,
    Commit,
    Tag,
}

/// `Repository::find_object`, then the object's `kind` field: the kind of
/// the object `oid`, attested as the answer for `oid`.
#[verifier::external_body]
pub(crate) fn read_kind(repo: &gix::Repository, oid: Oid) -> (r: Result<
    ObjectKind,
    gix::objs::find::existing::Error,
>)
    ensures
        r matches Ok(kind) ==> kind_read(oid, kind),
{
    let mut bytes = [0u8; 20];
    bytes[..16].copy_from_slice(&oid.0.to_be_bytes());
    bytes[16..].copy_from_slice(&oid.1.to_be_bytes());
    Ok(match repo.find_object(gix::ObjectId::from(bytes))?.kind {
        gix::object::Kind::Tree => ObjectKind::Tree,
        gix::object::Kind::Blob => ObjectKind::Blob,
        gix::object::Kind::Commit => ObjectKind::Commit,
        gix::object::Kind::Tag => ObjectKind::Tag,
    })
}

/// `Repository::find_object`, then `TagRefIter::target_id` on the object's
/// data with the hash kind of its id (the decoding `Tag::target_id`
/// performs): the id the tag `oid` points at, attested as the answer for
/// `oid`. Fails where the object cannot be read or decoded as a tag.
#[verifier::external_body]
pub(crate) fn read_tag_target(repo: &gix::Repository, oid: Oid) -> (r: Result<Oid, WalkError>)
    ensures
        r matches Ok(target) ==> target_read(oid, target),
        r matches Err(e) ==> (e matches WalkError::ReadObject(id, _) && id == oid) || (e matches WalkError::CorruptTag(id, _) && id == oid),
{
    let mut bytes = [0u8; 20];
    bytes[..16].copy_from_slice(&oid.0.to_be_bytes());
    bytes[16..].copy_from_slice(&oid.1.to_be_bytes());
    let object = repo.find_object(gix::ObjectId::from(bytes)).map_err(|e| WalkError::ReadObject(oid, e))?;
    let id = gix::objs::TagRefIter::from_bytes(&object.data, object.id.kind()).target_id().map_err(|e| WalkError::CorruptTag(oid, e))?;
    let b = id.as_slice();
    Ok((u128::from_be_bytes(b[..16].try_into().unwrap()), u32::from_be_bytes(b[16..].try_into().unwrap())))
}

/// `Repository::rev_parse_single`: the id a revision specification such as
/// a branch, a tag or `HEAD` names, attested as the answer for `spec`.
#[verifier::external_body]
pub(crate) fn rev_parse_single(repo: &gix::Repository, spec: &str) -> (r: Result<
    Oid,
    gix::revision::spec::parse::single::Error,
>)
    ensures
        r matches Ok(id) ==> revision_read(spec@, id),
{
    let id = repo.rev_parse_single(spec)?.detach();
    let b = id.as_slice();
    Ok((u128::from_be_bytes(b[..16].try_into().unwrap()), u32::from_be_bytes(b[16..].try_into().unwrap())))
}

/// `Repository::rev_walk` from the one tip, configured with
/// `first_parent_only`, started with `all`, and run to its end: the commits
/// it yields, in order, attested as the answer for `tip`. A walk that
/// cannot start, or fails on the way, is reported.
#[verifier::external_body]
pub(crate) fn first_parent_ids(repo: &gix::Repository, tip: Oid) -> (r: Result<Vec<Oid>, WalkError>)
    ensures
        r matches Ok(ids) ==> walk_read(tip, ids@),
        r matches Err(e) ==> e is Start || e is Step,
{
    let mut bytes = [0u8; 20];
    bytes[..16].copy_from_slice(&tip.0.to_be_bytes());
    bytes[16..].copy_from_slice(&tip.1.to_be_bytes());
    let walk = repo.rev_walk([gix::ObjectId::from(bytes)]).first_parent_only().all().map_err(WalkError::Start)?;
    walk.map(|step| step.map(|info| {
        let b = info.id.as_slice();
        (u128::from_be_bytes(b[..16].try_into().unwrap()), u32::from_be_bytes(b[16..].try_into().unwrap()))
    })).collect::<Result<Vec<Oid>, _>>().map_err(WalkError::Step)
}

/// `Repository::find_object`, `Object::try_into_commit`, `Commit::time`
/// and `Commit::tree_id`: the committer time (seconds since the Unix epoch)
/// and tree of the commit `id`, attested as the answer for `id`.
#[verifier::external_body]
pub(crate) fn read_commit(repo: &gix::Repository, id: Oid) -> (r: Result<(i64, Oid), CommitError>)
    ensures
        r matches Ok((time, tree)) ==> commit_read(id, time, tree),
{
    let mut bytes = [0u8; 20];
    bytes[..16].copy_from_slice(&id.0.to_be_bytes());
    bytes[16..].copy_from_slice(&id.1.to_be_bytes());
    let object = repo.find_object(gix::ObjectId::from(bytes)).map_err(CommitError::Read)?;
    let commit = object.try_into_commit().map_err(CommitError::NotACommit)?;
    let seconds = commit.time().map_err(CommitError::Time)?.seconds;
    let tree = commit.tree_id().map_err(CommitError::Tree)?.detach();
    let b = tree.as_slice();
    Ok((seconds, (u128::from_be_bytes(b[..16].try_into().unwrap()), u32::from_be_bytes(b[16..].try_into().unwrap()))))
}

} // verus!
