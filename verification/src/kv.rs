//! The ordered key-value substrate: trees of byte keys and byte values,
//! kept by the `sled` engine.
//!
//! What a tree holds is described by a map from keys to values. The
//! library opens each tree once, under a name of its own, and keeps the
//! handle to itself: what is said here of a tree holds as long as nothing
//! else writes to it.

use crate::errors::StoreError;
use crate::store::lists_map;
use crate::text::text_of;
use vstd::prelude::*;

verus! {

/// A tree of the engine: an ordered map from byte keys to byte values.
#[verifier::external_type_specification]
#[verifier::external_body]
pub struct ExTree(sled::Tree);

/// A database of the engine: a set of named trees.
#[verifier::external_type_specification]
#[verifier::external_body]
pub struct ExDb(sled::Db);

/// An iterator of the engine over the entries of a tree.
#[verifier::external_type_specification]
#[verifier::external_body]
pub struct ExIter(sled::Iter);

/// A byte string of the engine: the type in which the engine's iterator
/// hands out keys and values.
#[verifier::external_type_specification]
#[verifier::external_body]
pub struct ExIVec(sled::IVec);

/// An error of the engine.
#[verifier::external_type_specification]
#[verifier::external_body]
pub struct ExError(sled::Error);

/// What a tree holds.
pub uninterp spec fn tree_map(tree: sled::Tree) -> Map<Seq<u8>, Seq<u8>>;

/// The entries that an iterator has yet to hand out, in the order in which
/// it will hand them out.
pub uninterp spec fn iter_rest(iter: sled::Iter) -> Seq<(Seq<u8>, Seq<u8>)>;

/// Whether the bytes `key` begin with the bytes `prefix`.
pub open spec fn has_prefix(key: Seq<u8>, prefix: Seq<u8>) -> bool {
    prefix.len() <= key.len() && key.take(prefix.len() as int) == prefix
}

/// The entries of `all` whose key begins with `prefix`.
pub open spec fn with_prefix(all: Map<Seq<u8>, Seq<u8>>, prefix: Seq<u8>) -> Map<Seq<u8>, Seq<u8>> {
    all.restrict(Set::new(|k: Seq<u8>| has_prefix(k, prefix)))
}

/// The models of a list of entries, in order.
pub open spec fn entries_model(v: Seq<(Vec<u8>, Vec<u8>)>) -> Seq<(Seq<u8>, Seq<u8>)> {
    v.map_values(|e: (Vec<u8>, Vec<u8>)| (e.0@, e.1@))
}

/// `sled::Config::open` on a temporary configuration opens a database that
/// is removed when it is dropped. Nothing is claimed of what it holds.
#[verifier::external_body]
pub(crate) fn open_temporary_db() -> (r: Result<sled::Db, sled::Error>) {
    sled::Config::new().temporary(true).open()
}

/// `sled::open` opens or creates the database at a place in the file
/// system. Nothing is claimed of what it holds.
#[verifier::external_body]
pub(crate) fn open_db(place: &str) -> (r: Result<sled::Db, sled::Error>) {
    sled::open(place)
}

/// `sled::Db::open_tree` opens or creates the tree of the given name.
/// Nothing is claimed of what it holds.
#[verifier::external_body]
pub(crate) fn open_tree(db: &sled::Db, name: &str) -> (r: Result<sled::Tree, sled::Error>) {
    db.open_tree(name)
}

/// `sled::Db` hands out its default tree through `Deref`; the handle is
/// copied by `Tree::clone`. Nothing is claimed of what the tree holds.
#[verifier::external_body]
pub(crate) fn default_tree(db: &sled::Db) -> (r: sled::Tree) {
    (**db).clone()
}

/// `sled::Tree::insert` sets the key to the value and hands back the value
/// that the key had before, if it had one. Where it fails, nothing is
/// claimed of the tree.
#[verifier::external_body]
pub(crate) fn kv_insert(tree: &mut sled::Tree, key: &Vec<u8>, value: &Vec<u8>) -> (r: Result<
    Option<Vec<u8>>,
    sled::Error,
>)
    ensures
        match r {
            Ok(before) => {
                &&& tree_map(*final(tree)) == tree_map(*old(tree)).insert(key@, value@)
                &&& match before {
                    Some(b) => tree_map(*old(tree)).contains_pair(key@, b@),
                    None => !tree_map(*old(tree)).dom().contains(key@),
                }
            },
            Err(_) => true,
        },
{
    tree.insert(key.as_slice(), value.as_slice()).map(|before| before.map(|b| b.to_vec()))
}

/// `sled::Tree::get` hands back the value of the key, if it has one.
#[verifier::external_body]
pub(crate) fn kv_get(tree: &sled::Tree, key: &Vec<u8>) -> (r: Result<Option<Vec<u8>>, sled::Error>)
    ensures
        match r {
            Ok(Some(value)) => tree_map(*tree).contains_pair(key@, value@),
            Ok(None) => !tree_map(*tree).dom().contains(key@),
            Err(_) => true,
        },
{
    tree.get(key.as_slice()).map(|found| found.map(|value| value.to_vec()))
}

/// `sled::Tree::remove` deletes the key and hands back the value that it
/// had, if it had one. Where it fails, nothing is claimed of the tree.
#[verifier::external_body]
pub(crate) fn kv_remove(tree: &mut sled::Tree, key: &Vec<u8>) -> (r: Result<
    Option<Vec<u8>>,
    sled::Error,
>)
    ensures
        match r {
            Ok(before) => {
                &&& tree_map(*final(tree)) == tree_map(*old(tree)).remove(key@)
                &&& match before {
                    Some(b) => tree_map(*old(tree)).contains_pair(key@, b@),
                    None => !tree_map(*old(tree)).dom().contains(key@),
                }
            },
            Err(_) => true,
        },
{
    tree.remove(key.as_slice()).map(|before| before.map(|b| b.to_vec()))
}

/// `sled::Tree::clear` removes every entry. Where it fails, nothing is
/// claimed of the tree.
#[verifier::external_body]
pub(crate) fn kv_clear(tree: &mut sled::Tree) -> (r: Result<(), sled::Error>)
    ensures
        match r {
            Ok(()) => tree_map(*final(tree)) == Map::<Seq<u8>, Seq<u8>>::empty(),
            Err(_) => true,
        },
{
    tree.clear()
}

/// `sled::Tree::flush` writes what is buffered to disk. The tree holds
/// what it held.
#[verifier::external_body]
pub(crate) fn kv_flush(tree: &sled::Tree) -> (r: Result<(), sled::Error>) {
    tree.flush().map(|_| ())
}

/// `sled::Tree::iter` makes an iterator over all entries of the tree: it
/// will hand out each entry once.
#[verifier::external_body]
fn kv_iter(tree: &sled::Tree) -> (r: sled::Iter)
    ensures
        lists_map(iter_rest(r), tree_map(*tree)),
{
    tree.iter()
}

/// `sled::Tree::scan_prefix` makes an iterator over the entries whose key
/// begins with the given bytes: it will hand out each of them once.
#[verifier::external_body]
fn kv_scan_prefix(tree: &sled::Tree, prefix: &Vec<u8>) -> (r: sled::Iter)
    ensures
        lists_map(iter_rest(r), with_prefix(tree_map(*tree), prefix@)),
{
    tree.scan_prefix(prefix.as_slice())
}

/// `sled::Iter::next` hands out the next entry, or reports a failure of
/// the engine, or ends the iteration.
#[verifier::external_body]
fn kv_next(iter: &mut sled::Iter) -> (r: Option<Result<(Vec<u8>, Vec<u8>), sled::Error>>)
    ensures
        match r {
            Some(Ok(entry)) => {
                &&& iter_rest(*old(iter)).len() > 0
                &&& iter_rest(*old(iter))[0] == (entry.0@, entry.1@)
                &&& iter_rest(*final(iter)) == iter_rest(*old(iter)).skip(1)
            },
            Some(Err(_)) => true,
            None => iter_rest(*old(iter)).len() == 0,
        },
{
    iter.next().map(|item| item.map(|(key, value)| (key.to_vec(), value.to_vec())))
}

/// The message of an error of the engine.
#[verifier::external_body]
pub(crate) fn error_text(error: &sled::Error) -> (r: String) {
    format!("{}", error)
}

/// All that an iterator has yet to hand out.
fn drain(iter: sled::Iter) -> (r: Result<Vec<(Vec<u8>, Vec<u8>)>, sled::Error>)
    ensures
        match r {
            Ok(entries) => entries_model(entries@) == iter_rest(iter),
            Err(_) => true,
        },
{
    let ghost all = iter_rest(iter);
    let mut cursor = iter;
    let mut entries: Vec<(Vec<u8>, Vec<u8>)> = Vec::new();
    assert(entries_model(entries@) + iter_rest(cursor) == all);
    loop
        invariant
            all == iter_rest(iter),
            entries_model(entries@) + iter_rest(cursor) == all,
        decreases iter_rest(cursor).len(),
    {
        let ghost before = iter_rest(cursor);
        match kv_next(&mut cursor) {
            None => {
                assert(entries_model(entries@) + before == entries_model(entries@));
                return Ok(entries);
            },
            Some(Err(e)) => {
                return Err(e);
            },
            Some(Ok(entry)) => {
                let ghost listed = entries_model(entries@);
                entries.push(entry);
                assert(entries_model(entries@) == listed.push((entry.0@, entry.1@)));
                assert(listed.push(before[0]) + before.skip(1) == listed + before);
            },
        }
    }
}

/// All entries of a tree. The handle must be the only one through which
/// the tree is written.
pub fn scan_all(tree: &sled::Tree) -> (r: Result<Vec<(Vec<u8>, Vec<u8>)>, sled::Error>)
    ensures
        match r {
            Ok(entries) => lists_map(entries_model(entries@), tree_map(*tree)),
            Err(_) => true,
        },
{
    drain(kv_iter(tree))
}

/// The entries of a tree whose key begins with `prefix`.
pub fn scan_prefix(tree: &sled::Tree, prefix: &Vec<u8>) -> (r: Result<
    Vec<(Vec<u8>, Vec<u8>)>,
    sled::Error,
>)
    ensures
        match r {
            Ok(entries) => lists_map(entries_model(entries@), with_prefix(tree_map(*tree), prefix@)),
            Err(_) => true,
        },
{
    drain(kv_scan_prefix(tree, prefix))
}

/// Whether a message reports what was being done: it begins with the
/// context, a colon and a space; what follows is the engine's own message.
pub open spec fn reports(message: Seq<char>, context: Seq<char>) -> bool {
    message.len() >= context.len() + 2 && message.take(context.len() as int + 2) == context + seq![
        ':',
        ' ',
    ]
}

/// The internal error that reports a failure of the engine: what was being
/// done, and the engine's own message.
pub fn substrate_error(context: &str, error: &sled::Error) -> (e: StoreError)
    ensures
        e@ is Internal,
        reports(e@->Internal_0, context@),
{
    let mut message = text_of(context);
    message.append(": ");
    let ghost head = message@;
    let detail = error_text(error);
    message.append(detail.as_str());
    proof {
        reveal_strlit(": ");
        assert(head =~= context@ + seq![':', ' ']);
        assert(message@.take(head.len() as int) =~= head);
    }
    StoreError::Internal(message)
}

} // verus!
