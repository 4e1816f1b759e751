//! Posting lists: trees in which each key holds a list of paths.

use crate::codec::{decode_paths, encode_paths, path_models, read_paths};
use crate::errors::StoreError;
use crate::kv::{kv_get, kv_insert, substrate_error, tree_map};
use crate::path::{Path, Seg};
use vstd::prelude::*;

verus! {

/// The paths posted under a key: the list that the value of the key
/// writes, and no paths where the key is absent or its value writes none.
pub open spec fn posted(entries: Map<Seq<u8>, Seq<u8>>, key: Seq<u8>) -> Seq<Seq<Seg>> {
    if entries.dom().contains(key) && read_paths(entries[key]) is Some {
        read_paths(entries[key])->0
    } else {
        Seq::empty()
    }
}

/// Under every key, the same paths other than `path` are posted after as
/// before.
pub open spec fn others_same(
    before: Map<Seq<u8>, Seq<u8>>,
    after: Map<Seq<u8>, Seq<u8>>,
    path: Seq<Seg>,
) -> bool {
    forall|key: Seq<u8>, other: Seq<Seg>|
        other != path ==> (#[trigger] posted(after, key).contains(other)) == posted(
            before,
            key,
        ).contains(other)
}

/// Wherever `path` was posted before, it is posted after.
pub open spec fn still_posted(
    before: Map<Seq<u8>, Seq<u8>>,
    after: Map<Seq<u8>, Seq<u8>>,
    path: Seq<Seg>,
) -> bool {
    forall|key: Seq<u8>|
        posted(before, key).contains(path) ==> #[trigger] posted(after, key).contains(path)
}

/// Wherever `path` is posted after, it was posted before.
pub open spec fn not_newly_posted(
    before: Map<Seq<u8>, Seq<u8>>,
    after: Map<Seq<u8>, Seq<u8>>,
    path: Seq<Seg>,
) -> bool {
    forall|key: Seq<u8>|
        (#[trigger] posted(after, key).contains(path)) ==> posted(before, key).contains(path)
}

/// The position of `path` in the list, if it is there.
pub fn position_of(paths: &Vec<Path>, path: &Path) -> (r: Option<usize>)
    ensures
        match r {
            Some(i) => i < paths.len() && paths@[i as int]@ == path@,
            None => !path_models(paths@).contains(path@),
        },
{
    let mut i: usize = 0;
    while i < paths.len()
        invariant
            i <= paths.len(),
            forall|k: int| 0 <= k < i ==> (#[trigger] paths@[k])@ != path@,
        decreases paths.len() - i,
    {
        if paths[i].same_as(path) {
            return Some(i);
        }
        i += 1;
    }
    proof {
        let models = path_models(paths@);
        if models.contains(path@) {
            let k = choose|k: int| 0 <= k < models.len() && models[k] == path@;
            assert(paths@[k]@ == path@);
        }
    }
    None
}

/// The paths posted under a key.
pub fn read_posting(tree: &sled::Tree, key: &Vec<u8>) -> (r: Result<Vec<Path>, StoreError>)
    ensures
        match r {
            Ok(paths) => path_models(paths@) == posted(tree_map(*tree), key@),
            Err(e) => e@ is Internal,
        },
{
    match kv_get(tree, key) {
        Ok(Some(bytes)) => {
            match decode_paths(&bytes) {
                Some(paths) => Ok(paths),
                None => {
                    let none: Vec<Path> = Vec::new();
                    assert(path_models(none@) =~= Seq::<Seq<Seg>>::empty());
                    Ok(none)
                },
            }
        },
        Ok(None) => {
            let none: Vec<Path> = Vec::new();
            assert(path_models(none@) =~= Seq::<Seq<Seg>>::empty());
            Ok(none)
        },
        Err(e) => Err(substrate_error("Failed to read posting list", &e)),
    }
}

/// Posts a path under a key, if it is not posted there yet. The handle
/// must be the only one through which the tree is written.
pub fn post(tree: &mut sled::Tree, key: &Vec<u8>, path: &Path) -> (r: Result<(), StoreError>)
    ensures
        match r {
            Ok(()) => {
                &&& posted(tree_map(*final(tree)), key@).contains(path@)
                &&& others_same(tree_map(*old(tree)), tree_map(*final(tree)), path@)
                &&& still_posted(tree_map(*old(tree)), tree_map(*final(tree)), path@)
            },
            Err(e) => e@ is Internal,
        },
{
    let ghost before = tree_map(*tree);
    let mut paths = match read_posting(tree, key) {
        Ok(paths) => paths,
        Err(e) => {
            return Err(e);
        },
    };
    let ghost listed = path_models(paths@);
    match position_of(&paths, path) {
        Some(i) => {
            assert(listed[i as int] == path@);
            return Ok(());
        },
        None => {},
    }
    paths.push(path.clone());
    let ghost grown = path_models(paths@);
    assert(grown =~= listed.push(path@));
    let bytes = encode_paths(&paths);
    match kv_insert(tree, key, &bytes) {
        Ok(_) => {
            proof {
                let after = tree_map(*tree);
                assert(posted(after, key@) == grown);
                assert(grown[listed.len() as int] == path@);
                assert forall|k: Seq<u8>, other: Seq<Seg>| other != path@ implies (
                #[trigger] posted(after, k).contains(other)) == posted(before, k).contains(
                    other,
                ) by {
                    if k == key@ {
                        if grown.contains(other) {
                            let i = choose|i: int| 0 <= i < grown.len() && grown[i] == other;
                            assert(listed[i] == other);
                        }
                        if listed.contains(other) {
                            let i = choose|i: int| 0 <= i < listed.len() && listed[i] == other;
                            assert(grown[i] == other);
                        }
                    } else {
                        assert(posted(after, k) == posted(before, k));
                    }
                }
                assert forall|k: Seq<u8>| posted(before, k).contains(path@) implies #[trigger] posted(
                    after,
                    k,
                ).contains(path@) by {
                    if k != key@ {
                        assert(posted(after, k) == posted(before, k));
                    }
                }
            }
            Ok(())
        },
        Err(e) => Err(substrate_error("Failed to write posting list", &e)),
    }
}

/// Takes a path out of the list posted under a key. The handle must be
/// the only one through which the tree is written.
pub fn unpost(tree: &mut sled::Tree, key: &Vec<u8>, path: &Path) -> (r: Result<(), StoreError>)
    ensures
        match r {
            Ok(()) => {
                &&& !posted(tree_map(*final(tree)), key@).contains(path@)
                &&& others_same(tree_map(*old(tree)), tree_map(*final(tree)), path@)
                &&& not_newly_posted(tree_map(*old(tree)), tree_map(*final(tree)), path@)
            },
            Err(e) => e@ is Internal,
        },
{
    let ghost before = tree_map(*tree);
    let paths = match read_posting(tree, key) {
        Ok(paths) => paths,
        Err(e) => {
            return Err(e);
        },
    };
    let ghost listed = path_models(paths@);
    let mut kept: Vec<Path> = Vec::new();
    let mut changed = false;
    let mut i: usize = 0;
    while i < paths.len()
        invariant
            i <= paths.len(),
            listed == path_models(paths@),
            !path_models(kept@).contains(path@),
            forall|other: Seq<Seg>|
                other != path@ ==> (path_models(kept@).contains(other) <==> listed.take(
                    i as int,
                ).contains(other)),
            !changed ==> !listed.take(i as int).contains(path@),
        decreases paths.len() - i,
    {
        let ghost models = path_models(kept@);
        let ghost head = listed.take(i as int);
        let ghost next = listed.take(i + 1);
        proof {
            assert(next == head.push(listed[i as int]));
            assert(listed[i as int] == paths@[i as int]@);
        }
        if paths[i].same_as(path) {
            changed = true;
            proof {
                assert forall|other: Seq<Seg>| other != path@ implies (models.contains(other)
                    <==> next.contains(other)) by {
                    if next.contains(other) {
                        let k = choose|k: int| 0 <= k < next.len() && next[k] == other;
                        assert(head[k] == other);
                    }
                    if head.contains(other) {
                        let k = choose|k: int| 0 <= k < head.len() && head[k] == other;
                        assert(next[k] == other);
                    }
                }
            }
        } else {
            kept.push(paths[i].clone());
            proof {
                let grown = path_models(kept@);
                assert(grown =~= models.push(listed[i as int]));
                assert forall|other: Seq<Seg>| grown.contains(other) <==> (models.contains(other)
                    || other == listed[i as int]) by {
                    if grown.contains(other) {
                        let k = choose|k: int| 0 <= k < grown.len() && grown[k] == other;
                        if k < models.len() {
                            assert(models[k] == other);
                        }
                    }
                    if models.contains(other) {
                        let k = choose|k: int| 0 <= k < models.len() && models[k] == other;
                        assert(grown[k] == other);
                    }
                    if other == listed[i as int] {
                        assert(grown[models.len() as int] == other);
                    }
                }
                assert forall|other: Seq<Seg>| next.contains(other) <==> (head.contains(other)
                    || other == listed[i as int]) by {
                    if next.contains(other) {
                        let k = choose|k: int| 0 <= k < next.len() && next[k] == other;
                        if k < head.len() {
                            assert(head[k] == other);
                        }
                    }
                    if head.contains(other) {
                        let k = choose|k: int| 0 <= k < head.len() && head[k] == other;
                        assert(next[k] == other);
                    }
                    if other == listed[i as int] {
                        assert(next[head.len() as int] == other);
                    }
                }
            }
        }
        i += 1;
    }
    assert(listed.take(i as int) == listed);
    if !changed {
        proof {
            assert(posted(before, key@) == listed);
        }
        return Ok(());
    }
    let bytes = encode_paths(&kept);
    let ghost shrunk = path_models(kept@);
    match kv_insert(tree, key, &bytes) {
        Ok(_) => {
            proof {
                let after = tree_map(*tree);
                assert(posted(after, key@) == shrunk);
                assert forall|k: Seq<u8>, other: Seq<Seg>| other != path@ implies (
                #[trigger] posted(after, k).contains(other)) == posted(before, k).contains(
                    other,
                ) by {
                    if k != key@ {
                        assert(posted(after, k) == posted(before, k));
                    }
                }
                assert forall|k: Seq<u8>| (#[trigger] posted(after, k).contains(path@))
                    implies posted(before, k).contains(path@) by {
                    if k != key@ {
                        assert(posted(after, k) == posted(before, k));
                    }
                }
            }
            Ok(())
        },
        Err(e) => Err(substrate_error("Failed to write posting list", &e)),
    }
}

} // verus!
