//! Laws that relate the operations of the tries and of the state tree to
//! each other.

use crate::actor::ActorView;
use crate::cid::Cid;
use crate::error::ExecutionError;
use crate::hamt::lookup::Blocks;
use crate::hamt::ops::Error;
use crate::hamt::Trie;
use crate::history_map::{extends, rolled_back};
use crate::state_tree::StateTree;
use crate::store::Store;
use vstd::prelude::*;

verus! {

/// A trie that has been written and is then loaded from the identifier
/// that was returned finds, for every key, what the trie found before it was
/// written, where that lookup succeeded.
pub proof fn law_trie_round_trip(
    before: Trie,
    blocks_before: Blocks,
    written: Trie,
    blocks_after: Blocks,
    root: Cid,
    loaded: Trie,
)
    requires
        before.inv(blocks_before),
        Trie::flush_post(&before, blocks_before, &written, blocks_after, Ok::<Cid, Error>(root)),
        Trie::load_post(blocks_after, root@, written.config(), Ok::<Trie, Error>(loaded)),
    ensures
        forall|k: Seq<u8>|
            before.lookup(blocks_before, k) is Ok ==> #[trigger] loaded.lookup(
                blocks_after,
                k,
            ) == before.lookup(blocks_before, k),
{
    written.lemma_flushed_lookup(blocks_after);
    assert forall|k: Seq<u8>|
        before.lookup(blocks_before, k) is Ok implies #[trigger] loaded.lookup(
        blocks_after,
        k,
    ) == before.lookup(blocks_before, k) by {
        assert(written.lookup(blocks_after, k) == before.lookup(blocks_before, k));
        assert(crate::hamt::stored_lookup(blocks_after, root@, written.config(), k)
            == written.lookup(blocks_after, k));
    }
}

/// A trie that has been written and is then loaded from the identifier
/// that was returned holds, for a walk through it, the pairs that a walk
/// through the trie held before it was written.
pub proof fn law_trie_round_trip_walk(
    before: Trie,
    blocks_before: Blocks,
    written: Trie,
    blocks_after: Blocks,
    root: Cid,
    loaded: Trie,
)
    requires
        before.inv(blocks_before),
        Trie::flush_post(&before, blocks_before, &written, blocks_after, Ok::<Cid, Error>(root)),
        Trie::load_post(blocks_after, root@, written.config(), Ok::<Trie, Error>(loaded)),
        before.walk(blocks_before) is Ok,
        loaded.walk(blocks_after) is Ok,
        forall|k: Seq<u8>| (#[trigger] before.lookup(blocks_before, k)) is Ok,
    ensures
        forall|k: Seq<u8>, v: Seq<u8>|
            #![trigger crate::hamt::walk::holds_pair(before.walk(blocks_before)->Ok_0, k, v)]
            #![trigger crate::hamt::walk::holds_pair(loaded.walk(blocks_after)->Ok_0, k, v)]
            crate::hamt::walk::holds_pair(before.walk(blocks_before)->Ok_0, k, v)
                <==> crate::hamt::walk::holds_pair(loaded.walk(blocks_after)->Ok_0, k, v),
{
    law_trie_round_trip(before, blocks_before, written, blocks_after, root, loaded);
    before.lemma_walk_is_lookup(blocks_before);
    loaded.lemma_walk_is_lookup(blocks_after);
    let pairs_before = before.walk(blocks_before)->Ok_0;
    let pairs_loaded = loaded.walk(blocks_after)->Ok_0;
    assert forall|k: Seq<u8>, v: Seq<u8>|
        crate::hamt::walk::holds_pair(pairs_before, k, v) <==> crate::hamt::walk::holds_pair(
            pairs_loaded,
            k,
            v,
        ) by {
        crate::hamt::hash::lemma_all_hashed(k);
        assert(loaded.lookup(blocks_after, k) == before.lookup(blocks_before, k));
        if crate::hamt::walk::holds_pair(pairs_before, k, v) {
            let j = choose|j: int| 0 <= j < pairs_before.len() && #[trigger] pairs_before[j] == (k, v);
            assert(before.lookup(blocks_before, pairs_before[j].0) == Ok::<
                Option<Seq<u8>>,
                crate::hamt::model::Failure,
            >(Some(pairs_before[j].1)));
        }
        if crate::hamt::walk::holds_pair(pairs_loaded, k, v) {
            let j = choose|j: int| 0 <= j < pairs_loaded.len() && #[trigger] pairs_loaded[j] == (k, v);
            assert(loaded.lookup(blocks_after, pairs_loaded[j].0) == Ok::<
                Option<Seq<u8>>,
                crate::hamt::model::Failure,
            >(Some(pairs_loaded[j].1)));
        }
    }
}

/// A trie that is written twice with no change in between returns the same
/// identifier the second time, and the second writing leaves the blocks of
/// the store as they are.
pub proof fn law_trie_flush_idempotent(
    before: Trie,
    blocks_before: Blocks,
    once: Trie,
    blocks_once: Blocks,
    first: Cid,
    twice: Trie,
    blocks_twice: Blocks,
    second: Result<Cid, Error>,
)
    requires
        Trie::flush_post(&before, blocks_before, &once, blocks_once, Ok::<Cid, Error>(first)),
        Trie::flush_post(&once, blocks_once, &twice, blocks_twice, second),
    ensures
        second matches Ok(cid) && cid@ == first@,
        blocks_twice == blocks_once,
{
}

/// Writing is determined by what is held: two tries in canonical form with
/// the same configuration in which every lookup finds the same, as two are
/// that came from new tries by storing the same pairs in whatever order,
/// are written under the same identifier.
pub proof fn law_flush_determinism(
    one: Trie,
    blocks_one: Blocks,
    written_one: Trie,
    blocks_one_after: Blocks,
    root_one: Cid,
    other: Trie,
    blocks_other: Blocks,
    written_other: Trie,
    blocks_other_after: Blocks,
    root_other: Cid,
)
    requires
        one.inv(blocks_one),
        one.canonical(blocks_one),
        other.inv(blocks_other),
        other.canonical(blocks_other),
        one.config() == other.config(),
        forall|k: Seq<u8>|
            #[trigger] one.lookup(blocks_one, k) == other.lookup(blocks_other, k),
        Trie::flush_post(&one, blocks_one, &written_one, blocks_one_after, Ok::<Cid, Error>(root_one)),
        Trie::flush_post(
            &other,
            blocks_other,
            &written_other,
            blocks_other_after,
            Ok::<Cid, Error>(root_other),
        ),
    ensures
        root_one@ == root_other@,
{
    one.lemma_canonical_lookup(blocks_one);
    other.lemma_canonical_lookup(blocks_other);
    assert forall|k: Seq<u8>| #[trigger] written_one.lookup(blocks_one_after, k)
        == written_other.lookup(blocks_other_after, k) by {
        assert(one.lookup(blocks_one, k) is Ok);
        assert(other.lookup(blocks_other, k) is Ok);
        assert(one.lookup(blocks_one, k) == other.lookup(blocks_other, k));
        assert(written_other.lookup(blocks_other_after, k) == other.lookup(blocks_other, k));
    }
    written_one.lemma_written_alike(blocks_one_after, &written_other, blocks_other_after);
}

/// The order of insertions does not show in what is written: two new tries
/// with the same configuration, into which the same two pairs with
/// different keys are stored in the one order and in the other, are written
/// under the same identifier.
pub proof fn law_insertion_order(
    conf: crate::hamt::hash::Config,
    first_key: Seq<u8>,
    first_value: Seq<u8>,
    second_key: Seq<u8>,
    second_value: Seq<u8>,
    one: (Trie, Trie, Trie, Trie),
    blocks_one: Blocks,
    blocks_one_after: Blocks,
    root_one: Cid,
    other: (Trie, Trie, Trie, Trie),
    blocks_other: Blocks,
    blocks_other_after: Blocks,
    root_other: Cid,
    answers: (Option<Vec<u8>>, Option<Vec<u8>>, Option<Vec<u8>>, Option<Vec<u8>>),
)
    requires
        first_key != second_key,
        one.0.is_new(blocks_one, conf),
        Trie::put_post(
            &one.0,
            &one.1,
            blocks_one,
            first_key,
            first_value,
            true,
            Ok::<(Option<Vec<u8>>, bool), Error>((answers.0, true)),
        ),
        Trie::put_post(
            &one.1,
            &one.2,
            blocks_one,
            second_key,
            second_value,
            true,
            Ok::<(Option<Vec<u8>>, bool), Error>((answers.1, true)),
        ),
        Trie::flush_post(&one.2, blocks_one, &one.3, blocks_one_after, Ok::<Cid, Error>(root_one)),
        other.0.is_new(blocks_other, conf),
        Trie::put_post(
            &other.0,
            &other.1,
            blocks_other,
            second_key,
            second_value,
            true,
            Ok::<(Option<Vec<u8>>, bool), Error>((answers.2, true)),
        ),
        Trie::put_post(
            &other.1,
            &other.2,
            blocks_other,
            first_key,
            first_value,
            true,
            Ok::<(Option<Vec<u8>>, bool), Error>((answers.3, true)),
        ),
        Trie::flush_post(
            &other.2,
            blocks_other,
            &other.3,
            blocks_other_after,
            Ok::<Cid, Error>(root_other),
        ),
    ensures
        root_one@ == root_other@,
{
    assert forall|k: Seq<u8>| #[trigger] one.2.lookup(blocks_one, k)
        == other.2.lookup(blocks_other, k) by {
        assert(one.1.lookup(blocks_one, k) == if k == first_key {
            Ok(Some(first_value))
        } else {
            one.0.lookup(blocks_one, k)
        });
        assert(other.1.lookup(blocks_other, k) == if k == second_key {
            Ok(Some(second_value))
        } else {
            other.0.lookup(blocks_other, k)
        });
    }
    law_flush_determinism(
        one.2,
        blocks_one,
        one.3,
        blocks_one_after,
        root_one,
        other.2,
        blocks_other,
        other.3,
        blocks_other_after,
        root_other,
    );
}

/// Storing a value under a key shows what deleting the key and then
/// storing the value under it shows: every lookup finds the same.
pub proof fn law_set_is_delete_then_insert(
    before: Trie,
    set: Trie,
    deleted: Trie,
    inserted: Trie,
    blocks: Blocks,
    key: Seq<u8>,
    value: Seq<u8>,
    answers: (
        (Option<Vec<u8>>, bool),
        Option<Vec<u8>>,
        (Option<Vec<u8>>, bool),
    ),
)
    requires
        Trie::put_post(
            &before,
            &set,
            blocks,
            key,
            value,
            true,
            Ok::<(Option<Vec<u8>>, bool), Error>(answers.0),
        ),
        Trie::remove_post(&before, &deleted, blocks, key, Ok::<Option<Vec<u8>>, Error>(answers.1)),
        Trie::put_post(
            &deleted,
            &inserted,
            blocks,
            key,
            value,
            true,
            Ok::<(Option<Vec<u8>>, bool), Error>(answers.2),
        ),
    ensures
        forall|k: Seq<u8>|
            #[trigger] inserted.lookup(blocks, k) == set.lookup(blocks, k),
        answers.2.0 is None,
{
    assert forall|k: Seq<u8>| #[trigger] inserted.lookup(blocks, k)
        == set.lookup(blocks, k) by {
        assert(deleted.lookup(blocks, k) == if k == key {
            Ok(None)
        } else {
            before.lookup(blocks, k)
        });
        assert(deleted.lookup(blocks, key) == Ok::<
            Option<Seq<u8>>,
            crate::hamt::model::Failure,
        >(None));
    }
}

/// Whether a new key finds room. A trie that holds as many other keys as a
/// bucket holds whose hashes no depth parts from that of the key does not
/// take the key. A trie in canonical form, as one is that was made in
/// memory, takes every other key with its value, and fails for want of room
/// only.
pub proof fn law_put_finds_room(
    before: Trie,
    after: Trie,
    blocks: Blocks,
    key: Seq<u8>,
    value: Seq<u8>,
    overwrite: bool,
    r: Result<(Option<Vec<u8>>, bool), Error>,
)
    requires
        before.inv(blocks),
        crate::hamt::takes(key, value),
        before.lookup(blocks, key) == Ok::<Option<Seq<u8>>, crate::hamt::model::Failure>(None),
        Trie::put_post(&before, &after, blocks, key, value, overwrite, r),
    ensures
        before.jammed(blocks, key) ==> r is Err,
        before.canonical(blocks) ==> (r is Ok <==> !before.jammed(blocks, key)),
        before.canonical(blocks) && r is Err ==> r->Err_0 is MaxDepth,
{
    if before.jammed(blocks, key) && r is Ok {
        let keys = choose|keys: Seq<Seq<u8>>| #[trigger] before.jam(keys, blocks, key);
        let more = keys.push(key);
        assert forall|i: int| 0 <= i < more.len() implies (#[trigger] after.lookup(
            blocks,
            more[i],
        ) matches Ok(Some(_))) by {
            crate::hamt::hash::lemma_all_hashed(more[i]);
            if i < keys.len() {
                assert(more[i] == keys[i]);
                assert(after.lookup(blocks, keys[i]) == before.lookup(blocks, keys[i]));
            }
        }
        assert forall|i: int, j: int|
            0 <= i < more.len() && 0 <= j < more.len() && i != j implies #[trigger] more[i]
            != #[trigger] more[j] by {
            if i < keys.len() {
                assert(more[i] == keys[i]);
            }
            if j < keys.len() {
                assert(more[j] == keys[j]);
            }
        }
        assert forall|i: int| 0 <= i < more.len() implies crate::hamt::hash::key_route(
            #[trigger] more[i],
            after.config().bit_width as nat,
        ) == crate::hamt::hash::key_route(more[0], after.config().bit_width as nat) by {
            if i < keys.len() {
                assert(more[i] == keys[i]);
            }
            if 0 < keys.len() {
                assert(more[0] == keys[0]);
            }
        }
        after.lemma_room_bounded(blocks, more);
    }
}

/// A trie in canonical form in which no lookup finds anything is written
/// under the identifier of the encoding of the empty node.
pub proof fn law_empty_trie_root(
    emptied: Trie,
    blocks: Blocks,
    written: Trie,
    blocks_after: Blocks,
    root: Cid,
)
    requires
        emptied.inv(blocks),
        emptied.canonical(blocks),
        forall|k: Seq<u8>|
            #[trigger] emptied.lookup(blocks, k) == Ok::<
                Option<Seq<u8>>,
                crate::hamt::model::Failure,
            >(None),
        Trie::flush_post(&emptied, blocks, &written, blocks_after, Ok::<Cid, Error>(root)),
    ensures
        root@ == crate::store::block_cid_bytes(
            crate::store::DAG_CBOR,
            crate::hamt::codec::node_encoding(crate::hamt::model::empty_node(emptied.config())),
        ),
{
    emptied.lemma_nothing_found(blocks);
    if emptied.flushed() is None {
        assert forall|k: Seq<u8>| #[trigger] written.lookup(blocks_after, k)
            == Ok::<Option<Seq<u8>>, crate::hamt::model::Failure>(None) by {
            assert(emptied.lookup(blocks, k) is Ok);
        }
        written.lemma_nothing_found(blocks_after);
    }
}

/// A trie from which every key has been deleted again is written under the
/// identifier under which a new trie with the same configuration is
/// written: of two tries in canonical form in which no lookup finds
/// anything, as a new one is and as one is that came from a new one by
/// insertions and deletions that left no key, the roots are the same.
pub proof fn law_collapse_canonical(
    emptied: Trie,
    blocks_emptied: Blocks,
    written_emptied: Trie,
    blocks_emptied_after: Blocks,
    root_emptied: Cid,
    fresh: Trie,
    blocks_fresh: Blocks,
    written_fresh: Trie,
    blocks_fresh_after: Blocks,
    root_fresh: Cid,
)
    requires
        emptied.inv(blocks_emptied),
        emptied.canonical(blocks_emptied),
        forall|k: Seq<u8>|
            #[trigger] emptied.lookup(blocks_emptied, k) == Ok::<
                Option<Seq<u8>>,
                crate::hamt::model::Failure,
            >(None),
        Trie::flush_post(
            &emptied,
            blocks_emptied,
            &written_emptied,
            blocks_emptied_after,
            Ok::<Cid, Error>(root_emptied),
        ),
        fresh.is_new(blocks_fresh, emptied.config()),
        Trie::flush_post(
            &fresh,
            blocks_fresh,
            &written_fresh,
            blocks_fresh_after,
            Ok::<Cid, Error>(root_fresh),
        ),
    ensures
        root_emptied@ == root_fresh@,
{
    law_empty_trie_root(
        emptied,
        blocks_emptied,
        written_emptied,
        blocks_emptied_after,
        root_emptied,
    );
    law_empty_trie_root(fresh, blocks_fresh, written_fresh, blocks_fresh_after, root_fresh);
}

/// A state tree that has been written and is then loaded from the root that
/// was returned shows every actor that the tree showed before it was
/// written.
pub proof fn law_tree_round_trip<S: Store>(
    before: StateTree<S>,
    written: StateTree<S>,
    root: Cid,
    loaded: StateTree<S>,
)
    requires
        before.inv(),
        !before.within_transaction(),
        StateTree::flush_post(&before, &written, Ok::<Cid, ExecutionError>(root)),
        StateTree::load_post(
            written.store_model(),
            root@,
            Ok::<StateTree<S>, ExecutionError>(loaded),
        ),
    ensures
        forall|id: u64| before.actor(id) is Ok ==> #[trigger] loaded.actor(id) == before.actor(id),
{
    assert forall|id: u64| before.actor(id) is Ok implies #[trigger] loaded.actor(id)
        == before.actor(id) by {
        assert(crate::state_tree::root_actor(written.blocks(), root@, id) == before.actor(id));
    }
}

/// A state tree that has been written and is then loaded from the root that
/// was returned holds, for a walk through its actors, the pairs that a walk
/// through the written tree holds: a visitor is shown the same actors.
pub proof fn law_tree_round_trip_walk<S: Store>(
    before: StateTree<S>,
    written: StateTree<S>,
    root: Cid,
    loaded: StateTree<S>,
)
    requires
        before.inv(),
        !before.within_transaction(),
        StateTree::flush_post(&before, &written, Ok::<Cid, ExecutionError>(root)),
        StateTree::load_post(
            written.store_model(),
            root@,
            Ok::<StateTree<S>, ExecutionError>(loaded),
        ),
        written.trie().walk(written.blocks()) is Ok,
        loaded.trie().walk(loaded.blocks()) is Ok,
    ensures
        forall|k: Seq<u8>, v: Seq<u8>|
            #![trigger crate::hamt::walk::holds_pair(written.trie().walk(written.blocks())->Ok_0, k, v)]
            #![trigger crate::hamt::walk::holds_pair(loaded.trie().walk(loaded.blocks())->Ok_0, k, v)]
            crate::hamt::walk::holds_pair(written.trie().walk(written.blocks())->Ok_0, k, v)
                <==> crate::hamt::walk::holds_pair(
                loaded.trie().walk(loaded.blocks())->Ok_0,
                k,
                v,
            ),
{
    let blocks = written.blocks();
    written.trie().lemma_flushed_lookup(blocks);
    written.trie().lemma_walk_is_lookup(blocks);
    loaded.trie().lemma_walk_is_lookup(blocks);
    let pairs_written = written.trie().walk(blocks)->Ok_0;
    let pairs_loaded = loaded.trie().walk(blocks)->Ok_0;
    assert forall|k: Seq<u8>, v: Seq<u8>|
        crate::hamt::walk::holds_pair(pairs_written, k, v) <==> crate::hamt::walk::holds_pair(
            pairs_loaded,
            k,
            v,
        ) by {
        crate::hamt::hash::lemma_all_hashed(k);
        assert(loaded.trie().lookup(blocks, k) == crate::hamt::stored_lookup(
            blocks,
            written.trie().flushed()->Some_0,
            written.trie().config(),
            k,
        ));
        assert(loaded.trie().lookup(blocks, k) == written.trie().lookup(blocks, k));
        if crate::hamt::walk::holds_pair(pairs_written, k, v) {
            let j = choose|j: int|
                0 <= j < pairs_written.len() && #[trigger] pairs_written[j] == (k, v);
            assert(written.trie().lookup(blocks, pairs_written[j].0) == Ok::<
                Option<Seq<u8>>,
                crate::hamt::model::Failure,
            >(Some(pairs_written[j].1)));
        }
        if crate::hamt::walk::holds_pair(pairs_loaded, k, v) {
            let j = choose|j: int| 0 <= j < pairs_loaded.len() && #[trigger] pairs_loaded[j] == (k, v);
            assert(loaded.trie().lookup(blocks, pairs_loaded[j].0) == Ok::<
                Option<Seq<u8>>,
                crate::hamt::model::Failure,
            >(Some(pairs_loaded[j].1)));
        }
    }
}

/// A map that has been written and is then loaded from the identifier that
/// was returned finds, for every key, what the map found before it was
/// written, where that lookup succeeded.
pub proof fn law_map_round_trip<S: Store>(
    before: crate::hamt::Hamt<S>,
    written: crate::hamt::Hamt<S>,
    root: Cid,
    loaded: crate::hamt::Hamt<S>,
)
    requires
        before.inv(),
        Trie::flush_post(
            &before.trie_model(),
            before.blocks(),
            &written.trie_model(),
            written.blocks(),
            Ok::<Cid, Error>(root),
        ),
        crate::hamt::Hamt::load_post(
            root@,
            written.store_model(),
            written.config(),
            Ok::<crate::hamt::Hamt<S>, Error>(loaded),
        ),
    ensures
        forall|k: Seq<u8>|
            before.lookup(k) is Ok ==> #[trigger] loaded.lookup(k) == before.lookup(k),
{
    law_trie_round_trip(
        before.trie_model(),
        before.blocks(),
        written.trie_model(),
        written.blocks(),
        root,
        loaded.trie_model(),
    );
    assert forall|k: Seq<u8>| before.lookup(k) is Ok implies #[trigger] loaded.lookup(k)
        == before.lookup(k) by {
        assert(loaded.trie_model().lookup(written.blocks(), k) == before.trie_model().lookup(
            before.blocks(),
            k,
        ));
    }
}

/// A map from which every key has been deleted again is written under the
/// identifier under which a new map with the same configuration is
/// written.
pub proof fn law_map_collapse<S: Store>(
    emptied: crate::hamt::Hamt<S>,
    written_emptied: crate::hamt::Hamt<S>,
    root_emptied: Cid,
    store: S,
    fresh: crate::hamt::Hamt<S>,
    written_fresh: crate::hamt::Hamt<S>,
    root_fresh: Cid,
)
    requires
        emptied.inv(),
        emptied.canonical(),
        emptied.holds_nothing(),
        Trie::flush_post(
            &emptied.trie_model(),
            emptied.blocks(),
            &written_emptied.trie_model(),
            written_emptied.blocks(),
            Ok::<Cid, Error>(root_emptied),
        ),
        fresh.is_new(store, emptied.config()),
        Trie::flush_post(
            &fresh.trie_model(),
            fresh.blocks(),
            &written_fresh.trie_model(),
            written_fresh.blocks(),
            Ok::<Cid, Error>(root_fresh),
        ),
    ensures
        root_emptied@ == root_fresh@,
{
    assert forall|k: Seq<u8>| #[trigger] emptied.trie_model().lookup(emptied.blocks(), k) == Ok::<
        Option<Seq<u8>>,
        crate::hamt::model::Failure,
    >(None) by {
        assert(emptied.lookup(k) == Ok::<Option<Seq<u8>>, crate::hamt::model::Failure>(None));
    }
    law_collapse_canonical(
        emptied.trie_model(),
        emptied.blocks(),
        written_emptied.trie_model(),
        written_emptied.blocks(),
        root_emptied,
        fresh.trie_model(),
        fresh.blocks(),
        written_fresh.trie_model(),
        written_fresh.blocks(),
        root_fresh,
    );
}

/// A state tree that is written twice with no change in between returns the
/// same root the second time, and the second writing, where it succeeds,
/// leaves the store untouched. It can only fail by the store.
pub proof fn law_tree_flush_idempotent<S: Store>(
    before: StateTree<S>,
    once: StateTree<S>,
    first: Cid,
    twice: StateTree<S>,
    second: Result<Cid, ExecutionError>,
)
    requires
        before.inv(),
        !before.within_transaction(),
        StateTree::flush_post(&before, &once, Ok::<Cid, ExecutionError>(first)),
        StateTree::flush_post(&once, &twice, second),
    ensures
        match second {
            Ok(root) => root@ == first@ && twice.store_model() == once.store_model(),
            Err(e) => e matches ExecutionError::Fatal(crate::error::Fatal::Put(_)),
        },
{
    assert forall|id: u64| once.cache().contains_key(id) implies !(
    #[trigger] once.cache()[id]).dirty by {}
}

/// Lookups between two writings change nothing of this: a state tree that
/// is written, in which an actor and an address are then looked up, and
/// that is written again returns the same root, and the second writing,
/// where it succeeds, leaves the store untouched.
pub proof fn law_tree_flush_idempotent_after_lookups<S: Store>(
    before: StateTree<S>,
    once: StateTree<S>,
    first: Cid,
    looked: StateTree<S>,
    id: u64,
    got: Result<Option<crate::actor::ActorState>, ExecutionError>,
    resolved: StateTree<S>,
    address: Seq<u8>,
    found: Result<Option<u64>, ExecutionError>,
    twice: StateTree<S>,
    second: Result<Cid, ExecutionError>,
)
    requires
        before.inv(),
        !before.within_transaction(),
        StateTree::flush_post(&before, &once, Ok::<Cid, ExecutionError>(first)),
        StateTree::get_post(&once, &looked, id, got),
        StateTree::lookup_post(&looked, &resolved, address, found),
        StateTree::flush_post(&resolved, &twice, second),
    ensures
        match second {
            Ok(root) => root@ == first@ && twice.store_model() == once.store_model(),
            Err(e) => e matches ExecutionError::Fatal(crate::error::Fatal::Put(_)),
        },
{
    assert forall|j: u64| once.cache().contains_key(j) implies !(
    #[trigger] once.cache()[j]).dirty by {}
    assert(resolved.clean());
}

/// What a state tree shows after a transaction that was begun, in which
/// anything was done that begins and ends no transaction of its own that is
/// left open, and that was then reverted, is what it showed before the
/// transaction began: every actor that it showed, and every address that it
/// had resolved.
pub proof fn law_revert_restores<S: Store>(
    before: StateTree<S>,
    begun: StateTree<S>,
    later: StateTree<S>,
    ended: StateTree<S>,
)
    requires
        before.inv(),
        !before.read_only(),
        StateTree::begin_post(&before, &begun, false),
        StateTree::continues(&later, &begun),
        later.inv(),
        StateTree::end_post(&later, &ended, true, Ok::<(), ExecutionError>(())),
    ensures
        ended.cache() == before.cache(),
        ended.resolved() == before.resolved(),
        ended.snapshots() == before.snapshots(),
        ended.read_only_count() == before.read_only_count(),
        before.blocks().submap_of(ended.blocks()),
        forall|id: u64| before.actor(id) is Ok ==> #[trigger] ended.actor(id) == before.actor(id),
        ended.info_model() == before.info_model(),
        before.in_memory() ==> ended.in_memory(),
{
    before.lemma_histories_bounded();
    let layers = begun.snapshots();
    let layer = layers.last();
    assert(layer.actor_cache_height == before.cache_history().len());
    assert(layer.resolve_cache_height == before.resolved_history().len());
    assert(layers.drop_last() =~= before.snapshots());
    assert forall|id: u64| before.actor(id) is Ok implies #[trigger] ended.actor(id)
        == before.actor(id) by {
        if !before.cache().contains_key(id) {
            assert(later.stored_actor(id) == begun.stored_actor(id));
        }
    }
}

/// A state tree that was made in memory is written, after a transaction
/// was reverted, under the root that it would have been written under
/// before the transaction began.
pub proof fn law_revert_then_flush<S: Store>(
    before: StateTree<S>,
    begun: StateTree<S>,
    later: StateTree<S>,
    ended: StateTree<S>,
    written_before: StateTree<S>,
    root_before: Cid,
    written_ended: StateTree<S>,
    root_ended: Cid,
)
    requires
        before.inv(),
        before.in_memory(),
        !before.read_only(),
        StateTree::begin_post(&before, &begun, false),
        StateTree::continues(&later, &begun),
        later.inv(),
        StateTree::end_post(&later, &ended, true, Ok::<(), ExecutionError>(())),
        StateTree::flush_post(&before, &written_before, Ok::<Cid, ExecutionError>(root_before)),
        StateTree::flush_post(&ended, &written_ended, Ok::<Cid, ExecutionError>(root_ended)),
    ensures
        root_ended@ == root_before@,
{
    law_revert_restores(before, begun, later, ended);
    assert forall|id: u64| #[trigger] ended.actor(id) == before.actor(id) by {
        crate::state_tree::lemma_plain_shown(before, id);
    }
    law_tree_flush_determinism(
        ended,
        written_ended,
        root_ended,
        before,
        written_before,
        root_before,
    );
}

/// A transaction that begins and ends inside of another leaves the tree one
/// that has come from the tree before it began: the same transactions are
/// open, and the caches have changed by what their histories record. So
/// what is said of trees that have come from another holds across nested
/// transactions, reverted or not.
pub proof fn law_nested_transaction<S: Store>(
    before: StateTree<S>,
    begun: StateTree<S>,
    later: StateTree<S>,
    ended: StateTree<S>,
    read_only: bool,
    revert: bool,
)
    requires
        before.inv(),
        before.within_transaction(),
        StateTree::begin_post(&before, &begun, read_only),
        StateTree::continues(&later, &begun),
        later.inv(),
        StateTree::end_post(&later, &ended, revert, Ok::<(), ExecutionError>(())),
    ensures
        StateTree::continues(&ended, &before),
{
    before.lemma_histories_bounded();
    if !(read_only || before.read_only()) {
        let layers = begun.snapshots();
        assert(layers.drop_last() =~= before.snapshots());
        if revert {
            crate::history_map::lemma_extends_self(before.cache(), before.cache_history());
            crate::history_map::lemma_extends_self(before.resolved(), before.resolved_history());
        }
    }
}

/// Inside of a read-only transaction every change of the state is refused
/// with `ReadOnly`, a failure that the caller can recover from, and leaves
/// the tree as it is.
pub proof fn law_read_only_refuses<S: Store>(
    before: StateTree<S>,
    begun: StateTree<S>,
    after: StateTree<S>,
    id: u64,
    actor: Option<ActorView>,
    address: Seq<u8>,
    set: Result<(), ExecutionError>,
    registered: Result<u64, ExecutionError>,
    flushed: Result<Cid, ExecutionError>,
)
    requires
        before.inv(),
        StateTree::begin_post(&before, &begun, true),
    ensures
        begun.read_only(),
        StateTree::set_post(&begun, &after, id, actor, set) ==> after == begun && (set matches Err(
            ExecutionError::Syscall(s),
        ) && s.number == crate::error::ErrorNumber::ReadOnly),
        StateTree::flush_post(&begun, &after, flushed) ==> after == begun && (flushed matches Err(
            ExecutionError::Syscall(s),
        ) && s.number == crate::error::ErrorNumber::ReadOnly),
        StateTree::register_post(&begun, &after, address, registered) ==> after == begun && (
        registered matches Err(ExecutionError::Syscall(s)) && s.number
            == crate::error::ErrorNumber::ReadOnly),
{
}

/// Inside of a read-only transaction no actor is changed through a
/// function that changes its record: the change does not succeed, and the
/// tree shows every actor as it was. Where the actor is there and the
/// function is content with it, the failure is `ReadOnly` unless the lookup
/// failed.
pub proof fn law_read_only_mutation<
    S: Store,
    F: FnOnce(crate::actor::ActorState) -> Result<crate::actor::ActorState, ExecutionError>,
>(
    before: StateTree<S>,
    begun: StateTree<S>,
    after: StateTree<S>,
    id: u64,
    mutate: F,
    r: Result<bool, ExecutionError>,
)
    requires
        before.inv(),
        StateTree::begin_post(&before, &begun, true),
        StateTree::mutate_post(&begun, &after, id, mutate, r),
    ensures
        !(r matches Ok(true)),
        StateTree::same_actors(&after, &begun),
        after.store_model() == begun.store_model(),
        r is Err && (forall|a: crate::actor::ActorState, failure: ExecutionError|
            !call_ensures(
                mutate,
                (a,),
                Err::<crate::actor::ActorState, ExecutionError>(failure),
            )) && !StateTree::lookup_failed(&begun, id, r->Err_0) ==> (r->Err_0
            matches ExecutionError::Syscall(s) && s.number == crate::error::ErrorNumber::ReadOnly),
{
}

/// Addresses that are registered one after the other are given
/// identifiers that follow one another, and the address registered first
/// keeps resolving to its identifier.
pub proof fn law_registrations<S: Store>(
    before: StateTree<S>,
    once: StateTree<S>,
    twice: StateTree<S>,
    first: Seq<u8>,
    second: Seq<u8>,
    first_id: u64,
    second_id: u64,
)
    requires
        first != second,
        StateTree::register_post(&before, &once, first, Ok::<u64, ExecutionError>(first_id)),
        StateTree::register_post(&once, &twice, second, Ok::<u64, ExecutionError>(second_id)),
    ensures
        second_id == first_id + 1,
        twice.init_resolves(first) == Ok::<Option<u64>, crate::state_tree::InitFailure>(
            Some(first_id),
        ),
        twice.init_resolves(second) == Ok::<Option<u64>, crate::state_tree::InitFailure>(
            Some(second_id),
        ),
{
    assert(once.init_resolves(first) is Ok);
}

/// In a state tree whose trie of actors is plain and whose cache has no
/// entry left to be written, the trie finds under every key what the tree
/// shows: the written record of the actor under the address of its
/// identifier, and nothing under any other key.
pub proof fn lemma_plain_lookups<S: Store>(a: StateTree<S>, b: StateTree<S>, k: Seq<u8>)
    requires
        a.inv(),
        b.inv(),
        a.in_memory(),
        b.in_memory(),
        a.clean(),
        b.clean(),
        forall|id: u64| #![trigger a.actor(id)] #![trigger b.actor(id)] a.actor(id) == b.actor(id),
    ensures
        a.trie().lookup(a.blocks(), k) == b.trie().lookup(b.blocks(), k),
{
    crate::hamt::hash::lemma_all_hashed(k);
    a.trie().lemma_canonical_lookup(a.blocks());
    b.trie().lemma_canonical_lookup(b.blocks());
    let la = a.trie().lookup(a.blocks(), k);
    let lb = b.trie().lookup(b.blocks(), k);
    assert(la is Ok && lb is Ok);
    if la matches Ok(Some(_)) {
        lemma_plain_found(a, b, k);
    } else if lb matches Ok(Some(_)) {
        lemma_plain_found(b, a, k);
    }
}

/// Where the trie of one of two such trees that show the same actors finds
/// a value under a key, the trie of the other finds the same.
proof fn lemma_plain_found<S: Store>(a: StateTree<S>, b: StateTree<S>, k: Seq<u8>)
    requires
        a.inv(),
        b.inv(),
        a.in_memory(),
        b.in_memory(),
        a.clean(),
        b.clean(),
        forall|id: u64| #![trigger a.actor(id)] #![trigger b.actor(id)] a.actor(id) == b.actor(id),
        a.trie().lookup(a.blocks(), k) matches Ok(Some(_)),
    ensures
        a.trie().lookup(a.blocks(), k) == b.trie().lookup(b.blocks(), k),
{
    crate::hamt::hash::lemma_all_hashed(k);
    b.trie().lemma_canonical_lookup(b.blocks());
    let v = a.trie().lookup(a.blocks(), k)->Ok_0->Some_0;
    assert(crate::state_tree::actor_pair(k, v));
    let (id, x) = choose|id: u64, x: ActorView| #[trigger]
        crate::state_tree::actor_written(k, v, id, x);
    crate::actor::lemma_actor_round_trip(x);
    assert(crate::state_tree::stored_actor_in(a.trie(), a.blocks(), id) == Ok::<
        Option<ActorView>,
        crate::state_tree::ActorFailure,
    >(Some(x)));
    if a.cache().contains_key(id) {
        assert(crate::state_tree::entry_agrees(a.trie(), a.blocks(), id, a.cache()[id]));
    }
    assert(a.actor(id) == Ok::<Option<ActorView>, crate::state_tree::ActorFailure>(Some(x)));
    assert(b.actor(id) == a.actor(id));
    if b.cache().contains_key(id) {
        assert(crate::state_tree::entry_agrees(b.trie(), b.blocks(), id, b.cache()[id]));
    }
    assert(crate::state_tree::stored_actor_in(b.trie(), b.blocks(), id) == Ok::<
        Option<ActorView>,
        crate::state_tree::ActorFailure,
    >(Some(x)));
    let found = b.trie().lookup(b.blocks(), k);
    assert(found matches Ok(Some(_)));
    let w = found->Ok_0->Some_0;
    assert(crate::state_tree::actor_pair(k, w));
    let (other, y) = choose|other: u64, y: ActorView| #[trigger]
        crate::state_tree::actor_written(k, w, other, y);
    crate::actor::lemma_actor_round_trip(y);
}

/// Writing a state tree is determined by the actors that it shows: two
/// trees whose tries of actors are plain, as those of trees are that were
/// made new, and that show the same actors are written under the same
/// root, whatever was set, deleted and reverted on the way to them.
pub proof fn law_tree_flush_determinism<S: Store>(
    one: StateTree<S>,
    written_one: StateTree<S>,
    root_one: Cid,
    other: StateTree<S>,
    written_other: StateTree<S>,
    root_other: Cid,
)
    requires
        one.inv(),
        other.inv(),
        one.in_memory(),
        other.in_memory(),
        one.info_model() == other.info_model(),
        forall|id: u64| #[trigger] one.actor(id) == other.actor(id),
        StateTree::flush_post(&one, &written_one, Ok::<Cid, ExecutionError>(root_one)),
        StateTree::flush_post(&other, &written_other, Ok::<Cid, ExecutionError>(root_other)),
    ensures
        root_one@ == root_other@,
{
    assert forall|id: u64| #[trigger] written_one.actor(id) == written_other.actor(id) by {
        crate::state_tree::lemma_plain_shown(one, id);
        crate::state_tree::lemma_plain_shown(other, id);
        assert(one.actor(id) == other.actor(id));
        assert(written_one.actor(id) == one.actor(id));
        assert(written_other.actor(id) == other.actor(id));
    }
    assert forall|k: Seq<u8>| #[trigger] written_one.trie().lookup(
        written_one.blocks(),
        k,
    ) == written_other.trie().lookup(written_other.blocks(), k) by {
        lemma_plain_lookups(written_one, written_other, k);
    }
    written_one.trie().lemma_written_alike(
        written_one.blocks(),
        &written_other.trie(),
        written_other.blocks(),
    );
}

/// A state tree from which every actor has been deleted again is written
/// under the root of a new tree: both show no actor.
pub proof fn law_tree_collapse<S: Store>(
    store: S,
    fresh: StateTree<S>,
    written_fresh: StateTree<S>,
    root_fresh: Cid,
    emptied: StateTree<S>,
    written_emptied: StateTree<S>,
    root_emptied: Cid,
)
    requires
        StateTree::new_post(
            store,
            crate::version::StateTreeVersion::V5,
            Ok::<StateTree<S>, ExecutionError>(fresh),
        ),
        emptied.inv(),
        emptied.in_memory(),
        emptied.info_model() == fresh.info_model(),
        forall|id: u64| #[trigger]
            emptied.actor(id) == Ok::<Option<ActorView>, crate::state_tree::ActorFailure>(None),
        StateTree::flush_post(&fresh, &written_fresh, Ok::<Cid, ExecutionError>(root_fresh)),
        StateTree::flush_post(&emptied, &written_emptied, Ok::<Cid, ExecutionError>(root_emptied)),
    ensures
        root_emptied@ == root_fresh@,
{
    assert forall|id: u64| #[trigger] emptied.actor(id) == fresh.actor(id) by {
        assert(fresh.actor(id) == Ok::<Option<ActorView>, crate::state_tree::ActorFailure>(None));
    }
    law_tree_flush_determinism(
        emptied,
        written_emptied,
        root_emptied,
        fresh,
        written_fresh,
        root_fresh,
    );
}

/// Once the outermost transaction has ended, the histories of both caches
/// are empty.
pub proof fn law_history_discarded<S: Store>(
    before: StateTree<S>,
    after: StateTree<S>,
    revert: bool,
)
    requires
        StateTree::end_post(&before, &after, revert, Ok::<(), ExecutionError>(())),
        !after.within_transaction(),
    ensures
        after.cache_history().len() == 0,
        after.resolved_history().len() == 0,
{
}

/// After an actor has been set, the tree shows the record that was set for
/// it, whatever is looked up in between that begins and ends no transaction.
pub proof fn law_set_then_get<S: Store>(
    before: StateTree<S>,
    set: StateTree<S>,
    looked: StateTree<S>,
    id: u64,
    actor: ActorView,
    got: Result<Option<crate::actor::ActorState>, ExecutionError>,
)
    requires
        StateTree::set_post(&before, &set, id, Some(actor), Ok::<(), ExecutionError>(())),
        StateTree::get_post(&set, &looked, id, got),
    ensures
        got matches Ok(Some(a)) && a@ == actor,
{
}

/// Rolling a history map back to the length that its history had at an
/// earlier time, when only recorded changes were made since, gives the
/// contents that it had at that time. In particular, rolling back to zero
/// gives the contents at the time the history was last empty.
pub proof fn law_rollback_restores<K, V>(
    later: Map<K, V>,
    later_history: Seq<(K, Option<V>)>,
    earlier: Map<K, V>,
    earlier_history: Seq<(K, Option<V>)>,
)
    requires
        extends(later, later_history, earlier, earlier_history),
    ensures
        rolled_back(later, later_history, earlier_history.len()) == earlier,
        later_history.len() <= earlier_history.len() ==> later == earlier,
{
    if later_history.len() <= earlier_history.len() {
        assert(rolled_back(later, later_history, earlier_history.len()) == later);
    }
}

} // verus!
