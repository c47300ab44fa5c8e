//! The walks between instrumented nodes and the table of sancov edges that
//! they fill.

use vstd::prelude::*;
use crate::seqs::{dedup_adjacent, lemma_dedup_append, lemma_dedup_contains, lemma_dedup_shape, no_adjacent_repeat};

verus! {

/// Every successor in the lists is the index of a list.
pub open spec fn lists_in_range(lists: Seq<Seq<u64>>) -> bool {
    forall|n: int, k: int| 0 <= n < lists.len() && 0 <= k < lists[n].len() ==> #[trigger] lists[n][k] < lists.len()
}

/// Every entry of `path` is below `n`.
pub open spec fn path_in_range(path: Seq<usize>, n: nat) -> bool {
    forall|i: int| 0 <= i < path.len() ==> #[trigger] path[i] < n
}

/// The walk that has come along `path` ends at its last node `v`: `v` is
/// instrumented and not the source, or `v` has no successor, or `v` lies on
/// the path already.
pub open spec fn walk_stops(lists: Seq<Seq<u64>>, sancov: Map<u64, u32>, path: Seq<usize>) -> bool {
    let v = path.last();
    ||| path.len() > 1 && sancov.contains_key(v as u64)
    ||| lists[v as int].len() == 0
    ||| path.drop_last().contains(v)
}

/// The paths that the depth-first walk records once it has come along
/// `path`, in the order in which it records them: `path` itself where the
/// walk ends there, else what it records through each successor in turn.
pub open spec fn walks(lists: Seq<Seq<u64>>, sancov: Map<u64, u32>, path: Seq<usize>) -> Seq<Seq<usize>>
    decreases lists.len() + 1 - path.len(), 1int, 0int,
{
    if walk_stops(lists, sancov, path) {
        seq![path]
    } else {
        walks_through(lists, sancov, path, lists[path.last() as int].len())
    }
}

/// The paths that the walk records through the first `k` successors of the
/// last node of `path`. A walk never leads along more nodes than the graph
/// has; for a longer `path` nothing is said.
pub open spec fn walks_through(lists: Seq<Seq<u64>>, sancov: Map<u64, u32>, path: Seq<usize>, k: nat) -> Seq<
    Seq<usize>,
>
    decreases lists.len() + 1 - path.len(), 0int, k,
    when path.len() <= lists.len()
{
    if k == 0 {
        Seq::empty()
    } else {
        walks_through(lists, sancov, path, (k - 1) as nat) + walks(
            lists,
            sancov,
            path.push(lists[path.last() as int][k - 1] as usize),
        )
    }
}

/// The paths that the walks from the first `count` nodes record, source
/// after source. Only instrumented nodes are sources.
pub open spec fn walks_of_sources(lists: Seq<Seq<u64>>, sancov: Map<u64, u32>, count: nat) -> Seq<Seq<usize>>
    decreases count,
{
    if count == 0 {
        Seq::empty()
    } else {
        let source = (count - 1) as usize;
        walks_of_sources(lists, sancov, (count - 1) as nat) + if sancov.contains_key(source as u64) {
            walks(lists, sancov, seq![source])
        } else {
            Seq::empty()
        }
    }
}

/// The pair of sancov indices under which a recorded path is kept: that of
/// its first node, the source, and that of its last node, or the source's
/// again where the last node is not instrumented; the lower one first.
pub open spec fn edge_key(sancov: Map<u64, u32>, path: Seq<usize>) -> (u32, u32) {
    let from = sancov[path.first() as u64];
    let to = if sancov.contains_key(path.last() as u64) {
        sancov[path.last() as u64]
    } else {
        from
    };
    if from <= to {
        (from, to)
    } else {
        (to, from)
    }
}

/// The table after `path` is recorded under `key`: the path is appended to
/// what the table holds there, and consecutive repeats are removed.
pub open spec fn record(table: Map<(u32, u32), Seq<usize>>, key: (u32, u32), path: Seq<usize>) -> Map<
    (u32, u32),
    Seq<usize>,
> {
    let held = if table.contains_key(key) {
        table[key]
    } else {
        Seq::empty()
    };
    table.insert(key, dedup_adjacent(held + path))
}

/// The table after the paths `paths` are recorded one after the other, each
/// under its key.
pub open spec fn record_all(
    table: Map<(u32, u32), Seq<usize>>,
    sancov: Map<u64, u32>,
    paths: Seq<Seq<usize>>,
) -> Map<(u32, u32), Seq<usize>>
    decreases paths.len(),
{
    if paths.len() == 0 {
        table
    } else {
        record(record_all(table, sancov, paths.drop_last()), edge_key(sancov, paths.last()), paths.last())
    }
}

/// The table of sancov edges of a graph: what the walks from all
/// instrumented nodes record, starting from an empty table.
pub open spec fn edge_table(lists: Seq<Seq<u64>>, sancov: Map<u64, u32>) -> Map<(u32, u32), Seq<usize>> {
    record_all(Map::empty(), sancov, walks_of_sources(lists, sancov, lists.len()))
}

/// Recording two runs of paths one after the other is recording them all.
pub proof fn lemma_record_all_concat(
    table: Map<(u32, u32), Seq<usize>>,
    sancov: Map<u64, u32>,
    a: Seq<Seq<usize>>,
    b: Seq<Seq<usize>>,
)
    ensures
        record_all(record_all(table, sancov, a), sancov, b) == record_all(table, sancov, a + b),
    decreases b.len(),
{
    if b.len() == 0 {
        assert(a + b =~= a);
    } else {
        lemma_record_all_concat(table, sancov, a, b.drop_last());
        assert((a + b).drop_last() =~= a + b.drop_last());
    }
}

/// Different node indices below `n` are at most `n`.
pub proof fn lemma_path_length(path: Seq<usize>, n: nat)
    requires
        path.no_duplicates(),
        path_in_range(path, n),
    ensures
        path.len() <= n,
{
    let ints = path.map_values(|x: usize| x as int);
    assert(ints.no_duplicates());
    ints.unique_seq_to_set();
    let all = vstd::set_lib::set_int_range(0, n as int);
    vstd::set_lib::lemma_int_range(0, n as int);
    assert(ints.to_set().subset_of(all)) by {
        assert forall|x: int| ints.to_set().contains(x) implies all.contains(x) by {
            let t = choose|t: int| 0 <= t < ints.len() && ints[t] == x;
            assert(path[t] < n);
        }
    }
    vstd::set_lib::lemma_len_subset(ints.to_set(), all);
}

/// A recorded path is sound for the graph: it is not empty, holds node
/// indices only, and begins at an instrumented node.
pub open spec fn path_sound(lists: Seq<Seq<u64>>, sancov: Map<u64, u32>, path: Seq<usize>) -> bool {
    &&& path.len() > 0
    &&& path_in_range(path, lists.len())
    &&& sancov.contains_key(path.first() as u64)
}

/// Every path that a walk records is sound and begins where the walk began.
pub proof fn lemma_walks_sound(lists: Seq<Seq<u64>>, sancov: Map<u64, u32>, path: Seq<usize>)
    requires
        lists_in_range(lists),
        lists.len() <= usize::MAX,
        path_sound(lists, sancov, path),
        path.drop_last().no_duplicates(),
    ensures
        forall|i: int|
            0 <= i < walks(lists, sancov, path).len() ==> path_sound(
                lists,
                sancov,
                #[trigger] walks(lists, sancov, path)[i],
            ) && walks(lists, sancov, path)[i].first() == path.first(),
    decreases lists.len() + 1 - path.len(), 1int, 0int,
{
    let all = walks(lists, sancov, path);
    if !walk_stops(lists, sancov, path) {
        lemma_push_no_duplicates(path);
        lemma_path_length(path, lists.len());
        lemma_walks_through_sound(lists, sancov, path, lists[path.last() as int].len());
        assert(all == walks_through(lists, sancov, path, lists[path.last() as int].len()));
    } else {
        assert(all == seq![path]);
        assert(all.len() == 1);
        assert(all[0] == path);
    }
}

/// A path without repeats before its last node, whose last node is not
/// among the others, has no repeats at all.
pub proof fn lemma_push_no_duplicates(path: Seq<usize>)
    requires
        path.len() > 0,
        path.drop_last().no_duplicates(),
        !path.drop_last().contains(path.last()),
    ensures
        path.no_duplicates(),
{
    let front = path.drop_last();
    assert forall|i: int, j: int| 0 <= i < path.len() && 0 <= j < path.len() && i != j implies path[i] != path[j] by {
        if i < front.len() && j < front.len() {
            assert(front[i] != front[j]);
        } else if i < front.len() {
            assert(front[i] == path[i]);
            assert(front.contains(path[i]));
        } else {
            assert(front[j] == path[j]);
            assert(front.contains(path[j]));
        }
    }
}

/// Every path that a walk records through the first `k` successors is sound
/// and begins where the walk began.
pub proof fn lemma_walks_through_sound(lists: Seq<Seq<u64>>, sancov: Map<u64, u32>, path: Seq<usize>, k: nat)
    requires
        lists_in_range(lists),
        lists.len() <= usize::MAX,
        path_sound(lists, sancov, path),
        path.no_duplicates(),
        k <= lists[path.last() as int].len(),
    ensures
        forall|i: int|
            0 <= i < walks_through(lists, sancov, path, k).len() ==> path_sound(
                lists,
                sancov,
                #[trigger] walks_through(lists, sancov, path, k)[i],
            ) && walks_through(lists, sancov, path, k)[i].first() == path.first(),
    decreases lists.len() + 1 - path.len(), 0int, k,
{
    lemma_path_length(path, lists.len());
    if k > 0 {
        let successor = lists[path.last() as int][k - 1];
        assert(successor < lists.len());
        let next = path.push(successor as usize);
        lemma_walks_through_sound(lists, sancov, path, (k - 1) as nat);
        assert(next.first() == path[0]);
        assert(next.drop_last() =~= path);
        assert(path_in_range(next, lists.len())) by {
            assert forall|i: int| 0 <= i < next.len() implies #[trigger] next[i] < lists.len() by {
                if i < path.len() {
                    assert(next[i] == path[i]);
                }
            }
        }
        lemma_walks_sound(lists, sancov, next);
        let before = walks_through(lists, sancov, path, (k - 1) as nat);
        let added = walks(lists, sancov, next);
        let all = walks_through(lists, sancov, path, k);
        assert(all == before + added);
        assert forall|i: int| 0 <= i < all.len() implies path_sound(lists, sancov, #[trigger] all[i]) && all[i].first()
            == path.first() by {
            if i < before.len() {
                assert(all[i] == before[i]);
            } else {
                assert(all[i] == added[i - before.len()]);
            }
        }
    }
}

/// Every path that the walks from the first `count` nodes record is sound.
pub proof fn lemma_walks_of_sources_sound(lists: Seq<Seq<u64>>, sancov: Map<u64, u32>, count: nat)
    requires
        lists_in_range(lists),
        count <= lists.len(),
        lists.len() <= usize::MAX,
    ensures
        forall|i: int|
            0 <= i < walks_of_sources(lists, sancov, count).len() ==> path_sound(
                lists,
                sancov,
                #[trigger] walks_of_sources(lists, sancov, count)[i],
            ),
    decreases count,
{
    if count > 0 {
        lemma_walks_of_sources_sound(lists, sancov, (count - 1) as nat);
        let source = (count - 1) as usize;
        let before = walks_of_sources(lists, sancov, (count - 1) as nat);
        let all = walks_of_sources(lists, sancov, count);
        if sancov.contains_key(source as u64) {
            let start = seq![source];
            assert(start.drop_last() =~= Seq::<usize>::empty());
            assert(path_sound(lists, sancov, start));
            lemma_walks_sound(lists, sancov, start);
            let added = walks(lists, sancov, start);
            assert(all == before + added);
            assert forall|i: int| 0 <= i < all.len() implies path_sound(lists, sancov, #[trigger] all[i]) by {
                if i < before.len() {
                    assert(all[i] == before[i]);
                } else {
                    assert(all[i] == added[i - before.len()]);
                }
            }
        } else {
            assert(all =~= before);
        }
    }
}

/// What holds of every entry of a table that sound paths have filled, with
/// `a` and `b` the sancov indices of its key: `a` is at most `b`; the path
/// is not empty, holds node indices only and no consecutive repeat; it
/// begins at a node with sancov index `a` or `b`; and where `a` and `b`
/// differ it ends at such a node and holds a node of each.
pub open spec fn entry_sound(n: nat, sancov: Map<u64, u32>, key: (u32, u32), path: Seq<usize>) -> bool {
    &&& key.0 <= key.1
    &&& path.len() > 0
    &&& path_in_range(path, n)
    &&& no_adjacent_repeat(path)
    &&& sancov.contains_key(path.first() as u64)
    &&& sancov[path.first() as u64] == key.0 || sancov[path.first() as u64] == key.1
    &&& key.0 != key.1 ==> {
        &&& sancov.contains_key(path.last() as u64)
        &&& sancov[path.last() as u64] == key.0 || sancov[path.last() as u64] == key.1
        &&& exists|i: int| 0 <= i < path.len() && sancov.contains_key(path[i] as u64) && sancov[path[i] as u64] == key.0
        &&& exists|i: int| 0 <= i < path.len() && sancov.contains_key(path[i] as u64) && sancov[path[i] as u64] == key.1
    }
}

/// Every entry of the table is sound.
pub open spec fn table_sound(n: nat, sancov: Map<u64, u32>, table: Map<(u32, u32), Seq<usize>>) -> bool {
    forall|key: (u32, u32)| #[trigger] table.contains_key(key) ==> entry_sound(n, sancov, key, table[key])
}

/// Recording a sound path in a sound table leaves the table sound.
pub proof fn lemma_record_sound(
    lists: Seq<Seq<u64>>,
    sancov: Map<u64, u32>,
    table: Map<(u32, u32), Seq<usize>>,
    path: Seq<usize>,
)
    requires
        table_sound(lists.len(), sancov, table),
        path_sound(lists, sancov, path),
    ensures
        table_sound(lists.len(), sancov, record(table, edge_key(sancov, path), path)),
{
    let n = lists.len();
    let key = edge_key(sancov, path);
    let held = if table.contains_key(key) {
        table[key]
    } else {
        Seq::empty()
    };
    let whole = held + path;
    let kept = dedup_adjacent(whole);
    let after = record(table, key, path);
    lemma_dedup_shape(whole);
    assert(path_in_range(kept, n)) by {
        assert forall|i: int| 0 <= i < kept.len() implies #[trigger] kept[i] < n by {
            let x = kept[i];
            assert(kept.contains(x));
            lemma_dedup_contains(whole, x);
            let t = choose|t: int| 0 <= t < whole.len() && whole[t] == x;
            if t < held.len() {
                assert(held[t] < n);
            } else {
                assert(path[t - held.len()] < n);
            }
        }
    }
    assert(whole.last() == path.last());
    if held.len() > 0 {
        assert(whole.first() == held.first());
    } else {
        assert(whole.first() == path.first());
    }
    if key.0 != key.1 {
        let first = path.first();
        let last = path.last();
        assert(whole[held.len() as int] == first);
        assert(whole.contains(first));
        assert(whole.contains(last));
        lemma_dedup_contains(whole, first);
        lemma_dedup_contains(whole, last);
        let i1 = choose|i: int| 0 <= i < kept.len() && kept[i] == first;
        let i2 = choose|i: int| 0 <= i < kept.len() && kept[i] == last;
        assert(sancov.contains_key(kept[i1] as u64));
        assert(sancov.contains_key(kept[i2] as u64));
    }
    assert forall|k: (u32, u32)| #[trigger] after.contains_key(k) implies entry_sound(n, sancov, k, after[k]) by {
        if k != key {
            assert(table.contains_key(k));
        }
    }
}

/// Recording sound paths in a sound table leaves the table sound.
pub proof fn lemma_record_all_sound(
    lists: Seq<Seq<u64>>,
    sancov: Map<u64, u32>,
    table: Map<(u32, u32), Seq<usize>>,
    paths: Seq<Seq<usize>>,
)
    requires
        table_sound(lists.len(), sancov, table),
        forall|i: int| 0 <= i < paths.len() ==> path_sound(lists, sancov, #[trigger] paths[i]),
    ensures
        table_sound(lists.len(), sancov, record_all(table, sancov, paths)),
    decreases paths.len(),
{
    if paths.len() > 0 {
        let front = paths.drop_last();
        assert forall|i: int| 0 <= i < front.len() implies path_sound(lists, sancov, #[trigger] front[i]) by {
            assert(front[i] == paths[i]);
        }
        lemma_record_all_sound(lists, sancov, table, front);
        lemma_record_sound(lists, sancov, record_all(table, sancov, front), paths.last());
    }
}

/// Every entry of the table of sancov edges is sound: with `(a, b)` its key,
/// `a` is at most `b`; its path holds node indices only and no two
/// consecutive equal entries; the path begins at a node with sancov index
/// `a` or `b`; and where `a` and `b` differ, it ends at such a node and
/// passes a node of each.
pub proof fn lemma_edge_table_sound(lists: Seq<Seq<u64>>, sancov: Map<u64, u32>)
    requires
        lists_in_range(lists),
        lists.len() <= usize::MAX,
    ensures
        table_sound(lists.len(), sancov, edge_table(lists, sancov)),
{
    lemma_walks_of_sources_sound(lists, sancov, lists.len());
    lemma_record_all_sound(lists, sancov, Map::empty(), walks_of_sources(lists, sancov, lists.len()));
}

/// The paths among `paths` that are kept under `key`, joined in order.
pub open spec fn recorded_under(sancov: Map<u64, u32>, paths: Seq<Seq<usize>>, key: (u32, u32)) -> Seq<usize>
    decreases paths.len(),
{
    if paths.len() == 0 {
        Seq::empty()
    } else if edge_key(sancov, paths.last()) == key {
        recorded_under(sancov, paths.drop_last(), key) + paths.last()
    } else {
        recorded_under(sancov, paths.drop_last(), key)
    }
}

/// One of the paths is kept under `key`.
pub open spec fn key_recorded(sancov: Map<u64, u32>, paths: Seq<Seq<usize>>, key: (u32, u32)) -> bool {
    exists|i: int| 0 <= i < paths.len() && edge_key(sancov, #[trigger] paths[i]) == key
}

/// A table that is filled from nothing has an entry for just the keys of
/// the recorded paths, and the entry is what the paths kept under the key
/// give when they are joined in order and consecutive repeats are removed.
pub proof fn lemma_table_holds_recorded(sancov: Map<u64, u32>, paths: Seq<Seq<usize>>, key: (u32, u32))
    ensures
        record_all(Map::empty(), sancov, paths).contains_key(key) <==> key_recorded(sancov, paths, key),
        !key_recorded(sancov, paths, key) ==> recorded_under(sancov, paths, key).len() == 0,
        key_recorded(sancov, paths, key) ==> record_all(Map::empty(), sancov, paths)[key] == dedup_adjacent(
            recorded_under(sancov, paths, key),
        ),
    decreases paths.len(),
{
    if paths.len() > 0 {
        let front = paths.drop_last();
        let last = paths.last();
        let table = record_all(Map::empty(), sancov, front);
        lemma_table_holds_recorded(sancov, front, key);
        if key_recorded(sancov, front, key) {
            let i = choose|i: int| 0 <= i < front.len() && edge_key(sancov, #[trigger] front[i]) == key;
            assert(edge_key(sancov, paths[i]) == key);
        }
        if key_recorded(sancov, paths, key) {
            let i = choose|i: int| 0 <= i < paths.len() && edge_key(sancov, #[trigger] paths[i]) == key;
            if i < front.len() {
                assert(edge_key(sancov, front[i]) == key);
            }
        }
        if edge_key(sancov, last) == key {
            assert(edge_key(sancov, paths[paths.len() - 1]) == key);
            let before = recorded_under(sancov, front, key);
            if table.contains_key(key) {
                lemma_dedup_append(before, last);
            } else {
                assert(Seq::<usize>::empty() + last =~= before + last);
            }
        }
    }
}

/// The path leads along edges of the graph, and no node strictly between
/// its ends is instrumented.
pub open spec fn free_walk(lists: Seq<Seq<u64>>, sancov: Map<u64, u32>, path: Seq<usize>) -> bool {
    &&& forall|i: int| 0 <= i < path.len() - 1 ==> lists[#[trigger] path[i] as int].contains(path[i + 1] as u64)
    &&& forall|i: int| 1 <= i < path.len() - 1 ==> !sancov.contains_key(#[trigger] path[i] as u64)
}

/// Every path that a walk records leads along edges of the graph and passes
/// no instrumented node between its ends.
pub proof fn lemma_walks_free(lists: Seq<Seq<u64>>, sancov: Map<u64, u32>, path: Seq<usize>)
    requires
        lists_in_range(lists),
        lists.len() <= usize::MAX,
        path_sound(lists, sancov, path),
        path.drop_last().no_duplicates(),
        free_walk(lists, sancov, path),
    ensures
        forall|i: int|
            0 <= i < walks(lists, sancov, path).len() ==> free_walk(lists, sancov, #[trigger] walks(lists, sancov, path)[i]),
    decreases lists.len() + 1 - path.len(), 1int, 0int,
{
    let all = walks(lists, sancov, path);
    if !walk_stops(lists, sancov, path) {
        lemma_push_no_duplicates(path);
        lemma_path_length(path, lists.len());
        lemma_walks_through_free(lists, sancov, path, lists[path.last() as int].len());
        assert(all == walks_through(lists, sancov, path, lists[path.last() as int].len()));
    } else {
        assert(all == seq![path]);
        assert(all[0] == path);
    }
}

/// Every path that a walk records through the first `k` successors leads
/// along edges of the graph and passes no instrumented node between its
/// ends.
pub proof fn lemma_walks_through_free(lists: Seq<Seq<u64>>, sancov: Map<u64, u32>, path: Seq<usize>, k: nat)
    requires
        lists_in_range(lists),
        lists.len() <= usize::MAX,
        path_sound(lists, sancov, path),
        path.no_duplicates(),
        free_walk(lists, sancov, path),
        !walk_stops(lists, sancov, path),
        k <= lists[path.last() as int].len(),
    ensures
        forall|i: int|
            0 <= i < walks_through(lists, sancov, path, k).len() ==> free_walk(
                lists,
                sancov,
                #[trigger] walks_through(lists, sancov, path, k)[i],
            ),
    decreases lists.len() + 1 - path.len(), 0int, k,
{
    lemma_path_length(path, lists.len());
    if k > 0 {
        let successor = lists[path.last() as int][k - 1];
        assert(successor < lists.len());
        let next = path.push(successor as usize);
        lemma_walks_through_free(lists, sancov, path, (k - 1) as nat);
        assert(next.first() == path[0]);
        assert(next.drop_last() =~= path);
        assert(path_in_range(next, lists.len())) by {
            assert forall|i: int| 0 <= i < next.len() implies #[trigger] next[i] < lists.len() by {
                if i < path.len() {
                    assert(next[i] == path[i]);
                }
            }
        }
        assert(free_walk(lists, sancov, next)) by {
            assert forall|i: int| 0 <= i < next.len() - 1 implies lists[#[trigger] next[i] as int].contains(
                next[i + 1] as u64,
            ) by {
                if i < path.len() - 1 {
                    assert(next[i] == path[i]);
                    assert(next[i + 1] == path[i + 1]);
                } else {
                    assert(next[i] == path.last());
                    assert(lists[path.last() as int][k - 1] == successor);
                }
            }
            assert forall|i: int| 1 <= i < next.len() - 1 implies !sancov.contains_key(#[trigger] next[i] as u64) by {
                assert(next[i] == path[i]);
                if i == path.len() - 1 {
                    assert(path.len() > 1);
                }
            }
        }
        lemma_walks_free(lists, sancov, next);
        let before = walks_through(lists, sancov, path, (k - 1) as nat);
        let added = walks(lists, sancov, next);
        let all = walks_through(lists, sancov, path, k);
        assert(all == before + added);
        assert forall|i: int| 0 <= i < all.len() implies free_walk(lists, sancov, #[trigger] all[i]) by {
            if i < before.len() {
                assert(all[i] == before[i]);
            } else {
                assert(all[i] == added[i - before.len()]);
            }
        }
    }
}

/// Every path that the walks from all instrumented nodes record begins at
/// an instrumented node, leads along edges of the graph, and passes no
/// instrumented node between its ends.
pub proof fn lemma_recorded_paths_free(lists: Seq<Seq<u64>>, sancov: Map<u64, u32>, count: nat)
    requires
        lists_in_range(lists),
        count <= lists.len(),
        lists.len() <= usize::MAX,
    ensures
        forall|i: int|
            0 <= i < walks_of_sources(lists, sancov, count).len() ==> free_walk(
                lists,
                sancov,
                #[trigger] walks_of_sources(lists, sancov, count)[i],
            ),
    decreases count,
{
    if count > 0 {
        lemma_recorded_paths_free(lists, sancov, (count - 1) as nat);
        let source = (count - 1) as usize;
        let before = walks_of_sources(lists, sancov, (count - 1) as nat);
        let all = walks_of_sources(lists, sancov, count);
        if sancov.contains_key(source as u64) {
            let start = seq![source];
            assert(start.drop_last() =~= Seq::<usize>::empty());
            assert(path_sound(lists, sancov, start));
            lemma_walks_free(lists, sancov, start);
            let added = walks(lists, sancov, start);
            assert(all == before + added);
            assert forall|i: int| 0 <= i < all.len() implies free_walk(lists, sancov, #[trigger] all[i]) by {
                if i < before.len() {
                    assert(all[i] == before[i]);
                } else {
                    assert(all[i] == added[i - before.len()]);
                }
            }
        } else {
            assert(all =~= before);
        }
    }
}

} // verus!
