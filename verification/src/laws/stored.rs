//! What is stored of graphs and documents, how it is written, and what is read from it.

use vstd::prelude::*;
use crate::bitpack;
use crate::commit;
use crate::commit::WriteStep;
use crate::engine::assemble;
use crate::hnsw::reorder;
use crate::hnsw::snapshot;
use crate::hnsw::types::PointId;
use crate::laws::encode::numbers;
use crate::score;
use crate::storage;

verus! {

/// What is stored of a layer are the neighbours of every node that has any, in the order
/// of the nodes.
pub proof fn law_stored_layers_hold_every_list(ids: Seq<PointId>, layer: Seq<Seq<usize>>, upto: nat)
    ensures
        snapshot::stored_layer(ids, layer, upto) == numbers(upto).filter(|i: int| layer[i].len() > 0).map_values(
            |i: int| (ids[i], layer[i].map_values(|node: usize| ids[node as int])),
        ),
    decreases upto,
{
    reveal(Seq::filter);
    let p = |i: int| layer[i].len() > 0;
    let f = |i: int| (ids[i], layer[i].map_values(|node: usize| ids[node as int]));
    if upto == 0 {
        assert(numbers(0).filter(p) =~= Seq::<int>::empty());
        assert(Seq::<int>::empty().map_values(f) =~= Seq::empty());
    } else {
        let k = (upto - 1) as nat;
        law_stored_layers_hold_every_list(ids, layer, k);
        assert(numbers(upto).drop_last() =~= numbers(k));
        let before = numbers(k).filter(p);
        if layer[upto - 1].len() > 0 {
            assert(numbers(upto).filter(p) == before.push(upto - 1));
            assert(before.push(upto - 1).map_values(f) =~= before.map_values(f).push(f(upto - 1)));
            assert(reorder::points_of(ids, layer[upto - 1]) =~= layer[upto - 1].map_values(
                |node: usize| ids[node as int],
            ));
        } else {
            assert(numbers(upto).filter(p) == before);
        }
    }
}

/// The points that are stored as deleted are all that are deleted, in the order of their
/// nodes.
pub proof fn law_every_deletion_is_stored(ids: Seq<PointId>, deleted: Seq<bool>, upto: nat)
    ensures
        snapshot::stored_deleted(ids, deleted, upto) == numbers(upto).filter(|i: int| deleted[i]).map_values(
            |i: int| ids[i],
        ),
    decreases upto,
{
    reveal(Seq::filter);
    let p = |i: int| deleted[i];
    let f = |i: int| ids[i];
    if upto == 0 {
        assert(numbers(0).filter(p) =~= Seq::<int>::empty());
        assert(Seq::<int>::empty().map_values(f) =~= Seq::empty());
    } else {
        let k = (upto - 1) as nat;
        law_every_deletion_is_stored(ids, deleted, k);
        assert(numbers(upto).drop_last() =~= numbers(k));
        let before = numbers(k).filter(p);
        if deleted[upto - 1] {
            assert(numbers(upto).filter(p) == before.push(upto - 1));
            assert(before.push(upto - 1).map_values(f) =~= before.map_values(f).push(f(upto - 1)));
        } else {
            assert(numbers(upto).filter(p) == before);
        }
    }
}

/// The level of a point is the last that is stored of it, or zero.
pub proof fn law_the_last_stored_level_counts(levels: Seq<(PointId, usize)>, id: PointId)
    ensures
        forall|k: int|
            0 <= k < levels.len() && (#[trigger] levels[k]).0 == id && (forall|j: int|
                k < j < levels.len() ==> (#[trigger] levels[j]).0 != id) ==> snapshot::level_of(levels, id) == levels[k].1,
        (forall|k: int| 0 <= k < levels.len() ==> (#[trigger] levels[k]).0 != id) ==> snapshot::level_of(levels, id) == 0,
    decreases levels.len(),
{
    if levels.len() > 0 {
        let rest = levels.drop_last();
        let last = levels.len() - 1;
        law_the_last_stored_level_counts(rest, id);
        assert(levels[last] == levels.last());
        assert forall|k: int|
            0 <= k < levels.len() && (#[trigger] levels[k]).0 == id && (forall|j: int|
                k < j < levels.len() ==> (#[trigger] levels[j]).0 != id) implies snapshot::level_of(levels, id)
            == levels[k].1 by {
            if k < last {
                assert(levels[last].0 != id);
                assert forall|j: int| k < j < rest.len() implies (#[trigger] rest[j]).0 != id by {
                    assert(levels[j].0 != id);
                }
                assert(rest[k] == levels[k]);
            }
        }
        if forall|k: int| 0 <= k < levels.len() ==> (#[trigger] levels[k]).0 != id {
            assert(levels[last].0 != id);
            assert forall|k: int| 0 <= k < rest.len() implies (#[trigger] rest[k]).0 != id by {
                assert(levels[k].0 != id);
            }
        }
    }
}

/// The nodes that are read of a list are those of all its points that have one.
pub proof fn law_every_known_point_is_read(nodes: Map<PointId, usize>, list: Seq<PointId>)
    ensures
        snapshot::known(nodes, list) == list.filter(|id: PointId| nodes.dom().contains(id)).map_values(
            |id: PointId| nodes[id],
        ),
    decreases list.len(),
{
    reveal(Seq::filter);
    let p = |id: PointId| nodes.dom().contains(id);
    let f = |id: PointId| nodes[id];
    if list.len() == 0 {
        assert(list.filter(p).map_values(f) =~= Seq::empty());
    } else {
        law_every_known_point_is_read(nodes, list.drop_last());
        let before = list.drop_last().filter(p);
        let last = list.last();
        if nodes.dom().contains(last) {
            assert(list.filter(p) == before.push(last));
            assert(before.push(last).map_values(f) =~= before.map_values(f).push(f(last)));
        } else {
            assert(list.filter(p) == before);
        }
    }
}

/// The highest stored layer is one of the stored ones, or the lowest, and no stored one
/// is higher.
pub proof fn law_the_highest_layer_is_read(layers: Seq<(usize, Seq<(PointId, Seq<PointId>)>)>)
    ensures
        forall|k: int| 0 <= k < layers.len() ==> (#[trigger] layers[k]).0 <= snapshot::top_layer(layers),
        snapshot::top_layer(layers) == 0 || exists|k: int|
            0 <= k < layers.len() && (#[trigger] layers[k]).0 == snapshot::top_layer(layers),
    decreases layers.len(),
{
    if layers.len() > 0 {
        let rest = layers.drop_last();
        let last = layers.len() - 1;
        law_the_highest_layer_is_read(rest);
        assert(layers[last] == layers.last());
        assert forall|k: int| 0 <= k < layers.len() implies (#[trigger] layers[k]).0 <= snapshot::top_layer(layers) by {
            if k < last {
                assert(rest[k] == layers[k]);
            }
        }
        if snapshot::top_layer(layers) != 0 && layers.last().0 <= snapshot::top_layer(rest) {
            let k = choose|k: int| 0 <= k < rest.len() && (#[trigger] rest[k]).0 == snapshot::top_layer(rest);
            assert(layers[k] == rest[k]);
        }
    }
}

/// A stored document starts with the number of its rows, their length, the bits of a code
/// and the number one; the centroids of its rows follow, then its packed codes.
pub proof fn law_documents_are_laid_out(dimension: u32, bits: u8, ids: Seq<u32>, codes: Seq<u8>, i: int)
    requires
        ids.len() <= u32::MAX,
        0 <= i < ids.len(),
    ensures
        ({
            let bytes = storage::plaid_record(dimension, bits, ids, codes);
            let word = |at: int| bytes[at] + 0x100 * bytes[at + 1] + 0x1_0000 * bytes[at + 2] + 0x100_0000 * bytes[at + 3];
            &&& word(0) == ids.len()
            &&& word(4) == dimension
            &&& bytes[8] == bits
            &&& bytes[9] == 0 && bytes[10] == 0 && bytes[11] == 0
            &&& word(12) == 0x3f80_0000
            &&& word(16 + 4 * i) == ids[i]
            &&& bytes.skip(16 + 4 * ids.len() as int) == bitpack::packed(codes, bits as nat)
        }),
{
    let bytes = storage::plaid_record(dimension, bits, ids, codes);
    lemma_word(ids.len() as u32);
    lemma_word(dimension);
    lemma_word(score::ONE);
    lemma_word(ids[i]);
    let all = storage::le32_all(ids);
    assert((4 * i) / 4 == i && (4 * i + 1) / 4 == i && (4 * i + 2) / 4 == i && (4 * i + 3) / 4 == i);
    assert(bytes[16 + 4 * i] == all[4 * i]);
    assert(bytes[16 + 4 * i + 1] == all[4 * i + 1]);
    assert(bytes[16 + 4 * i + 2] == all[4 * i + 2]);
    assert(bytes[16 + 4 * i + 3] == all[4 * i + 3]);
    assert(bytes.skip(16 + 4 * ids.len() as int) =~= bitpack::packed(codes, bits as nat));
}

proof fn lemma_word(word: u32)
    ensures
        word == storage::byte_of(word, 0) + 0x100 * storage::byte_of(word, 1) + 0x1_0000 * storage::byte_of(word, 2)
            + 0x100_0000 * storage::byte_of(word, 3),
{
    assert(word as int == word % 256 + 256 * (word / 256 % 256) + 65536 * (word / 65536 % 256) + 16777216 * (word
        / 16777216)) by (nonlinear_arith);
    assert(word / 16777216 % 256 == word / 16777216);
}

/// A replacement that is synced writes the whole file and syncs it before it is renamed,
/// and syncs the directory behind that.
pub proof fn law_files_are_synced_before_the_rename()
    ensures
        ({
            let plan = commit::write_plan(true);
            exists|w: int, s: int, r: int, d: int|
                0 <= w < s < r < d < plan.len() && #[trigger] plan[w] == WriteStep::Write && #[trigger] plan[s]
                    == WriteStep::SyncFile && #[trigger] plan[r] == WriteStep::Rename && #[trigger] plan[d]
                    == WriteStep::SyncDirectory
        }),
{
    let plan = commit::write_plan(true);
    assert(plan[1] == WriteStep::Write && plan[2] == WriteStep::SyncFile && plan[3] == WriteStep::Rename && plan[4]
        == WriteStep::SyncDirectory);
}

/// A digest is written with two digits for each byte, which say its value.
pub proof fn law_digests_are_written_in_hexadecimal(bytes: Seq<u8>, i: int)
    requires
        0 <= i < bytes.len(),
    ensures
        ({
            let text = storage::lower_hex(bytes);
            let digit = |c: char| "0123456789abcdef"@.index_of(c);
            &&& text.len() == 2 * bytes.len()
            &&& 16 * digit(text[2 * i]) + digit(text[2 * i + 1]) == bytes[i]
        }),
{
    reveal_strlit("0123456789abcdef");
    let digits = "0123456789abcdef"@;
    let high = bytes[i] as int / 16;
    let low = bytes[i] as int % 16;
    assert((2 * i) / 2 == i && (2 * i + 1) / 2 == i && (2 * i) % 2 == 0 && (2 * i + 1) % 2 == 1);
    let text = storage::lower_hex(bytes);
    assert(text[2 * i] == digits[high] && text[2 * i + 1] == digits[low]);
    assert(digits.no_duplicates());
    assert(digits.contains(digits[high]) && digits.contains(digits[low]));
    assert(digits[digits.index_of(digits[high])] == digits[high]);
    assert(digits[digits.index_of(digits[low])] == digits[low]);
}

/// The documents enter a graph in batches that follow one another from the first to the
/// last, each of 4096 at most.
pub proof fn law_batches_cover_all_documents(total: int, k: int)
    requires
        0 <= total,
        0 <= k < assemble::batch_count(total),
    ensures
        assemble::batch_end(total, 0) == 0,
        assemble::batch_end(total, assemble::batch_count(total)) == total,
        assemble::batch_end(total, k) < assemble::batch_end(total, k + 1) <= assemble::batch_end(total, k) + 4096,
{
}

} // verus!
