//! Splitting and joining undo each other.

use crate::naming::{lemma_part_names_sorted, part_name, part_names, MAX_ORDERED_PARTS};
use crate::split::{chunk_count, chunks, lemma_split_then_join};
use crate::text::{lemma_sorted_order_unique, lex_sorted};
use vstd::prelude::*;

verus! {

/// What a join writes: the contents that `files` holds under the paths of
/// `order`, one after the other.
pub open spec fn read_in_order(files: Map<Seq<char>, Seq<u8>>, order: Seq<Seq<char>>) -> Seq<u8> {
    order.map_values(|p: Seq<char>| files[p]).flatten()
}

/// Whether `files` holds the parts of `data`, cut at `chunk_size` bytes,
/// under the names of the parts of `path`.
pub open spec fn holds_parts(
    files: Map<Seq<char>, Seq<u8>>,
    path: Seq<char>,
    data: Seq<u8>,
    chunk_size: nat,
) -> bool {
    forall|i: int|
        0 <= i < chunk_count(data.len(), chunk_size) ==> {
            &&& files.contains_key(#[trigger] part_name(path, (i + 1) as nat))
            &&& files[part_name(path, (i + 1) as nat)] == chunks(data, chunk_size)[i]
        }
}

/// A join reads the parts of a split in the order in which they were cut,
/// so long as there are no more than 9999 of them and nothing else is taken
/// for a part: any sorted list of exactly the parts' names is the list of
/// the names by part number.
pub proof fn lemma_join_order(path: Seq<char>, count: nat, order: Seq<Seq<char>>)
    requires
        count <= MAX_ORDERED_PARTS,
        lex_sorted(order),
        order.to_multiset() == part_names(path, count).to_multiset(),
    ensures
        order == part_names(path, count),
{
    lemma_part_names_sorted(path, count);
    lemma_sorted_order_unique(order, part_names(path, count));
}

/// Splitting and then joining gives back the stream: where the parts of
/// `data` are stored under their names, no more than 9999 of them, and the
/// join takes exactly these files, in sorted order, it writes `data`.
pub proof fn lemma_round_trip(
    data: Seq<u8>,
    chunk_size: nat,
    path: Seq<char>,
    files: Map<Seq<char>, Seq<u8>>,
    order: Seq<Seq<char>>,
)
    requires
        chunk_size > 0,
        chunk_count(data.len(), chunk_size) <= MAX_ORDERED_PARTS,
        holds_parts(files, path, data, chunk_size),
        lex_sorted(order),
        order.to_multiset() == part_names(path, chunk_count(data.len(), chunk_size)).to_multiset(),
    ensures
        read_in_order(files, order) == data,
{
    let count = chunk_count(data.len(), chunk_size);
    lemma_join_order(path, count, order);
    let read = order.map_values(|p: Seq<char>| files[p]);
    assert forall|i: int| 0 <= i < count implies read[i] == chunks(data, chunk_size)[i] by {
        assert(order[i] == part_name(path, (i + 1) as nat));
    }
    assert(read =~= chunks(data, chunk_size));
    lemma_split_then_join(data, chunk_size);
}

} // verus!
