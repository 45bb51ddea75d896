//! The segment file format: the list of the series blocks of a segment as
//! the bytes that bincode writes for it. A block is written as its fields in
//! order: key, payload, tags, least and greatest timestamp, count.

use crate::series::{block_views, tag_contents, SeriesData, SeriesDataView};
use std::collections::BTreeMap;
use vstd::prelude::*;

verus! {

/// `bincode::ErrorKind`, the error of bincode, carried through as it is.
#[verifier::external_type_specification]
#[verifier::external_body]
pub struct ExBincodeErrorKind(bincode::ErrorKind);

/// A series block as the tuple of its fields, in the order of the file
/// format; the count is written in 64 bits.
pub type BlockRow = (String, Vec<u8>, BTreeMap<String, String>, u64, u64, u64);

/// The mathematical content of a row.
pub type RowView = (Seq<char>, Seq<u8>, Map<Seq<char>, Seq<char>>, u64, u64, u64);

/// The content of a row.
pub open spec fn row_view(row: BlockRow) -> RowView {
    (row.0@, row.1@, tag_contents(row.2@), row.3, row.4, row.5)
}

/// The contents of a sequence of rows.
pub open spec fn row_views(rows: Seq<BlockRow>) -> Seq<RowView> {
    rows.map_values(|row: BlockRow| row_view(row))
}

/// The row of a block.
pub open spec fn row_of(block: SeriesDataView) -> RowView {
    (
        block.series_key,
        block.compressed_data,
        block.tags,
        block.min_timestamp,
        block.max_timestamp,
        block.count as u64,
    )
}

/// The rows of a sequence of blocks.
pub open spec fn rows_of(blocks: Seq<SeriesDataView>) -> Seq<RowView> {
    blocks.map_values(|block: SeriesDataView| row_of(block))
}

/// The block of a row whose count fits the machine.
pub open spec fn block_of(row: RowView) -> SeriesDataView {
    SeriesDataView {
        series_key: row.0,
        compressed_data: row.1,
        tags: row.2,
        min_timestamp: row.3,
        max_timestamp: row.4,
        count: row.5 as usize,
    }
}

/// The blocks of a sequence of rows, unless the count of one does not fit
/// the machine.
pub open spec fn blocks_of(rows: Seq<RowView>) -> Option<Seq<SeriesDataView>> {
    if forall|i: int| 0 <= i < rows.len() ==> (#[trigger] rows[i]).5 <= usize::MAX {
        Some(rows.map_values(|row: RowView| block_of(row)))
    } else {
        None
    }
}

/// The bytes that bincode writes for a list of rows.
pub uninterp spec fn bincode_encoding(rows: Seq<RowView>) -> Seq<u8>;

/// The list of rows that bincode reads from bytes, where it reads one.
pub uninterp spec fn bincode_decoding(bytes: Seq<u8>) -> Option<Seq<RowView>>;

/// The bytes of a segment file that holds `blocks`.
pub open spec fn segment_bytes(blocks: Seq<SeriesDataView>) -> Seq<u8> {
    bincode_encoding(rows_of(blocks))
}

/// The blocks that a segment file with the content `bytes` holds, where it
/// holds a list of blocks.
pub open spec fn segment_blocks(bytes: Seq<u8>) -> Option<Seq<SeriesDataView>> {
    match bincode_decoding(bytes) {
        Some(rows) => blocks_of(rows),
        None => None,
    }
}

/// `bincode::serialize` on a list of rows. Claimed: it succeeds, and the
/// bytes are a function of the contents of the rows alone. It succeeds
/// because it sets no size limit, every sequence and map of a row knows its
/// length, and it writes into a `Vec`.
#[verifier::external_body]
fn bincode_serialize(rows: &Vec<BlockRow>) -> (result: Result<Vec<u8>, Box<bincode::ErrorKind>>)
    ensures
        result is Ok,
        result matches Ok(bytes) ==> bytes@ == bincode_encoding(row_views(rows@)),
{
    bincode::serialize(rows)
}

/// `bincode::deserialize` to a list of rows. Claimed: whether it succeeds,
/// and the contents of the rows when it does, are a function of the bytes
/// alone.
#[verifier::external_body]
fn bincode_deserialize(bytes: &[u8]) -> (result: Result<Vec<BlockRow>, Box<bincode::ErrorKind>>)
    ensures
        match result {
            Ok(rows) => bincode_decoding(bytes@) == Some(row_views(rows@)),
            Err(_) => bincode_decoding(bytes@).is_none(),
        },
{
    bincode::deserialize(bytes)
}

/// Why the bytes of a segment could not be read.
#[derive(Debug, Clone, Copy, PartialEq, Eq, Structural)]
pub enum WireError {
    /// The bytes are not a serialized list of blocks.
    Malformed,
}

/// The rows of a list of blocks.
pub fn rows_of_blocks(blocks: &Vec<SeriesData>) -> (rows: Vec<BlockRow>)
    ensures
        row_views(rows@) == rows_of(block_views(blocks@)),
{
    let mut rows: Vec<BlockRow> = Vec::new();
    let mut i: usize = 0;
    while i < blocks.len()
        invariant
            i <= blocks.len(),
            rows.len() == i,
            forall|k: int| 0 <= k < i ==> row_view(#[trigger] rows[k]) == row_of(blocks[k]@),
        decreases blocks.len() - i,
    {
        let copy = blocks[i].duplicate();
        let row: BlockRow = (
            copy.series_key,
            copy.compressed_data,
            copy.tags,
            copy.min_timestamp,
            copy.max_timestamp,
            copy.count as u64,
        );
        rows.push(row);
        i = i + 1;
    }
    assert(row_views(rows@) =~= rows_of(block_views(blocks@)));
    rows
}

/// The blocks of a list of rows. Fails when the count of a row does not fit
/// the machine.
pub fn blocks_of_rows(rows: Vec<BlockRow>) -> (result: Result<Vec<SeriesData>, WireError>)
    ensures
        match result {
            Ok(blocks) => blocks_of(row_views(rows@)) == Some(block_views(blocks@)),
            Err(e) => e == WireError::Malformed && blocks_of(row_views(rows@)).is_none(),
        },
{
    let ghost all = row_views(rows@);
    let mut rest = rows;
    let mut reversed: Vec<SeriesData> = Vec::new();
    while rest.len() > 0
        invariant
            all == row_views(rows@),
            rest.len() + reversed.len() == all.len(),
            row_views(rest@) == all.take(rest.len() as int),
            forall|i: int| rest.len() <= i < all.len() ==> (#[trigger] all[i]).5 <= usize::MAX,
            forall|k: int|
                0 <= k < reversed.len() ==> (#[trigger] reversed[k])@ == block_of(
                    all[all.len() - 1 - k],
                ),
        decreases rest.len(),
    {
        let ghost before = rest@;
        let row = rest.pop().unwrap();
        proof {
            assert(row_view(row) == row_views(before)[before.len() - 1]);
            assert(all.take(before.len() as int)[before.len() - 1] == all[before.len() - 1]);
            assert(row_view(row) == all[rest.len() as int]);
            assert(row_views(rest@) =~= all.take(rest.len() as int));
        }
        if row.5 > usize::MAX as u64 {
            proof {
                assert(all[rest.len() as int].5 > usize::MAX);
            }
            return Err(WireError::Malformed);
        }
        let block = SeriesData {
            series_key: row.0,
            compressed_data: row.1,
            tags: row.2,
            min_timestamp: row.3,
            max_timestamp: row.4,
            count: row.5 as usize,
        };
        assert(block@ == block_of(all[rest.len() as int]));
        let ghost earlier = reversed@;
        reversed.push(block);
        assert forall|k: int| 0 <= k < reversed.len() implies (#[trigger] reversed[k])@
            == block_of(all[all.len() - 1 - k]) by {
            if k < earlier.len() {
                assert(reversed[k] == earlier[k]);
            }
        }
    }
    let ghost target = all.map_values(|row: RowView| block_of(row));
    let mut blocks: Vec<SeriesData> = Vec::new();
    while reversed.len() > 0
        invariant
            blocks.len() + reversed.len() == all.len(),
            forall|i: int| 0 <= i < all.len() ==> (#[trigger] all[i]).5 <= usize::MAX,
            target == all.map_values(|row: RowView| block_of(row)),
            block_views(blocks@) == target.take(blocks.len() as int),
            forall|k: int|
                0 <= k < reversed.len() ==> (#[trigger] reversed[k])@ == block_of(
                    all[all.len() - 1 - k],
                ),
        decreases reversed.len(),
    {
        let block = reversed.pop().unwrap();
        blocks.push(block);
        assert(block_views(blocks@) =~= target.take(blocks.len() as int));
    }
    assert(target.take(blocks.len() as int) =~= target);
    Ok(blocks)
}

/// The bytes of a segment file that holds `blocks`.
pub fn encode_segment(blocks: &Vec<SeriesData>) -> (bytes: Vec<u8>)
    ensures
        bytes@ == segment_bytes(block_views(blocks@)),
{
    let rows = rows_of_blocks(blocks);
    match bincode_serialize(&rows) {
        Ok(bytes) => bytes,
        Err(_) => unreached(),
    }
}

/// The blocks that the bytes of a segment file hold.
pub fn decode_segment(bytes: &[u8]) -> (result: Result<Vec<SeriesData>, WireError>)
    ensures
        match result {
            Ok(blocks) => segment_blocks(bytes@) == Some(block_views(blocks@)),
            Err(e) => e == WireError::Malformed && segment_blocks(bytes@).is_none(),
        },
{
    match bincode_deserialize(bytes) {
        Ok(rows) => blocks_of_rows(rows),
        Err(_) => Err(WireError::Malformed),
    }
}

} // verus!
