//! The format of an index file.
//!
//! ```text
//! u32: length of the parent file's name, 0 if there is no parent file
//! <that number of bytes>: the parent file's name
//! u32: number of entries
//! u32: number of parent overflow entries
//! for each entry, in a topological order with parents first:
//!   u32: flags, always 0
//!   u32: generation number
//!   u32: number of parents
//!   u32: position of parent 1
//!   u32: place in the overflow table of parent 2
//!   <change id length number of bytes>: change id
//!   <commit id length number of bytes>: commit id
//! for each entry, sorted by commit id:
//!   <commit id length number of bytes>: commit id
//!   u32: position of the entry
//! for each parent after the first one of each entry:
//!   u32: position of the parent
//! ```
//!
//! Integers are little-endian.

use crate::byte_order::lex_lt;
use crate::ids::{ChangeId, CommitId};
use crate::model::Entry;
use byteorder::{LittleEndian, ReadBytesExt, WriteBytesExt};
use vstd::prelude::*;
use vstd::slice::slice_subrange;

verus! {

/// The four bytes of an integer, the least significant first.
pub open spec fn u32_bytes(v: u32) -> Seq<u8> {
    seq![
        (v % 256) as u8,
        (v / 256 % 256) as u8,
        (v / 65536 % 256) as u8,
        (v / 16777216) as u8,
    ]
}

/// The integer whose four bytes start at `at`.
pub open spec fn u32_at(bytes: Seq<u8>, at: int) -> u32 {
    (bytes[at] + 256 * bytes[at + 1] + 65536 * bytes[at + 2] + 16777216 * bytes[at + 3]) as u32
}

/// Calls `byteorder::ReadBytesExt::read_u32` for little-endian on a slice,
/// which takes the integer from the first four bytes.
#[verifier::external_body]
pub(crate) fn read_u32(data: &[u8]) -> (value: u32)
    requires
        data@.len() >= 4,
    ensures
        value == u32_at(data@, 0),
{
    let mut reader = data;
    reader.read_u32::<LittleEndian>().unwrap()
}

/// Calls `byteorder::WriteBytesExt::write_u32` for little-endian on a vector,
/// which appends the four bytes of the integer.
#[verifier::external_body]
pub(crate) fn write_u32(buf: &mut Vec<u8>, value: u32)
    ensures
        final(buf)@ == old(buf)@ + u32_bytes(value),
{
    buf.write_u32::<LittleEndian>(value).unwrap()
}

/// Appends a table of positions.
pub(crate) fn write_positions(buf: &mut Vec<u8>, positions: &[u32])
    ensures
        final(buf)@ == old(buf)@ + positions_bytes(positions@),
{
    let mut i: usize = 0;
    assert(positions@.take(0) =~= Seq::empty());
    while i < positions.len()
        invariant
            i <= positions@.len(),
            positions.len() == positions@.len(),
            buf@ == old(buf)@ + positions_bytes(positions@.take(i as int)),
        decreases positions@.len() - i,
    {
        write_u32(buf, positions[i]);
        proof {
            let now = positions@.take(i + 1);
            assert(now.drop_last() =~= positions@.take(i as int));
            assert(buf@ =~= old(buf)@ + positions_bytes(now));
        }
        i += 1;
    }
    assert(positions@.take(i as int) =~= positions@);
}

/// What was written is read back.
pub proof fn lemma_u32_bytes(v: u32, bytes: Seq<u8>, at: int)
    requires
        0 <= at,
        at + 4 <= bytes.len(),
        bytes.subrange(at, at + 4) == u32_bytes(v),
    ensures
        u32_at(bytes, at) == v,
{
    let w = u32_bytes(v);
    let s = bytes.subrange(at, at + 4);
    assert(bytes[at] == s[0] && s[0] == w[0]);
    assert(bytes[at + 1] == s[1] && s[1] == w[1]);
    assert(bytes[at + 2] == s[2] && s[2] == w[2]);
    assert(bytes[at + 3] == s[3] && s[3] == w[3]);
    assert(v == v % 256 + 256 * (v / 256 % 256) + 65536 * (v / 65536 % 256) + 16777216 * (v
        / 16777216));
}

/// Reads an integer inside a buffer.
pub(crate) fn read_u32_at(data: &[u8], at: usize) -> (value: u32)
    requires
        at + 4 <= data@.len(),
    ensures
        value == u32_at(data@, at as int),
{
    assert(data@.len() == data.len());
    read_u32(slice_subrange(data, at, at + 4))
}

/// The size of an entry of the graph table.
pub open spec fn graph_entry_size(commit_id_length: int, change_id_length: int) -> int {
    20 + commit_id_length + change_id_length
}

/// The size of an entry of the lookup table.
pub open spec fn lookup_entry_size(commit_id_length: int) -> int {
    commit_id_length + 4
}

/// The parents that an entry keeps in the overflow table.
pub open spec fn extra_parents(e: Entry) -> Seq<u32> {
    if e.parents.len() == 0 {
        Seq::empty()
    } else {
        e.parents.skip(1)
    }
}

/// The overflow table of a sequence of entries.
pub open spec fn overflow_table(g: Seq<Entry>) -> Seq<u32>
    decreases g.len(),
{
    if g.len() == 0 {
        Seq::empty()
    } else {
        overflow_table(g.drop_last()) + extra_parents(g.last())
    }
}

/// The first parent of an entry, or 0 if there is none.
pub open spec fn first_parent(e: Entry) -> u32 {
    if e.parents.len() == 0 {
        0
    } else {
        e.parents[0]
    }
}

/// The bytes of an entry of the graph table.
pub open spec fn graph_entry_bytes(e: Entry, overflow_pos: u32) -> Seq<u8> {
    u32_bytes(0) + u32_bytes(e.generation) + u32_bytes(e.parents.len() as u32) + u32_bytes(
        first_parent(e),
    ) + u32_bytes(overflow_pos) + e.change_id + e.commit_id
}

/// The bytes of the graph table.
pub open spec fn graph_bytes(g: Seq<Entry>) -> Seq<u8>
    decreases g.len(),
{
    if g.len() == 0 {
        Seq::empty()
    } else {
        let rest = g.drop_last();
        graph_bytes(rest) + graph_entry_bytes(g.last(), overflow_table(rest).len() as u32)
    }
}

/// The bytes of the lookup table.
pub open spec fn lookup_bytes(table: Seq<(Seq<u8>, u32)>) -> Seq<u8>
    decreases table.len(),
{
    if table.len() == 0 {
        Seq::empty()
    } else {
        lookup_bytes(table.drop_last()) + table.last().0 + u32_bytes(table.last().1)
    }
}

/// The bytes of a table of positions.
pub open spec fn positions_bytes(positions: Seq<u32>) -> Seq<u8>
    decreases positions.len(),
{
    if positions.len() == 0 {
        Seq::empty()
    } else {
        positions_bytes(positions.drop_last()) + u32_bytes(positions.last())
    }
}

/// The start of an index file: the name of the parent file, if there is one.
pub open spec fn header_bytes(parent_name: Option<Seq<u8>>) -> Seq<u8> {
    match parent_name {
        Some(name) => u32_bytes(name.len() as u32) + name,
        None => u32_bytes(0),
    }
}

/// The bytes of an index file after its header.
pub open spec fn body_bytes(g: Seq<Entry>, table: Seq<(Seq<u8>, u32)>) -> Seq<u8> {
    u32_bytes(g.len() as u32) + u32_bytes(overflow_table(g).len() as u32) + graph_bytes(g)
        + lookup_bytes(table) + positions_bytes(overflow_table(g))
}

/// The bytes of an index file that holds the entries `g` above the parent
/// file with the given name, with the given lookup table.
pub open spec fn index_file(
    parent_name: Option<Seq<u8>>,
    g: Seq<Entry>,
    table: Seq<(Seq<u8>, u32)>,
) -> Seq<u8> {
    header_bytes(parent_name) + body_bytes(g, table)
}

/// The length of the parent file's name that an index file gives.
pub open spec fn name_length(file: Seq<u8>) -> int {
    u32_at(file, 0) as int
}

/// Whether an index file is long enough for its header.
pub open spec fn has_header(file: Seq<u8>) -> bool {
    file.len() >= 4 && file.len() >= 4 + name_length(file)
}

/// The name of the parent file that an index file gives.
pub open spec fn parent_name_bytes(file: Seq<u8>) -> Seq<u8> {
    file.subrange(4, 4 + name_length(file))
}

/// Whether an index file is long enough for its header and the two numbers of
/// entries.
pub open spec fn has_counts(file: Seq<u8>) -> bool {
    has_header(file) && file.len() >= 4 + name_length(file) + 8
}

/// The number of entries that an index file gives.
pub open spec fn entry_count(file: Seq<u8>) -> int {
    u32_at(file, 4 + name_length(file)) as int
}

/// The number of parent overflow entries that an index file gives.
pub open spec fn overflow_count(file: Seq<u8>) -> int {
    u32_at(file, 8 + name_length(file)) as int
}

/// The tables of an index file.
pub open spec fn tables(file: Seq<u8>) -> Seq<u8> {
    file.skip(12 + name_length(file))
}

/// The size of the graph table that an index file's number of entries calls
/// for.
pub open spec fn graph_size(file: Seq<u8>, commit_id_length: int, change_id_length: int) -> int {
    entry_count(file) * graph_entry_size(commit_id_length, change_id_length)
}

/// The size of the lookup table that an index file's number of entries calls
/// for.
pub open spec fn lookup_size(file: Seq<u8>, commit_id_length: int) -> int {
    entry_count(file) * lookup_entry_size(commit_id_length)
}

/// Whether the tables of an index file have the size that its numbers of
/// entries call for.
pub open spec fn tables_sized(file: Seq<u8>, commit_id_length: int, change_id_length: int) -> bool {
    tables(file).len() == graph_size(file, commit_id_length, change_id_length) + lookup_size(
        file,
        commit_id_length,
    ) + 4 * overflow_count(file)
}

/// Whether a table is sorted by id, with no id twice.
pub open spec fn table_sorted(table: Seq<(Seq<u8>, u32)>) -> bool {
    forall|i: int, j: int|
        #![trigger table[i], table[j]]
        0 <= i < j < table.len() ==> lex_lt(table[i].0, table[j].0)
}

/// Whether a table holds an id with the given position.
pub open spec fn table_has(table: Seq<(Seq<u8>, u32)>, id: Seq<u8>, pos: int) -> bool {
    exists|l: int|
        0 <= l < table.len() && (#[trigger] table[l]).0 == id && table[l].1 == pos
}

/// Whether a table holds the id of each entry with the entry's position, where
/// the positions start at `base`, and nothing else, sorted by id.
pub open spec fn is_lookup_table(
    table: Seq<(Seq<u8>, u32)>,
    g: Seq<Entry>,
    base: int,
) -> bool {
    &&& table.len() == g.len()
    &&& table_sorted(table)
    &&& forall|l: int|
        0 <= l < table.len() ==> {
            &&& base <= (#[trigger] table[l]).1 < base + g.len()
            &&& g[table[l].1 - base].commit_id == table[l].0
        }
    &&& forall|i: int|
        0 <= i < g.len() ==> table_has(table, (#[trigger] g[i]).commit_id, base + i)
}

/// Whether the ids of the entries have the given lengths.
pub open spec fn ids_sized(g: Seq<Entry>, commit_id_length: int, change_id_length: int) -> bool {
    forall|i: int|
        0 <= i < g.len() ==> (#[trigger] g[i]).commit_id.len() == commit_id_length
            && g[i].change_id.len() == change_id_length
}

/// The entry that the bytes of a graph table entry and an overflow table hold.
pub open spec fn decode_entry(
    data: Seq<u8>,
    overflow: Seq<u8>,
    commit_id_length: int,
    change_id_length: int,
) -> Entry {
    let second = u32_at(data, 16) as int;
    Entry {
        commit_id: data.subrange(20 + change_id_length, 20 + change_id_length + commit_id_length),
        change_id: data.subrange(20, 20 + change_id_length),
        generation: u32_at(data, 4),
        parents: Seq::new(
            u32_at(data, 8) as nat,
            |k: int|
                if k == 0 {
                    u32_at(data, 12)
                } else {
                    u32_at(overflow, 4 * (second + k - 1))
                },
        ),
    }
}

/// The bytes at place `i` of a table of entries of the given size.
pub open spec fn chunk(data: Seq<u8>, size: int, i: int) -> Seq<u8> {
    data.subrange(i * size, i * size + size)
}

/// The entries that a graph table of `n` entries and an overflow table hold.
pub open spec fn decode_graph(
    data: Seq<u8>,
    overflow: Seq<u8>,
    n: nat,
    commit_id_length: int,
    change_id_length: int,
) -> Seq<Entry> {
    Seq::new(
        n,
        |i: int|
            decode_entry(
                chunk(data, graph_entry_size(commit_id_length, change_id_length), i),
                overflow,
                commit_id_length,
                change_id_length,
            ),
    )
}

/// The item that the bytes of a lookup table entry hold.
pub open spec fn decode_item(data: Seq<u8>, commit_id_length: int) -> (Seq<u8>, u32) {
    (data.take(commit_id_length), u32_at(data, commit_id_length))
}

/// The items that a lookup table of `n` entries holds.
pub open spec fn decode_table(data: Seq<u8>, n: nat, commit_id_length: int) -> Seq<
    (Seq<u8>, u32),
> {
    Seq::new(
        n,
        |i: int|
            decode_item(chunk(data, lookup_entry_size(commit_id_length), i), commit_id_length),
    )
}

/// The entries that an index file holds.
pub open spec fn file_entries(
    file: Seq<u8>,
    commit_id_length: int,
    change_id_length: int,
) -> Seq<Entry> {
    decode_graph(
        file_graph(file, commit_id_length, change_id_length),
        file_overflow(file, commit_id_length, change_id_length),
        entry_count(file) as nat,
        commit_id_length,
        change_id_length,
    )
}

/// The items of the lookup table of an index file.
pub open spec fn file_table(file: Seq<u8>, commit_id_length: int, change_id_length: int) -> Seq<
    (Seq<u8>, u32),
> {
    decode_table(
        file_lookup(file, commit_id_length, change_id_length),
        entry_count(file) as nat,
        commit_id_length,
    )
}

/// The bytes of the graph table of an index file.
pub open spec fn file_graph(file: Seq<u8>, commit_id_length: int, change_id_length: int) -> Seq<
    u8,
> {
    tables(file).take(graph_size(file, commit_id_length, change_id_length))
}

/// The bytes of the lookup table of an index file.
pub open spec fn file_lookup(file: Seq<u8>, commit_id_length: int, change_id_length: int) -> Seq<
    u8,
> {
    let start = graph_size(file, commit_id_length, change_id_length);
    tables(file).subrange(start, start + lookup_size(file, commit_id_length))
}

/// The bytes of the overflow table of an index file.
pub open spec fn file_overflow(
    file: Seq<u8>,
    commit_id_length: int,
    change_id_length: int,
) -> Seq<u8> {
    tables(file).skip(
        graph_size(file, commit_id_length, change_id_length) + lookup_size(file, commit_id_length),
    )
}

/// Whether the parents of a graph table entry that stand in the overflow table
/// lie inside it.
pub open spec fn overflow_inside(data: Seq<u8>, overflow_length: int) -> bool {
    u32_at(data, 8) >= 2 ==> 4 * (u32_at(data, 16) + u32_at(data, 8) - 1) <= overflow_length
}

/// Whether the parents of the entry at place `i` of an index file lie inside
/// its tables.
pub open spec fn file_parents_inside(
    file: Seq<u8>,
    commit_id_length: int,
    change_id_length: int,
    i: int,
) -> bool {
    overflow_inside(
        chunk(
            file_graph(file, commit_id_length, change_id_length),
            graph_entry_size(commit_id_length, change_id_length),
            i,
        ),
        file_overflow(file, commit_id_length, change_id_length).len() as int,
    )
}

/// A place in a table lies inside it.
pub proof fn lemma_chunk_inside(n: int, size: int, i: int)
    requires
        0 <= i < n,
        0 <= size,
    ensures
        0 <= i * size,
        i * size + size <= n * size,
        (i + 1) * size == i * size + size,
{
    assert(0 <= i * size) by (nonlinear_arith)
        requires
            0 <= i,
            0 <= size,
    ;
    assert((i + 1) * size == i * size + size) by (nonlinear_arith);
    assert((i + 1) * size <= n * size) by (nonlinear_arith)
        requires
            i + 1 <= n,
            0 <= size,
    ;
}

/// The graph table has the size that its number of entries calls for, and
/// holds the bytes of each entry at its place.
pub proof fn lemma_graph_bytes(g: Seq<Entry>, commit_id_length: int, change_id_length: int)
    requires
        ids_sized(g, commit_id_length, change_id_length),
        commit_id_length >= 0,
        change_id_length >= 0,
    ensures
        graph_bytes(g).len() == g.len() * graph_entry_size(commit_id_length, change_id_length),
        forall|i: int|
            0 <= i < g.len() ==> #[trigger] chunk(
                graph_bytes(g),
                graph_entry_size(commit_id_length, change_id_length),
                i,
            ) == graph_entry_bytes(g[i], overflow_table(g.take(i)).len() as u32),
    decreases g.len(),
{
    let size = graph_entry_size(commit_id_length, change_id_length);
    if g.len() == 0 {
        assert(0 * size == 0) by (nonlinear_arith);
    } else {
        let rest = g.drop_last();
        let n = rest.len() as int;
        assert forall|i: int| 0 <= i < rest.len() implies (#[trigger] rest[i]).commit_id.len()
            == commit_id_length && rest[i].change_id.len() == change_id_length by {
            assert(rest[i] == g[i]);
        }
        lemma_graph_bytes(rest, commit_id_length, change_id_length);
        let last = graph_entry_bytes(g.last(), overflow_table(rest).len() as u32);
        assert(g[n] == g.last());
        assert(last.len() == size);
        lemma_chunk_inside(g.len() as int, size, n);
        assert forall|i: int| 0 <= i < g.len() implies #[trigger] chunk(graph_bytes(g), size, i)
            == graph_entry_bytes(g[i], overflow_table(g.take(i)).len() as u32) by {
            lemma_chunk_inside(g.len() as int, size, i);
            if i < n {
                lemma_chunk_inside(n, size, i);
                assert(chunk(graph_bytes(g), size, i) =~= chunk(graph_bytes(rest), size, i));
                assert(rest.take(i) =~= g.take(i));
                assert(rest[i] == g[i]);
            } else {
                assert(chunk(graph_bytes(g), size, i) =~= last);
                assert(g.take(i) =~= rest);
            }
        }
    }
}

/// The same of the lookup table.
pub proof fn lemma_lookup_bytes(table: Seq<(Seq<u8>, u32)>, commit_id_length: int)
    requires
        forall|l: int| 0 <= l < table.len() ==> (#[trigger] table[l]).0.len() == commit_id_length,
        commit_id_length >= 0,
    ensures
        lookup_bytes(table).len() == table.len() * lookup_entry_size(commit_id_length),
        forall|l: int|
            0 <= l < table.len() ==> #[trigger] chunk(
                lookup_bytes(table),
                lookup_entry_size(commit_id_length),
                l,
            ) == table[l].0 + u32_bytes(table[l].1),
    decreases table.len(),
{
    let size = lookup_entry_size(commit_id_length);
    if table.len() == 0 {
        assert(0 * size == 0) by (nonlinear_arith);
    } else {
        let rest = table.drop_last();
        let n = rest.len() as int;
        assert forall|l: int| 0 <= l < rest.len() implies (#[trigger] rest[l]).0.len()
            == commit_id_length by {
            assert(rest[l] == table[l]);
        }
        lemma_lookup_bytes(rest, commit_id_length);
        let last = table.last().0 + u32_bytes(table.last().1);
        assert(table[n] == table.last());
        assert(last.len() == size);
        lemma_chunk_inside(table.len() as int, size, n);
        assert(lookup_bytes(table) =~= lookup_bytes(rest) + last);
        assert forall|l: int| 0 <= l < table.len() implies #[trigger] chunk(
            lookup_bytes(table),
            size,
            l,
        ) == table[l].0 + u32_bytes(table[l].1) by {
            lemma_chunk_inside(table.len() as int, size, l);
            if l < n {
                lemma_chunk_inside(n, size, l);
                assert(chunk(lookup_bytes(table), size, l) =~= chunk(lookup_bytes(rest), size, l));
                assert(rest[l] == table[l]);
            } else {
                assert(chunk(lookup_bytes(table), size, l) =~= last);
            }
        }
    }
}

/// The same of a table of positions.
pub proof fn lemma_positions_bytes(positions: Seq<u32>)
    ensures
        positions_bytes(positions).len() == 4 * positions.len(),
        forall|i: int|
            0 <= i < positions.len() ==> u32_at(positions_bytes(positions), 4 * i)
                == #[trigger] positions[i],
    decreases positions.len(),
{
    if positions.len() > 0 {
        let rest = positions.drop_last();
        lemma_positions_bytes(rest);
        let all = positions_bytes(positions);
        assert forall|i: int| 0 <= i < positions.len() implies u32_at(all, 4 * i)
            == #[trigger] positions[i] by {
            if i < rest.len() {
                assert(rest[i] == positions[i]);
                let part = positions_bytes(rest);
                assert(all[4 * i] == part[4 * i]);
                assert(all[4 * i + 1] == part[4 * i + 1]);
                assert(all[4 * i + 2] == part[4 * i + 2]);
                assert(all[4 * i + 3] == part[4 * i + 3]);
            } else {
                assert(all.subrange(4 * i, 4 * i + 4) =~= u32_bytes(positions[i]));
                lemma_u32_bytes(positions[i], all, 4 * i);
            }
        }
    }
}

/// The extra parents of an entry lie in the overflow table, one after the
/// other, from where the table ended before the entry.
pub proof fn lemma_overflow_table(g: Seq<Entry>, i: int)
    requires
        0 <= i < g.len(),
    ensures
        overflow_table(g.take(i)).len() + extra_parents(g[i]).len() <= overflow_table(g).len(),
        forall|k: int|
            0 <= k < extra_parents(g[i]).len() ==> #[trigger] extra_parents(g[i])[k]
                == overflow_table(g)[overflow_table(g.take(i)).len() + k],
    decreases g.len(),
{
    let rest = g.drop_last();
    if i < rest.len() {
        lemma_overflow_table(rest, i);
        assert(rest.take(i) =~= g.take(i));
        assert(rest[i] == g[i]);
    } else {
        assert(g.take(i) =~= rest);
    }
}

/// What the bytes of the tables hold is what they were written from.
pub proof fn lemma_decode_graph(g: Seq<Entry>, commit_id_length: int, change_id_length: int)
    requires
        ids_sized(g, commit_id_length, change_id_length),
        commit_id_length >= 0,
        change_id_length >= 0,
        forall|i: int| 0 <= i < g.len() ==> (#[trigger] g[i]).parents.len() <= u32::MAX,
        overflow_table(g).len() <= u32::MAX,
    ensures
        decode_graph(
            graph_bytes(g),
            positions_bytes(overflow_table(g)),
            g.len(),
            commit_id_length,
            change_id_length,
        ) == g,
{
    let size = graph_entry_size(commit_id_length, change_id_length);
    let table = overflow_table(g);
    let overflow = positions_bytes(table);
    let decoded = decode_graph(
        graph_bytes(g),
        overflow,
        g.len(),
        commit_id_length,
        change_id_length,
    );
    lemma_graph_bytes(g, commit_id_length, change_id_length);
    lemma_positions_bytes(table);
    assert forall|i: int| 0 <= i < g.len() implies decoded[i] == g[i] by {
        let e = g[i];
        let from = overflow_table(g.take(i)).len();
        lemma_overflow_table(g, i);
        let data = chunk(graph_bytes(g), size, i);
        assert(data == graph_entry_bytes(e, from as u32));
        lemma_decode_entry(e, from as u32, commit_id_length, change_id_length);
        assert forall|k: int| 0 <= k < e.parents.len() implies decoded[i].parents[k]
            == e.parents[k] by {
            if k > 0 {
                assert(extra_parents(e)[k - 1] == e.parents[k]);
                assert(table[from + k - 1] == e.parents[k]);
            }
        }
        assert(decoded[i].parents =~= e.parents);
    }
    assert(decoded =~= g);
}

/// The fields of a graph table entry are found where they were written.
pub proof fn lemma_decode_entry(
    e: Entry,
    overflow_pos: u32,
    commit_id_length: int,
    change_id_length: int,
)
    requires
        e.commit_id.len() == commit_id_length,
        e.change_id.len() == change_id_length,
        e.parents.len() <= u32::MAX,
    ensures
        ({
            let data = graph_entry_bytes(e, overflow_pos);
            &&& u32_at(data, 4) == e.generation
            &&& u32_at(data, 8) == e.parents.len()
            &&& u32_at(data, 12) == first_parent(e)
            &&& u32_at(data, 16) == overflow_pos
            &&& data.subrange(20, 20 + change_id_length) == e.change_id
            &&& data.subrange(
                20 + change_id_length,
                20 + change_id_length + commit_id_length,
            ) == e.commit_id
        }),
{
    let data = graph_entry_bytes(e, overflow_pos);
    assert(data.subrange(4, 8) =~= u32_bytes(e.generation));
    lemma_u32_bytes(e.generation, data, 4);
    assert(data.subrange(8, 12) =~= u32_bytes(e.parents.len() as u32));
    lemma_u32_bytes(e.parents.len() as u32, data, 8);
    assert(data.subrange(12, 16) =~= u32_bytes(first_parent(e)));
    lemma_u32_bytes(first_parent(e), data, 12);
    assert(data.subrange(16, 20) =~= u32_bytes(overflow_pos));
    lemma_u32_bytes(overflow_pos, data, 16);
    assert(data.subrange(20, 20 + change_id_length) =~= e.change_id);
    assert(data.subrange(20 + change_id_length, 20 + change_id_length + commit_id_length)
        =~= e.commit_id);
}

/// What the bytes of a lookup table hold is what they were written from.
pub proof fn lemma_decode_table(table: Seq<(Seq<u8>, u32)>, commit_id_length: int)
    requires
        forall|l: int| 0 <= l < table.len() ==> (#[trigger] table[l]).0.len() == commit_id_length,
        commit_id_length >= 0,
    ensures
        decode_table(lookup_bytes(table), table.len(), commit_id_length) == table,
{
    let size = lookup_entry_size(commit_id_length);
    let decoded = decode_table(lookup_bytes(table), table.len(), commit_id_length);
    lemma_lookup_bytes(table, commit_id_length);
    assert forall|l: int| 0 <= l < table.len() implies decoded[l] == table[l] by {
        let data = chunk(lookup_bytes(table), size, l);
        let (id, pos) = table[l];
        assert(data == id + u32_bytes(pos));
        assert(id.len() == commit_id_length);
        assert(data.take(commit_id_length) =~= id);
        assert(data.subrange(commit_id_length, commit_id_length + 4) =~= u32_bytes(pos));
        lemma_u32_bytes(pos, data, commit_id_length);
    }
    assert(decoded =~= table);
}

/// The header of an index file and its numbers of entries are found where they
/// were written.
proof fn lemma_file_parts(name: Seq<u8>, count: u32, overflow: u32, rest: Seq<u8>)
    requires
        name.len() <= u32::MAX,
    ensures
        ({
            let file = u32_bytes(name.len() as u32) + name + (u32_bytes(count) + u32_bytes(overflow)
                + rest);
            &&& has_counts(file)
            &&& name_length(file) == name.len()
            &&& parent_name_bytes(file) == name
            &&& entry_count(file) == count
            &&& overflow_count(file) == overflow
            &&& tables(file) == rest
        }),
{
    let file = u32_bytes(name.len() as u32) + name + (u32_bytes(count) + u32_bytes(overflow)
        + rest);
    let n = name.len() as int;
    assert(file.subrange(0, 4) =~= u32_bytes(n as u32));
    lemma_u32_bytes(n as u32, file, 0);
    assert(parent_name_bytes(file) =~= name);
    assert(file.subrange(4 + n, 8 + n) =~= u32_bytes(count));
    lemma_u32_bytes(count, file, 4 + n);
    assert(file.subrange(8 + n, 12 + n) =~= u32_bytes(overflow));
    lemma_u32_bytes(overflow, file, 8 + n);
    assert(tables(file) =~= rest);
}

/// The tables of an index file are found where they were written.
proof fn lemma_file_tables(
    file: Seq<u8>,
    graph: Seq<u8>,
    lookup: Seq<u8>,
    overflow: Seq<u8>,
    commit_id_length: int,
    change_id_length: int,
)
    requires
        tables(file) == graph + lookup + overflow,
        graph.len() == graph_size(file, commit_id_length, change_id_length),
        lookup.len() == lookup_size(file, commit_id_length),
        overflow.len() == 4 * overflow_count(file),
    ensures
        tables_sized(file, commit_id_length, change_id_length),
        file_graph(file, commit_id_length, change_id_length) == graph,
        file_lookup(file, commit_id_length, change_id_length) == lookup,
        file_overflow(file, commit_id_length, change_id_length) == overflow,
{
    assert(file_graph(file, commit_id_length, change_id_length) =~= graph);
    assert(file_lookup(file, commit_id_length, change_id_length) =~= lookup);
    assert(file_overflow(file, commit_id_length, change_id_length) =~= overflow);
}

/// The header, the numbers of entries and the tables of an index file are found where
/// they were written.
proof fn lemma_index_parts(
    parent_name: Option<Seq<u8>>,
    g: Seq<Entry>,
    table: Seq<(Seq<u8>, u32)>,
    commit_id_length: int,
    change_id_length: int,
)
    requires
        parent_name matches Some(name) ==> 0 < name.len() <= u32::MAX,
        g.len() <= u32::MAX,
        ids_sized(g, commit_id_length, change_id_length),
        commit_id_length >= 0,
        change_id_length >= 0,
        overflow_table(g).len() <= u32::MAX,
        table.len() == g.len(),
        forall|l: int| 0 <= l < table.len() ==> (#[trigger] table[l]).0.len() == commit_id_length,
    ensures
        ({
            let file = index_file(parent_name, g, table);
            let (c, h) = (commit_id_length, change_id_length);
            &&& has_counts(file)
            &&& match parent_name {
                Some(name) => name_length(file) > 0 && parent_name_bytes(file) == name,
                None => name_length(file) == 0,
            }
            &&& entry_count(file) == g.len()
            &&& overflow_count(file) == overflow_table(g).len()
            &&& tables_sized(file, c, h)
            &&& file_graph(file, c, h) == graph_bytes(g)
            &&& file_lookup(file, c, h) == lookup_bytes(table)
            &&& file_overflow(file, c, h) == positions_bytes(overflow_table(g))
            &&& file_overflow(file, c, h).len() == 4 * overflow_table(g).len()
        }),
{
    let file = index_file(parent_name, g, table);
    let name: Seq<u8> = match parent_name {
        Some(name) => name,
        None => Seq::empty(),
    };
    let overflow = overflow_table(g);
    let rest = graph_bytes(g) + lookup_bytes(table) + positions_bytes(overflow);
    assert(header_bytes(parent_name) =~= u32_bytes(name.len() as u32) + name);
    assert(body_bytes(g, table) =~= u32_bytes(g.len() as u32) + u32_bytes(overflow.len() as u32)
        + rest);
    lemma_file_parts(name, g.len() as u32, overflow.len() as u32, rest);
    assert(graph_bytes(g).len() == graph_size(file, commit_id_length, change_id_length)) by {
        lemma_graph_bytes(g, commit_id_length, change_id_length);
    }
    assert(lookup_bytes(table).len() == lookup_size(file, commit_id_length)) by {
        lemma_lookup_bytes(table, commit_id_length);
    }
    assert(positions_bytes(overflow).len() == 4 * overflow.len()) by {
        lemma_positions_bytes(overflow);
    }
    lemma_file_tables(
        file,
        graph_bytes(g),
        lookup_bytes(table),
        positions_bytes(overflow),
        commit_id_length,
        change_id_length,
    );
}

/// The parents of an entry that was written lie inside the overflow table.
proof fn lemma_parents_written(
    g: Seq<Entry>,
    i: int,
    commit_id_length: int,
    change_id_length: int,
)
    requires
        ids_sized(g, commit_id_length, change_id_length),
        commit_id_length >= 0,
        change_id_length >= 0,
        overflow_table(g).len() <= u32::MAX,
        0 <= i < g.len(),
        g[i].parents.len() <= u32::MAX,
    ensures
        overflow_inside(
            chunk(graph_bytes(g), graph_entry_size(commit_id_length, change_id_length), i),
            4 * overflow_table(g).len() as int,
        ),
{
    let from = overflow_table(g.take(i)).len();
    lemma_overflow_table(g, i);
    lemma_decode_entry(g[i], from as u32, commit_id_length, change_id_length);
    let size = graph_entry_size(commit_id_length, change_id_length);
    assert(chunk(graph_bytes(g), size, i) == graph_entry_bytes(g[i], from as u32)) by {
        lemma_graph_bytes(g, commit_id_length, change_id_length);
    }
}

/// Reading an index file gives back what it was written from.
pub proof fn law_index_file(
    parent_name: Option<Seq<u8>>,
    g: Seq<Entry>,
    table: Seq<(Seq<u8>, u32)>,
    base: int,
    commit_id_length: int,
    change_id_length: int,
)
    requires
        parent_name matches Some(name) ==> 0 < name.len() <= u32::MAX,
        g.len() <= u32::MAX,
        ids_sized(g, commit_id_length, change_id_length),
        commit_id_length >= 0,
        change_id_length >= 0,
        forall|i: int| 0 <= i < g.len() ==> (#[trigger] g[i]).parents.len() <= u32::MAX,
        overflow_table(g).len() <= u32::MAX,
        is_lookup_table(table, g, base),
    ensures
        ({
            let file = index_file(parent_name, g, table);
            &&& has_counts(file)
            &&& match parent_name {
                Some(name) => name_length(file) > 0 && parent_name_bytes(file) == name,
                None => name_length(file) == 0,
            }
            &&& tables_sized(file, commit_id_length, change_id_length)
            &&& entry_count(file) == g.len()
            &&& overflow_count(file) == overflow_table(g).len()
            &&& file_graph(file, commit_id_length, change_id_length) == graph_bytes(g)
            &&& file_entries(file, commit_id_length, change_id_length) == g
            &&& file_table(file, commit_id_length, change_id_length) == table
            &&& forall|i: int|
                0 <= i < g.len() ==> #[trigger] file_parents_inside(
                    file,
                    commit_id_length,
                    change_id_length,
                    i,
                )
        }),
{
    let file = index_file(parent_name, g, table);
    assert forall|l: int| 0 <= l < table.len() implies (#[trigger] table[l]).0.len()
        == commit_id_length by {
        assert(g[table[l].1 - base].commit_id.len() == commit_id_length);
    }
    lemma_index_parts(parent_name, g, table, commit_id_length, change_id_length);
    lemma_decode_graph(g, commit_id_length, change_id_length);
    lemma_decode_table(table, commit_id_length);
    assert forall|i: int| 0 <= i < g.len() implies #[trigger] file_parents_inside(
        file,
        commit_id_length,
        change_id_length,
        i,
    ) by {
        lemma_parents_written(g, i, commit_id_length, change_id_length);
    }
}

/// An entry of the graph table, as bytes.
pub struct CommitGraphEntry<'a> {
    pub data: &'a [u8],
    pub commit_id_length: usize,
    pub change_id_length: usize,
}

impl CommitGraphEntry<'_> {
    /// The data has the size of an entry.
    pub open spec fn wf(&self) -> bool {
        self.data@.len() == graph_entry_size(
            self.commit_id_length as int,
            self.change_id_length as int,
        )
    }

    /// The size of an entry.
    pub fn size(commit_id_length: usize, change_id_length: usize) -> (size: usize)
        requires
            20 + commit_id_length + change_id_length <= usize::MAX,
        ensures
            size == graph_entry_size(commit_id_length as int, change_id_length as int),
    {
        20 + commit_id_length + change_id_length
    }

    pub fn generation_number(&self) -> (generation: u32)
        requires
            self.wf(),
        ensures
            generation == u32_at(self.data@, 4),
    {
        read_u32_at(self.data, 4)
    }

    pub fn num_parents(&self) -> (number: u32)
        requires
            self.wf(),
        ensures
            number == u32_at(self.data@, 8),
    {
        read_u32_at(self.data, 8)
    }

    pub fn parent1_pos(&self) -> (pos: u32)
        requires
            self.wf(),
        ensures
            pos == u32_at(self.data@, 12),
    {
        read_u32_at(self.data, 12)
    }

    pub fn parent2_overflow_pos(&self) -> (pos: u32)
        requires
            self.wf(),
        ensures
            pos == u32_at(self.data@, 16),
    {
        read_u32_at(self.data, 16)
    }

    pub fn change_id(&self) -> (id: ChangeId)
        requires
            self.wf(),
        ensures
            id@ == self.data@.subrange(20, 20 + self.change_id_length),
    {
        assert(self.data@.len() == self.data.len());
        ChangeId::from_bytes(slice_subrange(self.data, 20, 20 + self.change_id_length))
    }

    pub fn commit_id(&self) -> (id: CommitId)
        requires
            self.wf(),
        ensures
            id@ == self.data@.subrange(
                20 + self.change_id_length,
                20 + self.change_id_length + self.commit_id_length,
            ),
    {
        assert(self.data@.len() == self.data.len());
        let start: usize = 20 + self.change_id_length;
        CommitId::from_bytes(slice_subrange(self.data, start, start + self.commit_id_length))
    }
}

/// An entry of the lookup table, as bytes.
pub struct CommitLookupEntry<'a> {
    pub data: &'a [u8],
    pub commit_id_length: usize,
}

impl<'a> CommitLookupEntry<'a> {
    /// The data has the size of an entry.
    pub open spec fn wf(&self) -> bool {
        self.data@.len() == lookup_entry_size(self.commit_id_length as int)
    }

    /// The size of an entry.
    pub fn size(commit_id_length: usize) -> (size: usize)
        requires
            commit_id_length + 4 <= usize::MAX,
        ensures
            size == lookup_entry_size(commit_id_length as int),
    {
        commit_id_length + 4
    }

    pub fn commit_id(&self) -> (id: CommitId)
        requires
            self.wf(),
        ensures
            id@ == decode_item(self.data@, self.commit_id_length as int).0,
    {
        CommitId::from_bytes(self.commit_id_bytes())
    }

    pub fn commit_id_bytes(&self) -> (bytes: &'a [u8])
        requires
            self.wf(),
        ensures
            bytes@ == decode_item(self.data@, self.commit_id_length as int).0,
    {
        slice_subrange(self.data, 0, self.commit_id_length)
    }

    pub fn pos(&self) -> (pos: u32)
        requires
            self.wf(),
        ensures
            pos == decode_item(self.data@, self.commit_id_length as int).1,
    {
        read_u32_at(self.data, self.commit_id_length)
    }
}

} // verus!
