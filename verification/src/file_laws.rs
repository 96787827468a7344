//! What index files hold, byte by byte, which files are squashed, and which indexes can
//! be saved and loaded.

use crate::byte_order::lex_lt;
use crate::format::{
    chunk, decode_entry, decode_item, extra_parents, file_entries, file_graph, file_lookup,
    file_overflow, file_parents_inside, file_table, graph_bytes, graph_entry_bytes,
    graph_entry_size, graph_size, has_counts, has_header, ids_sized, index_file, is_lookup_table,
    law_index_file, lemma_chunk_inside, lemma_decode_entry, lemma_graph_bytes, lemma_overflow_table,
    lemma_u32_bytes, lookup_entry_size, lookup_size, overflow_table, parent_name_bytes, table_has,
    tables, tables_sized, u32_at, u32_bytes,
};
use crate::loading::{
    is_bottom, is_chain, is_countable, is_result_above, is_stack_result, names_parent, num_loaded,
};
use crate::merging::{in_stack, names_agree, shared_base};
use crate::model::{valid_graph, Entry};
use crate::mutable::MutableIndexSegment;
use crate::readonly::{
    commits_of, has_file, is_halving, is_load_result, lemma_has_file, levels_of, squash_base,
    IndexLoadError, ReadonlyIndexSegment,
};
use crate::save::name_bytes;
use crate::segment::IndexSegment;
use std::sync::Arc;
use vstd::prelude::*;
use vstd::utf8::encode_utf8;

verus! {

/// The number that four bytes spell, the least significant first.
pub open spec fn little_endian(bytes: Seq<u8>, at: int) -> int {
    bytes[at] + 0x100 * bytes[at + 1] + 0x1_0000 * bytes[at + 2] + 0x100_0000 * bytes[at + 3]
}

/// Integers are read from four bytes, the least significant first, and written so.
pub proof fn law_integer(bytes: Seq<u8>, at: int, v: u32)
    ensures
        u32_at(bytes, at) == little_endian(bytes, at),
        u32_bytes(v).len() == 4,
        little_endian(u32_bytes(v), 0) == v,
{
    let b = u32_bytes(v);
    assert(b.subrange(0, 4) =~= b);
    lemma_u32_bytes(v, b, 0);
}

/// Where the entry at place `i` of the graph table starts in an index file.
pub open spec fn entry_start(file: Seq<u8>, c: int, h: int, i: int) -> int {
    12 + little_endian(file, 0) + i * (20 + c + h)
}

/// Where the item at place `l` of the lookup table starts in an index file.
pub open spec fn item_start(file: Seq<u8>, c: int, h: int, l: int) -> int {
    12 + little_endian(file, 0) + little_endian(file, 4 + little_endian(file, 0)) * (20 + c + h)
        + l * (c + 4)
}

/// Where the overflow table starts in an index file.
pub open spec fn overflow_start(file: Seq<u8>, c: int, h: int) -> int {
    item_start(file, c, h, little_endian(file, 4 + little_endian(file, 0)))
}

/// Whether an index file has room for its header and two numbers, and is as long as
/// these call for.
pub open spec fn is_sized(file: Seq<u8>, c: int, h: int) -> bool {
    let n = little_endian(file, 0);
    &&& file.len() >= 12
    &&& file.len() >= 12 + n
    &&& file.len() == 12 + n + little_endian(file, 4 + n) * (20 + c + h) + little_endian(
        file,
        4 + n,
    ) * (c + 4) + little_endian(file, 8 + n) * 4
}

/// An index file has the right size if it has its header, two numbers, and as many
/// bytes for each entry and overflow entry as these take. The parent file's name stands
/// behind its length.
pub proof fn law_file_size(file: Seq<u8>, c: int, h: int)
    ensures
        has_header(file) <==> file.len() >= 4 && file.len() >= 4 + little_endian(file, 0),
        has_counts(file) <==> file.len() >= 12 && file.len() >= 12 + little_endian(file, 0),
        has_counts(file) && tables_sized(file, c, h) <==> is_sized(file, c, h),
        parent_name_bytes(file) == file.subrange(4, 4 + little_endian(file, 0)),
{
    let n = little_endian(file, 0);
    law_integer(file, 0, 0);
    law_integer(file, 4 + n, 0);
    law_integer(file, 8 + n, 0);
    assert(n >= 0);
    if has_counts(file) {
        assert(tables(file).len() == file.len() - 12 - n);
    }
}

/// A byte of an entry of the graph table is one of the file.
proof fn lemma_entry_bytes(file: Seq<u8>, c: int, h: int, i: int)
    requires
        0 <= c,
        0 <= h,
        is_sized(file, c, h),
        0 <= i < little_endian(file, 4 + little_endian(file, 0)),
    ensures
        ({
            let data = chunk(file_graph(file, c, h), graph_entry_size(c, h), i);
            let start = entry_start(file, c, h, i);
            &&& data.len() == 20 + c + h
            &&& start + 20 + c + h <= file.len()
            &&& start >= 12
            &&& forall|x: int| 0 <= x < 20 + c + h ==> #[trigger] data[x] == file[start + x]
        }),
{
    let n = little_endian(file, 0);
    let count = little_endian(file, 4 + n);
    law_file_size(file, c, h);
    law_integer(file, 0, 0);
    law_integer(file, 4 + n, 0);
    law_integer(file, 8 + n, 0);
    lemma_chunk_inside(count, 20 + c + h, i);
    assert(count * (c + 4) >= 0) by (nonlinear_arith)
        requires
            count >= 0,
            c >= 0,
    ;
}

/// What is read of an entry of an index file: its fields one after the other, the
/// first parent in the entry, and the others in the overflow table from the place that
/// the entry gives.
pub proof fn law_entry_read(file: Seq<u8>, c: int, h: int, i: int)
    requires
        0 <= c,
        0 <= h,
        is_sized(file, c, h),
        0 <= i < little_endian(file, 4 + little_endian(file, 0)),
    ensures
        ({
            let n = little_endian(file, 0);
            let e = file_entries(file, c, h)[i];
            let start = entry_start(file, c, h, i);
            let second = little_endian(file, start + 16);
            &&& file_entries(file, c, h).len() == little_endian(file, 4 + n)
            &&& e.generation == little_endian(file, start + 4)
            &&& e.parents.len() == little_endian(file, start + 8)
            &&& e.parents.len() > 0 ==> e.parents[0] == little_endian(file, start + 12)
            &&& forall|k: int|
                1 <= k < e.parents.len() && second + k <= little_endian(file, 8 + n) ==> (
                #[trigger] e.parents[k]) == little_endian(
                    file,
                    overflow_start(file, c, h) + 4 * (second + k - 1),
                )
            &&& e.change_id == file.subrange(start + 20, start + 20 + h)
            &&& e.commit_id == file.subrange(start + 20 + h, start + 20 + h + c)
        }),
{
    let n = little_endian(file, 0);
    let count = little_endian(file, 4 + n);
    let data = chunk(file_graph(file, c, h), graph_entry_size(c, h), i);
    let overflow = file_overflow(file, c, h);
    let e = file_entries(file, c, h)[i];
    let start = entry_start(file, c, h, i);
    law_file_size(file, c, h);
    law_integer(file, 0, 0);
    law_integer(file, 4 + n, 0);
    law_integer(file, 8 + n, 0);
    lemma_entry_bytes(file, c, h, i);
    assert(e == decode_entry(data, overflow, c, h));
    law_integer(data, 4, 0);
    law_integer(data, 8, 0);
    law_integer(data, 12, 0);
    law_integer(data, 16, 0);
    assert(data.subrange(20, 20 + h) =~= file.subrange(start + 20, start + 20 + h));
    assert(data.subrange(20 + h, 20 + h + c) =~= file.subrange(
        start + 20 + h,
        start + 20 + h + c,
    ));
    let second = little_endian(file, start + 16);
    let from = overflow_start(file, c, h);
    assert(from == 12 + n + graph_size(file, c, h) + lookup_size(file, c));
    assert(count * (20 + c + h) >= 0 && count * (c + 4) >= 0) by (nonlinear_arith)
        requires
            count >= 0,
            c >= 0,
            h >= 0,
    ;
    assert(overflow =~= file.skip(from));
    assert forall|k: int|
        1 <= k < e.parents.len() && second + k <= little_endian(file, 8 + n) implies (
    #[trigger] e.parents[k]) == little_endian(file, from + 4 * (second + k - 1)) by {
        law_integer(overflow, 4 * (second + k - 1), 0);
    }
}

/// What is read of an item of the lookup table of an index file: an id, and then a
/// position.
pub proof fn law_item_read(file: Seq<u8>, c: int, h: int, l: int)
    requires
        0 <= c,
        0 <= h,
        is_sized(file, c, h),
        0 <= l < little_endian(file, 4 + little_endian(file, 0)),
    ensures
        ({
            let start = item_start(file, c, h, l);
            let item = file_table(file, c, h)[l];
            &&& file_table(file, c, h).len() == little_endian(file, 4 + little_endian(file, 0))
            &&& item.0 == file.subrange(start, start + c)
            &&& item.1 == little_endian(file, start + c)
        }),
{
    let n = little_endian(file, 0);
    let count = little_endian(file, 4 + n);
    let start = item_start(file, c, h, l);
    law_file_size(file, c, h);
    law_integer(file, 0, 0);
    law_integer(file, 4 + n, 0);
    law_integer(file, 8 + n, 0);
    lemma_chunk_inside(count, c + 4, l);
    assert(count * (20 + c + h) >= 0) by (nonlinear_arith)
        requires
            count >= 0,
            c >= 0,
            h >= 0,
    ;
    let data = chunk(file_lookup(file, c, h), lookup_entry_size(c), l);
    assert forall|x: int| 0 <= x < c + 4 implies #[trigger] data[x] == file[start + x] by {}
    assert(file_table(file, c, h)[l] == decode_item(data, c));
    assert(data.take(c) =~= file.subrange(start, start + c));
    law_integer(data, c, 0);
}

/// The overflow table of no entries is empty, and with one more entry it has the
/// entry's parents but for the first one at its end.
pub proof fn law_overflow(g: Seq<Entry>, e: Entry)
    ensures
        overflow_table(Seq::<Entry>::empty()).len() == 0,
        ({
            let before = overflow_table(g);
            let after = overflow_table(g.push(e));
            &&& after.len() == before.len() + (if e.parents.len() > 1 {
                e.parents.len() - 1
            } else {
                0
            })
            &&& forall|j: int| 0 <= j < before.len() ==> after[j] == #[trigger] before[j]
            &&& forall|k: int|
                1 <= k < e.parents.len() ==> after[before.len() + k - 1]
                    == #[trigger] e.parents[k]
        }),
{
    assert(g.push(e).drop_last() =~= g);
    assert(g.push(e).last() == e);
    assert forall|k: int| 1 <= k < e.parents.len() implies overflow_table(
        g.push(e),
    )[overflow_table(g).len() + k - 1] == #[trigger] e.parents[k] by {
        assert(extra_parents(e)[k - 1] == e.parents[k]);
    }
}

/// The fields of an entry that reading it may pass over.
proof fn lemma_entry_fields(e: Entry, overflow_pos: u32, c: int, h: int)
    requires
        e.commit_id.len() == c,
        e.change_id.len() == h,
        e.parents.len() <= u32::MAX,
    ensures
        ({
            let data = graph_entry_bytes(e, overflow_pos);
            &&& little_endian(data, 0) == 0
            &&& e.parents.len() == 0 ==> little_endian(data, 12) == 0
            &&& little_endian(data, 16) == overflow_pos
        }),
{
    let data = graph_entry_bytes(e, overflow_pos);
    lemma_decode_entry(e, overflow_pos, c, h);
    assert(data.subrange(0, 4) =~= u32_bytes(0));
    lemma_u32_bytes(0, data, 0);
    law_integer(data, 0, 0);
    law_integer(data, 12, 0);
    law_integer(data, 16, 0);
}

/// An index file that is written has the right size and gives the number of overflow
/// entries. An entry starts with a zero, has a zero in place of a missing first parent,
/// and gives the place in the overflow table at which the parents of the entries before
/// it end.
pub proof fn law_entry_written(
    parent_name: Option<Seq<u8>>,
    g: Seq<Entry>,
    table: Seq<(Seq<u8>, u32)>,
    base: int,
    c: int,
    h: int,
    i: int,
)
    requires
        parent_name matches Some(name) ==> 0 < name.len() <= u32::MAX,
        g.len() <= u32::MAX,
        ids_sized(g, c, h),
        c >= 0,
        h >= 0,
        forall|j: int| 0 <= j < g.len() ==> (#[trigger] g[j]).parents.len() <= u32::MAX,
        overflow_table(g).len() <= u32::MAX,
        is_lookup_table(table, g, base),
        0 <= i < g.len(),
    ensures
        ({
            let file = index_file(parent_name, g, table);
            let start = entry_start(file, c, h, i);
            &&& is_sized(file, c, h)
            &&& little_endian(file, 8 + little_endian(file, 0)) == overflow_table(g).len()
            &&& little_endian(file, start) == 0
            &&& g[i].parents.len() == 0 ==> little_endian(file, start + 12) == 0
            &&& little_endian(file, start + 16) == overflow_table(g.take(i)).len()
        }),
{
    lemma_written(parent_name, g, table, base, c, h);
    lemma_entry_found(index_file(parent_name, g, table), g, c, h, i);
}

/// The fields of an entry are those of the entry that a graph table was made of.
proof fn lemma_entry_found(file: Seq<u8>, g: Seq<Entry>, c: int, h: int, i: int)
    requires
        c >= 0,
        h >= 0,
        is_sized(file, c, h),
        little_endian(file, 4 + little_endian(file, 0)) == g.len(),
        file_graph(file, c, h) == graph_bytes(g),
        ids_sized(g, c, h),
        overflow_table(g).len() <= u32::MAX,
        0 <= i < g.len(),
        g[i].parents.len() <= u32::MAX,
    ensures
        ({
            let start = entry_start(file, c, h, i);
            &&& little_endian(file, start) == 0
            &&& g[i].parents.len() == 0 ==> little_endian(file, start + 12) == 0
            &&& little_endian(file, start + 16) == overflow_table(g.take(i)).len()
        }),
{
    let start = entry_start(file, c, h, i);
    let from = overflow_table(g.take(i)).len();
    let data = chunk(file_graph(file, c, h), graph_entry_size(c, h), i);
    lemma_entry_bytes(file, c, h, i);
    lemma_field_bytes(data, file, start, 0);
    lemma_field_bytes(data, file, start, 12);
    lemma_field_bytes(data, file, start, 16);
    assert(data == graph_entry_bytes(g[i], from as u32)) by {
        lemma_graph_bytes(g, c, h);
    }
    assert(from <= u32::MAX) by {
        lemma_overflow_table(g, i);
    }
    lemma_entry_fields(g[i], from as u32, c, h);
}

/// The sizes and the graph table of a file that is written.
proof fn lemma_written(
    parent_name: Option<Seq<u8>>,
    g: Seq<Entry>,
    table: Seq<(Seq<u8>, u32)>,
    base: int,
    c: int,
    h: int,
)
    requires
        parent_name matches Some(name) ==> 0 < name.len() <= u32::MAX,
        g.len() <= u32::MAX,
        ids_sized(g, c, h),
        c >= 0,
        h >= 0,
        forall|j: int| 0 <= j < g.len() ==> (#[trigger] g[j]).parents.len() <= u32::MAX,
        overflow_table(g).len() <= u32::MAX,
        is_lookup_table(table, g, base),
    ensures
        ({
            let file = index_file(parent_name, g, table);
            let n = little_endian(file, 0);
            &&& is_sized(file, c, h)
            &&& little_endian(file, 4 + n) == g.len()
            &&& little_endian(file, 8 + n) == overflow_table(g).len()
            &&& file_graph(file, c, h) == graph_bytes(g)
        }),
{
    let file = index_file(parent_name, g, table);
    let n = little_endian(file, 0);
    law_index_file(parent_name, g, table, base, c, h);
    law_file_size(file, c, h);
    law_integer(file, 0, 0);
    law_integer(file, 4 + n, 0);
    law_integer(file, 8 + n, 0);
}

/// The bytes of a field spell the same number inside a file.
proof fn lemma_field_bytes(data: Seq<u8>, file: Seq<u8>, start: int, at: int)
    requires
        0 <= at,
        at + 4 <= data.len(),
        forall|x: int| 0 <= x < data.len() ==> #[trigger] data[x] == file[start + x],
    ensures
        little_endian(data, at) == little_endian(file, start + at),
{
    assert(data[at] == file[start + at]);
    assert(data[at + 1] == file[start + (at + 1)]);
    assert(data[at + 2] == file[start + (at + 2)]);
    assert(data[at + 3] == file[start + (at + 3)]);
}

/// Whether one of the items of a table is an id with a position.
pub open spec fn has_item(table: Seq<(Seq<u8>, u32)>, id: Seq<u8>, pos: int) -> bool {
    exists|l: int|
        0 <= l < table.len() && (#[trigger] table[l]).0 == id && table[l].1 == pos
}

/// A table is the lookup table of entries if, and only if, it is sorted by id, has one
/// item for each entry, and each item is the id and position of an entry.
pub proof fn law_lookup_table(table: Seq<(Seq<u8>, u32)>, g: Seq<Entry>, base: int)
    ensures
        is_lookup_table(table, g, base) <==> {
            &&& table.len() == g.len()
            &&& forall|i: int, j: int|
                #![trigger table[i], table[j]]
                0 <= i < j < table.len() ==> lex_lt(table[i].0, table[j].0)
            &&& forall|l: int|
                0 <= l < table.len() ==> base <= (#[trigger] table[l]).1 < base + g.len()
                    && g[table[l].1 - base].commit_id == table[l].0
            &&& forall|i: int|
                0 <= i < g.len() ==> has_item(table, (#[trigger] g[i]).commit_id, base + i)
        },
{
    assert forall|i: int| 0 <= i < g.len() implies has_item(
        table,
        (#[trigger] g[i]).commit_id,
        base + i,
    ) == table_has(table, g[i].commit_id, base + i) by {}
}

/// A file is valid if, and only if, its tables can be read, the parents of each of its
/// commits can, its commits with those of its ancestors are a valid graph, its lookup
/// table is that of its commits, and its parent file is valid.
pub proof fn law_valid_file(file: Arc<ReadonlyIndexSegment>)
    ensures
        file.valid() <==> {
            &&& file.readable()
            &&& forall|i: int| 0 <= i < file.local().len() ==> #[trigger] file.parents_readable(i)
            &&& valid_graph(file.entries())
            &&& is_lookup_table(file.table(), file.local(), commits_of(file.parent()).len() as int)
            &&& file.parent() matches Some(parent) ==> parent.valid()
        },
{
    if file.readable() {
        file.lemma_readable();
    }
    if file.valid() {
        file.lemma_valid();
    } else if file.readable() && valid_graph(file.entries()) && is_lookup_table(
        file.table(),
        file.local(),
        file.base(),
    ) && (forall|i: int| 0 <= i < file.local().len() ==> #[trigger] file.parents_readable(i)) && (
    file.parent() matches Some(parent) ==> parent.valid()) {
        file.lemma_is_valid();
    }
}

/// The parents of a commit of an index file can be read if, and only if, there are less
/// than two or those after the first one stand inside the overflow table.
pub proof fn law_parents_inside(file: Seq<u8>, c: int, h: int, i: int)
    requires
        0 <= c,
        0 <= h,
        is_sized(file, c, h),
        0 <= i < little_endian(file, 4 + little_endian(file, 0)),
    ensures
        file_parents_inside(file, c, h, i) <==> ({
            let start = entry_start(file, c, h, i);
            let parents = little_endian(file, start + 8);
            parents < 2 || little_endian(file, start + 16) + parents - 1 <= little_endian(
                file,
                8 + little_endian(file, 0),
            )
        }),
{
    let n = little_endian(file, 0);
    let count = little_endian(file, 4 + n);
    let start = entry_start(file, c, h, i);
    let data = chunk(file_graph(file, c, h), graph_entry_size(c, h), i);
    law_file_size(file, c, h);
    law_integer(file, 0, 0);
    law_integer(file, 4 + n, 0);
    law_integer(file, 8 + n, 0);
    lemma_entry_bytes(file, c, h, i);
    law_integer(data, 8, 0);
    law_integer(data, 16, 0);
    assert(little_endian(data, 8) == little_endian(file, start + 8));
    assert(little_endian(data, 16) == little_endian(file, start + 16));
    assert(count * (20 + c + h) >= 0 && count * (c + 4) >= 0) by (nonlinear_arith)
        requires
            count >= 0,
            c >= 0,
            h >= 0,
    ;
    assert(file_overflow(file, c, h).len() == 4 * little_endian(file, 8 + n));
}

/// An index file names its parent file by the bytes behind their number, and has no
/// parent file if that number is 0.
pub proof fn law_parent_named(file: Seq<u8>, name: Seq<char>)
    ensures
        names_parent(file, name) <==> {
            &&& file.len() >= 4
            &&& little_endian(file, 0) > 0
            &&& file.len() >= 4 + little_endian(file, 0)
            &&& file.subrange(4, 4 + little_endian(file, 0)) == encode_utf8(name)
        },
        is_bottom(file) <==> file.len() >= 4 && little_endian(file, 0) == 0,
{
    law_integer(file, 0, 0);
    law_file_size(file, 0, 0);
}

/// Files are a stack if, and only if, each one but the last names the next one as its
/// parent file.
pub proof fn law_chain(files: Seq<(Seq<char>, Seq<u8>)>)
    ensures
        is_chain(files) <==> forall|i: int, j: int|
            #![trigger files[i], files[j]]
            0 <= i && j == i + 1 && j < files.len() ==> names_parent(files[i].1, files[j].0),
{
    if forall|i: int, j: int|
        #![trigger files[i], files[j]]
        0 <= i && j == i + 1 && j < files.len() ==> names_parent(files[i].1, files[j].0) {
        assert forall|i: int| 0 <= i < files.len() - 1 implies names_parent(
            (#[trigger] files[i]).1,
            files[i + 1].0,
        ) by {
            let j = i + 1;
            assert(names_parent(files[i].1, files[j].0));
        }
    }
}

/// A file has to be written if, and only if, there are new commits or there is no file
/// yet. What it is put on top of is named by the name of that file.
pub proof fn law_new_file(segment: &MutableIndexSegment, base: Option<Arc<ReadonlyIndexSegment>>)
    ensures
        segment.needs_file() <==> segment.local().len() > 0 || segment.parent() is None,
        match base {
            Some(file) => name_bytes(base) == Some(encode_utf8(file.name_text())),
            None => name_bytes(base) is None,
        },
        match segment.parent() {
            Some(file) => segment.parent_name_bytes() == Some(encode_utf8(file.name_text())),
            None => segment.parent_name_bytes() is None,
        },
{
}

/// Whether an error is that of a file of the wrong size: the end of the file if it is
/// too short for its header and two numbers, and otherwise that the file of that name
/// is corrupt.
pub open spec fn is_error_of(file: Seq<u8>, name: Seq<char>, error: IndexLoadError) -> bool {
    match error {
        IndexLoadError::UnexpectedEof => file.len() < 12 || file.len() < 12 + little_endian(
            file,
            0,
        ),
        IndexLoadError::IndexCorrupt(corrupt) => {
            &&& file.len() >= 12
            &&& file.len() >= 12 + little_endian(file, 0)
            &&& corrupt@ == name
        },
        IndexLoadError::InvalidParentName => false,
    }
}

/// A file is loaded if, and only if, it is as long as it calls for.
pub proof fn law_load_owed(
    file: Seq<u8>,
    parent: Option<Arc<ReadonlyIndexSegment>>,
    name: Seq<char>,
    c: int,
    h: int,
    result: Result<Arc<ReadonlyIndexSegment>, IndexLoadError>,
)
    requires
        is_load_result(file, parent, name, c, h, result),
    ensures
        result is Ok <==> is_sized(file, c, h),
        result matches Ok(segment) ==> {
            &&& segment.parent() == parent
            &&& segment.name_text() == name
            &&& segment.commit_id_len() == c
            &&& segment.change_id_len() == h
            &&& segment.local() == file_entries(file, c, h)
            &&& segment.table() == file_table(file, c, h)
            &&& segment.entries() == commits_of(parent) + file_entries(file, c, h)
            &&& forall|i: int| #[trigger]
                segment.parents_readable(i) <==> file_parents_inside(file, c, h, i)
        },
        result matches Err(error) ==> is_error_of(file, name, error),
{
    law_file_size(file, c, h);
    law_integer(file, 0, 0);
    match result {
        Ok(segment) => {
            segment.lemma_entries();
            assert(segment.entries() =~= commits_of(parent) + file_entries(file, c, h));
        },
        Err(_) => {},
    }
}

/// Whether a file of a stack has the wrong size, and those below it the right ones.
pub open spec fn is_lowest_wrong(
    files: Seq<(Seq<char>, Seq<u8>)>,
    c: int,
    h: int,
    i: int,
) -> bool {
    &&& 0 <= i < files.len()
    &&& !is_sized(files[i].1, c, h)
    &&& forall|j: int| i < j < files.len() ==> is_sized((#[trigger] files[j]).1, c, h)
}

/// If a stack of files cannot be loaded, the error is that of the lowest file of the
/// wrong size.
pub proof fn law_stack_error(
    files: Seq<(Seq<char>, Seq<u8>)>,
    c: int,
    h: int,
    error: IndexLoadError,
)
    requires
        files.len() > 0,
        is_stack_result(files, c, h, Err(error)),
    ensures
        exists|i: int| #[trigger]
            is_lowest_wrong(files, c, h, i) && is_error_of(files[i].1, files[i].0, error),
    decreases files.len(),
{
    let result = Err::<Arc<ReadonlyIndexSegment>, IndexLoadError>(error);
    if files.len() == 1 {
        law_load_owed(files[0].1, None, files[0].0, c, h, result);
        assert(is_lowest_wrong(files, c, h, 0));
    } else {
        let rest = files.skip(1);
        let below = choose|below: Result<Arc<ReadonlyIndexSegment>, IndexLoadError>|
            is_stack_result(rest, c, h, below) && #[trigger] is_result_above(
                files[0],
                below,
                c,
                h,
                result,
            );
        match below {
            Ok(parent) => {
                law_stack_owed(rest, c, h, below);
                law_load_owed(files[0].1, Some(parent), files[0].0, c, h, result);
                assert forall|j: int| 0 < j < files.len() implies is_sized(
                    (#[trigger] files[j]).1,
                    c,
                    h,
                ) by {
                    assert(is_sized(rest[j - 1].1, c, h));
                }
                assert(is_lowest_wrong(files, c, h, 0));
            },
            Err(error) => {
                law_stack_error(rest, c, h, error);
                let i = choose|i: int| #[trigger]
                    is_lowest_wrong(rest, c, h, i) && is_error_of(rest[i].1, rest[i].0, error);
                assert forall|j: int| i + 1 < j < files.len() implies is_sized(
                    (#[trigger] files[j]).1,
                    c,
                    h,
                ) by {
                    assert(is_sized(rest[j - 1].1, c, h));
                }
                assert(files[i + 1] == rest[i]);
                assert(is_lowest_wrong(files, c, h, i + 1));
            },
        }
    }
}

/// Loading a stack of files gives its top file if, and only if, all files are as long
/// as they call for. The stack that is loaded has as many files, with the names and
/// contents that were given.
pub proof fn law_stack_owed(
    files: Seq<(Seq<char>, Seq<u8>)>,
    c: int,
    h: int,
    result: Result<Arc<ReadonlyIndexSegment>, IndexLoadError>,
)
    requires
        files.len() > 0,
        is_stack_result(files, c, h, result),
    ensures
        result is Ok <==> forall|i: int|
            0 <= i < files.len() ==> is_sized((#[trigger] files[i]).1, c, h),
        result matches Ok(segment) ==> {
            &&& segment.levels() == files.len()
            &&& segment.name_text() == files[0].0
            &&& segment.local() == file_entries(files[0].1, c, h)
            &&& match segment.parent() {
                Some(parent) => files.len() > 1 && is_stack_result(
                    files.skip(1),
                    c,
                    h,
                    Ok(parent),
                ),
                None => files.len() == 1,
            }
        },
    decreases files.len(),
{
    if files.len() == 1 {
        law_load_owed(files[0].1, None, files[0].0, c, h, result);
        match result {
            Ok(segment) => {
                segment.lemma_entries();
            },
            Err(_) => {},
        }
    } else {
        let rest = files.skip(1);
        let below = choose|below: Result<Arc<ReadonlyIndexSegment>, IndexLoadError>|
            is_stack_result(rest, c, h, below) && #[trigger] is_result_above(
                files[0],
                below,
                c,
                h,
                result,
            );
        law_stack_owed(rest, c, h, below);
        assert forall|i: int| 1 <= i < files.len() implies (#[trigger] files[i]) == rest[i
            - 1] by {}
        if forall|i: int| 0 <= i < rest.len() ==> is_sized((#[trigger] rest[i]).1, c, h) {
            assert forall|i: int| 1 <= i < files.len() implies is_sized(
                (#[trigger] files[i]).1,
                c,
                h,
            ) by {
                assert(is_sized(rest[i - 1].1, c, h));
            }
        } else {
            let i = choose|i: int|
                0 <= i < rest.len() && !is_sized((#[trigger] rest[i]).1, c, h);
            assert(!is_sized(files[i + 1].1, c, h));
        }
        match below {
            Ok(parent) => {
                law_load_owed(files[0].1, Some(parent), files[0].0, c, h, result);
                match result {
                    Ok(segment) => {
                        segment.lemma_entries();
                        assert(segment.parent() == Some(parent));
                    },
                    Err(_) => {},
                }
            },
            Err(_) => {},
        }
    }
}

/// The number of bytes of some files.
pub open spec fn total_bytes(files: Seq<(Seq<char>, Seq<u8>)>) -> int
    decreases files.len(),
{
    if files.len() == 0 {
        0
    } else {
        files[0].1.len() + total_bytes(files.skip(1))
    }
}

/// An entry takes at least 24 bytes, so a stack of files whose bytes are not many more
/// than 32 bits can count can always be loaded.
pub proof fn law_small_stack(files: Seq<(Seq<char>, Seq<u8>)>, c: int, h: int)
    requires
        0 <= c,
        0 <= h,
        total_bytes(files) <= 24 * u32::MAX,
    ensures
        is_countable(files, c, h),
{
    assert forall|i: int| 1 <= i <= files.len() implies (num_loaded(
        #[trigger] files.skip(i),
        c,
        h,
    ) matches Some(number) ==> number <= u32::MAX) by {
        lemma_loaded_bytes(files.skip(i), c, h);
        lemma_fewer_bytes(files, i);
    }
}

/// The files from a place on have no more bytes than all.
proof fn lemma_fewer_bytes(files: Seq<(Seq<char>, Seq<u8>)>, i: int)
    requires
        0 <= i <= files.len(),
    ensures
        0 <= total_bytes(files.skip(i)) <= total_bytes(files),
    decreases files.len(),
{
    if i == 0 {
        assert(files.skip(0) =~= files);
        if files.len() > 0 {
            lemma_fewer_bytes(files.skip(1), 0);
            assert(files.skip(1).skip(0) =~= files.skip(1));
        }
    } else {
        lemma_fewer_bytes(files.skip(1), i - 1);
        assert(files.skip(1).skip(i - 1) =~= files.skip(i));
    }
}

/// Each entry takes at least 24 bytes.
proof fn lemma_loaded_bytes(files: Seq<(Seq<char>, Seq<u8>)>, c: int, h: int)
    requires
        0 <= c,
        0 <= h,
    ensures
        num_loaded(files, c, h) matches Some(number) ==> 0 <= number && 24 * number
            <= total_bytes(files),
    decreases files.len(),
{
    if files.len() > 0 {
        let file = files[0].1;
        lemma_loaded_bytes(files.skip(1), c, h);
        if num_loaded(files, c, h) is Some {
            law_file_size(file, c, h);
            let n = little_endian(file, 0);
            let count = little_endian(file, 4 + n);
            law_integer(file, 0, 0);
            law_integer(file, 4 + n, 0);
            law_integer(file, 8 + n, 0);
            assert(count * (20 + c + h) + count * (c + 4) >= 24 * count) by (nonlinear_arith)
                requires
                    count >= 0,
                    c >= 0,
                    h >= 0,
            ;
        }
    }
}

/// The files of a stack have no more levels than it.
proof fn lemma_levels_in_stack(
    stack: Option<Arc<ReadonlyIndexSegment>>,
    file: Arc<ReadonlyIndexSegment>,
)
    requires
        in_stack(stack, file),
    ensures
        1 <= file.levels() <= levels_of(stack),
        file.entries().len() <= commits_of(stack).len(),
    decreases levels_of(stack),
{
    match stack {
        Some(top) => {
            top.lemma_entries();
            if top != file {
                lemma_levels_in_stack(top.parent(), file);
            }
        },
        None => {},
    }
}

/// New commits are put on top of the first file, from the top, of which they, with the
/// commits of the files above it, are no more than half: that file is one of the stack
/// and has at least twice as many commits of its own as there are above it, and each
/// file above it has fewer than that. If there is no such file, they are put on top of
/// none.
pub proof fn law_squash_base(num_new: int, stack: Option<Arc<ReadonlyIndexSegment>>)
    ensures
        ({
            let base = squash_base(num_new, stack);
            let total = num_new + commits_of(stack).len();
            &&& base matches Some(file) ==> {
                &&& in_stack(stack, file)
                &&& 2 * (total - file.entries().len()) <= file.local().len()
            }
            &&& forall|file: Arc<ReadonlyIndexSegment>| #[trigger]
                in_stack(stack, file) && file.levels() > levels_of(base) ==> 2 * (total
                    - file.entries().len()) > file.local().len()
        }),
    decreases levels_of(stack),
{
    let base = squash_base(num_new, stack);
    let total = num_new + commits_of(stack).len();
    match stack {
        Some(top) => {
            top.lemma_entries();
            assert(in_stack(stack, top));
            let below = top.parent();
            if 2 * num_new <= top.local().len() {
                assert forall|file: Arc<ReadonlyIndexSegment>| #[trigger]
                    in_stack(stack, file) && file.levels() > levels_of(base) implies 2 * (total
                    - file.entries().len()) > file.local().len() by {
                    lemma_levels_in_stack(stack, file);
                }
            } else {
                let more = num_new + top.local().len();
                law_squash_base(more, below);
                assert(more + commits_of(below).len() == total);
                assert forall|file: Arc<ReadonlyIndexSegment>| #[trigger]
                    in_stack(stack, file) && file.levels() > levels_of(base) implies 2 * (total
                    - file.entries().len()) > file.local().len() by {
                    if file != top {
                        assert(in_stack(below, file));
                    }
                }
                match base {
                    Some(file) => {
                        assert(in_stack(below, file));
                    },
                    None => {},
                }
            }
        },
        None => {},
    }
}

/// Each file of a stack has at least twice as many commits of its own as the one on
/// top of it if, and only if, that holds of each two of its files.
pub proof fn law_halving(stack: Option<Arc<ReadonlyIndexSegment>>)
    ensures
        is_halving(stack) <==> forall|file: Arc<ReadonlyIndexSegment>| #[trigger]
            in_stack(stack, file) ==> (file.parent() matches Some(parent) ==> 2
                * file.local().len() <= parent.local().len()),
    decreases levels_of(stack),
{
    match stack {
        Some(top) => {
            top.lemma_entries();
            law_halving(top.parent());
            assert(in_stack(stack, top));
            assert forall|file: Arc<ReadonlyIndexSegment>| #[trigger]
                in_stack(top.parent(), file) implies in_stack(stack, file) by {}
            assert forall|file: Arc<ReadonlyIndexSegment>| #[trigger]
                in_stack(stack, file) implies file == top || in_stack(top.parent(), file) by {}
        },
        None => {},
    }
}

/// A stack has a file with a name and commits if one of its files has them. Names
/// agree if files of the same name, one of each stack, always have the same commits.
pub proof fn law_names_agree(
    a: Option<Arc<ReadonlyIndexSegment>>,
    b: Option<Arc<ReadonlyIndexSegment>>,
)
    ensures
        names_agree(a, b) <==> forall|x: Arc<ReadonlyIndexSegment>, y: Arc<ReadonlyIndexSegment>|
            #![trigger in_stack(a, x), in_stack(b, y)]
            in_stack(a, x) && in_stack(b, y) && x.name_text() == y.name_text() ==> x.entries()
                == y.entries(),
{
    assert forall|x: Arc<ReadonlyIndexSegment>, y: Arc<ReadonlyIndexSegment>|
        #![trigger in_stack(a, x), in_stack(b, y)]
        names_agree(a, b) && in_stack(a, x) && in_stack(b, y) && x.name_text()
            == y.name_text() implies x.entries() == y.entries() by {
        lemma_has_own(a, x);
        lemma_has_own(b, y);
        assert(has_file(a, x.name_text(), x.entries()));
        assert(has_file(b, x.name_text(), y.entries()));
    }
    if forall|x: Arc<ReadonlyIndexSegment>, y: Arc<ReadonlyIndexSegment>|
        #![trigger in_stack(a, x), in_stack(b, y)]
        in_stack(a, x) && in_stack(b, y) && x.name_text() == y.name_text() ==> x.entries()
            == y.entries() {
        assert forall|name: Seq<char>, g: Seq<Entry>, h: Seq<Entry>|
            #![trigger has_file(a, name, g), has_file(b, name, h)]
            has_file(a, name, g) && has_file(b, name, h) implies g == h by {
            let x = lemma_find_file(a, name, g);
            let y = lemma_find_file(b, name, h);
        }
    }
}

/// A stack has its files.
proof fn lemma_has_own(stack: Option<Arc<ReadonlyIndexSegment>>, file: Arc<ReadonlyIndexSegment>)
    requires
        in_stack(stack, file),
    ensures
        has_file(stack, file.name_text(), file.entries()),
    decreases levels_of(stack),
{
    match stack {
        Some(top) => {
            top.lemma_entries();
            lemma_has_file(top);
            if top != file {
                lemma_has_own(top.parent(), file);
            }
        },
        None => {},
    }
}

/// What a stack has is one of its files.
proof fn lemma_find_file(
    stack: Option<Arc<ReadonlyIndexSegment>>,
    name: Seq<char>,
    g: Seq<Entry>,
) -> (file: Arc<ReadonlyIndexSegment>)
    requires
        has_file(stack, name, g),
    ensures
        in_stack(stack, file),
        file.name_text() == name,
        file.entries() == g,
    decreases levels_of(stack),
{
    let top = stack->0;
    top.lemma_entries();
    lemma_has_file(top);
    if top.name_text() == name && top.entries() == g {
        top
    } else {
        lemma_find_file(top.parent(), name, g)
    }
}

/// The shared file of two stacks is one of the other stack, and the own stack has a
/// file of its name. It is the first one of the other stack, from the top, if the top
/// files have the same name, and there is none without own files.
pub proof fn law_shared_base(
    own: Option<Arc<ReadonlyIndexSegment>>,
    other: Option<Arc<ReadonlyIndexSegment>>,
)
    ensures
        shared_base(own, other) matches Some(file) ==> in_stack(other, file) && exists|
            ours: Arc<ReadonlyIndexSegment>,
        | #[trigger]
            in_stack(own, ours) && ours.name_text() == file.name_text(),
        own is None || other is None ==> shared_base(own, other) is None,
        own matches Some(ours) ==> (other matches Some(theirs) ==> (ours.name_text()
            == theirs.name_text() ==> shared_base(own, other) == other)),
    decreases levels_of(own) + levels_of(other),
{
    match (own, other) {
        (Some(ours), Some(theirs)) => {
            ours.lemma_entries();
            theirs.lemma_entries();
            assert(in_stack(own, ours));
            assert(in_stack(other, theirs));
            if ours.name_text() == theirs.name_text() {
            } else if ours.entries().len() < theirs.entries().len() {
                law_shared_base(own, theirs.parent());
            } else {
                law_shared_base(ours.parent(), other);
                match shared_base(own, other) {
                    Some(file) => {
                        let found = choose|f: Arc<ReadonlyIndexSegment>| #[trigger]
                            in_stack(ours.parent(), f) && f.name_text() == file.name_text();
                        assert(in_stack(own, found));
                    },
                    None => {},
                }
            }
        },
        _ => {},
    }
}

/// Where names agree and no file on top of another one is empty, no file of the other
/// stack that shares its name with a file of the own one has more commits than the
/// shared file.
pub proof fn law_highest_shared(
    own: Option<Arc<ReadonlyIndexSegment>>,
    other: Option<Arc<ReadonlyIndexSegment>>,
    ours: Arc<ReadonlyIndexSegment>,
    theirs: Arc<ReadonlyIndexSegment>,
)
    requires
        in_stack(own, ours),
        in_stack(other, theirs),
        ours.name_text() == theirs.name_text(),
        forall|x: Arc<ReadonlyIndexSegment>, y: Arc<ReadonlyIndexSegment>|
            #![trigger in_stack(own, x), in_stack(other, y)]
            in_stack(own, x) && in_stack(other, y) && x.name_text() == y.name_text()
                ==> x.entries() == y.entries(),
        forall|y: Arc<ReadonlyIndexSegment>| #[trigger]
            in_stack(other, y) && y.parent() is Some ==> y.local().len() > 0,
    ensures
        shared_base(own, other) matches Some(file) && theirs.entries().len()
            <= file.entries().len(),
    decreases levels_of(own) + levels_of(other),
{
    let (x, y) = (own->0, other->0);
    x.lemma_entries();
    y.lemma_entries();
    lemma_levels_in_stack(own, ours);
    lemma_levels_in_stack(other, theirs);
    assert(in_stack(own, x));
    assert(in_stack(other, y));
    assert(ours.entries() == theirs.entries());
    if x.name_text() == y.name_text() {
    } else if x.entries().len() < y.entries().len() {
        assert(theirs != y);
        assert forall|f: Arc<ReadonlyIndexSegment>| #[trigger]
            in_stack(y.parent(), f) implies in_stack(other, f) by {}
        law_highest_shared(own, y.parent(), ours, theirs);
    } else {
        assert(ours != x) by {
            if ours == x && theirs != y {
                lemma_levels_in_stack(y.parent(), theirs);
            }
        }
        assert forall|f: Arc<ReadonlyIndexSegment>| #[trigger]
            in_stack(x.parent(), f) implies in_stack(own, f) by {}
        law_highest_shared(x.parent(), other, ours, theirs);
    }
}

/// An index can be saved if there is nothing new above a parent file. Otherwise it can
/// be saved if, and only if, its new commits have ids of the right lengths, the file
/// that it is put on top of has a name that a header can hold, and the parents but the
/// first ones of the commits to be written can be counted in 32 bits; how many commits
/// there are does not matter.
pub proof fn law_can_be_saved(segment: &MutableIndexSegment)
    requires
        segment.valid(),
    ensures
        segment.local().len() == 0 && segment.parent() is Some ==> segment.fits_file(),
        segment.local().len() > 0 || segment.parent() is None ==> (segment.fits_file() <==> {
            let base = squash_base(segment.local().len() as int, segment.parent());
            let written = segment.entries().skip(commits_of(base).len() as int);
            &&& 20 + segment.commit_id_len() + segment.change_id_len() <= usize::MAX
            &&& forall|i: int|
                0 <= i < segment.local().len() ==> (
                #[trigger] segment.local()[i]).commit_id.len() == segment.commit_id_len()
                    && segment.local()[i].change_id.len() == segment.change_id_len()
            &&& base matches Some(file) ==> 0 < encode_utf8(file.name_text()).len() <= u32::MAX
            &&& overflow_table(written).len() <= u32::MAX
        }),
        segment.parent() is None && (forall|i: int|
            0 <= i < segment.local().len() ==> (#[trigger] segment.local()[i]).commit_id.len()
                == segment.commit_id_len() && segment.local()[i].change_id.len()
                == segment.change_id_len() && segment.local()[i].parents.len() <= 1) && 20
            + segment.commit_id_len() + segment.change_id_len() <= usize::MAX
            ==> segment.fits_file(),
{
    if segment.parent() is None && forall|i: int|
        0 <= i < segment.local().len() ==> (#[trigger] segment.local()[i]).parents.len() <= 1 {
        segment.lemma_entries();
        let g = segment.entries();
        assert(g.skip(0) =~= g);
        lemma_no_overflow(g);
    }
}

/// Commits with at most one parent have no overflow table.
proof fn lemma_no_overflow(g: Seq<Entry>)
    requires
        forall|i: int| 0 <= i < g.len() ==> (#[trigger] g[i]).parents.len() <= 1,
    ensures
        overflow_table(g).len() == 0,
    decreases g.len(),
{
    if g.len() > 0 {
        lemma_no_overflow(g.drop_last());
        assert(g.last() == g[g.len() - 1]);
    }
}

} // verus!
