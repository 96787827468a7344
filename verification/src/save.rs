//! Turning the commits in memory into an index file.
//!
//! A file is named by the hash of what it holds, so that the same commits on
//! top of the same parent file always go to the same file.

use crate::format::{
    file_entries, file_parents_inside, file_table, has_counts, has_header, ids_sized, index_file,
    law_index_file, name_length, overflow_table, parent_name_bytes, tables_sized,
};
use crate::hex_digits::{hex_encode, hex_text, lemma_hex_text};
use crate::model::{parents_countable, Entry};
use crate::mutable::MutableIndexSegment;
use crate::positions::IndexPosition;
use crate::readonly::{
    commits_of, is_halving, is_load_result, lemma_halving_base, squash_base, IndexLoadError,
    ReadonlyIndexSegment,
};
use crate::segment::IndexSegment;
use blake2::{Blake2b512, Digest};
use std::sync::Arc;
use vstd::prelude::*;
use vstd::utf8::encode_utf8;

verus! {

/// The BLAKE2b hash, of 64 bytes, of a byte string.
pub uninterp spec fn blake2b512(data: Seq<u8>) -> Seq<u8>;

/// Calls `blake2::Blake2b512` on a byte string, which gives a hash of 64 bytes
/// that depends on the byte string alone.
#[verifier::external_body]
fn blake2b512_hash(data: &[u8]) -> (hash: Vec<u8>)
    ensures
        hash@ == blake2b512(data@),
        hash@.len() == 64,
{
    let mut hasher = Blake2b512::new();
    hasher.update(data);
    hasher.finalize().to_vec()
}

/// An index file to be written.
pub struct NewIndexFile {
    pub name: String,
    pub content: Vec<u8>,
    /// What loading the file gives.
    pub segment: Arc<ReadonlyIndexSegment>,
}

/// What saving an index calls for.
pub enum SaveAction {
    /// There is nothing new to save: the index is in this file.
    Keep(Arc<ReadonlyIndexSegment>),
    /// A file has to be written.
    Write(NewIndexFile),
}

/// Whether the name of a file, if there is one, can stand in the header of an index
/// file.
pub open spec fn name_sized(file: Option<Arc<ReadonlyIndexSegment>>) -> bool {
    match file {
        Some(segment) => 0 < encode_utf8(segment.name_text()).len() <= u32::MAX,
        None => true,
    }
}

/// The name of a file, as bytes.
pub open spec fn name_bytes(file: Option<Arc<ReadonlyIndexSegment>>) -> Option<Seq<u8>> {
    match file {
        Some(segment) => Some(encode_utf8(segment.name_text())),
        None => None,
    }
}

/// The file that new commits are put on top of, where `num_new` commits are put on
/// top of a file and its ancestors.
fn find_squash_base(num_new: u64, file: &Arc<ReadonlyIndexSegment>) -> (base: Option<
    Arc<ReadonlyIndexSegment>,
>)
    requires
        file.valid(),
        num_new + file.entries().len() <= u32::MAX,
    ensures
        base == squash_base(num_new as int, Some(*file)),
        commits_of(base).len() <= file.entries().len(),
        base matches Some(segment) ==> segment.valid(),
    decreases file.levels(),
{
    proof {
        file.lemma_valid();
        file.lemma_readable();
        file.lemma_entries();
        reveal_with_fuel(squash_base, 2);
    }
    let num_file_commits: u64 = file.segment_num_commits() as u64;
    if 2 * num_new <= num_file_commits {
        return Some(file.clone());
    }
    match file.segment_parent_file() {
        Some(parent) => find_squash_base(num_new + num_file_commits, parent),
        None => None,
    }
}

/// An overflow table for the first commits of an index is not longer than one for
/// all of them.
proof fn lemma_overflow_lower(g: Seq<Entry>, n: int)
    requires
        0 <= n <= g.len(),
    ensures
        overflow_table(g.take(n)).len() <= overflow_table(g).len(),
    decreases g.len() - n,
{
    if n < g.len() {
        let next = g.take(n + 1);
        assert(next.drop_last() =~= g.take(n));
        lemma_overflow_lower(g, n + 1);
    } else {
        assert(g.take(n) =~= g);
    }
}

/// What holds of the commits of an index from a place on.
proof fn lemma_upper_part(
    all: Seq<Entry>,
    g: Seq<Entry>,
    from: int,
    commit_id_length: int,
    change_id_length: int,
)
    requires
        0 <= from <= all.len(),
        all.len() == from + g.len(),
        forall|i: int| 0 <= i < g.len() ==> #[trigger] g[i] == all[from + i],
    ensures
        g == all.skip(from),
        parents_countable(all) ==> parents_countable(g),
        ids_sized(all, commit_id_length, change_id_length) ==> ids_sized(
            g,
            commit_id_length,
            change_id_length,
        ),
{
    assert(g =~= all.skip(from));
}

impl NewIndexFile {
    /// The file with the given content, which is named by the hash of it.
    pub fn new(
        content: Vec<u8>,
        hash: &[u8],
        parent_file: Option<Arc<ReadonlyIndexSegment>>,
        commit_id_length: usize,
        change_id_length: usize,
    ) -> (result: Result<NewIndexFile, IndexLoadError>)
        requires
            20 + commit_id_length + change_id_length <= usize::MAX,
            has_header(content@) ==> match parent_file {
                Some(parent) => {
                    &&& name_length(content@) > 0
                    &&& encode_utf8(parent.name_text()) == parent_name_bytes(content@)
                    &&& parent.readable()
                    &&& parent.entries().len() <= u32::MAX
                    &&& parent.commit_id_len() == commit_id_length
                    &&& parent.change_id_len() == change_id_length
                },
                None => name_length(content@) == 0,
            },
        ensures
            ({
                let (c, h) = (commit_id_length as int, change_id_length as int);
                let name = hex_text(hash@);
                match result {
                    Ok(file) => {
                        &&& file.content@ == content@
                        &&& file.name@ == name
                        &&& is_load_result(content@, parent_file, name, c, h, Ok(file.segment))
                    },
                    Err(error) => is_load_result(content@, parent_file, name, c, h, Err(error)),
                }
            }),
    {
        let name = hex_encode(hash);
        match ReadonlyIndexSegment::load_from(
            content.as_slice(),
            parent_file,
            name.clone(),
            commit_id_length,
            change_id_length,
        ) {
            Ok(segment) => Ok(NewIndexFile { name, content, segment }),
            Err(error) => Err(error),
        }
    }
}

impl MutableIndexSegment {
    /// Whether saving the index calls for a file to be written. It does not if there
    /// is nothing new above a parent file.
    pub open spec fn needs_file(&self) -> bool {
        self.local().len() > 0 || self.parent() is None
    }

    /// Whether a file can be made of what is in memory once the index was squashed,
    /// if saving calls for one: the ids have the right lengths, and what a file
    /// counts can be counted in the integers that are there for it.
    pub open spec fn fits_file(&self) -> bool {
        let base = squash_base(self.local().len() as int, self.parent());
        self.needs_file() ==> {
            &&& 20 + self.commit_id_len() + self.change_id_len() <= usize::MAX
            &&& name_sized(base)
            &&& ids_sized(self.local(), self.commit_id_len(), self.change_id_len())
            &&& overflow_table(self.entries().skip(commits_of(base).len() as int)).len()
                <= u32::MAX
        }
    }

    /// Whether the index can be saved.
    pub fn can_save(&self) -> (result: bool)
        requires
            self.valid(),
        ensures
            result == self.fits_file(),
    {
        proof {
            self.lemma_valid();
            self.lemma_readable();
            self.lemma_entries();
        }
        let num_new: u64 = self.segment_num_commits() as u64;
        let base: Option<Arc<ReadonlyIndexSegment>> = match self.segment_parent_file() {
            Some(parent) => {
                if num_new == 0 {
                    return true;
                }
                find_squash_base(num_new, parent)
            },
            None => None,
        };
        let (named, from): (bool, u32) = match &base {
            Some(file) => {
                let length: usize = file.name().as_bytes().len();
                (
                    0 < length && length as u64 <= u32::MAX as u64,
                    file.as_composite().num_commits(),
                )
            },
            None => (true, 0),
        };
        let sized = match self.commit_id_length().checked_add(self.change_id_length()) {
            Some(length) => length <= usize::MAX - 20,
            None => false,
        };
        sized && named && self.has_sized_ids() && self.has_countable_overflow(from)
    }

    /// Saves the index: squashes it with its ancestor files, and makes a file of
    /// what then is in memory. An index without new commits stays in the parent
    /// file.
    pub fn save(self) -> (result: Result<SaveAction, IndexLoadError>)
        requires
            self.valid(),
            self.fits_file(),
        ensures
            match result {
                Ok(SaveAction::Keep(file)) => self.local().len() == 0
                    && self.parent() == Some(file),
                Ok(SaveAction::Write(file)) => {
                    let base = squash_base(self.local().len() as int, self.parent());
                    &&& self.needs_file()
                    &&& file.segment.valid()
                    &&& file.segment.entries() == self.entries()
                    &&& file.segment.parent() == base
                    &&& file.segment.commit_id_len() == self.commit_id_len()
                    &&& file.segment.change_id_len() == self.change_id_len()
                    &&& file.segment.name_text() == file.name@
                    &&& name_sized(Some(file.segment))
                    &&& is_halving(self.parent()) ==> is_halving(Some(file.segment))
                    &&& file.name@ == hex_text(blake2b512(file.content@))
                    &&& file.name@.len() == 128
                    &&& file.content@ == index_file(
                        name_bytes(base),
                        file.segment.local(),
                        file.segment.table(),
                    )
                },
                Err(_) => false,
            },
    {
        proof {
            self.lemma_valid();
            self.lemma_readable();
        }
        if self.segment_num_commits() == 0 {
            if let Some(file) = self.segment_parent_file() {
                return Ok(SaveAction::Keep(file.clone()));
            }
        }
        let commit_id_length: usize = self.commit_id_length();
        let change_id_length: usize = self.change_id_length();
        proof {
            self.lemma_ids_sized();
            if is_halving(self.parent()) {
                lemma_halving_base(self.local().len() as int, self.parent());
            }
        }
        let ghost all = self.entries();
        let squashed = self.maybe_squash_with_ancestors();
        proof {
            squashed.lemma_valid();
            squashed.lemma_readable();
            squashed.lemma_entries();
            lemma_upper_part(
                all,
                squashed.local(),
                squashed.base(),
                squashed.commit_id_len(),
                squashed.change_id_len(),
            );
        }
        match squashed.into_file() {
            Ok(file) => Ok(SaveAction::Write(file)),
            Err(error) => Err(error),
        }
    }

    /// Whether the parents of the commits from a position on, but for the first
    /// one of each, can be counted in 32 bits.
    fn has_countable_overflow(&self, from: u32) -> (result: bool)
        requires
            self.valid(),
            from <= self.entries().len(),
        ensures
            result == (overflow_table(self.entries().skip(from as int)).len() <= u32::MAX),
    {
        let ghost g = self.entries();
        let ghost upper = g.skip(from as int);
        let index = self.as_composite();
        proof {
            self.lemma_valid();
        }
        let end: u32 = index.num_commits();
        let mut count: u64 = 0;
        let mut pos: u32 = from;
        assert(upper.take(0) =~= Seq::<Entry>::empty());
        while pos < end
            invariant
                from <= pos <= end,
                end == g.len(),
                g == self.entries(),
                upper == g.skip(from as int),
                index.valid(),
                index.entries() == g,
                count == overflow_table(upper.take(pos - from)).len(),
                count <= u32::MAX,
            decreases end - pos,
        {
            let entry = index.entry_by_pos(IndexPosition(pos));
            let num_parents: u32 = entry.num_parents();
            proof {
                entry.lemma_parent_ids(g);
                assert(upper.take(pos + 1 - from).drop_last() =~= upper.take(pos - from));
                assert(upper.take(pos + 1 - from).last() == g[pos as int]);
            }
            if num_parents > 1 {
                count += (num_parents - 1) as u64;
            }
            if count > u32::MAX as u64 {
                proof {
                    lemma_overflow_lower(upper, pos + 1 - from);
                }
                return false;
            }
            pos += 1;
        }
        assert(upper.take(pos - from) =~= upper);
        true
    }

    /// Makes a file of the commits in memory.
    pub fn into_file(self) -> (result: Result<NewIndexFile, IndexLoadError>)
        requires
            self.valid(),
            20 + self.commit_id_len() + self.change_id_len() <= usize::MAX,
            name_sized(self.parent()),
            ids_sized(self.local(), self.commit_id_len(), self.change_id_len()),
            overflow_table(self.local()).len() <= u32::MAX,
        ensures
            match result {
                Ok(file) => {
                    &&& file.segment.valid()
                    &&& file.segment.entries() == self.entries()
                    &&& file.segment.parent() == self.parent()
                    &&& file.segment.local() == self.local()
                    &&& file.segment.table() == self.table()
                    &&& file.segment.commit_id_len() == self.commit_id_len()
                    &&& file.segment.change_id_len() == self.change_id_len()
                    &&& file.segment.name_text() == file.name@
                    &&& name_sized(Some(file.segment))
                    &&& file.name@ == hex_text(blake2b512(file.content@))
                    &&& file.name@.len() == 128
                    &&& file.content@ == index_file(
                        name_bytes(self.parent()),
                        self.local(),
                        self.table(),
                    )
                },
                Err(_) => false,
            },
    {
        let commit_id_length: usize = self.commit_id_length();
        let change_id_length: usize = self.change_id_length();
        let parent_file: Option<Arc<ReadonlyIndexSegment>> = match self.segment_parent_file() {
            Some(file) => Some(file.clone()),
            None => None,
        };
        proof {
            self.lemma_file();
            self.lemma_valid();
            self.lemma_readable();
            self.lemma_entries();
        }
        let content = self.serialize();
        let hash = blake2b512_hash(content.as_slice());
        match NewIndexFile::new(
            content,
            hash.as_slice(),
            parent_file,
            commit_id_length,
            change_id_length,
        ) {
            Ok(file) => {
                proof {
                    file.segment.lemma_readable();
                    file.segment.lemma_entries();
                    file.segment.lemma_is_valid();
                    lemma_hex_text(hash@);
                }
                Ok(file)
            },
            Err(error) => {
                assert(false);
                Err(error)
            },
        }
    }

    /// The file that the commits in memory are written to can be loaded, and
    /// holds them.
    proof fn lemma_file(&self)
        requires
            self.valid(),
            name_sized(self.parent()),
            ids_sized(self.local(), self.commit_id_len(), self.change_id_len()),
            overflow_table(self.local()).len() <= u32::MAX,
            self.commit_id_len() >= 0,
            self.change_id_len() >= 0,
        ensures
            self.parent_name_bytes() == name_bytes(self.parent()),
            ({
                let (c, h) = (self.commit_id_len(), self.change_id_len());
                let file = index_file(name_bytes(self.parent()), self.local(), self.table());
                &&& has_counts(file)
                &&& has_header(file)
                &&& match self.parent() {
                    Some(parent) => {
                        &&& name_length(file) > 0
                        &&& encode_utf8(parent.name_text()) == parent_name_bytes(file)
                        &&& parent.readable()
                        &&& parent.entries().len() <= u32::MAX
                        &&& parent.commit_id_len() == c
                        &&& parent.change_id_len() == h
                    },
                    None => name_length(file) == 0,
                }
                &&& tables_sized(file, c, h)
                &&& file_entries(file, c, h) == self.local()
                &&& file_table(file, c, h) == self.table()
                &&& forall|i: int|
                    0 <= i < self.local().len() ==> #[trigger] file_parents_inside(file, c, h, i)
            }),
    {
        self.lemma_valid();
        self.lemma_readable();
        self.lemma_entries();
        let (c, h) = (self.commit_id_len(), self.change_id_len());
        lemma_upper_part(self.entries(), self.local(), self.base(), c, h);
        law_index_file(
            name_bytes(self.parent()),
            self.local(),
            self.table(),
            self.base(),
            c,
            h,
        );
    }
}

} // verus!
