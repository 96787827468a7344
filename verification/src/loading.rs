//! Loading a stack of index files, which are read one after the other, the top file
//! first.

use crate::format::{
    entry_count, file_entries, has_counts, has_header, name_length, parent_name_bytes, tables_sized,
};
use crate::readonly::{
    is_load_result, parent_file_name, read_entry_count, IndexLoadError, ReadonlyIndexSegment,
};
use crate::segment::IndexSegment;
use std::sync::Arc;
use vstd::prelude::*;
use vstd::utf8::{encode_utf8, valid_utf8};

verus! {

/// Whether the parent file that an index file names is the next one, for each file
/// but the last.
pub open spec fn is_chain(files: Seq<(Seq<char>, Seq<u8>)>) -> bool {
    forall|i: int|
        0 <= i < files.len() - 1 ==> names_parent((#[trigger] files[i]).1, files[i + 1].0)
}

/// Whether an index file names a file as its parent file.
pub open spec fn names_parent(file: Seq<u8>, name: Seq<char>) -> bool {
    &&& has_header(file)
    &&& name_length(file) > 0
    &&& parent_name_bytes(file) == encode_utf8(name)
}

/// Whether an index file has no parent file.
pub open spec fn is_bottom(file: Seq<u8>) -> bool {
    has_header(file) && name_length(file) == 0
}

/// Whether loading a file with the given name and content, above what loading the
/// files below it gave, gives the result: an error from below is handed on.
pub open spec fn is_result_above(
    file: (Seq<char>, Seq<u8>),
    below: Result<Arc<ReadonlyIndexSegment>, IndexLoadError>,
    commit_id_length: int,
    change_id_length: int,
    result: Result<Arc<ReadonlyIndexSegment>, IndexLoadError>,
) -> bool {
    match below {
        Ok(parent) => is_load_result(
            file.1,
            Some(parent),
            file.0,
            commit_id_length,
            change_id_length,
            result,
        ),
        Err(error) => result == Err::<Arc<ReadonlyIndexSegment>, IndexLoadError>(error),
    }
}

/// Whether loading a stack of files, given from the top with their names, gives the
/// result.
pub open spec fn is_stack_result(
    files: Seq<(Seq<char>, Seq<u8>)>,
    commit_id_length: int,
    change_id_length: int,
    result: Result<Arc<ReadonlyIndexSegment>, IndexLoadError>,
) -> bool
    decreases files.len(),
{
    let (c, h) = (commit_id_length, change_id_length);
    if files.len() <= 1 {
        is_load_result(files[0].1, None, files[0].0, c, h, result)
    } else {
        exists|below: Result<Arc<ReadonlyIndexSegment>, IndexLoadError>|
            is_stack_result(files.skip(1), c, h, below) && #[trigger] is_result_above(
                files[0],
                below,
                c,
                h,
                result,
            )
    }
}

/// The number of commits in a stack of files, `None` if it cannot be loaded.
pub open spec fn num_loaded(
    files: Seq<(Seq<char>, Seq<u8>)>,
    commit_id_length: int,
    change_id_length: int,
) -> Option<int>
    decreases files.len(),
{
    if files.len() == 0 {
        Some(0)
    } else {
        let content = files[0].1;
        match num_loaded(files.skip(1), commit_id_length, change_id_length) {
            Some(number) if has_counts(content) && tables_sized(
                content,
                commit_id_length,
                change_id_length,
            ) => Some(number + entry_count(content)),
            _ => None,
        }
    }
}

/// Whether the number of commits below each file can be counted in 32 bits.
pub open spec fn is_countable(
    files: Seq<(Seq<char>, Seq<u8>)>,
    commit_id_length: int,
    change_id_length: int,
) -> bool {
    forall|i: int|
        1 <= i <= files.len() ==> (num_loaded(
            #[trigger] files.skip(i),
            commit_id_length,
            change_id_length,
        ) matches Some(number) ==> number <= u32::MAX)
}

/// A file that was read.
struct FileContent {
    name: String,
    content: Vec<u8>,
}

/// The files of a stack that were read, the top file first.
pub struct IndexLoader {
    files: Vec<FileContent>,
    commit_id_length: usize,
    change_id_length: usize,
}

impl IndexLoader {
    /// Whether each file is the parent file that the one before it names.
    pub closed spec fn wf(&self) -> bool {
        &&& 20 + self.commit_id_length + self.change_id_length <= usize::MAX
        &&& is_chain(self.files())
    }

    /// The names and contents of the files.
    pub closed spec fn files(&self) -> Seq<(Seq<char>, Seq<u8>)> {
        self.files@.map_values(|file: FileContent| (file.name@, file.content@))
    }

    /// The length of commit ids.
    pub closed spec fn commit_id_len(&self) -> int {
        self.commit_id_length as int
    }

    /// The length of change ids.
    pub closed spec fn change_id_len(&self) -> int {
        self.change_id_length as int
    }

    pub fn new(commit_id_length: usize, change_id_length: usize) -> (loader: Self)
        requires
            20 + commit_id_length + change_id_length <= usize::MAX,
        ensures
            loader.wf(),
            loader.files() == Seq::<(Seq<char>, Seq<u8>)>::empty(),
            loader.commit_id_len() == commit_id_length,
            loader.change_id_len() == change_id_length,
    {
        let loader = IndexLoader { files: Vec::new(), commit_id_length, change_id_length };
        assert(loader.files() =~= Seq::empty());
        loader
    }

    /// Takes the content of the next file, and returns the name of the file to be
    /// read after it, `None` if there is none.
    pub fn add_file(&mut self, name: String, content: Vec<u8>) -> (result: Result<
        Option<String>,
        IndexLoadError,
    >)
        requires
            old(self).wf(),
            old(self).files().len() > 0 ==> names_parent(old(self).files().last().1, name@),
        ensures
            final(self).wf(),
            final(self).files() == old(self).files().push((name@, content@)),
            final(self).commit_id_len() == old(self).commit_id_len(),
            final(self).change_id_len() == old(self).change_id_len(),
            match result {
                Ok(Some(parent_name)) => names_parent(content@, parent_name@),
                Ok(None) => is_bottom(content@),
                Err(IndexLoadError::UnexpectedEof) => !has_header(content@),
                Err(IndexLoadError::InvalidParentName) => has_header(content@) && name_length(
                    content@,
                ) > 0 && !valid_utf8(parent_name_bytes(content@)),
                Err(IndexLoadError::IndexCorrupt(_)) => false,
            },
    {
        let result = parent_file_name(content.as_slice());
        self.files.push(FileContent { name, content });
        assert(self.files() =~= old(self).files().push((name@, content@)));
        result
    }

    /// Whether the files can be put on top of each other: the commits below each
    /// file can be counted in 32 bits.
    pub fn can_load(&self) -> (result: bool)
        requires
            self.wf(),
        ensures
            result == is_countable(self.files(), self.commit_id_len(), self.change_id_len()),
    {
        let ghost all = self.files();
        let ghost c = self.commit_id_len();
        let ghost h = self.change_id_len();
        let mut number: Option<u64> = Some(0);
        let mut i: usize = self.files.len();
        assert(all.skip(all.len() as int) =~= Seq::empty());
        while i > 1
            invariant
                i <= self.files@.len(),
                all == self.files(),
                all.len() == self.files@.len(),
                c == self.commit_id_len(),
                h == self.change_id_len(),
                self.wf(),
                match number {
                    Some(number) => {
                        &&& num_loaded(all.skip(i as int), c, h) == Some(number as int)
                        &&& number <= u32::MAX
                    },
                    None => num_loaded(all.skip(i as int), c, h) is None,
                },
                forall|j: int|
                    i <= j <= all.len() ==> (num_loaded(#[trigger] all.skip(j), c, h) matches Some(
                        number,
                    ) ==> number <= u32::MAX),
            decreases i,
        {
            i -= 1;
            let file = &self.files[i];
            proof {
                assert(all.skip(i as int).skip(1) =~= all.skip(i + 1));
                assert(all.skip(i as int)[0] == (file.name@, file.content@));
            }
            let own: Option<u32> = read_entry_count(
                file.content.as_slice(),
                self.commit_id_length,
                self.change_id_length,
            );
            number = match (number, own) {
                (Some(below), Some(count)) => Some(below + count as u64),
                _ => None,
            };
            if let Some(sum) = number {
                if sum > u32::MAX as u64 {
                    assert(num_loaded(all.skip(i as int), c, h) == Some(sum as int));
                    return false;
                }
            }
        }
        true
    }

    /// Loads the files, and returns the top one.
    pub fn finish(self) -> (result: Result<Arc<ReadonlyIndexSegment>, IndexLoadError>)
        requires
            self.wf(),
            self.files().len() > 0,
            is_bottom(self.files().last().1),
            is_countable(self.files(), self.commit_id_len(), self.change_id_len()),
        ensures
            is_stack_result(self.files(), self.commit_id_len(), self.change_id_len(), result),
    {
        let ghost all = self.files();
        let ghost c = self.commit_id_len();
        let ghost h = self.change_id_len();
        let mut files = self.files;
        let bottom = files.pop().unwrap();
        let mut loaded = ReadonlyIndexSegment::load_from(
            bottom.content.as_slice(),
            None,
            bottom.name,
            self.commit_id_length,
            self.change_id_length,
        );
        proof {
            let last = all.skip(all.len() - 1);
            assert(last[0] == all.last());
            assert(last.skip(1) =~= Seq::empty());
            assert(num_loaded(last.skip(1), c, h) == Some(0int));
            lemma_loaded_size(all.last(), None, c, h, loaded);
        }
        while files.len() > 0
            invariant
                files@.len() < all.len(),
                forall|j: int|
                    0 <= j < files@.len() ==> all[j] == (
                        (#[trigger] files@[j]).name@,
                        files@[j].content@,
                    ),
                is_chain(all),
                is_countable(all, c, h),
                c == self.commit_id_length,
                h == self.change_id_length,
                20 + self.commit_id_length + self.change_id_length <= usize::MAX,
                is_stack_result(all.skip(files@.len() as int), c, h, loaded),
                loaded matches Ok(segment) ==> {
                    &&& segment.readable()
                    &&& segment.name_text() == all[files@.len() as int].0
                    &&& segment.commit_id_len() == c
                    &&& segment.change_id_len() == h
                    &&& num_loaded(all.skip(files@.len() as int), c, h) == Some(
                        segment.entries().len() as int,
                    )
                },
            decreases files@.len(),
        {
            let ghost n = files@.len() as int;
            let ghost below = loaded;
            let file = files.pop().unwrap();
            proof {
                assert(all[n - 1] == (file.name@, file.content@));
                assert(all.skip(n - 1).skip(1) =~= all.skip(n));
                assert(all.skip(n - 1)[0] == all[n - 1]);
                assert(names_parent(all[n - 1].1, all[n].0));
                assert(num_loaded(all.skip(n), c, h) matches Some(number) ==> number <= u32::MAX);
            }
            loaded = match loaded {
                Ok(parent) => {
                    let next = ReadonlyIndexSegment::load_from(
                        file.content.as_slice(),
                        Some(parent.clone()),
                        file.name,
                        self.commit_id_length,
                        self.change_id_length,
                    );
                    proof {
                        lemma_loaded_size(all[n - 1], Some(parent), c, h, next);
                    }
                    next
                },
                Err(error) => Err(error),
            };
            proof {
                let stack = all.skip(n - 1);
                assert(is_stack_result(stack.skip(1), c, h, below));
                assert(is_result_above(stack[0], below, c, h, loaded));
            }
        }
        assert(all.skip(0) =~= all);
        loaded
    }
}

/// A file that was loaded has the commits that it gives the number of, on top of
/// those of its parent file.
proof fn lemma_loaded_size(
    file: (Seq<char>, Seq<u8>),
    parent: Option<Arc<ReadonlyIndexSegment>>,
    commit_id_length: int,
    change_id_length: int,
    result: Result<Arc<ReadonlyIndexSegment>, IndexLoadError>,
)
    requires
        is_load_result(file.1, parent, file.0, commit_id_length, change_id_length, result),
    ensures
        result matches Ok(segment) ==> segment.entries().len() == entry_count(file.1) + (
        match parent {
            Some(segment) => segment.entries().len(),
            None => 0,
        }),
{
    match result {
        Ok(segment) => {
            segment.lemma_entries();
            assert(file_entries(file.1, commit_id_length, change_id_length).len() == entry_count(
                file.1,
            ));
        },
        Err(_) => {},
    }
}

} // verus!
