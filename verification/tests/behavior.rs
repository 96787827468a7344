use default_index::composite::CompositeIndex;
use default_index::entry::{IndexEntry, IndexEntryByPosition};
use default_index::ids::{ChangeId, Commit, CommitId, HexPrefix, PrefixResolution};
use default_index::index::{DefaultMutableIndex, DefaultReadonlyIndex};
use default_index::loading::IndexLoader;
use default_index::mutable::MutableIndexSegment;
use default_index::positions::IndexPosition;
use default_index::readonly::{parent_file_name, IndexLoadError, ReadonlyIndexSegment};
use default_index::save::{NewIndexFile, SaveAction};
use default_index::segment::IndexSegment;
use std::sync::Arc;

/// The commit id of a number.
fn id(number: u16) -> CommitId {
    CommitId::new(number.to_be_bytes().to_vec())
}

fn change(number: u8) -> ChangeId {
    ChangeId::new(vec![number])
}

fn ids(numbers: &[u16]) -> Vec<CommitId> {
    numbers.iter().map(|number| id(*number)).collect()
}

fn positions(numbers: &[u32]) -> Vec<IndexPosition> {
    numbers.iter().map(|number| IndexPosition(*number)).collect()
}

/// Adds the commits of a range, each with the one before it as its parent.
fn add_chain(segment: &mut MutableIndexSegment, range: std::ops::Range<u16>) {
    for number in range {
        let parents = if number == 0 { vec![] } else { vec![id(number - 1)] };
        segment.add_commit_data(id(number), change(number as u8), &parents);
    }
}

fn new_file(segment: MutableIndexSegment) -> NewIndexFile {
    match segment.save() {
        Ok(SaveAction::Write(file)) => file,
        _ => panic!("no file to write"),
    }
}

fn places<'a>(mut next: impl FnMut() -> Option<IndexEntry<'a>>) -> Vec<u32> {
    let mut places = vec![];
    while let Some(entry) = next() {
        places.push(entry.position().0);
    }
    places
}

/// The ids and the parents of all commits.
fn commits(index: CompositeIndex<'_>) -> Vec<(CommitId, ChangeId, u32, Vec<IndexPosition>)> {
    (0..index.num_commits())
        .map(|pos| {
            let entry = index.entry_by_pos(IndexPosition(pos));
            (
                entry.commit_id(),
                entry.change_id(),
                entry.generation_number(),
                entry.parent_positions().to_vec(),
            )
        })
        .collect()
}

/// A graph with a merge:
///
/// ```text
///   5
///  / \
/// 3   4
/// |  / \
/// | 1   2
///  \ \ /
///   \ 0
///    \|
/// ```
fn merge_graph() -> MutableIndexSegment {
    let mut segment = MutableIndexSegment::full(2, 1);
    segment.add_commit_data(id(0), change(0), &[]);
    segment.add_commit_data(id(1), change(1), &ids(&[0]));
    segment.add_commit_data(id(2), change(2), &ids(&[0]));
    segment.add_commit_data(id(3), change(3), &ids(&[0]));
    segment.add_commit_data(id(4), change(4), &ids(&[1, 2]));
    segment.add_commit_data(id(5), change(5), &ids(&[3, 4]));
    segment
}

#[test]
fn file_content_and_name() {
    let mut segment = MutableIndexSegment::full(2, 1);
    segment.add_commit_data(id(0xbb01), change(1), &[]);
    segment.add_commit_data(id(0xaa02), change(2), &ids(&[0xbb01]));
    assert!(segment.can_save());
    let file = new_file(segment);
    let mut expected: Vec<u8> = vec![];
    // No parent file, two commits, no further parents
    expected.extend([0, 0, 0, 0, 2, 0, 0, 0, 0, 0, 0, 0]);
    // The root commit
    expected.extend([0, 0, 0, 0, 0, 0, 0, 0, 0, 0, 0, 0, 0, 0, 0, 0, 0, 0, 0, 0]);
    expected.extend([1, 0xbb, 0x01]);
    // Its child
    expected.extend([0, 0, 0, 0, 1, 0, 0, 0, 1, 0, 0, 0, 0, 0, 0, 0, 0, 0, 0, 0]);
    expected.extend([2, 0xaa, 0x02]);
    // The lookup table
    expected.extend([0xaa, 0x02, 1, 0, 0, 0, 0xbb, 0x01, 0, 0, 0, 0]);
    assert_eq!(file.content, expected);
    assert_eq!(
        file.name,
        "4cd80a41c8cd5920a06055b0dbd5f9fc0d4b14d566123f9ae2daf7fa7c6923dd\
         65c56284342b85afe7c1b2270ade063e8024823456f26e1013ef2598b4a3efdd"
    );
    assert_eq!(file.segment.name(), file.name);
    assert_eq!(file.name.len(), 128);
}

#[test]
fn file_with_parent_and_overflow() {
    let mut segment = MutableIndexSegment::full(2, 1);
    add_chain(&mut segment, 0..5);
    let parent = new_file(segment).segment;
    let mut segment = MutableIndexSegment::incremental(parent.clone());
    segment.add_commit_data(id(9), change(9), &ids(&[4, 2, 0]));
    segment.add_commit_data(id(8), change(8), &ids(&[9, 3]));
    let file = new_file(segment);
    assert_eq!(file.content[..4], [128, 0, 0, 0]);
    assert_eq!(&file.content[4..132], parent.name().as_bytes());
    // Two commits and three further parents
    assert_eq!(file.content[132..140], [2, 0, 0, 0, 3, 0, 0, 0]);
    // The parents of the two commits
    assert_eq!(file.content[144..152], [5, 0, 0, 0, 3, 0, 0, 0]);
    assert_eq!(file.content[152..160], [4, 0, 0, 0, 0, 0, 0, 0]);
    assert_eq!(file.content[167..175], [6, 0, 0, 0, 2, 0, 0, 0]);
    assert_eq!(file.content[175..183], [5, 0, 0, 0, 2, 0, 0, 0]);
    // The lookup table and the further parents
    assert_eq!(file.content[186..198], [0, 8, 6, 0, 0, 0, 0, 9, 5, 0, 0, 0]);
    assert_eq!(file.content[198..], [2, 0, 0, 0, 0, 0, 0, 0, 3, 0, 0, 0]);

    assert_eq!(
        parent_file_name(&file.content).unwrap(),
        Some(parent.name().to_string())
    );
    let loaded =
        ReadonlyIndexSegment::load_from(&file.content, Some(parent), file.name, 2, 1).unwrap();
    assert!(loaded.is_valid());
    assert_eq!(commits(loaded.as_composite()), commits(file.segment.as_composite()));
    let entry = loaded.as_composite().entry_by_id(&id(9)).unwrap();
    assert_eq!(entry.num_parents(), 3);
    assert_eq!(entry.parent_positions().to_vec(), positions(&[4, 2, 0]));
    assert_eq!(entry.parent_ids(), ids(&[4, 2, 0]));
}

#[test]
fn files_that_cannot_be_loaded() {
    let file = new_file(merge_graph());
    // The header is cut off
    let load = |content: &[u8]| {
        ReadonlyIndexSegment::load_from(content, None, "name".to_string(), 2, 1)
    };
    assert!(load(&file.content).is_ok());
    assert!(matches!(load(&[]), Err(IndexLoadError::UnexpectedEof)));
    assert!(matches!(load(&file.content[..3]), Err(IndexLoadError::UnexpectedEof)));
    assert!(matches!(load(&file.content[..11]), Err(IndexLoadError::UnexpectedEof)));
    // The tables have the wrong size
    let mut longer = file.content.clone();
    longer.push(0);
    match load(&longer) {
        Err(IndexLoadError::IndexCorrupt(name)) => assert_eq!(name, "name"),
        _ => panic!("loaded a file that is too long"),
    }
    let end = file.content.len() - 1;
    assert!(matches!(load(&file.content[..end]), Err(IndexLoadError::IndexCorrupt(_))));
    // The name of the parent file
    assert!(matches!(parent_file_name(&[0, 0, 0]), Err(IndexLoadError::UnexpectedEof)));
    assert!(matches!(parent_file_name(&[0, 0, 0, 0]), Ok(None)));
    assert!(matches!(parent_file_name(&[2, 0, 0, 0, b'a']), Err(IndexLoadError::UnexpectedEof)));
    assert_eq!(parent_file_name(b"\x02\0\0\0abc").unwrap(), Some("ab".to_string()));
    assert_eq!(parent_file_name(b"\x02\0\0\0\xc3\xa9").unwrap(), Some("\u{e9}".to_string()));
    assert!(matches!(
        parent_file_name(&[2, 0, 0, 0, 0xc3, b'a']),
        Err(IndexLoadError::InvalidParentName)
    ));
}

#[test]
fn files_with_wrong_content() {
    let file = new_file(merge_graph());
    let is_valid = |content: &[u8]| {
        ReadonlyIndexSegment::load_from(content, None, "name".to_string(), 2, 1)
            .unwrap()
            .is_valid()
    };
    assert!(is_valid(&file.content));
    // The root commit gets another generation number
    let mut content = file.content.clone();
    content[16] = 1;
    assert!(!is_valid(&content));
    // The second commit becomes its own parent
    let mut content = file.content.clone();
    content[12 + 23 + 12] = 1;
    assert!(!is_valid(&content));
    // The merge has parents outside the table
    let mut content = file.content.clone();
    content[12 + 4 * 23 + 8] = 9;
    assert!(!is_valid(&content));
    // Two commits have the same id
    let mut content = file.content.clone();
    content[12 + 2 * 23 + 22] = 1;
    assert!(!is_valid(&content));
    // The lookup table is out of order
    let mut content = file.content.clone();
    let lookup = 12 + 6 * 23;
    content.swap(lookup + 1, lookup + 7);
    content.swap(lookup + 2, lookup + 8);
    assert!(!is_valid(&content));
    // The flags of a commit do not matter
    let mut content = file.content.clone();
    content[12] = 7;
    assert!(is_valid(&content));
}

#[test]
fn saving_without_new_commits() {
    // An index without commits is a file too
    let file = new_file(MutableIndexSegment::full(2, 1));
    assert_eq!(file.content, vec![0; 12]);
    assert_eq!(
        file.name,
        "c8201b736a3e5b466c32f172173e3c397ce4aed3bcf8f07df58c93dd65bf9815\
         5c85563b6495879df2a14be72aa50223ec419ec7967b2486d2a4ed3f7529d95d"
    );
    match MutableIndexSegment::incremental(file.segment.clone()).save() {
        Ok(SaveAction::Keep(kept)) => assert!(Arc::ptr_eq(&kept, &file.segment)),
        _ => panic!("the file is not kept"),
    }
}

#[test]
fn commits_that_do_not_fit_a_file() {
    let mut segment = MutableIndexSegment::full(2, 1);
    segment.add_commit_data(CommitId::from_hex("aabbcc"), change(0), &[]);
    assert!(!segment.can_save());
    let mut segment = MutableIndexSegment::full(2, 1);
    segment.add_commit_data(id(0), ChangeId::new(vec![]), &[]);
    assert!(!segment.can_save());
    assert!(!MutableIndexSegment::full(usize::MAX, 0).can_save());
    assert!(!MutableIndexSegment::full(usize::MAX - 20, 1).can_save());
    assert!(MutableIndexSegment::full(usize::MAX - 20, 0).can_save());
    // Without new commits no file is written
    let empty = new_file(MutableIndexSegment::full(2, 1));
    let nameless =
        ReadonlyIndexSegment::load_from(&empty.content, None, String::new(), 2, 1).unwrap();
    assert!(MutableIndexSegment::incremental(nameless).can_save());
    let mut segment = MutableIndexSegment::full(2, 1);
    add_chain(&mut segment, 0..2);
    let file = new_file(segment);
    let nameless =
        ReadonlyIndexSegment::load_from(&file.content, None, String::new(), 2, 1).unwrap();
    let mut segment = MutableIndexSegment::incremental(nameless);
    add_chain(&mut segment, 2..3);
    assert!(!segment.can_save());
    // A file that is squashed needs no name
    add_chain(&mut segment, 3..4);
    assert!(segment.can_save());
    assert!(merge_graph().can_save());
}

#[test]
fn squashing() {
    let level_sizes = |file: &Arc<ReadonlyIndexSegment>| {
        let stats = file.as_composite().stats();
        let sizes: Vec<u32> = stats.levels.iter().map(|level| level.num_commits).collect();
        sizes
    };
    let mut segment = MutableIndexSegment::full(2, 1);
    add_chain(&mut segment, 0..20);
    let bottom = new_file(segment).segment;

    // Fewer than half as many commits go on top
    let mut segment = MutableIndexSegment::incremental(bottom.clone());
    add_chain(&mut segment, 20..29);
    let upper = new_file(segment).segment;
    assert_eq!(level_sizes(&upper), [20, 9]);
    let stats = upper.as_composite().stats();
    assert_eq!(stats.levels[0].name, Some(bottom.name().to_string()));
    assert_eq!(stats.levels[1].name, Some(upper.name().to_string()));

    // So do half as many
    let mut segment = MutableIndexSegment::incremental(bottom.clone());
    add_chain(&mut segment, 20..30);
    assert_eq!(level_sizes(&new_file(segment).segment), [20, 10]);

    // More than half as many are squashed
    let mut segment = MutableIndexSegment::incremental(bottom);
    add_chain(&mut segment, 20..31);
    assert_eq!(level_sizes(&new_file(segment).segment), [31]);

    // The commits of a file that is squashed count for the next one
    let mut segment = MutableIndexSegment::incremental(upper.clone());
    add_chain(&mut segment, 29..33);
    assert_eq!(level_sizes(&new_file(segment).segment), [20, 9, 4]);
    let mut segment = MutableIndexSegment::incremental(upper.clone());
    add_chain(&mut segment, 29..34);
    let before = commits(segment.as_composite());
    let file = new_file(segment).segment;
    assert_eq!(level_sizes(&file), [34]);
    assert_eq!(commits(file.as_composite()), before);

    // What is in memory is a level without a name
    let mut segment = MutableIndexSegment::incremental(upper);
    add_chain(&mut segment, 29..30);
    let stats = segment.as_composite().stats();
    assert_eq!(stats.levels.len(), 3);
    assert_eq!(stats.levels[2].num_commits, 1);
    assert_eq!(stats.levels[2].name, None);
}

#[test]
fn few_files() {
    let mut file = new_file(MutableIndexSegment::full(2, 1)).segment;
    for number in 0..200 {
        let mut segment = MutableIndexSegment::incremental(file);
        add_chain(&mut segment, number..number + 1);
        file = new_file(segment).segment;
        let stats = file.as_composite().stats();
        assert_eq!(stats.num_commits, number as u32 + 1);
        assert!(1 << stats.levels.len() <= number as usize + 2);
    }
}

#[test]
fn same_commits_make_the_same_file() {
    let mut segment = merge_graph();
    segment.add_commit_data(id(3), change(99), &ids(&[5]));
    let file = new_file(segment);
    let other = new_file(merge_graph());
    assert_eq!(file.content, other.content);
    assert_eq!(file.name, other.name);
}

#[test]
fn adding_a_commit_twice() {
    let mut segment = merge_graph();
    let before = commits(segment.as_composite());
    segment.add_commit_data(id(3), change(99), &ids(&[5]));
    // The parents of a commit that is there need not be there
    segment.add_commit_data(id(0), change(99), &ids(&[77]));
    assert_eq!(commits(segment.as_composite()), before);
    let mut index = DefaultReadonlyIndex::new(new_file(segment).segment).start_modification();
    index.add_commit(&Commit {
        id: id(5),
        change_id: change(98),
        parent_ids: vec![],
    });
    assert_eq!(commits(index.as_composite()), before);
    index.add_commit(&Commit {
        id: id(6),
        change_id: change(6),
        parent_ids: ids(&[5, 0]),
    });
    assert_eq!(commits(index.as_composite())[..6], before);
    assert_eq!(
        commits(index.as_composite())[6],
        (id(6), change(6), 4, positions(&[5, 0]))
    );
}

#[test]
fn merging_indexes() {
    let mut segment = MutableIndexSegment::full(2, 1);
    add_chain(&mut segment, 0..10);
    let shared = DefaultReadonlyIndex::new(new_file(segment).segment);

    let mut left = shared.start_modification();
    left.add_commit_data(id(100), change(100), &ids(&[9]));
    left.add_commit_data(id(101), change(101), &ids(&[100]));
    let mut right = shared.start_modification();
    right.add_commit_data(id(200), change(200), &ids(&[5]));
    right.add_commit_data(id(100), change(100), &ids(&[9]));
    right.add_commit_data(id(201), change(201), &ids(&[200, 100]));
    let right = match right.save() {
        Ok(SaveAction::Write(file)) => DefaultReadonlyIndex::new(file.segment),
        _ => panic!("no file to write"),
    };

    assert!(left.can_merge(&right));
    left.merge_in(&right);
    let merged = commits(left.as_composite());
    assert_eq!(merged.len(), 14);
    assert_eq!(merged[..10], commits(shared.as_composite()));
    assert_eq!(merged[10].0, id(100));
    assert_eq!(merged[11].0, id(101));
    assert_eq!(merged[12], (id(200), change(200), 6, positions(&[5])));
    assert_eq!(merged[13], (id(201), change(201), 11, positions(&[12, 10])));
    // Once more, and what is there already
    left.merge_in(&right);
    assert_eq!(commits(left.as_composite()), merged);
    left.merge_in(&shared);
    assert_eq!(commits(left.as_composite()), merged);

    // Into an index without commits
    let mut empty = DefaultMutableIndex::full(2, 1);
    empty.merge_in(&right);
    assert_eq!(commits(empty.as_composite()), commits(right.as_composite()));
}

#[test]
fn merging_files_of_the_same_name() {
    // Two files with the same name but different commits
    let mut segment = MutableIndexSegment::full(2, 1);
    add_chain(&mut segment, 0..3);
    let file = new_file(segment);
    let mut segment = MutableIndexSegment::full(2, 1);
    segment.add_commit_data(id(70), change(70), &[]);
    segment.add_commit_data(id(71), change(71), &ids(&[70]));
    segment.add_commit_data(id(72), change(72), &ids(&[71]));
    let other = new_file(segment);
    let impostor =
        ReadonlyIndexSegment::load_from(&other.content, None, file.name, 2, 1).unwrap();
    let mut segment = MutableIndexSegment::incremental(file.segment);
    // It is taken to be there
    assert!(segment.can_merge(&impostor));
    segment.merge_in(impostor.clone());
    assert_eq!(segment.as_composite().num_commits(), 3);
    // A commit on top of it would lack its parent
    let mut upper = MutableIndexSegment::incremental(impostor);
    upper.add_commit_data(id(73), change(73), &ids(&[72]));
    let upper = new_file(upper).segment;
    assert!(!segment.can_merge(&upper));
    assert!(segment.can_merge(&other.segment));
    segment.merge_in(other.segment);
    assert_eq!(segment.as_composite().num_commits(), 6);
    // Now the parent is there
    assert!(segment.can_merge(&upper));
    segment.merge_in(upper);
    assert_eq!(segment.as_composite().num_commits(), 7);
}

#[test]
fn merging_own_files() {
    let mut segment = MutableIndexSegment::full(2, 1);
    add_chain(&mut segment, 0..20);
    let bottom = new_file(segment).segment;
    let mut segment = MutableIndexSegment::incremental(bottom.clone());
    add_chain(&mut segment, 20..25);
    let upper = new_file(segment).segment;
    let mut segment = MutableIndexSegment::incremental(upper.clone());
    add_chain(&mut segment, 25..27);
    let before = commits(segment.as_composite());
    assert!(segment.can_merge(&bottom));
    segment.merge_in(bottom);
    assert_eq!(commits(segment.as_composite()), before);
    assert!(segment.can_merge(&upper));
    segment.merge_in(upper);
    assert_eq!(commits(segment.as_composite()), before);
}

#[test]
fn loading_a_stack() {
    let mut segment = MutableIndexSegment::full(2, 1);
    add_chain(&mut segment, 0..20);
    let bottom = new_file(segment);
    let mut segment = MutableIndexSegment::incremental(bottom.segment);
    add_chain(&mut segment, 20..25);
    let top = new_file(segment);

    let mut loader = IndexLoader::new(2, 1);
    assert_eq!(
        loader.add_file(top.name.clone(), top.content.clone()).unwrap(),
        Some(bottom.name.clone())
    );
    assert_eq!(
        loader.add_file(bottom.name.clone(), bottom.content.clone()).unwrap(),
        None
    );
    assert!(loader.can_load());
    let loaded = loader.finish().unwrap();
    assert!(loaded.is_valid());
    assert_eq!(loaded.name(), top.name);
    assert_eq!(loaded.segment_num_parent_commits(), 20);
    assert_eq!(loaded.segment_num_commits(), 5);
    assert_eq!(loaded.segment_parent_file().unwrap().name(), bottom.name);
    assert_eq!(commits(loaded.as_composite()), commits(top.segment.as_composite()));

    // The error of the parent file comes first
    let mut loader = IndexLoader::new(2, 1);
    let mut longer = bottom.content.clone();
    longer.push(0);
    let shorter = top.content[..top.content.len() - 1].to_vec();
    loader.add_file(top.name.clone(), shorter.clone()).unwrap();
    loader.add_file(bottom.name.clone(), longer).unwrap();
    assert!(loader.can_load());
    match loader.finish() {
        Err(IndexLoadError::IndexCorrupt(name)) => assert_eq!(name, bottom.name),
        _ => panic!("loaded a file that is too long"),
    }
    let mut loader = IndexLoader::new(2, 1);
    loader.add_file(top.name.clone(), shorter).unwrap();
    loader.add_file(bottom.name, bottom.content).unwrap();
    match loader.finish() {
        Err(IndexLoadError::IndexCorrupt(name)) => assert_eq!(name, top.name),
        _ => panic!("loaded a file that is too short"),
    }
    let mut loader = IndexLoader::new(2, 1);
    assert!(matches!(
        loader.add_file("top".to_string(), vec![1, 0, 0]),
        Err(IndexLoadError::UnexpectedEof)
    ));
}

#[test]
fn wrong_content_below() {
    let mut segment = MutableIndexSegment::full(2, 1);
    add_chain(&mut segment, 0..20);
    let bottom = new_file(segment);
    let mut segment = MutableIndexSegment::incremental(bottom.segment);
    add_chain(&mut segment, 20..25);
    let top = new_file(segment);
    let mut content = bottom.content;
    // The root commit gets another generation number
    content[16] = 7;
    let mut loader = IndexLoader::new(2, 1);
    loader.add_file(top.name, top.content).unwrap();
    loader.add_file(bottom.name, content).unwrap();
    assert!(!loader.finish().unwrap().is_valid());
}

#[test]
fn ancestry() {
    let segment = merge_graph();
    let index = segment.as_composite();
    assert!(index.is_ancestor(&id(0), &id(5)));
    assert!(index.is_ancestor(&id(4), &id(4)));
    assert!(!index.is_ancestor(&id(3), &id(4)));
    assert!(!index.is_ancestor(&id(5), &id(0)));
    assert_eq!(index.common_ancestors(&ids(&[3]), &ids(&[4])), ids(&[0]));
    assert_eq!(index.common_ancestors(&ids(&[5]), &ids(&[4])), ids(&[4]));
    assert_eq!(index.common_ancestors(&ids(&[5, 1]), &ids(&[2, 3])), ids(&[2, 3]));
    assert_eq!(index.common_ancestors(&[], &ids(&[5])), vec![]);
    assert_eq!(index.heads(&ids(&[0, 1, 2, 3])), ids(&[1, 2, 3]));
    assert_eq!(index.heads(&ids(&[4, 3, 2, 1, 0, 4])), ids(&[3, 4]));
    assert_eq!(index.heads(&ids(&[0, 1, 2, 3, 4, 5])), ids(&[5]));
    assert_eq!(index.stats().num_heads, 1);
    assert_eq!(index.topo_order(&ids(&[5, 1, 3, 0])), ids(&[0, 1, 3, 5]));
    assert_eq!(index.topo_order(&ids(&[2, 2])), ids(&[2, 2]));
}

#[test]
fn queries_on_files() {
    let file = new_file(merge_graph());
    let index = DefaultReadonlyIndex::new(file.segment);
    let copy = index.clone();
    assert!(copy.has_id(&id(5)));
    assert!(!copy.has_id(&id(6)));
    assert!(copy.is_ancestor(&id(1), &id(5)));
    assert_eq!(copy.heads(&ids(&[3, 4])), ids(&[3, 4]));
    assert_eq!(copy.common_ancestors(&ids(&[1]), &ids(&[2])), ids(&[0]));
    assert_eq!(copy.topo_order(&ids(&[4, 0])), ids(&[0, 4]));
    assert_eq!(copy.shortest_unique_commit_id_prefix_len(&id(5)), 4);
    assert_eq!(
        copy.resolve_prefix(&HexPrefix::new("0003").unwrap()),
        PrefixResolution::SingleMatch(id(3))
    );
    assert_eq!(
        index.resolve_prefix(&HexPrefix::new("000").unwrap()),
        PrefixResolution::AmbiguousMatch
    );
}

#[test]
fn neighbors_and_shortest_prefixes() {
    let mut segment = MutableIndexSegment::full(2, 1);
    segment.add_commit_data(id(0x1234), change(0), &[]);
    segment.add_commit_data(id(0x1300), change(1), &[]);
    segment.add_commit_data(id(0x0fff), change(2), &[]);
    let index = segment.as_composite();
    // Each id is between the ones before and after it
    let neighbors = index.resolve_neighbor_commit_ids(&id(0x1234));
    assert_eq!(neighbors, (Some(id(0x0fff)), Some(id(0x1300))));
    assert_eq!(
        index.resolve_neighbor_commit_ids(&id(0x1300)),
        (Some(id(0x1234)), None)
    );
    assert_eq!(
        index.resolve_neighbor_commit_ids(&id(0x0000)),
        (None, Some(id(0x0fff)))
    );
    // The shortest prefix finds the commit
    for (number, len) in [(0x1234, 2), (0x1300, 2), (0x0fff, 1)] {
        assert_eq!(index.shortest_unique_commit_id_prefix_len(&id(number)), len);
        let prefix = &id(number).hex()[..len];
        assert_eq!(
            index.resolve_prefix(&HexPrefix::new(prefix).unwrap()),
            PrefixResolution::SingleMatch(id(number))
        );
    }
    assert_eq!(
        index.resolve_prefix(&HexPrefix::new("1").unwrap()),
        PrefixResolution::AmbiguousMatch
    );
    assert_eq!(
        index.resolve_prefix(&HexPrefix::new("").unwrap()),
        PrefixResolution::AmbiguousMatch
    );
    assert_eq!(
        index.resolve_prefix(&HexPrefix::new("12340").unwrap()),
        PrefixResolution::NoMatch
    );
    // No digit is needed where there is no other commit
    let mut segment = MutableIndexSegment::full(2, 1);
    segment.add_commit_data(id(0x1234), change(0), &[]);
    let index = segment.as_composite();
    assert_eq!(index.shortest_unique_commit_id_prefix_len(&id(0x1234)), 0);
}

#[test]
fn hexadecimal_digits() {
    assert_eq!(CommitId::from_hex("00Af9c").as_bytes(), [0x00, 0xaf, 0x9c]);
    assert_eq!(CommitId::from_hex("00Af9c").hex(), "00af9c");
    assert_eq!(CommitId::from_hex(&id(0x0b1e).hex()), id(0x0b1e));
    assert_eq!(CommitId::from_hex("").as_bytes(), []);
    assert_eq!(HexPrefix::new("12f").unwrap().min_prefix_bytes(), [0x12, 0xf0]);
    assert_eq!(HexPrefix::new("12F0").unwrap().min_prefix_bytes(), [0x12, 0xf0]);
    assert!(HexPrefix::new("12g").is_none());
    assert!(HexPrefix::new("\u{e9}").is_none());
    assert!(HexPrefix::new("12f").unwrap().matches(&id(0x12f7)));
    assert!(!HexPrefix::new("12f0").unwrap().matches(&id(0x12f7)));
    assert!(!HexPrefix::new("12f70").unwrap().matches(&id(0x12f7)));
}

#[test]
fn walks() {
    let segment = merge_graph();
    let index = segment.as_composite();
    let mut walk = index.walk_revs(&positions(&[5]), &positions(&[1]));
    let mut copy = walk.clone();
    assert_eq!(places(|| walk.next()), [5, 4, 3, 2]);
    assert!(walk.next().is_none());
    // The copy walks on its own
    assert_eq!(copy.next().unwrap().commit_id(), id(5));
    assert_eq!(places(|| copy.next()), [4, 3, 2]);
    // All generations are all commits of the walk
    let mut walk = index
        .walk_revs(&positions(&[5]), &positions(&[1]))
        .filter_by_generation(0..u32::MAX);
    let mut copy = walk.clone();
    assert_eq!(places(|| walk.next()), [5, 4, 3, 2]);
    assert_eq!(places(|| copy.next()), [5, 4, 3, 2]);
    let mut walk = index
        .walk_revs(&positions(&[5]), &[])
        .filter_by_generation(2..3);
    assert_eq!(places(|| walk.next()), [2, 1, 0]);
    let mut walk = index
        .walk_revs(&positions(&[5]), &[])
        .filter_by_generation(3..3);
    assert!(walk.next().is_none());
}

#[test]
fn walks_down_to_roots() {
    let segment = merge_graph();
    let index = segment.as_composite();
    let walk = || index.walk_revs(&positions(&[5]), &positions(&[0]));
    let visited = walk().take_until_roots(&positions(&[4, 2]));
    assert_eq!(
        visited.iter().map(|entry| entry.position()).collect::<Vec<_>>(),
        positions(&[5, 4, 3, 2])
    );
    assert_eq!(walk().take_until_roots(&[]).len(), 0);
}

#[test]
fn descendants_of_roots() {
    let segment = merge_graph();
    let index = segment.as_composite();
    let walk = || index.walk_revs(&positions(&[5]), &positions(&[2]));
    // Commits come before their descendants
    let mut descendants = walk().descendants(&positions(&[1]));
    let mut copy = descendants.clone();
    assert_eq!(places(|| descendants.next()), [1, 4, 5]);
    assert_eq!(copy.next().unwrap().position(), IndexPosition(1));
    let mut collected: Vec<u32> = copy.collect_positions_set().into_iter().collect();
    collected.sort();
    assert_eq!(collected, [1, 4, 5]);
    // A root that the walk does not visit has no descendants
    let mut descendants = walk().descendants(&positions(&[0]));
    assert!(descendants.next().is_none());
    // By generation, it counts if it is a parent of a commit that the walk visits
    let mut descendants = walk().descendants_filtered_by_generation(&positions(&[0]), 0..9);
    assert_eq!(places(|| descendants.next()), [0, 1, 3, 4, 5]);
    let unrelated = index.walk_revs(&positions(&[3]), &[]);
    let mut descendants =
        unrelated.descendants_filtered_by_generation(&positions(&[1]), 0..9);
    assert!(descendants.next().is_none());
    // All generations are all descendants, from the roots up
    let mut descendants = walk().descendants_filtered_by_generation(&positions(&[1]), 0..9);
    let mut copy = descendants.clone();
    assert_eq!(places(|| descendants.next()), [1, 4, 5]);
    assert_eq!(places(|| copy.next()), [1, 4, 5]);
    let mut descendants = walk().descendants_filtered_by_generation(&positions(&[1, 3]), 1..2);
    assert_eq!(places(|| descendants.next()), [4, 5]);
}

#[test]
fn order_of_entries() {
    let segment = merge_graph();
    let index = segment.as_composite();
    let first = index.entry_by_pos(IndexPosition(1));
    let second = index.entry_by_id(&id(2)).unwrap();
    assert!(first == index.entry_by_id(&id(1)).unwrap());
    assert!(first != second);
    assert!(IndexEntryByPosition(first) < IndexEntryByPosition(second));
    assert!(IndexEntryByPosition(first) == IndexEntryByPosition(first));
    assert_eq!(second.parents().len(), 1);
    assert!(second.parents()[0] == index.entry_by_pos(IndexPosition(0)));
}

#[test]
fn numbers_of_an_index() {
    let mut segment = merge_graph();
    segment.add_commit_data(id(6), change(5), &ids(&[0, 1, 2]));
    let stats = segment.as_composite().stats();
    assert_eq!(stats.num_commits, 7);
    assert_eq!(stats.num_heads, 2);
    assert_eq!(stats.max_generation_number, 3);
    assert_eq!(stats.num_merges, 3);
    assert_eq!(stats.num_changes, 6);
    assert_eq!(segment.segment_num_commits(), 7);
    assert_eq!(segment.segment_num_parent_commits(), 0);
    assert!(segment.segment_parent_file().is_none());
}
