use default_index::composite::CompositeIndex;
use default_index::entry::{IndexEntry, SegmentRef};
use default_index::ids::{ChangeId, CommitId, HexPrefix, PrefixResolution};
use default_index::index::DefaultMutableIndex;
use default_index::mutable::MutableIndexSegment;
use default_index::positions::IndexPosition;
use default_index::readonly::ReadonlyIndexSegment;
use default_index::save::SaveAction;
use default_index::segment::IndexSegment;
use std::ops::Range;
use std::sync::Arc;

/// Generator of unique 16-byte ChangeId excluding root id
fn change_id_generator() -> impl FnMut() -> ChangeId {
    let mut iter = (1_u128..).map(|n| ChangeId::new(n.to_le_bytes().into()));
    move || iter.next().unwrap()
}

fn to_positions_vec(index: CompositeIndex<'_>, commit_ids: &[CommitId]) -> Vec<IndexPosition> {
    commit_ids
        .iter()
        .map(|id| index.commit_id_to_pos(id).unwrap())
        .collect()
}

/// Saves the segment and loads it back from the bytes of its file.
fn save(segment: MutableIndexSegment) -> Arc<ReadonlyIndexSegment> {
    match segment.save() {
        Ok(SaveAction::Keep(file)) => file,
        Ok(SaveAction::Write(file)) => {
            let parent = file.segment.segment_parent_file().cloned();
            ReadonlyIndexSegment::load_from(&file.content, parent, file.name, 3, 16).unwrap()
        }
        Err(_) => panic!("cannot save"),
    }
}

fn ids_of<'a>(mut next: impl FnMut() -> Option<IndexEntry<'a>>) -> Vec<CommitId> {
    let mut ids = vec![];
    while let Some(entry) = next() {
        ids.push(entry.commit_id());
    }
    ids
}

fn check_index_empty(on_disk: bool) {
    let mutable_segment = MutableIndexSegment::full(3, 16);
    let saved_index;
    let index_segment = if on_disk {
        saved_index = save(mutable_segment);
        SegmentRef::Readonly(&saved_index)
    } else {
        SegmentRef::Mutable(&mutable_segment)
    };
    let index = CompositeIndex::of_segment(index_segment);

    // Stats are as expected
    let stats = index.stats();
    assert_eq!(stats.num_commits, 0);
    assert_eq!(stats.num_heads, 0);
    assert_eq!(stats.max_generation_number, 0);
    assert_eq!(stats.num_merges, 0);
    assert_eq!(stats.num_changes, 0);
    assert_eq!(index.num_commits(), 0);
    // Cannot find any commits
    assert!(index.entry_by_id(&CommitId::from_hex("000000")).is_none());
    assert!(index.entry_by_id(&CommitId::from_hex("aaa111")).is_none());
    assert!(index.entry_by_id(&CommitId::from_hex("ffffff")).is_none());
}

#[test]
fn index_empty_memory() {
    check_index_empty(false);
}

#[test]
fn index_empty_file() {
    check_index_empty(true);
}

fn check_index_root_commit(on_disk: bool) {
    let mut new_change_id = change_id_generator();
    let mut mutable_segment = MutableIndexSegment::full(3, 16);
    let id_0 = CommitId::from_hex("000000");
    let change_id0 = new_change_id();
    mutable_segment.add_commit_data(id_0.clone(), change_id0.clone(), &[]);
    let saved_index;
    let index_segment = if on_disk {
        saved_index = save(mutable_segment);
        SegmentRef::Readonly(&saved_index)
    } else {
        SegmentRef::Mutable(&mutable_segment)
    };
    let index = CompositeIndex::of_segment(index_segment);

    // Stats are as expected
    let stats = index.stats();
    assert_eq!(stats.num_commits, 1);
    assert_eq!(stats.num_heads, 1);
    assert_eq!(stats.max_generation_number, 0);
    assert_eq!(stats.num_merges, 0);
    assert_eq!(stats.num_changes, 1);
    assert_eq!(index.num_commits(), 1);
    // Can find only the root commit
    assert_eq!(index.commit_id_to_pos(&id_0), Some(IndexPosition(0)));
    assert_eq!(index.commit_id_to_pos(&CommitId::from_hex("aaaaaa")), None);
    assert_eq!(index.commit_id_to_pos(&CommitId::from_hex("ffffff")), None);
    // Check properties of root entry
    let entry = index.entry_by_id(&id_0).unwrap();
    assert_eq!(entry.position(), IndexPosition(0));
    assert_eq!(entry.commit_id(), id_0);
    assert_eq!(entry.change_id(), change_id0);
    assert_eq!(entry.generation_number(), 0);
    assert_eq!(entry.num_parents(), 0);
    assert_eq!(entry.parent_positions().to_vec(), vec![]);
    assert_eq!(entry.parents().len(), 0);
}

#[test]
fn index_root_commit_memory() {
    check_index_root_commit(false);
}

#[test]
fn index_root_commit_file() {
    check_index_root_commit(true);
}

#[test]
#[should_panic(expected = "parent commit is not indexed")]
fn index_missing_parent_commit() {
    let mut new_change_id = change_id_generator();
    let mut index = DefaultMutableIndex::full(3, 16);
    let id_0 = CommitId::from_hex("000000");
    let id_1 = CommitId::from_hex("111111");
    index.add_commit_data(id_1, new_change_id(), &[id_0]);
}

fn check_index_multiple_commits(incremental: bool, on_disk: bool) {
    let mut new_change_id = change_id_generator();
    let mut mutable_segment = MutableIndexSegment::full(3, 16);
    // 5
    // |\
    // 4 | 3
    // | |/
    // 1 2
    // |/
    // 0
    let id_0 = CommitId::from_hex("000000");
    let change_id0 = new_change_id();
    let id_1 = CommitId::from_hex("111111");
    let change_id1 = new_change_id();
    let id_2 = CommitId::from_hex("222222");
    let change_id2 = change_id1.clone();
    mutable_segment.add_commit_data(id_0.clone(), change_id0, &[]);
    mutable_segment.add_commit_data(id_1.clone(), change_id1.clone(), &[id_0.clone()]);
    mutable_segment.add_commit_data(id_2.clone(), change_id2.clone(), &[id_0.clone()]);

    // If testing incremental indexing, write the first three commits to one file
    // now and build the remainder as another segment on top.
    if incremental {
        let initial_file = save(mutable_segment);
        mutable_segment = MutableIndexSegment::incremental(initial_file);
    }

    let id_3 = CommitId::from_hex("333333");
    let change_id3 = new_change_id();
    let id_4 = CommitId::from_hex("444444");
    let change_id4 = new_change_id();
    let id_5 = CommitId::from_hex("555555");
    let change_id5 = change_id3.clone();
    mutable_segment.add_commit_data(id_3.clone(), change_id3.clone(), &[id_2.clone()]);
    mutable_segment.add_commit_data(id_4.clone(), change_id4, &[id_1.clone()]);
    mutable_segment.add_commit_data(id_5.clone(), change_id5, &[id_4.clone(), id_2.clone()]);
    let saved_index;
    let index_segment = if on_disk {
        saved_index = save(mutable_segment);
        SegmentRef::Readonly(&saved_index)
    } else {
        SegmentRef::Mutable(&mutable_segment)
    };
    let index = CompositeIndex::of_segment(index_segment);

    // Stats are as expected
    let stats = index.stats();
    assert_eq!(stats.num_commits, 6);
    assert_eq!(stats.num_heads, 2);
    assert_eq!(stats.max_generation_number, 3);
    assert_eq!(stats.num_merges, 1);
    assert_eq!(stats.num_changes, 4);
    assert_eq!(index.num_commits(), 6);
    // Can find all the commits
    let entry_0 = index.entry_by_id(&id_0).unwrap();
    let entry_1 = index.entry_by_id(&id_1).unwrap();
    let entry_2 = index.entry_by_id(&id_2).unwrap();
    let entry_3 = index.entry_by_id(&id_3).unwrap();
    let entry_4 = index.entry_by_id(&id_4).unwrap();
    let entry_5 = index.entry_by_id(&id_5).unwrap();
    // Check properties of some entries
    assert_eq!(entry_0.position(), IndexPosition(0));
    assert_eq!(entry_0.commit_id(), id_0);
    assert_eq!(entry_1.position(), IndexPosition(1));
    assert_eq!(entry_1.commit_id(), id_1);
    assert_eq!(entry_1.change_id(), change_id1);
    assert_eq!(entry_1.generation_number(), 1);
    assert_eq!(entry_1.num_parents(), 1);
    assert_eq!(
        entry_1.parent_positions().to_vec(),
        vec![IndexPosition(0)]
    );
    assert_eq!(entry_1.parents().len(), 1);
    assert_eq!(entry_1.parents()[0].position(), IndexPosition(0));
    assert_eq!(entry_2.position(), IndexPosition(2));
    assert_eq!(entry_2.commit_id(), id_2);
    assert_eq!(entry_2.change_id(), change_id2);
    assert_eq!(entry_2.generation_number(), 1);
    assert_eq!(entry_2.num_parents(), 1);
    assert_eq!(
        entry_2.parent_positions().to_vec(),
        vec![IndexPosition(0)]
    );
    assert_eq!(entry_3.change_id(), change_id3);
    assert_eq!(entry_3.generation_number(), 2);
    assert_eq!(
        entry_3.parent_positions().to_vec(),
        vec![IndexPosition(2)]
    );
    assert_eq!(entry_4.position(), IndexPosition(4));
    assert_eq!(entry_4.generation_number(), 2);
    assert_eq!(entry_4.num_parents(), 1);
    assert_eq!(
        entry_4.parent_positions().to_vec(),
        vec![IndexPosition(1)]
    );
    assert_eq!(entry_5.generation_number(), 3);
    assert_eq!(entry_5.num_parents(), 2);
    assert_eq!(
        entry_5.parent_positions().to_vec(),
        vec![IndexPosition(4), IndexPosition(2)]
    );
    assert_eq!(entry_5.parents().len(), 2);
    assert_eq!(entry_5.parents()[0].position(), IndexPosition(4));
    assert_eq!(entry_5.parents()[1].position(), IndexPosition(2));
}

#[test]
fn index_multiple_commits_full_in_memory() {
    check_index_multiple_commits(false, false);
}

#[test]
fn index_multiple_commits_full_on_disk() {
    check_index_multiple_commits(false, true);
}

#[test]
fn index_multiple_commits_incremental_in_memory() {
    check_index_multiple_commits(true, false);
}

#[test]
fn index_multiple_commits_incremental_on_disk() {
    check_index_multiple_commits(true, true);
}

fn check_index_many_parents(on_disk: bool) {
    let mut new_change_id = change_id_generator();
    let mut mutable_segment = MutableIndexSegment::full(3, 16);
    //     6
    //    /|\
    //   / | \
    //  / /|\ \
    // 1 2 3 4 5
    //  \ \|/ /
    //   \ | /
    //    \|/
    //     0
    let id_0 = CommitId::from_hex("000000");
    let id_1 = CommitId::from_hex("111111");
    let id_2 = CommitId::from_hex("222222");
    let id_3 = CommitId::from_hex("333333");
    let id_4 = CommitId::from_hex("444444");
    let id_5 = CommitId::from_hex("555555");
    let id_6 = CommitId::from_hex("666666");
    mutable_segment.add_commit_data(id_0.clone(), new_change_id(), &[]);
    mutable_segment.add_commit_data(id_1.clone(), new_change_id(), &[id_0.clone()]);
    mutable_segment.add_commit_data(id_2.clone(), new_change_id(), &[id_0.clone()]);
    mutable_segment.add_commit_data(id_3.clone(), new_change_id(), &[id_0.clone()]);
    mutable_segment.add_commit_data(id_4.clone(), new_change_id(), &[id_0.clone()]);
    mutable_segment.add_commit_data(id_5.clone(), new_change_id(), &[id_0]);
    mutable_segment.add_commit_data(
        id_6.clone(),
        new_change_id(),
        &[id_1, id_2, id_3, id_4, id_5],
    );
    let saved_index;
    let index_segment = if on_disk {
        saved_index = save(mutable_segment);
        SegmentRef::Readonly(&saved_index)
    } else {
        SegmentRef::Mutable(&mutable_segment)
    };
    let index = CompositeIndex::of_segment(index_segment);

    // Stats are as expected
    let stats = index.stats();
    assert_eq!(stats.num_commits, 7);
    assert_eq!(stats.num_heads, 1);
    assert_eq!(stats.max_generation_number, 2);
    assert_eq!(stats.num_merges, 1);

    // The octopus merge has the right parents
    let entry_6 = index.entry_by_id(&id_6).unwrap();
    assert_eq!(entry_6.commit_id(), id_6.clone());
    assert_eq!(entry_6.num_parents(), 5);
    assert_eq!(
        entry_6.parent_positions().to_vec(),
        vec![
            IndexPosition(1),
            IndexPosition(2),
            IndexPosition(3),
            IndexPosition(4),
            IndexPosition(5),
        ]
    );
    assert_eq!(entry_6.generation_number(), 2);
}

#[test]
fn index_many_parents_in_memory() {
    check_index_many_parents(false);
}

#[test]
fn index_many_parents_on_disk() {
    check_index_many_parents(true);
}

#[test]
fn resolve_prefix() {
    let mut new_change_id = change_id_generator();
    let mut mutable_segment = MutableIndexSegment::full(3, 16);

    // Create some commits with different various common prefixes.
    let id_0 = CommitId::from_hex("000000");
    let id_1 = CommitId::from_hex("009999");
    let id_2 = CommitId::from_hex("055488");
    mutable_segment.add_commit_data(id_0.clone(), new_change_id(), &[]);
    mutable_segment.add_commit_data(id_1.clone(), new_change_id(), &[]);
    mutable_segment.add_commit_data(id_2.clone(), new_change_id(), &[]);

    // Write the first three commits to one file and build the remainder on top.
    let initial_file = save(mutable_segment);
    mutable_segment = MutableIndexSegment::incremental(initial_file);

    let id_3 = CommitId::from_hex("055444");
    let id_4 = CommitId::from_hex("055555");
    let id_5 = CommitId::from_hex("033333");
    mutable_segment.add_commit_data(id_3, new_change_id(), &[]);
    mutable_segment.add_commit_data(id_4, new_change_id(), &[]);
    mutable_segment.add_commit_data(id_5, new_change_id(), &[]);

    let index = mutable_segment.as_composite();

    // Can find commits given the full hex number
    assert_eq!(
        index.resolve_prefix(&HexPrefix::new(&id_0.hex()).unwrap()),
        PrefixResolution::SingleMatch(id_0)
    );
    assert_eq!(
        index.resolve_prefix(&HexPrefix::new(&id_1.hex()).unwrap()),
        PrefixResolution::SingleMatch(id_1)
    );
    assert_eq!(
        index.resolve_prefix(&HexPrefix::new(&id_2.hex()).unwrap()),
        PrefixResolution::SingleMatch(id_2)
    );
    // Test nonexistent commits
    assert_eq!(
        index.resolve_prefix(&HexPrefix::new("ffffff").unwrap()),
        PrefixResolution::NoMatch
    );
    assert_eq!(
        index.resolve_prefix(&HexPrefix::new("000001").unwrap()),
        PrefixResolution::NoMatch
    );
    // Test ambiguous prefix
    assert_eq!(
        index.resolve_prefix(&HexPrefix::new("0").unwrap()),
        PrefixResolution::AmbiguousMatch
    );
    // Test a globally unique prefix in initial part
    assert_eq!(
        index.resolve_prefix(&HexPrefix::new("009").unwrap()),
        PrefixResolution::SingleMatch(CommitId::from_hex("009999"))
    );
    // Test a globally unique prefix in incremental part
    assert_eq!(
        index.resolve_prefix(&HexPrefix::new("03").unwrap()),
        PrefixResolution::SingleMatch(CommitId::from_hex("033333"))
    );
    // Test a locally unique but globally ambiguous prefix
    assert_eq!(
        index.resolve_prefix(&HexPrefix::new("0554").unwrap()),
        PrefixResolution::AmbiguousMatch
    );
}

#[test]
fn neighbor_commit_ids() {
    let mut new_change_id = change_id_generator();
    let mut mutable_segment = MutableIndexSegment::full(3, 16);

    // Create some commits with different various common prefixes.
    let id_0 = CommitId::from_hex("000001");
    let id_1 = CommitId::from_hex("009999");
    let id_2 = CommitId::from_hex("055488");
    mutable_segment.add_commit_data(id_0.clone(), new_change_id(), &[]);
    mutable_segment.add_commit_data(id_1.clone(), new_change_id(), &[]);
    mutable_segment.add_commit_data(id_2.clone(), new_change_id(), &[]);

    // Write the first three commits to one file and build the remainder on top.
    let initial_file = save(mutable_segment);
    mutable_segment = MutableIndexSegment::incremental(initial_file.clone());

    let id_3 = CommitId::from_hex("055444");
    let id_4 = CommitId::from_hex("055555");
    let id_5 = CommitId::from_hex("033333");
    mutable_segment.add_commit_data(id_3.clone(), new_change_id(), &[]);
    mutable_segment.add_commit_data(id_4.clone(), new_change_id(), &[]);
    mutable_segment.add_commit_data(id_5.clone(), new_change_id(), &[]);

    // Local lookup in readonly index, commit_id exists.
    assert_eq!(
        initial_file.segment_commit_id_to_neighbor_positions(&id_0),
        (None, Some(IndexPosition(1))),
    );
    assert_eq!(
        initial_file.segment_commit_id_to_neighbor_positions(&id_1),
        (Some(IndexPosition(0)), Some(IndexPosition(2))),
    );
    assert_eq!(
        initial_file.segment_commit_id_to_neighbor_positions(&id_2),
        (Some(IndexPosition(1)), None),
    );

    // Local lookup in readonly index, commit_id does not exist.
    assert_eq!(
        initial_file.segment_commit_id_to_neighbor_positions(&CommitId::from_hex("000000")),
        (None, Some(IndexPosition(0))),
    );
    assert_eq!(
        initial_file.segment_commit_id_to_neighbor_positions(&CommitId::from_hex("000002")),
        (Some(IndexPosition(0)), Some(IndexPosition(1))),
    );
    assert_eq!(
        initial_file.segment_commit_id_to_neighbor_positions(&CommitId::from_hex("ffffff")),
        (Some(IndexPosition(2)), None),
    );

    // Local lookup in mutable index, commit_id exists. id_5 < id_3 < id_4
    assert_eq!(
        mutable_segment.segment_commit_id_to_neighbor_positions(&id_5),
        (None, Some(IndexPosition(3))),
    );
    assert_eq!(
        mutable_segment.segment_commit_id_to_neighbor_positions(&id_3),
        (Some(IndexPosition(5)), Some(IndexPosition(4))),
    );
    assert_eq!(
        mutable_segment.segment_commit_id_to_neighbor_positions(&id_4),
        (Some(IndexPosition(3)), None),
    );

    // Local lookup in mutable index, commit_id does not exist. id_5 < id_3 < id_4
    assert_eq!(
        mutable_segment.segment_commit_id_to_neighbor_positions(&CommitId::from_hex("033332")),
        (None, Some(IndexPosition(5))),
    );
    assert_eq!(
        mutable_segment.segment_commit_id_to_neighbor_positions(&CommitId::from_hex("033334")),
        (Some(IndexPosition(5)), Some(IndexPosition(3))),
    );
    assert_eq!(
        mutable_segment.segment_commit_id_to_neighbor_positions(&CommitId::from_hex("ffffff")),
        (Some(IndexPosition(4)), None),
    );

    // Global lookup, commit_id exists. id_0 < id_1 < id_5 < id_3 < id_2 < id_4
    let composite_index = CompositeIndex::of_mutable(&mutable_segment);
    assert_eq!(
        composite_index.resolve_neighbor_commit_ids(&id_0),
        (None, Some(id_1.clone())),
    );
    assert_eq!(
        composite_index.resolve_neighbor_commit_ids(&id_1),
        (Some(id_0.clone()), Some(id_5.clone())),
    );
    assert_eq!(
        composite_index.resolve_neighbor_commit_ids(&id_5),
        (Some(id_1.clone()), Some(id_3.clone())),
    );
    assert_eq!(
        composite_index.resolve_neighbor_commit_ids(&id_3),
        (Some(id_5.clone()), Some(id_2.clone())),
    );
    assert_eq!(
        composite_index.resolve_neighbor_commit_ids(&id_2),
        (Some(id_3.clone()), Some(id_4.clone())),
    );
    assert_eq!(
        composite_index.resolve_neighbor_commit_ids(&id_4),
        (Some(id_2.clone()), None),
    );

    // Global lookup, commit_id doesn't exist. id_0 < id_1 < id_5 < id_3 < id_2 <
    // id_4
    assert_eq!(
        composite_index.resolve_neighbor_commit_ids(&CommitId::from_hex("000000")),
        (None, Some(id_0.clone())),
    );
    assert_eq!(
        composite_index.resolve_neighbor_commit_ids(&CommitId::from_hex("010000")),
        (Some(id_1.clone()), Some(id_5.clone())),
    );
    assert_eq!(
        composite_index.resolve_neighbor_commit_ids(&CommitId::from_hex("033334")),
        (Some(id_5.clone()), Some(id_3.clone())),
    );
    assert_eq!(
        composite_index.resolve_neighbor_commit_ids(&CommitId::from_hex("ffffff")),
        (Some(id_4.clone()), None),
    );
}

#[test]
fn shortest_unique_commit_id_prefix() {
    let mut new_change_id = change_id_generator();
    let mut mutable_segment = MutableIndexSegment::full(3, 16);

    // Create some commits with different various common prefixes.
    let id_0 = CommitId::from_hex("000001");
    let id_1 = CommitId::from_hex("009999");
    let id_2 = CommitId::from_hex("055488");
    mutable_segment.add_commit_data(id_0.clone(), new_change_id(), &[]);
    mutable_segment.add_commit_data(id_1.clone(), new_change_id(), &[]);
    mutable_segment.add_commit_data(id_2.clone(), new_change_id(), &[]);

    // Write the first three commits to one file and build the remainder on top.
    let initial_file = save(mutable_segment);
    mutable_segment = MutableIndexSegment::incremental(initial_file);

    let id_3 = CommitId::from_hex("055444");
    let id_4 = CommitId::from_hex("055555");
    let id_5 = CommitId::from_hex("033333");
    mutable_segment.add_commit_data(id_3.clone(), new_change_id(), &[]);
    mutable_segment.add_commit_data(id_4.clone(), new_change_id(), &[]);
    mutable_segment.add_commit_data(id_5.clone(), new_change_id(), &[]);

    let index = mutable_segment.as_composite();

    // Public API: calculate shortest unique prefix len with known commit_id
    assert_eq!(index.shortest_unique_commit_id_prefix_len(&id_0), 3);
    assert_eq!(index.shortest_unique_commit_id_prefix_len(&id_1), 3);
    assert_eq!(index.shortest_unique_commit_id_prefix_len(&id_2), 5);
    assert_eq!(index.shortest_unique_commit_id_prefix_len(&id_3), 5);
    assert_eq!(index.shortest_unique_commit_id_prefix_len(&id_4), 4);
    assert_eq!(index.shortest_unique_commit_id_prefix_len(&id_5), 2);

    // Public API: calculate shortest unique prefix len with unknown commit_id
    assert_eq!(
        index.shortest_unique_commit_id_prefix_len(&CommitId::from_hex("000002")),
        6
    );
    assert_eq!(
        index.shortest_unique_commit_id_prefix_len(&CommitId::from_hex("010000")),
        2
    );
    assert_eq!(
        index.shortest_unique_commit_id_prefix_len(&CommitId::from_hex("033334")),
        6
    );
    assert_eq!(
        index.shortest_unique_commit_id_prefix_len(&CommitId::from_hex("ffffff")),
        1
    );
}

#[test]
fn test_is_ancestor() {
    let mut new_change_id = change_id_generator();
    let mut index = DefaultMutableIndex::full(3, 16);
    // 5
    // |\
    // 4 | 3
    // | |/
    // 1 2
    // |/
    // 0
    let id_0 = CommitId::from_hex("000000");
    let id_1 = CommitId::from_hex("111111");
    let id_2 = CommitId::from_hex("222222");
    let id_3 = CommitId::from_hex("333333");
    let id_4 = CommitId::from_hex("444444");
    let id_5 = CommitId::from_hex("555555");
    index.add_commit_data(id_0.clone(), new_change_id(), &[]);
    index.add_commit_data(id_1.clone(), new_change_id(), &[id_0.clone()]);
    index.add_commit_data(id_2.clone(), new_change_id(), &[id_0.clone()]);
    index.add_commit_data(id_3.clone(), new_change_id(), &[id_2.clone()]);
    index.add_commit_data(id_4.clone(), new_change_id(), &[id_1.clone()]);
    index.add_commit_data(id_5.clone(), new_change_id(), &[id_4.clone(), id_2.clone()]);

    assert!(index.is_ancestor(&id_0, &id_0));
    assert!(index.is_ancestor(&id_0, &id_1));
    assert!(index.is_ancestor(&id_2, &id_3));
    assert!(index.is_ancestor(&id_2, &id_5));
    assert!(index.is_ancestor(&id_1, &id_5));
    assert!(index.is_ancestor(&id_0, &id_5));
    assert!(!index.is_ancestor(&id_1, &id_0));
    assert!(!index.is_ancestor(&id_5, &id_3));
    assert!(!index.is_ancestor(&id_3, &id_5));
    assert!(!index.is_ancestor(&id_2, &id_4));
    assert!(!index.is_ancestor(&id_4, &id_2));
}

#[test]
fn test_common_ancestors() {
    let mut new_change_id = change_id_generator();
    let mut index = DefaultMutableIndex::full(3, 16);
    // 5
    // |\
    // 4 |
    // | |
    // 1 2 3
    // | |/
    // |/
    // 0
    let id_0 = CommitId::from_hex("000000");
    let id_1 = CommitId::from_hex("111111");
    let id_2 = CommitId::from_hex("222222");
    let id_3 = CommitId::from_hex("333333");
    let id_4 = CommitId::from_hex("444444");
    let id_5 = CommitId::from_hex("555555");
    index.add_commit_data(id_0.clone(), new_change_id(), &[]);
    index.add_commit_data(id_1.clone(), new_change_id(), &[id_0.clone()]);
    index.add_commit_data(id_2.clone(), new_change_id(), &[id_0.clone()]);
    index.add_commit_data(id_3.clone(), new_change_id(), &[id_0.clone()]);
    index.add_commit_data(id_4.clone(), new_change_id(), &[id_1.clone()]);
    index.add_commit_data(id_5.clone(), new_change_id(), &[id_4.clone(), id_2.clone()]);

    assert_eq!(
        index.common_ancestors(&[id_0.clone()], &[id_0.clone()]),
        vec![id_0.clone()]
    );
    assert_eq!(
        index.common_ancestors(&[id_5.clone()], &[id_5.clone()]),
        vec![id_5.clone()]
    );
    assert_eq!(
        index.common_ancestors(&[id_1.clone()], &[id_2.clone()]),
        vec![id_0.clone()]
    );
    assert_eq!(
        index.common_ancestors(&[id_2.clone()], &[id_1.clone()]),
        vec![id_0.clone()]
    );
    assert_eq!(
        index.common_ancestors(&[id_1.clone()], &[id_4.clone()]),
        vec![id_1.clone()]
    );
    assert_eq!(
        index.common_ancestors(&[id_4.clone()], &[id_1.clone()]),
        vec![id_1.clone()]
    );
    assert_eq!(
        index.common_ancestors(&[id_3.clone()], &[id_5.clone()]),
        vec![id_0.clone()]
    );
    assert_eq!(
        index.common_ancestors(&[id_5.clone()], &[id_3.clone()]),
        vec![id_0.clone()]
    );

    // With multiple commits in an input set
    assert_eq!(
        index.common_ancestors(&[id_0.clone(), id_1.clone()], &[id_0.clone()]),
        vec![id_0.clone()]
    );
    assert_eq!(
        index.common_ancestors(&[id_0.clone(), id_1.clone()], &[id_1.clone()]),
        vec![id_1.clone()]
    );
    assert_eq!(
        index.common_ancestors(&[id_1.clone(), id_2.clone()], &[id_1.clone()]),
        vec![id_1.clone()]
    );
    assert_eq!(
        index.common_ancestors(&[id_1.clone(), id_2.clone()], &[id_4]),
        vec![id_1.clone()]
    );
    assert_eq!(
        index.common_ancestors(&[id_1.clone(), id_2.clone()], &[id_5]),
        vec![id_1.clone(), id_2.clone()]
    );
    assert_eq!(index.common_ancestors(&[id_1, id_2], &[id_3]), vec![id_0]);
}

#[test]
fn test_common_ancestors_criss_cross() {
    let mut new_change_id = change_id_generator();
    let mut index = DefaultMutableIndex::full(3, 16);
    // 3 4
    // |X|
    // 1 2
    // |/
    // 0
    let id_0 = CommitId::from_hex("000000");
    let id_1 = CommitId::from_hex("111111");
    let id_2 = CommitId::from_hex("222222");
    let id_3 = CommitId::from_hex("333333");
    let id_4 = CommitId::from_hex("444444");
    index.add_commit_data(id_0.clone(), new_change_id(), &[]);
    index.add_commit_data(id_1.clone(), new_change_id(), &[id_0.clone()]);
    index.add_commit_data(id_2.clone(), new_change_id(), &[id_0]);
    index.add_commit_data(id_3.clone(), new_change_id(), &[id_1.clone(), id_2.clone()]);
    index.add_commit_data(id_4.clone(), new_change_id(), &[id_1.clone(), id_2.clone()]);

    let mut common_ancestors = index.common_ancestors(&[id_3], &[id_4]);
    common_ancestors.sort();
    assert_eq!(common_ancestors, vec![id_1, id_2]);
}

#[test]
fn test_common_ancestors_merge_with_ancestor() {
    let mut new_change_id = change_id_generator();
    let mut index = DefaultMutableIndex::full(3, 16);
    // 4   5
    // |\ /|
    // 1 2 3
    //  \|/
    //   0
    let id_0 = CommitId::from_hex("000000");
    let id_1 = CommitId::from_hex("111111");
    let id_2 = CommitId::from_hex("222222");
    let id_3 = CommitId::from_hex("333333");
    let id_4 = CommitId::from_hex("444444");
    let id_5 = CommitId::from_hex("555555");
    index.add_commit_data(id_0.clone(), new_change_id(), &[]);
    index.add_commit_data(id_1, new_change_id(), &[id_0.clone()]);
    index.add_commit_data(id_2.clone(), new_change_id(), &[id_0.clone()]);
    index.add_commit_data(id_3, new_change_id(), &[id_0.clone()]);
    index.add_commit_data(id_4.clone(), new_change_id(), &[id_0.clone(), id_2.clone()]);
    index.add_commit_data(id_5.clone(), new_change_id(), &[id_0, id_2.clone()]);

    let mut common_ancestors = index.common_ancestors(&[id_4], &[id_5]);
    common_ancestors.sort();
    assert_eq!(common_ancestors, vec![id_2]);
}

#[test]
fn test_walk_revs() {
    let mut new_change_id = change_id_generator();
    let mut index = DefaultMutableIndex::full(3, 16);
    // 5
    // |\
    // 4 | 3
    // | |/
    // 1 2
    // |/
    // 0
    let id_0 = CommitId::from_hex("000000");
    let id_1 = CommitId::from_hex("111111");
    let id_2 = CommitId::from_hex("222222");
    let id_3 = CommitId::from_hex("333333");
    let id_4 = CommitId::from_hex("444444");
    let id_5 = CommitId::from_hex("555555");
    index.add_commit_data(id_0.clone(), new_change_id(), &[]);
    index.add_commit_data(id_1.clone(), new_change_id(), &[id_0.clone()]);
    index.add_commit_data(id_2.clone(), new_change_id(), &[id_0.clone()]);
    index.add_commit_data(id_3.clone(), new_change_id(), &[id_2.clone()]);
    index.add_commit_data(id_4.clone(), new_change_id(), &[id_1.clone()]);
    index.add_commit_data(id_5.clone(), new_change_id(), &[id_4.clone(), id_2.clone()]);

    let walk_commit_ids = |wanted: &[CommitId], unwanted: &[CommitId]| {
        let index = index.as_composite();
        let wanted_positions = to_positions_vec(index, wanted);
        let unwanted_positions = to_positions_vec(index, unwanted);
        let mut walk = index
            .walk_revs(&wanted_positions, &unwanted_positions);
        ids_of(|| walk.next())
    };

    // No wanted commits
    assert!(walk_commit_ids(&[], &[]).is_empty());
    // Simple linear walk to roo
    assert_eq!(
        walk_commit_ids(&[id_4.clone()], &[]),
        vec![id_4.clone(), id_1.clone(), id_0.clone()]
    );
    // Commits that are both wanted and unwanted are not walked
    assert_eq!(walk_commit_ids(&[id_0.clone()], &[id_0.clone()]), vec![]);
    // Commits that are listed twice are only walked once
    assert_eq!(
        walk_commit_ids(&[id_0.clone(), id_0.clone()], &[]),
        vec![id_0.clone()]
    );
    // If a commit and its ancestor are both wanted, the ancestor still gets walked
    // only once
    assert_eq!(
        walk_commit_ids(&[id_0.clone(), id_1.clone()], &[]),
        vec![id_1.clone(), id_0.clone()]
    );
    // Ancestors of both wanted and unwanted commits are not walked
    assert_eq!(
        walk_commit_ids(&[id_2.clone()], &[id_1.clone()]),
        vec![id_2.clone()]
    );
    // Same as above, but the opposite order, to make sure that order in index
    // doesn't matter
    assert_eq!(
        walk_commit_ids(&[id_1.clone()], &[id_2.clone()]),
        vec![id_1.clone()]
    );
    // Two wanted nodes
    assert_eq!(
        walk_commit_ids(&[id_1.clone(), id_2.clone()], &[]),
        vec![id_2.clone(), id_1.clone(), id_0.clone()]
    );
    // Order of output doesn't depend on order of input
    assert_eq!(
        walk_commit_ids(&[id_2.clone(), id_1.clone()], &[]),
        vec![id_2.clone(), id_1.clone(), id_0]
    );
    // Two wanted nodes that share an unwanted ancestor
    assert_eq!(
        walk_commit_ids(&[id_5.clone(), id_3.clone()], &[id_2]),
        vec![id_5, id_4, id_3, id_1]
    );
}

#[test]
fn test_walk_revs_filter_by_generation() {
    let mut new_change_id = change_id_generator();
    let mut index = DefaultMutableIndex::full(3, 16);
    // 8 6
    // | |
    // 7 5
    // |/|
    // 4 |
    // | 3
    // 2 |
    // |/
    // 1
    // |
    // 0
    let id_0 = CommitId::from_hex("000000");
    let id_1 = CommitId::from_hex("111111");
    let id_2 = CommitId::from_hex("222222");
    let id_3 = CommitId::from_hex("333333");
    let id_4 = CommitId::from_hex("444444");
    let id_5 = CommitId::from_hex("555555");
    let id_6 = CommitId::from_hex("666666");
    let id_7 = CommitId::from_hex("777777");
    let id_8 = CommitId::from_hex("888888");
    index.add_commit_data(id_0.clone(), new_change_id(), &[]);
    index.add_commit_data(id_1.clone(), new_change_id(), &[id_0.clone()]);
    index.add_commit_data(id_2.clone(), new_change_id(), &[id_1.clone()]);
    index.add_commit_data(id_3.clone(), new_change_id(), &[id_1.clone()]);
    index.add_commit_data(id_4.clone(), new_change_id(), &[id_2.clone()]);
    index.add_commit_data(id_5.clone(), new_change_id(), &[id_4.clone(), id_3.clone()]);
    index.add_commit_data(id_6.clone(), new_change_id(), &[id_5.clone()]);
    index.add_commit_data(id_7.clone(), new_change_id(), &[id_4.clone()]);
    index.add_commit_data(id_8.clone(), new_change_id(), &[id_7.clone()]);

    let walk_commit_ids = |wanted: &[CommitId], unwanted: &[CommitId], range: Range<u32>| {
        let index = index.as_composite();
        let wanted_positions = to_positions_vec(index, wanted);
        let unwanted_positions = to_positions_vec(index, unwanted);
        let mut walk = index
            .walk_revs(&wanted_positions, &unwanted_positions)
            .filter_by_generation(range);
        ids_of(|| walk.next())
    };

    // Empty generation bounds
    assert_eq!(walk_commit_ids(&[&id_8].map(Clone::clone), &[], 0..0), []);
    assert_eq!(
        walk_commit_ids(&[&id_8].map(Clone::clone), &[], Range { start: 2, end: 1 }),
        []
    );

    // Simple generation bounds
    assert_eq!(
        walk_commit_ids(&[&id_2].map(Clone::clone), &[], 0..3),
        [&id_2, &id_1, &id_0].map(Clone::clone)
    );

    // Ancestors may be walked with different generations
    assert_eq!(
        walk_commit_ids(&[&id_6].map(Clone::clone), &[], 2..4),
        [&id_4, &id_3, &id_2, &id_1].map(Clone::clone)
    );
    assert_eq!(
        walk_commit_ids(&[&id_5].map(Clone::clone), &[], 2..3),
        [&id_2, &id_1].map(Clone::clone)
    );
    assert_eq!(
        walk_commit_ids(&[&id_5, &id_7].map(Clone::clone), &[], 2..3),
        [&id_2, &id_1].map(Clone::clone)
    );
    assert_eq!(
        walk_commit_ids(&[&id_7, &id_8].map(Clone::clone), &[], 0..2),
        [&id_8, &id_7, &id_4].map(Clone::clone)
    );
    assert_eq!(
        walk_commit_ids(&[&id_6, &id_7].map(Clone::clone), &[], 0..3),
        [&id_7, &id_6, &id_5, &id_4, &id_3, &id_2].map(Clone::clone)
    );
    assert_eq!(
        walk_commit_ids(&[&id_6, &id_7].map(Clone::clone), &[], 2..3),
        [&id_4, &id_3, &id_2].map(Clone::clone)
    );

    // Ancestors of both wanted and unwanted commits are not walked
    assert_eq!(
        walk_commit_ids(&[&id_5].map(Clone::clone), &[&id_2].map(Clone::clone), 1..5),
        [&id_4, &id_3].map(Clone::clone)
    );
}

#[test]
fn test_walk_revs_filter_by_generation_range_merging() {
    let mut new_change_id = change_id_generator();
    let mut index = DefaultMutableIndex::full(3, 16);
    // Long linear history with some short branches
    let ids = (0..11)
        .map(|n| CommitId::from_hex(&format!("{n:06x}")))
        .collect::<Vec<_>>();
    index.add_commit_data(ids[0].clone(), new_change_id(), &[]);
    for i in 1..ids.len() {
        index.add_commit_data(ids[i].clone(), new_change_id(), &[ids[i - 1].clone()]);
    }
    let id_branch5_0 = CommitId::from_hex("050000");
    let id_branch5_1 = CommitId::from_hex("050001");
    index.add_commit_data(id_branch5_0.clone(), new_change_id(), &[ids[5].clone()]);
    index.add_commit_data(
        id_branch5_1.clone(),
        new_change_id(),
        &[id_branch5_0.clone()],
    );

    let walk_commit_ids = |wanted: &[CommitId], range: Range<u32>| {
        let index = index.as_composite();
        let wanted_positions = to_positions_vec(index, wanted);
        let mut walk = index
            .walk_revs(&wanted_positions, &[])
            .filter_by_generation(range);
        ids_of(|| walk.next())
    };

    // Multiple non-overlapping generation ranges to track:
    // 9->6: 3..5, 6: 0..2
    assert_eq!(
        walk_commit_ids(&[&ids[9], &ids[6]].map(Clone::clone), 4..6),
        [&ids[5], &ids[4], &ids[2], &ids[1]].map(Clone::clone)
    );

    // Multiple non-overlapping generation ranges to track, and merged later:
    // 10->7: 3..5, 7: 0..2
    // 10->6: 4..6, 7->6, 1..3, 6: 0..2
    assert_eq!(
        walk_commit_ids(&[&ids[10], &ids[7], &ids[6]].map(Clone::clone), 5..7),
        [&ids[5], &ids[4], &ids[2], &ids[1], &ids[0]].map(Clone::clone)
    );

    // Merge range with sub-range (1..4 + 2..3 should be 1..4, not 1..3):
    // 8,7,6->5::1..4, B5_1->5::2..3
    assert_eq!(
        walk_commit_ids(
            &[&ids[8], &ids[7], &ids[6], &id_branch5_1].map(Clone::clone),
            5..6
        ),
        [&ids[3], &ids[2], &ids[1]].map(Clone::clone)
    );
}

#[test]
fn test_walk_revs_descendants_filtered_by_generation() {
    let mut new_change_id = change_id_generator();
    let mut index = DefaultMutableIndex::full(3, 16);
    // 8 6
    // | |
    // 7 5
    // |/|
    // 4 |
    // | 3
    // 2 |
    // |/
    // 1
    // |
    // 0
    let id_0 = CommitId::from_hex("000000");
    let id_1 = CommitId::from_hex("111111");
    let id_2 = CommitId::from_hex("222222");
    let id_3 = CommitId::from_hex("333333");
    let id_4 = CommitId::from_hex("444444");
    let id_5 = CommitId::from_hex("555555");
    let id_6 = CommitId::from_hex("666666");
    let id_7 = CommitId::from_hex("777777");
    let id_8 = CommitId::from_hex("888888");
    index.add_commit_data(id_0.clone(), new_change_id(), &[]);
    index.add_commit_data(id_1.clone(), new_change_id(), &[id_0.clone()]);
    index.add_commit_data(id_2.clone(), new_change_id(), &[id_1.clone()]);
    index.add_commit_data(id_3.clone(), new_change_id(), &[id_1.clone()]);
    index.add_commit_data(id_4.clone(), new_change_id(), &[id_2.clone()]);
    index.add_commit_data(id_5.clone(), new_change_id(), &[id_4.clone(), id_3.clone()]);
    index.add_commit_data(id_6.clone(), new_change_id(), &[id_5.clone()]);
    index.add_commit_data(id_7.clone(), new_change_id(), &[id_4.clone()]);
    index.add_commit_data(id_8.clone(), new_change_id(), &[id_7.clone()]);

    let visible_heads = [&id_6, &id_8].map(Clone::clone);
    let walk_commit_ids = |roots: &[CommitId], heads: &[CommitId], range: Range<u32>| {
        let index = index.as_composite();
        let root_positions = to_positions_vec(index, roots);
        let head_positions = to_positions_vec(index, heads);
        let mut walk = index
            .walk_revs(&head_positions, &[])
            .descendants_filtered_by_generation(&root_positions, range);
        ids_of(|| walk.next())
    };

    // Empty generation bounds
    assert_eq!(
        walk_commit_ids(&[&id_0].map(Clone::clone), &visible_heads, 0..0),
        []
    );
    assert_eq!(
        walk_commit_ids(
            &[&id_8].map(Clone::clone),
            &visible_heads,
            Range { start: 2, end: 1 }
        ),
        []
    );

    // Full generation bounds
    assert_eq!(
        walk_commit_ids(&[&id_0].map(Clone::clone), &visible_heads, 0..u32::MAX),
        [&id_0, &id_1, &id_2, &id_3, &id_4, &id_5, &id_6, &id_7, &id_8].map(Clone::clone)
    );

    // Simple generation bounds
    assert_eq!(
        walk_commit_ids(&[&id_3].map(Clone::clone), &visible_heads, 0..3),
        [&id_3, &id_5, &id_6].map(Clone::clone)
    );

    // Descendants may be walked with different generations
    assert_eq!(
        walk_commit_ids(&[&id_0].map(Clone::clone), &visible_heads, 2..4),
        [&id_2, &id_3, &id_4, &id_5].map(Clone::clone)
    );
    assert_eq!(
        walk_commit_ids(&[&id_1].map(Clone::clone), &visible_heads, 2..3),
        [&id_4, &id_5].map(Clone::clone)
    );
    assert_eq!(
        walk_commit_ids(&[&id_2, &id_3].map(Clone::clone), &visible_heads, 2..3),
        [&id_5, &id_6, &id_7].map(Clone::clone)
    );
    assert_eq!(
        walk_commit_ids(&[&id_2, &id_4].map(Clone::clone), &visible_heads, 0..2),
        [&id_2, &id_4, &id_5, &id_7].map(Clone::clone)
    );
    assert_eq!(
        walk_commit_ids(&[&id_2, &id_3].map(Clone::clone), &visible_heads, 0..3),
        [&id_2, &id_3, &id_4, &id_5, &id_6, &id_7].map(Clone::clone)
    );
    assert_eq!(
        walk_commit_ids(&[&id_2, &id_3].map(Clone::clone), &visible_heads, 2..3),
        [&id_5, &id_6, &id_7].map(Clone::clone)
    );

    // Roots set contains entries unreachable from heads
    assert_eq!(
        walk_commit_ids(
            &[&id_2, &id_3].map(Clone::clone),
            &[&id_8].map(Clone::clone),
            0..3
        ),
        [&id_2, &id_4, &id_7].map(Clone::clone)
    );
}

#[test]
fn test_heads() {
    let mut new_change_id = change_id_generator();
    let mut index = DefaultMutableIndex::full(3, 16);
    // 5
    // |\
    // 4 | 3
    // | |/
    // 1 2
    // |/
    // 0
    let id_0 = CommitId::from_hex("000000");
    let id_1 = CommitId::from_hex("111111");
    let id_2 = CommitId::from_hex("222222");
    let id_3 = CommitId::from_hex("333333");
    let id_4 = CommitId::from_hex("444444");
    let id_5 = CommitId::from_hex("555555");
    index.add_commit_data(id_0.clone(), new_change_id(), &[]);
    index.add_commit_data(id_1.clone(), new_change_id(), &[id_0.clone()]);
    index.add_commit_data(id_2.clone(), new_change_id(), &[id_0.clone()]);
    index.add_commit_data(id_3.clone(), new_change_id(), &[id_2.clone()]);
    index.add_commit_data(id_4.clone(), new_change_id(), &[id_1.clone()]);
    index.add_commit_data(id_5.clone(), new_change_id(), &[id_4.clone(), id_2.clone()]);

    // Empty input
    assert!(index.heads(&[]).is_empty());
    // Single head
    assert_eq!(index.heads(&[id_4.clone()]), vec![id_4.clone()]);
    // Single head and parent
    assert_eq!(
        index.heads(&[id_4.clone(), id_1]),
        vec![id_4.clone()]
    );
    // Single head and grand-parent
    assert_eq!(
        index.heads(&[id_4.clone(), id_0]),
        vec![id_4.clone()]
    );
    // Multiple heads
    assert_eq!(
        index.heads(&[id_4.clone(), id_3.clone()]),
        vec![id_3.clone(), id_4]
    );
    // Merge commit and ancestors
    assert_eq!(
        index.heads(&[id_5.clone(), id_2]),
        vec![id_5.clone()]
    );
    // Merge commit and other commit
    assert_eq!(
        index.heads(&[id_5.clone(), id_3.clone()]),
        vec![id_3, id_5]
    );
}

