use pmod::fmg::file::{FileHeader, MsgGroup};
use pmod::fmg::MsgRepository;

fn one_group_table(base: u64) -> FileHeader {
    // One group covering ids 1..=10, all holes.
    FileHeader {
        endianness: 0,
        version: 2,
        file_size: 0,
        max_group_size: 0xFF,
        base,
        groups: vec![MsgGroup { offset: 0, first_id: 1, last_id: 10 }],
        msg_offsets: vec![0; 10],
    }
}

fn repo_with(f: FileHeader) -> MsgRepository {
    MsgRepository { files: vec![vec![Some(f)]], file_capacity: 1 }
}

#[test]
fn insert_after_finds_first_hole_after_anchor() {
    // One group {firstId: 1, lastId: 10}, all holes: inserting after 5 takes
    // the first hole above 5, which is id 6, and lookup then returns the
    // written pointer.
    let mut t = one_group_table(0x2000);
    let data_a = 0x2444;
    let id = t.try_insert_new_after(5, data_a).unwrap();
    assert!(6 <= id && id <= 10);
    assert_eq!(id, 6);
    let idx = t.msg_index_by_id(id).unwrap();
    assert_eq!(t.msg_data_by_index(idx), Some(data_a));
}

#[test]
fn insert_after_skips_taken_slots() {
    let mut t = one_group_table(0x2000);
    assert_eq!(t.try_insert_new_after(5, 0x2444), Some(6));
    assert_eq!(t.try_insert_new_after(5, 0x2448), Some(7));
    assert_eq!(t.try_insert_new_after(0, 0x244c), Some(1));
}

#[test]
fn insert_after_full_coverage_signals_growth() {
    let mut t = one_group_table(0x2000);
    for k in 0..10u64 {
        assert!(t.try_insert_new_after(0, 0x3000 + 8 * k).is_some());
    }
    assert_eq!(t.try_insert_new_after(0, 0x4000), None);
}

#[test]
fn lookup_of_uncovered_or_hole_id_fails() {
    let t = one_group_table(0x2000);
    assert_eq!(t.msg_index_by_id(0), None);
    assert_eq!(t.msg_index_by_id(11), None);
    let idx = t.msg_index_by_id(3).unwrap();
    // Covered but a hole.
    assert_eq!(t.msg_data_by_index(idx), None);
}

#[test]
fn replace_swaps_and_returns_previous_pointer() {
    let mut t = one_group_table(0x2000);
    let id = t.try_insert_new_after(1, 0x2aa0).unwrap();
    let idx = t.msg_index_by_id(id).unwrap();
    assert_eq!(t.replace_msg_by_index(idx, 0x2bb0), Some(0x2aa0));
    assert_eq!(t.msg_data_by_index(idx), Some(0x2bb0));
}

#[test]
fn delete_opens_a_hole_and_never_returns_stale_data() {
    let mut t = one_group_table(0x2000);
    let id = t.try_insert_new_after(1, 0x2aa0).unwrap();
    let idx = t.msg_index_by_id(id).unwrap();
    // Deletion is replacement with the null record.
    assert_eq!(t.replace_msg_by_index(idx, 0), Some(0x2aa0));
    assert_eq!(t.msg_data_by_index(idx), None);
    // The hole is reused by the next insertion at or after that id.
    assert_eq!(t.try_insert_new_after(id - 1, 0x2cc0), Some(id));
}

#[test]
fn grow_doubles_capacity_and_preserves_messages() {
    let mut t = one_group_table(0x2000);
    let id = t.try_insert_new_after(3, 0x2aa0).unwrap();
    let t2 = t.grow_reallocate(10, 0x8000).unwrap();
    assert_eq!(t2.base, 0x8000);
    assert_eq!(t2.msg_offsets.len(), 20);
    assert_eq!(t2.groups.len(), 2);
    // The surviving message resolves to the same pointer from the new base.
    let idx = t2.msg_index_by_id(id).unwrap();
    assert_eq!(t2.msg_data_by_index(idx), Some(0x2aa0));
    // The synthesized group covers the ten ids right above the anchor.
    assert_eq!(t2.groups[1].first_id, 11);
    assert_eq!(t2.groups[1].last_id, 20);
    assert_eq!(t2.groups[1].offset, 10);
}

#[test]
fn grow_respects_max_group_size() {
    let mut t = one_group_table(0x2000);
    t.max_group_size = 4;
    let t2 = t.grow_reallocate(10, 0x8000).unwrap();
    // Ten new slots come as groups of at most four ids.
    assert_eq!(t2.msg_offsets.len(), 20);
    assert_eq!(t2.groups.len(), 4);
    assert_eq!(t2.groups[1].first_id, 11);
    assert_eq!(t2.groups[1].last_id, 14);
    assert_eq!(t2.groups[2].first_id, 15);
    assert_eq!(t2.groups[3].last_id, 20);
}

#[test]
fn grow_of_empty_or_unallocated_table_fails() {
    let t = FileHeader {
        endianness: 0,
        version: 2,
        file_size: 0,
        max_group_size: 0xFF,
        base: 0x2000,
        groups: Vec::new(),
        msg_offsets: Vec::new(),
    };
    assert!(t.grow_reallocate(1, 0x8000).is_none());
    let t2 = one_group_table(0x2000);
    assert!(t2.grow_reallocate(1, 0).is_none());
}

#[test]
fn repository_lookup_and_replace() {
    let mut repo = repo_with(one_group_table(0x2000));
    assert_eq!(repo.get_msg(0, 0, 3), None);
    let id = repo.insert_msg(0, 0, Some(2), 0x2aa0, 0).unwrap();
    assert_eq!(id, 3);
    assert_eq!(repo.get_msg(0, 0, 3), Some(0x2aa0));
    assert_eq!(repo.replace_msg(0, 0, 3, 0x2bb0), Some(0x2aa0));
    assert_eq!(repo.get_msg(0, 0, 3), Some(0x2bb0));
    // Deleting through the repository is replacing with the null record.
    assert_eq!(repo.replace_msg(0, 0, 3, 0), Some(0x2bb0));
    assert_eq!(repo.get_msg(0, 0, 3), None);
}

#[test]
fn repository_absent_pairs_yield_nothing() {
    let mut repo = MsgRepository { files: vec![vec![Some(one_group_table(0x2000)), None]], file_capacity: 2 };
    assert_eq!(repo.get_msg(1, 0, 3), None);
    assert_eq!(repo.get_msg(0, 1, 3), None);
    assert_eq!(repo.get_msg(0, 5, 3), None);
    assert_eq!(repo.replace_msg(0, 1, 3, 0x2aa0), None);
    assert_eq!(repo.insert_msg(0, 1, Some(2), 0x2aa0, 0x8000), None);
}

#[test]
fn repository_insert_grows_when_exhausted() {
    // A full table: the repository grows it once and retries, concentrating
    // the fresh capacity right above the anchor.
    let mut t = one_group_table(0x2000);
    for k in 0..10u64 {
        t.try_insert_new_after(0, 0x3000 + 8 * k).unwrap();
    }
    let mut repo = repo_with(t);
    let id = repo.insert_msg(0, 0, Some(5), 0x4000, 0x8000).unwrap();
    assert_eq!(id, 11);
    assert_eq!(repo.get_msg(0, 0, 11), Some(0x4000));
    // The messages written before the growth still resolve.
    assert_eq!(repo.get_msg(0, 0, 1), Some(0x3000));
    assert_eq!(repo.get_msg(0, 0, 10), Some(0x3048));
}

#[test]
fn repository_synthesizes_anchor_when_none_given() {
    let mut repo = repo_with(one_group_table(0x2000));
    assert_eq!(repo.new_after(0), Some(999_999_999));
    // No hole lies above the synthesized anchor, so the table grows and the
    // new id lands in the high range reserved for this category.
    let id = repo.insert_msg(0, 0, None, 0x4000, 0x8000).unwrap();
    assert_eq!(id, 1_000_000_000);
    assert_eq!(repo.get_msg(0, 0, id), Some(0x4000));
}

#[test]
fn anchor_partition_is_proportional() {
    let repo = MsgRepository { files: Vec::new(), file_capacity: 2 };
    let step = (u32::MAX - 999_999_999) / 2;
    assert_eq!(repo.new_after(0), Some(999_999_999));
    assert_eq!(repo.new_after(1), Some(999_999_999 + step));
    assert_eq!(repo.new_after(2), None);
}

#[test]
fn all_msgs_lists_live_messages_in_order() {
    let mut t = one_group_table(0x2000);
    t.try_insert_new_after(4, 0x2aa0).unwrap();
    t.try_insert_new_after(7, 0x2bb0).unwrap();
    t.try_insert_new_after(0, 0x2cc0).unwrap();
    let repo = repo_with(t);
    let msgs = repo.get_all_msgs(0, 0).unwrap();
    assert_eq!(msgs, vec![(1, 0x2cc0), (5, 0x2aa0), (8, 0x2bb0)]);
    assert_eq!(repo.get_all_msgs(0, 1), None);
}

#[test]
fn all_categories_lists_present_tables() {
    let repo = MsgRepository {
        files: vec![vec![
            None,
            Some(one_group_table(0x2000)),
            None,
            Some(one_group_table(0x3000)),
        ]],
        file_capacity: 4,
    };
    assert_eq!(repo.get_all_categories(0).unwrap(), vec![1, 3]);
    assert_eq!(repo.get_all_categories(1), None);
}
