use pmod::param::file::{
    find_lut_entry, pop_free_lut_entry, push_free_lut_entry, Error, FileHeader, LutEntry,
    RowDescriptor,
};
use pmod::param::{Error as RepoError, ParamRepository, ParamResCap};
use pmod::hash::DLHash;

fn legacy_table(base: u64) -> FileHeader {
    FileHeader {
        version: 1,
        endianness: 0,
        layout_flags: 2,
        format_flags: 3,
        row_count: 0,
        data_offset: 0,
        name_bytes: Vec::new(),
        base,
        lut: Vec::new(),
        descriptors: Vec::new(),
    }
}

fn grown_empty(base: u64, new_base: u64) -> FileHeader {
    let (t, _) = legacy_table(base).clone_reallocate(true, new_base).unwrap();
    t
}

/// Walks the embedded free list from the sentinel, asserting that it visits
/// each free slot exactly once, never a live slot, and terminates.
fn check_free_list(t: &FileHeader) {
    let n = t.lut.len() - 1;
    assert_eq!(t.lut[n].id, u32::MAX);
    let mut seen = vec![false; n];
    let mut head = t.lut[n].index;
    let mut steps = 0usize;
    while head >= 0 && (head as usize) < n {
        let k = head as usize;
        assert!(!seen[k], "free list visited a slot twice");
        assert!(t.lut[k].index < 0, "free list reached a live slot");
        seen[k] = true;
        steps += 1;
        assert!(steps <= n, "free list does not terminate");
        head = -1 - t.lut[k].index;
    }
    for k in 0..n {
        assert_eq!(seen[k], t.lut[k].index < 0, "free slot unreachable from the free list");
    }
}

fn check_sorted(t: &FileHeader) {
    for w in t.lut.windows(2) {
        assert!(w[0].id < w[1].id, "LUT not strictly sorted");
    }
}

#[test]
fn legacy_insert_needs_realloc() {
    let mut t = legacy_table(0x1000);
    assert_eq!(t.insert_row(0x1100), Err(Error::NeedsRealloc));
}

#[test]
fn growth_scenario_fills_thirty_two_slots() {
    // An empty table in legacy mode: insertion signals a reallocation; one
    // growth yields 32 free slots; 32 insertions hand out 32 distinct ids
    // and the 33rd signals reallocation again.
    let mut t = legacy_table(0x1000);
    assert_eq!(t.insert_row(0x1100), Err(Error::NeedsRealloc));
    let (mut t, size) = t.clone_reallocate(true, 0x2000).unwrap();
    assert_eq!(size, 64 + 24 * 32);
    assert_eq!(t.lut.len(), 33);
    assert_eq!(t.descriptors.len(), 32);
    check_free_list(&t);
    check_sorted(&t);
    let mut ids = Vec::new();
    for k in 0..32u64 {
        let id = t.insert_row(0x2100 + 8 * k).unwrap();
        assert!(!ids.contains(&id), "insert handed out a duplicate id");
        ids.push(id);
    }
    assert_eq!(t.insert_row(0x9999), Err(Error::NeedsRealloc));
    check_sorted(&t);
    check_free_list(&t);
}

#[test]
fn find_after_insert_returns_written_pointer() {
    let mut t = grown_empty(0x1000, 0x2000);
    let data = 0x2abc;
    let id = t.insert_row(data).unwrap();
    assert_eq!(t.find_row(id), Ok(data));
}

#[test]
fn find_after_replace_returns_new_pointer() {
    let mut t = grown_empty(0x1000, 0x2000);
    let id = t.insert_row(0x2abc).unwrap();
    let old = t.replace_row(id, 0x2def).unwrap();
    assert_eq!(old, 0x2abc);
    assert_eq!(t.find_row(id), Ok(0x2def));
}

#[test]
fn find_after_delete_is_not_in_table() {
    let mut t = grown_empty(0x1000, 0x2000);
    let id = t.insert_row(0x2abc).unwrap();
    assert_eq!(t.delete_row(id), Ok(0x2abc));
    assert_eq!(t.find_row(id), Err(Error::NotInTable));
    check_free_list(&t);
}

#[test]
fn deleted_slot_id_is_reused() {
    let mut t = grown_empty(0x1000, 0x2000);
    let id = t.insert_row(0x2abc).unwrap();
    t.delete_row(id).unwrap();
    assert_eq!(t.insert_row(0x2eee).unwrap(), id);
    assert_eq!(t.find_row(id), Ok(0x2eee));
}

#[test]
fn find_rejects_negative_id() {
    let t = grown_empty(0x1000, 0x2000);
    assert_eq!(t.find_row(-1), Err(Error::NegativeId));
}

#[test]
fn find_of_absent_id_fails() {
    let t = grown_empty(0x1000, 0x2000);
    // Slot ids 0..=31 exist but are all free holes.
    assert_eq!(t.find_row(7), Err(Error::NotInTable));
    assert_eq!(t.find_row(100), Err(Error::NotInTable));
}

#[test]
fn find_of_null_resolving_offset_is_malformed() {
    let mut t = grown_empty(0x1000, 0x2000);
    // A data pointer equal to the null address resolves to null.
    let id = t.insert_row(0).unwrap();
    assert_eq!(t.find_row(id), Err(Error::Malformed));
}

#[test]
fn realloc_with_null_buffer_fails() {
    let t = legacy_table(0x1000);
    assert!(matches!(t.clone_reallocate(true, 0), Err(Error::FailedRealloc)));
}

#[test]
fn realloc_of_unknown_layout_is_malformed() {
    let mut t = legacy_table(0x1000);
    t.layout_flags = 9;
    assert!(matches!(t.clone_reallocate(true, 0x2000), Err(Error::Malformed)));
}

#[test]
fn realloc_preserves_live_rows_and_pointers() {
    let mut t = grown_empty(0x1000, 0x2000);
    let a = t.insert_row(0x2aaa).unwrap();
    let b = t.insert_row(0x2bbb).unwrap();
    let (t2, _) = t.clone_reallocate(false, 0x7000).unwrap();
    // The rows moved, but resolve to the same data pointers.
    assert_eq!(t2.base, 0x7000);
    assert_eq!(t2.find_row(a), Ok(0x2aaa));
    assert_eq!(t2.find_row(b), Ok(0x2bbb));
    check_sorted(&t2);
    check_free_list(&t2);
}

#[test]
fn realloc_collapses_duplicates_first_wins_and_drops_dangling() {
    // A damaged table: a duplicated id and an out-of-bounds index.
    let t = FileHeader {
        version: 1,
        endianness: 0,
        layout_flags: 4,
        format_flags: 3,
        row_count: 4,
        data_offset: 0,
        name_bytes: Vec::new(),
        base: 0x1000,
        lut: vec![
            LutEntry { id: 1, index: 0 },
            LutEntry { id: 1, index: 1 },
            LutEntry { id: 2, index: 5 },
            LutEntry { id: 3, index: 2 },
        ],
        descriptors: vec![
            RowDescriptor { id: 1, data_offset: 100 },
            RowDescriptor { id: 1, data_offset: 200 },
            RowDescriptor { id: 3, data_offset: 300 },
        ],
    };
    let (t2, _) = t.clone_reallocate(false, 0x5000).unwrap();
    check_sorted(&t2);
    check_free_list(&t2);
    // First occurrence of id 1 wins; the dangling id 2 is dropped.
    assert_eq!(t2.find_row(1), Ok(0x1000 + 100));
    assert_eq!(t2.find_row(2), Err(Error::NotInTable));
    assert_eq!(t2.find_row(3), Ok(0x1000 + 300));
}

#[test]
fn growth_converges_for_many_inserts() {
    // Growth is idempotent in effect: after enough growths every insert
    // succeeds without further growth.
    let mut t = legacy_table(0x1000);
    let mut inserted = 0u64;
    let mut next_base = 0x10_0000u64;
    while inserted < 100 {
        match t.insert_row(0x2000 + 8 * inserted) {
            Ok(_) => inserted += 1,
            Err(Error::NeedsRealloc) => {
                let (nt, _) = t.clone_reallocate(true, next_base).unwrap();
                next_base += 0x10_0000;
                t = nt;
            }
            Err(e) => panic!("unexpected error {:?}", e),
        }
    }
    check_sorted(&t);
    check_free_list(&t);
    // Capacity is now at least 128, so the next insert succeeds directly.
    assert!(t.insert_row(0x9000).is_ok());
}

#[test]
fn mutation_sequence_keeps_lut_sorted_and_lookups_exact() {
    // Pseudo-random interleaving of inserts and deletes; after every step
    // the LUT stays strictly sorted and every live id resolves to the last
    // pointer written for it.
    let mut t = grown_empty(0x1000, 0x2000);
    let mut live: Vec<(i32, u64)> = Vec::new();
    let mut seed = 0x12345678u32;
    for step in 0..200u64 {
        seed = seed.wrapping_mul(1664525).wrapping_add(1013904223);
        if seed % 3 != 0 || live.is_empty() {
            let data = 0x4000 + 16 * step;
            match t.insert_row(data) {
                Ok(id) => live.push((id, data)),
                Err(Error::NeedsRealloc) => {
                    let (nt, _) = t.clone_reallocate(true, 0x20_0000 + 0x10_0000 * step).unwrap();
                    t = nt;
                    let id = t.insert_row(data).unwrap();
                    live.push((id, data));
                }
                Err(e) => panic!("unexpected error {:?}", e),
            }
        } else {
            let pick = (seed as usize / 3) % live.len();
            let (id, data) = live.swap_remove(pick);
            assert_eq!(t.delete_row(id), Ok(data));
        }
        check_sorted(&t);
        for &(id, data) in &live {
            assert_eq!(t.find_row(id), Ok(data), "live id lost after step {}", step);
        }
    }
    check_free_list(&t);
}

#[test]
fn repository_routes_by_name_hash() {
    let mut repo = ParamRepository {
        tables: vec![
            ParamResCap { name_hash: b"alpha".as_slice().strhash(), file_size: 0, file: grown_empty(0x1000, 0x2000) },
            ParamResCap { name_hash: b"beta".as_slice().strhash(), file_size: 0, file: grown_empty(0x1000, 0x3000) },
        ],
    };
    let id = repo.insert_row(b"beta".as_slice(), 0x3abc, 0).unwrap();
    assert_eq!(repo.get_row(b"beta".as_slice(), id), Ok(0x3abc));
    assert_eq!(
        repo.get_row(b"alpha".as_slice(), id),
        Err(RepoError::FormatError(Error::NotInTable))
    );
    assert_eq!(
        repo.get_row(b"gamma".as_slice(), id),
        Err(RepoError::TableNotFound)
    );
}

#[test]
fn repository_grows_table_transparently() {
    // The capacity signal is never surfaced: the repository reallocates once
    // and retries.
    let mut repo = ParamRepository {
        tables: vec![ParamResCap {
            name_hash: b"p".as_slice().strhash(),
            file_size: 0,
            file: legacy_table(0x1000),
        }],
    };
    let id = repo.insert_row(b"p".as_slice(), 0x5abc, 0x9000).unwrap();
    assert_eq!(repo.get_row(b"p".as_slice(), id), Ok(0x5abc));
    assert!(repo.tables[0].file_size > 0);
    // A failing allocator surfaces as a failed reallocation.
    let mut repo2 = ParamRepository {
        tables: vec![ParamResCap {
            name_hash: b"p".as_slice().strhash(),
            file_size: 0,
            file: legacy_table(0x1000),
        }],
    };
    assert_eq!(
        repo2.insert_row(b"p".as_slice(), 0x5abc, 0),
        Err(RepoError::FormatError(Error::FailedRealloc))
    );
}

#[test]
fn repository_replace_and_delete() {
    let mut repo = ParamRepository {
        tables: vec![ParamResCap {
            name_hash: b"p".as_slice().strhash(),
            file_size: 0,
            file: grown_empty(0x1000, 0x2000),
        }],
    };
    let id = repo.insert_row(b"p".as_slice(), 0x6001, 0).unwrap();
    assert_eq!(repo.replace_row(b"p".as_slice(), id, 0x6002, 0), Ok(0x6001));
    assert_eq!(repo.get_row(b"p".as_slice(), id), Ok(0x6002));
    assert_eq!(repo.delete_row(b"p".as_slice(), id, 0), Ok(0x6002));
    assert_eq!(
        repo.get_row(b"p".as_slice(), id),
        Err(RepoError::FormatError(Error::NotInTable))
    );
}

#[test]
fn name_decodes_shift_jis_in_old_layout() {
    let mut t = legacy_table(0x1000);
    t.layout_flags = 2;
    // SHIFT_JIS for the hiragana letter A, then the terminator and padding.
    t.name_bytes = vec![0x82, 0xA0, 0x00, 0x58, 0x58];
    assert_eq!(t.name().unwrap(), "\u{3042}");
}

#[test]
fn name_decodes_utf16_in_new_layout() {
    let mut t = legacy_table(0x1000);
    t.layout_flags = 0x85;
    t.format_flags = 3;
    t.name_bytes = vec![0x41, 0x00, 0x42, 0x00, 0x00, 0x00, 0x58, 0x58];
    assert_eq!(t.name().unwrap(), "AB");
}

#[test]
fn undecodable_name_is_malformed() {
    let mut t = legacy_table(0x1000);
    t.layout_flags = 2;
    // A lone SHIFT_JIS lead byte with no trail byte.
    t.name_bytes = vec![0x82];
    assert_eq!(t.name(), Err(Error::Malformed));
}

#[test]
fn row_count_and_flags() {
    let t = grown_empty(0x1000, 0x2000);
    assert_eq!(t.row_count(), Ok(33));
    assert!(t.is_le());
    assert!(t.is_utf16());
    assert!(t.is_64bit());
    assert!(t.is_large_mode());
    assert!(t.is_new_layout());
    assert_eq!(t.row_descriptor_offset(), Ok(0x40));
}

#[test]
fn free_list_pop_and_push_directly() {
    let mut t = grown_empty(0x1000, 0x2000);
    // The head of a freshly grown table's free list is its last slot.
    let (id, pos) = pop_free_lut_entry(&mut t.lut).unwrap();
    assert_eq!((id, pos), (31, 31));
    assert_eq!(t.lut[31].index, 31);
    check_free_list(&t);
    // Pushing it back makes it the head again.
    assert_eq!(push_free_lut_entry(&mut t.lut, 31), Ok(31));
    check_free_list(&t);
    assert_eq!(pop_free_lut_entry(&mut t.lut), Ok((31, 31)));
    // Popping a table without a sentinel signals reallocation.
    let mut bare = vec![LutEntry { id: 4, index: 0 }];
    assert_eq!(pop_free_lut_entry(&mut bare), Err(Error::NeedsRealloc));
    // Pushing a live slot twice is a corruption guard.
    let mut t2 = grown_empty(0x1000, 0x3000);
    let id = t2.insert_row(0x3100).unwrap() as usize;
    assert_eq!(push_free_lut_entry(&mut t2.lut, id), Ok(id));
    assert_eq!(push_free_lut_entry(&mut t2.lut, id), Err(Error::Malformed));
    assert_eq!(push_free_lut_entry(&mut t2.lut, 99), Err(Error::NotInTable));
}

#[test]
fn lut_binary_search_finds_exact_ids() {
    let lut = vec![
        LutEntry { id: 2, index: 0 },
        LutEntry { id: 5, index: 1 },
        LutEntry { id: 9, index: 2 },
    ];
    assert_eq!(find_lut_entry(&lut, 2), Some(0));
    assert_eq!(find_lut_entry(&lut, 5), Some(1));
    assert_eq!(find_lut_entry(&lut, 9), Some(2));
    assert_eq!(find_lut_entry(&lut, 1), None);
    assert_eq!(find_lut_entry(&lut, 6), None);
    assert_eq!(find_lut_entry(&lut, 10), None);
}

#[test]
fn descriptor_index_follows_the_lut() {
    let mut t = grown_empty(0x1000, 0x2000);
    let id = t.insert_row(0x2abc).unwrap();
    let k = t.descriptor_index_by_id(id as u32).unwrap();
    assert_eq!(t.descriptors[k].id, id as u32);
    // A free slot's id is indexed by the LUT but carries no live row.
    assert_eq!(t.descriptor_index_by_id(7), Err(Error::NotInTable));
    assert_eq!(t.descriptor_index_by_id(u32::MAX), Err(Error::NotInTable));
}

#[test]
fn default_tables_are_blank() {
    let p = FileHeader::default();
    assert_eq!(p.lut.len(), 0);
    assert_eq!(p.row_count(), Ok(0));
    let m = pmod::fmg::file::FileHeader::default();
    assert_eq!(m.groups.len(), 0);
    assert_eq!(m.msg_offsets.len(), 0);
}
