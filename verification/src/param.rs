//! Param row manipulation utilities.
//!
//! - Retrieve with [`ParamRepository::get_row`]
//! - Insert with [`ParamRepository::insert_row`]
//! - Replace with [`ParamRepository::replace_row`]
//! - Delete with [`ParamRepository::delete_row`]
//!
//! Param row manipulation uses a free list approach with amortized O(1)
//! insertion and removal performance. When a table reports that it needs
//! more capacity, the repository reallocates it once and retries the
//! operation; that signal is never surfaced to the caller.

pub mod file;

use vstd::prelude::*;

use crate::hash::{dl_hash_seq, DLHash};
use file::FileHeader;

pub use file::Error as FileError;

verus! {

/// A resource capsule holding one param table and the hash of its name.
pub struct ParamResCap {
    /// The hash of the table's name, the key it is found under.
    pub name_hash: u32,
    /// The byte size of the table's buffer.
    pub file_size: u64,
    /// The table itself.
    pub file: FileHeader,
}

/// The repository of param tables, keyed by name hash.
///
/// The process-wide lock and the resolution of the live repository instance
/// are capabilities of the surrounding program; the repository itself is
/// plain data, so its operations are testable against synthetic tables.
pub struct ParamRepository {
    /// The held tables.
    pub tables: Vec<ParamResCap>,
}

/// Possible param manipulation errors.
#[derive(Clone, Copy, PartialEq, Eq, Structural, Debug)]
pub enum Error {
    /// Mismatch in input or file format.
    FormatError(FileError),
    /// The repository instance the caller addressed is absent.
    NullInstance,
    /// The param table with the specified hash does not exist.
    TableNotFound,
}

impl From<FileError> for Error {
    fn from(value: FileError) -> (r: Self) {
        Self::FormatError(value)
    }
}

impl vstd::std_specs::convert::FromSpecImpl<FileError> for Error {
    open spec fn obeys_from_spec() -> bool {
        true
    }

    open spec fn from_spec(value: FileError) -> Self {
        Self::FormatError(value)
    }
}

/// The position of the first table whose name hash is `hash`, or the number
/// of tables when none matches.
pub open spec fn table_idx_from(tables: Seq<ParamResCap>, hash: u32, i: int) -> int
    decreases tables.len() - i,
{
    if i < 0 || i >= tables.len() {
        tables.len() as int
    } else if tables[i].name_hash == hash {
        i
    } else {
        table_idx_from(tables, hash, i + 1)
    }
}

/// The position the repository resolves `hash` to, or the table count when
/// the hash is unknown.
pub open spec fn table_idx(tables: Seq<ParamResCap>, hash: u32) -> int {
    table_idx_from(tables, hash, 0)
}

impl ParamRepository {
    /// The position of the first table keyed by `hash`.
    fn find_index(&self, hash: u32) -> (r: Option<usize>)
        ensures
            match r {
                Some(i) => i as int == table_idx(self.tables@, hash) && i < self.tables@.len(),
                None => table_idx(self.tables@, hash) == self.tables@.len(),
            },
    {
        let n = self.tables.len();
        let mut i: usize = 0;
        while i < n
            invariant
                i <= n,
                n == self.tables@.len(),
                table_idx(self.tables@, hash) == table_idx_from(self.tables@, hash, i as int),
            decreases n - i,
        {
            if self.tables[i].name_hash == hash {
                return Some(i);
            }
            i = i + 1;
        }
        None
    }

    /// Finds a param table capsule by the hash of its name.
    ///
    /// # Errors:
    /// - [`Error::TableNotFound`]
    pub fn find_table<T: DLHash + ?Sized>(&self, s: &T) -> (r: Result<&ParamResCap, Error>)
        ensures
            ({
                let ti = table_idx(self.tables@, dl_hash_seq(s.hash_units()));
                match r {
                    Ok(cap) => ti < self.tables@.len() && *cap == self.tables@[ti],
                    Err(e) => e == Error::TableNotFound && ti == self.tables@.len(),
                }
            }),
    {
        let hash = s.strhash();
        match self.find_index(hash) {
            Some(i) => Ok(&self.tables[i]),
            None => Err(Error::TableNotFound),
        }
    }

    /// Searches a table's row by its id, returning a pointer to its field
    /// data.
    ///
    /// # Errors:
    /// - [`Error::TableNotFound`] if no table is keyed by the hash of `s`.
    /// - [`Error::FormatError`] carrying what the table reported.
    pub fn get_row<T: DLHash + ?Sized>(&self, s: &T, id: i32) -> (r: Result<u64, Error>)
        ensures
            ({
                let ti = table_idx(self.tables@, dl_hash_seq(s.hash_units()));
                if ti == self.tables@.len() {
                    r == Err::<u64, Error>(Error::TableNotFound)
                } else if self.tables@[ti].file.wf() {
                    r == (match self.tables@[ti].file.find_spec(id) {
                        Ok(p) => Ok::<u64, Error>(p),
                        Err(e) => Err::<u64, Error>(Error::FormatError(e)),
                    })
                } else {
                    true
                }
            }),
    {
        let hash = s.strhash();
        match self.find_index(hash) {
            None => Err(Error::TableNotFound),
            Some(i) => match self.tables[i].file.find_row(id) {
                Ok(p) => Ok(p),
                Err(e) => Err(Error::FormatError(e)),
            },
        }
    }
}

/// The table after a grow-and-retry insertion: some reallocation output `g`
/// of the old table stands between the two states, and the final result is
/// the retried insertion's, with table errors wrapped.
pub open spec fn retry_insert_post(
    old_f: FileHeader,
    new_f: FileHeader,
    new_sz: u64,
    data: u64,
    new_base: u64,
    r: Result<i32, Error>,
) -> bool {
    exists|g: FileHeader|
        {
            &&& #[trigger] file::realloc_post(old_f, g, true, new_base, new_sz)
            &&& match r {
                Ok(id) => FileHeader::insert_post(g, new_f, data, Ok(id)),
                Err(Error::FormatError(e)) => FileHeader::insert_post(g, new_f, data, Err(e)),
                _ => false,
            }
        }
}

/// The table after a compact-and-retry replacement.
pub open spec fn retry_replace_post(
    old_f: FileHeader,
    new_f: FileHeader,
    new_sz: u64,
    id: i32,
    data: u64,
    new_base: u64,
    r: Result<u64, Error>,
) -> bool {
    exists|g: FileHeader|
        {
            &&& #[trigger] file::realloc_post(old_f, g, false, new_base, new_sz)
            &&& match r {
                Ok(p) => FileHeader::replace_post(g, new_f, id, data, Ok(p)),
                Err(Error::FormatError(e)) => FileHeader::replace_post(g, new_f, id, data, Err(e)),
                _ => false,
            }
        }
}

/// The table after a grow-and-retry deletion.
pub open spec fn retry_delete_post(
    old_f: FileHeader,
    new_f: FileHeader,
    new_sz: u64,
    id: i32,
    new_base: u64,
    r: Result<u64, Error>,
) -> bool {
    exists|g: FileHeader|
        {
            &&& #[trigger] file::realloc_post(old_f, g, true, new_base, new_sz)
            &&& match r {
                Ok(p) => FileHeader::delete_post(g, new_f, id, Ok(p)),
                Err(Error::FormatError(e)) => FileHeader::delete_post(g, new_f, id, Err(e)),
                _ => false,
            }
        }
}

/// What every mutating repository operation guarantees about the tables it
/// did not address.
pub open spec fn others_unchanged(
    old_tables: Seq<ParamResCap>,
    new_tables: Seq<ParamResCap>,
    ti: int,
) -> bool {
    &&& new_tables.len() == old_tables.len()
    &&& forall|j: int|
        0 <= j < old_tables.len() && j != ti ==> #[trigger] new_tables[j] == old_tables[j]
    &&& new_tables[ti].name_hash == old_tables[ti].name_hash
}

/// What [`ParamRepository::insert_row`] does: resolve the table by hash,
/// insert, and on a capacity signal reallocate once with growth and retry.
pub open spec fn repo_insert_post(
    old_tables: Seq<ParamResCap>,
    new_tables: Seq<ParamResCap>,
    hash: u32,
    data: u64,
    new_base: u64,
    r: Result<i32, Error>,
) -> bool {
    let ti = table_idx(old_tables, hash);
    if ti == old_tables.len() {
        r == Err::<i32, Error>(Error::TableNotFound) && new_tables == old_tables
    } else {
        let old_f = old_tables[ti].file;
        let new_f = new_tables[ti].file;
        &&& others_unchanged(old_tables, new_tables, ti)
        &&& (old_f.wf() ==> if old_f.spec_is_large_mode() && file::chain_of(old_f.lut@).len() > 0 {
            &&& new_tables[ti].file_size == old_tables[ti].file_size
            &&& match r {
                Ok(id) => FileHeader::insert_post(old_f, new_f, data, Ok(id)),
                _ => false,
            }
        } else if !(old_f.spec_row_descriptor_offset() matches Ok(_)) {
            r == Err::<i32, Error>(Error::FormatError(FileError::Malformed))
                && file::table_unchanged(old_f, new_f) && new_tables[ti].file_size
                == old_tables[ti].file_size
        } else if new_base == 0 {
            r == Err::<i32, Error>(Error::FormatError(FileError::FailedRealloc))
                && file::table_unchanged(old_f, new_f) && new_tables[ti].file_size
                == old_tables[ti].file_size
        } else {
            retry_insert_post(old_f, new_f, new_tables[ti].file_size, data, new_base, r)
        })
    }
}

/// What [`ParamRepository::replace_row`] does: resolve, replace, and on a
/// capacity signal reallocate once without growth and retry.
pub open spec fn repo_replace_post(
    old_tables: Seq<ParamResCap>,
    new_tables: Seq<ParamResCap>,
    hash: u32,
    id: i32,
    data: u64,
    new_base: u64,
    r: Result<u64, Error>,
) -> bool {
    let ti = table_idx(old_tables, hash);
    if ti == old_tables.len() {
        r == Err::<u64, Error>(Error::TableNotFound) && new_tables == old_tables
    } else {
        let old_f = old_tables[ti].file;
        let new_f = new_tables[ti].file;
        &&& others_unchanged(old_tables, new_tables, ti)
        &&& (old_f.wf() ==> if old_f.spec_is_large_mode() {
            &&& new_tables[ti].file_size == old_tables[ti].file_size
            &&& match r {
                Ok(p) => FileHeader::replace_post(old_f, new_f, id, data, Ok(p)),
                Err(Error::FormatError(e)) => e != FileError::NeedsRealloc
                    && FileHeader::replace_post(old_f, new_f, id, data, Err(e)),
                _ => false,
            }
        } else if !(old_f.spec_row_descriptor_offset() matches Ok(_)) {
            r == Err::<u64, Error>(Error::FormatError(FileError::Malformed))
                && file::table_unchanged(old_f, new_f) && new_tables[ti].file_size
                == old_tables[ti].file_size
        } else if new_base == 0 {
            r == Err::<u64, Error>(Error::FormatError(FileError::FailedRealloc))
                && file::table_unchanged(old_f, new_f) && new_tables[ti].file_size
                == old_tables[ti].file_size
        } else {
            retry_replace_post(old_f, new_f, new_tables[ti].file_size, id, data, new_base, r)
        })
    }
}

/// What [`ParamRepository::delete_row`] does: resolve, delete, and on a
/// capacity signal reallocate once with growth and retry.
pub open spec fn repo_delete_post(
    old_tables: Seq<ParamResCap>,
    new_tables: Seq<ParamResCap>,
    hash: u32,
    id: i32,
    new_base: u64,
    r: Result<u64, Error>,
) -> bool {
    let ti = table_idx(old_tables, hash);
    if ti == old_tables.len() {
        r == Err::<u64, Error>(Error::TableNotFound) && new_tables == old_tables
    } else {
        let old_f = old_tables[ti].file;
        let new_f = new_tables[ti].file;
        &&& others_unchanged(old_tables, new_tables, ti)
        &&& (old_f.wf() ==> if old_f.spec_is_large_mode() {
            &&& new_tables[ti].file_size == old_tables[ti].file_size
            &&& match r {
                Ok(p) => FileHeader::delete_post(old_f, new_f, id, Ok(p)),
                Err(Error::FormatError(e)) => e != FileError::NeedsRealloc
                    && FileHeader::delete_post(old_f, new_f, id, Err(e)),
                _ => false,
            }
        } else if !(old_f.spec_row_descriptor_offset() matches Ok(_)) {
            r == Err::<u64, Error>(Error::FormatError(FileError::Malformed))
                && file::table_unchanged(old_f, new_f) && new_tables[ti].file_size
                == old_tables[ti].file_size
        } else if new_base == 0 {
            r == Err::<u64, Error>(Error::FormatError(FileError::FailedRealloc))
                && file::table_unchanged(old_f, new_f) && new_tables[ti].file_size
                == old_tables[ti].file_size
        } else {
            retry_delete_post(old_f, new_f, new_tables[ti].file_size, id, new_base, r)
        })
    }
}

impl ParamRepository {
    /// Tries to insert a new row with fields at address `data` into the table
    /// keyed by the hash of `s`, and returns its non-negative id.
    ///
    /// If the table reports that it needs more capacity, it is reallocated
    /// once into a buffer at `new_base` (null meaning the allocator failed)
    /// and the insertion is retried.
    ///
    /// # Errors:
    /// - [`Error::TableNotFound`] if no table is keyed by the hash of `s`.
    /// - [`Error::FormatError`] carrying what the table reported.
    pub fn insert_row<T: DLHash + ?Sized>(&mut self, s: &T, data: u64, new_base: u64) -> (r: Result<
        i32,
        Error,
    >)
        ensures
            repo_insert_post(
                old(self).tables@,
                final(self).tables@,
                dl_hash_seq(s.hash_units()),
                data,
                new_base,
                r,
            ),
    {
        let ghost old_tables = self.tables@;
        let hash = s.strhash();
        let ti = match self.find_index(hash) {
            Some(i) => i,
            None => {
                return Err(Error::TableNotFound);
            },
        };
        let mut cap = self.tables.remove(ti);
        let ghost old_f = cap.file;
        let first = cap.file.insert_row(data);
        let ghost mid_f = cap.file;
        let out = match first {
            Ok(id) => Ok(id),
            Err(FileError::NeedsRealloc) => {
                match cap.file.clone_reallocate(true, new_base) {
                    Ok((nf, ns)) => {
                        cap.file = nf;
                        cap.file_size = ns;
                        let ghost grown = cap.file;
                        let r2 = match cap.file.insert_row(data) {
                            Ok(id) => Ok(id),
                            Err(e) => Err(Error::FormatError(e)),
                        };
                        proof {
                            if old_f.wf() {
                                assert(file::table_unchanged(old_f, mid_f));
                                assert(old_f.lut@ == mid_f.lut@);
                                assert(old_f.descriptors@ == mid_f.descriptors@);
                                assert(old_f.base == mid_f.base);
                                assert(file::realloc_post(old_f, grown, true, new_base, ns));
                            }
                        }
                        r2
                    },
                    Err(e) => Err(Error::FormatError(e)),
                }
            },
            Err(e) => Err(Error::FormatError(e)),
        };
        self.tables.insert(ti, cap);
        proof {
            assert(self.tables@ =~= old_tables.update(ti as int, self.tables@[ti as int]));
        }
        out
    }

    /// Searches a table's row by its id and replaces its fields with those at
    /// address `data`, returning a pointer to its old field data.
    ///
    /// If the table reports that it needs reallocating, it is compacted once
    /// into a buffer at `new_base` (null meaning the allocator failed) and
    /// the replacement is retried.
    ///
    /// # Errors:
    /// - [`Error::TableNotFound`] if no table is keyed by the hash of `s`.
    /// - [`Error::FormatError`] carrying what the table reported.
    pub fn replace_row<T: DLHash + ?Sized>(
        &mut self,
        s: &T,
        id: i32,
        data: u64,
        new_base: u64,
    ) -> (r: Result<u64, Error>)
        ensures
            repo_replace_post(
                old(self).tables@,
                final(self).tables@,
                dl_hash_seq(s.hash_units()),
                id,
                data,
                new_base,
                r,
            ),
    {
        let ghost old_tables = self.tables@;
        let hash = s.strhash();
        let ti = match self.find_index(hash) {
            Some(i) => i,
            None => {
                return Err(Error::TableNotFound);
            },
        };
        let mut cap = self.tables.remove(ti);
        let ghost old_f = cap.file;
        let first = cap.file.replace_row(id, data);
        let ghost mid_f = cap.file;
        let out = match first {
            Ok(p) => Ok(p),
            Err(FileError::NeedsRealloc) => {
                match cap.file.clone_reallocate(false, new_base) {
                    Ok((nf, ns)) => {
                        cap.file = nf;
                        cap.file_size = ns;
                        let ghost grown = cap.file;
                        let r2 = match cap.file.replace_row(id, data) {
                            Ok(p) => Ok(p),
                            Err(e) => Err(Error::FormatError(e)),
                        };
                        proof {
                            if old_f.wf() {
                                assert(file::table_unchanged(old_f, mid_f));
                                assert(old_f.lut@ == mid_f.lut@);
                                assert(old_f.descriptors@ == mid_f.descriptors@);
                                assert(old_f.base == mid_f.base);
                                assert(file::realloc_post(old_f, grown, false, new_base, ns));
                            }
                        }
                        r2
                    },
                    Err(e) => Err(Error::FormatError(e)),
                }
            },
            Err(e) => Err(Error::FormatError(e)),
        };
        self.tables.insert(ti, cap);
        proof {
            assert(self.tables@ =~= old_tables.update(ti as int, self.tables@[ti as int]));
        }
        out
    }

    /// Searches a table's row by its id and deletes it, returning a pointer
    /// to its old field data.
    ///
    /// If the table reports that it needs more capacity, it is reallocated
    /// once into a buffer at `new_base` (null meaning the allocator failed)
    /// and the deletion is retried.
    ///
    /// # Errors:
    /// - [`Error::TableNotFound`] if no table is keyed by the hash of `s`.
    /// - [`Error::FormatError`] carrying what the table reported.
    pub fn delete_row<T: DLHash + ?Sized>(&mut self, s: &T, id: i32, new_base: u64) -> (r: Result<
        u64,
        Error,
    >)
        ensures
            repo_delete_post(
                old(self).tables@,
                final(self).tables@,
                dl_hash_seq(s.hash_units()),
                id,
                new_base,
                r,
            ),
    {
        let ghost old_tables = self.tables@;
        let hash = s.strhash();
        let ti = match self.find_index(hash) {
            Some(i) => i,
            None => {
                return Err(Error::TableNotFound);
            },
        };
        let mut cap = self.tables.remove(ti);
        let ghost old_f = cap.file;
        let first = cap.file.delete_row(id);
        let ghost mid_f = cap.file;
        let out = match first {
            Ok(p) => Ok(p),
            Err(FileError::NeedsRealloc) => {
                match cap.file.clone_reallocate(true, new_base) {
                    Ok((nf, ns)) => {
                        cap.file = nf;
                        cap.file_size = ns;
                        let ghost grown = cap.file;
                        let r2 = match cap.file.delete_row(id) {
                            Ok(p) => Ok(p),
                            Err(e) => Err(Error::FormatError(e)),
                        };
                        proof {
                            if old_f.wf() {
                                assert(file::table_unchanged(old_f, mid_f));
                                assert(old_f.lut@ == mid_f.lut@);
                                assert(old_f.descriptors@ == mid_f.descriptors@);
                                assert(old_f.base == mid_f.base);
                                assert(file::realloc_post(old_f, grown, true, new_base, ns));
                            }
                        }
                        r2
                    },
                    Err(e) => Err(Error::FormatError(e)),
                }
            },
            Err(e) => Err(Error::FormatError(e)),
        };
        self.tables.insert(ti, cap);
        proof {
            assert(self.tables@ =~= old_tables.update(ti as int, self.tables@[ti as int]));
        }
        out
    }
}

impl ParamResCap {
    /// Get the held table by its header.
    pub fn file(&self) -> (r: &FileHeader)
        ensures
            *r == self.file,
    {
        &self.file
    }

    /// Get the size of the table's buffer in bytes.
    pub fn file_size(&self) -> (r: u64)
        ensures
            r == self.file_size,
    {
        self.file_size
    }
}

} // verus!
