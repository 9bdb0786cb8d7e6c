//! Mutable, random-access, keyed storage over two flat binary table formats:
//! a row table holding parameter records indexed by a sorted lookup array with
//! an embedded free list, and a message table holding localized-text records
//! grouped by id ranges. Both support lookup, insertion, replacement and
//! deletion while growing capacity through copy-compacting reallocation.

pub mod fmg;
pub mod hash;
pub mod param;
pub mod text;
