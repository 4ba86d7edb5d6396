//! The points at which tests inject failures.

use vstd::prelude::*;
use crate::engine::jobs::INJECTED;
use crate::errors::{EngineError, EngineResult};
use crate::text::text_of;

verus! {

/// Before log bytes are written.
pub const WAL_BEFORE_APPEND: &'static str = "wal::before_append";

/// After log bytes were written, before the bookkeeping.
pub const WAL_AFTER_APPEND: &'static str = "wal::after_append";

/// Before the sync of a group commit.
pub const WAL_BEFORE_FSYNC: &'static str = "wal::before_fsync";

/// After the sync, before the watermark advances.
pub const WAL_AFTER_FSYNC: &'static str = "wal::after_fsync";

/// The watermark advances without a sync.
pub const WAL_LIE_FSYNC: &'static str = "wal::lie_fsync";

/// Before a new log segment is opened.
pub const WAL_BEFORE_SEGMENT_ROLL: &'static str = "wal::before_segment_roll";

/// After the header of a new log segment was synced.
pub const WAL_AFTER_SEGMENT_ROLL: &'static str = "wal::after_segment_roll";

/// Before a record goes into the memtable.
pub const ENGINE_BEFORE_MEMTABLE_INSERT: &'static str = "engine::before_memtable_insert";

/// After a record went into the memtable.
pub const ENGINE_AFTER_MEMTABLE_INSERT: &'static str = "engine::after_memtable_insert";

/// Before a table's bytes are written to a temporary file.
pub const SSTABLE_BEFORE_TMP_WRITE: &'static str = "sstable::before_tmp_write";

/// After the temporary file was synced.
pub const SSTABLE_AFTER_TMP_WRITE: &'static str = "sstable::after_tmp_write";

/// Before the temporary file is renamed.
pub const SSTABLE_BEFORE_RENAME: &'static str = "sstable::before_rename";

/// After the rename, before the directory is synced.
pub const SSTABLE_AFTER_RENAME: &'static str = "sstable::after_rename";

/// Before a manifest record is appended.
pub const MANIFEST_BEFORE_APPEND: &'static str = "manifest::before_append";

/// After the manifest was synced.
pub const MANIFEST_AFTER_FSYNC: &'static str = "manifest::after_fsync";

/// Before a table that a compaction made is renamed into place.
pub const COMPACTION_BEFORE_RENAME: &'static str = "compaction::before_rename";

/// Before the manifest records of a compaction are appended.
pub const COMPACTION_BEFORE_MANIFEST: &'static str = "compaction::before_manifest";

/// After the manifest records of a compaction were synced, before its inputs go.
pub const COMPACTION_AFTER_MANIFEST_BEFORE_UNLINK: &'static str =
    "compaction::after_manifest_before_unlink";

/// After the manifest was synced, before the update waits for the owner.
pub const APPLY_AFTER_FSYNC_BEFORE_PUBLISH: &'static str = "apply::after_fsync_before_publish";

/// After an update was published, before obsolete files go.
pub const APPLY_AFTER_PUBLISH_BEFORE_UNLINK: &'static str = "apply::after_publish_before_unlink";

/// The outcome of passing a point: an error where a failure is injected there.
pub fn failpoint_result(name: &str, injected: bool) -> (r: EngineResult<()>)
    ensures
        r is Err <==> injected,
        r matches Err(e) ==> (e matches EngineError::Io(m) && m@ == INJECTED@ + ": "@ + name@),
{
    if !injected {
        return Ok(());
    }
    let mut m: String = text_of(INJECTED);
    m.append(": ");
    m.append(name);
    Err(EngineError::Io(m))
}

/// A failure that was injected is recognised as such when flushes and compactions are
/// drained.
pub proof fn injected_failures_are_recognised(name: Seq<char>)
    ensures
        crate::text::has_part(INJECTED@ + ": "@ + name, INJECTED@),
{
    let s = INJECTED@ + ": "@ + name;
    assert(s.subrange(0, 0 + INJECTED@.len() as int) =~= INJECTED@);
}

} // verus!
