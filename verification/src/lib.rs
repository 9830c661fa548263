use vstd::prelude::*;

mod block;
mod cache;
mod cmd;
mod error;
mod log;
mod mem_table;
mod order;
mod ss_table;
mod store;
mod ss_table_iter;

pub use block::{Seek, BlockHandle, encode_kv_entries, decode_kv_entries, entry_cmds, cmds_entries, block_cmds_ok, entries_image_size, entries_framable, lemma_entry_cmds_inverse, IndexEntry, IndexModel, DataBlock, IndexBlock, BlockIter, IndexIter, first_geq, first_gt, keys_of, index_keys_of};
pub use cache::{BlockCache, CacheSlot};
pub use cmd::{CommandData, CmdModel, encode_command, decode_command};
pub use error::KvsError;
pub use log::{MmapReader, MmapWriter, CommandPackage, CommandPos, replay_cmds, wf_log, frame_payloads_from};
pub use mem_table::{MemTable, KvPair, KvModel, entries_sorted, entries_lookup, entries_wf};
pub use ss_table::{SSTable, flat_blocks, blocks_wf, packed_blocks};
pub use ss_table_iter::{SSTableIter, lemma_traversals_are_reverses};
pub use store::{KVStore, LsmStore, segments_cmds, cmds_sized, lemma_cmds_lookup_concat, lemma_segments_cmds_prefix, CommandOption, value_from_option, values_from_option, size_from_option, lemma_log_replay_equivalence, lemma_tombstone_shadowing, cmds_lookup, tables_lookup, DEFAULT_COMPACTION_THRESHOLD, DEFAULT_BLOCK_SIZE};
pub use order::{lex_lt, lex_le, key_cmp, KeyOrd};

verus! {

} // verus!
