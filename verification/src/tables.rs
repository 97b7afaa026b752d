//! Names of the tables that a block store is made of.

use vstd::prelude::*;

verus! {

/// Block number (little endian) to block hash.
pub const CANONICAL_BLOCK_HASHES: &'static str = "canonical_block_hashes";

/// Block hash to block number.
pub const BLOCK_NUMBERS: &'static str = "block_numbers";

/// Block hash to header.
pub const HEADERS: &'static str = "headers";

/// Block hash to body.
pub const BODIES: &'static str = "bodies";

/// Block hash followed by the receipt index, to receipt.
pub const RECEIPTS: &'static str = "receipts";

/// Transaction hash followed by block hash, to the place in the block.
pub const TRANSACTION_LOCATIONS: &'static str = "transaction_locations";

/// Contract bytecode by code hash.
pub const ACCOUNT_CODES: &'static str = "account_codes";

/// Bytecode length by code hash.
pub const ACCOUNT_CODE_METADATA: &'static str = "account_code_metadata";

/// Chain configuration and the head, safe and finalized pointers.
pub const CHAIN_DATA: &'static str = "chain_data";

/// Checkpoints of a running snap sync.
pub const SNAP_STATE: &'static str = "snap_state";

/// Nodes of the account trie.
pub const ACCOUNT_TRIE_NODES: &'static str = "account_trie_nodes";

/// Nodes of the storage tries.
pub const STORAGE_TRIE_NODES: &'static str = "storage_trie_nodes";

/// Flat snapshot of the account leaves.
pub const ACCOUNT_FLATKEYVALUE: &'static str = "account_flatkeyvalue";

/// Flat snapshot of the storage leaves.
pub const STORAGE_FLATKEYVALUE: &'static str = "storage_flatkeyvalue";

/// Blocks that wait for a fork choice.
pub const PENDING_BLOCKS: &'static str = "pending_blocks";

/// Chains that were found invalid.
pub const INVALID_CHAINS: &'static str = "invalid_chains";

/// Headers collected by a full sync.
pub const FULLSYNC_HEADERS: &'static str = "fullsync_headers";

/// Execution witnesses of recent blocks.
pub const EXECUTION_WITNESSES: &'static str = "execution_witnesses";

/// Small values under well-known keys, among them the migration cursor.
pub const MISC_VALUES: &'static str = "misc_values";

/// Every table: the hot store holds all of them.
pub const TABLES: [&'static str; 19] = [
    CANONICAL_BLOCK_HASHES,
    BLOCK_NUMBERS,
    HEADERS,
    BODIES,
    RECEIPTS,
    TRANSACTION_LOCATIONS,
    ACCOUNT_CODES,
    ACCOUNT_CODE_METADATA,
    CHAIN_DATA,
    SNAP_STATE,
    ACCOUNT_TRIE_NODES,
    STORAGE_TRIE_NODES,
    ACCOUNT_FLATKEYVALUE,
    STORAGE_FLATKEYVALUE,
    PENDING_BLOCKS,
    INVALID_CHAINS,
    FULLSYNC_HEADERS,
    EXECUTION_WITNESSES,
    MISC_VALUES,
];

/// The tables whose old entries move to the cold store, which holds only these.
pub const WARM_TABLES: [&'static str; 4] = [HEADERS, BODIES, RECEIPTS, TRANSACTION_LOCATIONS];

/// `table` is one of the four warm tables.
pub open spec fn warm(table: Seq<char>) -> bool {
    ||| table == HEADERS@
    ||| table == BODIES@
    ||| table == RECEIPTS@
    ||| table == TRANSACTION_LOCATIONS@
}

/// The tables that the migration touches have different names, and those that
/// steer it are not warm.
pub proof fn lemma_table_names()
    ensures
        HEADERS@ != BODIES@,
        HEADERS@ != RECEIPTS@,
        BODIES@ != RECEIPTS@,
        TRANSACTION_LOCATIONS@ != HEADERS@,
        TRANSACTION_LOCATIONS@ != BODIES@,
        TRANSACTION_LOCATIONS@ != RECEIPTS@,
        !warm(CANONICAL_BLOCK_HASHES@),
        !warm(MISC_VALUES@),
        CANONICAL_BLOCK_HASHES@ != MISC_VALUES@,
{
    reveal_strlit("headers");
    reveal_strlit("bodies");
    reveal_strlit("receipts");
    reveal_strlit("transaction_locations");
    reveal_strlit("canonical_block_hashes");
    reveal_strlit("misc_values");
    assert(HEADERS@.len() == 7);
    assert(BODIES@.len() == 6);
    assert(RECEIPTS@.len() == 8);
    assert(TRANSACTION_LOCATIONS@.len() == 21);
    assert(CANONICAL_BLOCK_HASHES@.len() == 22);
    assert(MISC_VALUES@.len() == 11);
}

/// `==` on `str`, of the standard library: true exactly when both hold the same
/// characters.
#[verifier::external_body]
pub(crate) fn same_name(a: &str, b: &str) -> (r: bool)
    ensures
        r == (a@ == b@),
{
    a == b
}

/// Tells whether old entries of `table` move to the cold store.
pub fn is_warm_table(table: &str) -> (r: bool)
    ensures
        r == warm(table@),
{
    same_name(table, HEADERS) || same_name(table, BODIES) || same_name(table, RECEIPTS)
        || same_name(table, TRANSACTION_LOCATIONS)
}

} // verus!
