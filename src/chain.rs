use vstd::prelude::*;
use crate::label::{canonical_label, lemma_label_ignores_enumeration_order, texts};

verus! {

/// One input or one output of a transaction: the addresses that own it, as
/// the chain store enumerated them, and its value in the smallest unit.
pub struct Entry {
    pub addresses: Vec<String>,
    pub value: u64,
}

/// A transaction: its inputs and its outputs, each in chain order.
pub struct Transaction {
    pub inputs: Vec<Entry>,
    pub outputs: Vec<Entry>,
}

/// A connected block: its header timestamp and its transactions in order.
pub struct Block {
    pub timestamp: u32,
    pub transactions: Vec<Transaction>,
}

/// What an `Entry` holds: the text of each address, and the value.
pub struct EntryModel {
    pub addresses: Seq<Seq<char>>,
    pub value: u64,
}

/// What a `Transaction` holds.
pub struct TransactionModel {
    pub inputs: Seq<EntryModel>,
    pub outputs: Seq<EntryModel>,
}

/// What a `Block` holds.
pub struct BlockModel {
    pub timestamp: u32,
    pub transactions: Seq<TransactionModel>,
}

/// One record of an output table.
pub struct Row {
    pub timestamp: u32,
    pub label: Seq<char>,
    pub value: u64,
}

/// Which of the two tables a row belongs to.
pub enum Side {
    Inputs,
    Outputs,
}

impl View for Entry {
    type V = EntryModel;

    open spec fn view(&self) -> EntryModel {
        EntryModel { addresses: texts(self.addresses@), value: self.value }
    }
}

pub open spec fn entries_view(v: Seq<Entry>) -> Seq<EntryModel> {
    v.map_values(|e: Entry| e@)
}

impl View for Transaction {
    type V = TransactionModel;

    open spec fn view(&self) -> TransactionModel {
        TransactionModel { inputs: entries_view(self.inputs@), outputs: entries_view(self.outputs@) }
    }
}

pub open spec fn transactions_view(v: Seq<Transaction>) -> Seq<TransactionModel> {
    v.map_values(|t: Transaction| t@)
}

impl View for Block {
    type V = BlockModel;

    open spec fn view(&self) -> BlockModel {
        BlockModel { timestamp: self.timestamp, transactions: transactions_view(self.transactions@) }
    }
}

pub open spec fn chain_view(v: Seq<Block>) -> Seq<BlockModel> {
    v.map_values(|b: Block| b@)
}

/// The parts one after another.
pub open spec fn join_all<A>(parts: Seq<Seq<A>>) -> Seq<A>
    decreases parts.len(),
{
    if parts.len() == 0 {
        Seq::empty()
    } else {
        join_all(parts.drop_last()) + parts.last()
    }
}

/// The summed lengths of the parts.
pub open spec fn total_len<A>(parts: Seq<Seq<A>>) -> nat
    decreases parts.len(),
{
    if parts.len() == 0 {
        0
    } else {
        total_len(parts.drop_last()) + parts.last().len()
    }
}

pub open spec fn side_entries(tx: TransactionModel, side: Side) -> Seq<EntryModel> {
    match side {
        Side::Inputs => tx.inputs,
        Side::Outputs => tx.outputs,
    }
}

/// The row of one input or output of a block with the given timestamp.
pub open spec fn entry_row(timestamp: u32, e: EntryModel) -> Row {
    Row { timestamp, label: canonical_label(e.addresses), value: e.value }
}

pub open spec fn entry_rows(timestamp: u32, entries: Seq<EntryModel>) -> Seq<Row> {
    entries.map_values(|e: EntryModel| entry_row(timestamp, e))
}

pub open spec fn transaction_rows(timestamp: u32, tx: TransactionModel, side: Side) -> Seq<Row> {
    entry_rows(timestamp, side_entries(tx, side))
}

/// The rows of a run of transactions, transaction by transaction.
pub open spec fn transactions_rows(
    timestamp: u32,
    txs: Seq<TransactionModel>,
    side: Side,
) -> Seq<Row> {
    join_all(txs.map_values(|tx: TransactionModel| transaction_rows(timestamp, tx, side)))
}

pub open spec fn block_rows(b: BlockModel, side: Side) -> Seq<Row> {
    transactions_rows(b.timestamp, b.transactions, side)
}

/// The rows of a chain on one side, block by block.
pub open spec fn chain_rows(chain: Seq<BlockModel>, side: Side) -> Seq<Row> {
    join_all(chain.map_values(|b: BlockModel| block_rows(b, side)))
}

/// How many inputs (or outputs) a run of transactions has.
pub open spec fn transactions_entry_count(txs: Seq<TransactionModel>, side: Side) -> nat
    decreases txs.len(),
{
    if txs.len() == 0 {
        0
    } else {
        transactions_entry_count(txs.drop_last(), side) + side_entries(txs.last(), side).len()
    }
}

/// How many inputs (or outputs) the blocks of a chain have.
pub open spec fn chain_entry_count(chain: Seq<BlockModel>, side: Side) -> nat
    decreases chain.len(),
{
    if chain.len() == 0 {
        0
    } else {
        chain_entry_count(chain.drop_last(), side) + transactions_entry_count(
            chain.last().transactions,
            side,
        )
    }
}

/// How many transactions the blocks of a chain have.
pub open spec fn chain_transaction_count(chain: Seq<BlockModel>) -> nat
    decreases chain.len(),
{
    if chain.len() == 0 {
        0
    } else {
        chain_transaction_count(chain.drop_last()) + chain.last().transactions.len()
    }
}

/// Where the row of input (or output) `i` of transaction `t` of block `h`
/// stands in its table.
pub open spec fn row_position(chain: Seq<BlockModel>, side: Side, h: int, t: int, i: int) -> int {
    chain_entry_count(chain.take(h), side) + transactions_entry_count(
        chain[h].transactions.take(t),
        side,
    ) + i
}

pub proof fn lemma_join_all_len<A>(parts: Seq<Seq<A>>)
    ensures
        join_all(parts).len() == total_len(parts),
    decreases parts.len(),
{
    if parts.len() > 0 {
        lemma_join_all_len(parts.drop_last());
    }
}

pub proof fn lemma_join_all_concat<A>(a: Seq<Seq<A>>, b: Seq<Seq<A>>)
    ensures
        join_all(a + b) == join_all(a) + join_all(b),
    decreases b.len(),
{
    if b.len() == 0 {
        assert(a + b =~= a);
        assert(join_all(a) + join_all(b) =~= join_all(a));
    } else {
        assert((a + b).drop_last() =~= a + b.drop_last());
        assert((a + b).last() == b.last());
        lemma_join_all_concat(a, b.drop_last());
        assert(join_all(a + b) =~= join_all(a) + join_all(b));
    }
}

pub proof fn lemma_join_all_index<A>(parts: Seq<Seq<A>>, k: int, i: int)
    requires
        0 <= k < parts.len(),
        0 <= i < parts[k].len(),
    ensures
        total_len(parts.take(k)) + i < join_all(parts).len(),
        join_all(parts)[total_len(parts.take(k)) + i] == parts[k][i],
    decreases parts.len(),
{
    lemma_join_all_len(parts.drop_last());
    if k == parts.len() - 1 {
        assert(parts.take(k) =~= parts.drop_last());
    } else {
        lemma_join_all_index(parts.drop_last(), k, i);
        assert(parts.drop_last().take(k) =~= parts.take(k));
    }
}

proof fn lemma_transactions_row_count(timestamp: u32, txs: Seq<TransactionModel>, side: Side)
    ensures
        transactions_rows(timestamp, txs, side).len() == transactions_entry_count(txs, side),
    decreases txs.len(),
{
    if txs.len() > 0 {
        let f = |tx: TransactionModel| transaction_rows(timestamp, tx, side);
        assert(txs.map_values(f).drop_last() =~= txs.drop_last().map_values(f));
        lemma_transactions_row_count(timestamp, txs.drop_last(), side);
    }
}

/// Every input (or output) of every transaction of every block gives one
/// row: a table has as many rows as the chain has inputs (or outputs).
pub proof fn lemma_row_count(chain: Seq<BlockModel>, side: Side)
    ensures
        chain_rows(chain, side).len() == chain_entry_count(chain, side),
    decreases chain.len(),
{
    if chain.len() > 0 {
        let f = |b: BlockModel| block_rows(b, side);
        assert(chain.map_values(f).drop_last() =~= chain.drop_last().map_values(f));
        lemma_row_count(chain.drop_last(), side);
        lemma_transactions_row_count(chain.last().timestamp, chain.last().transactions, side);
    }
}

proof fn lemma_transactions_row_index(
    timestamp: u32,
    txs: Seq<TransactionModel>,
    side: Side,
    t: int,
    i: int,
)
    requires
        0 <= t < txs.len(),
        0 <= i < side_entries(txs[t], side).len(),
    ensures
        transactions_entry_count(txs.take(t), side) + i < transactions_rows(
            timestamp,
            txs,
            side,
        ).len(),
        transactions_rows(timestamp, txs, side)[transactions_entry_count(txs.take(t), side) + i]
            == entry_row(timestamp, side_entries(txs[t], side)[i]),
{
    let f = |tx: TransactionModel| transaction_rows(timestamp, tx, side);
    let parts = txs.map_values(f);
    lemma_join_all_index(parts, t, i);
    assert(parts.take(t) =~= txs.take(t).map_values(f));
    lemma_join_all_len(parts.take(t));
    lemma_transactions_row_count(timestamp, txs.take(t), side);
}

/// The rows of a table follow the chain: the row of input (or output) `i` of
/// transaction `t` of block `h` stands at `row_position(chain, side, h, t, i)`.
pub proof fn lemma_row_at_position(chain: Seq<BlockModel>, side: Side, h: int, t: int, i: int)
    requires
        0 <= h < chain.len(),
        0 <= t < chain[h].transactions.len(),
        0 <= i < side_entries(chain[h].transactions[t], side).len(),
    ensures
        0 <= row_position(chain, side, h, t, i) < chain_rows(chain, side).len(),
        chain_rows(chain, side)[row_position(chain, side, h, t, i)] == entry_row(
            chain[h].timestamp,
            side_entries(chain[h].transactions[t], side)[i],
        ),
{
    let f = |b: BlockModel| block_rows(b, side);
    let parts = chain.map_values(f);
    lemma_transactions_row_index(chain[h].timestamp, chain[h].transactions, side, t, i);
    let inner = transactions_entry_count(chain[h].transactions.take(t), side) + i;
    lemma_join_all_index(parts, h, inner);
    assert(parts.take(h) =~= chain.take(h).map_values(f));
    lemma_join_all_len(parts.take(h));
    lemma_row_count(chain.take(h), side);
}

proof fn lemma_transactions_count_step(txs: Seq<TransactionModel>, side: Side, t: int)
    requires
        0 <= t < txs.len(),
    ensures
        transactions_entry_count(txs.take(t + 1), side) == transactions_entry_count(txs.take(t), side)
            + side_entries(txs[t], side).len(),
{
    assert(txs.take(t + 1).drop_last() =~= txs.take(t));
}

proof fn lemma_transactions_count_grows(txs: Seq<TransactionModel>, side: Side, a: int, b: int)
    requires
        0 <= a <= b <= txs.len(),
    ensures
        transactions_entry_count(txs.take(a), side) <= transactions_entry_count(txs.take(b), side),
    decreases b - a,
{
    if a < b {
        lemma_transactions_count_step(txs, side, b - 1);
        lemma_transactions_count_grows(txs, side, a, b - 1);
    }
}

proof fn lemma_chain_count_step(chain: Seq<BlockModel>, side: Side, h: int)
    requires
        0 <= h < chain.len(),
    ensures
        chain_entry_count(chain.take(h + 1), side) == chain_entry_count(chain.take(h), side)
            + transactions_entry_count(chain[h].transactions, side),
{
    assert(chain.take(h + 1).drop_last() =~= chain.take(h));
}

proof fn lemma_chain_count_grows(chain: Seq<BlockModel>, side: Side, a: int, b: int)
    requires
        0 <= a <= b <= chain.len(),
    ensures
        chain_entry_count(chain.take(a), side) <= chain_entry_count(chain.take(b), side),
    decreases b - a,
{
    if a < b {
        lemma_chain_count_step(chain, side, b - 1);
        lemma_chain_count_grows(chain, side, a, b - 1);
    }
}

/// Positions inside a block stay below the block's count of inputs (or
/// outputs).
proof fn lemma_position_in_block(txs: Seq<TransactionModel>, side: Side, t: int, i: int)
    requires
        0 <= t < txs.len(),
        0 <= i < side_entries(txs[t], side).len(),
    ensures
        transactions_entry_count(txs.take(t), side) + i < transactions_entry_count(txs, side),
{
    lemma_transactions_count_step(txs, side, t);
    lemma_transactions_count_grows(txs, side, t + 1, txs.len() as int);
    assert(txs.take(txs.len() as int) =~= txs);
}

/// Rows keep the order of the chain: of two inputs (or outputs), the one
/// that comes first by block height, then by transaction index, then by
/// index in its transaction, has the smaller position in the table.
pub proof fn lemma_row_positions_ascend(
    chain: Seq<BlockModel>,
    side: Side,
    h1: int,
    t1: int,
    i1: int,
    h2: int,
    t2: int,
    i2: int,
)
    requires
        0 <= h1 < chain.len(),
        0 <= t1 < chain[h1].transactions.len(),
        0 <= i1 < side_entries(chain[h1].transactions[t1], side).len(),
        0 <= h2 < chain.len(),
        0 <= t2 < chain[h2].transactions.len(),
        0 <= i2 < side_entries(chain[h2].transactions[t2], side).len(),
        h1 < h2 || (h1 == h2 && t1 < t2) || (h1 == h2 && t1 == t2 && i1 < i2),
    ensures
        row_position(chain, side, h1, t1, i1) < row_position(chain, side, h2, t2, i2),
{
    if h1 < h2 {
        lemma_position_in_block(chain[h1].transactions, side, t1, i1);
        lemma_chain_count_step(chain, side, h1);
        lemma_chain_count_grows(chain, side, h1 + 1, h2);
    } else if t1 < t2 {
        let txs = chain[h1].transactions;
        lemma_transactions_count_step(txs, side, t1);
        lemma_transactions_count_grows(txs, side, t1 + 1, t2);
    }
}

/// Two inputs (or outputs) that differ at most in the order in which their
/// addresses are enumerated.
pub open spec fn entries_agree(a: Seq<EntryModel>, b: Seq<EntryModel>) -> bool {
    &&& a.len() == b.len()
    &&& forall|i: int|
        #![trigger a[i]]
        0 <= i < a.len() ==> a[i].value == b[i].value && a[i].addresses.to_multiset()
            == b[i].addresses.to_multiset()
}

pub open spec fn transactions_agree(a: Seq<TransactionModel>, b: Seq<TransactionModel>) -> bool {
    &&& a.len() == b.len()
    &&& forall|t: int|
        #![trigger a[t]]
        0 <= t < a.len() ==> entries_agree(a[t].inputs, b[t].inputs) && entries_agree(
            a[t].outputs,
            b[t].outputs,
        )
}

/// Two chains that are the same but for the order in which the store
/// enumerates the addresses of each input and output.
pub open spec fn chains_agree(a: Seq<BlockModel>, b: Seq<BlockModel>) -> bool {
    &&& a.len() == b.len()
    &&& forall|h: int|
        #![trigger a[h]]
        0 <= h < a.len() ==> a[h].timestamp == b[h].timestamp && transactions_agree(
            a[h].transactions,
            b[h].transactions,
        )
}

proof fn lemma_entry_rows_agree(timestamp: u32, a: Seq<EntryModel>, b: Seq<EntryModel>)
    requires
        entries_agree(a, b),
    ensures
        entry_rows(timestamp, a) == entry_rows(timestamp, b),
{
    assert forall|i: int| 0 <= i < a.len() implies #[trigger] entry_row(timestamp, a[i])
        == entry_row(timestamp, b[i]) by {
        lemma_label_ignores_enumeration_order(a[i].addresses, b[i].addresses);
    }
    assert(entry_rows(timestamp, a) =~= entry_rows(timestamp, b));
}

proof fn lemma_transactions_rows_agree(
    timestamp: u32,
    a: Seq<TransactionModel>,
    b: Seq<TransactionModel>,
    side: Side,
)
    requires
        transactions_agree(a, b),
    ensures
        transactions_rows(timestamp, a, side) == transactions_rows(timestamp, b, side),
{
    let f = |tx: TransactionModel| transaction_rows(timestamp, tx, side);
    assert forall|t: int| 0 <= t < a.len() implies #[trigger] f(a[t]) == f(b[t]) by {
        lemma_entry_rows_agree(timestamp, a[t].inputs, b[t].inputs);
        lemma_entry_rows_agree(timestamp, a[t].outputs, b[t].outputs);
    }
    assert(a.map_values(f) =~= b.map_values(f));
}

/// Walking the same chain twice gives the same rows, even where the store
/// enumerates the addresses of an input or output in another order.
pub proof fn lemma_rows_ignore_address_order(a: Seq<BlockModel>, b: Seq<BlockModel>, side: Side)
    requires
        chains_agree(a, b),
    ensures
        chain_rows(a, side) == chain_rows(b, side),
{
    let f = |blk: BlockModel| block_rows(blk, side);
    assert forall|h: int| 0 <= h < a.len() implies #[trigger] f(a[h]) == f(b[h]) by {
        lemma_transactions_rows_agree(a[h].timestamp, a[h].transactions, b[h].transactions, side);
    }
    assert(a.map_values(f) =~= b.map_values(f));
}

} // verus!
