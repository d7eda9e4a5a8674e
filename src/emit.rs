use vstd::prelude::*;
use crate::chain::{
    block_rows, chain_rows, chain_view, chains_agree, lemma_rows_ignore_address_order, entries_view, entry_row, entry_rows, join_all,
    lemma_join_all_concat, transaction_rows, transactions_rows, Block, BlockModel, Entry, Row, Side,
    TransactionModel,
};
use crate::label::addresses_to_string;

verus! {

/// The first line of each table.
pub const TABLE_HEADER: &'static str = "timestamp,address,value\n";

pub open spec fn digit_char(d: nat) -> char {
    seq!['0', '1', '2', '3', '4', '5', '6', '7', '8', '9'][d as int]
}

/// The decimal digits of `n`, without leading zeros.
pub open spec fn decimal(n: nat) -> Seq<char>
    decreases n,
{
    if n < 10 {
        seq![digit_char(n)]
    } else {
        decimal(n / 10) + seq![digit_char(n % 10)]
    }
}

/// One line of a table: `timestamp,label,value` and a newline, unescaped.
pub open spec fn row_text(r: Row) -> Seq<char> {
    decimal(r.timestamp as nat) + seq![','] + r.label + seq![','] + decimal(r.value as nat)
        + seq!['\n']
}

/// The lines of the rows, in order.
pub open spec fn stream_text(rows: Seq<Row>) -> Seq<char> {
    join_all(rows.map_values(|r: Row| row_text(r)))
}

/// The whole table of one side of a chain: the header, then a line per row.
pub open spec fn table_text(chain: Seq<BlockModel>, side: Side) -> Seq<char> {
    TABLE_HEADER@ + stream_text(chain_rows(chain, side))
}

/// Both tables of a chain.
pub struct Tables {
    pub inputs: String,
    pub outputs: String,
}

pub proof fn lemma_stream_text_concat(a: Seq<Row>, b: Seq<Row>)
    ensures
        stream_text(a + b) == stream_text(a) + stream_text(b),
{
    let f = |r: Row| row_text(r);
    assert((a + b).map_values(f) =~= a.map_values(f) + b.map_values(f));
    lemma_join_all_concat(a.map_values(f), b.map_values(f));
}

/// Extracting the tables twice from an unchanged chain gives the same bytes,
/// even where the store enumerates the addresses of an input or output in
/// another order the second time.
pub proof fn lemma_tables_ignore_address_order(a: Seq<BlockModel>, b: Seq<BlockModel>, side: Side)
    requires
        chains_agree(a, b),
    ensures
        table_text(a, side) == table_text(b, side),
{
    lemma_rows_ignore_address_order(a, b, side);
}

proof fn lemma_stream_text_push(a: Seq<Row>, r: Row)
    ensures
        stream_text(a.push(r)) == stream_text(a) + row_text(r),
{
    let f = |r: Row| row_text(r);
    assert(a.push(r).map_values(f).drop_last() =~= a.map_values(f));
}

/// Relies on `u64::to_string`: the decimal digits, with no sign, padding or
/// leading zero.
#[verifier::external_body]
fn decimal_string(n: u64) -> (r: String)
    ensures
        r@ == decimal(n as nat),
{
    n.to_string()
}

/// The line of one row.
pub fn format_row(timestamp: u32, label: &str, value: u64) -> (r: String)
    ensures
        r@ == row_text(Row { timestamp, label: label@, value }),
{
    proof {
        reveal_strlit(",");
        reveal_strlit("\n");
    }
    let mut r = decimal_string(timestamp as u64);
    r.append(",");
    r.append(label);
    r.append(",");
    let v = decimal_string(value);
    r.append(v.as_str());
    r.append("\n");
    r
}

/// Appends the lines of the given inputs or outputs of a block with this
/// timestamp.
fn emit_entries(timestamp: u32, entries: &Vec<Entry>, out: &mut String)
    ensures
        final(out)@ == old(out)@ + stream_text(entry_rows(timestamp, entries_view(entries@))),
{
    let ghost start = out@;
    let ghost model = entries_view(entries@);
    let mut i: usize = 0;
    while i < entries.len()
        invariant
            i <= entries.len(),
            model == entries_view(entries@),
            out@ == start + stream_text(entry_rows(timestamp, model.take(i as int))),
        decreases entries.len() - i,
    {
        let e = &entries[i];
        let label = addresses_to_string(&e.addresses);
        let line = format_row(timestamp, label.as_str(), e.value);
        out.append(line.as_str());
        proof {
            assert(entry_rows(timestamp, model.take(i + 1)) =~= entry_rows(
                timestamp,
                model.take(i as int),
            ).push(entry_row(timestamp, model[i as int])));
            lemma_stream_text_push(
                entry_rows(timestamp, model.take(i as int)),
                entry_row(timestamp, model[i as int]),
            );
        }
        i = i + 1;
    }
    assert(model.take(entries.len() as int) =~= model);
}

/// Appends to `inputs` the line of every input of the block, and to
/// `outputs` the line of every output, transaction by transaction; returns
/// how many transactions the block has.
pub fn emit_block(block: &Block, inputs: &mut String, outputs: &mut String) -> (n: u64)
    ensures
        final(inputs)@ == old(inputs)@ + stream_text(block_rows(block@, Side::Inputs)),
        final(outputs)@ == old(outputs)@ + stream_text(block_rows(block@, Side::Outputs)),
        n == block@.transactions.len(),
{
    let ghost in0 = inputs@;
    let ghost out0 = outputs@;
    let ghost ts = block.timestamp;
    let ghost txs = block@.transactions;
    let mut j: usize = 0;
    while j < block.transactions.len()
        invariant
            j <= block.transactions.len(),
            ts == block.timestamp,
            txs == block@.transactions,
            inputs@ == in0 + stream_text(transactions_rows(ts, txs.take(j as int), Side::Inputs)),
            outputs@ == out0 + stream_text(
                transactions_rows(ts, txs.take(j as int), Side::Outputs),
            ),
        decreases block.transactions.len() - j,
    {
        let tx = &block.transactions[j];
        emit_entries(block.timestamp, &tx.inputs, inputs);
        emit_entries(block.timestamp, &tx.outputs, outputs);
        proof {
            assert(txs[j as int] == tx@);
            let fi = |t: TransactionModel| transaction_rows(ts, t, Side::Inputs);
            let fo = |t: TransactionModel| transaction_rows(ts, t, Side::Outputs);
            assert(txs.take(j + 1).map_values(fi).drop_last() =~= txs.take(j as int).map_values(
                fi,
            ));
            assert(txs.take(j + 1).map_values(fo).drop_last() =~= txs.take(j as int).map_values(
                fo,
            ));
            lemma_stream_text_concat(
                transactions_rows(ts, txs.take(j as int), Side::Inputs),
                transaction_rows(ts, tx@, Side::Inputs),
            );
            lemma_stream_text_concat(
                transactions_rows(ts, txs.take(j as int), Side::Outputs),
                transaction_rows(ts, tx@, Side::Outputs),
            );
        }
        j = j + 1;
    }
    assert(txs.take(block.transactions.len() as int) =~= txs);
    block.transactions.len() as u64
}

/// Both tables of a chain held in memory, each with its header.
pub fn extract_tables(chain: &Vec<Block>) -> (r: Tables)
    ensures
        r.inputs@ == table_text(chain_view(chain@), Side::Inputs),
        r.outputs@ == table_text(chain_view(chain@), Side::Outputs),
{
    let ghost model = chain_view(chain@);
    let mut inputs = String::from_str(TABLE_HEADER);
    let mut outputs = String::from_str(TABLE_HEADER);
    let mut h: usize = 0;
    while h < chain.len()
        invariant
            h <= chain.len(),
            model == chain_view(chain@),
            inputs@ == TABLE_HEADER@ + stream_text(chain_rows(model.take(h as int), Side::Inputs)),
            outputs@ == TABLE_HEADER@ + stream_text(
                chain_rows(model.take(h as int), Side::Outputs),
            ),
        decreases chain.len() - h,
    {
        emit_block(&chain[h], &mut inputs, &mut outputs);
        proof {
            let b = model[h as int];
            let fi = |b: BlockModel| block_rows(b, Side::Inputs);
            let fo = |b: BlockModel| block_rows(b, Side::Outputs);
            assert(model.take(h + 1).map_values(fi).drop_last() =~= model.take(h as int).map_values(
                fi,
            ));
            assert(model.take(h + 1).map_values(fo).drop_last() =~= model.take(h as int).map_values(
                fo,
            ));
            lemma_stream_text_concat(
                chain_rows(model.take(h as int), Side::Inputs),
                block_rows(b, Side::Inputs),
            );
            lemma_stream_text_concat(
                chain_rows(model.take(h as int), Side::Outputs),
                block_rows(b, Side::Outputs),
            );
        }
        h = h + 1;
    }
    assert(model.take(chain.len() as int) =~= model);
    Tables { inputs, outputs }
}

} // verus!
