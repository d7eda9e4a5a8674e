use chain_csv::chain::{Block, Entry, Transaction};
use chain_csv::emit::{emit_block, extract_tables, format_row, TABLE_HEADER};
use chain_csv::progress::estimate_total;

fn entry(value: u64, addresses: &[&str]) -> Entry {
    Entry { addresses: addresses.iter().map(|s| s.to_string()).collect(), value }
}

fn two_block_chain() -> Vec<Block> {
    vec![
        Block {
            timestamp: 1000,
            transactions: vec![Transaction {
                inputs: vec![entry(5, &["A", "B"])],
                outputs: vec![entry(3, &[])],
            }],
        },
        Block {
            timestamp: 2000,
            transactions: vec![Transaction {
                inputs: vec![entry(1, &["C"])],
                outputs: vec![entry(1, &["C"])],
            }],
        },
    ]
}

fn wider_chain(swap_addresses: bool) -> Vec<Block> {
    let pair: &[&str] = if swap_addresses { &["q", "p"] } else { &["p", "q"] };
    vec![
        Block {
            timestamp: 7,
            transactions: vec![
                Transaction {
                    inputs: vec![entry(10, &["x"]), entry(11, pair)],
                    outputs: vec![entry(20, &["y"])],
                },
                Transaction { inputs: vec![], outputs: vec![entry(21, &["z"]), entry(22, &[])] },
            ],
        },
        Block { timestamp: 8, transactions: vec![] },
        Block {
            timestamp: 9,
            transactions: vec![Transaction {
                inputs: vec![entry(12, &["w"])],
                outputs: vec![entry(23, pair)],
            }],
        },
    ]
}

#[test]
fn header_line() {
    assert_eq!(TABLE_HEADER, "timestamp,address,value\n");
}

#[test]
fn two_block_chain_tables() {
    let t = extract_tables(&two_block_chain());
    assert_eq!(t.inputs, format!("{}1000,A-B,5\n2000,C,1\n", TABLE_HEADER));
    assert_eq!(t.outputs, format!("{}1000,,3\n2000,C,1\n", TABLE_HEADER));
}

#[test]
fn empty_chain_gives_only_headers() {
    let t = extract_tables(&vec![]);
    assert_eq!(t.inputs, "timestamp,address,value\n");
    assert_eq!(t.outputs, "timestamp,address,value\n");
}

#[test]
fn running_twice_gives_identical_tables() {
    let first = extract_tables(&wider_chain(false));
    let second = extract_tables(&wider_chain(false));
    assert_eq!(first.inputs, second.inputs);
    assert_eq!(first.outputs, second.outputs);
    let swapped = extract_tables(&wider_chain(true));
    assert_eq!(first.inputs, swapped.inputs);
    assert_eq!(first.outputs, swapped.outputs);
}

#[test]
fn one_row_per_input_and_output_in_chain_order() {
    let t = extract_tables(&wider_chain(false));
    let inputs: Vec<&str> = t.inputs.lines().collect();
    let outputs: Vec<&str> = t.outputs.lines().collect();
    assert_eq!(inputs, vec!["timestamp,address,value", "7,x,10", "7,p-q,11", "9,w,12"]);
    assert_eq!(
        outputs,
        vec!["timestamp,address,value", "7,y,20", "7,z,21", "7,,22", "9,p-q,23"]
    );
}

#[test]
fn emit_block_appends_and_counts_transactions() {
    let chain = wider_chain(false);
    let mut inputs = String::from("before\n");
    let mut outputs = String::new();
    let n = emit_block(&chain[0], &mut inputs, &mut outputs);
    assert_eq!(n, 2);
    assert_eq!(inputs, "before\n7,x,10\n7,p-q,11\n");
    assert_eq!(outputs, "7,y,20\n7,z,21\n7,,22\n");
    let n = emit_block(&chain[1], &mut inputs, &mut outputs);
    assert_eq!(n, 0);
    assert_eq!(inputs, "before\n7,x,10\n7,p-q,11\n");
}

#[test]
fn row_line_format() {
    assert_eq!(format_row(0, "", 0), "0,,0\n");
    assert_eq!(format_row(1231006505, "a-b", 5000000000), "1231006505,a-b,5000000000\n");
    assert_eq!(
        format_row(u32::MAX, "x,y", u64::MAX),
        "4294967295,x,y,18446744073709551615\n"
    );
}

#[test]
fn total_is_the_sum_of_header_counts() {
    assert_eq!(estimate_total(&vec![]), 0);
    assert_eq!(estimate_total(&vec![1, 1, 3, 0, 7]), 12);
    assert_eq!(estimate_total(&vec![u32::MAX, u32::MAX]), 2 * (u32::MAX as u64));
}

#[test]
fn total_matches_transactions_walked() {
    let chain = wider_chain(false);
    let counts: Vec<u32> = chain.iter().map(|b| b.transactions.len() as u32).collect();
    let mut inputs = String::new();
    let mut outputs = String::new();
    let mut walked = 0u64;
    for b in chain.iter() {
        walked += emit_block(b, &mut inputs, &mut outputs);
    }
    assert_eq!(estimate_total(&counts), walked);
    assert_eq!(walked, 3);
}
