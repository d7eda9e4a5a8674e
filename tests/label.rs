use chain_csv::label::addresses_to_string;

fn set(items: &[&str]) -> Vec<String> {
    items.iter().map(|s| s.to_string()).collect()
}

#[test]
fn empty_set_gives_empty_label() {
    assert_eq!(addresses_to_string(&set(&[])), "");
}

#[test]
fn single_address_is_kept_as_is() {
    assert_eq!(addresses_to_string(&set(&["a"])), "a");
    assert_eq!(
        addresses_to_string(&set(&["1BoatSLRHtKNngkdXEeobR76b53LETtpyT"])),
        "1BoatSLRHtKNngkdXEeobR76b53LETtpyT"
    );
}

#[test]
fn two_addresses_are_sorted_and_joined() {
    assert_eq!(addresses_to_string(&set(&["b", "a"])), "a-b");
}

#[test]
fn three_addresses_are_sorted_and_joined() {
    assert_eq!(addresses_to_string(&set(&["z", "a", "m"])), "a-m-z");
}

#[test]
fn label_is_the_same_for_every_enumeration_order() {
    let orders = [
        ["z", "a", "m"],
        ["a", "m", "z"],
        ["m", "z", "a"],
        ["z", "m", "a"],
        ["a", "z", "m"],
        ["m", "a", "z"],
    ];
    for order in orders.iter() {
        assert_eq!(addresses_to_string(&set(order)), "a-m-z");
    }
}

#[test]
fn order_is_bytewise() {
    assert_eq!(addresses_to_string(&set(&["b", "B", "a", "A"])), "A-B-a-b");
    assert_eq!(addresses_to_string(&set(&["ab", "a", "abc"])), "a-ab-abc");
    assert_eq!(addresses_to_string(&set(&["bc1q", "3J98", "1A1z"])), "1A1z-3J98-bc1q");
}

#[test]
fn hyphens_inside_addresses_are_not_escaped() {
    assert_eq!(addresses_to_string(&set(&["x-y", "a"])), "a-x-y");
}
