use knapsack::{Item, ItemError, Knapsack, ParseError, RunError};

const TINY: &str = "3\n1 3 8\n2 2 8\n3 9 1\n10\n";

#[test]
fn parse_from_file_path() {
    let knapsack = Knapsack::parse(TINY.as_bytes()).unwrap();
    assert_eq!(knapsack.num_items(), 3);
    assert_eq!(knapsack.get_item(0), Some(&Item::new(1, 3, 8)));
    assert_eq!(knapsack.get_item(1), Some(&Item::new(2, 2, 8)));
    assert_eq!(knapsack.get_item(2), Some(&Item::new(3, 9, 1)));
    assert_eq!(knapsack.capacity(), 10);
}

#[test]
fn item_accessors() {
    let item = Item::new(4, 11, 23);
    assert_eq!(item.id(), 4);
    assert_eq!(item.value(), 11);
    assert_eq!(item.weight(), 23);
}

#[test]
fn knapsack_accessors() {
    let knapsack = Knapsack::parse(TINY.as_bytes()).unwrap();
    assert_eq!(knapsack.get_item(3), None);
    assert_eq!(knapsack.items().len(), 3);
    assert_eq!(knapsack.items()[2], Item::new(3, 9, 1));
    let ids: Vec<u64> = knapsack.iter().map(|it| it.id()).collect();
    assert_eq!(ids, vec![1, 2, 3]);
}

#[test]
fn parse_line_reads_three_fields() {
    assert_eq!(Item::parse_line(b"7 12 30"), Ok(Item::new(7, 12, 30)));
    assert_eq!(Item::parse_line(b"  7\t12   30  "), Ok(Item::new(7, 12, 30)));
    assert_eq!(Item::parse_line(b"+7 0 18446744073709551615"), Ok(Item::new(7, 0, u64::MAX)));
}

#[test]
fn parse_line_rejects_malformed_integer() {
    assert_eq!(
        Item::parse_line(b"1 x 3"),
        Err(ItemError::MalformedInteger { field: 1 })
    );
    assert_eq!(
        Item::parse_line(b"1 2 18446744073709551616"),
        Err(ItemError::MalformedInteger { field: 2 })
    );
    assert_eq!(
        Item::parse_line(b"-1 2 3"),
        Err(ItemError::MalformedInteger { field: 0 })
    );
    assert_eq!(
        Item::parse_line(b"1 2 3 4 +"),
        Err(ItemError::MalformedInteger { field: 4 })
    );
}

#[test]
fn parse_line_rejects_wrong_field_count() {
    assert_eq!(
        Item::parse_line(b"1 2"),
        Err(ItemError::WrongFieldCount { found: 2, expected: 3 })
    );
    assert_eq!(
        Item::parse_line(b"1 2 3 4"),
        Err(ItemError::WrongFieldCount { found: 4, expected: 3 })
    );
    assert_eq!(
        Item::parse_line(b""),
        Err(ItemError::WrongFieldCount { found: 0, expected: 3 })
    );
}

#[test]
fn parse_rejects_empty_input() {
    assert_eq!(Knapsack::parse(b"").unwrap_err(), ParseError::EmptyInput);
}

#[test]
fn parse_rejects_illegal_item_count() {
    assert_eq!(Knapsack::parse(b"three\n").unwrap_err(), ParseError::IllegalItemCount);
    assert_eq!(Knapsack::parse(b" 3\n").unwrap_err(), ParseError::IllegalItemCount);
    assert_eq!(Knapsack::parse(b"\n").unwrap_err(), ParseError::IllegalItemCount);
}

#[test]
fn parse_tags_bad_item_with_its_line() {
    assert_eq!(
        Knapsack::parse(b"2\n1 2 3\n1 x 3\n5\n").unwrap_err(),
        ParseError::Item { line: 3, error: ItemError::MalformedInteger { field: 1 } }
    );
    assert_eq!(
        Knapsack::parse(b"2\n1 2\n1 2 3\n5\n").unwrap_err(),
        ParseError::Item { line: 2, error: ItemError::WrongFieldCount { found: 2, expected: 3 } }
    );
}

#[test]
fn parse_rejects_missing_capacity() {
    assert_eq!(Knapsack::parse(b"2\n1 2 3\n").unwrap_err(), ParseError::MissingCapacity);
    assert_eq!(Knapsack::parse(b"1\n1 2 3\n").unwrap_err(), ParseError::MissingCapacity);
    assert_eq!(Knapsack::parse(b"0").unwrap_err(), ParseError::MissingCapacity);
}

#[test]
fn parse_reports_bad_item_before_missing_capacity() {
    assert_eq!(
        Knapsack::parse(b"3\n1 2 3\nnope\n").unwrap_err(),
        ParseError::Item { line: 3, error: ItemError::MalformedInteger { field: 0 } }
    );
}

#[test]
fn parse_rejects_malformed_capacity() {
    assert_eq!(Knapsack::parse(b"1\n1 2 3\nabc\n").unwrap_err(), ParseError::MalformedCapacity);
    assert_eq!(Knapsack::parse(b"0\n10 \n").unwrap_err(), ParseError::MalformedCapacity);
}

#[test]
fn parse_ignores_trailing_lines_and_handles_crlf() {
    let knapsack = Knapsack::parse(b"1\r\n4 5 6\r\n7\r\nanything\n").unwrap();
    assert_eq!(knapsack.items(), &[Item::new(4, 5, 6)][..]);
    assert_eq!(knapsack.capacity(), 7);
    let knapsack = Knapsack::parse(b"0\n9").unwrap();
    assert_eq!(knapsack.num_items(), 0);
    assert_eq!(knapsack.capacity(), 9);
}

#[test]
fn to_text_writes_the_instance_format() {
    let knapsack = Knapsack::new(vec![Item::new(1, 3, 8), Item::new(2, 2, 8), Item::new(3, 9, 1)], 10);
    assert_eq!(knapsack.to_text(), TINY.as_bytes().to_vec());
    let empty = Knapsack::new(Vec::new(), 0);
    assert_eq!(empty.to_text(), b"0\n0\n".to_vec());
}

#[test]
fn written_instance_reads_back() {
    let items = vec![
        Item::new(0, 0, 0),
        Item::new(10, 1234567890, u64::MAX),
        Item::new(u64::MAX, 7, 100),
    ];
    let knapsack = Knapsack::new(items.clone(), 98765);
    let back = Knapsack::parse(&knapsack.to_text()).unwrap();
    assert_eq!(back.items(), &items[..]);
    assert_eq!(back.capacity(), 98765);
}

#[test]
fn parse_error_converts_into_run_error() {
    let error: RunError = ParseError::MissingCapacity.into();
    assert_eq!(error, RunError::ParseError(ParseError::MissingCapacity));
    assert_eq!(RunError::from(ParseError::EmptyInput), RunError::ParseError(ParseError::EmptyInput));
}

#[test]
fn item_from_str_reads_a_line() {
    let item: Item = "1 5 8".parse().unwrap();
    assert_eq!(item, Item::new(1, 5, 8));
    assert_eq!("1 5".parse::<Item>(), Err(ItemError::WrongFieldCount { found: 2, expected: 3 }));
}

#[test]
fn item_from_str_handles_whitespace_and_errors() {
    assert_eq!("  1\t3   8 ".parse::<Item>(), Ok(Item::new(1, 3, 8)));
    assert_eq!("1 2 3 4".parse::<Item>(), Err(ItemError::WrongFieldCount { found: 4, expected: 3 }));
    assert_eq!("".parse::<Item>(), Err(ItemError::WrongFieldCount { found: 0, expected: 3 }));
    assert_eq!("1 -5 3".parse::<Item>(), Err(ItemError::MalformedInteger { field: 1 }));
    assert_eq!("1 2.5 3".parse::<Item>(), Err(ItemError::MalformedInteger { field: 1 }));
    let text = format!("{} {} {}", u64::MAX, 0, 42);
    assert_eq!(text.parse::<Item>(), Ok(Item::new(u64::MAX, 0, 42)));
}
