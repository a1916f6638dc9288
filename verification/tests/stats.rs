use set_simulator::text::{parse_u64, split_on, u64_to_string};
use set_simulator::{parse_hand_type, parse_row, parse_table, AggregateTable, HandType, Info};

fn info(set_count: usize, hand_size: usize, deals: usize, hand_type: HandType) -> Info {
    Info { set_count, hand_size, deals, hand_type }
}

fn chars(s: &str) -> Vec<char> {
    s.chars().collect()
}

#[test]
fn numbers_render_exactly() {
    assert_eq!(u64_to_string(0), "0");
    assert_eq!(u64_to_string(7), "7");
    assert_eq!(u64_to_string(42), "42");
    assert_eq!(u64_to_string(1203), "1203");
    assert_eq!(u64_to_string(u64::MAX), "18446744073709551615");
}

#[test]
fn numbers_parse_exactly() {
    assert_eq!(parse_u64(&chars("0")), Some(0));
    assert_eq!(parse_u64(&chars("0042")), Some(42));
    assert_eq!(parse_u64(&chars("18446744073709551615")), Some(u64::MAX));
    assert_eq!(parse_u64(&chars("18446744073709551616")), None);
    assert_eq!(parse_u64(&chars("")), None);
    assert_eq!(parse_u64(&chars("12a")), None);
    assert_eq!(parse_u64(&chars("-3")), None);
}

#[test]
fn splitting_keeps_every_field() {
    let fields = split_on("a,bb,,c", ',');
    let views: Vec<String> = fields.iter().map(|f| f.iter().collect()).collect();
    assert_eq!(views, vec!["a", "bb", "", "c"]);
    let single = split_on("plain", ',');
    assert_eq!(single.len(), 1);
    let empty = split_on("", ',');
    assert_eq!(empty.len(), 1);
    assert!(empty[0].is_empty());
}

#[test]
fn hand_types_parse_and_render() {
    assert_eq!(HandType::from_str("ascending"), Ok(HandType::Ascending));
    assert_eq!(HandType::from_str("descending"), Ok(HandType::Descending));
    assert!(HandType::from_str("sideways").is_err());
    assert!(HandType::from_str("").is_err());
    assert_eq!(HandType::Ascending.name(), "ascending");
    assert_eq!(HandType::Descending.name(), "descending");
    assert_eq!(parse_hand_type(&chars("ascending")), Some(HandType::Ascending));
    assert_eq!(parse_hand_type(&chars("ascending ")), None);
}

#[test]
fn snapshots_serialize_exactly() {
    let i = info(3, 12, 0, HandType::Ascending);
    assert_eq!(i.serialize(), "3,12,0,ascending");
    let j = info(0, 18, 21, HandType::Descending);
    assert_eq!(j.serialize(), "0,18,21,descending");
}

#[test]
fn rows_parse_exactly() {
    let row = parse_row(&chars("3,12,0,ascending,25"));
    assert_eq!(row, Some((info(3, 12, 0, HandType::Ascending), 25)));
    assert_eq!(parse_row(&chars("3,12,0,ascending")), None);
    assert_eq!(parse_row(&chars("3,12,0,upwards,25")), None);
    assert_eq!(parse_row(&chars("3,12,zero,ascending,25")), None);
    assert_eq!(parse_row(&chars("3,12,0,ascending,25,9")), None);
}

#[test]
fn tables_render_and_parse_back() {
    let mut table = AggregateTable::new();
    table.add(info(3, 12, 0, HandType::Ascending), 2);
    table.add(info(0, 15, 4, HandType::Descending), 7);
    let text = table.render();
    assert_eq!(
        text,
        "sets,hand_size,deals,hand_type,count\n3,12,0,ascending,2\n0,15,4,descending,7"
    );
    let rows = parse_table(&text).unwrap();
    assert_eq!(rows.len(), 2);
    assert_eq!(rows[0], (info(3, 12, 0, HandType::Ascending), 2));
    assert_eq!(rows[1], (info(0, 15, 4, HandType::Descending), 7));
}

#[test]
fn empty_and_header_only_tables_parse() {
    assert_eq!(parse_table("").unwrap().len(), 0);
    assert_eq!(
        parse_table("sets,hand_size,deals,hand_type,count").unwrap().len(),
        0
    );
}

#[test]
fn malformed_tables_are_rejected_whole() {
    let text = "sets,hand_size,deals,hand_type,count\n3,12,0,ascending,2\nbroken row";
    assert!(parse_table(text).is_none());
    let mut table = AggregateTable::new();
    table.add(info(1, 12, 0, HandType::Ascending), 1);
    let ok = table.load_table(text);
    assert!(!ok);
    // the failed load left the table untouched
    assert_eq!(table.len(), 1);
    assert_eq!(table.render(), "sets,hand_size,deals,hand_type,count\n1,12,0,ascending,1");
}

#[test]
fn loading_a_good_table_accumulates() {
    let mut table = AggregateTable::new();
    table.add(info(3, 12, 0, HandType::Ascending), 2);
    let ok = table.load_table(
        "sets,hand_size,deals,hand_type,count\n3,12,0,ascending,5\n1,15,2,descending,4",
    );
    assert!(ok);
    assert_eq!(
        table.render(),
        "sets,hand_size,deals,hand_type,count\n3,12,0,ascending,7\n1,15,2,descending,4"
    );
}

/// Merging the same per-game list twice gives exactly doubled counts: no key
/// is split or lost.
#[test]
fn merging_twice_doubles_counts() {
    let game: Vec<Info> = vec![
        info(2, 12, 0, HandType::Ascending),
        info(1, 12, 1, HandType::Ascending),
        info(2, 12, 0, HandType::Ascending),
        info(0, 15, 2, HandType::Descending),
    ];
    let mut once = AggregateTable::new();
    once.merge_game(&game);
    let mut twice = AggregateTable::new();
    twice.merge_game(&game);
    twice.merge_game(&game);
    assert_eq!(once.len(), 3);
    assert_eq!(twice.len(), 3);
    assert_eq!(
        once.render(),
        "sets,hand_size,deals,hand_type,count\n\
         2,12,0,ascending,2\n1,12,1,ascending,1\n0,15,2,descending,1"
    );
    assert_eq!(
        twice.render(),
        "sets,hand_size,deals,hand_type,count\n\
         2,12,0,ascending,4\n1,12,1,ascending,2\n0,15,2,descending,2"
    );
}
