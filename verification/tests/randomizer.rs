use cc_item_randomizer::digits::is_canonical_u32;
use cc_item_randomizer::digits::parse_u32;
use cc_item_randomizer::digits::u32_to_string;
use cc_item_randomizer::driver::apply_all;
use cc_item_randomizer::driver::collect_all;
use cc_item_randomizer::driver::randomize_files;
use cc_item_randomizer::files::check_file_wf;
use cc_item_randomizer::node::check_wf;
use cc_item_randomizer::node::filter;
use cc_item_randomizer::node::Node;

fn pickup(item: &str, amount: u64) -> Node {
    Node::Obj(vec![
        ("item".to_string(), Node::Str(item.to_string())),
        ("amount".to_string(), Node::Num(amount)),
    ])
}

fn map_file(entities: Vec<Node>) -> Node {
    Node::Obj(vec![
        ("name".to_string(), Node::Str("area".to_string())),
        ("entities".to_string(), Node::Arr(entities)),
    ])
}

fn sorted(mut pairs: Vec<(u32, u64)>) -> Vec<(u32, u64)> {
    pairs.sort();
    pairs
}

#[test]
fn parse_decimal_values() {
    assert_eq!(parse_u32("0"), Some(0));
    assert_eq!(parse_u32("23"), Some(23));
    assert_eq!(parse_u32("+7"), Some(7));
    assert_eq!(parse_u32("05"), Some(5));
    assert_eq!(parse_u32("4294967295"), Some(4294967295));
}

#[test]
fn parse_rejects_bad_input() {
    assert_eq!(parse_u32(""), None);
    assert_eq!(parse_u32("+"), None);
    assert_eq!(parse_u32("-1"), None);
    assert_eq!(parse_u32("12a"), None);
    assert_eq!(parse_u32("4294967296"), None);
    assert_eq!(parse_u32("99999999999999999999"), None);
}

#[test]
fn format_round_trip() {
    assert_eq!(u32_to_string(0), "0");
    assert_eq!(u32_to_string(7), "7");
    assert_eq!(u32_to_string(230), "230");
    assert_eq!(u32_to_string(4294967295), "4294967295");
    assert!(is_canonical_u32("23"));
    assert!(!is_canonical_u32("023"));
    assert!(!is_canonical_u32("+23"));
    assert!(!is_canonical_u32(""));
}

#[test]
fn filter_accepts_pickups() {
    assert!(filter(&pickup("5", 3)));
    assert!(filter(&pickup("22", 0)));
    assert!(filter(&pickup("27", 9)));
    // any number in the amount slot passes the filter, integral or not
    let odd_amount = Node::Obj(vec![
        ("item".to_string(), Node::Str("5".to_string())),
        ("amount".to_string(), Node::NumText("1.5".to_string())),
    ]);
    assert!(filter(&odd_amount));
}

#[test]
fn filter_rejects_reserved_ids() {
    for id in ["23", "24", "25", "26"] {
        assert!(!filter(&pickup(id, 1)));
        assert!(!filter(&pickup(id, 0)));
        assert!(!filter(&pickup(id, 999)));
    }
}

#[test]
fn filter_rejects_malformed_entries() {
    // item missing
    assert!(!filter(&Node::Obj(vec![("amount".to_string(), Node::Num(1))])));
    // item not a string
    assert!(!filter(&Node::Obj(vec![
        ("item".to_string(), Node::Num(5)),
        ("amount".to_string(), Node::Num(1)),
    ])));
    // amount missing
    assert!(!filter(&Node::Obj(vec![(
        "item".to_string(),
        Node::Str("5".to_string()),
    )])));
    // amount not a number
    assert!(!filter(&Node::Obj(vec![
        ("item".to_string(), Node::Str("5".to_string())),
        ("amount".to_string(), Node::Str("1".to_string())),
    ])));
    // not an object at all
    assert!(!filter(&Node::Str("item".to_string())));
    assert!(!filter(&Node::Null));
}

fn nested_file() -> Node {
    // a pickup at the top of `entities`, one nested in a wrapper object, and
    // one nested in an array, with a reserved entry in between
    map_file(vec![
        pickup("5", 3),
        Node::Obj(vec![
            ("kind".to_string(), Node::Str("group".to_string())),
            ("inner".to_string(), pickup("8", 1)),
        ]),
        pickup("23", 7),
        Node::Arr(vec![Node::Null, pickup("13", 2)]),
    ])
}

#[test]
fn collect_order_and_nesting() {
    let files = vec![nested_file()];
    let pool = collect_all(&files);
    assert_eq!(pool, vec![(5, 3), (8, 1), (13, 2)]);
}

#[test]
fn walk_determinism() {
    // two consecutive read-only walks over the same files see the same
    // pairs in the same order
    let files_a = vec![nested_file(), map_file(vec![pickup("7", 2)])];
    let files_b = vec![nested_file(), map_file(vec![pickup("7", 2)])];
    let first = collect_all(&files_a);
    let second = collect_all(&files_a);
    assert_eq!(first, second);
    assert_eq!(first, collect_all(&files_b));
    assert_eq!(first, vec![(5, 3), (8, 1), (13, 2), (7, 2)]);
}

#[test]
fn apply_places_pool_in_reverse() {
    let files = vec![
        map_file(vec![pickup("5", 3), pickup("8", 1)]),
        map_file(vec![pickup("13", 2)]),
    ];
    let mut pool: Vec<(u32, u64)> = vec![(90, 9), (80, 8), (70, 7)];
    let (rewritten, flags) = apply_all(files, &mut pool);
    assert!(pool.is_empty());
    assert_eq!(flags, vec![true, true]);
    // the write pass pops from the end of the pool, one pair per visited
    // entry, in the read pass's order
    assert_eq!(collect_all(&rewritten), vec![(70, 7), (80, 8), (90, 9)]);
}

#[test]
fn apply_leaves_pool_prefix() {
    let files = vec![map_file(vec![pickup("5", 3)])];
    let mut pool: Vec<(u32, u64)> = vec![(1, 1), (2, 2), (3, 3)];
    let (rewritten, _) = apply_all(files, &mut pool);
    assert_eq!(pool, vec![(1, 1), (2, 2)]);
    assert_eq!(collect_all(&rewritten), vec![(3, 3)]);
}

#[test]
fn conservation_across_run() {
    let files = vec![
        nested_file(),
        map_file(vec![pickup("7", 2), pickup("7", 2), pickup("100", 64)]),
        map_file(vec![]),
    ];
    let before = collect_all(&files);
    let (rewritten, _) = randomize_files(files);
    let after = collect_all(&rewritten);
    assert_eq!(sorted(before), sorted(after));
}

#[test]
fn scenario_two_files() {
    let files = vec![
        map_file(vec![pickup("5", 3), pickup("23", 1)]),
        map_file(vec![pickup("7", 2)]),
    ];
    let (rewritten, flags) = randomize_files(files);
    assert_eq!(flags, vec![true, true]);
    // the reserved entry is untouched
    match &rewritten[0] {
        Node::Obj(es) => match &es[1].1 {
            Node::Arr(entities) => assert_eq!(entities[1], pickup("23", 1)),
            other => panic!("entities is {:?}", other),
        },
        other => panic!("file root is {:?}", other),
    }
    // the two other entries hold a permutation of the original pairs
    let after = collect_all(&rewritten);
    assert_eq!(sorted(after), vec![(5, 3), (7, 2)]);
}

#[test]
fn skip_file_without_match() {
    let original = map_file(vec![pickup("23", 1), Node::Null]);
    let files = vec![original, map_file(vec![pickup("5", 3)])];
    let (rewritten, flags) = randomize_files(files);
    // a file with no qualifying entry is never flagged for rewriting, and
    // comes back exactly as it was
    assert_eq!(flags, vec![false, true]);
    assert_eq!(rewritten[0], map_file(vec![pickup("23", 1), Node::Null]));
}

#[test]
fn single_pair_stays_put() {
    let files = vec![map_file(vec![pickup("5", 3)])];
    let (rewritten, flags) = randomize_files(files);
    assert_eq!(flags, vec![true]);
    assert_eq!(collect_all(&rewritten), vec![(5, 3)]);
    assert_eq!(rewritten[0], map_file(vec![pickup("5", 3)]));
}

#[test]
fn missing_or_odd_entities_is_skipped() {
    let no_entities = Node::Obj(vec![("name".to_string(), Node::Str("x".to_string()))]);
    let non_array = Node::Obj(vec![("entities".to_string(), Node::Num(4))]);
    let non_object = Node::Arr(vec![pickup("5", 3)]);
    let files = vec![no_entities, non_array, non_object];
    assert_eq!(collect_all(&files), vec![]);
    let (rewritten, flags) = randomize_files(files);
    assert_eq!(flags, vec![false, false, false]);
    assert_eq!(
        rewritten[0],
        Node::Obj(vec![("name".to_string(), Node::Str("x".to_string()))])
    );
    assert_eq!(
        rewritten[1],
        Node::Obj(vec![("entities".to_string(), Node::Num(4))])
    );
    assert_eq!(rewritten[2], Node::Arr(vec![pickup("5", 3)]));
}

#[test]
fn well_formedness_checks() {
    assert!(check_wf(&pickup("5", 3)));
    // a non-canonical id cannot be carried through a run faithfully
    assert!(!check_wf(&pickup("05", 3)));
    assert!(!check_wf(&pickup("+5", 3)));
    // a fractional amount would have no machine value to shuffle
    let odd_amount = Node::Obj(vec![
        ("item".to_string(), Node::Str("5".to_string())),
        ("amount".to_string(), Node::NumText("1.5".to_string())),
    ]);
    assert!(!check_wf(&odd_amount));
    // reserved entries are never visited, so their form does not matter
    assert!(check_wf(&pickup("23", 3)));
    assert!(check_file_wf(&map_file(vec![pickup("5", 3), Node::Null])));
    assert!(!check_file_wf(&map_file(vec![pickup("05", 3)])));
    assert!(check_file_wf(&Node::Null));
}
