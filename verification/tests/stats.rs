use level_stats::level::{parse_level, Gadget, Level, TerrainGroup, TerrainPart};
use level_stats::resolve::ResolveError;
use level_stats::stats::{
    count_object, count_terrain, get_sorted_keys, AggregateError, CountTable, Counts, Report,
};

fn key(s: &str) -> String {
    s.to_string()
}

fn counts(terrain: u64, objects: u64) -> Option<Counts> {
    Some(Counts { terrain, objects })
}

fn gadgets_level(style: &str, n: usize) -> String {
    let mut text = String::new();
    for i in 0..n {
        text.push_str(&format!("$GADGET\nSTYLE {}\nPIECE p{}\n$END\n", style, i));
    }
    text
}

#[test]
fn gadget_counts_add_up_over_levels() {
    let first = parse_level(&gadgets_level("Crate", 2)).unwrap();
    let second = parse_level(&gadgets_level("Crate", 3)).unwrap();
    let mut report = Report::new();
    assert_eq!(report.add_level(&key("one.nxlv"), &first), Ok(()));
    assert_eq!(report.add_level(&key("two.nxlv"), &second), Ok(()));
    assert_eq!(report.per_style().get(&key("Crate")), counts(0, 5));
    assert_eq!(report.per_level().get(&key("one.nxlv")), counts(0, 2));
    assert_eq!(report.per_level().get(&key("two.nxlv")), counts(0, 3));
    assert_eq!(report.total_objects(), 5);
    assert_eq!(report.total_terrain(), 0);
}

#[test]
fn new_table_is_empty() {
    let table = CountTable::new();
    assert_eq!(table.len(), 0);
    assert_eq!(table.get(&key("a")), None);
    assert!(get_sorted_keys(&table).is_empty());
}

#[test]
fn count_object_starts_at_one() {
    let mut table = CountTable::new();
    count_object(&mut table, &key("a"));
    assert_eq!(table.get(&key("a")), counts(0, 1));
    count_object(&mut table, &key("a"));
    count_object(&mut table, &key("b"));
    assert_eq!(table.get(&key("a")), counts(0, 2));
    assert_eq!(table.get(&key("b")), counts(0, 1));
    assert_eq!(table.get(&key("c")), None);
    assert_eq!(table.len(), 2);
}

#[test]
fn count_terrain_starts_at_one() {
    let mut table = CountTable::new();
    count_terrain(&mut table, &key("a"));
    assert_eq!(table.get(&key("a")), counts(1, 0));
    count_terrain(&mut table, &key("a"));
    count_terrain(&mut table, &key("a"));
    assert_eq!(table.get(&key("a")), counts(3, 0));
}

#[test]
fn both_counts_share_a_key() {
    let mut table = CountTable::new();
    count_terrain(&mut table, &key("rock"));
    count_object(&mut table, &key("rock"));
    count_object(&mut table, &key("Rock"));
    count_terrain(&mut table, &key("rock"));
    assert_eq!(table.get(&key("rock")), counts(2, 1));
    assert_eq!(table.get(&key("Rock")), counts(0, 1));
    assert_eq!(table.len(), 2);
}

#[test]
fn keys_come_out_sorted() {
    let mut table = CountTable::new();
    for k in ["b", "a", "ab", "B", "", "a", "\u{e9}", "z", "abc", "b"] {
        count_object(&mut table, &key(k));
    }
    let keys: Vec<&str> = get_sorted_keys(&table).into_iter().map(|k| k.as_str()).collect();
    assert_eq!(keys, vec!["", "B", "a", "ab", "abc", "b", "z", "\u{e9}"]);
}

#[test]
fn sorted_keys_leave_the_counts_alone() {
    let mut table = CountTable::new();
    count_object(&mut table, &key("z"));
    count_terrain(&mut table, &key("a"));
    let keys: Vec<String> = get_sorted_keys(&table).into_iter().cloned().collect();
    assert_eq!(keys, vec![key("a"), key("z")]);
    assert_eq!(table.get(&key("z")), counts(0, 1));
    assert_eq!(table.get(&key("a")), counts(1, 0));
}

#[test]
fn new_report_counts_nothing() {
    let report = Report::new();
    assert_eq!(report.total_objects(), 0);
    assert_eq!(report.total_terrain(), 0);
    assert_eq!(report.per_style().len(), 0);
    assert_eq!(report.per_level().len(), 0);
}

#[test]
fn terrain_is_counted_after_resolution() {
    let text = "$TERRAINGROUP\nNAME g\n$TERRAIN\nSTYLE rock\nPIECE a\n$END\n$TERRAIN\nSTYLE moss\nPIECE b\n$END\n$END\n\
                $TERRAIN\nSTYLE *GROUP\nPIECE g\n$END\n$TERRAIN\nSTYLE rock\nPIECE c\n$END\n$TERRAIN\nSTYLE *group\nPIECE g\n$END\n\
                $GADGET\nSTYLE rock\nPIECE door\n$END\n";
    let level = parse_level(text).unwrap();
    let mut report = Report::new();
    assert_eq!(report.add_level(&key("l"), &level), Ok(()));
    assert_eq!(report.per_style().get(&key("rock")), counts(3, 1));
    assert_eq!(report.per_style().get(&key("moss")), counts(2, 0));
    assert_eq!(report.per_style().get(&key("*GROUP")), None);
    assert_eq!(report.per_style().get(&key("*group")), None);
    assert_eq!(report.per_level().get(&key("l")), counts(5, 1));
    assert_eq!(report.total_terrain(), 5);
    assert_eq!(report.total_objects(), 1);
    let styles: Vec<&str> = get_sorted_keys(report.per_style()).into_iter().map(|k| k.as_str()).collect();
    assert_eq!(styles, vec!["moss", "rock"]);
}

#[test]
fn level_without_entities_gets_no_row() {
    let level = parse_level("# empty\n").unwrap();
    let mut report = Report::new();
    assert_eq!(report.add_level(&key("empty.nxlv"), &level), Ok(()));
    assert_eq!(report.per_level().get(&key("empty.nxlv")), None);
    assert_eq!(report.per_level().len(), 0);
}

#[test]
fn unresolved_level_leaves_the_report_as_it_was() {
    let good = parse_level("$GADGET\nSTYLE s\n$END\n$TERRAIN\nSTYLE t\n$END").unwrap();
    let bad = Level {
        gadgets: vec![Gadget { style: key("s"), piece: key("p") }],
        groups: vec![],
        terrain: vec![
            TerrainPart { style: key("t"), piece: key("q") },
            TerrainPart { style: key("*GROUP"), piece: key("missing") },
        ],
    };
    let mut report = Report::new();
    assert_eq!(report.add_level(&key("good"), &good), Ok(()));
    assert_eq!(
        report.add_level(&key("bad"), &bad),
        Err(AggregateError::Unresolved(ResolveError::UnknownGroup(key("missing"))))
    );
    assert_eq!(report.per_style().get(&key("s")), counts(0, 1));
    assert_eq!(report.per_style().get(&key("t")), counts(1, 0));
    assert_eq!(report.per_level().get(&key("bad")), None);
    assert_eq!(report.total_objects(), 1);
    assert_eq!(report.total_terrain(), 1);
}

#[test]
fn cyclic_level_leaves_the_report_as_it_was() {
    let cyclic = Level {
        gadgets: vec![Gadget { style: key("s"), piece: key("p") }],
        groups: vec![TerrainGroup {
            name: key("g"),
            terrain: vec![TerrainPart { style: key("*GROUP"), piece: key("g") }],
        }],
        terrain: vec![TerrainPart { style: key("*GROUP"), piece: key("g") }],
    };
    let mut report = Report::new();
    assert_eq!(
        report.add_level(&key("c"), &cyclic),
        Err(AggregateError::Unresolved(ResolveError::CyclicGroup(key("g"))))
    );
    assert_eq!(report.total_objects(), 0);
    assert_eq!(report.per_style().len(), 0);
}

#[test]
fn same_level_name_is_one_row() {
    let level = parse_level(&gadgets_level("a", 1)).unwrap();
    let mut report = Report::new();
    assert_eq!(report.add_level(&key("x"), &level), Ok(()));
    assert_eq!(report.add_level(&key("x"), &level), Ok(()));
    assert_eq!(report.per_level().get(&key("x")), counts(0, 2));
    assert_eq!(report.per_level().len(), 1);
}
