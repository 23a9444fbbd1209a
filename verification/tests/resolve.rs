use level_stats::level::{parse_level, Gadget, Level, TerrainGroup, TerrainPart};
use level_stats::resolve::{find_group, visit_gadgets, visit_terrain_recursive, ResolveError};

fn part(style: &str, piece: &str) -> TerrainPart {
    TerrainPart { style: style.to_string(), piece: piece.to_string() }
}

fn group_ref(name: &str) -> TerrainPart {
    part("*GROUP", name)
}

fn group(name: &str, terrain: Vec<TerrainPart>) -> TerrainGroup {
    TerrainGroup { name: name.to_string(), terrain }
}

fn level(groups: Vec<TerrainGroup>, terrain: Vec<TerrainPart>) -> Level {
    Level { gadgets: vec![], groups, terrain }
}

fn pieces(level: &Level) -> Vec<String> {
    visit_terrain_recursive(level).unwrap().iter().map(|p| p.piece.clone()).collect()
}

#[test]
fn group_reference_visits_the_parts_of_the_group() {
    let t1 = part("rock", "T1");
    let t2 = part("moss", "T2");
    let l = level(vec![group("g1", vec![t1.clone(), t2.clone()])], vec![group_ref("g1")]);
    let mut leaves: Vec<TerrainPart> =
        visit_terrain_recursive(&l).unwrap().into_iter().cloned().collect();
    leaves.sort_by(|a, b| a.piece.cmp(&b.piece));
    assert_eq!(leaves, vec![t1, t2]);
}

#[test]
fn leaves_come_in_stack_order() {
    let l = level(
        vec![group("g", vec![part("s", "C"), part("s", "D")])],
        vec![part("s", "A"), group_ref("g")],
    );
    assert_eq!(pieces(&l), vec!["D", "C", "A"]);
}

#[test]
fn plain_terrain_is_visited_last_first() {
    let l = level(vec![], vec![part("a", "1"), part("b", "2"), part("c", "3")]);
    assert_eq!(pieces(&l), vec!["3", "2", "1"]);
    assert!(visit_terrain_recursive(&level(vec![], vec![])).unwrap().is_empty());
}

#[test]
fn nested_groups_are_expanded() {
    let l = level(
        vec![
            group("outer", vec![part("s", "1"), group_ref("inner"), part("s", "4")]),
            group("inner", vec![part("s", "2"), part("s", "3")]),
        ],
        vec![group_ref("outer"), part("s", "0"), group_ref("inner")],
    );
    assert_eq!(pieces(&l), vec!["3", "2", "0", "4", "3", "2", "1"]);
}

#[test]
fn group_marker_ignores_ascii_case() {
    let l = level(
        vec![group("g", vec![part("s", "x")])],
        vec![part("*group", "g"), part("*Group", "g"), part("*GROUP", "g")],
    );
    assert_eq!(pieces(&l), vec!["x", "x", "x"]);
}

#[test]
fn near_markers_are_plain_parts() {
    let l = level(vec![], vec![part("*GROUPS", "a"), part("GROUP", "b"), part("*GR\u{d6}UP", "c"), part("", "d")]);
    assert_eq!(pieces(&l), vec!["d", "c", "b", "a"]);
}

#[test]
fn group_names_are_case_sensitive() {
    let l = level(vec![group("G1", vec![])], vec![group_ref("g1")]);
    assert_eq!(visit_terrain_recursive(&l), Err(ResolveError::UnknownGroup("g1".to_string())));
}

#[test]
fn first_group_of_a_name_is_used() {
    let l = level(
        vec![group("g", vec![part("s", "first")]), group("g", vec![part("s", "second")])],
        vec![group_ref("g")],
    );
    assert_eq!(pieces(&l), vec!["first"]);
    assert_eq!(find_group(&l, &"g".to_string()), Some(0));
    assert_eq!(find_group(&l, &"h".to_string()), None);
}

#[test]
fn unknown_group_is_an_error() {
    let l = level(vec![], vec![group_ref("missing")]);
    assert_eq!(
        visit_terrain_recursive(&l),
        Err(ResolveError::UnknownGroup("missing".to_string()))
    );
    let l = level(vec![group("g", vec![part("s", "p")])], vec![group_ref("nope"), part("s", "a"), group_ref("g")]);
    assert_eq!(visit_terrain_recursive(&l), Err(ResolveError::UnknownGroup("nope".to_string())));
}

#[test]
fn unknown_group_inside_a_group_is_an_error() {
    let l = level(vec![group("g", vec![group_ref("deep")])], vec![group_ref("g")]);
    assert_eq!(visit_terrain_recursive(&l), Err(ResolveError::UnknownGroup("deep".to_string())));
}

#[test]
fn unreferenced_group_is_not_resolved() {
    let l = level(vec![group("unused", vec![group_ref("missing")])], vec![part("s", "a")]);
    assert_eq!(pieces(&l), vec!["a"]);
}

#[test]
fn self_reference_is_a_bounded_error() {
    let l = level(vec![group("g", vec![part("s", "a"), group_ref("g")])], vec![group_ref("g")]);
    assert_eq!(visit_terrain_recursive(&l), Err(ResolveError::CyclicGroup("g".to_string())));
}

#[test]
fn indirect_cycle_is_a_bounded_error() {
    let l = level(
        vec![
            group("a", vec![group_ref("b")]),
            group("b", vec![part("s", "x"), group_ref("c")]),
            group("c", vec![group_ref("a"), part("s", "y")]),
        ],
        vec![part("s", "top"), group_ref("a")],
    );
    assert!(matches!(visit_terrain_recursive(&l), Err(ResolveError::CyclicGroup(_))));
}

#[test]
fn unknown_group_met_before_the_cycle_is_reported() {
    let l = level(vec![group("g", vec![group_ref("g"), group_ref("missing")])], vec![group_ref("g")]);
    assert_eq!(
        visit_terrain_recursive(&l),
        Err(ResolveError::UnknownGroup("missing".to_string()))
    );
}

#[test]
fn cycle_that_is_not_reached_does_no_harm() {
    let l = level(vec![group("loop", vec![group_ref("loop")])], vec![part("s", "a")]);
    assert_eq!(pieces(&l), vec!["a"]);
}

#[test]
fn chain_through_every_group_is_resolved() {
    let l = level(
        vec![
            group("g3", vec![part("s", "leaf")]),
            group("g1", vec![group_ref("g2")]),
            group("g2", vec![group_ref("g3")]),
        ],
        vec![group_ref("g1")],
    );
    assert_eq!(pieces(&l), vec!["leaf"]);
}

#[test]
fn shared_group_is_expanded_each_time() {
    let l = level(
        vec![
            group("pair", vec![group_ref("one"), group_ref("one")]),
            group("one", vec![part("s", "x")]),
        ],
        vec![group_ref("pair"), group_ref("pair")],
    );
    assert_eq!(pieces(&l), vec!["x", "x", "x", "x"]);
}

#[test]
fn gadgets_are_visited_in_document_order() {
    let l = Level {
        gadgets: vec![
            Gadget { style: "a".to_string(), piece: "1".to_string() },
            Gadget { style: "b".to_string(), piece: "2".to_string() },
            Gadget { style: "a".to_string(), piece: "3".to_string() },
        ],
        groups: vec![],
        terrain: vec![],
    };
    let seen: Vec<&str> = visit_gadgets(&l).iter().map(|g| g.piece.as_str()).collect();
    assert_eq!(seen, vec!["1", "2", "3"]);
    assert!(visit_gadgets(&level(vec![], vec![])).is_empty());
}

#[test]
fn parsed_level_resolves_its_groups() {
    let text = "$TERRAINGROUP\nNAME g1\n$TERRAIN\nSTYLE rock\nPIECE T1\n$END\n$TERRAIN\nSTYLE rock\nPIECE T2\n$END\n$END\n$TERRAIN\nSTYLE *group\nPIECE g1\n$END\n";
    let l = parse_level(text).unwrap();
    assert_eq!(pieces(&l), vec!["T2", "T1"]);
}
