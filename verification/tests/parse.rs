use level_stats::level::{
    parse_gadget, parse_level, parse_lines, parse_terrain_group, parse_terrain_part, Gadget,
    Level, ParseError, TerrainGroup, TerrainPart,
};
use level_stats::text::{read_lines, starts_with};
use std::collections::VecDeque;

fn part(style: &str, piece: &str) -> TerrainPart {
    TerrainPart { style: style.to_string(), piece: piece.to_string() }
}

fn gadget(style: &str, piece: &str) -> Gadget {
    Gadget { style: style.to_string(), piece: piece.to_string() }
}

fn queue(lines: &[&str]) -> VecDeque<Vec<char>> {
    lines.iter().map(|l| l.chars().collect()).collect()
}

fn truncated(line: &str) -> ParseError {
    ParseError::TruncatedField(line.to_string())
}

#[test]
fn terrain_block_with_style_and_piece() {
    let level = parse_level("$TERRAIN\nSTYLE foo\nPIECE bar\n$END").unwrap();
    assert_eq!(level.terrain, vec![part("foo", "bar")]);
    assert!(level.gadgets.is_empty());
    assert!(level.groups.is_empty());
}

#[test]
fn group_block_with_two_nested_parts() {
    let text = "$TERRAINGROUP\nNAME g1\n$TERRAIN\nSTYLE a\nPIECE p1\n$END\n$TERRAIN\nSTYLE b\nPIECE p2\n$END\n$END\n";
    let level = parse_level(text).unwrap();
    assert_eq!(
        level.groups,
        vec![TerrainGroup {
            name: "g1".to_string(),
            terrain: vec![part("a", "p1"), part("b", "p2")],
        }]
    );
    assert!(level.terrain.is_empty());
    assert!(level.gadgets.is_empty());
}

#[test]
fn parsing_twice_gives_equal_documents() {
    let text = "# pack\n$GADGET\nSTYLE Crate\nPIECE box\n$END\n$TERRAIN\nSTYLE rock\nPIECE r1\n$END\n";
    assert_eq!(parse_level(text), parse_level(text));
    let bad = "$TERRAIN\nPIECE\n";
    assert_eq!(parse_level(bad), parse_level(bad));
}

#[test]
fn empty_text_is_an_empty_level() {
    let empty = Level { gadgets: vec![], groups: vec![], terrain: vec![] };
    assert_eq!(parse_level("").unwrap(), empty);
    assert_eq!(parse_level("\n\n   \n").unwrap(), empty);
    assert_eq!(parse_level("# nothing here\n").unwrap(), empty);
}

#[test]
fn absent_fields_are_empty_strings() {
    let level = parse_level("$GADGET\n$END\n$TERRAIN\n$END\n$TERRAINGROUP\n$END").unwrap();
    assert_eq!(level.gadgets, vec![gadget("", "")]);
    assert_eq!(level.terrain, vec![part("", "")]);
    assert_eq!(level.groups, vec![TerrainGroup { name: String::new(), terrain: vec![] }]);
}

#[test]
fn unknown_top_level_lines_are_ignored() {
    let plain = "$GADGET\nSTYLE s\nPIECE p\n$END\n$TERRAIN\nSTYLE t\nPIECE q\n$END\n";
    let noisy = "TITLE Level one\n$GADGET\nSTYLE s\nPIECE p\n$END\nSTYLE stray\nNAME stray\n$END\n$UNKNOWN\n$TERRAIN\nSTYLE t\nPIECE q\n$END\nAUTHOR me\n";
    assert_eq!(parse_level(noisy), parse_level(plain));
    let level = parse_level(noisy).unwrap();
    assert_eq!(level.gadgets, vec![gadget("s", "p")]);
    assert_eq!(level.terrain, vec![part("t", "q")]);
}

#[test]
fn unknown_field_lines_are_ignored() {
    let text = "$TERRAIN\nX 10\nSTYLE t\nNAME not a field here\nY 20\nPIECE q\nROTATE\n$END\n$GADGET\nWIDTH 3\nSTYLE s\n$TERRAIN\nPIECE p\n$END";
    let level = parse_level(text).unwrap();
    assert_eq!(level.terrain, vec![part("t", "q")]);
    assert_eq!(level.gadgets, vec![gadget("s", "p")]);
    assert!(level.groups.is_empty());
}

#[test]
fn unknown_group_lines_are_ignored() {
    let text = "$TERRAINGROUP\nSTYLE not a field here\nNAME g\nPIECE neither\n$GADGET\n$TERRAIN\nSTYLE a\n$END\n$END";
    let level = parse_level(text).unwrap();
    assert_eq!(
        level.groups,
        vec![TerrainGroup { name: "g".to_string(), terrain: vec![part("a", "")] }]
    );
    assert!(level.gadgets.is_empty());
}

#[test]
fn comments_and_blank_lines_are_dropped() {
    let text = "\n# a comment\n$TERRAIN\n   # STYLE hidden\n\nSTYLE shown\n  \t \nPIECE p\n#$END\n$END\n";
    let level = parse_level(text).unwrap();
    assert_eq!(level.terrain, vec![part("shown", "p")]);
}

#[test]
fn lines_are_trimmed_before_they_are_read() {
    let text = "   $TERRAIN  \r\n\tSTYLE foo \r\n  PIECE bar\t\r\n $END\r\n";
    let level = parse_level(text).unwrap();
    assert_eq!(level.terrain, vec![part("foo", "bar")]);
    let wide = "\u{3000}$GADGET\u{a0}\n\u{2003}STYLE s\u{2028}\n$END";
    assert_eq!(parse_level(wide).unwrap().gadgets, vec![gadget("s", "")]);
}

#[test]
fn field_value_starts_at_a_fixed_offset() {
    let level = parse_level("$TERRAIN\nSTYLE  two spaces\nPIECE:colon\n$END\n$GADGET\nSTYLEXYZ\nPIECES\n$END").unwrap();
    assert_eq!(level.terrain, vec![part(" two spaces", "colon")]);
    assert_eq!(level.gadgets, vec![gadget("YZ", "")]);
    let group = parse_level("$TERRAINGROUP\nNAME  g\n$END\n$TERRAINGROUP\nNAMES\n$END").unwrap();
    assert_eq!(group.groups[0].name, " g");
    assert_eq!(group.groups[1].name, "");
}

#[test]
fn offsets_count_characters() {
    let level = parse_level("$TERRAIN\nSTYLE \u{e9}t\u{e9}\nPIECE\u{e9}rest\n$END").unwrap();
    assert_eq!(level.terrain, vec![part("\u{e9}t\u{e9}", "rest")]);
}

#[test]
fn later_field_replaces_earlier() {
    let level = parse_level("$GADGET\nSTYLE one\nPIECE a\nSTYLE two\nPIECE b\n$END").unwrap();
    assert_eq!(level.gadgets, vec![gadget("two", "b")]);
}

#[test]
fn missing_end_is_tolerated() {
    let level = parse_level("$TERRAIN\nSTYLE s\nPIECE p").unwrap();
    assert_eq!(level.terrain, vec![part("s", "p")]);
    let level = parse_level("$TERRAINGROUP\nNAME g\n$TERRAIN\nSTYLE s").unwrap();
    assert_eq!(
        level.groups,
        vec![TerrainGroup { name: "g".to_string(), terrain: vec![part("s", "")] }]
    );
}

#[test]
fn block_without_end_swallows_what_follows() {
    let level = parse_level("$TERRAIN\nSTYLE a\n$GADGET\nSTYLE b\n$END\n$GADGET\nSTYLE c\n$END").unwrap();
    assert_eq!(level.terrain, vec![part("b", "")]);
    assert_eq!(level.gadgets, vec![gadget("c", "")]);
}

#[test]
fn group_tag_is_tried_before_terrain_tag() {
    let level = parse_level("$TERRAINGROUP\nNAME g\n$END\n$TERRAIN\nSTYLE s\n$END\n$TERRAINGROUPS\n$END").unwrap();
    assert_eq!(level.groups.len(), 2);
    assert_eq!(level.groups[0].name, "g");
    assert_eq!(level.terrain, vec![part("s", "")]);
}

#[test]
fn nested_terrain_takes_its_own_end() {
    let text = "$TERRAINGROUP\n$TERRAIN\nSTYLE a\n$END\nNAME late\n$END\n$GADGET\nSTYLE g\n$END";
    let level = parse_level(text).unwrap();
    assert_eq!(
        level.groups,
        vec![TerrainGroup { name: "late".to_string(), terrain: vec![part("a", "")] }]
    );
    assert_eq!(level.gadgets, vec![gadget("g", "")]);
}

#[test]
fn entities_keep_document_order() {
    let text = "$GADGET\nSTYLE g1\n$END\n$TERRAIN\nSTYLE t1\n$END\n$GADGET\nSTYLE g2\n$END\n$TERRAIN\nSTYLE t2\n$END";
    let level = parse_level(text).unwrap();
    assert_eq!(level.gadgets, vec![gadget("g1", ""), gadget("g2", "")]);
    assert_eq!(level.terrain, vec![part("t1", ""), part("t2", "")]);
}

#[test]
fn truncated_style_line_is_refused() {
    assert_eq!(parse_level("$GADGET\n  STYLE  \n$END"), Err(truncated("STYLE")));
    assert_eq!(parse_level("$TERRAIN\nPIECE p\nSTYLE\n$END"), Err(truncated("STYLE")));
}

#[test]
fn truncated_piece_line_is_refused() {
    assert_eq!(parse_level("$TERRAIN\nSTYLE s\nPIECE\n$END"), Err(truncated("PIECE")));
    assert_eq!(
        parse_level("$TERRAINGROUP\nNAME g\n$TERRAIN\nPIECE\n$END\n$END"),
        Err(truncated("PIECE"))
    );
}

#[test]
fn truncated_name_line_is_refused() {
    assert_eq!(parse_level("$TERRAINGROUP\nNAME\n$END"), Err(truncated("NAME")));
}

#[test]
fn short_field_lines_outside_their_block_are_ignored() {
    let level = parse_level("STYLE\nPIECE\nNAME\n$TERRAIN\nNAME\n$END\n$TERRAINGROUP\nSTYLE\nPIECE\n$END").unwrap();
    assert_eq!(level.terrain, vec![part("", "")]);
    assert_eq!(level.groups.len(), 1);
}

#[test]
fn first_truncated_line_is_reported() {
    assert_eq!(
        parse_level("$GADGET\nSTYLE\n$END\n$TERRAINGROUP\nNAME\n$END"),
        Err(truncated("STYLE"))
    );
}

#[test]
fn read_lines_splits_trims_and_filters() {
    let reader = read_lines("a\n  b  \n\n# c\nd#e\n #f\n");
    assert_eq!(reader, queue(&["a", "b", "d#e"]));
    assert_eq!(read_lines(""), queue(&[]));
    assert_eq!(read_lines("x"), queue(&["x"]));
    assert_eq!(read_lines("x y \t"), queue(&["x y"]));
}

#[test]
fn starts_with_compares_a_prefix() {
    let line: Vec<char> = "$TERRAINGROUP".chars().collect();
    assert!(starts_with(&line, "$TERRAIN"));
    assert!(starts_with(&line, "$TERRAINGROUP"));
    assert!(starts_with(&line, ""));
    assert!(!starts_with(&line, "$TERRAINGROUPS"));
    assert!(!starts_with(&line, "$GADGET"));
    assert!(!starts_with(&Vec::new(), "S"));
}

#[test]
fn block_parsers_share_one_queue() {
    let mut reader = queue(&["STYLE s", "PIECE p", "$END", "NAME g", "$TERRAIN", "$END", "$END", "STYLE z"]);
    assert_eq!(parse_terrain_part(&mut reader), Ok(part("s", "p")));
    assert_eq!(reader.len(), 5);
    assert_eq!(
        parse_terrain_group(&mut reader),
        Ok(TerrainGroup { name: "g".to_string(), terrain: vec![part("", "")] })
    );
    assert_eq!(reader, queue(&["STYLE z"]));
    assert_eq!(parse_gadget(&mut reader), Ok(gadget("z", "")));
    assert!(reader.is_empty());
    assert_eq!(parse_gadget(&mut reader), Ok(gadget("", "")));
}

#[test]
fn block_parser_stops_at_the_truncated_line() {
    let mut reader = queue(&["STYLE s", "PIECE", "$END"]);
    assert_eq!(parse_gadget(&mut reader), Err(truncated("PIECE")));
    assert_eq!(reader, queue(&["$END"]));
}

#[test]
fn parse_lines_reads_a_prepared_queue() {
    let level = parse_lines(queue(&["$GADGET", "STYLE s", "PIECE p", "$END", "$TERRAIN", "PIECE q"])).unwrap();
    assert_eq!(level.gadgets, vec![gadget("s", "p")]);
    assert_eq!(level.terrain, vec![part("", "q")]);
    assert_eq!(parse_lines(queue(&["$TERRAINGROUP", "NAME"])), Err(truncated("NAME")));
    let text = "$GADGET\n STYLE s\n$END\n# c\n$TERRAIN\nPIECE q";
    assert_eq!(parse_lines(read_lines(text)), parse_level(text));
}

#[test]
fn parse_lines_takes_the_lines_as_they_are() {
    let level = parse_lines(queue(&[" $GADGET", "$TERRAIN", " STYLE s", "STYLE t ", "#PIECE p"])).unwrap();
    assert!(level.gadgets.is_empty());
    assert_eq!(level.terrain, vec![part("t ", "")]);
}
