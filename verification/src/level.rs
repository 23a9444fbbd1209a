//! The level document and its parser.
//!
//! A level is written as tagged blocks, one line per tag or field. The parser
//! walks the queue of significant lines once, front to back; every block
//! parser takes its lines from the same queue.
use crate::text::{
    field_value, is_significant, line_queue, line_queue_of_joined, line_queue_of_one_line,
    read_lines, starts_with, string_from, trim,
};
use std::collections::VecDeque;
use vstd::prelude::*;

verus! {

/// Number of characters that a `STYLE` or `PIECE` line spends on its keyword
/// and the separator behind it.
pub const FIELD_WIDTH: usize = 6;

/// Number of characters that a `NAME` line spends on its keyword and the
/// separator behind it.
pub const NAME_WIDTH: usize = 5;

/// One terrain directive. With the style `*GROUP` the piece names a terrain
/// group to be expanded in its place.
#[derive(Debug, Clone, PartialEq, Eq)]
pub struct TerrainPart {
    pub style: String,
    pub piece: String,
}

/// A named, ordered collection of terrain parts.
#[derive(Debug, Clone, PartialEq, Eq)]
pub struct TerrainGroup {
    pub name: String,
    pub terrain: Vec<TerrainPart>,
}

/// A placeable object.
#[derive(Debug, Clone, PartialEq, Eq)]
pub struct Gadget {
    pub style: String,
    pub piece: String,
}

/// A parsed level: its gadgets, terrain groups and top-level terrain, each in
/// the order of the text.
#[derive(Debug, Clone, PartialEq, Eq)]
pub struct Level {
    pub gadgets: Vec<Gadget>,
    pub groups: Vec<TerrainGroup>,
    pub terrain: Vec<TerrainPart>,
}

/// Why a level text could not be parsed.
#[derive(Debug, Clone, PartialEq, Eq)]
pub enum ParseError {
    /// A field line that ends before its value begins. Holds the line.
    TruncatedField(String),
}

/// What a `TerrainPart` holds, as plain sequences of characters.
pub struct TerrainPartView {
    pub style: Seq<char>,
    pub piece: Seq<char>,
}

/// What a `TerrainGroup` holds.
pub struct TerrainGroupView {
    pub name: Seq<char>,
    pub terrain: Seq<TerrainPartView>,
}

/// What a `Gadget` holds, as plain sequences of characters.
pub struct GadgetView {
    pub style: Seq<char>,
    pub piece: Seq<char>,
}

/// What a `Level` holds: the document that the parser is held to.
pub struct LevelView {
    pub gadgets: Seq<GadgetView>,
    pub groups: Seq<TerrainGroupView>,
    pub terrain: Seq<TerrainPartView>,
}

/// What a `ParseError` holds.
pub enum ParseErrorView {
    TruncatedField(Seq<char>),
}

impl View for TerrainPart {
    type V = TerrainPartView;

    open spec fn view(&self) -> TerrainPartView {
        TerrainPartView { style: self.style@, piece: self.piece@ }
    }
}

impl View for Gadget {
    type V = GadgetView;

    open spec fn view(&self) -> GadgetView {
        GadgetView { style: self.style@, piece: self.piece@ }
    }
}

/// The views of `parts`, in order.
pub open spec fn terrain_view(parts: Seq<TerrainPart>) -> Seq<TerrainPartView> {
    parts.map_values(|p: TerrainPart| p@)
}

impl View for TerrainGroup {
    type V = TerrainGroupView;

    open spec fn view(&self) -> TerrainGroupView {
        TerrainGroupView { name: self.name@, terrain: terrain_view(self.terrain@) }
    }
}

impl View for Level {
    type V = LevelView;

    open spec fn view(&self) -> LevelView {
        LevelView {
            gadgets: self.gadgets@.map_values(|g: Gadget| g@),
            groups: self.groups@.map_values(|g: TerrainGroup| g@),
            terrain: terrain_view(self.terrain@),
        }
    }
}

impl View for ParseError {
    type V = ParseErrorView;

    open spec fn view(&self) -> ParseErrorView {
        match self {
            ParseError::TruncatedField(line) => ParseErrorView::TruncatedField(line@),
        }
    }
}

/// The view of a parser's result.
pub open spec fn outcome_of<T: View>(res: Result<T, ParseError>) -> Result<T::V, ParseErrorView> {
    match res {
        Ok(value) => Ok(value@),
        Err(e) => Err(e@),
    }
}

/// Whether `line` opens a terrain group block.
pub open spec fn opens_group(line: Seq<char>) -> bool {
    "$TERRAINGROUP"@.is_prefix_of(line)
}

/// Whether `line` opens a terrain block. A line that opens a group block
/// does so too; the parsers ask for the group first where both may stand.
pub open spec fn opens_terrain(line: Seq<char>) -> bool {
    "$TERRAIN"@.is_prefix_of(line)
}

/// Whether `line` opens a gadget block.
pub open spec fn opens_gadget(line: Seq<char>) -> bool {
    "$GADGET"@.is_prefix_of(line)
}

/// Whether `line` closes the block it stands in.
pub open spec fn closes_block(line: Seq<char>) -> bool {
    "$END"@.is_prefix_of(line)
}

/// Whether `line` gives the style of a terrain part or gadget.
pub open spec fn sets_style(line: Seq<char>) -> bool {
    "STYLE"@.is_prefix_of(line)
}

/// Whether `line` gives the piece of a terrain part or gadget.
pub open spec fn sets_piece(line: Seq<char>) -> bool {
    "PIECE"@.is_prefix_of(line)
}

/// Whether `line` gives the name of a terrain group.
pub open spec fn sets_name(line: Seq<char>) -> bool {
    "NAME"@.is_prefix_of(line)
}

/// What a block parser makes of a queue: the block's value or the line it
/// failed on, and the lines it left in the queue.
pub struct Block<T> {
    pub outcome: Result<T, ParseErrorView>,
    pub rest: Seq<Seq<char>>,
}

/// The body of a terrain or gadget block read from the front of `lines`,
/// with `style` and `piece` as read so far. The block runs up to and including
/// the first `$END` line, or to the end of the queue. A later `STYLE` or
/// `PIECE` line replaces an earlier one; a `STYLE` or `PIECE` line of fewer
/// than `FIELD_WIDTH` characters ends the parse.
pub open spec fn fields_block(lines: Seq<Seq<char>>, style: Seq<char>, piece: Seq<char>) -> Block<
    (Seq<char>, Seq<char>),
>
    decreases lines.len(),
{
    if lines.len() == 0 {
        Block { outcome: Ok((style, piece)), rest: lines }
    } else {
        let line = lines.first();
        let rest = lines.drop_first();
        if sets_style(line) {
            if line.len() < FIELD_WIDTH {
                Block { outcome: Err(ParseErrorView::TruncatedField(line)), rest }
            } else {
                fields_block(rest, field_value(line, FIELD_WIDTH as nat), piece)
            }
        } else if sets_piece(line) {
            if line.len() < FIELD_WIDTH {
                Block { outcome: Err(ParseErrorView::TruncatedField(line)), rest }
            } else {
                fields_block(rest, style, field_value(line, FIELD_WIDTH as nat))
            }
        } else if closes_block(line) {
            Block { outcome: Ok((style, piece)), rest }
        } else {
            fields_block(rest, style, piece)
        }
    }
}

/// The terrain part whose block body stands at the front of `lines`.
pub open spec fn terrain_part_block(lines: Seq<Seq<char>>) -> Block<TerrainPartView> {
    let body = fields_block(lines, Seq::empty(), Seq::empty());
    Block {
        outcome: match body.outcome {
            Ok(fields) => Ok(TerrainPartView { style: fields.0, piece: fields.1 }),
            Err(e) => Err(e),
        },
        rest: body.rest,
    }
}

/// The gadget whose block body stands at the front of `lines`.
pub open spec fn gadget_block(lines: Seq<Seq<char>>) -> Block<GadgetView> {
    let body = fields_block(lines, Seq::empty(), Seq::empty());
    Block {
        outcome: match body.outcome {
            Ok(fields) => Ok(GadgetView { style: fields.0, piece: fields.1 }),
            Err(e) => Err(e),
        },
        rest: body.rest,
    }
}

/// A block body never leaves more lines than it was given.
pub proof fn fields_block_consumes(lines: Seq<Seq<char>>, style: Seq<char>, piece: Seq<char>)
    ensures
        fields_block(lines, style, piece).rest.len() <= lines.len(),
    decreases lines.len(),
{
    if lines.len() > 0 {
        let line = lines.first();
        let rest = lines.drop_first();
        if sets_style(line) {
            if line.len() >= FIELD_WIDTH {
                fields_block_consumes(rest, field_value(line, FIELD_WIDTH as nat), piece);
            }
        } else if sets_piece(line) {
            if line.len() >= FIELD_WIDTH {
                fields_block_consumes(rest, style, field_value(line, FIELD_WIDTH as nat));
            }
        } else if !closes_block(line) {
            fields_block_consumes(rest, style, piece);
        }
    }
}

/// The body of a terrain group block read from the front of `lines`, with
/// `name` and `terrain` as read so far. A `$TERRAIN` line opens a nested
/// terrain block, which takes its lines, its `$END` included, from the same
/// queue; the part is appended to the group.
pub open spec fn group_block(
    lines: Seq<Seq<char>>,
    name: Seq<char>,
    terrain: Seq<TerrainPartView>,
) -> Block<TerrainGroupView>
    decreases lines.len(),
{
    if lines.len() == 0 {
        Block { outcome: Ok(TerrainGroupView { name, terrain }), rest: lines }
    } else {
        let line = lines.first();
        let rest = lines.drop_first();
        if sets_name(line) {
            if line.len() < NAME_WIDTH {
                Block { outcome: Err(ParseErrorView::TruncatedField(line)), rest }
            } else {
                group_block(rest, field_value(line, NAME_WIDTH as nat), terrain)
            }
        } else if opens_terrain(line) {
            let part = terrain_part_block(rest);
            match part.outcome {
                Ok(p) => {
                    proof {
                        fields_block_consumes(rest, Seq::empty(), Seq::empty());
                    }
                    group_block(part.rest, name, terrain.push(p))
                },
                Err(e) => Block { outcome: Err(e), rest: part.rest },
            }
        } else if closes_block(line) {
            Block { outcome: Ok(TerrainGroupView { name, terrain }), rest }
        } else {
            group_block(rest, name, terrain)
        }
    }
}

/// A group block never leaves more lines than it was given.
pub proof fn group_block_consumes(
    lines: Seq<Seq<char>>,
    name: Seq<char>,
    terrain: Seq<TerrainPartView>,
)
    ensures
        group_block(lines, name, terrain).rest.len() <= lines.len(),
    decreases lines.len(),
{
    if lines.len() > 0 {
        let line = lines.first();
        let rest = lines.drop_first();
        if sets_name(line) {
            if line.len() >= NAME_WIDTH {
                group_block_consumes(rest, field_value(line, NAME_WIDTH as nat), terrain);
            }
        } else if opens_terrain(line) {
            let part = terrain_part_block(rest);
            fields_block_consumes(rest, Seq::empty(), Seq::empty());
            match part.outcome {
                Ok(p) => {
                    group_block_consumes(part.rest, name, terrain.push(p));
                },
                Err(_) => {},
            }
        } else if !closes_block(line) {
            group_block_consumes(rest, name, terrain);
        }
    }
}

/// The level without any content.
pub open spec fn empty_level() -> LevelView {
    LevelView { gadgets: Seq::empty(), groups: Seq::empty(), terrain: Seq::empty() }
}

/// The level that the queue `lines` adds to `level`. A line that opens a
/// block hands the queue to that block's parser and the value is appended to
/// the level; any other line is skipped. `$TERRAINGROUP` is tried before
/// `$TERRAIN`, which is a prefix of it.
pub open spec fn level_from(lines: Seq<Seq<char>>, level: LevelView) -> Result<
    LevelView,
    ParseErrorView,
>
    decreases lines.len(),
{
    if lines.len() == 0 {
        Ok(level)
    } else {
        let line = lines.first();
        let rest = lines.drop_first();
        if opens_group(line) {
            let block = group_block(rest, Seq::empty(), Seq::empty());
            match block.outcome {
                Ok(group) => {
                    proof {
                        group_block_consumes(rest, Seq::empty(), Seq::empty());
                    }
                    level_from(block.rest, LevelView { groups: level.groups.push(group), ..level })
                },
                Err(e) => Err(e),
            }
        } else if opens_terrain(line) {
            let block = terrain_part_block(rest);
            match block.outcome {
                Ok(part) => {
                    proof {
                        fields_block_consumes(rest, Seq::empty(), Seq::empty());
                    }
                    level_from(block.rest, LevelView { terrain: level.terrain.push(part), ..level })
                },
                Err(e) => Err(e),
            }
        } else if opens_gadget(line) {
            let block = gadget_block(rest);
            match block.outcome {
                Ok(gadget) => {
                    proof {
                        fields_block_consumes(rest, Seq::empty(), Seq::empty());
                    }
                    level_from(
                        block.rest,
                        LevelView { gadgets: level.gadgets.push(gadget), ..level },
                    )
                },
                Err(e) => Err(e),
            }
        } else {
            level_from(rest, level)
        }
    }
}

/// The document that a queue of significant lines describes.
pub open spec fn document_of_lines(lines: Seq<Seq<char>>) -> Result<LevelView, ParseErrorView> {
    level_from(lines, empty_level())
}

/// The document that a level text describes.
pub open spec fn document_of(text: Seq<char>) -> Result<LevelView, ParseErrorView> {
    document_of_lines(line_queue(text))
}

/// Whether some parser understands `line` somewhere: it opens or closes a
/// block, or sets a field.
pub open spec fn is_recognised(line: Seq<char>) -> bool {
    ||| opens_group(line)
    ||| opens_terrain(line)
    ||| opens_gadget(line)
    ||| closes_block(line)
    ||| sets_style(line)
    ||| sets_piece(line)
    ||| sets_name(line)
}

/// The lines of `lines` that some parser understands, in order.
pub open spec fn recognised_only(lines: Seq<Seq<char>>) -> Seq<Seq<char>>
    decreases lines.len(),
{
    if lines.len() == 0 {
        lines
    } else if is_recognised(lines.first()) {
        seq![lines.first()] + recognised_only(lines.drop_first())
    } else {
        recognised_only(lines.drop_first())
    }
}

proof fn fields_block_of_recognised(lines: Seq<Seq<char>>, style: Seq<char>, piece: Seq<char>)
    ensures
        fields_block(recognised_only(lines), style, piece) == (Block {
            outcome: fields_block(lines, style, piece).outcome,
            rest: recognised_only(fields_block(lines, style, piece).rest),
        }),
    decreases lines.len(),
{
    if lines.len() > 0 {
        let line = lines.first();
        let rest = lines.drop_first();
        if is_recognised(line) {
            let kept = seq![line] + recognised_only(rest);
            assert(kept.first() == line);
            assert(kept.drop_first() == recognised_only(rest));
        }
        if sets_style(line) {
            if line.len() >= FIELD_WIDTH {
                fields_block_of_recognised(rest, field_value(line, FIELD_WIDTH as nat), piece);
            }
        } else if sets_piece(line) {
            if line.len() >= FIELD_WIDTH {
                fields_block_of_recognised(rest, style, field_value(line, FIELD_WIDTH as nat));
            }
        } else if !closes_block(line) {
            fields_block_of_recognised(rest, style, piece);
        }
    }
}

proof fn group_block_of_recognised(
    lines: Seq<Seq<char>>,
    name: Seq<char>,
    terrain: Seq<TerrainPartView>,
)
    ensures
        group_block(recognised_only(lines), name, terrain) == (Block {
            outcome: group_block(lines, name, terrain).outcome,
            rest: recognised_only(group_block(lines, name, terrain).rest),
        }),
    decreases lines.len(),
{
    if lines.len() > 0 {
        let line = lines.first();
        let rest = lines.drop_first();
        if is_recognised(line) {
            let kept = seq![line] + recognised_only(rest);
            assert(kept.first() == line);
            assert(kept.drop_first() == recognised_only(rest));
        }
        if sets_name(line) {
            if line.len() >= NAME_WIDTH {
                group_block_of_recognised(rest, field_value(line, NAME_WIDTH as nat), terrain);
            }
        } else if opens_terrain(line) {
            let part = terrain_part_block(rest);
            fields_block_consumes(rest, Seq::empty(), Seq::empty());
            fields_block_of_recognised(rest, Seq::empty(), Seq::empty());
            match part.outcome {
                Ok(p) => {
                    group_block_of_recognised(part.rest, name, terrain.push(p));
                },
                Err(_) => {},
            }
        } else if !closes_block(line) {
            group_block_of_recognised(rest, name, terrain);
        }
    }
}

proof fn level_from_recognised(lines: Seq<Seq<char>>, level: LevelView)
    ensures
        level_from(recognised_only(lines), level) == level_from(lines, level),
    decreases lines.len(),
{
    if lines.len() > 0 {
        let line = lines.first();
        let rest = lines.drop_first();
        if is_recognised(line) {
            let kept = seq![line] + recognised_only(rest);
            assert(kept.first() == line);
            assert(kept.drop_first() == recognised_only(rest));
        }
        if opens_group(line) {
            let block = group_block(rest, Seq::empty(), Seq::empty());
            group_block_consumes(rest, Seq::empty(), Seq::empty());
            group_block_of_recognised(rest, Seq::empty(), Seq::empty());
            match block.outcome {
                Ok(group) => {
                    level_from_recognised(
                        block.rest,
                        LevelView { groups: level.groups.push(group), ..level },
                    );
                },
                Err(_) => {},
            }
        } else if opens_terrain(line) {
            let block = terrain_part_block(rest);
            fields_block_consumes(rest, Seq::empty(), Seq::empty());
            fields_block_of_recognised(rest, Seq::empty(), Seq::empty());
            match block.outcome {
                Ok(part) => {
                    level_from_recognised(
                        block.rest,
                        LevelView { terrain: level.terrain.push(part), ..level },
                    );
                },
                Err(_) => {},
            }
        } else if opens_gadget(line) {
            let block = gadget_block(rest);
            fields_block_consumes(rest, Seq::empty(), Seq::empty());
            fields_block_of_recognised(rest, Seq::empty(), Seq::empty());
            match block.outcome {
                Ok(gadget) => {
                    level_from_recognised(
                        block.rest,
                        LevelView { gadgets: level.gadgets.push(gadget), ..level },
                    );
                },
                Err(_) => {},
            }
        } else {
            level_from_recognised(rest, level);
        }
    }
}

proof fn recognised_only_skips_insertion(lines: Seq<Seq<char>>, at: int, line: Seq<char>)
    requires
        0 <= at <= lines.len(),
        !is_recognised(line),
    ensures
        recognised_only(lines.insert(at, line)) == recognised_only(lines),
    decreases at,
{
    let longer = lines.insert(at, line);
    if at == 0 {
        assert(longer.first() == line);
        assert(longer.drop_first() == lines);
    } else {
        assert(longer.first() == lines.first());
        assert(longer.drop_first() == lines.drop_first().insert(at - 1, line));
        recognised_only_skips_insertion(lines.drop_first(), at - 1, line);
    }
}

/// The lines of the block body at the front of `lines`: those before the
/// first `$END` line.
pub open spec fn block_body(lines: Seq<Seq<char>>) -> Seq<Seq<char>>
    decreases lines.len(),
{
    if lines.len() == 0 || closes_block(lines.first()) {
        Seq::empty()
    } else {
        seq![lines.first()] + block_body(lines.drop_first())
    }
}

/// What is left of `lines` behind the block body at its front and the `$END`
/// line that closes it.
pub open spec fn behind_block(lines: Seq<Seq<char>>) -> Seq<Seq<char>>
    decreases lines.len(),
{
    if lines.len() == 0 {
        lines
    } else if closes_block(lines.first()) {
        lines.drop_first()
    } else {
        behind_block(lines.drop_first())
    }
}

/// The value of the last line of `body` that begins with `key`, or `default`
/// where no line does.
pub open spec fn last_value(body: Seq<Seq<char>>, key: Seq<char>, default: Seq<char>) -> Seq<char>
    decreases body.len(),
{
    if body.len() == 0 {
        default
    } else if key.is_prefix_of(body.last()) {
        field_value(body.last(), FIELD_WIDTH as nat)
    } else {
        last_value(body.drop_last(), key, default)
    }
}

/// Whether every `STYLE` and `PIECE` line of `body` is long enough to hold a
/// value.
pub open spec fn has_full_fields(body: Seq<Seq<char>>) -> bool {
    forall|i: int|
        0 <= i < body.len() && (sets_style(#[trigger] body[i]) || sets_piece(body[i]))
            ==> body[i].len() >= FIELD_WIDTH
}

proof fn last_value_behind_first_line(
    line: Seq<char>,
    body: Seq<Seq<char>>,
    key: Seq<char>,
    default: Seq<char>,
)
    ensures
        last_value(seq![line] + body, key, default) == last_value(
            body,
            key,
            if key.is_prefix_of(line) {
                field_value(line, FIELD_WIDTH as nat)
            } else {
                default
            },
        ),
    decreases body.len(),
{
    let all = seq![line] + body;
    if body.len() == 0 {
        assert(all.last() == line);
        assert(all.drop_last() == Seq::<Seq<char>>::empty());
        assert(last_value(Seq::<Seq<char>>::empty(), key, default) == default);
        assert(body == Seq::<Seq<char>>::empty());
    } else {
        assert(all.last() == body.last());
        assert(all.drop_last() == seq![line] + body.drop_last());
        last_value_behind_first_line(line, body.drop_last(), key, default);
    }
}

/// A terrain or gadget block whose field lines are all long enough ends with
/// the values of its last `STYLE` line and its last `PIECE` line, and with
/// what it was given where it has no such line. It leaves the lines behind
/// its `$END`.
pub proof fn block_keeps_its_last_values(lines: Seq<Seq<char>>, style: Seq<char>, piece: Seq<char>)
    requires
        has_full_fields(block_body(lines)),
    ensures
        fields_block(lines, style, piece) == (Block {
            outcome: Ok(
                (
                    last_value(block_body(lines), "STYLE"@, style),
                    last_value(block_body(lines), "PIECE"@, piece),
                ),
            ),
            rest: behind_block(lines),
        }),
    decreases lines.len(),
{
    reveal_strlit("STYLE");
    reveal_strlit("PIECE");
    reveal_strlit("$END");
    if lines.len() > 0 {
        let line = lines.first();
        let rest = lines.drop_first();
        if sets_style(line) || sets_piece(line) {
            assert(line[0] == 'S' || line[0] == 'P') by {
                assert(line.subrange(0, 5)[0] == line[0]);
            }
            assert(!closes_block(line)) by {
                if closes_block(line) {
                    assert(line.subrange(0, 4)[0] == '$');
                }
            }
            assert(!(sets_style(line) && sets_piece(line))) by {
                if sets_style(line) && sets_piece(line) {
                    assert("STYLE"@[0] == "PIECE"@[0]);
                }
            }
        }
        if !closes_block(line) {
            let body = block_body(rest);
            assert(block_body(lines) == seq![line] + body);
            assert(has_full_fields(body)) by {
                assert forall|i: int|
                    0 <= i < body.len() && (sets_style(#[trigger] body[i]) || sets_piece(
                        body[i],
                    )) implies body[i].len() >= FIELD_WIDTH by {
                    assert(block_body(lines)[i + 1] == body[i]);
                }
            }
            assert(block_body(lines)[0] == line);
            last_value_behind_first_line(line, body, "STYLE"@, style);
            last_value_behind_first_line(line, body, "PIECE"@, piece);
            if sets_style(line) {
                block_keeps_its_last_values(rest, field_value(line, FIELD_WIDTH as nat), piece);
            } else if sets_piece(line) {
                block_keeps_its_last_values(rest, style, field_value(line, FIELD_WIDTH as nat));
            } else {
                block_keeps_its_last_values(rest, style, piece);
            }
        }
    }
}

/// A terrain or gadget block fails on the first `STYLE` or `PIECE` line of
/// its body that is too short to hold a value, and reports that line.
pub proof fn block_fails_on_first_short_line(
    lines: Seq<Seq<char>>,
    style: Seq<char>,
    piece: Seq<char>,
    at: int,
)
    requires
        0 <= at < block_body(lines).len(),
        has_full_fields(block_body(lines).take(at)),
        sets_style(block_body(lines)[at]) || sets_piece(block_body(lines)[at]),
        block_body(lines)[at].len() < FIELD_WIDTH,
    ensures
        fields_block(lines, style, piece).outcome == Err::<(Seq<char>, Seq<char>), ParseErrorView>(
            ParseErrorView::TruncatedField(block_body(lines)[at]),
        ),
    decreases at,
{
    let line = lines.first();
    let rest = lines.drop_first();
    let body = block_body(rest);
    assert(block_body(lines) == seq![line] + body);
    if at > 0 {
        assert(block_body(lines).take(at)[0] == line);
        assert(block_body(lines)[at] == body[at - 1]);
        assert(has_full_fields(body.take(at - 1))) by {
            assert forall|i: int|
                0 <= i < body.take(at - 1).len() && (sets_style(#[trigger] body.take(at - 1)[i])
                    || sets_piece(body.take(at - 1)[i])) implies body.take(at - 1)[i].len()
                >= FIELD_WIDTH by {
                assert(block_body(lines).take(at)[i + 1] == body.take(at - 1)[i]);
            }
        }
        if sets_style(line) {
            block_fails_on_first_short_line(
                rest,
                field_value(line, FIELD_WIDTH as nat),
                piece,
                at - 1,
            );
        } else if sets_piece(line) {
            block_fails_on_first_short_line(
                rest,
                style,
                field_value(line, FIELD_WIDTH as nat),
                at - 1,
            );
        } else {
            block_fails_on_first_short_line(rest, style, piece, at - 1);
        }
    } else {
        assert(block_body(lines)[0] == line);
    }
}

/// Parsing is a function of the text: whatever two runs of `parse_level` on
/// the same text return, both results describe the same document or the same
/// error.
pub proof fn parsing_is_deterministic(
    text: &str,
    first: Result<Level, ParseError>,
    second: Result<Level, ParseError>,
)
    requires
        outcome_of(first) == document_of(text@),
        outcome_of(second) == document_of(text@),
    ensures
        outcome_of(first) == outcome_of(second),
{
}

/// Only the lines that some parser understands matter: a queue describes the
/// same document, or fails on the same line, as the queue without the others.
pub proof fn unrecognised_lines_carry_nothing(lines: Seq<Seq<char>>)
    ensures
        document_of_lines(recognised_only(lines)) == document_of_lines(lines),
{
    level_from_recognised(lines, empty_level());
}

/// A line that no parser understands may stand anywhere in the queue, between
/// blocks or inside one: the document is the same with it and without it.
pub proof fn unknown_line_is_ignored(lines: Seq<Seq<char>>, at: int, line: Seq<char>)
    requires
        0 <= at <= lines.len(),
        !is_recognised(line),
    ensures
        document_of_lines(lines.insert(at, line)) == document_of_lines(lines),
{
    recognised_only_skips_insertion(lines, at, line);
    level_from_recognised(lines.insert(at, line), empty_level());
    level_from_recognised(lines, empty_level());
}

/// A line of text that is blank, a comment, or understood by no parser may
/// be put between any two lines of a level text: the text describes the same
/// document with it and without it.
pub proof fn unknown_text_line_is_ignored(before: Seq<char>, line: Seq<char>, after: Seq<char>)
    requires
        !line.contains('\n'),
        !is_significant(trim(line)) || !is_recognised(trim(line)),
    ensures
        document_of(before + seq!['\n'] + line + seq!['\n'] + after) == document_of(
            before + seq!['\n'] + after,
        ),
{
    let head = line_queue(before);
    let tail = line_queue(after);
    line_queue_of_joined(before + seq!['\n'] + line, after);
    line_queue_of_joined(before, line);
    line_queue_of_joined(before, after);
    line_queue_of_one_line(line);
    if is_significant(trim(line)) {
        assert(head + seq![trim(line)] + tail == (head + tail).insert(
            head.len() as int,
            trim(line),
        ));
        unknown_line_is_ignored(head + tail, head.len() as int, trim(line));
    } else {
        assert(head + Seq::<Seq<char>>::empty() + tail == head + tail);
    }
}

/// Between blocks every line is skipped that opens no block, a field line
/// as well: the level read so far is handed on unchanged.
pub proof fn stray_top_level_line_is_skipped(
    line: Seq<char>,
    rest: Seq<Seq<char>>,
    level: LevelView,
)
    requires
        !opens_group(line),
        !opens_terrain(line),
        !opens_gadget(line),
    ensures
        level_from(seq![line] + rest, level) == level_from(rest, level),
{
    let lines = seq![line] + rest;
    assert(lines.first() == line);
    assert(lines.drop_first() == rest);
}

/// Inside a terrain or gadget block every line is skipped that is not
/// `STYLE`, `PIECE` or `$END`: the fields read so far stay as they are.
pub proof fn stray_field_line_is_skipped(
    line: Seq<char>,
    rest: Seq<Seq<char>>,
    style: Seq<char>,
    piece: Seq<char>,
)
    requires
        !sets_style(line),
        !sets_piece(line),
        !closes_block(line),
    ensures
        fields_block(seq![line] + rest, style, piece) == fields_block(rest, style, piece),
{
    let lines = seq![line] + rest;
    assert(lines.first() == line);
    assert(lines.drop_first() == rest);
}

/// Inside a group block every line is skipped that is not `NAME`, `$TERRAIN`
/// or `$END`: the name and the parts read so far stay as they are.
pub proof fn stray_group_line_is_skipped(
    line: Seq<char>,
    rest: Seq<Seq<char>>,
    name: Seq<char>,
    terrain: Seq<TerrainPartView>,
)
    requires
        !sets_name(line),
        !opens_terrain(line),
        !closes_block(line),
    ensures
        group_block(seq![line] + rest, name, terrain) == group_block(rest, name, terrain),
{
    let lines = seq![line] + rest;
    assert(lines.first() == line);
    assert(lines.drop_first() == rest);
}

/// Reads the body of a terrain or gadget block from the front of the queue.
fn parse_fields(reader: &mut VecDeque<Vec<char>>) -> (res: Result<(String, String), ParseError>)
    ensures
        final(reader).deep_view() == fields_block(
            old(reader).deep_view(),
            Seq::empty(),
            Seq::empty(),
        ).rest,
        match res {
            Ok(fields) => fields_block(
                old(reader).deep_view(),
                Seq::empty(),
                Seq::empty(),
            ).outcome == Ok::<(Seq<char>, Seq<char>), ParseErrorView>((fields.0@, fields.1@)),
            Err(e) => fields_block(old(reader).deep_view(), Seq::empty(), Seq::empty()).outcome
                == Err::<(Seq<char>, Seq<char>), ParseErrorView>(e@),
        },
{
    let ghost goal = fields_block(reader.deep_view(), Seq::empty(), Seq::empty());
    let mut style = String::new();
    let mut piece = String::new();
    loop
        invariant
            goal == fields_block(old(reader).deep_view(), Seq::empty(), Seq::empty()),
            fields_block(reader.deep_view(), style@, piece@) == goal,
        decreases reader@.len(),
    {
        let ghost lines = reader.deep_view();
        match reader.pop_front() {
            None => {
                return Ok((style, piece));
            },
            Some(line) => {
                assert(reader.deep_view() == lines.drop_first());
                assert(line@ == lines.first());
                if starts_with(&line, "STYLE") {
                    if line.len() < FIELD_WIDTH {
                        assert(line@.skip(0) == line@);
                        return Err(ParseError::TruncatedField(string_from(&line, 0)));
                    }
                    style = string_from(&line, FIELD_WIDTH);
                } else if starts_with(&line, "PIECE") {
                    if line.len() < FIELD_WIDTH {
                        assert(line@.skip(0) == line@);
                        return Err(ParseError::TruncatedField(string_from(&line, 0)));
                    }
                    piece = string_from(&line, FIELD_WIDTH);
                } else if starts_with(&line, "$END") {
                    return Ok((style, piece));
                }
            },
        }
    }
}

/// Reads one terrain part from the front of the queue, whose opening line
/// has been taken already.
pub fn parse_terrain_part(reader: &mut VecDeque<Vec<char>>) -> (res: Result<
    TerrainPart,
    ParseError,
>)
    ensures
        final(reader).deep_view() == terrain_part_block(old(reader).deep_view()).rest,
        outcome_of(res) == terrain_part_block(old(reader).deep_view()).outcome,
{
    match parse_fields(reader) {
        Ok((style, piece)) => Ok(TerrainPart { style, piece }),
        Err(e) => Err(e),
    }
}

/// Reads one gadget from the front of the queue, whose opening line has been
/// taken already.
pub fn parse_gadget(reader: &mut VecDeque<Vec<char>>) -> (res: Result<Gadget, ParseError>)
    ensures
        final(reader).deep_view() == gadget_block(old(reader).deep_view()).rest,
        outcome_of(res) == gadget_block(old(reader).deep_view()).outcome,
{
    match parse_fields(reader) {
        Ok((style, piece)) => Ok(Gadget { style, piece }),
        Err(e) => Err(e),
    }
}

/// Reads one terrain group from the front of the queue, whose opening line
/// has been taken already.
pub fn parse_terrain_group(reader: &mut VecDeque<Vec<char>>) -> (res: Result<
    TerrainGroup,
    ParseError,
>)
    ensures
        final(reader).deep_view() == group_block(
            old(reader).deep_view(),
            Seq::empty(),
            Seq::empty(),
        ).rest,
        outcome_of(res) == group_block(
            old(reader).deep_view(),
            Seq::empty(),
            Seq::empty(),
        ).outcome,
{
    let ghost goal = group_block(reader.deep_view(), Seq::empty(), Seq::empty());
    let mut name = String::new();
    let mut terrain: Vec<TerrainPart> = Vec::new();
    assert(terrain_view(terrain@) == Seq::<TerrainPartView>::empty());
    loop
        invariant
            goal == group_block(old(reader).deep_view(), Seq::empty(), Seq::empty()),
            group_block(reader.deep_view(), name@, terrain_view(terrain@)) == goal,
        decreases reader@.len(),
    {
        let ghost lines = reader.deep_view();
        match reader.pop_front() {
            None => {
                return Ok(TerrainGroup { name, terrain });
            },
            Some(line) => {
                assert(reader.deep_view() == lines.drop_first());
                assert(line@ == lines.first());
                if starts_with(&line, "NAME") {
                    if line.len() < NAME_WIDTH {
                        assert(line@.skip(0) == line@);
                        return Err(ParseError::TruncatedField(string_from(&line, 0)));
                    }
                    name = string_from(&line, NAME_WIDTH);
                } else if starts_with(&line, "$TERRAIN") {
                    proof {
                        fields_block_consumes(lines.drop_first(), Seq::empty(), Seq::empty());
                    }
                    match parse_terrain_part(reader) {
                        Ok(part) => {
                            let ghost before = terrain_view(terrain@);
                            terrain.push(part);
                            assert(terrain_view(terrain@) == before.push(part@));
                        },
                        Err(e) => {
                            return Err(e);
                        },
                    }
                } else if starts_with(&line, "$END") {
                    return Ok(TerrainGroup { name, terrain });
                }
            },
        }
    }
}

/// Parses a queue of significant lines, as `read_lines` makes it of a text.
pub fn parse_lines(lines: VecDeque<Vec<char>>) -> (res: Result<Level, ParseError>)
    ensures
        outcome_of(res) == document_of_lines(lines.deep_view()),
{
    let mut reader = lines;
    let mut level = Level { gadgets: Vec::new(), groups: Vec::new(), terrain: Vec::new() };
    assert(level@ == empty_level()) by {
        assert(level@.gadgets == Seq::<GadgetView>::empty());
        assert(level@.groups == Seq::<TerrainGroupView>::empty());
        assert(level@.terrain == Seq::<TerrainPartView>::empty());
    }
    loop
        invariant
            level_from(reader.deep_view(), level@) == document_of_lines(lines.deep_view()),
        decreases reader@.len(),
    {
        let ghost queue = reader.deep_view();
        let ghost before = level@;
        match reader.pop_front() {
            None => {
                return Ok(level);
            },
            Some(line) => {
                assert(reader.deep_view() == queue.drop_first());
                assert(line@ == queue.first());
                if starts_with(&line, "$TERRAINGROUP") {
                    proof {
                        group_block_consumes(queue.drop_first(), Seq::empty(), Seq::empty());
                    }
                    match parse_terrain_group(&mut reader) {
                        Ok(group) => {
                            level.groups.push(group);
                            assert(level@.groups == before.groups.push(group@));
                        },
                        Err(e) => {
                            return Err(e);
                        },
                    }
                } else if starts_with(&line, "$TERRAIN") {
                    proof {
                        fields_block_consumes(queue.drop_first(), Seq::empty(), Seq::empty());
                    }
                    match parse_terrain_part(&mut reader) {
                        Ok(part) => {
                            level.terrain.push(part);
                            assert(level@.terrain == before.terrain.push(part@));
                        },
                        Err(e) => {
                            return Err(e);
                        },
                    }
                } else if starts_with(&line, "$GADGET") {
                    proof {
                        fields_block_consumes(queue.drop_first(), Seq::empty(), Seq::empty());
                    }
                    match parse_gadget(&mut reader) {
                        Ok(gadget) => {
                            level.gadgets.push(gadget);
                            assert(level@.gadgets == before.gadgets.push(gadget@));
                        },
                        Err(e) => {
                            return Err(e);
                        },
                    }
                }
            },
        }
    }
}

/// Parses a level text. Lines that are blank, comments or not understood
/// where they stand are skipped, and a block may lack its `$END`. The one
/// text that is refused is one with a field line too short to hold a value.
pub fn parse_level(level_text: &str) -> (res: Result<Level, ParseError>)
    ensures
        outcome_of(res) == document_of(level_text@),
{
    parse_lines(read_lines(level_text))
}

} // verus!
