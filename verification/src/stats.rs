//! Usage counts: how often each style is used, how much each level holds,
//! and the totals over all levels.
use crate::level::{GadgetView, Level, LevelView, TerrainPartView};
use crate::resolve::{
    leaves_view, resolved_terrain, visit_gadgets, visit_terrain_recursive, ResolveError,
    ResolveErrorView,
};
use vstd::prelude::*;

verus! {

/// The two counts kept under one key.
#[derive(Debug, Clone, Copy, PartialEq, Eq)]
pub struct Counts {
    pub terrain: u64,
    pub objects: u64,
}

/// Two counts as numbers without a limit: what a `Counts` stands for.
pub struct Tally {
    pub terrain: nat,
    pub objects: nat,
}

impl View for Counts {
    type V = Tally;

    open spec fn view(&self) -> Tally {
        Tally { terrain: self.terrain as nat, objects: self.objects as nat }
    }
}

/// The tally under `key`; a key without an entry has counted nothing.
pub open spec fn tally_at(table: Map<Seq<char>, Tally>, key: Seq<char>) -> Tally {
    if table.contains_key(key) {
        table[key]
    } else {
        Tally { terrain: 0, objects: 0 }
    }
}

/// `table` after one more object under `key`.
pub open spec fn with_object(table: Map<Seq<char>, Tally>, key: Seq<char>) -> Map<Seq<char>, Tally> {
    table.insert(
        key,
        Tally { terrain: tally_at(table, key).terrain, objects: tally_at(table, key).objects + 1 },
    )
}

/// `table` after one more terrain piece under `key`.
pub open spec fn with_terrain(table: Map<Seq<char>, Tally>, key: Seq<char>) -> Map<
    Seq<char>,
    Tally,
> {
    table.insert(
        key,
        Tally { terrain: tally_at(table, key).terrain + 1, objects: tally_at(table, key).objects },
    )
}

/// Whether `a` comes before `b` or equals it in the order of strings: at the
/// first place where they differ the character of `a` has the smaller code
/// point, or `a` ends there.
pub open spec fn lex_le(a: Seq<char>, b: Seq<char>) -> bool
    decreases a.len(),
{
    if a.len() == 0 {
        true
    } else if b.len() == 0 {
        false
    } else if a.first() != b.first() {
        (a.first() as u32) < (b.first() as u32)
    } else {
        lex_le(a.drop_first(), b.drop_first())
    }
}

/// Whether `a` comes strictly before `b` in the order of strings.
pub open spec fn lex_lt(a: Seq<char>, b: Seq<char>) -> bool {
    lex_le(a, b) && a != b
}

/// The views of owned keys, in order.
pub open spec fn key_views(keys: Seq<String>) -> Seq<Seq<char>> {
    keys.map_values(|k: String| k@)
}

/// The views of borrowed keys, in order.
pub open spec fn borrowed_key_views(keys: Seq<&String>) -> Seq<Seq<char>> {
    keys.map_values(|k: &String| k@)
}

/// The table that `keys` and `counts` hold side by side.
spec fn table_of(keys: Seq<String>, counts: Seq<Counts>) -> Map<Seq<char>, Tally> {
    Map::new(
        |k: Seq<char>| key_views(keys).contains(k),
        |k: Seq<char>| counts[key_views(keys).index_of(k)]@,
    )
}

/// A table of counts by key, in which no key stands twice.
pub struct CountTable {
    keys: Vec<String>,
    counts: Vec<Counts>,
}

impl View for CountTable {
    type V = Map<Seq<char>, Tally>;

    closed spec fn view(&self) -> Map<Seq<char>, Tally> {
        table_of(self.keys@, self.counts@)
    }
}

proof fn table_of_update(keys: Seq<String>, counts: Seq<Counts>, i: int, c: Counts)
    requires
        keys.len() == counts.len(),
        key_views(keys).no_duplicates(),
        0 <= i < keys.len(),
    ensures
        table_of(keys, counts.update(i, c)) == table_of(keys, counts).insert(keys[i]@, c@),
        tally_at(table_of(keys, counts), keys[i]@) == counts[i]@,
{
    let names = key_views(keys);
    assert(names[i] == keys[i]@);
    assert forall|k: Seq<char>| names.contains(k) implies 0 <= names.index_of(k) < names.len()
        && names[names.index_of(k)] == k && (k == keys[i]@ <==> names.index_of(k) == i) by {}
    assert(table_of(keys, counts.update(i, c)) =~= table_of(keys, counts).insert(keys[i]@, c@));
}

proof fn table_of_push(keys: Seq<String>, counts: Seq<Counts>, key: String, c: Counts)
    requires
        keys.len() == counts.len(),
        key_views(keys).no_duplicates(),
        !key_views(keys).contains(key@),
    ensures
        table_of(keys.push(key), counts.push(c)) == table_of(keys, counts).insert(key@, c@),
        key_views(keys.push(key)).no_duplicates(),
        !table_of(keys, counts).contains_key(key@),
{
    let names = key_views(keys);
    let longer = key_views(keys.push(key));
    assert(longer == names.push(key@));
    assert(longer[keys.len() as int] == key@);
    assert forall|k: Seq<char>| names.contains(k) implies longer.contains(k) && 0
        <= longer.index_of(k) < names.len() && longer.index_of(k) == names.index_of(k) by {
        let j = names.index_of(k);
        assert(longer[j] == k);
        let l = longer.index_of(k);
        assert(0 <= l < longer.len() && longer[l] == k);
    }
    assert forall|k: Seq<char>| longer.contains(k) implies names.contains(k) || k == key@ by {
        let l = longer.index_of(k);
        if l < names.len() {
            assert(names[l] == k);
        }
    }
    assert(longer.index_of(key@) == keys.len());
    assert(table_of(keys.push(key), counts.push(c)) =~= table_of(keys, counts).insert(key@, c@));
}

/// `<[T]>::sort` puts a slice in ascending order and keeps every element;
/// strings are ordered character by character by code point, a prefix
/// before what it is a prefix of.
#[verifier::external_body]
fn sort_keys(keys: &mut Vec<&String>)
    ensures
        final(keys)@.len() == old(keys)@.len(),
        borrowed_key_views(final(keys)@).to_multiset() == borrowed_key_views(
            old(keys)@,
        ).to_multiset(),
        forall|i: int, j: int|
            0 <= i < j < final(keys)@.len() ==> lex_le(
                #[trigger] final(keys)@[i]@,
                #[trigger] final(keys)@[j]@,
            ),
{
    keys.sort();
}

impl CountTable {
    /// Whether the table is in order: one count per key, and no key twice.
    pub closed spec fn wf(&self) -> bool {
        &&& self.keys@.len() == self.counts@.len()
        &&& key_views(self.keys@).no_duplicates()
    }

    /// A table without entries.
    pub fn new() -> (table: CountTable)
        ensures
            table.wf(),
            table@ == Map::<Seq<char>, Tally>::empty(),
    {
        let table = CountTable { keys: Vec::new(), counts: Vec::new() };
        assert(table@ =~= Map::<Seq<char>, Tally>::empty());
        table
    }

    fn position(&self, key: &String) -> (found: Option<usize>)
        requires
            self.wf(),
        ensures
            match found {
                Some(i) => i < self.keys@.len() && self.keys@[i as int]@ == key@,
                None => !key_views(self.keys@).contains(key@),
            },
    {
        let mut i: usize = 0;
        while i < self.keys.len()
            invariant
                i <= self.keys.len(),
                forall|k: int| 0 <= k < i ==> key_views(self.keys@)[k] != key@,
            decreases self.keys.len() - i,
        {
            if self.keys[i] == *key {
                return Some(i);
            }
            i += 1;
        }
        None
    }

    /// The counts under `key`, if it has an entry.
    pub fn get(&self, key: &String) -> (counts: Option<Counts>)
        requires
            self.wf(),
        ensures
            match counts {
                Some(c) => self@.contains_key(key@) && self@[key@] == c@,
                None => !self@.contains_key(key@),
            },
    {
        match self.position(key) {
            Some(i) => {
                proof {
                    table_of_update(self.keys@, self.counts@, i as int, self.counts@[i as int]);
                    assert(key_views(self.keys@)[i as int] == key@);
                }
                Some(self.counts[i])
            },
            None => None,
        }
    }

    /// The number of keys.
    pub fn len(&self) -> (n: usize)
        requires
            self.wf(),
        ensures
            n == self@.dom().len(),
            self@.dom().finite(),
    {
        proof {
            let names = key_views(self.keys@);
            names.unique_seq_to_set();
            vstd::seq_lib::seq_to_set_is_finite(names);
            assert(self@.dom() =~= names.to_set());
        }
        self.keys.len()
    }
}

/// Counts one more object under `key`, which gets an entry if it has none.
pub fn count_object(map: &mut CountTable, key: &String)
    requires
        old(map).wf(),
        tally_at(old(map)@, key@).objects < u64::MAX,
    ensures
        final(map).wf(),
        final(map)@ == with_object(old(map)@, key@),
{
    match map.position(key) {
        Some(i) => {
            let c = map.counts[i];
            proof {
                table_of_update(
                    map.keys@,
                    map.counts@,
                    i as int,
                    Counts { terrain: c.terrain, objects: (c.objects + 1) as u64 },
                );
                assert(key_views(map.keys@)[i as int] == key@);
            }
            map.counts.set(i, Counts { terrain: c.terrain, objects: c.objects + 1 });
        },
        None => {
            proof {
                table_of_push(map.keys@, map.counts@, *key, Counts { terrain: 0, objects: 1 });
            }
            map.keys.push(key.clone());
            map.counts.push(Counts { terrain: 0, objects: 1 });
        },
    }
}

/// Counts one more terrain piece under `key`, which gets an entry if it has
/// none.
pub fn count_terrain(map: &mut CountTable, key: &String)
    requires
        old(map).wf(),
        tally_at(old(map)@, key@).terrain < u64::MAX,
    ensures
        final(map).wf(),
        final(map)@ == with_terrain(old(map)@, key@),
{
    match map.position(key) {
        Some(i) => {
            let c = map.counts[i];
            proof {
                table_of_update(
                    map.keys@,
                    map.counts@,
                    i as int,
                    Counts { terrain: (c.terrain + 1) as u64, objects: c.objects },
                );
                assert(key_views(map.keys@)[i as int] == key@);
            }
            map.counts.set(i, Counts { terrain: c.terrain + 1, objects: c.objects });
        },
        None => {
            proof {
                table_of_push(map.keys@, map.counts@, *key, Counts { terrain: 1, objects: 0 });
            }
            map.keys.push(key.clone());
            map.counts.push(Counts { terrain: 1, objects: 0 });
        },
    }
}

/// The keys of `map` in ascending order, each once.
pub fn get_sorted_keys(map: &CountTable) -> (keys: Vec<&String>)
    requires
        map.wf(),
    ensures
        borrowed_key_views(keys@).to_set() == map@.dom(),
        forall|i: int, j: int|
            0 <= i < j < keys@.len() ==> lex_lt(#[trigger] keys@[i]@, #[trigger] keys@[j]@),
{
    let mut keys: Vec<&String> = Vec::new();
    let mut i: usize = 0;
    while i < map.keys.len()
        invariant
            i <= map.keys.len(),
            borrowed_key_views(keys@) == key_views(map.keys@).take(i as int),
        decreases map.keys.len() - i,
    {
        let ghost before = borrowed_key_views(keys@);
        keys.push(&map.keys[i]);
        assert(borrowed_key_views(keys@) == before.push(map.keys@[i as int]@));
        assert(key_views(map.keys@).take(i + 1) == before.push(map.keys@[i as int]@));
        i += 1;
    }
    let ghost names = key_views(map.keys@);
    assert(borrowed_key_views(keys@) == names) by {
        assert(names.take(i as int) == names);
    }
    sort_keys(&mut keys);
    proof {
        let sorted = borrowed_key_views(keys@);
        names.to_multiset_ensures();
        sorted.to_multiset_ensures();
        names.lemma_multiset_has_no_duplicates();
        sorted.lemma_multiset_has_no_duplicates_conv();
        assert forall|k: Seq<char>| sorted.contains(k) == names.contains(k) by {
            assert(sorted.to_multiset().count(k) == names.to_multiset().count(k));
        }
        assert(sorted.to_set() =~= map@.dom());
        assert forall|i: int, j: int| 0 <= i < j < keys@.len() implies lex_lt(
            #[trigger] keys@[i]@,
            #[trigger] keys@[j]@,
        ) by {
            assert(sorted[i] == keys@[i]@);
            assert(sorted[j] == keys@[j]@);
        }
    }
    keys
}

/// Why a level could not be added to a report.
#[derive(Debug, Clone, PartialEq, Eq)]
pub enum AggregateError {
    /// The terrain of the level could not be resolved.
    Unresolved(ResolveError),
    /// A total would no longer fit in its counter.
    CounterOverflow,
}

/// What an `AggregateError` holds.
pub enum AggregateErrorView {
    Unresolved(ResolveErrorView),
    CounterOverflow,
}

impl View for AggregateError {
    type V = AggregateErrorView;

    open spec fn view(&self) -> AggregateErrorView {
        match self {
            AggregateError::Unresolved(cause) => AggregateErrorView::Unresolved(cause@),
            AggregateError::CounterOverflow => AggregateErrorView::CounterOverflow,
        }
    }
}

/// The counts over a pack of levels: by style, by level, and in all.
pub struct Report {
    per_style: CountTable,
    per_level: CountTable,
    total_objects: u64,
    total_terrain: u64,
}

/// What a `Report` holds: both tables as maps from key to tally, and the
/// totals.
pub struct ReportView {
    pub per_style: Map<Seq<char>, Tally>,
    pub per_level: Map<Seq<char>, Tally>,
    pub total_objects: nat,
    pub total_terrain: nat,
}

impl View for Report {
    type V = ReportView;

    closed spec fn view(&self) -> ReportView {
        ReportView {
            per_style: self.per_style@,
            per_level: self.per_level@,
            total_objects: self.total_objects as nat,
            total_terrain: self.total_terrain as nat,
        }
    }
}

/// `report` after one gadget of `style` in the level `level_name`.
pub open spec fn object_recorded(
    report: ReportView,
    level_name: Seq<char>,
    style: Seq<char>,
) -> ReportView {
    ReportView {
        per_style: with_object(report.per_style, style),
        per_level: with_object(report.per_level, level_name),
        total_objects: report.total_objects + 1,
        total_terrain: report.total_terrain,
    }
}

/// `report` after one terrain leaf of `style` in the level `level_name`.
pub open spec fn terrain_recorded(
    report: ReportView,
    level_name: Seq<char>,
    style: Seq<char>,
) -> ReportView {
    ReportView {
        per_style: with_terrain(report.per_style, style),
        per_level: with_terrain(report.per_level, level_name),
        total_objects: report.total_objects,
        total_terrain: report.total_terrain + 1,
    }
}

/// `report` after all of `gadgets`, which belong to the level `level_name`.
pub open spec fn gadgets_recorded(
    report: ReportView,
    level_name: Seq<char>,
    gadgets: Seq<GadgetView>,
) -> ReportView
    decreases gadgets.len(),
{
    if gadgets.len() == 0 {
        report
    } else {
        object_recorded(
            gadgets_recorded(report, level_name, gadgets.drop_last()),
            level_name,
            gadgets.last().style,
        )
    }
}

/// `report` after all of `leaves`, terrain of the level `level_name`.
pub open spec fn leaves_recorded(
    report: ReportView,
    level_name: Seq<char>,
    leaves: Seq<TerrainPartView>,
) -> ReportView
    decreases leaves.len(),
{
    if leaves.len() == 0 {
        report
    } else {
        terrain_recorded(
            leaves_recorded(report, level_name, leaves.drop_last()),
            level_name,
            leaves.last().style,
        )
    }
}

/// `report` after the level `level`, known as `level_name`: every gadget and
/// every resolved terrain leaf is counted once under its style, once under
/// the level's name and once in the totals. A level whose terrain cannot be
/// resolved is not counted at all.
pub open spec fn level_recorded(
    report: ReportView,
    level_name: Seq<char>,
    level: LevelView,
) -> Result<ReportView, ResolveErrorView> {
    match resolved_terrain(level) {
        Ok(leaves) => Ok(
            leaves_recorded(
                gadgets_recorded(report, level_name, level.gadgets),
                level_name,
                leaves,
            ),
        ),
        Err(e) => Err(e),
    }
}

/// How many of `gadgets` are of `style`.
pub open spec fn gadgets_of_style(gadgets: Seq<GadgetView>, style: Seq<char>) -> nat
    decreases gadgets.len(),
{
    if gadgets.len() == 0 {
        0
    } else {
        gadgets_of_style(gadgets.drop_last(), style) + if gadgets.last().style == style {
            1nat
        } else {
            0nat
        }
    }
}

/// How many of `leaves` are of `style`.
pub open spec fn leaves_of_style(leaves: Seq<TerrainPartView>, style: Seq<char>) -> nat
    decreases leaves.len(),
{
    if leaves.len() == 0 {
        0
    } else {
        leaves_of_style(leaves.drop_last(), style) + if leaves.last().style == style {
            1nat
        } else {
            0nat
        }
    }
}

/// Recording the gadgets of a level raises the object count of every style
/// by the number of gadgets of that style, the object count of the level
/// and the total by the number of gadgets, and no terrain count.
pub proof fn gadgets_add_up(
    report: ReportView,
    level_name: Seq<char>,
    gadgets: Seq<GadgetView>,
    style: Seq<char>,
    other_level: Seq<char>,
)
    requires
        other_level != level_name,
    ensures
        ({
            let after = gadgets_recorded(report, level_name, gadgets);
            &&& tally_at(after.per_style, style).objects == tally_at(
                report.per_style,
                style,
            ).objects + gadgets_of_style(gadgets, style)
            &&& tally_at(after.per_style, style).terrain == tally_at(
                report.per_style,
                style,
            ).terrain
            &&& tally_at(after.per_level, level_name).objects == tally_at(
                report.per_level,
                level_name,
            ).objects + gadgets.len()
            &&& tally_at(after.per_level, level_name).terrain == tally_at(
                report.per_level,
                level_name,
            ).terrain
            &&& tally_at(after.per_level, other_level) == tally_at(report.per_level, other_level)
            &&& after.total_objects == report.total_objects + gadgets.len()
            &&& after.total_terrain == report.total_terrain
        }),
    decreases gadgets.len(),
{
    if gadgets.len() > 0 {
        gadgets_add_up(report, level_name, gadgets.drop_last(), style, other_level);
    }
}

/// Recording the terrain leaves of a level raises the terrain count of every
/// style by the number of leaves of that style, the terrain count of the
/// level and the total by the number of leaves, and no object count.
pub proof fn leaves_add_up(
    report: ReportView,
    level_name: Seq<char>,
    leaves: Seq<TerrainPartView>,
    style: Seq<char>,
    other_level: Seq<char>,
)
    requires
        other_level != level_name,
    ensures
        ({
            let after = leaves_recorded(report, level_name, leaves);
            &&& tally_at(after.per_style, style).terrain == tally_at(
                report.per_style,
                style,
            ).terrain + leaves_of_style(leaves, style)
            &&& tally_at(after.per_style, style).objects == tally_at(
                report.per_style,
                style,
            ).objects
            &&& tally_at(after.per_level, level_name).terrain == tally_at(
                report.per_level,
                level_name,
            ).terrain + leaves.len()
            &&& tally_at(after.per_level, level_name).objects == tally_at(
                report.per_level,
                level_name,
            ).objects
            &&& tally_at(after.per_level, other_level) == tally_at(report.per_level, other_level)
            &&& after.total_terrain == report.total_terrain + leaves.len()
            &&& after.total_objects == report.total_objects
        }),
    decreases leaves.len(),
{
    if leaves.len() > 0 {
        leaves_add_up(report, level_name, leaves.drop_last(), style, other_level);
    }
}

impl Report {
    /// Whether the report is in order: both tables are, and no entry has
    /// counted more than the totals.
    pub closed spec fn wf(&self) -> bool {
        &&& self.per_style.wf()
        &&& self.per_level.wf()
        &&& forall|k: Seq<char>| #[trigger]
            self.per_style@.contains_key(k) ==> self.per_style@[k].objects <= self.total_objects
                && self.per_style@[k].terrain <= self.total_terrain
        &&& forall|k: Seq<char>| #[trigger]
            self.per_level@.contains_key(k) ==> self.per_level@[k].objects <= self.total_objects
                && self.per_level@[k].terrain <= self.total_terrain
    }

    /// A report over no levels.
    pub fn new() -> (report: Report)
        ensures
            report.wf(),
            report@ == (ReportView {
                per_style: Map::empty(),
                per_level: Map::empty(),
                total_objects: 0,
                total_terrain: 0,
            }),
    {
        Report {
            per_style: CountTable::new(),
            per_level: CountTable::new(),
            total_objects: 0,
            total_terrain: 0,
        }
    }

    /// The counts by style.
    pub fn per_style(&self) -> (table: &CountTable)
        requires
            self.wf(),
        ensures
            table.wf(),
            table@ == self@.per_style,
    {
        &self.per_style
    }

    /// The counts by level.
    pub fn per_level(&self) -> (table: &CountTable)
        requires
            self.wf(),
        ensures
            table.wf(),
            table@ == self@.per_level,
    {
        &self.per_level
    }

    /// The number of gadgets in all levels.
    pub fn total_objects(&self) -> (n: u64)
        ensures
            n == self@.total_objects,
    {
        self.total_objects
    }

    /// The number of resolved terrain leaves in all levels.
    pub fn total_terrain(&self) -> (n: u64)
        ensures
            n == self@.total_terrain,
    {
        self.total_terrain
    }

    fn record_object(&mut self, level_name: &String, style: &String)
        requires
            old(self).wf(),
            old(self).total_objects < u64::MAX,
        ensures
            final(self).wf(),
            final(self)@ == object_recorded(old(self)@, level_name@, style@),
    {
        count_object(&mut self.per_style, style);
        count_object(&mut self.per_level, level_name);
        self.total_objects = self.total_objects + 1;
    }

    fn record_terrain(&mut self, level_name: &String, style: &String)
        requires
            old(self).wf(),
            old(self).total_terrain < u64::MAX,
        ensures
            final(self).wf(),
            final(self)@ == terrain_recorded(old(self)@, level_name@, style@),
    {
        count_terrain(&mut self.per_style, style);
        count_terrain(&mut self.per_level, level_name);
        self.total_terrain = self.total_terrain + 1;
    }

    /// Adds the level `level`, known as `level_name`, to the report. The
    /// terrain is resolved first: a level that cannot be resolved, or whose
    /// counts would not fit, leaves the report as it was.
    pub fn add_level(&mut self, level_name: &String, level: &Level) -> (res: Result<
        (),
        AggregateError,
    >)
        requires
            old(self).wf(),
        ensures
            final(self).wf(),
            match res {
                Ok(()) => level_recorded(old(self)@, level_name@, level@) == Ok::<
                    ReportView,
                    ResolveErrorView,
                >(final(self)@),
                Err(AggregateError::Unresolved(cause)) => {
                    &&& final(self)@ == old(self)@
                    &&& resolved_terrain(level@) == Err::<Seq<TerrainPartView>, ResolveErrorView>(
                        cause@,
                    )
                },
                Err(AggregateError::CounterOverflow) => {
                    &&& final(self)@ == old(self)@
                    &&& resolved_terrain(level@) matches Ok(leaves)
                    &&& (old(self)@.total_objects + level@.gadgets.len() > u64::MAX
                        || old(self)@.total_terrain + leaves.len() > u64::MAX)
                },
            },
    {
        let leaves = match visit_terrain_recursive(level) {
            Ok(leaves) => leaves,
            Err(e) => {
                return Err(AggregateError::Unresolved(e));
            },
        };
        let gadgets = visit_gadgets(level);
        if gadgets.len() as u64 > u64::MAX - self.total_objects || leaves.len() as u64 > u64::MAX
            - self.total_terrain {
            return Err(AggregateError::CounterOverflow);
        }
        let ghost all_gadgets = level@.gadgets;
        let ghost all_leaves = leaves_view(leaves@);
        let mut i: usize = 0;
        assert(all_gadgets.take(0) == Seq::<GadgetView>::empty());
        while i < gadgets.len()
            invariant
                i <= gadgets.len(),
                self.wf(),
                all_gadgets == level@.gadgets,
                gadgets@.len() == level.gadgets@.len(),
                forall|k: int| 0 <= k < gadgets@.len() ==> *gadgets@[k] == level.gadgets@[k],
                self.total_objects + (gadgets.len() - i) <= u64::MAX,
                self.total_terrain + leaves.len() <= u64::MAX,
                self@ == gadgets_recorded(old(self)@, level_name@, all_gadgets.take(i as int)),
            decreases gadgets.len() - i,
        {
            proof {
                assert(all_gadgets.take(i + 1).drop_last() == all_gadgets.take(i as int));
                assert(all_gadgets.take(i + 1).last() == gadgets@[i as int]@);
            }
            self.record_object(level_name, &gadgets[i].style);
            i += 1;
        }
        assert(all_gadgets.take(i as int) == all_gadgets);
        let ghost midway = self@;
        let mut j: usize = 0;
        assert(all_leaves.take(0) == Seq::<TerrainPartView>::empty());
        while j < leaves.len()
            invariant
                j <= leaves.len(),
                self.wf(),
                all_leaves == leaves_view(leaves@),
                self.total_terrain + (leaves.len() - j) <= u64::MAX,
                self@ == leaves_recorded(midway, level_name@, all_leaves.take(j as int)),
            decreases leaves.len() - j,
        {
            proof {
                assert(all_leaves.take(j + 1).drop_last() == all_leaves.take(j as int));
                assert(all_leaves.take(j + 1).last() == leaves@[j as int]@);
            }
            self.record_terrain(level_name, &leaves[j].style);
            j += 1;
        }
        assert(all_leaves.take(j as int) == all_leaves);
        Ok(())
    }
}

} // verus!
