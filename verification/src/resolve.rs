//! Walking a parsed level: its gadgets, and its terrain with every group
//! reference replaced by the parts of the group it names.
use crate::level::{
    Gadget, Level, LevelView, TerrainGroup, TerrainGroupView, TerrainPart, TerrainPartView,
};
use crate::text::matches_ignoring_ascii_case;
use vstd::prelude::*;

verus! {

/// Why the terrain of a level could not be resolved.
#[derive(Debug, Clone, PartialEq, Eq)]
pub enum ResolveError {
    /// A group reference names a group that the level does not have. Holds
    /// the name.
    UnknownGroup(String),
    /// Group references nest deeper than the level has groups, which only
    /// happens where a group leads back to itself. Holds the name at which
    /// the expansion was given up.
    CyclicGroup(String),
}

/// What a `ResolveError` holds.
pub enum ResolveErrorView {
    UnknownGroup(Seq<char>),
    CyclicGroup(Seq<char>),
}

impl View for ResolveError {
    type V = ResolveErrorView;

    open spec fn view(&self) -> ResolveErrorView {
        match self {
            ResolveError::UnknownGroup(name) => ResolveErrorView::UnknownGroup(name@),
            ResolveError::CyclicGroup(name) => ResolveErrorView::CyclicGroup(name@),
        }
    }
}

/// Whether `part` stands for a terrain group: its style is `*GROUP` in any
/// mix of upper and lower case.
pub open spec fn is_group_ref(part: TerrainPartView) -> bool {
    matches_ignoring_ascii_case(part.style, "*GROUP"@)
}

/// The names of `groups`, in order.
pub open spec fn group_names(groups: Seq<TerrainGroupView>) -> Seq<Seq<char>> {
    groups.map_values(|g: TerrainGroupView| g.name)
}

/// The index of the first group called exactly `name`, if there is one.
pub open spec fn group_named(groups: Seq<TerrainGroupView>, name: Seq<char>) -> Option<int> {
    group_names(groups).index_of_first(name)
}

/// What is visited if `first` is walked and then `rest`: the leaves of both in
/// that order, or the first error met.
pub open spec fn then_leaves(
    first: Result<Seq<TerrainPartView>, ResolveErrorView>,
    rest: Result<Seq<TerrainPartView>, ResolveErrorView>,
) -> Result<Seq<TerrainPartView>, ResolveErrorView> {
    match first {
        Err(e) => Err(e),
        Ok(a) => match rest {
            Err(e) => Err(e),
            Ok(b) => Ok(a + b),
        },
    }
}

/// The leaves visited for one entry of the work list, where group references
/// may still nest `depth` deep. A plain part is its own leaf. A group
/// reference is replaced by the walk of the group's terrain; it is an error
/// if no group has that name, or if no depth is left.
pub open spec fn leaves_of_part(
    groups: Seq<TerrainGroupView>,
    part: TerrainPartView,
    depth: nat,
) -> Result<Seq<TerrainPartView>, ResolveErrorView>
    decreases depth, 0nat, 0nat,
{
    if !is_group_ref(part) {
        Ok(seq![part])
    } else {
        match group_named(groups, part.piece) {
            None => Err(ResolveErrorView::UnknownGroup(part.piece)),
            Some(i) => if depth == 0 {
                Err(ResolveErrorView::CyclicGroup(part.piece))
            } else {
                leaves_of_stack(groups, groups[i].terrain, (depth - 1) as nat)
            },
        }
    }
}

/// The leaves visited when `stack` is walked as a stack, its last entry
/// first, each entry giving way to whatever it expands to before the entry
/// below it is looked at.
pub open spec fn leaves_of_stack(
    groups: Seq<TerrainGroupView>,
    stack: Seq<TerrainPartView>,
    depth: nat,
) -> Result<Seq<TerrainPartView>, ResolveErrorView>
    decreases depth, 1nat, stack.len(),
{
    if stack.len() == 0 {
        Ok(Seq::empty())
    } else {
        then_leaves(
            leaves_of_part(groups, stack.last(), depth),
            leaves_of_stack(groups, stack.drop_last(), depth),
        )
    }
}

/// The terrain leaves of `level` in the order of their visit, or the first
/// error that the walk meets. The top-level terrain is walked as a stack,
/// and references may nest as deep as the level has groups.
pub open spec fn resolved_terrain(level: LevelView) -> Result<
    Seq<TerrainPartView>,
    ResolveErrorView,
> {
    leaves_of_stack(level.groups, level.terrain, level.groups.len())
}

/// The views of borrowed parts, in order.
pub open spec fn leaves_view(leaves: Seq<&TerrainPart>) -> Seq<TerrainPartView> {
    leaves.map_values(|p: &TerrainPart| p@)
}

/// The view of what `visit_terrain_recursive` returns.
pub open spec fn visit_outcome(res: Result<Vec<&TerrainPart>, ResolveError>) -> Result<
    Seq<TerrainPartView>,
    ResolveErrorView,
> {
    match res {
        Ok(leaves) => Ok(leaves_view(leaves@)),
        Err(e) => Err(e@),
    }
}

/// A work list: parts still to be visited, each with the depth left to it.
spec fn work_view(work: Seq<(&TerrainPart, usize)>) -> Seq<(TerrainPartView, nat)> {
    work.map_values(|e: (&TerrainPart, usize)| (e.0@, e.1 as nat))
}

/// The leaves visited when a work list is drained from its end.
spec fn leaves_of_work(groups: Seq<TerrainGroupView>, work: Seq<(TerrainPartView, nat)>) -> Result<
    Seq<TerrainPartView>,
    ResolveErrorView,
>
    decreases work.len(),
{
    if work.len() == 0 {
        Ok(Seq::empty())
    } else {
        then_leaves(
            leaves_of_part(groups, work.last().0, work.last().1),
            leaves_of_work(groups, work.drop_last()),
        )
    }
}

/// The number of entries that are taken off the work list until one entry
/// and all it expands to are gone.
spec fn steps_of_part(groups: Seq<TerrainGroupView>, part: TerrainPartView, depth: nat) -> nat
    decreases depth, 0nat, 0nat,
{
    if is_group_ref(part) && depth > 0 {
        match group_named(groups, part.piece) {
            None => 1,
            Some(i) => 1 + steps_of_stack(groups, groups[i].terrain, (depth - 1) as nat),
        }
    } else {
        1
    }
}

/// The number of entries taken off the work list until a stack pushed onto
/// it is gone again.
spec fn steps_of_stack(groups: Seq<TerrainGroupView>, stack: Seq<TerrainPartView>, depth: nat) -> nat
    decreases depth, 1nat, stack.len(),
{
    if stack.len() == 0 {
        0
    } else {
        steps_of_part(groups, stack.last(), depth) + steps_of_stack(groups, stack.drop_last(), depth)
    }
}

/// The number of entries taken off the work list until it is empty.
spec fn steps_of_work(groups: Seq<TerrainGroupView>, work: Seq<(TerrainPartView, nat)>) -> nat
    decreases work.len(),
{
    if work.len() == 0 {
        0
    } else {
        steps_of_part(groups, work.last().0, work.last().1) + steps_of_work(
            groups,
            work.drop_last(),
        )
    }
}

proof fn then_leaves_is_associative(
    a: Result<Seq<TerrainPartView>, ResolveErrorView>,
    b: Result<Seq<TerrainPartView>, ResolveErrorView>,
    c: Result<Seq<TerrainPartView>, ResolveErrorView>,
)
    ensures
        then_leaves(then_leaves(a, b), c) == then_leaves(a, then_leaves(b, c)),
{
    if let (Ok(x), Ok(y), Ok(z)) = (a, b, c) {
        assert((x + y) + z == x + (y + z));
    }
}

proof fn part_leaves_are_plain(groups: Seq<TerrainGroupView>, part: TerrainPartView, depth: nat)
    ensures
        leaves_of_part(groups, part, depth) matches Ok(leaves) ==> forall|i: int|
            0 <= i < leaves.len() ==> !is_group_ref(#[trigger] leaves[i]),
    decreases depth, 0nat, 0nat,
{
    if is_group_ref(part) && depth > 0 {
        if let Some(i) = group_named(groups, part.piece) {
            stack_leaves_are_plain(groups, groups[i].terrain, (depth - 1) as nat);
        }
    }
}

proof fn stack_leaves_are_plain(
    groups: Seq<TerrainGroupView>,
    stack: Seq<TerrainPartView>,
    depth: nat,
)
    ensures
        leaves_of_stack(groups, stack, depth) matches Ok(leaves) ==> forall|i: int|
            0 <= i < leaves.len() ==> !is_group_ref(#[trigger] leaves[i]),
    decreases depth, 1nat, stack.len(),
{
    if stack.len() > 0 {
        part_leaves_are_plain(groups, stack.last(), depth);
        stack_leaves_are_plain(groups, stack.drop_last(), depth);
    }
}

/// No group reference is ever visited: every leaf of a resolved terrain is
/// a plain part.
pub proof fn resolved_leaves_are_plain(level: LevelView)
    ensures
        resolved_terrain(level) matches Ok(leaves) ==> forall|i: int|
            0 <= i < leaves.len() ==> !is_group_ref(#[trigger] leaves[i]),
{
    stack_leaves_are_plain(level.groups, level.terrain, level.groups.len());
}

/// A stack of plain parts is visited from its last entry to its first,
/// whatever the groups are.
pub proof fn plain_stack_is_visited_last_first(
    groups: Seq<TerrainGroupView>,
    stack: Seq<TerrainPartView>,
    depth: nat,
)
    requires
        forall|k: int| 0 <= k < stack.len() ==> !is_group_ref(#[trigger] stack[k]),
    ensures
        leaves_of_stack(groups, stack, depth) == Ok::<Seq<TerrainPartView>, ResolveErrorView>(
            stack.reverse(),
        ),
    decreases stack.len(),
{
    if stack.len() > 0 {
        let below = stack.drop_last();
        assert forall|k: int| 0 <= k < below.len() implies !is_group_ref(#[trigger] below[k]) by {
            assert(below[k] == stack[k]);
        }
        plain_stack_is_visited_last_first(groups, below, depth);
        assert(!is_group_ref(stack[stack.len() - 1]));
        assert(leaves_of_part(groups, stack.last(), depth) == Ok::<
            Seq<TerrainPartView>,
            ResolveErrorView,
        >(seq![stack.last()]));
        assert(stack.reverse() == seq![stack.last()] + below.reverse());
    } else {
        assert(stack.reverse() == Seq::<TerrainPartView>::empty());
    }
}

/// A reference to a group of plain parts gives way to exactly those parts,
/// the last of them first; the reference itself is not visited.
pub proof fn reference_expands_to_its_group(
    groups: Seq<TerrainGroupView>,
    part: TerrainPartView,
    depth: nat,
)
    requires
        depth > 0,
        is_group_ref(part),
        group_named(groups, part.piece) matches Some(g) && forall|k: int|
            0 <= k < groups[g].terrain.len() ==> !is_group_ref(#[trigger] groups[g].terrain[k]),
    ensures
        leaves_of_part(groups, part, depth) == Ok::<Seq<TerrainPartView>, ResolveErrorView>(
            groups[group_named(groups, part.piece).unwrap()].terrain.reverse(),
        ),
{
    let g = group_named(groups, part.piece).unwrap();
    plain_stack_is_visited_last_first(groups, groups[g].terrain, (depth - 1) as nat);
}

/// A stack that holds a reference to a group that does not exist is never
/// resolved: the walk ends in an error, whichever it meets first.
pub proof fn dangling_reference_fails(
    groups: Seq<TerrainGroupView>,
    stack: Seq<TerrainPartView>,
    depth: nat,
    at: int,
)
    requires
        0 <= at < stack.len(),
        is_group_ref(stack[at]),
        group_named(groups, stack[at].piece) is None,
    ensures
        leaves_of_stack(groups, stack, depth) is Err,
    decreases stack.len(),
{
    if at < stack.len() - 1 {
        assert(stack.drop_last()[at] == stack[at]);
        dangling_reference_fails(groups, stack.drop_last(), depth, at);
    } else {
        assert(stack.last() == stack[at]);
        assert(leaves_of_part(groups, stack.last(), depth) is Err);
    }
}

/// A level whose top-level terrain refers to a group that it lacks has no
/// resolved terrain: the result is an error, never an empty or shortened
/// list of leaves.
pub proof fn unknown_group_is_an_error(level: LevelView, at: int)
    requires
        0 <= at < level.terrain.len(),
        is_group_ref(level.terrain[at]),
        group_named(level.groups, level.terrain[at].piece) is None,
    ensures
        resolved_terrain(level) is Err,
{
    dangling_reference_fails(level.groups, level.terrain, level.groups.len(), at);
}

/// Whether some part of the group at `from` refers to the group at `to`.
pub open spec fn refers_to(groups: Seq<TerrainGroupView>, from: int, to: int) -> bool {
    &&& 0 <= from < groups.len()
    &&& 0 <= to < groups.len()
    &&& exists|k: int|
        0 <= k < groups[from].terrain.len() && is_group_ref(#[trigger] groups[from].terrain[k])
            && group_named(groups, groups[from].terrain[k].piece) == Some(to)
}

/// Whether every group of `chain` refers to the one after it.
pub open spec fn is_chain(groups: Seq<TerrainGroupView>, chain: Seq<int>) -> bool {
    &&& forall|i: int| 0 <= i < chain.len() ==> 0 <= #[trigger] chain[i] < groups.len()
    &&& forall|i: int| 0 <= i < chain.len() - 1 ==> refers_to(groups, #[trigger] chain[i], chain[i + 1])
}

/// Whether some group leads back to itself through one or more references.
pub open spec fn has_cycle(groups: Seq<TerrainGroupView>) -> bool {
    exists|chain: Seq<int>|
        chain.len() >= 2 && #[trigger] is_chain(groups, chain) && chain.first() == chain.last()
}

/// Whether some part of `stack` refers to the group at `to`.
spec fn stack_refers_to(groups: Seq<TerrainGroupView>, stack: Seq<TerrainPartView>, to: int) -> bool {
    exists|k: int|
        0 <= k < stack.len() && is_group_ref(#[trigger] stack[k]) && group_named(
            groups,
            stack[k].piece,
        ) == Some(to)
}

proof fn named_group_is_in_range(groups: Seq<TerrainGroupView>, name: Seq<char>)
    ensures
        group_named(groups, name) matches Some(i) ==> 0 <= i < groups.len(),
{
    group_names(groups).index_of_first_ensures(name);
}

proof fn cyclic_part_has_chain(groups: Seq<TerrainGroupView>, part: TerrainPartView, depth: nat) -> (chain:
    Seq<int>)
    requires
        leaves_of_part(groups, part, depth) matches Err(ResolveErrorView::CyclicGroup(_)),
    ensures
        chain.len() == depth + 1,
        is_chain(groups, chain),
        is_group_ref(part),
        group_named(groups, part.piece) == Some(chain[0]),
    decreases depth, 0nat, 0nat,
{
    let g = group_named(groups, part.piece).unwrap();
    named_group_is_in_range(groups, part.piece);
    if depth == 0 {
        seq![g]
    } else {
        let inner = cyclic_stack_has_chain(groups, groups[g].terrain, (depth - 1) as nat);
        let chain = seq![g] + inner;
        assert forall|i: int| 0 <= i < chain.len() - 1 implies refers_to(
            groups,
            #[trigger] chain[i],
            chain[i + 1],
        ) by {
            if i > 0 {
                assert(chain[i] == inner[i - 1]);
                assert(chain[i + 1] == inner[i - 1 + 1]);
            }
        }
        chain
    }
}

proof fn cyclic_stack_has_chain(
    groups: Seq<TerrainGroupView>,
    stack: Seq<TerrainPartView>,
    depth: nat,
) -> (chain: Seq<int>)
    requires
        leaves_of_stack(groups, stack, depth) matches Err(ResolveErrorView::CyclicGroup(_)),
    ensures
        chain.len() == depth + 1,
        is_chain(groups, chain),
        stack_refers_to(groups, stack, chain[0]),
    decreases depth, 1nat, stack.len(),
{
    if leaves_of_part(groups, stack.last(), depth) is Err {
        let chain = cyclic_part_has_chain(groups, stack.last(), depth);
        assert(is_group_ref(stack[stack.len() - 1]));
        chain
    } else {
        let chain = cyclic_stack_has_chain(groups, stack.drop_last(), depth);
        let k = choose|k: int|
            0 <= k < stack.drop_last().len() && is_group_ref(#[trigger] stack.drop_last()[k])
                && group_named(groups, stack.drop_last()[k].piece) == Some(chain[0]);
        assert(is_group_ref(stack[k]));
        chain
    }
}

proof fn long_chain_repeats(chain: Seq<int>, bound: nat) -> (at: (int, int))
    requires
        chain.len() > bound,
        forall|i: int| 0 <= i < chain.len() ==> 0 <= #[trigger] chain[i] < bound,
    ensures
        0 <= at.0 < at.1 < chain.len(),
        chain[at.0] == chain[at.1],
{
    if chain.no_duplicates() {
        chain.unique_seq_to_set();
        vstd::set_lib::lemma_int_range(0, bound as int);
        assert(chain.to_set().subset_of(vstd::set_lib::set_int_range(0, bound as int)));
        vstd::set_lib::lemma_len_subset(
            chain.to_set(),
            vstd::set_lib::set_int_range(0, bound as int),
        );
    }
    let (i, j) = choose|i: int, j: int|
        0 <= i < chain.len() && 0 <= j < chain.len() && i != j && chain[i] == chain[j];
    if i < j {
        (i, j)
    } else {
        (j, i)
    }
}

/// `CyclicGroup` is never reported of groups that are free of cycles: where
/// the walk is given up for its depth, some group does lead back to itself.
pub proof fn cyclic_error_means_cycle(level: LevelView)
    requires
        resolved_terrain(level) matches Err(ResolveErrorView::CyclicGroup(_)),
    ensures
        has_cycle(level.groups),
{
    let groups = level.groups;
    let chain = cyclic_stack_has_chain(groups, level.terrain, groups.len());
    let (i, j) = long_chain_repeats(chain, groups.len());
    let cycle = chain.subrange(i, j + 1);
    assert forall|k: int| 0 <= k < cycle.len() - 1 implies refers_to(
        groups,
        #[trigger] cycle[k],
        cycle[k + 1],
    ) by {
        assert(cycle[k] == chain[i + k]);
        assert(cycle[k + 1] == chain[i + k + 1]);
    }
    assert(is_chain(groups, cycle));
}

proof fn resolved_stack_has_resolved_parts(
    groups: Seq<TerrainGroupView>,
    stack: Seq<TerrainPartView>,
    depth: nat,
    at: int,
)
    requires
        leaves_of_stack(groups, stack, depth) is Ok,
        0 <= at < stack.len(),
    ensures
        leaves_of_part(groups, stack[at], depth) is Ok,
    decreases stack.len(),
{
    if at < stack.len() - 1 {
        assert(stack.drop_last()[at] == stack[at]);
        resolved_stack_has_resolved_parts(groups, stack.drop_last(), depth, at);
    }
}

proof fn resolved_stack_bounds_chains(
    groups: Seq<TerrainGroupView>,
    stack: Seq<TerrainPartView>,
    depth: nat,
    chain: Seq<int>,
)
    requires
        leaves_of_stack(groups, stack, depth) is Ok,
        chain.len() >= 1,
        is_chain(groups, chain),
        stack_refers_to(groups, stack, chain[0]),
    ensures
        chain.len() <= depth,
    decreases chain.len(),
{
    let k = choose|k: int|
        0 <= k < stack.len() && is_group_ref(#[trigger] stack[k]) && group_named(
            groups,
            stack[k].piece,
        ) == Some(chain[0]);
    resolved_stack_has_resolved_parts(groups, stack, depth, k);
    if chain.len() >= 2 {
        let inner = groups[chain[0]].terrain;
        assert(refers_to(groups, chain[0], chain[0int + 1]));
        let rest = chain.skip(1);
        assert forall|i: int| 0 <= i < rest.len() - 1 implies refers_to(
            groups,
            #[trigger] rest[i],
            rest[i + 1],
        ) by {
            assert(rest[i] == chain[i + 1]);
            assert(rest[i + 1] == chain[i + 1 + 1]);
        }
        resolved_stack_bounds_chains(groups, inner, (depth - 1) as nat, rest);
    }
}

proof fn chain_goes_round(groups: Seq<TerrainGroupView>, path: Seq<int>, cycle: Seq<int>) -> (longer:
    Seq<int>)
    requires
        path.len() >= 1,
        is_chain(groups, path),
        cycle.len() >= 2,
        is_chain(groups, cycle),
        cycle.first() == path.last(),
    ensures
        longer.len() > path.len(),
        is_chain(groups, longer),
        longer[0] == path[0],
        longer.last() == cycle.last(),
{
    let longer = path + cycle.skip(1);
    assert forall|i: int| 0 <= i < longer.len() - 1 implies refers_to(
        groups,
        #[trigger] longer[i],
        longer[i + 1],
    ) by {
        if i < path.len() - 1 {
            assert(longer[i] == path[i]);
            assert(longer[i + 1] == path[i + 1]);
        } else {
            let j = i - (path.len() - 1);
            assert(longer[i] == cycle[j]);
            assert(longer[i + 1] == cycle[j + 1]);
        }
    }
    assert forall|i: int| 0 <= i < longer.len() implies 0 <= #[trigger] longer[i]
        < groups.len() by {
        if i >= path.len() {
            assert(longer[i] == cycle[i - path.len() + 1]);
        } else {
            assert(longer[i] == path[i]);
        }
    }
    longer
}

proof fn chain_goes_round_often(
    groups: Seq<TerrainGroupView>,
    path: Seq<int>,
    cycle: Seq<int>,
    length: nat,
) -> (longer: Seq<int>)
    requires
        path.len() >= 1,
        is_chain(groups, path),
        cycle.len() >= 2,
        is_chain(groups, cycle),
        cycle.first() == path.last(),
        cycle.first() == cycle.last(),
    ensures
        longer.len() > length,
        is_chain(groups, longer),
        longer[0] == path[0],
    decreases
            if path.len() <= length {
                length + 1 - path.len()
            } else {
                0
            },
{
    if path.len() > length {
        path
    } else {
        let once = chain_goes_round(groups, path, cycle);
        chain_goes_round_often(groups, once, cycle, length)
    }
}

/// A group that leads back to itself is found out wherever the terrain
/// leads to it: a level is never resolved if a chain of references goes from
/// its top-level terrain to a group on a cycle. Here `path` is such a chain
/// and `cycle` a chain from its last group back to that group.
pub proof fn reachable_cycle_is_an_error(level: LevelView, path: Seq<int>, cycle: Seq<int>)
    requires
        path.len() >= 1,
        is_chain(level.groups, path),
        exists|k: int|
            0 <= k < level.terrain.len() && is_group_ref(#[trigger] level.terrain[k])
                && group_named(level.groups, level.terrain[k].piece) == Some(path[0]),
        cycle.len() >= 2,
        is_chain(level.groups, cycle),
        cycle.first() == path.last(),
        cycle.first() == cycle.last(),
    ensures
        resolved_terrain(level) is Err,
{
    if resolved_terrain(level) is Ok {
        let longer = chain_goes_round_often(level.groups, path, cycle, level.groups.len());
        resolved_stack_bounds_chains(level.groups, level.terrain, level.groups.len(), longer);
    }
}

/// The gadgets of `level` in the order of the document.
pub fn visit_gadgets(level: &Level) -> (gadgets: Vec<&Gadget>)
    ensures
        gadgets@.len() == level.gadgets@.len(),
        forall|i: int| 0 <= i < gadgets@.len() ==> *gadgets@[i] == level.gadgets@[i],
{
    let mut gadgets: Vec<&Gadget> = Vec::new();
    let mut i: usize = 0;
    while i < level.gadgets.len()
        invariant
            i <= level.gadgets.len(),
            gadgets@.len() == i,
            forall|k: int| 0 <= k < i ==> *gadgets@[k] == level.gadgets@[k],
        decreases level.gadgets.len() - i,
    {
        gadgets.push(&level.gadgets[i]);
        i += 1;
    }
    gadgets
}

/// The position in `level.groups` of the first group called exactly `name`.
pub fn find_group(level: &Level, name: &String) -> (found: Option<usize>)
    ensures
        match found {
            Some(i) => i < level.groups@.len() && group_named(level@.groups, name@) == Some(
                i as int,
            ),
            None => group_named(level@.groups, name@) is None,
        },
{
    let ghost names = group_names(level@.groups);
    let mut i: usize = 0;
    while i < level.groups.len()
        invariant
            i <= level.groups.len(),
            names == group_names(level@.groups),
            forall|k: int| 0 <= k < i ==> names[k] != name@,
        decreases level.groups.len() - i,
    {
        if level.groups[i].name == *name {
            proof {
                assert(names[i as int] == name@);
                names.index_of_first_ensures(name@);
            }
            return Some(i);
        }
        i += 1;
    }
    proof {
        names.index_of_first_ensures(name@);
    }
    None
}

/// The terrain of `level` with every group reference resolved, in the order
/// in which a stack seeded with the top-level terrain gives the leaves up:
/// the last entry first, and the parts of a group, last first, in the place
/// of the reference to it.
///
/// A reference to a group that the level lacks ends the walk with
/// `UnknownGroup`. A reference nested deeper than the number of groups ends it
/// with `CyclicGroup`; the walk of a group that leads back to itself
/// would never end.
pub fn visit_terrain_recursive<'a>(level: &'a Level) -> (res: Result<
    Vec<&'a TerrainPart>,
    ResolveError,
>)
    ensures
        visit_outcome(res) == resolved_terrain(level@),
        res matches Ok(leaves) ==> forall|i: int|
            0 <= i < leaves@.len() ==> !is_group_ref(#[trigger] leaves@[i]@),
{
    let ghost groups = level@.groups;
    let depth = level.groups.len();
    let mut leaves: Vec<&TerrainPart> = Vec::new();
    let mut to_visit: Vec<(&TerrainPart, usize)> = Vec::new();
    let mut i: usize = 0;
    assert(level@.terrain.take(0) == Seq::<TerrainPartView>::empty());
    while i < level.terrain.len()
        invariant
            i <= level.terrain.len(),
            depth == level.groups@.len(),
            groups == level@.groups,
            leaves_of_work(groups, work_view(to_visit@)) == leaves_of_stack(
                groups,
                level@.terrain.take(i as int),
                depth as nat,
            ),
        decreases level.terrain.len() - i,
    {
        let ghost work = work_view(to_visit@);
        to_visit.push((&level.terrain[i], depth));
        proof {
            let part = level@.terrain[i as int];
            assert(work_view(to_visit@) == work.push((part, depth as nat)));
            assert(work.push((part, depth as nat)).drop_last() == work);
            assert(level@.terrain.take(i + 1).drop_last() == level@.terrain.take(i as int));
        }
        i += 1;
    }
    assert(level@.terrain.take(i as int) == level@.terrain);
    assert(leaves_view(leaves@) == Seq::<TerrainPartView>::empty());
    loop
        invariant
            groups == level@.groups,
            then_leaves(Ok(leaves_view(leaves@)), leaves_of_work(groups, work_view(to_visit@)))
                == resolved_terrain(level@),
        decreases steps_of_work(groups, work_view(to_visit@)),
    {
        let ghost work = work_view(to_visit@);
        let ghost seen = leaves_view(leaves@);
        match to_visit.pop() {
            None => {
                proof {
                    assert(seen + Seq::<TerrainPartView>::empty() == seen);
                    resolved_leaves_are_plain(level@);
                    assert forall|i: int| 0 <= i < leaves@.len() implies !is_group_ref(
                        #[trigger] leaves@[i]@,
                    ) by {
                        assert(seen[i] == leaves@[i]@);
                    }
                }
                return Ok(leaves);
            },
            Some((part, fuel)) => {
                let ghost below = work_view(to_visit@);
                assert(below == work.drop_last());
                assert(work.last() == (part@, fuel as nat));
                if part.style.as_str().eq_ignore_ascii_case("*GROUP") {
                    match find_group(level, &part.piece) {
                        None => {
                            return Err(ResolveError::UnknownGroup(part.piece.clone()));
                        },
                        Some(g) => {
                            if fuel == 0 {
                                return Err(ResolveError::CyclicGroup(part.piece.clone()));
                            }
                            let group: &TerrainGroup = &level.groups[g];
                            let ghost inner = groups[g as int].terrain;
                            assert(inner.take(0) == Seq::<TerrainPartView>::empty());
                            let mut k: usize = 0;
                            while k < group.terrain.len()
                                invariant
                                    k <= group.terrain.len(),
                                    fuel > 0,
                                    groups == level@.groups,
                                    g < level.groups@.len(),
                                    *group == level.groups@[g as int],
                                    inner == groups[g as int].terrain,
                                    leaves_of_work(groups, work_view(to_visit@)) == then_leaves(
                                        leaves_of_stack(
                                            groups,
                                            inner.take(k as int),
                                            (fuel - 1) as nat,
                                        ),
                                        leaves_of_work(groups, below),
                                    ),
                                    steps_of_work(groups, work_view(to_visit@)) == steps_of_stack(
                                        groups,
                                        inner.take(k as int),
                                        (fuel - 1) as nat,
                                    ) + steps_of_work(groups, below),
                                decreases group.terrain.len() - k,
                            {
                                let ghost now = work_view(to_visit@);
                                to_visit.push((&group.terrain[k], fuel - 1));
                                proof {
                                    let child = inner[k as int];
                                    let d = (fuel - 1) as nat;
                                    assert(work_view(to_visit@) == now.push((child, d)));
                                    assert(now.push((child, d)).drop_last() == now);
                                    assert(inner.take(k + 1).drop_last() == inner.take(k as int));
                                    then_leaves_is_associative(
                                        leaves_of_part(groups, child, d),
                                        leaves_of_stack(groups, inner.take(k as int), d),
                                        leaves_of_work(groups, below),
                                    );
                                }
                                k += 1;
                            }
                            proof {
                                assert(inner.take(k as int) == inner);
                                then_leaves_is_associative(
                                    Ok(seen),
                                    leaves_of_part(groups, part@, fuel as nat),
                                    leaves_of_work(groups, below),
                                );
                                then_leaves_is_associative(
                                    Ok(seen),
                                    leaves_of_stack(groups, inner, (fuel - 1) as nat),
                                    leaves_of_work(groups, below),
                                );
                            }
                        },
                    }
                } else {
                    leaves.push(part);
                    proof {
                        assert(leaves_view(leaves@) == seen.push(part@));
                        assert(seen + seq![part@] == seen.push(part@));
                        then_leaves_is_associative(
                            Ok(seen),
                            Ok(seq![part@]),
                            leaves_of_work(groups, below),
                        );
                    }
                }
            },
        }
    }
}

} // verus!
