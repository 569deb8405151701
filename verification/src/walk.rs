//! What a walk is, stated over plain values: the grid as a sequence of rows,
//! the guard as a pose, a walk as the sequence of poses it passes through.

use crate::patrol::{Direction, PatrolOutcome, PatrolStep};
use crate::table::{inside, rectangular};
use vstd::seq_lib::seq_to_set_is_finite;
use vstd::set_lib::{lemma_int_range, lemma_len_subset, set_int_range};
use vstd::prelude::*;

verus! {

/// Where the guard stands and which way it faces.
pub struct Pose {
    pub row: int,
    pub column: int,
    pub facing: Direction,
}

/// A decision rule as a function: what to do, given the cell ahead and the
/// current heading.
pub type Rule = spec_fn(char, Direction) -> PatrolStep;

impl Pose {
    /// The pose of a guard at `position` that faces `facing`.
    pub open spec fn at(position: (usize, usize), facing: Direction) -> Pose {
        Pose { row: position.0 as int, column: position.1 as int, facing }
    }

    /// The guard stands on a cell of the grid.
    pub open spec fn on(self, grid: Seq<Seq<char>>) -> bool {
        inside(grid, self.row, self.column)
    }

    /// The row of the cell ahead.
    pub open spec fn row_ahead(self) -> int {
        self.row + self.facing.row_delta()
    }

    /// The column of the cell ahead.
    pub open spec fn column_ahead(self) -> int {
        self.column + self.facing.column_delta()
    }

    /// The cell ahead is off the grid.
    pub open spec fn leaving(self, grid: Seq<Seq<char>>) -> bool {
        !inside(grid, self.row_ahead(), self.column_ahead())
    }

    /// What the cell ahead holds.
    pub open spec fn cell_ahead(self, grid: Seq<Seq<char>>) -> char {
        grid[self.row_ahead()][self.column_ahead()]
    }

    /// The pose after the guard has done what `step` says.
    pub open spec fn after(self, step: PatrolStep) -> Pose {
        match step {
            PatrolStep::Face(facing) => Pose { row: self.row, column: self.column, facing },
            PatrolStep::StepForward => Pose {
                row: self.row_ahead(),
                column: self.column_ahead(),
                facing: self.facing,
            },
        }
    }
}

/// The decision function may take the guard from `from` to `to`: the cell
/// ahead is on the grid, and `to` is what one of the answers that the
/// function can give for that cell leads to.
pub open spec fn permits<F: Fn(&char, Direction) -> PatrolStep>(
    decide: F,
    grid: Seq<Seq<char>>,
    from: Pose,
    to: Pose,
) -> bool {
    &&& !from.leaving(grid)
    &&& exists|step: PatrolStep|
        call_ensures(decide, (&from.cell_ahead(grid), from.facing), step) && to == #[trigger] from.after(step)
}

/// Each pose of `trace` but the last is followed by one that the decision
/// function permits.
pub open spec fn is_walk<F: Fn(&char, Direction) -> PatrolStep>(
    decide: F,
    grid: Seq<Seq<char>>,
    trace: Seq<Pose>,
) -> bool {
    forall|i: int| 0 <= i < trace.len() - 1 ==> permits(decide, grid, #[trigger] trace[i], trace[i + 1])
}

/// `trace` is a whole patrol from `start`, `outcome` is how it ended and
/// `seen` is what it recorded.
///
/// A patrol that left the grid passed through poses that all differ, faced
/// the edge in the last of them, and recorded them all. A patrol that ended
/// in a loop passed through poses that all differ and then came to one of
/// them again: that last pose is the first repeat, and was not recorded a
/// second time.
pub open spec fn patrol_ends<F: Fn(&char, Direction) -> PatrolStep>(
    decide: F,
    grid: Seq<Seq<char>>,
    start: Pose,
    trace: Seq<Pose>,
    outcome: PatrolOutcome,
    seen: Set<Pose>,
) -> bool {
    &&& trace.len() >= 1
    &&& trace[0] == start
    &&& is_walk(decide, grid, trace)
    &&& match outcome {
        PatrolOutcome::LeftBounds => {
            &&& trace.no_duplicates()
            &&& trace.last().leaving(grid)
            &&& seen == trace.to_set()
        },
        PatrolOutcome::Loop => {
            &&& trace.drop_last().no_duplicates()
            &&& trace.drop_last().contains(trace.last())
            &&& seen == trace.drop_last().to_set()
        },
    }
}

/// On this grid the decision function is a function: whatever it answers
/// for a cell of the grid and a heading is what `rule` gives for them.
pub open spec fn obeys<F: Fn(&char, Direction) -> PatrolStep>(decide: F, grid: Seq<Seq<char>>, rule: Rule) -> bool {
    forall|row: int, column: int, facing: Direction, step: PatrolStep|
        inside(grid, row, column) && #[trigger] call_ensures(decide, (&grid[row][column], facing), step) ==> step
            == rule(grid[row][column], facing)
}

/// The pose that follows `pose` under `rule`.
pub open spec fn next_pose(grid: Seq<Seq<char>>, rule: Rule, pose: Pose) -> Pose {
    pose.after(rule(pose.cell_ahead(grid), pose.facing))
}

/// The pose after `steps` decisions under `rule`. It means something as long
/// as the guard is `walking`.
pub open spec fn pose_at(grid: Seq<Seq<char>>, rule: Rule, start: Pose, steps: nat) -> Pose
    decreases steps,
{
    if steps == 0 {
        start
    } else {
        next_pose(grid, rule, pose_at(grid, rule, start, (steps - 1) as nat))
    }
}

/// The guard is still on the grid after `steps` decisions: in none of the
/// poses before was the cell ahead off the grid.
pub open spec fn walking(grid: Seq<Seq<char>>, rule: Rule, start: Pose, steps: nat) -> bool {
    forall|k: nat| k < steps ==> !(#[trigger] pose_at(grid, rule, start, k)).leaving(grid)
}

/// The guard comes to face the edge of the grid at some time.
pub open spec fn escapes(grid: Seq<Seq<char>>, rule: Rule, start: Pose) -> bool {
    exists|steps: nat| (#[trigger] pose_at(grid, rule, start, steps)).leaving(grid)
}

/// The guard takes the pose `pose` at some time while on the grid.
pub open spec fn reaches(grid: Seq<Seq<char>>, rule: Rule, start: Pose, pose: Pose) -> bool {
    exists|steps: nat| walking(grid, rule, start, steps) && #[trigger] pose_at(grid, rule, start, steps) == pose
}

/// The guard takes some pose twice while on the grid.
pub open spec fn repeats(grid: Seq<Seq<char>>, rule: Rule, start: Pose) -> bool {
    exists|earlier: nat, later: nat|
        earlier < later && walking(grid, rule, start, later) && #[trigger] pose_at(grid, rule, start, earlier)
            == #[trigger] pose_at(grid, rule, start, later)
}

/// How the patrol under `rule` ends: off the grid if the guard ever faces the
/// edge, in a loop if it never does.
pub open spec fn outcome_of(grid: Seq<Seq<char>>, rule: Rule, start: Pose) -> PatrolOutcome {
    if escapes(grid, rule, start) {
        PatrolOutcome::LeftBounds
    } else {
        PatrolOutcome::Loop
    }
}

/// Every pose that the guard takes under `rule` while on the grid.
pub open spec fn poses_of(grid: Seq<Seq<char>>, rule: Rule, start: Pose) -> Set<Pose> {
    Set::new(|pose: Pose| reaches(grid, rule, start, pose))
}

/// The number that tells a pose on a grid of this width from every other.
pub open spec fn pose_code(width: nat, pose: Pose) -> int {
    (pose.row * width + pose.column) * 4 + pose.facing.ordinal()
}

proof fn lemma_pose_code_bounds(height: nat, width: nat, pose: Pose)
    requires
        0 <= pose.row < height,
        0 <= pose.column < width,
    ensures
        0 <= pose_code(width, pose) < 4 * (height * width),
{
    assert(0 <= pose.row * width && pose.row * width + width <= height * width) by (nonlinear_arith)
        requires
            0 <= pose.row < height,
            0 <= width,
    ;
}

proof fn lemma_pose_code_injective(width: nat, p: Pose, q: Pose)
    requires
        0 <= p.column < width,
        0 <= q.column < width,
        pose_code(width, p) == pose_code(width, q),
    ensures
        p == q,
{
    assert(p.row * width + p.column == q.row * width + q.column);
    assert(p.row == q.row) by (nonlinear_arith)
        requires
            p.row * width + p.column == q.row * width + q.column,
            0 <= p.column < width,
            0 <= q.column < width,
    {
        if p.row < q.row {
            assert(q.row * width >= (p.row + 1) * width);
        } else if q.row < p.row {
            assert(p.row * width >= (q.row + 1) * width);
        }
    }
}

/// Poses on a grid that all differ are at most four for each cell.
proof fn lemma_distinct_poses_bounded(grid: Seq<Seq<char>>, width: nat, trail: Seq<Pose>)
    requires
        rectangular(grid, width),
        trail.no_duplicates(),
        forall|i: int| 0 <= i < trail.len() ==> (#[trigger] trail[i]).on(grid),
    ensures
        trail.len() <= 4 * (grid.len() * width),
{
    let bound = (4 * (grid.len() * width)) as int;
    let codes = trail.map_values(|pose: Pose| pose_code(width, pose));
    assert forall|i: int, j: int| 0 <= i < codes.len() && 0 <= j < codes.len() && i != j implies codes[i]
        != codes[j] by {
        if codes[i] == codes[j] {
            assert(trail[i].on(grid) && trail[j].on(grid));
            lemma_pose_code_injective(width, trail[i], trail[j]);
        }
    }
    assert forall|code: int| codes.to_set().contains(code) implies set_int_range(0, bound).contains(code) by {
        let i = choose|i: int| 0 <= i < codes.len() && codes[i] == code;
        assert(trail[i].on(grid));
        lemma_pose_code_bounds(grid.len(), width, trail[i]);
    }
    assert(bound >= 0) by (nonlinear_arith)
        requires
            bound == 4 * (grid.len() * width),
    ;
    lemma_int_range(0, bound);
    lemma_len_subset(codes.to_set(), set_int_range(0, bound));
    codes.unique_seq_to_set();
}

proof fn lemma_trace_pose<F: Fn(&char, Direction) -> PatrolStep>(
    decide: F,
    rule: Rule,
    grid: Seq<Seq<char>>,
    trace: Seq<Pose>,
    index: nat,
)
    requires
        obeys(decide, grid, rule),
        is_walk(decide, grid, trace),
        index < trace.len(),
    ensures
        trace[index as int] == pose_at(grid, rule, trace[0], index),
    decreases index,
{
    if index > 0 {
        lemma_trace_pose(decide, rule, grid, trace, (index - 1) as nat);
        let from = trace[index - 1];
        assert(permits(decide, grid, from, trace[index - 1 + 1]));
        let step = choose|step: PatrolStep|
            call_ensures(decide, (&from.cell_ahead(grid), from.facing), step) && trace[index as int]
                == #[trigger] from.after(step);
        assert(step == rule(from.cell_ahead(grid), from.facing));
    }
}

proof fn lemma_trace_walking<F: Fn(&char, Direction) -> PatrolStep>(
    decide: F,
    rule: Rule,
    grid: Seq<Seq<char>>,
    trace: Seq<Pose>,
    steps: nat,
)
    requires
        obeys(decide, grid, rule),
        is_walk(decide, grid, trace),
        steps < trace.len(),
    ensures
        walking(grid, rule, trace[0], steps),
{
    assert forall|k: nat| k < steps implies !(#[trigger] pose_at(grid, rule, trace[0], k)).leaving(grid) by {
        lemma_trace_pose(decide, rule, grid, trace, k);
        assert(permits(decide, grid, trace[k as int], trace[k as int + 1]));
    }
}

/// In a walk whose last pose is one of those before it, the guard under the
/// rule is at every time in one of the poses before the last.
proof fn lemma_loop_confined<F: Fn(&char, Direction) -> PatrolStep>(
    decide: F,
    rule: Rule,
    grid: Seq<Seq<char>>,
    trace: Seq<Pose>,
    steps: nat,
) -> (index: int)
    requires
        obeys(decide, grid, rule),
        is_walk(decide, grid, trace),
        trace.len() >= 1,
        trace.drop_last().contains(trace.last()),
    ensures
        0 <= index < trace.len() - 1,
        trace[index] == pose_at(grid, rule, trace[0], steps),
    decreases steps,
{
    let recorded = trace.drop_last();
    let again = choose|j: int| 0 <= j < recorded.len() && recorded[j] == trace.last();
    assert(recorded[again] == trace[again]);
    if steps == 0 {
        0
    } else {
        let before = lemma_loop_confined(decide, rule, grid, trace, (steps - 1) as nat);
        let from = trace[before];
        assert(permits(decide, grid, from, trace[before + 1]));
        let step = choose|step: PatrolStep|
            call_ensures(decide, (&from.cell_ahead(grid), from.facing), step) && trace[before + 1]
                == #[trigger] from.after(step);
        assert(step == rule(from.cell_ahead(grid), from.facing));
        if before + 1 < trace.len() - 1 {
            before + 1
        } else {
            again
        }
    }
}

/// Under a decision function that is a function, a patrol ends off the grid
/// exactly if the guard under that rule ever faces the edge, and it records
/// exactly the poses that the guard takes while on the grid.
proof fn lemma_patrol_under_rule<F: Fn(&char, Direction) -> PatrolStep>(
    decide: F,
    rule: Rule,
    grid: Seq<Seq<char>>,
    start: Pose,
    trace: Seq<Pose>,
    outcome: PatrolOutcome,
    seen: Set<Pose>,
)
    requires
        obeys(decide, grid, rule),
        patrol_ends(decide, grid, start, trace, outcome, seen),
    ensures
        outcome == outcome_of(grid, rule, start),
        seen == poses_of(grid, rule, start),
{
    let last = (trace.len() - 1) as nat;
    let recorded = trace.drop_last();
    match outcome {
        PatrolOutcome::LeftBounds => {
            lemma_trace_pose(decide, rule, grid, trace, last);
            assert(pose_at(grid, rule, start, last).leaving(grid));
            assert forall|pose: Pose| seen.contains(pose) implies reaches(grid, rule, start, pose) by {
                let i = choose|i: int| 0 <= i < trace.len() && trace[i] == pose;
                lemma_trace_pose(decide, rule, grid, trace, i as nat);
                lemma_trace_walking(decide, rule, grid, trace, i as nat);
            }
            assert forall|pose: Pose| reaches(grid, rule, start, pose) implies seen.contains(pose) by {
                let steps = choose|steps: nat|
                    walking(grid, rule, start, steps) && #[trigger] pose_at(grid, rule, start, steps) == pose;
                if steps > last {
                    assert(!pose_at(grid, rule, start, last).leaving(grid));
                }
                lemma_trace_pose(decide, rule, grid, trace, steps);
                assert(trace[steps as int] == pose);
            }
        },
        PatrolOutcome::Loop => {
            assert forall|steps: nat| !(#[trigger] pose_at(grid, rule, start, steps)).leaving(grid) by {
                let i = lemma_loop_confined(decide, rule, grid, trace, steps);
                assert(permits(decide, grid, trace[i], trace[i + 1]));
            }
            assert forall|pose: Pose| seen.contains(pose) implies reaches(grid, rule, start, pose) by {
                let i = choose|i: int| 0 <= i < recorded.len() && recorded[i] == pose;
                assert(recorded[i] == trace[i]);
                lemma_trace_pose(decide, rule, grid, trace, i as nat);
                assert(walking(grid, rule, start, i as nat));
            }
            assert forall|pose: Pose| reaches(grid, rule, start, pose) implies seen.contains(pose) by {
                let steps = choose|steps: nat|
                    walking(grid, rule, start, steps) && #[trigger] pose_at(grid, rule, start, steps) == pose;
                let i = lemma_loop_confined(decide, rule, grid, trace, steps);
                assert(recorded[i] == trace[i]);
            }
        },
    }
    assert(seen =~= poses_of(grid, rule, start));
}

/// What a whole patrol says to its caller: that there is such a walk, and
/// what the walk is under every rule that the decision function obeys.
pub open spec fn patrol_result<F: Fn(&char, Direction) -> PatrolStep>(
    decide: F,
    grid: Seq<Seq<char>>,
    start: Pose,
    outcome: PatrolOutcome,
    seen: Set<Pose>,
) -> bool {
    &&& exists|trace: Seq<Pose>| patrol_ends(decide, grid, start, trace, outcome, seen)
    &&& forall|rule: Rule| #[trigger]
        obeys(decide, grid, rule) ==> outcome == outcome_of(grid, rule, start) && seen == poses_of(grid, rule, start)
}

proof fn lemma_patrol_result<F: Fn(&char, Direction) -> PatrolStep>(
    decide: F,
    grid: Seq<Seq<char>>,
    start: Pose,
    trace: Seq<Pose>,
    outcome: PatrolOutcome,
    seen: Set<Pose>,
)
    requires
        patrol_ends(decide, grid, start, trace, outcome, seen),
    ensures
        patrol_result(decide, grid, start, outcome, seen),
{
    assert forall|rule: Rule| #[trigger] obeys(decide, grid, rule) implies outcome == outcome_of(grid, rule, start)
        && seen == poses_of(grid, rule, start) by {
        lemma_patrol_under_rule(decide, rule, grid, start, trace, outcome, seen);
    }
}

/// The pose in which the guard starts is on the record of every patrol.
pub proof fn lemma_start_is_recorded<F: Fn(&char, Direction) -> PatrolStep>(
    decide: F,
    grid: Seq<Seq<char>>,
    start: Pose,
    outcome: PatrolOutcome,
    seen: Set<Pose>,
)
    requires
        patrol_result(decide, grid, start, outcome, seen),
    ensures
        seen.contains(start),
{
    let trace = choose|trace: Seq<Pose>| patrol_ends(decide, grid, start, trace, outcome, seen);
    match outcome {
        PatrolOutcome::LeftBounds => {
            assert(trace[0] == start);
        },
        PatrolOutcome::Loop => {
            let recorded = trace.drop_last();
            let again = choose|j: int| 0 <= j < recorded.len() && recorded[j] == trace.last();
            assert(recorded[0] == start);
        },
    }
}

/// Two patrols on the same grid, from the same pose, under the same decision
/// function end the same way and record the same poses, provided that the
/// decision function is a function.
pub proof fn lemma_patrol_deterministic<F: Fn(&char, Direction) -> PatrolStep>(
    decide: F,
    rule: Rule,
    grid: Seq<Seq<char>>,
    start: Pose,
    first_outcome: PatrolOutcome,
    first_seen: Set<Pose>,
    second_outcome: PatrolOutcome,
    second_seen: Set<Pose>,
)
    requires
        obeys(decide, grid, rule),
        patrol_result(decide, grid, start, first_outcome, first_seen),
        patrol_result(decide, grid, start, second_outcome, second_seen),
    ensures
        first_outcome == second_outcome,
        first_seen == second_seen,
{
}

/// A patrol ends in a loop exactly if the guard under the rule takes some
/// pose twice while on the grid. So from a start from which no pose comes
/// twice, the patrol leaves the grid.
pub proof fn lemma_loop_iff_repeat<F: Fn(&char, Direction) -> PatrolStep>(
    decide: F,
    rule: Rule,
    grid: Seq<Seq<char>>,
    start: Pose,
    outcome: PatrolOutcome,
    seen: Set<Pose>,
)
    requires
        obeys(decide, grid, rule),
        patrol_result(decide, grid, start, outcome, seen),
    ensures
        outcome == PatrolOutcome::Loop <==> repeats(grid, rule, start),
        !repeats(grid, rule, start) ==> outcome == PatrolOutcome::LeftBounds,
{
    let trace = choose|trace: Seq<Pose>| patrol_ends(decide, grid, start, trace, outcome, seen);
    let last = (trace.len() - 1) as nat;
    match outcome {
        PatrolOutcome::LeftBounds => {
            if repeats(grid, rule, start) {
                let (earlier, later) = choose|earlier: nat, later: nat|
                    earlier < later && walking(grid, rule, start, later) && #[trigger] pose_at(
                        grid,
                        rule,
                        start,
                        earlier,
                    ) == #[trigger] pose_at(grid, rule, start, later);
                lemma_trace_pose(decide, rule, grid, trace, last);
                if later > last {
                    assert(!pose_at(grid, rule, start, last).leaving(grid));
                }
                lemma_trace_pose(decide, rule, grid, trace, earlier);
                lemma_trace_pose(decide, rule, grid, trace, later);
                assert(trace[earlier as int] == trace[later as int]);
            }
        },
        PatrolOutcome::Loop => {
            let recorded = trace.drop_last();
            let again = choose|j: int| 0 <= j < recorded.len() && recorded[j] == trace.last();
            assert(recorded[again] == trace[again]);
            lemma_trace_pose(decide, rule, grid, trace, again as nat);
            lemma_trace_pose(decide, rule, grid, trace, last);
            lemma_trace_walking(decide, rule, grid, trace, last);
            assert(pose_at(grid, rule, start, again as nat) == pose_at(grid, rule, start, last));
        },
    }
}

/// After `steps` decisions the guard is, for the first time, in a pose in
/// which it was before: it is on the grid still, the pose it has come to is
/// one of those before it, and those before it all differ.
pub open spec fn first_repeat(grid: Seq<Seq<char>>, rule: Rule, start: Pose, steps: nat) -> bool {
    &&& walking(grid, rule, start, steps)
    &&& exists|earlier: nat|
        earlier < steps && #[trigger] pose_at(grid, rule, start, earlier) == pose_at(grid, rule, start, steps)
    &&& forall|i: nat, j: nat|
        i < j < steps ==> #[trigger] pose_at(grid, rule, start, i) != #[trigger] pose_at(grid, rule, start, j)
}

/// A patrol that ends in a loop ends at the first repeat, not later: it has
/// on record the poses before the first repeat, each once, and no other.
pub proof fn lemma_loop_stops_at_first_repeat<F: Fn(&char, Direction) -> PatrolStep>(
    decide: F,
    rule: Rule,
    grid: Seq<Seq<char>>,
    start: Pose,
    seen: Set<Pose>,
)
    requires
        obeys(decide, grid, rule),
        patrol_result(decide, grid, start, PatrolOutcome::Loop, seen),
    ensures
        seen.finite(),
        first_repeat(grid, rule, start, seen.len()),
        forall|pose: Pose|
            seen.contains(pose) <==> exists|k: nat|
                k < seen.len() && #[trigger] pose_at(grid, rule, start, k) == pose,
{
    let trace = choose|trace: Seq<Pose>| patrol_ends(decide, grid, start, trace, PatrolOutcome::Loop, seen);
    let recorded = trace.drop_last();
    let last = recorded.len();
    seq_to_set_is_finite(recorded);
    recorded.unique_seq_to_set();
    lemma_trace_walking(decide, rule, grid, trace, last);
    let again = choose|j: int| 0 <= j < recorded.len() && recorded[j] == trace.last();
    assert(recorded[again] == trace[again]);
    lemma_trace_pose(decide, rule, grid, trace, again as nat);
    lemma_trace_pose(decide, rule, grid, trace, last);
    assert(pose_at(grid, rule, start, again as nat) == pose_at(grid, rule, start, last));
    assert forall|i: nat, j: nat| i < j < last implies #[trigger] pose_at(grid, rule, start, i)
        != #[trigger] pose_at(grid, rule, start, j) by {
        lemma_trace_pose(decide, rule, grid, trace, i);
        lemma_trace_pose(decide, rule, grid, trace, j);
        assert(recorded[i as int] == trace[i as int] && recorded[j as int] == trace[j as int]);
    }
    assert forall|pose: Pose|
        seen.contains(pose) <==> exists|k: nat|
            k < seen.len() && #[trigger] pose_at(grid, rule, start, k) == pose by {
        if seen.contains(pose) {
            let i = choose|i: int| 0 <= i < recorded.len() && recorded[i] == pose;
            assert(recorded[i] == trace[i]);
            lemma_trace_pose(decide, rule, grid, trace, i as nat);
            assert(pose_at(grid, rule, start, i as nat) == pose);
        }
        if exists|k: nat| k < seen.len() && #[trigger] pose_at(grid, rule, start, k) == pose {
            let k = choose|k: nat| k < seen.len() && #[trigger] pose_at(grid, rule, start, k) == pose;
            lemma_trace_pose(decide, rule, grid, trace, k);
            assert(recorded[k as int] == trace[k as int]);
        }
    }
}

proof fn lemma_trace_on_grid<F: Fn(&char, Direction) -> PatrolStep>(
    decide: F,
    grid: Seq<Seq<char>>,
    trace: Seq<Pose>,
    index: nat,
)
    requires
        is_walk(decide, grid, trace),
        index < trace.len(),
        trace[0].on(grid),
    ensures
        trace[index as int].on(grid),
    decreases index,
{
    if index > 0 {
        lemma_trace_on_grid(decide, grid, trace, (index - 1) as nat);
        assert(permits(decide, grid, trace[index - 1], trace[index - 1 + 1]));
    }
}

/// A patrol has at most four poses on record for each cell of the grid.
pub proof fn lemma_patrol_bounded<F: Fn(&char, Direction) -> PatrolStep>(
    decide: F,
    grid: Seq<Seq<char>>,
    width: nat,
    start: Pose,
    outcome: PatrolOutcome,
    seen: Set<Pose>,
)
    requires
        rectangular(grid, width),
        start.on(grid),
        patrol_result(decide, grid, start, outcome, seen),
    ensures
        seen.finite(),
        seen.len() <= 4 * (grid.len() * width),
{
    let trace = choose|trace: Seq<Pose>| patrol_ends(decide, grid, start, trace, outcome, seen);
    let recorded = if outcome == PatrolOutcome::Loop {
        trace.drop_last()
    } else {
        trace
    };
    assert forall|i: int| 0 <= i < recorded.len() implies (#[trigger] recorded[i]).on(grid) by {
        lemma_trace_on_grid(decide, grid, trace, i as nat);
        assert(recorded[i] == trace[i]);
    }
    seq_to_set_is_finite(recorded);
    recorded.unique_seq_to_set();
    lemma_distinct_poses_bounded(grid, width, recorded);
}

/// A patrol under way: `trail` holds the poses on record, in the order in
/// which the guard took them, and `pose` is where the guard stands now.
pub(crate) closed spec fn under_way<F: Fn(&char, Direction) -> PatrolStep>(
    decide: F,
    grid: Seq<Seq<char>>,
    start: Pose,
    trail: Seq<Pose>,
    pose: Pose,
) -> bool {
    &&& trail.no_duplicates()
    &&& forall|i: int| 0 <= i < trail.len() ==> (#[trigger] trail[i]).on(grid)
    &&& pose.on(grid)
    &&& is_walk(decide, grid, trail.push(pose))
    &&& trail.push(pose)[0] == start
}

/// A patrol is under way as soon as the guard stands on the grid.
pub(crate) proof fn lemma_patrol_starts<F: Fn(&char, Direction) -> PatrolStep>(
    decide: F,
    grid: Seq<Seq<char>>,
    start: Pose,
)
    requires
        start.on(grid),
    ensures
        under_way(decide, grid, start, Seq::empty(), start),
        Seq::<Pose>::empty().to_set() == Set::<Pose>::empty(),
{
    assert(Seq::<Pose>::empty().to_set() =~= Set::<Pose>::empty());
}

/// A guard that comes into a pose that is on record has walked a loop.
pub(crate) proof fn lemma_patrol_loops<F: Fn(&char, Direction) -> PatrolStep>(
    decide: F,
    grid: Seq<Seq<char>>,
    start: Pose,
    trail: Seq<Pose>,
    pose: Pose,
)
    requires
        under_way(decide, grid, start, trail, pose),
        trail.to_set().contains(pose),
    ensures
        patrol_result(decide, grid, start, PatrolOutcome::Loop, trail.to_set()),
{
    let trace = trail.push(pose);
    assert(trace.drop_last() =~= trail);
    assert(trail.contains(pose));
    lemma_patrol_result(decide, grid, start, trace, PatrolOutcome::Loop, trail.to_set());
}

/// A pose that is not on record can be put there: the poses on record still
/// all differ, and there are at most four of them for each cell.
pub(crate) proof fn lemma_patrol_records<F: Fn(&char, Direction) -> PatrolStep>(
    decide: F,
    grid: Seq<Seq<char>>,
    width: nat,
    start: Pose,
    trail: Seq<Pose>,
    pose: Pose,
)
    requires
        rectangular(grid, width),
        under_way(decide, grid, start, trail, pose),
        !trail.to_set().contains(pose),
    ensures
        trail.push(pose).to_set() == trail.to_set().insert(pose),
        trail.len() < 4 * (grid.len() * width),
{
    let longer = trail.push(pose);
    assert(!trail.contains(pose));
    trail.lemma_push_to_set_commute(pose);
    lemma_distinct_poses_bounded(grid, width, longer);
}

/// A guard that faces the edge of the grid in a pose that was not on record
/// has left the grid.
pub(crate) proof fn lemma_patrol_leaves<F: Fn(&char, Direction) -> PatrolStep>(
    decide: F,
    grid: Seq<Seq<char>>,
    start: Pose,
    trail: Seq<Pose>,
    pose: Pose,
)
    requires
        under_way(decide, grid, start, trail, pose),
        !trail.to_set().contains(pose),
        pose.leaving(grid),
    ensures
        patrol_result(decide, grid, start, PatrolOutcome::LeftBounds, trail.push(pose).to_set()),
{
    let trace = trail.push(pose);
    assert(!trail.contains(pose));
    lemma_patrol_result(decide, grid, start, trace, PatrolOutcome::LeftBounds, trace.to_set());
}

/// A guard that does what the decision function answered about the cell
/// ahead is under way still, with one pose more on record.
pub(crate) proof fn lemma_patrol_moves<F: Fn(&char, Direction) -> PatrolStep>(
    decide: F,
    grid: Seq<Seq<char>>,
    start: Pose,
    trail: Seq<Pose>,
    pose: Pose,
    answer: PatrolStep,
)
    requires
        under_way(decide, grid, start, trail, pose),
        !trail.to_set().contains(pose),
        !pose.leaving(grid),
        call_ensures(decide, (&pose.cell_ahead(grid), pose.facing), answer),
    ensures
        under_way(decide, grid, start, trail.push(pose), pose.after(answer)),
{
    let recorded = trail.push(pose);
    let to = pose.after(answer);
    let longer = recorded.push(to);
    assert(!trail.contains(pose));
    assert(permits(decide, grid, pose, to));
    assert forall|i: int| 0 <= i < longer.len() - 1 implies permits(
        decide,
        grid,
        #[trigger] longer[i],
        longer[i + 1],
    ) by {
        if i < recorded.len() - 1 {
            assert(permits(decide, grid, recorded[i], recorded[i + 1]));
        }
    }
}

} // verus!
