//! The constraints of the distribution programs.
use vstd::prelude::*;

use super::{contains_id, contains_time, grid_time, occupies, occupies_spec, overlap, overlap_spec, times_fit, FractivityRoom};
use super::model::{constraint_views, eval, eval_terms, holds, lemma_sat_split, satisfies, value, ConstraintV, ExprV, LinConstraint, LinExpr, LpProblem, Relation};
use super::variables::{grid, grid_fits, grid_len, max_parallel, pair_index, pairs_before, Entry, lemma_pairs_before_mono};

verus! {

/// Everything the constraints are made from: the entries, the number of
/// rooms, the instructors, the grid, and the variables.
pub struct Program {
    pub entries: Seq<Entry>,
    pub room_count: nat,
    pub instructors: Seq<u128>,
    pub first_start: i32,
    pub slots: nat,
    pub starts: Seq<Seq<Option<usize>>>,
    pub rooms: Seq<Seq<Option<usize>>>,
    pub io: Seq<usize>,
    pub ro: Seq<usize>,
    pub ao: Seq<usize>,
    pub b: Seq<Seq<usize>>,
    pub v: Seq<Seq<Option<usize>>>,
}

/// The expression `terms + constant`.
pub open spec fn expr(terms: Seq<(usize, i128)>, constant: int) -> ExprV {
    ExprV { terms, constant }
}

/// The constraint `lhs relation rhs`.
pub open spec fn cv(lhs: ExprV, relation: Relation, rhs: ExprV) -> ConstraintV {
    ConstraintV { lhs, relation, rhs }
}

/// The sum of the present variables of `row`, each with coefficient 1.
pub open spec fn ones(row: Seq<Option<usize>>) -> Seq<(usize, i128)>
    decreases row.len(),
{
    if row.len() == 0 {
        Seq::empty()
    } else {
        ones(row.drop_last()) + match row.last() {
            Some(x) => seq![(x, 1i128)],
            None => Seq::empty(),
        }
    }
}

/// Entry `a` starts at most once (exactly once when all must be placed).
pub open spec fn start_c(p: Program, a: int, allow: bool) -> ConstraintV {
    cv(
        expr(ones(p.starts[a]), 0),
        if allow {
            Relation::AtMost
        } else {
            Relation::Exactly
        },
        expr(Seq::empty(), 1),
    )
}

/// Entry `a` takes at most one room (exactly one when all must be placed).
pub open spec fn room_c(p: Program, a: int, allow: bool) -> ConstraintV {
    cv(
        expr(ones(p.rooms[a]), 0),
        if allow {
            Relation::AtMost
        } else {
            Relation::Exactly
        },
        expr(Seq::empty(), 1),
    )
}

/// `2 any >= room + instructor` for pair `idx`: any overlap of a pair is set
/// when both of its other overlaps are.
pub open spec fn any_c(p: Program, idx: int) -> ConstraintV {
    cv(
        expr(seq![(p.ao[idx], 2i128)], 0),
        Relation::AtLeast,
        expr(seq![(p.ro[idx], 1i128), (p.io[idx], 1i128)], 0),
    )
}

/// `room + 1 >= x + y`: two entries in the same room set the room overlap.
pub open spec fn room_pair_c(p: Program, idx: int, x: usize, y: usize) -> ConstraintV {
    cv(
        expr(seq![(p.ro[idx], 1i128)], 1),
        Relation::AtLeast,
        expr(seq![(x, 1i128), (y, 1i128)], 0),
    )
}

/// Person `i` is an instructor of entry `x`.
pub open spec fn is_instructor_of(p: Program, x: int, i: int) -> bool {
    p.entries[x].0.instructor_extension_uuids@.contains(p.instructors[i])
}

/// Person `i` takes part in entry `x` as far as the program counts it: as
/// one of its instructors always, as one of its visitors only when all
/// entries must be placed.
pub open spec fn counts_in(p: Program, x: int, i: int, allow: bool) -> bool {
    is_instructor_of(p, x, i) || (!allow && p.v[x][i] is Some)
}

/// What person `i` contributes for entry `x` to the right side of the
/// instructor constraint: the constant 1 as an instructor, its visitor
/// variable otherwise.
pub open spec fn side_terms(p: Program, x: int, i: int) -> Seq<(usize, i128)> {
    if is_instructor_of(p, x, i) {
        Seq::empty()
    } else {
        seq![(p.v[x][i]->0, 1i128)]
    }
}

/// The constant part of what person `i` contributes for entry `x`.
pub open spec fn side_constant(p: Program, x: int, i: int) -> int {
    if is_instructor_of(p, x, i) {
        1
    } else {
        0
    }
}

/// `instructor + 1 >= part_a + part_b`: a person who takes part in both
/// entries sets the instructor overlap of the pair; an instructor of both
/// sets it outright.
pub open spec fn instr_pair_c(p: Program, idx: int, a: int, b: int, i: int) -> ConstraintV {
    cv(
        expr(seq![(p.io[idx], 1i128)], 1),
        Relation::AtLeast,
        expr(side_terms(p, a, i) + side_terms(p, b, i), side_constant(p, a, i) + side_constant(p, b, i)),
    )
}

/// `x + y <= 2 - any`: overlapping starts of a pair rule out any overlap.
pub open spec fn start_pair_c(p: Program, idx: int, x: usize, y: usize) -> ConstraintV {
    cv(
        expr(seq![(x, 1i128), (y, 1i128)], 0),
        Relation::AtMost,
        expr(seq![(p.ao[idx], -1i128)], 2),
    )
}

/// The room constraints of pair `(a, b)` for the rooms before `r`.
pub open spec fn room_pairs(p: Program, a: int, b: int, idx: int, r: int) -> Seq<ConstraintV>
    decreases r,
{
    if r <= 0 {
        Seq::empty()
    } else {
        room_pairs(p, a, b, idx, r - 1) + if p.rooms[a][r - 1] is Some && p.rooms[b][r - 1] is Some {
            seq![room_pair_c(p, idx, p.rooms[a][r - 1]->0, p.rooms[b][r - 1]->0)]
        } else {
            Seq::empty()
        }
    }
}

/// Person `i` gets an instructor constraint for the pair `(a, b)`: the
/// program counts them in both entries.
pub open spec fn instr_cond(p: Program, a: int, b: int, i: int, allow: bool) -> bool {
    counts_in(p, a, i, allow) && counts_in(p, b, i, allow)
}

/// The instructor constraints of pair `(a, b)` for the instructors before `i`.
pub open spec fn instr_pairs(p: Program, a: int, b: int, idx: int, i: int, allow: bool) -> Seq<ConstraintV>
    decreases i,
{
    if i <= 0 {
        Seq::empty()
    } else {
        instr_pairs(p, a, b, idx, i - 1, allow) + if instr_cond(p, a, b, i - 1, allow) {
            seq![instr_pair_c(p, idx, a, b, i - 1)]
        } else {
            Seq::empty()
        }
    }
}

/// The start constraints of pair `(a, b)` for start `s1` of `a` and the
/// starts of `b` before `s2`.
pub open spec fn start_pairs_inner(p: Program, a: int, b: int, idx: int, s1: int, s2: int) -> Seq<ConstraintV>
    decreases s2,
{
    if s2 <= 0 {
        Seq::empty()
    } else {
        start_pairs_inner(p, a, b, idx, s1, s2 - 1) + if p.starts[b][s2 - 1] is Some && overlap_spec(
            p.entries[a].0,
            grid_time(p.first_start, s1),
            p.entries[b].0,
            grid_time(p.first_start, s2 - 1),
        ) {
            seq![start_pair_c(p, idx, p.starts[a][s1]->0, p.starts[b][s2 - 1]->0)]
        } else {
            Seq::empty()
        }
    }
}

/// The start constraints of pair `(a, b)` for the starts of `a` before `s1`.
pub open spec fn start_pairs(p: Program, a: int, b: int, idx: int, s1: int) -> Seq<ConstraintV>
    decreases s1,
{
    if s1 <= 0 {
        Seq::empty()
    } else {
        start_pairs(p, a, b, idx, s1 - 1) + if p.starts[a][s1 - 1] is Some {
            start_pairs_inner(p, a, b, idx, s1 - 1, p.slots as int)
        } else {
            Seq::empty()
        }
    }
}

/// All constraints of the pair `(a, b)`.
pub open spec fn pair_block(p: Program, a: int, b: int, allow: bool) -> Seq<ConstraintV> {
    let idx = pair_index(p.entries.len() as int, a, b);
    seq![any_c(p, idx)] + room_pairs(p, a, b, idx, p.room_count as int) + instr_pairs(
        p,
        a,
        b,
        idx,
        p.instructors.len() as int,
        allow,
    ) + start_pairs(p, a, b, idx, p.slots as int)
}

/// The constraints of the pairs `(a, b')` with `a < b' < b`.
pub open spec fn pair_blocks(p: Program, a: int, b: int, allow: bool) -> Seq<ConstraintV>
    decreases b - a,
{
    if b <= a + 1 {
        Seq::empty()
    } else {
        pair_blocks(p, a, b - 1, allow) + pair_block(p, a, b - 1, allow)
    }
}

/// The constraints of the entries before `k`: for each, its start and room
/// constraints and those of its pairs with later entries.
pub open spec fn entry_blocks(p: Program, k: int, allow: bool) -> Seq<ConstraintV>
    decreases k,
{
    if k <= 0 {
        Seq::empty()
    } else {
        entry_blocks(p, k - 1, allow) + seq![start_c(p, k - 1, allow), room_c(p, k - 1, allow)]
            + pair_blocks(p, k - 1, p.entries.len() as int, allow)
    }
}

/// The start variables of entry `a` (before grid position `s`) that keep it
/// busy at grid position `t`.
pub open spec fn busy_terms_of(p: Program, t: int, a: int, s: int) -> Seq<(usize, i128)>
    decreases s,
{
    if s <= 0 {
        Seq::empty()
    } else {
        let cur = grid_time(p.first_start, s - 1);
        busy_terms_of(p, t, a, s - 1) + if p.entries[a].0.allowed_starts@.contains(cur as i32)
            && occupies_spec(p.entries[a].0, cur, grid_time(p.first_start, t)) && p.starts[a][s
            - 1] is Some {
            seq![(p.starts[a][s - 1]->0, 1i128)]
        } else {
            Seq::empty()
        }
    }
}

/// The start variables of the entries before `a` that keep them busy at
/// grid position `t`.
pub open spec fn busy_terms(p: Program, t: int, a: int) -> Seq<(usize, i128)>
    decreases a,
{
    if a <= 0 {
        Seq::empty()
    } else {
        busy_terms(p, t, a - 1) + busy_terms_of(p, t, a - 1, p.slots as int)
    }
}

/// `busy <= mp b[t][k] + k` for `k` below `k_end`: more than `k` busy
/// entries at `t` set `b[t][k]`.
pub open spec fn parallel_row(p: Program, t: int, k_end: int, mp: int) -> Seq<ConstraintV>
    decreases k_end,
{
    if k_end <= 0 {
        Seq::empty()
    } else {
        parallel_row(p, t, k_end - 1, mp) + seq![
            cv(
                expr(busy_terms(p, t, p.entries.len() as int), 0),
                Relation::AtMost,
                expr(seq![(p.b[t][k_end - 1], mp as i128)], k_end - 1),
            ),
        ]
    }
}

/// The parallelism constraints of the grid positions before `t`.
pub open spec fn parallel_rows(p: Program, t: int) -> Seq<ConstraintV>
    decreases t,
{
    if t <= 0 {
        Seq::empty()
    } else {
        parallel_rows(p, t - 1) + parallel_row(
            p,
            t - 1,
            max_parallel(p.entries.len(), p.room_count) as int,
            max_parallel(p.entries.len(), p.room_count) as int,
        )
    }
}

/// All constraints that `add_constraints` adds.
pub open spec fn all_constraints(p: Program, allow: bool) -> Seq<ConstraintV> {
    entry_blocks(p, p.entries.len() as int, allow) + if allow {
        Seq::empty()
    } else {
        parallel_rows(p, p.slots as int)
    }
}

/// The tables of variables have the shapes the constraints read.
pub open spec fn program_wf(p: Program) -> bool {
    let n = p.entries.len();
    &&& p.starts.len() == n
    &&& p.rooms.len() == n
    &&& p.v.len() == n
    &&& forall|a: int|
        0 <= a < n ==> (#[trigger] p.starts[a]).len() == p.slots && p.rooms[a].len() == p.room_count
            && p.v[a].len() == p.instructors.len()
    &&& p.io.len() >= pairs_before(n as int, n as int)
    &&& p.ro.len() >= pairs_before(n as int, n as int)
    &&& p.ao.len() >= pairs_before(n as int, n as int)
    &&& p.b.len() == p.slots
    &&& forall|t: int| 0 <= t < p.slots ==> (#[trigger] p.b[t]).len() == max_parallel(n, p.room_count)
    &&& p.slots <= i32::MAX
    &&& forall|a: int, s: int|
        0 <= a < n && 0 <= s < p.slots ==> #[trigger] times_fit(
            p.entries[a].0,
            grid_time(p.first_start, s),
        )
}

/// The tables of variables are large enough for what the constraints
/// read: a start and a room row for each entry, reaching over the grid and
/// the rooms, the three overlap variables of each pair, and, when all
/// entries must be placed, a visitor row for each entry reaching over the
/// instructors and the parallelism variables of each grid position. The
/// grid times fit the machine's integers.
pub open spec fn program_fits(p: Program, allow: bool) -> bool {
    let n = p.entries.len();
    &&& p.starts.len() >= n
    &&& p.rooms.len() >= n
    &&& forall|a: int|
        0 <= a < n ==> (#[trigger] p.starts[a]).len() >= p.slots && p.rooms[a].len() >= p.room_count
    &&& p.io.len() >= pairs_before(n as int, n as int)
    &&& p.ro.len() >= pairs_before(n as int, n as int)
    &&& p.ao.len() >= pairs_before(n as int, n as int)
    &&& !allow ==> {
        &&& p.v.len() >= n
        &&& forall|a: int| 0 <= a < n ==> (#[trigger] p.v[a]).len() >= p.instructors.len()
        &&& p.b.len() >= p.slots
        &&& forall|t: int| 0 <= t < p.slots ==> (#[trigger] p.b[t]).len() >= max_parallel(n, p.room_count)
    }
    &&& p.slots <= i32::MAX
    &&& forall|a: int, s: int|
        0 <= a < n && 0 <= s < p.slots ==> #[trigger] times_fit(
            p.entries[a].0,
            grid_time(p.first_start, s),
        )
}

/// Tables of exactly the shapes the constraints read are large enough.
pub proof fn lemma_wf_fits(p: Program, allow: bool)
    requires
        program_wf(p),
    ensures
        program_fits(p, allow),
{
    if !allow {
        assert forall|a: int| 0 <= a < p.entries.len() implies (#[trigger] p.v[a]).len() >= p.instructors.len() by {
            assert(p.starts[a].len() == p.slots);
        }
    }
}

/// The sum of the present variables of `row`.
pub fn row_sum(row: &Vec<Option<usize>>) -> (res: LinExpr)
    ensures
        res@ == expr(ones(row@), 0),
{
    let mut terms: Vec<(usize, i128)> = Vec::new();
    let mut i: usize = 0;
    while i < row.len()
        invariant
            i <= row@.len(),
            terms@ == ones(row@.subrange(0, i as int)),
        decreases row@.len() - i,
    {
        assert(row@.subrange(0, i + 1).drop_last() =~= row@.subrange(0, i as int));
        match row[i] {
            Some(x) => {
                terms.push((x, 1));
            },
            None => {},
        }
        i = i + 1;
        assert(terms@ =~= ones(row@.subrange(0, i as int)));
    }
    assert(row@.subrange(0, i as int) =~= row@);
    LinExpr { terms, constant: 0 }
}

/// The program read from the arguments of `add_constraints`.
pub open spec fn program_of(
    entries: Seq<Entry>,
    all_rooms: Seq<FractivityRoom>,
    instructors: Seq<u128>,
    first_start: i32,
    num_starts: i32,
    starts: Seq<Vec<Option<usize>>>,
    rooms: Seq<Vec<Option<usize>>>,
    io: Seq<usize>,
    ro: Seq<usize>,
    ao: Seq<usize>,
    b: Seq<Vec<usize>>,
    v: Seq<Vec<Option<usize>>>,
) -> Program {
    Program {
        entries,
        room_count: all_rooms.len(),
        instructors,
        first_start,
        slots: grid_len(num_starts),
        starts: grid(starts),
        rooms: grid(rooms),
        io,
        ro,
        ao,
        b: b.map_values(|r: Vec<usize>| r@),
        v: grid(v),
    }
}

/// The terms `x` with coefficient `cx`.
pub(crate) fn term1(x: usize, cx: i128) -> (res: Vec<(usize, i128)>)
    ensures
        res@ == seq![(x, cx)],
{
    let mut t: Vec<(usize, i128)> = Vec::new();
    t.push((x, cx));
    assert(t@ =~= seq![(x, cx)]);
    t
}

/// The terms `x` with coefficient `cx` and `y` with coefficient `cy`.
pub(crate) fn term2(x: usize, cx: i128, y: usize, cy: i128) -> (res: Vec<(usize, i128)>)
    ensures
        res@ == seq![(x, cx), (y, cy)],
{
    let mut t: Vec<(usize, i128)> = Vec::new();
    t.push((x, cx));
    t.push((y, cy));
    assert(t@ =~= seq![(x, cx), (y, cy)]);
    t
}

/// Appends a constraint to the program.
pub(crate) fn push_constraint(problem: &mut LpProblem, c: LinConstraint)
    ensures
        constraint_views(final(problem).constraints@) == constraint_views(old(problem).constraints@).push(c@),
        final(problem).vars == old(problem).vars,
        final(problem).objective == old(problem).objective,
        final(problem).mip_gap == old(problem).mip_gap,
        final(problem).time_limit == old(problem).time_limit,
        final(problem).keep_previous == old(problem).keep_previous,
{
    let ghost c_view = c@;
    problem.constraints.push(c);
    assert(constraint_views(problem.constraints@) =~= constraint_views(old(problem).constraints@).push(c_view));
}

/// The other fields of the program are unchanged.
pub open spec fn same_frame_lp(a: LpProblem, b: LpProblem) -> bool {
    &&& a.vars == b.vars
    &&& a.objective == b.objective
    &&& a.mip_gap == b.mip_gap
    &&& a.time_limit == b.time_limit
    &&& a.keep_previous == b.keep_previous
}

/// Adds the constraints of the pair `(a, b)` with number `index`.
fn add_pair_constraints(
    fractivity_entries: &Vec<Entry>,
    all_rooms: &Vec<FractivityRoom>,
    all_instructors: &Vec<u128>,
    first_start: i32,
    num_starts: i32,
    problem: &mut LpProblem,
    starts: &Vec<Vec<Option<usize>>>,
    rooms: &Vec<Vec<Option<usize>>>,
    instructor_overlap: &Vec<usize>,
    room_overlap: &Vec<usize>,
    any_overlap: &Vec<usize>,
    b_vars: &Vec<Vec<usize>>,
    v: &Vec<Vec<Option<usize>>>,
    allow_undistributed: bool,
    a: usize,
    b: usize,
    index: usize,
)
    requires
        program_fits(
            program_of(fractivity_entries@, all_rooms@, all_instructors@, first_start, num_starts, starts@, rooms@, instructor_overlap@, room_overlap@, any_overlap@, b_vars@, v@),
            allow_undistributed,
        ),
        grid_fits(first_start, num_starts),
        a < b < fractivity_entries@.len(),
        index == pair_index(fractivity_entries@.len() as int, a as int, b as int),
        index < pairs_before(fractivity_entries@.len() as int, fractivity_entries@.len() as int),
    ensures
        same_frame_lp(*final(problem), *old(problem)),
        constraint_views(final(problem).constraints@) == constraint_views(old(problem).constraints@) + pair_block(
            program_of(fractivity_entries@, all_rooms@, all_instructors@, first_start, num_starts, starts@, rooms@, instructor_overlap@, room_overlap@, any_overlap@, b_vars@, v@),
            a as int,
            b as int,
            allow_undistributed,
        ),
{
    let ghost p = program_of(fractivity_entries@, all_rooms@, all_instructors@, first_start, num_starts, starts@, rooms@, instructor_overlap@, room_overlap@, any_overlap@, b_vars@, v@);
    let ghost base = constraint_views(problem.constraints@);
    let ghost idx = index as int;
    let ghost n = fractivity_entries@.len();
    proof {
        assert(starts@.len() >= n && rooms@.len() >= n);
        assert(p.starts[a as int] == starts@[a as int]@);
        assert(p.starts[b as int] == starts@[b as int]@);
        assert(p.rooms[a as int] == rooms@[a as int]@);
        assert(p.rooms[b as int] == rooms@[b as int]@);
        if !allow_undistributed {
            assert(p.v[a as int] == v@[a as int]@);
            assert(p.v[b as int] == v@[b as int]@);
        }
    }
    push_constraint(
        problem,
        LinConstraint {
            lhs: LinExpr { terms: term1(any_overlap[index], 2), constant: 0 },
            relation: Relation::AtLeast,
            rhs: LinExpr { terms: term2(room_overlap[index], 1, instructor_overlap[index], 1), constant: 0 },
        },
    );
    let nr = all_rooms.len();
    let mut r: usize = 0;
    assert(constraint_views(problem.constraints@) == base + seq![any_c(p, idx)] + room_pairs(p, a as int, b as int, idx, 0));
    while r < nr
        invariant
            r <= nr,
            nr == p.room_count,
            program_fits(p, allow_undistributed),
            a < b < n,
            n == p.entries.len(),
            p.rooms[a as int] == rooms@[a as int]@,
            p.rooms[b as int] == rooms@[b as int]@,
            same_frame_lp(*problem, *old(problem)),
            rooms@.len() >= n,
            constraint_views(problem.constraints@) == base + seq![any_c(p, idx)] + room_pairs(p, a as int, b as int, idx, r as int),
            index < room_overlap@.len(),
            room_overlap@ == p.ro,
            idx == index as int,
        decreases nr - r,
    {
        assert(p.rooms[a as int].len() >= nr && p.rooms[b as int].len() >= nr) by {
            assert(p.starts[a as int].len() >= p.slots);
            assert(p.starts[b as int].len() >= p.slots);
        }
        let ghost prev = constraint_views(problem.constraints@);
        let ghost step = if p.rooms[a as int][r as int] is Some && p.rooms[b as int][r as int] is Some {
            seq![room_pair_c(p, idx, p.rooms[a as int][r as int]->0, p.rooms[b as int][r as int]->0)]
        } else {
            Seq::<ConstraintV>::empty()
        };
        assert(room_pairs(p, a as int, b as int, idx, r + 1) == room_pairs(p, a as int, b as int, idx, r as int) + step);
        assert(rooms@[a as int]@[r as int] == p.rooms[a as int][r as int]);
        assert(rooms@[b as int]@[r as int] == p.rooms[b as int][r as int]);
        match (rooms[a][r], rooms[b][r]) {
            (Some(x), Some(y)) => {
                let c = LinConstraint {
                    lhs: LinExpr { terms: term1(room_overlap[index], 1), constant: 1 },
                    relation: Relation::AtLeast,
                    rhs: LinExpr { terms: term2(x, 1, y, 1), constant: 0 },
                };
                assert(c.lhs.terms@ == seq![(p.ro[idx], 1i128)]);
                assert(c.lhs.constant == 1);
                assert(c.rhs.terms@ == seq![(x, 1i128), (y, 1i128)]);
                assert(c.rhs.constant == 0);
                assert(c.relation == Relation::AtLeast);
                assert(c@.lhs =~= room_pair_c(p, idx, x, y).lhs);
                assert(c@.rhs =~= room_pair_c(p, idx, x, y).rhs);
                assert(c@ =~= room_pair_c(p, idx, x, y));
                push_constraint(problem, c);
                assert(constraint_views(problem.constraints@) == prev + step);
            },
            _ => {
                assert(step =~= Seq::<ConstraintV>::empty());
                assert(prev + step =~= prev);
            },
        }
        r = r + 1;
        assert(constraint_views(problem.constraints@) =~= base + seq![any_c(p, idx)] + room_pairs(p, a as int, b as int, idx, r as int));
    }
    let ghost base2 = base + seq![any_c(p, idx)] + room_pairs(p, a as int, b as int, idx, nr as int);
    let ni = all_instructors.len();
    let mut i: usize = 0;
    assert(constraint_views(problem.constraints@) =~= base2 + instr_pairs(p, a as int, b as int, idx, 0, allow_undistributed));
    while i < ni
        invariant
            i <= ni,
            ni == p.instructors.len(),
            program_fits(p, allow_undistributed),
            a < b < n,
            n == p.entries.len(),
            p.entries == fractivity_entries@,
            p.instructors == all_instructors@,
            !allow_undistributed ==> p.v[a as int] == v@[a as int]@ && p.v[b as int] == v@[b as int]@,
            !allow_undistributed ==> v@.len() >= n,
            same_frame_lp(*problem, *old(problem)),
            constraint_views(problem.constraints@) == base2 + instr_pairs(p, a as int, b as int, idx, i as int, allow_undistributed),
            index < instructor_overlap@.len(),
            instructor_overlap@ == p.io,
            idx == index as int,
        decreases ni - i,
    {
        let id = all_instructors[i];
        let in_a = contains_id(&fractivity_entries[a].0.instructor_extension_uuids, id);
        let in_b = contains_id(&fractivity_entries[b].0.instructor_extension_uuids, id);
        let ghost prev = constraint_views(problem.constraints@);
        let ghost step = if instr_cond(p, a as int, b as int, i as int, allow_undistributed) {
            seq![instr_pair_c(p, idx, a as int, b as int, i as int)]
        } else {
            Seq::<ConstraintV>::empty()
        };
        assert(instr_pairs(p, a as int, b as int, idx, i + 1, allow_undistributed) == instr_pairs(p, a as int, b as int, idx, i as int, allow_undistributed) + step);
        assert(id == p.instructors[i as int]);
        assert(in_a == is_instructor_of(p, a as int, i as int));
        assert(in_b == is_instructor_of(p, b as int, i as int));
        // the right side: a constant 1 for an instructor, the visitor
        // variable for a visitor when all must be placed
        let mut terms: Vec<(usize, i128)> = Vec::new();
        let mut constant: i128 = 0;
        let mut counts_a = false;
        if in_a {
            constant = 1;
            counts_a = true;
        } else if !allow_undistributed {
            assert(v@[a as int]@[i as int] == p.v[a as int][i as int]);
            match v[a][i] {
                Some(x) => {
                    terms.push((x, 1));
                    counts_a = true;
                },
                None => {},
            }
        }
        assert(counts_a == counts_in(p, a as int, i as int, allow_undistributed));
        assert(counts_a ==> terms@ =~= side_terms(p, a as int, i as int) && constant == side_constant(p, a as int, i as int));
        let ghost terms_a = terms@;
        let ghost constant_a = constant;
        let mut counts_b = false;
        if in_b {
            constant = constant + 1;
            counts_b = true;
        } else if !allow_undistributed {
            assert(v@[b as int]@[i as int] == p.v[b as int][i as int]);
            match v[b][i] {
                Some(y) => {
                    terms.push((y, 1));
                    counts_b = true;
                },
                None => {},
            }
        }
        assert(counts_b == counts_in(p, b as int, i as int, allow_undistributed));
        let mut added = false;
        if counts_a && counts_b {
            assert(terms@ =~= side_terms(p, a as int, i as int) + side_terms(p, b as int, i as int));
            assert(constant == side_constant(p, a as int, i as int) + side_constant(p, b as int, i as int));
            let c = LinConstraint {
                lhs: LinExpr { terms: term1(instructor_overlap[index], 1), constant: 1 },
                relation: Relation::AtLeast,
                rhs: LinExpr { terms, constant },
            };
            assert(c.lhs.terms@ == seq![(p.io[idx], 1i128)]);
            assert(c@.lhs =~= instr_pair_c(p, idx, a as int, b as int, i as int).lhs);
            assert(c@.rhs =~= instr_pair_c(p, idx, a as int, b as int, i as int).rhs);
            assert(c@ =~= instr_pair_c(p, idx, a as int, b as int, i as int));
            push_constraint(problem, c);
            added = true;
            assert(constraint_views(problem.constraints@) == prev + step);
        }
        if !added {
            assert(step =~= Seq::<ConstraintV>::empty());
            assert(prev + step =~= prev);
        }
        i = i + 1;
        assert(constraint_views(problem.constraints@) =~= base2 + instr_pairs(p, a as int, b as int, idx, i as int, allow_undistributed));
    }
    let ghost base3 = base2 + instr_pairs(p, a as int, b as int, idx, ni as int, allow_undistributed);
    let mut s1: i32 = 0;
    assert(constraint_views(problem.constraints@) =~= base3 + start_pairs(p, a as int, b as int, idx, 0));
    while s1 < num_starts
        invariant
            0 <= s1,
            num_starts <= 0 ==> s1 == 0,
            s1 <= num_starts || num_starts <= 0,
            p.slots == grid_len(num_starts),
            p.first_start == first_start,
            grid_fits(first_start, num_starts),
            program_fits(p, allow_undistributed),
            a < b < n,
            n == p.entries.len(),
            p.entries == fractivity_entries@,
            p.starts[a as int] == starts@[a as int]@,
            p.starts[b as int] == starts@[b as int]@,
            same_frame_lp(*problem, *old(problem)),
            starts@.len() >= n,
            constraint_views(problem.constraints@) == base3 + start_pairs(p, a as int, b as int, idx, s1 as int),
            index < any_overlap@.len(),
            any_overlap@ == p.ao,
            idx == index as int,
        decreases num_starts - s1,
    {
        let cur_start1 = first_start + 15 * s1;
        assert(p.starts[a as int].len() >= p.slots && p.starts[b as int].len() >= p.slots);
        let ghost before = constraint_views(problem.constraints@);
        match starts[a][s1 as usize] {
            None => {},
            Some(x) => {
                let mut s2: i32 = 0;
                assert(times_fit(p.entries[a as int].0, grid_time(first_start, s1 as int)));
                assert(before =~= before + start_pairs_inner(p, a as int, b as int, idx, s1 as int, 0));
                while s2 < num_starts
                    invariant
                        0 <= s2,
                        0 <= s1 < num_starts,
                        s2 <= num_starts,
                        p.slots == grid_len(num_starts),
                        p.first_start == first_start,
                        grid_fits(first_start, num_starts),
                        cur_start1 == grid_time(first_start, s1 as int),
                        program_fits(p, allow_undistributed),
                        a < b < n,
                        n == p.entries.len(),
                        p.entries == fractivity_entries@,
                        p.starts[a as int] == starts@[a as int]@,
                        p.starts[b as int] == starts@[b as int]@,
                        p.starts[a as int][s1 as int] == Some(x),
                        same_frame_lp(*problem, *old(problem)),
                        starts@.len() >= n,
                        constraint_views(problem.constraints@) == before + start_pairs_inner(p, a as int, b as int, idx, s1 as int, s2 as int),
                        index < any_overlap@.len(),
                        any_overlap@ == p.ao,
                        idx == index as int,
                    decreases num_starts - s2,
                {
                    let cur_start2 = first_start + 15 * s2;
                    assert(times_fit(p.entries[b as int].0, grid_time(first_start, s2 as int)));
                    assert(times_fit(p.entries[a as int].0, grid_time(first_start, s1 as int)));
                    let ghost prev = constraint_views(problem.constraints@);
                    let ghost step = if p.starts[b as int][s2 as int] is Some && overlap_spec(
                        p.entries[a as int].0,
                        grid_time(p.first_start, s1 as int),
                        p.entries[b as int].0,
                        grid_time(p.first_start, s2 as int),
                    ) {
                        seq![start_pair_c(p, idx, p.starts[a as int][s1 as int]->0, p.starts[b as int][s2 as int]->0)]
                    } else {
                        Seq::<ConstraintV>::empty()
                    };
                    assert(start_pairs_inner(p, a as int, b as int, idx, s1 as int, s2 + 1) == start_pairs_inner(p, a as int, b as int, idx, s1 as int, s2 as int) + step);
                    assert(starts@[b as int]@[s2 as int] == p.starts[b as int][s2 as int]);
                    let mut added = false;
                    match starts[b][s2 as usize] {
                        None => {},
                        Some(y) => {
                            if overlap(&fractivity_entries[a].0, cur_start1, &fractivity_entries[b].0, cur_start2) {
                                let mut rhs_terms: Vec<(usize, i128)> = Vec::new();
                                rhs_terms.push((any_overlap[index], -1));
                                assert(rhs_terms@ =~= seq![(any_overlap@[index as int], -1i128)]);
                                let c = LinConstraint {
                                    lhs: LinExpr { terms: term2(x, 1, y, 1), constant: 0 },
                                    relation: Relation::AtMost,
                                    rhs: LinExpr { terms: rhs_terms, constant: 2 },
                                };
                                assert(c.lhs.terms@ == seq![(x, 1i128), (y, 1i128)]);
                                assert(c.rhs.terms@ == seq![(p.ao[idx], -1i128)]);
                                assert(c@.lhs =~= start_pair_c(p, idx, x, y).lhs);
                                assert(c@.rhs =~= start_pair_c(p, idx, x, y).rhs);
                                assert(c@ =~= start_pair_c(p, idx, x, y));
                                push_constraint(problem, c);
                                added = true;
                                assert(constraint_views(problem.constraints@) == prev + step);
                            }
                        },
                    }
                    if !added {
                        assert(step =~= Seq::<ConstraintV>::empty());
                        assert(prev + step =~= prev);
                    }
                    s2 = s2 + 1;
                    assert(constraint_views(problem.constraints@) =~= before + start_pairs_inner(p, a as int, b as int, idx, s1 as int, s2 as int));
                }
            },
        }
        s1 = s1 + 1;
        assert(constraint_views(problem.constraints@) =~= base3 + start_pairs(p, a as int, b as int, idx, s1 as int));
    }
    assert(constraint_views(problem.constraints@) =~= base + pair_block(p, a as int, b as int, allow_undistributed));
}


/// A copy of an expression.
pub(crate) fn copy_expr(e: &LinExpr) -> (res: LinExpr)
    ensures
        res@ == e@,
{
    let mut terms: Vec<(usize, i128)> = Vec::new();
    let mut i: usize = 0;
    while i < e.terms.len()
        invariant
            i <= e.terms@.len(),
            terms@ == e.terms@.subrange(0, i as int),
        decreases e.terms@.len() - i,
    {
        terms.push(e.terms[i]);
        i = i + 1;
        assert(terms@ =~= e.terms@.subrange(0, i as int));
    }
    assert(e.terms@.subrange(0, i as int) =~= e.terms@);
    LinExpr { terms, constant: e.constant }
}

/// The sum of the start variables that keep their entries busy at grid
/// position `t`.
fn busy_sum(
    fractivity_entries: &Vec<Entry>,
    starts: &Vec<Vec<Option<usize>>>,
    first_start: i32,
    num_starts: i32,
    t: i32,
    Ghost(p): Ghost<Program>,
) -> (res: LinExpr)
    requires
        program_fits(p, false),
        p.entries == fractivity_entries@,
        p.starts == grid(starts@),
        p.first_start == first_start,
        p.slots == grid_len(num_starts),
        grid_fits(first_start, num_starts),
        0 <= t < num_starts,
    ensures
        res@ == expr(busy_terms(p, t as int, fractivity_entries@.len() as int), 0),
{
    let n = fractivity_entries.len();
    let cur_time = first_start + 15 * t;
    let mut terms: Vec<(usize, i128)> = Vec::new();
    let mut a: usize = 0;
    while a < n
        invariant
            a <= n,
            n == p.entries.len(),
            program_fits(p, false),
            p.entries == fractivity_entries@,
            p.starts == grid(starts@),
            p.first_start == first_start,
            p.slots == grid_len(num_starts),
            grid_fits(first_start, num_starts),
            0 <= t < num_starts,
            cur_time == grid_time(first_start, t as int),
            terms@ == busy_terms(p, t as int, a as int),
        decreases n - a,
    {
        assert(starts@.len() >= n);
        assert(p.starts[a as int] == starts@[a as int]@);
        assert(p.starts[a as int].len() >= p.slots);
        let ghost before = terms@;
        let mut s: i32 = 0;
        while s < num_starts
            invariant
                0 <= s <= num_starts,
                a < n,
                n == p.entries.len(),
                program_fits(p, false),
                p.entries == fractivity_entries@,
                p.starts[a as int] == starts@[a as int]@,
                p.starts[a as int].len() >= p.slots,
                starts@.len() >= n,
                p.first_start == first_start,
                p.slots == grid_len(num_starts),
                grid_fits(first_start, num_starts),
                0 <= t < num_starts,
                cur_time == grid_time(first_start, t as int),
                terms@ == before + busy_terms_of(p, t as int, a as int, s as int),
            decreases num_starts - s,
        {
            let cur_start = first_start + 15 * s;
            assert(times_fit(p.entries[a as int].0, grid_time(first_start, s as int)));
            assert(starts@[a as int]@[s as int] == p.starts[a as int][s as int]);
            let ghost prev = terms@;
            let ghost step = if p.entries[a as int].0.allowed_starts@.contains(cur_start)
                && occupies_spec(p.entries[a as int].0, cur_start as int, grid_time(first_start, t as int))
                && p.starts[a as int][s as int] is Some {
                seq![(p.starts[a as int][s as int]->0, 1i128)]
            } else {
                Seq::<(usize, i128)>::empty()
            };
            assert(busy_terms_of(p, t as int, a as int, s + 1) == busy_terms_of(p, t as int, a as int, s as int) + step);
            let mut added = false;
            if contains_time(&fractivity_entries[a].0.allowed_starts, cur_start) {
                if occupies(&fractivity_entries[a].0, cur_start, cur_time) {
                    match starts[a][s as usize] {
                        Some(x) => {
                            terms.push((x, 1));
                            added = true;
                            assert(terms@ =~= prev + step);
                        },
                        None => {},
                    }
                }
            }
            if !added {
                assert(prev + step =~= prev);
            }
            s = s + 1;
            assert(terms@ =~= before + busy_terms_of(p, t as int, a as int, s as int));
        }
        a = a + 1;
        assert(terms@ =~= busy_terms(p, t as int, a as int));
    }
    LinExpr { terms, constant: 0 }
}

/// Adds the constraints of the distribution programs to `problem`.
///
/// For each entry: it starts at most once and takes at most one room
/// (exactly once and exactly one when `allow_undistributed` is false). For
/// each pair of entries `a < b`, numbered in order: any overlap is set when
/// the room or the instructor overlap is; both in one room set the room
/// overlap; a person who takes part in both sets the instructor overlap (an
/// instructor of an entry always takes part in it, a visitor only when all
/// must be placed); and two starts at which the entries overlap rule out
/// any overlap. When all must be placed, for each grid
/// position `t` and each `k` below the largest parallelism, the entries busy
/// at `t` number at most `max_parallel b[t][k] + k`.
pub fn add_constraints(
    fractivity_entries: &Vec<Entry>,
    all_rooms: &Vec<FractivityRoom>,
    all_instructors: &Vec<u128>,
    first_start: i32,
    num_starts: i32,
    problem: &mut LpProblem,
    starts: &Vec<Vec<Option<usize>>>,
    rooms: &Vec<Vec<Option<usize>>>,
    instructor_overlap: &Vec<usize>,
    room_overlap: &Vec<usize>,
    any_overlap: &Vec<usize>,
    b: &Vec<Vec<usize>>,
    v: &Vec<Vec<Option<usize>>>,
    allow_undistributed: bool,
)
    requires
        program_fits(
            program_of(fractivity_entries@, all_rooms@, all_instructors@, first_start, num_starts, starts@, rooms@, instructor_overlap@, room_overlap@, any_overlap@, b@, v@),
            allow_undistributed,
        ),
        grid_fits(first_start, num_starts),
        max_parallel(fractivity_entries@.len(), all_rooms@.len()) <= i128::MAX,
    ensures
        same_frame_lp(*final(problem), *old(problem)),
        constraint_views(final(problem).constraints@) == constraint_views(old(problem).constraints@) + all_constraints(
            program_of(fractivity_entries@, all_rooms@, all_instructors@, first_start, num_starts, starts@, rooms@, instructor_overlap@, room_overlap@, any_overlap@, b@, v@),
            allow_undistributed,
        ),
{
    let ghost p = program_of(fractivity_entries@, all_rooms@, all_instructors@, first_start, num_starts, starts@, rooms@, instructor_overlap@, room_overlap@, any_overlap@, b@, v@);
    let ghost base = constraint_views(problem.constraints@);
    let n = fractivity_entries.len();
    let pair_count = any_overlap.len();
    let mut index: usize = 0;
    let mut a: usize = 0;
    assert(constraint_views(problem.constraints@) =~= base + entry_blocks(p, 0, allow_undistributed));
    while a < n
        invariant
            a <= n,
            n == fractivity_entries@.len(),
            p == program_of(fractivity_entries@, all_rooms@, all_instructors@, first_start, num_starts, starts@, rooms@, instructor_overlap@, room_overlap@, any_overlap@, b@, v@),
            program_fits(p, allow_undistributed),
            grid_fits(first_start, num_starts),
            index == pairs_before(n as int, a as int),
            pair_count == any_overlap@.len(),
            same_frame_lp(*problem, *old(problem)),
            constraint_views(problem.constraints@) == base + entry_blocks(p, a as int, allow_undistributed),
        decreases n - a,
    {
        proof {
            lemma_pairs_before_mono(n as int, a + 1, n as int);
        }
        assert(p.starts[a as int] == starts@[a as int]@);
        assert(p.rooms[a as int] == rooms@[a as int]@);
        let relation = if allow_undistributed {
            Relation::AtMost
        } else {
            Relation::Exactly
        };
        let start_constr = row_sum(&starts[a]);
        let c1 = LinConstraint { lhs: start_constr, relation, rhs: LinExpr { terms: Vec::new(), constant: 1 } };
        assert(c1@ =~= start_c(p, a as int, allow_undistributed));
        push_constraint(problem, c1);
        let room_constr = row_sum(&rooms[a]);
        let c2 = LinConstraint { lhs: room_constr, relation, rhs: LinExpr { terms: Vec::new(), constant: 1 } };
        assert(c2@ =~= room_c(p, a as int, allow_undistributed));
        push_constraint(problem, c2);
        let ghost head = base + entry_blocks(p, a as int, allow_undistributed) + seq![start_c(p, a as int, allow_undistributed), room_c(p, a as int, allow_undistributed)];
        assert(constraint_views(problem.constraints@) =~= head + pair_blocks(p, a as int, a + 1, allow_undistributed));
        let mut bb: usize = a + 1;
        while bb < n
            invariant
                a < bb <= n,
                n == fractivity_entries@.len(),
                p == program_of(fractivity_entries@, all_rooms@, all_instructors@, first_start, num_starts, starts@, rooms@, instructor_overlap@, room_overlap@, any_overlap@, b@, v@),
                program_fits(p, allow_undistributed),
                grid_fits(first_start, num_starts),
                index == pair_index(n as int, a as int, bb as int),
                pair_count == any_overlap@.len(),
                pairs_before(n as int, a + 1) <= pairs_before(n as int, n as int),
                pairs_before(n as int, a + 1) == pairs_before(n as int, a as int) + (n - a - 1),
                same_frame_lp(*problem, *old(problem)),
                constraint_views(problem.constraints@) == head + pair_blocks(p, a as int, bb as int, allow_undistributed),
            decreases n - bb,
        {
            add_pair_constraints(
                fractivity_entries,
                all_rooms,
                all_instructors,
                first_start,
                num_starts,
                problem,
                starts,
                rooms,
                instructor_overlap,
                room_overlap,
                any_overlap,
                b,
                v,
                allow_undistributed,
                a,
                bb,
                index,
            );
            assert(index < pair_count) by {
                assert(p.ao == any_overlap@);
            }
            index = index + 1;
            bb = bb + 1;
            assert(constraint_views(problem.constraints@) =~= head + pair_blocks(p, a as int, bb as int, allow_undistributed));
        }
        a = a + 1;
        assert(constraint_views(problem.constraints@) =~= base + entry_blocks(p, a as int, allow_undistributed));
    }
    let ghost mid = base + entry_blocks(p, n as int, allow_undistributed);
    if !allow_undistributed {
        let nr = all_rooms.len();
        let mp = if n < nr {
            n
        } else {
            nr
        };
        let mut t: i32 = 0;
        assert(constraint_views(problem.constraints@) =~= mid + parallel_rows(p, 0));
        while t < num_starts
            invariant
                0 <= t,
                t <= num_starts || num_starts <= 0,
                num_starts <= 0 ==> t == 0,
                n == fractivity_entries@.len(),
                mp == max_parallel(n as nat, nr as nat),
                mp <= i128::MAX,
                nr == all_rooms@.len(),
                p == program_of(fractivity_entries@, all_rooms@, all_instructors@, first_start, num_starts, starts@, rooms@, instructor_overlap@, room_overlap@, any_overlap@, b@, v@),
                program_fits(p, false),
                grid_fits(first_start, num_starts),
                same_frame_lp(*problem, *old(problem)),
                constraint_views(problem.constraints@) == mid + parallel_rows(p, t as int),
            decreases num_starts - t,
        {
            let constr = busy_sum(fractivity_entries, starts, first_start, num_starts, t, Ghost(p));
            assert(b@[t as int]@ == p.b[t as int]);
            assert(p.b[t as int].len() >= mp);
            let ghost row_base = constraint_views(problem.constraints@);
            let mut k: usize = 0;
            while k < mp
                invariant
                    k <= mp,
                    0 <= t < num_starts,
                    b@.len() >= p.slots,
                    p.slots == grid_len(num_starts),
                    b@[t as int]@ == p.b[t as int],
                    p.b[t as int].len() >= mp,
                    mp <= i128::MAX,
                    mp == max_parallel(p.entries.len(), p.room_count),
                    constr@ == expr(busy_terms(p, t as int, p.entries.len() as int), 0),
                    same_frame_lp(*problem, *old(problem)),
                    constraint_views(problem.constraints@) == row_base + parallel_row(p, t as int, k as int, mp as int),
                decreases mp - k,
            {
                let lhs = copy_expr(&constr);
                let c = LinConstraint {
                    lhs,
                    relation: Relation::AtMost,
                    rhs: LinExpr { terms: term1(b[t as usize][k], mp as i128), constant: k as i128 },
                };
                assert(c@ =~= cv(
                    expr(busy_terms(p, t as int, p.entries.len() as int), 0),
                    Relation::AtMost,
                    expr(seq![(p.b[t as int][k as int], mp as i128)], k as int),
                ));
                push_constraint(problem, c);
                k = k + 1;
                assert(constraint_views(problem.constraints@) =~= row_base + parallel_row(p, t as int, k as int, mp as int));
            }
            t = t + 1;
            assert(constraint_views(problem.constraints@) =~= mid + parallel_rows(p, t as int));
        }
    }
    assert(constraint_views(problem.constraints@) =~= base + all_constraints(p, allow_undistributed));
}

/// A solution of the constraints of the entries before `k` meets those of
/// the pairs of each of them.
proof fn lemma_entry_blocks_sat(p: Program, k: int, a: int, allow: bool, vals: Seq<bool>)
    requires
        0 <= a < k,
        satisfies(entry_blocks(p, k, allow), vals),
    ensures
        satisfies(pair_blocks(p, a, p.entries.len() as int, allow), vals),
    decreases k,
{
    let head = entry_blocks(p, k - 1, allow) + seq![start_c(p, k - 1, allow), room_c(p, k - 1, allow)];
    assert(entry_blocks(p, k, allow) == head + pair_blocks(p, k - 1, p.entries.len() as int, allow));
    lemma_sat_split(head, pair_blocks(p, k - 1, p.entries.len() as int, allow), vals);
    if a < k - 1 {
        lemma_sat_split(entry_blocks(p, k - 1, allow), seq![start_c(p, k - 1, allow), room_c(p, k - 1, allow)], vals);
        lemma_entry_blocks_sat(p, k - 1, a, allow, vals);
    }
}

/// A solution of the constraints of the pairs `(a, b')`, `b' < m`, meets
/// those of each of them.
proof fn lemma_pair_blocks_sat(p: Program, a: int, m: int, b: int, allow: bool, vals: Seq<bool>)
    requires
        a < b < m,
        satisfies(pair_blocks(p, a, m, allow), vals),
    ensures
        satisfies(pair_block(p, a, b, allow), vals),
    decreases m - a,
{
    assert(pair_blocks(p, a, m, allow) == pair_blocks(p, a, m - 1, allow) + pair_block(p, a, m - 1, allow));
    lemma_sat_split(pair_blocks(p, a, m - 1, allow), pair_block(p, a, m - 1, allow), vals);
    if b < m - 1 {
        lemma_pair_blocks_sat(p, a, m - 1, b, allow, vals);
    }
}

/// A solution of the room constraints of a pair meets each of them.
proof fn lemma_room_pairs_sat(p: Program, a: int, b: int, idx: int, r: int, q: int, vals: Seq<bool>)
    requires
        0 <= q < r,
        satisfies(room_pairs(p, a, b, idx, r), vals),
        p.rooms[a][q] is Some,
        p.rooms[b][q] is Some,
    ensures
        holds(room_pair_c(p, idx, p.rooms[a][q]->0, p.rooms[b][q]->0), vals),
    decreases r,
{
    let step = seq![room_pair_c(p, idx, p.rooms[a][r - 1]->0, p.rooms[b][r - 1]->0)];
    if q == r - 1 {
        assert(room_pairs(p, a, b, idx, r) == room_pairs(p, a, b, idx, r - 1) + step);
        lemma_sat_split(room_pairs(p, a, b, idx, r - 1), step, vals);
        assert(holds(step[0], vals));
    } else {
        let st = room_pairs(p, a, b, idx, r) .subrange(room_pairs(p, a, b, idx, r - 1).len() as int, room_pairs(p, a, b, idx, r).len() as int);
        assert(room_pairs(p, a, b, idx, r) =~= room_pairs(p, a, b, idx, r - 1) + st);
        lemma_sat_split(room_pairs(p, a, b, idx, r - 1), st, vals);
        lemma_room_pairs_sat(p, a, b, idx, r - 1, q, vals);
    }
}

/// A solution of the instructor constraints of a pair meets each of them.
proof fn lemma_instr_pairs_sat(p: Program, a: int, b: int, idx: int, i: int, q: int, allow: bool, vals: Seq<bool>)
    requires
        0 <= q < i,
        satisfies(instr_pairs(p, a, b, idx, i, allow), vals),
        instr_cond(p, a, b, q, allow),
    ensures
        holds(instr_pair_c(p, idx, a, b, q), vals),
    decreases i,
{
    let prev = instr_pairs(p, a, b, idx, i - 1, allow);
    let st = instr_pairs(p, a, b, idx, i, allow).subrange(prev.len() as int, instr_pairs(p, a, b, idx, i, allow).len() as int);
    assert(instr_pairs(p, a, b, idx, i, allow) =~= prev + st);
    lemma_sat_split(prev, st, vals);
    if q == i - 1 {
        assert(st[0] == instr_pair_c(p, idx, a, b, q));
        assert(holds(st[0], vals));
    } else {
        lemma_instr_pairs_sat(p, a, b, idx, i - 1, q, allow, vals);
    }
}

/// A solution of the start constraints of a pair meets those of each start
/// of its first entry.
proof fn lemma_start_pairs_sat(p: Program, a: int, b: int, idx: int, e1: int, s1: int, vals: Seq<bool>)
    requires
        0 <= s1 < e1,
        satisfies(start_pairs(p, a, b, idx, e1), vals),
        p.starts[a][s1] is Some,
    ensures
        satisfies(start_pairs_inner(p, a, b, idx, s1, p.slots as int), vals),
    decreases e1,
{
    let prev = start_pairs(p, a, b, idx, e1 - 1);
    let st = start_pairs(p, a, b, idx, e1).subrange(prev.len() as int, start_pairs(p, a, b, idx, e1).len() as int);
    assert(start_pairs(p, a, b, idx, e1) =~= prev + st);
    lemma_sat_split(prev, st, vals);
    if s1 < e1 - 1 {
        lemma_start_pairs_sat(p, a, b, idx, e1 - 1, s1, vals);
    } else {
        assert(st =~= start_pairs_inner(p, a, b, idx, s1, p.slots as int));
    }
}

/// A solution of the start constraints of a start `s1` meets each of them.
proof fn lemma_start_inner_sat(p: Program, a: int, b: int, idx: int, s1: int, e2: int, s2: int, vals: Seq<bool>)
    requires
        0 <= s2 < e2,
        satisfies(start_pairs_inner(p, a, b, idx, s1, e2), vals),
        p.starts[b][s2] is Some,
        overlap_spec(p.entries[a].0, grid_time(p.first_start, s1), p.entries[b].0, grid_time(p.first_start, s2)),
    ensures
        holds(start_pair_c(p, idx, p.starts[a][s1]->0, p.starts[b][s2]->0), vals),
    decreases e2,
{
    let prev = start_pairs_inner(p, a, b, idx, s1, e2 - 1);
    let st = start_pairs_inner(p, a, b, idx, s1, e2).subrange(prev.len() as int, start_pairs_inner(p, a, b, idx, s1, e2).len() as int);
    assert(start_pairs_inner(p, a, b, idx, s1, e2) =~= prev + st);
    lemma_sat_split(prev, st, vals);
    if s2 < e2 - 1 {
        lemma_start_inner_sat(p, a, b, idx, s1, e2 - 1, s2, vals);
    } else {
        assert(st[0] == start_pair_c(p, idx, p.starts[a][s1]->0, p.starts[b][s2]->0));
        assert(holds(st[0], vals));
    }
}

/// The value of a single term.
proof fn lemma_eval_one(x: usize, c: i128, vals: Seq<bool>)
    ensures
        eval_terms(seq![(x, c)], vals) == c * value(vals, x),
{
    let t = seq![(x, c)];
    assert(t.drop_last() =~= Seq::<(usize, i128)>::empty());
    assert(eval_terms(Seq::<(usize, i128)>::empty(), vals) == 0);
    assert(t.len() == 1 && t.last() == (x, c));
    assert(eval_terms(t, vals) == eval_terms(t.drop_last(), vals) + t.last().1 * value(vals, t.last().0));
}

/// The value of a single term, for other modules.
pub proof fn lemma_eval_single(x: usize, c: i128, vals: Seq<bool>)
    ensures
        eval_terms(seq![(x, c)], vals) == c * value(vals, x),
{
    lemma_eval_one(x, c, vals);
}

/// The value of two terms.
proof fn lemma_eval_two(x: usize, cx: i128, y: usize, cy: i128, vals: Seq<bool>)
    ensures
        eval_terms(seq![(x, cx), (y, cy)], vals) == cx * value(vals, x) + cy * value(vals, y),
{
    let t = seq![(x, cx), (y, cy)];
    assert(t.drop_last() =~= seq![(x, cx)]);
    lemma_eval_one(x, cx, vals);
    assert(t.len() == 2 && t.last() == (y, cy));
    assert(eval_terms(t, vals) == eval_terms(t.drop_last(), vals) + t.last().1 * value(vals, t.last().0));
}

/// Entries `a` and `b` have an instructor in common among the program's
/// people.
pub open spec fn share_instructor(p: Program, a: int, b: int) -> bool {
    exists|i: int| 0 <= i < p.instructors.len() && is_instructor_of(p, a, i) && #[trigger] is_instructor_of(p, b, i)
}

/// The solution `vals` sets entries `a` and `b` in the same room.
pub open spec fn set_in_same_room(p: Program, a: int, b: int, vals: Seq<bool>) -> bool {
    exists|r: int|
        0 <= r < p.room_count && p.rooms[a][r] is Some && p.rooms[b][r] is Some && value(vals, p.rooms[a][r]->0)
            == 1 && #[trigger] value(vals, p.rooms[b][r]->0) == 1
}

/// Person `i` takes part in entry `x` in the solution `vals`: as one of
/// its instructors, or, when all entries must be placed, as a visitor whose
/// visit is set.
pub open spec fn takes_part(p: Program, x: int, i: int, allow: bool, vals: Seq<bool>) -> bool {
    ||| p.entries[x].0.instructor_extension_uuids@.contains(p.instructors[i])
    ||| !allow && p.v[x][i] is Some && value(vals, p.v[x][i]->0) == 1
}

/// Some person of the program takes part in both entries.
pub open spec fn person_at_both(p: Program, a: int, b: int, allow: bool, vals: Seq<bool>) -> bool {
    exists|i: int|
        0 <= i < p.instructors.len() && takes_part(p, a, i, allow, vals) && #[trigger] takes_part(p, b, i, allow, vals)
}

/// What a taking part contributes to the instructor constraint: 1.
proof fn lemma_side_value(p: Program, x: int, i: int, vals: Seq<bool>)
    ensures
        !is_instructor_of(p, x, i) && p.v[x][i] is Some ==> eval_terms(side_terms(p, x, i), vals) + side_constant(
            p,
            x,
            i,
        ) == value(vals, p.v[x][i]->0),
        is_instructor_of(p, x, i) ==> eval_terms(side_terms(p, x, i), vals) + side_constant(p, x, i) == 1,
{
    if is_instructor_of(p, x, i) {
        assert(eval_terms(Seq::<(usize, i128)>::empty(), vals) == 0);
    } else if p.v[x][i] is Some {
        lemma_eval_one(p.v[x][i]->0, 1, vals);
    }
}

/// Entries that share an instructor, that a solution sets in the same room,
/// or in which one person takes part (teaching, or visiting when all must
/// be placed), are kept apart: a solution of the constraints never sets
/// them at two starts at which they overlap.
pub proof fn lemma_kept_apart(p: Program, allow: bool, vals: Seq<bool>, a: int, b: int, s1: int, s2: int)
    requires
        0 <= a < b < p.entries.len(),
        satisfies(all_constraints(p, allow), vals),
        0 <= s1 < p.slots,
        0 <= s2 < p.slots,
        p.starts[a][s1] is Some,
        value(vals, p.starts[a][s1]->0) == 1,
        p.starts[b][s2] is Some,
        value(vals, p.starts[b][s2]->0) == 1,
        share_instructor(p, a, b) || set_in_same_room(p, a, b, vals) || person_at_both(p, a, b, allow, vals),
    ensures
        !overlap_spec(p.entries[a].0, grid_time(p.first_start, s1), p.entries[b].0, grid_time(p.first_start, s2)),
{
    let n = p.entries.len() as int;
    let idx = pair_index(n, a, b);
    let rest = if allow {
        Seq::<ConstraintV>::empty()
    } else {
        parallel_rows(p, p.slots as int)
    };
    assert(all_constraints(p, allow) == entry_blocks(p, n, allow) + rest);
    lemma_sat_split(entry_blocks(p, n, allow), rest, vals);
    lemma_entry_blocks_sat(p, n, a, allow, vals);
    lemma_pair_blocks_sat(p, a, n, b, allow, vals);
    let any = seq![any_c(p, idx)];
    let rp = room_pairs(p, a, b, idx, p.room_count as int);
    let ip = instr_pairs(p, a, b, idx, p.instructors.len() as int, allow);
    let sp = start_pairs(p, a, b, idx, p.slots as int);
    assert(pair_block(p, a, b, allow) == any + rp + ip + sp);
    lemma_sat_split(any + rp + ip, sp, vals);
    lemma_sat_split(any + rp, ip, vals);
    lemma_sat_split(any, rp, vals);
    assert(holds(any[0], vals));
    lemma_eval_one(p.ao[idx], 2, vals);
    lemma_eval_two(p.ro[idx], 1, p.io[idx], 1, vals);
    if overlap_spec(p.entries[a].0, grid_time(p.first_start, s1), p.entries[b].0, grid_time(p.first_start, s2)) {
        let x = p.starts[a][s1]->0;
        let y = p.starts[b][s2]->0;
        lemma_start_pairs_sat(p, a, b, idx, p.slots as int, s1, vals);
        lemma_start_inner_sat(p, a, b, idx, s1, p.slots as int, s2, vals);
        lemma_eval_two(x, 1, y, 1, vals);
        lemma_eval_one(p.ao[idx], -1i128, vals);
        // any overlap is 0, so the room and instructor overlaps are 0
        assert(value(vals, p.ao[idx]) == 0);
        if person_at_both(p, a, b, allow, vals) {
            let i = choose|i: int|
                0 <= i < p.instructors.len() && takes_part(p, a, i, allow, vals) && #[trigger] takes_part(
                    p,
                    b,
                    i,
                    allow,
                    vals,
                );
            lemma_instr_pairs_sat(p, a, b, idx, p.instructors.len() as int, i, allow, vals);
            lemma_eval_one(p.io[idx], 1, vals);
            lemma_side_value(p, a, i, vals);
            lemma_side_value(p, b, i, vals);
            super::model::lemma_eval_concat(side_terms(p, a, i), side_terms(p, b, i), vals);
        } else if share_instructor(p, a, b) {
            let i = choose|i: int| 0 <= i < p.instructors.len() && is_instructor_of(p, a, i) && #[trigger] is_instructor_of(p, b, i);
            lemma_instr_pairs_sat(p, a, b, idx, p.instructors.len() as int, i, allow, vals);
            lemma_eval_one(p.io[idx], 1, vals);
            assert(side_terms(p, a, i) + side_terms(p, b, i) =~= Seq::<(usize, i128)>::empty());
        } else {
            let r = choose|r: int|
                0 <= r < p.room_count && p.rooms[a][r] is Some && p.rooms[b][r] is Some && value(vals, p.rooms[a][r]->0)
                    == 1 && #[trigger] value(vals, p.rooms[b][r]->0) == 1;
            lemma_room_pairs_sat(p, a, b, idx, p.room_count as int, r, vals);
            lemma_eval_one(p.ro[idx], 1, vals);
            lemma_eval_two(p.rooms[a][r]->0, 1, p.rooms[b][r]->0, 1, vals);
        }
    }
}

/// The number of positions of `row` whose variable is set in `vals`.
pub open spec fn count_set(row: Seq<Option<usize>>, vals: Seq<bool>) -> int
    decreases row.len(),
{
    if row.len() == 0 {
        0
    } else {
        count_set(row.drop_last(), vals) + match row.last() {
            Some(x) => value(vals, x),
            None => 0,
        }
    }
}

/// Position `i` of `row` holds a variable that is set in `vals`.
pub open spec fn set_at(row: Seq<Option<usize>>, vals: Seq<bool>, i: int) -> bool {
    0 <= i < row.len() && row[i] is Some && value(vals, row[i]->0) == 1
}

/// The sum of the variables of a row is the number of its set positions.
pub proof fn lemma_ones_count(row: Seq<Option<usize>>, vals: Seq<bool>)
    ensures
        eval_terms(ones(row), vals) == count_set(row, vals),
    decreases row.len(),
{
    if row.len() > 0 {
        lemma_ones_count(row.drop_last(), vals);
        let step = match row.last() {
            Some(x) => seq![(x, 1i128)],
            None => Seq::<(usize, i128)>::empty(),
        };
        assert(ones(row) == ones(row.drop_last()) + step);
        super::model::lemma_eval_concat(ones(row.drop_last()), step, vals);
        match row.last() {
            Some(x) => {
                lemma_eval_one(x, 1, vals);
            },
            None => {
                assert(eval_terms(step, vals) == 0);
            },
        }
    }
}

/// A row with no set position, or with exactly one.
pub proof fn lemma_count_set(row: Seq<Option<usize>>, vals: Seq<bool>)
    ensures
        count_set(row, vals) >= 0,
        count_set(row, vals) == 0 ==> forall|i: int| !set_at(row, vals, i),
        count_set(row, vals) == 1 ==> exists|i: int|
            set_at(row, vals, i) && forall|j: int| j != i ==> !#[trigger] set_at(row, vals, j),
    decreases row.len(),
{
    if row.len() > 0 {
        let u = row.drop_last();
        lemma_count_set(u, vals);
        let last_set = set_at(row, vals, row.len() - 1);
        assert forall|i: int| 0 <= i < u.len() implies set_at(row, vals, i) == set_at(u, vals, i) by {
            assert(u[i] == row[i]);
        }
        if count_set(row, vals) == 0 {
            assert forall|i: int| !set_at(row, vals, i) by {
                if 0 <= i < u.len() {
                    assert(!set_at(u, vals, i));
                }
            }
        }
        if count_set(row, vals) == 1 {
            if last_set {
                let i = row.len() - 1;
                assert forall|j: int| j != i implies !#[trigger] set_at(row, vals, j) by {
                    if 0 <= j < u.len() {
                        assert(!set_at(u, vals, j));
                    }
                }
            } else {
                let i = choose|i: int| set_at(u, vals, i) && forall|j: int| j != i ==> !#[trigger] set_at(u, vals, j);
                assert(set_at(row, vals, i));
                assert forall|j: int| j != i implies !#[trigger] set_at(row, vals, j) by {
                    if 0 <= j < u.len() {
                        assert(!set_at(u, vals, j));
                    }
                }
            }
        }
    }
}

/// A solution of the constraints of the entries before `k` meets the start
/// and room constraints of each.
proof fn lemma_entry_own_sat(p: Program, k: int, a: int, allow: bool, vals: Seq<bool>)
    requires
        0 <= a < k,
        satisfies(entry_blocks(p, k, allow), vals),
    ensures
        holds(start_c(p, a, allow), vals),
        holds(room_c(p, a, allow), vals),
    decreases k,
{
    let own = seq![start_c(p, k - 1, allow), room_c(p, k - 1, allow)];
    let head = entry_blocks(p, k - 1, allow) + own;
    assert(entry_blocks(p, k, allow) == head + pair_blocks(p, k - 1, p.entries.len() as int, allow));
    lemma_sat_split(head, pair_blocks(p, k - 1, p.entries.len() as int, allow), vals);
    lemma_sat_split(entry_blocks(p, k - 1, allow), own, vals);
    if a < k - 1 {
        lemma_entry_own_sat(p, k - 1, a, allow, vals);
    } else {
        assert(holds(own[0], vals));
        assert(holds(own[1], vals));
    }
}

/// Each entry is placed once: in every solution of the constraints, each
/// entry has at most one set start variable and at most one set room
/// variable, and when all entries must be placed, exactly one of each.
pub proof fn lemma_each_entry_once(p: Program, allow: bool, vals: Seq<bool>, a: int)
    requires
        0 <= a < p.entries.len(),
        satisfies(all_constraints(p, allow), vals),
    ensures
        forall|i: int, j: int| set_at(p.starts[a], vals, i) && set_at(p.starts[a], vals, j) ==> i == j,
        forall|i: int, j: int| set_at(p.rooms[a], vals, i) && set_at(p.rooms[a], vals, j) ==> i == j,
        !allow ==> exists|i: int| set_at(p.starts[a], vals, i),
        !allow ==> exists|i: int| set_at(p.rooms[a], vals, i),
{
    let n = p.entries.len() as int;
    let rest = if allow {
        Seq::<ConstraintV>::empty()
    } else {
        parallel_rows(p, p.slots as int)
    };
    assert(all_constraints(p, allow) == entry_blocks(p, n, allow) + rest);
    lemma_sat_split(entry_blocks(p, n, allow), rest, vals);
    lemma_entry_own_sat(p, n, a, allow, vals);
    assert(eval(expr(Seq::empty(), 1), vals) == 1);
    lemma_ones_count(p.starts[a], vals);
    lemma_ones_count(p.rooms[a], vals);
    lemma_count_set(p.starts[a], vals);
    lemma_count_set(p.rooms[a], vals);
    lemma_count_pairs(p.starts[a], vals);
    lemma_count_pairs(p.rooms[a], vals);
}

/// Two different set positions make a count of at least 2.
pub proof fn lemma_count_pairs(row: Seq<Option<usize>>, vals: Seq<bool>)
    ensures
        count_set(row, vals) <= 1 ==> forall|i: int, j: int| set_at(row, vals, i) && set_at(row, vals, j) ==> i == j,
    decreases row.len(),
{
    if row.len() > 0 {
        let u = row.drop_last();
        lemma_count_pairs(u, vals);
        lemma_count_set(u, vals);
        lemma_count_set(row, vals);
        assert forall|i: int| 0 <= i < u.len() implies set_at(row, vals, i) == set_at(u, vals, i) by {
            assert(u[i] == row[i]);
        }
        if count_set(row, vals) <= 1 {
            assert forall|i: int, j: int| set_at(row, vals, i) && set_at(row, vals, j) implies i == j by {
                let l = row.len() - 1;
                if i == l && j != l {
                    assert(set_at(u, vals, j));
                } else if j == l && i != l {
                    assert(set_at(u, vals, i));
                }
            }
        }
    }
}

/// The number of set start variables of entry `a`, at its allowed start
/// times before grid position `s_end`, that keep it busy at grid position
/// `t`.
pub open spec fn busy_count_of(p: Program, t: int, vals: Seq<bool>, a: int, s_end: int) -> int
    decreases s_end,
{
    if s_end <= 0 {
        0
    } else {
        let s = s_end - 1;
        busy_count_of(p, t, vals, a, s) + if p.entries[a].0.allowed_starts@.contains(grid_time(p.first_start, s) as i32)
            && occupies_spec(p.entries[a].0, grid_time(p.first_start, s), grid_time(p.first_start, t)) && set_at(
            p.starts[a],
            vals,
            s,
        ) {
            1int
        } else {
            0int
        }
    }
}

/// The number of entries before `a_end` that a solution keeps busy at grid
/// position `t`.
pub open spec fn busy_count(p: Program, t: int, vals: Seq<bool>, a_end: int) -> int
    decreases a_end,
{
    if a_end <= 0 {
        0
    } else {
        busy_count(p, t, vals, a_end - 1) + busy_count_of(p, t, vals, a_end - 1, p.slots as int)
    }
}

/// The busy terms of an entry add up to its busy count.
proof fn lemma_busy_terms_of(p: Program, t: int, vals: Seq<bool>, a: int, s_end: int)
    requires
        0 <= s_end <= p.starts[a].len(),
    ensures
        eval_terms(busy_terms_of(p, t, a, s_end), vals) == busy_count_of(p, t, vals, a, s_end),
    decreases s_end,
{
    if s_end > 0 {
        let s = s_end - 1;
        lemma_busy_terms_of(p, t, vals, a, s);
        let cur = grid_time(p.first_start, s);
        let step = if p.entries[a].0.allowed_starts@.contains(cur as i32) && occupies_spec(
            p.entries[a].0,
            cur,
            grid_time(p.first_start, t),
        ) && p.starts[a][s] is Some {
            seq![(p.starts[a][s]->0, 1i128)]
        } else {
            Seq::<(usize, i128)>::empty()
        };
        assert(busy_terms_of(p, t, a, s_end) == busy_terms_of(p, t, a, s) + step);
        super::model::lemma_eval_concat(busy_terms_of(p, t, a, s), step, vals);
        if p.starts[a][s] is Some {
            lemma_eval_one(p.starts[a][s]->0, 1, vals);
        }
        assert(eval_terms(Seq::<(usize, i128)>::empty(), vals) == 0);
    }
}

/// The busy terms of the entries before `a_end` add up to their busy count.
proof fn lemma_busy_terms(p: Program, t: int, vals: Seq<bool>, a_end: int)
    requires
        0 <= a_end <= p.entries.len(),
        program_fits(p, false),
    ensures
        eval_terms(busy_terms(p, t, a_end), vals) == busy_count(p, t, vals, a_end),
    decreases a_end,
{
    if a_end > 0 {
        lemma_busy_terms(p, t, vals, a_end - 1);
        assert(p.starts[a_end - 1].len() >= p.slots);
        lemma_busy_terms_of(p, t, vals, a_end - 1, p.slots as int);
        super::model::lemma_eval_concat(
            busy_terms(p, t, a_end - 1),
            busy_terms_of(p, t, a_end - 1, p.slots as int),
            vals,
        );
    }
}

/// A solution of the parallelism constraints of the grid positions before
/// `t_end` meets those of each.
proof fn lemma_parallel_rows_sat(p: Program, vals: Seq<bool>, t_end: int, t: int, k: int)
    requires
        0 <= t < t_end,
        0 <= k < max_parallel(p.entries.len(), p.room_count),
        satisfies(parallel_rows(p, t_end), vals),
    ensures
        holds(
            cv(
                expr(busy_terms(p, t, p.entries.len() as int), 0),
                Relation::AtMost,
                expr(
                    seq![(p.b[t][k], max_parallel(p.entries.len(), p.room_count) as i128)],
                    k,
                ),
            ),
            vals,
        ),
    decreases t_end,
{
    let mp = max_parallel(p.entries.len(), p.room_count) as int;
    lemma_sat_split(parallel_rows(p, t_end - 1), parallel_row(p, t_end - 1, mp, mp), vals);
    if t < t_end - 1 {
        lemma_parallel_rows_sat(p, vals, t_end - 1, t, k);
    } else {
        lemma_parallel_row_sat(p, vals, t, mp, mp, k);
    }
}

/// A solution of a row of parallelism constraints meets each.
proof fn lemma_parallel_row_sat(p: Program, vals: Seq<bool>, t: int, k_end: int, mp: int, k: int)
    requires
        0 <= k < k_end,
        satisfies(parallel_row(p, t, k_end, mp), vals),
    ensures
        holds(
            cv(expr(busy_terms(p, t, p.entries.len() as int), 0), Relation::AtMost, expr(seq![(p.b[t][k], mp as i128)], k)),
            vals,
        ),
    decreases k_end,
{
    let c = cv(
        expr(busy_terms(p, t, p.entries.len() as int), 0),
        Relation::AtMost,
        expr(seq![(p.b[t][k_end - 1], mp as i128)], k_end - 1),
    );
    lemma_sat_split(parallel_row(p, t, k_end - 1, mp), seq![c], vals);
    if k < k_end - 1 {
        lemma_parallel_row_sat(p, vals, t, k_end - 1, mp, k);
    } else {
        assert(holds(seq![c][0], vals));
    }
}

/// Parallel activities are counted: when all entries must be placed, in
/// every solution of the constraints the parallelism variable `b[t][k]` is
/// set whenever more than `k` entries are busy at grid position `t`.
pub proof fn lemma_parallel_counted(p: Program, vals: Seq<bool>, t: int, k: int)
    requires
        program_fits(p, false),
        satisfies(all_constraints(p, false), vals),
        0 <= t < p.slots,
        0 <= k < max_parallel(p.entries.len(), p.room_count),
        busy_count(p, t, vals, p.entries.len() as int) > k,
    ensures
        value(vals, p.b[t][k]) == 1,
{
    let n = p.entries.len() as int;
    lemma_sat_split(entry_blocks(p, n, false), parallel_rows(p, p.slots as int), vals);
    lemma_parallel_rows_sat(p, vals, p.slots as int, t, k);
    lemma_busy_terms(p, t, vals, n);
    let mp = max_parallel(p.entries.len(), p.room_count);
    lemma_eval_one(p.b[t][k], mp as i128, vals);
}

} // verus!
