//! The variables of the slot programs: one for each entry, grid position
//! and room at which the entry may take place, one for each visitor of an
//! entry at each allowed grid position, and the parallelism variables.
use vstd::prelude::*;

use super::{contains_id, contains_time, grid_time, FractivityRoom};
use super::model::{Coefficient, VarKind};
use super::variables::{grid, grid_fits, grid_len, lemma_prefix_push, max_parallel, Entry};

verus! {

/// A table of optional variables with three indices.
pub type Cube = Seq<Seq<Seq<Option<usize>>>>;

/// The tables of a list of tables of optional variables.
pub open spec fn cube(v: Seq<Vec<Vec<Option<usize>>>>) -> Cube {
    v.map_values(|b: Vec<Vec<Option<usize>>>| b@.map_values(|r: Vec<Option<usize>>| r@))
}

/// The cell `(a, s, r)` of `c` exists and holds a variable.
pub open spec fn cell_in(c: Cube, a: int, s: int, r: int) -> bool {
    0 <= a < c.len() && 0 <= s < c[a].len() && 0 <= r < c[a][s].len() && c[a][s][r] is Some
}

/// Cell `(a, s, r)` comes before cell `(a2, s2, r2)` in the order of the
/// indices.
pub open spec fn cell_before(a: int, s: int, r: int, a2: int, s2: int, r2: int) -> bool {
    a < a2 || (a == a2 && (s < s2 || (s == s2 && r < r2)))
}

/// Some cell of `c` holds the variable `x`.
pub open spec fn cube_has(c: Cube, x: int) -> bool {
    exists|a: int, s: int, r: int| cell_in(c, a, s, r) && #[trigger] c[a][s][r] == Some(x as usize)
}

/// The variables of the cells of `c`, in the order of the indices, are
/// exactly the numbers `lo, lo + 1, .., hi - 1`.
pub open spec fn cube_numbered(c: Cube, lo: int, hi: int) -> bool {
    &&& lo <= hi
    &&& forall|a: int, s: int, r: int| #[trigger] cell_in(c, a, s, r) ==> lo <= c[a][s][r]->0 < hi
    &&& forall|a: int, s: int, r: int, a2: int, s2: int, r2: int|
        #[trigger] cell_in(c, a, s, r) && #[trigger] cell_in(c, a2, s2, r2) && cell_before(a, s, r, a2, s2, r2)
            ==> c[a][s][r]->0 < c[a2][s2][r2]->0
    &&& forall|x: int| lo <= x < hi ==> #[trigger] cube_has(c, x)
}

/// A table with a new, empty last part.
pub open spec fn cube_new_block(c: Cube) -> Cube {
    c.push(Seq::empty())
}

/// A table whose last part has a new, empty last row.
pub open spec fn cube_new_row(c: Cube) -> Cube {
    c.update(c.len() - 1, c.last().push(Seq::empty()))
}

/// A table whose last row of its last part is extended by `o`.
pub open spec fn cube_push(c: Cube, o: Option<usize>) -> Cube {
    c.update(c.len() - 1, c.last().update(c.last().len() - 1, c.last().last().push(o)))
}

/// A new part keeps the numbering.
pub proof fn lemma_cube_new_block(c: Cube, lo: int, hi: int)
    requires
        cube_numbered(c, lo, hi),
    ensures
        cube_numbered(cube_new_block(c), lo, hi),
{
    let d = cube_new_block(c);
    assert forall|a: int, s: int, r: int| #[trigger] cell_in(d, a, s, r) implies cell_in(c, a, s, r) && d[a][s][r] == c[a][s][r] by {
        assert(d[a] == c[a]);
    }
    assert forall|x: int| lo <= x < hi implies #[trigger] cube_has(d, x) by {
        assert(cube_has(c, x));
        let (a, s, r) = choose|a: int, s: int, r: int| cell_in(c, a, s, r) && #[trigger] c[a][s][r] == Some(x as usize);
        assert(d[a] == c[a]);
        assert(cell_in(d, a, s, r));
    }
}

/// A new row keeps the numbering.
pub proof fn lemma_cube_new_row(c: Cube, lo: int, hi: int)
    requires
        c.len() > 0,
        cube_numbered(c, lo, hi),
    ensures
        cube_numbered(cube_new_row(c), lo, hi),
{
    let d = cube_new_row(c);
    let k = c.len() - 1;
    assert forall|a: int, s: int, r: int| #[trigger] cell_in(d, a, s, r) implies cell_in(c, a, s, r) && d[a][s][r] == c[a][s][r] by {
        if a == k {
            assert(d[a] == c.last().push(Seq::empty()));
            assert(s < c[a].len());
            assert(d[a][s] == c[a][s]);
        } else {
            assert(d[a] == c[a]);
        }
    }
    assert forall|x: int| lo <= x < hi implies #[trigger] cube_has(d, x) by {
        assert(cube_has(c, x));
        let (a, s, r) = choose|a: int, s: int, r: int| cell_in(c, a, s, r) && #[trigger] c[a][s][r] == Some(x as usize);
        if a == k {
            assert(d[a] == c.last().push(Seq::empty()));
            assert(d[a][s] == c[a][s]);
        } else {
            assert(d[a] == c[a]);
        }
        assert(cell_in(d, a, s, r));
    }
}

/// An empty cell keeps the numbering.
pub proof fn lemma_cube_push_none(c: Cube, lo: int, hi: int)
    requires
        c.len() > 0,
        c.last().len() > 0,
        cube_numbered(c, lo, hi),
    ensures
        cube_numbered(cube_push(c, None), lo, hi),
{
    let d = cube_push(c, None);
    let k = c.len() - 1;
    let m = c.last().len() - 1;
    assert forall|a: int, s: int, r: int| #[trigger] cell_in(d, a, s, r) implies cell_in(c, a, s, r) && d[a][s][r] == c[a][s][r] by {
        if a == k {
            assert(d[a] == c.last().update(m, c.last().last().push(None)));
            if s == m {
                assert(d[a][s] == c.last().last().push(None));
                assert(r < c[a][s].len());
            } else {
                assert(d[a][s] == c[a][s]);
            }
        } else {
            assert(d[a] == c[a]);
        }
    }
    assert forall|x: int| lo <= x < hi implies #[trigger] cube_has(d, x) by {
        assert(cube_has(c, x));
        let (a, s, r) = choose|a: int, s: int, r: int| cell_in(c, a, s, r) && #[trigger] c[a][s][r] == Some(x as usize);
        if a == k {
            assert(d[a] == c.last().update(m, c.last().last().push(None)));
            if s == m {
                assert(d[a][s] == c.last().last().push(None));
                assert(d[a][s][r] == c[a][s][r]);
            } else {
                assert(d[a][s] == c[a][s]);
            }
        } else {
            assert(d[a] == c[a]);
        }
        assert(cell_in(d, a, s, r));
    }
}

/// A cell with the next number keeps the numbering.
pub proof fn lemma_cube_push_some(c: Cube, lo: int, hi: int)
    requires
        c.len() > 0,
        c.last().len() > 0,
        cube_numbered(c, lo, hi),
        0 <= hi < usize::MAX,
    ensures
        cube_numbered(cube_push(c, Some(hi as usize)), lo, hi + 1),
{
    let d = cube_push(c, Some(hi as usize));
    let k = c.len() - 1;
    let m = c.last().len() - 1;
    let z = c.last().last().len() as int;
    assert forall|a: int, s: int, r: int| #[trigger] cell_in(d, a, s, r) implies (a == k && s == m && r == z
        && d[a][s][r] == Some(hi as usize)) || (cell_in(c, a, s, r) && d[a][s][r] == c[a][s][r]) by {
        if a == k {
            assert(d[a] == c.last().update(m, c.last().last().push(Some(hi as usize))));
            if s == m {
                assert(d[a][s] == c.last().last().push(Some(hi as usize)));
            } else {
                assert(d[a][s] == c[a][s]);
            }
        } else {
            assert(d[a] == c[a]);
        }
    }
    assert forall|x: int| lo <= x < hi + 1 implies #[trigger] cube_has(d, x) by {
        if x == hi {
            assert(d[k] == c.last().update(m, c.last().last().push(Some(hi as usize))));
            assert(d[k][m] == c.last().last().push(Some(hi as usize)));
            assert(d[k][m][z] == Some(hi as usize));
            assert(cell_in(d, k, m, z));
        } else {
            assert(cube_has(c, x));
            let (a, s, r) = choose|a: int, s: int, r: int| cell_in(c, a, s, r) && #[trigger] c[a][s][r] == Some(x as usize);
            if a == k {
                assert(d[a] == c.last().update(m, c.last().last().push(Some(hi as usize))));
                if s == m {
                    assert(d[a][s] == c.last().last().push(Some(hi as usize)));
                    assert(d[a][s][r] == c[a][s][r]);
                } else {
                    assert(d[a][s] == c[a][s]);
                }
            } else {
                assert(d[a] == c[a]);
            }
            assert(cell_in(d, a, s, r));
        }
    }
}

/// What a slot program is for.
#[derive(Debug, Clone, Copy, PartialEq, Eq, Structural)]
pub enum SlotGoal {
    /// Place every entry, preferring rooms of high priority.
    Distribution,
    /// Place as many entries as possible, to find those that cannot be.
    Placeable,
}

/// The entry gets a variable for starting at time `t` in room `id`: its
/// fixed room and time, or one of its allowed rooms and start times.
pub open spec fn slot_wanted(e: Entry, t: int, id: u128) -> bool {
    match e.1 {
        Some(fixed) => id == fixed.0 && t == fixed.1,
        None => e.0.allowed_rooms@.contains(id) && e.0.allowed_starts@.contains(t as i32),
    }
}

/// The kind of a slot variable of an entry with or without a fixed
/// placement.
pub open spec fn slot_kind(goal: SlotGoal, fixed: bool) -> VarKind {
    match goal {
        SlotGoal::Distribution => if fixed {
            VarKind::One
        } else {
            VarKind::BinaryFrom(false)
        },
        SlotGoal::Placeable => VarKind::BinaryFrom(fixed),
    }
}

/// The objective weight of the slot variable of entry `a` in room `r`: the
/// room's priority over `den` for a distribution (none for a fixed entry);
/// the number of entries for a fixed entry, 1 otherwise, when searching for
/// placeable entries.
pub open spec fn slot_weight(
    entries: Seq<Entry>,
    rooms: Seq<FractivityRoom>,
    goal: SlotGoal,
    den: nat,
    a: int,
    r: int,
) -> Option<Coefficient> {
    let fixed = entries[a].1 is Some;
    match goal {
        SlotGoal::Distribution => if fixed {
            None
        } else {
            Some(Coefficient { num: rooms[r].priority as i128, den: den as u128 })
        },
        SlotGoal::Placeable => if fixed {
            Some(Coefficient { num: entries.len() as i128, den: 1 })
        } else {
            Some(Coefficient { num: 1, den: 1 })
        },
    }
}

/// The objective terms of the cells of `row` (slot variables of entry `a`).
pub open spec fn slot_row_terms(
    entries: Seq<Entry>,
    rooms: Seq<FractivityRoom>,
    goal: SlotGoal,
    den: nat,
    a: int,
    row: Seq<Option<usize>>,
) -> Seq<(usize, Coefficient)>
    decreases row.len(),
{
    if row.len() == 0 {
        Seq::empty()
    } else {
        slot_row_terms(entries, rooms, goal, den, a, row.drop_last()) + match (
            row.last(),
            slot_weight(entries, rooms, goal, den, a, row.len() - 1),
        ) {
            (Some(x), Some(w)) => seq![(x, w)],
            _ => Seq::empty(),
        }
    }
}

/// The objective terms of the rows of `block` (slot variables of entry `a`).
pub open spec fn slot_block_terms(
    entries: Seq<Entry>,
    rooms: Seq<FractivityRoom>,
    goal: SlotGoal,
    den: nat,
    a: int,
    block: Seq<Seq<Option<usize>>>,
) -> Seq<(usize, Coefficient)>
    decreases block.len(),
{
    if block.len() == 0 {
        Seq::empty()
    } else {
        slot_block_terms(entries, rooms, goal, den, a, block.drop_last()) + slot_row_terms(
            entries,
            rooms,
            goal,
            den,
            a,
            block.last(),
        )
    }
}

/// The objective terms of the slot variables in `c`, in the order of the
/// indices.
pub open spec fn slot_terms(
    entries: Seq<Entry>,
    rooms: Seq<FractivityRoom>,
    goal: SlotGoal,
    den: nat,
    c: Cube,
) -> Seq<(usize, Coefficient)>
    decreases c.len(),
{
    if c.len() == 0 {
        Seq::empty()
    } else {
        slot_terms(entries, rooms, goal, den, c.drop_last()) + slot_block_terms(
            entries,
            rooms,
            goal,
            den,
            c.len() - 1,
            c.last(),
        )
    }
}

/// Creates a variable for each entry, grid position and room at which the
/// entry may take place (`slot_wanted`), numbered in that order from
/// `vars.len()` on, with its kind (`slot_kind`) appended to `vars` and its
/// weight (`slot_weight`), where it has one, to `objective`. Returns the
/// variables by entry, grid position and room.
pub fn create_slot_variables(
    fractivity_entries: &Vec<Entry>,
    all_rooms: &Vec<FractivityRoom>,
    first_start: i32,
    num_starts: i32,
    goal: SlotGoal,
    den: usize,
    vars: &mut Vec<VarKind>,
    objective: &mut Vec<(usize, Coefficient)>,
) -> (x: Vec<Vec<Vec<Option<usize>>>>)
    requires
        grid_fits(first_start, num_starts),
        fractivity_entries@.len() <= i128::MAX,
        old(vars)@.len() + fractivity_entries@.len() * grid_len(num_starts) * all_rooms@.len() < usize::MAX,
    ensures
        ({
            let n = fractivity_entries@.len();
            let sl = grid_len(num_starts);
            let nr = all_rooms@.len();
            let lo = old(vars)@.len() as int;
            let hi = final(vars)@.len() as int;
            &&& x@.len() == n
            &&& forall|a: int| 0 <= a < n ==> (#[trigger] x@[a])@.len() == sl
            &&& forall|a: int, s: int| 0 <= a < n && 0 <= s < sl ==> (#[trigger] x@[a]@[s])@.len() == nr
            &&& forall|a: int, s: int, r: int|
                0 <= a < n && 0 <= s < sl && 0 <= r < nr ==> ((#[trigger] x@[a]@[s]@[r]) is Some
                    <==> slot_wanted(fractivity_entries@[a], grid_time(first_start, s), all_rooms@[r].id))
            &&& cube_numbered(cube(x@), lo, hi)
            &&& hi - lo <= n * sl * nr
            &&& final(vars)@.subrange(0, lo) == old(vars)@
            &&& forall|a: int, s: int, r: int|
                #[trigger] cell_in(cube(x@), a, s, r) ==> final(vars)@[cube(x@)[a][s][r]->0 as int]
                    == slot_kind(goal, fractivity_entries@[a].1 is Some)
            &&& final(objective)@ == old(objective)@ + slot_terms(
                fractivity_entries@,
                all_rooms@,
                goal,
                den as nat,
                cube(x@),
            )
        }),
{
    let n = fractivity_entries.len();
    let nr = all_rooms.len();
    let ghost sl = grid_len(num_starts);
    let ghost lo = vars@.len() as int;
    let ghost obj0 = objective@;
    let ghost es = fractivity_entries@;
    let ghost rs = all_rooms@;
    let mut x: Vec<Vec<Vec<Option<usize>>>> = Vec::new();
    proof {
        assert(cube(x@) =~= Seq::empty());
        assert(vars@.subrange(0, lo) =~= old(vars)@);
        assert(objective@ =~= obj0 + slot_terms(es, rs, goal, den as nat, cube(x@)));
        assert(n * sl * nr >= 0) by (nonlinear_arith)
            requires n >= 0, sl >= 0, nr >= 0;
    }
    let mut a: usize = 0;
    while a < n
        invariant
            a <= n,
            n == es.len(),
            nr == rs.len(),
            es == fractivity_entries@,
            rs == all_rooms@,
            n <= i128::MAX,
            sl == grid_len(num_starts),
            grid_fits(first_start, num_starts),
            0 <= lo <= vars@.len(),
            vars@.len() - lo <= a * sl * nr,
            lo + n * sl * nr < usize::MAX,
            x@.len() == a,
            forall|b: int| 0 <= b < a ==> (#[trigger] x@[b])@.len() == sl,
            forall|b: int, s: int| 0 <= b < a && 0 <= s < sl ==> (#[trigger] x@[b]@[s])@.len() == nr,
            forall|b: int, s: int, r: int|
                0 <= b < a && 0 <= s < sl && 0 <= r < nr ==> ((#[trigger] x@[b]@[s]@[r]) is Some
                    <==> slot_wanted(es[b], grid_time(first_start, s), rs[r].id)),
            cube_numbered(cube(x@), lo, vars@.len() as int),
            vars@.subrange(0, lo) == old(vars)@,
            forall|b: int, s: int, r: int|
                #[trigger] cell_in(cube(x@), b, s, r) ==> vars@[cube(x@)[b][s][r]->0 as int]
                    == slot_kind(goal, es[b].1 is Some),
            objective@ == obj0 + slot_terms(es, rs, goal, den as nat, cube(x@)),
        decreases n - a,
    {
        let e = &fractivity_entries[a];
        let fixed = e.1.is_some();
        let kind = if fixed {
            match goal {
                SlotGoal::Distribution => VarKind::One,
                SlotGoal::Placeable => VarKind::BinaryFrom(true),
            }
        } else {
            VarKind::BinaryFrom(false)
        };
        let ghost c0 = cube(x@);
        let ghost v0 = vars@.len() as int;
        let ghost ob0 = objective@;
        proof {
            lemma_cube_new_block(c0, lo, v0);
            assert(v0 + sl * nr <= lo + (a + 1) * sl * nr) by (nonlinear_arith)
                requires v0 - lo <= a * sl * nr, sl >= 0, nr >= 0;
            assert(lo + (a + 1) * sl * nr <= lo + n * sl * nr) by (nonlinear_arith)
                requires a + 1 <= n, sl >= 0, nr >= 0;
        }
        let mut xa: Vec<Vec<Option<usize>>> = Vec::new();
        proof {
            assert(grid(xa@) =~= Seq::<Seq<Option<usize>>>::empty());
            let c1 = c0.push(grid(xa@));
            assert forall|b: int, t: int, q: int| #[trigger] cell_in(c1, b, t, q)
                implies vars@[c1[b][t][q]->0 as int] == slot_kind(goal, es[b].1 is Some) by {
                assert(c1[b] == c0[b]);
                assert(cell_in(c0, b, t, q));
            }
        }
        let mut s: i32 = 0;
        while s < num_starts
            invariant
                0 <= s,
                s <= num_starts || num_starts <= 0,
                num_starts <= 0 ==> s == 0,
                a < n,
                n == es.len(),
                nr == rs.len(),
                es == fractivity_entries@,
                rs == all_rooms@,
                n <= i128::MAX,
                *e == es[a as int],
                fixed == (es[a as int].1 is Some),
                kind == slot_kind(goal, fixed),
                sl == grid_len(num_starts),
                grid_fits(first_start, num_starts),
                xa@.len() == s,
                0 <= lo <= v0 <= vars@.len(),
                vars@.len() - v0 <= s * nr,
                v0 + sl * nr < usize::MAX,
                forall|t: int| 0 <= t < s ==> (#[trigger] xa@[t])@.len() == nr,
                forall|t: int, r: int|
                    0 <= t < s && 0 <= r < nr ==> ((#[trigger] xa@[t]@[r]) is Some
                        <==> slot_wanted(es[a as int], grid_time(first_start, t), rs[r].id)),
                cube_numbered(c0.push(grid(xa@)), lo, vars@.len() as int),
                lo <= vars@.len(),
                vars@.subrange(0, lo) == old(vars)@,
                forall|b: int, t: int, r: int|
                    #[trigger] cell_in(c0.push(grid(xa@)), b, t, r)
                        ==> vars@[c0.push(grid(xa@))[b][t][r]->0 as int]
                        == slot_kind(goal, es[b].1 is Some),
                c0 == cube(x@),
                c0.len() == a,
                objective@ == ob0 + slot_block_terms(es, rs, goal, den as nat, a as int, grid(xa@)),
            decreases num_starts - s,
        {
            let cur_start = first_start + 15 * s;
            let ghost blk = grid(xa@);
            let ghost c1 = c0.push(blk);
            let ghost v1 = vars@.len() as int;
            let ghost ob1 = objective@;
            proof {
                lemma_cube_new_row(c1, lo, v1);
                assert(cube_new_row(c1) =~= c0.push(blk.push(Seq::empty())));
                assert(v1 + nr <= v0 + (s + 1) * nr) by (nonlinear_arith)
                    requires v1 - v0 <= s * nr, nr >= 0;
                assert(v0 + (s + 1) * nr <= v0 + sl * nr) by (nonlinear_arith)
                    requires s + 1 <= sl, nr >= 0;
            }
            let mut xs: Vec<Option<usize>> = Vec::new();
            proof {
                assert(blk.push(xs@) =~= blk.push(Seq::empty()));
                let c2 = c0.push(blk.push(xs@));
                assert forall|b: int, t: int, q: int| #[trigger] cell_in(c2, b, t, q)
                    implies vars@[c2[b][t][q]->0 as int] == slot_kind(goal, es[b].1 is Some) by {
                    if b == a {
                        assert(c2[b] == blk.push(xs@));
                        assert(t < blk.len());
                        assert(c2[b][t] == c1[b][t]);
                    } else {
                        assert(c2[b] == c1[b]);
                    }
                    assert(cell_in(c1, b, t, q));
                }
            }
            let mut r: usize = 0;
            while r < nr
                invariant
                    r <= nr,
                    a < n,
                    n == es.len(),
                    nr == rs.len(),
                    es == fractivity_entries@,
                    rs == all_rooms@,
                    n <= i128::MAX,
                    *e == es[a as int],
                    fixed == (es[a as int].1 is Some),
                    kind == slot_kind(goal, fixed),
                    xs@.len() == r,
                    0 <= lo <= v1 <= vars@.len() <= v1 + r,
                    v1 + nr < usize::MAX,
                    cur_start == grid_time(first_start, s as int),
                    forall|k: int| 0 <= k < r ==> ((#[trigger] xs@[k]) is Some
                        <==> slot_wanted(es[a as int], cur_start as int, rs[k].id)),
                    cube_numbered(c0.push(blk.push(xs@)), lo, vars@.len() as int),
                    vars@.subrange(0, lo) == old(vars)@,
                    forall|b: int, t: int, q: int|
                        #[trigger] cell_in(c0.push(blk.push(xs@)), b, t, q)
                            ==> vars@[c0.push(blk.push(xs@))[b][t][q]->0 as int] == slot_kind(goal, es[b].1 is Some),
                    c0.len() == a,
                    objective@ == ob1 + slot_row_terms(es, rs, goal, den as nat, a as int, xs@),
                decreases nr - r,
            {
                let id = all_rooms[r].id;
                let wanted = match e.1 {
                    Some((fid, fstart)) => id == fid && cur_start == fstart,
                    None => contains_id(&e.0.allowed_rooms, id) && contains_time(&e.0.allowed_starts, cur_start),
                };
                let ghost c2 = c0.push(blk.push(xs@));
                let ghost prev_xs = xs@;
                let ghost prev_vars = vars@;
                let ghost prev_obj = objective@;
                if wanted {
                    let var = vars.len();
                    vars.push(kind);
                    xs.push(Some(var));
                    match goal {
                        SlotGoal::Distribution => {
                            if !fixed {
                                objective.push((var, Coefficient { num: all_rooms[r].priority as i128, den: den as u128 }));
                            }
                        },
                        SlotGoal::Placeable => {
                            if fixed {
                                objective.push((var, Coefficient { num: n as i128, den: 1 }));
                            } else {
                                objective.push((var, Coefficient { num: 1, den: 1 }));
                            }
                        },
                    }
                    proof {
                        lemma_cube_push_some(c2, lo, var as int);
                        assert(cube_push(c2, Some(var)) =~~= c0.push(blk.push(xs@)));
                        lemma_prefix_push(prev_vars, kind, lo);
                        let c3 = c0.push(blk.push(xs@));
                        assert forall|b: int, t: int, q: int| #[trigger] cell_in(c3, b, t, q)
                            implies vars@[c3[b][t][q]->0 as int] == slot_kind(goal, es[b].1 is Some) by {
                            if b == a && t == blk.len() && q == r {
                                assert(c3[b][t][q] == Some(var));
                            } else {
                                assert(cell_in(c2, b, t, q));
                                if b == a && t == blk.len() {
                                    assert(c3[b][t][q] == c2[b][t][q]);
                                } else if b == a {
                                    assert(c3[b][t] == c2[b][t]);
                                } else {
                                    assert(c3[b] == c2[b]);
                                }
                                assert(c2[b][t][q]->0 < var);
                            }
                        }
                        assert(xs@.drop_last() =~= prev_xs);
                    }
                } else {
                    xs.push(None);
                    proof {
                        lemma_cube_push_none(c2, lo, vars@.len() as int);
                        assert(cube_push(c2, None) =~~= c0.push(blk.push(xs@)));
                        let c3 = c0.push(blk.push(xs@));
                        assert forall|b: int, t: int, q: int| #[trigger] cell_in(c3, b, t, q)
                            implies vars@[c3[b][t][q]->0 as int] == slot_kind(goal, es[b].1 is Some) by {
                            assert(cell_in(c2, b, t, q));
                            if b == a && t == blk.len() {
                                assert(c3[b][t][q] == c2[b][t][q]);
                            } else if b == a {
                                assert(c3[b][t] == c2[b][t]);
                            } else {
                                assert(c3[b] == c2[b]);
                            }
                        }
                        assert(xs@.drop_last() =~= prev_xs);
                    }
                }
                r = r + 1;
            }
            let ghost prev_blk = blk;
            xa.push(xs);
            proof {
                let blk2 = grid(xa@);
                assert(blk2 =~= prev_blk.push(xs@));
                assert(blk2.drop_last() =~= prev_blk);
            }
            s = s + 1;
        }
        let ghost prev_x = x@;
        x.push(xa);
        proof {
            assert(cube(x@) =~= c0.push(grid(xa@)));
            assert(cube(x@).drop_last() =~= c0);
        }
        a = a + 1;
    }
    x
}

/// The entry gets a variable for instructor `id` among its visitors at
/// time `t`, one of its allowed start times.
pub open spec fn visit_wanted(e: Entry, id: u128, t: int) -> bool {
    e.0.visitor_extension_uuids@.contains(id) && e.0.allowed_starts@.contains(t as i32)
}

/// The variables of `row`, each with weight 1.
pub open spec fn row_ones(row: Seq<Option<usize>>) -> Seq<(usize, Coefficient)>
    decreases row.len(),
{
    if row.len() == 0 {
        Seq::empty()
    } else {
        row_ones(row.drop_last()) + match row.last() {
            Some(x) => seq![(x, Coefficient { num: 1, den: 1 })],
            None => Seq::empty(),
        }
    }
}

/// The variables of the rows of `block`, each with weight 1.
pub open spec fn block_ones(block: Seq<Seq<Option<usize>>>) -> Seq<(usize, Coefficient)>
    decreases block.len(),
{
    if block.len() == 0 {
        Seq::empty()
    } else {
        block_ones(block.drop_last()) + row_ones(block.last())
    }
}

/// The variables of `c` in the order of the indices, each with weight 1.
pub open spec fn cube_ones(c: Cube) -> Seq<(usize, Coefficient)>
    decreases c.len(),
{
    if c.len() == 0 {
        Seq::empty()
    } else {
        cube_ones(c.drop_last()) + block_ones(c.last())
    }
}

/// Creates a variable for each entry, instructor among its visitors and
/// allowed start time on the grid (`visit_wanted`), numbered in that order
/// from `vars.len()` on, each of kind `BinaryFrom(false)` and with weight 1
/// in `objective`. Returns the variables by entry, instructor and grid
/// position.
pub fn create_slot_visitor_variables(
    fractivity_entries: &Vec<Entry>,
    all_instructors: &Vec<u128>,
    first_start: i32,
    num_starts: i32,
    vars: &mut Vec<VarKind>,
    objective: &mut Vec<(usize, Coefficient)>,
) -> (v: Vec<Vec<Vec<Option<usize>>>>)
    requires
        grid_fits(first_start, num_starts),
        old(vars)@.len() + fractivity_entries@.len() * all_instructors@.len() * grid_len(num_starts) < usize::MAX,
    ensures
        ({
            let n = fractivity_entries@.len();
            let sl = grid_len(num_starts);
            let ni = all_instructors@.len();
            let lo = old(vars)@.len() as int;
            let hi = final(vars)@.len() as int;
            &&& v@.len() == n
            &&& forall|a: int| 0 <= a < n ==> (#[trigger] v@[a])@.len() == ni
            &&& forall|a: int, i: int| 0 <= a < n && 0 <= i < ni ==> (#[trigger] v@[a]@[i])@.len() == sl
            &&& forall|a: int, i: int, s: int|
                0 <= a < n && 0 <= i < ni && 0 <= s < sl ==> ((#[trigger] v@[a]@[i]@[s]) is Some
                    <==> visit_wanted(fractivity_entries@[a], all_instructors@[i], grid_time(first_start, s)))
            &&& cube_numbered(cube(v@), lo, hi)
            &&& hi - lo <= n * ni * sl
            &&& final(vars)@.subrange(0, lo) == old(vars)@
            &&& forall|a: int, i: int, s: int|
                #[trigger] cell_in(cube(v@), a, i, s) ==> final(vars)@[cube(v@)[a][i][s]->0 as int]
                    == VarKind::BinaryFrom(false)
            &&& final(objective)@ == old(objective)@ + cube_ones(cube(v@))
        }),
{
    let n = fractivity_entries.len();
    let ni = all_instructors.len();
    let ghost sl = grid_len(num_starts);
    let ghost lo = vars@.len() as int;
    let ghost obj0 = objective@;
    let ghost es = fractivity_entries@;
    let ghost ins = all_instructors@;
    let kind = VarKind::BinaryFrom(false);
    let mut v: Vec<Vec<Vec<Option<usize>>>> = Vec::new();
    proof {
        assert(cube(v@) =~= Seq::empty());
        assert(vars@.subrange(0, lo) =~= old(vars)@);
        assert(objective@ =~= obj0 + cube_ones(cube(v@)));
        assert(n * ni * sl >= 0) by (nonlinear_arith)
            requires n >= 0, sl >= 0, ni >= 0;
    }
    let mut a: usize = 0;
    while a < n
        invariant
            a <= n,
            n == es.len(),
            ni == ins.len(),
            es == fractivity_entries@,
            ins == all_instructors@,
            kind == VarKind::BinaryFrom(false),
            sl == grid_len(num_starts),
            grid_fits(first_start, num_starts),
            0 <= lo <= vars@.len(),
            vars@.len() - lo <= a * ni * sl,
            lo + n * ni * sl < usize::MAX,
            v@.len() == a,
            forall|b: int| 0 <= b < a ==> (#[trigger] v@[b])@.len() == ni,
            forall|b: int, i: int| 0 <= b < a && 0 <= i < ni ==> (#[trigger] v@[b]@[i])@.len() == sl,
            forall|b: int, i: int, s: int|
                0 <= b < a && 0 <= i < ni && 0 <= s < sl ==> ((#[trigger] v@[b]@[i]@[s]) is Some
                    <==> visit_wanted(es[b], ins[i], grid_time(first_start, s))),
            cube_numbered(cube(v@), lo, vars@.len() as int),
            vars@.subrange(0, lo) == old(vars)@,
            forall|b: int, i: int, s: int|
                #[trigger] cell_in(cube(v@), b, i, s) ==> vars@[cube(v@)[b][i][s]->0 as int] == kind,
            objective@ == obj0 + cube_ones(cube(v@)),
        decreases n - a,
    {
        let e = &fractivity_entries[a];
        let ghost c0 = cube(v@);
        let ghost v0 = vars@.len() as int;
        let ghost ob0 = objective@;
        proof {
            lemma_cube_new_block(c0, lo, v0);
            assert(v0 + ni * sl <= lo + (a + 1) * ni * sl) by (nonlinear_arith)
                requires v0 - lo <= a * ni * sl, sl >= 0, ni >= 0;
            assert(lo + (a + 1) * ni * sl <= lo + n * ni * sl) by (nonlinear_arith)
                requires a + 1 <= n, sl >= 0, ni >= 0;
        }
        let mut va: Vec<Vec<Option<usize>>> = Vec::new();
        proof {
            assert(grid(va@) =~= Seq::<Seq<Option<usize>>>::empty());
            let c1 = c0.push(grid(va@));
            assert forall|b: int, t: int, q: int| #[trigger] cell_in(c1, b, t, q)
                implies vars@[c1[b][t][q]->0 as int] == kind by {
                assert(c1[b] == c0[b]);
                assert(cell_in(c0, b, t, q));
            }
        }
        let mut i: usize = 0;
        while i < ni
            invariant
                i <= ni,
                a < n,
                n == es.len(),
                ni == ins.len(),
                es == fractivity_entries@,
                ins == all_instructors@,
                *e == es[a as int],
                kind == VarKind::BinaryFrom(false),
                sl == grid_len(num_starts),
                grid_fits(first_start, num_starts),
                va@.len() == i,
                0 <= lo <= v0 <= vars@.len(),
                vars@.len() - v0 <= i * sl,
                v0 + ni * sl < usize::MAX,
                forall|t: int| 0 <= t < i ==> (#[trigger] va@[t])@.len() == sl,
                forall|t: int, s: int|
                    0 <= t < i && 0 <= s < sl ==> ((#[trigger] va@[t]@[s]) is Some
                        <==> visit_wanted(es[a as int], ins[t], grid_time(first_start, s))),
                cube_numbered(c0.push(grid(va@)), lo, vars@.len() as int),
                vars@.subrange(0, lo) == old(vars)@,
                forall|b: int, t: int, q: int|
                    #[trigger] cell_in(c0.push(grid(va@)), b, t, q)
                        ==> vars@[c0.push(grid(va@))[b][t][q]->0 as int] == kind,
                c0.len() == a,
                objective@ == ob0 + block_ones(grid(va@)),
            decreases ni - i,
        {
            let id = all_instructors[i];
            let visits = contains_id(&e.0.visitor_extension_uuids, id);
            let ghost blk = grid(va@);
            let ghost c1 = c0.push(blk);
            let ghost v1 = vars@.len() as int;
            let ghost ob1 = objective@;
            proof {
                lemma_cube_new_row(c1, lo, v1);
                assert(cube_new_row(c1) =~= c0.push(blk.push(Seq::empty())));
                assert(v1 + sl <= v0 + (i + 1) * sl) by (nonlinear_arith)
                    requires v1 - v0 <= i * sl, sl >= 0;
                assert(v0 + (i + 1) * sl <= v0 + ni * sl) by (nonlinear_arith)
                    requires i + 1 <= ni, sl >= 0;
            }
            let mut vi: Vec<Option<usize>> = Vec::new();
            proof {
                assert(blk.push(vi@) =~= blk.push(Seq::empty()));
                let c2 = c0.push(blk.push(vi@));
                assert forall|b: int, t: int, q: int| #[trigger] cell_in(c2, b, t, q)
                    implies vars@[c2[b][t][q]->0 as int] == kind by {
                    if b == a {
                        assert(c2[b] == blk.push(vi@));
                        assert(t < blk.len());
                        assert(c2[b][t] == c1[b][t]);
                    } else {
                        assert(c2[b] == c1[b]);
                    }
                    assert(cell_in(c1, b, t, q));
                }
            }
            let mut s: i32 = 0;
            while s < num_starts
                invariant
                    0 <= s,
                    s <= num_starts || num_starts <= 0,
                    num_starts <= 0 ==> s == 0,
                    a < n,
                    i < ni,
                    n == es.len(),
                    ni == ins.len(),
                    es == fractivity_entries@,
                    ins == all_instructors@,
                    *e == es[a as int],
                    id == ins[i as int],
                    visits == es[a as int].0.visitor_extension_uuids@.contains(id),
                    kind == VarKind::BinaryFrom(false),
                    sl == grid_len(num_starts),
                    grid_fits(first_start, num_starts),
                    vi@.len() == s,
                    0 <= lo <= v1 <= vars@.len() <= v1 + s,
                    v1 + sl < usize::MAX,
                    forall|k: int| 0 <= k < s ==> ((#[trigger] vi@[k]) is Some
                        <==> visit_wanted(es[a as int], id, grid_time(first_start, k))),
                    cube_numbered(c0.push(blk.push(vi@)), lo, vars@.len() as int),
                    vars@.subrange(0, lo) == old(vars)@,
                    forall|b: int, t: int, q: int|
                        #[trigger] cell_in(c0.push(blk.push(vi@)), b, t, q)
                            ==> vars@[c0.push(blk.push(vi@))[b][t][q]->0 as int] == kind,
                    c0.len() == a,
                    objective@ == ob1 + row_ones(vi@),
                decreases num_starts - s,
            {
                let cur_start = first_start + 15 * s;
                let wanted = visits && contains_time(&e.0.allowed_starts, cur_start);
                let ghost c2 = c0.push(blk.push(vi@));
                let ghost prev_vi = vi@;
                let ghost prev_vars = vars@;
                if wanted {
                    let var = vars.len();
                    vars.push(kind);
                    vi.push(Some(var));
                    objective.push((var, Coefficient { num: 1, den: 1 }));
                    proof {
                        lemma_cube_push_some(c2, lo, var as int);
                        assert(cube_push(c2, Some(var)) =~~= c0.push(blk.push(vi@)));
                        lemma_prefix_push(prev_vars, kind, lo);
                        let c3 = c0.push(blk.push(vi@));
                        assert forall|b: int, t: int, q: int| #[trigger] cell_in(c3, b, t, q)
                            implies vars@[c3[b][t][q]->0 as int] == kind by {
                            if b == a && t == blk.len() && q == s {
                                assert(c3[b][t][q] == Some(var));
                            } else {
                                assert(cell_in(c2, b, t, q));
                                if b == a && t == blk.len() {
                                    assert(c3[b][t][q] == c2[b][t][q]);
                                } else if b == a {
                                    assert(c3[b][t] == c2[b][t]);
                                } else {
                                    assert(c3[b] == c2[b]);
                                }
                                assert(c2[b][t][q]->0 < var);
                            }
                        }
                        assert(vi@.drop_last() =~= prev_vi);
                    }
                } else {
                    vi.push(None);
                    proof {
                        lemma_cube_push_none(c2, lo, vars@.len() as int);
                        assert(cube_push(c2, None) =~~= c0.push(blk.push(vi@)));
                        let c3 = c0.push(blk.push(vi@));
                        assert forall|b: int, t: int, q: int| #[trigger] cell_in(c3, b, t, q)
                            implies vars@[c3[b][t][q]->0 as int] == kind by {
                            assert(cell_in(c2, b, t, q));
                            if b == a && t == blk.len() {
                                assert(c3[b][t][q] == c2[b][t][q]);
                            } else if b == a {
                                assert(c3[b][t] == c2[b][t]);
                            } else {
                                assert(c3[b] == c2[b]);
                            }
                        }
                        assert(vi@.drop_last() =~= prev_vi);
                    }
                }
                s = s + 1;
            }
            let ghost prev_blk = blk;
            va.push(vi);
            proof {
                let blk2 = grid(va@);
                assert(blk2 =~= prev_blk.push(vi@));
                assert(blk2.drop_last() =~= prev_blk);
            }
            i = i + 1;
        }
        v.push(va);
        proof {
            assert(cube(v@) =~= c0.push(grid(va@)));
            assert(cube(v@).drop_last() =~= c0);
        }
        a = a + 1;
    }
    v
}

/// The objective weight of `b[t][k]` in a distribution: `-k / (2 den)`.
pub open spec fn slot_parallel_weight(k: int, den: nat) -> Coefficient {
    Coefficient { num: -k as i128, den: (2 * den) as u128 }
}

/// Creates variables `b[t][k]` of kind `BinaryFrom(true)` for each grid
/// position `t` and each `k` below the largest number of activities that
/// can run in parallel (entries or rooms, whichever is fewer), numbered in
/// that order from `vars.len()` on; each is added to `objective` with
/// weight `-k / (2 den)`.
pub fn create_slot_parallel_variables(
    fractivity_entries: &Vec<Entry>,
    all_rooms: &Vec<FractivityRoom>,
    num_starts: i32,
    den: usize,
    vars: &mut Vec<VarKind>,
    objective: &mut Vec<(usize, Coefficient)>,
) -> (b: Vec<Vec<usize>>)
    requires
        old(vars)@.len() + grid_len(num_starts) * max_parallel(
            fractivity_entries@.len(),
            all_rooms@.len(),
        ) < usize::MAX,
    ensures
        ({
            let mp = max_parallel(fractivity_entries@.len(), all_rooms@.len());
            let sl = grid_len(num_starts);
            let lo = old(vars)@.len() as int;
            let ob = old(objective)@.len() as int;
            &&& b@.len() == sl
            &&& forall|t: int| 0 <= t < sl ==> (#[trigger] b@[t])@.len() == mp
            &&& final(vars)@.len() == lo + sl * mp
            &&& final(vars)@.subrange(0, lo) == old(vars)@
            &&& forall|j: int| lo <= j < lo + sl * mp ==> #[trigger] final(vars)@[j] == VarKind::BinaryFrom(true)
            &&& final(objective)@.len() == ob + sl * mp
            &&& final(objective)@.subrange(0, ob) == old(objective)@
            &&& forall|t: int, k: int|
                0 <= t < sl && 0 <= k < mp ==> #[trigger] b@[t]@[k] == lo + t * mp + k
                    && final(objective)@[ob + t * mp + k] == (
                    b@[t]@[k],
                    slot_parallel_weight(k, den as nat),
                )
        }),
{
    let n = fractivity_entries.len();
    let nr = all_rooms.len();
    let max_parallel = if n < nr {
        n
    } else {
        nr
    };
    let ghost sl = grid_len(num_starts);
    let ghost lo = vars@.len() as int;
    let ghost ob = objective@.len() as int;
    let mut b: Vec<Vec<usize>> = Vec::new();
    proof {
        assert(objective@.subrange(0, ob) =~= old(objective)@);
    }
    let mut t: i32 = 0;
    while t < num_starts
        invariant
            0 <= t,
            t <= num_starts || num_starts <= 0,
            num_starts <= 0 ==> t == 0,
            sl == grid_len(num_starts),
            max_parallel == crate::lp::variables::max_parallel(n as nat, nr as nat),
            n == fractivity_entries@.len(),
            nr == all_rooms@.len(),
            lo + sl * max_parallel < usize::MAX,
            b@.len() == t,
            vars@.len() == lo + t * max_parallel,
            vars@.subrange(0, lo) == old(vars)@,
            forall|j: int| lo <= j < vars@.len() ==> #[trigger] vars@[j] == VarKind::BinaryFrom(true),
            0 <= lo,
            objective@.len() == ob + t * max_parallel,
            objective@.subrange(0, ob) == old(objective)@,
            ob == old(objective)@.len(),
            forall|u: int| 0 <= u < t ==> (#[trigger] b@[u])@.len() == max_parallel,
            forall|u: int, k: int|
                0 <= u < t && 0 <= k < max_parallel ==> #[trigger] b@[u]@[k] == lo + u * max_parallel + k
                    && objective@[ob + u * max_parallel + k] == (
                    b@[u]@[k],
                    slot_parallel_weight(k, den as nat),
                ),
        decreases num_starts - t,
    {
        proof {
            assert(t + 1 <= sl);
            assert((t + 1) * max_parallel <= sl * max_parallel) by (nonlinear_arith)
                requires t + 1 <= sl, max_parallel >= 0;
            assert((t + 1) * max_parallel == t * max_parallel + max_parallel) by (nonlinear_arith);
        }
        let mut bt: Vec<usize> = Vec::new();
        let ghost obj0 = objective@;
        let mut k: usize = 0;
        while k < max_parallel
            invariant
                k <= max_parallel,
                bt@.len() == k,
                vars@.len() == lo + t * max_parallel + k,
                vars@.subrange(0, lo) == old(vars)@,
                forall|j: int| lo <= j < vars@.len() ==> #[trigger] vars@[j] == VarKind::BinaryFrom(true),
                0 <= lo,
                lo + t * max_parallel + max_parallel < usize::MAX,
                objective@.len() == ob + t * max_parallel + k,
                objective@.subrange(0, ob + t * max_parallel) == obj0,
                obj0.len() == ob + t * max_parallel,
                ob >= 0,
                t >= 0,
                max_parallel >= 0,
                forall|j: int| 0 <= j < k ==> #[trigger] bt@[j] == lo + t * max_parallel + j
                    && objective@[ob + t * max_parallel + j] == (bt@[j], slot_parallel_weight(j, den as nat)),
            decreases max_parallel - k,
        {
            let btk = vars.len();
            let ghost prev_vars = vars@;
            vars.push(VarKind::BinaryFrom(true));
            proof {
                lemma_prefix_push(prev_vars, VarKind::BinaryFrom(true), lo);
            }
            let w = Coefficient { num: -(k as i128), den: 2 * (den as u128) };
            let ghost prev_obj = objective@;
            objective.push((btk, w));
            proof {
                assert(t * max_parallel >= 0) by (nonlinear_arith)
                    requires t >= 0, max_parallel >= 0;
                lemma_prefix_push(prev_obj, (btk, w), ob + t * max_parallel);
            }
            bt.push(btk);
            k = k + 1;
        }
        let ghost prev_b = b@;
        b.push(bt);
        proof {
            assert(t * max_parallel >= 0) by (nonlinear_arith)
                requires t >= 0, max_parallel >= 0;
            assert(objective@.subrange(0, ob) =~= obj0.subrange(0, ob));
            assert forall|u: int, j: int|
                0 <= u < t + 1 && 0 <= j < max_parallel implies #[trigger] b@[u]@[j] == lo + u * max_parallel + j
                    && objective@[ob + u * max_parallel + j] == (
                    b@[u]@[j],
                    slot_parallel_weight(j, den as nat),
                ) by {
                if u < t {
                    assert(b@[u] == prev_b[u]);
                    assert(u * max_parallel + j < t * max_parallel) by (nonlinear_arith)
                        requires u < t, j < max_parallel, 0 <= j, 0 <= u;
                    assert(objective@.subrange(0, ob + t * max_parallel)[ob + u * max_parallel + j] == obj0[ob + u * max_parallel + j]);
                } else {
                    assert(b@[u]@ == bt@);
                }
            }
        }
        t = t + 1;
    }
    b
}

} // verus!
