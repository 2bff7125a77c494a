//! The variables of the distribution programs and their objective terms.
use vstd::prelude::*;

use super::{contains_id, contains_time, grid_time, FractivityEntry, FractivityRoom};
use super::model::{
    lemma_numbered_new_row, lemma_numbered_push_none, lemma_numbered_push_some,
    numbered, Coefficient, VarPool,
};

verus! {

/// An entry with its optional fixed room and start time.
pub type Entry = (FractivityEntry, Option<(u128, i32)>);

/// The rows of a table of optional variables.
pub open spec fn grid(v: Seq<Vec<Option<usize>>>) -> Seq<Seq<Option<usize>>> {
    v.map_values(|r: Vec<Option<usize>>| r@)
}

/// The rows of start and room variables in order of creation: for each
/// entry its start row, then its room row.
pub open spec fn fractivity_rows(
    starts: Seq<Seq<Option<usize>>>,
    rooms: Seq<Seq<Option<usize>>>,
) -> Seq<Seq<Option<usize>>> {
    Seq::new(
        2 * starts.len(),
        |k: int|
            if k % 2 == 0 {
                starts[k / 2]
            } else {
                rooms[k / 2]
            },
    )
}

/// The number of grid positions: `num_starts`, or none when it is not
/// positive.
pub open spec fn grid_len(num_starts: i32) -> nat {
    if num_starts > 0 {
        num_starts as nat
    } else {
        0
    }
}

/// All grid times fit in `i32`.
pub open spec fn grid_fits(first_start: i32, num_starts: i32) -> bool {
    num_starts > 0 ==> grid_time(first_start, num_starts - 1) <= i32::MAX && 15 * (num_starts - 1)
        <= i32::MAX
}

/// The entry gets a variable for starting at time `t`: its fixed time, or
/// one of its allowed start times.
pub open spec fn start_var_wanted(e: Entry, t: int) -> bool {
    match e.1 {
        Some(fixed) => t == fixed.1,
        None => exists|k: int| 0 <= k < e.0.allowed_starts@.len() && e.0.allowed_starts@[k] == t,
    }
}

/// The entry gets a variable for taking place in the room `id`: its fixed
/// room, or one of its allowed rooms.
pub open spec fn room_var_wanted(e: Entry, id: u128) -> bool {
    match e.1 {
        Some(fixed) => id == fixed.0,
        None => e.0.allowed_rooms@.contains(id),
    }
}

/// The objective weight of the start and room variables of an entry: larger
/// for entries with a fixed room and time.
pub open spec fn placement_weight(n: nat, instructors: nat, fixed: bool) -> Coefficient {
    if fixed {
        Coefficient { num: (n * n * instructors) as i128, den: 1 }
    } else {
        Coefficient { num: (n * instructors) as i128, den: 1 }
    }
}

/// `terms` extends `old` by one term per variable numbered from `lo` on.
pub open spec fn objective_extends(
    old: Seq<(usize, Coefficient)>,
    terms: Seq<(usize, Coefficient)>,
    lo: int,
    hi: int,
) -> bool {
    &&& terms.len() == old.len() + (hi - lo)
    &&& terms.subrange(0, old.len() as int) == old
}

/// Appending keeps every prefix.
pub proof fn lemma_prefix_push<T>(prev: Seq<T>, x: T, m: int)
    requires
        0 <= m <= prev.len(),
    ensures
        prev.push(x).subrange(0, m) == prev.subrange(0, m),
{
    assert(prev.push(x).subrange(0, m) =~= prev.subrange(0, m));
}

/// Creates a binary variable for each allowed start time (on the grid of
/// `num_starts` positions from `first_start`) and each allowed room of each
/// entry, and adds each to `objective` with the entry's placement weight.
/// Returns the start and room variables per entry.
pub fn create_fractivity_variables(
    fractivity_entries: &Vec<Entry>,
    all_rooms: &Vec<FractivityRoom>,
    all_instructors: &Vec<u128>,
    first_start: i32,
    num_starts: i32,
    all_vars: &mut VarPool,
    objective: &mut Vec<(usize, Coefficient)>,
) -> (res: (Vec<Vec<Option<usize>>>, Vec<Vec<Option<usize>>>))
    requires
        grid_fits(first_start, num_starts),
        fractivity_entries@.len() * fractivity_entries@.len() <= usize::MAX,
        fractivity_entries@.len() * fractivity_entries@.len() * all_instructors@.len()
            <= usize::MAX,
        old(all_vars).count + fractivity_entries@.len() * (grid_len(num_starts)
            + all_rooms@.len()) < usize::MAX,
    ensures
        ({
            let (starts, rooms) = res;
            let n = fractivity_entries@.len();
            let lo = old(all_vars).count as int;
            let hi = final(all_vars).count as int;
            let ob = old(objective)@.len() as int;
            &&& starts@.len() == n
            &&& rooms@.len() == n
            &&& forall|a: int|
                0 <= a < n ==> (#[trigger] starts@[a])@.len() == grid_len(num_starts)
                    && rooms@[a]@.len() == all_rooms@.len()
            &&& forall|a: int, s: int|
                0 <= a < n && 0 <= s < grid_len(num_starts) ==> ((#[trigger] starts@[a]@[s]) is Some
                    <==> start_var_wanted(fractivity_entries@[a], grid_time(first_start, s)))
            &&& forall|a: int, r: int|
                0 <= a < n && 0 <= r < all_rooms@.len() ==> ((#[trigger] rooms@[a]@[r]) is Some
                    <==> room_var_wanted(fractivity_entries@[a], all_rooms@[r].id))
            &&& numbered(fractivity_rows(grid(starts@), grid(rooms@)), lo, hi)
            &&& hi - lo <= n * (grid_len(num_starts) + all_rooms@.len())
            &&& objective_extends(old(objective)@, final(objective)@, lo, hi)
            &&& forall|a: int, s: int|
                0 <= a < n && 0 <= s < grid_len(num_starts) && (#[trigger] starts@[a]@[s]) is Some
                    ==> final(objective)@[ob + starts@[a]@[s]->0 - lo] == (
                    starts@[a]@[s]->0,
                    placement_weight(n, all_instructors@.len(), fractivity_entries@[a].1 is Some),
                )
            &&& forall|a: int, r: int|
                0 <= a < n && 0 <= r < all_rooms@.len() && (#[trigger] rooms@[a]@[r]) is Some
                    ==> final(objective)@[ob + rooms@[a]@[r]->0 - lo] == (
                    rooms@[a]@[r]->0,
                    placement_weight(n, all_instructors@.len(), fractivity_entries@[a].1 is Some),
                )
        }),
{
    let n = fractivity_entries.len();
    let ni = all_instructors.len();
    let nr = all_rooms.len();
    let ghost sl = grid_len(num_starts);
    let ghost lo = all_vars.count as int;
    let ghost ob = objective@.len() as int;
    let mut starts: Vec<Vec<Option<usize>>> = Vec::new();
    let mut rooms: Vec<Vec<Option<usize>>> = Vec::new();
    proof {
        assert(fractivity_rows(grid(starts@), grid(rooms@)) =~= Seq::empty());
        vstd::arithmetic::mul::lemma_mul_is_associative(n as int, n as int, ni as int);
        assert(n * ni <= n * n * ni || n == 0) by (nonlinear_arith)
            requires n * n * ni <= usize::MAX, n >= 0, ni >= 0;
        assert(objective@.subrange(0, ob) =~= old(objective)@);
        assert(n * ni <= usize::MAX) by (nonlinear_arith)
            requires n * n * ni <= usize::MAX, n * n <= usize::MAX, n >= 0, ni >= 0;
    }
    let fixed_weight = Coefficient { num: (n * n * ni) as i128, den: 1 };
    let free_weight = Coefficient { num: (n * ni) as i128, den: 1 };
    let mut ai: usize = 0;
    while ai < n
        invariant
            ai <= n,
            n == fractivity_entries@.len(),
            ni == all_instructors@.len(),
            nr == all_rooms@.len(),
            sl == grid_len(num_starts),
            grid_fits(first_start, num_starts),
            fixed_weight == placement_weight(n as nat, ni as nat, true),
            free_weight == placement_weight(n as nat, ni as nat, false),
            lo <= all_vars.count,
            all_vars.count - lo <= ai * (sl + nr),
            lo + n * (sl + nr) < usize::MAX,
            starts@.len() == ai,
            rooms@.len() == ai,
            forall|a: int|
                0 <= a < ai ==> (#[trigger] starts@[a])@.len() == sl && rooms@[a]@.len() == nr,
            forall|a: int, s: int|
                0 <= a < ai && 0 <= s < sl ==> ((#[trigger] starts@[a]@[s]) is Some <==> start_var_wanted(
                    fractivity_entries@[a],
                    grid_time(first_start, s),
                )),
            forall|a: int, r: int|
                0 <= a < ai && 0 <= r < nr ==> ((#[trigger] rooms@[a]@[r]) is Some <==> room_var_wanted(
                    fractivity_entries@[a],
                    all_rooms@[r].id,
                )),
            numbered(fractivity_rows(grid(starts@), grid(rooms@)), lo, all_vars.count as int),
            objective_extends(old(objective)@, objective@, lo, all_vars.count as int),
            forall|a: int, s: int|
                0 <= a < ai && 0 <= s < sl && (#[trigger] starts@[a]@[s]) is Some ==> objective@[ob
                    + starts@[a]@[s]->0 - lo] == (
                    starts@[a]@[s]->0,
                    placement_weight(n as nat, ni as nat, fractivity_entries@[a].1 is Some),
                ),
            forall|a: int, r: int|
                0 <= a < ai && 0 <= r < nr && (#[trigger] rooms@[a]@[r]) is Some ==> objective@[ob
                    + rooms@[a]@[r]->0 - lo] == (
                    rooms@[a]@[r]->0,
                    placement_weight(n as nat, ni as nat, fractivity_entries@[a].1 is Some),
                ),
            ob == old(objective)@.len(),
        decreases n - ai,
    {
        let e = &fractivity_entries[ai];
        let weight = match e.1 {
            Some(_) => fixed_weight,
            None => free_weight,
        };
        let ghost rows0 = fractivity_rows(grid(starts@), grid(rooms@));
        let ghost c0 = all_vars.count as int;
        let ghost obj0 = objective@;
        proof {
            lemma_numbered_new_row(rows0, lo, c0);
            assert(c0 + sl + nr <= lo + (ai + 1) * (sl + nr)) by (nonlinear_arith)
                requires c0 - lo <= ai * (sl + nr), sl >= 0, nr >= 0;
            assert(lo + (ai + 1) * (sl + nr) <= lo + n * (sl + nr)) by (nonlinear_arith)
                requires ai + 1 <= n, sl >= 0, nr >= 0;
        }
        let mut st: Vec<Option<usize>> = Vec::new();
        let mut s: i32 = 0;
        while s < num_starts
            invariant
                0 <= s,
                s <= num_starts || num_starts <= 0,
                num_starts <= 0 ==> s == 0,
                sl == grid_len(num_starts),
                s as int == st@.len(),
                grid_fits(first_start, num_starts),
                lo <= c0 <= all_vars.count <= c0 + s,
                c0 + sl + nr < usize::MAX,
                numbered(rows0.push(st@), lo, all_vars.count as int),
                forall|k: int| 0 <= k < s ==> ((#[trigger] st@[k]) is Some <==> start_var_wanted(*e, grid_time(first_start, k))),
                objective_extends(old(objective)@, objective@, lo, all_vars.count as int),
                forall|k: int|
                    0 <= k < s && (#[trigger] st@[k]) is Some ==> objective@[ob + st@[k]->0 - lo] == (st@[k]->0, weight),
                objective@.subrange(0, ob + c0 - lo) == obj0,
                ob == old(objective)@.len(),
            decreases num_starts - s,
        {
            let cur_start = first_start + 15 * s;
            let mut res: Option<usize> = None;
            let wanted = match e.1 {
                Some((_, start)) => cur_start == start,
                None => contains_time(&e.0.allowed_starts, cur_start),
            };
            let ghost prev_obj = objective@;
            assert(prev_obj.len() >= ob + c0 - lo);
            if wanted {
                let v = all_vars.add();
                objective.push((v, weight));
                res = Some(v);
                proof {
                    lemma_prefix_push(prev_obj, (v, weight), ob + c0 - lo);
                    lemma_prefix_push(prev_obj, (v, weight), ob);
                }
            }
            let ghost prev_st = st@;
            st.push(res);
            proof {
                let rows1 = rows0.push(prev_st);
                assert(rows0.push(st@) =~= rows1.update(rows1.len() - 1, rows1.last().push(res)));
                if wanted {
                    lemma_numbered_push_some(rows1, lo, all_vars.count - 1);
                } else {
                    lemma_numbered_push_none(rows1, lo, all_vars.count as int);
                }
            }
            s = s + 1;
        }
        proof {
            assert(st@.len() == sl);
        }
        let mut room: Vec<Option<usize>> = Vec::new();
        let mut r: usize = 0;
        let ghost rows1 = rows0.push(st@);
        let ghost c1 = all_vars.count as int;
        let ghost obj1 = objective@;
        proof {
            lemma_numbered_new_row(rows1, lo, c1);
        }
        while r < nr
            invariant
                r <= nr,
                nr == all_rooms@.len(),
                r == room@.len(),
                lo <= c1 <= all_vars.count <= c1 + r,
                c1 + nr < usize::MAX,
                numbered(rows1.push(room@), lo, all_vars.count as int),
                forall|k: int| 0 <= k < r ==> ((#[trigger] room@[k]) is Some <==> room_var_wanted(*e, all_rooms@[k].id)),
                objective_extends(old(objective)@, objective@, lo, all_vars.count as int),
                forall|k: int|
                    0 <= k < r && (#[trigger] room@[k]) is Some ==> objective@[ob + room@[k]->0 - lo] == (room@[k]->0, weight),
                objective@.subrange(0, ob + c1 - lo) == obj1,
                ob == old(objective)@.len(),
            decreases nr - r,
        {
            let mut res: Option<usize> = None;
            let wanted = match e.1 {
                Some((id, _)) => id == all_rooms[r].id,
                None => contains_id(&e.0.allowed_rooms, all_rooms[r].id),
            };
            let ghost prev_obj = objective@;
            assert(prev_obj.len() >= ob + c1 - lo);
            if wanted {
                let v = all_vars.add();
                objective.push((v, weight));
                res = Some(v);
                proof {
                    lemma_prefix_push(prev_obj, (v, weight), ob + c1 - lo);
                    lemma_prefix_push(prev_obj, (v, weight), ob);
                }
            }
            let ghost prev_room = room@;
            room.push(res);
            proof {
                let rows2 = rows1.push(prev_room);
                assert(rows1.push(room@) =~= rows2.update(rows2.len() - 1, rows2.last().push(res)));
                if wanted {
                    lemma_numbered_push_some(rows2, lo, all_vars.count - 1);
                } else {
                    lemma_numbered_push_none(rows2, lo, all_vars.count as int);
                }
            }
            r = r + 1;
        }
        let ghost prev_starts = starts@;
        let ghost prev_rooms = rooms@;
        starts.push(st);
        rooms.push(room);
        proof {
            assert(fractivity_rows(grid(starts@), grid(rooms@)) =~= rows1.push(room@));
            assert forall|a: int, s: int|
                0 <= a < ai + 1 && 0 <= s < sl && (#[trigger] starts@[a]@[s]) is Some implies objective@[ob
                    + starts@[a]@[s]->0 - lo] == (
                    starts@[a]@[s]->0,
                    placement_weight(n as nat, ni as nat, fractivity_entries@[a].1 is Some),
                ) by {
                let x = starts@[a]@[s]->0;
                if a < ai {
                    assert(starts@[a] == prev_starts[a]);
                    assert(rows0[2 * a] == prev_starts[a]@);
                    assert(rows0[2 * a][s] is Some);
                    assert(x < c0);
                    assert(obj0[ob + x - lo] == (x, placement_weight(n as nat, ni as nat, fractivity_entries@[a].1 is Some)));
                    assert(obj1.subrange(0, ob + c0 - lo)[ob + x - lo] == obj0[ob + x - lo]);
                    assert(objective@.subrange(0, ob + c1 - lo)[ob + x - lo] == obj1[ob + x - lo]);
                } else {
                    assert(starts@[a]@ == st@);
                    assert(rows1[rows1.len() - 1] == st@);
                    assert(x < c1);
                    assert(objective@.subrange(0, ob + c1 - lo)[ob + x - lo] == obj1[ob + x - lo]);
                }
            }
            assert forall|a: int, r: int|
                0 <= a < ai + 1 && 0 <= r < nr && (#[trigger] rooms@[a]@[r]) is Some implies objective@[ob
                    + rooms@[a]@[r]->0 - lo] == (
                    rooms@[a]@[r]->0,
                    placement_weight(n as nat, ni as nat, fractivity_entries@[a].1 is Some),
                ) by {
                let x = rooms@[a]@[r]->0;
                if a < ai {
                    assert(rooms@[a] == prev_rooms[a]);
                    assert(rows0[2 * a + 1] == prev_rooms[a]@);
                    assert(rows0[2 * a + 1][r] == prev_rooms[a]@[r]);
                    assert(prev_rooms[a]@[r] == rooms@[a]@[r]);
                    assert(rows0[2 * a + 1][r] is Some);
                    assert(0 <= 2 * a + 1 < rows0.len());
                    assert(prev_starts[a]@.len() == sl);
                    assert(prev_rooms[a]@.len() == nr);
                    assert(x < c0);
                    assert(obj0[ob + x - lo] == (x, placement_weight(n as nat, ni as nat, fractivity_entries@[a].1 is Some)));
                    assert(obj1.subrange(0, ob + c0 - lo)[ob + x - lo] == obj0[ob + x - lo]);
                    assert(objective@.subrange(0, ob + c1 - lo)[ob + x - lo] == obj1[ob + x - lo]);
                } else {
                    assert(rooms@[a]@ == room@);
                }
            }
        }
        ai = ai + 1;
    }
    (starts, rooms)
}

/// The number of pairs `(a', b)` with `a' < a` and `a' < b < n`: pairs are
/// numbered by their first entry, then by their second.
pub open spec fn pairs_before(n: int, a: int) -> int
    decreases a,
{
    if a <= 0 {
        0
    } else {
        pairs_before(n, a - 1) + (n - a)
    }
}

/// The number of the pair of entries `a < b`.
pub open spec fn pair_index(n: int, a: int, b: int) -> int {
    pairs_before(n, a) + (b - a - 1)
}

/// Pair numbers grow with the first entry.
pub proof fn lemma_pairs_before_mono(n: int, a: int, b: int)
    requires
        0 <= a <= b <= n,
    ensures
        pairs_before(n, a) <= pairs_before(n, b),
        pairs_before(n, a) >= 0,
    decreases b,
{
    if b > a {
        lemma_pairs_before_mono(n, a, b - 1);
    } else if a > 0 {
        lemma_pairs_before_mono(n, a - 1, a - 1);
    }
}

/// Creates three binary variables for each pair of entries `a < b`: for an
/// overlap of instructors, an overlap of rooms, and any overlap.
pub fn create_fractivity_pair_variables(
    fractivity_entries: &Vec<Entry>,
    all_vars: &mut VarPool,
) -> (res: (Vec<usize>, Vec<usize>, Vec<usize>))
    requires
        old(all_vars).count + 3 * pairs_before(
            fractivity_entries@.len() as int,
            fractivity_entries@.len() as int,
        ) < usize::MAX,
    ensures
        ({
            let (io, ro, ao) = res;
            let n = fractivity_entries@.len() as int;
            let p = pairs_before(n, n);
            let lo = old(all_vars).count as int;
            &&& io@.len() == p
            &&& ro@.len() == p
            &&& ao@.len() == p
            &&& final(all_vars).count == lo + 3 * p
            &&& forall|q: int|
                0 <= q < p ==> #[trigger] io@[q] == lo + 3 * q && ro@[q] == lo + 3 * q + 1 && ao@[q]
                    == lo + 3 * q + 2
        }),
{
    let n = fractivity_entries.len();
    let ghost lo = all_vars.count as int;
    let ghost total = pairs_before(n as int, n as int);
    let mut instructor_overlap: Vec<usize> = Vec::new();
    let mut room_overlap: Vec<usize> = Vec::new();
    let mut any_overlap: Vec<usize> = Vec::new();
    let mut a: usize = 0;
    while a < n
        invariant
            a <= n,
            n == fractivity_entries@.len(),
            total == pairs_before(n as int, n as int),
            lo + 3 * total < usize::MAX,
            instructor_overlap@.len() == pairs_before(n as int, a as int),
            room_overlap@.len() == instructor_overlap@.len(),
            any_overlap@.len() == instructor_overlap@.len(),
            all_vars.count == lo + 3 * instructor_overlap@.len(),
            forall|q: int|
                0 <= q < instructor_overlap@.len() ==> #[trigger] instructor_overlap@[q] == lo + 3 * q
                    && room_overlap@[q] == lo + 3 * q + 1 && any_overlap@[q] == lo + 3 * q + 2,
        decreases n - a,
    {
        let mut b: usize = a + 1;
        proof {
            lemma_pairs_before_mono(n as int, a as int + 1, n as int);
        }
        while b < n
            invariant
                a < n,
                a + 1 <= b <= n,
                n == fractivity_entries@.len(),
                total == pairs_before(n as int, n as int),
                lo + 3 * total < usize::MAX,
                pairs_before(n as int, a as int + 1) <= total,
                instructor_overlap@.len() == pairs_before(n as int, a as int) + (b - a - 1),
                room_overlap@.len() == instructor_overlap@.len(),
                any_overlap@.len() == instructor_overlap@.len(),
                all_vars.count == lo + 3 * instructor_overlap@.len(),
                forall|q: int|
                    0 <= q < instructor_overlap@.len() ==> #[trigger] instructor_overlap@[q] == lo + 3
                        * q && room_overlap@[q] == lo + 3 * q + 1 && any_overlap@[q] == lo + 3 * q + 2,
            decreases n - b,
        {
            let i = all_vars.add();
            instructor_overlap.push(i);
            let r = all_vars.add();
            room_overlap.push(r);
            let o = all_vars.add();
            any_overlap.push(o);
            b = b + 1;
        }
        a = a + 1;
    }
    (instructor_overlap, room_overlap, any_overlap)
}

/// Creates a binary variable for each visitor `i` of each entry `a` (an
/// instructor of `all_instructors` among the entry's visitors), added to
/// `objective` with weight 1. Returns the variables per entry.
pub fn create_visitor_variables(
    fractivity_entries: &Vec<Entry>,
    all_instructors: &Vec<u128>,
    all_vars: &mut VarPool,
    objective: &mut Vec<(usize, Coefficient)>,
) -> (v: Vec<Vec<Option<usize>>>)
    requires
        old(all_vars).count + fractivity_entries@.len() * all_instructors@.len() < usize::MAX,
    ensures
        ({
            let n = fractivity_entries@.len();
            let lo = old(all_vars).count as int;
            let hi = final(all_vars).count as int;
            let ob = old(objective)@.len() as int;
            &&& v@.len() == n
            &&& forall|a: int| 0 <= a < n ==> (#[trigger] v@[a])@.len() == all_instructors@.len()
            &&& forall|a: int, i: int|
                0 <= a < n && 0 <= i < all_instructors@.len() ==> ((#[trigger] v@[a]@[i]) is Some
                    <==> fractivity_entries@[a].0.visitor_extension_uuids@.contains(all_instructors@[i]))
            &&& numbered(grid(v@), lo, hi)
            &&& objective_extends(old(objective)@, final(objective)@, lo, hi)
            &&& forall|a: int, i: int|
                0 <= a < n && 0 <= i < all_instructors@.len() && (#[trigger] v@[a]@[i]) is Some
                    ==> final(objective)@[ob + v@[a]@[i]->0 - lo] == (
                    v@[a]@[i]->0,
                    Coefficient { num: 1, den: 1 },
                )
        }),
{
    let n = fractivity_entries.len();
    let ni = all_instructors.len();
    let ghost lo = all_vars.count as int;
    let ghost ob = objective@.len() as int;
    let one = Coefficient { num: 1, den: 1 };
    let mut v: Vec<Vec<Option<usize>>> = Vec::new();
    proof {
        assert(grid(v@) =~= Seq::empty());
        assert(objective@.subrange(0, ob) =~= old(objective)@);
    }
    let mut a: usize = 0;
    while a < n
        invariant
            a <= n,
            n == fractivity_entries@.len(),
            ni == all_instructors@.len(),
            one == (Coefficient { num: 1, den: 1 }),
            lo <= all_vars.count,
            all_vars.count - lo <= a * ni,
            lo + n * ni < usize::MAX,
            v@.len() == a,
            forall|k: int| 0 <= k < a ==> (#[trigger] v@[k])@.len() == ni,
            forall|k: int, i: int|
                0 <= k < a && 0 <= i < ni ==> ((#[trigger] v@[k]@[i]) is Some
                    <==> fractivity_entries@[k].0.visitor_extension_uuids@.contains(all_instructors@[i])),
            numbered(grid(v@), lo, all_vars.count as int),
            objective_extends(old(objective)@, objective@, lo, all_vars.count as int),
            forall|k: int, i: int|
                0 <= k < a && 0 <= i < ni && (#[trigger] v@[k]@[i]) is Some ==> objective@[ob
                    + v@[k]@[i]->0 - lo] == (v@[k]@[i]->0, one),
            ob == old(objective)@.len(),
        decreases n - a,
    {
        let ghost rows0 = grid(v@);
        let ghost c0 = all_vars.count as int;
        let ghost obj0 = objective@;
        proof {
            lemma_numbered_new_row(rows0, lo, c0);
            assert(c0 + ni <= lo + (a + 1) * ni) by (nonlinear_arith)
                requires c0 - lo <= a * ni, ni >= 0;
            assert(lo + (a + 1) * ni <= lo + n * ni) by (nonlinear_arith)
                requires a + 1 <= n, ni >= 0;
        }
        let mut va: Vec<Option<usize>> = Vec::new();
        let mut i: usize = 0;
        while i < ni
            invariant
                i <= ni,
                ni == all_instructors@.len(),
                a < n,
                n == fractivity_entries@.len(),
                i == va@.len(),
                lo <= c0 <= all_vars.count <= c0 + i,
                c0 + ni < usize::MAX,
                numbered(rows0.push(va@), lo, all_vars.count as int),
                forall|k: int| 0 <= k < i ==> ((#[trigger] va@[k]) is Some <==> fractivity_entries@[a as int].0.visitor_extension_uuids@.contains(all_instructors@[k])),
                objective_extends(old(objective)@, objective@, lo, all_vars.count as int),
                forall|k: int|
                    0 <= k < i && (#[trigger] va@[k]) is Some ==> objective@[ob + va@[k]->0 - lo] == (va@[k]->0, one),
                objective@.subrange(0, ob + c0 - lo) == obj0,
                ob == old(objective)@.len(),
            decreases ni - i,
        {
            let mut res: Option<usize> = None;
            let wanted = contains_id(&fractivity_entries[a].0.visitor_extension_uuids, all_instructors[i]);
            let ghost prev_obj = objective@;
            assert(prev_obj.len() >= ob + c0 - lo);
            if wanted {
                let var = all_vars.add();
                objective.push((var, one));
                res = Some(var);
                proof {
                    lemma_prefix_push(prev_obj, (var, one), ob + c0 - lo);
                    lemma_prefix_push(prev_obj, (var, one), ob);
                }
            }
            let ghost prev_va = va@;
            va.push(res);
            proof {
                let rows1 = rows0.push(prev_va);
                assert(rows0.push(va@) =~= rows1.update(rows1.len() - 1, rows1.last().push(res)));
                if wanted {
                    lemma_numbered_push_some(rows1, lo, all_vars.count - 1);
                } else {
                    lemma_numbered_push_none(rows1, lo, all_vars.count as int);
                }
            }
            i = i + 1;
        }
        let ghost prev_v = v@;
        v.push(va);
        proof {
            assert(grid(v@) =~= rows0.push(va@));
            assert forall|k: int, j: int|
                0 <= k < a + 1 && 0 <= j < ni && (#[trigger] v@[k]@[j]) is Some implies objective@[ob
                    + v@[k]@[j]->0 - lo] == (v@[k]@[j]->0, one) by {
                let x = v@[k]@[j]->0;
                if k < a {
                    assert(v@[k] == prev_v[k]);
                    assert(rows0[k] == prev_v[k]@);
                    assert(prev_v[k]@.len() == ni);
                    assert(rows0[k][j] is Some);
                    assert(x < c0);
                    assert(objective@.subrange(0, ob + c0 - lo)[ob + x - lo] == obj0[ob + x - lo]);
                } else {
                    assert(v@[k]@ == va@);
                }
            }
        }
        a = a + 1;
    }
    v
}

/// Creates binary variables `b[t][k]` for each grid position `t` and each
/// `k` below the largest number of activities that can run in parallel
/// (entries or rooms, whichever is fewer); each is added to `objective`
/// with weight `-(k + 1) / (2 max_parallel)`.
pub fn create_parallel_variables(
    fractivity_entries: &Vec<Entry>,
    all_rooms: &Vec<FractivityRoom>,
    num_starts: i32,
    all_vars: &mut VarPool,
    objective: &mut Vec<(usize, Coefficient)>,
) -> (b: Vec<Vec<usize>>)
    requires
        old(all_vars).count + grid_len(num_starts) * max_parallel(
            fractivity_entries@.len(),
            all_rooms@.len(),
        ) < usize::MAX,
    ensures
        ({
            let mp = max_parallel(fractivity_entries@.len(), all_rooms@.len());
            let sl = grid_len(num_starts);
            let lo = old(all_vars).count as int;
            let ob = old(objective)@.len() as int;
            &&& b@.len() == sl
            &&& forall|t: int| 0 <= t < sl ==> (#[trigger] b@[t])@.len() == mp
            &&& final(all_vars).count == lo + sl * mp
            &&& final(objective)@.len() == ob + sl * mp
            &&& final(objective)@.subrange(0, ob) == old(objective)@
            &&& forall|t: int, k: int|
                0 <= t < sl && 0 <= k < mp ==> #[trigger] b@[t]@[k] == lo + t * mp + k
                    && final(objective)@[ob + t * mp + k] == (
                    b@[t]@[k],
                    parallel_weight(k, mp),
                )
        }),
{
    let n = fractivity_entries.len();
    let nr = all_rooms.len();
    let max_parallel = if n < nr {
        n
    } else {
        nr
    };
    let ghost sl = grid_len(num_starts);
    let ghost lo = all_vars.count as int;
    let ghost ob = objective@.len() as int;
    let mut b: Vec<Vec<usize>> = Vec::new();
    proof {
        assert(objective@.subrange(0, ob) =~= old(objective)@);
    }
    let mut t: i32 = 0;
    while t < num_starts
        invariant
            0 <= t,
            t <= num_starts || num_starts <= 0,
            num_starts <= 0 ==> t == 0,
            sl == grid_len(num_starts),
            max_parallel == crate::lp::variables::max_parallel(n as nat, nr as nat),
            n == fractivity_entries@.len(),
            nr == all_rooms@.len(),
            lo + sl * max_parallel < usize::MAX,
            b@.len() == t,
            all_vars.count == lo + t * max_parallel,
            objective@.len() == ob + t * max_parallel,
            objective@.subrange(0, ob) == old(objective)@,
            ob == old(objective)@.len(),
            forall|u: int| 0 <= u < t ==> (#[trigger] b@[u])@.len() == max_parallel,
            forall|u: int, k: int|
                0 <= u < t && 0 <= k < max_parallel ==> #[trigger] b@[u]@[k] == lo + u * max_parallel + k
                    && objective@[ob + u * max_parallel + k] == (
                    b@[u]@[k],
                    parallel_weight(k, max_parallel as nat),
                ),
        decreases num_starts - t,
    {
        proof {
            assert(t + 1 <= sl);
            assert((t + 1) * max_parallel <= sl * max_parallel) by (nonlinear_arith)
                requires t + 1 <= sl, max_parallel >= 0;
            assert((t + 1) * max_parallel == t * max_parallel + max_parallel) by (nonlinear_arith);
        }
        let mut bt: Vec<usize> = Vec::new();
        let ghost obj0 = objective@;
        let mut k: usize = 0;
        while k < max_parallel
            invariant
                k <= max_parallel,
                bt@.len() == k,
                all_vars.count == lo + t * max_parallel + k,
                lo + t * max_parallel + max_parallel < usize::MAX,
                objective@.len() == ob + t * max_parallel + k,
                objective@.subrange(0, ob + t * max_parallel) == obj0,
                obj0.len() == ob + t * max_parallel,
                ob >= 0,
                t >= 0,
                max_parallel >= 0,
                forall|j: int| 0 <= j < k ==> #[trigger] bt@[j] == lo + t * max_parallel + j
                    && objective@[ob + t * max_parallel + j] == (bt@[j], parallel_weight(j, max_parallel as nat)),
            decreases max_parallel - k,
        {
            let btk = all_vars.add();
            let w = Coefficient { num: -((k + 1) as i128), den: 2 * (max_parallel as u128) };
            let ghost prev_obj = objective@;
            objective.push((btk, w));
            proof {
                assert(t * max_parallel >= 0) by (nonlinear_arith)
                    requires t >= 0, max_parallel >= 0;
                lemma_prefix_push(prev_obj, (btk, w), ob + t * max_parallel);
            }
            bt.push(btk);
            k = k + 1;
        }
        let ghost prev_b = b@;
        b.push(bt);
        proof {
            assert(t * max_parallel >= 0) by (nonlinear_arith)
                requires t >= 0, max_parallel >= 0;
            assert(objective@.subrange(0, ob) =~= obj0.subrange(0, ob));
            assert forall|u: int, j: int|
                0 <= u < t + 1 && 0 <= j < max_parallel implies #[trigger] b@[u]@[j] == lo + u * max_parallel + j
                    && objective@[ob + u * max_parallel + j] == (
                    b@[u]@[j],
                    parallel_weight(j, max_parallel as nat),
                ) by {
                if u < t {
                    assert(b@[u] == prev_b[u]);
                    assert(u * max_parallel + j < t * max_parallel) by (nonlinear_arith)
                        requires u < t, j < max_parallel, 0 <= j, 0 <= u;
                    assert(objective@.subrange(0, ob + t * max_parallel)[ob + u * max_parallel + j] == obj0[ob + u * max_parallel + j]);
                } else {
                    assert(b@[u]@ == bt@);
                }
            }
        }
        t = t + 1;
    }
    b
}

/// The largest number of activities that can run in parallel: entries or
/// rooms, whichever is fewer.
pub open spec fn max_parallel(n: nat, rooms: nat) -> nat {
    if n < rooms {
        n
    } else {
        rooms
    }
}

/// The objective weight of `b[t][k]`: `-(k + 1) / (2 mp)`.
pub open spec fn parallel_weight(k: int, mp: nat) -> Coefficient {
    Coefficient { num: -(k + 1) as i128, den: (2 * mp) as u128 }
}

} // verus!
