//! Where a neighbour graph starts from: each node's nearest pivots, and a locality order
//! that wires a node to those around it.
use crate::order;
use crate::order::{key_of, sort_places};
use vstd::prelude::*;

verus! {

/// A pivot found near a node: the bits of its distance, its node, and its number.
#[derive(Clone, Copy, Debug, PartialEq, Eq, Structural)]
pub struct Pivot {
    pub distance: u32,
    pub node: i32,
    pub number: i32,
}

/// The node of pivot `number`, at most the last node.
pub open spec fn node_of(number: int, step: int, n: int) -> int {
    if number * step < n - 1 {
        number * step
    } else {
        n - 1
    }
}

/// What the first `j` entries of a search say: those that found a pivot other than the
/// node itself.
pub open spec fn found_pivots(
    numbers: Seq<i32>,
    distances: Seq<u32>,
    step: int,
    n: int,
    v: int,
    j: int,
) -> Seq<Pivot>
    decreases j,
{
    if j <= 0 {
        Seq::empty()
    } else {
        let rest = found_pivots(numbers, distances, step, n, v, j - 1);
        let number = numbers[j - 1];
        if number < 0 || node_of(number as int, step, n) == v {
            rest
        } else {
            rest.push(
                Pivot {
                    distance: distances[j - 1],
                    node: node_of(number as int, step, n) as i32,
                    number,
                },
            )
        }
    }
}

pub open spec fn pivot_distances(s: Seq<Pivot>) -> Seq<u32> {
    Seq::new(s.len(), |i: int| s[i].distance)
}

/// `r` is `s` by distance, nearest first, equal distances in their order.
pub open spec fn by_distance(s: Seq<Pivot>, r: Seq<Pivot>) -> bool {
    exists|p: Seq<usize>| #[trigger]
        order::stable_order(order::low_keys(pivot_distances(s)), p) && r == Seq::new(
            s.len(),
            |i: int| s[p[i] as int],
        )
}

/// The pivots near node `v`, nearest first, from the numbers and distances that a search
/// gave back.
pub fn near_pivots(numbers: &Vec<i32>, distances: &Vec<u32>, step: usize, n: usize, v: usize) -> (r:
    Vec<Pivot>)
    requires
        numbers@.len() == distances@.len(),
        step <= n,
        0 < n <= i32::MAX,
    ensures
        by_distance(
            found_pivots(
                numbers@,
                distances@,
                step as int,
                n as int,
                v as int,
                numbers@.len() as int,
            ),
            r@,
        ),
{
    let mut found: Vec<Pivot> = Vec::new();
    let mut keys: Vec<i128> = Vec::new();
    let mut j: usize = 0;
    while j < numbers.len()
        invariant
            j <= numbers@.len() == distances@.len(),
            step <= n,
            0 < n <= i32::MAX,
            found@ == found_pivots(
                numbers@,
                distances@,
                step as int,
                n as int,
                v as int,
                j as int,
            ),
            keys@.len() == found@.len(),
            forall|x: int|
                0 <= x < keys@.len() ==> #[trigger] keys@[x] == order::float_key(found@[x].distance),
        decreases numbers@.len() - j,
    {
        let number: i32 = numbers[j];
        if number >= 0 {
            proof {
                assert(0 <= number * step <= 0x7fff_ffff * 0x7fff_ffff) by (nonlinear_arith)
                    requires
                        0 <= number <= 0x7fff_ffff,
                        0 <= step <= 0x7fff_ffff,
                ;
            }
            let at: u64 = number as u64 * step as u64;
            let node: usize = if at < n as u64 - 1 { at as usize } else { n - 1 };
            if node != v {
                found.push(Pivot { distance: distances[j], node: node as i32, number });
                keys.push(key_of(distances[j]));
            }
        }
        j = j + 1;
    }
    proof {
        assert(keys@ =~= order::low_keys(pivot_distances(found@)));
    }
    let p = sort_places(&keys);
    let mut out: Vec<Pivot> = Vec::new();
    let mut i: usize = 0;
    while i < p.len()
        invariant
            order::stable_order(keys@, p@),
            keys@.len() == found@.len(),
            i <= p@.len(),
            out@ == Seq::new(i as nat, |x: int| found@[p@[x] as int]),
        decreases p@.len() - i,
    {
        out.push(found[p[i]]);
        i = i + 1;
        proof {
            assert(out@ =~= Seq::new(i as nat, |x: int| found@[p@[x] as int]));
        }
    }
    out
}

/// A node's cell: its nearest pivot, the second nearest, and the bits of the distance to
/// the nearest.
#[derive(Clone, Copy, Debug, PartialEq, Eq, Structural)]
pub struct Cell {
    pub first: i32,
    pub second: i32,
    pub distance: u32,
}

/// The cell that a node's pivots put it in; the second pivot is the first where there is
/// no other, and a node without pivots stands at the first.
pub open spec fn cell_of(near: Seq<Pivot>) -> Cell {
    if near.len() == 0 {
        Cell { first: 0, second: 0, distance: 0 }
    } else {
        Cell {
            first: near[0].number,
            second: if near.len() > 1 {
                near[1].number
            } else {
                near[0].number
            },
            distance: near[0].distance,
        }
    }
}

/// The cell of a node.
pub fn assign_cell(near: &Vec<Pivot>) -> (r: Cell)
    ensures
        r == cell_of(near@),
{
    if near.len() == 0 {
        return Cell { first: 0, second: 0, distance: 0 };
    }
    let second: i32 = if near.len() > 1 { near[1].number } else { near[0].number };
    Cell { first: near[0].number, second, distance: near[0].distance }
}

/// An integer that orders cells by first pivot, second pivot and distance.
pub open spec fn cell_key(c: Cell) -> int {
    c.first * 0x4_0000_0000_0000_0000int + (c.second + 0x8000_0000) * 0x2_0000_0000int + (
    order::float_key(c.distance) + 0x1_0000_0000)
}

pub open spec fn cell_keys(s: Seq<Cell>) -> Seq<i128> {
    Seq::new(s.len(), |i: int| cell_key(s[i]) as i128)
}

/// The nodes in locality order: by first pivot, second pivot and distance, equal ones in
/// the order of the nodes.
pub fn locality_order(cells: &Vec<Cell>) -> (r: Vec<usize>)
    ensures
        order::stable_order(cell_keys(cells@), r@),
{
    let mut keys: Vec<i128> = Vec::new();
    let mut i: usize = 0;
    while i < cells.len()
        invariant
            i <= cells@.len(),
            keys@.len() == i,
            forall|x: int| 0 <= x < i ==> #[trigger] keys@[x] == cell_key(cells@[x]),
        decreases cells@.len() - i,
    {
        let c: Cell = cells[i];
        let a: i128 = c.first as i128 * 0x4_0000_0000_0000_0000;
        let b: i128 = (c.second as i128 + 0x8000_0000) * 0x2_0000_0000;
        keys.push(a + b + (key_of(c.distance) + 0x1_0000_0000));
        i = i + 1;
    }
    proof {
        assert(keys@ =~= cell_keys(cells@));
    }
    sort_places(&keys)
}

/// Whether a cell comes before another: by first pivot, then second pivot, then distance.
pub open spec fn cell_before(a: Cell, b: Cell) -> bool {
    a.first < b.first || (a.first == b.first && (a.second < b.second || (a.second == b.second
        && order::float_key(a.distance) < order::float_key(b.distance))))
}

/// In locality order, no node stands before one of an earlier cell.
pub proof fn law_locality_is_by_cell(cells: Seq<Cell>, r: Seq<usize>, i: int, j: int)
    requires
        order::stable_order(cell_keys(cells), r),
        0 <= i < j < r.len(),
    ensures
        !cell_before(cells[r[j] as int], cells[r[i] as int]),
{
    let keys = cell_keys(cells);
    assert(order::before(keys, r[i], r[j]));
    let a = cells[r[i] as int];
    let b = cells[r[j] as int];
    assert(keys[r[i] as int] == cell_key(a));
    assert(keys[r[j] as int] == cell_key(b));
}

/// Where each node stands in an order.
pub fn positions(order: &Vec<usize>) -> (r: Vec<usize>)
    requires
        forall|i: int| 0 <= i < order@.len() ==> (#[trigger] order@[i]) < order@.len(),
        order@.no_duplicates(),
    ensures
        r@.len() == order@.len(),
        forall|i: int| 0 <= i < order@.len() ==> #[trigger] r@[order@[i] as int] == i,
{
    let n: usize = order.len();
    let mut pos: Vec<usize> = Vec::new();
    let mut i: usize = 0;
    while i < n
        invariant
            i <= n,
            pos@.len() == i,
        decreases n - i,
    {
        pos.push(0);
        i = i + 1;
    }
    let mut j: usize = 0;
    while j < n
        invariant
            j <= n == order@.len(),
            pos@.len() == n,
            forall|x: int| 0 <= x < order@.len() ==> (#[trigger] order@[x]) < order@.len(),
            order@.no_duplicates(),
            forall|x: int| 0 <= x < j ==> #[trigger] pos@[order@[x] as int] == x,
        decreases n - j,
    {
        let at: usize = order[j];
        let ghost before = pos@;
        pos.set(at, j);
        proof {
            assert forall|x: int| 0 <= x < j + 1 implies #[trigger] pos@[order@[x] as int] == x by {
                if x < j {
                    assert(order@[x] != order@[j as int]);
                    assert(before[order@[x] as int] == x);
                }
            }
        }
        j = j + 1;
    }
    pos
}

// ── the first lists ───────────────────────────────────────────────────────

/// Pivot edges that a node keeps.
pub const KEEP_PIVOTS: usize = 4;

/// How far to either side a node of degree `k` is wired.
pub open spec fn reach_of(k: int) -> int {
    if (k - KEEP_PIVOTS) / 2 > 1 {
        (k - KEEP_PIVOTS) / 2
    } else {
        1
    }
}

/// `list` and the node at place `q` of the order, where there is one, it is not `v`, and
/// the list is short of `k`.
pub open spec fn wired(list: Seq<i32>, order: Seq<usize>, q: int, v: int, k: int) -> Seq<i32> {
    if list.len() < k && 0 <= q < order.len() && order[q] != v {
        list.push(order[q] as i32)
    } else {
        list
    }
}

/// `list` wired to the nodes up to `m` places before and behind place `p`, nearer ones
/// first, the one before first.
pub open spec fn spread(
    list: Seq<i32>,
    order: Seq<usize>,
    p: int,
    v: int,
    k: int,
    m: int,
) -> Seq<i32>
    decreases m,
{
    if m <= 0 {
        list
    } else {
        wired(
            wired(spread(list, order, p, v, k, m - 1), order, p - m, v, k),
            order,
            p + m,
            v,
            k,
        )
    }
}

/// The first `m` entries, or all of them.
pub open spec fn head_of(s: Seq<i32>, m: int) -> Seq<i32> {
    if m < s.len() {
        s.take(m)
    } else {
        s
    }
}

fn wire(list: &mut Vec<i32>, order: &Vec<usize>, q: usize, v: usize, k: usize)
    requires
        q < order@.len(),
        order@[q as int] <= i32::MAX,
    ensures
        final(list)@ == wired(old(list)@, order@, q as int, v as int, k as int),
{
    if list.len() < k && order[q] != v {
        list.push(order[q] as i32);
    }
}

/// The first neighbour list of a node: its nearest pivots, then the nodes around it in
/// locality order.
pub fn first_list(pivots: &Vec<i32>, order: &Vec<usize>, p: usize, v: usize, k: usize) -> (r: Vec<
    i32,
>)
    requires
        k >= KEEP_PIVOTS,
        p < order@.len(),
        forall|i: int| 0 <= i < order@.len() ==> (#[trigger] order@[i]) <= i32::MAX,
    ensures
        r@ == head_of(
            spread(
                head_of(pivots@, KEEP_PIVOTS as int),
                order@,
                p as int,
                v as int,
                k as int,
                reach_of(k as int),
            ),
            k as int,
        ),
{
    let n: usize = order.len();
    let mut list: Vec<i32> = Vec::new();
    let mut i: usize = 0;
    proof {
        assert(list@ =~= head_of(pivots@, 0));
    }
    while i < pivots.len() && i < KEEP_PIVOTS
        invariant
            i <= pivots@.len(),
            i <= KEEP_PIVOTS,
            list@ == head_of(pivots@, i as int),
        decreases pivots@.len() - i,
    {
        list.push(pivots[i]);
        i = i + 1;
        proof {
            assert(list@ =~= head_of(pivots@, i as int));
        }
    }
    let ghost start = head_of(pivots@, KEEP_PIVOTS as int);
    proof {
        assert(list@ =~= start);
    }
    let half: usize = (k - KEEP_PIVOTS) / 2;
    let reach: usize = if half > 1 { half } else { 1 };
    let mut m: usize = 0;
    while m < reach
        invariant
            m <= reach,
            p < n == order@.len(),
            forall|x: int| 0 <= x < order@.len() ==> (#[trigger] order@[x]) <= i32::MAX,
            list@ == spread(start, order@, p as int, v as int, k as int, m as int),
        decreases reach - m,
    {
        m = m + 1;
        if m <= p {
            wire(&mut list, order, p - m, v, k);
        }
        if m < n - p {
            wire(&mut list, order, p + m, v, k);
        }
    }
    let mut out: Vec<i32> = Vec::new();
    let mut j: usize = 0;
    proof {
        assert(out@ =~= head_of(list@, 0));
    }
    while j < list.len() && j < k
        invariant
            j <= list@.len(),
            j <= k,
            out@ == head_of(list@, j as int),
        decreases list@.len() - j,
    {
        out.push(list[j]);
        j = j + 1;
        proof {
            assert(out@ =~= head_of(list@, j as int));
        }
    }
    proof {
        assert(out@ =~= head_of(list@, k as int));
    }
    out
}

/// A first list never has more than `k` entries.
pub proof fn law_first_list_fits(s: Seq<i32>, k: int)
    requires
        k >= 0,
    ensures
        head_of(s, k).len() <= k,
{
}

/// A node is never wired to itself.
pub proof fn law_no_wire_to_itself(
    list: Seq<i32>,
    order: Seq<usize>,
    p: int,
    v: int,
    k: int,
    m: int,
    i: int,
)
    requires
        0 <= v <= i32::MAX,
        forall|x: int| 0 <= x < order.len() ==> (#[trigger] order[x]) <= i32::MAX,
        list.len() <= i < spread(list, order, p, v, k, m).len(),
    ensures
        spread(list, order, p, v, k, m)[i] != v,
    decreases m,
{
    if m > 0 {
        let rest = spread(list, order, p, v, k, m - 1);
        let one = wired(rest, order, p - m, v, k);
        if i < rest.len() {
            law_no_wire_to_itself(list, order, p, v, k, m - 1, i);
        }
        lemma_spread_grows(list, order, p, v, k, m - 1);
        assert(one.len() <= wired(one, order, p + m, v, k).len());
    }
}

proof fn lemma_spread_grows(list: Seq<i32>, order: Seq<usize>, p: int, v: int, k: int, m: int)
    ensures
        spread(list, order, p, v, k, m).len() >= list.len(),
    decreases m,
{
    if m > 0 {
        lemma_spread_grows(list, order, p, v, k, m - 1);
    }
}

pub proof fn lemma_found_are_nodes(
    numbers: Seq<i32>,
    distances: Seq<u32>,
    step: int,
    n: int,
    v: int,
    j: int,
)
    requires
        0 <= step,
        0 < n <= i32::MAX,
    ensures
        forall|i: int|
            0 <= i < found_pivots(numbers, distances, step, n, v, j).len() ==> 0 <= (
            #[trigger] found_pivots(numbers, distances, step, n, v, j)[i]).node < n,
    decreases j,
{
    if j > 0 {
        lemma_found_are_nodes(numbers, distances, step, n, v, j - 1);
        let rest = found_pivots(numbers, distances, step, n, v, j - 1);
        let all = found_pivots(numbers, distances, step, n, v, j);
        let number = numbers[j - 1];
        if number >= 0 {
            assert(0 <= number * step) by (nonlinear_arith)
                requires
                    0 <= number,
                    0 <= step,
            ;
        }
        assert forall|i: int| 0 <= i < all.len() implies 0 <= (#[trigger] all[i]).node < n by {
            if i < rest.len() {
                assert(all[i] == rest[i]);
            }
        }
    }
}

pub proof fn lemma_spread_are_nodes(
    list: Seq<i32>,
    order: Seq<usize>,
    p: int,
    v: int,
    k: int,
    m: int,
    n: int,
)
    requires
        n <= i32::MAX,
        forall|x: int| 0 <= x < order.len() ==> (#[trigger] order[x]) < n,
        forall|x: int| 0 <= x < list.len() ==> 0 <= (#[trigger] list[x]) < n,
    ensures
        forall|x: int|
            0 <= x < spread(list, order, p, v, k, m).len() ==> 0 <= (#[trigger] spread(
                list,
                order,
                p,
                v,
                k,
                m,
            )[x]) < n,
    decreases m,
{
    if m > 0 {
        lemma_spread_are_nodes(list, order, p, v, k, m - 1, n);
        let rest = spread(list, order, p, v, k, m - 1);
        let one = wired(rest, order, p - m, v, k);
        let all = spread(list, order, p, v, k, m);
        assert forall|x: int| 0 <= x < all.len() implies 0 <= (#[trigger] all[x]) < n by {
            if x < rest.len() {
                assert(all[x] == rest[x]);
            } else if x < one.len() {
                assert(all[x] == one[x]);
            }
        }
    }
}

/// What a search says of a node's pivots: each entry that found one other than the node itself,
/// with its distance, its number and its node, in their order.
pub proof fn law_found_pivots_are_the_searchs(
    numbers: Seq<i32>,
    distances: Seq<u32>,
    step: int,
    n: int,
    v: int,
    j: int,
)
    requires
        0 <= j <= numbers.len(),
        numbers.len() == distances.len(),
        0 < n <= i32::MAX,
        0 <= step,
    ensures
        forall|i: int|
            0 <= i < found_pivots(numbers, distances, step, n, v, j).len() ==> {
                let p = #[trigger] found_pivots(numbers, distances, step, n, v, j)[i];
                &&& 0 <= p.number
                &&& 0 <= p.node < n
                &&& p.node != v
                &&& p.node == p.number * step || (p.node == n - 1 && p.number * step >= n - 1)
            },
        forall|x: int|
            0 <= x < j && numbers[x] >= 0 && numbers[x] * step < n && numbers[x] * step != v
                ==> found_pivots(numbers, distances, step, n, v, j).contains(
                (Pivot {
                    distance: #[trigger] distances[x],
                    node: (numbers[x] * step) as i32,
                    number: numbers[x],
                }),
            ),
    decreases j,
{
    if j > 0 {
        let rest = found_pivots(numbers, distances, step, n, v, j - 1);
        let all = found_pivots(numbers, distances, step, n, v, j);
        law_found_pivots_are_the_searchs(numbers, distances, step, n, v, j - 1);
        let number = numbers[j - 1] as int;
        assert(number >= 0 ==> number * step >= 0) by (nonlinear_arith)
            requires
                step >= 0,
        ;
        assert forall|i: int| 0 <= i < all.len() implies {
            let p = #[trigger] all[i];
            &&& 0 <= p.number
            &&& 0 <= p.node < n
            &&& p.node != v
            &&& p.node == p.number * step || (p.node == n - 1 && p.number * step >= n - 1)
        } by {
            if i < rest.len() {
                assert(all[i] == rest[i]);
            }
        }
        assert forall|x: int|
            0 <= x < j && numbers[x] >= 0 && numbers[x] * step < n && numbers[x] * step
                != v implies all.contains(
            (Pivot {
                distance: #[trigger] distances[x],
                node: (numbers[x] * step) as i32,
                number: numbers[x],
            }),
        ) by {
            let want = Pivot {
                distance: distances[x],
                node: (numbers[x] * step) as i32,
                number: numbers[x],
            };
            if x < j - 1 {
                assert(rest.contains(want));
                let i = choose|i: int| 0 <= i < rest.len() && rest[i] == want;
                assert(all[i] == want);
            } else {
                assert(all[all.len() - 1] == want);
            }
        }
    }
}

/// Pivots by distance are the same pivots, and none comes before a nearer one; a node's cell is
/// that of a pivot than which none is nearer, and of one than which none but that is.
pub proof fn law_cells_are_nearest(s: Seq<Pivot>, near: Seq<Pivot>)
    requires
        by_distance(s, near),
    ensures
        near.len() == s.len(),
        forall|i: int, j: int|
            0 <= i < j < near.len() ==> order::float_key((#[trigger] near[i]).distance)
                <= order::float_key((#[trigger] near[j]).distance),
        forall|p: Pivot| #[trigger] near.contains(p) <==> s.contains(p),
        s.len() > 0 ==> exists|i: int|
            0 <= i < s.len() && (#[trigger] s[i]).number == cell_of(near).first && s[i].distance
                == cell_of(near).distance && forall|x: int|
                0 <= x < s.len() ==> order::float_key(s[i].distance) <= order::float_key(
                    (#[trigger] s[x]).distance,
                ),
        s.len() == 1 ==> cell_of(near).second == cell_of(near).first,
        s.len() > 1 ==> exists|i: int, k: int|
            #![trigger s[i], s[k]]
            0 <= i < s.len() && 0 <= k < s.len() && i != k && s[i].number == cell_of(near).first
                && s[k].number == cell_of(near).second && forall|x: int|
                0 <= x < s.len() && x != i ==> order::float_key(s[k].distance)
                    <= order::float_key((#[trigger] s[x]).distance),
{
    let keys = order::low_keys(pivot_distances(s));
    let p = choose|p: Seq<usize>| #[trigger]
        order::stable_order(order::low_keys(pivot_distances(s)), p) && near == Seq::new(
            s.len(),
            |i: int| s[p[i] as int],
        );
    order::law_stable_order_sorts(keys, p);
    assert forall|i: int, j: int| 0 <= i < j < near.len() implies order::float_key(
        (#[trigger] near[i]).distance,
    ) <= order::float_key((#[trigger] near[j]).distance) by {
        assert(keys[p[i] as int] <= keys[p[j] as int]);
    }
    assert forall|q: Pivot| #[trigger] near.contains(q) <==> s.contains(q) by {
        if near.contains(q) {
            let i = choose|i: int| 0 <= i < near.len() && near[i] == q;
            assert(s[p[i] as int] == q);
        }
        if s.contains(q) {
            let x = choose|x: int| 0 <= x < s.len() && s[x] == q;
            assert(p.contains(x as usize));
            let i = choose|i: int| 0 <= i < p.len() && p[i] == x as usize;
            assert(near[i] == q);
        }
    }
    if s.len() > 0 {
        let i = p[0] as int;
        assert(near[0] == s[i]);
        assert forall|x: int| 0 <= x < s.len() implies order::float_key(s[i].distance)
            <= order::float_key((#[trigger] s[x]).distance) by {
            assert(p.contains(x as usize));
            let j = choose|j: int| 0 <= j < p.len() && p[j] == x as usize;
            assert(near[j] == s[x]);
        }
        if s.len() > 1 {
            let k = p[1] as int;
            assert(near[1] == s[k]);
            assert forall|x: int| 0 <= x < s.len() && x != i implies order::float_key(
                s[k].distance,
            ) <= order::float_key((#[trigger] s[x]).distance) by {
                assert(p.contains(x as usize));
                let j = choose|j: int| 0 <= j < p.len() && p[j] == x as usize;
                assert(near[j] == s[x]);
                assert(j >= 1);
            }
        }
    }
}

/// Wiring leaves what was listed at the front. Behind it stand only nodes up to `m` places away
/// in the order; each of those, but the node itself, is listed unless the list is full.
pub proof fn law_wires_reach_around(
    list: Seq<i32>,
    order: Seq<usize>,
    p: int,
    v: int,
    k: int,
    m: int,
)
    requires
        0 <= m,
        forall|x: int| 0 <= x < order.len() ==> (#[trigger] order[x]) <= i32::MAX,
    ensures
        list.is_prefix_of(spread(list, order, p, v, k, m)),
        list.len() <= k ==> spread(list, order, p, v, k, m).len() <= k,
        forall|i: int|
            list.len() <= i < spread(list, order, p, v, k, m).len() ==> exists|q: int|
                p - m <= q <= p + m && q != p && 0 <= q < order.len() && order[q] != v
                    && #[trigger] order[q] == #[trigger] spread(list, order, p, v, k, m)[i],
        forall|q: int|
            p - m <= q <= p + m && q != p && 0 <= q < order.len() && #[trigger] order[q] != v
                ==> spread(list, order, p, v, k, m).len() >= k || spread(
                list,
                order,
                p,
                v,
                k,
                m,
            ).contains(order[q] as i32),
    decreases m,
{
    if m > 0 {
        law_wires_reach_around(list, order, p, v, k, m - 1);
        let a = spread(list, order, p, v, k, m - 1);
        let b = wired(a, order, p - m, v, k);
        let c = wired(b, order, p + m, v, k);
        assert(a.is_prefix_of(b) && b.is_prefix_of(c));
        assert forall|i: int| list.len() <= i < c.len() implies exists|q: int|
            p - m <= q <= p + m && q != p && 0 <= q < order.len() && order[q] != v && #[trigger] order[q]
                == #[trigger] c[i] by {
            if i < a.len() {
                assert(c[i] == a[i]);
                let q = choose|q: int|
                    p - (m - 1) <= q <= p + (m - 1) && q != p && 0 <= q < order.len() && order[q]
                        != v && #[trigger] order[q] == a[i];
                assert(order[q] == c[i]);
            } else if i < b.len() {
                assert(order[p - m] == c[i]);
            } else {
                assert(order[p + m] == c[i]);
            }
        }
        assert forall|q: int|
            p - m <= q <= p + m && q != p && 0 <= q < order.len() && #[trigger] order[q]
                != v implies c.len() >= k || c.contains(order[q] as i32) by {
            if q == p - m {
                if b.len() > a.len() {
                    assert(c[a.len() as int] == order[q] as i32);
                }
            } else if q == p + m {
                if c.len() > b.len() {
                    assert(c[b.len() as int] == order[q] as i32);
                }
            } else if a.len() < k {
                let x = choose|x: int| 0 <= x < a.len() && a[x] == order[q] as i32;
                assert(c[x] == a[x]);
            }
        }
    }
}

/// A longer list makes room to be wired further, to one place on either side at least.
pub proof fn law_reach_fills_the_list(k: int)
    requires
        k >= KEEP_PIVOTS,
    ensures
        reach_of(k) >= 1,
        2 * reach_of(k) + KEEP_PIVOTS <= k || reach_of(k) == 1,
        k - KEEP_PIVOTS <= 2 * reach_of(k) + 1,
{
}

} // verus!
