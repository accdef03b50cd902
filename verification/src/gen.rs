use vstd::prelude::*;
use crate::entity::{
    count_of, count_targets, distinct_positions, in_interior, peri, tag_ok, wall_at, Category,
    Object,
};
use crate::entity::{
    entity_at, lemma_count_of_push, lemma_distinct_push, lemma_push_preserves_at, occupied,
};
use crate::matrix::CollisionMatrix;
use crate::position::Position;
use crate::rng::{rand_flip, rand_range};

verus! {

pub open spec fn sum_usize(s: Seq<usize>) -> int
    decreases s.len(),
{
    if s.len() == 0 {
        0
    } else {
        sum_usize(s.drop_last()) + s.last()
    }
}

pub proof fn lemma_sum_push(s: Seq<usize>, v: usize)
    ensures
        sum_usize(s.push(v)) == sum_usize(s) + v,
{
    assert(s.push(v).drop_last() =~= s);
}

pub proof fn lemma_sum_update(s: Seq<usize>, i: int, v: usize)
    requires
        0 <= i < s.len(),
    ensures
        sum_usize(s.update(i, v)) == sum_usize(s) - s[i] + v,
    decreases s.len(),
{
    if i == s.len() - 1 {
        assert(s.update(i, v).drop_last() =~= s.drop_last());
        assert(s.update(i, v).last() == v);
    } else {
        lemma_sum_update(s.drop_last(), i, v);
        assert(s.update(i, v).drop_last() =~= s.drop_last().update(i, v));
        assert(s.update(i, v).last() == s.last());
    }
}

pub proof fn lemma_sum_nonneg(s: Seq<usize>)
    ensures
        sum_usize(s) >= 0,
    decreases s.len(),
{
    if s.len() > 0 {
        lemma_sum_nonneg(s.drop_last());
    }
}

pub proof fn lemma_sum_ge_elem(s: Seq<usize>, i: int)
    requires
        0 <= i < s.len(),
    ensures
        s[i] <= sum_usize(s),
    decreases s.len(),
{
    if i == s.len() - 1 {
        lemma_sum_nonneg(s.drop_last());
    } else {
        lemma_sum_ge_elem(s.drop_last(), i);
        assert(s.drop_last()[i] == s[i]);
    }
}

pub proof fn lemma_sum_prefix_step(s: Seq<usize>, t: int)
    requires
        0 <= t < s.len(),
    ensures
        sum_usize(s.subrange(0, t + 1)) == sum_usize(s.subrange(0, t)) + s[t],
{
    assert(s.subrange(0, t + 1).drop_last() =~= s.subrange(0, t));
    assert(s.subrange(0, t + 1).last() == s[t]);
}

pub proof fn lemma_sum_prefix_le(s: Seq<usize>, t: int)
    requires
        0 <= t <= s.len(),
    ensures
        sum_usize(s.subrange(0, t)) <= sum_usize(s),
    decreases s.len() - t,
{
    if t == s.len() {
        assert(s.subrange(0, t) =~= s);
    } else {
        lemma_sum_prefix_step(s, t);
        lemma_sum_prefix_le(s, t + 1);
    }
}

pub proof fn lemma_sum_le(a: Seq<usize>, b: Seq<usize>)
    requires
        a.len() == b.len(),
        forall|i: int| 0 <= i < a.len() ==> #[trigger] a[i] <= b[i],
    ensures
        sum_usize(a) <= sum_usize(b),
    decreases a.len(),
{
    if a.len() > 0 {
        lemma_sum_le(a.drop_last(), b.drop_last());
        assert(a[a.len() - 1] <= b[a.len() - 1]);
    }
}

/// Pointwise bounded sequences with equal sums are equal pointwise.
pub proof fn lemma_sum_pointwise(a: Seq<usize>, b: Seq<usize>)
    requires
        a.len() == b.len(),
        forall|i: int| 0 <= i < a.len() ==> #[trigger] a[i] <= b[i],
        sum_usize(a) == sum_usize(b),
    ensures
        forall|i: int| 0 <= i < a.len() ==> #[trigger] a[i] == b[i],
    decreases a.len(),
{
    if a.len() > 0 {
        lemma_sum_le(a.drop_last(), b.drop_last());
        assert(a[a.len() - 1] <= b[a.len() - 1]);
        lemma_sum_pointwise(a.drop_last(), b.drop_last());
        assert forall|i: int| 0 <= i < a.len() implies #[trigger] a[i] == b[i] by {
            if i < a.len() - 1 {
                assert(a.drop_last()[i] == b.drop_last()[i]);
            }
        }
    }
}

/// Strict column-major order of grid cells, used to keep the wall pass's
/// output free of repeats.
pub open spec fn lex_lt(px: int, py: int, qx: int, qy: int) -> bool {
    px < qx || (px == qx && py < qy)
}

/// Perimeter cells become walls, all other cells render-only floor tiles.
pub(crate) fn build_walls_floors(w: u32, h: u32) -> (r: (Vec<Object>, Vec<Object>))
    requires
        5 <= w <= 48,
        5 <= h <= 48,
    ensures
        distinct_positions(r.0@),
        forall|k: int|
            0 <= k < r.0@.len() ==> (#[trigger] r.0@[k]).obj_type is Wall && peri(
                w as int,
                h as int,
                r.0@[k].position.x as int,
                r.0@[k].position.y as int,
            ),
        forall|x: int, y: int| peri(w as int, h as int, x, y) ==> #[trigger] wall_at(r.0@, x, y),
        forall|k: int|
            0 <= k < r.1@.len() ==> (#[trigger] r.1@[k]).obj_type is Floor && in_interior(
                r.1@[k],
                w as int,
                h as int,
            ),
{
    let mut walls: Vec<Object> = Vec::new();
    let mut floors: Vec<Object> = Vec::new();
    let mut i: u32 = 0;
    while i < w
        invariant
            5 <= w <= 48,
            5 <= h <= 48,
            i <= w,
            forall|k: int|
                0 <= k < walls@.len() ==> (#[trigger] walls@[k]).obj_type is Wall && peri(
                    w as int,
                    h as int,
                    walls@[k].position.x as int,
                    walls@[k].position.y as int,
                ),
            forall|k: int|
                0 <= k < walls@.len() ==> lex_lt(
                    (#[trigger] walls@[k]).position.x as int,
                    walls@[k].position.y as int,
                    i as int,
                    0,
                ),
            distinct_positions(walls@),
            forall|x: int, y: int|
                peri(w as int, h as int, x, y) && lex_lt(x, y, i as int, 0)
                    ==> #[trigger] wall_at(walls@, x, y),
            forall|k: int|
                0 <= k < floors@.len() ==> (#[trigger] floors@[k]).obj_type is Floor
                    && in_interior(floors@[k], w as int, h as int),
        decreases w - i,
    {
        let mut j: u32 = 0;
        while j < h
            invariant
                5 <= w <= 48,
                5 <= h <= 48,
                i < w,
                j <= h,
                forall|k: int|
                    0 <= k < walls@.len() ==> (#[trigger] walls@[k]).obj_type is Wall && peri(
                        w as int,
                        h as int,
                        walls@[k].position.x as int,
                        walls@[k].position.y as int,
                    ),
                forall|k: int|
                    0 <= k < walls@.len() ==> lex_lt(
                        (#[trigger] walls@[k]).position.x as int,
                        walls@[k].position.y as int,
                        i as int,
                        j as int,
                    ),
                distinct_positions(walls@),
                forall|x: int, y: int|
                    peri(w as int, h as int, x, y) && lex_lt(x, y, i as int, j as int)
                        ==> #[trigger] wall_at(walls@, x, y),
                forall|k: int|
                    0 <= k < floors@.len() ==> (#[trigger] floors@[k]).obj_type is Floor
                        && in_interior(floors@[k], w as int, h as int),
            decreases h - j,
        {
            let on_edge = i == 0 || i == w - 1 || j == 0 || j == h - 1;
            let o = Object {
                obj_type: if on_edge {
                    Category::Wall
                } else {
                    Category::Floor
                },
                position: Position { x: i as i32, y: j as i32 },
            };
            if on_edge {
                proof {
                    assert forall|m: int| 0 <= m < walls@.len() implies (#[trigger] walls@[m]).position
                        != o.position by {
                        assert(lex_lt(
                            walls@[m].position.x as int,
                            walls@[m].position.y as int,
                            i as int,
                            j as int,
                        ));
                    }
                    lemma_distinct_push(walls@, o);
                    lemma_push_preserves_at(walls@, o);
                }
                let ghost old_walls = walls@;
                walls.push(o);
                proof {
                    assert(entity_at(walls@, old_walls.len() as int, i as int, j as int));
                    assert(wall_at(walls@, i as int, j as int));
                    assert forall|x: int, y: int|
                        peri(w as int, h as int, x, y) && lex_lt(x, y, i as int, j as int + 1)
                        implies #[trigger] wall_at(walls@, x, y) by {
                        if lex_lt(x, y, i as int, j as int) {
                            assert(wall_at(old_walls, x, y));
                        } else {
                            assert(x == i as int && y == j as int);
                        }
                    }
                }
            } else {
                floors.push(o);
                proof {
                    assert forall|x: int, y: int|
                        peri(w as int, h as int, x, y) && lex_lt(x, y, i as int, j as int + 1)
                        implies #[trigger] wall_at(walls@, x, y) by {
                        assert(lex_lt(x, y, i as int, j as int));
                    }
                }
            }
            j = j + 1;
        }
        i = i + 1;
    }
    (walls, floors)
}

/// Partition `n_crates` across the tags: repeatedly add a random 0/1
/// increment to each tag's quota until the sum reaches `n_crates`, with a
/// bounded number of passes; whatever is then still missing goes to the
/// first tag, so the sum is exact.
pub(crate) fn make_quotas(num_tags: u32, n_crates: usize) -> (q: Vec<usize>)
    requires
        1 <= num_tags <= 64,
        3 <= n_crates <= 8,
    ensures
        q@.len() == num_tags,
        sum_usize(q@) == n_crates,
        forall|t: int| 0 <= t < q@.len() ==> #[trigger] q@[t] <= n_crates,
{
    let mut q: Vec<usize> = Vec::new();
    let mut t: u32 = 0;
    while t < num_tags
        invariant
            t <= num_tags,
            q@.len() == t,
            sum_usize(q@) == 0,
            forall|m: int| 0 <= m < q@.len() ==> #[trigger] q@[m] == 0,
        decreases num_tags - t,
    {
        proof {
            lemma_sum_push(q@, 0);
        }
        q.push(0);
        t = t + 1;
    }
    let mut total: usize = 0;
    let mut pass: u32 = 0;
    while pass < 64 && total < n_crates
        invariant
            q@.len() == num_tags,
            1 <= num_tags <= 64,
            3 <= n_crates <= 8,
            total == sum_usize(q@),
            total <= n_crates,
        decreases 64 - pass,
    {
        let mut t2: u32 = 0;
        while t2 < num_tags
            invariant
                q@.len() == num_tags,
                1 <= num_tags <= 64,
                3 <= n_crates <= 8,
                total == sum_usize(q@),
                total <= n_crates,
                t2 <= num_tags,
            decreases num_tags - t2,
        {
            if total < n_crates {
                let inc = rand_range(0, 2) as usize;
                if inc > 0 {
                    let cur = q[t2 as usize];
                    proof {
                        lemma_sum_ge_elem(q@, t2 as int);
                        lemma_sum_update(q@, t2 as int, (cur + 1) as usize);
                    }
                    q.set(t2 as usize, cur + 1);
                    total = total + 1;
                }
            }
            t2 = t2 + 1;
        }
        pass = pass + 1;
    }
    if total < n_crates {
        let cur = q[0];
        let add = n_crates - total;
        proof {
            lemma_sum_ge_elem(q@, 0);
            lemma_sum_update(q@, 0, (cur + add) as usize);
        }
        q.set(0, cur + add);
        total = n_crates;
    }
    proof {
        assert forall|m: int| 0 <= m < q@.len() implies #[trigger] q@[m] <= n_crates by {
            lemma_sum_ge_elem(q@, m);
        }
    }
    q
}

/// What both placement strategies hand back: distinct interior crates and
/// targets whose per-tag counts both equal the quotas.
pub open spec fn placed_ok(
    placed: Seq<Object>,
    w: int,
    h: int,
    num_tags: u32,
    quotas: Seq<usize>,
    n_targets: int,
) -> bool {
    &&& distinct_positions(placed)
    &&& forall|k: int|
        0 <= k < placed.len() ==> in_interior(#[trigger] placed[k], w, h) && (placed[k].obj_type
            is Crate || placed[k].obj_type is Target) && tag_ok(placed[k].obj_type, num_tags)
    &&& forall|t: u32|
        #![trigger count_of(placed, Category::Crate(t))]
        #![trigger count_of(placed, Category::Target(t))]
        t < num_tags ==> count_of(placed, Category::Crate(t)) == quotas[t as int]
            && count_of(placed, Category::Target(t)) == quotas[t as int]
    &&& count_targets(placed) == n_targets
}

/// The raster cell a fill index lands on, inside the crate band that starts
/// two cells in from the walls.
pub open spec fn fill_x(h: int, m: int) -> int {
    2 + m / (h - 4)
}

pub open spec fn fill_y(h: int, m: int) -> int {
    2 + m % (h - 4)
}

/// The fully relaxed placement pass: after the randomized passes have spent
/// their attempt budget, spacing and probability thresholds are dropped and
/// each tag's quota of crate/target pairs is laid out deterministically on
/// consecutive raster cells. Fails exactly when the pairs do not fit the
/// band.
pub(crate) fn fill_pairs(w: u32, h: u32, num_tags: u32, quotas: &Vec<usize>, total: usize) -> (r:
    Option<(Vec<Object>, usize)>)
    requires
        5 <= w <= 48,
        5 <= h <= 48,
        1 <= num_tags <= 64,
        quotas@.len() == num_tags,
        total == sum_usize(quotas@),
        total <= 8,
    ensures
        r is None <==> 2 * total > (w as int - 4) * (h as int - 4),
        r matches Some(p) ==> p.1 == total && p.0@.len() == 2 * total && placed_ok(
            p.0@,
            w as int,
            h as int,
            num_tags,
            quotas@,
            total as int,
        ),
{
    proof {
        assert(((w - 4) as int) * ((h - 4) as int) <= 44 * 44) by (nonlinear_arith)
            requires
                5 <= w <= 48,
                5 <= h <= 48,
        ;
    }
    let cap: usize = ((w - 4) as usize) * ((h - 4) as usize);
    if 2 * total > cap {
        return None;
    }
    let hc: usize = (h - 4) as usize;
    let mut placed: Vec<Object> = Vec::new();
    let mut k: usize = 0;
    let mut t: u32 = 0;
    while t < num_tags
        invariant
            5 <= w <= 48,
            5 <= h <= 48,
            1 <= num_tags <= 64,
            quotas@.len() == num_tags,
            total == sum_usize(quotas@),
            total <= 8,
            2 * total <= cap,
            cap == (w as int - 4) * (h as int - 4),
            hc == h - 4,
            t <= num_tags,
            k as int == sum_usize(quotas@.subrange(0, t as int)),
            k <= total,
            placed@.len() == 2 * k,
            forall|m: int|
                0 <= m < placed@.len() ==> (#[trigger] placed@[m]).position.x as int == fill_x(
                    h as int,
                    m,
                ) && placed@[m].position.y as int == fill_y(h as int, m),
            forall|m: int|
                0 <= m < placed@.len() ==> ((#[trigger] placed@[m]).obj_type is Crate
                    || placed@[m].obj_type is Target) && tag_ok(placed@[m].obj_type, num_tags),
            forall|t2: u32|
                #![trigger count_of(placed@, Category::Crate(t2))]
                #![trigger count_of(placed@, Category::Target(t2))]
                t2 < t ==> count_of(placed@, Category::Crate(t2)) == quotas@[t2 as int]
                    && count_of(placed@, Category::Target(t2)) == quotas@[t2 as int],
            forall|t2: u32|
                #![trigger count_of(placed@, Category::Crate(t2))]
                #![trigger count_of(placed@, Category::Target(t2))]
                t <= t2 < num_tags ==> count_of(placed@, Category::Crate(t2)) == 0
                    && count_of(placed@, Category::Target(t2)) == 0,
            count_targets(placed@) == k,
        decreases num_tags - t,
    {
        let quota_t = quotas[t as usize];
        proof {
            lemma_sum_prefix_step(quotas@, t as int);
            lemma_sum_prefix_le(quotas@, t as int + 1);
        }
        let mut qd: usize = 0;
        while qd < quota_t
            invariant
                5 <= w <= 48,
                5 <= h <= 48,
                1 <= num_tags <= 64,
                quotas@.len() == num_tags,
                total == sum_usize(quotas@),
                total <= 8,
                2 * total <= cap,
                cap == (w as int - 4) * (h as int - 4),
                hc == h - 4,
                t < num_tags,
                quota_t == quotas@[t as int],
                qd <= quota_t,
                k as int == sum_usize(quotas@.subrange(0, t as int)) + qd,
                k as int + (quota_t - qd) <= total,
                placed@.len() == 2 * k,
                forall|m: int|
                    0 <= m < placed@.len() ==> (#[trigger] placed@[m]).position.x as int == fill_x(
                        h as int,
                        m,
                    ) && placed@[m].position.y as int == fill_y(h as int, m),
                forall|m: int|
                    0 <= m < placed@.len() ==> ((#[trigger] placed@[m]).obj_type is Crate
                        || placed@[m].obj_type is Target) && tag_ok(placed@[m].obj_type, num_tags),
                forall|t2: u32|
                    #![trigger count_of(placed@, Category::Crate(t2))]
                    #![trigger count_of(placed@, Category::Target(t2))]
                    t2 < t ==> count_of(placed@, Category::Crate(t2)) == quotas@[t2 as int]
                        && count_of(placed@, Category::Target(t2)) == quotas@[t2 as int],
                count_of(placed@, Category::Crate(t)) == qd,
                count_of(placed@, Category::Target(t)) == qd,
                forall|t2: u32|
                    #![trigger count_of(placed@, Category::Crate(t2))]
                    #![trigger count_of(placed@, Category::Target(t2))]
                    t < t2 < num_tags ==> count_of(placed@, Category::Crate(t2)) == 0
                        && count_of(placed@, Category::Target(t2)) == 0,
                count_targets(placed@) == k,
            decreases quota_t - qd,
        {
            let idx1: usize = 2 * k;
            let idx2: usize = 2 * k + 1;
            proof {
                assert(idx2 < cap);
                assert(hc >= 1);
                assert(idx1 / hc < (w - 4) as int && idx2 / hc < (w - 4) as int)
                    by (nonlinear_arith)
                    requires
                        idx1 < cap,
                        idx2 < cap,
                        cap == ((w - 4) as int) * (hc as int),
                        hc >= 1,
                ;
            }
            let x1: usize = 2 + idx1 / hc;
            let y1: usize = 2 + idx1 % hc;
            let x2: usize = 2 + idx2 / hc;
            let y2: usize = 2 + idx2 % hc;
            let o1 = Object {
                obj_type: Category::Crate(t),
                position: Position { x: x1 as i32, y: y1 as i32 },
            };
            let o2 = Object {
                obj_type: Category::Target(t),
                position: Position { x: x2 as i32, y: y2 as i32 },
            };
            proof {
                lemma_count_of_push(placed@, o1, Category::Crate(t));
                lemma_count_of_push(placed@.push(o1), o2, Category::Target(t));
                assert forall|t2: u32| t2 < num_tags && t2 != t implies #[trigger] count_of(
                    placed@.push(o1).push(o2),
                    Category::Crate(t2),
                ) == count_of(placed@, Category::Crate(t2)) && count_of(
                    placed@.push(o1).push(o2),
                    Category::Target(t2),
                ) == count_of(placed@, Category::Target(t2)) by {
                    lemma_count_of_push(placed@, o1, Category::Crate(t2));
                    lemma_count_of_push(placed@.push(o1), o2, Category::Crate(t2));
                    lemma_count_of_push(placed@, o1, Category::Target(t2));
                    lemma_count_of_push(placed@.push(o1), o2, Category::Target(t2));
                }
                lemma_count_of_push(placed@, o1, Category::Target(t));
                lemma_count_of_push(placed@.push(o1), o2, Category::Crate(t));
            }
            placed.push(o1);
            placed.push(o2);
            k = k + 1;
            qd = qd + 1;
        }
        proof {
            assert(k as int == sum_usize(quotas@.subrange(0, t as int + 1)));
        }
        t = t + 1;
    }
    proof {
        assert(quotas@.subrange(0, num_tags as int) =~= quotas@);
        assert(k == total);
        let s = placed@;
        let hh = h as int;
        assert forall|m: int| 0 <= m < s.len() implies in_interior(#[trigger] s[m], w as int, hh) by {
            assert(s[m].position.x as int == fill_x(hh, m));
            assert(s[m].position.y as int == fill_y(hh, m));
            assert(0 <= m % (hh - 4) < hh - 4);
            assert(m / (hh - 4) < (w as int - 4)) by (nonlinear_arith)
                requires
                    0 <= m,
                    m < (w as int - 4) * (hh - 4),
                    hh - 4 >= 1,
            ;
            assert(m / (hh - 4) >= 0);
        }
        assert forall|k1: int, k2: int|
            #![trigger s[k1], s[k2]]
            0 <= k1 < s.len() && 0 <= k2 < s.len() && k1 != k2 implies s[k1].position
            != s[k2].position by {
            if s[k1].position == s[k2].position {
                assert(fill_x(hh, k1) == fill_x(hh, k2));
                assert(fill_y(hh, k1) == fill_y(hh, k2));
                vstd::arithmetic::div_mod::lemma_fundamental_div_mod(k1, hh - 4);
                vstd::arithmetic::div_mod::lemma_fundamental_div_mod(k2, hh - 4);
            }
        }
    }
    Some((placed, k))
}

/// The rolling state of the randomized scatter: the occupancy matrix mirrors
/// the placed entities exactly, everything placed is an interior crate or
/// target, the per-tag counters match the collection and stay under quota,
/// and the running totals are the counter sums.
pub open spec fn scatter_ok(
    mat: CollisionMatrix,
    placed: Seq<Object>,
    cc: Seq<usize>,
    tc: Seq<usize>,
    quotas: Seq<usize>,
    crates_placed: int,
    targets_placed: int,
    w: int,
    h: int,
    num_tags: u32,
) -> bool {
    &&& mat.wf()
    &&& mat.rows == h
    &&& mat.cols == w
    &&& cc.len() == num_tags
    &&& tc.len() == num_tags
    &&& quotas.len() == num_tags
    &&& distinct_positions(placed)
    &&& forall|k: int|
        0 <= k < placed.len() ==> in_interior(#[trigger] placed[k], w, h) && (placed[k].obj_type
            is Crate || placed[k].obj_type is Target) && tag_ok(placed[k].obj_type, num_tags)
    &&& forall|k: int|
        0 <= k < placed.len() ==> mat.cell(
            (#[trigger] placed[k]).position.y as int,
            placed[k].position.x as int,
        )
    &&& forall|r: int, c: int| mat.in_bounds(r, c) && #[trigger] mat.cell(r, c) ==> occupied(placed, c, r)
    &&& forall|t: u32|
        #![trigger count_of(placed, Category::Crate(t))]
        #![trigger count_of(placed, Category::Target(t))]
        t < num_tags ==> count_of(placed, Category::Crate(t)) == cc[t as int] && count_of(
            placed,
            Category::Target(t),
        ) == tc[t as int]
    &&& forall|t: int|
        #![trigger cc[t]]
        #![trigger tc[t]]
        0 <= t < num_tags ==> cc[t] <= quotas[t] && tc[t] <= quotas[t]
    &&& crates_placed == sum_usize(cc)
    &&& targets_placed == sum_usize(tc)
    &&& targets_placed == count_targets(placed)
}

/// One randomized raster scan over the placement band: each free cell is
/// taken with the pass's probability, skipped while an occupied cell lies
/// within the adaptive spacing radius, and given a random tag that still has
/// quota left. A successful placement randomly either continues down the
/// column or jumps to the next one, so layouts do not cluster at the top.
#[verifier::rlimit(30)]
fn scatter_pass(
    mat: &mut CollisionMatrix,
    placed: &mut Vec<Object>,
    cc: &mut Vec<usize>,
    tc: &mut Vec<usize>,
    quotas: &Vec<usize>,
    crates_placed: &mut usize,
    targets_placed: &mut usize,
    loop_fails: &mut u32,
    w: u32,
    h: u32,
    num_tags: u32,
    make_target: bool,
)
    requires
        5 <= w <= 48,
        5 <= h <= 48,
        1 <= num_tags <= 64,
        forall|t: int| 0 <= t < quotas@.len() ==> #[trigger] quotas@[t] <= 8,
        sum_usize(quotas@) <= 8,
        scatter_ok(
            *old(mat),
            old(placed)@,
            old(cc)@,
            old(tc)@,
            quotas@,
            *old(crates_placed) as int,
            *old(targets_placed) as int,
            w as int,
            h as int,
            num_tags,
        ),
    ensures
        scatter_ok(
            *final(mat),
            final(placed)@,
            final(cc)@,
            final(tc)@,
            quotas@,
            *final(crates_placed) as int,
            *final(targets_placed) as int,
            w as int,
            h as int,
            num_tags,
        ),
        make_target ==> final(cc)@ == old(cc)@ && *final(crates_placed) == *old(crates_placed),
        !make_target ==> final(tc)@ == old(tc)@ && *final(targets_placed) == *old(
            targets_placed,
        ),
{
    let x0: u32 = if make_target {
        1
    } else {
        2
    };
    let y0: u32 = if make_target {
        1
    } else {
        2
    };
    let threshold: u64 = if make_target {
        90
    } else {
        60
    };
    let ghost cc0 = old(cc)@;
    let ghost tc0 = old(tc)@;
    let ghost crates0: usize = *old(crates_placed);
    let ghost targets0: usize = *old(targets_placed);
    let mut i: u32 = x0;
    while i < w - 2
        invariant
            5 <= w <= 48,
            5 <= h <= 48,
            1 <= num_tags <= 64,
            1 <= x0 <= 2,
            1 <= y0 <= 2,
            x0 <= i,
            forall|t: int| 0 <= t < quotas@.len() ==> #[trigger] quotas@[t] <= 8,
            sum_usize(quotas@) <= 8,
            make_target ==> cc@ == cc0 && *crates_placed == crates0,
            !make_target ==> tc@ == tc0 && *targets_placed == targets0,
            scatter_ok(
                *mat,
                placed@,
                cc@,
                tc@,
                quotas@,
                *crates_placed as int,
                *targets_placed as int,
                w as int,
                h as int,
                num_tags,
            ),
        decreases w - 2 - i,
    {
        let mut j: u32 = y0;
        while j < h - 2
            invariant
                5 <= w <= 48,
                5 <= h <= 48,
                1 <= num_tags <= 64,
                1 <= x0 <= 2,
                1 <= y0 <= 2,
                x0 <= i < w - 2,
                y0 <= j,
                forall|t: int| 0 <= t < quotas@.len() ==> #[trigger] quotas@[t] <= 8,
                sum_usize(quotas@) <= 8,
                make_target ==> cc@ == cc0 && *crates_placed == crates0,
                !make_target ==> tc@ == tc0 && *targets_placed == targets0,
                scatter_ok(
                    *mat,
                    placed@,
                    cc@,
                    tc@,
                    quotas@,
                    *crates_placed as int,
                    *targets_placed as int,
                    w as int,
                    h as int,
                    num_tags,
                ),
            decreases h - 2 - j,
        {
            let draw = rand_range(0, 100);
            let free = !mat.get(j as usize, i as usize);
            if draw >= threshold && free {
                let reduction = *loop_fails / 30;
                let dist: i32 = if reduction >= 3 {
                    0
                } else {
                    3 - reduction as i32
                };
                if mat.check_surroundings((j as usize, i as usize), dist) {
                    if *loop_fails < 90 {
                        *loop_fails = *loop_fails + 1;
                    }
                } else {
                    *loop_fails = 0;
                    let tag_u = rand_range(0, num_tags as u64);
                    let tag: usize = tag_u as usize;
                    let met = if make_target {
                        tc[tag] == quotas[tag]
                    } else {
                        cc[tag] == quotas[tag]
                    };
                    if !met {
                        let o = Object {
                            obj_type: if make_target {
                                Category::Target(tag as u32)
                            } else {
                                Category::Crate(tag as u32)
                            },
                            position: Position { x: i as i32, y: j as i32 },
                        };
                        let ghost old_placed = placed@;
                        let ghost old_mat = *mat;
                        proof {
                            lemma_sum_le(cc@, quotas@);
                            lemma_sum_le(tc@, quotas@);
                            if occupied(old_placed, i as int, j as int) {
                                let k = choose|k: int|
                                    #[trigger] entity_at(old_placed, k, i as int, j as int);
                                assert(old_mat.cell(j as int, i as int));
                            }
                            lemma_distinct_push(old_placed, o);
                        }
                        placed.push(o);
                        mat.set(j as usize, i as usize, true);
                        if make_target {
                            let cur = tc[tag];
                            proof {
                                lemma_sum_update(tc@, tag as int, (cur + 1) as usize);
                            }
                            tc.set(tag, cur + 1);
                            *targets_placed = *targets_placed + 1;
                        } else {
                            let cur = cc[tag];
                            proof {
                                lemma_sum_update(cc@, tag as int, (cur + 1) as usize);
                            }
                            cc.set(tag, cur + 1);
                            *crates_placed = *crates_placed + 1;
                        }
                        proof {
                            assert(placed@ == old_placed.push(o));
                            assert forall|k: int| 0 <= k < placed@.len() implies mat.cell(
                                (#[trigger] placed@[k]).position.y as int,
                                placed@[k].position.x as int,
                            ) by {
                                if k < old_placed.len() {
                                    assert(placed@[k] == old_placed[k]);
                                    assert(old_mat.cell(
                                        old_placed[k].position.y as int,
                                        old_placed[k].position.x as int,
                                    ));
                                }
                            }
                            assert forall|r: int, c: int|
                                mat.in_bounds(r, c) && #[trigger] mat.cell(r, c) implies occupied(
                                placed@,
                                c,
                                r,
                            ) by {
                                if r == j as int && c == i as int {
                                    assert(entity_at(placed@, old_placed.len() as int, c, r));
                                } else {
                                    assert(old_mat.cell(r, c));
                                    let k = choose|k: int| #[trigger] entity_at(old_placed, k, c, r);
                                    assert(entity_at(placed@, k, c, r));
                                }
                            }
                        }
                        proof {
                            assert forall|k: int|
                                0 <= k < placed@.len() implies in_interior(#[trigger] placed@[k], w as int, h as int)
                                    && (placed@[k].obj_type is Crate || placed@[k].obj_type is Target)
                                    && tag_ok(placed@[k].obj_type, num_tags) by {
                                if k < old_placed.len() {
                                    assert(placed@[k] == old_placed[k]);
                                } else {
                                    assert(placed@[k] == o);
                                }
                            }
                            lemma_count_of_push(old_placed, o, Category::Wall);
                            assert forall|t2: u32|
                                t2 < num_tags implies #[trigger] count_of(placed@, Category::Crate(t2))
                                    == cc@[t2 as int] && count_of(placed@, Category::Target(t2))
                                    == tc@[t2 as int] by {
                                lemma_count_of_push(old_placed, o, Category::Crate(t2));
                                lemma_count_of_push(old_placed, o, Category::Target(t2));
                                assert(placed@ == old_placed.push(o));
                            }
                        }
                        if rand_flip() {
                            break ;
                        }
                    }
                }
            }
            j = j + 1;
        }
        i = i + 1;
    }
}

/// The randomized placement strategy of the generator: scatter crates, then
/// targets, over bounded numbers of raster passes. Gives up (for the caller
/// to relax the constraints) if either quota is still unmet when the passes
/// are spent.
pub(crate) fn random_scatter(w: u32, h: u32, num_tags: u32, quotas: &Vec<usize>, total: usize) -> (r:
    Option<(Vec<Object>, usize)>)
    requires
        5 <= w <= 48,
        5 <= h <= 48,
        1 <= num_tags <= 64,
        quotas@.len() == num_tags,
        total == sum_usize(quotas@),
        total <= 8,
        forall|t: int| 0 <= t < quotas@.len() ==> #[trigger] quotas@[t] <= 8,
    ensures
        r matches Some(p) ==> p.1 == total && placed_ok(
            p.0@,
            w as int,
            h as int,
            num_tags,
            quotas@,
            total as int,
        ),
{
    let mut mat = CollisionMatrix::new(h as usize, w as usize);
    let mut placed: Vec<Object> = Vec::new();
    let mut cc: Vec<usize> = Vec::new();
    let mut tc: Vec<usize> = Vec::new();
    let mut t: u32 = 0;
    while t < num_tags
        invariant
            t <= num_tags,
            cc@.len() == t,
            tc@.len() == t,
            sum_usize(cc@) == 0,
            sum_usize(tc@) == 0,
            forall|m: int| 0 <= m < t ==> #[trigger] cc@[m] == 0,
            forall|m: int| 0 <= m < t ==> #[trigger] tc@[m] == 0,
        decreases num_tags - t,
    {
        proof {
            lemma_sum_push(cc@, 0);
            lemma_sum_push(tc@, 0);
        }
        cc.push(0);
        tc.push(0);
        t = t + 1;
    }
    let mut crates_placed: usize = 0;
    let mut targets_placed: usize = 0;
    let mut loop_fails: u32 = 0;
    let mut pass: u32 = 0;
    while pass < 8 && crates_placed < total
        invariant
            5 <= w <= 48,
            5 <= h <= 48,
            1 <= num_tags <= 64,
            total == sum_usize(quotas@),
            total <= 8,
            forall|t2: int| 0 <= t2 < quotas@.len() ==> #[trigger] quotas@[t2] <= 8,
            scatter_ok(
                mat,
                placed@,
                cc@,
                tc@,
                quotas@,
                crates_placed as int,
                targets_placed as int,
                w as int,
                h as int,
                num_tags,
            ),
        decreases 8 - pass,
    {
        scatter_pass(
            &mut mat,
            &mut placed,
            &mut cc,
            &mut tc,
            quotas,
            &mut crates_placed,
            &mut targets_placed,
            &mut loop_fails,
            w,
            h,
            num_tags,
            false,
        );
        pass = pass + 1;
    }
    if crates_placed != total {
        return None;
    }
    pass = 0;
    while pass < 8 && targets_placed < total
        invariant
            5 <= w <= 48,
            5 <= h <= 48,
            1 <= num_tags <= 64,
            total == sum_usize(quotas@),
            total <= 8,
            crates_placed == total,
            forall|t2: int| 0 <= t2 < quotas@.len() ==> #[trigger] quotas@[t2] <= 8,
            scatter_ok(
                mat,
                placed@,
                cc@,
                tc@,
                quotas@,
                crates_placed as int,
                targets_placed as int,
                w as int,
                h as int,
                num_tags,
            ),
        decreases 8 - pass,
    {
        scatter_pass(
            &mut mat,
            &mut placed,
            &mut cc,
            &mut tc,
            quotas,
            &mut crates_placed,
            &mut targets_placed,
            &mut loop_fails,
            w,
            h,
            num_tags,
            true,
        );
        pass = pass + 1;
    }
    if targets_placed != total {
        return None;
    }
    proof {
        lemma_sum_pointwise(cc@, quotas@);
        lemma_sum_pointwise(tc@, quotas@);
    }
    Some((placed, targets_placed))
}

} // verus!
