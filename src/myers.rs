//! Minimal edit scripts by the greedy furthest-reaching search over the
//! edit graph, and their reconstruction from the recorded search trace.
//!
//! Diagonal `k = x - y` is kept at slot `k + off` of a row, where `off` is
//! `a.len() + b.len()`. Row `e` of the trace holds the furthest `x` reached
//! on every diagonal before level `e` of the search.
use vstd::prelude::*;
use crate::script::{count_changes, count_keep, is_edit_script, lemma_count_push, lemma_path_join, lemma_path_prepend, lemma_script_change_count, lines_view, path_from, path_to, Edit, EditOp};

verus! {

/// Largest total of lines of the two sequences that the search accepts.
pub const MAX_TOTAL_LINES: usize = 1000000;

/// The fixed tie-break: level `d`, diagonal `k` is entered from diagonal
/// `k + 1` (an insertion) at the lower boundary, or when that neighbour
/// reaches strictly further than diagonal `k - 1`.
pub open spec fn from_insert(v: Seq<usize>, k: int, d: int, off: int) -> bool {
    k == -d || (k != d && v[k + off - 1] < v[k + off + 1])
}

/// The `x` at which diagonal `k` of level `d` starts, before its snake.
pub open spec fn start_x(v: Seq<usize>, k: int, d: int, off: int) -> int {
    if from_insert(v, k, d, off) {
        v[k + off + 1] as int
    } else {
        v[k + off - 1] + 1
    }
}

/// The lines of `a` from `sx` up to `ex` match those of `b` on diagonal `k`.
pub open spec fn snake(a: Seq<Seq<char>>, b: Seq<Seq<char>>, sx: int, ex: int, k: int) -> bool {
    &&& sx <= ex
    &&& forall|j: int| sx <= j < ex ==> #[trigger] match_at(a, b, j, k)
}

/// Line `j` of `a` and line `j - k` of `b` exist and are equal.
pub open spec fn match_at(a: Seq<Seq<char>>, b: Seq<Seq<char>>, j: int, k: int) -> bool {
    0 <= j < a.len() && 0 <= j - k < b.len() && a[j] == b[j - k]
}

/// A snake followed by one more matching pair of lines is a snake.
pub proof fn lemma_snake_extend(a: Seq<Seq<char>>, b: Seq<Seq<char>>, sx: int, ex: int, k: int)
    requires
        snake(a, b, sx, ex, k),
        0 <= ex < a.len(),
        0 <= ex - k < b.len(),
        a[ex] == b[ex - k],
    ensures
        snake(a, b, sx, ex + 1, k),
{
    assert(match_at(a, b, ex, k));
}

/// `x` is where diagonal `k` of level `d` ends, given the previous row `v`.
pub open spec fn point_ok(v: Seq<usize>, x: int, k: int, d: int, off: int, a: Seq<Seq<char>>, b: Seq<Seq<char>>) -> bool {
    &&& start_x(v, k, d, off) - k >= 0
    &&& snake(a, b, start_x(v, k, d, off), x, k)
}

/// `k` is a diagonal visited at level `d`.
pub open spec fn on_level(k: int, d: int) -> bool {
    -d <= k <= d && (k + d) % 2 == 0
}

/// Row `cur` is what level `d` computes from row `prev`, on every diagonal
/// the level visits.
pub open spec fn level_ok(prev: Seq<usize>, cur: Seq<usize>, d: int, off: int, a: Seq<Seq<char>>, b: Seq<Seq<char>>) -> bool {
    forall|k: int| on_level(k, d) ==> #[trigger] point_ok(prev, cur[k + off] as int, k, d, off, a, b)
}

/// Point `x` on diagonal `k` is where a snake stops (no match follows it)
/// and is not past both ends of the sequences.
pub open spec fn searched_point(a: Seq<Seq<char>>, b: Seq<Seq<char>>, x: int, k: int) -> bool {
    &&& !(x < a.len() && x - k < b.len() && a[x] == b[x - k])
    &&& !(x >= a.len() && x - k >= b.len())
}

/// Levels `0..d` of trace `t` ended every snake where it stopped and
/// reached past both ends on no diagonal.
pub open spec fn levels_searched(t: Seq<Seq<usize>>, off: int, a: Seq<Seq<char>>, b: Seq<Seq<char>>, d: int) -> bool {
    forall|e: int, k: int| 0 <= e < d && on_level(k, e) ==> #[trigger] searched_point(a, b, t[e + 1][k + off] as int, k)
}

/// A walk from `(x, y)`, reached with `c` changes and no further than the
/// search reached with as many, needs at least `d - c` more changes when
/// the search took `d` levels to reach the far corner.
proof fn lemma_walk_lower_bound(
    ops: Seq<Edit>,
    x: int,
    y: int,
    c: int,
    t: Seq<Seq<usize>>,
    off: int,
    a: Seq<Seq<char>>,
    b: Seq<Seq<char>>,
    d: int,
)
    requires
        path_from(ops, x, y, a, b),
        0 <= x,
        0 <= y,
        0 <= c,
        on_level(x - y, c),
        off == a.len() + b.len(),
        t.len() == d + 1,
        trace_ok(t, off, a, b),
        levels_searched(t, off, a, b, d),
        c < d ==> x <= t[c + 1][x - y + off],
    ensures
        c + count_changes(ops) >= d,
    decreases ops.len(),
{
    let k = x - y;
    if ops.len() == 0 {
        if c < d {
            assert(searched_point(a, b, t[c + 1][k + off] as int, k));
        }
    } else {
        let e = ops[0];
        let rest = ops.drop_first();
        match e.operation {
            EditOp::Keep => {
                if c < d {
                    assert(searched_point(a, b, t[c + 1][k + off] as int, k));
                }
                lemma_walk_lower_bound(rest, x + 1, y + 1, c, t, off, a, b, d);
            },
            EditOp::Insert => {
                let k2 = k - 1;
                if c + 1 < d {
                    assert(level_ok(t[c + 1], t[c + 2], c + 1, off, a, b));
                    assert(on_level(k2, c + 1));
                    assert(point_ok(t[c + 1], t[c + 2][k2 + off] as int, k2, c + 1, off, a, b));
                }
                lemma_walk_lower_bound(rest, x, y + 1, c + 1, t, off, a, b, d);
            },
            EditOp::Delete => {
                let k2 = k + 1;
                if c + 1 < d {
                    assert(level_ok(t[c + 1], t[c + 2], c + 1, off, a, b));
                    assert(on_level(k2, c + 1));
                    assert(point_ok(t[c + 1], t[c + 2][k2 + off] as int, k2, c + 1, off, a, b));
                }
                lemma_walk_lower_bound(rest, x + 1, y, c + 1, t, off, a, b, d);
            },
        }
    }
}

/// Minimality of the search: when levels `0..d` of a trace over `a` and
/// `b` reached past both ends nowhere, every edit script turning `a` into
/// `b` has at least `d` inserts and deletes.
pub proof fn lemma_search_lower_bound(t: Seq<Seq<usize>>, a: Seq<Seq<char>>, b: Seq<Seq<char>>, d: int, ops: Seq<Edit>)
    requires
        t.len() == d + 1,
        d >= 0,
        trace_ok(t, (a.len() + b.len()) as int, a, b),
        levels_searched(t, (a.len() + b.len()) as int, a, b, d),
        is_edit_script(ops, a, b),
    ensures
        count_changes(ops) >= d,
{
    assert(on_level(0, 0));
    lemma_walk_lower_bound(ops, 0, 0, 0, t, (a.len() + b.len()) as int, a, b, d);
}

/// The smaller of `x` and `n`.
pub open spec fn clip(x: int, n: int) -> int {
    if x < n { x } else { n }
}

/// `w` witnesses point `x` on diagonal `k` at level `e`: it walks to the
/// point clipped to the edit graph, with at most `e` changes once every
/// step past either end is counted as one.
pub open spec fn witness_ok(w: Seq<Edit>, x: int, k: int, e: int, a: Seq<Seq<char>>, b: Seq<Seq<char>>) -> bool {
    let y = x - k;
    let cx = clip(x, a.len() as int);
    let cy = clip(y, b.len() as int);
    &&& path_to(w, cx, cy, a, b)
    &&& count_changes(w) + (x - cx) + (y - cy) <= e
}

/// The witnesses `ws` cover every diagonal of levels `0..d` of trace `t`.
pub open spec fn witnessed(ws: Seq<Seq<Seq<Edit>>>, t: Seq<Seq<usize>>, off: int, a: Seq<Seq<char>>, b: Seq<Seq<char>>, d: int) -> bool {
    forall|e: int, k: int| 0 <= e < d && on_level(k, e) ==> #[trigger] witness_ok(ws[e + 1][k + off], t[e + 1][k + off] as int, k, e, a, b)
}

/// The rows of a trace.
pub open spec fn rows(t: Seq<Vec<usize>>) -> Seq<Seq<usize>> {
    t.map_values(|r: Vec<usize>| r@)
}

/// A trace of search levels over `a` and `b`, each row following from the
/// one before, the first row all zero.
pub open spec fn trace_ok(t: Seq<Seq<usize>>, off: int, a: Seq<Seq<char>>, b: Seq<Seq<char>>) -> bool {
    &&& t.len() >= 1
    &&& forall|e: int| 0 <= e < t.len() ==> (#[trigger] t[e]).len() == 2 * off + 2
    &&& forall|i: int| 0 <= i < 2 * off + 2 ==> t[0][i] == 0
    &&& forall|e: int, i: int| 0 <= e < t.len() && 0 <= i < 2 * off + 2 ==> #[trigger] t[e][i] <= a.len() + e
    &&& forall|e: int| 0 <= e < t.len() - 1 ==> level_ok(#[trigger] t[e], t[e + 1], e, off, a, b)
}

/// A row of `len` zeros.
fn zero_row(len: usize) -> (r: Vec<usize>)
    ensures
        r@.len() == len,
        forall|i: int| 0 <= i < len ==> r@[i] == 0,
{
    let mut r: Vec<usize> = Vec::new();
    while r.len() < len
        invariant
            r@.len() <= len,
            forall|i: int| 0 <= i < r@.len() ==> r@[i] == 0,
        decreases len - r@.len(),
    {
        r.push(0);
    }
    r
}

/// A copy of the row `v`.
fn copy_row(v: &Vec<usize>) -> (r: Vec<usize>)
    ensures
        r@ == v@,
{
    let mut r: Vec<usize> = Vec::new();
    let mut i: usize = 0;
    while i < v.len()
        invariant
            i <= v@.len(),
            r@ == v@.subrange(0, i as int),
        decreases v@.len() - i,
    {
        r.push(v[i]);
        i += 1;
        assert(r@ =~= v@.subrange(0, i as int));
    }
    assert(v@.subrange(0, v@.len() as int) =~= v@);
    r
}

/// A shortest edit script turning `a` into `b`. Level `d` of the search
/// holds the furthest point reachable with `d` inserts and deletes on each
/// diagonal; the first level that reaches the far corner is the edit
/// distance, and the recorded trace gives back the path to it.
#[verifier::rlimit(60)]
pub fn myers_diff(a: &[String], b: &[String]) -> (edits: Vec<Edit>)
    requires
        a@.len() + b@.len() <= MAX_TOTAL_LINES,
    ensures
        is_edit_script(edits@, lines_view(a@), lines_view(b@)),
        count_changes(edits@) + 2 * count_keep(edits@) == a@.len() + b@.len(),
        forall|other: Seq<Edit>| #[trigger] is_edit_script(other, lines_view(a@), lines_view(b@))
            ==> count_changes(edits@) <= count_changes(other),
{
    let ghost la = lines_view(a@);
    let ghost lb = lines_view(b@);
    let n = a.len();
    let m = b.len();
    let max_d = n + m;
    let off = max_d;
    let width = 2 * max_d + 2;
    let mut v = zero_row(width);
    let mut trace: Vec<Vec<usize>> = Vec::new();
    let mut d: usize = 0;
    let ghost mut wits: Seq<Seq<Seq<Edit>>> = seq![Seq::empty()];
    while d <= max_d
        invariant
            n == a@.len(),
            m == b@.len(),
            max_d == n + m,
            off == max_d,
            max_d <= MAX_TOTAL_LINES,
            width == 2 * max_d + 2,
            la == lines_view(a@),
            lb == lines_view(b@),
            d <= max_d + 1,
            trace@.len() == d,
            v@.len() == width,
            trace_ok(rows(trace@).push(v@), off as int, la, lb),
            levels_searched(rows(trace@).push(v@), off as int, la, lb, d as int),
            wits.len() == d + 1,
            witnessed(wits, rows(trace@).push(v@), off as int, la, lb, d as int),
        decreases max_d + 1 - d,
    {
        let snap = copy_row(&v);
        proof {
            assert(rows(trace@.push(snap)) =~= rows(trace@).push(v@));
        }
        trace.push(snap);
        let ghost t = rows(trace@);
        let ghost p = v@;
        assert(t[d as int] == p);
        let mut idx: usize = off - d;
        let ghost mut cur: Seq<Seq<Edit>> = Seq::new(width as nat, |i: int| Seq::<Edit>::empty());
        while idx <= off + d
            invariant
                n == a@.len(),
                m == b@.len(),
                off == n + m,
                off <= MAX_TOTAL_LINES,
                width == 2 * off + 2,
                la == lines_view(a@),
                lb == lines_view(b@),
                d <= off,
                trace@.len() == d + 1,
                t == rows(trace@),
                trace_ok(t, off as int, la, lb),
                levels_searched(t, off as int, la, lb, d as int),
                wits.len() == d + 1,
                witnessed(wits, t, off as int, la, lb, d as int),
                cur.len() == width,
                forall|i: int| off - d <= i < idx && (i - (off - d)) % 2 == 0 ==>
                    witness_ok(#[trigger] cur[i], v@[i] as int, i - off, d as int, la, lb),
                p == t[d as int],
                v@.len() == width,
                off - d <= idx <= off + d + 2,
                (idx - (off - d)) % 2 == 0,
                forall|i: int| 0 <= i < width ==> (#[trigger] v@[i]) <= n + d + 1,
                forall|i: int| 0 <= i < width && !(off - d <= i < idx && (i - (off - d)) % 2 == 0) ==> #[trigger] v@[i] == p[i],
                forall|i: int| off - d <= i < idx && (i - (off - d)) % 2 == 0 ==>
                    point_ok(p, #[trigger] v@[i] as int, i - off, d as int, off as int, la, lb),
                forall|i: int| off - d <= i < idx && (i - (off - d)) % 2 == 0 ==>
                    searched_point(la, lb, #[trigger] v@[i] as int, i - off),
            decreases off + d + 2 - idx,
        {
            let ghost k: int = idx - off;
            assert(on_level(k, d as int));
            let ins = idx == off - d || (idx != off + d && v[idx - 1] < v[idx + 1]);
            assert(idx == off - d || v@[idx - 1] == p[idx - 1]);
            assert(v@[idx + 1] == p[idx + 1]);
            assert(ins == from_insert(p, k, d as int, off as int));
            let x0: usize = if ins { v[idx + 1] } else { v[idx - 1] + 1 };
            assert(x0 == start_x(p, k, d as int, off as int));
            proof {
                if d > 0 {
                    assert(level_ok(t[d - 1], t[d as int], d - 1, off as int, la, lb));
                    if ins {
                        assert(on_level(k + 1, d - 1));
                        assert(point_ok(t[d - 1], p[k + 1 + off] as int, k + 1, d - 1, off as int, la, lb));
                    } else {
                        assert(on_level(k - 1, d - 1));
                        assert(point_ok(t[d - 1], p[k - 1 + off] as int, k - 1, d - 1, off as int, la, lb));
                    }
                } else {
                    assert(t[0][off + 1] == 0);
                }
            }
            // A walk to the start point: the neighbour's walk, extended by
            // the entering insert or delete where that stays in the graph.
            let ghost mut w: Seq<Edit> = Seq::empty();
            proof {
                if d > 0 {
                    if ins {
                        let px: int = p[k + 1 + off] as int;
                        let py: int = px - (k + 1);
                        assert(witness_ok(wits[d as int][k + 1 + off], px, k + 1, d - 1, la, lb));
                        let wn = wits[d as int][k + 1 + off];
                        if py < m {
                            let st = Edit { operation: EditOp::Insert, old_index: clip(px, n as int) as usize, new_index: py as usize };
                            w = wn.push(st);
                            lemma_count_push(wn, st);
                            assert(w.drop_last() =~= wn);
                        } else {
                            w = wn;
                        }
                    } else {
                        let px: int = p[k - 1 + off] as int;
                        let py: int = px - (k - 1);
                        assert(witness_ok(wits[d as int][k - 1 + off], px, k - 1, d - 1, la, lb));
                        let wn = wits[d as int][k - 1 + off];
                        if px < n {
                            let st = Edit { operation: EditOp::Delete, old_index: px as usize, new_index: clip(py, m as int) as usize };
                            w = wn.push(st);
                            lemma_count_push(wn, st);
                            assert(w.drop_last() =~= wn);
                        } else {
                            w = wn;
                        }
                    }
                }
                assert(witness_ok(w, x0 as int, k, d as int, la, lb));
            }
            let mut x: usize = x0;
            let mut y: usize = x0 + off - idx;
            while x < n && y < m && a[x] == b[y]
                invariant
                    n == a@.len(),
                    m == b@.len(),
                    la == lines_view(a@),
                    lb == lines_view(b@),
                    x0 <= x <= n + d + 1,
                    x - y == k,
                    snake(la, lb, x0 as int, x as int, k),
                    witness_ok(w, x as int, k, d as int, la, lb),
                decreases n + d + 1 - x,
            {
                proof {
                    let st = Edit { operation: EditOp::Keep, old_index: x, new_index: y };
                    assert(la[x as int] == a@[x as int]@);
                    assert(lb[y as int] == b@[y as int]@);
                    lemma_count_push(w, st);
                    assert(w.push(st).drop_last() =~= w);
                    w = w.push(st);
                    lemma_snake_extend(la, lb, x0 as int, x as int, k);
                }
                x += 1;
                y += 1;
            }
            proof {
                if x < n && y < m {
                    assert(la[x as int] == a@[x as int]@);
                    assert(lb[y as int] == b@[y as int]@);
                }
            }
            v.set(idx, x);
            proof {
                cur = cur.update(idx as int, w);
            }
            assert(point_ok(p, x as int, k, d as int, off as int, la, lb));
            if x >= n && y >= m {
                // The first point past both ends is the far corner itself:
                // a point further out has a walk to the corner with fewer
                // changes than this level, which an earlier level would
                // have found.
                proof {
                    if x != n || y != m {
                        lemma_path_join(w, Seq::empty(), n as int, m as int, la, lb);
                        assert(w + Seq::<Edit>::empty() =~= w);
                        lemma_search_lower_bound(t, la, lb, d as int, w);
                    }
                }
                let edits = backtrack(trace.as_slice(), a, b, d);
                proof {
                    lemma_script_change_count(edits@, la, lb);
                }
                return edits;
            }
            assert(searched_point(la, lb, x as int, k));
            idx += 2;
        }
        proof {
            let t2 = t.push(v@);
            let w2 = wits.push(cur);
            assert forall|e: int, k: int| 0 <= e < d + 1 && on_level(k, e) implies
                #[trigger] witness_ok(w2[e + 1][k + off], t2[e + 1][k + off] as int, k, e, la, lb) by {
                if e < d {
                    assert(t2[e + 1] == t[e + 1]);
                    assert(w2[e + 1] == wits[e + 1]);
                } else {
                    assert(t2[e + 1] == v@);
                    assert(w2[e + 1] == cur);
                    assert(off - d <= k + off < idx);
                    assert((k + off - (off - d)) % 2 == 0);
                }
            }
            wits = w2;
            assert forall|e: int, k: int| 0 <= e < d + 1 && on_level(k, e) implies
                #[trigger] searched_point(la, lb, t2[e + 1][k + off] as int, k) by {
                if e < d {
                    assert(t2[e + 1] == t[e + 1]);
                } else {
                    assert(t2[e + 1] == v@);
                    assert(off - d <= k + off < idx);
                    assert((k + off - (off - d)) % 2 == 0);
                }
            }
            assert(level_ok(p, v@, d as int, off as int, la, lb)) by {
                assert forall|k: int| on_level(k, d as int) implies
                    #[trigger] point_ok(p, v@[k + off] as int, k, d as int, off as int, la, lb) by {
                    assert(off - d <= k + off < idx);
                    assert((k + off - (off - d)) % 2 == 0);
                }
            }
            assert forall|e: int| 0 <= e < t2.len() - 1 implies
                level_ok(#[trigger] t2[e], t2[e + 1], e, off as int, la, lb) by {
                if e < d {
                    assert(t2[e] == t[e] && t2[e + 1] == t[e + 1]);
                }
            }
            assert forall|e: int, i: int| 0 <= e < t2.len() && 0 <= i < 2 * off + 2 implies
                #[trigger] t2[e][i] <= a@.len() + e by {
                if e <= d {
                    assert(t2[e] == t[e]);
                }
            }
            assert(rows(trace@).push(v@) == t2);
        }
        d += 1;
    }
    // Not reached: deleting every line of `a` and inserting every line of
    // `b` takes `n + m` changes, so level `n + m` reaches the far corner.
    let all = full_script(n, m, Ghost(la), Ghost(lb));
    proof {
        lemma_script_change_count(all@, la, lb);
        lemma_search_lower_bound(rows(trace@).push(v@), la, lb, d as int, all@);
        assert(false);
    }
    all
}

/// Reconstructs the edit script from the trace of a search that reached
/// the far corner `(a.len(), b.len())` at level `d`: walking the levels
/// down, each one gives back its snake as kept lines and the single insert
/// or delete that entered it, chosen by the same tie-break as the search.
#[verifier::rlimit(40)]
pub fn backtrack(trace: &[Vec<usize>], a: &[String], b: &[String], d: usize) -> (edits: Vec<Edit>)
    requires
        a@.len() + b@.len() <= MAX_TOTAL_LINES,
        d <= a@.len() + b@.len(),
        trace@.len() == d + 1,
        trace_ok(rows(trace@), (a@.len() + b@.len()) as int, lines_view(a@), lines_view(b@)),
        on_level(a@.len() - b@.len(), d as int),
        point_ok(rows(trace@)[d as int], a@.len() as int, a@.len() - b@.len(), d as int,
            (a@.len() + b@.len()) as int, lines_view(a@), lines_view(b@)),
        levels_searched(rows(trace@), (a@.len() + b@.len()) as int, lines_view(a@), lines_view(b@), d as int),
    ensures
        is_edit_script(edits@, lines_view(a@), lines_view(b@)),
        count_changes(edits@) == d,
        forall|other: Seq<Edit>| #[trigger] is_edit_script(other, lines_view(a@), lines_view(b@))
            ==> count_changes(edits@) <= count_changes(other),
{
    let ghost la = lines_view(a@);
    let ghost lb = lines_view(b@);
    let ghost t = rows(trace@);
    let n = a.len();
    let m = b.len();
    let off = n + m;
    let mut rev: Vec<Edit> = Vec::new();
    let mut x: usize = n;
    let mut y: usize = m;
    let mut td: usize = d;
    loop
        invariant_except_break
            td <= d,
            x <= n,
            y <= m,
            on_level(x - y, td as int),
            point_ok(t[td as int], x as int, x - y, td as int, off as int, la, lb),
        invariant
            n == a@.len(),
            m == b@.len(),
            off == n + m,
            off <= MAX_TOTAL_LINES,
            d <= off,
            la == lines_view(a@),
            lb == lines_view(b@),
            t == rows(trace@),
            trace@.len() == d + 1,
            trace_ok(t, off as int, la, lb),
            path_from(rev@.reverse(), x as int, y as int, la, lb),
            count_changes(rev@.reverse()) + td == d,
        ensures
            x == 0,
            y == 0,
            td == 0,
        decreases td,
    {
        let ghost k: int = x - y;
        let v = &trace[td];
        assert(v@ == t[td as int]);
        let idx: usize = x + off - y;
        let ins = idx == off - td || (idx != off + td && v[idx - 1] < v[idx + 1]);
        assert(ins == from_insert(v@, k, td as int, off as int));
        let sx: usize = if ins { v[idx + 1] } else { v[idx - 1] + 1 };
        assert(sx == start_x(v@, k, td as int, off as int));
        // The snake that ends at (x, y) comes back as kept lines.
        while x > sx
            invariant
                sx <= x <= n,
                y <= m,
                x - y == k,
                sx - k >= 0,
                snake(la, lb, sx as int, x as int, k),
                path_from(rev@.reverse(), x as int, y as int, la, lb),
                count_changes(rev@.reverse()) + td == d,
            decreases x,
        {
            assert(match_at(la, lb, x - 1, k));
            x -= 1;
            y -= 1;
            let e = Edit { operation: EditOp::Keep, old_index: x, new_index: y };
            proof {
                lemma_path_prepend(e, rev@.reverse(), x as int, y as int, la, lb);
                assert(rev@.push(e).reverse() =~= seq![e] + rev@.reverse());
            }
            rev.push(e);
        }
        if td == 0 {
            assert(k == 0);
            break;
        }
        proof {
            assert(level_ok(t[td - 1], t[td as int], td - 1, off as int, la, lb));
        }
        if ins {
            proof {
                assert(on_level(k + 1, td - 1));
                assert(point_ok(t[td - 1], t[td as int][k + 1 + off] as int, k + 1, td - 1, off as int, la, lb));
            }
            y -= 1;
            let e = Edit { operation: EditOp::Insert, old_index: x, new_index: y };
            proof {
                lemma_path_prepend(e, rev@.reverse(), x as int, y as int, la, lb);
                assert(rev@.push(e).reverse() =~= seq![e] + rev@.reverse());
            }
            rev.push(e);
        } else {
            proof {
                assert(on_level(k - 1, td - 1));
                assert(point_ok(t[td - 1], t[td as int][k - 1 + off] as int, k - 1, td - 1, off as int, la, lb));
            }
            x -= 1;
            let e = Edit { operation: EditOp::Delete, old_index: x, new_index: y };
            proof {
                lemma_path_prepend(e, rev@.reverse(), x as int, y as int, la, lb);
                assert(rev@.push(e).reverse() =~= seq![e] + rev@.reverse());
            }
            rev.push(e);
        }
        td -= 1;
    }
    proof {
        assert forall|other: Seq<Edit>| #[trigger] is_edit_script(other, la, lb) implies
            count_changes(rev@.reverse()) <= count_changes(other) by {
            lemma_search_lower_bound(t, la, lb, d as int, other);
        }
    }
    reversed(rev)
}

/// An edit script that deletes every line of `a`, then inserts every line
/// of `b`.
fn full_script(n: usize, m: usize, Ghost(a): Ghost<Seq<Seq<char>>>, Ghost(b): Ghost<Seq<Seq<char>>>) -> (edits: Vec<Edit>)
    requires
        a.len() == n,
        b.len() == m,
    ensures
        is_edit_script(edits@, a, b),
{
    let mut rev: Vec<Edit> = Vec::new();
    let mut j: usize = m;
    while j > 0
        invariant
            j <= m,
            a.len() == n,
            b.len() == m,
            path_from(rev@.reverse(), n as int, j as int, a, b),
        decreases j,
    {
        j -= 1;
        let e = Edit { operation: EditOp::Insert, old_index: n, new_index: j };
        proof {
            lemma_path_prepend(e, rev@.reverse(), n as int, j as int, a, b);
            assert(rev@.push(e).reverse() =~= seq![e] + rev@.reverse());
        }
        rev.push(e);
    }
    let mut i: usize = n;
    while i > 0
        invariant
            i <= n,
            a.len() == n,
            b.len() == m,
            path_from(rev@.reverse(), i as int, 0, a, b),
        decreases i,
    {
        i -= 1;
        let e = Edit { operation: EditOp::Delete, old_index: i, new_index: 0 };
        proof {
            lemma_path_prepend(e, rev@.reverse(), i as int, 0, a, b);
            assert(rev@.push(e).reverse() =~= seq![e] + rev@.reverse());
        }
        rev.push(e);
    }
    reversed(rev)
}

/// The edits of `rev` in the opposite order.
fn reversed(rev: Vec<Edit>) -> (out: Vec<Edit>)
    ensures
        out@ == rev@.reverse(),
{
    let mut out: Vec<Edit> = Vec::new();
    let mut i: usize = rev.len();
    while i > 0
        invariant
            i <= rev.len(),
            out@ == rev@.subrange(i as int, rev@.len() as int).reverse(),
        decreases i,
    {
        i -= 1;
        proof {
            assert(rev@.subrange(i as int, rev@.len() as int).reverse() =~= rev@.subrange(i + 1, rev@.len() as int).reverse().push(rev@[i as int]));
        }
        out.push(rev[i]);
    }
    proof {
        assert(rev@.subrange(0, rev@.len() as int) =~= rev@);
    }
    out
}

} // verus!
