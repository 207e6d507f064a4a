use vstd::prelude::*;
use vstd::multiset::Multiset;
use vstd::set_lib::{lemma_int_range, lemma_len_subset, set_int_range};
use crate::config::GridConfig;
use crate::fingerprint::Side;
use crate::index::{EdgeIndex, build_hash_map, side_hashes, positions_of, lemma_positions_of};
use crate::piece::Piece;

verus! {

/// Place of a tile in the traversal order: the origin, then the other
/// anchors, then everything else.
pub open spec fn rank(p: Piece) -> int {
    if p.is_origin() {
        0
    } else if p.is_anchor() {
        1
    } else {
        2
    }
}

/// The tiles of `s` of rank `r`, in their order in `s`.
pub open spec fn of_rank(s: Seq<Piece>, r: int) -> Seq<Piece>
    decreases s.len(),
{
    if s.len() == 0 {
        Seq::empty()
    } else {
        let rest = of_rank(s.drop_last(), r);
        if rank(s.last()) == r {
            rest.push(s.last())
        } else {
            rest
        }
    }
}

pub open spec fn coord_sum(p: Piece) -> int {
    p.col + p.row
}

/// Where tile `p` goes in a list kept in ascending coordinate sum: after
/// every leading tile whose sum is not larger than its own.
pub open spec fn sum_slot(s: Seq<Piece>, p: Piece) -> int
    decreases s.len(),
{
    if s.len() == 0 {
        0
    } else if coord_sum(s[0]) > coord_sum(p) {
        0
    } else {
        1 + sum_slot(s.drop_first(), p)
    }
}

/// `s` ordered by ascending coordinate sum, equal sums kept in their order.
pub open spec fn sorted_by_sum(s: Seq<Piece>) -> Seq<Piece>
    decreases s.len(),
{
    if s.len() == 0 {
        Seq::empty()
    } else {
        let rest = sorted_by_sum(s.drop_last());
        rest.insert(sum_slot(rest, s.last()), s.last())
    }
}

/// The traversal order of a tile set: the origin, then the other anchors by
/// ascending `col + row`, then the rest; ties kept in input order.
pub open spec fn arranged(s: Seq<Piece>) -> Seq<Piece> {
    of_rank(s, 0) + sorted_by_sum(of_rank(s, 1)) + of_rank(s, 2)
}

proof fn lemma_sum_slot_bound(s: Seq<Piece>, p: Piece)
    ensures
        0 <= sum_slot(s, p) <= s.len(),
    decreases s.len(),
{
    if s.len() > 0 {
        lemma_sum_slot_bound(s.drop_first(), p);
    }
}

pub open spec fn ascending_sum(s: Seq<Piece>) -> bool {
    forall|a: int, b: int| 0 <= a < b < s.len() ==> coord_sum(#[trigger] s[a]) <= coord_sum(#[trigger] s[b])
}

/// In a list of ascending sum, the tiles before `p`'s slot have a sum not
/// larger than `p`'s and the tiles from it on a larger one.
proof fn lemma_sum_slot_splits(s: Seq<Piece>, p: Piece)
    requires
        ascending_sum(s),
    ensures
        forall|t: int| 0 <= t < sum_slot(s, p) ==> coord_sum(#[trigger] s[t]) <= coord_sum(p),
        forall|t: int| sum_slot(s, p) <= t < s.len() ==> coord_sum(#[trigger] s[t]) > coord_sum(p),
    decreases s.len(),
{
    lemma_sum_slot_bound(s, p);
    if s.len() > 0 {
        let tail = s.drop_first();
        assert forall|a: int, b: int| 0 <= a < b < tail.len() implies coord_sum(#[trigger] tail[a]) <= coord_sum(#[trigger] tail[b]) by {
            assert(tail[a] == s[a + 1] && tail[b] == s[b + 1]);
        }
        lemma_sum_slot_splits(tail, p);
        if coord_sum(s[0]) > coord_sum(p) {
            assert forall|t: int| 0 <= t < s.len() implies coord_sum(#[trigger] s[t]) > coord_sum(p) by {
                if t > 0 {
                    assert(coord_sum(s[0]) <= coord_sum(s[t]));
                }
            }
        } else {
            assert forall|t: int| 1 <= t < s.len() implies #[trigger] s[t] == tail[t - 1] by {}
        }
    }
}

/// The anchors of the traversal order come by ascending `col + row`.
pub proof fn lemma_sorted_ascending(s: Seq<Piece>)
    ensures
        ascending_sum(sorted_by_sum(s)),
    decreases s.len(),
{
    if s.len() > 0 {
        let rest = sorted_by_sum(s.drop_last());
        lemma_sorted_ascending(s.drop_last());
        lemma_sum_slot_splits(rest, s.last());
        lemma_sum_slot_bound(rest, s.last());
        let k = sum_slot(rest, s.last());
        let r = sorted_by_sum(s);
        assert(r == rest.insert(k, s.last()));
        assert forall|a: int, b: int| 0 <= a < b < r.len() implies coord_sum(#[trigger] r[a]) <= coord_sum(#[trigger] r[b]) by {
            let ia = if a < k { a } else if a == k { -1 } else { a - 1 };
            let ib = if b < k { b } else if b == k { -1 } else { b - 1 };
            if ia >= 0 && ib >= 0 {
                assert(r[a] == rest[ia] && r[b] == rest[ib]);
            } else if ia < 0 {
                assert(r[b] == rest[ib]);
            } else {
                assert(r[a] == rest[ia]);
            }
        }
    }
}

/// Sorting keeps the number of tiles and their ranks.
proof fn lemma_sorted_by_sum(s: Seq<Piece>, r: int)
    requires
        forall|t: int| 0 <= t < s.len() ==> rank(#[trigger] s[t]) == r,
    ensures
        sorted_by_sum(s).len() == s.len(),
        forall|t: int| 0 <= t < s.len() ==> rank(#[trigger] sorted_by_sum(s)[t]) == r,
    decreases s.len(),
{
    if s.len() > 0 {
        let init = s.drop_last();
        assert forall|t: int| 0 <= t < init.len() implies rank(#[trigger] init[t]) == r by {
            assert(init[t] == s[t]);
        }
        lemma_sorted_by_sum(init, r);
        let rest = sorted_by_sum(init);
        lemma_sum_slot_bound(rest, s.last());
        let k = sum_slot(rest, s.last());
        assert forall|t: int| 0 <= t < s.len() implies rank(#[trigger] sorted_by_sum(s)[t]) == r by {
            if t < k {
                assert(sorted_by_sum(s)[t] == rest[t]);
            } else if t > k {
                assert(sorted_by_sum(s)[t] == rest[t - 1]);
            }
        }
    }
}

/// Position at which `p` joins `v` under ascending coordinate sum.
fn find_slot(v: &Vec<Piece>, p: &Piece) -> (r: usize)
    ensures
        r == sum_slot(v@, *p),
{
    let key = p.col as i64 + p.row as i64;
    let mut t: usize = 0;
    assert(v@.subrange(0, v@.len() as int) =~= v@);
    while t < v.len() && v[t].col as i64 + v[t].row as i64 <= key
        invariant
            t <= v@.len(),
            key == coord_sum(*p),
            sum_slot(v@, *p) == t + sum_slot(v@.subrange(t as int, v@.len() as int), *p),
        decreases v@.len() - t,
    {
        let ghost rest = v@.subrange(t as int, v@.len() as int);
        assert(rest.drop_first() =~= v@.subrange(t + 1, v@.len() as int));
        t = t + 1;
    }
    let ghost rest = v@.subrange(t as int, v@.len() as int);
    if t < v.len() {
        assert(rest[0] == v@[t as int]);
    }
    t
}

/// Each tile has exactly one rank, so arranging keeps the number of tiles.
pub proof fn lemma_of_rank_len(s: Seq<Piece>)
    ensures
        of_rank(s, 0).len() + of_rank(s, 1).len() + of_rank(s, 2).len() == s.len(),
        arranged(s).len() == s.len(),
    decreases s.len(),
{
    if s.len() > 0 {
        lemma_of_rank_len(s.drop_last());
    }
    lemma_of_rank_ranks(s, 1);
    lemma_sorted_by_sum(of_rank(s, 1), 1);
}

/// Every tile listed under rank `r` has rank `r`.
pub proof fn lemma_of_rank_ranks(s: Seq<Piece>, r: int)
    ensures
        forall|t: int| 0 <= t < of_rank(s, r).len() ==> rank(#[trigger] of_rank(s, r)[t]) == r,
    decreases s.len(),
{
    if s.len() > 0 {
        lemma_of_rank_ranks(s.drop_last(), r);
        let rest = of_rank(s.drop_last(), r);
        assert forall|t: int| 0 <= t < of_rank(s, r).len() implies rank(#[trigger] of_rank(s, r)[t]) == r by {
            if t < rest.len() {
                assert(of_rank(s, r)[t] == rest[t]);
            }
        }
    }
}

/// The only origin of `s` heads the traversal order.
pub proof fn lemma_of_rank_first(s: Seq<Piece>, o: int)
    requires
        0 <= o < s.len(),
        s[o].is_origin(),
        forall|k: int| 0 <= k < s.len() && (#[trigger] s[k]).is_origin() ==> k == o,
    ensures
        of_rank(s, 0).len() > 0,
        of_rank(s, 0)[0] == s[o],
        arranged(s).len() > 0,
        arranged(s)[0] == s[o],
    decreases s.len(),
{
    lemma_of_rank_len(s);
    let init = s.drop_last();
    if o == s.len() - 1 {
        assert forall|t: int| 0 <= t < init.len() implies rank(#[trigger] init[t]) != 0 by {
            assert(init[t] == s[t]);
        }
        lemma_no_rank(init, 0);
        assert(of_rank(s, 0) =~= seq![s[o]]);
    } else {
        assert forall|k: int| 0 <= k < init.len() && (#[trigger] init[k]).is_origin() implies k == o by {
            assert(init[k] == s[k]);
        }
        assert(init[o] == s[o]);
        lemma_of_rank_first(init, o);
        assert(!s[s.len() - 1].is_origin());
        assert(of_rank(s, 0) == of_rank(init, 0));
    }
    assert(arranged(s)[0] == of_rank(s, 0)[0]);
}

/// A sequence with no tile of rank `r` lists none under it.
proof fn lemma_no_rank(s: Seq<Piece>, r: int)
    requires
        forall|t: int| 0 <= t < s.len() ==> rank(#[trigger] s[t]) != r,
    ensures
        of_rank(s, r).len() == 0,
    decreases s.len(),
{
    if s.len() > 0 {
        let init = s.drop_last();
        assert forall|t: int| 0 <= t < init.len() implies rank(#[trigger] init[t]) != r by {
            assert(init[t] == s[t]);
        }
        lemma_no_rank(init, r);
    }
}

/// In traversal order an origin tile can only come first, unless two tiles
/// claim the top-left cell.
pub proof fn lemma_arranged_origin_first(s: Seq<Piece>)
    requires
        forall|i: int, j: int|
            0 <= i < arranged(s).len() && 0 <= j < arranged(s).len() && (#[trigger] arranged(s)[i]).is_origin()
                && (#[trigger] arranged(s)[j]).is_origin() ==> i == j,
    ensures
        forall|k: int| 0 <= k < arranged(s).len() && (#[trigger] arranged(s)[k]).is_origin() ==> k == 0,
{
    lemma_of_rank_ranks(s, 0);
    lemma_of_rank_ranks(s, 1);
    lemma_of_rank_ranks(s, 2);
    lemma_sorted_by_sum(of_rank(s, 1), 1);
    let a = arranged(s);
    let z = of_rank(s, 0);
    assert forall|k: int| 0 <= k < a.len() && (#[trigger] a[k]).is_origin() implies k == 0 by {
        if k >= z.len() {
            if k < z.len() + of_rank(s, 1).len() {
                assert(a[k] == sorted_by_sum(of_rank(s, 1))[k - z.len()]);
            } else {
                assert(a[k] == of_rank(s, 2)[k - z.len() - of_rank(s, 1).len()]);
            }
        }
        if z.len() >= 2 {
            assert(a[0] == z[0] && a[1] == z[1]);
            assert(a[0].is_origin() && a[1].is_origin());
        }
    }
}

proof fn lemma_sorted_by_sum_multiset(s: Seq<Piece>)
    ensures
        sorted_by_sum(s).to_multiset() == s.to_multiset(),
    decreases s.len(),
{
    broadcast use vstd::seq_lib::group_to_multiset_ensures;
    broadcast use vstd::multiset::group_multiset_axioms;

    if s.len() == 0 {
        assert(s =~= Seq::<Piece>::empty());
        assert(sorted_by_sum(s) =~= Seq::<Piece>::empty());
    } else {
        let init = s.drop_last();
        lemma_sorted_by_sum_multiset(init);
        let rest = sorted_by_sum(init);
        lemma_sum_slot_bound(rest, s.last());
        vstd::seq_lib::to_multiset_insert(rest, sum_slot(rest, s.last()), s.last());
        assert(init.push(s.last()) =~= s);
        vstd::seq_lib::to_multiset_build(init, s.last());
    }
}

proof fn lemma_of_rank_multiset(s: Seq<Piece>)
    ensures
        of_rank(s, 0).to_multiset().add(of_rank(s, 1).to_multiset()).add(of_rank(s, 2).to_multiset())
            == s.to_multiset(),
    decreases s.len(),
{
    broadcast use vstd::multiset::group_multiset_axioms;
    broadcast use vstd::seq_lib::group_to_multiset_ensures;

    if s.len() == 0 {
        vstd::multiset::lemma_multiset_empty_len(s.to_multiset());
        vstd::multiset::lemma_multiset_empty_len(of_rank(s, 0).to_multiset());
        vstd::multiset::lemma_multiset_empty_len(of_rank(s, 1).to_multiset());
        vstd::multiset::lemma_multiset_empty_len(of_rank(s, 2).to_multiset());
        assert(s.to_multiset() =~= Multiset::empty());
        assert(of_rank(s, 0).to_multiset().add(of_rank(s, 1).to_multiset()).add(of_rank(s, 2).to_multiset())
            =~= Multiset::empty());
    } else {
        let init = s.drop_last();
        let x = s.last();
        lemma_of_rank_multiset(init);
        assert(init.push(x) =~= s);
        vstd::seq_lib::to_multiset_build(init, x);
        vstd::seq_lib::to_multiset_build(of_rank(init, 0), x);
        vstd::seq_lib::to_multiset_build(of_rank(init, 1), x);
        vstd::seq_lib::to_multiset_build(of_rank(init, 2), x);
        assert(of_rank(s, 0).to_multiset().add(of_rank(s, 1).to_multiset()).add(of_rank(s, 2).to_multiset())
            =~= s.to_multiset());
    }
}

/// The traversal order holds the same tiles as the input, each as often.
pub proof fn lemma_arranged_permutes(s: Seq<Piece>)
    ensures
        arranged(s).to_multiset() == s.to_multiset(),
{
    broadcast use vstd::multiset::group_multiset_axioms;

    lemma_of_rank_multiset(s);
    lemma_sorted_by_sum_multiset(of_rank(s, 1));
    vstd::seq_lib::lemma_multiset_commutative(of_rank(s, 0), sorted_by_sum(of_rank(s, 1)));
    vstd::seq_lib::lemma_multiset_commutative(of_rank(s, 0) + sorted_by_sum(of_rank(s, 1)), of_rank(s, 2));
}

/// Reorders the tiles into traversal order.
pub fn arrange(pieces: &mut Vec<Piece>)
    ensures
        final(pieces)@ == arranged(old(pieces)@),
        final(pieces)@.len() == old(pieces)@.len(),
        ascending_sum(
            final(pieces)@.subrange(
                of_rank(old(pieces)@, 0).len() as int,
                (of_rank(old(pieces)@, 0).len() + of_rank(old(pieces)@, 1).len()) as int,
            ),
        ),
{
    proof {
        lemma_of_rank_len(pieces@);
        lemma_sorted_ascending(of_rank(pieces@, 1));
        let z = of_rank(pieces@, 0).len() as int;
        let a = arranged(pieces@);
        assert(a.subrange(z, z + of_rank(pieces@, 1).len()) =~= sorted_by_sum(of_rank(pieces@, 1)));
    }
    let ghost orig = pieces@;
    let mut origin: Vec<Piece> = Vec::new();
    let mut anchors: Vec<Piece> = Vec::new();
    let mut others: Vec<Piece> = Vec::new();
    let ghost mut k: int = 0;
    while pieces.len() > 0
        invariant
            0 <= k <= orig.len(),
            pieces@ == orig.subrange(k, orig.len() as int),
            origin@ == of_rank(orig.subrange(0, k), 0),
            anchors@ == sorted_by_sum(of_rank(orig.subrange(0, k), 1)),
            others@ == of_rank(orig.subrange(0, k), 2),
        decreases pieces@.len(),
    {
        let p = pieces.remove(0);
        proof {
            let next = orig.subrange(0, k + 1);
            assert(next.drop_last() =~= orig.subrange(0, k));
            assert(next.last() == p);
            assert(pieces@ =~= orig.subrange(k + 1, orig.len() as int));
            k = k + 1;
        }
        if p.col == 0 && p.row == 0 {
            origin.push(p);
        } else if p.col == 0 || p.row == 0 {
            let t = find_slot(&anchors, &p);
            proof {
                lemma_sum_slot_bound(anchors@, p);
                let prev = of_rank(orig.subrange(0, k - 1), 1);
                assert(of_rank(orig.subrange(0, k), 1) == prev.push(p));
                assert(prev.push(p).drop_last() =~= prev);
            }
            anchors.insert(t, p);
        } else {
            others.push(p);
        }
    }
    assert(orig.subrange(0, k) =~= orig);
    pieces.append(&mut origin);
    pieces.append(&mut anchors);
    pieces.append(&mut others);
}

/// The same tile, whatever its coordinates.
pub open spec fn same_tile(a: Piece, b: Piece) -> bool {
    a.image == b.image && a.edge_hashes == b.edge_hashes
}

pub open spec fn same_cell(a: Piece, b: Piece) -> bool {
    a.col == b.col && a.row == b.row
}

/// Tile `j`'s left border repeats tile `i`'s right border.
pub open spec fn fits_right(s: Seq<Piece>, i: int, j: int) -> bool {
    s[i].hash(Side::Right) == s[j].hash(Side::Left)
}

/// Tile `j`'s top border repeats tile `i`'s bottom border.
pub open spec fn fits_below(s: Seq<Piece>, i: int, j: int) -> bool {
    s[i].hash(Side::Bottom) == s[j].hash(Side::Top)
}

/// Tile `j` sits next to the placed tile `i`, not in the bottom-right cell, (right of it or below it) on a
/// matching border.
pub open spec fn placed_by(s: Seq<Piece>, i: int, j: int, grid_size: int) -> bool {
    &&& i != j
    &&& !terminal(s[i], grid_size)
    &&& 0 <= s[i].col
    &&& 0 <= s[i].row
    &&& {
        ||| fits_right(s, i, j) && s[j].col == s[i].col + 1 && s[j].row == s[i].row
        ||| fits_below(s, i, j) && s[j].col == s[i].col && s[j].row == s[i].row + 1
    }
}

/// The bottom-right cell, from which the traversal does not grow.
pub open spec fn terminal(p: Piece, grid_size: int) -> bool {
    p.col == grid_size - 1 && p.row == grid_size - 1
}

/// A tile the traversal grows from: the origin at the head of the order, or
/// a tile it placed.
pub open spec fn expanded(before: Seq<Piece>, after: Seq<Piece>, i: int) -> bool {
    ||| i == 0 && before[0].is_origin()
    ||| !before[i].resolved() && after[i].resolved()
}

/// A tile that fits right of tile `i` sits one column to its right, or every
/// other tile that fits there is placed.
pub open spec fn covers_right(s: Seq<Piece>, i: int) -> bool {
    ||| exists|j: int|
        0 <= j < s.len() && j != i && #[trigger] fits_right(s, i, j) && s[j].col == s[i].col + 1
            && s[j].row == s[i].row
    ||| forall|j: int| 0 <= j < s.len() && j != i && #[trigger] fits_right(s, i, j) ==> s[j].resolved()
}

/// A tile that fits below tile `i` sits one row below it, or every other
/// tile that fits there is placed.
pub open spec fn covers_below(s: Seq<Piece>, i: int) -> bool {
    ||| exists|j: int|
        0 <= j < s.len() && j != i && #[trigger] fits_below(s, i, j) && s[j].col == s[i].col
            && s[j].row == s[i].row + 1
    ||| forall|j: int| 0 <= j < s.len() && j != i && #[trigger] fits_below(s, i, j) ==> s[j].resolved()
}

/// `after` is what growing coordinates from the origin leaves of `before`:
/// tiles keep their content; placed tiles keep their cell; a tile that
/// changed cell was unresolved and now sits right of or below a placed tile
/// whose border it repeats and which is not in the bottom-right cell; every
/// tile grown from, unless it is in the bottom-right cell, has a fitting tile
/// one column to its right (one row below) unless every fitting tile was
/// placed already; and the coordinates of a tile grown from are at least 0
/// and sum to less than the number of tiles.
pub open spec fn assembled(before: Seq<Piece>, after: Seq<Piece>, grid_size: int) -> bool {
    &&& after.len() == before.len()
    &&& forall|i: int| 0 <= i < before.len() ==> same_tile(#[trigger] before[i], after[i])
    &&& forall|i: int|
        0 <= i < before.len() ==> {
            ||| same_cell(#[trigger] before[i], after[i])
            ||| !before[i].resolved() && exists|k: int| 0 <= k < after.len() && placed_by(after, k, i, grid_size)
        }
    &&& forall|i: int|
        0 <= i < before.len() && #[trigger] expanded(before, after, i) && !terminal(after[i], grid_size)
            ==> covers_right(after, i) && covers_below(after, i)
    &&& forall|i: int|
        0 <= i < before.len() && #[trigger] expanded(before, after, i) ==> 0 <= after[i].col && 0
            <= after[i].row && after[i].col + after[i].row <= before.len() - 1
}

/// Placing unresolved tiles keeps the placed neighbours of placed tile `i`.
proof fn lemma_covers_kept(a: Seq<Piece>, a2: Seq<Piece>, i: int)
    requires
        0 <= i < a.len(),
        a2.len() == a.len(),
        0 <= a[i].col,
        0 <= a[i].row,
        forall|k: int| 0 <= k < a.len() ==> same_tile(#[trigger] a[k], a2[k]),
        forall|k: int| 0 <= k < a.len() && #[trigger] a[k].resolved() ==> same_cell(a[k], a2[k]),
    ensures
        covers_right(a, i) ==> covers_right(a2, i),
        covers_below(a, i) ==> covers_below(a2, i),
{
    assert(a[i].resolved());
    assert(same_tile(a[i], a2[i]) && same_cell(a[i], a2[i]));
    if exists|j: int|
        0 <= j < a.len() && j != i && #[trigger] fits_right(a, i, j) && a[j].col == a[i].col + 1
            && a[j].row == a[i].row {
        let j = choose|j: int|
            0 <= j < a.len() && j != i && #[trigger] fits_right(a, i, j) && a[j].col == a[i].col + 1
                && a[j].row == a[i].row;
        assert(a[j].resolved());
        assert(same_tile(a[j], a2[j]) && same_cell(a[j], a2[j]));
        assert(fits_right(a2, i, j));
    } else if covers_right(a, i) {
        assert forall|j: int| 0 <= j < a2.len() && j != i && #[trigger] fits_right(a2, i, j) implies a2[j].resolved() by {
            assert(same_tile(a[j], a2[j]));
            assert(fits_right(a, i, j));
            assert(same_cell(a[j], a2[j]));
        }
    }
    if exists|j: int|
        0 <= j < a.len() && j != i && #[trigger] fits_below(a, i, j) && a[j].col == a[i].col
            && a[j].row == a[i].row + 1 {
        let j = choose|j: int|
            0 <= j < a.len() && j != i && #[trigger] fits_below(a, i, j) && a[j].col == a[i].col
                && a[j].row == a[i].row + 1;
        assert(a[j].resolved());
        assert(same_tile(a[j], a2[j]) && same_cell(a[j], a2[j]));
        assert(fits_below(a2, i, j));
    } else if covers_below(a, i) {
        assert forall|j: int| 0 <= j < a2.len() && j != i && #[trigger] fits_below(a2, i, j) implies a2[j].resolved() by {
            assert(same_tile(a[j], a2[j]));
            assert(fits_below(a, i, j));
            assert(same_cell(a[j], a2[j]));
        }
    }
}

/// The first tile of `list` other than `current` that is still unresolved.
fn find_candidate(pieces: &Vec<Piece>, list: &Vec<usize>, current: usize) -> (r: Option<usize>)
    requires
        forall|t: int| 0 <= t < list@.len() ==> #[trigger] list@[t] < pieces@.len(),
    ensures
        match r {
            Some(m) => exists|t: int|
                0 <= t < list@.len() && #[trigger] list@[t] == m && m != current
                    && !pieces@[m as int].resolved() && forall|u: int|
                    0 <= u < t ==> #[trigger] list@[u] == current || pieces@[list@[u] as int].resolved(),
            None => forall|t: int|
                0 <= t < list@.len() ==> #[trigger] list@[t] == current
                    || pieces@[list@[t] as int].resolved(),
        },
{
    let mut t: usize = 0;
    while t < list.len()
        invariant
            t <= list@.len(),
            forall|u: int| 0 <= u < list@.len() ==> #[trigger] list@[u] < pieces@.len(),
            forall|u: int|
                0 <= u < t ==> #[trigger] list@[u] == current || pieces@[list@[u] as int].resolved(),
        decreases list@.len() - t,
    {
        let id = list[t];
        if id != current && (pieces[id].col == -1 || pieces[id].row == -1) {
            return Some(id);
        }
        t = t + 1;
    }
    None
}

/// The first tile listed in `list`, other than `cur`, that is not placed.
pub open spec fn first_free(s: Seq<Piece>, list: Seq<usize>, cur: int) -> Option<int>
    decreases list.len(),
{
    if list.len() == 0 {
        None
    } else if list[0] as int != cur && !s[list[0] as int].resolved() {
        Some(list[0] as int)
    } else {
        first_free(s, list.drop_first(), cur)
    }
}

/// One side of a growth step: the first free tile whose `opp` fingerprint
/// is tile `cur`'s `side` fingerprint, if any, goes to (`col`, `row`) and
/// onto the stack.
pub open spec fn expand(
    s: Seq<Piece>,
    stack: Seq<usize>,
    cur: int,
    side: Side,
    opp: Side,
    col: int,
    row: int,
) -> (Seq<Piece>, Seq<usize>) {
    match first_free(s, positions_of(side_hashes(s, opp), s[cur].hash(side)), cur) {
        Some(m) => (s.update(m, Piece { col: col as i32, row: row as i32, ..s[m] }), stack.push(m as usize)),
        None => (s, stack),
    }
}

/// One growth step: pop the top of the stack and, unless it sits in the
/// bottom-right cell, expand it to the right, then downward.
pub open spec fn step(s: Seq<Piece>, stack: Seq<usize>, grid_size: int) -> (Seq<Piece>, Seq<usize>) {
    let cur = stack.last() as int;
    let rest = stack.drop_last();
    let p = s[cur];
    if terminal(p, grid_size) {
        (s, rest)
    } else {
        let r = expand(s, rest, cur, Side::Right, Side::Left, p.col + 1, p.row as int);
        expand(r.0, r.1, cur, Side::Bottom, Side::Top, p.col as int, p.row + 1)
    }
}

/// At most `fuel` growth steps, stopping when the stack is empty.
pub open spec fn run(s: Seq<Piece>, stack: Seq<usize>, grid_size: int, fuel: nat) -> Seq<Piece>
    decreases fuel,
{
    if fuel == 0 || stack.len() == 0 {
        s
    } else {
        let r = step(s, stack, grid_size);
        run(r.0, r.1, grid_size, (fuel - 1) as nat)
    }
}

/// The tiles after depth-first growth from the origin at the head of `s`
/// (`3 * s.len() + 1` steps are always enough).
pub open spec fn grown(s: Seq<Piece>, grid_size: int) -> Seq<Piece> {
    let start = if s.len() > 0 && s[0].is_origin() { seq![0usize] } else { Seq::empty() };
    run(s, start, grid_size, (3 * s.len() + 1) as nat)
}

proof fn lemma_first_free_some(s: Seq<Piece>, list: Seq<usize>, cur: int, t: int)
    requires
        0 <= t < list.len(),
        list[t] as int != cur,
        !s[list[t] as int].resolved(),
        forall|u: int| 0 <= u < t ==> #[trigger] list[u] as int == cur || s[list[u] as int].resolved(),
    ensures
        first_free(s, list, cur) == Some(list[t] as int),
    decreases t,
{
    if t > 0 {
        let tail = list.drop_first();
        assert forall|u: int| 0 <= u < t - 1 implies #[trigger] tail[u] as int == cur || s[tail[u] as int].resolved() by {
            assert(tail[u] == list[u + 1]);
        }
        assert(list[0] as int == cur || s[list[0] as int].resolved());
        lemma_first_free_some(s, tail, cur, t - 1);
    }
}

proof fn lemma_first_free_none(s: Seq<Piece>, list: Seq<usize>, cur: int)
    requires
        forall|u: int| 0 <= u < list.len() ==> #[trigger] list[u] as int == cur || s[list[u] as int].resolved(),
    ensures
        first_free(s, list, cur) is None,
    decreases list.len(),
{
    if list.len() > 0 {
        let tail = list.drop_first();
        assert forall|u: int| 0 <= u < tail.len() implies #[trigger] tail[u] as int == cur || s[tail[u] as int].resolved() by {
            assert(tail[u] == list[u + 1]);
        }
        assert(list[0] as int == cur || s[list[0] as int].resolved());
        lemma_first_free_none(s, tail, cur);
    }
}

/// Grows grid coordinates outward from the origin, as `grown` states (the tile at the head of
/// the order, if it is the origin): a tile taken from the work stack, unless
/// it sits in the bottom-right cell, places the first still unresolved other
/// tile listed under its right fingerprint among left borders one column to
/// its right, and likewise the first listed under its bottom fingerprint among
/// top borders one row below; each tile placed goes on the stack.
#[verifier::rlimit(100)]
#[verifier::spinoff_prover]
pub fn grow(pieces: &mut Vec<Piece>, index: &EdgeIndex, grid_size: u32)
    requires
        old(pieces)@.len() <= i32::MAX,
        index.indexes(old(pieces)@),
    ensures
        final(pieces)@ == grown(old(pieces)@, grid_size as int),
        assembled(old(pieces)@, final(pieces)@, grid_size as int),
{
    let ghost b = pieces@;
    let n = pieces.len();
    let mut stack: Vec<usize> = Vec::new();
    if n > 0 && pieces[0].col == 0 && pieces[0].row == 0 {
        stack.push(0);
    }
    let ghost mut placer: Seq<int> = Seq::new(n as nat, |i: int| 0int);
    let ghost mut newly: Set<int> = Set::empty();
    let ghost start = stack@;
    let ghost fuel: int = 3 * n + 1;
    let ghost mut iters: int = 0;
    proof {
        assert(start =~= (if b.len() > 0 && b[0].is_origin() { seq![0usize] } else { Seq::<usize>::empty() }));
        assert forall|i: int| 0 <= i < n && #[trigger] expanded(b, pieces@, i) implies stack@.contains(i as usize) by {
            assert(stack@[0] == 0);
        }
    }
    while stack.len() > 0
        invariant
            n == b.len(),
            pieces@.len() == n,
            n <= i32::MAX,
            index.indexes(b),
            placer.len() == n,
            forall|i: int| 0 <= i < n ==> same_tile(#[trigger] b[i], pieces@[i]),
            forall|i: int|
                0 <= i < n ==> (same_cell(#[trigger] b[i], pieces@[i]) || (!b[i].resolved() && 0 <= placer[i] < n
                    && placed_by(pieces@, placer[i], i, grid_size as int))),
            newly.finite(),
            newly.len() <= n,
            n > 0 && b[0].is_origin() ==> newly.len() + 1 <= n,
            forall|i: int| #[trigger] newly.contains(i) ==> n > 0 && b[0].is_origin(),
            forall|i: int|
                #[trigger] newly.contains(i) <==> (0 <= i < n && !b[i].resolved() && pieces@[i].resolved()),
            forall|i: int|
                0 <= i < n && #[trigger] expanded(b, pieces@, i) ==> 0 <= pieces@[i].col && 0 <= pieces@[i].row
                    && pieces@[i].col + pieces@[i].row <= newly.len(),
            forall|t: int|
                0 <= t < stack@.len() ==> #[trigger] stack@[t] < n && expanded(b, pieces@, stack@[t] as int),
            forall|i: int|
                0 <= i < n && #[trigger] expanded(b, pieces@, i) && !stack@.contains(i as usize) && !terminal(
                    pieces@[i],
                    grid_size as int,
                ) ==> covers_right(pieces@, i) && covers_below(pieces@, i),
            0 <= iters,
            iters + 3 * (n - newly.len()) + stack@.len() <= fuel,
            fuel == 3 * n + 1,
            run(b, start, grid_size as int, fuel as nat) == run(pieces@, stack@, grid_size as int, (fuel - iters) as nat),
        decreases 3 * (n - newly.len()) + stack@.len(),
    {
        let ghost st0 = stack@;
        let ghost s0 = pieces@;
        let cur = match stack.pop() {
            Some(c) => c,
            None => 0,
        };
        proof {
            assert(st0[st0.len() - 1] == cur);
            assert(expanded(b, pieces@, cur as int));
            assert forall|i: int| 0 <= i < n && #[trigger] expanded(b, pieces@, i) && i != cur && !stack@.contains(i as usize) && !terminal(pieces@[i], grid_size as int) implies covers_right(pieces@, i) && covers_below(pieces@, i) by {
                if st0.contains(i as usize) {
                    let t = choose|t: int| 0 <= t < st0.len() && st0[t] == i as usize;
                    assert(stack@[t] == i as usize);
                }
            }
            assert forall|t: int| 0 <= t < stack@.len() implies #[trigger] stack@[t] < n && expanded(b, pieces@, stack@[t] as int) by {
                assert(stack@[t] == st0[t]);
            }
        }
        let col = pieces[cur].col;
        let row = pieces[cur].row;
        if !(col as i64 == grid_size as i64 - 1 && row as i64 == grid_size as i64 - 1) {

            let ghost ss = pieces@;
            let ghost sk = stack@;
            let key = pieces[cur].edge_hashes[2];
            proof {
                assert(side_hashes(ss, Side::Left) =~= side_hashes(b, Side::Left)) by {
                    assert forall|j: int| 0 <= j < n implies #[trigger] side_hashes(ss, Side::Left)[j] == side_hashes(b, Side::Left)[j] by {
                        assert(same_tile(b[j], ss[j]));
                    }
                }
                assert(same_tile(b[cur as int], ss[cur as int]));
                assert(ss[cur as int] == s0[cur as int]);
                lemma_positions_of(side_hashes(b, Side::Left), key);
                assert(key == b[cur as int].hash(Side::Right));
            }
            match index.lookup(Side::Left, key) {
                Some(list) => {
                    assert(list@ == positions_of(side_hashes(b, Side::Left), key));
                    match find_candidate(pieces, list, cur) {
                        Some(m) => {
                            let ghost a1 = pieces@;
                            proof {
                                let t = choose|t: int|
                                    0 <= t < list@.len() && #[trigger] list@[t] == m && m != cur
                                        && !a1[m as int].resolved() && forall|u: int|
                                        0 <= u < t ==> #[trigger] list@[u] == cur || a1[list@[u] as int].resolved();
                                assert(side_hashes(b, Side::Left)[m as int] == key);
                                assert(same_tile(b[m as int], a1[m as int]));
                                assert(fits_right(a1, cur as int, m as int));
                                assert(!newly.contains(m as int));
                                assert(n > 0 && b[0].is_origin()) by {
                                    if !(cur == 0 && b[0].is_origin()) {
                                        assert(newly.contains(cur as int));
                                    }
                                }
                                assert(same_cell(b[0], a1[0]));
                                assert(newly.insert(m as int).subset_of(set_int_range(1, n as int)));
                                lemma_int_range(1, n as int);
                                lemma_len_subset(newly.insert(m as int), set_int_range(1, n as int));
                            }
                            pieces[m].col = col + 1;
                            pieces[m].row = row;
                            proof {
                                let a2 = pieces@;
                                assert(placed_by(a2, cur as int, m as int, grid_size as int));
                                placer = placer.update(m as int, cur as int);
                                newly = newly.insert(m as int);
                                assert forall|i: int| 0 <= i < n && #[trigger] a1[i].resolved() implies same_cell(a1[i], a2[i]) by {
                                    if i != m {
                                        assert(a2[i] == a1[i]);
                                    }
                                }
                                assert forall|i: int| 0 <= i < n implies same_tile(#[trigger] b[i], a2[i]) by {
                                    assert(same_tile(b[i], a1[i]));
                                }
                                assert forall|i: int| 0 <= i < n implies (same_cell(#[trigger] b[i], a2[i]) || (!b[i].resolved() && 0 <= placer[i] < n && placed_by(a2, placer[i], i, grid_size as int))) by {
                                    if i != m {
                                        assert(a2[i] == a1[i]);
                                        if !same_cell(b[i], a1[i]) {
                                            let k = placer[i];
                                            assert(placed_by(a1, k, i, grid_size as int));
                                            assert(a1[k].resolved());
                                            assert(a2[k] == a1[k]);
                                        }
                                    }
                                }
                                assert forall|i: int| 0 <= i < n implies #[trigger] expanded(b, a2, i) == (expanded(b, a1, i) || i == m) by {
                                    if i != m {
                                        assert(a2[i] == a1[i]);
                                    }
                                }
                                assert forall|i: int| 0 <= i < n && #[trigger] expanded(b, a2, i) implies 0 <= a2[i].col && 0 <= a2[i].row && a2[i].col + a2[i].row <= newly.len() by {
                                    if i != m {
                                        assert(a2[i] == a1[i]);
                                    }
                                }
                                assert forall|i: int| 0 <= i < n && #[trigger] expanded(b, a1, i) && i != cur && !stack@.contains(i as usize) && !terminal(a1[i], grid_size as int) implies covers_right(a2, i) && covers_below(a2, i) by {
                                    lemma_covers_kept(a1, a2, i);
                                }
                                assert forall|i: int| 0 <= i < n && #[trigger] expanded(b, a2, i) && i != cur && !stack@.push(m).contains(i as usize) && !terminal(a2[i], grid_size as int) implies covers_right(a2, i) && covers_below(a2, i) by {
                                    assert(stack@.push(m)[stack@.len() as int] == m);
                                    if i != m {
                                        assert(a2[i] == a1[i]);
                                        if stack@.contains(i as usize) {
                                            let t = choose|t: int| 0 <= t < stack@.len() && stack@[t] == i as usize;
                                            assert(stack@.push(m)[t] == i as usize);
                                        }
                                    }
                                }
                                lemma_covers_kept(a1, a2, cur as int);
                                assert(covers_right(a2, cur as int));
                            }
                            stack.push(m);
                            proof {
                                let t = choose|t: int|
                                    0 <= t < list@.len() && #[trigger] list@[t] == m && m != cur
                                        && !a1[m as int].resolved() && forall|u: int|
                                        0 <= u < t ==> #[trigger] list@[u] == cur || a1[list@[u] as int].resolved();
                                lemma_first_free_some(a1, list@, cur as int, t);
                            }
                        },
                        None => {
                            proof {
                                let a1 = pieces@;
                                lemma_first_free_none(a1, list@, cur as int);
                                assert forall|j: int| 0 <= j < a1.len() && j != cur && #[trigger] fits_right(a1, cur as int, j) implies a1[j].resolved() by {
                                    assert(same_tile(b[j], a1[j]));
                                    assert(side_hashes(b, Side::Left)[j] == key);
                                    assert(list@.contains(j as usize));
                                    let t = choose|t: int| 0 <= t < list@.len() && list@[t] == j as usize;
                                    assert(list@[t] == cur || a1[list@[t] as int].resolved());
                                }
                            }
                        },
                    }
                },
                None => {
                    proof {
                        let a1 = pieces@;
                        assert forall|j: int| 0 <= j < a1.len() && j != cur && #[trigger] fits_right(a1, cur as int, j) implies a1[j].resolved() by {
                            assert(same_tile(b[j], a1[j]));
                            assert(side_hashes(b, Side::Left)[j] == key);
                            assert(positions_of(side_hashes(b, Side::Left), key).contains(j as usize));
                            assert(positions_of(side_hashes(b, Side::Left), key).len() > 0);
                        }
                    }
                },
            }


            assert(pieces@ == expand(ss, sk, cur as int, Side::Right, Side::Left, col + 1, row as int).0);
            assert(stack@ == expand(ss, sk, cur as int, Side::Right, Side::Left, col + 1, row as int).1);
            let ghost ss = pieces@;
            let ghost sk = stack@;
            let key = pieces[cur].edge_hashes[3];
            proof {
                assert(side_hashes(ss, Side::Top) =~= side_hashes(b, Side::Top)) by {
                    assert forall|j: int| 0 <= j < n implies #[trigger] side_hashes(ss, Side::Top)[j] == side_hashes(b, Side::Top)[j] by {
                        assert(same_tile(b[j], ss[j]));
                    }
                }
                assert(same_tile(b[cur as int], ss[cur as int]));
                assert(ss[cur as int] == s0[cur as int]);
                lemma_positions_of(side_hashes(b, Side::Top), key);
                assert(key == b[cur as int].hash(Side::Bottom));
            }
            match index.lookup(Side::Top, key) {
                Some(list) => {
                    assert(list@ == positions_of(side_hashes(b, Side::Top), key));
                    match find_candidate(pieces, list, cur) {
                        Some(m) => {
                            let ghost a1 = pieces@;
                            proof {
                                let t = choose|t: int|
                                    0 <= t < list@.len() && #[trigger] list@[t] == m && m != cur
                                        && !a1[m as int].resolved() && forall|u: int|
                                        0 <= u < t ==> #[trigger] list@[u] == cur || a1[list@[u] as int].resolved();
                                assert(side_hashes(b, Side::Top)[m as int] == key);
                                assert(same_tile(b[m as int], a1[m as int]));
                                assert(fits_below(a1, cur as int, m as int));
                                assert(!newly.contains(m as int));
                                assert(n > 0 && b[0].is_origin()) by {
                                    if !(cur == 0 && b[0].is_origin()) {
                                        assert(newly.contains(cur as int));
                                    }
                                }
                                assert(same_cell(b[0], a1[0]));
                                assert(newly.insert(m as int).subset_of(set_int_range(1, n as int)));
                                lemma_int_range(1, n as int);
                                lemma_len_subset(newly.insert(m as int), set_int_range(1, n as int));
                            }
                            pieces[m].col = col;
                            pieces[m].row = row + 1;
                            proof {
                                let a2 = pieces@;
                                assert(placed_by(a2, cur as int, m as int, grid_size as int));
                                placer = placer.update(m as int, cur as int);
                                newly = newly.insert(m as int);
                                assert forall|i: int| 0 <= i < n && #[trigger] a1[i].resolved() implies same_cell(a1[i], a2[i]) by {
                                    if i != m {
                                        assert(a2[i] == a1[i]);
                                    }
                                }
                                assert forall|i: int| 0 <= i < n implies same_tile(#[trigger] b[i], a2[i]) by {
                                    assert(same_tile(b[i], a1[i]));
                                }
                                assert forall|i: int| 0 <= i < n implies (same_cell(#[trigger] b[i], a2[i]) || (!b[i].resolved() && 0 <= placer[i] < n && placed_by(a2, placer[i], i, grid_size as int))) by {
                                    if i != m {
                                        assert(a2[i] == a1[i]);
                                        if !same_cell(b[i], a1[i]) {
                                            let k = placer[i];
                                            assert(placed_by(a1, k, i, grid_size as int));
                                            assert(a1[k].resolved());
                                            assert(a2[k] == a1[k]);
                                        }
                                    }
                                }
                                assert forall|i: int| 0 <= i < n implies #[trigger] expanded(b, a2, i) == (expanded(b, a1, i) || i == m) by {
                                    if i != m {
                                        assert(a2[i] == a1[i]);
                                    }
                                }
                                assert forall|i: int| 0 <= i < n && #[trigger] expanded(b, a2, i) implies 0 <= a2[i].col && 0 <= a2[i].row && a2[i].col + a2[i].row <= newly.len() by {
                                    if i != m {
                                        assert(a2[i] == a1[i]);
                                    }
                                }
                                assert forall|i: int| 0 <= i < n && #[trigger] expanded(b, a1, i) && i != cur && !stack@.contains(i as usize) && !terminal(a1[i], grid_size as int) implies covers_right(a2, i) && covers_below(a2, i) by {
                                    lemma_covers_kept(a1, a2, i);
                                }
                                assert forall|i: int| 0 <= i < n && #[trigger] expanded(b, a2, i) && i != cur && !stack@.push(m).contains(i as usize) && !terminal(a2[i], grid_size as int) implies covers_right(a2, i) && covers_below(a2, i) by {
                                    assert(stack@.push(m)[stack@.len() as int] == m);
                                    if i != m {
                                        assert(a2[i] == a1[i]);
                                        if stack@.contains(i as usize) {
                                            let t = choose|t: int| 0 <= t < stack@.len() && stack@[t] == i as usize;
                                            assert(stack@.push(m)[t] == i as usize);
                                        }
                                    }
                                }
                                lemma_covers_kept(a1, a2, cur as int);
                                assert(covers_below(a2, cur as int));
                            }
                            stack.push(m);
                            proof {
                                let t = choose|t: int|
                                    0 <= t < list@.len() && #[trigger] list@[t] == m && m != cur
                                        && !a1[m as int].resolved() && forall|u: int|
                                        0 <= u < t ==> #[trigger] list@[u] == cur || a1[list@[u] as int].resolved();
                                lemma_first_free_some(a1, list@, cur as int, t);
                            }
                        },
                        None => {
                            proof {
                                let a1 = pieces@;
                                lemma_first_free_none(a1, list@, cur as int);
                                assert forall|j: int| 0 <= j < a1.len() && j != cur && #[trigger] fits_below(a1, cur as int, j) implies a1[j].resolved() by {
                                    assert(same_tile(b[j], a1[j]));
                                    assert(side_hashes(b, Side::Top)[j] == key);
                                    assert(list@.contains(j as usize));
                                    let t = choose|t: int| 0 <= t < list@.len() && list@[t] == j as usize;
                                    assert(list@[t] == cur || a1[list@[t] as int].resolved());
                                }
                            }
                        },
                    }
                },
                None => {
                    proof {
                        let a1 = pieces@;
                        assert forall|j: int| 0 <= j < a1.len() && j != cur && #[trigger] fits_below(a1, cur as int, j) implies a1[j].resolved() by {
                            assert(same_tile(b[j], a1[j]));
                            assert(side_hashes(b, Side::Top)[j] == key);
                            assert(positions_of(side_hashes(b, Side::Top), key).contains(j as usize));
                            assert(positions_of(side_hashes(b, Side::Top), key).len() > 0);
                        }
                    }
                },
            }
            assert(pieces@ == expand(ss, sk, cur as int, Side::Bottom, Side::Top, col as int, row + 1).0);
            assert(stack@ == expand(ss, sk, cur as int, Side::Bottom, Side::Top, col as int, row + 1).1);
            assert(covers_right(pieces@, cur as int));
            assert(covers_below(pieces@, cur as int));
        }
        proof {
            let r = step(s0, st0, grid_size as int);
            assert(pieces@ == r.0 && stack@ == r.1);
            assert(fuel - iters >= 1);
            assert(run(s0, st0, grid_size as int, (fuel - iters) as nat) == run(pieces@, stack@, grid_size as int, (fuel - iters - 1) as nat));
            iters = iters + 1;
        }
        proof {
            assert forall|i: int| 0 <= i < n && #[trigger] expanded(b, pieces@, i) && !stack@.contains(i as usize) && !terminal(pieces@[i], grid_size as int) implies covers_right(pieces@, i) && covers_below(pieces@, i) by {
                if i == cur {
                    assert(same_cell(pieces@[i], pieces@[cur as int]));
                }
            }
        }
    }
    assert(pieces@ == grown(b, grid_size as int));
    proof {
        assert forall|i: int|
            0 <= i < n && #[trigger] expanded(b, pieces@, i) implies 0 <= pieces@[i].col && 0
                <= pieces@[i].row && pieces@[i].col + pieces@[i].row <= n - 1 by {
            if !(i == 0 && b[0].is_origin()) {
                assert(newly.contains(i));
            }
        }
    }
}

/// Arranges the tiles into traversal order, indexes their borders and grows
/// coordinates from the origin.
pub fn assemble_puzzle(pieces: &mut Vec<Piece>, config: &GridConfig)
    requires
        old(pieces)@.len() <= i32::MAX,
    ensures
        final(pieces)@.len() == old(pieces)@.len(),
        final(pieces)@ == grown(arranged(old(pieces)@), config.grid_size as int),
        assembled(arranged(old(pieces)@), final(pieces)@, config.grid_size as int),
{
    arrange(pieces);
    let index = build_hash_map(pieces.as_slice());
    grow(pieces, &index, config.grid_size);
}

} // verus!
