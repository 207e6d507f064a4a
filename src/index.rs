use vstd::prelude::*;
use std::collections::HashMap;
use crate::fingerprint::Side;
use crate::piece::Piece;

verus! {

broadcast use vstd::std_specs::hash::group_hash_axioms;

/// The fingerprints of one side of each tile, in order.
pub open spec fn side_hashes(pieces: Seq<Piece>, side: Side) -> Seq<u64> {
    pieces.map_values(|p: Piece| p.hash(side))
}

/// Positions, in increasing order, of the entries of `hs` equal to `key`.
pub open spec fn positions_of(hs: Seq<u64>, key: u64) -> Seq<usize>
    decreases hs.len(),
{
    if hs.len() == 0 {
        Seq::empty()
    } else {
        let rest = positions_of(hs.drop_last(), key);
        if hs.last() == key {
            rest.push((hs.len() - 1) as usize)
        } else {
            rest
        }
    }
}

/// The positions listed for `key` are exactly those holding `key`.
pub proof fn lemma_positions_of(hs: Seq<u64>, key: u64)
    requires
        hs.len() <= usize::MAX,
    ensures
        forall|t: int|
            0 <= t < positions_of(hs, key).len() ==> {
                let j = #[trigger] positions_of(hs, key)[t];
                j < hs.len() && hs[j as int] == key
            },
        forall|j: int|
            0 <= j < hs.len() && hs[j] == key ==> positions_of(hs, key).contains(j as usize),
    decreases hs.len(),
{
    if hs.len() > 0 {
        let init = hs.drop_last();
        lemma_positions_of(init, key);
        let rest = positions_of(init, key);
        assert forall|j: int| 0 <= j < hs.len() && hs[j] == key implies positions_of(
            hs,
            key,
        ).contains(j as usize) by {
            if j < hs.len() - 1 {
                assert(init[j] == hs[j]);
                let t = choose|t: int| 0 <= t < rest.len() && rest[t] == j as usize;
                if hs.last() == key {
                    assert(positions_of(hs, key)[t] == j as usize);
                }
            } else {
                assert(positions_of(hs, key).last() == j as usize);
            }
        }
    }
}

/// For each side, the tiles listed under each fingerprint, in tile order.
pub struct EdgeIndex {
    pub left: HashMap<u64, Vec<usize>>,
    pub top: HashMap<u64, Vec<usize>>,
    pub right: HashMap<u64, Vec<usize>>,
    pub bottom: HashMap<u64, Vec<usize>>,
}

/// `m` lists, under each fingerprint of `hs`, the positions holding it, and
/// holds no other key: every list is non-empty.
pub open spec fn indexes(m: Map<u64, Vec<usize>>, hs: Seq<u64>) -> bool {
    forall|key: u64|
        #![trigger positions_of(hs, key)]
        #![trigger m.contains_key(key)]
        {
            &&& m.contains_key(key) <==> positions_of(hs, key).len() > 0
            &&& m.contains_key(key) ==> m[key]@ == positions_of(hs, key)
        }
}

impl EdgeIndex {
    pub open spec fn side_map(&self, side: Side) -> Map<u64, Vec<usize>> {
        match side {
            Side::Left => self.left@,
            Side::Top => self.top@,
            Side::Right => self.right@,
            Side::Bottom => self.bottom@,
        }
    }

    /// Each side's map lists the tiles of `pieces` by that side's fingerprint.
    pub open spec fn indexes(&self, pieces: Seq<Piece>) -> bool {
        &&& indexes(self.left@, side_hashes(pieces, Side::Left))
        &&& indexes(self.top@, side_hashes(pieces, Side::Top))
        &&& indexes(self.right@, side_hashes(pieces, Side::Right))
        &&& indexes(self.bottom@, side_hashes(pieces, Side::Bottom))
    }

    /// The tiles whose `side` fingerprint is `key`, in tile order.
    pub fn lookup(&self, side: Side, key: u64) -> (r: Option<&Vec<usize>>)
        ensures
            match r {
                Some(v) => self.side_map(side).contains_key(key) && *v == self.side_map(side)[key],
                None => !self.side_map(side).contains_key(key),
            },
    {
        match side {
            Side::Left => self.left.get(&key),
            Side::Top => self.top.get(&key),
            Side::Right => self.right.get(&key),
            Side::Bottom => self.bottom.get(&key),
        }
    }
}

/// Lists every tile under its fingerprint of one side.
fn build_side(pieces: &[Piece], side: Side) -> (r: HashMap<u64, Vec<usize>>)
    ensures
        indexes(r@, side_hashes(pieces@, side)),
{
    let ghost hs = side_hashes(pieces@, side);
    let s = side.index();
    let mut m: HashMap<u64, Vec<usize>> = HashMap::new();
    let mut i: usize = 0;
    while i < pieces.len()
        invariant
            i <= pieces@.len(),
            hs == side_hashes(pieces@, side),
            s == side.index_spec(),
            indexes(m@, hs.subrange(0, i as int)),
        decreases pieces@.len() - i,
    {
        let key = pieces[i].edge_hashes[s];
        let ghost pre = hs.subrange(0, i as int);
        let ghost post = hs.subrange(0, i + 1);
        assert(post.drop_last() =~= pre);
        assert(post.last() == key);
        let mut list = match m.remove(&key) {
            Some(v) => v,
            None => Vec::new(),
        };
        assert(list@ == positions_of(pre, key)) by {
            if list@.len() == 0 {
                assert(positions_of(pre, key).len() == 0);
            }
        }
        list.push(i);
        m.insert(key, list);
        assert forall|k: u64| #[trigger] m@.contains_key(k) || true implies {
            &&& m@.contains_key(k) <==> positions_of(post, k).len() > 0
            &&& m@.contains_key(k) ==> m@[k]@ == positions_of(post, k)
        } by {
            assert(positions_of(pre, k) == positions_of(post.drop_last(), k));
        }
        i = i + 1;
    }
    assert(hs.subrange(0, i as int) =~= hs);
    m
}

/// Builds the four maps of the index, one per side.
pub fn build_hash_map(pieces: &[Piece]) -> (r: EdgeIndex)
    ensures
        r.indexes(pieces@),
{
    EdgeIndex {
        left: build_side(pieces, Side::Left),
        top: build_side(pieces, Side::Top),
        right: build_side(pieces, Side::Right),
        bottom: build_side(pieces, Side::Bottom),
    }
}

} // verus!
