use vstd::prelude::*;

use crate::tile::{lemma_tile_index_injective, spec_tile_index, tile_index, Tile};

verus! {

/// Why a tile sequence is not a valid closed hand.
#[derive(Clone, Copy, PartialEq, Eq, Structural, Debug)]
pub enum ValidationError {
    /// The hand does not hold exactly 14 tiles; carries the actual count.
    WrongTileCount(usize),
    /// A tile value occurs more than 4 times; carries the tile and its count.
    ExcessCopies(Tile, usize),
}

/// How many times a tile occurs in a sequence.
pub open spec fn occ(s: Seq<Tile>, t: Tile) -> nat
    decreases s.len(),
{
    if s.len() == 0 {
        0
    } else {
        (if s[0] == t {
            1nat
        } else {
            0nat
        }) + occ(s.drop_first(), t)
    }
}

/// A tile that occurs at all occurs at some position.
pub proof fn lemma_occ_positive_exists(s: Seq<Tile>, t: Tile)
    requires
        occ(s, t) > 0,
    ensures
        exists|i: int| 0 <= i < s.len() && s[i] == t,
    decreases s.len(),
{
    if s[0] == t {
        assert(0 <= 0 < s.len() && s[0] == t);
    } else {
        lemma_occ_positive_exists(s.drop_first(), t);
        let i = choose|i: int| 0 <= i < s.drop_first().len() && s.drop_first()[i] == t;
        assert(s[i + 1] == t);
    }
}

/// Occurrence counting agrees with the multiset a sequence folds to.
pub proof fn lemma_occ_multiset(s: Seq<Tile>, t: Tile)
    ensures
        occ(s, t) == s.to_multiset().count(t),
    decreases s.len(),
{
    broadcast use vstd::seq_lib::group_to_multiset_ensures;
    broadcast use vstd::multiset::group_multiset_axioms;

    if s.len() == 0 {
        assert(s.to_multiset().count(t) <= s.to_multiset().len());
    } else {
        lemma_occ_multiset(s.drop_first(), t);
        assert(s.remove(0) =~= s.drop_first());
        assert(s.remove(0).to_multiset() == s.to_multiset().remove(s[0]));
        assert(s.contains(s[0]));
        assert(s.to_multiset().count(s[0]) > 0);
    }
}

/// Counting is blind to order: sequences holding the same tiles, however
/// arranged, give the same occurrence count for every tile.
pub proof fn lemma_occ_permutation(s1: Seq<Tile>, s2: Seq<Tile>)
    requires
        s1.to_multiset() == s2.to_multiset(),
    ensures
        forall|t: Tile| occ(s1, t) == occ(s2, t),
{
    assert forall|t: Tile| occ(s1, t) == occ(s2, t) by {
        lemma_occ_multiset(s1, t);
        lemma_occ_multiset(s2, t);
    }
}

/// Occurrence counts for every well-formed tile, kept in a table with one
/// slot per tile value.
pub struct TileCounts {
    counts: Vec<usize>,
}

impl TileCounts {
    /// The table has one slot for each of the 34 tile values.
    pub closed spec fn wf(self) -> bool {
        self.counts@.len() == 34
    }

    /// The count the table holds for a tile.
    pub closed spec fn spec_count(self, t: Tile) -> nat {
        self.counts@[spec_tile_index(t)] as nat
    }

    /// Look up the count of a tile.
    pub fn count(&self, t: Tile) -> (n: usize)
        requires
            self.wf(),
            t.wf(),
        ensures
            n == self.spec_count(t),
    {
        self.counts[tile_index(t)]
    }
}

/// Build the tile-to-count table of a sequence: each well-formed tile maps
/// to the number of times it occurs, however the sequence is ordered.
pub fn to_counts(tiles: &[Tile]) -> (c: TileCounts)
    requires
        forall|i: int| 0 <= i < tiles@.len() ==> tiles@[i].wf(),
    ensures
        c.wf(),
        forall|t: Tile| t.wf() ==> c.spec_count(t) == occ(tiles@, t),
{
    let mut counts: Vec<usize> = Vec::new();
    let mut k: usize = 0;
    while k < 34
        invariant
            k <= 34,
            counts@.len() == k,
            forall|q: int| 0 <= q < k ==> counts@[q] == 0,
        decreases 34 - k,
    {
        counts.push(0);
        k = k + 1;
    }
    proof {
        assert(tiles@.skip(0) =~= tiles@);
    }
    let mut i: usize = 0;
    while i < tiles.len()
        invariant
            i <= tiles@.len(),
            counts@.len() == 34,
            forall|x: int| 0 <= x < tiles@.len() ==> tiles@[x].wf(),
            forall|q: int| 0 <= q < 34 ==> counts@[q] <= i,
            forall|t: Tile|
                t.wf() ==> counts@[spec_tile_index(t)] + occ(tiles@.skip(i as int), t) == occ(
                    tiles@,
                    t,
                ),
        decreases tiles@.len() - i,
    {
        let tl = tiles[i];
        let idx = tile_index(tl);
        let cur = counts[idx];
        counts.set(idx, cur + 1);
        proof {
            assert(tiles@.skip(i as int).drop_first() =~= tiles@.skip(i as int + 1));
            assert(tiles@.skip(i as int)[0] == tiles@[i as int]);
            assert forall|t: Tile|
                t.wf() implies counts@[spec_tile_index(t)] + occ(tiles@.skip(i as int + 1), t)
                == occ(tiles@, t) by {
                if t != tl {
                    lemma_tile_index_injective(t, tl);
                }
            }
        }
        i = i + 1;
    }
    proof {
        assert(tiles@.skip(tiles@.len() as int) =~= Seq::<Tile>::empty());
    }
    TileCounts { counts }
}

/// Check a tile sequence as a closed hand: exactly 14 tiles, and no tile
/// value more than 4 times. The size check comes first; the copy check
/// reports the earliest tile in the sequence whose count is over the limit.
pub fn validate_hand(tiles: &[Tile]) -> (r: Result<(), ValidationError>)
    requires
        forall|i: int| 0 <= i < tiles@.len() ==> tiles@[i].wf(),
    ensures
        (match r {
            Ok(_) => tiles@.len() == 14 && (forall|t: Tile| occ(tiles@, t) <= 4),
            Err(ValidationError::WrongTileCount(n)) => tiles@.len() != 14 && n == tiles@.len(),
            Err(ValidationError::ExcessCopies(t, c)) => {
                &&& tiles@.len() == 14
                &&& c == occ(tiles@, t)
                &&& c > 4
                &&& (exists|i: int|
                    0 <= i < tiles@.len() && tiles@[i] == t && (forall|j: int|
                        0 <= j < i ==> occ(tiles@, tiles@[j]) <= 4))
            },
        }),
{
    if tiles.len() != 14 {
        return Err(ValidationError::WrongTileCount(tiles.len()));
    }
    let counts = to_counts(tiles);
    let mut i: usize = 0;
    while i < tiles.len()
        invariant
            i <= tiles@.len(),
            tiles@.len() == 14,
            counts.wf(),
            forall|x: int| 0 <= x < tiles@.len() ==> tiles@[x].wf(),
            forall|t: Tile| t.wf() ==> counts.spec_count(t) == occ(tiles@, t),
            forall|j: int| 0 <= j < i ==> occ(tiles@, tiles@[j]) <= 4,
        decreases tiles@.len() - i,
    {
        let n = counts.count(tiles[i]);
        if n > 4 {
            return Err(ValidationError::ExcessCopies(tiles[i], n));
        }
        i = i + 1;
    }
    proof {
        assert forall|t: Tile| occ(tiles@, t) <= 4 by {
            if occ(tiles@, t) > 4 {
                lemma_occ_positive_exists(tiles@, t);
            }
        }
    }
    Ok(())
}

} // verus!
