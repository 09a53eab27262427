use vstd::prelude::*;
use std::collections::HashMap;
use vstd::std_specs::iter::IteratorSpec;
use crate::piece_state::{BlockState, Pivot};

verus! {

broadcast use vstd::std_specs::hash::group_hash_axioms;

/// The number assigned to board square `(x, y)`, for `x` and `y` in the
/// range of an `i8`.
pub open spec fn square_key(x: int, y: int) -> int {
    (x + 128) * 256 + (y + 128)
}

/// Whether `(x, y)` is a square that a `Pivot` can name.
pub open spec fn nameable(sq: (int, int)) -> bool {
    -128 <= sq.0 < 128 && -128 <= sq.1 < 128
}

/// The square numbered `k`.
pub open spec fn square_of_key(k: int) -> (int, int) {
    (k / 256 - 128, k % 256 - 128)
}

proof fn lemma_square_key(sq: (int, int))
    requires
        nameable(sq),
    ensures
        0 <= square_key(sq.0, sq.1) < 65536,
        square_of_key(square_key(sq.0, sq.1)) == sq,
{
}

proof fn lemma_key_square(k: int)
    requires
        0 <= k < 65536,
    ensures
        nameable(square_of_key(k)),
        square_key(square_of_key(k).0, square_of_key(k).1) == k,
{
}

/// The blocks that have come to rest on the board: for each occupied square,
/// the shape of the piece that left a block there.
pub struct FallenBlocks {
    cells: HashMap<u16, u8>,
}

impl View for FallenBlocks {
    type V = Map<(int, int), u8>;

    closed spec fn view(&self) -> Map<(int, int), u8> {
        Map::new(
            |sq: (int, int)| nameable(sq) && self.cells@.contains_key(square_key(sq.0, sq.1) as u16),
            |sq: (int, int)| self.cells@[square_key(sq.0, sq.1) as u16],
        )
    }
}

fn key(x: i8, y: i8) -> (k: u16)
    ensures
        k as int == square_key(x as int, y as int),
{
    let hi: u16 = (x as i16 + 128) as u16;
    let lo: u16 = (y as i16 + 128) as u16;
    hi * 256 + lo
}

impl FallenBlocks {
    /// Only squares that a `Pivot` can name are ever occupied.
    pub proof fn lemma_nameable(&self, sq: (int, int))
        requires
            self@.contains_key(sq),
        ensures
            nameable(sq),
    {
    }

    /// The board with no fallen blocks.
    pub fn new() -> (r: FallenBlocks)
        ensures
            r@ == Map::<(int, int), u8>::empty(),
    {
        let r = FallenBlocks { cells: HashMap::new() };
        assert(r@ =~= Map::<(int, int), u8>::empty());
        r
    }

    /// Whether square `p` holds a fallen block.
    pub fn contains_key(&self, p: &Pivot) -> (r: bool)
        ensures
            r == self@.contains_key((p.x as int, p.y as int)),
    {
        let k = key(p.x, p.y);
        self.cells.contains_key(&k)
    }

    /// The shape of the block at square `p`, if there is one.
    pub fn get(&self, p: &Pivot) -> (r: Option<u8>)
        ensures
            r == (if self@.contains_key((p.x as int, p.y as int)) {
                Some(self@[(p.x as int, p.y as int)])
            } else {
                None
            }),
    {
        let k = key(p.x, p.y);
        match self.cells.get(&k) {
            Some(s) => Some(*s),
            None => None,
        }
    }

    /// Puts a block of shape `shape` at square `p`, replacing any block there.
    pub fn insert(&mut self, p: Pivot, shape: u8)
        ensures
            final(self)@ == old(self)@.insert((p.x as int, p.y as int), shape),
    {
        let k = key(p.x, p.y);
        self.cells.insert(k, shape);
        proof {
            let sq0 = (p.x as int, p.y as int);
            lemma_square_key(sq0);
            assert forall|sq: (int, int)| nameable(sq) && sq != sq0 implies square_key(sq.0, sq.1)
                as u16 != k by {
                lemma_square_key(sq);
            }
            assert(final(self)@ =~= old(self)@.insert(sq0, shape));
        }
    }

    /// Takes away the block at square `p`, if there is one.
    pub fn remove(&mut self, p: &Pivot)
        ensures
            final(self)@ == old(self)@.remove((p.x as int, p.y as int)),
    {
        let k = key(p.x, p.y);
        self.cells.remove(&k);
        proof {
            let sq0 = (p.x as int, p.y as int);
            lemma_square_key(sq0);
            assert forall|sq: (int, int)| nameable(sq) && sq != sq0 implies square_key(sq.0, sq.1)
                as u16 != k by {
                lemma_square_key(sq);
            }
            assert(final(self)@ =~= old(self)@.remove(sq0));
        }
    }

    /// Takes away every block.
    pub fn clear(&mut self)
        ensures
            final(self)@ == Map::<(int, int), u8>::empty(),
    {
        self.cells.clear();
        assert(final(self)@ =~= Map::<(int, int), u8>::empty());
    }

    /// Every fallen block, each square once, in no particular order.
    pub fn blocks(&self) -> (r: Vec<BlockState>)
        ensures
            forall|i: int|
                #![trigger r@[i]]
                0 <= i < r@.len() ==> {
                    let sq = (r@[i].position.x as int, r@[i].position.y as int);
                    self@.contains_key(sq) && self@[sq] == r@[i].original_shape
                },
            forall|sq: (int, int)|
                #[trigger] self@.contains_key(sq) ==> exists|i: int|
                    0 <= i < r@.len() && r@[i].position.x == sq.0 && r@[i].position.y == sq.1,
            forall|i: int, j: int|
                #![trigger r@[i], r@[j]]
                0 <= i < j < r@.len() ==> r@[i].position != r@[j].position,
    {
        let mut out: Vec<BlockState> = Vec::new();
        for pair in it: self.cells.iter()
            invariant
                it.seq() == self.cells.iter().remaining(),
                out@.len() == it.index(),
                forall|j: int|
                    #![trigger out@[j]]
                    0 <= j < it.index() ==> {
                        let sq = square_of_key(*it.seq()[j].0 as int);
                        &&& out@[j].position.x == sq.0
                        &&& out@[j].position.y == sq.1
                        &&& out@[j].original_shape == *it.seq()[j].1
                    },
        {
            let (k, v) = pair;
            let x: i8 = ((*k / 256) as i16 - 128) as i8;
            let y: i8 = ((*k % 256) as i16 - 128) as i8;
            out.push(BlockState { original_shape: *v, position: Pivot { x, y } });
        }
        proof {
            let s = self.cells.iter().remaining();
            assert forall|i: int| #![trigger out@[i]] 0 <= i < out@.len() implies {
                let sq = (out@[i].position.x as int, out@[i].position.y as int);
                self@.contains_key(sq) && self@[sq] == out@[i].original_shape
            } by {
                let k = *s[i].0;
                assert(self.cells@.contains_key(k));
                lemma_key_square(k as int);
            }
            assert forall|sq: (int, int)| #[trigger] self@.contains_key(sq) implies exists|i: int|
                0 <= i < out@.len() && out@[i].position.x == sq.0 && out@[i].position.y
                    == sq.1 by {
                let k = square_key(sq.0, sq.1) as u16;
                lemma_square_key(sq);
                assert(self.cells@.contains_key(k));
                assert(s.contains((&k, &self.cells@[k])));
                let i = choose|i: int| 0 <= i < s.len() && s[i] == (&k, &self.cells@[k]);
                assert(out@[i].position.x == sq.0 && out@[i].position.y == sq.1);
            }
            assert forall|i: int, j: int| #![trigger out@[i], out@[j]] 0 <= i < j < out@.len() implies out@[i].position
                != out@[j].position by {
                let ki = *s[i].0;
                let kj = *s[j].0;
                lemma_key_square(ki as int);
                lemma_key_square(kj as int);
                if ki == kj {
                    assert(self.cells@[ki] == *s[i].1);
                    assert(self.cells@[kj] == *s[j].1);
                    assert(s[i] == s[j]);
                }
            }
        }
        out
    }
}

} // verus!
