//! The grid: a fixed square array of cells, driven to a terminal state by
//! repeatedly collapsing a minimum-entropy cell and propagating the
//! adjacency constraint depth-first through 4-connected neighbors.

use vstd::prelude::*;
use vstd::arithmetic::div_mod::lemma_fundamental_div_mod;
use vstd::arithmetic::div_mod::lemma_mod_bound;
use vstd::arithmetic::div_mod::lemma_div_pos_is_pos;
use crate::tile::Tile;
use crate::tile::lemma_tile_eq;
use crate::rng::choose_random;
use crate::bits::STATE_ALL;
use crate::bits::filter_mask;
use crate::bits::lemma_filter_monotone;
use crate::bits::lemma_singleton_subset_eq;
use crate::bits::mask_subset;
use crate::bits::lemma_subset_refl;
use crate::bits::lemma_subset_trans;
use crate::bits::lemma_pop_subset_le;
use crate::bits::lemma_pop_subset_strict;
use crate::bits::lemma_pop_zero;

verus! {

/// Side length of the default grid.
pub const MAP_SIZE: usize = 20;

/// Total entropy of a row-major cell sequence: the number of candidate bits
/// still set across all cells. Propagation and collapse only ever clear
/// bits, so this measure shrinks with every actual change.
pub open spec fn total_entropy(s: Seq<Tile>) -> nat
    decreases s.len(),
{
    if s.len() == 0 {
        0
    } else {
        total_entropy(s.drop_last()) + s.last().spec_entropy()
    }
}

/// 1 if the cell is unresolved (entropy at least 2), else 0.
pub open spec fn unresolved_weight(t: Tile) -> nat {
    if t.spec_entropy() > 1 {
        1
    } else {
        0
    }
}

/// How many cells of the sequence are still unresolved. Each collapse step
/// resolves at least one of them, which bounds a run by the cell count.
pub open spec fn count_unresolved(s: Seq<Tile>) -> nat
    decreases s.len(),
{
    if s.len() == 0 {
        0
    } else {
        count_unresolved(s.drop_last()) + unresolved_weight(s.last())
    }
}

/// The narrowing relation between two snapshots of the grid's cells:
/// every cell's mask only lost bits, cells that were already resolved
/// (entropy at most 1) are untouched, and both grid-wide measures did
/// not grow.
pub open spec fn narrowed(pre: Seq<Tile>, post: Seq<Tile>) -> bool {
    &&& post.len() == pre.len()
    &&& forall|i: int| 0 <= i < pre.len() ==> mask_subset(post[i].mask(), pre[i].mask())
    &&& forall|i: int|
        0 <= i < pre.len() ==> (pre[i].spec_entropy() <= 1 ==> post[i] == pre[i])
    &&& count_unresolved(post) <= count_unresolved(pre)
    &&& total_entropy(post) <= total_entropy(pre)
}

/// Replacing one cell shifts `total_entropy` by exactly the difference of
/// the old and new cell entropies.
pub proof fn lemma_total_entropy_update(s: Seq<Tile>, i: int, t: Tile)
    requires
        0 <= i < s.len(),
    ensures
        total_entropy(s.update(i, t)) + s[i].spec_entropy() == total_entropy(s)
            + t.spec_entropy(),
    decreases s.len(),
{
    if i == s.len() - 1 {
        assert(s.update(i, t).drop_last() =~= s.drop_last());
    } else {
        assert(s.update(i, t).drop_last() =~= s.drop_last().update(i, t));
        lemma_total_entropy_update(s.drop_last(), i, t);
    }
}

/// Replacing one cell shifts `count_unresolved` by exactly the difference
/// of the old and new cell indicators.
pub proof fn lemma_count_unresolved_update(s: Seq<Tile>, i: int, t: Tile)
    requires
        0 <= i < s.len(),
    ensures
        count_unresolved(s.update(i, t)) + unresolved_weight(s[i]) == count_unresolved(s)
            + unresolved_weight(t),
    decreases s.len(),
{
    if i == s.len() - 1 {
        assert(s.update(i, t).drop_last() =~= s.drop_last());
    } else {
        assert(s.update(i, t).drop_last() =~= s.drop_last().update(i, t));
        lemma_count_unresolved_update(s.drop_last(), i, t);
    }
}

/// At most every cell is unresolved: the loop measure of a run starts at
/// or below the grid's cell count, so a run performs at most that many
/// collapse steps.
pub proof fn lemma_count_unresolved_le_len(s: Seq<Tile>)
    ensures
        count_unresolved(s) <= s.len(),
    decreases s.len(),
{
    if s.len() > 0 {
        lemma_count_unresolved_le_len(s.drop_last());
    }
}

/// The narrowing relation is reflexive.
pub proof fn lemma_narrowed_refl(s: Seq<Tile>)
    ensures
        narrowed(s, s),
{
    assert forall|i: int| 0 <= i < s.len() implies mask_subset(s[i].mask(), s[i].mask()) by {
        lemma_subset_refl(s[i].mask());
    }
}

/// The narrowing relation composes.
pub proof fn lemma_narrowed_trans(a: Seq<Tile>, b: Seq<Tile>, c: Seq<Tile>)
    requires
        narrowed(a, b),
        narrowed(b, c),
    ensures
        narrowed(a, c),
{
    assert forall|i: int| 0 <= i < a.len() implies mask_subset(c[i].mask(), a[i].mask()) by {
        lemma_subset_trans(c[i].mask(), b[i].mask(), a[i].mask());
    }
    assert forall|i: int|
        0 <= i < a.len() && a[i].spec_entropy() <= 1 implies c[i] == a[i] by {
        assert(b[i] == a[i]);
    }
}

/// Replacing one cell by a narrowed copy narrows the whole sequence; a
/// strict narrowing of the cell strictly lowers the total entropy.
pub proof fn lemma_narrowed_update(s: Seq<Tile>, i: int, t: Tile)
    requires
        0 <= i < s.len(),
        mask_subset(t.mask(), s[i].mask()),
        s[i].spec_entropy() <= 1 ==> t == s[i],
    ensures
        narrowed(s, s.update(i, t)),
        t.mask() != s[i].mask() ==> total_entropy(s.update(i, t)) < total_entropy(s),
{
    lemma_pop_subset_le(t.mask(), s[i].mask());
    lemma_total_entropy_update(s, i, t);
    lemma_count_unresolved_update(s, i, t);
    let post = s.update(i, t);
    assert forall|j: int| 0 <= j < s.len() implies mask_subset(post[j].mask(), s[j].mask()) by {
        if j != i {
            lemma_subset_refl(s[j].mask());
        }
    }
    if t.mask() != s[i].mask() {
        lemma_pop_subset_strict(t.mask(), s[i].mask());
    }
}

/// A row-major position addressed by in-range coordinates lies inside the
/// square.
pub proof fn lemma_index_in_range(row: int, col: int, size: int)
    requires
        0 <= row < size,
        0 <= col < size,
    ensures
        0 <= row * size + col < size * size,
{
    assert(row * size + col < size * size) by (nonlinear_arith)
        requires
            0 <= row < size,
            0 <= col < size,
    ;
}

/// Splitting a flat row-major position into row and column coordinates.
pub proof fn lemma_flat_coords(i: int, size: int)
    requires
        0 <= i,
        1 <= size,
        i < size * size,
    ensures
        0 <= i / size < size,
        0 <= i % size < size,
        (i / size) * size + (i % size) == i,
{
    lemma_fundamental_div_mod(i, size);
    lemma_mod_bound(i, size);
    lemma_div_pos_is_pos(i, size);
    let q = i / size;
    assert(q >= size ==> size * q >= size * size) by (nonlinear_arith)
        requires
            1 <= size,
    ;
    assert(q * size == size * q) by (nonlinear_arith);
}

/// A nonempty square holds at least one cell.
pub proof fn lemma_square_pos(size: int)
    requires
        1 <= size,
    ensures
        1 <= size * size,
{
    assert(1 <= size * size) by (nonlinear_arith)
        requires
            1 <= size,
    ;
}

/// One propagation block, seen end to end: the grid entered at `s0`, had
/// narrowed to `pre` by earlier blocks, the neighbor at `nidx` was filtered
/// against the root at `ridx` (giving `af`), and deeper propagation led to
/// `pb`. If the neighbor ends up still unresolved, its mask lies within the
/// filter of the entry masks.
proof fn lemma_neighbor_claim(
    s0: Seq<Tile>,
    pre: Seq<Tile>,
    af: Seq<Tile>,
    pb: Seq<Tile>,
    nidx: int,
    ridx: int,
)
    requires
        pre.len() == s0.len(),
        af.len() == s0.len(),
        pb.len() == s0.len(),
        0 <= nidx < s0.len(),
        0 <= ridx < s0.len(),
        narrowed(s0, pre),
        pre[nidx].spec_entropy() > 1 ==> mask_subset(
            af[nidx].mask(),
            filter_mask(pre[nidx].mask(), pre[ridx].mask()),
        ),
        pre[nidx].spec_entropy() <= 1 ==> pb == pre,
        narrowed(af, pb),
    ensures
        pb[nidx].spec_entropy() > 1 ==> mask_subset(
            pb[nidx].mask(),
            filter_mask(s0[nidx].mask(), s0[ridx].mask()),
        ),
{
    if pre[nidx].spec_entropy() > 1 {
        lemma_filter_monotone(
            pre[nidx].mask(),
            s0[nidx].mask(),
            pre[ridx].mask(),
            s0[ridx].mask(),
        );
        lemma_subset_trans(
            pb[nidx].mask(),
            af[nidx].mask(),
            filter_mask(pre[nidx].mask(), pre[ridx].mask()),
        );
        lemma_subset_trans(
            pb[nidx].mask(),
            filter_mask(pre[nidx].mask(), pre[ridx].mask()),
            filter_mask(s0[nidx].mask(), s0[ridx].mask()),
        );
    }
}

/// A claim that an unresolved cell lies within a filter survives further
/// narrowing: if the claim held of the earlier snapshot, it holds of the
/// later one.
proof fn lemma_claim_carry(s0: Seq<Tile>, a: Seq<Tile>, b: Seq<Tile>, nidx: int, ridx: int)
    requires
        a.len() == s0.len(),
        b.len() == s0.len(),
        0 <= nidx < s0.len(),
        0 <= ridx < s0.len(),
        narrowed(a, b),
        a[nidx].spec_entropy() > 1 ==> mask_subset(
            a[nidx].mask(),
            filter_mask(s0[nidx].mask(), s0[ridx].mask()),
        ),
    ensures
        b[nidx].spec_entropy() > 1 ==> mask_subset(
            b[nidx].mask(),
            filter_mask(s0[nidx].mask(), s0[ridx].mask()),
        ),
{
    if b[nidx].spec_entropy() > 1 {
        lemma_pop_subset_le(b[nidx].mask(), a[nidx].mask());
        lemma_subset_trans(
            b[nidx].mask(),
            a[nidx].mask(),
            filter_mask(s0[nidx].mask(), s0[ridx].mask()),
        );
    }
}

/// A square grid of cells, stored row-major.
pub struct TileMap {
    size: usize,
    tiles: Vec<Tile>,
}

impl TileMap {
    /// The side length, for contracts.
    pub closed spec fn spec_size(&self) -> int {
        self.size as int
    }

    /// The cells, row-major, for contracts.
    pub closed spec fn cells(&self) -> Seq<Tile> {
        self.tiles@
    }

    /// Well-formedness: a nonempty square whose cell count fits the store.
    pub open spec fn wf(&self) -> bool {
        &&& 1 <= self.spec_size()
        &&& self.spec_size() * self.spec_size() == self.cells().len()
        &&& self.cells().len() <= usize::MAX
    }

    /// Row-major position of the cell at `row`, `col`.
    pub open spec fn spec_index(&self, row: int, col: int) -> int {
        row * self.spec_size() + col
    }

    /// The mask of the cell at `row`, `col`.
    pub open spec fn mask_at(&self, row: int, col: int) -> u8 {
        self.cells()[self.spec_index(row, col)].mask()
    }

    /// The side length of the grid.
    pub fn size(&self) -> (r: usize)
        ensures
            r == self.spec_size(),
    {
        self.size
    }

    /// A `size` x `size` grid with every cell fully unconstrained.
    pub fn new(size: usize) -> (r: TileMap)
        requires
            1 <= size,
            size * size <= usize::MAX,
        ensures
            r.wf(),
            r.spec_size() == size,
            forall|i: int| 0 <= i < r.cells().len() ==> r.cells()[i].mask() == STATE_ALL,
    {
        let count = size * size;
        let mut tiles: Vec<Tile> = Vec::new();
        let mut i: usize = 0;
        while i < count
            invariant
                i <= count,
                tiles@.len() == i,
                forall|k: int| 0 <= k < i ==> tiles@[k].mask() == STATE_ALL,
            decreases count - i,
        {
            tiles.push(Tile::default());
            i = i + 1;
        }
        TileMap { size, tiles }
    }

    /// Exec form of `spec_index`, proved in range.
    fn flat_index(&self, row: usize, col: usize) -> (r: usize)
        requires
            self.wf(),
            row < self.spec_size(),
            col < self.spec_size(),
        ensures
            r == self.spec_index(row as int, col as int),
            r < self.cells().len(),
    {
        proof {
            lemma_index_in_range(row as int, col as int, self.spec_size());
        }
        row * self.size + col
    }

    /// The cell at `row`, `col`.
    pub fn get_tile(&self, row: usize, col: usize) -> (r: Tile)
        requires
            self.wf(),
            row < self.spec_size(),
            col < self.spec_size(),
        ensures
            r == self.cells()[self.spec_index(row as int, col as int)],
    {
        let idx = self.flat_index(row, col);
        self.tiles[idx]
    }

    /// Overwrite the cell at `row`, `col`.
    pub fn set_tile(&mut self, row: usize, col: usize, t: Tile)
        requires
            old(self).wf(),
            row < old(self).spec_size(),
            col < old(self).spec_size(),
        ensures
            final(self).wf(),
            final(self).spec_size() == old(self).spec_size(),
            final(self).cells() == old(self).cells().update(
                old(self).spec_index(row as int, col as int),
                t,
            ),
    {
        let idx = self.flat_index(row, col);
        self.tiles[idx] = t;
    }

    /// The largest entropy present in the grid; the run loop stops once
    /// this is at most 1.
    pub fn find_highest_entropy(&self) -> (r: u8)
        requires
            self.wf(),
        ensures
            forall|i: int| 0 <= i < self.cells().len() ==> self.cells()[i].spec_entropy() <= r,
            exists|i: int| 0 <= i < self.cells().len() && self.cells()[i].spec_entropy() == r,
    {
        proof {
            lemma_square_pos(self.spec_size());
        }
        let mut highest: u8 = 0;
        let count = self.tiles.len();
        let mut i: usize = 0;
        while i < count
            invariant
                self.wf(),
                count == self.cells().len(),
                i <= count,
                forall|k: int| 0 <= k < i ==> self.cells()[k].spec_entropy() <= highest,
                i == 0 ==> highest == 0,
                i > 0 ==> exists|k: int|
                    0 <= k < i && self.cells()[k].spec_entropy() == highest,
            decreases count - i,
        {
            let e = self.tiles[i].entropy();
            if e > highest {
                highest = e;
            }
            i = i + 1;
        }
        highest
    }

    /// The smallest entropy among unresolved cells (entropy above 1), or
    /// the sentinel 255 when every cell is already resolved. Cell entropy
    /// never exceeds 8, so the sentinel is unambiguous.
    pub fn find_lowest_entropy(&self) -> (r: u8)
        requires
            self.wf(),
        ensures
            forall|i: int|
                0 <= i < self.cells().len() ==> (self.cells()[i].spec_entropy() > 1
                    ==> r <= self.cells()[i].spec_entropy()),
            (r == 255) <==> (forall|i: int|
                0 <= i < self.cells().len() ==> self.cells()[i].spec_entropy() <= 1),
            r != 255 ==> r > 1 && (exists|i: int|
                0 <= i < self.cells().len() && self.cells()[i].spec_entropy() == r),
    {
        let mut lowest: u8 = 255;
        let count = self.tiles.len();
        let mut i: usize = 0;
        while i < count
            invariant
                self.wf(),
                count == self.cells().len(),
                i <= count,
                forall|k: int|
                    0 <= k < i ==> (self.cells()[k].spec_entropy() > 1 ==> lowest
                        <= self.cells()[k].spec_entropy()),
                (lowest == 255) <==> (forall|k: int|
                    0 <= k < i ==> self.cells()[k].spec_entropy() <= 1),
                lowest != 255 ==> lowest > 1 && (exists|k: int|
                    0 <= k < i && self.cells()[k].spec_entropy() == lowest),
            decreases count - i,
        {
            let e = self.tiles[i].entropy();
            if e > 1 && e < lowest {
                lowest = e;
            }
            i = i + 1;
        }
        lowest
    }

    /// Every coordinate whose cell entropy equals `lowest_entropy`, with one
    /// of them chosen uniformly at random; the fallback coordinate (0, 0)
    /// when no cell matches (which can happen when the caller passes the
    /// sentinel of `find_lowest_entropy` on a fully resolved grid).
    fn find_random_lowest_entropy_tile(&self, lowest_entropy: u8) -> (r: (usize, usize))
        requires
            self.wf(),
        ensures
            r.0 < self.spec_size(),
            r.1 < self.spec_size(),
            (exists|i: int|
                0 <= i < self.cells().len() && self.cells()[i].spec_entropy()
                    == lowest_entropy) ==> self.cells()[self.spec_index(
                r.0 as int,
                r.1 as int,
            )].spec_entropy() == lowest_entropy,
            !(exists|i: int|
                0 <= i < self.cells().len() && self.cells()[i].spec_entropy()
                    == lowest_entropy) ==> r.0 == 0 && r.1 == 0,
    {
        proof {
            lemma_square_pos(self.spec_size());
        }
        let mut available_tiles: Vec<(usize, usize)> = Vec::new();
        let count = self.tiles.len();
        let size = self.size;
        let mut i: usize = 0;
        while i < count
            invariant
                self.wf(),
                count == self.cells().len(),
                size == self.spec_size(),
                i <= count,
                forall|k: int|
                    0 <= k < available_tiles@.len() ==> (#[trigger] available_tiles@[k]).0 < size
                        && available_tiles@[k].1 < size && self.cells()[self.spec_index(
                        available_tiles@[k].0 as int,
                        available_tiles@[k].1 as int,
                    )].spec_entropy() == lowest_entropy,
                (exists|j: int|
                    0 <= j < i && self.cells()[j].spec_entropy() == lowest_entropy)
                    ==> available_tiles@.len() > 0,
            decreases count - i,
        {
            let e = self.tiles[i].entropy();
            if e == lowest_entropy {
                proof {
                    lemma_flat_coords(i as int, self.spec_size());
                }
                let row = i / size;
                let col = i % size;
                available_tiles.push((row, col));
            }
            i = i + 1;
        }
        if let Some(tile) = choose_random(&available_tiles) {
            proof {
                let k = choose|k: int|
                    0 <= k < available_tiles@.len() && available_tiles@[k] == tile;
                assert(available_tiles@[k].0 < size);
                lemma_index_in_range(tile.0 as int, tile.1 as int, self.spec_size());
            }
            tile
        } else {
            (0, 0)
        }
    }

    /// Narrow the cell at `nrow`, `ncol` against the current mask of the
    /// cell at `row`, `col`, skipping neighbors that are already resolved.
    /// Returns whether the neighbor's mask actually lost a bit.
    fn propogate_from(&mut self, row: usize, col: usize, nrow: usize, ncol: usize) -> (changed:
        bool)
        requires
            old(self).wf(),
            row < old(self).spec_size(),
            col < old(self).spec_size(),
            nrow < old(self).spec_size(),
            ncol < old(self).spec_size(),
        ensures
            final(self).wf(),
            final(self).spec_size() == old(self).spec_size(),
            narrowed(old(self).cells(), final(self).cells()),
            changed ==> total_entropy(final(self).cells()) < total_entropy(old(self).cells()),
            !changed ==> *final(self) == *old(self),
            changed ==> old(self).cells()[old(self).spec_index(
                nrow as int,
                ncol as int,
            )].spec_entropy() > 1,
            old(self).cells()[old(self).spec_index(nrow as int, ncol as int)].spec_entropy() > 1
                ==> mask_subset(
                final(self).mask_at(nrow as int, ncol as int),
                filter_mask(
                    old(self).mask_at(nrow as int, ncol as int),
                    old(self).mask_at(row as int, col as int),
                ),
            ),
    {
        let cur_idx = self.flat_index(row, col);
        let nb_idx = self.flat_index(nrow, ncol);
        let cur = self.tiles[cur_idx];
        let mut nb = self.tiles[nb_idx];
        if nb.entropy() > 1 {
            let ch = nb.propogate(cur);
            if ch {
                proof {
                    lemma_narrowed_update(old(self).cells(), nb_idx as int, nb);
                    lemma_subset_refl(nb.mask());
                }
                self.tiles[nb_idx] = nb;
                return true;
            }
        }
        proof {
            lemma_narrowed_refl(old(self).cells());
            lemma_subset_refl(self.cells()[nb_idx as int].mask());
        }
        false
    }

    /// Depth-first constraint propagation rooted at `row`, `col`: each
    /// in-bounds 4-connected neighbor that is not yet resolved is narrowed
    /// against this cell, and every neighbor that actually changed becomes
    /// the root of a further propagation, until no visited cell changes.
    /// The order is up, down, left, right, fully depth-first.
    /// One direction of the depth-first propagation: narrow the neighbor at
    /// `nrow`, `ncol` against the cell at `row`, `col`, and when the
    /// neighbor actually changed, recurse from it.
    fn propogate_and_recurse(&mut self, row: usize, col: usize, nrow: usize, ncol: usize)
        requires
            old(self).wf(),
            row < old(self).spec_size(),
            col < old(self).spec_size(),
            nrow < old(self).spec_size(),
            ncol < old(self).spec_size(),
        ensures
            final(self).wf(),
            final(self).spec_size() == old(self).spec_size(),
            narrowed(old(self).cells(), final(self).cells()),
            old(self).cells()[old(self).spec_index(nrow as int, ncol as int)].spec_entropy()
                <= 1 ==> *final(self) == *old(self),
            old(self).cells()[old(self).spec_index(nrow as int, ncol as int)].spec_entropy() > 1
                ==> mask_subset(
                final(self).mask_at(nrow as int, ncol as int),
                filter_mask(
                    old(self).mask_at(nrow as int, ncol as int),
                    old(self).mask_at(row as int, col as int),
                ),
            ),
        decreases total_entropy(old(self).cells()), 0int,
    {
        let ghost s0 = *old(self);
        let ghost nidx = s0.spec_index(nrow as int, ncol as int);
        proof {
            lemma_index_in_range(nrow as int, ncol as int, s0.spec_size());
        }
        if self.propogate_from(row, col, nrow, ncol) {
            let ghost mid = *self;
            self.propogate_neighbors(nrow, ncol);
            proof {
                lemma_narrowed_trans(s0.cells(), mid.cells(), self.cells());
                lemma_subset_trans(
                    self.cells()[nidx].mask(),
                    mid.cells()[nidx].mask(),
                    filter_mask(s0.cells()[nidx].mask(), s0.cells()[s0.spec_index(
                        row as int,
                        col as int,
                    )].mask()),
                );
            }
        }
    }

    /// Depth-first constraint propagation rooted at `row`, `col`: each
    /// in-bounds 4-connected neighbor that is not yet resolved is narrowed
    /// against this cell, and every neighbor that actually changed becomes
    /// the root of a further propagation, until no visited cell changes.
    /// The order is up, down, left, right, fully depth-first. Bits are only
    /// cleared, resolved cells are never renegotiated, and every in-bounds
    /// neighbor that is still unresolved afterwards holds only candidates
    /// the root's entry mask tolerates.
    pub fn propogate_neighbors(&mut self, row: usize, col: usize)
        requires
            old(self).wf(),
            row < old(self).spec_size(),
            col < old(self).spec_size(),
        ensures
            final(self).wf(),
            final(self).spec_size() == old(self).spec_size(),
            narrowed(old(self).cells(), final(self).cells()),
            row > 0 ==> (final(self).cells()[old(self).spec_index(
                row as int - 1,
                col as int,
            )].spec_entropy() > 1 ==> mask_subset(
                final(self).mask_at(row as int - 1, col as int),
                filter_mask(
                    old(self).mask_at(row as int - 1, col as int),
                    old(self).mask_at(row as int, col as int),
                ),
            )),
            row as int + 1 < old(self).spec_size() ==> (final(self).cells()[old(
                self,
            ).spec_index(row as int + 1, col as int)].spec_entropy() > 1 ==> mask_subset(
                final(self).mask_at(row as int + 1, col as int),
                filter_mask(
                    old(self).mask_at(row as int + 1, col as int),
                    old(self).mask_at(row as int, col as int),
                ),
            )),
            col > 0 ==> (final(self).cells()[old(self).spec_index(
                row as int,
                col as int - 1,
            )].spec_entropy() > 1 ==> mask_subset(
                final(self).mask_at(row as int, col as int - 1),
                filter_mask(
                    old(self).mask_at(row as int, col as int - 1),
                    old(self).mask_at(row as int, col as int),
                ),
            )),
            col as int + 1 < old(self).spec_size() ==> (final(self).cells()[old(
                self,
            ).spec_index(row as int, col as int + 1)].spec_entropy() > 1 ==> mask_subset(
                final(self).mask_at(row as int, col as int + 1),
                filter_mask(
                    old(self).mask_at(row as int, col as int + 1),
                    old(self).mask_at(row as int, col as int),
                ),
            )),
        decreases total_entropy(old(self).cells()), 1int,
    {
        let ghost s0 = *old(self);
        let ghost ridx = s0.spec_index(row as int, col as int);
        let ghost up_i = s0.spec_index(row as int - 1, col as int);
        let ghost down_i = s0.spec_index(row as int + 1, col as int);
        let ghost left_i = s0.spec_index(row as int, col as int - 1);
        let ghost right_i = s0.spec_index(row as int, col as int + 1);
        proof {
            lemma_narrowed_refl(s0.cells());
            lemma_index_in_range(row as int, col as int, s0.spec_size());
        }
        if row > 0 {
            self.propogate_and_recurse(row, col, row - 1, col);
        }
        let ghost g1 = *self;
        proof {
            lemma_narrowed_refl(g1.cells());
            assert(narrowed(s0.cells(), g1.cells()));
            if row > 0 {
                lemma_index_in_range(row as int - 1, col as int, s0.spec_size());
                lemma_neighbor_claim(s0.cells(), s0.cells(), g1.cells(), g1.cells(), up_i, ridx);
            }
        }
        if row + 1 < self.size {
            self.propogate_and_recurse(row, col, row + 1, col);
        }
        let ghost g2 = *self;
        proof {
            lemma_narrowed_refl(g2.cells());
            assert(narrowed(g1.cells(), g2.cells()));
            lemma_narrowed_trans(s0.cells(), g1.cells(), g2.cells());
            if row as int + 1 < s0.spec_size() {
                lemma_index_in_range(row as int + 1, col as int, s0.spec_size());
                lemma_neighbor_claim(s0.cells(), g1.cells(), g2.cells(), g2.cells(), down_i, ridx);
            }
            if row > 0 {
                lemma_claim_carry(s0.cells(), g1.cells(), g2.cells(), up_i, ridx);
            }
        }
        if col > 0 {
            self.propogate_and_recurse(row, col, row, col - 1);
        }
        let ghost g3 = *self;
        proof {
            lemma_narrowed_refl(g3.cells());
            assert(narrowed(g2.cells(), g3.cells()));
            lemma_narrowed_trans(s0.cells(), g2.cells(), g3.cells());
            if col > 0 {
                lemma_index_in_range(row as int, col as int - 1, s0.spec_size());
                lemma_neighbor_claim(s0.cells(), g2.cells(), g3.cells(), g3.cells(), left_i, ridx);
            }
            if row > 0 {
                lemma_claim_carry(s0.cells(), g2.cells(), g3.cells(), up_i, ridx);
            }
            if row as int + 1 < s0.spec_size() {
                lemma_claim_carry(s0.cells(), g2.cells(), g3.cells(), down_i, ridx);
            }
        }
        if col + 1 < self.size {
            self.propogate_and_recurse(row, col, row, col + 1);
        }
        proof {
            lemma_narrowed_refl(self.cells());
            assert(narrowed(g3.cells(), self.cells()));
            lemma_narrowed_trans(s0.cells(), g3.cells(), self.cells());
            if col as int + 1 < s0.spec_size() {
                lemma_index_in_range(row as int, col as int + 1, s0.spec_size());
                lemma_neighbor_claim(
                    s0.cells(),
                    g3.cells(),
                    self.cells(),
                    self.cells(),
                    right_i,
                    ridx,
                );
            }
            if row > 0 {
                lemma_claim_carry(s0.cells(), g3.cells(), self.cells(), up_i, ridx);
            }
            if row as int + 1 < s0.spec_size() {
                lemma_claim_carry(s0.cells(), g3.cells(), self.cells(), down_i, ridx);
            }
            if col > 0 {
                lemma_claim_carry(s0.cells(), g3.cells(), self.cells(), left_i, ridx);
            }
        }
    }

    /// One collapse step: pick the lowest entropy among unresolved cells,
    /// select one cell at that entropy uniformly at random, force it to a
    /// single candidate, and propagate the constraint outward from it.
    /// While any cell is unresolved, each step strictly lowers the number
    /// of unresolved cells.
    pub fn collapse(&mut self)
        requires
            old(self).wf(),
        ensures
            final(self).wf(),
            final(self).spec_size() == old(self).spec_size(),
            narrowed(old(self).cells(), final(self).cells()),
            (exists|i: int|
                0 <= i < old(self).cells().len() && old(self).cells()[i].spec_entropy() > 1)
                ==> count_unresolved(final(self).cells()) < count_unresolved(old(self).cells()),
    {
        let lowest_entropy_coordinates = self.find_random_lowest_entropy_tile(
            self.find_lowest_entropy(),
        );
        let row = lowest_entropy_coordinates.0;
        let col = lowest_entropy_coordinates.1;
        let idx = self.flat_index(row, col);
        let mut t = self.tiles[idx];
        t.collapse();
        proof {
            let s = old(self).cells();
            let ot = s[idx as int];
            lemma_pop_zero(ot.mask());
            if exists|i: int| 0 <= i < s.len() && s[i].spec_entropy() > 1 {
                assert(ot.spec_entropy() > 1);
                lemma_narrowed_update(s, idx as int, t);
                lemma_count_unresolved_update(s, idx as int, t);
            } else {
                if ot.mask() == 0 {
                    lemma_tile_eq(t, ot);
                } else {
                    lemma_singleton_subset_eq(t.mask(), ot.mask());
                    lemma_tile_eq(t, ot);
                }
                lemma_subset_refl(ot.mask());
                lemma_narrowed_update(s, idx as int, t);
            }
        }
        self.tiles[idx] = t;
        let ghost mid = *self;
        self.propogate_neighbors(row, col);
        proof {
            lemma_narrowed_trans(old(self).cells(), mid.cells(), self.cells());
        }
    }

    /// Drive the whole grid to a terminal state: collapse one cell at a
    /// time until no cell has entropy above 1. Cells that end at entropy 0
    /// carry a contradiction; the loop treats them like resolved cells and
    /// never repairs them.
    pub fn collapse_map(&mut self)
        requires
            old(self).wf(),
        ensures
            final(self).wf(),
            final(self).spec_size() == old(self).spec_size(),
            narrowed(old(self).cells(), final(self).cells()),
            forall|i: int|
                0 <= i < final(self).cells().len() ==> final(self).cells()[i].spec_entropy()
                    <= 1,
    {
        proof {
            lemma_narrowed_refl(old(self).cells());
        }
        while self.find_highest_entropy() > 1
            invariant
                self.wf(),
                self.spec_size() == old(self).spec_size(),
                narrowed(old(self).cells(), self.cells()),
            decreases count_unresolved(self.cells()),
        {
            let ghost pre = *self;
            self.collapse();
            proof {
                lemma_narrowed_trans(old(self).cells(), pre.cells(), self.cells());
            }
        }
    }
}

impl Default for TileMap {
    /// The default grid: `MAP_SIZE` x `MAP_SIZE`, all cells unconstrained.
    fn default() -> (r: Self)
        ensures
            r.wf(),
            r.spec_size() == MAP_SIZE,
            forall|i: int| 0 <= i < r.cells().len() ==> r.cells()[i].mask() == STATE_ALL,
    {
        TileMap::new(MAP_SIZE)
    }
}

} // verus!
