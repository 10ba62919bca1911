//! Boards with mines at random.

use rand::rngs::ThreadRng;
use std::collections::HashSet;
use vstd::prelude::*;
use crate::board::{mine_positions, mines_fit};
use crate::error::GameError;
use crate::game::{fresh_game, Game, GameState};
use crate::grid::as_ints;

verus! {

/// `rand::rngs::ThreadRng`, rand's handle to the generator that each thread
/// keeps for itself. Nothing is known of what it holds.
#[verifier::external_type_specification]
#[verifier::external_body]
pub struct ExThreadRng(ThreadRng);

/// `rand::thread_rng` hands out the calling thread's generator, which the
/// system seeds on first use. Nothing is claimed of the generator.
pub assume_specification[ rand::thread_rng ]() -> (rng: ThreadRng);

/// Calls `rand::seq::index::sample`, which draws `amount` distinct indices
/// below `length`, and hands the indices on as a vector
/// (`IndexVec::into_vec`).
///
/// The outside function panics in two cases, and both are left out here. It
/// panics where `amount` exceeds `length`. And it sends every `length`
/// above `u32::MAX` to a sampler that draws again until an index is new,
/// and that asserts, where debug assertions are compiled in, that `amount`
/// is strictly below `length`: so it panics where `amount` equals a
/// `length` above `u32::MAX`.
///
/// Which indices come out is left open. What is claimed holds of every
/// draw: there are `amount` of them, each is below `length`, and none comes
/// twice.
#[verifier::external_body]
fn sample_distinct(rng: &mut ThreadRng, length: usize, amount: usize) -> (picked: Vec<usize>)
    requires
        amount <= length,
        amount < length || length <= u32::MAX,
    ensures
        picked@.len() == amount,
        forall|k: int| 0 <= k < picked@.len() ==> picked@[k] < length,
        picked@.no_duplicates(),
{
    rand::seq::index::sample(rng, length, amount).into_vec()
}

/// Whether `mines` places exactly `count` mines on a grid of `size` tiles.
pub open spec fn is_placement(mines: Set<int>, size: int, count: int) -> bool {
    &&& mines.finite()
    &&& mines.len() == count
    &&& mines_fit(mines, size)
}

/// Every index below `size`, in rising order.
pub fn all_indices(size: usize) -> (indices: Vec<usize>)
    ensures
        indices@.len() == size,
        forall|k: int| 0 <= k < size ==> indices@[k] == k,
{
    let mut indices: Vec<usize> = Vec::new();
    let mut k: usize = 0;
    while k < size
        invariant
            k <= size,
            indices@.len() == k,
            forall|j: int| 0 <= j < k ==> indices@[j] == j,
        decreases size - k,
    {
        indices.push(k);
        k = k + 1;
    }
    indices
}

/// The set of the indices in `picked`.
fn collect_indices(picked: &Vec<usize>) -> (indices: HashSet<usize>)
    ensures
        indices@ == picked@.to_set(),
{
    let mut indices: HashSet<usize> = HashSet::new();
    let mut k: usize = 0;
    while k < picked.len()
        invariant
            k <= picked.len(),
            indices@ == picked@.take(k as int).to_set(),
        decreases picked.len() - k,
    {
        proof {
            let upto = picked@.take(k as int);
            let next = picked@.take(k + 1);
            assert(next =~= upto.push(picked@[k as int]));
            assert(next.to_set() =~= upto.to_set().insert(picked@[k as int])) by {
                assert forall|v: usize| next.to_set().contains(v) implies upto.to_set().insert(
                    picked@[k as int],
                ).contains(v) by {
                    let j = choose|j: int| 0 <= j < next.len() && next[j] == v;
                    if j < k {
                        assert(upto[j] == v);
                    }
                }
                assert forall|v: usize|
                    upto.to_set().insert(picked@[k as int]).contains(v) implies next.to_set().contains(
                    v,
                ) by {
                    if v == picked@[k as int] {
                        assert(next[k as int] == v);
                    } else {
                        let j = choose|j: int| 0 <= j < upto.len() && upto[j] == v;
                        assert(next[j] == v);
                    }
                }
            }
        }
        indices.insert(picked[k]);
        k = k + 1;
    }
    assert(picked@.take(picked.len() as int) =~= picked@);
    indices
}

/// Distinct indices below `size` name as many mines as there are indices,
/// all of them on the grid.
proof fn lemma_distinct_indices_place(picked: Seq<usize>, size: int)
    requires
        picked.no_duplicates(),
        forall|k: int| 0 <= k < picked.len() ==> picked[k] < size,
    ensures
        is_placement(mine_positions(picked.to_set()), size, picked.len() as int),
{
    let ints = as_ints(picked);
    assert(ints.no_duplicates());
    assert(mine_positions(picked.to_set()) =~= ints.to_set()) by {
        assert forall|m: int| mine_positions(picked.to_set()).contains(m) implies ints.to_set().contains(
            m,
        ) by {
            let j = choose|j: int| 0 <= j < picked.len() && picked[j] == m as usize;
            assert(ints[j] == m);
        }
        assert forall|m: int| ints.to_set().contains(m) implies mine_positions(
            picked.to_set(),
        ).contains(m) by {
            let j = choose|j: int| 0 <= j < ints.len() && ints[j] == m;
            assert(picked[j] == m as usize);
            assert(picked.to_set().contains(picked[j]));
        }
    }
    ints.unique_seq_to_set();
    vstd::seq_lib::seq_to_set_is_finite(ints);
    assert forall|m: int| ints.to_set().contains(m) implies 0 <= m < size by {
        let j = choose|j: int| 0 <= j < ints.len() && ints[j] == m;
        assert(picked[j] < size);
    }
}

impl Game {
    /// Builds a game of `width` by `height` tiles with `bomb_count` mines on
    /// distinct tiles picked at random, and says what it amounts to before
    /// the first move.
    ///
    /// Fails with `InvalidConfiguration` if there are more mines than tiles.
    ///
    /// Where there are as many mines as tiles, every tile holds one, whatever
    /// is drawn. On a grid of more than `u32::MAX` tiles nothing is drawn
    /// then, because the sampler for grids of that size cannot be asked for
    /// all of the indices.
    pub fn new_random(width: usize, height: usize, bomb_count: usize) -> (made: Result<
        GameState,
        GameError,
    >)
        requires
            width * height <= usize::MAX,
        ensures
            made is Ok <==> bomb_count <= width * height,
            made matches Ok(state) ==> state.wf() && exists|mines: Set<int>|
                is_placement(mines, width * height, bomb_count as int) && state@ == (#[trigger] fresh_game(
                    width as int,
                    height as int,
                    mines,
                )).outcome(),
            made matches Err(e) ==> e == GameError::InvalidConfiguration,
    {
        let size = width * height;
        if bomb_count > size {
            return Err(GameError::InvalidConfiguration);
        }
        let picked = if bomb_count < size || size <= u32::MAX as usize {
            let mut rng = rand::thread_rng();
            sample_distinct(&mut rng, size, bomb_count)
        } else {
            all_indices(size)
        };
        let bomb_indices = collect_indices(&picked);
        proof {
            lemma_distinct_indices_place(picked@, size as int);
        }
        Game::new(width, height, &bomb_indices)
    }
}

} // verus!
