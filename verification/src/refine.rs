use vstd::prelude::*;
use crate::ant::{
    best_path_spec, chain_between, clamp_u64, get_best_path, get_path_distance, path_length_of,
    update_pheromones, valid_tour,
};
use crate::errors::AcoError;
use crate::history::ScoreHistory;
use crate::matrix::Matrix;

verus! {

/// One complete refinement cycle, the unit of work between two
/// publications: reinforce and evaporate the field a hundred times, then
/// extract and score the deterministic best tour of the updated field.
///
/// On success the score is appended to the bounded history, the tour
/// and score are handed back for publication, and the field is joined
/// to the old one by a chain of exactly one hundred micro-steps.  On
/// `NoReachableNode` the cycle publishes nothing: the history is
/// untouched and the field keeps the state of the last completed
/// micro-step (a chain of at most one hundred), ready for the next
/// cycle.
pub fn refine_cycle(pheramones: &mut Matrix, dist: &Matrix, history: &mut ScoreHistory) -> (r:
    Result<(Vec<(usize, usize)>, u64), AcoError>)
    requires
        old(pheramones).wf(),
        dist.wf(),
        old(pheramones).dim() == dist.dim(),
        old(pheramones).is_symmetric(),
        old(history).wf(),
    ensures
        final(pheramones).wf(),
        final(pheramones).dim() == old(pheramones).dim(),
        final(pheramones).is_symmetric(),
        final(history).wf(),
        match r {
            Ok((tour, score)) => {
                &&& tour@ == best_path_spec(*final(pheramones))
                &&& valid_tour(tour@, final(pheramones).dim())
                &&& score == clamp_u64(path_length_of(tour@, *dist))
                &&& (old(history).scores().len() < crate::history::CAPACITY ==> final(history).scores()
                    == old(history).scores().push(score))
                &&& (old(history).scores().len() == crate::history::CAPACITY ==> final(history).scores()
                    == old(history).scores().push(score).skip(1))
            },
            Err(e) => {
                &&& e == AcoError::NoReachableNode
                &&& *final(history) == *old(history)
            },
        },
        r is Ok ==> exists|fs: Seq<Matrix>|
            #[trigger] chain_between(*dist, fs, *old(pheramones), *final(pheramones))
                && fs.len() == 101,
        r is Err ==> exists|fs: Seq<Matrix>|
            #[trigger] chain_between(*dist, fs, *old(pheramones), *final(pheramones))
                && fs.len() <= 100,
        old(pheramones).dim() <= 1 ==> r is Ok,
{
    match update_pheromones(pheramones, dist) {
        Ok(()) => {},
        Err(e) => {
            return Err(e);
        },
    }
    let tour = get_best_path(pheramones);
    let score = get_path_distance(&tour, dist);
    history.push(score);
    Ok((tour, score))
}

} // verus!
