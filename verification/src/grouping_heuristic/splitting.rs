//! Splitting the items that are to apply.

use crate::grouping_heuristic::ElementalOutcome;
use crate::grouping_heuristic::GroupingOutcome;
use vstd::prelude::*;

verus! {

/// A value that can be cut into parts.
pub trait Splitable: Sized {
    /// Whether the value can be cut into `factor` parts.
    spec fn divisible(&self, factor: usize) -> bool;

    /// Whether `parts` are what cutting the value into `factor` parts gives.
    spec fn splits_into(&self, factor: usize, parts: Vec<Self>) -> bool;

    /// Cuts the value into `factor` parts where it can be cut into as many,
    /// and hands it back whole where it cannot.
    fn split(self, factor: usize) -> (r: Result<Vec<Self>, Self>)
        ensures
            r is Ok <==> self.divisible(factor),
            r matches Ok(parts) ==> parts@.len() == factor && self.splits_into(factor, parts),
            r matches Err(whole) ==> whole == self,
    ;
}

/// Replaces every item to apply by its parts, and marks as failed the items
/// that cannot be split.
pub struct Splitting {
    /// The number of parts to cut each item into.
    pub factor: usize,
}

/// Whether `pieces` may stand in the place of `outcome` after splitting by
/// `factor`: the parts of an item to apply that can be cut, each to apply; an
/// item to apply that cannot be cut, as a failure; any other outcome as it
/// is.
pub open spec fn split_pieces<T: Splitable>(
    outcome: ElementalOutcome<T>,
    factor: usize,
    pieces: Seq<ElementalOutcome<T>>,
) -> bool {
    match outcome {
        ElementalOutcome::Apply(item) => if item.divisible(factor) {
            &&& pieces.len() == factor
            &&& exists|parts: Vec<T>| #[trigger]
                item.splits_into(factor, parts) && pieces == parts@.map_values(
                    |part: T| ElementalOutcome::Apply(part),
                )
        } else {
            pieces == seq![ElementalOutcome::Failure(item)]
        },
        other => pieces == seq![other],
    }
}

/// Whether `out` may be what splitting by `factor` makes of `group`: the pieces
/// of its outcomes, one after the other, in the order of the outcomes.
pub open spec fn split_of<T: Splitable>(
    group: Seq<ElementalOutcome<T>>,
    factor: usize,
    out: Seq<ElementalOutcome<T>>,
) -> bool {
    exists|pieces: Seq<Seq<ElementalOutcome<T>>>|
        {
            &&& pieces.len() == group.len()
            &&& forall|i: int|
                0 <= i < group.len() ==> split_pieces(group[i], factor, #[trigger] pieces[i])
            &&& out == pieces.flatten()
        }
}

impl Splitting {
    /// The heuristic that cuts into `factor` parts.
    pub fn new(factor: usize) -> (r: Self)
        ensures
            r.factor == factor,
    {
        Splitting { factor }
    }

    /// Splits the items to apply of every group. The groups stay; in each, the
    /// pieces of an outcome stand where the outcome stood.
    pub fn distribute<T: Splitable>(&self, distribution: Vec<GroupingOutcome<T>>) -> (r: Vec<
        GroupingOutcome<T>,
    >)
        ensures
            r@.len() == distribution@.len(),
            forall|g: int|
                0 <= g < r@.len() ==> split_of(distribution@[g]@, self.factor, (#[trigger] r@[g])@),
    {
        let ghost groups = distribution@;
        let mut out: Vec<GroupingOutcome<T>> = Vec::new();
        for group in it: distribution.into_iter()
            invariant
                it.seq() == groups,
                out@.len() == it.index(),
                forall|g: int|
                    0 <= g < out@.len() ==> split_of(
                        groups[g]@,
                        self.factor,
                        (#[trigger] out@[g])@,
                    ),
        {
            out.push(split_group(group, self.factor));
        }
        out
    }
}

fn split_group<T: Splitable>(group: GroupingOutcome<T>, factor: usize) -> (r: GroupingOutcome<T>)
    ensures
        split_of(group@, factor, r@),
{
    let ghost outcomes = group@;
    let ghost mut pieces: Seq<Seq<ElementalOutcome<T>>> = Seq::empty();
    let mut out: Vec<ElementalOutcome<T>> = Vec::new();
    for outcome in it: group.0.into_iter()
        invariant
            it.seq() == outcomes,
            pieces.len() == it.index(),
            forall|i: int|
                0 <= i < pieces.len() ==> split_pieces(outcomes[i], factor, #[trigger] pieces[i]),
            out@ == pieces.flatten(),
    {
        let ghost before = out@;
        match outcome {
            ElementalOutcome::Apply(item) => {
                match item.split(factor) {
                    Ok(parts) => {
                        let ghost whole = parts;
                        let ghost cut = parts@;
                        let ghost apply = |part: T| ElementalOutcome::Apply(part);
                        for part in parts_it: parts.into_iter()
                            invariant
                                parts_it.seq() == cut,
                                apply == |part: T| ElementalOutcome::Apply(part),
                                out@ == before + cut.take(parts_it.index()).map_values(apply),
                        {
                            out.push(ElementalOutcome::Apply(part));
                            proof {
                                assert(cut.take(parts_it.index() + 1).map_values(apply)
                                    =~= cut.take(parts_it.index()).map_values(apply).push(
                                    apply(part),
                                ));
                            }
                        }
                        proof {
                            assert(cut.take(cut.len() as int) =~= cut);
                            let piece = cut.map_values(apply);
                            assert(item.splits_into(factor, whole));
                            assert(split_pieces(outcome, factor, piece));
                            pieces.lemma_flatten_push(piece);
                            pieces = pieces.push(piece);
                        }
                    },
                    Err(whole) => {
                        out.push(ElementalOutcome::Failure(whole));
                        proof {
                            let piece = seq![ElementalOutcome::Failure(whole)];
                            assert(out@ =~= before + piece);
                            pieces.lemma_flatten_push(piece);
                            pieces = pieces.push(piece);
                        }
                    },
                }
            },
            other => {
                out.push(other);
                proof {
                    let piece = seq![other];
                    assert(out@ =~= before + piece);
                    pieces.lemma_flatten_push(piece);
                    pieces = pieces.push(piece);
                }
            },
        }
    }
    GroupingOutcome(out)
}

} // verus!
