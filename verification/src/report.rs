//! What is shown for two dependency lists: a block for each dependency that
//! was added or removed, and a comparison for each one that changed.

use vstd::prelude::*;
use vstd::string::*;
use crate::canonical::lemma_rendering_injective;
use crate::list::{keyed_by_name, DependencyList};
use crate::order::{ascending, precedes};
use crate::reconcile::lemma_ascending_unique;
use crate::reconcile::{
    pair_up, pairing_names, pairing_of, pairing_views, pairs_up, Pairing, PairingView,
};
use crate::record::{record_lines, rendering, DependencyRecord, RecordView};
use crate::text::{join, joined, line_feed, mark_lines, marked};

verus! {

/// One thing to do for one name.
#[derive(Clone, Debug, PartialEq, Eq)]
pub enum Step {
    /// Show the block of a dependency that only the old list has.
    Removed { name: String, block: String },
    /// Show the block of a dependency that only the new list has.
    Added { name: String, block: String },
    /// Have the two snapshots of a changed dependency compared line by line.
    Compare { name: String, old: String, new: String },
}

/// A step as a mathematical value.
pub enum StepView {
    Removed { name: Seq<char>, block: Seq<char> },
    Added { name: Seq<char>, block: Seq<char> },
    Compare { name: Seq<char>, old: Seq<char>, new: Seq<char> },
}

impl View for Step {
    type V = StepView;

    open spec fn view(&self) -> StepView {
        match *self {
            Step::Removed { name, block } => StepView::Removed { name: name@, block: block@ },
            Step::Added { name, block } => StepView::Added { name: name@, block: block@ },
            Step::Compare { name, old, new } => StepView::Compare {
                name: name@,
                old: old@,
                new: new@,
            },
        }
    }
}

impl StepView {
    /// The name that the step is about.
    pub open spec fn name(self) -> Seq<char> {
        match self {
            StepView::Removed { name, .. } => name,
            StepView::Added { name, .. } => name,
            StepView::Compare { name, .. } => name,
        }
    }
}

impl Step {
    /// The name that the step is about.
    pub fn name(&self) -> (r: &str)
        ensures
            r@ == self@.name(),
    {
        match self {
            Step::Removed { name, .. } => name.as_str(),
            Step::Added { name, .. } => name.as_str(),
            Step::Compare { name, .. } => name.as_str(),
        }
    }
}

/// The steps of a list as mathematical values.
pub open spec fn step_views(steps: Seq<Step>) -> Seq<StepView> {
    steps.map_values(|s: Step| s@)
}

/// The names that the steps are about, in the order of the steps.
pub open spec fn step_names(steps: Seq<StepView>) -> Seq<Seq<char>> {
    steps.map_values(|s: StepView| s.name())
}

/// The block of a record: every line of its canonical text with `mark` in
/// front, a line feed between each two.
pub open spec fn block(r: RecordView, mark: char) -> Seq<char> {
    joined(marked(record_lines(r), mark), line_feed())
}

/// The snapshot of a record: its canonical text, ended by a line feed.
pub open spec fn snapshot(r: RecordView) -> Seq<char> {
    rendering(r) + line_feed()
}

/// The step for a pairing. A dependency of both lists whose two canonical
/// texts are the same gets none.
pub open spec fn step_of(p: PairingView) -> Option<StepView> {
    match p {
        PairingView::Removed(r) => Some(StepView::Removed { name: r.name, block: block(r, '-') }),
        PairingView::Added(r) => Some(StepView::Added { name: r.name, block: block(r, '+') }),
        PairingView::Common(a, b) => if rendering(a) == rendering(b) {
            None
        } else {
            Some(StepView::Compare { name: a.name, old: snapshot(a), new: snapshot(b) })
        },
    }
}

/// The step for a name, given the two lists.
pub open spec fn step_for(
    old: Map<Seq<char>, RecordView>,
    new: Map<Seq<char>, RecordView>,
    name: Seq<char>,
) -> Option<StepView> {
    match pairing_of(old, new, name) {
        Some(p) => step_of(p),
        None => None,
    }
}

/// The steps are those of the two lists: they stand in the order of their
/// names, each is the step for its name, and no name that has a step is
/// missing.
pub open spec fn plans(
    steps: Seq<StepView>,
    old: Map<Seq<char>, RecordView>,
    new: Map<Seq<char>, RecordView>,
) -> bool {
    &&& ascending(step_names(steps))
    &&& forall|k: int|
        0 <= k < steps.len() ==> step_for(old, new, (#[trigger] steps[k]).name()) == Some(steps[k])
    &&& forall|n: Seq<char>|
        step_for(old, new, n) is Some ==> #[trigger] step_names(steps).contains(n)
}

/// The block of a record, its lines marked with `mark`.
pub fn block_of(record: &DependencyRecord, mark: char) -> (r: String)
    ensures
        r@ == block(record@, mark),
{
    let lines = record.lines();
    let marked_lines = mark_lines(&lines, mark);
    proof {
        reveal_strlit("\n");
        assert("\n"@ =~= line_feed());
    }
    join(&marked_lines, "\n")
}

/// The snapshot of a record, as it is written out for the comparison.
pub fn snapshot_of(record: &DependencyRecord) -> (r: String)
    ensures
        r@ == snapshot(record@),
{
    let mut text = record.rendering();
    text.push('\n');
    assert(text@ =~= snapshot(record@));
    text
}

/// The step for one pairing, if it has one.
pub fn step_from(pairing: &Pairing) -> (r: Option<Step>)
    ensures
        match r {
            Some(step) => step_of(pairing@) == Some(step@),
            None => step_of(pairing@) is None,
        },
{
    match *pairing {
        Pairing::Removed(record) => Some(
            Step::Removed { name: record.name.clone(), block: block_of(record, '-') },
        ),
        Pairing::Added(record) => Some(
            Step::Added { name: record.name.clone(), block: block_of(record, '+') },
        ),
        Pairing::Common(a, b) => {
            let before = a.rendering();
            let after = b.rendering();
            if before == after {
                None
            } else {
                Some(
                    Step::Compare {
                        name: a.name.clone(),
                        old: snapshot_of(a),
                        new: snapshot_of(b),
                    },
                )
            }
        },
    }
}

/// One of the first `upto` pairings has this step.
spec fn made_from(pairings: Seq<PairingView>, upto: int, step: StepView) -> bool {
    exists|k: int| 0 <= k < upto && step_of(#[trigger] pairings[k]) == Some(step)
}

/// The steps for two dependency lists, in the order of the names: a block
/// for each dependency that was removed or added, a comparison for each one
/// of both lists whose canonical text changed.
pub fn dependency_steps(old: &DependencyList, new: &DependencyList) -> (r: Vec<Step>)
    ensures
        plans(step_views(r@), old@, new@),
{
    let pairings = pair_up(old, new);
    let ghost pv = pairing_views(pairings@);
    let ghost names = pairing_names(pv);
    let mut out: Vec<Step> = Vec::new();
    let mut i: usize = 0;
    while i < pairings.len()
        invariant
            i <= pairings.len(),
            pv == pairing_views(pairings@),
            names == pairing_names(pv),
            ascending(names),
            ascending(step_names(step_views(out@))),
            forall|x: int|
                0 <= x < out.len() ==> made_from(pv, i as int, #[trigger] step_views(out@)[x]),
            forall|k: int|
                0 <= k < i && step_of(#[trigger] pv[k]) is Some ==> step_names(
                    step_views(out@),
                ).contains(pv[k].name()),
        decreases pairings.len() - i,
    {
        let ghost before = step_views(out@);
        let ghost seen = step_names(before);
        let made = step_from(&pairings[i]);
        match made {
            Some(step) => {
                out.push(step);
            },
            None => {},
        }
        proof {
            let after = step_views(out@);
            let shown = step_names(after);
            let n = pv[i as int].name();
            if step_of(pv[i as int]) is Some {
                assert(after =~= before.push(step_of(pv[i as int])->0));
                assert(shown =~= seen.push(n));
            } else {
                assert(after =~= before);
            }
            assert forall|x: int| 0 <= x < after.len() implies made_from(
                pv,
                i + 1,
                #[trigger] after[x],
            ) by {
                if x < before.len() {
                    assert(after[x] == before[x]);
                    assert(made_from(pv, i as int, before[x]));
                    let k = choose|k: int|
                        0 <= k < i && step_of(#[trigger] pv[k]) == Some(before[x]);
                    assert(step_of(pv[k]) == Some(after[x]));
                } else {
                    assert(step_of(pv[i as int]) == Some(after[x]));
                }
            }
            assert forall|x: int, y: int| 0 <= x < y < shown.len() implies precedes(
                #[trigger] shown[x],
                #[trigger] shown[y],
            ) by {
                if y == seen.len() {
                    assert(shown[x] == seen[x]);
                    assert(made_from(pv, i as int, before[x]));
                    let k = choose|k: int|
                        0 <= k < i && step_of(#[trigger] pv[k]) == Some(before[x]);
                    assert(names[k] == seen[x]);
                    assert(precedes(names[k], names[i as int]));
                } else {
                    assert(precedes(seen[x], seen[y]));
                }
            }
            assert forall|k: int| 0 <= k < i + 1 && step_of(#[trigger] pv[k]) is Some implies
                shown.contains(pv[k].name()) by {
                if k < i {
                    let x = choose|x: int| 0 <= x < seen.len() && seen[x] == pv[k].name();
                    assert(shown[x] == pv[k].name());
                } else {
                    assert(shown[seen.len() as int] == n);
                }
            }
        }
        i += 1;
    }
    proof {
        let steps = step_views(out@);
        assert forall|k: int| 0 <= k < steps.len() implies step_for(
            old@,
            new@,
            (#[trigger] steps[k]).name(),
        ) == Some(steps[k]) by {
            assert(made_from(pv, i as int, steps[k]));
            let x = choose|x: int| 0 <= x < i && step_of(#[trigger] pv[x]) == Some(steps[k]);
            assert(pairing_of(old@, new@, pv[x].name()) == Some(pv[x]));
        }
        assert forall|n: Seq<char>| step_for(old@, new@, n) is Some implies #[trigger] step_names(
            steps,
        ).contains(n) by {
            assert(pairing_names(pv).contains(n));
            let k = choose|k: int| 0 <= k < pv.len() && pairing_names(pv)[k] == n;
            assert(pairing_of(old@, new@, pv[k].name()) == Some(pv[k]));
        }
    }
    out
}

/// Where both lists hold the same record under a name, nothing is shown for
/// that name.
pub proof fn lemma_same_record_no_step(
    old: Map<Seq<char>, RecordView>,
    new: Map<Seq<char>, RecordView>,
    name: Seq<char>,
)
    requires
        old.contains_key(name),
        new.contains_key(name),
        old[name] == new[name],
    ensures
        step_for(old, new, name) is None,
{
}

/// Where the two lists hold the same record under every name that both
/// have, no step is a comparison.
pub proof fn lemma_unchanged_lists_compare_nothing(
    steps: Seq<StepView>,
    old: Map<Seq<char>, RecordView>,
    new: Map<Seq<char>, RecordView>,
)
    requires
        plans(steps, old, new),
        forall|n: Seq<char>| old.contains_key(n) && new.contains_key(n) ==> old[n] == new[n],
    ensures
        forall|k: int| 0 <= k < steps.len() ==> !((#[trigger] steps[k]) is Compare),
{
    assert forall|k: int| 0 <= k < steps.len() implies !((#[trigger] steps[k]) is Compare) by {
        assert(step_for(old, new, steps[k].name()) == Some(steps[k]));
    }
}

/// Where the two lists hold different records under a name, whichever
/// field differs, the two snapshots are handed over for comparison, the old
/// one first, and they differ.
pub proof fn lemma_changed_record_is_compared(
    old: Map<Seq<char>, RecordView>,
    new: Map<Seq<char>, RecordView>,
    name: Seq<char>,
)
    requires
        keyed_by_name(old),
        old.contains_key(name),
        new.contains_key(name),
        old[name] != new[name],
    ensures
        step_for(old, new, name) == Some(
            StepView::Compare { name, old: snapshot(old[name]), new: snapshot(new[name]) },
        ),
        snapshot(old[name]) != snapshot(new[name]),
{
    if rendering(old[name]) == rendering(new[name]) {
        lemma_rendering_injective(old[name], new[name]);
    }
    if snapshot(old[name]) == snapshot(new[name]) {
        assert(rendering(old[name]) =~= snapshot(old[name]).drop_last());
        assert(rendering(new[name]) =~= snapshot(new[name]).drop_last());
    }
}

/// The steps are fixed by the two lists: whatever plans them arrives at the
/// same steps in the same order.
pub proof fn lemma_plans_unique(
    first: Seq<StepView>,
    second: Seq<StepView>,
    old: Map<Seq<char>, RecordView>,
    new: Map<Seq<char>, RecordView>,
)
    requires
        plans(first, old, new),
        plans(second, old, new),
    ensures
        first == second,
{
    let a = step_names(first);
    let b = step_names(second);
    assert forall|n: Seq<char>| a.to_set().contains(n) <==> b.to_set().contains(n) by {
        if a.contains(n) {
            let k = choose|k: int| 0 <= k < a.len() && a[k] == n;
            assert(step_for(old, new, first[k].name()) == Some(first[k]));
            assert(b.contains(n));
        }
        if b.contains(n) {
            let k = choose|k: int| 0 <= k < b.len() && b[k] == n;
            assert(step_for(old, new, second[k].name()) == Some(second[k]));
            assert(a.contains(n));
        }
    }
    assert(a.to_set() =~= b.to_set());
    lemma_ascending_unique(a, b);
    assert(first.len() == a.len());
    assert(second.len() == b.len());
    assert forall|k: int| 0 <= k < first.len() implies first[k] == second[k] by {
        assert(a[k] == first[k].name());
        assert(b[k] == second[k].name());
        assert(step_for(old, new, first[k].name()) == Some(first[k]));
        assert(step_for(old, new, second[k].name()) == Some(second[k]));
    }
    assert(first =~= second);
}

} // verus!
