//! Two dependency lists set against each other: which names were removed,
//! which were added, and which stand in both.

use vstd::prelude::*;
use vstd::string::*;
use crate::list::{
    all_after, keyed, lemma_keyed_domain, lemma_keyed_lookup, names_of, DependencyList,
};
use crate::order::{
    ascending, lemma_precedes_asymmetric, lemma_precedes_transitive, lemma_rank_cases, precedes,
    rank, Rank,
};
use crate::record::{record_views, DependencyRecord, RecordView};
use crate::text::{push_line, texts};

verus! {

/// In which of the two lists a name stands.
#[derive(Clone, Copy, Debug, PartialEq, Eq, Structural)]
pub enum Presence {
    /// In the old list only.
    Removed,
    /// In the new list only.
    Added,
    /// In both lists.
    Common,
}

/// A name of either list with the record, or the two records, that bear it.
#[derive(Debug)]
pub enum Pairing<'a> {
    Removed(&'a DependencyRecord),
    Added(&'a DependencyRecord),
    Common(&'a DependencyRecord, &'a DependencyRecord),
}

/// A pairing as a mathematical value.
pub enum PairingView {
    Removed(RecordView),
    Added(RecordView),
    Common(RecordView, RecordView),
}

impl<'a> View for Pairing<'a> {
    type V = PairingView;

    open spec fn view(&self) -> PairingView {
        match *self {
            Pairing::Removed(r) => PairingView::Removed(r@),
            Pairing::Added(r) => PairingView::Added(r@),
            Pairing::Common(a, b) => PairingView::Common(a@, b@),
        }
    }
}

impl PairingView {
    /// The name that the pairing is about.
    pub open spec fn name(self) -> Seq<char> {
        match self {
            PairingView::Removed(r) => r.name,
            PairingView::Added(r) => r.name,
            PairingView::Common(a, _) => a.name,
        }
    }

    pub open spec fn presence(self) -> Presence {
        match self {
            PairingView::Removed(_) => Presence::Removed,
            PairingView::Added(_) => Presence::Added,
            PairingView::Common(_, _) => Presence::Common,
        }
    }
}

impl<'a> Pairing<'a> {
    /// The name that the pairing is about.
    pub fn name(&self) -> (r: &'a str)
        ensures
            r@ == self@.name(),
    {
        match *self {
            Pairing::Removed(r) => r.name.as_str(),
            Pairing::Added(r) => r.name.as_str(),
            Pairing::Common(a, _) => a.name.as_str(),
        }
    }

    pub fn presence(&self) -> (r: Presence)
        ensures
            r == self@.presence(),
    {
        match *self {
            Pairing::Removed(_) => Presence::Removed,
            Pairing::Added(_) => Presence::Added,
            Pairing::Common(_, _) => Presence::Common,
        }
    }
}

/// The pairings of a list as mathematical values.
pub open spec fn pairing_views(pairings: Seq<Pairing>) -> Seq<PairingView> {
    pairings.map_values(|p: Pairing| p@)
}

/// The names that the pairings are about, in the order of the pairings.
pub open spec fn pairing_names(pairings: Seq<PairingView>) -> Seq<Seq<char>> {
    pairings.map_values(|p: PairingView| p.name())
}

/// What the two lists hold under `name`: nothing where neither has it.
pub open spec fn pairing_of(
    old: Map<Seq<char>, RecordView>,
    new: Map<Seq<char>, RecordView>,
    name: Seq<char>,
) -> Option<PairingView> {
    if old.contains_key(name) && new.contains_key(name) {
        Some(PairingView::Common(old[name], new[name]))
    } else if old.contains_key(name) {
        Some(PairingView::Removed(old[name]))
    } else if new.contains_key(name) {
        Some(PairingView::Added(new[name]))
    } else {
        None
    }
}

/// The names that only the new list has.
pub open spec fn added_names(
    old: Map<Seq<char>, RecordView>,
    new: Map<Seq<char>, RecordView>,
) -> Set<Seq<char>> {
    new.dom().difference(old.dom())
}

/// The names that only the old list has.
pub open spec fn removed_names(
    old: Map<Seq<char>, RecordView>,
    new: Map<Seq<char>, RecordView>,
) -> Set<Seq<char>> {
    old.dom().difference(new.dom())
}

/// The names that both lists have.
pub open spec fn common_names(
    old: Map<Seq<char>, RecordView>,
    new: Map<Seq<char>, RecordView>,
) -> Set<Seq<char>> {
    old.dom().intersect(new.dom())
}

/// The names of one presence.
pub open spec fn names_with(
    old: Map<Seq<char>, RecordView>,
    new: Map<Seq<char>, RecordView>,
    presence: Presence,
) -> Set<Seq<char>> {
    match presence {
        Presence::Removed => removed_names(old, new),
        Presence::Added => added_names(old, new),
        Presence::Common => common_names(old, new),
    }
}

/// The pairings describe the two lists: they stand in the order of their
/// names, each holds what the lists hold under its name, and no name of
/// either list is missing.
pub open spec fn pairs_up(
    pairings: Seq<PairingView>,
    old: Map<Seq<char>, RecordView>,
    new: Map<Seq<char>, RecordView>,
) -> bool {
    &&& ascending(pairing_names(pairings))
    &&& forall|k: int|
        0 <= k < pairings.len() ==> pairing_of(old, new, (#[trigger] pairings[k]).name()) == Some(
            pairings[k],
        )
    &&& forall|n: Seq<char>|
        old.contains_key(n) || new.contains_key(n) ==> #[trigger] pairing_names(pairings).contains(
            n,
        )
}

/// A name that no record bears is not keyed.
proof fn lemma_absent(records: Seq<RecordView>, name: Seq<char>)
    requires
        forall|l: int| 0 <= l < records.len() ==> #[trigger] names_of(records)[l] != name,
    ensures
        !keyed(records).contains_key(name),
{
    lemma_keyed_domain(records, name);
}

/// The index before a step that may have moved it on by one.
spec fn old_index(now: usize, moved: bool) -> int {
    if moved {
        now - 1
    } else {
        now as int
    }
}

/// Sets the two lists against each other, name by name in the order of the
/// names.
pub fn pair_up<'a>(old: &'a DependencyList, new: &'a DependencyList) -> (r: Vec<Pairing<'a>>)
    ensures
        pairs_up(pairing_views(r@), old@, new@),
{
    let a = old.records();
    let b = new.records();
    let ghost av = record_views(a@);
    let ghost bv = record_views(b@);
    let ghost an = names_of(av);
    let ghost bn = names_of(bv);
    let mut out: Vec<Pairing<'a>> = Vec::new();
    let mut i: usize = 0;
    let mut j: usize = 0;
    while i < a.len() || j < b.len()
        invariant
            i <= a.len(),
            j <= b.len(),
            av == record_views(a@),
            bv == record_views(b@),
            an == names_of(av),
            bn == names_of(bv),
            ascending(an),
            ascending(bn),
            keyed(av) == old@,
            keyed(bv) == new@,
            ascending(pairing_names(pairing_views(out@))),
            forall|x: int|
                0 <= x < out.len() ==> all_after(
                    an,
                    i as int,
                    #[trigger] pairing_names(pairing_views(out@))[x],
                ),
            forall|x: int|
                0 <= x < out.len() ==> all_after(
                    bn,
                    j as int,
                    #[trigger] pairing_names(pairing_views(out@))[x],
                ),
            forall|x: int|
                0 <= x < out.len() ==> pairing_of(
                    old@,
                    new@,
                    (#[trigger] pairing_views(out@)[x]).name(),
                ) == Some(pairing_views(out@)[x]),
            forall|k: int|
                0 <= k < i ==> pairing_names(pairing_views(out@)).contains(#[trigger] an[k]),
            forall|l: int|
                0 <= l < j ==> pairing_names(pairing_views(out@)).contains(#[trigger] bn[l]),
        decreases (a.len() - i) + (b.len() - j),
    {
        let ghost before = pairing_views(out@);
        let ghost seen = pairing_names(before);
        let side = if i == a.len() {
            Rank::After
        } else if j == b.len() {
            Rank::Before
        } else {
            rank(a[i].name.as_str(), b[j].name.as_str())
        };
        let ghost n = if side == Rank::After {
            bn[j as int]
        } else {
            an[i as int]
        };
        proof {
            if i < a.len() && j < b.len() {
                lemma_rank_cases(an[i as int], bn[j as int]);
            }
            // The name at hand differs from every name passed on the other side.
            assert forall|l: int| 0 <= l < j && side != Rank::After implies bn[l] != n by {
                let x = choose|x: int| 0 <= x < seen.len() && seen[x] == bn[l];
                assert(all_after(an, i as int, seen[x]));
                assert(precedes(seen[x], an[i as int]));
                lemma_precedes_asymmetric(bn[l], n);
            }
            assert forall|k: int| 0 <= k < i && side == Rank::After implies an[k] != n by {
                let x = choose|x: int| 0 <= x < seen.len() && seen[x] == an[k];
                assert(all_after(bn, j as int, seen[x]));
                assert(precedes(seen[x], bn[j as int]));
                lemma_precedes_asymmetric(an[k], n);
            }
            // It precedes every name that comes later on either side.
            assert forall|k: int| i < k < an.len() && side != Rank::After implies precedes(
                n,
                an[k],
            ) by {
                assert(precedes(an[i as int], an[k]));
            }
            assert forall|l: int| j < l < bn.len() && side != Rank::Before implies precedes(
                n,
                bn[l],
            ) by {
                assert(precedes(bn[j as int], bn[l]));
            }
            assert forall|l: int| j <= l < bn.len() && side == Rank::Before implies precedes(
                n,
                bn[l],
            ) by {
                if l > j {
                    assert(precedes(bn[j as int], bn[l]));
                    lemma_precedes_transitive(n, bn[j as int], bn[l]);
                }
            }
            assert forall|k: int| i <= k < an.len() && side == Rank::After implies precedes(
                n,
                an[k],
            ) by {
                if k > i {
                    assert(precedes(an[i as int], an[k]));
                    lemma_precedes_transitive(n, an[i as int], an[k]);
                }
            }
            // What the lists hold under it.
            if side != Rank::After {
                lemma_keyed_lookup(av, i as int);
            }
            if side != Rank::Before {
                lemma_keyed_lookup(bv, j as int);
            }
            if side == Rank::Before {
                assert forall|l: int| 0 <= l < bn.len() implies #[trigger] bn[l] != n by {
                    if l >= j {
                        lemma_precedes_asymmetric(n, bn[l]);
                    }
                }
                lemma_absent(bv, n);
            }
            if side == Rank::After {
                assert forall|k: int| 0 <= k < an.len() implies #[trigger] an[k] != n by {
                    if k >= i {
                        lemma_precedes_asymmetric(n, an[k]);
                    }
                }
                lemma_absent(av, n);
            }
        }
        let pairing = match side {
            Rank::Before => Pairing::Removed(&a[i]),
            Rank::Same => Pairing::Common(&a[i], &b[j]),
            Rank::After => Pairing::Added(&b[j]),
        };
        assert(pairing@.name() == n);
        assert(pairing_of(old@, new@, n) == Some(pairing@));
        out.push(pairing);
        if side != Rank::After {
            i += 1;
        }
        if side != Rank::Before {
            j += 1;
        }
        proof {
            let after = pairing_views(out@);
            let names = pairing_names(after);
            assert(after =~= before.push(pairing@));
            assert(names =~= seen.push(n));
            assert forall|x: int, y: int| 0 <= x < y < names.len() implies precedes(
                #[trigger] names[x],
                #[trigger] names[y],
            ) by {
                if y == seen.len() {
                    assert(names[x] == seen[x]);
                    if side == Rank::After {
                        assert(all_after(bn, j - 1, seen[x]));
                        assert(precedes(seen[x], bn[j - 1]));
                    } else {
                        assert(all_after(an, i - 1, seen[x]));
                        assert(precedes(seen[x], an[i - 1]));
                    }
                } else {
                    assert(precedes(seen[x], seen[y]));
                }
            }
            assert forall|x: int| 0 <= x < names.len() implies all_after(
                an,
                i as int,
                #[trigger] names[x],
            ) by {
                if x < seen.len() {
                    assert(names[x] == seen[x]);
                    assert(all_after(an, old_index(i, side != Rank::After), seen[x]));
                }
            }
            assert forall|x: int| 0 <= x < names.len() implies all_after(
                bn,
                j as int,
                #[trigger] names[x],
            ) by {
                if x < seen.len() {
                    assert(names[x] == seen[x]);
                    assert(all_after(bn, old_index(j, side != Rank::Before), seen[x]));
                }
            }
            assert forall|x: int| 0 <= x < after.len() implies pairing_of(
                old@,
                new@,
                (#[trigger] after[x]).name(),
            ) == Some(after[x]) by {
                if x < before.len() {
                    assert(after[x] == before[x]);
                }
            }
            assert forall|k: int| 0 <= k < i implies names.contains(#[trigger] an[k]) by {
                if side != Rank::After && k == i - 1 {
                    assert(names[seen.len() as int] == an[k]);
                } else {
                    let x = choose|x: int| 0 <= x < seen.len() && seen[x] == an[k];
                    assert(names[x] == an[k]);
                }
            }
            assert forall|l: int| 0 <= l < j implies names.contains(#[trigger] bn[l]) by {
                if side != Rank::Before && l == j - 1 {
                    assert(names[seen.len() as int] == bn[l]);
                } else {
                    let x = choose|x: int| 0 <= x < seen.len() && seen[x] == bn[l];
                    assert(names[x] == bn[l]);
                }
            }
        }
    }
    proof {
        let names = pairing_names(pairing_views(out@));
        assert forall|n: Seq<char>| old@.contains_key(n) || new@.contains_key(n) implies
            #[trigger] names.contains(n) by {
            lemma_keyed_domain(av, n);
            lemma_keyed_domain(bv, n);
            if old@.contains_key(n) {
                let k = choose|k: int| 0 <= k < an.len() && an[k] == n;
                assert(names.contains(an[k]));
            } else {
                let l = choose|l: int| 0 <= l < bn.len() && bn[l] == n;
                assert(names.contains(bn[l]));
            }
        }
    }
    out
}

/// One of the first `upto` pairings has this presence and this name.
spec fn drawn_from(
    pairings: Seq<PairingView>,
    upto: int,
    presence: Presence,
    name: Seq<char>,
) -> bool {
    exists|k: int|
        0 <= k < upto && (#[trigger] pairings[k]).presence() == presence && pairings[k].name()
            == name
}

/// The names of the pairings of one presence, in the order of the pairings.
fn names_where(pairings: &Vec<Pairing>, presence: Presence) -> (r: Vec<String>)
    requires
        ascending(pairing_names(pairing_views(pairings@))),
    ensures
        ascending(texts(r@)),
        forall|n: Seq<char>| #[trigger]
            texts(r@).contains(n) <==> drawn_from(
                pairing_views(pairings@),
                pairings.len() as int,
                presence,
                n,
            ),
{
    let ghost pv = pairing_views(pairings@);
    let ghost names = pairing_names(pv);
    let mut out: Vec<String> = Vec::new();
    let mut i: usize = 0;
    assert(texts(out@) =~= Seq::<Seq<char>>::empty());
    while i < pairings.len()
        invariant
            i <= pairings.len(),
            pv == pairing_views(pairings@),
            names == pairing_names(pv),
            ascending(names),
            ascending(texts(out@)),
            forall|x: int|
                0 <= x < out.len() ==> drawn_from(pv, i as int, presence, #[trigger] texts(out@)[x]),
            forall|k: int|
                0 <= k < i && (#[trigger] pv[k]).presence() == presence ==> texts(out@).contains(
                    pv[k].name(),
                ),
        decreases pairings.len() - i,
    {
        let ghost before = texts(out@);
        if pairings[i].presence() == presence {
            let name = pairings[i].name();
            push_line(&mut out, String::from_str(name));
        }
        proof {
            let after = texts(out@);
            let n = pv[i as int].name();
            let taken = pv[i as int].presence() == presence;
            assert forall|x: int| 0 <= x < after.len() implies drawn_from(
                pv,
                i + 1,
                presence,
                #[trigger] after[x],
            ) by {
                if x < before.len() {
                    assert(after[x] == before[x]);
                    assert(drawn_from(pv, i as int, presence, before[x]));
                    let k = choose|k: int|
                        0 <= k < i && (#[trigger] pv[k]).presence() == presence && pv[k].name()
                            == before[x];
                    assert(pv[k].presence() == presence && pv[k].name() == after[x]);
                } else {
                    assert(pv[i as int].presence() == presence && pv[i as int].name()
                        == after[x]);
                }
            }
            assert forall|x: int, y: int| 0 <= x < y < after.len() implies precedes(
                #[trigger] after[x],
                #[trigger] after[y],
            ) by {
                if y == before.len() {
                    assert(after[x] == before[x]);
                    assert(drawn_from(pv, i as int, presence, before[x]));
                    let k = choose|k: int|
                        0 <= k < i && (#[trigger] pv[k]).presence() == presence && pv[k].name()
                            == before[x];
                    assert(precedes(names[k], names[i as int]));
                } else {
                    assert(precedes(before[x], before[y]));
                }
            }
            assert forall|k: int|
                0 <= k < i + 1 && (#[trigger] pv[k]).presence() == presence implies after.contains(
                pv[k].name(),
            ) by {
                if k < i {
                    let x = choose|x: int| 0 <= x < before.len() && before[x] == pv[k].name();
                    assert(after[x] == pv[k].name());
                } else {
                    assert(after[before.len() as int] == n);
                }
            }
        }
        i += 1;
    }
    proof {
        let found = texts(out@);
        assert forall|n: Seq<char>| #[trigger] found.contains(n) <==> drawn_from(
            pv,
            pairings.len() as int,
            presence,
            n,
        ) by {
            if found.contains(n) {
                let x = choose|x: int| 0 <= x < found.len() && found[x] == n;
                assert(drawn_from(pv, i as int, presence, found[x]));
            }
            if drawn_from(pv, pairings.len() as int, presence, n) {
                let k = choose|k: int|
                    0 <= k < i && (#[trigger] pv[k]).presence() == presence && pv[k].name() == n;
                assert(found.contains(pv[k].name()));
            }
        }
    }
    out
}

/// The pairings of one presence bear exactly the names of that presence.
proof fn lemma_names_with(
    pairings: Seq<PairingView>,
    old: Map<Seq<char>, RecordView>,
    new: Map<Seq<char>, RecordView>,
    presence: Presence,
    names: Seq<Seq<char>>,
)
    requires
        pairs_up(pairings, old, new),
        forall|n: Seq<char>| #[trigger]
            names.contains(n) <==> drawn_from(pairings, pairings.len() as int, presence, n),
    ensures
        names.to_set() == names_with(old, new, presence),
{
    assert forall|n: Seq<char>| names.to_set().contains(n) <==> names_with(
        old,
        new,
        presence,
    ).contains(n) by {
        if names.contains(n) {
            let k = choose|k: int|
                0 <= k < pairings.len() && (#[trigger] pairings[k]).presence() == presence
                    && pairings[k].name() == n;
            assert(pairing_of(old, new, pairings[k].name()) == Some(pairings[k]));
        }
        if names_with(old, new, presence).contains(n) {
            assert(pairing_names(pairings).contains(n));
            let k = choose|k: int|
                0 <= k < pairings.len() && pairing_names(pairings)[k] == n;
            assert(pairing_of(old, new, pairings[k].name()) == Some(pairings[k]));
            assert(pairings[k].presence() == presence && pairings[k].name() == n);
        }
    }
    assert(names.to_set() =~= names_with(old, new, presence));
}

/// The names of two lists in three parts: those that only the new list has,
/// those that only the old list has, and those that both have.
#[derive(Clone, Debug)]
pub struct Reconciliation {
    pub added: Vec<String>,
    pub removed: Vec<String>,
    pub common: Vec<String>,
}

impl Reconciliation {
    /// Each part holds the names of its kind, in ascending order.
    pub open spec fn describes(
        &self,
        old: Map<Seq<char>, RecordView>,
        new: Map<Seq<char>, RecordView>,
    ) -> bool {
        &&& ascending(texts(self.added@))
        &&& ascending(texts(self.removed@))
        &&& ascending(texts(self.common@))
        &&& texts(self.added@).to_set() == added_names(old, new)
        &&& texts(self.removed@).to_set() == removed_names(old, new)
        &&& texts(self.common@).to_set() == common_names(old, new)
    }
}

/// Sorts the names of the two lists into added, removed and common ones.
pub fn reconcile(old: &DependencyList, new: &DependencyList) -> (r: Reconciliation)
    ensures
        r.describes(old@, new@),
{
    let pairings = pair_up(old, new);
    let added = names_where(&pairings, Presence::Added);
    let removed = names_where(&pairings, Presence::Removed);
    let common = names_where(&pairings, Presence::Common);
    proof {
        let pv = pairing_views(pairings@);
        lemma_names_with(pv, old@, new@, Presence::Added, texts(added@));
        lemma_names_with(pv, old@, new@, Presence::Removed, texts(removed@));
        lemma_names_with(pv, old@, new@, Presence::Common, texts(common@));
    }
    Reconciliation { added, removed, common }
}

/// Every name of either list is added, removed or common, and none is two
/// of these at once.
pub proof fn lemma_parts_cover_and_are_disjoint(
    old: Map<Seq<char>, RecordView>,
    new: Map<Seq<char>, RecordView>,
)
    ensures
        added_names(old, new).union(removed_names(old, new)).union(common_names(old, new))
            == old.dom().union(new.dom()),
        added_names(old, new).disjoint(removed_names(old, new)),
        added_names(old, new).disjoint(common_names(old, new)),
        removed_names(old, new).disjoint(common_names(old, new)),
{
    assert(added_names(old, new).union(removed_names(old, new)).union(common_names(old, new))
        =~= old.dom().union(new.dom()));
}

/// With the two lists exchanged, what was added is removed and what was
/// removed is added; the common names stay.
pub proof fn lemma_exchange(old: Map<Seq<char>, RecordView>, new: Map<Seq<char>, RecordView>)
    ensures
        added_names(old, new) == removed_names(new, old),
        removed_names(old, new) == added_names(new, old),
        common_names(old, new) == common_names(new, old),
{
    assert(common_names(old, new) =~= common_names(new, old));
}

/// An ascending list is fixed by the names in it: two ascending lists of the
/// same names are one list.
pub proof fn lemma_ascending_unique(first: Seq<Seq<char>>, second: Seq<Seq<char>>)
    requires
        ascending(first),
        ascending(second),
        first.to_set() == second.to_set(),
    ensures
        first == second,
    decreases first.len(),
{
    if first.len() == 0 {
        if second.len() > 0 {
            assert(second.contains(second[0]));
            assert(first.to_set().contains(second[0]));
        }
        assert(first =~= second);
    } else if second.len() == 0 {
        assert(first.contains(first[0]));
        assert(second.to_set().contains(first[0]));
    } else {
        let a = first.last();
        let b = second.last();
        assert(first.contains(a));
        assert(second.to_set().contains(a));
        let ia = choose|i: int| 0 <= i < second.len() && second[i] == a;
        assert(second.contains(b));
        assert(first.to_set().contains(b));
        let ib = choose|i: int| 0 <= i < first.len() && first[i] == b;
        if a != b {
            assert(precedes(second[ia], second[second.len() - 1]));
            assert(precedes(first[ib], first[first.len() - 1]));
            lemma_precedes_asymmetric(a, b);
        }
        let f = first.drop_last();
        let s = second.drop_last();
        assert forall|n: Seq<char>| f.to_set().contains(n) <==> s.to_set().contains(n) by {
            if f.contains(n) {
                let i = choose|i: int| 0 <= i < f.len() && f[i] == n;
                assert(first[i] == n);
                assert(first.contains(n));
                assert(precedes(first[i], first[first.len() - 1]));
                lemma_precedes_asymmetric(n, a);
                assert(second.to_set().contains(n));
                let j = choose|j: int| 0 <= j < second.len() && second[j] == n;
                assert(s[j] == n);
            }
            if s.contains(n) {
                let j = choose|j: int| 0 <= j < s.len() && s[j] == n;
                assert(second[j] == n);
                assert(second.contains(n));
                assert(precedes(second[j], second[second.len() - 1]));
                lemma_precedes_asymmetric(n, b);
                assert(first.to_set().contains(n));
                let i = choose|i: int| 0 <= i < first.len() && first[i] == n;
                assert(f[i] == n);
            }
        }
        assert(f.to_set() =~= s.to_set());
        assert forall|x: int, y: int| 0 <= x < y < f.len() implies precedes(
            #[trigger] f[x],
            #[trigger] f[y],
        ) by {
            assert(precedes(first[x], first[y]));
        }
        assert forall|x: int, y: int| 0 <= x < y < s.len() implies precedes(
            #[trigger] s[x],
            #[trigger] s[y],
        ) by {
            assert(precedes(second[x], second[y]));
        }
        lemma_ascending_unique(f, s);
        assert(first =~= f.push(a));
        assert(second =~= s.push(b));
    }
}

} // verus!
