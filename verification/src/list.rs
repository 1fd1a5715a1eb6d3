//! The dependencies of one package version, keyed by name.

use vstd::prelude::*;
use vstd::string::*;
use crate::order::{
    ascending, lemma_precedes_asymmetric, lemma_precedes_transitive, lemma_rank_cases, precedes,
    rank, Rank,
};
use crate::record::{record_views, DependencyRecord, RecordView};
use crate::text::{push_line, texts};

verus! {

/// The names of the records, in the order of the records.
pub open spec fn names_of(records: Seq<RecordView>) -> Seq<Seq<char>> {
    records.map_values(|r: RecordView| r.name)
}

/// The records by name. Where a name occurs more than once, the record read
/// last stands.
pub open spec fn keyed(records: Seq<RecordView>) -> Map<Seq<char>, RecordView>
    decreases records.len(),
{
    if records.len() == 0 {
        Map::empty()
    } else {
        keyed(records.drop_last()).insert(records.last().name, records.last())
    }
}

/// The names of the records that replace an earlier record of the same name,
/// in the order read.
pub open spec fn replaced(records: Seq<RecordView>) -> Seq<Seq<char>>
    decreases records.len(),
{
    if records.len() == 0 {
        Seq::empty()
    } else if keyed(records.drop_last()).contains_key(records.last().name) {
        replaced(records.drop_last()).push(records.last().name)
    } else {
        replaced(records.drop_last())
    }
}

/// The first `upto` names all precede `name`.
pub open spec fn all_before(names: Seq<Seq<char>>, upto: int, name: Seq<char>) -> bool {
    forall|i: int| 0 <= i < upto ==> precedes(#[trigger] names[i], name)
}

/// `name` precedes all the names from position `from` on.
pub open spec fn all_after(names: Seq<Seq<char>>, from: int, name: Seq<char>) -> bool {
    forall|i: int| from <= i < names.len() ==> precedes(name, #[trigger] names[i])
}

/// A name is keyed exactly when some record bears it.
pub proof fn lemma_keyed_domain(records: Seq<RecordView>, name: Seq<char>)
    ensures
        keyed(records).contains_key(name) <==> names_of(records).contains(name),
    decreases records.len(),
{
    if records.len() > 0 {
        let init = records.drop_last();
        lemma_keyed_domain(init, name);
        if names_of(init).contains(name) {
            let i = choose|i: int| 0 <= i < init.len() && names_of(init)[i] == name;
            assert(names_of(records)[i] == name);
        }
        if names_of(records).contains(name) {
            let i = choose|i: int| 0 <= i < records.len() && names_of(records)[i] == name;
            if i < records.len() - 1 {
                assert(names_of(init)[i] == name);
            }
        } else {
            assert(names_of(records)[records.len() - 1] == records.last().name);
        }
    }
}

/// Every record of the map stands under its own name.
pub open spec fn keyed_by_name(records: Map<Seq<char>, RecordView>) -> bool {
    forall|name: Seq<char>| records.contains_key(name) ==> (#[trigger] records[name]).name == name
}

/// Records that are keyed stand under their own names.
pub proof fn lemma_keyed_by_name(records: Seq<RecordView>)
    ensures
        keyed_by_name(keyed(records)),
    decreases records.len(),
{
    if records.len() > 0 {
        lemma_keyed_by_name(records.drop_last());
    }
}

/// In a list whose names ascend, every record is the one keyed by its name.
pub proof fn lemma_keyed_lookup(records: Seq<RecordView>, i: int)
    requires
        ascending(names_of(records)),
        0 <= i < records.len(),
    ensures
        keyed(records).contains_key(records[i].name),
        keyed(records)[records[i].name] == records[i],
    decreases records.len(),
{
    let init = records.drop_last();
    let last = records.len() - 1;
    if i < last {
        assert forall|a: int, b: int| 0 <= a < b < init.len() implies precedes(
            #[trigger] names_of(init)[a],
            #[trigger] names_of(init)[b],
        ) by {
            assert(precedes(names_of(records)[a], names_of(records)[b]));
        }
        lemma_keyed_lookup(init, i);
        assert(precedes(names_of(records)[i], names_of(records)[last]));
        lemma_precedes_asymmetric(records[i].name, records[last].name);
    }
}

/// A record put into a list, before records of other names only, is keyed
/// as if it had been read last.
pub proof fn lemma_keyed_insert(records: Seq<RecordView>, pos: int, r: RecordView)
    requires
        0 <= pos <= records.len(),
        forall|i: int| pos <= i < records.len() ==> (#[trigger] records[i]).name != r.name,
    ensures
        keyed(records.insert(pos, r)) == keyed(records).insert(r.name, r),
    decreases records.len() - pos,
{
    records.insert_ensures(pos, r);
    let grown = records.insert(pos, r);
    if pos == records.len() {
        assert(grown.drop_last() =~= records);
    } else {
        let init = records.drop_last();
        let last = records.last();
        assert(grown.drop_last() =~= init.insert(pos, r));
        assert(grown.last() == last);
        assert forall|i: int| pos <= i < init.len() implies (#[trigger] init[i]).name
            != r.name by {
            assert(init[i] == records[i]);
        }
        lemma_keyed_insert(init, pos, r);
        assert(keyed(grown) =~= keyed(records).insert(r.name, r));
    }
}

/// A record put in the place of one of its own name, before records of
/// other names only, is keyed as if it had been read last.
pub proof fn lemma_keyed_update(records: Seq<RecordView>, pos: int, r: RecordView)
    requires
        0 <= pos < records.len(),
        records[pos].name == r.name,
        forall|i: int| pos < i < records.len() ==> (#[trigger] records[i]).name != r.name,
    ensures
        keyed(records.update(pos, r)) == keyed(records).insert(r.name, r),
        names_of(records.update(pos, r)) == names_of(records),
    decreases records.len() - pos,
{
    let changed = records.update(pos, r);
    let init = records.drop_last();
    assert(names_of(changed) =~= names_of(records));
    if pos == records.len() - 1 {
        assert(changed.drop_last() =~= init);
        assert(keyed(changed) =~= keyed(records).insert(r.name, r));
    } else {
        let last = records.last();
        assert(changed.drop_last() =~= init.update(pos, r));
        assert(changed.last() == last);
        assert forall|i: int| pos < i < init.len() implies (#[trigger] init[i]).name
            != r.name by {
            assert(init[i] == records[i]);
        }
        lemma_keyed_update(init, pos, r);
        assert(keyed(changed) =~= keyed(records).insert(r.name, r));
    }
}

/// A name put between the names that precede it and those that it precedes
/// leaves the list ascending.
pub proof fn lemma_insert_ascending(names: Seq<Seq<char>>, pos: int, name: Seq<char>)
    requires
        ascending(names),
        0 <= pos <= names.len(),
        all_before(names, pos, name),
        all_after(names, pos, name),
    ensures
        ascending(names.insert(pos, name)),
{
    names.insert_ensures(pos, name);
    let grown = names.insert(pos, name);
    assert forall|i: int, j: int| 0 <= i < j < grown.len() implies precedes(
        #[trigger] grown[i],
        #[trigger] grown[j],
    ) by {
        if i < pos {
            assert(grown[i] == names[i]);
        } else if i > pos {
            assert(grown[(i - 1) + 1] == names[i - 1]);
        }
        if j < pos {
            assert(grown[j] == names[j]);
        } else if j > pos {
            assert(grown[(j - 1) + 1] == names[j - 1]);
        }
    }
}

/// Where `name` stands in an ascending list: the position of the record that
/// bears it, or the position at which it would have to be put.
fn locate(records: &Vec<DependencyRecord>, name: &str) -> (r: (usize, bool))
    requires
        ascending(names_of(record_views(records@))),
    ensures
        r.0 <= records.len(),
        all_before(names_of(record_views(records@)), r.0 as int, name@),
        r.1 ==> r.0 < records.len() && records@[r.0 as int].name@ == name@,
        !r.1 ==> all_after(names_of(record_views(records@)), r.0 as int, name@),
        r.1 ==> all_after(names_of(record_views(records@)), r.0 + 1, name@),
{
    let ghost names = names_of(record_views(records@));
    let mut low: usize = 0;
    let mut high: usize = records.len();
    while low < high
        invariant
            low <= high <= records.len(),
            names == names_of(record_views(records@)),
            ascending(names),
            all_before(names, low as int, name@),
            all_after(names, high as int, name@),
        decreases high - low,
    {
        let mid: usize = low + (high - low) / 2;
        let here = rank(records[mid].name.as_str(), name);
        proof {
            lemma_rank_cases(names[mid as int], name@);
        }
        match here {
            Rank::Before => {
                assert forall|i: int| 0 <= i < mid + 1 implies precedes(
                    #[trigger] names[i],
                    name@,
                ) by {
                    if i < mid {
                        assert(precedes(names[i], names[mid as int]));
                        lemma_precedes_transitive(names[i], names[mid as int], name@);
                    }
                }
                low = mid + 1;
            },
            Rank::Same => {
                assert forall|i: int| 0 <= i < mid implies precedes(#[trigger] names[i], name@) by {
                    assert(precedes(names[i], names[mid as int]));
                }
                assert forall|i: int| mid + 1 <= i < names.len() implies precedes(
                    name@,
                    #[trigger] names[i],
                ) by {
                    assert(precedes(names[mid as int], names[i]));
                }
                return (mid, true);
            },
            Rank::After => {
                assert forall|i: int| mid <= i < names.len() implies precedes(
                    name@,
                    #[trigger] names[i],
                ) by {
                    if mid < i {
                        assert(precedes(names[mid as int], names[i]));
                        lemma_precedes_transitive(name@, names[mid as int], names[i]);
                    }
                }
                high = mid;
            },
        }
    }
    (low, false)
}

/// The dependencies of one package version, one record for each name, held
/// in the order of the names.
pub struct DependencyList {
    records: Vec<DependencyRecord>,
}

impl View for DependencyList {
    type V = Map<Seq<char>, RecordView>;

    closed spec fn view(&self) -> Map<Seq<char>, RecordView> {
        keyed(record_views(self.records@))
    }
}

impl DependencyList {
    #[verifier::type_invariant]
    spec fn names_ascend(&self) -> bool {
        ascending(names_of(record_views(self.records@)))
    }

    /// Keys the records by name. A record replaces an earlier record of the
    /// same name; the names of the records that did so are handed back, so
    /// that the caller can report them.
    pub fn from_records(records: Vec<DependencyRecord>) -> (r: (DependencyList, Vec<String>))
        ensures
            r.0@ == keyed(record_views(records@)),
            texts(r.1@) == replaced(record_views(records@)),
            keyed_by_name(r.0@),
    {
        let ghost input = record_views(records@);
        proof {
            lemma_keyed_by_name(input);
        }
        let mut sorted: Vec<DependencyRecord> = Vec::new();
        let mut again: Vec<String> = Vec::new();
        assert(input.take(0) =~= Seq::<RecordView>::empty());
        assert(texts(again@) =~= Seq::<Seq<char>>::empty());
        assert(record_views(sorted@) =~= Seq::<RecordView>::empty());
        for record in it: records
            invariant
                record_views(it.seq()) == input,
                ascending(names_of(record_views(sorted@))),
                keyed(record_views(sorted@)) == keyed(input.take(it.index() as int)),
                texts(again@) == replaced(input.take(it.index() as int)),
        {
            let ghost i = it.index() as int;
            let ghost before = record_views(sorted@);
            let ghost names = names_of(before);
            let ghost r = record@;
            proof {
                assert(input[i] == r);
                assert(input.take(i + 1).drop_last() =~= input.take(i));
                assert(input.take(i + 1).last() == r);
                lemma_keyed_domain(before, r.name);
            }
            let (pos, found) = locate(&sorted, record.name.as_str());
            if found {
                proof {
                    assert(names[pos as int] == r.name);
                    assert forall|k: int| pos < k < before.len() implies (#[trigger] before[k]).name
                        != r.name by {
                        assert(precedes(r.name, names[k]));
                        lemma_precedes_asymmetric(r.name, names[k]);
                    }
                    lemma_keyed_update(before, pos as int, r);
                }
                push_line(&mut again, record.name.clone());
                sorted.set(pos, record);
                assert(record_views(sorted@) =~= before.update(pos as int, r));
            } else {
                proof {
                    assert forall|k: int| pos <= k < before.len() implies (#[trigger] before[k]).name
                        != r.name by {
                        assert(precedes(r.name, names[k]));
                        lemma_precedes_asymmetric(r.name, names[k]);
                    }
                    assert forall|k: int| 0 <= k < names.len() implies names[k] != r.name by {
                        if k < pos {
                            assert(precedes(names[k], r.name));
                            lemma_precedes_asymmetric(names[k], r.name);
                        } else {
                            assert(before[k].name != r.name);
                        }
                    }
                    lemma_keyed_insert(before, pos as int, r);
                    lemma_insert_ascending(names, pos as int, r.name);
                    before.insert_ensures(pos as int, r);
                    names.insert_ensures(pos as int, r.name);
                    assert(names_of(before.insert(pos as int, r)) =~= names.insert(
                        pos as int,
                        r.name,
                    ));
                }
                sorted.insert(pos, record);
                proof {
                    sorted@.insert_ensures(pos as int, record);
                    assert(record_views(sorted@) =~= before.insert(pos as int, r));
                }
            }
        }
        assert(input.take(input.len() as int) =~= input);
        (DependencyList { records: sorted }, again)
    }

    /// The records in the order of their names.
    pub fn records(&self) -> (r: &Vec<DependencyRecord>)
        ensures
            ascending(names_of(record_views(r@))),
            keyed(record_views(r@)) == self@,
            keyed_by_name(self@),
    {
        proof {
            use_type_invariant(self);
            lemma_keyed_by_name(record_views(self.records@));
        }
        &self.records
    }

    /// The record that bears `name`, if there is one.
    pub fn get(&self, name: &str) -> (r: Option<&DependencyRecord>)
        ensures
            match r {
                Some(record) => self@.contains_key(name@) && self@[name@] == record@,
                None => !self@.contains_key(name@),
            },
    {
        proof {
            use_type_invariant(self);
        }
        let ghost views = record_views(self.records@);
        let ghost names = names_of(views);
        let (pos, found) = locate(&self.records, name);
        if found {
            proof {
                lemma_keyed_lookup(views, pos as int);
            }
            Some(&self.records[pos])
        } else {
            proof {
                lemma_keyed_domain(views, name@);
                assert forall|k: int| 0 <= k < names.len() implies names[k] != name@ by {
                    if k < pos {
                        assert(precedes(names[k], name@));
                        lemma_precedes_asymmetric(names[k], name@);
                    } else {
                        assert(precedes(name@, names[k]));
                        lemma_precedes_asymmetric(name@, names[k]);
                    }
                }
            }
            None
        }
    }
}

} // verus!
