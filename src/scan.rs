use vstd::prelude::*;

use crate::catalog::{lemma_same_mapping_same_walk, same_entries, Catalog};
use crate::model::{LoadingResult, Outcome};
use crate::names::{component_name, stem_of};

verus! {

/// What was found for one entry of the catalog directory: its file name, and
/// the outcome of loading its source file, or why that file could not be
/// read.
pub struct EntryReport {
    pub file_name: String,
    pub loaded: Result<LoadingResult, String>,
}

/// The catalog built from entry reports taken in order: an entry whose
/// identifier cannot be derived, or whose file could not be read, is left
/// out; a later entry replaces an earlier one with the same identifier.
pub open spec fn catalog_of(reports: Seq<EntryReport>) -> Map<Seq<char>, Outcome>
    decreases reports.len(),
{
    if reports.len() == 0 {
        Map::empty()
    } else {
        let prev = catalog_of(reports.drop_last());
        let r = reports.last();
        match (stem_of(r.file_name@), r.loaded) {
            (Some(id), Ok(o)) => prev.insert(id, o@),
            _ => prev,
        }
    }
}

/// Whether report `r` contributes an outcome under identifier `k`.
pub open spec fn contributes(r: EntryReport, k: Seq<char>) -> bool {
    stem_of(r.file_name@) == Some(k) && r.loaded is Ok
}

/// Builds the catalog from the reports of every entry, in the order the
/// entries were listed.
pub fn collect_catalog(reports: Vec<EntryReport>) -> (r: Catalog)
    ensures
        r.wf(),
        r@ == catalog_of(reports@),
{
    let mut reports = reports;
    let ghost all = reports@;
    let mut catalog = Catalog::new();
    assert(all.subrange(0, 0) =~= Seq::<EntryReport>::empty());
    while reports.len() > 0
        invariant
            catalog.wf(),
            reports@.len() <= all.len(),
            reports@ == all.subrange(all.len() - reports@.len(), all.len() as int),
            catalog@ == catalog_of(all.subrange(0, all.len() - reports@.len())),
        decreases reports.len(),
    {
        let ghost done = all.len() - reports@.len();
        let report = reports.remove(0);
        proof {
            assert(report == all[done]);
            assert(all.subrange(0, done + 1).drop_last() =~= all.subrange(0, done));
            assert(reports@ =~= all.subrange(all.len() - reports@.len(), all.len() as int));
        }
        let EntryReport { file_name, loaded } = report;
        match component_name(file_name.as_str()) {
            Some(id) => match loaded {
                Ok(outcome) => {
                    catalog.insert(id, outcome);
                },
                Err(_) => {},
            },
            None => {},
        }
    }
    assert(all.subrange(0, all.len() as int) =~= all);
    catalog
}

/// Builds the catalog from the listing of the catalog directory. A listing
/// that failed is an error of the whole scan, never an empty catalog.
pub fn load_components_from<E>(listing: Result<Vec<EntryReport>, E>) -> (r: Result<Catalog, E>)
    ensures
        match listing {
            Ok(reports) => r is Ok && r->Ok_0.wf() && r->Ok_0@ == catalog_of(reports@),
            Err(e) => r == Err::<Catalog, E>(e),
        },
{
    match listing {
        Ok(reports) => Ok(collect_catalog(reports)),
        Err(e) => Err(e),
    }
}

/// An identifier is in the catalog exactly when some entry contributes an
/// outcome under it.
pub proof fn lemma_catalog_keys(reports: Seq<EntryReport>, k: Seq<char>)
    ensures
        catalog_of(reports).contains_key(k) <==> exists|i: int|
            0 <= i < reports.len() && contributes(#[trigger] reports[i], k),
    decreases reports.len(),
{
    if reports.len() > 0 {
        let prev = reports.drop_last();
        lemma_catalog_keys(prev, k);
        if exists|i: int| 0 <= i < prev.len() && contributes(#[trigger] prev[i], k) {
            let i = choose|i: int| 0 <= i < prev.len() && contributes(#[trigger] prev[i], k);
            assert(reports[i] == prev[i]);
        }
        if exists|i: int| 0 <= i < reports.len() && contributes(#[trigger] reports[i], k) {
            let i = choose|i: int| 0 <= i < reports.len() && contributes(#[trigger] reports[i], k);
            if i < prev.len() {
                assert(prev[i] == reports[i]);
            }
        }
    }
}

/// The last entry that contributes under an identifier gives its outcome.
pub proof fn lemma_last_entry_wins(reports: Seq<EntryReport>, j: int)
    requires
        0 <= j < reports.len(),
        reports[j].loaded is Ok,
        stem_of(reports[j].file_name@) is Some,
        forall|i: int|
            j < i < reports.len() ==> !contributes(
                #[trigger] reports[i],
                stem_of(reports[j].file_name@)->Some_0,
            ),
    ensures
        catalog_of(reports)[stem_of(reports[j].file_name@)->Some_0] == reports[j].loaded->Ok_0@,
        catalog_of(reports).contains_key(stem_of(reports[j].file_name@)->Some_0),
    decreases reports.len(),
{
    if j < reports.len() - 1 {
        let prev = reports.drop_last();
        assert(prev[j] == reports[j]);
        assert forall|i: int| j < i < prev.len() implies !contributes(
            #[trigger] prev[i],
            stem_of(prev[j].file_name@)->Some_0,
        ) by {
            assert(prev[i] == reports[i]);
        }
        lemma_last_entry_wins(prev, j);
        assert(!contributes(reports[reports.len() - 1], stem_of(reports[j].file_name@)->Some_0));
    }
}

/// An entry whose file could not be read contributes nothing: the catalog is
/// the one built without it.
pub proof fn lemma_unreadable_entry_absent(reports: Seq<EntryReport>, i: int)
    requires
        0 <= i < reports.len(),
        reports[i].loaded is Err,
    ensures
        catalog_of(reports) == catalog_of(reports.remove(i)),
    decreases reports.len(),
{
    if i == reports.len() - 1 {
        assert(reports.remove(i) =~= reports.drop_last());
    } else {
        let prev = reports.drop_last();
        assert(prev[i] == reports[i]);
        lemma_unreadable_entry_absent(prev, i);
        assert(reports.remove(i).drop_last() =~= prev.remove(i));
        assert(reports.remove(i).last() == reports.last());
    }
}

/// Per-entry isolation: when the file of entry `i` could not be read, the
/// catalog holds an identifier exactly when one of the other entries
/// contributes it, with the outcomes of those other entries; entry `i` is
/// not even recorded as rejected.
pub proof fn lemma_unreadable_entry_isolated(reports: Seq<EntryReport>, i: int, k: Seq<char>)
    requires
        0 <= i < reports.len(),
        reports[i].loaded is Err,
    ensures
        catalog_of(reports) == catalog_of(reports.remove(i)),
        catalog_of(reports).contains_key(k) <==> exists|j: int|
            0 <= j < reports.len() && j != i && contributes(#[trigger] reports[j], k),
{
    lemma_unreadable_entry_absent(reports, i);
    let rest = reports.remove(i);
    lemma_catalog_keys(rest, k);
    if exists|j: int| 0 <= j < rest.len() && contributes(#[trigger] rest[j], k) {
        let j = choose|j: int| 0 <= j < rest.len() && contributes(#[trigger] rest[j], k);
        if j < i {
            assert(reports[j] == rest[j]);
        } else {
            assert(reports[j + 1] == rest[j]);
        }
    }
    if exists|j: int| 0 <= j < reports.len() && j != i && contributes(#[trigger] reports[j], k) {
        let j = choose|j: int| 0 <= j < reports.len() && j != i && contributes(#[trigger] reports[j], k);
        if j < i {
            assert(rest[j] == reports[j]);
        } else {
            assert(rest[j - 1] == reports[j]);
        }
    }
}

/// Scanning an unchanged catalog twice gives the same entries, with the
/// same outcomes, walked in the same order.
pub proof fn lemma_scan_repeatable(
    first: Seq<EntryReport>,
    second: Seq<EntryReport>,
    c1: &Catalog,
    c2: &Catalog,
)
    requires
        first == second,
        c1.wf(),
        c2.wf(),
        c1@ == catalog_of(first),
        c2@ == catalog_of(second),
    ensures
        same_entries(c1.entry_seq(), c2.entry_seq()),
{
    lemma_same_mapping_same_walk(c1, c2);
}

} // verus!
