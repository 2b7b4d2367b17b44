//! Merging the identifiers that the catalog returns for each candidate
//! barcode into one list, unique by value, in first-seen order.
use vstd::prelude::*;
use itertools::Itertools;
use crate::normalize::texts;

verus! {

/// Why a catalog lookup failed.
#[derive(Debug)]
pub enum LookupError {
    /// The request could not be made or answered.
    Network(String),
    /// The answer lacked a field the lookup needs; the payload names it.
    MalformedResponse(String),
}

/// What one catalog lookup came back with.
pub type LookupOutcome = Result<Vec<String>, LookupError>;

/// The identifiers of one outcome; none for a failed lookup.
pub open spec fn outcome_ids(o: LookupOutcome) -> Seq<Seq<char>> {
    match o {
        Ok(ids) => texts(ids@),
        Err(_) => Seq::empty(),
    }
}

/// The identifiers of all outcomes, concatenated in order.
pub open spec fn gathered_ids(outcomes: Seq<LookupOutcome>) -> Seq<Seq<char>>
    decreases outcomes.len(),
{
    if outcomes.len() == 0 {
        Seq::empty()
    } else {
        outcome_ids(outcomes[0]) + gathered_ids(outcomes.drop_first())
    }
}

/// The error of the first failed outcome, if any failed.
pub open spec fn first_failure(outcomes: Seq<LookupOutcome>) -> Option<LookupError>
    decreases outcomes.len(),
{
    if outcomes.len() == 0 {
        None
    } else {
        match outcomes[0] {
            Err(e) => Some(e),
            Ok(_) => first_failure(outcomes.drop_first()),
        }
    }
}

/// `s` with every repeated entry dropped: the first occurrence of each
/// value stays, in the order of `s`.
pub open spec fn dedup(s: Seq<Seq<char>>) -> Seq<Seq<char>>
    decreases s.len(),
{
    if s.len() == 0 {
        Seq::empty()
    } else {
        let d = dedup(s.drop_last());
        if d.contains(s.last()) {
            d
        } else {
            d.push(s.last())
        }
    }
}

/// Relies on `itertools::Itertools::unique`: it yields each value the first
/// time it occurs and skips it after that, keeping the order of its input.
#[verifier::external_body]
fn unique_ids(ids: Vec<String>) -> (r: Vec<String>)
    ensures
        texts(r@) == dedup(texts(ids@)),
{
    ids.into_iter().unique().collect()
}

/// The identifiers gathered so far from the lookups that have completed.
pub struct Aggregation {
    gathered: Vec<String>,
}

impl View for Aggregation {
    type V = Seq<Seq<char>>;

    closed spec fn view(&self) -> Seq<Seq<char>> {
        texts(self.gathered@)
    }
}

impl Aggregation {
    /// Nothing gathered yet.
    pub fn new() -> (r: Aggregation)
        ensures
            r@ == Seq::<Seq<char>>::empty(),
    {
        let r = Aggregation { gathered: Vec::new() };
        assert(r@ =~= Seq::<Seq<char>>::empty());
        r
    }

    /// Takes in the outcome of one completed lookup. A success adds its
    /// identifiers; a failure is handed back, and the search is then over.
    pub fn record(&mut self, outcome: LookupOutcome) -> (r: Result<(), LookupError>)
        ensures
            match outcome {
                Ok(ids) => r is Ok && final(self)@ == old(self)@ + texts(ids@),
                Err(e) => r == Err::<(), LookupError>(e) && final(self)@ == old(self)@,
            },
    {
        match outcome {
            Ok(ids) => {
                let ghost before = self.gathered@;
                let mut ids = ids;
                let ghost added = ids@;
                self.gathered.append(&mut ids);
                assert(texts(self.gathered@) =~= texts(before) + texts(added));
                Ok(())
            },
            Err(e) => Err(e),
        }
    }

    /// The gathered identifiers, each value once, in first-seen order.
    pub fn finish(self) -> (r: Vec<String>)
        ensures
            texts(r@) == dedup(self@),
    {
        unique_ids(self.gathered)
    }
}

/// The identifiers held by a list of optional entries.
pub open spec fn present_ids(entries: Seq<Option<String>>) -> Seq<Seq<char>> {
    entries.map_values(|e: Option<String>| e->Some_0@)
}

/// Every entry of `entries` holds an identifier.
pub open spec fn all_present(entries: Seq<Option<String>>) -> bool {
    forall|i: int| 0 <= i < entries.len() ==> #[trigger] entries[i] is Some
}

/// The identifiers of `entries`, or a malformed answer where one is missing.
fn collect_present(entries: &Vec<Option<String>>) -> (r: LookupOutcome)
    ensures
        all_present(entries@) ==> r is Ok && texts(r->Ok_0@) == present_ids(entries@),
        !all_present(entries@) ==> r is Err && r->Err_0 is MalformedResponse,
{
    let mut ids: Vec<String> = Vec::new();
    let mut i: usize = 0;
    while i < entries.len()
        invariant
            i <= entries@.len(),
            all_present(entries@.subrange(0, i as int)),
            texts(ids@) == present_ids(entries@.subrange(0, i as int)),
        decreases entries@.len() - i,
    {
        let ghost before = ids@;
        let ghost seen = entries@.subrange(0, i as int);
        let ghost next = entries@.subrange(0, i + 1);
        match &entries[i] {
            Some(id) => {
                ids.push(id.clone());
                assert(next =~= seen.push(Some(*id)));
                assert(texts(ids@) =~= texts(before).push(id@));
                assert(present_ids(next) =~= present_ids(seen).push(id@));
                assert(all_present(next)) by {
                    assert forall|j: int| 0 <= j < next.len() implies #[trigger] next[j] is Some by {
                        if j < i {
                            assert(next[j] == seen[j]);
                        }
                    }
                }
            },
            None => {
                assert(!all_present(entries@)) by {
                    assert(entries@[i as int] is None);
                }
                return Err(LookupError::MalformedResponse(String::from_str("id")));
            },
        }
        i = i + 1;
    }
    assert(entries@.subrange(0, i as int) =~= entries@);
    Ok(ids)
}

/// The release identifiers of one catalog answer. `releases` is the
/// answer's list of releases, each entry the identifier of that release
/// where it has one; `None` where the answer holds no such list. A missing
/// list or a missing identifier makes the answer malformed.
pub fn release_ids(releases: &Option<Vec<Option<String>>>) -> (r: LookupOutcome)
    ensures
        match releases {
            None => r is Err && r->Err_0 is MalformedResponse,
            Some(entries) => if all_present(entries@) {
                r is Ok && texts(r->Ok_0@) == present_ids(entries@)
            } else {
                r is Err && r->Err_0 is MalformedResponse
            },
        },
{
    match releases {
        Some(entries) => collect_present(entries),
        None => Err(LookupError::MalformedResponse(String::from_str("releases"))),
    }
}

/// Merges the outcomes of all lookups, taken in the order they completed.
/// Fails with the first failure among them; else returns every identifier
/// that came back, each value once, in first-seen order.
pub fn search_all(outcomes: Vec<LookupOutcome>) -> (r: Result<Vec<String>, LookupError>)
    ensures
        match first_failure(outcomes@) {
            Some(e) => r == Err::<Vec<String>, LookupError>(e),
            None => r is Ok && texts(r->Ok_0@) == dedup(gathered_ids(outcomes@)),
        },
{
    let ghost all = outcomes@;
    let mut agg = Aggregation::new();
    let mut rest = outcomes;
    assert(agg@ + gathered_ids(rest@) =~= gathered_ids(all));
    while rest.len() > 0
        invariant
            all == outcomes@,
            first_failure(all) == first_failure(rest@),
            agg@ + gathered_ids(rest@) == gathered_ids(all),
        decreases rest@.len(),
    {
        let ghost before = rest@;
        let ghost so_far = agg@;
        let o = rest.remove(0);
        assert(rest@ =~= before.drop_first());
        match agg.record(o) {
            Ok(()) => {
                assert(so_far + gathered_ids(before) =~= agg@ + gathered_ids(rest@));
            },
            Err(e) => {
                assert(before[0] is Err && first_failure(before) == Some(e));
                return Err(e);
            },
        }
    }
    assert(agg@ =~= gathered_ids(all));
    Ok(agg.finish())
}

/// Every outcome is a success.
pub open spec fn all_succeeded(outcomes: Seq<LookupOutcome>) -> bool {
    forall|i: int| 0 <= i < outcomes.len() ==> #[trigger] outcomes[i] is Ok
}

/// Some outcome returned `id`.
pub open spec fn returned_by_some(outcomes: Seq<LookupOutcome>, id: Seq<char>) -> bool {
    exists|i: int| 0 <= i < outcomes.len() && #[trigger] outcome_ids(outcomes[i]).contains(id)
}

proof fn lemma_push_contains(s: Seq<Seq<char>>, y: Seq<char>, x: Seq<char>)
    ensures
        s.push(y).contains(x) <==> s.contains(x) || x == y,
{
    if s.contains(x) {
        let k = choose|k: int| 0 <= k < s.len() && s[k] == x;
        assert(s.push(y)[k] == x);
    }
    if x == y {
        assert(s.push(y)[s.len() as int] == x);
    }
    if s.push(y).contains(x) && x != y {
        let k = choose|k: int| 0 <= k < s.push(y).len() && s.push(y)[k] == x;
        assert(s[k] == x);
    }
}

proof fn lemma_dedup_contains(s: Seq<Seq<char>>, x: Seq<char>)
    ensures
        dedup(s).contains(x) <==> s.contains(x),
    decreases s.len(),
{
    if s.len() > 0 {
        let init = s.drop_last();
        let d = dedup(init);
        lemma_dedup_contains(init, x);
        assert(s =~= init.push(s.last()));
        lemma_push_contains(init, s.last(), x);
        lemma_push_contains(d, s.last(), x);
        lemma_dedup_contains(init, s.last());
    }
}

proof fn lemma_dedup_no_duplicates(s: Seq<Seq<char>>)
    ensures
        dedup(s).no_duplicates(),
    decreases s.len(),
{
    if s.len() > 0 {
        lemma_dedup_no_duplicates(s.drop_last());
        let d = dedup(s.drop_last());
        if !d.contains(s.last()) {
            let e = d.push(s.last());
            assert forall|i: int, j: int| 0 <= i < e.len() && 0 <= j < e.len() && i != j implies e[i]
                != e[j] by {
                if i == d.len() && j < d.len() {
                    assert(d[j] == e[j]);
                }
                if j == d.len() && i < d.len() {
                    assert(d[i] == e[i]);
                }
            }
        }
    }
}

proof fn lemma_gathered_contains(outcomes: Seq<LookupOutcome>, id: Seq<char>)
    ensures
        gathered_ids(outcomes).contains(id) <==> returned_by_some(outcomes, id),
    decreases outcomes.len(),
{
    if outcomes.len() > 0 {
        let head = outcome_ids(outcomes[0]);
        let tail = outcomes.drop_first();
        let all = gathered_ids(outcomes);
        lemma_gathered_contains(tail, id);
        assert(all == head + gathered_ids(tail));
        if all.contains(id) {
            let k = choose|k: int| 0 <= k < all.len() && all[k] == id;
            if k < head.len() {
                assert(head[k] == id);
                assert(outcome_ids(outcomes[0]).contains(id));
            } else {
                assert(gathered_ids(tail)[k - head.len()] == id);
                let i = choose|i: int| 0 <= i < tail.len() && #[trigger] outcome_ids(tail[i]).contains(id);
                assert(outcomes[i + 1] == tail[i]);
            }
        }
        if returned_by_some(outcomes, id) {
            let i = choose|i: int| 0 <= i < outcomes.len() && #[trigger] outcome_ids(outcomes[i]).contains(id);
            if i == 0 {
                let k = choose|k: int| 0 <= k < head.len() && head[k] == id;
                assert(all[k] == id);
            } else {
                assert(tail[i - 1] == outcomes[i]);
                assert(gathered_ids(tail).contains(id));
                let k = choose|k: int| 0 <= k < gathered_ids(tail).len() && gathered_ids(tail)[k] == id;
                assert(all[k + head.len()] == id);
            }
        }
    }
}

/// Where no lookup failed, there is no failure to report.
pub proof fn lemma_success_has_no_failure(outcomes: Seq<LookupOutcome>)
    requires
        all_succeeded(outcomes),
    ensures
        first_failure(outcomes) is None,
    decreases outcomes.len(),
{
    if outcomes.len() > 0 {
        assert(outcomes[0] is Ok);
        assert forall|i: int| 0 <= i < outcomes.drop_first().len() implies #[trigger] outcomes.drop_first()[i] is Ok by {
            assert(outcomes.drop_first()[i] == outcomes[i + 1]);
        }
        lemma_success_has_no_failure(outcomes.drop_first());
    }
}

/// One failed lookup, wherever it stands among the outcomes, makes the
/// whole search fail: no partial result is returned.
pub proof fn lemma_one_failure_fails_search(outcomes: Seq<LookupOutcome>, i: int)
    requires
        0 <= i < outcomes.len(),
        outcomes[i] is Err,
    ensures
        first_failure(outcomes) is Some,
    decreases outcomes.len(),
{
    if i > 0 && outcomes[0] is Ok {
        assert(outcomes.drop_first()[i - 1] == outcomes[i]);
        lemma_one_failure_fails_search(outcomes.drop_first(), i - 1);
    }
}

/// Where every lookup succeeds and finds nothing, the search succeeds with
/// an empty result (and not with an error).
pub proof fn lemma_no_match_is_empty_success(outcomes: Seq<LookupOutcome>)
    requires
        forall|i: int| 0 <= i < outcomes.len() ==> #[trigger] outcomes[i] is Ok
            && outcomes[i]->Ok_0@.len() == 0,
    ensures
        first_failure(outcomes) is None,
        dedup(gathered_ids(outcomes)) == Seq::<Seq<char>>::empty(),
{
    lemma_success_has_no_failure(outcomes);
    assert forall|id: Seq<char>| !gathered_ids(outcomes).contains(id) by {
        lemma_gathered_contains(outcomes, id);
        if returned_by_some(outcomes, id) {
            let i = choose|i: int| 0 <= i < outcomes.len() && #[trigger] outcome_ids(outcomes[i]).contains(id);
            assert(outcomes[i] is Ok);
        }
    }
    if gathered_ids(outcomes).len() > 0 {
        assert(gathered_ids(outcomes).contains(gathered_ids(outcomes)[0]));
    }
    assert(gathered_ids(outcomes) =~= Seq::<Seq<char>>::empty());
}

/// Whatever order the lookups complete in, the merged result holds each
/// returned identifier exactly once and drops none: two runs whose outcomes
/// are the same up to order yield the same identifiers, none repeated.
pub proof fn lemma_merge_independent_of_order(first: Seq<LookupOutcome>, second: Seq<LookupOutcome>)
    requires
        all_succeeded(first),
        first.to_multiset() == second.to_multiset(),
    ensures
        first_failure(first) is None,
        first_failure(second) is None,
        dedup(gathered_ids(first)).no_duplicates(),
        dedup(gathered_ids(second)).no_duplicates(),
        forall|id: Seq<char>| #[trigger] dedup(gathered_ids(first)).contains(id) <==> returned_by_some(first, id),
        forall|id: Seq<char>| #[trigger] dedup(gathered_ids(first)).contains(id) <==> dedup(gathered_ids(second)).contains(id),
{
    broadcast use vstd::seq_lib::group_to_multiset_ensures;
    assert(all_succeeded(second)) by {
        assert forall|i: int| 0 <= i < second.len() implies #[trigger] second[i] is Ok by {
            assert(second.contains(second[i]));
            assert(first.to_multiset().count(second[i]) > 0);
            let k = choose|k: int| 0 <= k < first.len() && first[k] == second[i];
        }
    }
    lemma_success_has_no_failure(first);
    lemma_success_has_no_failure(second);
    lemma_dedup_no_duplicates(gathered_ids(first));
    lemma_dedup_no_duplicates(gathered_ids(second));
    assert forall|id: Seq<char>| #[trigger] dedup(gathered_ids(first)).contains(id) <==> returned_by_some(first, id) by {
        lemma_dedup_contains(gathered_ids(first), id);
        lemma_gathered_contains(first, id);
    }
    assert forall|id: Seq<char>| #[trigger] dedup(gathered_ids(first)).contains(id) <==> dedup(gathered_ids(second)).contains(id) by {
        lemma_dedup_contains(gathered_ids(first), id);
        lemma_gathered_contains(first, id);
        lemma_dedup_contains(gathered_ids(second), id);
        lemma_gathered_contains(second, id);
        if returned_by_some(first, id) {
            let i = choose|i: int| 0 <= i < first.len() && #[trigger] outcome_ids(first[i]).contains(id);
            assert(first.contains(first[i]));
            assert(second.to_multiset().count(first[i]) > 0);
            let k = choose|k: int| 0 <= k < second.len() && second[k] == first[i];
            assert(outcome_ids(second[k]).contains(id));
        }
        if returned_by_some(second, id) {
            let i = choose|i: int| 0 <= i < second.len() && #[trigger] outcome_ids(second[i]).contains(id);
            assert(second.contains(second[i]));
            assert(first.to_multiset().count(second[i]) > 0);
            let k = choose|k: int| 0 <= k < first.len() && first[k] == second[i];
            assert(outcome_ids(first[k]).contains(id));
        }
    }
}

} // verus!
