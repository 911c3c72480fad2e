//! The traversal-aggregation policy: which scan outcomes count, and the
//! tolerant fold that turns a stream of per-entry outcomes into a byte tally.
//!
//! The walk itself and the content-type classifier live outside the crate;
//! the caller reports what became of each visited entry as an [`EntryEvent`]
//! and the fold here decides what counts. No single bad entry can abort the
//! scan: every event other than a successful classification leaves the tally
//! exactly as it was.

use vstd::prelude::*;
use vstd::seq_lib::*;
use vstd::string::*;

use crate::aggregate::Aggregate;
use crate::aggregate::spec_add;
use crate::aggregate::sum_bytes;

verus! {

/// What became of one visited directory entry.
pub enum EntryEvent {
    /// A directory or other non-file kind: recursed into or ignored, never
    /// classified.
    NotAFile,
    /// A symbolic link, whether to a file or a directory: never classified,
    /// never counted, never descended into.
    Symlink,
    /// The entry or its metadata could not be read.
    Unreadable,
    /// A regular file whose classification failed; its size is known but
    /// must not be counted anywhere.
    ClassificationFailed { size: u64 },
    /// A regular file classified under `label`.
    Classified { label: String, size: u64 },
}

/// The bytes an event contributes to the tally: the file's size for a
/// successful classification, zero for everything else.
pub open spec fn classified_size(e: EntryEvent) -> int {
    match e {
        EntryEvent::Classified { label: _, size } => size as int,
        _ => 0,
    }
}

/// The summing operator over events.
pub open spec fn csum_f() -> spec_fn(EntryEvent, int) -> int {
    |e: EntryEvent, acc: int| classified_size(e) + acc
}

/// The sum of the sizes of all successfully classified files among `events`.
pub open spec fn classified_sum(events: Seq<EntryEvent>) -> int {
    events.fold_right(csum_f(), 0)
}

/// What one event does to the tally's model: a successful classification
/// records its size under its label; every other event leaves the model
/// untouched.
pub open spec fn spec_step(v: Seq<(Seq<char>, nat)>, e: EntryEvent) -> Seq<(Seq<char>, nat)> {
    match e {
        EntryEvent::Classified { label, size } => spec_add(v, label@, size as nat),
        _ => v,
    }
}

/// The fold of a whole event sequence, in order, starting from the empty
/// tally.
pub open spec fn spec_scan(events: Seq<EntryEvent>) -> Seq<(Seq<char>, nat)>
    decreases events.len(),
{
    if events.len() == 0 {
        Seq::empty()
    } else {
        spec_step(spec_scan(events.drop_last()), events.last())
    }
}

proof fn lemma_csum_commutative()
    ensures
        commutative_foldr(csum_f()),
{
    assert forall|x: EntryEvent, y: EntryEvent, v: int|
        #[trigger] csum_f()(x, csum_f()(y, v)) == csum_f()(y, csum_f()(x, v)) by {}
}

/// Extending the event stream by one event raises the classified sum by
/// exactly that event's contribution.
pub proof fn lemma_classified_sum_push(events: Seq<EntryEvent>, e: EntryEvent)
    ensures
        classified_sum(events.push(e)) == classified_sum(events) + classified_size(e),
{
    lemma_csum_commutative();
    assert(events.push(e).drop_last() =~= events);
    assert(events.push(e).last() == e);
    events.lemma_fold_right_commute_one(e, csum_f(), 0);
}

/// The classified sum is never negative.
pub proof fn lemma_classified_sum_nonneg(events: Seq<EntryEvent>)
    ensures
        0 <= classified_sum(events),
    decreases events.len(),
{
    if events.len() > 0 {
        lemma_classified_sum_nonneg(events.drop_last());
        assert(events.drop_last().push(events.last()) =~= events);
        lemma_classified_sum_push(events.drop_last(), events.last());
    }
}

/// The classified sum of a concatenation is the sum of the parts.
pub proof fn lemma_classified_sum_concat(a: Seq<EntryEvent>, b: Seq<EntryEvent>)
    ensures
        classified_sum(a + b) == classified_sum(a) + classified_sum(b),
    decreases b.len(),
{
    if b.len() == 0 {
        assert(a + b =~= a);
        assert(classified_sum(b) == 0);
    } else {
        lemma_classified_sum_concat(a, b.drop_last());
        assert((a + b.drop_last()).push(b.last()) =~= a + b);
        assert(b.drop_last().push(b.last()) =~= b);
        lemma_classified_sum_push(a + b.drop_last(), b.last());
        lemma_classified_sum_push(b.drop_last(), b.last());
    }
}

/// The grand total of a scan is exactly the sum of the sizes of its
/// successfully classified files: entries that were skipped, unreadable,
/// symbolic links or unclassifiable contribute nothing.
pub proof fn lemma_scan_total(events: Seq<EntryEvent>)
    ensures
        sum_bytes(spec_scan(events)) == classified_sum(events),
    decreases events.len(),
{
    if events.len() == 0 {
    } else {
        let prefix = events.drop_last();
        let e = events.last();
        lemma_scan_total(prefix);
        assert(prefix.push(e) =~= events);
        lemma_classified_sum_push(prefix, e);
        match e {
            EntryEvent::Classified { label, size } => {
                crate::aggregate::lemma_spec_add_total(spec_scan(prefix), label@, size as nat);
            },
            _ => {},
        }
    }
}

/// The grand total of a scan does not depend on the order in which the
/// entries were visited: two event streams that are permutations of one
/// another have the same classified sum.
pub proof fn lemma_total_order_insensitive(events1: Seq<EntryEvent>, events2: Seq<EntryEvent>)
    requires
        events1.to_multiset() == events2.to_multiset(),
    ensures
        classified_sum(events1) == classified_sum(events2),
{
    lemma_csum_commutative();
    lemma_fold_right_permutation(events1, events2, csum_f(), 0);
}

/// Folds one entry's outcome into the tally. A successful classification
/// records its size under its label; every other outcome — a directory, a
/// symbolic link, an unreadable entry, a failed classification — leaves the
/// tally exactly unchanged, and the scan goes on.
pub fn scan_step(agg: &mut Aggregate, event: EntryEvent)
    requires
        old(agg).wf(),
        sum_bytes(old(agg)@) + classified_size(event) <= u64::MAX,
    ensures
        final(agg).wf(),
        final(agg)@ == spec_step(old(agg)@, event),
        sum_bytes(final(agg)@) == sum_bytes(old(agg)@) + classified_size(event),
        !(event is Classified) ==> final(agg)@ == old(agg)@,
{
    match event {
        EntryEvent::Classified { label, size } => agg.add(label, size),
        _ => {},
    }
}

/// Folds a whole sequence of entry outcomes, in order, into a fresh tally.
pub fn aggregate_entries(events: Vec<EntryEvent>) -> (agg: Aggregate)
    requires
        classified_sum(events@) <= u64::MAX,
    ensures
        agg.wf(),
        agg@ == spec_scan(events@),
        sum_bytes(agg@) == classified_sum(events@),
{
    let ghost all = events@;
    let mut agg = Aggregate::new();
    let mut remaining = events;
    let ghost done = Seq::<EntryEvent>::empty();
    proof {
        assert(done + remaining@ =~= all);
        assert(spec_scan(done) =~= Seq::<(Seq<char>, nat)>::empty());
        assert(classified_sum(done) == 0);
    }
    while remaining.len() > 0
        invariant
            done + remaining@ =~= all,
            agg.wf(),
            agg@ == spec_scan(done),
            sum_bytes(agg@) == classified_sum(done),
            classified_sum(all) <= u64::MAX,
        decreases remaining.len(),
    {
        let ghost done0 = done;
        let e = remaining.remove(0);
        proof {
            assert(done0.push(e) + remaining@ =~= all);
            lemma_classified_sum_concat(done0.push(e), remaining@);
            lemma_classified_sum_nonneg(remaining@);
            lemma_classified_sum_push(done0, e);
            lemma_classified_sum_nonneg(done0);
            assert(sum_bytes(agg@) + classified_size(e) <= u64::MAX);
        }
        scan_step(&mut agg, e);
        proof {
            done = done0.push(e);
            assert(done.drop_last() =~= done0);
            assert(agg@ == spec_scan(done));
        }
    }
    proof {
        assert(done =~= all);
    }
    agg
}

/// Validates the scan root before any traversal: the caller reports whether
/// the path exists and whether it is a directory, and the scan may begin
/// exactly when both hold.
pub enum InvalidRoot {
    /// The given path does not exist.
    DoesNotExist,
    /// The given path exists but is not a directory.
    NotADirectory,
}

/// The fail-fast check on the scan root: `Ok` exactly when the root exists
/// and is a directory; otherwise the one error that says which condition
/// failed.
pub fn check_root(exists: bool, is_directory: bool) -> (r: Result<(), InvalidRoot>)
    ensures
        r is Ok <==> (exists && is_directory),
        (r == Result::<(), InvalidRoot>::Err(InvalidRoot::DoesNotExist)) <==> !exists,
        (r == Result::<(), InvalidRoot>::Err(InvalidRoot::NotADirectory)) <==> (exists
            && !is_directory),
{
    if !exists {
        Err(InvalidRoot::DoesNotExist)
    } else if !is_directory {
        Err(InvalidRoot::NotADirectory)
    } else {
        Ok(())
    }
}

/// The diagnostic line for a rejected root, naming the path.
pub open spec fn spec_root_error_message(path: Seq<char>, error: InvalidRoot) -> Seq<char> {
    match error {
        InvalidRoot::DoesNotExist => "Error: Directory '"@ + path + "' does not exist."@,
        InvalidRoot::NotADirectory => "Error: '"@ + path + "' is not a directory."@,
    }
}

/// Renders the diagnostic line for a rejected root.
pub fn root_error_message(path: &str, error: &InvalidRoot) -> (r: String)
    ensures
        r@ == spec_root_error_message(path@, *error),
{
    match error {
        InvalidRoot::DoesNotExist => {
            let mut r = "Error: Directory '".to_owned();
            r.append(path);
            r.append("' does not exist.");
            r
        },
        InvalidRoot::NotADirectory => {
            let mut r = "Error: '".to_owned();
            r.append(path);
            r.append("' is not a directory.");
            r
        },
    }
}

} // verus!
