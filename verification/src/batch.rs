//! Aggregation for batch runs over many recordings.
//!
//! A batch run parses many independent recordings — in whatever order a
//! worker pool finishes them — purely to harvest player name/id pairs.
//! Each recording either yields its pairs or fails on its own; the
//! aggregate report keeps one entry per parsed recording and one failure
//! notice per failed one, and nothing else.  The counting laws proved here
//! say that every recording lands on exactly one side of the report,
//! wherever in the arrival order it fell.

use vstd::prelude::*;

verus! {

/// What parsing one recording produced: the recording's path and, when
/// parsing succeeded, the player name/id pairs found in it.
pub struct DemoSummary {
    pub path: String,
    pub players: Option<Vec<(String, String)>>,
}

/// The aggregate of one batch run: per parsed recording its player pairs,
/// and the paths of the recordings that failed.
pub struct BatchReport {
    pub entries: Vec<(String, Vec<(String, String)>)>,
    pub failures: Vec<String>,
}

/// Whether a recording's parse succeeded.
pub open spec fn spec_is_parsed(d: DemoSummary) -> bool {
    d.players is Some
}

/// The report entries a run of parse results yields, in arrival order.
pub open spec fn spec_entries(s: Seq<DemoSummary>) -> Seq<(String, Vec<(String, String)>)>
    decreases s.len(),
{
    if s.len() == 0 {
        Seq::empty()
    } else {
        match s[0].players {
            Some(players) => seq![(s[0].path, players)] + spec_entries(s.drop_first()),
            None => spec_entries(s.drop_first()),
        }
    }
}

/// The failure notices a run of parse results yields, in arrival order.
pub open spec fn spec_failures(s: Seq<DemoSummary>) -> Seq<String>
    decreases s.len(),
{
    if s.len() == 0 {
        Seq::empty()
    } else {
        match s[0].players {
            Some(_) => spec_failures(s.drop_first()),
            None => seq![s[0].path] + spec_failures(s.drop_first()),
        }
    }
}

/// Builds the aggregate report for a whole batch: one entry per parsed
/// recording, one failure notice per failed one, both in arrival order.
pub fn aggregate_batch(results: Vec<DemoSummary>) -> (r: BatchReport)
    ensures
        r.entries@ == spec_entries(results@),
        r.failures@ == spec_failures(results@),
{
    let ghost all = results@;
    let mut results = results;
    let mut entries: Vec<(String, Vec<(String, String)>)> = Vec::new();
    let mut failures: Vec<String> = Vec::new();
    proof {
        assert(all.skip(0) =~= all);
    }
    let ghost mut k: int = 0;
    let ghost total = all.len();
    while results.len() > 0
        invariant
            0 <= k <= total,
            results@ == all.skip(k as int),
            total == all.len(),
            spec_entries(all) == entries@ + spec_entries(all.skip(k as int)),
            spec_failures(all) == failures@ + spec_failures(all.skip(k as int)),
        decreases results@.len(),
    {
        let d = results.remove(0);
        proof {
            assert(all.skip(k as int)[0] == all[k as int]);
            assert(all.skip(k as int).drop_first() =~= all.skip(k + 1));
            assert(results@ =~= all.skip(k + 1));
        }
        let ghost pre_entries = entries@;
        let ghost pre_failures = failures@;
        match d.players {
            Some(players) => {
                entries.push((d.path, players));
                proof {
                    assert(entries@ + spec_entries(all.skip(k + 1)) =~= pre_entries + (seq![
                        (all[k as int].path, all[k as int].players->0),
                    ] + spec_entries(all.skip(k + 1))));
                }
            },
            None => {
                failures.push(d.path);
                proof {
                    assert(failures@ + spec_failures(all.skip(k + 1)) =~= pre_failures + (seq![
                        all[k as int].path,
                    ] + spec_failures(all.skip(k + 1))));
                }
            },
        }
        proof {
            k = k + 1;
        }
    }
    proof {
        assert(all.skip(k as int) =~= Seq::<DemoSummary>::empty());
        assert(entries@ + Seq::<(String, Vec<(String, String)>)>::empty() =~= entries@);
        assert(failures@ + Seq::<String>::empty() =~= failures@);
    }
    BatchReport { entries, failures }
}

/// Every recording lands on exactly one side of the report: the entry
/// count and the failure count always add up to the number of recordings.
pub proof fn lemma_batch_partition(s: Seq<DemoSummary>)
    ensures
        spec_entries(s).len() + spec_failures(s).len() == s.len(),
    decreases s.len(),
{
    if s.len() > 0 {
        lemma_batch_partition(s.drop_first());
    }
}

/// A batch of recordings that all parsed reports one entry each and no
/// failure.
pub proof fn lemma_all_parsed(s: Seq<DemoSummary>)
    requires
        forall|i: int| 0 <= i < s.len() ==> spec_is_parsed(#[trigger] s[i]),
    ensures
        spec_entries(s).len() == s.len(),
        spec_failures(s).len() == 0,
    decreases s.len(),
{
    if s.len() > 0 {
        assert(forall|i: int|
            0 <= i < s.drop_first().len() ==> #[trigger] s.drop_first()[i] == s[i + 1]);
        lemma_all_parsed(s.drop_first());
    }
}

/// Removing one recording removes exactly its own contribution from the
/// report counts.
proof fn lemma_remove_counts(s: Seq<DemoSummary>, j: int)
    requires
        0 <= j < s.len(),
    ensures
        spec_entries(s).len() == spec_entries(s.remove(j)).len() + (if spec_is_parsed(s[j]) {
            1int
        } else {
            0int
        }),
        spec_failures(s).len() == spec_failures(s.remove(j)).len() + (if spec_is_parsed(s[j]) {
            0int
        } else {
            1int
        }),
    decreases s.len(),
{
    if j == 0 {
        assert(s.remove(0) =~= s.drop_first());
    } else {
        assert(s.remove(j).drop_first() =~= s.drop_first().remove(j - 1));
        assert(s.remove(j)[0] == s[0]);
        assert(s.drop_first()[j - 1] == s[j]);
        lemma_remove_counts(s.drop_first(), j - 1);
    }
}

/// Two arrival orders of the same parse outcomes yield reports of the
/// same size on both sides: the counts depend on what the workers found,
/// never on the schedule the pool happened to produce.
pub proof fn lemma_order_independent(a: Seq<DemoSummary>, b: Seq<DemoSummary>)
    requires
        a.to_multiset() == b.to_multiset(),
    ensures
        spec_entries(a).len() == spec_entries(b).len(),
        spec_failures(a).len() == spec_failures(b).len(),
    decreases a.len(),
{
    broadcast use vstd::seq_lib::group_to_multiset_ensures;

    if a.len() == 0 {
        assert(b.to_multiset().len() == 0);
        assert(b.len() == 0);
    } else {
        let x = a[0];
        assert(a.contains(x)) by {
            assert(a[0] == x);
        }
        assert(b.to_multiset().count(x) > 0);
        assert(b.contains(x));
        let j = choose|j: int| 0 <= j < b.len() && b[j] == x;
        assert(a.drop_first() =~= a.remove(0));
        assert(a.remove(0).to_multiset() == a.to_multiset().remove(x));
        assert(b.remove(j).to_multiset() == b.to_multiset().remove(x));
        lemma_order_independent(a.drop_first(), b.remove(j));
        lemma_remove_counts(b, j);
    }
}

/// Of a batch in which exactly one recording failed to parse, the report
/// holds one entry for every other recording and exactly one failure —
/// wherever in the arrival order the failed recording fell, so for every
/// schedule a worker pool of any size can produce.
pub proof fn lemma_single_failure(s: Seq<DemoSummary>, j: int)
    requires
        0 <= j < s.len(),
        !spec_is_parsed(s[j]),
        forall|i: int| 0 <= i < s.len() && i != j ==> spec_is_parsed(#[trigger] s[i]),
    ensures
        spec_entries(s).len() == s.len() - 1,
        spec_failures(s).len() == 1,
    decreases s.len(),
{
    assert(forall|i: int|
        0 <= i < s.drop_first().len() ==> #[trigger] s.drop_first()[i] == s[i + 1]);
    if j == 0 {
        lemma_all_parsed(s.drop_first());
    } else {
        lemma_single_failure(s.drop_first(), j - 1);
    }
}

} // verus!
