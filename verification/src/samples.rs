//! The outcome of single requests, and the latencies of many of them kept
//! apart by classifier.

use vstd::prelude::*;
use vstd::seq_lib::to_multiset_len;
use crate::statistics::{
    aggregate,
    lemma_figures_ignore_order,
    statistics_of,
    Statistics,
    StatisticsView,
    MAX_LATENCY,
};

verus! {

/// The classifier of a request that got no response at all: the connection
/// was refused, the name did not resolve, the request timed out, or what
/// came back was no HTTP. No response carries this status code.
pub const TRANSPORT_ERROR: u16 = 0;

/// What one completed request contributes to the report.
#[derive(Clone, Copy, Debug, PartialEq, Eq, Structural)]
pub struct SampleRecord {
    /// The status code of the response, or `TRANSPORT_ERROR`.
    pub code: u16,
    /// The time from issuing the request until its outcome was known, in
    /// microseconds.
    pub latency: u32,
}

/// The sample for a request with the given outcome: the status code of the
/// response or, without a response, the marker for a transport error; and
/// the time it took, which is capped at what a sample can hold.
pub open spec fn classified(status: Option<u16>, elapsed_micros: u128) -> SampleRecord {
    SampleRecord {
        code: match status {
            Some(code) => code,
            None => TRANSPORT_ERROR,
        },
        latency: if elapsed_micros > MAX_LATENCY {
            MAX_LATENCY
        } else {
            elapsed_micros as u32
        },
    }
}

/// Turns the outcome of one request into a sample.
///
/// `status` is the status code of the response, or `None` when the request
/// failed before a response arrived. The latency is recorded either way.
pub fn classify(status: Option<u16>, elapsed_micros: u128) -> (sample: SampleRecord)
    ensures
        sample == classified(status, elapsed_micros),
{
    let code: u16 = match status {
        Some(code) => code,
        None => TRANSPORT_ERROR,
    };
    let latency: u32 = if elapsed_micros > MAX_LATENCY as u128 {
        MAX_LATENCY
    } else {
        elapsed_micros as u32
    };
    SampleRecord { code, latency }
}

impl SampleRecord {
    /// The request got no response.
    pub open spec fn is_failure(&self) -> bool {
        self.code == TRANSPORT_ERROR
    }

    /// Whether the request got no response.
    pub fn failed(&self) -> (b: bool)
        ensures
            b == self.is_failure(),
    {
        self.code == TRANSPORT_ERROR
    }
}

/// The latencies seen under one classifier.
struct StatusSamples {
    code: u16,
    latencies: Vec<u32>,
}

/// Latencies kept apart by classifier.
///
/// Its view lists the classifiers that were seen, in ascending order, each
/// with its latencies in the order in which they were recorded.
pub struct SampleSet {
    groups: Vec<StatusSamples>,
}

/// The classifiers ascend strictly, and each has at least one latency.
pub open spec fn well_grouped(groups: Seq<(u16, Seq<u32>)>) -> bool {
    &&& forall|i: int, j: int|
        0 <= i < j < groups.len() ==> (#[trigger] groups[i]).0 < (#[trigger] groups[j]).0
    &&& forall|i: int| 0 <= i < groups.len() ==> (#[trigger] groups[i]).1.len() > 0
}

/// Some latency was recorded under `code`.
pub open spec fn has_code(groups: Seq<(u16, Seq<u32>)>, code: u16) -> bool {
    exists|i: int| 0 <= i < groups.len() && (#[trigger] groups[i]).0 == code
}

/// The latencies recorded under `code`; none, if the classifier was never
/// seen.
pub open spec fn latencies_of(groups: Seq<(u16, Seq<u32>)>, code: u16) -> Seq<u32> {
    if has_code(groups, code) {
        let i = choose|i: int| 0 <= i < groups.len() && (#[trigger] groups[i]).0 == code;
        groups[i].1
    } else {
        Seq::empty()
    }
}

/// The number of latencies under all classifiers together.
pub open spec fn count_of(groups: Seq<(u16, Seq<u32>)>) -> nat
    decreases groups.len(),
{
    if groups.len() == 0 {
        0
    } else {
        count_of(groups.drop_last()) + groups.last().1.len()
    }
}

/// The figures of every classifier that was seen, in ascending order of the
/// classifiers.
pub open spec fn statistics_list(groups: Seq<(u16, Seq<u32>)>) -> Seq<StatisticsView> {
    Seq::new(groups.len(), |i: int| statistics_of(groups[i].0, groups[i].1))
}

/// Under well-grouped latencies, the entry of a classifier holds all its
/// latencies.
pub proof fn lemma_latencies_at(groups: Seq<(u16, Seq<u32>)>, i: int)
    requires
        well_grouped(groups),
        0 <= i < groups.len(),
    ensures
        has_code(groups, groups[i].0),
        latencies_of(groups, groups[i].0) == groups[i].1,
{
    let code = groups[i].0;
    let j = choose|j: int| 0 <= j < groups.len() && (#[trigger] groups[j]).0 == code;
    if j < i {
        assert(groups[j].0 < groups[i].0);
    } else if i < j {
        assert(groups[i].0 < groups[j].0);
    }
}

/// Under well-grouped latencies, a classifier was seen exactly when it has
/// a latency.
pub proof fn lemma_seen_means_present(groups: Seq<(u16, Seq<u32>)>, code: u16)
    requires
        well_grouped(groups),
    ensures
        has_code(groups, code) <==> latencies_of(groups, code).len() > 0,
{
    if has_code(groups, code) {
        let i = choose|i: int| 0 <= i < groups.len() && (#[trigger] groups[i]).0 == code;
        lemma_latencies_at(groups, i);
    }
}

/// Without its last entry, a well-grouped sequence holds under every other
/// classifier what it held before, and nothing under the classifier of that
/// entry.
proof fn lemma_without_last(groups: Seq<(u16, Seq<u32>)>, code: u16)
    requires
        well_grouped(groups),
        groups.len() > 0,
    ensures
        well_grouped(groups.drop_last()),
        latencies_of(groups.drop_last(), code) == if code == groups.last().0 {
            Seq::<u32>::empty()
        } else {
            latencies_of(groups, code)
        },
{
    let rest = groups.drop_last();
    if has_code(rest, code) {
        let i = choose|i: int| 0 <= i < rest.len() && (#[trigger] rest[i]).0 == code;
        assert(groups[i] == rest[i]);
        assert(groups[i].0 < groups[groups.len() - 1].0);
        lemma_latencies_at(rest, i);
        lemma_latencies_at(groups, i);
    } else if code != groups.last().0 && has_code(groups, code) {
        let i = choose|i: int| 0 <= i < groups.len() && (#[trigger] groups[i]).0 == code;
        assert(rest[i].0 == code);
    }
}

/// Sets that hold the same samples under every classifier, in whatever
/// order they arrived, list the same classifiers, hold equally many
/// samples, and have the same figures.
pub proof fn lemma_same_samples_same_figures(a: Seq<(u16, Seq<u32>)>, b: Seq<(u16, Seq<u32>)>)
    requires
        well_grouped(a),
        well_grouped(b),
        forall|code: u16|
            latencies_of(a, code).to_multiset() == latencies_of(b, code).to_multiset(),
    ensures
        a.len() == b.len(),
        forall|i: int| 0 <= i < a.len() ==> (#[trigger] a[i]).0 == b[i].0,
        count_of(a) == count_of(b),
        statistics_list(a) == statistics_list(b),
    decreases a.len(),
{
    assert forall|code: u16| has_code(a, code) <==> has_code(b, code) by {
        lemma_seen_means_present(a, code);
        lemma_seen_means_present(b, code);
        to_multiset_len(latencies_of(a, code));
        to_multiset_len(latencies_of(b, code));
    }
    if a.len() == 0 {
        if b.len() > 0 {
            lemma_latencies_at(b, 0);
            assert(has_code(a, b[0].0));
        }
        assert(statistics_list(a) =~= statistics_list(b));
    } else {
        let last_a = a.last();
        lemma_latencies_at(a, a.len() - 1);
        assert(has_code(b, last_a.0));
        let last_b = b.last();
        lemma_latencies_at(b, b.len() - 1);
        assert(has_code(a, last_b.0));
        let j = choose|j: int| 0 <= j < b.len() && (#[trigger] b[j]).0 == last_a.0;
        let k = choose|k: int| 0 <= k < a.len() && (#[trigger] a[k]).0 == last_b.0;
        if j < b.len() - 1 {
            assert(b[j].0 < b[b.len() - 1].0);
        }
        if k < a.len() - 1 {
            assert(a[k].0 < a[a.len() - 1].0);
        }
        assert(last_a.0 == last_b.0);
        assert(last_a.1.to_multiset() == last_b.1.to_multiset());
        let rest_a = a.drop_last();
        let rest_b = b.drop_last();
        assert forall|code: u16|
            latencies_of(rest_a, code).to_multiset() == latencies_of(
                rest_b,
                code,
            ).to_multiset() by {
            lemma_without_last(a, code);
            lemma_without_last(b, code);
        }
        lemma_without_last(a, last_a.0);
        lemma_without_last(b, last_b.0);
        lemma_same_samples_same_figures(rest_a, rest_b);
        to_multiset_len(last_a.1);
        to_multiset_len(last_b.1);
        lemma_figures_ignore_order(last_a.0, last_a.1, last_b.1);
        assert forall|i: int| 0 <= i < a.len() implies (#[trigger] a[i]).0 == b[i].0 by {
            if i < a.len() - 1 {
                assert(rest_a[i].0 == rest_b[i].0);
            }
        }
        assert forall|i: int| 0 <= i < a.len() implies statistics_list(a)[i] == statistics_list(
            b,
        )[i] by {
            if i < a.len() - 1 {
                assert(statistics_list(rest_a)[i] == statistics_list(rest_b)[i]);
            }
        }
        assert(statistics_list(a) =~= statistics_list(b));
    }
}

/// No classifier holds more latencies than there are in all.
pub proof fn lemma_count_bounds(groups: Seq<(u16, Seq<u32>)>, code: u16)
    requires
        well_grouped(groups),
    ensures
        latencies_of(groups, code).len() <= count_of(groups),
{
    if has_code(groups, code) {
        let i = choose|i: int| 0 <= i < groups.len() && (#[trigger] groups[i]).0 == code;
        lemma_count_entry(groups, i);
    }
}

/// No entry holds more latencies than there are in all.
proof fn lemma_count_entry(groups: Seq<(u16, Seq<u32>)>, i: int)
    requires
        0 <= i < groups.len(),
    ensures
        groups[i].1.len() <= count_of(groups),
    decreases groups.len(),
{
    if i < groups.len() - 1 {
        lemma_count_entry(groups.drop_last(), i);
    }
}

/// The first entries hold no more latencies than all of them.
proof fn lemma_count_prefix(groups: Seq<(u16, Seq<u32>)>, k: int)
    requires
        0 <= k <= groups.len(),
    ensures
        count_of(groups.take(k)) <= count_of(groups),
    decreases groups.len() - k,
{
    if k == groups.len() {
        assert(groups.take(k) =~= groups);
    } else {
        lemma_count_prefix(groups, k + 1);
        assert(groups.take(k + 1).drop_last() =~= groups.take(k));
    }
}

/// A new entry adds its latencies to the count.
proof fn lemma_count_insert(groups: Seq<(u16, Seq<u32>)>, at: int, entry: (u16, Seq<u32>))
    requires
        0 <= at <= groups.len(),
    ensures
        count_of(groups.insert(at, entry)) == count_of(groups) + entry.1.len(),
    decreases groups.len(),
{
    let after = groups.insert(at, entry);
    if at == groups.len() {
        assert(after.drop_last() =~= groups);
    } else {
        lemma_count_insert(groups.drop_last(), at, entry);
        assert(after.drop_last() =~= groups.drop_last().insert(at, entry));
        assert(after.last() == groups.last());
    }
}

/// An entry that is replaced takes its latencies out of the count and puts
/// those of the new entry in.
proof fn lemma_count_update(groups: Seq<(u16, Seq<u32>)>, at: int, entry: (u16, Seq<u32>))
    requires
        0 <= at < groups.len(),
    ensures
        count_of(groups.update(at, entry)) == count_of(groups) - groups[at].1.len()
            + entry.1.len(),
    decreases groups.len(),
{
    let after = groups.update(at, entry);
    if at == groups.len() - 1 {
        assert(after.drop_last() =~= groups.drop_last());
    } else {
        lemma_count_update(groups.drop_last(), at, entry);
        assert(after.drop_last() =~= groups.drop_last().update(at, entry));
        assert(after.last() == groups.last());
    }
}

/// The entries of the groups as plain values.
spec fn entries(groups: Seq<StatusSamples>) -> Seq<(u16, Seq<u32>)> {
    Seq::new(groups.len(), |i: int| (groups[i].code, groups[i].latencies@))
}

impl View for SampleSet {
    type V = Seq<(u16, Seq<u32>)>;

    closed spec fn view(&self) -> Seq<(u16, Seq<u32>)> {
        entries(self.groups@)
    }
}

impl SampleSet {
    /// The set is in the shape that every operation keeps.
    pub open spec fn wf(&self) -> bool {
        well_grouped(self@)
    }

    /// The latencies recorded under `code`, in the order of their arrival.
    pub open spec fn latencies(&self, code: u16) -> Seq<u32> {
        latencies_of(self@, code)
    }

    /// The number of latencies in the set.
    pub open spec fn count(&self) -> nat {
        count_of(self@)
    }

    /// A set without latencies.
    pub fn new() -> (set: SampleSet)
        ensures
            set.wf(),
            set@.len() == 0,
            set.count() == 0,
            forall|code: u16| set.latencies(code) == Seq::<u32>::empty(),
    {
        SampleSet { groups: Vec::new() }
    }

    /// Adds latencies under one classifier, behind those that are there.
    fn add_group(&mut self, code: u16, latencies: Vec<u32>)
        requires
            old(self).wf(),
            latencies@.len() > 0,
        ensures
            final(self).wf(),
            final(self).latencies(code) == old(self).latencies(code) + latencies@,
            forall|other: u16|
                other != code ==> final(self).latencies(other) == old(self).latencies(other),
            final(self).count() == old(self).count() + latencies@.len(),
    {
        let ghost before = self@;
        let ghost added = latencies@;
        let mut at: usize = 0;
        while at < self.groups.len() && self.groups[at].code < code
            invariant
                at <= self.groups.len(),
                self@ == before,
                forall|i: int| 0 <= i < at ==> (#[trigger] before[i]).0 < code,
            decreases self.groups.len() - at,
        {
            at += 1;
        }
        if at < self.groups.len() && self.groups[at].code == code {
            let mut latencies = latencies;
            self.groups[at].latencies.append(&mut latencies);
            proof {
                let entry = (code, before[at as int].1 + added);
                assert(self@ =~= before.update(at as int, entry));
                lemma_count_update(before, at as int, entry);
                lemma_latencies_at(before, at as int);
                lemma_latencies_at(self@, at as int);
                assert forall|other: u16| other != code implies latencies_of(self@, other)
                    == latencies_of(before, other) by {
                    if has_code(before, other) {
                        let i = choose|i: int|
                            0 <= i < before.len() && (#[trigger] before[i]).0 == other;
                        lemma_latencies_at(before, i);
                        assert(self@[i] == before[i]);
                        lemma_latencies_at(self@, i);
                    } else if has_code(self@, other) {
                        let i = choose|i: int|
                            0 <= i < self@.len() && (#[trigger] self@[i]).0 == other;
                        assert(before[i].0 == other);
                    }
                }
            }
        } else {
            self.groups.insert(at, StatusSamples { code, latencies });
            proof {
                let entry = (code, added);
                assert(self@ =~= before.insert(at as int, entry));
                lemma_count_insert(before, at as int, entry);
                assert(well_grouped(self@)) by {
                    assert forall|i: int, j: int| 0 <= i < j < self@.len() implies (
                    #[trigger] self@[i]).0 < (#[trigger] self@[j]).0 by {
                        let oi = if i < at {
                            i
                        } else {
                            i - 1
                        };
                        let oj = if j < at {
                            j
                        } else {
                            j - 1
                        };
                        if i != at && j != at {
                            assert(before[oi].0 < before[oj].0);
                        } else if i == at {
                            assert(before[oj].0 >= before[at as int].0);
                        } else {
                            assert(before[oi].0 < code);
                        }
                    }
                }
                lemma_latencies_at(self@, at as int);
                assert(!has_code(before, code)) by {
                    if has_code(before, code) {
                        let i = choose|i: int|
                            0 <= i < before.len() && (#[trigger] before[i]).0 == code;
                        if i >= at {
                            assert(before[at as int].0 <= before[i].0);
                        }
                    }
                }
                assert(Seq::<u32>::empty() + added =~= added);
                assert forall|other: u16| other != code implies latencies_of(self@, other)
                    == latencies_of(before, other) by {
                    if has_code(before, other) {
                        let i = choose|i: int|
                            0 <= i < before.len() && (#[trigger] before[i]).0 == other;
                        lemma_latencies_at(before, i);
                        let moved = if i < at {
                            i
                        } else {
                            i + 1
                        };
                        assert(self@[moved] == before[i]);
                        lemma_latencies_at(self@, moved);
                    } else if has_code(self@, other) {
                        let i = choose|i: int|
                            0 <= i < self@.len() && (#[trigger] self@[i]).0 == other;
                        let origin = if i < at {
                            i
                        } else {
                            i - 1
                        };
                        assert(before[origin].0 == other);
                    }
                }
            }
        }
    }

    /// Records one sample under its classifier.
    pub fn push(&mut self, sample: SampleRecord)
        requires
            old(self).wf(),
        ensures
            final(self).wf(),
            final(self).latencies(sample.code) == old(self).latencies(sample.code).push(
                sample.latency,
            ),
            forall|other: u16|
                other != sample.code ==> final(self).latencies(other) == old(self).latencies(
                    other,
                ),
            final(self).count() == old(self).count() + 1,
    {
        let mut single: Vec<u32> = Vec::new();
        single.push(sample.latency);
        proof {
            assert(old(self).latencies(sample.code) + single@ =~= old(self).latencies(
                sample.code,
            ).push(sample.latency));
        }
        self.add_group(sample.code, single);
    }

    /// Moves every latency of `other` into this set, behind the latencies
    /// that this set holds under the same classifier.
    pub fn absorb(&mut self, other: SampleSet)
        requires
            old(self).wf(),
            other.wf(),
        ensures
            final(self).wf(),
            forall|code: u16|
                final(self).latencies(code) == old(self).latencies(code) + other.latencies(code),
            final(self).count() == old(self).count() + other.count(),
    {
        let ghost before = self@;
        let ghost source = other@;
        let mut rest = other.groups;
        proof {
            assert(source.skip(source.len() as int) =~= Seq::empty());
            assert forall|code: u16|
                latencies_of(self@, code) == latencies_of(before, code) + latencies_of(
                    source.skip(rest@.len() as int),
                    code,
                ) by {
                assert(latencies_of(before, code) + Seq::<u32>::empty() =~= latencies_of(
                    before,
                    code,
                ));
            }
        }
        while rest.len() > 0
            invariant
                self.wf(),
                well_grouped(source),
                rest@.len() <= source.len(),
                entries(rest@) == source.take(rest@.len() as int),
                forall|code: u16|
                    latencies_of(self@, code) == latencies_of(before, code) + latencies_of(
                        source.skip(rest@.len() as int),
                        code,
                    ),
                count_of(self@) + count_of(source.take(rest@.len() as int)) == count_of(before)
                    + count_of(source),
            decreases rest.len(),
        {
            let ghost k = rest@.len() - 1;
            let ghost held = self@;
            let ghost tail = source.skip(k + 1);
            let ghost longer = source.skip(k);
            let ghost prior = rest@;
            let group = rest.pop().unwrap();
            proof {
                assert(entries(prior)[k] == source.take(k + 1)[k]);
                assert(entries(rest@) =~= source.take(k));
                assert(source.take(k + 1).drop_last() =~= source.take(k));
                assert(well_grouped(longer));
                assert(well_grouped(tail));
                assert(longer[0] == source[k]);
                lemma_latencies_at(longer, 0);
                assert(!has_code(tail, source[k].0)) by {
                    if has_code(tail, source[k].0) {
                        let i = choose|i: int|
                            0 <= i < tail.len() && (#[trigger] tail[i]).0 == source[k].0;
                        assert(source[k].0 < source[k + 1 + i].0);
                    }
                }
            }
            let code: u16 = group.code;
            let ghost moved = group.latencies@;
            proof {
                assert(group == prior[k]);
                assert(entries(prior)[k] == (code, moved));
                assert(source[k] == (code, moved));
            }
            self.add_group(code, group.latencies);
            proof {
                assert forall|c: u16|
                    latencies_of(self@, c) == latencies_of(before, c) + latencies_of(
                        longer,
                        c,
                    ) by {
                    assert(latencies_of(held, c) == latencies_of(before, c) + latencies_of(
                        tail,
                        c,
                    ));
                    if c == code {
                        assert(latencies_of(tail, c) =~= Seq::<u32>::empty());
                        assert(latencies_of(longer, c) == moved);
                        assert(self.latencies(c) == latencies_of(held, c) + moved);
                        assert((latencies_of(before, c) + Seq::<u32>::empty()) + moved
                            =~= latencies_of(before, c) + moved);
                    } else {
                        assert(self.latencies(c) == latencies_of(held, c));
                        assert(longer[0].0 == code);
                        if has_code(tail, c) {
                            let i = choose|i: int|
                                0 <= i < tail.len() && (#[trigger] tail[i]).0 == c;
                            lemma_latencies_at(tail, i);
                            assert(longer[i + 1] == tail[i]);
                            lemma_latencies_at(longer, i + 1);
                        } else if has_code(longer, c) {
                            let i = choose|i: int|
                                0 <= i < longer.len() && (#[trigger] longer[i]).0 == c;
                            assert(tail[i - 1].0 == c);
                        }
                    }
                }
            }
        }
        proof {
            assert(source.skip(0) =~= source);
            assert(source.take(0) =~= Seq::empty());
        }
    }

    /// The number of latencies in the set.
    pub fn len(&self) -> (n: u64)
        requires
            self.wf(),
            self.count() <= u64::MAX,
        ensures
            n == self.count(),
    {
        let mut n: u64 = 0;
        let mut at: usize = 0;
        while at < self.groups.len()
            invariant
                at <= self.groups.len(),
                n == count_of(self@.take(at as int)),
                count_of(self@) <= u64::MAX,
            decreases self.groups.len() - at,
        {
            proof {
                lemma_count_prefix(self@, at + 1);
                assert(self@.take(at + 1).drop_last() =~= self@.take(at as int));
            }
            n = n + self.groups[at].latencies.len() as u64;
            at += 1;
        }
        proof {
            assert(self@.take(at as int) =~= self@);
        }
        n
    }

    /// The number of latencies recorded under `code`.
    pub fn count_under(&self, code: u16) -> (n: usize)
        requires
            self.wf(),
        ensures
            n == self.latencies(code).len(),
    {
        let mut at: usize = 0;
        while at < self.groups.len() && self.groups[at].code < code
            invariant
                at <= self.groups.len(),
                forall|i: int| 0 <= i < at ==> (#[trigger] self@[i]).0 < code,
            decreases self.groups.len() - at,
        {
            at += 1;
        }
        if at < self.groups.len() && self.groups[at].code == code {
            proof {
                lemma_latencies_at(self@, at as int);
            }
            self.groups[at].latencies.len()
        } else {
            proof {
                if has_code(self@, code) {
                    let i = choose|i: int| 0 <= i < self@.len() && (#[trigger] self@[i]).0 == code;
                    if i >= at {
                        assert(self@[at as int].0 <= self@[i].0);
                    }
                }
            }
            0
        }
    }

    /// The figures of every classifier in the set, in ascending order of the
    /// classifiers.
    pub fn statistics(&self) -> (list: Vec<Statistics>)
        requires
            self.wf(),
        ensures
            list@.len() == self@.len(),
            forall|i: int| 0 <= i < list@.len() ==> (#[trigger] list@[i])@ == statistics_list(self@)[i],
    {
        let mut list: Vec<Statistics> = Vec::new();
        let mut at: usize = 0;
        while at < self.groups.len()
            invariant
                at <= self.groups.len(),
                self.wf(),
                list@.len() == at,
                forall|i: int|
                    0 <= i < list@.len() ==> (#[trigger] list@[i])@ == statistics_list(self@)[i],
            decreases self.groups.len() - at,
        {
            let group = &self.groups[at];
            assert(self@[at as int].1.len() > 0);
            list.push(aggregate(group.code, &group.latencies));
            at += 1;
        }
        list
    }
}

} // verus!
