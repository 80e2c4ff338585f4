//! The collector of analysis records and the totals taken over it.

use crate::analyzer::FileAnalysis;
use vstd::prelude::*;

verus! {

/// The words counted in one record.
pub open spec fn words_of() -> spec_fn(FileAnalysis) -> nat {
    |record: FileAnalysis| record.stats.word_count as nat
}

/// The lines counted in one record.
pub open spec fn lines_of() -> spec_fn(FileAnalysis) -> nat {
    |record: FileAnalysis| record.stats.line_count as nat
}

/// The size in bytes reported in one record.
pub open spec fn bytes_of() -> spec_fn(FileAnalysis) -> nat {
    |record: FileAnalysis| record.stats.size_bytes as nat
}

/// The number of errors of one record.
pub open spec fn errors_of() -> spec_fn(FileAnalysis) -> nat {
    |record: FileAnalysis| record.errors@.len()
}

/// The sum of `measure` over `records`.
pub open spec fn total(records: Seq<FileAnalysis>, measure: spec_fn(FileAnalysis) -> nat) -> nat
    decreases records.len(),
{
    if records.len() == 0 {
        0
    } else {
        total(records.drop_last(), measure) + measure(records.last())
    }
}

/// A sum of `n` measures, none above `bound`, is at most `n * bound`.
proof fn lemma_total_bound(
    records: Seq<FileAnalysis>,
    measure: spec_fn(FileAnalysis) -> nat,
    bound: nat,
)
    requires
        forall|i: int| 0 <= i < records.len() ==> measure(#[trigger] records[i]) <= bound,
    ensures
        total(records, measure) <= records.len() * bound,
    decreases records.len(),
{
    if records.len() > 0 {
        let front = records.drop_last();
        assert forall|i: int| 0 <= i < front.len() implies measure(#[trigger] front[i])
            <= bound by {
            assert(front[i] == records[i]);
        }
        lemma_total_bound(front, measure, bound);
        assert(measure(records[records.len() - 1]) <= bound);
        assert(front.len() * bound + bound == records.len() * bound) by (nonlinear_arith)
            requires
                front.len() + 1 == records.len(),
        ;
    }
}

/// The totals over all records.
#[derive(Clone, Copy, Debug, PartialEq, Eq)]
pub struct Totals {
    pub records: usize,
    pub words: u128,
    pub lines: u128,
    pub bytes: u128,
    pub errors: u128,
}

/// The analysis records in the order in which they were handed in. Records
/// are only ever added.
pub struct ResultCollector {
    records: Vec<FileAnalysis>,
}

impl View for ResultCollector {
    type V = Seq<FileAnalysis>;

    closed spec fn view(&self) -> Seq<FileAnalysis> {
        self.records@
    }
}

impl ResultCollector {
    /// A collector without records.
    pub fn new() -> (collector: ResultCollector)
        ensures
            collector@ == Seq::<FileAnalysis>::empty(),
    {
        ResultCollector { records: Vec::new() }
    }

    /// Adds `record` behind the records already there.
    pub fn push(&mut self, record: FileAnalysis)
        ensures
            final(self)@ == old(self)@.push(record),
    {
        self.records.push(record);
    }

    /// The number of records.
    pub fn len(&self) -> (n: usize)
        ensures
            n == self@.len(),
    {
        self.records.len()
    }

    /// The record at `index`, if there is one.
    pub fn get(&self, index: usize) -> (record: Option<&FileAnalysis>)
        ensures
            record == if index < self@.len() {
                Some(&self@[index as int])
            } else {
                None
            },
    {
        if index < self.records.len() {
            Some(&self.records[index])
        } else {
            None
        }
    }

    /// The number of records and the sums of their words, lines, bytes and
    /// errors.
    pub fn totals(&self) -> (totals: Totals)
        ensures
            totals.records == self@.len(),
            totals.words == total(self@, words_of()),
            totals.lines == total(self@, lines_of()),
            totals.bytes == total(self@, bytes_of()),
            totals.errors == total(self@, errors_of()),
    {
        let mut words: u128 = 0;
        let mut lines: u128 = 0;
        let mut bytes: u128 = 0;
        let mut errors: u128 = 0;
        let mut i: usize = 0;
        let n: usize = self.records.len();
        while i < n
            invariant
                i <= n,
                n == self.records@.len(),
                words == total(self.records@.take(i as int), words_of()),
                lines == total(self.records@.take(i as int), lines_of()),
                bytes == total(self.records@.take(i as int), bytes_of()),
                errors == total(self.records@.take(i as int), errors_of()),
            decreases n - i,
        {
            let record = &self.records[i];
            proof {
                let seen = self.records@.take(i as int);
                let next = self.records@.take(i + 1);
                assert(next.drop_last() =~= seen);
                assert(next.last() == *record);
                lemma_total_bound(next, words_of(), u64::MAX as nat);
                lemma_total_bound(next, lines_of(), u64::MAX as nat);
                lemma_total_bound(next, bytes_of(), u64::MAX as nat);
                assert forall|k: int| 0 <= k < next.len() implies errors_of()(#[trigger] next[k])
                    <= u64::MAX by {
                    assert(next[k].errors@.len() == next[k].errors.len());
                }
                lemma_total_bound(next, errors_of(), u64::MAX as nat);
                assert(next.len() * (u64::MAX as nat) <= u128::MAX) by (nonlinear_arith)
                    requires
                        next.len() <= u64::MAX,
                ;
            }
            words = words + record.stats.word_count as u128;
            lines = lines + record.stats.line_count as u128;
            bytes = bytes + record.stats.size_bytes as u128;
            errors = errors + record.errors.len() as u128;
            i += 1;
        }
        proof {
            assert(self.records@.take(n as int) =~= self.records@);
        }
        Totals { records: n, words, lines, bytes, errors }
    }
}

} // verus!
