//! Per-file text statistics.

use crate::counting::{count, lemma_count_le_len, lemma_count_push};
use std::collections::HashMap;
use std::time::{Duration, Instant};
use vstd::prelude::*;
use vstd::std_specs::hash::group_hash_axioms;
use vstd::string::StringExecFns;

verus! {

/// Whether `c` has the Unicode property `White_Space`, as `char::is_whitespace`
/// reports it.
pub uninterp spec fn white_space(c: char) -> bool;

/// `char::is_whitespace`: the answer is a function of the character alone, and
/// `white_space` is the name for it.
pub assume_specification[ char::is_whitespace ](c: char) -> (b: bool)
    ensures
        b == white_space(c),
;

/// Whether a word begins at position `i` of `line`: a character that is not
/// white space, at the start of the line or right after white space.
pub open spec fn starts_word(line: Seq<char>, i: int) -> bool {
    &&& 0 <= i < line.len()
    &&& !white_space(line[i])
    &&& (i == 0 || white_space(line[i - 1]))
}

/// The number of words of `line`: its maximal runs of characters that are not
/// white space, counted by where they begin.
pub open spec fn word_count(line: Seq<char>) -> nat
    decreases line.len(),
{
    if line.len() == 0 {
        0
    } else {
        word_count(line.drop_last()) + if starts_word(line, line.len() - 1) {
            1nat
        } else {
            0nat
        }
    }
}

/// A line has at most as many words as characters.
pub proof fn lemma_word_count_le_len(line: Seq<char>)
    ensures
        word_count(line) <= line.len(),
    decreases line.len(),
{
    if line.len() > 0 {
        lemma_word_count_le_len(line.drop_last());
    }
}

/// Counts the words of `line`.
fn count_words(line: &str) -> (n: usize)
    requires
        line@.len() <= usize::MAX,
    ensures
        n == word_count(line@),
{
    let mut n: usize = 0;
    let mut in_word = false;
    for c in it: line.chars()
        invariant
            it.seq() == line@,
            line@.len() <= usize::MAX,
            n == word_count(line@.take(it.index())),
            n <= it.index(),
            in_word == (it.index() > 0 && !white_space(line@[it.index() - 1])),
    {
        proof {
            let i = it.index();
            assert(line@.take(i + 1).drop_last() =~= line@.take(i));
            assert(starts_word(line@.take(i + 1), i) == (!white_space(c) && !in_word));
        }
        if c.is_whitespace() {
            in_word = false;
        } else {
            if !in_word {
                n += 1;
            }
            in_word = true;
        }
    }
    proof {
        assert(line@.take(line@.len() as int) =~= line@);
    }
    n
}

/// The predicate "has code point `k`".
pub open spec fn has_code(k: u32) -> spec_fn(char) -> bool {
    |c: char| c as u32 == k
}

/// The character histogram of `text`: each code point that occurs in it,
/// mapped to the number of its occurrences.
pub open spec fn char_frequencies(text: Seq<char>) -> Map<u32, usize> {
    Map::new(
        |k: u32| count(text, has_code(k)) > 0,
        |k: u32| count(text, has_code(k)) as usize,
    )
}

/// Adds the characters of `line` to a histogram of the text `before`.
fn tally_chars(freq: &mut HashMap<u32, usize>, line: &str, Ghost(before): Ghost<Seq<char>>)
    requires
        old(freq)@ == char_frequencies(before),
        before.len() + line@.len() <= usize::MAX,
    ensures
        final(freq)@ == char_frequencies(before + line@),
{
    broadcast use group_hash_axioms;

    for c in it: line.chars()
        invariant
            it.seq() == line@,
            before.len() + line@.len() <= usize::MAX,
            freq@ == char_frequencies(before + line@.take(it.index())),
    {
        let k: u32 = c as u32;
        let ghost seen = before + line@.take(it.index());
        proof {
            assert(before + line@.take(it.index() + 1) =~= seen.push(c));
            lemma_count_le_len(seen, has_code(k));
            assert forall|j: u32|
                count(seen.push(c), has_code(j)) == count(seen, has_code(j)) + if j == k {
                    1nat
                } else {
                    0nat
                } by {
                lemma_count_push(seen, c, has_code(j));
            }
        }
        let so_far: usize = match freq.get(&k) {
            Some(n) => *n,
            None => 0,
        };
        freq.insert(k, so_far + 1);
        assert(freq@ =~= char_frequencies(seen.push(c)));
    }
    proof {
        assert(line@.take(line@.len() as int) =~= line@);
    }
}

/// A failure met while a file was processed.
#[derive(Debug, Clone)]
pub enum ProcessingError {
    IoError(String),
    Other(String),
}

/// A `ProcessingError` with its message as a sequence of characters.
pub enum ProcessingErrorView {
    IoError(Seq<char>),
    Other(Seq<char>),
}

impl View for ProcessingError {
    type V = ProcessingErrorView;

    open spec fn view(&self) -> ProcessingErrorView {
        match self {
            ProcessingError::IoError(text) => ProcessingErrorView::IoError(text@),
            ProcessingError::Other(text) => ProcessingErrorView::Other(text@),
        }
    }
}

/// The statistics of one file. `char_frequencies` is keyed by code point.
#[derive(Debug, Clone)]
pub struct FileStats {
    pub word_count: usize,
    pub line_count: usize,
    pub char_frequencies: HashMap<u32, usize>,
    pub size_bytes: u64,
}

impl Default for FileStats {
    /// All counts zero and an empty histogram.
    fn default() -> (stats: FileStats)
        ensures
            stats.word_count == 0,
            stats.line_count == 0,
            stats.char_frequencies@ == Map::<u32, usize>::empty(),
            stats.size_bytes == 0,
    {
        FileStats { word_count: 0, line_count: 0, char_frequencies: HashMap::new(), size_bytes: 0 }
    }
}

/// The outcome of analyzing one file.
#[derive(Debug, Clone)]
pub struct FileAnalysis {
    pub filename: String,
    pub full_path: String,
    pub stats: FileStats,
    pub errors: Vec<ProcessingError>,
    pub processing_time: Duration,
}

/// What reading one file gave, before any of it is counted.
pub struct FileRead {
    /// The last component of the path.
    pub filename: String,
    /// The path as it is displayed.
    pub full_path: String,
    /// The file's size in bytes, or why it could not be had.
    pub metadata: Result<u64, String>,
    /// Why the file could not be opened, or what reading each of its lines
    /// gave, in order: the line without its terminator, or why reading failed.
    pub lines: Result<Vec<Result<String, String>>, String>,
}

/// The lines that count: those read before the first failure.
pub open spec fn leading_lines(reads: Seq<Result<String, String>>) -> Seq<Seq<char>>
    decreases reads.len(),
{
    if reads.len() == 0 {
        Seq::empty()
    } else {
        let before = leading_lines(reads.drop_last());
        match reads.last() {
            Ok(line) if before.len() == reads.len() - 1 => before.push(line@),
            _ => before,
        }
    }
}

/// The first failure among `reads`, if there is one.
pub open spec fn first_failure(reads: Seq<Result<String, String>>) -> Option<Seq<char>> {
    let good = leading_lines(reads).len() as int;
    if good < reads.len() {
        match reads[good] {
            Ok(_) => None,
            Err(cause) => Some(cause@),
        }
    } else {
        None
    }
}

/// The lines of `lines` one after another, as one text.
pub open spec fn joined(lines: Seq<Seq<char>>) -> Seq<char>
    decreases lines.len(),
{
    if lines.len() == 0 {
        Seq::empty()
    } else {
        joined(lines.drop_last()) + lines.last()
    }
}

/// The words of all of `lines`.
pub open spec fn total_words(lines: Seq<Seq<char>>) -> nat
    decreases lines.len(),
{
    if lines.len() == 0 {
        0
    } else {
        total_words(lines.drop_last()) + word_count(lines.last())
    }
}

/// The text of a failure report: what failed, on which path, and why.
pub open spec fn failure_text(what: Seq<char>, path: Seq<char>, cause: Seq<char>) -> Seq<char> {
    what + " on "@ + path + ": "@ + cause
}

impl FileRead {
    /// The lines of the file that are counted.
    pub open spec fn counted_lines(self) -> Seq<Seq<char>> {
        match self.lines {
            Ok(reads) => leading_lines(reads@),
            Err(_) => Seq::empty(),
        }
    }

    /// The size reported for the file: zero where the metadata could not be had.
    pub open spec fn reported_size(self) -> u64 {
        match self.metadata {
            Ok(size) => size,
            Err(_) => 0,
        }
    }

    /// The report on the metadata: empty, or one I/O error.
    pub open spec fn metadata_errors(self) -> Seq<ProcessingErrorView> {
        match self.metadata {
            Ok(_) => Seq::empty(),
            Err(cause) => seq![
                ProcessingErrorView::IoError(
                    failure_text("metadata error"@, self.full_path@, cause@),
                ),
            ],
        }
    }

    /// The report on the contents: empty, or one I/O error, for the failed
    /// open or for the first line that could not be read.
    pub open spec fn content_errors(self) -> Seq<ProcessingErrorView> {
        match self.lines {
            Err(cause) => seq![
                ProcessingErrorView::IoError(failure_text("open error"@, self.full_path@, cause@)),
            ],
            Ok(reads) => match first_failure(reads@) {
                Some(cause) => seq![
                    ProcessingErrorView::IoError(
                        failure_text("line read error"@, self.full_path@, cause),
                    ),
                ],
                None => Seq::empty(),
            },
        }
    }
}

/// `std::time::Instant`, a reading of the monotonic clock. Nothing is known of
/// what it holds.
#[verifier::external_type_specification]
#[verifier::external_body]
pub struct ExInstant(std::time::Instant);

/// `Duration::clone`: a `Duration` is `Copy`, and its clone is the value itself.
pub assume_specification[ <std::time::Duration as Clone>::clone ](duration: &Duration) -> (cloned:
    Duration)
    ensures
        cloned == *duration,
;

/// `Instant::elapsed`: the time since `start`, of which nothing is promised.
pub assume_specification[ std::time::Instant::elapsed ](start: &Instant) -> (elapsed: Duration)
;

/// Once a read has failed, later reads add no line.
proof fn lemma_leading_lines_stop(reads: Seq<Result<String, String>>, at: int)
    requires
        0 <= at < reads.len(),
        leading_lines(reads.take(at)).len() == at,
        reads[at] is Err,
    ensures
        leading_lines(reads) == leading_lines(reads.take(at)),
    decreases reads.len(),
{
    if at == reads.len() - 1 {
        assert(reads.drop_last() =~= reads.take(at));
    } else {
        assert(reads.drop_last().take(at) =~= reads.take(at));
        lemma_leading_lines_stop(reads.drop_last(), at);
    }
}

/// The lines counted among the first `n` reads open the lines counted among
/// all of them.
proof fn lemma_leading_lines_prefix(reads: Seq<Result<String, String>>, n: int)
    requires
        0 <= n <= reads.len(),
    ensures
        leading_lines(reads.take(n)).len() <= leading_lines(reads).len(),
        leading_lines(reads.take(n)) == leading_lines(reads).take(
            leading_lines(reads.take(n)).len() as int,
        ),
    decreases reads.len(),
{
    if n == reads.len() {
        assert(reads.take(n) =~= reads);
        assert(leading_lines(reads).take(leading_lines(reads).len() as int) =~= leading_lines(
            reads,
        ));
    } else {
        assert(reads.drop_last().take(n) =~= reads.take(n));
        lemma_leading_lines_prefix(reads.drop_last(), n);
        let short = leading_lines(reads.take(n));
        assert(leading_lines(reads.drop_last()).take(short.len() as int) =~= leading_lines(
            reads,
        ).take(short.len() as int));
    }
}

/// The words of some lines are no more than their characters.
proof fn lemma_total_words_le_len(lines: Seq<Seq<char>>)
    ensures
        total_words(lines) <= joined(lines).len(),
    decreases lines.len(),
{
    if lines.len() > 0 {
        lemma_total_words_le_len(lines.drop_last());
        lemma_word_count_le_len(lines.last());
    }
}

/// A text grows with each line added to it.
proof fn lemma_joined_grows(lines: Seq<Seq<char>>, n: int)
    requires
        0 <= n <= lines.len(),
    ensures
        joined(lines.take(n)).len() <= joined(lines).len(),
    decreases lines.len(),
{
    if n == lines.len() {
        assert(lines.take(n) =~= lines);
    } else {
        assert(lines.drop_last().take(n) =~= lines.take(n));
        lemma_joined_grows(lines.drop_last(), n);
    }
}

/// The report of a failure, as a string.
fn describe(what: &str, path: &str, cause: &str) -> (text: String)
    ensures
        text@ == failure_text(what@, path@, cause@),
{
    let mut text = String::from_str(what);
    text.append(" on ");
    text.append(path);
    text.append(": ");
    text.append(cause);
    text
}

/// Whether the lines of `read` that count are short enough to be counted: as
/// one text they have at most `usize::MAX` characters.
pub fn countable(read: &FileRead) -> (fits: bool)
    ensures
        fits == (joined(read.counted_lines()).len() <= usize::MAX),
{
    match &read.lines {
        Err(_) => true,
        Ok(reads) => {
            let mut characters: usize = 0;
            let mut i: usize = 0;
            while i < reads.len()
                invariant
                    read.lines == Ok::<Vec<Result<String, String>>, String>(*reads),
                    i <= reads.len(),
                    leading_lines(reads@.take(i as int)).len() == i,
                    characters == joined(leading_lines(reads@.take(i as int))).len(),
                decreases reads.len() - i,
            {
                let ghost before = leading_lines(reads@.take(i as int));
                proof {
                    assert(reads@.take(i + 1).drop_last() =~= reads@.take(i as int));
                }
                match &reads[i] {
                    Ok(line) => {
                        proof {
                            let after = before.push(line@);
                            assert(after.drop_last() =~= before);
                            assert(leading_lines(reads@.take(i + 1)) == after);
                            lemma_leading_lines_prefix(reads@, i + 1);
                            lemma_joined_grows(leading_lines(reads@), i + 1);
                        }
                        match characters.checked_add(line.as_str().unicode_len()) {
                            Some(sum) => {
                                characters = sum;
                            },
                            None => {
                                return false;
                            },
                        }
                        i += 1;
                    },
                    Err(_) => {
                        proof {
                            lemma_leading_lines_stop(reads@, i as int);
                        }
                        return true;
                    },
                }
            }
            proof {
                assert(reads@.take(i as int) =~= reads@);
            }
            true
        },
    }
}

/// Computes the statistics of one file from what reading it gave.
///
/// The size is the one reported by the metadata, or zero. Lines are counted up
/// to the first one that could not be read; what was counted until then
/// stays. Each failure (metadata, open, first unreadable line) is reported as
/// one `IoError`, in that order. `processing_time` is the time since `start`.
///
/// The counts are kept in `usize`, so the lines that count must have no more
/// than `usize::MAX` characters in all; `countable` tests that.
pub fn analyze_file(read: FileRead, start: &Instant) -> (analysis: FileAnalysis)
    requires
        joined(read.counted_lines()).len() <= usize::MAX,
    ensures
        analysis.filename@ == read.filename@,
        analysis.full_path@ == read.full_path@,
        analysis.stats.size_bytes == read.reported_size(),
        analysis.stats.line_count == read.counted_lines().len(),
        analysis.stats.word_count == total_words(read.counted_lines()),
        analysis.stats.char_frequencies@ == char_frequencies(joined(read.counted_lines())),
        analysis.errors@.map_values(|e: ProcessingError| e@) == read.metadata_errors()
            + read.content_errors(),
{
    let mut errors: Vec<ProcessingError> = Vec::new();
    let mut size_bytes: u64 = 0;
    let mut word_count: usize = 0;
    let mut line_count: usize = 0;
    let mut histogram: HashMap<u32, usize> = HashMap::new();

    match &read.metadata {
        Ok(size) => {
            size_bytes = *size;
        },
        Err(cause) => {
            errors.push(
                ProcessingError::IoError(
                    describe("metadata error", read.full_path.as_str(), cause.as_str()),
                ),
            );
        },
    }
    assert(errors@.map_values(|e: ProcessingError| e@) =~= read.metadata_errors());
    assert(histogram@ =~= char_frequencies(Seq::empty()));

    match &read.lines {
        Ok(reads) => {
            let mut i: usize = 0;
            let mut failed = false;
            while i < reads.len() && !failed
                invariant
                    read.lines == Ok::<Vec<Result<String, String>>, String>(*reads),
                    joined(leading_lines(reads@)).len() <= usize::MAX,
                    i <= reads.len(),
                    !failed ==> leading_lines(reads@.take(i as int)).len() == i,
                    !failed ==> errors@.map_values(|e: ProcessingError| e@)
                        == read.metadata_errors(),
                    failed ==> leading_lines(reads@.take(i as int)) == leading_lines(reads@),
                    failed ==> errors@.map_values(|e: ProcessingError| e@) == read.metadata_errors()
                        + read.content_errors(),
                    line_count == leading_lines(reads@.take(i as int)).len(),
                    word_count == total_words(leading_lines(reads@.take(i as int))),
                    histogram@ == char_frequencies(
                        joined(leading_lines(reads@.take(i as int))),
                    ),
                decreases reads.len() - i + if failed { 0int } else { 1int },
            {
                let ghost before = leading_lines(reads@.take(i as int));
                proof {
                    assert(reads@.take(i + 1).drop_last() =~= reads@.take(i as int));
                }
                match &reads[i] {
                    Ok(line) => {
                        proof {
                            let after = before.push(line@);
                            assert(after.drop_last() =~= before);
                            assert(leading_lines(reads@.take(i + 1)) == after);
                            lemma_total_words_le_len(after);
                            if i + 1 == reads.len() {
                                assert(reads@.take(i + 1) =~= reads@);
                            }
                            lemma_leading_lines_prefix(reads@, i + 1);
                            lemma_joined_grows(leading_lines(reads@), i + 1);
                        }
                        line_count += 1;
                        word_count += count_words(line.as_str());
                        tally_chars(&mut histogram, line.as_str(), Ghost(joined(before)));
                        i += 1;
                    },
                    Err(cause) => {
                        proof {
                            lemma_leading_lines_stop(reads@, i as int);
                        }
                        let ghost reported = errors@.map_values(|e: ProcessingError| e@);
                        errors.push(
                            ProcessingError::IoError(
                                describe(
                                    "line read error",
                                    read.full_path.as_str(),
                                    cause.as_str(),
                                ),
                            ),
                        );
                        assert(errors@.map_values(|e: ProcessingError| e@) =~= reported
                            + read.content_errors());
                        failed = true;
                    },
                }
            }
            proof {
                if !failed {
                    assert(reads@.take(i as int) =~= reads@);
                    assert(read.content_errors() =~= Seq::empty());
                    assert(errors@.map_values(|e: ProcessingError| e@) =~= read.metadata_errors()
                        + read.content_errors());
                }
            }
        },
        Err(cause) => {
            let ghost reported = errors@.map_values(|e: ProcessingError| e@);
            errors.push(
                ProcessingError::IoError(
                    describe("open error", read.full_path.as_str(), cause.as_str()),
                ),
            );
            assert(errors@.map_values(|e: ProcessingError| e@) =~= reported
                + read.content_errors());
        },
    }
    let processing_time = start.elapsed();
    FileAnalysis {
        filename: read.filename,
        full_path: read.full_path,
        stats: FileStats { word_count, line_count, char_frequencies: histogram, size_bytes },
        errors,
        processing_time,
    }
}

} // verus!
