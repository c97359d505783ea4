//! Counting the lines, words, bytes and characters of each source.

use vstd::prelude::*;
use crate::config::{default_files, ConfigError};
use crate::decimal::{column, push_column};
use crate::decode::{
    decode_lossy, lemma_lossy_concat, lemma_lossy_ends_in_newline, lemma_lossy_len, lossy_chars,
};
use crate::lines::{
    first_line_len, lemma_first_line, lemma_line_count_step, line_count, lines_of, NEWLINE,
};
use crate::report::{diagnostic, lemma_after, push_diagnostic, Report, ReportView};
use crate::source::{reason_of, stdin_name, ByteStream, Input, ReadError};
use crate::text::{chars_of, push_chars, string_of};
use crate::words::{count_words, lemma_word_count_concat, lemma_word_count_le_len, word_count};

verus! {

/// Width of the column of each count.
pub const FIELD_WIDTH: usize = 8;

/// What to count, and in which sources.
#[derive(Debug)]
pub struct Arg {
    pub files: Vec<String>,
    pub lines: bool,
    pub words: bool,
    pub bytes: bool,
    pub chars: bool,
}

impl Arg {
    /// Whether the options are consistent: at least one source, and not
    /// both bytes and characters.
    pub open spec fn wf(&self) -> bool {
        self.files@.len() > 0 && !(self.bytes && self.chars)
    }

    /// Whether no count is selected.
    pub open spec fn selects_none(&self) -> bool {
        !self.lines && !self.words && !self.bytes && !self.chars
    }

    /// The options as given. Counting bytes and counting characters exclude
    /// one another. Where no source is named, standard input is the one
    /// source.
    pub fn new(files: Vec<String>, lines: bool, words: bool, bytes: bool, chars: bool) -> (r:
        Result<Arg, ConfigError>)
        ensures
            r is Err <==> bytes && chars,
            r matches Err(e) ==> e == ConfigError::BytesWithChars,
            r matches Ok(arg) ==> {
                &&& arg.wf()
                &&& arg.lines == lines
                &&& arg.words == words
                &&& arg.bytes == bytes
                &&& arg.chars == chars
                &&& files@.len() > 0 ==> arg.files@ == files@
                &&& files@.len() == 0 ==> arg.files@.len() == 1 && arg.files@[0]@ == stdin_name()
            },
    {
        if bytes && chars {
            return Err(ConfigError::BytesWithChars);
        }
        let files = if files.len() == 0 {
            default_files()
        } else {
            files
        };
        Ok(Arg { files, lines, words, bytes, chars })
    }
}

/// The options that take effect: where no count is selected, lines, words
/// and bytes are; else the selection stands.
pub fn arg(parsed: Arg) -> (arg: Arg)
    ensures
        arg.files == parsed.files,
        parsed.selects_none() ==> arg.lines && arg.words && arg.bytes && !arg.chars,
        !parsed.selects_none() ==> arg.lines == parsed.lines && arg.words == parsed.words
            && arg.bytes == parsed.bytes && arg.chars == parsed.chars,
        parsed.wf() ==> arg.wf(),
        !arg.selects_none(),
{
    let mut arg = parsed;
    if !arg.lines && !arg.words && !arg.bytes && !arg.chars {
        arg.lines = true;
        arg.words = true;
        arg.bytes = true;
    }
    arg
}

/// Number of words of one line: of its text, decoded leniently.
pub open spec fn line_words(line: Seq<u8>) -> nat {
    word_count(lossy_chars(line))
}

/// Number of characters of one line: of its text, decoded leniently, so
/// that each malformed sequence counts as one character.
pub open spec fn line_chars(line: Seq<u8>) -> nat {
    lossy_chars(line).len()
}

/// Number of words in `lines`, line by line.
pub open spec fn words_of_lines(lines: Seq<Seq<u8>>) -> nat
    decreases lines.len(),
{
    if lines.len() == 0 {
        0
    } else {
        line_words(lines[0]) + words_of_lines(lines.drop_first())
    }
}

/// Number of characters in `lines`, line by line.
pub open spec fn chars_of_lines(lines: Seq<Seq<u8>>) -> nat
    decreases lines.len(),
{
    if lines.len() == 0 {
        0
    } else {
        line_chars(lines[0]) + chars_of_lines(lines.drop_first())
    }
}

/// Counts in the model, without bound.
pub struct Tally {
    pub lines: nat,
    pub words: nat,
    pub bytes: nat,
    pub chars: nat,
}

impl Tally {
    /// No source counted.
    pub open spec fn zero() -> Tally {
        Tally { lines: 0, words: 0, bytes: 0, chars: 0 }
    }

    /// The counts of `data`: its lines, the words and the characters of
    /// its text, decoded leniently, and its bytes.
    pub open spec fn of(data: Seq<u8>) -> Tally {
        Tally {
            lines: line_count(data, NEWLINE),
            words: word_count(lossy_chars(data)),
            bytes: data.len(),
            chars: lossy_chars(data).len(),
        }
    }

    /// The sums of these counts and `other`.
    pub open spec fn plus(self, other: Tally) -> Tally {
        Tally {
            lines: self.lines + other.lines,
            words: self.words + other.words,
            bytes: self.bytes + other.bytes,
            chars: self.chars + other.chars,
        }
    }
}

/// The counts of one source.
#[derive(Debug, Clone, Copy, PartialEq, Eq, Structural)]
pub struct FileInfo {
    pub num_lines: usize,
    pub num_words: usize,
    pub num_bytes: usize,
    pub num_chars: usize,
}

impl View for FileInfo {
    type V = Tally;

    open spec fn view(&self) -> Tally {
        Tally {
            lines: self.num_lines as nat,
            words: self.num_words as nat,
            bytes: self.num_bytes as nat,
            chars: self.num_chars as nat,
        }
    }
}

impl FileInfo {
    /// Whether the counts can be those of some input: no more lines and no
    /// more characters than bytes, and no more words than characters.
    pub open spec fn wf(&self) -> bool {
        &&& self.num_lines <= self.num_bytes
        &&& self.num_words <= self.num_chars
        &&& self.num_chars <= self.num_bytes
    }

    /// The counts of nothing.
    pub fn new() -> (info: FileInfo)
        ensures
            info@ == Tally::zero(),
            info.wf(),
    {
        FileInfo { num_lines: 0, num_words: 0, num_bytes: 0, num_chars: 0 }
    }

    /// Takes what one read of a line gave into the counts, and says whether
    /// to read on. A line that is not empty counts as one line, with its
    /// bytes, its characters and its words. An empty line is the end of the
    /// stream: the counts stay, and there is no more to read.
    pub fn add_line(&mut self, line: &[u8]) -> (more: bool)
        requires
            old(self).wf(),
            old(self).num_bytes + line@.len() <= usize::MAX,
        ensures
            more == (line@.len() > 0),
            final(self).wf(),
            !more ==> *final(self) == *old(self),
            more ==> {
                &&& final(self).num_lines == old(self).num_lines + 1
                &&& final(self).num_words == old(self).num_words + line_words(line@)
                &&& final(self).num_bytes == old(self).num_bytes + line@.len()
                &&& final(self).num_chars == old(self).num_chars + line_chars(line@)
            },
    {
        if line.len() == 0 {
            return false;
        }
        let text = decode_lossy(line);
        let words = count_words(text.as_slice());
        self.num_lines += 1;
        self.num_words += words;
        self.num_bytes += line.len();
        self.num_chars += text.len();
        true
    }
}

/// The counts of an input are those of its first line and those of what
/// follows it.
pub proof fn lemma_tally_step(data: Seq<u8>)
    requires
        data.len() > 0,
    ensures
        ({
            let k = first_line_len(data, NEWLINE) as int;
            let line = data.take(k);
            let rest = data.skip(k);
            &&& 0 < k <= data.len()
            &&& Tally::of(data).lines == 1 + Tally::of(rest).lines
            &&& Tally::of(data).words == line_words(line) + Tally::of(rest).words
            &&& Tally::of(data).chars == line_chars(line) + Tally::of(rest).chars
        }),
{
    lemma_first_line(data, NEWLINE);
    lemma_line_count_step(data, NEWLINE);
    let k = first_line_len(data, NEWLINE) as int;
    let line = data.take(k);
    let rest = data.skip(k);
    assert(data =~= line + rest);
    if rest.len() > 0 {
        assert(line.last() == NEWLINE);
        lemma_lossy_concat(line, rest);
        lemma_lossy_ends_in_newline(line);
        lemma_word_count_concat(lossy_chars(line), lossy_chars(rest));
    } else {
        assert(line =~= data);
    }
}

/// Counting line by line is counting the whole: the words of an input are
/// the words of its lines, and its characters are the characters of its
/// lines.
pub proof fn lemma_tally_line_by_line(data: Seq<u8>)
    ensures
        Tally::of(data).words == words_of_lines(lines_of(data, NEWLINE)),
        Tally::of(data).chars == chars_of_lines(lines_of(data, NEWLINE)),
    decreases data.len(),
{
    if data.len() > 0 {
        lemma_tally_step(data);
        let k = first_line_len(data, NEWLINE) as int;
        lemma_tally_line_by_line(data.skip(k));
        let lines = lines_of(data, NEWLINE);
        assert(lines.drop_first() =~= lines_of(data.skip(k), NEWLINE));
    }
}

/// Of any input: no more characters than bytes, no more words than
/// characters, and no more lines than bytes.
pub proof fn lemma_tally_bounds(data: Seq<u8>)
    ensures
        Tally::of(data).chars <= Tally::of(data).bytes,
        Tally::of(data).words <= Tally::of(data).chars,
        Tally::of(data).lines <= Tally::of(data).bytes,
    decreases data.len(),
{
    lemma_lossy_len(data);
    lemma_word_count_le_len(lossy_chars(data));
    if data.len() > 0 {
        lemma_tally_step(data);
        lemma_tally_bounds(data.skip(first_line_len(data, NEWLINE) as int));
    }
}

/// Counts the lines, words, bytes and characters of a stream, line by
/// line. A broken stream gives its failure, and no counts.
pub fn count(file: &ByteStream) -> (r: Result<FileInfo, ReadError>)
    ensures
        r is Ok <==> file.is_sound(),
        r matches Ok(info) ==> info@ == Tally::of(file.data@) && info.wf(),
        r matches Err(e) ==> Some(e.reason@) == file.failure_reason(),
{
    let mut info = FileInfo::new();
    let mut pos: usize = 0;
    proof {
        assert(file.data@.skip(0) =~= file.data@);
    }
    loop
        invariant
            pos <= file.data@.len(),
            info.wf(),
            info.num_bytes == pos,
            Tally::of(file.data@) == info@.plus(Tally::of(file.data@.skip(pos as int))),
        decreases file.data@.len() - pos,
    {
        let ghost rest = file.data@.skip(pos as int);
        let line = match file.read_line(pos) {
            Ok(line) => line,
            Err(e) => {
                return Err(e);
            },
        };
        proof {
            if rest.len() > 0 {
                lemma_tally_step(rest);
                let k = first_line_len(rest, NEWLINE) as int;
                assert(line@ =~= rest.take(k));
                assert(rest.skip(k) =~= file.data@.skip(pos + k));
            }
        }
        if !info.add_line(line) {
            return Ok(info);
        }
        pos += line.len();
    }
}

/// One count in its column, or nothing where the count is not selected.
pub open spec fn field(value: nat, show: bool) -> Seq<char> {
    if show {
        column(value, FIELD_WIDTH as nat)
    } else {
        Seq::empty()
    }
}

/// The selected counts, each in its column: lines, words, bytes,
/// characters.
pub open spec fn fields(arg: Arg, t: Tally) -> Seq<char> {
    field(t.lines, arg.lines) + field(t.words, arg.words) + field(t.bytes, arg.bytes) + field(
        t.chars,
        arg.chars,
    )
}

/// What follows the counts of a source: a space and its name, and nothing
/// for standard input.
pub open spec fn name_suffix(name: Seq<char>) -> Seq<char> {
    if name == stdin_name() {
        Seq::empty()
    } else {
        seq![' '] + name
    }
}

/// The line of one source, without its newline.
pub open spec fn count_line(arg: Arg, t: Tally, name: Seq<char>) -> Seq<char> {
    fields(arg, t) + name_suffix(name)
}

/// The line of the totals, without its newline.
pub open spec fn total_line(arg: Arg, t: Tally) -> Seq<char> {
    fields(arg, t) + seq![' ', 't', 'o', 't', 'a', 'l']
}

/// Formats one count: right-aligned in a column of eight, or nothing where
/// the count is not to be shown.
pub fn format_field(value: usize, show: bool) -> (s: String)
    ensures
        s@ == field(value as nat, show),
{
    let mut out: Vec<char> = Vec::new();
    push_field(&mut out, value as u128, show);
    string_of(out)
}

/// Appends one count in its column to `out`, where it is to be shown.
fn push_field(out: &mut Vec<char>, value: u128, show: bool)
    ensures
        final(out)@ == old(out)@ + field(value as nat, show),
{
    if show {
        push_column(out, value, FIELD_WIDTH);
    }
}

/// Appends the selected counts to `out`, each in its column.
fn push_fields(out: &mut Vec<char>, arg: &Arg, lines: u128, words: u128, bytes: u128, chars: u128)
    ensures
        final(out)@ == old(out)@ + fields(
            *arg,
            (Tally {
                lines: lines as nat,
                words: words as nat,
                bytes: bytes as nat,
                chars: chars as nat,
            }),
        ),
{
    push_field(out, lines, arg.lines);
    push_field(out, words, arg.words);
    push_field(out, bytes, arg.bytes);
    push_field(out, chars, arg.chars);
}

/// Appends the line of one source to `out`, without its newline.
fn push_count_line(out: &mut Vec<char>, arg: &Arg, info: &FileInfo, name: &[char])
    ensures
        final(out)@ == old(out)@ + count_line(*arg, info@, name@),
{
    push_fields(
        out,
        arg,
        info.num_lines as u128,
        info.num_words as u128,
        info.num_bytes as u128,
        info.num_chars as u128,
    );
    if name.len() == 1 && name[0] == '-' {
        proof {
            assert(name@ =~= stdin_name());
        }
    } else {
        out.push(' ');
        push_chars(out, name);
    }
}

/// Formats the counts of one source: the selected counts in their columns,
/// then a space and the name, unless the source is standard input.
pub fn format_counts(arg: &Arg, info: &FileInfo, name: &str) -> (s: String)
    ensures
        s@ == count_line(*arg, info@, name@),
{
    let mut out: Vec<char> = Vec::new();
    let name = chars_of(name);
    push_count_line(&mut out, arg, info, name.as_slice());
    string_of(out)
}

/// Formatting the same counts with the same options gives the same text,
/// however often it is done.
pub proof fn lemma_format_counts_repeats(arg: Arg, info: FileInfo, name: Seq<char>, first: String, second: String)
    requires
        first@ == count_line(arg, info@, name),
        second@ == count_line(arg, info@, name),
    ensures
        first@ == second@,
{
}

/// Running sums of the counts of the sources read so far.
#[derive(Debug, Clone, Copy, PartialEq, Eq, Structural)]
pub struct Totals {
    pub lines: u128,
    pub words: u128,
    pub bytes: u128,
    pub chars: u128,
}

impl View for Totals {
    type V = Tally;

    open spec fn view(&self) -> Tally {
        Tally {
            lines: self.lines as nat,
            words: self.words as nat,
            bytes: self.bytes as nat,
            chars: self.chars as nat,
        }
    }
}

/// The largest count that one source can have, whatever the machine.
pub const SOURCE_MAX: u128 = 0xFFFF_FFFF_FFFF_FFFF;

impl Totals {
    /// Whether the sums can be those of `n` sources.
    pub open spec fn within(&self, n: nat) -> bool {
        &&& self.lines <= n * SOURCE_MAX
        &&& self.words <= n * SOURCE_MAX
        &&& self.bytes <= n * SOURCE_MAX
        &&& self.chars <= n * SOURCE_MAX
    }

    /// The sums over no source.
    pub fn new() -> (totals: Totals)
        ensures
            totals@ == Tally::zero(),
            totals.within(0),
    {
        Totals { lines: 0, words: 0, bytes: 0, chars: 0 }
    }

    /// Whether the sums leave room for the counts of one more source,
    /// whatever it holds.
    pub open spec fn has_room(&self) -> bool {
        &&& self.lines + SOURCE_MAX <= u128::MAX
        &&& self.words + SOURCE_MAX <= u128::MAX
        &&& self.bytes + SOURCE_MAX <= u128::MAX
        &&& self.chars + SOURCE_MAX <= u128::MAX
    }

    /// Says whether the sums leave room for the counts of one more source.
    pub fn room(&self) -> (ok: bool)
        ensures
            ok == self.has_room(),
    {
        let limit: u128 = u128::MAX - SOURCE_MAX;
        self.lines <= limit && self.words <= limit && self.bytes <= limit && self.chars <= limit
    }

    /// The sums over up to `SOURCE_MAX` sources leave room for one more.
    pub proof fn lemma_room(&self, n: nat)
        requires
            self.within(n),
            n <= SOURCE_MAX,
        ensures
            self.has_room(),
            (n + 1) * SOURCE_MAX == n * SOURCE_MAX + SOURCE_MAX,
    {
        assert(n * SOURCE_MAX + SOURCE_MAX <= u128::MAX) by (nonlinear_arith)
            requires
                n <= SOURCE_MAX,
                SOURCE_MAX == 0xFFFF_FFFF_FFFF_FFFF,
        ;
        assert((n + 1) * SOURCE_MAX == n * SOURCE_MAX + SOURCE_MAX) by (nonlinear_arith);
    }

    /// Adds the counts of one more source.
    pub fn add(&mut self, info: &FileInfo)
        requires
            old(self).lines + info.num_lines <= u128::MAX,
            old(self).words + info.num_words <= u128::MAX,
            old(self).bytes + info.num_bytes <= u128::MAX,
            old(self).chars + info.num_chars <= u128::MAX,
        ensures
            final(self)@ == old(self)@.plus(info@),
    {
        self.lines += info.num_lines as u128;
        self.words += info.num_words as u128;
        self.bytes += info.num_bytes as u128;
        self.chars += info.num_chars as u128;
    }
}

/// What one source adds to the run. A source that did not open gets its
/// diagnostic. One that opened and was read to its end gets its line. One
/// that fails while it is read ends the run.
pub open spec fn step_model(arg: Arg, input: Input) -> ReportView {
    match input.opened {
        Err(e) => ReportView::wrote(Seq::empty(), diagnostic(input.name@, e.reason@)),
        Ok(stream) => match stream.failure {
            Some(e) => ReportView::aborted(e.reason@),
            None => ReportView::wrote(
                count_line(arg, Tally::of(stream.data@), input.name@) + seq!['\n'],
                Seq::empty(),
            ),
        },
    }
}

/// What one source adds to the sums: its counts, where it opened and was
/// read to its end, and nothing else.
pub open spec fn step_tally(input: Input) -> Tally {
    match input.opened {
        Ok(stream) if stream.is_sound() => Tally::of(stream.data@),
        _ => Tally::zero(),
    }
}

/// What ends a run over `sources` sources: the line of the totals where
/// there are two or more.
pub open spec fn finish_model(arg: Arg, totals: Tally, sources: int) -> Seq<char> {
    if sources > 1 {
        total_line(arg, totals) + seq!['\n']
    } else {
        Seq::empty()
    }
}

/// What the run writes from source `k` on, with the sums `totals` over the
/// sources before: the steps of the sources in order, up to the first that
/// fails, and then the end of the run.
pub open spec fn run_from(arg: Arg, inputs: Seq<Input>, k: int, totals: Tally) -> ReportView
    decreases inputs.len() - k,
{
    if k < 0 || k >= inputs.len() {
        ReportView::wrote(finish_model(arg, totals, inputs.len() as int), Seq::empty())
    } else {
        let step = step_model(arg, inputs[k]);
        if step.failure is Some {
            step
        } else {
            run_from(arg, inputs, k + 1, totals.plus(step_tally(inputs[k]))).after(
                step.stdout,
                step.stderr,
            )
        }
    }
}

/// What the run over `inputs` writes.
pub open spec fn run_model(arg: Arg, inputs: Seq<Input>) -> ReportView {
    run_from(arg, inputs, 0, Tally::zero())
}

/// What a source that opened adds to the run, by what counting it gave:
/// its line for its counts, and the end of the run for a read failure.
pub open spec fn counted_model(arg: Arg, name: Seq<char>, counted: Result<FileInfo, ReadError>) -> ReportView {
    match counted {
        Ok(info) => ReportView::wrote(count_line(arg, info@, name) + seq!['\n'], Seq::empty()),
        Err(e) => ReportView::aborted(e.reason@),
    }
}

/// What a source that opened adds to the sums, by what counting it gave.
pub open spec fn counted_tally(counted: Result<FileInfo, ReadError>) -> Tally {
    match counted {
        Ok(info) => info@,
        Err(_) => Tally::zero(),
    }
}

/// The step of a source that opened is the step by what `count` gives for
/// its stream.
pub proof fn lemma_step_is_counted(arg: Arg, input: Input, counted: Result<FileInfo, ReadError>)
    requires
        input.opened is Ok,
        counted is Ok <==> input.opened->Ok_0.is_sound(),
        counted matches Ok(info) ==> info@ == Tally::of(input.opened->Ok_0.data@),
        counted matches Err(e) ==> Some(e.reason@) == input.opened->Ok_0.failure_reason(),
    ensures
        step_model(arg, input) == counted_model(arg, input.name@, counted),
        step_tally(input) == counted_tally(counted),
{
}

/// Does the step of a source that opened, by what counting it gave, and
/// appends what it writes to `out`.
fn counted_into(
    arg: &Arg,
    totals: &mut Totals,
    name: &[char],
    counted: Result<FileInfo, ReadError>,
    out: &mut Vec<char>,
) -> (failure: Option<ReadError>)
    requires
        old(totals).has_room(),
    ensures
        final(out)@ == old(out)@ + counted_model(*arg, name@, counted).stdout,
        reason_of(failure) == counted_model(*arg, name@, counted).failure,
        final(totals)@ == old(totals)@.plus(counted_tally(counted)),
{
    match counted {
        Err(e) => {
            proof {
                assert(out@ =~= old(out)@ + counted_model(*arg, name@, counted).stdout);
            }
            Some(e)
        },
        Ok(info) => {
            push_count_line(out, arg, &info, name);
            out.push('\n');
            totals.add(&info);
            proof {
                assert(out@ =~= old(out)@ + counted_model(*arg, name@, counted).stdout);
            }
            None
        },
    }
}

/// Does the part of a run that falls to a source that opened, by what
/// counting it line by line gave, and takes its counts into `totals`. The
/// report holds what to write; where it holds a failure, the run ends with
/// this source.
pub fn step_counted(arg: &Arg, totals: &mut Totals, name: &str, counted: Result<
    FileInfo,
    ReadError,
>) -> (report: Report)
    requires
        old(totals).has_room(),
    ensures
        report@ == counted_model(*arg, name@, counted),
        final(totals)@ == old(totals)@.plus(counted_tally(counted)),
{
    let mut out: Vec<char> = Vec::new();
    let name = chars_of(name);
    let failure = counted_into(arg, totals, name.as_slice(), counted, &mut out);
    proof {
        assert(out@ =~= counted_model(*arg, name@, counted).stdout);
    }
    Report::new(out, Vec::new(), failure)
}

/// Does the step of one source, and appends what it writes to `out` and
/// `err`.
fn step_into(
    arg: &Arg,
    totals: &mut Totals,
    input: &Input,
    out: &mut Vec<char>,
    err: &mut Vec<char>,
) -> (failure: Option<ReadError>)
    requires
        old(totals).has_room(),
    ensures
        final(out)@ == old(out)@ + step_model(*arg, *input).stdout,
        final(err)@ == old(err)@ + step_model(*arg, *input).stderr,
        reason_of(failure) == step_model(*arg, *input).failure,
        final(totals)@ == old(totals)@.plus(step_tally(*input)),
{
    let name = chars_of(input.name.as_str());
    let ghost step = step_model(*arg, *input);
    match &input.opened {
        Err(e) => {
            let reason = chars_of(e.reason.as_str());
            push_diagnostic(err, name.as_slice(), reason.as_slice());
            proof {
                assert(out@ =~= old(out)@ + step.stdout);
            }
            None
        },
        Ok(stream) => {
            let counted = count(stream);
            proof {
                lemma_step_is_counted(*arg, *input, counted);
                assert(err@ =~= old(err)@ + step.stderr);
            }
            counted_into(arg, totals, name.as_slice(), counted, out)
        },
    }
}

/// Does the part of a run that falls to one source, and takes its counts
/// into `totals`. The report holds what to write; where it holds a
/// failure, the run ends with this source.
pub fn step(arg: &Arg, totals: &mut Totals, input: &Input) -> (report: Report)
    requires
        old(totals).has_room(),
    ensures
        report@ == step_model(*arg, *input),
        final(totals)@ == old(totals)@.plus(step_tally(*input)),
{
    let mut out: Vec<char> = Vec::new();
    let mut err: Vec<char> = Vec::new();
    let failure = step_into(arg, totals, input, &mut out, &mut err);
    proof {
        assert(out@ =~= step_model(*arg, *input).stdout);
        assert(err@ =~= step_model(*arg, *input).stderr);
    }
    Report::new(out, err, failure)
}

/// Appends what ends a run over `sources` sources to `out`.
fn finish_into(arg: &Arg, totals: &Totals, sources: usize, out: &mut Vec<char>)
    ensures
        final(out)@ == old(out)@ + finish_model(*arg, totals@, sources as int),
{
    if sources > 1 {
        push_fields(out, arg, totals.lines, totals.words, totals.bytes, totals.chars);
        push_chars(out, &[' ', 't', 'o', 't', 'a', 'l', '\n']);
    }
    proof {
        assert(out@ =~= old(out)@ + finish_model(*arg, totals@, sources as int));
    }
}

/// What to write after the last source of a run over `sources` sources:
/// the line of the totals where there are two or more, and nothing else.
pub fn finish(arg: &Arg, totals: &Totals, sources: usize) -> (s: String)
    ensures
        s@ == finish_model(*arg, totals@, sources as int),
{
    let mut out: Vec<char> = Vec::new();
    finish_into(arg, totals, sources, &mut out);
    proof {
        assert(out@ =~= finish_model(*arg, totals@, sources as int));
    }
    string_of(out)
}

/// Runs the count over the sources in order: the steps of the sources, one
/// after another, up to the first that fails, and then the end of the run.
/// A source that could not be opened is reported on standard error and
/// passed over. A source that fails while it is read ends the run: what
/// was written stays, and the failure is reported. After the last of two
/// or more sources comes the line of the totals.
pub fn run(arg: &Arg, inputs: &Vec<Input>) -> (report: Report)
    ensures
        report@ == run_model(*arg, inputs@),
{
    let mut out: Vec<char> = Vec::new();
    let mut err: Vec<char> = Vec::new();
    let mut totals = Totals::new();
    let mut k: usize = 0;
    proof {
        lemma_after(run_model(*arg, inputs@), out@, err@, out@, err@);
    }
    while k < inputs.len()
        invariant
            k <= inputs@.len(),
            totals.within(k as nat),
            run_from(*arg, inputs@, k as int, totals@).after(out@, err@) == run_model(
                *arg,
                inputs@,
            ),
        decreases inputs@.len() - k,
    {
        let ghost step = step_model(*arg, inputs@[k as int]);
        let ghost rest = run_from(
            *arg,
            inputs@,
            k + 1,
            totals@.plus(step_tally(inputs@[k as int])),
        );
        let ghost old_out = out@;
        let ghost old_err = err@;
        proof {
            totals.lemma_room(k as nat);
            lemma_tally_fits(inputs@[k as int]);
        }
        let failure = step_into(arg, &mut totals, &inputs[k], &mut out, &mut err);
        if failure.is_some() {
            proof {
                assert(step.after(old_out, old_err) =~= ReportView {
                    stdout: out@,
                    stderr: err@,
                    failure: step.failure,
                });
            }
            return Report::new(out, err, failure);
        }
        proof {
            lemma_after(rest, old_out, old_err, step.stdout, step.stderr);
        }
        k += 1;
    }
    let ghost old_out = out@;
    finish_into(arg, &totals, inputs.len(), &mut out);
    proof {
        let end = ReportView::wrote(finish_model(*arg, totals@, inputs@.len() as int), Seq::empty());
        assert(end.after(old_out, err@) =~= ReportView::wrote(out@, err@));
    }
    Report::new(out, err, None)
}

/// The counts that one source adds fit the machine: none is more than
/// `SOURCE_MAX`.
pub proof fn lemma_tally_fits(input: Input)
    ensures
        step_tally(input).lines <= SOURCE_MAX,
        step_tally(input).words <= SOURCE_MAX,
        step_tally(input).bytes <= SOURCE_MAX,
        step_tally(input).chars <= SOURCE_MAX,
{
    match input.opened {
        Ok(stream) => {
            lemma_tally_bounds(stream.data@);
            assert(stream.data@.len() == stream.data.len());
        },
        Err(_) => {},
    }
}

} // verus!
