//! The first lines or the first bytes of each source.

use vstd::prelude::*;
use vstd::slice::slice_to_vec;
use crate::config::{default_files, ConfigError};
use crate::decode::{decode_lossy, lossy_chars};
use crate::lines::{
    first_line_len, join, lemma_first_line_of_concat, lemma_join_prepend,
    lemma_line_count_step, lemma_lines_of, lemma_lines_step, line_count, lines_of,
    newline_count, NEWLINE,
};
use crate::report::{diagnostic, lemma_after, push_diagnostic, Report, ReportView};
use crate::source::{reason_of, stdin_name, ByteStream, Input, ReadError};
use crate::text::{chars_of, push_chars};

verus! {

/// Number of lines taken where no quota is given.
pub const DEFAULT_LINES: usize = 10;

/// How much to take of each source, and of which sources.
#[derive(Debug)]
pub struct Arg {
    pub files: Vec<String>,
    pub lines: usize,
    pub bytes: Option<usize>,
}

impl Arg {
    /// Whether the options name at least one source.
    pub open spec fn wf(&self) -> bool {
        self.files@.len() > 0
    }

    /// The options as given. A line quota and a byte quota exclude one
    /// another. Where neither is given, the line quota is ten. Where no
    /// source is named, standard input is the one source.
    pub fn new(files: Vec<String>, lines: Option<usize>, bytes: Option<usize>) -> (r: Result<
        Arg,
        ConfigError,
    >)
        ensures
            r is Err <==> lines is Some && bytes is Some,
            r matches Err(e) ==> e == ConfigError::LinesWithBytes,
            r matches Ok(arg) ==> {
                &&& arg.wf()
                &&& arg.bytes == bytes
                &&& arg.lines == (match lines {
                    Some(n) => n,
                    None => DEFAULT_LINES,
                })
                &&& files@.len() > 0 ==> arg.files@ == files@
                &&& files@.len() == 0 ==> arg.files@.len() == 1 && arg.files@[0]@ == stdin_name()
            },
    {
        if lines.is_some() && bytes.is_some() {
            return Err(ConfigError::LinesWithBytes);
        }
        let files = if files.len() == 0 {
            default_files()
        } else {
            files
        };
        let lines = match lines {
            Some(n) => n,
            None => DEFAULT_LINES,
        };
        Ok(Arg { files, lines, bytes })
    }
}

/// Text that is no positive number that fits the machine.
#[derive(Debug)]
pub struct ParseError {
    pub input: String,
}

impl ParseError {
    /// The text that was refused, unchanged.
    pub fn to_string(&self) -> (s: String)
        ensures
            s@ == self.input@,
    {
        self.input.clone()
    }
}

/// Whether `c` is a decimal digit.
pub open spec fn is_digit(c: char) -> bool {
    '0' <= c <= '9'
}

/// The value of the digit `c`.
pub open spec fn digit_value(c: char) -> nat
    recommends
        is_digit(c),
{
    (c as u32 - '0' as u32) as nat
}

/// The number that `digits` write in decimal.
pub open spec fn number_of(digits: Seq<char>) -> nat
    decreases digits.len(),
{
    if digits.len() == 0 {
        0
    } else {
        number_of(digits.drop_last()) * 10 + digit_value(digits.last())
    }
}

/// The digits of a numeral: what follows one leading plus sign, if there
/// is one.
pub open spec fn numeral_digits(s: Seq<char>) -> Seq<char> {
    if s.len() > 0 && s[0] == '+' {
        s.skip(1)
    } else {
        s
    }
}

/// The number that `s` writes: `s` is one or more decimal digits, after an
/// optional plus sign, and the number fits in `usize`.
pub open spec fn parse_usize(s: Seq<char>) -> Option<nat> {
    let d = numeral_digits(s);
    if d.len() > 0 && (forall|i: int| 0 <= i < d.len() ==> is_digit(#[trigger] d[i])) && number_of(d)
        <= usize::MAX {
        Some(number_of(d))
    } else {
        None
    }
}

/// A numeral is worth at least what any of its beginnings is worth.
pub proof fn lemma_number_of_prefix(digits: Seq<char>, i: int)
    requires
        0 <= i <= digits.len(),
    ensures
        number_of(digits.take(i)) <= number_of(digits),
    decreases digits.len() - i,
{
    if i < digits.len() {
        lemma_number_of_prefix(digits, i + 1);
        assert(digits.take(i + 1).drop_last() =~= digits.take(i));
    } else {
        assert(digits.take(i) =~= digits);
    }
}

/// Reads `val` as a positive number: decimal digits after an optional plus
/// sign, worth more than zero and no more than the machine holds. Anything
/// else is refused, and the error holds the text.
pub fn parse_positive_int(val: &str) -> (r: Result<usize, ParseError>)
    ensures
        r matches Ok(n) ==> parse_usize(val@) == Some(n as nat) && n > 0,
        r is Err <==> (parse_usize(val@) is None || parse_usize(val@) == Some(0nat)),
        r matches Err(e) ==> e.input@ == val@,
{
    let chars = chars_of(val);
    let start: usize = if chars.len() > 0 && chars[0] == '+' {
        1
    } else {
        0
    };
    let ghost d = numeral_digits(val@);
    if start == chars.len() {
        return Err(ParseError { input: val.to_string() });
    }
    let mut value: usize = 0;
    let mut i: usize = start;
    while i < chars.len()
        invariant
            start <= i <= chars@.len(),
            d == chars@.skip(start as int),
            d == numeral_digits(val@),
            d.len() > 0,
            forall|j: int| 0 <= j < i - start ==> is_digit(#[trigger] d[j]),
            value == number_of(d.take(i - start)),
        decreases chars@.len() - i,
    {
        let c = chars[i];
        proof {
            assert(d.take(i - start + 1).drop_last() =~= d.take(i - start));
            lemma_number_of_prefix(d, i - start + 1);
        }
        if !('0' <= c && c <= '9') {
            return Err(ParseError { input: val.to_string() });
        }
        let digit: usize = (c as u32 - '0' as u32) as usize;
        if value > (usize::MAX - digit) / 10 {
            return Err(ParseError { input: val.to_string() });
        }
        value = value * 10 + digit;
        i += 1;
    }
    proof {
        assert(d.take(i - start) =~= d);
    }
    if value == 0 {
        return Err(ParseError { input: val.to_string() });
    }
    Ok(value)
}

/// The first lines of a source, each with its newline.
#[derive(Debug)]
pub struct LineBatch {
    pub lines: Vec<Vec<u8>>,
}

impl View for LineBatch {
    type V = Seq<Seq<u8>>;

    open spec fn view(&self) -> Seq<Seq<u8>> {
        Seq::new(self.lines@.len(), |i: int| self.lines@[i]@)
    }
}

impl LineBatch {
    /// A batch without lines.
    pub fn new() -> (batch: LineBatch)
        ensures
            batch@.len() == 0,
    {
        LineBatch { lines: Vec::new() }
    }

    /// Whether a quota of `quota` lines asks for another line.
    pub fn wants(&self, quota: usize) -> (more: bool)
        ensures
            more == (self@.len() < quota),
    {
        self.lines.len() < quota
    }

    /// Takes what one read of a line gave into the batch, and says whether
    /// to read on. A line that is not empty joins the batch where the quota
    /// asks for it. An empty line is the end of the stream. There is more
    /// to read where the line was taken and the quota asks for another.
    pub fn add_line(&mut self, quota: usize, line: &[u8]) -> (more: bool)
        ensures
            line@.len() > 0 && old(self)@.len() < quota ==> final(self)@ == old(self)@.push(line@),
            !(line@.len() > 0 && old(self)@.len() < quota) ==> final(self)@ == old(self)@,
            more == (line@.len() > 0 && old(self)@.len() + 1 < quota),
    {
        if line.len() == 0 || !self.wants(quota) {
            return false;
        }
        self.lines.push(slice_to_vec(line));
        proof {
            assert(self@ =~= old(self)@.push(line@));
        }
        self.wants(quota)
    }

    /// Number of lines in the batch.
    pub fn len(&self) -> (n: usize)
        ensures
            n == self@.len(),
    {
        self.lines.len()
    }

    /// The bytes of the lines, one line after another.
    pub fn to_bytes(&self) -> (bytes: Vec<u8>)
        ensures
            bytes@ == join(self@),
    {
        let mut bytes: Vec<u8> = Vec::new();
        let mut i: usize = 0;
        while i < self.lines.len()
            invariant
                i <= self@.len(),
                self@.len() == self.lines@.len(),
                bytes@ == join(self@.take(i as int)),
            decreases self@.len() - i,
        {
            let line = &self.lines[i];
            let ghost before = bytes@;
            let mut j: usize = 0;
            while j < line.len()
                invariant
                    j <= line@.len(),
                    bytes@ == before + line@.take(j as int),
                decreases line@.len() - j,
            {
                bytes.push(line[j]);
                j += 1;
            }
            proof {
                let next = self@.take(i + 1);
                assert(next.drop_last() =~= self@.take(i as int));
            }
            i += 1;
        }
        proof {
            assert(self@.take(i as int) =~= self@);
        }
        bytes
    }
}

/// Number of lines that a quota of `quota` lines takes from `data`.
pub open spec fn lines_taken(data: Seq<u8>, quota: nat) -> nat {
    if quota <= line_count(data, NEWLINE) {
        quota
    } else {
        line_count(data, NEWLINE)
    }
}

/// The first `quota` lines of `data`, or all of them where there are
/// fewer.
pub open spec fn first_lines(data: Seq<u8>, quota: nat) -> Seq<Seq<u8>> {
    lines_of(data, NEWLINE).take(lines_taken(data, quota) as int)
}

/// The first `quota` bytes of `data`, or all of them where there are
/// fewer.
pub open spec fn first_bytes(data: Seq<u8>, quota: nat) -> Seq<u8> {
    if quota <= data.len() {
        data.take(quota as int)
    } else {
        data
    }
}

/// A quota of no lines takes nothing; a quota of no fewer lines than there
/// are takes all of the input.
pub proof fn lemma_first_lines_bounds(data: Seq<u8>, quota: nat)
    ensures
        first_lines(data, 0).len() == 0,
        join(first_lines(data, 0)).len() == 0,
        quota >= line_count(data, NEWLINE) ==> join(first_lines(data, quota)) == data,
        first_lines(data, quota).len() <= quota,
{
    lemma_lines_of(data, NEWLINE);
    if quota >= line_count(data, NEWLINE) {
        assert(first_lines(data, quota) =~= lines_of(data, NEWLINE));
    }
}

/// What a line quota takes is the beginning of the input: the lines taken,
/// one after another, are the first bytes of `data`.
pub proof fn lemma_first_lines_prefix(data: Seq<u8>, quota: nat)
    ensures
        join(first_lines(data, quota)).len() <= data.len(),
        join(first_lines(data, quota)) == data.take(join(first_lines(data, quota)).len() as int),
    decreases data.len(),
{
    if quota == 0 || data.len() == 0 {
        assert(first_lines(data, quota) =~= Seq::<Seq<u8>>::empty());
        assert(data.take(0) =~= Seq::<u8>::empty());
    } else {
        lemma_lines_step(data, NEWLINE);
        lemma_line_count_step(data, NEWLINE);
        let k = first_line_len(data, NEWLINE) as int;
        let line = data.take(k);
        let rest = data.skip(k);
        lemma_first_lines_prefix(rest, (quota - 1) as nat);
        let tail = first_lines(rest, (quota - 1) as nat);
        lemma_first_lines_unfold(data, quota);
        lemma_join_prepend(line, tail);
        let m = join(tail).len() as int;
        assert(join(first_lines(data, quota)) == line + rest.take(m));
        assert(line + rest.take(m) =~= data.take(k + m));
    }
}

/// With a quota of one line or more, the lines taken are the first line
/// and what a quota of one line less takes from the rest.
pub proof fn lemma_first_lines_unfold(data: Seq<u8>, quota: nat)
    requires
        quota > 0,
        data.len() > 0,
    ensures
        ({
            let k = first_line_len(data, NEWLINE) as int;
            first_lines(data, quota) == seq![data.take(k)] + first_lines(
                data.skip(k),
                (quota - 1) as nat,
            )
        }),
{
    lemma_lines_step(data, NEWLINE);
    lemma_line_count_step(data, NEWLINE);
    let k = first_line_len(data, NEWLINE) as int;
    let rest = data.skip(k);
    lemma_lines_of(data, NEWLINE);
    lemma_lines_of(rest, NEWLINE);
    let all = lines_of(data, NEWLINE);
    let more = lines_of(rest, NEWLINE);
    let n = lines_taken(data, quota) as int;
    assert(all == seq![data.take(k)] + more);
    assert(lines_taken(rest, (quota - 1) as nat) == n - 1);
    assert(all.take(n) =~= seq![data.take(k)] + more.take(n - 1));
}

/// Taking the quota again from what it took changes nothing: the lines
/// that a quota takes are all there is to take from them.
pub proof fn lemma_first_lines_again(data: Seq<u8>, quota: nat)
    ensures
        first_lines(join(first_lines(data, quota)), quota) == first_lines(data, quota),
    decreases data.len(),
{
    let got = join(first_lines(data, quota));
    if quota == 0 || data.len() == 0 {
        assert(first_lines(data, quota) =~= Seq::<Seq<u8>>::empty());
        assert(got =~= Seq::<u8>::empty());
        assert(first_lines(got, quota) =~= Seq::<Seq<u8>>::empty());
    } else {
        lemma_lines_step(data, NEWLINE);
        let k = first_line_len(data, NEWLINE) as int;
        let line = data.take(k);
        let rest = data.skip(k);
        let tail = first_lines(rest, (quota - 1) as nat);
        let more = join(tail);
        lemma_first_lines_unfold(data, quota);
        lemma_join_prepend(line, tail);
        lemma_first_lines_again(rest, (quota - 1) as nat);
        lemma_first_lines_prefix(rest, (quota - 1) as nat);
        assert(got == line + more);
        assert(line.last() == data[k - 1]);
        lemma_first_line_of_concat(line, more, NEWLINE);
        assert(got.take(k) =~= line);
        assert(got.skip(k) =~= more);
        lemma_first_lines_unfold(got, quota);
    }
}

/// A quota of no bytes takes nothing; a quota of no fewer bytes than there
/// are takes all of the input.
pub proof fn lemma_first_bytes_bounds(data: Seq<u8>, quota: nat)
    ensures
        first_bytes(data, 0).len() == 0,
        quota >= data.len() ==> first_bytes(data, quota) == data,
        first_bytes(data, quota).len() <= quota,
{
}

/// Whether reading the first `quota` lines stays clear of the end of the
/// stream: each of them is closed by a newline.
pub open spec fn lines_within(file: ByteStream, quota: nat) -> bool {
    quota <= newline_count(file.data@, NEWLINE)
}

/// Reads up to `quota` lines from the start of a stream, and stops early at
/// its end. A broken stream gives its failure where the reading meets the
/// end of its bytes, and the lines otherwise.
pub fn head_lines(file: &ByteStream, quota: usize) -> (r: Result<LineBatch, ReadError>)
    ensures
        r is Ok <==> file.is_sound() || lines_within(*file, quota as nat),
        r matches Ok(batch) ==> batch@ == first_lines(file.data@, quota as nat),
        r matches Err(e) ==> Some(e.reason@) == file.failure_reason(),
{
    let ghost data = file.data@;
    let ghost all = lines_of(data, NEWLINE);
    let mut batch = LineBatch::new();
    let mut pos: usize = 0;
    proof {
        assert(data.skip(0) =~= data);
        assert(batch@ =~= Seq::<Seq<u8>>::empty());
        lemma_lines_of(data, NEWLINE);
    }
    while batch.wants(quota)
        invariant
            data == file.data@,
            all == lines_of(data, NEWLINE),
            all.len() == line_count(data, NEWLINE),
            pos <= data.len(),
            batch@.len() <= quota,
            all == batch@ + lines_of(data.skip(pos as int), NEWLINE),
            !file.is_sound() ==> newline_count(data, NEWLINE) == batch@.len() + newline_count(
                data.skip(pos as int),
                NEWLINE,
            ),
        decreases quota - batch@.len(),
    {
        let ghost rest = data.skip(pos as int);
        let ghost before = batch@;
        proof {
            if rest.len() > 0 {
                lemma_lines_step(rest, NEWLINE);
            }
        }
        let line = match file.read_line(pos) {
            Ok(line) => line,
            Err(e) => {
                return Err(e);
            },
        };
        let more = batch.add_line(quota, line);
        proof {
            let k = line@.len() as int;
            if k > 0 {
                assert(line@ =~= rest.take(k));
                assert(rest.skip(k) =~= data.skip(pos + k));
                assert(before.push(line@) + lines_of(rest.skip(k), NEWLINE) =~= before + (seq![
                    line@,
                ] + lines_of(rest.skip(k), NEWLINE)));
            } else {
                assert(all =~= batch@);
            }
        }
        if !more {
            proof {
                assert(first_lines(data, quota as nat) =~= batch@);
            }
            return Ok(batch);
        }
        pos += line.len();
    }
    proof {
        assert(first_lines(data, quota as nat) =~= batch@);
    }
    Ok(batch)
}

/// Whether reading the first `quota` bytes stays clear of the end of the
/// stream.
pub open spec fn bytes_within(file: ByteStream, quota: nat) -> bool {
    quota <= file.data@.len()
}

/// Reads up to `quota` bytes from the start of a stream, and gives what
/// there is where the stream ends before. A broken stream gives its
/// failure where fewer than `quota` bytes came before it.
pub fn head_bytes(file: &ByteStream, quota: usize) -> (r: Result<Vec<u8>, ReadError>)
    ensures
        r is Ok <==> file.is_sound() || bytes_within(*file, quota as nat),
        r matches Ok(bytes) ==> bytes@ == first_bytes(file.data@, quota as nat),
        r matches Err(e) ==> Some(e.reason@) == file.failure_reason(),
{
    match file.read_bytes(0, quota) {
        Ok(bytes) => {
            Ok(slice_to_vec(bytes))
        },
        Err(e) => Err(e),
    }
}

/// The line that precedes the content of a source where there are several:
/// its name between arrows. A blank line goes before it where an earlier
/// header was written, so that blank lines part the headers.
pub open spec fn header(name: Seq<char>, headed: bool) -> Seq<char> {
    (if headed {
        seq!['\n']
    } else {
        Seq::<char>::empty()
    }) + seq!['=', '=', '>', ' '] + name + seq![' ', '<', '=', '=', '\n']
}

/// The header of a source in a run over `sources` sources, `headed` saying
/// whether a header was written before: none where there is one source
/// only.
pub open spec fn header_of(name: Seq<char>, headed: bool, sources: int) -> Seq<char> {
    if sources > 1 {
        header(name, headed)
    } else {
        Seq::empty()
    }
}

/// Whether the quota of `arg` can be read from `file` without failure.
pub open spec fn scan_succeeds(arg: Arg, file: ByteStream) -> bool {
    file.is_sound() || match arg.bytes {
        Some(n) => bytes_within(file, n as nat),
        None => lines_within(file, arg.lines as nat),
    }
}

/// What the quota of `arg` takes from `data`.
pub open spec fn taken(arg: Arg, data: Seq<u8>) -> Seq<u8> {
    match arg.bytes {
        Some(n) => first_bytes(data, n as nat),
        None => join(first_lines(data, arg.lines as nat)),
    }
}

/// The text shown for a source: what the quota takes, decoded leniently.
pub open spec fn shown(arg: Arg, data: Seq<u8>) -> Seq<char> {
    lossy_chars(taken(arg, data))
}

/// At the bounds of the quota: a quota of zero, in lines or in bytes, reads
/// without failure from any stream and shows nothing; a quota of no less
/// than the stream holds shows all of a sound stream.
pub proof fn lemma_quota_boundaries(arg: Arg, file: ByteStream)
    ensures
        arg.bytes == Some(0usize) || (arg.bytes is None && arg.lines == 0) ==> scan_succeeds(
            arg,
            file,
        ) && taken(arg, file.data@).len() == 0 && shown(arg, file.data@).len() == 0,
        file.is_sound() && (match arg.bytes {
            Some(n) => n >= file.data@.len(),
            None => arg.lines >= line_count(file.data@, NEWLINE),
        }) ==> scan_succeeds(arg, file) && taken(arg, file.data@) == file.data@,
{
    lemma_first_lines_bounds(file.data@, arg.lines as nat);
    match arg.bytes {
        Some(n) => lemma_first_bytes_bounds(file.data@, n as nat),
        None => {},
    }
}

/// Taking the quota again from what it took changes nothing.
pub proof fn lemma_taken_again(arg: Arg, data: Seq<u8>)
    ensures
        taken(arg, taken(arg, data)) == taken(arg, data),
{
    match arg.bytes {
        Some(n) => {
            assert(first_bytes(first_bytes(data, n as nat), n as nat) =~= first_bytes(
                data,
                n as nat,
            ));
        },
        None => {
            lemma_first_lines_again(data, arg.lines as nat);
        },
    }
}

/// What one source adds to a run over `sources` sources. A source that
/// did not open gets its diagnostic. One that opened gets its header where
/// there are several sources, and then its first lines or bytes; where it
/// fails within its quota, the run ends after the header.
pub open spec fn step_model(arg: Arg, sources: int, headed: bool, input: Input) -> ReportView {
    match input.opened {
        Err(e) => ReportView::wrote(Seq::empty(), diagnostic(input.name@, e.reason@)),
        Ok(stream) => {
            let head = header_of(input.name@, headed, sources);
            if scan_succeeds(arg, stream) {
                ReportView::wrote(head + shown(arg, stream.data@), Seq::empty())
            } else {
                ReportView::broke(head, stream.failure_reason().unwrap())
            }
        },
    }
}

/// Reading no more of a source than its quota takes is reading enough: a
/// source that holds just what the quota takes from `input`, and ends
/// there, takes the same step as `input`, where `input` can be read
/// without failure.
pub proof fn lemma_quota_reads_enough(arg: Arg, sources: int, headed: bool, input: Input, short: Input)
    requires
        input.opened matches Ok(stream) && scan_succeeds(arg, stream),
        short.opened matches Ok(stream) && stream.is_sound(),
        short.name@ == input.name@,
        short.opened->Ok_0.data@ == taken(arg, input.opened->Ok_0.data@),
    ensures
        step_model(arg, sources, headed, short) == step_model(arg, sources, headed, input),
{
    lemma_taken_again(arg, input.opened->Ok_0.data@);
}

/// Whether a header has been written once `input` is done: one was written
/// before, or this source opened and is one of several.
pub open spec fn headed_after(sources: int, headed: bool, input: Input) -> bool {
    headed || (sources > 1 && input.opened is Ok)
}

/// What the run writes from source `k` on, `headed` saying whether a header
/// was written before: the steps of the sources in order, up to the first
/// that fails.
pub open spec fn run_from(arg: Arg, inputs: Seq<Input>, k: int, headed: bool) -> ReportView
    decreases inputs.len() - k,
{
    if k < 0 || k >= inputs.len() {
        ReportView::silent()
    } else {
        let step = step_model(arg, inputs.len() as int, headed, inputs[k]);
        if step.failure is Some {
            step
        } else {
            run_from(
                arg,
                inputs,
                k + 1,
                headed_after(inputs.len() as int, headed, inputs[k]),
            ).after(step.stdout, step.stderr)
        }
    }
}

/// What the run over `inputs` writes.
pub open spec fn run_model(arg: Arg, inputs: Seq<Input>) -> ReportView {
    run_from(arg, inputs, 0, false)
}

/// A source that does not open writes its diagnostic and no header, and
/// changes nothing for the headers after it: the first header that a run
/// writes has no blank line before it, wherever its source stands.
pub proof fn lemma_unopened_leaves_headers(arg: Arg, inputs: Seq<Input>, k: int, headed: bool)
    requires
        0 <= k < inputs.len(),
        inputs[k].opened is Err,
    ensures
        run_from(arg, inputs, k, headed) == run_from(arg, inputs, k + 1, headed).after(
            Seq::empty(),
            diagnostic(inputs[k].name@, inputs[k].opened->Err_0.reason@),
        ),
{
}

/// The header of the first source that opens has no blank line before it,
/// and the header of every later one has.
pub proof fn lemma_headers_parted(arg: Arg, sources: int, headed: bool, input: Input)
    requires
        sources > 1,
        input.opened matches Ok(stream) && scan_succeeds(arg, stream),
    ensures
        step_model(arg, sources, headed, input).stdout == header(input.name@, headed) + shown(
            arg,
            input.opened->Ok_0.data@,
        ),
        header(input.name@, true) == seq!['\n'] + header(input.name@, false),
        header(input.name@, false)[0] == '=',
        headed_after(sources, headed, input),
{
    assert(header(input.name@, true) =~= seq!['\n'] + header(input.name@, false));
}

/// Appends the header of the source `name` to `out`, in a run over `sources`
/// sources.
fn push_header(out: &mut Vec<char>, name: &[char], headed: bool, sources: usize)
    ensures
        final(out)@ == old(out)@ + header_of(name@, headed, sources as int),
{
    if sources > 1 {
        if headed {
            out.push('\n');
        }
        push_chars(out, &['=', '=', '>', ' ']);
        push_chars(out, name);
        push_chars(out, &[' ', '<', '=', '=', '\n']);
    }
    proof {
        assert(out@ =~= old(out)@ + header_of(name@, headed, sources as int));
    }
}

/// Reads what the quota of `arg` takes from `file`: the first bytes where
/// a byte quota is set, else the first lines.
pub fn take_head(arg: &Arg, file: &ByteStream) -> (r: Result<Vec<u8>, ReadError>)
    ensures
        r is Ok <==> scan_succeeds(*arg, *file),
        r matches Ok(bytes) ==> bytes@ == taken(*arg, file.data@),
        r matches Err(e) ==> Some(e.reason@) == file.failure_reason(),
{
    match arg.bytes {
        Some(n) => head_bytes(file, n),
        None => match head_lines(file, arg.lines) {
            Ok(batch) => Ok(batch.to_bytes()),
            Err(e) => Err(e),
        },
    }
}

/// Does the step of one source, and appends what it writes to `out` and
/// `err`.
fn step_into(
    arg: &Arg,
    sources: usize,
    headed: &mut bool,
    input: &Input,
    out: &mut Vec<char>,
    err: &mut Vec<char>,
) -> (failure: Option<ReadError>)
    ensures
        final(out)@ == old(out)@ + step_model(*arg, sources as int, *old(headed), *input).stdout,
        final(err)@ == old(err)@ + step_model(*arg, sources as int, *old(headed), *input).stderr,
        reason_of(failure) == step_model(*arg, sources as int, *old(headed), *input).failure,
        *final(headed) == headed_after(sources as int, *old(headed), *input),
{
    let name = chars_of(input.name.as_str());
    let ghost step = step_model(*arg, sources as int, *old(headed), *input);
    match &input.opened {
        Err(e) => {
            let reason = chars_of(e.reason.as_str());
            push_diagnostic(err, name.as_slice(), reason.as_slice());
            proof {
                assert(out@ =~= old(out)@ + step.stdout);
            }
            None
        },
        Ok(stream) => {
            push_header(out, name.as_slice(), *headed, sources);
            if sources > 1 {
                *headed = true;
            }
            match take_head(arg, stream) {
                Err(e) => {
                    proof {
                        assert(err@ =~= old(err)@ + step.stderr);
                    }
                    Some(e)
                },
                Ok(bytes) => {
                    let text = decode_lossy(bytes.as_slice());
                    push_chars(out, text.as_slice());
                    proof {
                        assert(out@ =~= old(out)@ + step.stdout);
                        assert(err@ =~= old(err)@ + step.stderr);
                    }
                    None
                },
            }
        },
    }
}

/// Does the part of a run that falls to one source, in a run over `sources`
/// sources. `headed` says whether a header was written before, and is set
/// where this source gets one. The report holds what to write; where it
/// holds a failure, the run ends with this source.
pub fn step(arg: &Arg, sources: usize, headed: &mut bool, input: &Input) -> (report: Report)
    ensures
        report@ == step_model(*arg, sources as int, *old(headed), *input),
        *final(headed) == headed_after(sources as int, *old(headed), *input),
{
    let mut out: Vec<char> = Vec::new();
    let mut err: Vec<char> = Vec::new();
    let failure = step_into(arg, sources, headed, input, &mut out, &mut err);
    proof {
        let model = step_model(*arg, sources as int, *old(headed), *input);
        assert(out@ =~= model.stdout);
        assert(err@ =~= model.stderr);
    }
    Report::new(out, err, failure)
}

/// Runs the truncation over the sources in order: the steps of the
/// sources, one after another, up to the first that fails. A source that
/// could not be opened is reported on standard error and passed over. A
/// source that fails within its quota ends the run: what was written
/// stays, and the failure is reported.
pub fn run(arg: &Arg, inputs: &Vec<Input>) -> (report: Report)
    ensures
        report@ == run_model(*arg, inputs@),
{
    let mut out: Vec<char> = Vec::new();
    let mut err: Vec<char> = Vec::new();
    let mut headed: bool = false;
    let mut k: usize = 0;
    proof {
        lemma_after(run_model(*arg, inputs@), out@, err@, out@, err@);
    }
    while k < inputs.len()
        invariant
            k <= inputs@.len(),
            run_from(*arg, inputs@, k as int, headed).after(out@, err@) == run_model(
                *arg,
                inputs@,
            ),
        decreases inputs@.len() - k,
    {
        let ghost step = step_model(*arg, inputs@.len() as int, headed, inputs@[k as int]);
        let ghost rest = run_from(
            *arg,
            inputs@,
            k + 1,
            headed_after(inputs@.len() as int, headed, inputs@[k as int]),
        );
        let ghost old_out = out@;
        let ghost old_err = err@;
        let failure = step_into(arg, inputs.len(), &mut headed, &inputs[k], &mut out, &mut err);
        if failure.is_some() {
            proof {
                assert(step.after(old_out, old_err) =~= ReportView {
                    stdout: out@,
                    stderr: err@,
                    failure: step.failure,
                });
            }
            return Report::new(out, err, failure);
        }
        proof {
            lemma_after(rest, old_out, old_err, step.stdout, step.stderr);
        }
        k += 1;
    }
    proof {
        lemma_after(ReportView::silent(), out@, err@, out@, err@);
        assert(ReportView::silent().after(out@, err@) =~= ReportView::wrote(out@, err@));
    }
    Report::new(out, err, None)
}

} // verus!
