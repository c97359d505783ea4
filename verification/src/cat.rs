//! Concatenation of sources, with line numbers where asked.

use vstd::prelude::*;
use vstd::slice::slice_subrange;
use vstd::utf8::{decode_utf8_encode_utf8, encode_utf8, valid_utf8};
use crate::config::{default_files, ConfigError};
use crate::decimal::{column, push_column};
use crate::decode::{
    decode_lossy, lemma_lossy_concat, lemma_lossy_ends_in_newline, lemma_lossy_keeps_line,
    lemma_lossy_of_encoded, lemma_lossy_of_valid, lossy_chars,
};
use crate::lines::{
    first_line_len, lemma_first_line, lemma_first_line_of_concat, lemma_lines_step, lines_of,
    text_line_end, NEWLINE, NEWLINE_CHAR,
};
use crate::report::{diagnostic, lemma_after, push_diagnostic, Report, ReportView};
use crate::source::{reason_of, stdin_name, Input, ReadError};
use crate::text::{chars_of, push_chars, string_of};

verus! {

/// Width of the column of line numbers.
pub const NUMBER_WIDTH: usize = 6;

/// Which sources to concatenate, and which lines to number.
#[derive(Debug)]
pub struct Config {
    pub files: Vec<String>,
    pub number_lines: bool,
    pub number_nonblank: bool,
}

impl Config {
    /// Whether the options are consistent: at least one source, and one
    /// way of numbering at most.
    pub open spec fn wf(&self) -> bool {
        self.files@.len() > 0 && !(self.number_lines && self.number_nonblank)
    }

    /// The options as given. Numbering all lines and numbering nonblank
    /// lines exclude one another. Where no source is named, standard input
    /// is the one source.
    pub fn new(files: Vec<String>, number_lines: bool, number_nonblank: bool) -> (r: Result<
        Config,
        ConfigError,
    >)
        ensures
            r is Err <==> number_lines && number_nonblank,
            r matches Err(e) ==> e == ConfigError::NumberWithNonblank,
            r matches Ok(config) ==> {
                &&& config.wf()
                &&& config.number_lines == number_lines
                &&& config.number_nonblank == number_nonblank
                &&& files@.len() > 0 ==> config.files@ == files@
                &&& files@.len() == 0 ==> config.files@.len() == 1 && config.files@[0]@
                    == stdin_name()
            },
    {
        if number_lines && number_nonblank {
            return Err(ConfigError::NumberWithNonblank);
        }
        let files = if files.len() == 0 {
            default_files()
        } else {
            files
        };
        Ok(Config { files, number_lines, number_nonblank })
    }
}

/// What goes before a numbered line: its number at the right of a column
/// of six, and a tab.
pub open spec fn number_prefix(n: nat) -> Seq<char> {
    column(n, NUMBER_WIDTH as nat) + seq!['\t']
}

/// Whether `line` is blank: nothing but its line ending, a newline or a
/// carriage return and a newline.
pub open spec fn is_blank(line: Seq<char>) -> bool {
    line == seq!['\n'] || line == seq!['\r', '\n']
}

/// `text` with its lines numbered from `n` on. Each line stays as it is,
/// line ending included; a numbered line gets its number in front. Where
/// `skip_blank` holds, blank lines get no number and are not counted.
pub open spec fn numbered_from(text: Seq<char>, n: nat, skip_blank: bool) -> Seq<char>
    decreases text.len(),
{
    if text.len() == 0 {
        Seq::empty()
    } else {
        let k = first_line_len(text, NEWLINE_CHAR) as int;
        if 0 < k <= text.len() {
            let line = text.take(k);
            if skip_blank && is_blank(line) {
                line + numbered_from(text.skip(k), n, skip_blank)
            } else {
                number_prefix(n) + line + numbered_from(text.skip(k), n + 1, skip_blank)
            }
        } else {
            Seq::empty()
        }
    }
}

/// `text` with every line numbered, from 1 on.
pub open spec fn number_lines(text: Seq<char>) -> Seq<char> {
    numbered_from(text, 1, false)
}

/// `text` with every line that is not blank numbered, from 1 on.
pub open spec fn number_nonblank(text: Seq<char>) -> Seq<char> {
    numbered_from(text, 1, true)
}

/// Where no line of a text is blank, numbering the lines that are not
/// blank numbers every line.
pub proof fn lemma_numberings_agree(text: Seq<char>, n: nat)
    requires
        forall|i: int|
            0 <= i < lines_of(text, NEWLINE_CHAR).len() ==> !is_blank(
                #[trigger] lines_of(text, NEWLINE_CHAR)[i],
            ),
    ensures
        numbered_from(text, n, true) == numbered_from(text, n, false),
    decreases text.len(),
{
    if text.len() > 0 {
        lemma_lines_step(text, NEWLINE_CHAR);
        let k = first_line_len(text, NEWLINE_CHAR) as int;
        let all = lines_of(text, NEWLINE_CHAR);
        let more = lines_of(text.skip(k), NEWLINE_CHAR);
        assert(all[0] == text.take(k));
        assert forall|i: int| 0 <= i < more.len() implies !is_blank(#[trigger] more[i]) by {
            assert(more[i] == all[i + 1]);
        }
        lemma_numberings_agree(text.skip(k), n + 1);
    }
}

/// Whether `line` is blank.
fn blank(line: &[char]) -> (r: bool)
    ensures
        r == is_blank(line@),
{
    if line.len() == 1 && line[0] == '\n' {
        proof {
            assert(line@ =~= seq!['\n']);
        }
        true
    } else if line.len() == 2 && line[0] == '\r' && line[1] == '\n' {
        proof {
            assert(line@ =~= seq!['\r', '\n']);
        }
        true
    } else {
        false
    }
}

/// Appends `text` to `out` with its lines numbered from 1 on.
pub fn push_numbered(out: &mut Vec<char>, text: &[char], skip_blank: bool)
    ensures
        final(out)@ == old(out)@ + numbered_from(text@, 1, skip_blank),
{
    let mut pos: usize = 0;
    let mut n: u128 = 1;
    proof {
        assert(text@.skip(0) =~= text@);
    }
    while pos < text.len()
        invariant
            pos <= text@.len(),
            1 <= n <= pos + 1,
            out@ + numbered_from(text@.skip(pos as int), n as nat, skip_blank) == old(out)@
                + numbered_from(text@, 1, skip_blank),
        decreases text@.len() - pos,
    {
        let ghost rest = text@.skip(pos as int);
        let ghost before = out@;
        let end = text_line_end(text, pos);
        let line = slice_subrange(text, pos, end);
        proof {
            let k = end - pos;
            assert(line@ =~= rest.take(k));
            assert(rest.skip(k) =~= text@.skip(end as int));
        }
        if skip_blank && blank(line) {
            push_chars(out, line);
            proof {
                assert(out@ + numbered_from(text@.skip(end as int), n as nat, skip_blank)
                    =~= before + numbered_from(rest, n as nat, skip_blank));
            }
        } else {
            push_column(out, n, NUMBER_WIDTH);
            out.push('\t');
            push_chars(out, line);
            proof {
                assert(out@ + numbered_from(text@.skip(end as int), (n + 1) as nat, skip_blank)
                    =~= before + numbered_from(rest, n as nat, skip_blank));
            }
            n += 1;
        }
        pos = end;
    }
}

/// Numbers every line of `text`: each line gets its number, from 1 on, at
/// the right of a column of six, and a tab, in front.
pub fn format_number_lines(text: &str) -> (s: String)
    ensures
        s@ == number_lines(text@),
{
    let chars = chars_of(text);
    let mut out: Vec<char> = Vec::new();
    push_numbered(&mut out, chars.as_slice(), false);
    string_of(out)
}

/// Numbers the lines of `text` that are not blank, from 1 on; blank lines
/// stay as they are and are not counted.
pub fn format_number_nonblank(text: &str) -> (s: String)
    ensures
        s@ == number_nonblank(text@),
{
    let chars = chars_of(text);
    let mut out: Vec<char> = Vec::new();
    push_numbered(&mut out, chars.as_slice(), true);
    string_of(out)
}

/// `text` as it is written where its first numbered line gets the number
/// `n`: numbered as the options say, or as it is.
pub open spec fn rendered_from(config: Config, text: Seq<char>, n: nat) -> Seq<char> {
    if config.number_lines {
        numbered_from(text, n, false)
    } else if config.number_nonblank {
        numbered_from(text, n, true)
    } else {
        text
    }
}

/// What is written for a source with the text `text`: numbered from 1 on
/// as the options say, or as it is.
pub open spec fn rendered(config: Config, text: Seq<char>) -> Seq<char> {
    rendered_from(config, text, 1)
}

/// Whether the line with the text `text` gets a number: it is not empty,
/// and the options number all lines, or the lines that are not blank and
/// it is not blank.
pub open spec fn numbers(config: Config, text: Seq<char>) -> bool {
    text.len() > 0 && (config.number_lines || (config.number_nonblank && !is_blank(text)))
}

/// What is written for one line of a source, `n` being the number that
/// the next numbered line gets: its text, decoded leniently, with the
/// number in front where it gets one.
pub open spec fn line_model(config: Config, n: nat, line: Seq<u8>) -> Seq<char> {
    if numbers(config, lossy_chars(line)) {
        number_prefix(n) + lossy_chars(line)
    } else {
        lossy_chars(line)
    }
}

/// The number that the next numbered line gets, after `line`.
pub open spec fn next_after(config: Config, n: nat, line: Seq<u8>) -> nat {
    if numbers(config, lossy_chars(line)) {
        n + 1
    } else {
        n
    }
}

/// Writing a source line by line is writing it whole: what is written for
/// the input is what is written for its first line, and then what is
/// written for the rest with the numbers going on.
pub proof fn lemma_rendered_line_by_line(config: Config, data: Seq<u8>, n: nat)
    requires
        data.len() > 0,
    ensures
        ({
            let k = first_line_len(data, NEWLINE) as int;
            let line = data.take(k);
            rendered_from(config, lossy_chars(data), n) == line_model(config, n, line)
                + rendered_from(config, lossy_chars(data.skip(k)), next_after(config, n, line))
        }),
{
    lemma_first_line(data, NEWLINE);
    let k = first_line_len(data, NEWLINE) as int;
    let line = data.take(k);
    let rest = data.skip(k);
    let text = lossy_chars(line);
    let more = lossy_chars(rest);
    assert(data =~= line + rest);
    lemma_lossy_keeps_line(line);
    if rest.len() > 0 {
        assert(line.last() == NEWLINE);
        lemma_lossy_concat(line, rest);
        lemma_lossy_ends_in_newline(line);
    } else {
        assert(line =~= data);
        assert(text + more =~= text);
    }
    let whole = text + more;
    assert(lossy_chars(data) == whole);
    lemma_first_line_of_concat(text, more, NEWLINE_CHAR);
    assert(whole.take(text.len() as int) =~= text);
    assert(whole.skip(text.len() as int) =~= more);
    if config.number_lines || config.number_nonblank {
        let skip_blank = !config.number_lines;
        if skip_blank && is_blank(text) {
            assert(numbered_from(whole, n, skip_blank) == text + numbered_from(
                more,
                n,
                skip_blank,
            ));
        } else {
            assert(numbered_from(whole, n, skip_blank) == number_prefix(n) + text
                + numbered_from(more, n + 1, skip_blank));
            assert(number_prefix(n) + text + numbered_from(more, n + 1, skip_blank) =~= (
            number_prefix(n) + text) + numbered_from(more, n + 1, skip_blank));
        }
    }
}

/// Without numbering, well-formed UTF-8 comes out as it went in: the
/// bytes of what is written are the bytes of the source.
pub proof fn lemma_plain_round_trip(config: Config, data: Seq<u8>)
    requires
        !config.number_lines,
        !config.number_nonblank,
        valid_utf8(data),
    ensures
        encode_utf8(rendered(config, lossy_chars(data))) == data,
{
    lemma_lossy_of_valid(data);
    decode_utf8_encode_utf8(data);
}

/// Without numbering, the encoding of a text is written as that text.
pub proof fn lemma_plain_keeps_text(config: Config, text: Seq<char>)
    requires
        !config.number_lines,
        !config.number_nonblank,
    ensures
        rendered(config, lossy_chars(encode_utf8(text))) == text,
{
    lemma_lossy_of_encoded(text);
}

/// What one source adds to the run. A source that did not open gets its
/// diagnostic. One that opened gets the text of what it delivers, decoded
/// leniently and numbered as the options say; where it fails behind that,
/// the run ends.
pub open spec fn step_model(config: Config, input: Input) -> ReportView {
    match input.opened {
        Err(e) => ReportView::wrote(Seq::empty(), diagnostic(input.name@, e.reason@)),
        Ok(stream) => match stream.failure {
            Some(e) => ReportView::broke(rendered(config, lossy_chars(stream.data@)), e.reason@),
            None => ReportView::wrote(rendered(config, lossy_chars(stream.data@)), Seq::empty()),
        },
    }
}

/// What the run writes from source `k` on: the steps of the sources in
/// order, up to the first that fails.
pub open spec fn run_from(config: Config, inputs: Seq<Input>, k: int) -> ReportView
    decreases inputs.len() - k,
{
    if k < 0 || k >= inputs.len() {
        ReportView::silent()
    } else {
        let step = step_model(config, inputs[k]);
        if step.failure is Some {
            step
        } else {
            run_from(config, inputs, k + 1).after(step.stdout, step.stderr)
        }
    }
}

/// What the run over `inputs` writes.
pub open spec fn run_model(config: Config, inputs: Seq<Input>) -> ReportView {
    run_from(config, inputs, 0)
}

/// Does the step of one source, and appends what it writes to `out` and
/// `err`.
fn step_into(config: &Config, input: &Input, out: &mut Vec<char>, err: &mut Vec<char>) -> (failure:
    Option<ReadError>)
    ensures
        final(out)@ == old(out)@ + step_model(*config, *input).stdout,
        final(err)@ == old(err)@ + step_model(*config, *input).stderr,
        reason_of(failure) == step_model(*config, *input).failure,
{
    let ghost step = step_model(*config, *input);
    match &input.opened {
        Err(e) => {
            let name = chars_of(input.name.as_str());
            let reason = chars_of(e.reason.as_str());
            push_diagnostic(err, name.as_slice(), reason.as_slice());
            proof {
                assert(out@ =~= old(out)@ + step.stdout);
            }
            None
        },
        Ok(stream) => {
            let text = decode_lossy(stream.data.as_slice());
            if config.number_lines {
                push_numbered(out, text.as_slice(), false);
            } else if config.number_nonblank {
                push_numbered(out, text.as_slice(), true);
            } else {
                push_chars(out, text.as_slice());
            }
            proof {
                assert(err@ =~= old(err)@ + step.stderr);
            }
            match stream.at_end() {
                Ok(()) => None,
                Err(e) => Some(e),
            }
        },
    }
}

/// Writes one line of a source, as it was read: its text, decoded
/// leniently, with its number in front where the options give it one.
/// `next` holds the number of the next numbered line, and goes on by one
/// where this line got it.
pub fn line_step(config: &Config, next: &mut u128, line: &[u8]) -> (s: String)
    requires
        *old(next) < u128::MAX,
    ensures
        s@ == line_model(*config, *old(next) as nat, line@),
        *final(next) == next_after(*config, *old(next) as nat, line@),
{
    let text = decode_lossy(line);
    let mut out: Vec<char> = Vec::new();
    let numbered = text.len() > 0 && (config.number_lines || (config.number_nonblank && !blank(
        text.as_slice(),
    )));
    if numbered {
        push_column(&mut out, *next, NUMBER_WIDTH);
        out.push('\t');
        *next = *next + 1;
    }
    push_chars(&mut out, text.as_slice());
    proof {
        assert(out@ =~= line_model(*config, *old(next) as nat, line@));
    }
    string_of(out)
}

/// Does the part of a run that falls to one source. The report holds what
/// to write; where it holds a failure, the run ends with this source.
pub fn step(config: &Config, input: &Input) -> (report: Report)
    ensures
        report@ == step_model(*config, *input),
{
    let mut out: Vec<char> = Vec::new();
    let mut err: Vec<char> = Vec::new();
    let failure = step_into(config, input, &mut out, &mut err);
    proof {
        assert(out@ =~= step_model(*config, *input).stdout);
        assert(err@ =~= step_model(*config, *input).stderr);
    }
    Report::new(out, err, failure)
}

/// Runs the concatenation over the sources in order: the steps of the
/// sources, one after another, up to the first that fails. A source that
/// could not be opened is reported on standard error and passed over. A
/// source that fails while it is read ends the run: what was written,
/// with what the source delivered before it failed, stays, and the failure
/// is reported.
pub fn run(config: &Config, inputs: &Vec<Input>) -> (report: Report)
    ensures
        report@ == run_model(*config, inputs@),
{
    let mut out: Vec<char> = Vec::new();
    let mut err: Vec<char> = Vec::new();
    let mut k: usize = 0;
    proof {
        lemma_after(run_model(*config, inputs@), out@, err@, out@, err@);
    }
    while k < inputs.len()
        invariant
            k <= inputs@.len(),
            run_from(*config, inputs@, k as int).after(out@, err@) == run_model(
                *config,
                inputs@,
            ),
        decreases inputs@.len() - k,
    {
        let ghost step = step_model(*config, inputs@[k as int]);
        let ghost rest = run_from(*config, inputs@, k + 1);
        let ghost old_out = out@;
        let ghost old_err = err@;
        let failure = step_into(config, &inputs[k], &mut out, &mut err);
        if failure.is_some() {
            proof {
                assert(step.after(old_out, old_err) =~= ReportView {
                    stdout: out@,
                    stderr: err@,
                    failure: step.failure,
                });
            }
            return Report::new(out, err, failure);
        }
        proof {
            lemma_after(rest, old_out, old_err, step.stdout, step.stderr);
        }
        k += 1;
    }
    proof {
        assert(ReportView::silent().after(out@, err@) =~= ReportView::wrote(out@, err@));
    }
    Report::new(out, err, None)
}

} // verus!
