//! The built-in `grep`: it prints the lines of its input that match a
//! pattern, each followed by as many lines of context as were asked for.
//!
//! Whether a line matches is decided by the regular expressions of the
//! `regex` crate. Which lines are printed, given the lines that match, is
//! decided here.
use crate::builtin::{file_failure, BuiltinCommand, FileInput, FileView, Outcome, Streams};
use crate::command::ExitCode;
use crate::env::Environment;
use crate::io_adapters::{MemReader, MemWriter};
use crate::text::{chars_of, push_char, str_from_utf8, texts};
use vstd::prelude::*;
use vstd::utf8::{decode_utf8, encode_utf8, valid_utf8};

verus! {

/// Whether the `regex` crate compiles the pattern, with or without the
/// flag that ignores case: whether `regex::RegexBuilder::build` gives a
/// regular expression for it.
pub uninterp spec fn regex_compiles(pattern: Seq<char>, ignore_case: bool) -> bool;

/// Whether the regular expression that the `regex` crate compiles from
/// the pattern matches somewhere in the text: what `regex::Regex::is_match`
/// answers.
pub uninterp spec fn regex_matches(pattern: Seq<char>, ignore_case: bool, text: Seq<char>) -> bool;

/// Compiles the pattern with `regex::RegexBuilder` (`new`,
/// `case_insensitive`, `build`) and asks the regular expression with
/// `regex::Regex::is_match` whether it matches somewhere in the text.
///
/// The contract gives the two answers their names and claims nothing else:
/// there is an answer where the pattern compiles, which depends on the
/// pattern and the flag alone, and none where it does not.
#[verifier::external_body]
fn regex_answer(pattern: &str, ignore_case: bool, text: &str) -> (r: Option<bool>)
    ensures
        r is Some <==> regex_compiles(pattern@, ignore_case),
        r matches Some(found) ==> found == regex_matches(pattern@, ignore_case, text@),
{
    match regex::RegexBuilder::new(pattern).case_insensitive(ignore_case).build() {
        Ok(re) => Some(re.is_match(text)),
        Err(_) => None,
    }
}

/// Prints the lines that match a pattern.
#[derive(Debug)]
pub struct Grep {
    /// The pattern to look for, a regular expression.
    pub pattern: String,
    /// The files to search; the input is searched where there is none.
    pub files: Vec<FileInput>,
    /// Match whole words only.
    pub word_regexp: bool,
    /// Ignore the case of letters.
    pub ignore_case: bool,
    /// The number of lines to print after each line that matches.
    pub after_context: usize,
}

// ---------------------------------------------------------------------------
// Lines
// ---------------------------------------------------------------------------

/// The lines of a text. Each line ends with its newline, but for the last,
/// which is what follows the last newline where that is not empty.
pub open spec fn lines_of(text: Seq<char>) -> Seq<Seq<char>>
    decreases text.len(),
{
    if text.len() == 0 {
        Seq::empty()
    } else {
        let before = lines_of(text.drop_last());
        if before.len() > 0 && before.last().len() > 0 && before.last().last() != '\n' {
            before.update(before.len() - 1, before.last().push(text.last()))
        } else {
            before.push(seq![text.last()])
        }
    }
}

/// The texts of lines, one after the other.
pub open spec fn concat(lines: Seq<Seq<char>>) -> Seq<char>
    decreases lines.len(),
{
    if lines.len() == 0 {
        Seq::empty()
    } else {
        concat(lines.drop_last()) + lines.last()
    }
}

/// A line of a text: it is not empty, and a newline stands at its end or
/// nowhere in it.
pub open spec fn is_line(line: Seq<char>) -> bool {
    line.len() > 0 && forall|j: int| 0 <= j < line.len() - 1 ==> line[j] != '\n'
}

/// The lines of a text are the text cut after each newline: one after the
/// other they are the text again, each is a line, and each but the last
/// ends with a newline.
pub proof fn lemma_lines_cut_the_text(text: Seq<char>)
    ensures
        concat(lines_of(text)) == text,
        forall|i: int| 0 <= i < lines_of(text).len() ==> is_line(#[trigger] lines_of(text)[i]),
        forall|i: int|
            0 <= i < lines_of(text).len() - 1 ==> (#[trigger] lines_of(text)[i]).last() == '\n',
    decreases text.len(),
{
    let lines = lines_of(text);
    if text.len() == 0 {
        assert(concat(lines) =~= text);
    } else {
        let shorter = text.drop_last();
        let before = lines_of(shorter);
        let c = text.last();
        lemma_lines_cut_the_text(shorter);
        if before.len() > 0 && before.last().len() > 0 && before.last().last() != '\n' {
            let last = before.last().push(c);
            assert(lines.drop_last() =~= before.drop_last());
            assert(lines.last() == last);
            assert(concat(lines) =~= concat(before).push(c));
            assert(concat(lines) =~= text);
            assert(is_line(before[before.len() - 1]));
            assert(is_line(last)) by {
                assert forall|j: int| 0 <= j < last.len() - 1 implies last[j] != '\n' by {
                    if j < before.last().len() - 1 {
                        assert(last[j] == before.last()[j]);
                    }
                }
            }
            assert forall|i: int| 0 <= i < lines.len() implies is_line(#[trigger] lines[i]) by {
                if i < lines.len() - 1 {
                    assert(lines[i] == before[i]);
                }
            }
            assert forall|i: int| 0 <= i < lines.len() - 1 implies (#[trigger] lines[i]).last()
                == '\n' by {
                assert(lines[i] == before[i]);
            }
        } else {
            assert(lines.drop_last() =~= before);
            assert(concat(lines) =~= concat(before).push(c));
            assert(concat(lines) =~= text);
            assert(is_line(seq![c]));
            assert forall|i: int| 0 <= i < lines.len() implies is_line(#[trigger] lines[i]) by {
                if i < lines.len() - 1 {
                    assert(lines[i] == before[i]);
                }
            }
            assert forall|i: int| 0 <= i < lines.len() - 1 implies (#[trigger] lines[i]).last()
                == '\n' by {
                assert(lines[i] == before[i]);
                if i < before.len() - 1 {
                } else {
                    assert(is_line(before[before.len() - 1]));
                }
            }
        }
    }
}

/// Splits a text into its lines.
pub fn split_lines(text: &str) -> (lines: Vec<String>)
    ensures
        texts(lines@) == lines_of(text@),
{
    let chars = chars_of(text);
    let mut lines: Vec<String> = Vec::new();
    let mut current = String::new();
    let mut i: usize = 0;
    assert(chars@.take(0) =~= Seq::<char>::empty());
    assert(texts(lines@) =~= Seq::<Seq<char>>::empty());
    while i < chars.len()
        invariant
            i <= chars@.len(),
            chars@ == text@,
            forall|j: int| 0 <= j < current@.len() ==> current@[j] != '\n',
            lines_of(chars@.take(i as int)) == if current@.len() == 0 {
                texts(lines@)
            } else {
                texts(lines@).push(current@)
            },
            forall|j: int|
                0 <= j < lines@.len() ==> (#[trigger] lines@[j])@.len() > 0 && lines@[j]@.last()
                    == '\n',
        decreases chars@.len() - i,
    {
        proof {
            assert(chars@.take(i + 1).drop_last() =~= chars@.take(i as int));
            assert(chars@.take(i + 1).last() == chars@[i as int]);
            if current@.len() == 0 && lines@.len() > 0 {
                assert(texts(lines@).last() == lines@[lines@.len() - 1]@);
            }
        }
        let ghost listed = texts(lines@);
        let ghost pending = current@;
        let c = chars[i];
        push_char(&mut current, c);
        if c == '\n' {
            let mut done = String::new();
            std::mem::swap(&mut current, &mut done);
            lines.push(done);
            proof {
                assert(texts(lines@) =~= listed.push(pending.push(c)));
                if pending.len() > 0 {
                    assert(listed.push(pending).update(listed.len() as int, pending.push(c))
                        =~= listed.push(pending.push(c)));
                } else {
                    assert(pending.push(c) =~= seq![c]);
                }
            }
        } else {
            proof {
                if pending.len() > 0 {
                    assert(listed.push(pending).update(listed.len() as int, pending.push(c))
                        =~= listed.push(current@));
                } else {
                    assert(current@ =~= seq![c]);
                }
            }
        }
        i += 1;
    }
    assert(chars@.take(i as int) =~= chars@);
    if !current.as_str().is_empty() {
        let ghost listed = texts(lines@);
        lines.push(current);
        assert(texts(lines@) =~= listed.push(current@));
    }
    lines
}

// ---------------------------------------------------------------------------
// Which lines are printed
// ---------------------------------------------------------------------------

/// Whether line `i` is printed: it matches, or a line that matches stands
/// at most `context` lines before it.
pub open spec fn selected(matched: Seq<bool>, context: nat, i: int) -> bool {
    exists|m: int| 0 <= m <= i && m < matched.len() && #[trigger] matched[m] && i - m <= context
}

/// Whether a separator stands before line `i`, which is printed: some
/// line before it is printed, and the line just before it is not.
pub open spec fn after_gap(matched: Seq<bool>, context: nat, i: int) -> bool {
    &&& context > 0
    &&& i > 0
    &&& !selected(matched, context, i - 1)
    &&& exists|j: int| 0 <= j < i && #[trigger] selected(matched, context, j)
}

/// The separator between groups of printed lines.
pub open spec fn separator() -> Seq<char> {
    seq!['-', '-', '\n']
}

/// What is printed for the first `n` lines: each printed line after
/// `prefix`, and a separator wherever lines were passed over between two
/// printed lines, if context was asked for.
pub open spec fn printed(
    lines: Seq<Seq<char>>,
    matched: Seq<bool>,
    context: nat,
    prefix: Seq<char>,
    n: int,
) -> Seq<char>
    decreases n,
{
    if n <= 0 {
        Seq::empty()
    } else {
        let before = printed(lines, matched, context, prefix, n - 1);
        if !selected(matched, context, n - 1) {
            before
        } else if after_gap(matched, context, n - 1) {
            before + separator() + prefix + lines[n - 1]
        } else {
            before + prefix + lines[n - 1]
        }
    }
}

/// What `grep` prints for one source, given which of its lines match.
pub open spec fn grep_text(
    lines: Seq<Seq<char>>,
    matched: Seq<bool>,
    context: nat,
    prefix: Seq<char>,
) -> Seq<char> {
    printed(lines, matched, context, prefix, lines.len() as int)
}

/// Builds what `grep` prints for one source: `matched` tells for each line
/// whether it matches; a line of which it does not tell does not match.
pub fn select_lines(lines: &Vec<String>, matched: &Vec<bool>, after_context: usize, prefix: &str)
    -> (out: String)
    ensures
        out@ == grep_text(texts(lines@), matched@, after_context as nat, prefix@),
{
    let mut out = String::new();
    // The last line that matched, and the last line that was printed.
    let mut last_match: Option<usize> = None;
    let mut last_printed: Option<usize> = None;
    let mut i: usize = 0;
    while i < lines.len()
        invariant
            i <= lines@.len(),
            out@ == printed(texts(lines@), matched@, after_context as nat, prefix@, i as int),
            match last_match {
                Some(m) => m < i && m < matched@.len() && matched@[m as int] && forall|j: int|
                    m < j < i && j < matched@.len() ==> !matched@[j],
                None => forall|j: int| 0 <= j < i && j < matched@.len() ==> !matched@[j],
            },
            match last_printed {
                Some(p) => p < i && selected(matched@, after_context as nat, p as int)
                    && forall|j: int|
                    p < j < i ==> !selected(matched@, after_context as nat, j),
                None => forall|j: int| 0 <= j < i ==> !selected(matched@, after_context as nat, j),
            },
        decreases lines@.len() - i,
    {
        if i < matched.len() && matched[i] {
            last_match = Some(i);
        }
        let chosen = match last_match {
            Some(m) => i - m <= after_context,
            None => false,
        };
        proof {
            assert(chosen == selected(matched@, after_context as nat, i as int)) by {
                if chosen {
                    assert(matched@[last_match->0 as int]);
                }
            }
            assert(texts(lines@)[i as int] == lines@[i as int]@);
        }
        if chosen {
            let gap = match last_printed {
                Some(p) => after_context > 0 && i - p > 1,
                None => false,
            };
            proof {
                assert(gap == after_gap(matched@, after_context as nat, i as int)) by {
                    if let Some(p) = last_printed {
                        assert(selected(matched@, after_context as nat, p as int));
                    }
                }
            }
            if gap {
                out.append("--\n");
                proof {
                    reveal_strlit("--\n");
                    assert("--\n"@ =~= separator());
                }
            }
            out.append(prefix);
            out.append(lines[i].as_str());
            last_printed = Some(i);
        }
        i += 1;
    }
    out
}

/// For each line, whether the pattern matches somewhere in it.
pub open spec fn matched_of(pattern: Seq<char>, ignore_case: bool, lines: Seq<Seq<char>>) -> Seq<
    bool,
> {
    lines.map_values(|line: Seq<char>| regex_matches(pattern, ignore_case, line))
}

/// Asks of each line whether the pattern matches in it.
fn match_lines(pattern: &str, ignore_case: bool, lines: &Vec<String>) -> (matched: Vec<bool>)
    requires
        regex_compiles(pattern@, ignore_case),
    ensures
        matched@ == matched_of(pattern@, ignore_case, texts(lines@)),
{
    let mut matched: Vec<bool> = Vec::new();
    let mut i: usize = 0;
    while i < lines.len()
        invariant
            i <= lines@.len(),
            matched@.len() == i,
            regex_compiles(pattern@, ignore_case),
            forall|j: int|
                0 <= j < i ==> matched@[j] == regex_matches(pattern@, ignore_case, lines@[j]@),
        decreases lines@.len() - i,
    {
        let found = match regex_answer(pattern, ignore_case, lines[i].as_str()) {
            Some(found) => found,
            None => vstd::pervasive::unreached(),
        };
        matched.push(found);
        i += 1;
    }
    assert(matched@ =~= matched_of(pattern@, ignore_case, texts(lines@)));
    matched
}

/// `name:`, what stands before each line of a file, or nothing for the
/// input.
pub open spec fn prefix_of(file_name: Option<Seq<char>>) -> Seq<char> {
    match file_name {
        Some(name) => name.push(':'),
        None => Seq::empty(),
    }
}

/// What stands before each line of the source of this name.
pub open spec fn source_prefix(file_name: Option<&str>) -> Seq<char> {
    match file_name {
        Some(name) => prefix_of(Some(name@)),
        None => prefix_of(None),
    }
}

/// The expression that is compiled: the pattern itself, or the pattern
/// between word boundaries where whole words are asked for.
pub open spec fn effective_pattern(pattern: Seq<char>, word_regexp: bool) -> Seq<char> {
    if word_regexp {
        seq!['\\', 'b', '('] + pattern + seq![')', '\\', 'b']
    } else {
        pattern
    }
}

/// The text of the failure for a pattern that does not compile.
pub open spec fn invalid_pattern(pattern: Seq<char>) -> Seq<char> {
    "Invalid regex pattern: "@ + pattern
}

/// The text of the failure for a source that is no UTF-8.
pub open spec fn read_error() -> Seq<char> {
    "read error: stream did not contain valid UTF-8"@
}

/// Whether a file can be searched: it was read, and it is UTF-8.
pub open spec fn searchable(file: FileView) -> bool {
    file.content matches Ok(bytes) && valid_utf8(bytes)
}

/// What is printed for one source: the lines of the text in which the
/// pattern matches, each with the lines of context after it, and each
/// after `prefix`.
pub open spec fn source_text(
    pattern: Seq<char>,
    ignore_case: bool,
    context: nat,
    text: Seq<char>,
    prefix: Seq<char>,
) -> Seq<char> {
    grep_text(
        lines_of(text),
        matched_of(pattern, ignore_case, lines_of(text)),
        context,
        prefix,
    )
}

/// `grep: file: reason` and a newline: the line that reports a file that
/// could not be searched.
pub open spec fn failure_text(file: Seq<char>, reason: Seq<char>) -> Seq<char> {
    file_failure("grep"@, file, reason).push('\n')
}

/// What is written for one file: the lines found in it, each after the
/// name of the file, or the line that says why it could not be searched.
pub open spec fn file_text(
    pattern: Seq<char>,
    ignore_case: bool,
    context: nat,
    file: FileView,
) -> Seq<char> {
    match file.content {
        Ok(bytes) => if valid_utf8(bytes) {
            source_text(
                pattern,
                ignore_case,
                context,
                decode_utf8(bytes),
                prefix_of(Some(file.name)),
            )
        } else {
            failure_text(file.name, read_error())
        },
        Err(reason) => failure_text(file.name, reason),
    }
}

/// What is written for the files, one after the other.
pub open spec fn files_output(
    pattern: Seq<char>,
    ignore_case: bool,
    context: nat,
    files: Seq<FileView>,
) -> Seq<u8>
    decreases files.len(),
{
    if files.len() == 0 {
        Seq::empty()
    } else {
        files_output(pattern, ignore_case, context, files.drop_last()) + encode_utf8(
            file_text(pattern, ignore_case, context, files.last()),
        )
    }
}

/// Whether every file can be searched.
pub open spec fn all_searchable(files: Seq<FileView>) -> bool {
    forall|i: int| 0 <= i < files.len() ==> searchable(#[trigger] files[i])
}

impl Grep {
    /// What is printed for one source: the lines in which the pattern
    /// matches, and their context.
    fn process_source(&self, text: &str, file_name: Option<&str>, pattern: &str) -> (out: String)
        requires
            regex_compiles(pattern@, self.ignore_case),
        ensures
            out@ == source_text(
                pattern@,
                self.ignore_case,
                self.after_context as nat,
                text@,
                source_prefix(file_name),
            ),
    {
        let lines = split_lines(text);
        let matched = match_lines(pattern, self.ignore_case, &lines);
        let prefix = match file_name {
            Some(name) => {
                let mut prefix = name.to_owned();
                push_char(&mut prefix, ':');
                prefix
            },
            None => String::new(),
        };
        select_lines(&lines, &matched, self.after_context, prefix.as_str())
    }

    /// The expression that is compiled.
    fn full_pattern(&self) -> (pattern: String)
        ensures
            pattern@ == effective_pattern(self.pattern@, self.word_regexp),
    {
        if self.word_regexp {
            let mut pattern = String::new();
            push_char(&mut pattern, '\\');
            push_char(&mut pattern, 'b');
            push_char(&mut pattern, '(');
            assert(pattern@ =~= seq!['\\', 'b', '(']);
            pattern.append(self.pattern.as_str());
            push_char(&mut pattern, ')');
            push_char(&mut pattern, '\\');
            push_char(&mut pattern, 'b');
            assert(pattern@ =~= seq!['\\', 'b', '('] + self.pattern@ + seq![')', '\\', 'b']);
            pattern
        } else {
            self.pattern.clone()
        }
    }
}

impl BuiltinCommand for Grep {
    fn name() -> (name: &'static str)
        ensures
            name@ == "grep"@,
    {
        "grep"
    }

    /// The environment stays.
    /// - Where the pattern does not compile, the run fails with the text
    ///   that says so, and has read and written nothing.
    /// - Without files, the input is read to its end. The lines of it in
    ///   which the pattern matches are written with their context, and the
    ///   exit code is 0; or the input is no UTF-8, and the run fails having
    ///   written nothing.
    /// - With files, what is found in each is written in order, or the line
    ///   that says why it could not be searched; the exit code is 1 if a
    ///   file could not be searched, 0 if not.
    open spec fn runs(&self, before: Streams, outcome: Outcome, after: Streams) -> bool {
        let pattern = effective_pattern(self.pattern@, self.word_regexp);
        let context = self.after_context as nat;
        &&& after.env == before.env
        &&& if !regex_compiles(pattern, self.ignore_case) {
            &&& outcome == Err::<ExitCode, Seq<char>>(invalid_pattern(pattern))
            &&& after.stdout == before.stdout
            &&& after.stdin == before.stdin
        } else if self.files@.len() == 0 {
            &&& after.stdin == Seq::<u8>::empty()
            &&& if valid_utf8(before.stdin) {
                &&& outcome == Ok::<ExitCode, Seq<char>>(0)
                &&& after.stdout == before.stdout + encode_utf8(
                    source_text(
                        pattern,
                        self.ignore_case,
                        context,
                        decode_utf8(before.stdin),
                        Seq::empty(),
                    ),
                )
            } else {
                &&& outcome == Err::<ExitCode, Seq<char>>(read_error())
                &&& after.stdout == before.stdout
            }
        } else {
            &&& after.stdin == before.stdin
            &&& after.stdout == before.stdout + files_output(
                pattern,
                self.ignore_case,
                context,
                self.files.deep_view(),
            )
            &&& outcome == Ok::<ExitCode, Seq<char>>(
                if all_searchable(self.files.deep_view()) {
                    0i32
                } else {
                    1i32
                },
            )
        }
    }

    /// Searches the input, or each file in order: see [`Grep::runs`].
    fn execute(self, stdin: &mut MemReader, stdout: &mut MemWriter, env: &mut Environment) -> (r:
        Result<ExitCode, String>)
    {
        let pattern = self.full_pattern();
        if regex_answer(pattern.as_str(), self.ignore_case, "").is_none() {
            let mut text = "Invalid regex pattern: ".to_owned();
            text.append(pattern.as_str());
            return Err(text);
        }
        if self.files.len() == 0 {
            let data = stdin.read_to_end();
            return match str_from_utf8(data.as_slice()) {
                Some(text) => {
                    let out = self.process_source(text, None, pattern.as_str());
                    stdout.write_str(out.as_str());
                    Ok(0)
                },
                None => Err("read error: stream did not contain valid UTF-8".to_owned()),
            };
        }
        let ghost files = self.files.deep_view();
        let mut final_exit_code: ExitCode = 0;
        let mut i: usize = 0;
        assert(files.take(0) =~= Seq::<FileView>::empty());
        assert(stdout@ + Seq::<u8>::empty() =~= stdout@);
        while i < self.files.len()
            invariant
                i <= self.files@.len(),
                files == self.files.deep_view(),
                pattern@ == effective_pattern(self.pattern@, self.word_regexp),
                regex_compiles(pattern@, self.ignore_case),
                env@ == old(env)@,
                stdin@ == old(stdin)@,
                stdout@ == old(stdout)@ + files_output(
                    pattern@,
                    self.ignore_case,
                    self.after_context as nat,
                    files.take(i as int),
                ),
                final_exit_code == if all_searchable(files.take(i as int)) {
                    0i32
                } else {
                    1i32
                },
            decreases self.files@.len() - i,
        {
            let file = &self.files[i];
            let ghost written = stdout@;
            proof {
                assert(files.take(i + 1).drop_last() =~= files.take(i as int));
                assert(files.take(i + 1).last() == file.deep_view());
            }
            let report = match &file.content {
                Ok(bytes) => match str_from_utf8(bytes.as_slice()) {
                    Some(text) => Ok(
                        self.process_source(text, Some(file.name.as_str()), pattern.as_str()),
                    ),
                    None => Err("read error: stream did not contain valid UTF-8".to_owned()),
                },
                Err(reason) => Err(reason.clone()),
            };
            let good = report.is_ok();
            let piece = match report {
                Ok(out) => out,
                Err(reason) => failure_line(file.name.as_str(), reason.as_str()),
            };
            stdout.write_str(piece.as_str());
            if !good {
                final_exit_code = 1;
            }
            proof {
                let before = files.take(i as int);
                let now = files.take(i + 1);
                assert(piece@ == file_text(
                    pattern@,
                    self.ignore_case,
                    self.after_context as nat,
                    file.deep_view(),
                ));
                assert(good == searchable(file.deep_view()));
                assert(stdout@ =~= old(stdout)@ + files_output(
                    pattern@,
                    self.ignore_case,
                    self.after_context as nat,
                    now,
                ));
                assert(all_searchable(now) == (all_searchable(before) && good)) by {
                    if all_searchable(before) && good {
                        assert forall|j: int| 0 <= j < now.len() implies searchable(
                            #[trigger] now[j],
                        ) by {
                            if j < i {
                                assert(now[j] == before[j]);
                            }
                        }
                    }
                    if all_searchable(now) {
                        assert(searchable(now[i as int]));
                        assert forall|j: int| 0 <= j < before.len() implies searchable(
                            #[trigger] before[j],
                        ) by {
                            assert(before[j] == now[j]);
                        }
                    }
                }
            }
            i += 1;
        }
        assert(files.take(i as int) =~= files);
        Ok(final_exit_code)
    }
}

/// `grep: file: reason` and a newline: the line that reports a file that
/// could not be searched.
fn failure_line(file: &str, reason: &str) -> (line: String)
    ensures
        line@ == failure_text(file@, reason@),
{
    let mut line = "grep".to_owned();
    push_char(&mut line, ':');
    push_char(&mut line, ' ');
    line.append(file);
    push_char(&mut line, ':');
    push_char(&mut line, ' ');
    line.append(reason);
    push_char(&mut line, '\n');
    assert(line@ =~= file_failure("grep"@, file@, reason@).push('\n'));
    line
}

} // verus!
