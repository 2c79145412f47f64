//! The command line of `wrappy`: subcommands, their options and operands.
use vstd::prelude::*;
use crate::args::{decode_all, decode_args, extend_raw, raw_view, utf8_lossy};
use crate::decimal::{parse_usize, parse_usize_spec};
use crate::text::{
    concat2, concat3, copy_string, extend_words, is_option_like, is_option_like_string, same_text,
};

verus! {

/// How `wrappy complete` prints its result.
#[derive(Debug, Clone, Copy, PartialEq, Eq, Structural)]
pub enum CompletionFormat {
    Json,
    Zsh,
}

/// How `wrappy rewrite` prints its result.
#[derive(Debug, Clone, Copy, PartialEq, Eq, Structural)]
pub enum RewriteFormat {
    Json,
    Zsh,
}

/// The options of `wrappy complete`.
#[derive(Debug, Clone, Copy)]
pub struct CompleteOptions {
    pub format: CompletionFormat,
    pub current: Option<usize>,
}

/// The options of `wrappy rewrite`.
#[derive(Debug, Clone, Copy)]
pub struct RewriteOptions {
    pub format: RewriteFormat,
}

/// `json` or `zsh` as a completion format.
pub open spec fn completion_format_spec(value: Seq<char>) -> Result<CompletionFormat, Seq<char>> {
    if value == "json"@ {
        Ok(CompletionFormat::Json)
    } else if value == "zsh"@ {
        Ok(CompletionFormat::Zsh)
    } else {
        Err("unsupported completion format `"@ + value + "`; expected `json` or `zsh`"@)
    }
}

/// `json` or `zsh` as a rewrite format.
pub open spec fn rewrite_format_spec(value: Seq<char>) -> Result<RewriteFormat, Seq<char>> {
    if value == "json"@ {
        Ok(RewriteFormat::Json)
    } else if value == "zsh"@ {
        Ok(RewriteFormat::Zsh)
    } else {
        Err("unsupported rewrite format `"@ + value + "`; expected `json` or `zsh`"@)
    }
}

/// A cursor position: a `usize` in decimal.
pub open spec fn completion_current_spec(value: Seq<char>) -> Result<usize, Seq<char>> {
    match parse_usize_spec(value) {
        Ok(n) => Ok(n as usize),
        Err(kind) => Err(
            "invalid completion position `"@ + value + "`: "@ + kind.spec_message(),
        ),
    }
}

/// Reads a completion format.
pub fn parse_completion_format(value: &str) -> (res: Result<CompletionFormat, String>)
    ensures
        match (res, completion_format_spec(value@)) {
            (Ok(f), Ok(g)) => f == g,
            (Err(m), Err(e)) => m@ == e,
            _ => false,
        },
{
    if same_text(value, "json") {
        Ok(CompletionFormat::Json)
    } else if same_text(value, "zsh") {
        Ok(CompletionFormat::Zsh)
    } else {
        Err(concat3("unsupported completion format `", value, "`; expected `json` or `zsh`"))
    }
}

/// Reads a rewrite format.
pub fn parse_rewrite_format(value: &str) -> (res: Result<RewriteFormat, String>)
    ensures
        match (res, rewrite_format_spec(value@)) {
            (Ok(f), Ok(g)) => f == g,
            (Err(m), Err(e)) => m@ == e,
            _ => false,
        },
{
    if same_text(value, "json") {
        Ok(RewriteFormat::Json)
    } else if same_text(value, "zsh") {
        Ok(RewriteFormat::Zsh)
    } else {
        Err(concat3("unsupported rewrite format `", value, "`; expected `json` or `zsh`"))
    }
}

/// Reads a cursor position.
pub fn parse_completion_current(value: &str) -> (res: Result<usize, String>)
    ensures
        match (res, completion_current_spec(value@)) {
            (Ok(n), Ok(m)) => n == m,
            (Err(m), Err(e)) => m@ == e,
            _ => false,
        },
{
    match parse_usize(value) {
        Ok(n) => Ok(n),
        Err(kind) => {
            let mut msg = concat3("invalid completion position `", value, "`: ");
            let detail = kind.message();
            msg.append(detail.as_str());
            Err(msg)
        },
    }
}

/// The options of `wrappy complete` read from `w[i..]`, with the format and
/// cursor read so far, up to the index of the wrapped command. Options end
/// at `--` (which is skipped) or at the first word that is not an option.
pub open spec fn scan_complete(
    w: Seq<Seq<char>>,
    i: int,
    format: CompletionFormat,
    current: Option<usize>,
) -> Result<(CompletionFormat, Option<usize>, int), Seq<char>>
    decreases w.len() - i,
{
    if i >= w.len() {
        Ok((format, current, i))
    } else if w[i] == "--"@ {
        Ok((format, current, i + 1))
    } else if w[i] == "--format"@ {
        if i + 1 >= w.len() {
            Err("missing value for `wrappy complete --format`"@)
        } else {
            match completion_format_spec(w[i + 1]) {
                Ok(f) => scan_complete(w, i + 2, f, current),
                Err(e) => Err(e),
            }
        }
    } else if w[i] == "--current"@ {
        if i + 1 >= w.len() {
            Err("missing value for `wrappy complete --current`"@)
        } else {
            match completion_current_spec(w[i + 1]) {
                Ok(n) => scan_complete(w, i + 2, format, Some(n)),
                Err(e) => Err(e),
            }
        }
    } else if is_option_like(w[i]) {
        Err("unknown option for `complete`: "@ + w[i])
    } else {
        Ok((format, current, i))
    }
}

/// The wrapped command and its words after the options of `wrappy complete`.
pub open spec fn finish_complete(
    w: Seq<Seq<char>>,
    scanned: Result<(CompletionFormat, Option<usize>, int), Seq<char>>,
) -> Result<(CompletionFormat, Option<usize>, Seq<char>, Seq<Seq<char>>), Seq<char>> {
    match scanned {
        Err(e) => Err(e),
        Ok((f, c, i)) => if 0 <= i < w.len() {
            Ok((f, c, w[i], w.skip(i + 1)))
        } else {
            Err("missing wrapped command for `complete`"@)
        },
    }
}

/// The operands of `wrappy complete`: format, cursor, command, words.
pub open spec fn complete_words_spec(w: Seq<Seq<char>>) -> Result<
    (CompletionFormat, Option<usize>, Seq<char>, Seq<Seq<char>>),
    Seq<char>,
> {
    finish_complete(w, scan_complete(w, 0, CompletionFormat::Json, None))
}

/// `res` is what `expected` describes.
pub open spec fn describes_complete(
    res: Result<(CompleteOptions, String, Vec<String>), String>,
    expected: Result<(CompletionFormat, Option<usize>, Seq<char>, Seq<Seq<char>>), Seq<char>>,
) -> bool {
    match (res, expected) {
        (Ok((options, command, words)), Ok((f, c, name, rest))) => {
            &&& options.format == f
            &&& options.current == c
            &&& command@ == name
            &&& words.deep_view() == rest
        },
        (Err(m), Err(e)) => m@ == e,
        _ => false,
    }
}

fn finish_complete_words(
    words: &Vec<String>,
    format: CompletionFormat,
    current: Option<usize>,
    index: usize,
) -> (res: Result<(CompleteOptions, String, Vec<String>), String>)
    requires
        index <= words.len(),
    ensures
        describes_complete(
            res,
            finish_complete(words.deep_view(), Ok((format, current, index as int))),
        ),
{
    if index >= words.len() {
        return Err(String::from_str("missing wrapped command for `complete`"));
    }
    let command_name = copy_string(&words[index]);
    let mut rest: Vec<String> = Vec::new();
    extend_words(&mut rest, words, index + 1);
    proof {
        assert(rest.deep_view() =~= words.deep_view().skip(index + 1));
    }
    Ok((CompleteOptions { format, current }, command_name, rest))
}

/// Reads the operands of `wrappy complete`.
pub fn parse_complete_words(words: &Vec<String>) -> (res: Result<
    (CompleteOptions, String, Vec<String>),
    String,
>)
    ensures
        describes_complete(res, complete_words_spec(words.deep_view())),
{
    let ghost w = words.deep_view();
    let mut format = CompletionFormat::Json;
    let mut current: Option<usize> = None;
    let mut index: usize = 0;
    loop
        invariant
            w == words.deep_view(),
            index <= words.len(),
            complete_words_spec(w) == finish_complete(w, scan_complete(w, index as int, format, current)),
        decreases words.len() - index,
    {
        if index >= words.len() {
            return finish_complete_words(words, format, current, index);
        }
        let value = words[index].as_str();
        if same_text(value, "--") {
            return finish_complete_words(words, format, current, index + 1);
        }
        if same_text(value, "--format") {
            if index + 1 >= words.len() {
                return Err(String::from_str("missing value for `wrappy complete --format`"));
            }
            match parse_completion_format(words[index + 1].as_str()) {
                Ok(f) => {
                    format = f;
                },
                Err(e) => {
                    return Err(e);
                },
            }
            index = index + 2;
            continue ;
        }
        if same_text(value, "--current") {
            if index + 1 >= words.len() {
                return Err(String::from_str("missing value for `wrappy complete --current`"));
            }
            match parse_completion_current(words[index + 1].as_str()) {
                Ok(n) => {
                    current = Some(n);
                },
                Err(e) => {
                    return Err(e);
                },
            }
            index = index + 2;
            continue ;
        }
        if is_option_like_string(value) {
            return Err(concat2("unknown option for `complete`: ", value));
        }
        return finish_complete_words(words, format, current, index);
    }
}

/// The operands of `wrappy complete` given as raw arguments: each is
/// decoded lossily and then read.
pub fn parse_complete_args(args: &Vec<Vec<u8>>) -> (res: Result<
    (CompleteOptions, String, Vec<String>),
    String,
>)
    ensures
        describes_complete(res, complete_words_spec(decode_all(raw_view(args@)))),
{
    let words = decode_args(args);
    parse_complete_words(&words)
}

/// The options of `wrappy rewrite` read from `w[i..]`, up to the index of
/// the wrapped command.
pub open spec fn scan_rewrite(w: Seq<Seq<char>>, i: int, format: RewriteFormat) -> Result<
    (RewriteFormat, int),
    Seq<char>,
>
    decreases w.len() - i,
{
    if i >= w.len() {
        Ok((format, i))
    } else if w[i] == "--"@ {
        Ok((format, i + 1))
    } else if w[i] == "--format"@ {
        if i + 1 >= w.len() {
            Err("missing value for `wrappy rewrite --format`"@)
        } else {
            match rewrite_format_spec(w[i + 1]) {
                Ok(f) => scan_rewrite(w, i + 2, f),
                Err(e) => Err(e),
            }
        }
    } else if is_option_like(w[i]) {
        Err("unknown option for `rewrite`: "@ + w[i])
    } else {
        Ok((format, i))
    }
}

/// The format of `wrappy rewrite` and the index of the wrapped command.
pub open spec fn rewrite_words_spec(w: Seq<Seq<char>>) -> Result<(RewriteFormat, int), Seq<char>> {
    match scan_rewrite(w, 0, RewriteFormat::Json) {
        Err(e) => Err(e),
        Ok((f, i)) => if 0 <= i < w.len() {
            Ok((f, i))
        } else {
            Err("missing wrapped command for `rewrite`"@)
        },
    }
}

/// Reads the options of `wrappy rewrite`; returns them with the index of
/// the wrapped command.
pub fn parse_rewrite_words(words: &Vec<String>) -> (res: Result<(RewriteOptions, usize), String>)
    ensures
        match (res, rewrite_words_spec(words.deep_view())) {
            (Ok((options, index)), Ok((f, i))) => options.format == f && index == i,
            (Err(m), Err(e)) => m@ == e,
            _ => false,
        },
{
    let ghost w = words.deep_view();
    let mut format = RewriteFormat::Json;
    let mut index: usize = 0;
    loop
        invariant
            w == words.deep_view(),
            index <= words.len(),
            rewrite_words_spec(w) == match scan_rewrite(w, index as int, format) {
                Err(e) => Err(e),
                Ok((f, i)) => if 0 <= i < w.len() {
                    Ok((f, i))
                } else {
                    Err("missing wrapped command for `rewrite`"@)
                },
            },
        decreases words.len() - index,
    {
        if index < words.len() {
            let value = words[index].as_str();
            if same_text(value, "--") {
                index = index + 1;
                if index < words.len() {
                    return Ok((RewriteOptions { format }, index));
                }
                return Err(String::from_str("missing wrapped command for `rewrite`"));
            }
            if same_text(value, "--format") {
                if index + 1 >= words.len() {
                    return Err(String::from_str("missing value for `wrappy rewrite --format`"));
                }
                match parse_rewrite_format(words[index + 1].as_str()) {
                    Ok(f) => {
                        format = f;
                    },
                    Err(e) => {
                        return Err(e);
                    },
                }
                index = index + 2;
                continue ;
            }
            if is_option_like_string(value) {
                return Err(concat2("unknown option for `rewrite`: ", value));
            }
            return Ok((RewriteOptions { format }, index));
        }
        return Err(String::from_str("missing wrapped command for `rewrite`"));
    }
}

/// The operands of `wrappy rewrite` given as raw arguments: options and
/// the command name are read from the lossy decoding; the arguments after
/// the command are kept byte for byte.
pub open spec fn rewrite_args_spec(raw: Seq<Seq<u8>>) -> Result<
    (RewriteFormat, Seq<char>, Seq<Seq<u8>>),
    Seq<char>,
> {
    match rewrite_words_spec(decode_all(raw)) {
        Err(e) => Err(e),
        Ok((f, i)) => Ok((f, utf8_lossy(raw[i]), raw.skip(i + 1))),
    }
}

/// `res` is what `expected` describes.
pub open spec fn describes_rewrite(
    res: Result<(RewriteOptions, String, Vec<Vec<u8>>), String>,
    expected: Result<(RewriteFormat, Seq<char>, Seq<Seq<u8>>), Seq<char>>,
) -> bool {
    match (res, expected) {
        (Ok((options, command, args)), Ok((f, name, rest))) => {
            &&& options.format == f
            &&& command@ == name
            &&& raw_view(args@) == rest
        },
        (Err(m), Err(e)) => m@ == e,
        _ => false,
    }
}

/// Reads the operands of `wrappy rewrite`.
pub fn parse_rewrite_args(args: &Vec<Vec<u8>>) -> (res: Result<
    (RewriteOptions, String, Vec<Vec<u8>>),
    String,
>)
    ensures
        describes_rewrite(res, rewrite_args_spec(raw_view(args@))),
{
    let words = decode_args(args);
    proof {
        assert(words.deep_view().len() == words@.len());
    }
    match parse_rewrite_words(&words) {
        Err(e) => Err(e),
        Ok((options, index)) => {
            proof {
                assert(index < words.len());
                assert(words.deep_view()[index as int] == utf8_lossy(raw_view(args@)[index as int]));
            }
            let command_name = copy_string(&words[index]);
            let mut rest: Vec<Vec<u8>> = Vec::new();
            extend_raw(&mut rest, args, index + 1);
            proof {
                assert(raw_view(rest@) =~= raw_view(args@).skip(index + 1));
            }
            Ok((options, command_name, rest))
        },
    }
}

/// A `wrappy` command line, read.
pub enum InvocationSpec {
    Help,
    Version,
    Exec { command_name: Seq<char>, args: Seq<Seq<u8>> },
    InitZsh,
    Rewrite { rewrite_format: RewriteFormat, command_name: Seq<char>, args: Seq<Seq<u8>> },
    Complete {
        completion_format: CompletionFormat,
        current: Option<usize>,
        command_name: Seq<char>,
        words: Seq<Seq<char>>,
    },
}

/// What the arguments after the program name ask for; `words` are their
/// lossy decodings and `raw` the arguments themselves.
pub open spec fn invocation_spec(words: Seq<Seq<char>>, raw: Seq<Seq<u8>>) -> Result<
    InvocationSpec,
    Seq<char>,
> {
    if words.len() == 0 {
        Ok(InvocationSpec::Help)
    } else if words[0] == "exec"@ {
        if words.len() < 2 {
            Err("missing wrapped command for `exec`"@)
        } else if words[1].len() == 0 {
            Err("wrapped command name cannot be empty"@)
        } else {
            Ok(InvocationSpec::Exec { command_name: words[1], args: raw.skip(2) })
        }
    } else if words[0] == "init"@ {
        if words.len() < 2 {
            Err("missing shell name for `init`"@)
        } else if words[1] != "zsh"@ {
            Err("unsupported shell `"@ + words[1] + "`; only `zsh` is available in v0"@)
        } else {
            Ok(InvocationSpec::InitZsh)
        }
    } else if words[0] == "rewrite"@ {
        match rewrite_words_spec(words.skip(1)) {
            Err(e) => Err(e),
            Ok((f, i)) => Ok(
                InvocationSpec::Rewrite {
                    rewrite_format: f,
                    command_name: words[i + 1],
                    args: raw.skip(i + 2),
                },
            ),
        }
    } else if words[0] == "complete"@ {
        match complete_words_spec(words.skip(1)) {
            Err(e) => Err(e),
            Ok((f, c, name, rest)) => Ok(
                InvocationSpec::Complete {
                    completion_format: f,
                    current: c,
                    command_name: name,
                    words: rest,
                },
            ),
        }
    } else if words[0] == "help"@ || words[0] == "--help"@ || words[0] == "-h"@ {
        Ok(InvocationSpec::Help)
    } else if words[0] == "version"@ || words[0] == "--version"@ || words[0] == "-V"@ {
        Ok(InvocationSpec::Version)
    } else {
        Err("unknown subcommand `"@ + words[0] + "`"@)
    }
}

/// `help`, `--help` and `-h` ask for the usage text; `version`, `--version`
/// and `-V` for the version; whatever follows them is ignored.
pub proof fn lemma_help_and_version_words(words: Seq<Seq<char>>, raw: Seq<Seq<u8>>)
    requires
        words.len() >= 1,
    ensures
        words[0] == "help"@ ==> invocation_spec(words, raw) == Ok::<InvocationSpec, Seq<char>>(
            InvocationSpec::Help,
        ),
        words[0] == "--help"@ ==> invocation_spec(words, raw) == Ok::<InvocationSpec, Seq<char>>(
            InvocationSpec::Help,
        ),
        words[0] == "-h"@ ==> invocation_spec(words, raw) == Ok::<InvocationSpec, Seq<char>>(
            InvocationSpec::Help,
        ),
        words[0] == "version"@ ==> invocation_spec(words, raw) == Ok::<InvocationSpec, Seq<char>>(
            InvocationSpec::Version,
        ),
        words[0] == "--version"@ ==> invocation_spec(words, raw) == Ok::<
            InvocationSpec,
            Seq<char>,
        >(InvocationSpec::Version),
        words[0] == "-V"@ ==> invocation_spec(words, raw) == Ok::<InvocationSpec, Seq<char>>(
            InvocationSpec::Version,
        ),
{
    reveal_strlit("help");
    reveal_strlit("--help");
    reveal_strlit("-h");
    reveal_strlit("version");
    reveal_strlit("--version");
    reveal_strlit("-V");
    reveal_strlit("exec");
    reveal_strlit("init");
    reveal_strlit("rewrite");
    reveal_strlit("complete");
    assert("help"@[0] != "exec"@[0] && "help"@[0] != "init"@[0]);
    assert("help"@.len() != "rewrite"@.len() && "help"@.len() != "complete"@.len());
    assert("--help"@.len() != "exec"@.len() && "--help"@.len() != "rewrite"@.len());
    assert("--help"@.len() != "complete"@.len());
    assert("version"@[0] != "rewrite"@[0] && "version"@.len() != "exec"@.len());
    assert("version"@.len() != "complete"@.len() && "version"@[0] != "help"@[0]);
    assert("--version"@.len() != "rewrite"@.len() && "--version"@.len() != "complete"@.len());
    assert("--version"@.len() != "exec"@.len() && "--version"@.len() != "--help"@.len());
    assert("version"@.len() != "--help"@.len() && "version"@.len() != "help"@.len());
    assert("-V"@[1] != "-h"@[1]);
}

/// `exec` takes the next word as the command name (which must not be
/// empty) and every argument after it, byte for byte; `init zsh` asks for
/// the init script and `init` with another shell is refused.
pub proof fn lemma_exec_and_init_words(words: Seq<Seq<char>>, raw: Seq<Seq<u8>>)
    requires
        words.len() >= 2,
    ensures
        words[0] == "exec"@ && words[1].len() > 0 ==> invocation_spec(words, raw) == Ok::<
            InvocationSpec,
            Seq<char>,
        >(InvocationSpec::Exec { command_name: words[1], args: raw.skip(2) }),
        words[0] == "exec"@ && words[1].len() == 0 ==> invocation_spec(words, raw) == Err::<
            InvocationSpec,
            Seq<char>,
        >("wrapped command name cannot be empty"@),
        words[0] == "init"@ && words[1] == "zsh"@ ==> invocation_spec(words, raw) == Ok::<
            InvocationSpec,
            Seq<char>,
        >(InvocationSpec::InitZsh),
        words[0] == "init"@ && words[1] != "zsh"@ ==> invocation_spec(words, raw) is Err,
{
    reveal_strlit("exec");
    reveal_strlit("init");
    assert("exec"@[0] != "init"@[0]);
}

/// Reading `wrappy complete` operands: a first word that is not an option
/// is the command and the rest are its words, with the JSON format and no
/// cursor; `--` ends the options, so the word after it is the command
/// whatever it looks like; `--format zsh` and `--current N` set the format
/// and the cursor for the words after them.
pub proof fn lemma_complete_operands(w: Seq<Seq<char>>, n: usize)
    ensures
        w.len() >= 1 && !is_option_like(w[0]) ==> complete_words_spec(w) == Ok::<
            (CompletionFormat, Option<usize>, Seq<char>, Seq<Seq<char>>),
            Seq<char>,
        >((CompletionFormat::Json, None, w[0], w.skip(1))),
        w.len() >= 2 && w[0] == "--"@ ==> complete_words_spec(w) == Ok::<
            (CompletionFormat, Option<usize>, Seq<char>, Seq<Seq<char>>),
            Seq<char>,
        >((CompletionFormat::Json, None, w[1], w.skip(2))),
        w.len() >= 3 && w[0] == "--format"@ && w[1] == "zsh"@ && !is_option_like(w[2])
            ==> complete_words_spec(w) == Ok::<
            (CompletionFormat, Option<usize>, Seq<char>, Seq<Seq<char>>),
            Seq<char>,
        >((CompletionFormat::Zsh, None, w[2], w.skip(3))),
        w.len() >= 3 && w[0] == "--current"@ && w[1] == crate::decimal::decimal(n as nat)
            && !is_option_like(w[2]) ==> complete_words_spec(w) == Ok::<
            (CompletionFormat, Option<usize>, Seq<char>, Seq<Seq<char>>),
            Seq<char>,
        >((CompletionFormat::Json, Some(n), w[2], w.skip(3))),
        w.len() == 0 ==> complete_words_spec(w) is Err,
{
    reveal_strlit("--");
    reveal_strlit("--format");
    reveal_strlit("--current");
    reveal_strlit("zsh");
    reveal_strlit("json");
    assert("--"@.len() != "--format"@.len() && "--"@.len() != "--current"@.len());
    assert("--format"@[2] != "--current"@[2]);
    assert("zsh"@.len() != "json"@.len());
    if w.len() >= 1 && !is_option_like(w[0]) {
        assert(w[0] != "--"@ && w[0] != "--format"@ && w[0] != "--current"@);
    }
    if w.len() >= 3 && !is_option_like(w[2]) {
        assert(w[2] != "--"@ && w[2] != "--format"@ && w[2] != "--current"@);
        if w[0] == "--format"@ && w[1] == "zsh"@ {
            assert(completion_format_spec(w[1]) == Ok::<CompletionFormat, Seq<char>>(
                CompletionFormat::Zsh,
            ));
            assert(scan_complete(w, 2, CompletionFormat::Zsh, None) == Ok::<
                (CompletionFormat, Option<usize>, int),
                Seq<char>,
            >((CompletionFormat::Zsh, None, 2)));
            assert(scan_complete(w, 0, CompletionFormat::Json, None) == scan_complete(
                w,
                2,
                CompletionFormat::Zsh,
                None,
            ));
        }
        if w[0] == "--current"@ && w[1] == crate::decimal::decimal(n as nat) {
            crate::decimal::lemma_parse_decimal_roundtrip(n);
            assert(completion_current_spec(w[1]) == Ok::<usize, Seq<char>>(n));
            assert(scan_complete(w, 2, CompletionFormat::Json, Some(n)) == Ok::<
                (CompletionFormat, Option<usize>, int),
                Seq<char>,
            >((CompletionFormat::Json, Some(n), 2)));
            assert(scan_complete(w, 0, CompletionFormat::Json, None) == scan_complete(
                w,
                2,
                CompletionFormat::Json,
                Some(n),
            ));
        }
    }
}

/// Reading `wrappy rewrite` operands: a first word that is not an option
/// is the command; `--` ends the options; `--format zsh` sets the format.
pub proof fn lemma_rewrite_operands(w: Seq<Seq<char>>)
    ensures
        w.len() >= 1 && !is_option_like(w[0]) ==> rewrite_words_spec(w) == Ok::<
            (RewriteFormat, int),
            Seq<char>,
        >((RewriteFormat::Json, 0)),
        w.len() >= 2 && w[0] == "--"@ ==> rewrite_words_spec(w) == Ok::<
            (RewriteFormat, int),
            Seq<char>,
        >((RewriteFormat::Json, 1)),
        w.len() >= 3 && w[0] == "--format"@ && w[1] == "zsh"@ && !is_option_like(w[2])
            ==> rewrite_words_spec(w) == Ok::<(RewriteFormat, int), Seq<char>>(
            (RewriteFormat::Zsh, 2),
        ),
        w.len() == 0 ==> rewrite_words_spec(w) is Err,
{
    reveal_strlit("--");
    reveal_strlit("--format");
    reveal_strlit("zsh");
    reveal_strlit("json");
    assert("--"@.len() != "--format"@.len());
    assert("zsh"@.len() != "json"@.len());
    if w.len() >= 1 && !is_option_like(w[0]) {
        assert(w[0] != "--"@ && w[0] != "--format"@);
    }
    if w.len() >= 3 && !is_option_like(w[2]) {
        assert(w[2] != "--"@ && w[2] != "--format"@);
        if w[0] == "--format"@ && w[1] == "zsh"@ {
            assert(rewrite_format_spec(w[1]) == Ok::<RewriteFormat, Seq<char>>(RewriteFormat::Zsh));
            assert(scan_rewrite(w, 2, RewriteFormat::Zsh) == Ok::<(RewriteFormat, int), Seq<char>>(
                (RewriteFormat::Zsh, 2),
            ));
            assert(scan_rewrite(w, 0, RewriteFormat::Json) == scan_rewrite(w, 2, RewriteFormat::Zsh));
        }
    }
}

/// An empty command line asks for the usage text; a first word that is no
/// subcommand is reported as unknown.
pub proof fn lemma_empty_and_unknown_words(words: Seq<Seq<char>>, raw: Seq<Seq<u8>>)
    ensures
        words.len() == 0 ==> invocation_spec(words, raw) == Ok::<InvocationSpec, Seq<char>>(
            InvocationSpec::Help,
        ),
        words.len() >= 1 && words[0] != "exec"@ && words[0] != "init"@ && words[0] != "rewrite"@
            && words[0] != "complete"@ && words[0] != "help"@ && words[0] != "--help"@ && words[0]
            != "-h"@ && words[0] != "version"@ && words[0] != "--version"@ && words[0] != "-V"@
            ==> invocation_spec(words, raw) == Err::<InvocationSpec, Seq<char>>(
            "unknown subcommand `"@ + words[0] + "`"@,
        ),
{
}

/// A `wrappy` command line, read: what to do and with which operands.
#[derive(Debug)]
pub enum Invocation {
    /// Print the usage text.
    Help,
    /// Print the version.
    Version,
    /// Run the wrapped command with its arguments rewritten.
    Exec { command_name: String, args: Vec<Vec<u8>> },
    /// Print the zsh init script.
    InitZsh,
    /// Print the rewritten arguments.
    Rewrite { rewrite_options: RewriteOptions, command_name: String, args: Vec<Vec<u8>> },
    /// Print what completion offers.
    Complete { complete_options: CompleteOptions, command_name: String, words: Vec<String> },
}

/// `res` is what `expected` describes.
pub open spec fn describes_invocation(
    res: Result<Invocation, String>,
    expected: Result<InvocationSpec, Seq<char>>,
) -> bool {
    match (res, expected) {
        (Ok(Invocation::Help), Ok(InvocationSpec::Help)) => true,
        (Ok(Invocation::Version), Ok(InvocationSpec::Version)) => true,
        (Ok(Invocation::InitZsh), Ok(InvocationSpec::InitZsh)) => true,
        (
            Ok(Invocation::Exec { command_name, args }),
            Ok(InvocationSpec::Exec { command_name: name, args: rest }),
        ) => command_name@ == name && raw_view(args@) == rest,
        (
            Ok(Invocation::Rewrite { rewrite_options, command_name, args }),
            Ok(InvocationSpec::Rewrite { rewrite_format, command_name: name, args: rest }),
        ) => rewrite_options.format == rewrite_format && command_name@ == name && raw_view(args@) == rest,
        (
            Ok(Invocation::Complete { complete_options, command_name, words }),
            Ok(
                InvocationSpec::Complete {
                    completion_format,
                    current,
                    command_name: name,
                    words: rest,
                },
            ),
        ) => complete_options.format == completion_format && complete_options.current == current && command_name@ == name
            && words.deep_view() == rest,
        (Err(m), Err(e)) => m@ == e,
        _ => false,
    }
}

/// Reads a `wrappy` command line from the lossy decodings `words` of its
/// arguments `raw` (the program name left out).
pub fn interpret_invocation(words: &Vec<String>, raw: &Vec<Vec<u8>>) -> (res: Result<
    Invocation,
    String,
>)
    requires
        words.len() == raw.len(),
    ensures
        describes_invocation(res, invocation_spec(words.deep_view(), raw_view(raw@))),
{
    if words.len() == 0 {
        return Ok(Invocation::Help);
    }
    let subcommand = words[0].as_str();
    if same_text(subcommand, "exec") {
        if words.len() < 2 {
            return Err(String::from_str("missing wrapped command for `exec`"));
        }
        if words[1].unicode_len() == 0 {
            return Err(String::from_str("wrapped command name cannot be empty"));
        }
        let command_name = copy_string(&words[1]);
        let mut args: Vec<Vec<u8>> = Vec::new();
        extend_raw(&mut args, raw, 2);
        proof {
            assert(raw_view(args@) =~= raw_view(raw@).skip(2));
        }
        return Ok(Invocation::Exec { command_name, args });
    }
    if same_text(subcommand, "init") {
        if words.len() < 2 {
            return Err(String::from_str("missing shell name for `init`"));
        }
        if !same_text(words[1].as_str(), "zsh") {
            return Err(
                concat3("unsupported shell `", words[1].as_str(), "`; only `zsh` is available in v0"),
            );
        }
        return Ok(Invocation::InitZsh);
    }
    if same_text(subcommand, "rewrite") {
        let mut rest: Vec<String> = Vec::new();
        extend_words(&mut rest, words, 1);
        proof {
            assert(rest.deep_view() =~= words.deep_view().skip(1));
            assert(rest.deep_view().len() == rest@.len());
        }
        return match parse_rewrite_words(&rest) {
            Err(e) => Err(e),
            Ok((options, index)) => {
                proof {
                    assert(index < rest.len());
                }
                let command_name = copy_string(&rest[index]);
                let mut args: Vec<Vec<u8>> = Vec::new();
                extend_raw(&mut args, raw, index + 2);
                proof {
                    assert(raw_view(args@) =~= raw_view(raw@).skip(index + 2));
                    assert(rest.deep_view()[index as int] == words.deep_view()[index + 1]);
                }
                Ok(Invocation::Rewrite { rewrite_options: options, command_name, args })
            },
        };
    }
    if same_text(subcommand, "complete") {
        let mut rest: Vec<String> = Vec::new();
        extend_words(&mut rest, words, 1);
        proof {
            assert(rest.deep_view() =~= words.deep_view().skip(1));
        }
        return match parse_complete_words(&rest) {
            Err(e) => Err(e),
            Ok((options, command_name, words)) => Ok(
                Invocation::Complete { complete_options: options, command_name, words },
            ),
        };
    }
    if same_text(subcommand, "help") || same_text(subcommand, "--help") || same_text(
        subcommand,
        "-h",
    ) {
        return Ok(Invocation::Help);
    }
    if same_text(subcommand, "version") || same_text(subcommand, "--version") || same_text(
        subcommand,
        "-V",
    ) {
        return Ok(Invocation::Version);
    }
    Err(concat3("unknown subcommand `", subcommand, "`"))
}

/// Reads a `wrappy` command line from its raw arguments (the program name
/// left out); each argument is decoded lossily where it is read as text.
pub fn parse_invocation(args: &Vec<Vec<u8>>) -> (res: Result<Invocation, String>)
    ensures
        describes_invocation(res, invocation_spec(decode_all(raw_view(args@)), raw_view(args@))),
{
    let words = decode_args(args);
    proof {
        assert(words.deep_view().len() == words@.len());
    }
    interpret_invocation(&words, args)
}

} // verus!
