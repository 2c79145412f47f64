//! The zsh side: the init script and the replies that the shell functions
//! evaluate.
use vstd::prelude::*;
use crate::args::{decode_all, decode_args, raw_view};
use crate::config::CompletionOutput;
use crate::decimal::{decimal, push_decimal};
use crate::text::{
    is_safe_function_name, is_safe_zsh_function_name, join_with_spaces, quote_all, quote_words,
    sanitize_zsh_identifier, sanitized, shell_quote, shell_quoted,
};

verus! {

/// The shell functions that every init script defines.
pub const ZSH_INIT_PRELUDE: &'static str = r#"# wrappy init zsh
typeset -gA _wrappy_original_comps
typeset -gA _wrappy_completion_wrapped
typeset -gA _wrappy_original_functions

_wrappy_complete_dispatch() {
  emulate -L zsh
  setopt localoptions noshwordsplit

  local command_name="$1"
  local original_comp="${_wrappy_original_comps[$command_name]-}"
  local output
  output="$(command wrappy complete --format zsh --current "$CURRENT" "$command_name" "${words[@]}")" || return 1

  local -a _wrappy_reply_rewritten _wrappy_reply_alias_values
  local -i _wrappy_reply_rewritten_current=0
  eval "$output"

  local -a saved_words
  saved_words=("${words[@]}")
  local -i saved_current=$CURRENT
  local saved_prefix="$PREFIX"
  local saved_iprefix="$IPREFIX"
  local saved_suffix="$SUFFIX"
  local saved_isuffix="$ISUFFIX"
  local result=1

  if [[ -n "$original_comp" && "$original_comp" != _wrappy_complete_* ]]; then
    words=("${_wrappy_reply_rewritten[@]}")
    CURRENT=$_wrappy_reply_rewritten_current

    while (( CURRENT > ${#words[@]} )); do
      words+=('')
    done

    if (( CURRENT >= 1 && CURRENT <= ${#words[@]} )); then
      PREFIX="${words[CURRENT]}"
    else
      PREFIX=''
    fi

    IPREFIX=''
    SUFFIX=''
    ISUFFIX=''
    "$original_comp"
    result=$?
    words=("${saved_words[@]}")
    CURRENT=$saved_current
    PREFIX="$saved_prefix"
    IPREFIX="$saved_iprefix"
    SUFFIX="$saved_suffix"
    ISUFFIX="$saved_isuffix"
  fi

  if (( ${#_wrappy_reply_alias_values[@]} > 0 )); then
    compadd -Q -U -X 'wrappy aliases' -- "${_wrappy_reply_alias_values[@]}"
    result=0
  fi

  return $result
}

_wrappy_call_original_function() {
  emulate -L zsh
  setopt localoptions noshwordsplit

  local command_name="$1"
  local original_function="$2"
  shift 2

  local output
  output="$(command wrappy rewrite --format zsh "$command_name" "$@")" || return 1

  local -a _wrappy_reply_args
  eval "$output"
  "$original_function" "${_wrappy_reply_args[@]}"
}

_wrappy_install_exec_wrapper() {
  emulate -L zsh
  local command_name="$1"

  eval "function ${command_name}() {
    command wrappy exec ${command_name:q} \"\$@\"
  }"
}

_wrappy_install_function_wrapper() {
  emulate -L zsh
  local command_name="$1"
  local original_function="$2"

  functions -c "$command_name" "$original_function"

  eval "function ${command_name}() {
    _wrappy_call_original_function ${command_name:q} ${original_function:q} \"\$@\"
  }"
}

_wrappy_try_wrap_command() {
  emulate -L zsh
  local command_name="$1"
  local safe_name="$2"
  local original_function="_wrappy_original_${safe_name}"
  local current_body="${functions[$command_name]-}"

  if [[ -n "$current_body" && "$current_body" == *"_wrappy_call_original_function ${command_name}"* ]]; then
    return 0
  fi

  if (( $+functions[$command_name] )); then
    _wrappy_install_function_wrapper "$command_name" "$original_function"
    _wrappy_original_functions[$command_name]="$original_function"
    return 0
  fi

  _wrappy_install_exec_wrapper "$command_name"
  return 0
}

_wrappy_register_completion() {
  emulate -L zsh
  local command_name="$1"
  local completion_name="$2"

  if ! (( $+functions[compdef] && $+_comps )); then
    return 1
  fi

  local existing_completion="${_comps[$command_name]-}"

  if [[ "$existing_completion" != "$completion_name" ]]; then
    _wrappy_original_comps[$command_name]="$existing_completion"
  fi

  compdef "$completion_name" "$command_name"
  _wrappy_completion_wrapped[$command_name]=1
  return 0
}
"#;

/// The end of the init script: activation now or before the next prompt.
pub const ZSH_INIT_ACTIVATION: &'static str = r"  return 0
}

_wrappy_activate() {
  emulate -L zsh
  _wrappy_try_wrap_all || return 1
  _wrappy_try_register_all || return 1
  return 0
}

autoload -Uz add-zsh-hook
_wrappy_activate_on_precmd() {
  emulate -L zsh
  _wrappy_activate || return 0
  add-zsh-hook -d precmd _wrappy_activate_on_precmd 2>/dev/null
  unfunction _wrappy_activate_on_precmd 2>/dev/null
}
add-zsh-hook precmd _wrappy_activate_on_precmd

if (( ${+_comps} )); then
  _wrappy_activate || true
fi
";

/// The completion function of one command, or a comment when the command
/// name cannot be a zsh function name.
pub open spec fn completion_function_text(name: Seq<char>) -> Seq<char> {
    if is_safe_function_name(name) {
        "_wrappy_complete_"@ + sanitized(name) + "() {\n  _wrappy_complete_dispatch "@
            + shell_quoted(name) + "\n}\n"@
    } else {
        "# skipped unsupported command name "@ + shell_quoted(name) + "\n"@
    }
}

/// The line that wraps one command.
pub open spec fn wrap_line_text(name: Seq<char>) -> Seq<char> {
    if is_safe_function_name(name) {
        "  _wrappy_try_wrap_command "@ + shell_quoted(name) + " "@ + shell_quoted(sanitized(name))
            + " || return 1\n"@
    } else {
        Seq::empty()
    }
}

/// The line that registers the completion function of one command.
pub open spec fn register_line_text(name: Seq<char>) -> Seq<char> {
    if is_safe_function_name(name) {
        "  _wrappy_register_completion "@ + shell_quoted(name) + " _wrappy_complete_"@ + sanitized(
            name,
        ) + " || return 1\n"@
    } else {
        Seq::empty()
    }
}

/// The texts that `f` gives for `names`, one after another.
pub open spec fn concat_map(names: Seq<Seq<char>>, f: spec_fn(Seq<char>) -> Seq<char>) -> Seq<char>
    decreases names.len(),
{
    if names.len() == 0 {
        Seq::empty()
    } else {
        concat_map(names.drop_last(), f) + f(names.last())
    }
}

pub open spec fn completion_functions(names: Seq<Seq<char>>) -> Seq<char> {
    concat_map(names, |n: Seq<char>| completion_function_text(n))
}

pub open spec fn wrap_lines(names: Seq<Seq<char>>) -> Seq<char> {
    concat_map(names, |n: Seq<char>| wrap_line_text(n))
}

pub open spec fn register_lines(names: Seq<Seq<char>>) -> Seq<char> {
    concat_map(names, |n: Seq<char>| register_line_text(n))
}

/// The zsh init script for the configured commands `names`.
pub open spec fn init_script(names: Seq<Seq<char>>) -> Seq<char> {
    ZSH_INIT_PRELUDE@ + completion_functions(names) + "_wrappy_try_wrap_all() {\n  emulate -L zsh\n"@
        + wrap_lines(names) + "  return 0\n}\n\n_wrappy_try_register_all() {\n  emulate -L zsh\n"@
        + register_lines(names) + ZSH_INIT_ACTIVATION@
}

/// `piece` occurs in `text`.
pub open spec fn contains_text(text: Seq<char>, piece: Seq<char>) -> bool {
    exists|i: int| 0 <= i && i + piece.len() <= text.len() && #[trigger] text.subrange(i, i + piece.len()) == piece
}

proof fn lemma_concat_map_contains(
    names: Seq<Seq<char>>,
    f: spec_fn(Seq<char>) -> Seq<char>,
    k: int,
    pre: Seq<char>,
    post: Seq<char>,
)
    requires
        0 <= k < names.len(),
    ensures
        contains_text(pre + concat_map(names, f) + post, f(names[k])),
    decreases names.len(),
{
    let piece = f(names[k]);
    if k == names.len() - 1 {
        let text = pre + concat_map(names, f) + post;
        let i: int = (pre.len() + concat_map(names.drop_last(), f).len()) as int;
        assert(text.subrange(i, i + piece.len() as int) =~= piece);
    } else {
        let last = f(names.last());
        lemma_concat_map_contains(names.drop_last(), f, k, pre, last + post);
        assert(pre + concat_map(names.drop_last(), f) + (last + post) =~= pre + concat_map(names, f)
            + post);
    }
}

/// For every configured command whose name can be a zsh function name, the
/// init script defines its completion function, wraps it and registers the
/// completion; for every other one it holds a comment that skips it.
pub proof fn lemma_init_script_covers_commands(names: Seq<Seq<char>>, k: int)
    requires
        0 <= k < names.len(),
    ensures
        is_safe_function_name(names[k]) ==> {
            &&& contains_text(
                init_script(names),
                "_wrappy_complete_"@ + sanitized(names[k]) + "() {\n  _wrappy_complete_dispatch "@
                    + shell_quoted(names[k]) + "\n}\n"@,
            )
            &&& contains_text(
                init_script(names),
                "  _wrappy_try_wrap_command "@ + shell_quoted(names[k]) + " "@ + shell_quoted(
                    sanitized(names[k]),
                ) + " || return 1\n"@,
            )
            &&& contains_text(
                init_script(names),
                "  _wrappy_register_completion "@ + shell_quoted(names[k]) + " _wrappy_complete_"@
                    + sanitized(names[k]) + " || return 1\n"@,
            )
        },
        !is_safe_function_name(names[k]) ==> contains_text(
            init_script(names),
            "# skipped unsupported command name "@ + shell_quoted(names[k]) + "\n"@,
        ),
{
    let a = ZSH_INIT_PRELUDE@;
    let b = "_wrappy_try_wrap_all() {\n  emulate -L zsh\n"@;
    let c = "  return 0\n}\n\n_wrappy_try_register_all() {\n  emulate -L zsh\n"@;
    let d = ZSH_INIT_ACTIVATION@;
    let fc = |n: Seq<char>| completion_function_text(n);
    let fw = |n: Seq<char>| wrap_line_text(n);
    let fr = |n: Seq<char>| register_line_text(n);
    let cf = completion_functions(names);
    let wl = wrap_lines(names);
    let rl = register_lines(names);
    assert(init_script(names) =~= a + cf + (b + wl + c + rl + d));
    lemma_concat_map_contains(names, fc, k, a, b + wl + c + rl + d);
    assert(init_script(names) =~= (a + cf + b) + wl + (c + rl + d));
    lemma_concat_map_contains(names, fw, k, a + cf + b, c + rl + d);
    assert(init_script(names) =~= (a + cf + b + wl + c) + rl + d);
    lemma_concat_map_contains(names, fr, k, a + cf + b + wl + c, d);
}

/// The zsh script that wraps the configured commands and hooks their
/// completion.
pub fn render_zsh_init(commands: &Vec<String>) -> (script: String)
    ensures
        script@ == init_script(commands.deep_view()),
{
    let ghost names = commands.deep_view();
    let mut script = String::from_str(ZSH_INIT_PRELUDE);
    let mut i: usize = 0;
    while i < commands.len()
        invariant
            names == commands.deep_view(),
            i <= commands.len(),
            script@ == ZSH_INIT_PRELUDE@ + completion_functions(names.take(i as int)),
        decreases commands.len() - i,
    {
        let name = commands[i].as_str();
        let quoted = shell_quote(name);
        let ghost before = script@;
        if !is_safe_zsh_function_name(name) {
            script.append("# skipped unsupported command name ");
            script.append(quoted.as_str());
            script.append("\n");
        } else {
            let ident = sanitize_zsh_identifier(name);
            script.append("_wrappy_complete_");
            script.append(ident.as_str());
            script.append("() {\n  _wrappy_complete_dispatch ");
            script.append(quoted.as_str());
            script.append("\n}\n");
        }
        i = i + 1;
        proof {
            assert(names.take(i as int).drop_last() =~= names.take(i - 1));
            assert(script@ =~= before + completion_function_text(names[i - 1]));
        }
    }
    script.append("_wrappy_try_wrap_all() {\n  emulate -L zsh\n");
    let ghost head = script@;
    proof {
        assert(names.take(i as int) =~= names);
        assert(names.take(0) =~= Seq::<Seq<char>>::empty());
    }
    i = 0;
    while i < commands.len()
        invariant
            names == commands.deep_view(),
            i <= commands.len(),
            script@ == head + wrap_lines(names.take(i as int)),
        decreases commands.len() - i,
    {
        let name = commands[i].as_str();
        let ghost before = script@;
        if is_safe_zsh_function_name(name) {
            let quoted = shell_quote(name);
            let ident = sanitize_zsh_identifier(name);
            let quoted_ident = shell_quote(ident.as_str());
            script.append("  _wrappy_try_wrap_command ");
            script.append(quoted.as_str());
            script.append(" ");
            script.append(quoted_ident.as_str());
            script.append(" || return 1\n");
        }
        i = i + 1;
        proof {
            assert(names.take(i as int).drop_last() =~= names.take(i - 1));
            assert(script@ =~= before + wrap_line_text(names[i - 1]));
        }
    }
    script.append("  return 0\n}\n\n_wrappy_try_register_all() {\n  emulate -L zsh\n");
    let ghost middle = script@;
    i = 0;
    while i < commands.len()
        invariant
            names == commands.deep_view(),
            i <= commands.len(),
            script@ == middle + register_lines(names.take(i as int)),
        decreases commands.len() - i,
    {
        let name = commands[i].as_str();
        let ghost before = script@;
        if is_safe_zsh_function_name(name) {
            let quoted = shell_quote(name);
            let ident = sanitize_zsh_identifier(name);
            script.append("  _wrappy_register_completion ");
            script.append(quoted.as_str());
            script.append(" _wrappy_complete_");
            script.append(ident.as_str());
            script.append(" || return 1\n");
        }
        i = i + 1;
        proof {
            assert(names.take(i as int).drop_last() =~= names.take(i - 1));
            assert(script@ =~= before + register_line_text(names[i - 1]));
        }
    }
    script.append(ZSH_INIT_ACTIVATION);
    proof {
        assert(script@ =~= init_script(names));
    }
    script
}

/// The reply that the completion dispatcher evaluates.
pub open spec fn completion_reply_text(
    rewritten: Seq<Seq<char>>,
    alias_values: Seq<Seq<char>>,
    rewritten_current: Option<usize>,
) -> Seq<char> {
    "typeset -ga _wrappy_reply_rewritten=("@ + join_with_spaces(quote_all(rewritten))
        + ")\ntypeset -ga _wrappy_reply_alias_values=("@ + join_with_spaces(quote_all(alias_values))
        + ")\ntypeset -gi _wrappy_reply_rewritten_current="@ + decimal(
        match rewritten_current {
            Some(n) => n as nat,
            None => 0nat,
        },
    ) + "\n"@
}

/// The zsh assignments that hand a completion result to the shell.
pub fn render_zsh_completion_reply(response: &CompletionOutput) -> (reply: String)
    ensures
        reply@ == completion_reply_text(
            response.rewritten.deep_view(),
            response.alias_values.deep_view(),
            response.rewritten_current,
        ),
{
    let rewritten_values = quote_words(&response.rewritten);
    let alias_values = quote_words(&response.alias_values);
    let rewritten_current: usize = match response.rewritten_current {
        Some(n) => n,
        None => 0,
    };
    let mut reply = String::from_str("typeset -ga _wrappy_reply_rewritten=(");
    reply.append(rewritten_values.as_str());
    reply.append(")\ntypeset -ga _wrappy_reply_alias_values=(");
    reply.append(alias_values.as_str());
    reply.append(")\ntypeset -gi _wrappy_reply_rewritten_current=");
    push_decimal(&mut reply, rewritten_current);
    reply.append("\n");
    proof {
        assert(reply@ =~= completion_reply_text(
            response.rewritten.deep_view(),
            response.alias_values.deep_view(),
            response.rewritten_current,
        ));
    }
    reply
}

/// The reply that a wrapped shell function evaluates: the rewritten
/// arguments, decoded and quoted.
pub open spec fn rewrite_reply_text(args: Seq<Seq<u8>>) -> Seq<char> {
    "typeset -ga _wrappy_reply_args=("@ + join_with_spaces(quote_all(decode_all(args))) + ")\n"@
}

/// The zsh assignment that hands rewritten arguments to the shell.
pub fn render_zsh_rewrite_reply(args: &Vec<Vec<u8>>) -> (reply: String)
    ensures
        reply@ == rewrite_reply_text(raw_view(args@)),
{
    let values = quote_words(&decode_args(args));
    let mut reply = String::from_str("typeset -ga _wrappy_reply_args=(");
    reply.append(values.as_str());
    reply.append(")\n");
    reply
}

/// Raw arguments, decoded, quoted and separated by spaces.
pub fn format_os_strings(values: &Vec<Vec<u8>>) -> (text: String)
    ensures
        text@ == join_with_spaces(quote_all(decode_all(raw_view(values@)))),
{
    quote_words(&decode_args(values))
}

} // verus!
