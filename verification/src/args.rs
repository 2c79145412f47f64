//! Command-line words: raw (byte) arguments, their decoding, and the
//! leading subcommand path.
use vstd::prelude::*;
use vstd::utf8::*;
use crate::text::{is_option_like, is_option_like_raw, is_option_like_os, is_option_like_string};

verus! {

/// The byte sequences of raw arguments.
pub open spec fn raw_view(args: Seq<Vec<u8>>) -> Seq<Seq<u8>> {
    args.map_values(|b: Vec<u8>| b@)
}

/// What `String::from_utf8_lossy` makes of bytes that are not valid UTF-8.
pub uninterp spec fn invalid_utf8_lossy(bytes: Seq<u8>) -> Seq<char>;

/// What `String::from_utf8_lossy` makes of `bytes`: their decoding when they
/// are valid UTF-8.
pub open spec fn utf8_lossy(bytes: Seq<u8>) -> Seq<char> {
    if valid_utf8(bytes) {
        decode_utf8(bytes)
    } else {
        invalid_utf8_lossy(bytes)
    }
}

/// Calls `String::from_utf8_lossy`. For bytes that are valid UTF-8 the
/// result is their decoding, as the documentation says; for other bytes it
/// is named `invalid_utf8_lossy` of them, how invalid sequences are replaced
/// being left unstated.
#[verifier::external_body]
fn from_utf8_lossy(bytes: &[u8]) -> (res: String)
    ensures
        valid_utf8(bytes@) ==> res@ == decode_utf8(bytes@),
        !valid_utf8(bytes@) ==> res@ == invalid_utf8_lossy(bytes@),
{
    String::from_utf8_lossy(bytes).into_owned()
}

/// The lossy decoding of one raw argument.
pub(crate) fn decode_arg(arg: &Vec<u8>) -> (res: String)
    ensures
        res@ == utf8_lossy(arg@),
{
    from_utf8_lossy(arg.as_slice())
}

/// The lossy decoding of each of `args`.
pub open spec fn decode_all(args: Seq<Seq<u8>>) -> Seq<Seq<char>> {
    args.map_values(|b: Seq<u8>| utf8_lossy(b))
}

/// Decodes each raw argument lossily.
pub fn decode_args(args: &Vec<Vec<u8>>) -> (res: Vec<String>)
    ensures
        res.deep_view() == decode_all(raw_view(args@)),
{
    let ghost raw = raw_view(args@);
    let mut out: Vec<String> = Vec::new();
    let mut i: usize = 0;
    while i < args.len()
        invariant
            raw == raw_view(args@),
            i <= args.len(),
            out.deep_view() == decode_all(raw.take(i as int)),
        decreases args.len() - i,
    {
        let s = decode_arg(&args[i]);
        let ghost before = out.deep_view();
        out.push(s);
        i = i + 1;
        proof {
            assert(out.deep_view() =~= before.push(s@));
            assert(decode_all(raw.take(i as int)) =~= decode_all(raw.take(i - 1)).push(
                utf8_lossy(raw[i - 1]),
            ));
        }
    }
    proof {
        assert(raw.take(i as int) =~= raw);
    }
    out
}

/// A copy of a raw argument.
pub(crate) fn copy_raw(arg: &Vec<u8>) -> (res: Vec<u8>)
    ensures
        res@ == arg@,
{
    let res = arg.clone();
    proof {
        assert(res@ =~= arg@);
    }
    res
}

/// Appends copies of `args[from..]` to `out`.
pub(crate) fn extend_raw(out: &mut Vec<Vec<u8>>, args: &Vec<Vec<u8>>, from: usize)
    requires
        from <= args.len(),
    ensures
        raw_view(final(out)@) == raw_view(old(out)@) + raw_view(args@).skip(from as int),
{
    let ghost start = raw_view(out@);
    let ghost a = raw_view(args@);
    let mut i: usize = from;
    while i < args.len()
        invariant
            from <= i <= args.len(),
            a == raw_view(args@),
            raw_view(out@) == start + a.subrange(from as int, i as int),
        decreases args.len() - i,
    {
        let b = copy_raw(&args[i]);
        let ghost before = raw_view(out@);
        out.push(b);
        i = i + 1;
        proof {
            assert(raw_view(out@) =~= before.push(b@));
            assert(a.subrange(from as int, i as int) =~= a.subrange(from as int, i - 1).push(
                a[i - 1],
            ));
        }
    }
    proof {
        assert(a.subrange(from as int, i as int) =~= a.skip(from as int));
    }
}

/// The encoding of each of `words` as UTF-8 bytes.
pub open spec fn encode_all(words: Seq<Seq<char>>) -> Seq<Seq<u8>> {
    words.map_values(|w: Seq<char>| encode_utf8(w))
}

/// The UTF-8 bytes of each of `words`.
pub(crate) fn encode_words(words: &Vec<String>) -> (res: Vec<Vec<u8>>)
    ensures
        raw_view(res@) == encode_all(words.deep_view()),
{
    let ghost ws = words.deep_view();
    let mut out: Vec<Vec<u8>> = Vec::new();
    let mut i: usize = 0;
    while i < words.len()
        invariant
            ws == words.deep_view(),
            i <= words.len(),
            raw_view(out@) == encode_all(ws.take(i as int)),
        decreases words.len() - i,
    {
        let b = words[i].as_str().as_bytes_vec();
        let ghost before = raw_view(out@);
        out.push(b);
        i = i + 1;
        proof {
            assert(raw_view(out@) =~= before.push(b@));
            assert(encode_all(ws.take(i as int)) =~= encode_all(ws.take(i - 1)).push(
                encode_utf8(ws[i - 1]),
            ));
        }
    }
    proof {
        assert(ws.take(i as int) =~= ws);
    }
    out
}

/// How many of `args[i..]` come before the first option-like word.
pub open spec fn leading_len_from(args: Seq<Seq<char>>, i: int) -> int
    decreases args.len() - i,
{
    if i >= args.len() || is_option_like(args[i]) {
        0
    } else {
        1 + leading_len_from(args, i + 1)
    }
}

/// The length of the leading subcommand path of `args`: the words before
/// the first option-like word.
pub open spec fn leading_len(args: Seq<Seq<char>>) -> int {
    leading_len_from(args, 0)
}

/// How many of `args[i..]` come before the first option-like raw argument.
pub open spec fn leading_len_raw_from(args: Seq<Seq<u8>>, i: int) -> int
    decreases args.len() - i,
{
    if i >= args.len() || is_option_like_raw(args[i]) {
        0
    } else {
        1 + leading_len_raw_from(args, i + 1)
    }
}

/// The length of the leading subcommand path of raw arguments.
pub open spec fn leading_len_raw(args: Seq<Seq<u8>>) -> int {
    leading_len_raw_from(args, 0)
}

/// The leading path is the longest run of non-option words at the start.
pub proof fn lemma_leading_len(args: Seq<Seq<char>>)
    ensures
        0 <= leading_len(args) <= args.len(),
        forall|j: int| 0 <= j < leading_len(args) ==> !is_option_like(#[trigger] args[j]),
        leading_len(args) < args.len() ==> is_option_like(args[leading_len(args)]),
{
    lemma_leading_len_from(args, 0);
}

/// The leading path of raw arguments is the longest run of arguments at
/// the start that do not begin with `-`.
pub proof fn lemma_leading_len_raw(args: Seq<Seq<u8>>)
    ensures
        0 <= leading_len_raw(args) <= args.len(),
        forall|j: int| 0 <= j < leading_len_raw(args) ==> !is_option_like_raw(#[trigger] args[j]),
        leading_len_raw(args) < args.len() ==> is_option_like_raw(args[leading_len_raw(args)]),
{
    lemma_leading_len_raw_from(args, 0);
}

proof fn lemma_leading_len_raw_from(args: Seq<Seq<u8>>, i: int)
    requires
        0 <= i <= args.len(),
    ensures
        0 <= leading_len_raw_from(args, i) <= args.len() - i,
        forall|j: int|
            i <= j < i + leading_len_raw_from(args, i) ==> !is_option_like_raw(#[trigger] args[j]),
        i + leading_len_raw_from(args, i) < args.len() ==> is_option_like_raw(
            args[i + leading_len_raw_from(args, i)],
        ),
    decreases args.len() - i,
{
    if i < args.len() && !is_option_like_raw(args[i]) {
        lemma_leading_len_raw_from(args, i + 1);
    }
}

proof fn lemma_leading_len_from(args: Seq<Seq<char>>, i: int)
    requires
        0 <= i <= args.len(),
    ensures
        0 <= leading_len_from(args, i) <= args.len() - i,
        forall|j: int|
            i <= j < i + leading_len_from(args, i) ==> !is_option_like(#[trigger] args[j]),
        i + leading_len_from(args, i) < args.len() ==> is_option_like(
            args[i + leading_len_from(args, i)],
        ),
    decreases args.len() - i,
{
    if i < args.len() && !is_option_like(args[i]) {
        lemma_leading_len_from(args, i + 1);
    }
}

/// The count of leading words of `args` that are not option-like.
pub fn leading_subcommand_len_strings(args: &Vec<String>) -> (n: usize)
    ensures
        n == leading_len(args.deep_view()),
{
    let ghost a = args.deep_view();
    let mut i: usize = 0;
    while i < args.len()
        invariant
            a == args.deep_view(),
            i <= args.len(),
            leading_len(a) == i + leading_len_from(a, i as int),
        decreases args.len() - i,
    {
        if is_option_like_string(args[i].as_str()) {
            return i;
        }
        i = i + 1;
    }
    i
}

/// The count of leading raw arguments that do not start with `-`.
pub fn leading_subcommand_len_os(args: &Vec<Vec<u8>>) -> (n: usize)
    ensures
        n == leading_len_raw(raw_view(args@)),
{
    let ghost a = raw_view(args@);
    let mut i: usize = 0;
    while i < args.len()
        invariant
            a == raw_view(args@),
            i <= args.len(),
            leading_len_raw(a) == i + leading_len_raw_from(a, i as int),
        decreases args.len() - i,
    {
        if is_option_like_os(args[i].as_slice()) {
            return i;
        }
        i = i + 1;
    }
    i
}

} // verus!
