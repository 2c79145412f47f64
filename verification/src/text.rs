//! Character-level helpers: option detection, whitespace splitting,
//! shell quoting and zsh identifier handling.
use vstd::prelude::*;
use vstd::std_specs::iter::IteratorSpec;

verus! {

/// Calls `String::push`, which, as its documentation says, appends the
/// character `c` to the end of `s`; the contract claims exactly that.
#[verifier::external_body]
pub(crate) fn push_char(s: &mut String, c: char)
    ensures
        final(s)@ == old(s)@.push(c),
{
    s.push(c);
}

/// A new string holding the characters of `s`.
pub(crate) fn string_of(s: &str) -> (res: String)
    ensures
        res@ == s@,
{
    String::from_str(s)
}

/// The characters of `s`, in order.
pub(crate) fn chars_of(s: &str) -> (res: Vec<char>)
    ensures
        res@ == s@,
{
    broadcast use vstd::string::group_string_axioms;

    let mut it = s.chars();
    let mut out: Vec<char> = Vec::new();
    loop
        invariant_except_break
            out@ + it.remaining() == s@,
            it.decrease() is Some,
        ensures
            out@ == s@,
        decreases it.decrease()->0,
    {
        match it.next() {
            Some(c) => {
                out.push(c);
            },
            None => {
                break;
            },
        }
    }
    out
}

/// A new string holding the characters `a` followed by `b`.
pub(crate) fn concat2(a: &str, b: &str) -> (res: String)
    ensures
        res@ == a@ + b@,
{
    let mut out = String::from_str(a);
    out.append(b);
    out
}

/// A new string holding the characters `a`, `b` and `c` in turn.
pub(crate) fn concat3(a: &str, b: &str, c: &str) -> (res: String)
    ensures
        res@ == a@ + b@ + c@,
{
    let mut out = String::from_str(a);
    out.append(b);
    out.append(c);
    out
}

/// Whether `a` and `b` hold the same characters.
pub(crate) fn same_text(a: &str, b: &str) -> (res: bool)
    ensures
        res == (a@ == b@),
{
    String::from_str(a) == String::from_str(b)
}

/// A copy of `s`.
pub(crate) fn copy_string(s: &String) -> (res: String)
    ensures
        res@ == s@,
{
    s.clone()
}

/// Appends copies of `words[from..]` to `out`.
pub(crate) fn extend_words(out: &mut Vec<String>, words: &Vec<String>, from: usize)
    requires
        from <= words.len(),
    ensures
        final(out).deep_view() == old(out).deep_view() + words.deep_view().skip(from as int),
{
    let ghost start = out.deep_view();
    let mut i: usize = from;
    while i < words.len()
        invariant
            from <= i <= words.len(),
            out.deep_view() == start + words.deep_view().subrange(from as int, i as int),
        decreases words.len() - i,
    {
        let w = copy_string(&words[i]);
        let ghost before = out.deep_view();
        out.push(w);
        i = i + 1;
        proof {
            assert(out.deep_view() =~= before.push(w@));
            assert(words.deep_view().subrange(from as int, i as int) =~= words.deep_view().subrange(
                from as int,
                i - 1,
            ).push(words.deep_view()[i - 1]));
            assert(out.deep_view() =~= start + words.deep_view().subrange(from as int, i as int));
        }
    }
    proof {
        assert(words.deep_view().subrange(from as int, i as int) =~= words.deep_view().skip(
            from as int,
        ));
    }
}

/// A copy of `words`.
pub(crate) fn copy_words(words: &Vec<String>) -> (res: Vec<String>)
    ensures
        res.deep_view() == words.deep_view(),
{
    let mut out: Vec<String> = Vec::new();
    extend_words(&mut out, words, 0);
    proof {
        assert(out.deep_view() =~= words.deep_view());
    }
    out
}

/// A word is option-like when it starts with `-`.
pub open spec fn is_option_like(s: Seq<char>) -> bool {
    s.len() > 0 && s[0] == '-'
}

/// A raw argument is option-like when its first byte is `-`.
pub open spec fn is_option_like_raw(s: Seq<u8>) -> bool {
    s.len() > 0 && s[0] == 45u8
}

/// Whether `value` starts with `-`.
pub fn is_option_like_string(value: &str) -> (res: bool)
    ensures
        res == is_option_like(value@),
{
    value.unicode_len() > 0 && value.get_char(0) == '-'
}

/// Whether the raw argument `value` starts with the byte `-`.
pub fn is_option_like_os(value: &[u8]) -> (res: bool)
    ensures
        res == is_option_like_raw(value@),
{
    value.len() > 0 && value[0] == 45u8
}

/// Unicode `White_Space`, the set that `char::is_whitespace` tests.
pub open spec fn is_white_space(c: char) -> bool {
    ||| ('\u{9}' <= c && c <= '\u{d}')
    ||| c == ' '
    ||| c == '\u{85}'
    ||| c == '\u{a0}'
    ||| c == '\u{1680}'
    ||| ('\u{2000}' <= c && c <= '\u{200a}')
    ||| c == '\u{2028}'
    ||| c == '\u{2029}'
    ||| c == '\u{202f}'
    ||| c == '\u{205f}'
    ||| c == '\u{3000}'
}

/// Whether `c` is Unicode white space.
pub fn is_whitespace_char(c: char) -> (res: bool)
    ensures
        res == is_white_space(c),
{
    ('\u{9}' <= c && c <= '\u{d}') || c == ' ' || c == '\u{85}' || c == '\u{a0}' || c
        == '\u{1680}' || ('\u{2000}' <= c && c <= '\u{200a}') || c == '\u{2028}' || c
        == '\u{2029}' || c == '\u{202f}' || c == '\u{205f}' || c == '\u{3000}'
}

/// The words of `s` after its first `n` characters have been read:
/// the finished words and the word being read (possibly empty).
pub open spec fn split_state(s: Seq<char>, n: int) -> (Seq<Seq<char>>, Seq<char>)
    decreases n,
{
    if n <= 0 {
        (seq![], seq![])
    } else {
        let (done, cur) = split_state(s, n - 1);
        if is_white_space(s[n - 1]) {
            if cur.len() > 0 {
                (done.push(cur), seq![])
            } else {
                (done, cur)
            }
        } else {
            (done, cur.push(s[n - 1]))
        }
    }
}

/// The maximal runs of non-white-space characters of `s`, in order
/// (what `str::split_whitespace` yields).
pub open spec fn split_words(s: Seq<char>) -> Seq<Seq<char>> {
    let (done, cur) = split_state(s, s.len() as int);
    if cur.len() > 0 {
        done.push(cur)
    } else {
        done
    }
}

/// The words of a state are non-empty and free of white space.
proof fn lemma_split_state_words(s: Seq<char>, n: int)
    requires
        0 <= n <= s.len(),
    ensures
        forall|k: int|
            0 <= k < split_state(s, n).0.len() ==> #[trigger] split_state(s, n).0[k].len() > 0
                && is_white_space_free(split_state(s, n).0[k]),
        is_white_space_free(split_state(s, n).1),
    decreases n,
{
    if n > 0 {
        lemma_split_state_words(s, n - 1);
        let (done, cur) = split_state(s, n - 1);
        if !is_white_space(s[n - 1]) {
            assert(forall|j: int|
                0 <= j < cur.push(s[n - 1]).len() ==> #[trigger] cur.push(s[n - 1])[j] == if j
                    < cur.len() {
                    cur[j]
                } else {
                    s[n - 1]
                });
        }
    }
}

/// No character of `w` is white space.
pub open spec fn is_white_space_free(w: Seq<char>) -> bool {
    forall|j: int| 0 <= j < w.len() ==> !is_white_space(#[trigger] w[j])
}

/// Every word that `split_words` yields is non-empty and free of white space.
pub proof fn lemma_split_words_well_formed(s: Seq<char>)
    ensures
        forall|k: int|
            0 <= k < split_words(s).len() ==> #[trigger] split_words(s)[k].len() > 0
                && is_white_space_free(split_words(s)[k]),
{
    lemma_split_state_words(s, s.len() as int);
}

proof fn lemma_split_state_prefix(s: Seq<char>, t: Seq<char>, n: int)
    requires
        0 <= n <= s.len(),
        n <= t.len(),
        s.take(n) == t.take(n),
    ensures
        split_state(s, n) == split_state(t, n),
    decreases n,
{
    if n > 0 {
        assert(s.take(n - 1) =~= t.take(n - 1)) by {
            assert forall|j: int| 0 <= j < n - 1 implies s[j] == t[j] by {
                assert(s.take(n)[j] == t.take(n)[j]);
                assert(s.take(n)[j] == s[j]);
                assert(t.take(n)[j] == t[j]);
            }
        }
        assert(s[n - 1] == s.take(n)[n - 1]);
        assert(t[n - 1] == t.take(n)[n - 1]);
        lemma_split_state_prefix(s, t, n - 1);
    }
}

proof fn lemma_split_state_continue(x: Seq<char>, y: Seq<char>, k: int)
    requires
        split_state(x, x.len() as int).1.len() == 0,
        0 <= k <= y.len(),
    ensures
        split_state(x + y, x.len() + k) == (
            split_state(x, x.len() as int).0 + split_state(y, k).0,
            split_state(y, k).1,
        ),
    decreases k,
{
    let d = split_state(x, x.len() as int).0;
    if k == 0 {
        assert((x + y).take(x.len() as int) =~= x.take(x.len() as int));
        lemma_split_state_prefix(x + y, x, x.len() as int);
        assert(d + Seq::<Seq<char>>::empty() =~= d);
    } else {
        lemma_split_state_continue(x, y, k - 1);
        assert((x + y)[x.len() + k - 1] == y[k - 1]);
        let (done, cur) = split_state(y, k - 1);
        if is_white_space(y[k - 1]) && cur.len() > 0 {
            assert((d + done).push(cur) =~= d + done.push(cur));
        }
    }
}

/// A text without white space is one word (when it is not empty).
pub proof fn lemma_split_words_single(s: Seq<char>)
    requires
        s.len() > 0,
        forall|j: int| 0 <= j < s.len() ==> !is_white_space(#[trigger] s[j]),
    ensures
        split_words(s) == seq![s],
{
    assert forall|n: int| 0 <= n <= s.len() implies #[trigger] split_state(s, n) == (
        Seq::<Seq<char>>::empty(),
        s.take(n),
    ) by {
        lemma_split_state_no_space(s, n);
    }
    assert(split_state(s, s.len() as int) == (Seq::<Seq<char>>::empty(), s.take(s.len() as int)));
    assert(s.take(s.len() as int) =~= s);
    assert(Seq::<Seq<char>>::empty().push(s) =~= seq![s]);
}

proof fn lemma_split_state_no_space(s: Seq<char>, n: int)
    requires
        0 <= n <= s.len(),
        forall|j: int| 0 <= j < s.len() ==> !is_white_space(#[trigger] s[j]),
    ensures
        split_state(s, n) == (Seq::<Seq<char>>::empty(), s.take(n)),
    decreases n,
{
    if n > 0 {
        lemma_split_state_no_space(s, n - 1);
        assert(s.take(n - 1).push(s[n - 1]) =~= s.take(n));
    } else {
        assert(s.take(0) =~= Seq::<char>::empty());
    }
}

/// White space separates words: the words of `a`, a white-space character
/// and `b` are the words of `a` followed by the words of `b`; an empty text
/// has no words.
pub proof fn lemma_split_words_at_space(a: Seq<char>, c: char, b: Seq<char>)
    requires
        is_white_space(c),
    ensures
        split_words(a + seq![c] + b) == split_words(a) + split_words(b),
        split_words(Seq::<char>::empty()).len() == 0,
{
    let x = a + seq![c];
    assert(x.take(a.len() as int) =~= a.take(a.len() as int));
    lemma_split_state_prefix(x, a, a.len() as int);
    assert(x[a.len() as int] == c);
    assert(split_state(x, x.len() as int).0 == split_words(a));
    lemma_split_state_continue(x, b, b.len() as int);
    assert(x + b =~= a + seq![c] + b);
    let (done, cur) = split_state(b, b.len() as int);
    if cur.len() > 0 {
        assert((split_words(a) + done).push(cur) =~= split_words(a) + done.push(cur));
    }
}

/// The white-space-separated words of `key`.
pub fn split_words_of(key: &str) -> (words: Vec<String>)
    ensures
        words.deep_view() == split_words(key@),
{
    let chars = chars_of(key);
    let mut done: Vec<String> = Vec::new();
    let mut cur = String::new();
    let mut i: usize = 0;
    while i < chars.len()
        invariant
            chars@ == key@,
            i <= chars.len(),
            (done.deep_view(), cur@) == split_state(key@, i as int),
        decreases chars.len() - i,
    {
        let c = chars[i];
        if is_whitespace_char(c) {
            if cur.unicode_len() > 0 {
                let word = cur;
                cur = String::new();
                let ghost old_done = done.deep_view();
                done.push(word);
                proof {
                    assert(done.deep_view() =~= old_done.push(word@));
                }
            }
        } else {
            push_char(&mut cur, c);
        }
        i = i + 1;
    }
    if cur.unicode_len() > 0 {
        let ghost old_done = done.deep_view();
        done.push(cur);
        proof {
            assert(done.deep_view() =~= old_done.push(split_state(key@, key@.len() as int).1));
        }
    }
    done
}

/// The characters of `s` with each `'` written as `'\''`.
pub open spec fn escape_single_quotes(s: Seq<char>) -> Seq<char>
    decreases s.len(),
{
    if s.len() == 0 {
        seq![]
    } else {
        escape_single_quotes(s.drop_last()) + if s.last() == '\'' {
            seq!['\'', '\\', '\'', '\'']
        } else {
            seq![s.last()]
        }
    }
}

/// `s` as one single-quoted shell word.
pub open spec fn shell_quoted(s: Seq<char>) -> Seq<char> {
    seq!['\''] + escape_single_quotes(s) + seq!['\'']
}

/// What `'` quoting and `\` escaping in a zsh word leave of the text `t`,
/// read inside single quotes or outside them: inside, every character up
/// to the closing `'` stands for itself; outside, `'` opens quotes and `\`
/// makes the character after it stand for itself.
pub open spec fn shell_word_value(t: Seq<char>, in_quotes: bool) -> Seq<char>
    decreases t.len(),
{
    if t.len() == 0 {
        Seq::empty()
    } else if in_quotes {
        if t[0] == '\'' {
            shell_word_value(t.drop_first(), false)
        } else {
            seq![t[0]] + shell_word_value(t.drop_first(), true)
        }
    } else if t[0] == '\'' {
        shell_word_value(t.drop_first(), true)
    } else if t[0] == '\\' && t.len() > 1 {
        seq![t[1]] + shell_word_value(t.skip(2), false)
    } else {
        seq![t[0]] + shell_word_value(t.drop_first(), false)
    }
}

/// The escaped text of one character.
pub open spec fn escape_char(c: char) -> Seq<char> {
    if c == '\'' {
        seq!['\'', '\\', '\'', '\'']
    } else {
        seq![c]
    }
}

proof fn lemma_escape_front(s: Seq<char>)
    requires
        s.len() > 0,
    ensures
        escape_single_quotes(s) == escape_char(s[0]) + escape_single_quotes(s.drop_first()),
    decreases s.len(),
{
    if s.len() == 1 {
        assert(s.drop_last() =~= Seq::<char>::empty());
        assert(s.drop_first() =~= Seq::<char>::empty());
        assert(escape_single_quotes(s) =~= escape_char(s[0]));
    } else {
        lemma_escape_front(s.drop_last());
        assert(s.drop_last().drop_first() =~= s.drop_first().drop_last());
        assert(s.drop_first().last() == s.last());
        assert(s.drop_last()[0] == s[0]);
        assert(escape_single_quotes(s) =~= escape_char(s[0]) + escape_single_quotes(
            s.drop_first(),
        ));
    }
}

proof fn lemma_read_escaped(s: Seq<char>, rest: Seq<char>)
    ensures
        shell_word_value(escape_single_quotes(s) + seq!['\''] + rest, true) == s
            + shell_word_value(rest, false),
    decreases s.len(),
{
    let t = escape_single_quotes(s) + seq!['\''] + rest;
    if s.len() == 0 {
        assert(t =~= seq!['\''] + rest);
        assert(t.drop_first() =~= rest);
        assert(s + shell_word_value(rest, false) =~= shell_word_value(rest, false));
    } else {
        lemma_escape_front(s);
        let tail = escape_single_quotes(s.drop_first()) + seq!['\''] + rest;
        lemma_read_escaped(s.drop_first(), rest);
        if s[0] == '\'' {
            assert(t =~= seq!['\'', '\\', '\'', '\''] + tail);
            assert(t.drop_first() =~= seq!['\\', '\'', '\''] + tail);
            assert(t.drop_first().skip(2) =~= seq!['\''] + tail);
            assert((seq!['\''] + tail).drop_first() =~= tail);
            let t1 = t.drop_first();
            assert(t1[0] == '\\' && t1[1] == '\'');
            assert(shell_word_value(seq!['\''] + tail, false) == shell_word_value(tail, true));
            assert(shell_word_value(t1, false) == seq!['\''] + shell_word_value(
                seq!['\''] + tail,
                false,
            ));
            assert(shell_word_value(t, true) == shell_word_value(t1, false));
        } else {
            assert(t =~= seq![s[0]] + tail);
            assert(t.drop_first() =~= tail);
            assert(shell_word_value(t, true) == seq![s[0]] + shell_word_value(tail, true));
        }
        assert(s =~= seq![s[0]] + s.drop_first());
        assert(shell_word_value(t, true) =~= s + shell_word_value(rest, false));
    }
}

/// Quoting is undone by the shell: the quoted text of `s`, read as a zsh
/// word, stands for `s`.
pub proof fn lemma_shell_quote_roundtrip(s: Seq<char>)
    ensures
        shell_word_value(shell_quoted(s), false) == s,
{
    let t = shell_quoted(s);
    lemma_read_escaped(s, Seq::empty());
    assert(t.drop_first() =~= escape_single_quotes(s) + seq!['\''] + Seq::<char>::empty());
    assert(s + shell_word_value(Seq::<char>::empty(), false) =~= s);
}

/// The words that zsh reads from `t`, the inside of an array assignment:
/// words end at unquoted spaces, `'...'` quotes, and `\\` outside quotes
/// makes the character after it stand for itself. `cur` is the word being
/// read and `started` whether a word is being read at all (a quoted empty
/// text starts one).
pub open spec fn shell_words_from(
    t: Seq<char>,
    in_quotes: bool,
    cur: Seq<char>,
    started: bool,
) -> Seq<Seq<char>>
    decreases t.len(),
{
    if t.len() == 0 {
        if started {
            seq![cur]
        } else {
            Seq::empty()
        }
    } else if in_quotes {
        if t[0] == '\'' {
            shell_words_from(t.drop_first(), false, cur, true)
        } else {
            shell_words_from(t.drop_first(), true, cur.push(t[0]), true)
        }
    } else if t[0] == '\'' {
        shell_words_from(t.drop_first(), true, cur, true)
    } else if t[0] == ' ' {
        if started {
            seq![cur] + shell_words_from(t.drop_first(), false, Seq::empty(), false)
        } else {
            shell_words_from(t.drop_first(), false, Seq::empty(), false)
        }
    } else if t[0] == '\\' && t.len() > 1 {
        shell_words_from(t.skip(2), false, cur.push(t[1]), true)
    } else {
        shell_words_from(t.drop_first(), false, cur.push(t[0]), true)
    }
}

/// The words that zsh reads from the text `t`.
pub open spec fn shell_words(t: Seq<char>) -> Seq<Seq<char>> {
    shell_words_from(t, false, Seq::empty(), false)
}

proof fn lemma_words_read_escaped(s: Seq<char>, rest: Seq<char>, cur: Seq<char>)
    ensures
        shell_words_from(escape_single_quotes(s) + seq!['\''] + rest, true, cur, true)
            == shell_words_from(rest, false, cur + s, true),
    decreases s.len(),
{
    let t = escape_single_quotes(s) + seq!['\''] + rest;
    if s.len() == 0 {
        assert(t =~= seq!['\''] + rest);
        assert(t.drop_first() =~= rest);
        assert(cur + s =~= cur);
    } else {
        lemma_escape_front(s);
        let c = s[0];
        let tail = escape_single_quotes(s.drop_first()) + seq!['\''] + rest;
        lemma_words_read_escaped(s.drop_first(), rest, cur.push(c));
        assert(cur.push(c) + s.drop_first() =~= cur + s);
        if c == '\'' {
            assert(t =~= seq!['\'', '\\', '\'', '\''] + tail);
            let t1 = t.drop_first();
            assert(t1 =~= seq!['\\', '\'', '\''] + tail);
            assert(t1.skip(2) =~= seq!['\''] + tail);
            assert((seq!['\''] + tail).drop_first() =~= tail);
            assert(shell_words_from(seq!['\''] + tail, false, cur.push(c), true)
                == shell_words_from(tail, true, cur.push(c), true));
            assert(shell_words_from(t1, false, cur, true) == shell_words_from(
                seq!['\''] + tail,
                false,
                cur.push(c),
                true,
            ));
            assert(shell_words_from(t, true, cur, true) == shell_words_from(t1, false, cur, true));
        } else {
            assert(t =~= seq![c] + tail);
            assert(t.drop_first() =~= tail);
            assert(shell_words_from(t, true, cur, true) == shell_words_from(
                tail,
                true,
                cur.push(c),
                true,
            ));
        }
    }
}

proof fn lemma_join_front(words: Seq<Seq<char>>)
    requires
        words.len() >= 2,
    ensures
        join_with_spaces(words) == words[0] + seq![' '] + join_with_spaces(words.drop_first()),
    decreases words.len(),
{
    if words.len() == 2 {
        assert(words.drop_last() =~= seq![words[0]]);
        assert(words.drop_first() =~= seq![words[1]]);
        assert(join_with_spaces(seq![words[0]]) == words[0]);
        assert(join_with_spaces(seq![words[1]]) == words[1]);
        assert(words.last() == words[1]);
        assert(join_with_spaces(words) =~= words[0] + seq![' '] + join_with_spaces(
            words.drop_first(),
        ));
    } else {
        lemma_join_front(words.drop_last());
        assert(words.drop_last().drop_first() =~= words.drop_first().drop_last());
        assert(words.drop_first().last() == words.last());
        assert(join_with_spaces(words) =~= words[0] + seq![' '] + join_with_spaces(
            words.drop_first(),
        ));
    }
}

/// The shell reads back the words: the quoted words joined with spaces
/// (as in the replies) are read by zsh as exactly those words, in order.
pub proof fn lemma_quoted_words_read_back(words: Seq<Seq<char>>)
    ensures
        shell_words(join_with_spaces(quote_all(words))) == words,
    decreases words.len(),
{
    let q = quote_all(words);
    if words.len() == 0 {
        assert(q.len() == 0);
        assert(words =~= Seq::<Seq<char>>::empty());
    } else {
        let w = words[0];
        let rest_text = if words.len() == 1 {
            Seq::<char>::empty()
        } else {
            seq![' '] + join_with_spaces(quote_all(words.drop_first()))
        };
        if words.len() == 1 {
            assert(join_with_spaces(q) == shell_quoted(w));
        } else {
            lemma_join_front(q);
            assert(q.drop_first() =~= quote_all(words.drop_first()));
        }
        let t = join_with_spaces(q);
        assert(t =~= shell_quoted(w) + rest_text);
        assert(t.drop_first() =~= escape_single_quotes(w) + seq!['\''] + rest_text);
        lemma_words_read_escaped(w, rest_text, Seq::empty());
        assert(Seq::<char>::empty() + w =~= w);
        if words.len() == 1 {
            assert(words =~= seq![w]);
        } else {
            lemma_quoted_words_read_back(words.drop_first());
            assert(rest_text.drop_first() =~= join_with_spaces(quote_all(words.drop_first())));
            assert(shell_words_from(rest_text, false, w, true) == seq![w] + shell_words(
                join_with_spaces(quote_all(words.drop_first())),
            ));
            assert(words =~= seq![w] + words.drop_first());
        }
    }
}

/// Quotes `value` as a single shell word: wraps it in `'` and writes
/// each `'` inside it as `'\''`.
pub fn shell_quote(value: &str) -> (res: String)
    ensures
        res@ == shell_quoted(value@),
{
    let chars = chars_of(value);
    let mut out = String::new();
    push_char(&mut out, '\'');
    let mut i: usize = 0;
    while i < chars.len()
        invariant
            chars@ == value@,
            i <= chars.len(),
            out@ == seq!['\''] + escape_single_quotes(value@.take(i as int)),
        decreases chars.len() - i,
    {
        let c = chars[i];
        proof {
            assert(value@.take(i + 1).drop_last() =~= value@.take(i as int));
        }
        if c == '\'' {
            push_char(&mut out, '\'');
            push_char(&mut out, '\\');
            push_char(&mut out, '\'');
            push_char(&mut out, '\'');
        } else {
            push_char(&mut out, c);
        }
        i = i + 1;
        proof {
            assert(out@ =~= seq!['\''] + escape_single_quotes(value@.take(i as int)));
        }
    }
    push_char(&mut out, '\'');
    proof {
        assert(value@.take(i as int) =~= value@);
    }
    out
}

/// `words` separated by single spaces.
pub open spec fn join_with_spaces(words: Seq<Seq<char>>) -> Seq<char>
    decreases words.len(),
{
    if words.len() == 0 {
        seq![]
    } else if words.len() == 1 {
        words[0]
    } else {
        join_with_spaces(words.drop_last()) + seq![' '] + words.last()
    }
}

/// The shell quoting of each of `words`.
pub open spec fn quote_all(words: Seq<Seq<char>>) -> Seq<Seq<char>> {
    words.map_values(|w: Seq<char>| shell_quoted(w))
}

/// Each of `values` shell-quoted, separated by single spaces.
pub fn quote_words(values: &Vec<String>) -> (res: String)
    ensures
        res@ == join_with_spaces(quote_all(values.deep_view())),
{
    let ghost words = values.deep_view();
    let mut out = String::new();
    let mut i: usize = 0;
    while i < values.len()
        invariant
            words == values.deep_view(),
            i <= values.len(),
            out@ == join_with_spaces(quote_all(words.take(i as int))),
        decreases values.len() - i,
    {
        let q = shell_quote(values[i].as_str());
        proof {
            assert(quote_all(words.take(i + 1)).drop_last() =~= quote_all(words.take(i as int)));
        }
        if i > 0 {
            out.append(" ");
        }
        out.append(q.as_str());
        i = i + 1;
        proof {
            reveal_strlit(" ");
            assert(out@ =~= join_with_spaces(quote_all(words.take(i as int))));
        }
    }
    proof {
        assert(words.take(i as int) =~= words);
    }
    out
}

/// ASCII letters and digits.
pub open spec fn is_ascii_alnum(c: char) -> bool {
    ('a' <= c && c <= 'z') || ('A' <= c && c <= 'Z') || ('0' <= c && c <= '9')
}

fn is_ascii_alnum_char(c: char) -> (res: bool)
    ensures
        res == is_ascii_alnum(c),
{
    ('a' <= c && c <= 'z') || ('A' <= c && c <= 'Z') || ('0' <= c && c <= '9')
}

/// `wrappy` followed by `s` with every character that is not an ASCII
/// letter or digit replaced by `_`.
pub open spec fn sanitized(s: Seq<char>) -> Seq<char> {
    "wrappy"@ + s.map_values(|c: char| if is_ascii_alnum(c) { c } else { '_' })
}

/// The identifier is `wrappy` followed by one character per character of
/// the name: each ASCII letter and digit kept in place, every other
/// character written as `_`.
pub proof fn lemma_identifier_keeps_letters_and_digits(s: Seq<char>)
    ensures
        sanitized(s).len() == s.len() + 6,
        sanitized(s).take(6) == seq!['w', 'r', 'a', 'p', 'p', 'y'],
        forall|k: int|
            0 <= k < s.len() ==> #[trigger] sanitized(s)[6 + k] == if ('0' <= s[k] && s[k] <= '9')
                || ('a' <= s[k] && s[k] <= 'z') || ('A' <= s[k] && s[k] <= 'Z') {
                s[k]
            } else {
                '_'
            },
{
    reveal_strlit("wrappy");
    assert(sanitized(s).take(6) =~= seq!['w', 'r', 'a', 'p', 'p', 'y']);
}

/// Names made of ASCII letters and digits have distinct identifiers.
pub proof fn lemma_identifiers_distinct(a: Seq<char>, b: Seq<char>)
    requires
        a != b,
        forall|k: int|
            0 <= k < a.len() ==> ('0' <= #[trigger] a[k] && a[k] <= '9') || ('a' <= a[k] && a[k]
                <= 'z') || ('A' <= a[k] && a[k] <= 'Z'),
        forall|k: int|
            0 <= k < b.len() ==> ('0' <= #[trigger] b[k] && b[k] <= '9') || ('a' <= b[k] && b[k]
                <= 'z') || ('A' <= b[k] && b[k] <= 'Z'),
    ensures
        sanitized(a) != sanitized(b),
{
    lemma_identifier_keeps_letters_and_digits(a);
    lemma_identifier_keeps_letters_and_digits(b);
    if sanitized(a) == sanitized(b) {
        assert(a.len() == b.len());
        assert forall|k: int| 0 <= k < a.len() implies a[k] == b[k] by {
            assert(sanitized(a)[6 + k] == sanitized(b)[6 + k]);
        }
        assert(a =~= b);
    }
}

/// The zsh identifier derived from a command name.
pub fn sanitize_zsh_identifier(value: &str) -> (res: String)
    ensures
        res@ == sanitized(value@),
{
    let chars = chars_of(value);
    let mut out = String::from_str("wrappy");
    let ghost f = |c: char| if is_ascii_alnum(c) { c } else { '_' };
    let mut i: usize = 0;
    while i < chars.len()
        invariant
            chars@ == value@,
            i <= chars.len(),
            f == (|c: char| if is_ascii_alnum(c) { c } else { '_' }),
            out@ == "wrappy"@ + value@.take(i as int).map_values(f),
        decreases chars.len() - i,
    {
        let c = chars[i];
        if is_ascii_alnum_char(c) {
            push_char(&mut out, c);
        } else {
            push_char(&mut out, '_');
        }
        i = i + 1;
        proof {
            assert(value@.take(i as int).map_values(f) =~= value@.take(i - 1).map_values(f).push(
                f(value@[i - 1]),
            ));
        }
    }
    proof {
        assert(value@.take(i as int) =~= value@);
    }
    out
}

/// Characters allowed in a command name that gets a zsh wrapper.
pub open spec fn is_function_name_char(c: char) -> bool {
    is_ascii_alnum(c) || c == '_' || c == '-' || c == '.'
}

/// A command name is safe for a zsh wrapper when it is non-empty, does not
/// start with `-`, and holds only ASCII letters, digits, `_`, `-` and `.`.
pub open spec fn is_safe_function_name(s: Seq<char>) -> bool {
    &&& s.len() > 0
    &&& s[0] != '-'
    &&& forall|j: int| 0 <= j < s.len() ==> is_function_name_char(#[trigger] s[j])
}

/// Whether `value` can be given a zsh wrapper function.
pub fn is_safe_zsh_function_name(value: &str) -> (res: bool)
    ensures
        res == is_safe_function_name(value@),
{
    let chars = chars_of(value);
    if chars.len() == 0 || chars[0] == '-' {
        return false;
    }
    let mut i: usize = 0;
    while i < chars.len()
        invariant
            chars@ == value@,
            i <= chars.len(),
            forall|j: int| 0 <= j < i ==> is_function_name_char(#[trigger] value@[j]),
        decreases chars.len() - i,
    {
        let c = chars[i];
        if !(is_ascii_alnum_char(c) || c == '_' || c == '-' || c == '.') {
            return false;
        }
        i = i + 1;
    }
    true
}

} // verus!
