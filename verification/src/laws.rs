//! What holds of rewriting for every configuration and command line.
use vstd::prelude::*;
use vstd::utf8::*;
use crate::args::{
    decode_all, encode_all, leading_len, leading_len_from, leading_len_raw, leading_len_raw_from,
    lemma_leading_len, utf8_lossy,
};
use crate::catalog::{name_order, toml_stems};
use crate::config::{
    completion_position, current_after, describes_alias_values, describes_suggestions,
    entry_aliases, entry_error, first_invalid, first_match, has_suggestion, is_word_prefix,
    leading_words, lemma_first_match, lemma_rule_order_strict, request_args, request_current,
    resolve, resolve_raw, rewrite, rewrite_raw, rule_order, same_position, suggested_words,
    suggests, well_formed_rules, Alias, AliasSuggestion, CompletionOutput,
};
use crate::order::{
    is_sorted_by, is_strict_order, lemma_stable_sort_permutes, lemma_stable_sort_sorted,
    lemma_str_lt_properties, lists_words, stable_sort, str_lt, strictly_sorted_words,
};
use crate::text::{is_option_like, is_option_like_raw};

verus! {

/// Longest key wins: when the key of some rule is a prefix of the leading
/// subcommand path, a rule rewrites the arguments, and its key is at least
/// as long as that key.
pub proof fn lemma_longest_match_wins(rules: Seq<Alias>, args: Seq<Seq<char>>, j: int)
    requires
        well_formed_rules(rules),
        0 <= j < rules.len(),
        is_word_prefix(rules[j].key, leading_words(args)),
    ensures
        resolve(rules, args) matches Some(i) && rules[j].key.len() <= rules[i].key.len(),
{
    lemma_leading_len(args);
    let leading = leading_words(args);
    assert(rules[j].key.len() > 0);
    lemma_first_match(rules, leading);
    let found = first_match(rules, leading);
    assert(found is Some);
    let i = found->0;
    assert(i <= j);
    if i < j {
        assert(!(rule_order())(rules[j], rules[i]));
    }
}

/// Only the leading subcommand path is rewritten: the arguments from the
/// first option-like word on end the rewritten arguments unchanged.
pub proof fn lemma_rewrite_keeps_rest(rules: Seq<Alias>, args: Seq<Seq<char>>)
    ensures
        ({
            let r = rewrite(rules, args);
            let kept = args.len() - leading_len(args);
            &&& r.len() >= kept
            &&& r.skip(r.len() - kept) == args.skip(leading_len(args))
        }),
{
    lemma_leading_len(args);
    let n = leading_len(args);
    let r = rewrite(rules, args);
    match resolve(rules, args) {
        Some(i) => {
            lemma_first_match(rules, args.take(n));
            let c = rules[i].key.len() as int;
            assert(r.skip(r.len() - (args.len() - n)) =~= args.skip(n));
        },
        None => {
            assert(r.skip(r.len() - (args.len() - n)) =~= args.skip(n));
        },
    }
}

/// Arguments that start with an option-like word are never rewritten.
pub proof fn lemma_leading_option_disables_rewrite(rules: Seq<Alias>, args: Seq<Seq<char>>)
    requires
        args.len() > 0,
        is_option_like(args[0]),
    ensures
        rewrite(rules, args) == args,
{
}

/// Arguments that no rule matches are kept as they are.
pub proof fn lemma_unmatched_arguments_unchanged(rules: Seq<Alias>, args: Seq<Seq<char>>)
    requires
        forall|j: int|
            0 <= j < rules.len() ==> !is_word_prefix(#[trigger] rules[j].key, leading_words(args)),
    ensures
        rewrite(rules, args) == args,
{
    lemma_first_match(rules, leading_words(args));
}

proof fn lemma_encoded_option_like(w: Seq<char>)
    ensures
        is_option_like_raw(encode_utf8(w)) == is_option_like(w),
{
    if w.len() > 0 {
        let c = w[0];
        let s = c as u32;
        char_is_scalar(c);
        char_u32_cast(c, s);
        let first = encode_scalar(s);
        assert(encode_utf8(w) == first + encode_utf8(w.drop_first()));
        assert(first.len() > 0);
        assert(encode_utf8(w)[0] == first[0]);
        assert('-' as u32 == 45);
        assert((45u32 as char) == '-');
        if has_width_1_encoding(s) {
            assert((s & 0x7F) as u8 == s as u8) by (bit_vector)
                requires
                    s <= 0x7F,
            ;
            assert(first[0] == s as u8);
            assert((s as u8) == 45u8 <==> s == 45u32) by (bit_vector)
                requires
                    s <= 0x7F,
            ;
        } else if has_width_2_encoding(s) {
            assert(0xC0u8 | (((s >> 6) & 0x1F) as u8) >= 0xC0u8) by (bit_vector);
            assert(first[0] == leading_byte_width_2(s));
        } else if has_width_3_encoding(s) {
            assert(0xE0u8 | (((s >> 12) & 0x0F) as u8) >= 0xE0u8) by (bit_vector);
            assert(first[0] == leading_byte_width_3(s));
        } else {
            assert(0xF0u8 | (((s >> 18) & 0x7) as u8) >= 0xF0u8) by (bit_vector);
            assert(first[0] == leading_byte_width_4(s));
        }
    }
}

proof fn lemma_encoded_leading_len(args: Seq<Seq<char>>, i: int)
    requires
        0 <= i <= args.len(),
    ensures
        leading_len_raw_from(encode_all(args), i) == leading_len_from(args, i),
    decreases args.len() - i,
{
    if i < args.len() {
        lemma_encoded_option_like(args[i]);
        lemma_encoded_leading_len(args, i + 1);
    }
}

proof fn lemma_decode_encoded(args: Seq<Seq<char>>)
    ensures
        decode_all(encode_all(args)) == args,
{
    assert forall|k: int| 0 <= k < args.len() implies #[trigger] utf8_lossy(encode_utf8(args[k]))
        == args[k] by {
        encode_utf8_valid_utf8(args[k]);
        encode_utf8_decode_utf8(args[k]);
    }
    assert(decode_all(encode_all(args)) =~= args);
}

/// Rewriting raw arguments agrees with rewriting their text: for arguments
/// that are the UTF-8 encodings of words, the rewritten raw arguments are
/// the encodings of the rewritten words.
pub proof fn lemma_raw_rewrite_agrees(rules: Seq<Alias>, args: Seq<Seq<char>>)
    ensures
        rewrite_raw(rules, encode_all(args)) == encode_all(rewrite(rules, args)),
{
    let raw = encode_all(args);
    lemma_encoded_leading_len(args, 0);
    let n = leading_len(args);
    assert(leading_len_raw(raw) == n);
    lemma_leading_len(args);
    lemma_decode_encoded(args.take(n));
    assert(raw.take(n) =~= encode_all(args.take(n)));
    assert(resolve_raw(rules, raw) == resolve(rules, args));
    match resolve(rules, args) {
        Some(i) => {
            lemma_first_match(rules, args.take(n));
            let c = rules[i].key.len() as int;
            assert(rewrite_raw(rules, raw) =~= encode_all(rules[i].value + args.skip(c)));
        },
        None => {},
    }
}

/// The cursor follows its word: when the cursor is on an argument after
/// the rewritten key, the moved cursor is on the same word of the
/// rewritten arguments.
pub proof fn lemma_cursor_follows_word(rules: Seq<Alias>, args: Seq<Seq<char>>, position: int)
    requires
        1 <= position <= args.len(),
        resolve(rules, args) matches Some(i) ==> position > rules[i].key.len(),
    ensures
        ({
            let moved = match resolve(rules, args) {
                Some(i) => completion_position(
                    position,
                    rules[i].key.len() as int,
                    rules[i].value.len() as int,
                ),
                None => position,
            };
            &&& 1 <= moved <= rewrite(rules, args).len()
            &&& rewrite(rules, args)[moved - 1] == args[position - 1]
        }),
{
    lemma_leading_len(args);
    match resolve(rules, args) {
        Some(i) => {
            lemma_first_match(rules, args.take(leading_len(args)));
        },
        None => {},
    }
}

/// The rules of a configuration are the aliases of its entries, each once,
/// sorted in the order they are tried.
pub proof fn lemma_config_rules_rearrange_entries(es: Seq<(Seq<char>, Seq<Seq<char>>)>)
    ensures
        stable_sort(entry_aliases(es), rule_order()).to_multiset() == entry_aliases(
            es,
        ).to_multiset(),
        is_sorted_by(stable_sort(entry_aliases(es), rule_order()), rule_order()),
{
    lemma_rule_order_strict();
    lemma_stable_sort_permutes(entry_aliases(es), rule_order());
    lemma_stable_sort_sorted(entry_aliases(es), rule_order());
}

/// The configured commands are those of the configuration files, each once
/// per file, in the order of `String`s.
pub proof fn lemma_configured_commands_sorted(names: Seq<Seq<char>>)
    ensures
        stable_sort(toml_stems(names), name_order()).to_multiset() == toml_stems(
            names,
        ).to_multiset(),
        is_sorted_by(stable_sort(toml_stems(names), name_order()), name_order()),
{
    lemma_str_lt_properties();
    assert(is_strict_order(name_order()));
    lemma_stable_sort_permutes(toml_stems(names), name_order());
    lemma_stable_sort_sorted(toml_stems(names), name_order());
}

proof fn lemma_sorted_words_equal(a: Seq<Seq<char>>, b: Seq<Seq<char>>)
    requires
        strictly_sorted_words(a),
        strictly_sorted_words(b),
        a.to_set() == b.to_set(),
    ensures
        a == b,
    decreases a.len(),
{
    lemma_str_lt_properties();
    if a.len() == 0 {
        if b.len() > 0 {
            assert(b.to_set().contains(b[0]));
        }
        assert(a =~= b);
    } else if b.len() == 0 {
        assert(a.to_set().contains(a[0]));
    } else {
        assert(b.to_set().contains(a[0]));
        let k = choose|k: int| 0 <= k < b.len() && b[k] == a[0];
        assert(a.to_set().contains(b[0]));
        let m = choose|m: int| 0 <= m < a.len() && a[m] == b[0];
        if k > 0 {
            assert(str_lt(b[0], b[k]));
            if m > 0 {
                assert(str_lt(a[0], a[m]));
            }
        }
        assert(a[0] == b[0]);
        let x = a[0];
        assert(a.drop_first().to_set() =~= b.drop_first().to_set()) by {
            assert forall|y: Seq<char>| a.drop_first().to_set().contains(y) implies b.drop_first().to_set().contains(y) by {
                let i = choose|i: int| 0 <= i < a.drop_first().len() && a.drop_first()[i] == y;
                assert(str_lt(a[0], a[i + 1]));
                assert(b.to_set().contains(y));
                let j = choose|j: int| 0 <= j < b.len() && b[j] == y;
                assert(j != 0);
                assert(b.drop_first()[j - 1] == y);
            }
            assert forall|y: Seq<char>| b.drop_first().to_set().contains(y) implies a.drop_first().to_set().contains(y) by {
                let i = choose|i: int| 0 <= i < b.drop_first().len() && b.drop_first()[i] == y;
                assert(str_lt(b[0], b[i + 1]));
                assert(a.to_set().contains(y));
                let j = choose|j: int| 0 <= j < a.len() && a[j] == y;
                assert(j != 0);
                assert(a.drop_first()[j - 1] == y);
            }
        }
        lemma_sorted_words_equal(a.drop_first(), b.drop_first());
        assert(a =~= seq![x] + a.drop_first());
        assert(b =~= seq![x] + b.drop_first());
    }
}

/// A set of words has one sorted listing without repeats.
pub proof fn lemma_word_listing_unique(a: Seq<Seq<char>>, b: Seq<Seq<char>>, words: Set<Seq<char>>)
    requires
        lists_words(a, words),
        lists_words(b, words),
    ensures
        a == b,
{
    lemma_sorted_words_equal(a, b);
}

/// The positions of suggestion lists, in order.
pub open spec fn positions_of(s: Seq<AliasSuggestion>) -> Seq<int> {
    Seq::new(s.len(), |k: int| s[k].position as int)
}

proof fn lemma_increasing_equal(a: Seq<int>, b: Seq<int>)
    requires
        forall|i: int, j: int| 0 <= i < j < a.len() ==> #[trigger] a[i] < #[trigger] a[j],
        forall|i: int, j: int| 0 <= i < j < b.len() ==> #[trigger] b[i] < #[trigger] b[j],
        forall|x: int| a.contains(x) <==> b.contains(x),
    ensures
        a == b,
    decreases a.len(),
{
    if a.len() == 0 {
        if b.len() > 0 {
            assert(b.contains(b[0]));
        }
        assert(a =~= b);
    } else if b.len() == 0 {
        assert(a.contains(a[0]));
    } else {
        assert(a.contains(a[0]));
        let k = choose|k: int| 0 <= k < b.len() && b[k] == a[0];
        assert(b.contains(b[0]));
        let m = choose|m: int| 0 <= m < a.len() && a[m] == b[0];
        if k > 0 {
            assert(b[0] < b[k]);
            if m > 0 {
                assert(a[0] < a[m]);
            }
        }
        assert(a[0] == b[0]);
        assert forall|x: int| a.drop_first().contains(x) <==> b.drop_first().contains(x) by {
            if a.drop_first().contains(x) {
                let i = choose|i: int| 0 <= i < a.drop_first().len() && a.drop_first()[i] == x;
                assert(a[0] < a[i + 1]);
                assert(a.contains(x));
                let j = choose|j: int| 0 <= j < b.len() && b[j] == x;
                assert(j != 0);
                assert(b.drop_first()[j - 1] == x);
            }
            if b.drop_first().contains(x) {
                let i = choose|i: int| 0 <= i < b.drop_first().len() && b.drop_first()[i] == x;
                assert(b[0] < b[i + 1]);
                assert(b.contains(x));
                let j = choose|j: int| 0 <= j < a.len() && a[j] == x;
                assert(j != 0);
                assert(a.drop_first()[j - 1] == x);
            }
        }
        lemma_increasing_equal(a.drop_first(), b.drop_first());
        assert(a =~= seq![a[0]] + a.drop_first());
        assert(b =~= seq![b[0]] + b.drop_first());
    }
}

proof fn lemma_listed_position_has_suggestion(
    s: Seq<AliasSuggestion>,
    rules: Seq<Alias>,
    leading: Seq<Seq<char>>,
    k: int,
)
    requires
        describes_suggestions(s, rules, leading),
        0 <= k < s.len(),
    ensures
        has_suggestion(rules, leading, s[k].position as int),
{
    let p = s[k].position as int;
    let v = s[k].values.deep_view();
    assert(s[k].values.len() > 0);
    assert(v.len() == s[k].values@.len());
    assert(v.to_set().contains(v[0]));
    assert(suggested_words(rules, leading, p).contains(v[0]));
    let i = choose|i: int| 0 <= i < rules.len() && #[trigger] suggests(rules[i], leading, p, v[0]);
    assert(suggests(rules[i], leading, p, rules[i].key[p - 1]));
}

/// The suggestion lists for a leading path are determined: any two
/// descriptions of them have the same positions and the same words.
pub proof fn lemma_suggestions_unique(
    a: Seq<AliasSuggestion>,
    b: Seq<AliasSuggestion>,
    rules: Seq<Alias>,
    leading: Seq<Seq<char>>,
)
    requires
        describes_suggestions(a, rules, leading),
        describes_suggestions(b, rules, leading),
    ensures
        a.len() == b.len(),
        forall|k: int|
            0 <= k < a.len() ==> #[trigger] a[k].position == b[k].position
                && a[k].values.deep_view() == b[k].values.deep_view(),
{
    let pa = positions_of(a);
    let pb = positions_of(b);
    assert forall|x: int| pa.contains(x) <==> pb.contains(x) by {
        if pa.contains(x) {
            let k = choose|k: int| 0 <= k < pa.len() && pa[k] == x;
            lemma_listed_position_has_suggestion(a, rules, leading, k);
            let j = choose|j: int| 0 <= j < b.len() && #[trigger] b[j].position == x;
            assert(pb[j] == x);
        }
        if pb.contains(x) {
            let k = choose|k: int| 0 <= k < pb.len() && pb[k] == x;
            lemma_listed_position_has_suggestion(b, rules, leading, k);
            let j = choose|j: int| 0 <= j < a.len() && #[trigger] a[j].position == x;
            assert(pa[j] == x);
        }
    }
    assert forall|i: int, j: int| 0 <= i < j < pa.len() implies #[trigger] pa[i] < #[trigger] pa[j] by {
        assert(a[i].position < a[j].position);
    }
    assert forall|i: int, j: int| 0 <= i < j < pb.len() implies #[trigger] pb[i] < #[trigger] pb[j] by {
        assert(b[i].position < b[j].position);
    }
    lemma_increasing_equal(pa, pb);
    assert forall|k: int| 0 <= k < a.len() implies #[trigger] a[k].position == b[k].position
        && a[k].values.deep_view() == b[k].values.deep_view() by {
        assert(pa[k] == pb[k]);
        assert(a[k].values.len() > 0);
        assert(b[k].values.len() > 0);
        lemma_word_listing_unique(
            a[k].values.deep_view(),
            b[k].values.deep_view(),
            suggested_words(rules, leading, a[k].position as int),
        );
    }
}

/// Completion output is assembled from the other functions: its command
/// line is the command name followed by what `rewrite_strings` gives, its
/// suggestion lists are what `alias_suggestions` gives, its alias words are
/// what `alias_values_for_position` gives at the cursor (none without a
/// cursor), and its cursor is the cursor moved by the matched rule (or kept
/// when none matches). `out` is any value that meets the contract of
/// `completion_output`; `rewritten`, `suggestions` and `values` any values
/// that meet those of the other functions.
pub proof fn lemma_completion_output_composes(
    rules: Seq<Alias>,
    command_name: Seq<char>,
    args: Seq<Seq<char>>,
    current: Option<usize>,
    out: CompletionOutput,
    rewritten: Seq<Seq<char>>,
    suggestions: Seq<AliasSuggestion>,
    values: Seq<Seq<char>>,
)
    requires
        out.rewritten.deep_view() == seq![command_name] + rewrite(rules, args),
        same_position(out.rewritten_current, current_after(rules, args, current)),
        describes_suggestions(out.aliases@, rules, leading_words(args)),
        describes_alias_values(out.alias_values.deep_view(), rules, args, current),
        rewritten == rewrite(rules, args),
        describes_suggestions(suggestions, rules, leading_words(args)),
        current matches Some(p) ==> lists_words(
            values,
            suggested_words(rules, leading_words(args), p as int),
        ),
    ensures
        out.rewritten.deep_view() == seq![command_name] + rewritten,
        out.aliases@.len() == suggestions.len(),
        forall|k: int|
            0 <= k < suggestions.len() ==> #[trigger] out.aliases@[k].position
                == suggestions[k].position && out.aliases@[k].values.deep_view()
                == suggestions[k].values.deep_view(),
        match current {
            None => out.rewritten_current is None && out.alias_values.len() == 0,
            Some(p) => {
                &&& out.alias_values.deep_view() == values
                &&& out.rewritten_current matches Some(r) && r == match resolve(rules, args) {
                    Some(i) => completion_position(
                        p as int,
                        rules[i].key.len() as int,
                        rules[i].value.len() as int,
                    ),
                    None => p as int,
                }
            },
        },
{
    lemma_suggestions_unique(out.aliases@, suggestions, rules, leading_words(args));
    match current {
        None => {
            assert(out.alias_values.deep_view().len() == out.alias_values@.len());
        },
        Some(p) => {
            lemma_word_listing_unique(
                out.alias_values.deep_view(),
                values,
                suggested_words(rules, leading_words(args), p as int),
            );
        },
    }
}

/// A rule rewrites the arguments only when its key is, word for word, the
/// first words of the arguments, all within the leading subcommand path;
/// no earlier rule's key is; and when some rule's key is, a rule rewrites.
pub proof fn lemma_matched_key_is_argument_prefix(rules: Seq<Alias>, args: Seq<Seq<char>>)
    ensures
        resolve(rules, args) matches Some(i) ==> {
            &&& 0 <= i < rules.len()
            &&& rules[i].key.len() <= leading_len(args)
            &&& args.take(rules[i].key.len() as int) == rules[i].key
            &&& forall|j: int|
                0 <= j < i ==> !(#[trigger] rules[j].key.len() <= leading_len(args) && args.take(
                    rules[j].key.len() as int,
                ) == rules[j].key)
        },
        forall|j: int|
            0 <= j < rules.len() && 0 < #[trigger] rules[j].key.len() <= leading_len(args)
                && args.take(rules[j].key.len() as int) == rules[j].key ==> resolve(
                rules,
                args,
            ) is Some,
{
    lemma_leading_len(args);
    let n = leading_len(args);
    let leading = args.take(n);
    lemma_first_match(rules, leading);
    assert forall|j: int|
        0 <= j < rules.len() implies (#[trigger] rules[j].key.len() <= n && args.take(
        rules[j].key.len() as int,
    ) == rules[j].key) == is_word_prefix(rules[j].key, leading) by {
        if rules[j].key.len() <= n {
            assert(leading.take(rules[j].key.len() as int) =~= args.take(rules[j].key.len() as int));
        }
    }
}

/// Raw arguments are rewritten by a rule only when the lossy decodings of
/// their first words are, word for word, the rule's key, all within the
/// leading path.
pub proof fn lemma_matched_key_is_raw_argument_prefix(rules: Seq<Alias>, args: Seq<Seq<u8>>)
    ensures
        resolve_raw(rules, args) matches Some(i) ==> {
            &&& 0 <= i < rules.len()
            &&& rules[i].key.len() <= leading_len_raw(args)
            &&& decode_all(args.take(rules[i].key.len() as int)) == rules[i].key
        },
{
    crate::args::lemma_leading_len_raw(args);
    let n = leading_len_raw(args);
    lemma_first_match(rules, decode_all(args.take(n)));
    if resolve_raw(rules, args) is Some {
        let i = resolve_raw(rules, args)->0;
        let k = rules[i].key.len() as int;
        assert(decode_all(args.take(n)).take(k) =~= decode_all(args.take(k)));
    }
}

/// Every alias key whose earlier words are the first words of the leading
/// path (or that has one word) offers its last word at the position of that
/// word: the suggestions hold that position, and its words hold the word.
pub proof fn lemma_matching_keys_are_offered(
    rules: Seq<Alias>,
    args: Seq<Seq<char>>,
    out: Seq<AliasSuggestion>,
    i: int,
)
    requires
        describes_suggestions(out, rules, leading_words(args)),
        0 <= i < rules.len(),
        1 <= rules[i].key.len() <= leading_len(args) + 1,
        rules[i].key.take(rules[i].key.len() - 1) == args.take(rules[i].key.len() - 1),
    ensures
        exists|k: int|
            0 <= k < out.len() && #[trigger] out[k].position == rules[i].key.len()
                && out[k].values.deep_view().contains(rules[i].key.last()),
{
    lemma_leading_len(args);
    let leading = leading_words(args);
    let p = rules[i].key.len() as int;
    assert(leading.take(p - 1) =~= args.take(p - 1));
    assert(suggests(rules[i], leading, p, rules[i].key[p - 1]));
    assert(has_suggestion(rules, leading, p));
    let k = choose|k: int| 0 <= k < out.len() && #[trigger] out[k].position == p;
    assert(out[k].values.len() > 0);
    assert(suggested_words(rules, leading, p).contains(rules[i].key[p - 1]));
    assert(out[k].values.deep_view().to_set().contains(rules[i].key[p - 1]));
}

/// Every word offered at a position is the last word of an alias key with
/// as many words as the position, whose earlier words are the first words
/// of the leading path.
pub proof fn lemma_offered_words_come_from_keys(
    rules: Seq<Alias>,
    args: Seq<Seq<char>>,
    out: Seq<AliasSuggestion>,
    k: int,
    word: Seq<char>,
)
    requires
        describes_suggestions(out, rules, leading_words(args)),
        0 <= k < out.len(),
        out[k].values.deep_view().contains(word),
    ensures
        exists|i: int|
            0 <= i < rules.len() && #[trigger] rules[i].key.len() == out[k].position
                && 1 <= out[k].position <= leading_len(args) + 1 && rules[i].key.take(
                out[k].position - 1,
            ) == args.take(out[k].position - 1) && rules[i].key.last() == word,
{
    lemma_leading_len(args);
    let leading = leading_words(args);
    let p = out[k].position as int;
    assert(out[k].values.len() > 0);
    assert(out[k].values.deep_view().to_set().contains(word));
    assert(suggested_words(rules, leading, p).contains(word));
    let i = choose|i: int| 0 <= i < rules.len() && #[trigger] suggests(rules[i], leading, p, word);
    assert(leading.take(p - 1) =~= args.take(p - 1));
    assert(rules[i].key.len() == out[k].position);
}

/// The alias words at the cursor `position` hold the last word of every key
/// with `position` words whose earlier words are the first words of the
/// leading path, and only such words.
pub proof fn lemma_cursor_words_are_matching_keys(
    rules: Seq<Alias>,
    args: Seq<Seq<char>>,
    position: int,
    values: Seq<Seq<char>>,
)
    requires
        lists_words(values, suggested_words(rules, leading_words(args), position)),
    ensures
        forall|i: int|
            0 <= i < rules.len() && #[trigger] rules[i].key.len() == position && 1 <= position
                <= leading_len(args) + 1 && rules[i].key.take(position - 1) == args.take(
                position - 1,
            ) ==> values.contains(rules[i].key.last()),
        forall|w: Seq<char>|
            #[trigger] values.contains(w) ==> exists|i: int|
                0 <= i < rules.len() && #[trigger] rules[i].key.len() == position && 1 <= position
                    <= leading_len(args) + 1 && rules[i].key.take(position - 1) == args.take(
                    position - 1,
                ) && rules[i].key.last() == w,
{
    lemma_leading_len(args);
    let leading = leading_words(args);
    assert forall|i: int|
        0 <= i < rules.len() && #[trigger] rules[i].key.len() == position && 1 <= position
            <= leading_len(args) + 1 && rules[i].key.take(position - 1) == args.take(position - 1)
        implies values.contains(rules[i].key.last()) by {
        assert(leading.take(position - 1) =~= args.take(position - 1));
        assert(suggests(rules[i], leading, position, rules[i].key[position - 1]));
        assert(suggested_words(rules, leading, position).contains(rules[i].key[position - 1]));
        assert(values.to_set().contains(rules[i].key.last()));
    }
    assert forall|w: Seq<char>| #[trigger] values.contains(w) implies exists|i: int|
        0 <= i < rules.len() && #[trigger] rules[i].key.len() == position && 1 <= position
            <= leading_len(args) + 1 && rules[i].key.take(position - 1) == args.take(position - 1)
            && rules[i].key.last() == w by {
        assert(values.to_set().contains(w));
        let i = choose|i: int|
            0 <= i < rules.len() && #[trigger] suggests(rules[i], leading, position, w);
        assert(leading.take(position - 1) =~= args.take(position - 1));
        assert(rules[i].key.len() == position);
    }
}

/// A cursor on the replaced key words lands on the last word of the
/// expansion: the rewritten arguments hold that word at the moved cursor.
pub proof fn lemma_cursor_on_key_moves_to_expansion(
    rules: Seq<Alias>,
    args: Seq<Seq<char>>,
    position: int,
)
    requires
        resolve(rules, args) matches Some(i) && rules[i].value.len() > 0 && 0 <= position
            <= rules[i].key.len(),
    ensures
        ({
            let i = resolve(rules, args)->0;
            let moved = completion_position(
                position,
                rules[i].key.len() as int,
                rules[i].value.len() as int,
            );
            &&& moved == rules[i].value.len()
            &&& rewrite(rules, args)[moved - 1] == rules[i].value.last()
        }),
{
    lemma_leading_len(args);
    lemma_first_match(rules, args.take(leading_len(args)));
}

/// A completion request whose words start with the command name is about
/// the words after it, with the cursor one word earlier (not before the
/// first word); other requests are about all their words.
pub proof fn lemma_request_drops_command_name(
    command_name: Seq<char>,
    words: Seq<Seq<char>>,
    current: usize,
)
    ensures
        request_args(command_name, seq![command_name] + words) == words,
        request_current(command_name, seq![command_name] + words, Some(current)) == Some(
            if current >= 1 {
                (current - 1) as usize
            } else {
                0usize
            },
        ),
        words.len() == 0 || words[0] != command_name ==> request_args(command_name, words) == words
            && request_current(command_name, words, Some(current)) == Some(current),
{
    assert((seq![command_name] + words).skip(1) =~= words);
}

/// Configuration entries are accepted exactly when every key has a word and
/// every expansion a word; otherwise the first entry that has not is
/// reported, with a message naming its key when only the expansion is
/// empty.
pub proof fn lemma_entries_accepted_when_all_valid(es: Seq<(Seq<char>, Seq<Seq<char>>)>)
    ensures
        first_invalid(es) is None <==> forall|i: int|
            0 <= i < es.len() ==> crate::text::split_words(#[trigger] es[i].0).len() > 0
                && es[i].1.len() > 0,
        first_invalid(es) matches Some(i) ==> {
            &&& 0 <= i < es.len()
            &&& !(crate::text::split_words(es[i].0).len() > 0 && es[i].1.len() > 0)
            &&& forall|j: int|
                0 <= j < i ==> crate::text::split_words(#[trigger] es[j].0).len() > 0
                    && es[j].1.len() > 0
            &&& entry_error(es[i]) == if crate::text::split_words(es[i].0).len() == 0 {
                "alias keys cannot be empty"@
            } else {
                "alias `"@ + es[i].0 + "` must expand to at least one token"@
            }
        },
{
    lemma_first_invalid_from(es, 0);
}

proof fn lemma_first_invalid_from(es: Seq<(Seq<char>, Seq<Seq<char>>)>, i: int)
    requires
        0 <= i <= es.len(),
    ensures
        match crate::config::first_invalid_from(es, i) {
            None => forall|j: int|
                i <= j < es.len() ==> crate::text::split_words(#[trigger] es[j].0).len() > 0
                    && es[j].1.len() > 0,
            Some(k) => i <= k < es.len() && !(crate::text::split_words(es[k].0).len() > 0
                && es[k].1.len() > 0) && forall|j: int|
                i <= j < k ==> crate::text::split_words(#[trigger] es[j].0).len() > 0
                    && es[j].1.len() > 0,
        },
    decreases es.len() - i,
{
    if i < es.len() && crate::config::entry_is_valid(es[i]) {
        lemma_first_invalid_from(es, i + 1);
    }
}

} // verus!
