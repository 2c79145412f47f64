//! Alias rules of one wrapped command, and the rewriting of its arguments.
use vstd::prelude::*;
use crate::args::{
    decode_all, decode_args, encode_all, encode_words, extend_raw, leading_len, leading_len_raw,
    leading_subcommand_len_os, leading_subcommand_len_strings, lemma_leading_len,
    lemma_leading_len_raw, raw_view,
};
use crate::order::{
    insert_pos, insert_pos_from, insert_sorted, insert_word_sorted, is_sorted_by, is_strict_order,
    lemma_stable_sort_sorted, lemma_words_lt_properties, lists_words, stable_sort, str_lt,
    words_less,
    words_lt,
};
use crate::text::{
    concat3, copy_string, copy_words, extend_words, same_text, split_words, split_words_of,
    string_of,
};

verus! {

/// An alias: the words it matches and the words it expands to.
pub struct Alias {
    pub key: Seq<Seq<char>>,
    pub value: Seq<Seq<char>>,
}

/// One alias of a command: `key` is rewritten to `value`.
#[derive(Debug)]
pub struct AliasRule {
    pub key: Vec<String>,
    pub value: Vec<String>,
}

impl View for AliasRule {
    type V = Alias;

    open spec fn view(&self) -> Alias {
        Alias { key: self.key.deep_view(), value: self.value.deep_view() }
    }
}

/// `a` is tried before `b`: it has more key words, or as many and a key
/// that comes first in the order of word lists.
pub open spec fn rule_before(a: Alias, b: Alias) -> bool {
    ||| a.key.len() > b.key.len()
    ||| (a.key.len() == b.key.len() && words_lt(a.key, b.key))
}

/// The order in which rules are tried.
pub open spec fn rule_order() -> spec_fn(Alias, Alias) -> bool {
    |a: Alias, b: Alias| rule_before(a, b)
}

/// The rule order is a strict order.
pub proof fn lemma_rule_order_strict()
    ensures
        is_strict_order(rule_order()),
{
    lemma_words_lt_properties();
}

/// Whether `a` is tried before `b`.
fn rule_less(a: &AliasRule, b: &AliasRule) -> (res: bool)
    ensures
        res == rule_before(a@, b@),
{
    a.key.len() > b.key.len() || (a.key.len() == b.key.len() && words_less(&a.key, &b.key))
}

/// Rules as a configuration holds them: every key and every expansion has
/// at least one word, and the rules are sorted in the order they are tried.
pub open spec fn well_formed_rules(rules: Seq<Alias>) -> bool {
    &&& forall|i: int|
        0 <= i < rules.len() ==> #[trigger] rules[i].key.len() > 0 && rules[i].value.len() > 0
    &&& is_sorted_by(rules, rule_order())
}

/// The aliases of one wrapped command, in the order they are tried.
#[derive(Debug)]
pub struct CommandConfig {
    aliases: Vec<AliasRule>,
}

impl View for CommandConfig {
    type V = Seq<Alias>;

    closed spec fn view(&self) -> Seq<Alias> {
        self.aliases@.map_values(|r: AliasRule| r@)
    }
}

/// A configuration entry: an alias key as written and its expansion.
pub open spec fn entry_view(e: (String, Vec<String>)) -> (Seq<char>, Seq<Seq<char>>) {
    (e.0@, e.1.deep_view())
}

/// Configuration entries as written.
pub open spec fn entries_view(es: Seq<(String, Vec<String>)>) -> Seq<(Seq<char>, Seq<Seq<char>>)> {
    es.map_values(|e: (String, Vec<String>)| entry_view(e))
}

/// The alias that an entry defines: its key split at white space.
pub open spec fn entry_alias(e: (Seq<char>, Seq<Seq<char>>)) -> Alias {
    Alias { key: split_words(e.0), value: e.1 }
}

/// The aliases that entries define, in entry order.
pub open spec fn entry_aliases(es: Seq<(Seq<char>, Seq<Seq<char>>)>) -> Seq<Alias> {
    es.map_values(|e: (Seq<char>, Seq<Seq<char>>)| entry_alias(e))
}

/// An entry is valid when its key has a word and its expansion has a word.
pub open spec fn entry_is_valid(e: (Seq<char>, Seq<Seq<char>>)) -> bool {
    split_words(e.0).len() > 0 && e.1.len() > 0
}

/// The first invalid entry at or after `i`.
pub open spec fn first_invalid_from(es: Seq<(Seq<char>, Seq<Seq<char>>)>, i: int) -> Option<int>
    decreases es.len() - i,
{
    if i >= es.len() {
        None
    } else if !entry_is_valid(es[i]) {
        Some(i)
    } else {
        first_invalid_from(es, i + 1)
    }
}

/// The first invalid entry.
pub open spec fn first_invalid(es: Seq<(Seq<char>, Seq<Seq<char>>)>) -> Option<int> {
    first_invalid_from(es, 0)
}

/// The message that rejects an invalid entry.
pub open spec fn entry_error(e: (Seq<char>, Seq<Seq<char>>)) -> Seq<char> {
    if split_words(e.0).len() == 0 {
        "alias keys cannot be empty"@
    } else {
        "alias `"@ + e.0 + "` must expand to at least one token"@
    }
}

/// Splits an alias key into its words; a key without words is an error.
pub fn split_alias_key(key: &str) -> (res: Result<Vec<String>, String>)
    ensures
        match res {
            Ok(words) => split_words(key@).len() > 0 && words.deep_view() == split_words(key@),
            Err(msg) => split_words(key@).len() == 0 && msg@ == "alias keys cannot be empty"@,
        },
{
    let words = split_words_of(key);
    if words.len() == 0 {
        return Err(String::from_str("alias keys cannot be empty"));
    }
    Ok(words)
}

/// What is known of a rewrite match: the rule that matched and how many
/// argument words its key covers.
#[derive(Debug, Clone, Copy)]
pub struct RewriteMatch {
    pub rule: usize,
    pub consumed: usize,
}

/// `res` reports the rule `found`: its index and the length of its key.
pub open spec fn describes_match(res: Option<RewriteMatch>, rules: Seq<Alias>, found: Option<int>) -> bool {
    match (res, found) {
        (Some(m), Some(i)) => m.rule == i && 0 <= i < rules.len() && m.consumed == rules[i].key.len(),
        (None, None) => true,
        _ => false,
    }
}

/// `p` is a prefix of `s`, word by word.
pub open spec fn is_word_prefix(p: Seq<Seq<char>>, s: Seq<Seq<char>>) -> bool {
    p.len() <= s.len() && s.take(p.len() as int) == p
}

/// The first rule at or after `i` whose key is a prefix of `leading`.
pub open spec fn first_match_from(rules: Seq<Alias>, leading: Seq<Seq<char>>, i: int) -> Option<int>
    decreases rules.len() - i,
{
    if i >= rules.len() {
        None
    } else if is_word_prefix(rules[i].key, leading) {
        Some(i)
    } else {
        first_match_from(rules, leading, i + 1)
    }
}

/// The first rule whose key is a prefix of `leading`.
pub open spec fn first_match(rules: Seq<Alias>, leading: Seq<Seq<char>>) -> Option<int> {
    first_match_from(rules, leading, 0)
}

/// The rule that rewrites `args`: the first rule whose key is a prefix of
/// the leading subcommand path (none when that path is empty).
pub open spec fn resolve(rules: Seq<Alias>, args: Seq<Seq<char>>) -> Option<int> {
    let n = leading_len(args);
    if n == 0 {
        None
    } else {
        first_match(rules, args.take(n))
    }
}

/// The rule that rewrites raw arguments; the leading path is compared
/// after lossy decoding.
pub open spec fn resolve_raw(rules: Seq<Alias>, args: Seq<Seq<u8>>) -> Option<int> {
    let n = leading_len_raw(args);
    if n == 0 {
        None
    } else {
        first_match(rules, decode_all(args.take(n)))
    }
}

/// `args` rewritten: the matched key replaced by its expansion, the rest
/// kept as it is.
pub open spec fn rewrite(rules: Seq<Alias>, args: Seq<Seq<char>>) -> Seq<Seq<char>> {
    match resolve(rules, args) {
        Some(i) => rules[i].value + args.skip(rules[i].key.len() as int),
        None => args,
    }
}

/// Raw arguments rewritten; the expansion is written as UTF-8 bytes.
pub open spec fn rewrite_raw(rules: Seq<Alias>, args: Seq<Seq<u8>>) -> Seq<Seq<u8>> {
    match resolve_raw(rules, args) {
        Some(i) => encode_all(rules[i].value) + args.skip(rules[i].key.len() as int),
        None => args,
    }
}

/// What `first_match_from` finds.
pub proof fn lemma_first_match_from(rules: Seq<Alias>, leading: Seq<Seq<char>>, i: int)
    requires
        0 <= i,
    ensures
        match first_match_from(rules, leading, i) {
            Some(k) => i <= k < rules.len() && is_word_prefix(rules[k].key, leading) && forall|
                j: int,
            | i <= j < k ==> !is_word_prefix(#[trigger] rules[j].key, leading),
            None => forall|j: int|
                i <= j < rules.len() ==> !is_word_prefix(#[trigger] rules[j].key, leading),
        },
    decreases rules.len() - i,
{
    if i < rules.len() && !is_word_prefix(rules[i].key, leading) {
        lemma_first_match_from(rules, leading, i + 1);
    }
}

/// What `first_match` finds: the first rule whose key is a prefix.
pub proof fn lemma_first_match(rules: Seq<Alias>, leading: Seq<Seq<char>>)
    ensures
        match first_match(rules, leading) {
            Some(k) => 0 <= k < rules.len() && is_word_prefix(rules[k].key, leading) && forall|
                j: int,
            | 0 <= j < k ==> !is_word_prefix(#[trigger] rules[j].key, leading),
            None => forall|j: int|
                0 <= j < rules.len() ==> !is_word_prefix(#[trigger] rules[j].key, leading),
        },
{
    lemma_first_match_from(rules, leading, 0);
}

/// Whether `key` is a prefix of `args[..n]`.
fn key_is_prefix(key: &Vec<String>, args: &Vec<String>, n: usize) -> (res: bool)
    requires
        n <= args.len(),
    ensures
        res == is_word_prefix(key.deep_view(), args.deep_view().take(n as int)),
{
    if key.len() > n {
        return false;
    }
    let mut j: usize = 0;
    while j < key.len()
        invariant
            key.len() <= n <= args.len(),
            j <= key.len(),
            forall|k: int| 0 <= k < j ==> key.deep_view()[k] == args.deep_view()[k],
        decreases key.len() - j,
    {
        if key[j] != args[j] {
            proof {
                assert(args.deep_view().take(n as int).take(key.len() as int)[j as int]
                    != key.deep_view()[j as int]);
            }
            return false;
        }
        j = j + 1;
    }
    proof {
        assert(args.deep_view().take(n as int).take(key.len() as int) =~= key.deep_view());
    }
    true
}

impl CommandConfig {
    #[verifier::type_invariant]
    closed spec fn inv(self) -> bool {
        well_formed_rules(self@)
    }

    /// The rules of every configuration are well formed: a caller holding
    /// a configuration learns this from a call (which does nothing at run
    /// time).
    pub fn lemma_well_formed(&self)
        ensures
            well_formed_rules(self@),
    {
        proof {
            use_type_invariant(self);
        }
    }

    /// Builds the rules of a command from its configuration entries, given
    /// in key order, each key once. The first entry whose key has no word, or whose
    /// expansion is empty, is reported; otherwise the rules are sorted with
    /// longer keys first and equal lengths in key order.
    pub fn from_aliases(aliases: Vec<(String, Vec<String>)>) -> (res: Result<CommandConfig, String>)
        requires
            forall|i: int, j: int|
                0 <= i < j < aliases@.len() ==> str_lt(
                    #[trigger] aliases@[i].0@,
                    #[trigger] aliases@[j].0@,
                ),
        ensures
            match res {
                Ok(config) => {
                    &&& first_invalid(entries_view(aliases@)) is None
                    &&& config@ == stable_sort(
                        entry_aliases(entries_view(aliases@)),
                        rule_order(),
                    )
                    &&& well_formed_rules(config@)
                },
                Err(msg) => match first_invalid(entries_view(aliases@)) {
                    Some(i) => msg@ == entry_error(entries_view(aliases@)[i]),
                    None => false,
                },
            },
    {
        let ghost es = entries_view(aliases@);
        let ghost order = rule_order();
        let mut rules: Vec<AliasRule> = Vec::new();
        let mut i: usize = 0;
        proof {
            lemma_rule_order_strict();
        }
        while i < aliases.len()
            invariant
                es == entries_view(aliases@),
                order == rule_order(),
                is_strict_order(order),
                i <= aliases.len(),
                first_invalid(es) == first_invalid_from(es, i as int),
                rules@.map_values(|r: AliasRule| r@) == stable_sort(
                    entry_aliases(es.take(i as int)),
                    order,
                ),
                forall|k: int|
                    0 <= k < rules@.len() ==> #[trigger] rules@[k]@.key.len() > 0
                        && rules@[k]@.value.len() > 0,
            decreases aliases.len() - i,
        {
            let key = &aliases[i].0;
            let value = &aliases[i].1;
            let key_words = match split_alias_key(key.as_str()) {
                Ok(words) => words,
                Err(msg) => {
                    return Err(msg);
                },
            };
            if value.len() == 0 {
                return Err(
                    concat3("alias `", key.as_str(), "` must expand to at least one token"),
                );
            }
            let rule = AliasRule { key: key_words, value: copy_words(value) };
            let ghost sorted = rules@.map_values(|r: AliasRule| r@);
            let mut j: usize = 0;
            while j < rules.len() && !rule_less(&rule, &rules[j])
                invariant
                    sorted == rules@.map_values(|r: AliasRule| r@),
                    j <= rules.len(),
                    insert_pos(sorted, rule@, order) == insert_pos_from(
                        sorted,
                        rule@,
                        order,
                        j as int,
                    ),
                    order == rule_order(),
                decreases rules.len() - j,
            {
                j = j + 1;
            }
            proof {
                if j < rules.len() {
                    assert(order(rule@, sorted[j as int]));
                }
                assert(insert_pos(sorted, rule@, order) == j);
            }
            let ghost new_view = rule@;
            rules.insert(j, rule);
            i = i + 1;
            proof {
                assert(rules@.map_values(|r: AliasRule| r@) =~= insert_sorted(
                    sorted,
                    new_view,
                    order,
                ));
                assert(es.take(i as int).drop_last() =~= es.take(i - 1));
                assert(entry_aliases(es.take(i as int)).drop_last() =~= entry_aliases(
                    es.take(i - 1),
                ));
                assert(entry_aliases(es.take(i as int)).last() == new_view);
            }
        }
        proof {
            assert(es.take(i as int) =~= es);
            lemma_stable_sort_sorted(entry_aliases(es), order);
        }
        Ok(CommandConfig { aliases: rules })
    }
}

impl CommandConfig {
    /// The first rule whose key is a prefix of `args[..n]`.
    fn first_match_within(&self, args: &Vec<String>, n: usize) -> (res: Option<RewriteMatch>)
        requires
            n <= args.len(),
        ensures
            describes_match(res, self@, first_match(self@, args.deep_view().take(n as int))),
    {
        let ghost leading = args.deep_view().take(n as int);
        let mut i: usize = 0;
        while i < self.aliases.len()
            invariant
                n <= args.len(),
                leading == args.deep_view().take(n as int),
                i <= self.aliases.len(),
                first_match(self@, leading) == first_match_from(self@, leading, i as int),
            decreases self.aliases.len() - i,
        {
            if key_is_prefix(&self.aliases[i].key, args, n) {
                return Some(RewriteMatch { rule: i, consumed: self.aliases[i].key.len() });
            }
            i = i + 1;
        }
        None
    }

    /// The first rule whose key is a prefix of `leading_tokens`.
    pub fn match_leading_tokens(&self, leading_tokens: &Vec<String>) -> (res: Option<RewriteMatch>)
        ensures
            describes_match(res, self@, first_match(self@, leading_tokens.deep_view())),
    {
        proof {
            assert(leading_tokens.deep_view().take(leading_tokens.len() as int)
                =~= leading_tokens.deep_view());
        }
        self.first_match_within(leading_tokens, leading_tokens.len())
    }

    /// The rule that rewrites `args`, if any.
    pub fn resolve_strings(&self, args: &Vec<String>) -> (res: Option<RewriteMatch>)
        ensures
            describes_match(res, self@, resolve(self@, args.deep_view())),
    {
        let n = leading_subcommand_len_strings(args);
        if n == 0 {
            return None;
        }
        proof {
            lemma_leading_len(args.deep_view());
        }
        self.first_match_within(args, n)
    }

    /// The rule that rewrites raw arguments, if any.
    pub fn resolve_os_strings(&self, args: &Vec<Vec<u8>>) -> (res: Option<RewriteMatch>)
        ensures
            describes_match(res, self@, resolve_raw(self@, raw_view(args@))),
    {
        let n = leading_subcommand_len_os(args);
        if n == 0 {
            return None;
        }
        proof {
            lemma_leading_len_raw(raw_view(args@));
        }
        let decoded = decode_args(args);
        proof {
            assert(decoded.deep_view().len() == decoded@.len());
            assert(decoded.deep_view().take(n as int) =~= decode_all(raw_view(args@).take(n as int)));
        }
        self.first_match_within(&decoded, n)
    }

    /// `args` with the leading alias, if one matches, replaced by its
    /// expansion; the words after it are kept as they are.
    pub fn rewrite_strings(&self, args: &Vec<String>) -> (res: Vec<String>)
        ensures
            res.deep_view() == rewrite(self@, args.deep_view()),
    {
        let matched = self.resolve_strings(args);
        self.apply_match(args, matched)
    }

    /// `args` rewritten by the match that `resolve_strings` found.
    fn apply_match(&self, args: &Vec<String>, matched: Option<RewriteMatch>) -> (res: Vec<String>)
        requires
            describes_match(matched, self@, resolve(self@, args.deep_view())),
        ensures
            res.deep_view() == rewrite(self@, args.deep_view()),
    {
        match matched {
            None => copy_words(args),
            Some(m) => {
                proof {
                    lemma_leading_len(args.deep_view());
                    lemma_first_match(self@, args.deep_view().take(leading_len(args.deep_view())));
                }
                let mut out = copy_words(&self.aliases[m.rule].value);
                extend_words(&mut out, args, m.consumed);
                out
            },
        }
    }

    /// The rewritten raw arguments, decoded lossily.
    pub fn rewrite_output(&self, args: &Vec<Vec<u8>>) -> (res: RewriteOutput)
        ensures
            res.args.deep_view() == decode_all(rewrite_raw(self@, raw_view(args@))),
    {
        let rewritten = self.rewrite_os_strings(args);
        RewriteOutput { args: decode_args(&rewritten) }
    }

    /// Raw arguments with the leading alias, if one matches, replaced by
    /// the UTF-8 bytes of its expansion; the arguments after it are kept
    /// byte for byte.
    pub fn rewrite_os_strings(&self, args: &Vec<Vec<u8>>) -> (res: Vec<Vec<u8>>)
        ensures
            raw_view(res@) == rewrite_raw(self@, raw_view(args@)),
    {
        match self.resolve_os_strings(args) {
            None => {
                let mut out: Vec<Vec<u8>> = Vec::new();
                extend_raw(&mut out, args, 0);
                proof {
                    assert(raw_view(out@) =~= raw_view(args@));
                }
                out
            },
            Some(m) => {
                proof {
                    let a = raw_view(args@);
                    lemma_leading_len_raw(a);
                    lemma_first_match(self@, decode_all(a.take(leading_len_raw(a))));
                }
                let mut out = encode_words(&self.aliases[m.rule].value);
                extend_raw(&mut out, args, m.consumed);
                out
            },
        }
    }
}

/// The alias words offered at one position of the command line.
#[derive(Debug)]
pub struct AliasSuggestion {
    pub position: usize,
    pub values: Vec<String>,
}

/// The leading subcommand path of `args`.
pub open spec fn leading_words(args: Seq<Seq<char>>) -> Seq<Seq<char>> {
    args.take(leading_len(args))
}

/// `rule` offers `word` at `position` (counted from 1) after the leading
/// path `leading`: its key has `position` words, the path holds the first
/// `position - 1` of them, and `word` is the last one.
pub open spec fn suggests(rule: Alias, leading: Seq<Seq<char>>, position: int, word: Seq<char>) -> bool {
    &&& rule.key.len() == position
    &&& 1 <= position <= leading.len() + 1
    &&& leading.take(position - 1) == rule.key.take(position - 1)
    &&& rule.key[position - 1] == word
}

/// The words that the first `n` rules offer at `position`.
pub open spec fn suggested_words_upto(
    rules: Seq<Alias>,
    leading: Seq<Seq<char>>,
    position: int,
    n: int,
) -> Set<Seq<char>> {
    Set::new(
        |w: Seq<char>| exists|i: int| 0 <= i < n && #[trigger] suggests(rules[i], leading, position, w),
    )
}

/// The words that the rules offer at `position`.
pub open spec fn suggested_words(rules: Seq<Alias>, leading: Seq<Seq<char>>, position: int) -> Set<
    Seq<char>,
> {
    suggested_words_upto(rules, leading, position, rules.len() as int)
}

/// Some rule offers a word at `position`.
pub open spec fn has_suggestion(rules: Seq<Alias>, leading: Seq<Seq<char>>, position: int) -> bool {
    exists|i: int|
        0 <= i < rules.len() && #[trigger] suggests(
            rules[i],
            leading,
            position,
            rules[i].key[position - 1],
        )
}

/// The suggestion lists of `out` hold, in increasing position, exactly the
/// positions at which a rule offers a word, and at each of them the words
/// offered, sorted and each once.
pub open spec fn describes_suggestions(
    out: Seq<AliasSuggestion>,
    rules: Seq<Alias>,
    leading: Seq<Seq<char>>,
) -> bool {
    &&& forall|a: int, b: int|
        0 <= a < b < out.len() ==> #[trigger] out[a].position < #[trigger] out[b].position
    &&& forall|k: int|
        0 <= k < out.len() ==> #[trigger] out[k].values.len() > 0 && lists_words(
            out[k].values.deep_view(),
            suggested_words(rules, leading, out[k].position as int),
        )
    &&& forall|p: int|
        #[trigger] has_suggestion(rules, leading, p) ==> exists|k: int|
            0 <= k < out.len() && #[trigger] out[k].position == p
}

/// Whether `a[..p]` and `b[..p]` hold the same words.
fn same_prefix(a: &Vec<String>, b: &Vec<String>, p: usize) -> (res: bool)
    requires
        p <= a.len(),
        p <= b.len(),
    ensures
        res == (a.deep_view().take(p as int) == b.deep_view().take(p as int)),
{
    let mut j: usize = 0;
    while j < p
        invariant
            p <= a.len(),
            p <= b.len(),
            j <= p,
            forall|k: int| 0 <= k < j ==> a.deep_view()[k] == b.deep_view()[k],
        decreases p - j,
    {
        if a[j] != b[j] {
            proof {
                assert(a.deep_view().take(p as int)[j as int] != b.deep_view().take(p as int)[j as int]);
            }
            return false;
        }
        j = j + 1;
    }
    proof {
        assert(a.deep_view().take(p as int) =~= b.deep_view().take(p as int));
    }
    true
}

impl CommandConfig {
    /// The words that the rules offer at position `p + 1` after the first
    /// `n` words of `args`; the position is returned with them when there
    /// are any.
    fn suggestions_at(&self, args: &Vec<String>, n: usize, p: usize) -> (res: (usize, Vec<String>))
        requires
            n <= args.len(),
            p <= n,
        ensures
            lists_words(
                res.1.deep_view(),
                suggested_words(self@, args.deep_view().take(n as int), p + 1),
            ),
            res.1.len() > 0 ==> res.0 == p + 1,
    {
        proof {
            use_type_invariant(self);
        }
        let ghost leading = args.deep_view().take(n as int);
        let ghost rules = self@;
        let mut values: Vec<String> = Vec::new();
        let mut position: usize = 0;
        let mut i: usize = 0;
        proof {
            assert(values.deep_view().to_set() =~= suggested_words_upto(rules, leading, p + 1, 0));
        }
        while i < self.aliases.len()
            invariant
                n <= args.len(),
                p <= n,
                rules == self@,
                leading == args.deep_view().take(n as int),
                i <= self.aliases.len(),
                lists_words(
                    values.deep_view(),
                    suggested_words_upto(rules, leading, p + 1, i as int),
                ),
                values.len() > 0 ==> position == p + 1,
            decreases self.aliases.len() - i,
        {
            let rule = &self.aliases[i];
            let ghost before = values.deep_view().to_set();
            if rule.key.len() > 0 && rule.key.len() - 1 == p && same_prefix(&rule.key, args, p) {
                proof {
                    assert(leading.take(p as int) =~= args.deep_view().take(p as int));
                }
                let word = copy_string(&rule.key[p]);
                insert_word_sorted(&mut values, word);
                position = rule.key.len();
                proof {
                    assert(suggests(rules[i as int], leading, p + 1, word@));
                    assert(suggested_words_upto(rules, leading, p + 1, i + 1) =~= before.insert(
                        word@,
                    ));
                }
            } else {
                proof {
                    assert(leading.take(p as int) =~= args.deep_view().take(p as int));
                    assert(suggested_words_upto(rules, leading, p + 1, i + 1) =~= before);
                }
            }
            i = i + 1;
        }
        (position, values)
    }

    /// The alias words offered at each position of the leading path of
    /// `args`, by increasing position, each list sorted and without repeats.
    pub fn alias_suggestions(&self, args: &Vec<String>) -> (res: Vec<AliasSuggestion>)
        ensures
            describes_suggestions(res@, self@, leading_words(args.deep_view())),
    {
        proof {
            use_type_invariant(self);
        }
        let n = leading_subcommand_len_strings(args);
        proof {
            lemma_leading_len(args.deep_view());
        }
        let ghost leading = args.deep_view().take(n as int);
        let ghost rules = self@;
        let mut out: Vec<AliasSuggestion> = Vec::new();
        let mut p: usize = 0;
        loop
            invariant_except_break
                n <= args.len(),
                p <= n,
                rules == self@,
                leading == args.deep_view().take(n as int),
                forall|a: int, b: int|
                    0 <= a < b < out@.len() ==> #[trigger] out@[a].position
                        < #[trigger] out@[b].position,
                forall|k: int|
                    0 <= k < out@.len() ==> 1 <= #[trigger] out@[k].position <= p,
                forall|k: int|
                    0 <= k < out@.len() ==> #[trigger] out@[k].values.len() > 0 && lists_words(
                        out@[k].values.deep_view(),
                        suggested_words(rules, leading, out@[k].position as int),
                    ),
                forall|q: int|
                    1 <= q <= p && #[trigger] has_suggestion(rules, leading, q) ==> exists|k: int|
                        0 <= k < out@.len() && #[trigger] out@[k].position == q,
            ensures
                describes_suggestions(out@, rules, leading),
            decreases n - p,
        {
            let (position, values) = self.suggestions_at(args, n, p);
            let ghost before = out@;
            if values.len() > 0 {
                out.push(AliasSuggestion { position, values });
                proof {
                    assert(out@[before.len() as int].position == p + 1);
                    assert forall|q: int|
                        1 <= q <= p + 1 && #[trigger] has_suggestion(rules, leading, q) implies exists|
                        k: int,
                    | 0 <= k < out@.len() && #[trigger] out@[k].position == q by {
                        if q <= p {
                            let k = choose|k: int|
                                0 <= k < before.len() && #[trigger] before[k].position == q;
                            assert(out@[k] == before[k]);
                        } else {
                            assert(out@[before.len() as int].position == q);
                        }
                    }
                }
            } else {
                proof {
                    assert forall|q: int|
                        1 <= q <= p + 1 && #[trigger] has_suggestion(rules, leading, q) implies exists|
                        k: int,
                    | 0 <= k < out@.len() && #[trigger] out@[k].position == q by {
                        if q == p + 1 {
                            let i = choose|i: int|
                                0 <= i < rules.len() && #[trigger] suggests(
                                    rules[i],
                                    leading,
                                    q,
                                    rules[i].key[q - 1],
                                );
                            assert(suggested_words(rules, leading, q).contains(rules[i].key[q - 1]));
                            assert(values.deep_view().to_set().contains(rules[i].key[q - 1]));
                        }
                    }
                }
            }
            if p == n {
                proof {
                    assert forall|q: int| #[trigger] has_suggestion(rules, leading, q) implies exists|
                        k: int,
                    | 0 <= k < out@.len() && #[trigger] out@[k].position == q by {
                        let i = choose|i: int|
                            0 <= i < rules.len() && #[trigger] suggests(
                                rules[i],
                                leading,
                                q,
                                rules[i].key[q - 1],
                            );
                        assert(1 <= q <= p + 1);
                    }
                }
                break;
            }
            p = p + 1;
        }
        out
    }
}

/// Where the cursor at word `position` of the arguments lands after a
/// rewrite that replaced `consumed` words by `expanded` words: inside the
/// replaced words it moves to the last expansion word (at least the first
/// word), after them it shifts by the change in length.
pub open spec fn completion_position(position: int, consumed: int, expanded: int) -> int {
    if position <= consumed {
        if expanded >= 1 {
            expanded
        } else {
            1
        }
    } else {
        position - consumed + expanded
    }
}

/// Moves a completion cursor across a rewrite.
pub fn rewrite_completion_position(position: usize, consumed: usize, expanded: usize) -> (res: usize)
    requires
        completion_position(position as int, consumed as int, expanded as int) <= usize::MAX,
    ensures
        res == completion_position(position as int, consumed as int, expanded as int),
{
    if position <= consumed {
        if expanded >= 1 {
            expanded
        } else {
            1
        }
    } else {
        position - consumed + expanded
    }
}

/// The cursor `current` after `args` are rewritten.
pub open spec fn current_after(rules: Seq<Alias>, args: Seq<Seq<char>>, current: Option<usize>) -> Option<
    int,
> {
    match current {
        None => None,
        Some(p) => Some(
            match resolve(rules, args) {
                Some(i) => completion_position(
                    p as int,
                    rules[i].key.len() as int,
                    rules[i].value.len() as int,
                ),
                None => p as int,
            },
        ),
    }
}

/// `res` holds the value `expected` has.
pub open spec fn same_position(res: Option<usize>, expected: Option<int>) -> bool {
    match (res, expected) {
        (Some(r), Some(e)) => r == e,
        (None, None) => true,
        _ => false,
    }
}

/// The alias words for the cursor: the words offered at its position, or
/// none without a cursor.
pub open spec fn describes_alias_values(
    values: Seq<Seq<char>>,
    rules: Seq<Alias>,
    args: Seq<Seq<char>>,
    current: Option<usize>,
) -> bool {
    match current {
        Some(p) => lists_words(values, suggested_words(rules, leading_words(args), p as int)),
        None => values.len() == 0,
    }
}

/// What the completion of a command line reports.
#[derive(Debug)]
pub struct CompletionOutput {
    /// The command name and the rewritten arguments.
    pub rewritten: Vec<String>,
    /// The cursor position in the rewritten arguments.
    pub rewritten_current: Option<usize>,
    /// The alias words offered at each position.
    pub aliases: Vec<AliasSuggestion>,
    /// The alias words offered at the cursor.
    pub alias_values: Vec<String>,
}

/// The rewritten arguments that `wrappy rewrite` reports, as text.
#[derive(Debug)]
pub struct RewriteOutput {
    pub args: Vec<String>,
}

/// The words a completion request is about: `words` without the command
/// name when they start with it.
pub open spec fn request_args(command_name: Seq<char>, words: Seq<Seq<char>>) -> Seq<Seq<char>> {
    if words.len() > 0 && words[0] == command_name {
        words.skip(1)
    } else {
        words
    }
}

/// The cursor of a completion request, counted in `request_args`.
pub open spec fn request_current(
    command_name: Seq<char>,
    words: Seq<Seq<char>>,
    current: Option<usize>,
) -> Option<usize> {
    match current {
        None => None,
        Some(c) => Some(
            if words.len() > 0 && words[0] == command_name {
                if c >= 1 {
                    (c - 1) as usize
                } else {
                    0usize
                }
            } else {
                c
            },
        ),
    }
}

/// The cursor of a completion request after the rewrite, counted in the
/// full command line (the command name is word 1).
pub open spec fn request_current_after(
    rules: Seq<Alias>,
    command_name: Seq<char>,
    words: Seq<Seq<char>>,
    current: Option<usize>,
) -> Option<int> {
    match current_after(
        rules,
        request_args(command_name, words),
        request_current(command_name, words, current),
    ) {
        Some(v) => Some(v + 1),
        None => None,
    }
}

impl CommandConfig {
    /// The alias words offered at `position`, sorted and without repeats.
    pub fn alias_values_for_position(&self, args: &Vec<String>, position: usize) -> (res: Vec<
        String,
    >)
        ensures
            lists_words(
                res.deep_view(),
                suggested_words(self@, leading_words(args.deep_view()), position as int),
            ),
    {
        let suggestions = self.alias_suggestions(args);
        let ghost leading = leading_words(args.deep_view());
        let mut k: usize = 0;
        while k < suggestions.len()
            invariant
                leading == leading_words(args.deep_view()),
                describes_suggestions(suggestions@, self@, leading),
                k <= suggestions.len(),
                forall|j: int| 0 <= j < k ==> #[trigger] suggestions@[j].position != position,
            decreases suggestions.len() - k,
        {
            if suggestions[k].position == position {
                return copy_words(&suggestions[k].values);
            }
            k = k + 1;
        }
        let res: Vec<String> = Vec::new();
        proof {
            let none: Seq<Seq<char>> = Seq::empty();
            assert(res.deep_view() =~= none);
            assert(!has_suggestion(self@, leading, position as int));
            assert(none.to_set() =~= suggested_words(self@, leading, position as int)) by {
                assert forall|w: Seq<char>| !suggested_words(
                    self@,
                    leading,
                    position as int,
                ).contains(w) by {
                    if suggested_words(self@, leading, position as int).contains(w) {
                        let i = choose|i: int|
                            0 <= i < self@.len() && #[trigger] suggests(
                                self@[i],
                                leading,
                                position as int,
                                w,
                            );
                        assert(has_suggestion(self@, leading, position as int));
                    }
                }
            }
        }
        res
    }

    /// What completion reports for `args` of `command_name` with the cursor
    /// at `current`: the rewritten command line, the cursor moved across
    /// the rewrite, and the alias words offered.
    pub fn completion_output(&self, command_name: &str, args: &Vec<String>, current: Option<usize>) -> (res:
        CompletionOutput)
        requires
            current_after(self@, args.deep_view(), current) matches Some(v) ==> v <= usize::MAX,
        ensures
            res.rewritten.deep_view() == seq![command_name@] + rewrite(self@, args.deep_view()),
            same_position(res.rewritten_current, current_after(self@, args.deep_view(), current)),
            describes_suggestions(res.aliases@, self@, leading_words(args.deep_view())),
            describes_alias_values(res.alias_values.deep_view(), self@, args.deep_view(), current),
    {
        let matched = self.resolve_strings(args);
        let rewritten_args = self.apply_match(args, matched);
        let rewritten_current = match current {
            None => None,
            Some(position) => match matched {
                None => Some(position),
                Some(m) => Some(
                    rewrite_completion_position(
                        position,
                        m.consumed,
                        self.aliases[m.rule].value.len(),
                    ),
                ),
            },
        };
        let aliases = self.alias_suggestions(args);
        let alias_values = match current {
            Some(position) => self.alias_values_for_position(args, position),
            None => Vec::new(),
        };
        let mut rewritten: Vec<String> = Vec::new();
        rewritten.push(string_of(command_name));
        extend_words(&mut rewritten, &rewritten_args, 0);
        proof {
            assert(rewritten_args.deep_view().skip(0) =~= rewritten_args.deep_view());
            assert(rewritten.deep_view() =~= seq![command_name@] + rewrite(self@, args.deep_view()));
        }
        CompletionOutput { rewritten, rewritten_current, aliases, alias_values }
    }

    /// Whether the cursor of a completion request stays within `usize`
    /// once it is moved across the rewrite and counted from the command name.
    pub fn completion_request_fits(&self, command_name: &str, words: &Vec<String>, current: Option<
        usize,
    >) -> (res: bool)
        ensures
            res == (request_current_after(self@, command_name@, words.deep_view(), current) matches Some(
                v,
            ) ==> v <= usize::MAX),
    {
        let (args, relative) = split_request(command_name, words, current);
        match relative {
            None => true,
            Some(p) => match self.resolve_strings(&args) {
                None => p < usize::MAX,
                Some(m) => {
                    let expanded = self.aliases[m.rule].value.len();
                    if p <= m.consumed {
                        expanded < usize::MAX
                    } else {
                        p - m.consumed < usize::MAX - expanded
                    }
                },
            },
        }
    }

    /// What completion reports for the words of a command line, which may
    /// start with the command name; the cursor counts the command name as
    /// word 1, before and after the rewrite.
    pub fn complete_response(&self, command_name: &str, words: &Vec<String>, current: Option<
        usize,
    >) -> (res: CompletionOutput)
        requires
            request_current_after(self@, command_name@, words.deep_view(), current) matches Some(v)
                ==> v <= usize::MAX,
        ensures
            res.rewritten.deep_view() == seq![command_name@] + rewrite(
                self@,
                request_args(command_name@, words.deep_view()),
            ),
            same_position(
                res.rewritten_current,
                request_current_after(self@, command_name@, words.deep_view(), current),
            ),
            describes_suggestions(
                res.aliases@,
                self@,
                leading_words(request_args(command_name@, words.deep_view())),
            ),
            describes_alias_values(
                res.alias_values.deep_view(),
                self@,
                request_args(command_name@, words.deep_view()),
                request_current(command_name@, words.deep_view(), current),
            ),
    {
        let (args, relative) = split_request(command_name, words, current);
        let mut response = self.completion_output(command_name, &args, relative);
        response.rewritten_current = match response.rewritten_current {
            Some(rewritten_current) => Some(rewritten_current + 1),
            None => None,
        };
        response
    }
}

/// The arguments and cursor of a completion request, without the command
/// name when the words start with it.
fn split_request(command_name: &str, words: &Vec<String>, current: Option<usize>) -> (res: (
    Vec<String>,
    Option<usize>,
))
    ensures
        res.0.deep_view() == request_args(command_name@, words.deep_view()),
        res.1 == request_current(command_name@, words.deep_view(), current),
{
    let has_command_name = words.len() > 0 && same_text(words[0].as_str(), command_name);
    let mut args: Vec<String> = Vec::new();
    if has_command_name {
        extend_words(&mut args, words, 1);
    } else {
        extend_words(&mut args, words, 0);
    }
    proof {
        assert(words.deep_view().skip(0) =~= words.deep_view());
        assert(args.deep_view() =~= request_args(command_name@, words.deep_view()));
    }
    let relative = match current {
        None => None,
        Some(c) => Some(
            if has_command_name {
                if c >= 1 {
                    c - 1
                } else {
                    0
                }
            } else {
                c
            },
        ),
    };
    (args, relative)
}

impl Default for CommandConfig {
    /// A configuration without aliases.
    fn default() -> (res: Self)
        ensures
            res@ == Seq::<Alias>::empty(),
    {
        let res = CommandConfig { aliases: Vec::new() };
        proof {
            assert(res@ =~= Seq::<Alias>::empty());
        }
        res
    }
}

} // verus!
