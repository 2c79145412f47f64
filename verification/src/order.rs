//! Orders on strings (the byte order of their UTF-8 encodings, as for
//! `String`'s `Ord`) and on word lists, and stable insertion into sorted
//! sequences.
use vstd::prelude::*;
use vstd::utf8::*;

verus! {

/// Lexicographic order of `a[i..]` and `b[i..]` (a proper prefix comes first).
pub open spec fn bytes_lt_from(a: Seq<u8>, b: Seq<u8>, i: int) -> bool
    decreases b.len() - i,
{
    if i >= b.len() {
        false
    } else if i >= a.len() {
        true
    } else if a[i] < b[i] {
        true
    } else if a[i] > b[i] {
        false
    } else {
        bytes_lt_from(a, b, i + 1)
    }
}

/// Lexicographic order of byte sequences.
pub open spec fn bytes_lt(a: Seq<u8>, b: Seq<u8>) -> bool {
    bytes_lt_from(a, b, 0)
}

/// The order of `String`s: by the bytes of their UTF-8 encodings.
pub open spec fn str_lt(a: Seq<char>, b: Seq<char>) -> bool {
    bytes_lt(encode_utf8(a), encode_utf8(b))
}

/// Lexicographic order of `a[i..]` and `b[i..]`, word by word.
pub open spec fn words_lt_from(a: Seq<Seq<char>>, b: Seq<Seq<char>>, i: int) -> bool
    decreases b.len() - i,
{
    if i >= b.len() {
        false
    } else if i >= a.len() {
        true
    } else if str_lt(a[i], b[i]) {
        true
    } else if str_lt(b[i], a[i]) {
        false
    } else {
        words_lt_from(a, b, i + 1)
    }
}

/// The order of `Vec<String>`s: lexicographic, word by word.
pub open spec fn words_lt(a: Seq<Seq<char>>, b: Seq<Seq<char>>) -> bool {
    words_lt_from(a, b, 0)
}

proof fn lemma_bytes_lt_from_asymmetric(a: Seq<u8>, b: Seq<u8>, i: int)
    requires
        0 <= i,
    ensures
        bytes_lt_from(a, b, i) ==> !bytes_lt_from(b, a, i),
    decreases b.len() - i,
{
    if i < b.len() && i < a.len() && a[i] == b[i] {
        lemma_bytes_lt_from_asymmetric(a, b, i + 1);
    }
}

proof fn lemma_bytes_lt_from_transitive(a: Seq<u8>, b: Seq<u8>, c: Seq<u8>, i: int)
    requires
        0 <= i,
        bytes_lt_from(a, b, i),
        bytes_lt_from(b, c, i),
    ensures
        bytes_lt_from(a, c, i),
    decreases c.len() - i,
{
    if i < a.len() && i < b.len() && i < c.len() && a[i] == b[i] && b[i] == c[i] {
        lemma_bytes_lt_from_transitive(a, b, c, i + 1);
    }
}

proof fn lemma_bytes_lt_from_total(a: Seq<u8>, b: Seq<u8>, i: int)
    requires
        0 <= i <= a.len(),
        i <= b.len(),
        !bytes_lt_from(a, b, i),
        !bytes_lt_from(b, a, i),
    ensures
        a.skip(i) == b.skip(i),
    decreases a.len() - i,
{
    if i < a.len() && i < b.len() {
        lemma_bytes_lt_from_total(a, b, i + 1);
        assert(a.skip(i) =~= seq![a[i]] + a.skip(i + 1));
        assert(b.skip(i) =~= seq![b[i]] + b.skip(i + 1));
    } else {
        assert(a.skip(i) =~= b.skip(i));
    }
}

/// The string order is a strict total order.
pub proof fn lemma_str_lt_properties()
    ensures
        forall|a: Seq<char>, b: Seq<char>| #[trigger] str_lt(a, b) ==> !str_lt(b, a),
        forall|a: Seq<char>, b: Seq<char>, c: Seq<char>|
            #[trigger] str_lt(a, b) && #[trigger] str_lt(b, c) ==> str_lt(a, c),
        forall|a: Seq<char>, b: Seq<char>|
            !#[trigger] str_lt(a, b) && !str_lt(b, a) ==> a == b,
{
    assert forall|a: Seq<char>, b: Seq<char>| #[trigger] str_lt(a, b) implies !str_lt(b, a) by {
        lemma_bytes_lt_from_asymmetric(encode_utf8(a), encode_utf8(b), 0);
    }
    assert forall|a: Seq<char>, b: Seq<char>, c: Seq<char>|
        #[trigger] str_lt(a, b) && #[trigger] str_lt(b, c) implies str_lt(a, c) by {
        lemma_bytes_lt_from_transitive(encode_utf8(a), encode_utf8(b), encode_utf8(c), 0);
    }
    assert forall|a: Seq<char>, b: Seq<char>| !#[trigger] str_lt(a, b) && !str_lt(b, a) implies a
        == b by {
        lemma_bytes_lt_from_total(encode_utf8(a), encode_utf8(b), 0);
        assert(encode_utf8(a).skip(0) =~= encode_utf8(a));
        assert(encode_utf8(b).skip(0) =~= encode_utf8(b));
        encode_utf8_decode_utf8(a);
        encode_utf8_decode_utf8(b);
    }
}

proof fn lemma_words_lt_from_asymmetric(a: Seq<Seq<char>>, b: Seq<Seq<char>>, i: int)
    requires
        0 <= i,
    ensures
        words_lt_from(a, b, i) ==> !words_lt_from(b, a, i),
    decreases b.len() - i,
{
    lemma_str_lt_properties();
    if i < b.len() && i < a.len() && !str_lt(a[i], b[i]) && !str_lt(b[i], a[i]) {
        lemma_words_lt_from_asymmetric(a, b, i + 1);
    }
}

proof fn lemma_words_lt_from_transitive(
    a: Seq<Seq<char>>,
    b: Seq<Seq<char>>,
    c: Seq<Seq<char>>,
    i: int,
)
    requires
        0 <= i,
        words_lt_from(a, b, i),
        words_lt_from(b, c, i),
    ensures
        words_lt_from(a, c, i),
    decreases c.len() - i,
{
    lemma_str_lt_properties();
    if i < a.len() && i < b.len() && i < c.len() {
        if !str_lt(a[i], b[i]) && !str_lt(b[i], a[i]) && !str_lt(b[i], c[i]) && !str_lt(
            c[i],
            b[i],
        ) {
            lemma_words_lt_from_transitive(a, b, c, i + 1);
        }
    }
}

/// The word-list order is a strict order.
pub proof fn lemma_words_lt_properties()
    ensures
        forall|a: Seq<Seq<char>>, b: Seq<Seq<char>>| #[trigger] words_lt(a, b) ==> !words_lt(b, a),
        forall|a: Seq<Seq<char>>, b: Seq<Seq<char>>, c: Seq<Seq<char>>|
            #[trigger] words_lt(a, b) && #[trigger] words_lt(b, c) ==> words_lt(a, c),
{
    assert forall|a: Seq<Seq<char>>, b: Seq<Seq<char>>| #[trigger] words_lt(a, b) implies !words_lt(
        b,
        a,
    ) by {
        lemma_words_lt_from_asymmetric(a, b, 0);
    }
    assert forall|a: Seq<Seq<char>>, b: Seq<Seq<char>>, c: Seq<Seq<char>>|
        #[trigger] words_lt(a, b) && #[trigger] words_lt(b, c) implies words_lt(a, c) by {
        lemma_words_lt_from_transitive(a, b, c, 0);
    }
}

proof fn lemma_encode_concat(a: Seq<char>, b: Seq<char>)
    ensures
        encode_utf8(a + b) == encode_utf8(a) + encode_utf8(b),
    decreases a.len(),
{
    if a.len() == 0 {
        assert(a + b =~= b);
        assert(encode_utf8(a) =~= Seq::<u8>::empty());
        assert(Seq::<u8>::empty() + encode_utf8(b) =~= encode_utf8(b));
    } else {
        lemma_encode_concat(a.drop_first(), b);
        assert((a + b).drop_first() =~= a.drop_first() + b);
        assert((a + b)[0] == a[0]);
        assert(encode_utf8(a + b) =~= encode_utf8(a) + encode_utf8(b));
    }
}

proof fn lemma_bytes_lt_from_prefix(x: Seq<u8>, y: Seq<u8>, i: int)
    requires
        y.len() > 0,
        0 <= i <= x.len(),
    ensures
        bytes_lt_from(x, x + y, i),
    decreases x.len() - i,
{
    if i < x.len() {
        assert((x + y)[i] == x[i]);
        lemma_bytes_lt_from_prefix(x, y, i + 1);
    }
}

proof fn lemma_bytes_lt_from_common(x: Seq<u8>, y: Seq<u8>, z: Seq<u8>, j: int)
    requires
        0 <= j,
    ensures
        bytes_lt_from(x + y, x + z, x.len() + j) == bytes_lt_from(y, z, j),
    decreases z.len() - j,
{
    if j < z.len() && j < y.len() && y[j] == z[j] {
        lemma_bytes_lt_from_common(x, y, z, j + 1);
    }
    if j < z.len() {
        assert((x + z)[x.len() + j] == z[j]);
    }
    if j < y.len() {
        assert((x + y)[x.len() + j] == y[j]);
    }
}

proof fn lemma_bytes_lt_from_shared(x: Seq<u8>, y: Seq<u8>, z: Seq<u8>, i: int)
    requires
        0 <= i <= x.len(),
    ensures
        bytes_lt_from(x + y, x + z, i) == bytes_lt_from(y, z, 0),
    decreases x.len() - i,
{
    if i < x.len() {
        assert((x + y)[i] == x[i] && (x + z)[i] == x[i]);
        lemma_bytes_lt_from_shared(x, y, z, i + 1);
    } else {
        lemma_bytes_lt_from_common(x, y, z, 0);
    }
}

/// A string comes before every longer string that starts with it, and two
/// strings that start alike are ordered as what follows the shared start.
pub proof fn lemma_str_lt_prefix_and_shared_start(p: Seq<char>, a: Seq<char>, b: Seq<char>)
    ensures
        b.len() > 0 ==> str_lt(p, p + b),
        b.len() > 0 ==> !str_lt(p + b, p),
        str_lt(p + a, p + b) == str_lt(a, b),
{
    lemma_encode_concat(p, a);
    lemma_encode_concat(p, b);
    if b.len() > 0 {
        assert(encode_utf8(b).len() > 0) by {
            assert(encode_utf8(b) == encode_scalar(b[0] as u32) + encode_utf8(b.drop_first()));
        }
        lemma_bytes_lt_from_prefix(encode_utf8(p), encode_utf8(b), 0);
        lemma_str_lt_properties();
    }
    lemma_bytes_lt_from_shared(encode_utf8(p), encode_utf8(a), encode_utf8(b), 0);
}

/// Whether `a` comes before `b` in the order of `String`s.
pub fn string_less(a: &str, b: &str) -> (res: bool)
    ensures
        res == str_lt(a@, b@),
{
    let x = a.as_bytes();
    let y = b.as_bytes();
    let mut i: usize = 0;
    while i < y.len()
        invariant
            x@ == encode_utf8(a@),
            y@ == encode_utf8(b@),
            i <= y.len(),
            str_lt(a@, b@) == bytes_lt_from(x@, y@, i as int),
        decreases y.len() - i,
    {
        if i >= x.len() {
            return true;
        }
        if x[i] < y[i] {
            return true;
        }
        if x[i] > y[i] {
            return false;
        }
        i = i + 1;
    }
    false
}

/// Whether the word list `a` comes before `b` in the order of `Vec<String>`s.
pub fn words_less(a: &Vec<String>, b: &Vec<String>) -> (res: bool)
    ensures
        res == words_lt(a.deep_view(), b.deep_view()),
{
    let ghost x = a.deep_view();
    let ghost y = b.deep_view();
    let mut i: usize = 0;
    while i < b.len()
        invariant
            x == a.deep_view(),
            y == b.deep_view(),
            i <= b.len(),
            words_lt(x, y) == words_lt_from(x, y, i as int),
        decreases b.len() - i,
    {
        if i >= a.len() {
            return true;
        }
        if string_less(a[i].as_str(), b[i].as_str()) {
            return true;
        }
        if string_less(b[i].as_str(), a[i].as_str()) {
            return false;
        }
        i = i + 1;
    }
    false
}

/// Each word comes strictly before the next in the order of `String`s.
pub open spec fn strictly_sorted_words(s: Seq<Seq<char>>) -> bool {
    forall|i: int, j: int| 0 <= i < j < s.len() ==> str_lt(#[trigger] s[i], #[trigger] s[j])
}

/// `values` lists the set `words` in the order of `String`s, each once.
pub open spec fn lists_words(values: Seq<Seq<char>>, words: Set<Seq<char>>) -> bool {
    strictly_sorted_words(values) && values.to_set() == words
}

/// Adds `word` to the sorted list `values` unless it is there already.
pub fn insert_word_sorted(values: &mut Vec<String>, word: String)
    requires
        strictly_sorted_words(old(values).deep_view()),
    ensures
        lists_words(final(values).deep_view(), old(values).deep_view().to_set().insert(word@)),
{
    proof {
        lemma_str_lt_properties();
    }
    let ghost v = values.deep_view();
    let mut j: usize = 0;
    while j < values.len() && string_less(values[j].as_str(), word.as_str())
        invariant
            v == values.deep_view(),
            j <= values.len(),
            forall|k: int| 0 <= k < j ==> str_lt(#[trigger] v[k], word@),
        decreases values.len() - j,
    {
        j = j + 1;
    }
    if j < values.len() && values[j] == word {
        proof {
            assert(v[j as int] == word@);
            assert(v.contains(word@));
            assert(v.to_set().contains(word@));
            assert(v.to_set().insert(word@) =~= v.to_set());
        }
        return;
    }
    proof {
        if j < v.len() {
            assert(str_lt(word@, v[j as int]));
        }
    }
    values.insert(j, word);
    proof {
        let r = values.deep_view();
        assert(r =~= v.insert(j as int, word@));
        assert forall|a: int, b: int| 0 <= a < b < r.len() implies str_lt(
            #[trigger] r[a],
            #[trigger] r[b],
        ) by {
            if b < j {
            } else if b == j {
            } else if a < j {
                assert(r[b] == v[b - 1]);
                assert(str_lt(v[a], v[j as int]));
            } else if a == j {
                assert(r[b] == v[b - 1]);
                if b - 1 > j {
                    assert(str_lt(v[j as int], v[b - 1]));
                }
            } else {
                assert(r[a] == v[a - 1] && r[b] == v[b - 1]);
            }
        }
        assert(r.to_set() =~= v.to_set().insert(word@)) by {
            assert forall|x: Seq<char>| r.to_set().contains(x) <==> v.to_set().insert(
                word@,
            ).contains(x) by {
                if r.contains(x) {
                    let k = choose|k: int| 0 <= k < r.len() && r[k] == x;
                    if k < j {
                        assert(v[k] == x);
                    } else if k > j {
                        assert(v[k - 1] == x);
                    }
                }
                if v.contains(x) {
                    let k = choose|k: int| 0 <= k < v.len() && v[k] == x;
                    if k < j {
                        assert(r[k] == x);
                    } else {
                        assert(r[k + 1] == x);
                    }
                }
                if x == word@ {
                    assert(r[j as int] == x);
                }
            }
        }
    }
}

/// `before` is asymmetric and transitive.
pub open spec fn is_strict_order<T>(before: spec_fn(T, T) -> bool) -> bool {
    &&& forall|a: T, b: T| #[trigger] before(a, b) ==> !before(b, a)
    &&& forall|a: T, b: T, c: T| #[trigger] before(a, b) && #[trigger] before(b, c) ==> before(a, c)
}

/// No element of `s` comes before an element to its left.
pub open spec fn is_sorted_by<T>(s: Seq<T>, before: spec_fn(T, T) -> bool) -> bool {
    forall|i: int, j: int| 0 <= i < j < s.len() ==> !before(#[trigger] s[j], #[trigger] s[i])
}

/// The first index `k >= i` such that `x` comes before `s[k]`, or `s.len()`.
pub open spec fn insert_pos_from<T>(
    s: Seq<T>,
    x: T,
    before: spec_fn(T, T) -> bool,
    i: int,
) -> int
    decreases s.len() - i,
{
    if i >= s.len() {
        s.len() as int
    } else if before(x, s[i]) {
        i
    } else {
        insert_pos_from(s, x, before, i + 1)
    }
}

/// Where `x` goes into `s`: after every element that `x` does not come before.
pub open spec fn insert_pos<T>(s: Seq<T>, x: T, before: spec_fn(T, T) -> bool) -> int {
    insert_pos_from(s, x, before, 0)
}

/// `s` with `x` inserted after every element that `x` does not come before.
pub open spec fn insert_sorted<T>(s: Seq<T>, x: T, before: spec_fn(T, T) -> bool) -> Seq<T> {
    s.insert(insert_pos(s, x, before), x)
}

/// Stable sorting: the elements of `s` in order, each inserted after the
/// earlier ones that it does not come before.
pub open spec fn stable_sort<T>(s: Seq<T>, before: spec_fn(T, T) -> bool) -> Seq<T>
    decreases s.len(),
{
    if s.len() == 0 {
        s
    } else {
        insert_sorted(stable_sort(s.drop_last(), before), s.last(), before)
    }
}

pub proof fn lemma_insert_pos<T>(s: Seq<T>, x: T, before: spec_fn(T, T) -> bool, i: int)
    requires
        0 <= i <= s.len(),
    ensures
        i <= insert_pos_from(s, x, before, i) <= s.len(),
        forall|k: int| i <= k < insert_pos_from(s, x, before, i) ==> !before(x, #[trigger] s[k]),
        insert_pos_from(s, x, before, i) < s.len() ==> before(
            x,
            s[insert_pos_from(s, x, before, i)],
        ),
    decreases s.len() - i,
{
    if i < s.len() && !before(x, s[i]) {
        lemma_insert_pos(s, x, before, i + 1);
    }
}

/// Inserting into a sorted sequence keeps it sorted.
pub proof fn lemma_insert_sorted_sorted<T>(s: Seq<T>, x: T, before: spec_fn(T, T) -> bool)
    requires
        is_strict_order(before),
        is_sorted_by(s, before),
    ensures
        is_sorted_by(insert_sorted(s, x, before), before),
{
    lemma_insert_pos(s, x, before, 0);
    let k = insert_pos(s, x, before);
    let r = insert_sorted(s, x, before);
    assert forall|i: int, j: int| 0 <= i < j < r.len() implies !before(
        #[trigger] r[j],
        #[trigger] r[i],
    ) by {
        if i < k && j < k {
            assert(r[i] == s[i] && r[j] == s[j]);
        } else if i < k && j == k {
            assert(r[i] == s[i]);
        } else if i < k {
            assert(r[i] == s[i] && r[j] == s[j - 1]);
        } else if i == k {
            assert(r[j] == s[j - 1]);
            assert(before(x, s[k]));
            if j - 1 > k {
                assert(!before(s[j - 1], s[k]));
            }
        } else {
            assert(r[i] == s[i - 1] && r[j] == s[j - 1]);
        }
    }
}

/// A stable sort is sorted.
pub proof fn lemma_stable_sort_sorted<T>(s: Seq<T>, before: spec_fn(T, T) -> bool)
    requires
        is_strict_order(before),
    ensures
        is_sorted_by(stable_sort(s, before), before),
    decreases s.len(),
{
    if s.len() > 0 {
        lemma_stable_sort_sorted(s.drop_last(), before);
        lemma_insert_sorted_sorted(stable_sort(s.drop_last(), before), s.last(), before);
    }
}

/// A stable sort is a rearrangement of its input.
pub proof fn lemma_stable_sort_permutes<T>(s: Seq<T>, before: spec_fn(T, T) -> bool)
    ensures
        stable_sort(s, before).to_multiset() == s.to_multiset(),
        stable_sort(s, before).len() == s.len(),
    decreases s.len(),
{
    broadcast use vstd::seq_lib::group_to_multiset_ensures;

    if s.len() > 0 {
        let t = stable_sort(s.drop_last(), before);
        lemma_stable_sort_permutes(s.drop_last(), before);
        lemma_insert_pos(t, s.last(), before, 0);
        let k = insert_pos(t, s.last(), before);
        vstd::seq_lib::lemma_multiset_commutative(t.take(k), t.skip(k));
        assert(t =~= t.take(k) + t.skip(k));
        assert(t.insert(k, s.last()) =~= t.take(k).push(s.last()) + t.skip(k));
        vstd::seq_lib::lemma_multiset_commutative(t.take(k).push(s.last()), t.skip(k));
        assert(s =~= s.drop_last().push(s.last()));
    }
}

} // verus!
