//! Character-level text utilities, each specified over `Seq<char>`.
//!
//! The specifications follow the documented behaviour of the corresponding
//! `str` methods: `lines`, `split_whitespace`, `starts_with`, `contains`,
//! `find`, `replace`, integer `parse` and decimal formatting.

use vstd::prelude::*;

verus! {

// ---------------------------------------------------------------------------
// Specifications
// ---------------------------------------------------------------------------

/// `char::is_whitespace`: the Unicode `White_Space` property.
pub open spec fn is_ws(c: char) -> bool {
    ||| c == '\t' || c == '\n' || c == '\u{0B}' || c == '\u{0C}' || c == '\r' || c == ' '
    ||| c == '\u{85}' || c == '\u{A0}' || c == '\u{1680}'
    ||| ('\u{2000}' <= c && c <= '\u{200A}')
    ||| c == '\u{2028}' || c == '\u{2029}' || c == '\u{202F}' || c == '\u{205F}' || c == '\u{3000}'
}

/// A line without its terminating `\r`, if it has one.
pub open spec fn strip_cr(l: Seq<char>) -> Seq<char> {
    if l.len() > 0 && l.last() == '\r' {
        l.drop_last()
    } else {
        l
    }
}

/// Reading `s` left to right: the lines completed so far (each ended by
/// `\n`, with a `\r` just before that `\n` removed) and the line in progress.
pub open spec fn lines_acc(s: Seq<char>) -> (Seq<Seq<char>>, Seq<char>)
    decreases s.len(),
{
    if s.len() == 0 {
        (Seq::empty(), Seq::empty())
    } else {
        let (done, cur) = lines_acc(s.drop_last());
        if s.last() == '\n' {
            (done.push(strip_cr(cur)), Seq::empty())
        } else {
            (done, cur.push(s.last()))
        }
    }
}

/// `str::lines`: the lines of `s`; the final line ending is optional, and an
/// empty final line is not reported.
pub open spec fn lines(s: Seq<char>) -> Seq<Seq<char>> {
    let (done, cur) = lines_acc(s);
    if cur.len() == 0 {
        done
    } else {
        done.push(cur)
    }
}

/// Reading `s` left to right: the whitespace-separated words completed so far
/// and the word in progress.
pub open spec fn words_acc(s: Seq<char>) -> (Seq<Seq<char>>, Seq<char>)
    decreases s.len(),
{
    if s.len() == 0 {
        (Seq::empty(), Seq::empty())
    } else {
        let (done, cur) = words_acc(s.drop_last());
        if is_ws(s.last()) {
            if cur.len() == 0 {
                (done, cur)
            } else {
                (done.push(cur), Seq::empty())
            }
        } else {
            (done, cur.push(s.last()))
        }
    }
}

/// `str::split_whitespace`: the maximal non-empty runs of non-whitespace
/// characters of `s`, in order.
pub open spec fn words(s: Seq<char>) -> Seq<Seq<char>> {
    let (done, cur) = words_acc(s);
    if cur.len() == 0 {
        done
    } else {
        done.push(cur)
    }
}

/// `split_whitespace().next()`.
pub open spec fn first_word(s: Seq<char>) -> Option<Seq<char>> {
    if words(s).len() > 0 {
        Some(words(s)[0])
    } else {
        None
    }
}

/// `str::starts_with` for a string pattern.
pub open spec fn starts_with(s: Seq<char>, p: Seq<char>) -> bool {
    p.len() <= s.len() && s.take(p.len() as int) == p
}

/// `p` occurs in `s` at position `i`.
pub open spec fn occurs_at(s: Seq<char>, p: Seq<char>, i: int) -> bool {
    0 <= i && i + p.len() <= s.len() && s.subrange(i, i + p.len()) == p
}

/// `str::contains` for a string pattern.
pub open spec fn contains(s: Seq<char>, p: Seq<char>) -> bool {
    exists|i: int| occurs_at(s, p, i)
}

/// `str::find` for a character predicate: the position of the first
/// character that satisfies `f`.
pub open spec fn find_first(s: Seq<char>, f: spec_fn(char) -> bool) -> Option<int>
    decreases s.len(),
{
    if s.len() == 0 {
        None
    } else {
        match find_first(s.drop_last(), f) {
            Some(i) => Some(i),
            None => if f(s.last()) {
                Some(s.len() - 1)
            } else {
                None
            },
        }
    }
}

/// The first `Some` that `f` gives along `s`.
pub open spec fn first_some<A, B>(s: Seq<A>, f: spec_fn(A) -> Option<B>) -> Option<B>
    decreases s.len(),
{
    if s.len() == 0 {
        None
    } else {
        match first_some(s.drop_last(), f) {
            Some(b) => Some(b),
            None => f(s.last()),
        }
    }
}

pub open spec fn is_digit(c: char) -> bool {
    '0' <= c && c <= '9'
}

pub open spec fn digit_value(c: char) -> int {
    c as int - '0' as int
}

pub open spec fn all_digits(s: Seq<char>) -> bool {
    forall|i: int| 0 <= i < s.len() ==> is_digit(#[trigger] s[i])
}

/// The number that a run of decimal digits denotes.
pub open spec fn digits_value(s: Seq<char>) -> int
    decreases s.len(),
{
    if s.len() == 0 {
        0
    } else {
        10 * digits_value(s.drop_last()) + digit_value(s.last())
    }
}

/// `str::parse::<i16>`: an optional `+` or `-` followed by one or more
/// ASCII digits, denoting a value in range.
pub open spec fn parse_i16(s: Seq<char>) -> Option<i16> {
    let signed = s.len() > 0 && (s[0] == '+' || s[0] == '-');
    let digits = if signed { s.drop_first() } else { s };
    let v = if signed && s[0] == '-' { -digits_value(digits) } else { digits_value(digits) };
    if digits.len() > 0 && all_digits(digits) && i16::MIN <= v <= i16::MAX {
        Some(v as i16)
    } else {
        None
    }
}

pub open spec fn digit_char(d: int) -> char {
    ('0' as int + d) as char
}

/// Decimal digits of a natural number, without leading zeros.
pub open spec fn nat_digits(n: nat) -> Seq<char>
    decreases n,
{
    if n < 10 {
        seq![digit_char(n as int)]
    } else {
        nat_digits(n / 10).push(digit_char((n % 10) as int))
    }
}

/// The text that `{}` formatting gives for an integer.
pub open spec fn decimal(n: int) -> Seq<char> {
    if n < 0 {
        seq!['-'] + nat_digits((-n) as nat)
    } else {
        nat_digits(n as nat)
    }
}

/// `str::replace`: every non-overlapping occurrence of `p` in `s`, found
/// left to right, replaced by `r`.
pub open spec fn replace_all(s: Seq<char>, p: Seq<char>, r: Seq<char>) -> Seq<char>
    recommends
        p.len() > 0,
    decreases s.len(),
{
    if s.len() == 0 || p.len() == 0 {
        s
    } else if starts_with(s, p) {
        r + replace_all(s.skip(p.len() as int), p, r)
    } else {
        seq![s[0]] + replace_all(s.drop_first(), p, r)
    }
}

/// A character that begins a signed coordinate: `+` or `-`.
pub open spec fn is_sign(c: char) -> bool {
    c == '+' || c == '-'
}

/// The predicate `c == x`, as a closure.
pub open spec fn char_is(x: char) -> spec_fn(char) -> bool {
    |c: char| c == x
}

/// The predicate `is_sign`, as a closure.
pub open spec fn sign_pred() -> spec_fn(char) -> bool {
    |c: char| is_sign(c)
}

// ---------------------------------------------------------------------------
// Lemmas
// ---------------------------------------------------------------------------

/// Once a prefix of `s` has a first match, so does `s`, at the same place.
pub proof fn lemma_find_first_prefix(s: Seq<char>, k: int, f: spec_fn(char) -> bool)
    requires
        0 <= k <= s.len(),
        find_first(s.take(k), f) is Some,
    ensures
        find_first(s, f) == find_first(s.take(k), f),
    decreases s.len(),
{
    if k == s.len() {
        assert(s.take(k) == s);
    } else {
        assert(s.drop_last().take(k) == s.take(k));
        lemma_find_first_prefix(s.drop_last(), k, f);
    }
}

/// The position that `find_first` reports holds a matching character, and
/// no earlier one matches.
pub proof fn lemma_find_first_spec(s: Seq<char>, f: spec_fn(char) -> bool)
    ensures
        find_first(s, f) matches Some(i) ==> 0 <= i < s.len() && f(s[i])
            && forall|j: int| 0 <= j < i ==> !f(#[trigger] s[j]),
        find_first(s, f) is None ==> forall|j: int| 0 <= j < s.len() ==> !f(#[trigger] s[j]),
    decreases s.len(),
{
    if s.len() > 0 {
        lemma_find_first_spec(s.drop_last(), f);
        assert forall|j: int| 0 <= j < s.len() - 1 implies s.drop_last()[j] == s[j] by {}
    }
}

/// Once a prefix of `s` gives a first `Some`, so does `s`, the same one.
pub proof fn lemma_first_some_prefix<A, B>(s: Seq<A>, k: int, f: spec_fn(A) -> Option<B>)
    requires
        0 <= k <= s.len(),
        first_some(s.take(k), f) is Some,
    ensures
        first_some(s, f) == first_some(s.take(k), f),
    decreases s.len(),
{
    if k == s.len() {
        assert(s.take(k) == s);
    } else {
        assert(s.drop_last().take(k) == s.take(k));
        lemma_first_some_prefix(s.drop_last(), k, f);
    }
}

/// Extending a prefix by one element: `first_some` takes the prefix's
/// answer, else the new element's.
pub proof fn lemma_first_some_step<A, B>(s: Seq<A>, i: int, f: spec_fn(A) -> Option<B>)
    requires
        0 <= i < s.len(),
    ensures
        first_some(s.take(i + 1), f) == (match first_some(s.take(i), f) {
            Some(b) => Some(b),
            None => f(s[i]),
        }),
{
    assert(s.take(i + 1).drop_last() == s.take(i));
}

/// `first_some` is `None` exactly when `f` gives `None` everywhere.
pub proof fn lemma_first_some_none<A, B>(s: Seq<A>, f: spec_fn(A) -> Option<B>)
    ensures
        first_some(s, f) is None <==> forall|j: int| 0 <= j < s.len() ==> f(#[trigger] s[j]) is None,
    decreases s.len(),
{
    if s.len() > 0 {
        lemma_first_some_none(s.drop_last(), f);
        assert forall|j: int| 0 <= j < s.len() - 1 implies s.drop_last()[j] == s[j] by {}
        if first_some(s, f) is None {
            assert forall|j: int| 0 <= j < s.len() implies f(#[trigger] s[j]) is None by {
                if j < s.len() - 1 {
                    assert(s.drop_last()[j] == s[j]);
                }
            }
        }
    }
}

proof fn lemma_digits_value_nonneg(s: Seq<char>)
    requires
        all_digits(s),
    ensures
        digits_value(s) >= 0,
    decreases s.len(),
{
    if s.len() > 0 {
        assert(all_digits(s.drop_last())) by {
            assert forall|i: int| 0 <= i < s.len() - 1 implies is_digit(#[trigger] s.drop_last()[i]) by {
                assert(s.drop_last()[i] == s[i]);
            }
        }
        lemma_digits_value_nonneg(s.drop_last());
        assert(is_digit(s[s.len() - 1]));
    }
}

/// Appending digits never makes a digit run denote less.
proof fn lemma_digits_value_mono(s: Seq<char>, k: int)
    requires
        all_digits(s),
        0 <= k <= s.len(),
    ensures
        digits_value(s) >= digits_value(s.take(k)),
    decreases s.len(),
{
    if k < s.len() {
        assert(all_digits(s.drop_last())) by {
            assert forall|i: int| 0 <= i < s.len() - 1 implies is_digit(#[trigger] s.drop_last()[i]) by {
                assert(s.drop_last()[i] == s[i]);
            }
        }
        lemma_digits_value_mono(s.drop_last(), k);
        assert(s.drop_last().take(k) == s.take(k));
        lemma_digits_value_nonneg(s.drop_last());
        assert(is_digit(s[s.len() - 1]));
    } else {
        assert(s.take(k) == s);
    }
}

/// A `Some` that `first_some` gives comes from some element.
pub proof fn lemma_first_some_witness<A, B>(s: Seq<A>, f: spec_fn(A) -> Option<B>)
    ensures
        first_some(s, f) matches Some(b) ==> exists|i: int| 0 <= i < s.len() && f(#[trigger] s[i]) == Some(b),
    decreases s.len(),
{
    if s.len() > 0 {
        lemma_first_some_witness(s.drop_last(), f);
        if let Some(b) = first_some(s.drop_last(), f) {
            let i = choose|i: int| 0 <= i < s.drop_last().len() && f(#[trigger] s.drop_last()[i]) == Some(b);
            assert(s[i] == s.drop_last()[i]);
        } else {
            assert(s[s.len() - 1] == s.last());
        }
    }
}

proof fn lemma_words_acc_all_word(s: Seq<char>)
    requires
        forall|i: int| 0 <= i < s.len() ==> !is_ws(#[trigger] s[i]),
    ensures
        words_acc(s) == (Seq::<Seq<char>>::empty(), s),
    decreases s.len(),
{
    if s.len() > 0 {
        assert forall|i: int| 0 <= i < s.len() - 1 implies !is_ws(#[trigger] s.drop_last()[i]) by {
            assert(s.drop_last()[i] == s[i]);
        }
        lemma_words_acc_all_word(s.drop_last());
        assert(s.drop_last().push(s.last()) == s);
    }
}

proof fn lemma_words_acc_prefix(s: Seq<char>, m: int)
    requires
        1 <= m <= s.len(),
        forall|i: int| 0 <= i < m ==> !is_ws(#[trigger] s[i]),
    ensures
        ({
            let (done, cur) = words_acc(s);
            ||| (done.len() > 0 && done[0].len() >= m && done[0].take(m) == s.take(m))
            ||| (done.len() == 0 && cur.len() >= m && cur.take(m) == s.take(m))
        }),
    decreases s.len(),
{
    if s.len() == m {
        lemma_words_acc_all_word(s);
        assert(s.take(m) == s);
    } else {
        assert forall|i: int| 0 <= i < m implies !is_ws(#[trigger] s.drop_last()[i]) by {
            assert(s.drop_last()[i] == s[i]);
        }
        lemma_words_acc_prefix(s.drop_last(), m);
        assert(s.drop_last().take(m) == s.take(m));
        let (done, cur) = words_acc(s.drop_last());
        if done.len() == 0 && !is_ws(s.last()) {
            assert(cur.push(s.last()).take(m) == cur.take(m));
        }
    }
}

/// A text that begins with `m` non-whitespace characters has a first word
/// that begins with them too.
pub proof fn lemma_first_word_prefix(s: Seq<char>, m: int)
    requires
        1 <= m <= s.len(),
        forall|i: int| 0 <= i < m ==> !is_ws(#[trigger] s[i]),
    ensures
        first_word(s) matches Some(w) && w.len() >= m && w.take(m) == s.take(m),
{
    lemma_words_acc_prefix(s, m);
}

/// Every word of a text is non-empty and holds no whitespace.
pub proof fn law_words_are_words(s: Seq<char>)
    ensures
        forall|j: int| 0 <= j < words(s).len() ==> (#[trigger] words(s)[j]).len() > 0
            && forall|i: int| 0 <= i < words(s)[j].len() ==> !is_ws(#[trigger] words(s)[j][i]),
{
    lemma_words_acc_words(s);
}

proof fn lemma_words_acc_words(s: Seq<char>)
    ensures
        ({
            let (done, cur) = words_acc(s);
            &&& forall|j: int| 0 <= j < done.len() ==> (#[trigger] done[j]).len() > 0
                && forall|i: int| 0 <= i < done[j].len() ==> !is_ws(#[trigger] done[j][i])
            &&& forall|i: int| 0 <= i < cur.len() ==> !is_ws(#[trigger] cur[i])
        }),
    decreases s.len(),
{
    if s.len() > 0 {
        lemma_words_acc_words(s.drop_last());
        let (done, cur) = words_acc(s.drop_last());
        let (done2, cur2) = words_acc(s);
        if !is_ws(s.last()) {
            assert forall|i: int| 0 <= i < cur2.len() implies !is_ws(#[trigger] cur2[i]) by {
                if i < cur.len() {
                    assert(cur2[i] == cur[i]);
                }
            }
        } else if cur.len() > 0 {
            assert forall|j: int| 0 <= j < done2.len() implies (#[trigger] done2[j]).len() > 0
                && forall|i: int| 0 <= i < done2[j].len() ==> !is_ws(#[trigger] done2[j][i]) by {
                if j < done.len() {
                    assert(done2[j] == done[j]);
                } else {
                    assert(done2[j] == cur);
                }
            }
        }
    }
}

/// The digits of a natural number are decimal digits that denote it.
pub proof fn lemma_nat_digits(n: nat)
    ensures
        nat_digits(n).len() >= 1,
        all_digits(nat_digits(n)),
        digits_value(nat_digits(n)) == n,
    decreases n,
{
    if n < 10 {
        let d = nat_digits(n);
        assert(d == seq![digit_char(n as int)]);
        assert(digit_char(n as int) as int == 48 + n);
        assert(d.drop_last() =~= Seq::<char>::empty());
        assert(digits_value(d.drop_last()) == 0);
        assert(d.last() == digit_char(n as int));
        assert(digit_value(d.last()) == n);
    } else {
        lemma_nat_digits(n / 10);
        let d = nat_digits(n);
        let pre = nat_digits(n / 10);
        assert(d == pre.push(digit_char((n % 10) as int)));
        assert(digit_char((n % 10) as int) as int == 48 + n % 10);
        assert(d.drop_last() == pre);
        assert(digit_value(d.last()) == n % 10);
        assert(digits_value(d) == 10 * digits_value(pre) + n % 10);
        assert forall|i: int| 0 <= i < d.len() implies is_digit(#[trigger] d[i]) by {
            if i < pre.len() {
                assert(d[i] == pre[i]);
            }
        }
    }
}

/// No character of `s` satisfies `f`: `find_first` finds nothing.
pub proof fn lemma_find_first_none(s: Seq<char>, f: spec_fn(char) -> bool)
    requires
        forall|j: int| 0 <= j < s.len() ==> !f(#[trigger] s[j]),
    ensures
        find_first(s, f) is None,
    decreases s.len(),
{
    if s.len() > 0 {
        assert forall|j: int| 0 <= j < s.len() - 1 implies !f(#[trigger] s.drop_last()[j]) by {
            assert(s.drop_last()[j] == s[j]);
        }
        lemma_find_first_none(s.drop_last(), f);
        assert(!f(s[s.len() - 1]));
    }
}

/// The first character of `s` satisfies `f`: `find_first` reports it.
pub proof fn lemma_find_first_head(s: Seq<char>, f: spec_fn(char) -> bool)
    requires
        s.len() > 0,
        f(s[0]),
    ensures
        find_first(s, f) == Some(0int),
{
    let t = s.take(1);
    assert(t.drop_last() =~= Seq::<char>::empty());
    assert(find_first(t.drop_last(), f) is None);
    assert(t.last() == s[0]);
    assert(find_first(t, f) == Some(0int));
    lemma_find_first_prefix(s, 1, f);
}

/// Searching `a + b`, where nothing in `a` matches, finds what searching `b`
/// finds, shifted by the length of `a`.
pub proof fn lemma_find_first_concat(a: Seq<char>, b: Seq<char>, f: spec_fn(char) -> bool)
    requires
        forall|j: int| 0 <= j < a.len() ==> !f(#[trigger] a[j]),
    ensures
        find_first(a + b, f) == match find_first(b, f) {
            Some(i) => Some(i + a.len()),
            None => None::<int>,
        },
    decreases b.len(),
{
    if b.len() == 0 {
        assert(a + b == a);
        lemma_find_first_none(a, f);
    } else {
        lemma_find_first_concat(a, b.drop_last(), f);
        assert((a + b).drop_last() == a + b.drop_last());
        assert((a + b).last() == b.last());
    }
}

/// `first_some` gives what `f` gives at the first element where `f` gives
/// `Some`.
pub proof fn lemma_first_some_at<A, B>(s: Seq<A>, i: int, f: spec_fn(A) -> Option<B>)
    requires
        0 <= i < s.len(),
        f(s[i]) is Some,
        forall|j: int| 0 <= j < i ==> f(#[trigger] s[j]) is None,
    ensures
        first_some(s, f) == f(s[i]),
{
    let t = s.take(i);
    assert forall|j: int| 0 <= j < t.len() implies f(#[trigger] t[j]) is None by {
        assert(t[j] == s[j]);
    }
    lemma_first_some_none(t, f);
    lemma_first_some_step(s, i, f);
    lemma_first_some_prefix(s, i + 1, f);
}

/// The character sequences held by a sequence of vectors.
pub open spec fn views(v: Seq<Vec<char>>) -> Seq<Seq<char>> {
    v.map_values(|x: Vec<char>| x@)
}

// ---------------------------------------------------------------------------
// Executable functions
// ---------------------------------------------------------------------------

/// Appends one character to a `String` (`String::push`).
#[verifier::external_body]
pub(crate) fn push_char(s: &mut String, c: char)
    ensures
        final(s)@ == old(s)@.push(c),
{
    s.push(c);
}

/// The characters of `s`, in order.
pub fn chars_of(s: &str) -> (v: Vec<char>)
    ensures
        v@ == s@,
{
    let mut v: Vec<char> = Vec::new();
    for c in it: s.chars()
        invariant
            v@ == it.seq().take(it.index() as int),
            it.seq() == s@,
    {
        v.push(c);
    }
    v
}

/// A `String` holding the characters of `v`.
pub fn string_of(v: &[char]) -> (s: String)
    ensures
        s@ == v@,
{
    let mut s = String::new();
    for i in 0..v.len()
        invariant
            s@ == v@.take(i as int),
    {
        push_char(&mut s, v[i]);
        assert(v@.take(i + 1) == v@.take(i as int).push(v@[i as int]));
    }
    assert(v@.take(v.len() as int) == v@);
    s
}

pub fn is_whitespace(c: char) -> (b: bool)
    ensures
        b == is_ws(c),
{
    c == '\t' || c == '\n' || c == '\u{0B}' || c == '\u{0C}' || c == '\r' || c == ' '
        || c == '\u{85}' || c == '\u{A0}' || c == '\u{1680}'
        || ('\u{2000}' <= c && c <= '\u{200A}')
        || c == '\u{2028}' || c == '\u{2029}' || c == '\u{202F}' || c == '\u{205F}'
        || c == '\u{3000}'
}

/// The lines of `s`, as `str::lines` gives them.
pub fn split_lines(s: &[char]) -> (out: Vec<Vec<char>>)
    ensures
        views(out@) == lines(s@),
{
    let mut done: Vec<Vec<char>> = Vec::new();
    let mut cur: Vec<char> = Vec::new();
    for i in 0..s.len()
        invariant
            (views(done@), cur@) == lines_acc(s@.take(i as int)),
    {
        proof {
            assert(s@.take(i + 1).drop_last() == s@.take(i as int));
            assert(s@.take(i + 1).last() == s@[i as int]);
        }
        if s[i] == '\n' {
            let ghost old_done = views(done@);
            let ghost old_cur = cur@;
            if cur.len() > 0 && cur[cur.len() - 1] == '\r' {
                cur.pop();
            }
            done.push(cur);
            cur = Vec::new();
            assert(views(done@) =~= old_done.push(strip_cr(old_cur)));
        } else {
            cur.push(s[i]);
        }
    }
    assert(s@.take(s.len() as int) == s@);
    if cur.len() > 0 {
        let ghost old_done = views(done@);
        let ghost old_cur = cur@;
        done.push(cur);
        assert(views(done@) =~= old_done.push(old_cur));
    }
    done
}

/// The whitespace-separated words of `s`, as `str::split_whitespace`
/// gives them.
pub fn split_words(s: &[char]) -> (out: Vec<Vec<char>>)
    ensures
        views(out@) == words(s@),
{
    let mut done: Vec<Vec<char>> = Vec::new();
    let mut cur: Vec<char> = Vec::new();
    for i in 0..s.len()
        invariant
            (views(done@), cur@) == words_acc(s@.take(i as int)),
    {
        proof {
            assert(s@.take(i + 1).drop_last() == s@.take(i as int));
            assert(s@.take(i + 1).last() == s@[i as int]);
        }
        if is_whitespace(s[i]) {
            if cur.len() > 0 {
                let ghost old_done = views(done@);
                let ghost old_cur = cur@;
                done.push(cur);
                cur = Vec::new();
                assert(views(done@) =~= old_done.push(old_cur));
            }
        } else {
            cur.push(s[i]);
        }
    }
    assert(s@.take(s.len() as int) == s@);
    if cur.len() > 0 {
        let ghost old_done = views(done@);
        let ghost old_cur = cur@;
        done.push(cur);
        assert(views(done@) =~= old_done.push(old_cur));
    }
    done
}

/// `s` begins with `p`.
pub fn has_prefix(s: &[char], p: &[char]) -> (b: bool)
    ensures
        b == starts_with(s@, p@),
{
    if p.len() > s.len() {
        return false;
    }
    for i in 0..p.len()
        invariant
            p.len() <= s.len(),
            forall|j: int| 0 <= j < i ==> s@[j] == p@[j],
    {
        if s[i] != p[i] {
            assert(s@.take(p.len() as int)[i as int] != p@[i as int]);
            return false;
        }
    }
    assert(s@.take(p.len() as int) =~= p@);
    true
}

/// `p` occurs in `s` at position `at`.
pub fn occurs_at_exec(s: &[char], p: &[char], at: usize) -> (b: bool)
    ensures
        b == occurs_at(s@, p@, at as int),
{
    if at > s.len() || p.len() > s.len() - at {
        return false;
    }
    for i in 0..p.len()
        invariant
            at + p.len() <= s.len(),
            forall|j: int| 0 <= j < i ==> s@[at + j] == p@[j],
    {
        if s[at + i] != p[i] {
            assert(s@.subrange(at as int, at + p.len())[i as int] != p@[i as int]);
            return false;
        }
    }
    assert(s@.subrange(at as int, at + p.len()) =~= p@);
    true
}

/// `p` occurs somewhere in `s`.
pub fn has_substring(s: &[char], p: &[char]) -> (b: bool)
    ensures
        b == contains(s@, p@),
{
    if p.len() > s.len() {
        return false;
    }
    let last = s.len() - p.len();
    for i in 0..last
        invariant
            last == s.len() - p.len(),
            forall|j: int| 0 <= j < i ==> !occurs_at(s@, p@, j),
    {
        if occurs_at_exec(s, p, i) {
            return true;
        }
    }
    if occurs_at_exec(s, p, last) {
        return true;
    }
    assert forall|j: int| !occurs_at(s@, p@, j) by {
        if 0 <= j < last {
        }
    }
    false
}

/// The position of the first occurrence of `x` in `s`.
pub fn find_char(s: &[char], x: char) -> (r: Option<usize>)
    ensures
        r matches Some(i) ==> find_first(s@, char_is(x)) == Some(i as int),
        r is None ==> find_first(s@, char_is(x)) is None,
{
    for i in 0..s.len()
        invariant
            find_first(s@.take(i as int), char_is(x)) is None,
    {
        assert(s@.take(i + 1).drop_last() == s@.take(i as int));
        if s[i] == x {
            proof {
                lemma_find_first_prefix(s@, i + 1, char_is(x));
            }
            return Some(i);
        }
    }
    assert(s@.take(s.len() as int) == s@);
    None
}

/// The position of the first `+` or `-` in `s`.
pub fn find_sign(s: &[char]) -> (r: Option<usize>)
    ensures
        r matches Some(i) ==> find_first(s@, sign_pred()) == Some(i as int),
        r is None ==> find_first(s@, sign_pred()) is None,
{
    for i in 0..s.len()
        invariant
            find_first(s@.take(i as int), sign_pred()) is None,
    {
        assert(s@.take(i + 1).drop_last() == s@.take(i as int));
        if s[i] == '+' || s[i] == '-' {
            proof {
                lemma_find_first_prefix(s@, i + 1, sign_pred());
            }
            return Some(i);
        }
    }
    assert(s@.take(s.len() as int) == s@);
    None
}

/// The `i16` that `s` denotes, as `str::parse::<i16>` reads it.
pub fn parse_i16_exec(s: &[char]) -> (r: Option<i16>)
    ensures
        r == parse_i16(s@),
{
    let n = s.len();
    if n == 0 {
        return None;
    }
    let neg = s[0] == '-';
    let start: usize = if s[0] == '+' || s[0] == '-' { 1 } else { 0 };
    let ghost digits = if start == 1 { s@.drop_first() } else { s@ };
    assert(digits == s@.subrange(start as int, n as int));
    if start == n {
        return None;
    }
    let mut acc: u32 = 0;
    let mut i: usize = start;
    while i < n
        invariant
            n == s.len(),
            n > 0,
            start == 0 || start == 1,
            (start == 1) == (s@[0] == '+' || s@[0] == '-'),
            neg == (s@[0] == '-'),
            start <= i <= n,
            digits == s@.subrange(start as int, n as int),
            acc as int == digits_value(s@.subrange(start as int, i as int)),
            acc <= 32768,
            all_digits(s@.subrange(start as int, i as int)),
        decreases n - i,
    {
        let c = s[i];
        let ghost pre = s@.subrange(start as int, i as int);
        let ghost next = s@.subrange(start as int, i + 1);
        assert(next.drop_last() == pre);
        assert(next.last() == c);
        if !('0' <= c && c <= '9') {
            assert(digits[i - start] == c);
            return None;
        }
        let d: u32 = (c as u32) - ('0' as u32);
        assert(all_digits(next)) by {
            assert forall|j: int| 0 <= j < next.len() implies is_digit(#[trigger] next[j]) by {
                if j < next.len() - 1 {
                    assert(next[j] == pre[j]);
                }
            }
        }
        assert(digit_value(c) == d as int);
        assert(digits_value(next) == acc * 10 + d);
        if acc * 10 + d > 32768 {
            proof {
                assert(next == digits.take(i + 1 - start));
                if all_digits(digits) {
                    lemma_digits_value_mono(digits, i + 1 - start);
                    assert(digits_value(digits) > 32768);
                }
                let signed = s@.len() > 0 && (s@[0] == '+' || s@[0] == '-');
                assert(signed == (start == 1));
                assert(digits == if signed { s@.drop_first() } else { s@ });
            }
            return None;
        }
        acc = acc * 10 + d;
        i = i + 1;
    }
    assert(s@.subrange(start as int, n as int) == digits);
    if neg {
        Some((0 - (acc as i32)) as i16)
    } else if acc <= 32767 {
        Some(acc as i16)
    } else {
        None
    }
}

/// Appends the decimal digits of `n` to `out`.
pub fn push_nat_digits(out: &mut String, n: u64)
    ensures
        final(out)@ == old(out)@ + nat_digits(n as nat),
    decreases n,
{
    if n >= 10 {
        push_nat_digits(out, n / 10);
    }
    let d: u8 = (n % 10) as u8;
    push_char(out, (48u8 + d) as char);
    assert(((48u8 + d) as char) == digit_char((n % 10) as int));
    if n >= 10 {
        assert(nat_digits(n as nat) == nat_digits((n / 10) as nat).push(digit_char((n % 10) as int)));
    } else {
        assert(nat_digits(n as nat) == seq![digit_char(n as int)]);
    }
    assert(final(out)@ =~= old(out)@ + nat_digits(n as nat));
}

/// Appends the text that `{}` formatting gives for `n`.
pub fn push_decimal(out: &mut String, n: i64)
    ensures
        final(out)@ == old(out)@ + decimal(n as int),
{
    if n < 0 {
        push_char(out, '-');
        let m: u64 = (0i128 - (n as i128)) as u64;
        push_nat_digits(out, m);
        assert(final(out)@ =~= old(out)@ + (seq!['-'] + nat_digits(m as nat)));
    } else {
        push_nat_digits(out, n as u64);
    }
}

/// `s` with every non-overlapping occurrence of `p`, found left to right,
/// replaced by `r`.
pub fn replace_chars(s: &[char], p: &[char], r: &str) -> (out: String)
    requires
        p.len() > 0,
    ensures
        out@ == replace_all(s@, p@, r@),
{
    let n = s.len();
    let mut out = String::new();
    let mut i: usize = 0;
    assert(s@.skip(0) == s@);
    while i < n
        invariant
            i <= n,
            n == s.len(),
            p.len() > 0,
            out@ + replace_all(s@.skip(i as int), p@, r@) == replace_all(s@, p@, r@),
        decreases n - i,
    {
        let ghost rest = s@.skip(i as int);
        let ghost before = out@;
        if occurs_at_exec(s, p, i) {
            assert(rest.take(p.len() as int) == s@.subrange(i as int, i + p.len()));
            assert(rest.skip(p.len() as int) == s@.skip(i + p.len()));
            out.append(r);
            i = i + p.len();
            assert(before + (r@ + replace_all(s@.skip(i as int), p@, r@))
                == out@ + replace_all(s@.skip(i as int), p@, r@));
        } else {
            proof {
                if starts_with(rest, p@) {
                    assert(rest.take(p.len() as int) == s@.subrange(i as int, i + p.len()));
                }
            }
            assert(rest.drop_first() == s@.skip(i + 1));
            assert(rest[0] == s@[i as int]);
            push_char(&mut out, s[i]);
            i = i + 1;
            assert(before + (seq![s@[i - 1]] + replace_all(s@.skip(i as int), p@, r@))
                == out@ + replace_all(s@.skip(i as int), p@, r@));
        }
    }
    assert(s@.skip(n as int).len() == 0);
    assert(out@ + replace_all(s@.skip(n as int), p@, r@) == out@);
    out
}

} // verus!
