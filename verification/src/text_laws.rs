//! What holds of the text primitives: how the outcome for a whole follows from those for its parts.

use crate::paths::joined;
use crate::text::{
    after_last_char, after_prefix, all_digits, before_suffix, concatenated, decimal, digit_char,
    digits_read_back, halves_at, inclusive_lines_of, index_of_from, is_space, lemma_split_nonempty,
    lines_of, lower_text, occurs_at, parse_unsigned, replace_from, replace_text, split_text,
    text_le, trim_end_char_text, trim_end_text, trim_start_char_text, trim_start_text, trim_text,
    unsigned_digits, without_cr, words_and_rest, words_of, Spacing,
};
use vstd::prelude::*;

verus! {

// ---------------------------------------------------------------------------
// Splitting
// ---------------------------------------------------------------------------

/// A text is cut at every separator and nowhere else: one without a separator is its only piece, and
/// the pieces of what stands before and behind a separator are those of the whole.
pub proof fn splitting_cuts_at_each_separator(a: Seq<char>, b: Seq<char>, sep: char)
    ensures
        !a.contains(sep) ==> split_text(a, sep) == seq![a],
        split_text(a.push(sep) + b, sep) == split_text(a, sep) + split_text(b, sep),
{
    if !a.contains(sep) {
        lemma_one_piece(a, sep);
    }
    lemma_split_around(a, b, sep);
}

proof fn lemma_one_piece(a: Seq<char>, sep: char)
    requires
        !a.contains(sep),
    ensures
        split_text(a, sep) == seq![a],
    decreases a.len(),
{
    if a.len() > 0 {
        let t = a.drop_last();
        assert forall|i: int| 0 <= i < t.len() implies t[i] != sep by {
            assert(a[i] == t[i]);
            assert(a.contains(a[i]));
        }
        lemma_one_piece(t, sep);
        assert(a.contains(a.last()));
        assert(t.push(a.last()) =~= a);
        assert(split_text(a, sep) =~= seq![a]);
    } else {
        assert(a =~= Seq::<char>::empty());
    }
}

proof fn lemma_split_around(a: Seq<char>, b: Seq<char>, sep: char)
    ensures
        split_text(a.push(sep) + b, sep) == split_text(a, sep) + split_text(b, sep),
    decreases b.len(),
{
    let whole = a.push(sep) + b;
    lemma_split_nonempty(a, sep);
    if b.len() == 0 {
        assert(whole.drop_last() =~= a);
        assert(whole.last() == sep);
        assert(split_text(b, sep) =~= seq![Seq::<char>::empty()]);
        assert(split_text(whole, sep) =~= split_text(a, sep) + split_text(b, sep));
    } else {
        let t = b.drop_last();
        lemma_split_around(a, t, sep);
        lemma_split_nonempty(t, sep);
        assert(whole.drop_last() =~= a.push(sep) + t);
        assert(whole.last() == b.last());
        let x = split_text(a, sep);
        let y = split_text(t, sep);
        assert((x + y).last() == y.last());
        assert((x + y).drop_last() =~= x + y.drop_last());
        assert(split_text(whole, sep) =~= x + split_text(b, sep));
    }
}

/// A text is cut into lines at its line feeds and nowhere else: what stands before the first line
/// feed is the first line, without a carriage return at its end, and the other lines are those of
/// what stands behind. What no line feed ends is a line as it stands, unless it is empty.
pub proof fn lines_end_at_line_feeds(a: Seq<char>, rest: Seq<char>)
    requires
        !a.contains('\n'),
    ensures
        lines_of(a.push('\n') + rest) == seq![without_cr(a)] + lines_of(rest),
        inclusive_lines_of(a.push('\n') + rest) == seq![a.push('\n')] + inclusive_lines_of(rest),
        a.len() > 0 ==> lines_of(a) == seq![a] && inclusive_lines_of(a) == seq![a],
        a.len() == 0 ==> lines_of(a).len() == 0 && inclusive_lines_of(a).len() == 0,
{
    splitting_cuts_at_each_separator(a, rest, '\n');
    lemma_split_nonempty(rest, '\n');
    let x = split_text(rest, '\n');
    let whole = a.push('\n') + rest;
    assert(split_text(whole, '\n') == seq![a] + x);
    assert((seq![a] + x).last() == x.last());
    assert((seq![a] + x).drop_last() =~= seq![a] + x.drop_last());
    assert(lines_of(whole) =~= seq![without_cr(a)] + lines_of(rest));
    assert(inclusive_lines_of(whole) =~= seq![a.push('\n')] + inclusive_lines_of(rest));
    assert(seq![a].drop_last() =~= Seq::<Seq<char>>::empty());
    if a.len() > 0 {
        assert(lines_of(a) =~= seq![a]);
        assert(inclusive_lines_of(a) =~= seq![a]);
    }
}

/// The pieces that a text is put together from stand in it with the separator between each two.
pub proof fn pieces_are_joined_in_order(
    a: Seq<Seq<char>>,
    b: Seq<Seq<char>>,
    x: Seq<char>,
    sep: Seq<char>,
)
    ensures
        joined(Seq::empty(), sep) == Seq::<char>::empty(),
        joined(seq![x], sep) == x,
        a.len() > 0 && b.len() > 0 ==> joined(a + b, sep) == joined(a, sep) + sep + joined(b, sep),
    decreases b.len(),
{
    if a.len() > 0 && b.len() > 0 {
        let whole = a + b;
        assert(whole.last() == b.last());
        assert(whole.drop_last() =~= a + b.drop_last());
        if b.len() == 1 {
            assert(a + b.drop_last() =~= a);
        } else {
            pieces_are_joined_in_order(a, b.drop_last(), x, sep);
            assert(joined(whole, sep) =~= joined(a, sep) + sep + joined(b, sep));
        }
    }
}

/// A text is what its pieces give back when the separator is put between them.
pub proof fn split_pieces_join_back(s: Seq<char>, sep: char)
    ensures
        joined(split_text(s, sep), seq![sep]) == s,
    decreases s.len(),
{
    lemma_split_nonempty(s, sep);
    let pieces = split_text(s, sep);
    if s.len() == 0 {
        assert(pieces =~= seq![Seq::<char>::empty()]);
        assert(joined(pieces, seq![sep]) =~= s);
    } else {
        let t = s.drop_last();
        split_pieces_join_back(t, sep);
        lemma_split_nonempty(t, sep);
        let head = split_text(t, sep);
        assert(s =~= t.push(s.last()));
        if s.last() == sep {
            assert(pieces.drop_last() =~= head);
            assert(joined(pieces, seq![sep]) =~= s);
        } else {
            assert(pieces.drop_last() =~= head.drop_last());
            assert(joined(pieces, seq![sep]) =~= s);
        }
    }
}

/// The texts before one behind the other, and then the rest.
pub proof fn texts_follow_one_another(v: Seq<Seq<char>>, n: int)
    requires
        0 < n <= v.len(),
    ensures
        concatenated(v, n).len() == concatenated(v, n - 1).len() + v[n - 1].len(),
        concatenated(v, n).skip(concatenated(v, n - 1).len() as int) == v[n - 1],
{
    assert(concatenated(v, n).skip(concatenated(v, n - 1).len() as int) =~= v[n - 1]);
}

// ---------------------------------------------------------------------------
// Words
// ---------------------------------------------------------------------------

/// Words are the runs between separators: a run without a separator is one word, and the words of
/// what stands before and behind a separator are those of the whole.
pub proof fn words_stand_between_separators(a: Seq<char>, c: char, b: Seq<char>, spacing: Spacing)
    requires
        spacing.separates(c),
    ensures
        words_of(a.push(c) + b, spacing) == words_of(a, spacing) + words_of(b, spacing),
        words_of(Seq::empty(), spacing).len() == 0,
        a.len() > 0 && (forall|i: int| 0 <= i < a.len() ==> !spacing.separates(#[trigger] a[i]))
            ==> words_of(a, spacing) == seq![a],
{
    lemma_words_around(a, c, b, spacing);
    if a.len() > 0 && (forall|i: int| 0 <= i < a.len() ==> !spacing.separates(#[trigger] a[i])) {
        lemma_one_word(a, spacing);
        assert(words_of(a, spacing) =~= seq![a]);
    }
}

proof fn lemma_one_word(a: Seq<char>, spacing: Spacing)
    requires
        forall|i: int| 0 <= i < a.len() ==> !spacing.separates(#[trigger] a[i]),
    ensures
        words_and_rest(a, spacing) == (Seq::<Seq<char>>::empty(), a),
    decreases a.len(),
{
    if a.len() > 0 {
        let t = a.drop_last();
        assert forall|i: int| 0 <= i < t.len() implies !spacing.separates(#[trigger] t[i]) by {
            assert(a[i] == t[i]);
        }
        lemma_one_word(t, spacing);
        assert(!spacing.separates(a[a.len() - 1]));
        assert(t.push(a.last()) =~= a);
    } else {
        assert(a =~= Seq::<char>::empty());
    }
}

proof fn lemma_words_around(a: Seq<char>, c: char, b: Seq<char>, spacing: Spacing)
    requires
        spacing.separates(c),
    ensures
        words_and_rest(a.push(c) + b, spacing) == (
            words_of(a, spacing) + words_and_rest(b, spacing).0,
            words_and_rest(b, spacing).1,
        ),
        words_of(a.push(c) + b, spacing) == words_of(a, spacing) + words_of(b, spacing),
    decreases b.len(),
{
    let whole = a.push(c) + b;
    if b.len() == 0 {
        assert(whole.drop_last() =~= a);
        assert(whole.last() == c);
        let (w, r) = words_and_rest(a, spacing);
        assert(words_and_rest(whole, spacing).0 =~= words_of(a, spacing));
        assert(words_of(a, spacing) + words_and_rest(b, spacing).0 =~= words_of(a, spacing));
        if r.len() == 0 {
            assert(r =~= Seq::<char>::empty());
        }
    } else {
        let t = b.drop_last();
        lemma_words_around(a, c, t, spacing);
        assert(whole.drop_last() =~= a.push(c) + t);
        assert(whole.last() == b.last());
        let x = words_of(a, spacing);
        let (w, r) = words_and_rest(t, spacing);
        assert((x + w).push(r) =~= x + w.push(r));
    }
    let x = words_of(a, spacing);
    let (w, r) = words_and_rest(b, spacing);
    assert((x + w).push(r) =~= x + w.push(r));
}

// ---------------------------------------------------------------------------
// Trimming
// ---------------------------------------------------------------------------

pub open spec fn all_space(s: Seq<char>) -> bool {
    forall|i: int| 0 <= i < s.len() ==> is_space(#[trigger] s[i])
}

/// Trimming takes away white space on the outside, all of it, and nothing else.
pub proof fn trimming_takes_the_outer_white_space(x: Seq<char>, t: Seq<char>, y: Seq<char>)
    requires
        all_space(x),
        all_space(y),
        t.len() > 0 ==> !is_space(t.first()) && !is_space(t.last()),
    ensures
        trim_text(x + t + y) == t,
        t.len() > 0 ==> trim_start_text(x + t + y) == t + y,
        t.len() > 0 ==> trim_end_text(x + t + y) == x + t,
{
    assert(x + t + y =~= x + (t + y));
    if t.len() > 0 {
        assert((t + y).first() == t.first());
        lemma_trim_start(x, t + y);
        lemma_trim_end(t, y);
        assert((x + t).last() == t.last());
        lemma_trim_end(x + t, y);
    } else {
        assert(t + y =~= y);
        assert(x + y =~= (x + y) + Seq::<char>::empty());
        assert forall|i: int| 0 <= i < (x + y).len() implies is_space(#[trigger] (x + y)[i]) by {
            if i < x.len() {
                assert(is_space(x[i]));
            } else {
                assert(is_space(y[i - x.len()]));
            }
        }
        lemma_trim_start(x + y, Seq::empty());
        assert(trim_start_text(Seq::<char>::empty()) =~= t);
        assert(trim_end_text(Seq::<char>::empty()) =~= t);
    }
}

proof fn lemma_trim_start(x: Seq<char>, t: Seq<char>)
    requires
        all_space(x),
        t.len() > 0 ==> !is_space(t.first()),
    ensures
        trim_start_text(x + t) == t,
    decreases x.len(),
{
    if x.len() > 0 {
        let s = x + t;
        assert(is_space(x[0]));
        assert(s.drop_first() =~= x.drop_first() + t);
        assert forall|i: int| 0 <= i < x.drop_first().len() implies is_space(
            #[trigger] x.drop_first()[i],
        ) by {
            assert(is_space(x[i + 1]));
        }
        lemma_trim_start(x.drop_first(), t);
    } else {
        assert(x + t =~= t);
    }
}

proof fn lemma_trim_end(t: Seq<char>, y: Seq<char>)
    requires
        all_space(y),
        t.len() > 0 ==> !is_space(t.last()),
    ensures
        trim_end_text(t + y) == t,
    decreases y.len(),
{
    if y.len() > 0 {
        let s = t + y;
        assert(is_space(y[y.len() - 1]));
        assert(s.drop_last() =~= t + y.drop_last());
        assert forall|i: int| 0 <= i < y.drop_last().len() implies is_space(
            #[trigger] y.drop_last()[i],
        ) by {
            assert(is_space(y[i]));
        }
        lemma_trim_end(t, y.drop_last());
    } else {
        assert(t + y =~= t);
    }
}

/// Trimming a character takes it away on its side as often as it stands there, and nothing else.
pub proof fn trimming_a_character_takes_all_of_it(x: Seq<char>, t: Seq<char>, c: char)
    requires
        forall|i: int| 0 <= i < x.len() ==> x[i] == c,
    ensures
        t.len() == 0 || t.first() != c ==> trim_start_char_text(x + t, c) == t,
        t.len() == 0 || t.last() != c ==> trim_end_char_text(t + x, c) == t,
    decreases x.len(),
{
    if x.len() > 0 {
        let a = x.drop_first();
        assert((x + t).drop_first() =~= a + t);
        assert((x + t).first() == x[0]);
        assert(x =~= a.push(c)) by {
            assert forall|i: int| 0 <= i < x.len() implies x[i] == a.push(c)[i] by {}
        }
        assert((t + x).drop_last() =~= t + a);
        assert((t + x).last() == c);
        trimming_a_character_takes_all_of_it(a, t, c);
    } else {
        assert(x + t =~= t);
        assert(t + x =~= t);
    }
}

// ---------------------------------------------------------------------------
// Searching
// ---------------------------------------------------------------------------

/// The first occurrence of a character cuts a text in two; one without it is not cut.
pub proof fn halves_meet_at_the_first_occurrence(a: Seq<char>, b: Seq<char>, c: char)
    requires
        !a.contains(c),
    ensures
        halves_at(a.push(c) + b, c) == Some((a, b)),
        halves_at(a, c) is None,
{
    let s = a.push(c) + b;
    assert forall|i: int| 0 <= i < a.len() implies a[i] != c by {
        assert(a.contains(a[i]));
    }
    lemma_index(s, c, 0, a.len() as int);
    lemma_no_index(a, c, 0);
    assert(s.take(a.len() as int) =~= a);
    assert(s.skip(a.len() as int + 1) =~= b);
}

proof fn lemma_index(s: Seq<char>, c: char, i: int, k: int)
    requires
        0 <= i <= k < s.len(),
        s[k] == c,
        forall|j: int| i <= j < k ==> s[j] != c,
    ensures
        index_of_from(s, c, i) == Some(k),
    decreases k - i,
{
    if i < k {
        lemma_index(s, c, i + 1, k);
    }
}

proof fn lemma_no_index(s: Seq<char>, c: char, i: int)
    requires
        0 <= i <= s.len(),
        forall|j: int| i <= j < s.len() ==> s[j] != c,
    ensures
        index_of_from(s, c, i) is None,
    decreases s.len() - i,
{
    if i < s.len() {
        lemma_no_index(s, c, i + 1);
    }
}

/// What follows the last occurrence of a character is found behind it; where the character does not
/// occur, nothing is.
pub proof fn the_last_occurrence_counts(a: Seq<char>, b: Seq<char>, c: char)
    requires
        !b.contains(c),
    ensures
        after_last_char(a.push(c) + b, c) == Some(b),
        after_last_char(b, c) is None,
    decreases b.len(),
{
    let s = a.push(c) + b;
    if b.len() > 0 {
        let t = b.drop_last();
        assert forall|i: int| 0 <= i < t.len() implies t[i] != c by {
            assert(b[i] == t[i]);
            assert(b.contains(b[i]));
        }
        assert(b.contains(b.last()));
        the_last_occurrence_counts(a, t, c);
        assert(s.drop_last() =~= a.push(c) + t);
        assert(s.last() == b.last());
        assert(t.push(b.last()) =~= b);
    } else {
        assert(b =~= Seq::<char>::empty());
        assert(s.last() == c);
    }
}

/// Replacing changes the first occurrence and goes on behind it; a text without one stays as it is.
pub proof fn every_occurrence_is_replaced(s: Seq<char>, from: Seq<char>, to: Seq<char>, i: int)
    requires
        from.len() > 0,
        0 <= i <= s.len(),
        forall|j: int| 0 <= j < i ==> !#[trigger] occurs_at(s, from, j),
    ensures
        occurs_at(s, from, i) ==> replace_text(s, from, to) == s.take(i) + to + replace_text(
            s.skip(i + from.len()),
            from,
            to,
        ),
        i == s.len() ==> replace_text(s, from, to) == s,
{
    lemma_nothing_replaced(s, from, to, 0, i);
    assert(s.subrange(0, i) =~= s.take(i));
    if occurs_at(s, from, i) {
        lemma_replace_rest(s, from, to, i + from.len(), 0);
        assert(s.take(i) + (to + replace_from(s, from, to, i + from.len())) =~= s.take(i) + to
            + replace_from(s, from, to, i + from.len()));
    }
    if i == s.len() {
        assert(s.take(i) + Seq::<char>::empty() =~= s);
    }
}

proof fn lemma_nothing_replaced(s: Seq<char>, from: Seq<char>, to: Seq<char>, k: int, i: int)
    requires
        from.len() > 0,
        0 <= k <= i <= s.len(),
        forall|j: int| k <= j < i ==> !#[trigger] occurs_at(s, from, j),
    ensures
        replace_from(s, from, to, k) == s.subrange(k, i) + replace_from(s, from, to, i),
    decreases i - k,
{
    if k < i {
        lemma_nothing_replaced(s, from, to, k + 1, i);
        assert(!occurs_at(s, from, k));
        assert(seq![s[k]] + (s.subrange(k + 1, i) + replace_from(s, from, to, i)) =~= s.subrange(
            k,
            i,
        ) + replace_from(s, from, to, i));
    } else {
        assert(s.subrange(k, i) + replace_from(s, from, to, i) =~= replace_from(s, from, to, i));
    }
}

proof fn lemma_replace_rest(s: Seq<char>, from: Seq<char>, to: Seq<char>, k: int, i: int)
    requires
        from.len() > 0,
        0 <= k <= s.len(),
        0 <= i,
    ensures
        replace_from(s, from, to, k + i) == replace_from(s.skip(k), from, to, i),
    decreases s.len() - k - i,
{
    let t = s.skip(k);
    if k + i < s.len() {
        assert(s[k + i] == t[i]);
        if i + from.len() <= t.len() {
            assert(t.subrange(i, i + from.len()) =~= s.subrange(k + i, k + i + from.len()));
        }
        assert(occurs_at(s, from, k + i) == occurs_at(t, from, i));
        if occurs_at(s, from, k + i) {
            lemma_replace_rest(s, from, to, k, i + from.len());
        } else {
            lemma_replace_rest(s, from, to, k, i + 1);
        }
    }
}

// ---------------------------------------------------------------------------
// Numbers
// ---------------------------------------------------------------------------

/// A number that is written in digits, with a plus sign or without, is read as that number where it
/// is not too large, and nothing but digits is read as a number.
pub proof fn written_numbers_are_read(n: nat, max: nat, s: Seq<char>)
    ensures
        parse_unsigned(decimal(n), max) == if n <= max {
            Some(n)
        } else {
            None
        },
        parse_unsigned(seq!['+'] + decimal(n), max) == parse_unsigned(decimal(n), max),
        parse_unsigned(s, max) is Some ==> parse_unsigned(s, max).unwrap() <= max && all_digits(
            unsigned_digits(s),
        ) && s.len() > 0,
{
    digits_read_back(n);
    let d = decimal(n);
    assert(crate::text::is_digit(d[0]));
    assert(unsigned_digits(d) == d);
    assert((seq!['+'] + d).drop_first() =~= d);
}

// ---------------------------------------------------------------------------
// Order, numbers and letters
// ---------------------------------------------------------------------------

/// Texts are ordered by the first character in which they differ; a text comes before those that it
/// begins.
pub proof fn texts_are_ordered_by_their_first_difference(p: Seq<char>, x: Seq<char>, y: Seq<char>)
    ensures
        text_le(p + x, p + y) == text_le(x, y),
        x.len() > 0 && y.len() > 0 && x[0] != y[0] ==> text_le(p + x, p + y) == (x[0] < y[0]),
        text_le(p, p + y),
        y.len() > 0 ==> !text_le(p + y, p),
    decreases p.len(),
{
    let none = Seq::<char>::empty();
    if p.len() == 0 {
        assert(p + x =~= x);
        assert(p + y =~= y);
    } else {
        let t = p.skip(1);
        texts_are_ordered_by_their_first_difference(t, x, y);
        assert((p + x).skip(1) =~= t + x);
        assert((p + y).skip(1) =~= t + y);
        assert((p + x)[0] == p[0] && (p + y)[0] == p[0]);
    }
}

/// Numbers are written in tens: a digit behind a number makes ten of it and adds the digit.
pub proof fn numbers_are_written_in_tens(n: nat, d: nat)
    requires
        d < 10,
    ensures
        decimal(d) == seq![digit_char(d)],
        n > 0 ==> decimal(10 * n + d) == decimal(n).push(digit_char(d)),
        digit_char(0) == '0' && digit_char(1) == '1' && digit_char(2) == '2' && digit_char(3) == '3'
            && digit_char(4) == '4' && digit_char(5) == '5' && digit_char(6) == '6' && digit_char(7)
            == '7' && digit_char(8) == '8' && digit_char(9) == '9',
{
    let m = 10 * n + d;
    assert(m / 10 == n && m % 10 == d) by (nonlinear_arith)
        requires
            m == 10 * n + d,
            d < 10,
    ;
}

/// Written in small letters a text holds no capitals and keeps its length; whatever is no capital
/// stays.
pub proof fn small_letters_stand_for_capitals(s: Seq<char>, i: int)
    requires
        0 <= i < s.len(),
    ensures
        lower_text(s).len() == s.len(),
        !('A' <= lower_text(s)[i] && lower_text(s)[i] <= 'Z'),
        !('A' <= s[i] && s[i] <= 'Z') ==> lower_text(s)[i] == s[i],
        'A' <= s[i] && s[i] <= 'Z' ==> 'a' <= lower_text(s)[i] && lower_text(s)[i] <= 'z',
        lower_text(lower_text(s)) == lower_text(s),
{
    assert(lower_text(lower_text(s)) =~= lower_text(s));
}

/// What a text begins or ends with is taken off, and the rest stays as it is; a text that does not
/// begin or end so has nothing to take off.
pub proof fn beginnings_and_ends_are_taken_off(p: Seq<char>, s: Seq<char>, other: Seq<char>)
    requires
        p.len() > 0,
        other.len() < p.len() || (other[0] != p[0] && other.last() != p.last()),
    ensures
        after_prefix(p + s, p) == Some(s),
        before_suffix(s + p, p) == Some(s),
        after_prefix(other, p) is None,
        before_suffix(other, p) is None,
{
    let a = p + s;
    let b = s + p;
    assert(p.is_prefix_of(a)) by {
        assert(p =~= a.subrange(0, p.len() as int));
    }
    assert(a.skip(p.len() as int) =~= s);
    assert(p.is_suffix_of(b)) by {
        assert(p =~= b.subrange(b.len() - p.len(), b.len() as int));
    }
    assert(b.take(b.len() - p.len()) =~= s);
    if p.is_prefix_of(other) {
        assert(p[0] == other.subrange(0, p.len() as int)[0]);
    }
    if p.is_suffix_of(other) {
        assert(p.last() == other.subrange(other.len() - p.len(), other.len() as int).last());
    }
}

} // verus!
