//! Where the bytes of a text stand: lines are counted by line feeds, columns from the last of them.

use crate::bytes::lemma_encode_concat;
use crate::rules::common::{line_at, line_begin, line_feeds, position_of};
use crate::text::{
    concatenated, inclusive_lines_of, lemma_concatenated_prefix, lemma_inclusive_lines,
    lemma_split_nonempty, lines_of, split_text,
};
use vstd::prelude::*;
use vstd::utf8::{char_u32_cast, encode_scalar, encode_utf8};

verus! {

proof fn lemma_scalar_without_line_feed(c: u32)
    requires
        c != 10,
    ensures
        !encode_scalar(c).contains(10u8),
{
    assert(c <= 0x7f ==> (c & 0x7f) as u8 == c) by (bit_vector);
    assert(0xC0u8 | ((c >> 6) & 0x1F) as u8 >= 0x80) by (bit_vector);
    assert(0xE0u8 | ((c >> 12) & 0x0F) as u8 >= 0x80) by (bit_vector);
    assert(0xF0u8 | ((c >> 18) & 0x7) as u8 >= 0x80) by (bit_vector);
    assert(0x80u8 | (c & 0x3F) as u8 >= 0x80) by (bit_vector);
    assert(0x80u8 | ((c >> 6) & 0x3F) as u8 >= 0x80) by (bit_vector);
    assert(0x80u8 | ((c >> 12) & 0x3F) as u8 >= 0x80) by (bit_vector);
}

proof fn lemma_not_line_feed(c: char)
    requires
        c != '\n',
    ensures
        c as u32 != 10,
{
    if c as u32 == 10 {
        char_u32_cast(c, 10);
        char_u32_cast('\n', 10);
    }
}

proof fn lemma_line_feed_byte()
    ensures
        encode_scalar('\n' as u32) == seq![10u8],
{
    assert((10u32 & 0x7f) as u8 == 10) by (bit_vector);
    assert(encode_scalar(10u32) =~= seq![10u8]);
}

proof fn lemma_line_feeds_of_both(a: Seq<u8>, b: Seq<u8>, n: int)
    requires
        0 <= n <= b.len(),
    ensures
        line_feeds(a + b, a.len() + n) == line_feeds(a, a.len() as int) + line_feeds(b, n),
    decreases n,
{
    if n > 0 {
        lemma_line_feeds_of_both(a, b, n - 1);
        assert((a + b)[a.len() + n - 1] == b[n - 1]);
    } else {
        lemma_line_feeds_prefix(a, a + b, a.len() as int);
    }
}

proof fn lemma_line_feeds_prefix(a: Seq<u8>, b: Seq<u8>, n: int)
    requires
        0 <= n <= a.len(),
        n <= b.len(),
        forall|i: int| 0 <= i < n ==> a[i] == b[i],
    ensures
        line_feeds(a, n) == line_feeds(b, n),
        line_begin(a, n) == line_begin(b, n),
    decreases n,
{
    if n > 0 {
        lemma_line_feeds_prefix(a, b, n - 1);
    }
}

proof fn lemma_no_line_feeds(a: Seq<u8>, n: int)
    requires
        0 <= n <= a.len(),
        !a.contains(10u8),
    ensures
        line_feeds(a, n) == 0,
    decreases n,
{
    if n > 0 {
        lemma_no_line_feeds(a, n - 1);
        assert(a.contains(a[n - 1]));
    }
}

/// In bytes there are as many line feeds as in the text.
pub proof fn line_feeds_are_those_of_the_text(s: Seq<char>)
    ensures
        line_feeds(encode_utf8(s), encode_utf8(s).len() as int) == s.filter(
            |c: char| c == '\n',
        ).len(),
    decreases s.len(),
{
    let p = |c: char| c == '\n';
    if s.len() == 0 {
        reveal(Seq::filter);
        assert(s.filter(p).len() == 0);
    } else {
        let t = s.drop_last();
        let c = s.last();
        line_feeds_are_those_of_the_text(t);
        assert(s =~= t.push(c));
        t.lemma_filter_push(c, p);
        assert(s =~= t + seq![c]);
        lemma_encode_concat(t, seq![c]);
        lemma_encode_one(c);
        let e = encode_scalar(c as u32);
        lemma_line_feeds_of_both(encode_utf8(t), e, e.len() as int);
        if c == '\n' {
            lemma_line_feed_byte();
            assert(line_feeds(e, 1) == 1) by {
                assert(line_feeds(e, 0) == 0);
            }
        } else {
            lemma_not_line_feed(c);
            lemma_scalar_without_line_feed(c as u32);
            lemma_no_line_feeds(e, e.len() as int);
        }
    }
}

proof fn lemma_encode_one(c: char)
    ensures
        encode_utf8(seq![c]) == encode_scalar(c as u32),
{
    assert(seq![c].drop_first() =~= Seq::<char>::empty());
    assert(encode_utf8(seq![c].drop_first()) =~= Seq::<u8>::empty());
    assert(encode_utf8(seq![c]) =~= encode_scalar(c as u32));
}

proof fn lemma_encode_without_line_feed(s: Seq<char>)
    requires
        !s.contains('\n'),
    ensures
        !encode_utf8(s).contains(10u8),
    decreases s.len(),
{
    if s.len() > 0 {
        let t = s.drop_first();
        assert(!t.contains('\n')) by {
            assert forall|i: int| 0 <= i < t.len() implies t[i] != '\n' by {
                assert(t[i] == s[i + 1]);
            }
        }
        lemma_encode_without_line_feed(t);
        assert(s[0] != '\n');
        lemma_not_line_feed(s[0]);
        lemma_scalar_without_line_feed(s[0] as u32);
        let a = encode_scalar(s[0] as u32);
        let b = encode_utf8(t);
        assert forall|i: int| 0 <= i < (a + b).len() implies (a + b)[i] != 10u8 by {
            if i < a.len() {
                assert(a.contains(a[i]));
            } else {
                assert(b.contains(b[i - a.len()]));
            }
        }
    }
}

proof fn lemma_line_begin(a: Seq<u8>, from: int, n: int)
    requires
        0 <= from <= n <= a.len(),
        from == 0 || a[from - 1] == 10u8,
        forall|i: int| from <= i < n ==> a[i] != 10u8,
    ensures
        line_begin(a, n) == from,
    decreases n - from,
{
    if from < n {
        lemma_line_begin(a, from, n - 1);
    }
}

/// The byte behind `above` and `left` stands on the line after as many as there are line feeds
/// before it, and in the column after as many as there are bytes since the last of them.
pub proof fn places_count_line_feeds_and_bytes(above: Seq<char>, left: Seq<char>, rest: Seq<char>)
    requires
        above.len() == 0 || above.last() == '\n',
        !left.contains('\n'),
    ensures
        position_of(encode_utf8(above + left + rest), encode_utf8(above + left).len() as int) == (
            above.filter(|c: char| c == '\n').len() as int + 1,
            encode_utf8(left).len() as int + 1,
        ),
{
    let all = encode_utf8(above + left + rest);
    let a = encode_utf8(above);
    let l = encode_utf8(left);
    lemma_encode_concat(above + left, rest);
    lemma_encode_concat(above, left);
    lemma_encode_without_line_feed(left);
    let n = (a + l).len() as int;
    lemma_line_feeds_prefix(a + l, all, n);
    lemma_line_feeds_of_both(a, l, l.len() as int);
    lemma_no_line_feeds(l, l.len() as int);
    line_feeds_are_those_of_the_text(above);
    assert(a.len() > 0 ==> a[a.len() - 1] == 10u8) by {
        if above.len() > 0 {
            let t = above.drop_last();
            assert(above =~= t + seq!['\n']);
            lemma_encode_concat(t, seq!['\n']);
            lemma_encode_one('\n');
            lemma_line_feed_byte();
        }
    }
    assert forall|i: int| a.len() <= i < n implies (a + l)[i] != 10u8 by {
        assert(l.contains(l[i - a.len()]));
    }
    lemma_line_begin(a + l, a.len() as int, n);
}

proof fn lemma_pieces_have_no_separator(s: Seq<char>, sep: char, i: int)
    requires
        0 <= i < split_text(s, sep).len(),
    ensures
        !split_text(s, sep)[i].contains(sep),
    decreases s.len(),
{
    if s.len() > 0 {
        lemma_split_nonempty(s.drop_last(), sep);
        let before = split_text(s.drop_last(), sep);
        if i < before.len() {
            lemma_pieces_have_no_separator(s.drop_last(), sep, i);
        }
    }
}

proof fn lemma_closed_lines(v: Seq<Seq<char>>, n: int)
    requires
        0 <= n <= v.len(),
        forall|i: int|
            0 <= i < n ==> (#[trigger] v[i]).len() > 0 && v[i].last() == '\n'
                && !v[i].drop_last().contains('\n'),
    ensures
        concatenated(v, n).filter(|c: char| c == '\n').len() == n,
        n > 0 ==> concatenated(v, n).len() > 0 && concatenated(v, n).last() == '\n',
    decreases n,
{
    let p = |c: char| c == '\n';
    if n == 0 {
        reveal(Seq::filter);
        assert(Seq::<char>::empty().filter(p).len() == 0);
    } else {
        lemma_closed_lines(v, n - 1);
        let a = concatenated(v, n - 1);
        let l = v[n - 1];
        let t = l.drop_last();
        lemma_filter_none(a, t);
        assert(a + l =~= (a + t).push('\n'));
        (a + t).lemma_filter_push('\n', p);
    }
}

proof fn lemma_filter_none(a: Seq<char>, t: Seq<char>)
    requires
        !t.contains('\n'),
    ensures
        (a + t).filter(|c: char| c == '\n') == a.filter(|c: char| c == '\n'),
    decreases t.len(),
{
    let p = |c: char| c == '\n';
    if t.len() == 0 {
        assert(a + t =~= a);
    } else {
        let u = t.drop_last();
        assert(!u.contains('\n')) by {
            assert forall|i: int| 0 <= i < u.len() implies u[i] != '\n' by {
                assert(u[i] == t[i]);
            }
        }
        lemma_filter_none(a, u);
        assert(t.last() != '\n') by {
            assert(t[t.len() - 1] == t.last());
        }
        assert(a + t =~= (a + u).push(t.last()));
        (a + u).lemma_filter_push(t.last(), p);
    }
}

/// What begins within line `i` of a text, behind `left`, is placed on that line, in the column after
/// as many bytes as `left` has.
pub proof fn places_in_a_line_are_on_it(source: Seq<char>, i: int, left: Seq<char>)
    requires
        0 <= i < inclusive_lines_of(source).len(),
        left.is_prefix_of(inclusive_lines_of(source)[i]),
        !left.contains('\n'),
    ensures
        position_of(
            encode_utf8(source),
            (encode_utf8(concatenated(inclusive_lines_of(source), i)).len()
                + encode_utf8(left).len()) as int,
        ) == (i + 1, encode_utf8(left).len() as int + 1),
{
    let v = inclusive_lines_of(source);
    let pieces = split_text(source, '\n');
    let above = concatenated(v, i);
    lemma_split_nonempty(source, '\n');
    lemma_inclusive_lines(source);
    lemma_concatenated_prefix(v, i + 1, v.len() as int);
    assert forall|k: int| 0 <= k < i implies (#[trigger] v[k]).len() > 0 && v[k].last() == '\n'
        && !v[k].drop_last().contains('\n') by {
        assert(v[k] == pieces[k].push('\n'));
        assert(v[k].drop_last() =~= pieces[k]);
        lemma_pieces_have_no_separator(source, '\n', k);
    }
    lemma_closed_lines(v, i);
    let head = concatenated(v, i + 1);
    let rest = v[i].skip(left.len() as int) + source.skip(head.len() as int);
    assert(source =~= head + source.skip(head.len() as int)) by {
        assert(head =~= source.subrange(0, head.len() as int));
    }
    assert(v[i] =~= left + v[i].skip(left.len() as int));
    assert(source =~= above + left + rest);
    places_count_line_feeds_and_bytes(above, left, rest);
    lemma_encode_concat(above, left);
}

/// Each byte of a line is placed on that line, in the column after as many bytes as stand before it
/// there, and what is shown of it is the line.
pub proof fn bytes_of_a_line_are_on_it(source: Seq<char>, i: int, k: int)
    requires
        0 <= i < inclusive_lines_of(source).len(),
        0 <= k < encode_utf8(inclusive_lines_of(source)[i]).len(),
    ensures
        ({
            let at = encode_utf8(concatenated(inclusive_lines_of(source), i)).len() + k;
            &&& at < encode_utf8(source).len()
            &&& position_of(encode_utf8(source), at) == (i + 1, k + 1)
            &&& line_at(source, at) == lines_of(source)[i]
        }),
{
    let v = inclusive_lines_of(source);
    let pieces = split_text(source, '\n');
    let above = concatenated(v, i);
    let line = v[i];
    let a = encode_utf8(above);
    let l = encode_utf8(line);
    lemma_split_nonempty(source, '\n');
    lemma_inclusive_lines(source);
    lemma_concatenated_prefix(v, i + 1, v.len() as int);
    let head = concatenated(v, i + 1);
    let rest = source.skip(head.len() as int);
    assert(source =~= head + rest) by {
        assert(head =~= source.subrange(0, head.len() as int));
    }
    lemma_encode_concat(head, rest);
    lemma_encode_concat(above, line);
    assert forall|m: int| 0 <= m < k implies l[m] != 10u8 by {
        lemma_pieces_have_no_separator(source, '\n', i);
        lemma_encode_without_line_feed(pieces[i]);
        let p = encode_utf8(pieces[i]);
        if line == pieces[i] {
            assert(p.contains(p[m]));
        } else {
            assert(line =~= pieces[i] + seq!['\n']);
            lemma_encode_concat(pieces[i], seq!['\n']);
            lemma_encode_one('\n');
            lemma_line_feed_byte();
            assert(l[m] == p[m]);
            assert(p.contains(p[m]));
        }
    }
    let none = Seq::<char>::empty();
    assert(none =~= line.subrange(0, 0));
    assert(encode_utf8(none).len() == 0);
    places_in_a_line_are_on_it(source, i, none);
    let all = encode_utf8(source);
    let start = a.len() as int;
    lemma_along_a_line(all, start, start + k);
    assert(lines_of(source).len() == v.len());
}

proof fn lemma_along_a_line(all: Seq<u8>, start: int, at: int)
    requires
        0 <= start <= at <= all.len(),
        line_begin(all, start) == start,
        forall|m: int| start <= m < at ==> all[m] != 10u8,
    ensures
        line_feeds(all, at) == line_feeds(all, start),
        line_begin(all, at) == start,
    decreases at - start,
{
    if start < at {
        lemma_along_a_line(all, start, at - 1);
    }
}

} // verus!
