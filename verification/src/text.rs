//! Text primitives over Unicode scalar values, each stated over `Seq<char>`.

use vstd::prelude::*;

verus! {

/// `String::push` appends one character to the end of the string.
pub assume_specification[ String::push ](s: &mut String, ch: char)
    ensures
        final(s)@ == old(s)@.push(ch),
;

/// `==` on two texts holds exactly when they have the same characters.
pub assume_specification[ <str as PartialEq<str>>::eq ](a: &str, b: &str) -> (r: bool)
    ensures
        r == (a@ == b@),
;

/// The texts of a list of strings.
pub open spec fn texts(v: Seq<String>) -> Seq<Seq<char>> {
    v.map_values(|s: String| s@)
}

/// The text of an optional string.
pub open spec fn opt_text(o: Option<String>) -> Option<Seq<char>> {
    match o {
        Some(s) => Some(s@),
        None => None,
    }
}

/// All characters of `s`, in order.
pub fn chars_of(s: &str) -> (r: Vec<char>)
    ensures
        r@ == s@,
{
    let mut r: Vec<char> = Vec::new();
    for c in it: s.chars()
        invariant
            it.seq() == s@,
            r@ == s@.take(it.index() as int),
    {
        r.push(c);
    }
    r
}

/// The characters `v[from..to]` as a string.
pub fn string_between(v: &Vec<char>, from: usize, to: usize) -> (r: String)
    requires
        from <= to <= v@.len(),
    ensures
        r@ == v@.subrange(from as int, to as int),
{
    let mut r: String = String::new();
    let mut i: usize = from;
    while i < to
        invariant
            from <= i <= to <= v@.len(),
            r@ == v@.subrange(from as int, i as int),
        decreases to - i,
    {
        r.push(v[i]);
        i = i + 1;
    }
    r
}

/// An owned copy of a borrowed text.
pub fn owned(s: &str) -> (r: String)
    ensures
        r@ == s@,
{
    s.to_owned()
}

/// Whether two texts are the same.
pub fn same(a: &str, b: &str) -> (r: bool)
    ensures
        r == (a@ == b@),
{
    a.eq(b)
}

// ---------------------------------------------------------------------------
// Searching
// ---------------------------------------------------------------------------

/// `p` stands in `s` at position `i`.
pub open spec fn occurs_at(s: Seq<char>, p: Seq<char>, i: int) -> bool {
    &&& 0 <= i
    &&& i + p.len() <= s.len()
    &&& s.subrange(i, i + p.len()) == p
}

/// `p` stands somewhere in `s`.
pub open spec fn contains_text(s: Seq<char>, p: Seq<char>) -> bool {
    exists|i: int| #[trigger] occurs_at(s, p, i)
}

/// The first position at or after `i` at which `p` stands in `s`.
pub open spec fn find_from(s: Seq<char>, p: Seq<char>, i: int) -> Option<int>
    decreases s.len() + 1 - i,
{
    if i + p.len() > s.len() {
        None
    } else if occurs_at(s, p, i) {
        Some(i)
    } else {
        find_from(s, p, i + 1)
    }
}

/// A found position is the first one; no position is found exactly when there is none.
pub proof fn lemma_find_from(s: Seq<char>, p: Seq<char>, i: int)
    requires
        0 <= i,
    ensures
        match find_from(s, p, i) {
            Some(k) => i <= k && occurs_at(s, p, k) && (forall|j: int|
                i <= j < k ==> !#[trigger] occurs_at(s, p, j)),
            None => forall|j: int| i <= j ==> !#[trigger] occurs_at(s, p, j),
        },
    decreases s.len() + 1 - i,
{
    if i + p.len() > s.len() {
    } else if occurs_at(s, p, i) {
    } else {
        lemma_find_from(s, p, i + 1);
    }
}

/// Whether the characters `p` stand in `s` at position `i`.
pub fn stands_at(s: &Vec<char>, p: &Vec<char>, i: usize) -> (r: bool)
    ensures
        r == occurs_at(s@, p@, i as int),
{
    let n: usize = s.len();
    let m: usize = p.len();
    if m > n || i > n - m {
        return false;
    }
    let mut k: usize = 0;
    while k < m
        invariant
            n == s@.len(),
            m == p@.len(),
            k <= m,
            i + m <= n,
            forall|j: int| 0 <= j < k ==> s@[i + j] == p@[j],
        decreases p@.len() - k,
    {
        if s[i + k] != p[k] {
            proof {
                assert(s@.subrange(i as int, i + p@.len())[k as int] != p@[k as int]);
            }
            return false;
        }
        k = k + 1;
    }
    assert(s@.subrange(i as int, i + p@.len()) =~= p@);
    true
}

/// The first position at or after `from` at which `p` stands in `s`.
pub fn find_chars(s: &Vec<char>, p: &Vec<char>, from: usize) -> (r: Option<usize>)
    ensures
        match r {
            Some(k) => find_from(s@, p@, from as int) == Some(k as int),
            None => find_from(s@, p@, from as int) is None,
        },
{
    let n: usize = s.len();
    let m: usize = p.len();
    let mut i: usize = from;
    while m <= n && i <= n - m && i < n
        invariant
            n == s@.len(),
            m == p@.len(),
            find_from(s@, p@, from as int) == find_from(s@, p@, i as int),
        decreases s@.len() + 1 - i,
    {
        if stands_at(s, p, i) {
            return Some(i);
        }
        i = i + 1;
    }
    if m == 0 && i == n {
        assert(s@.subrange(i as int, i as int) =~= p@);
        return Some(i);
    }
    None
}

/// Whether `p` stands somewhere in `s`.
pub fn contains(s: &str, p: &str) -> (r: bool)
    ensures
        r == contains_text(s@, p@),
{
    let sc = chars_of(s);
    let pc = chars_of(p);
    proof {
        lemma_find_from(s@, p@, 0);
    }
    match find_chars(&sc, &pc, 0) {
        Some(_) => true,
        None => {
            proof {
                assert forall|i: int| !#[trigger] occurs_at(s@, p@, i) by {}
            }
            false
        },
    }
}

/// Whether `s` begins with `p`.
pub fn starts_with(s: &str, p: &str) -> (r: bool)
    ensures
        r == p@.is_prefix_of(s@),
{
    let sc = chars_of(s);
    let pc = chars_of(p);
    let r = stands_at(&sc, &pc, 0);
    r
}

/// Whether `s` ends with `p`.
pub fn ends_with(s: &str, p: &str) -> (r: bool)
    ensures
        r == p@.is_suffix_of(s@),
{
    let sc = chars_of(s);
    let pc = chars_of(p);
    if pc.len() > sc.len() {
        return false;
    }
    stands_at(&sc, &pc, sc.len() - pc.len())
}

/// What follows `p` in `s`, when `s` begins with `p`.
pub open spec fn after_prefix(s: Seq<char>, p: Seq<char>) -> Option<Seq<char>> {
    if p.is_prefix_of(s) {
        Some(s.skip(p.len() as int))
    } else {
        None
    }
}

/// What follows the prefix `p` in `s`.
pub fn strip_prefix(s: &str, p: &str) -> (r: Option<String>)
    ensures
        opt_text(r) == after_prefix(s@, p@),
{
    let sc = chars_of(s);
    let pc = chars_of(p);
    if stands_at(&sc, &pc, 0) {
        let r = string_between(&sc, pc.len(), sc.len());
        proof {
            assert(s@.subrange(p@.len() as int, s@.len() as int) =~= s@.skip(p@.len() as int));
        }
        Some(r)
    } else {
        None
    }
}

/// What precedes `p` in `s`, when `s` ends with `p`.
pub open spec fn before_suffix(s: Seq<char>, p: Seq<char>) -> Option<Seq<char>> {
    if p.is_suffix_of(s) {
        Some(s.take(s.len() - p.len()))
    } else {
        None
    }
}

/// What precedes the suffix `p` in `s`.
pub fn strip_suffix(s: &str, p: &str) -> (r: Option<String>)
    ensures
        opt_text(r) == before_suffix(s@, p@),
{
    if ends_with(s, p) {
        let sc = chars_of(s);
        let pc = chars_of(p);
        let r = string_between(&sc, 0, sc.len() - pc.len());
        proof {
            assert(s@.subrange(0, s@.len() - p@.len()) =~= s@.take(s@.len() - p@.len()));
        }
        Some(r)
    } else {
        None
    }
}

// ---------------------------------------------------------------------------
// Splitting
// ---------------------------------------------------------------------------

/// The pieces between the occurrences of `sep`; there is always at least one.
pub open spec fn split_text(s: Seq<char>, sep: char) -> Seq<Seq<char>>
    decreases s.len(),
{
    if s.len() == 0 {
        seq![Seq::empty()]
    } else {
        let head = split_text(s.drop_last(), sep);
        if s.last() == sep {
            head.push(Seq::empty())
        } else {
            head.drop_last().push(head.last().push(s.last()))
        }
    }
}

pub proof fn lemma_split_nonempty(s: Seq<char>, sep: char)
    ensures
        split_text(s, sep).len() >= 1,
    decreases s.len(),
{
    if s.len() > 0 {
        lemma_split_nonempty(s.drop_last(), sep);
    }
}

pub proof fn lemma_texts_push(v: Seq<String>, s: String)
    ensures
        texts(v.push(s)) == texts(v).push(s@),
{
    assert(texts(v.push(s)) =~= texts(v).push(s@));
}

/// The pieces of `s` between the occurrences of `sep`.
pub fn split(s: &str, sep: char) -> (r: Vec<String>)
    ensures
        texts(r@) == split_text(s@, sep),
{
    let sc = chars_of(s);
    let mut done: Vec<String> = Vec::new();
    let mut current: String = String::new();
    let mut i: usize = 0;
    while i < sc.len()
        invariant
            i <= sc@.len(),
            sc@ == s@,
            texts(done@).push(current@) == split_text(s@.take(i as int), sep),
        decreases sc@.len() - i,
    {
        proof {
            assert(s@.take(i + 1).drop_last() =~= s@.take(i as int));
            assert(texts(done@).push(current@).drop_last() =~= texts(done@));
            assert(texts(done@).push(current@).last() == current@);
        }
        if sc[i] == sep {
            proof {
                lemma_texts_push(done@, current);
            }
            done.push(current);
            current = String::new();
        } else {
            current.push(sc[i]);
        }
        i = i + 1;
    }
    proof {
        assert(s@.take(i as int) =~= s@);
        lemma_texts_push(done@, current);
    }
    done.push(current);
    done
}

/// A line without the carriage return that stood before its line feed.
pub open spec fn without_cr(line: Seq<char>) -> Seq<char> {
    if line.len() > 0 && line.last() == '\r' {
        line.drop_last()
    } else {
        line
    }
}

/// The lines of `s`: a final line feed ends the last line, and a carriage return before a line
/// feed belongs to the line ending.
pub open spec fn lines_of(s: Seq<char>) -> Seq<Seq<char>> {
    let pieces = split_text(s, '\n');
    let ended = pieces.drop_last().map_values(|l: Seq<char>| without_cr(l));
    if pieces.last().len() == 0 {
        ended
    } else {
        ended.push(pieces.last())
    }
}

/// The lines of `s`.
pub fn lines(s: &str) -> (r: Vec<String>)
    ensures
        texts(r@) == lines_of(s@),
{
    let mut pieces = split(s, '\n');
    let ghost all = texts(pieces@);
    proof {
        lemma_split_nonempty(s@, '\n');
        assert(all.len() == pieces@.len());
        assert(all.last() == pieces@.last()@);
    }
    let n: usize = pieces.len();
    let last_len: usize = chars_of(pieces[n - 1].as_str()).len();
    let mut r: Vec<String> = Vec::new();
    let mut i: usize = 0;
    while i < n - 1
        invariant
            i <= n - 1,
            n == pieces@.len() == all.len(),
            all == texts(pieces@),
            texts(r@) =~= all.take(i as int).map_values(|l: Seq<char>| without_cr(l)),
        decreases n - i,
    {
        let c = chars_of(pieces[i].as_str());
        let keep: usize = if c.len() > 0 && c[c.len() - 1] == '\r' {
            c.len() - 1
        } else {
            c.len()
        };
        let line = string_between(&c, 0, keep);
        proof {
            assert(all[i as int] == c@);
            assert(line@ =~= without_cr(all[i as int]));
            lemma_texts_push(r@, line);
            assert(all.take(i + 1) =~= all.take(i as int).push(all[i as int]));
        }
        r.push(line);
        i = i + 1;
    }
    proof {
        assert(all.take(n - 1) =~= all.drop_last());
    }
    if last_len > 0 {
        let last = pieces[n - 1].clone();
        proof {
            lemma_texts_push(r@, last);
        }
        r.push(last);
    }
    r
}

/// The lines of `s` with the line feeds that end them.
pub open spec fn inclusive_lines_of(s: Seq<char>) -> Seq<Seq<char>> {
    let pieces = split_text(s, '\n');
    let ended = pieces.drop_last().map_values(|l: Seq<char>| l.push('\n'));
    if pieces.last().len() == 0 {
        ended
    } else {
        ended.push(pieces.last())
    }
}

/// The first `n` texts, one behind the other.
pub open spec fn concatenated(v: Seq<Seq<char>>, n: int) -> Seq<char>
    decreases n,
{
    if n <= 0 {
        Seq::empty()
    } else {
        concatenated(v, n - 1) + v[n - 1]
    }
}

proof fn lemma_concatenated_same(a: Seq<Seq<char>>, b: Seq<Seq<char>>, n: int)
    requires
        0 <= n <= a.len(),
        n <= b.len(),
        forall|i: int| 0 <= i < n ==> a[i] == b[i],
    ensures
        concatenated(a, n) == concatenated(b, n),
    decreases n,
{
    if n > 0 {
        lemma_concatenated_same(a, b, n - 1);
    }
}

/// Lines with their ends make up the whole text.
pub proof fn lemma_inclusive_lines(s: Seq<char>)
    ensures
        concatenated(inclusive_lines_of(s), inclusive_lines_of(s).len() as int) == s,
    decreases s.len(),
{
    lemma_split_nonempty(s, '\n');
    let now = inclusive_lines_of(s);
    if s.len() == 0 {
        assert(now =~= Seq::<Seq<char>>::empty());
    } else {
        let t = s.drop_last();
        let before = inclusive_lines_of(t);
        lemma_inclusive_lines(t);
        lemma_split_nonempty(t, '\n');
        let head = split_text(t, '\n');
        let n = head.len() - 1;
        let closed = head.drop_last().map_values(|l: Seq<char>| l.push('\n'));
        assert(s =~= t.push(s.last()));
        lemma_concatenated_same(before, closed, n);
        assert(t == concatenated(closed, n) + head.last()) by {
            if head.last().len() == 0 {
                assert(concatenated(closed, n) + head.last() =~= concatenated(closed, n));
            }
        }
        if s.last() == '\n' {
            assert(split_text(s, '\n').drop_last() =~= head);
            assert(now.len() == n + 1);
            assert(now[n] == head.last().push('\n'));
            lemma_concatenated_same(now, closed, n);
            assert(concatenated(now, n + 1) =~= s);
        } else {
            assert(split_text(s, '\n').drop_last() =~= head.drop_last());
            assert(now.len() == n + 1);
            assert(now[n] == head.last().push(s.last()));
            lemma_concatenated_same(now, closed, n);
            assert(concatenated(now, n + 1) =~= s);
        }
    }
}

/// The first lines of a text begin it.
pub proof fn lemma_concatenated_prefix(v: Seq<Seq<char>>, n: int, m: int)
    requires
        0 <= n <= m <= v.len(),
    ensures
        concatenated(v, n).is_prefix_of(concatenated(v, m)),
    decreases m - n,
{
    if n < m {
        lemma_concatenated_prefix(v, n, m - 1);
        let a = concatenated(v, n);
        let b = concatenated(v, m - 1);
        assert(a =~= b.subrange(0, a.len() as int));
        assert(a =~= concatenated(v, m).subrange(0, a.len() as int));
    }
}

/// The lines of `s` with the line feeds that end them.
pub fn lines_inclusive(s: &str) -> (r: Vec<String>)
    ensures
        texts(r@) == inclusive_lines_of(s@),
{
    let pieces = split(s, '\n');
    let ghost all = texts(pieces@);
    proof {
        lemma_split_nonempty(s@, '\n');
        assert(all.len() == pieces@.len());
        assert(all.last() == pieces@.last()@);
    }
    let n: usize = pieces.len();
    let mut r: Vec<String> = Vec::new();
    let mut i: usize = 0;
    while i < n - 1
        invariant
            i <= n - 1,
            n == pieces@.len() == all.len(),
            all == texts(pieces@),
            texts(r@) =~= all.take(i as int).map_values(|l: Seq<char>| l.push('\n')),
        decreases n - i,
    {
        let mut line = pieces[i].clone();
        line.push('\n');
        proof {
            assert(all[i as int] == pieces@[i as int]@);
            lemma_texts_push(r@, line);
            assert(all.take(i + 1) =~= all.take(i as int).push(all[i as int]));
        }
        r.push(line);
        i = i + 1;
    }
    proof {
        assert(all.take(n - 1) =~= all.drop_last());
    }
    if !pieces[n - 1].as_str().is_empty() {
        let last = pieces[n - 1].clone();
        proof {
            lemma_texts_push(r@, last);
        }
        r.push(last);
    }
    r
}

// ---------------------------------------------------------------------------
// Trimming
// ---------------------------------------------------------------------------

/// The Unicode `White_Space` property.
pub open spec fn is_space(c: char) -> bool {
    let u = c as u32;
    ||| 0x9 <= u <= 0xd
    ||| u == 0x20
    ||| u == 0x85
    ||| u == 0xa0
    ||| u == 0x1680
    ||| 0x2000 <= u <= 0x200a
    ||| u == 0x2028
    ||| u == 0x2029
    ||| u == 0x202f
    ||| u == 0x205f
    ||| u == 0x3000
}

/// Whether the character has the Unicode `White_Space` property.
pub fn is_white_space(c: char) -> (r: bool)
    ensures
        r == is_space(c),
{
    let u: u32 = c as u32;
    (0x9 <= u && u <= 0xd) || u == 0x20 || u == 0x85 || u == 0xa0 || u == 0x1680 || (0x2000 <= u
        && u <= 0x200a) || u == 0x2028 || u == 0x2029 || u == 0x202f || u == 0x205f || u == 0x3000
}

/// `s` from its first character that is not white space.
pub open spec fn trim_start_text(s: Seq<char>) -> Seq<char>
    decreases s.len(),
{
    if s.len() > 0 && is_space(s.first()) {
        trim_start_text(s.drop_first())
    } else {
        s
    }
}

/// `s` up to its last character that is not white space.
pub open spec fn trim_end_text(s: Seq<char>) -> Seq<char>
    decreases s.len(),
{
    if s.len() > 0 && is_space(s.last()) {
        trim_end_text(s.drop_last())
    } else {
        s
    }
}

/// `s` without white space at either end.
pub open spec fn trim_text(s: Seq<char>) -> Seq<char> {
    trim_end_text(trim_start_text(s))
}

/// Where the text begins after its leading white space.
pub fn space_end(c: &Vec<char>) -> (i: usize)
    ensures
        i <= c@.len(),
        c@.skip(i as int) == trim_start_text(c@),
        forall|j: int| 0 <= j < i ==> is_space(#[trigger] c@[j]),
        i < c@.len() ==> !is_space(c@[i as int]),
{
    let mut i: usize = 0;
    assert(c@.skip(0) =~= c@);
    while i < c.len() && is_white_space(c[i])
        invariant
            i <= c@.len(),
            trim_start_text(c@) == trim_start_text(c@.skip(i as int)),
            forall|j: int| 0 <= j < i ==> is_space(#[trigger] c@[j]),
        decreases c@.len() - i,
    {
        proof {
            assert(c@.skip(i as int).drop_first() =~= c@.skip(i + 1));
        }
        i = i + 1;
    }
    i
}

/// `s` without leading white space.
pub fn trim_start(s: &str) -> (r: String)
    ensures
        r@ == trim_start_text(s@),
{
    let c = chars_of(s);
    let i = space_end(&c);
    proof {
        assert(c@.subrange(i as int, c@.len() as int) =~= c@.skip(i as int));
    }
    string_between(&c, i, c.len())
}

/// `s` without trailing white space.
pub fn trim_end(s: &str) -> (r: String)
    ensures
        r@ == trim_end_text(s@),
{
    let c = chars_of(s);
    let mut n: usize = c.len();
    assert(c@.take(n as int) =~= c@);
    while n > 0 && is_white_space(c[n - 1])
        invariant
            n <= c@.len(),
            trim_end_text(c@) == trim_end_text(c@.take(n as int)),
        decreases n,
    {
        proof {
            assert(c@.take(n as int).drop_last() =~= c@.take(n - 1));
        }
        n = n - 1;
    }
    proof {
        assert(c@.subrange(0, n as int) =~= c@.take(n as int));
    }
    string_between(&c, 0, n)
}

/// `s` without white space at either end.
pub fn trim(s: &str) -> (r: String)
    ensures
        r@ == trim_text(s@),
{
    let t = trim_start(s);
    trim_end(t.as_str())
}

/// `s` without any `c` at its beginning.
pub open spec fn trim_start_char_text(s: Seq<char>, c: char) -> Seq<char>
    decreases s.len(),
{
    if s.len() > 0 && s.first() == c {
        trim_start_char_text(s.drop_first(), c)
    } else {
        s
    }
}

/// `s` without any `c` at its end.
pub open spec fn trim_end_char_text(s: Seq<char>, c: char) -> Seq<char>
    decreases s.len(),
{
    if s.len() > 0 && s.last() == c {
        trim_end_char_text(s.drop_last(), c)
    } else {
        s
    }
}

/// `s` without any `c` at its beginning.
pub fn trim_start_char(s: &str, c: char) -> (r: String)
    ensures
        r@ == trim_start_char_text(s@, c),
{
    let v = chars_of(s);
    let mut i: usize = 0;
    assert(v@.skip(0) =~= v@);
    while i < v.len() && v[i] == c
        invariant
            i <= v@.len(),
            trim_start_char_text(v@, c) == trim_start_char_text(v@.skip(i as int), c),
        decreases v@.len() - i,
    {
        proof {
            assert(v@.skip(i as int).drop_first() =~= v@.skip(i + 1));
        }
        i = i + 1;
    }
    proof {
        assert(v@.subrange(i as int, v@.len() as int) =~= v@.skip(i as int));
    }
    string_between(&v, i, v.len())
}

/// `s` without any `c` at its end.
pub fn trim_end_char(s: &str, c: char) -> (r: String)
    ensures
        r@ == trim_end_char_text(s@, c),
{
    let v = chars_of(s);
    let mut n: usize = v.len();
    assert(v@.take(n as int) =~= v@);
    while n > 0 && v[n - 1] == c
        invariant
            n <= v@.len(),
            trim_end_char_text(v@, c) == trim_end_char_text(v@.take(n as int), c),
        decreases n,
    {
        proof {
            assert(v@.take(n as int).drop_last() =~= v@.take(n - 1));
        }
        n = n - 1;
    }
    proof {
        assert(v@.subrange(0, n as int) =~= v@.take(n as int));
    }
    string_between(&v, 0, n)
}

// ---------------------------------------------------------------------------
// Words and halves
// ---------------------------------------------------------------------------

/// The first position of `c` at or after `i`.
pub open spec fn index_of_from(s: Seq<char>, c: char, i: int) -> Option<int>
    decreases s.len() - i,
{
    if i >= s.len() {
        None
    } else if s[i] == c {
        Some(i)
    } else {
        index_of_from(s, c, i + 1)
    }
}

/// What stands before and after the first `c`.
pub open spec fn halves_at(s: Seq<char>, c: char) -> Option<(Seq<char>, Seq<char>)> {
    match index_of_from(s, c, 0) {
        Some(i) => Some((s.take(i), s.skip(i + 1))),
        None => None,
    }
}

/// What stands before and after the first `c`.
pub fn split_once(s: &str, c: char) -> (r: Option<(String, String)>)
    ensures
        match r {
            Some(p) => halves_at(s@, c) == Some((p.0@, p.1@)),
            None => halves_at(s@, c) is None,
        },
{
    let v = chars_of(s);
    let mut i: usize = 0;
    while i < v.len()
        invariant
            i <= v@.len(),
            v@ == s@,
            index_of_from(s@, c, 0) == index_of_from(s@, c, i as int),
        decreases v@.len() - i,
    {
        if v[i] == c {
            let a = string_between(&v, 0, i);
            let b = string_between(&v, i + 1, v.len());
            proof {
                assert(a@ =~= s@.take(i as int));
                assert(b@ =~= s@.skip(i + 1));
            }
            return Some((a, b));
        }
        i = i + 1;
    }
    None
}

/// ASCII white space: space, tab, line feed, form feed, carriage return.
pub open spec fn is_ascii_space(c: char) -> bool {
    c == ' ' || c == '\t' || c == '\n' || c == '\u{c}' || c == '\r'
}

/// What separates words.
#[derive(Debug, Clone, Copy, PartialEq, Eq, Structural)]
pub enum Spacing {
    Unicode,
    Ascii,
}

impl Spacing {
    pub open spec fn separates(self, c: char) -> bool {
        match self {
            Spacing::Unicode => is_space(c),
            Spacing::Ascii => is_ascii_space(c),
        }
    }

    fn is_separator(self, c: char) -> (r: bool)
        ensures
            r == self.separates(c),
    {
        match self {
            Spacing::Unicode => is_white_space(c),
            Spacing::Ascii => c == ' ' || c == '\t' || c == '\n' || c == '\u{c}' || c == '\r',
        }
    }
}

/// The words of `s` that a separator ends, and the word that its end cuts short.
pub open spec fn words_and_rest(s: Seq<char>, spacing: Spacing) -> (Seq<Seq<char>>, Seq<char>)
    decreases s.len(),
{
    if s.len() == 0 {
        (Seq::empty(), Seq::empty())
    } else {
        let (words, rest) = words_and_rest(s.drop_last(), spacing);
        if !spacing.separates(s.last()) {
            (words, rest.push(s.last()))
        } else if rest.len() == 0 {
            (words, rest)
        } else {
            (words.push(rest), Seq::empty())
        }
    }
}

/// The words of `s`: its longest runs of characters that do not separate.
pub open spec fn words_of(s: Seq<char>, spacing: Spacing) -> Seq<Seq<char>> {
    let (words, rest) = words_and_rest(s, spacing);
    if rest.len() == 0 {
        words
    } else {
        words.push(rest)
    }
}

/// The words of `s`.
pub fn words(s: &str, spacing: Spacing) -> (r: Vec<String>)
    ensures
        texts(r@) == words_of(s@, spacing),
{
    let v = chars_of(s);
    let mut done: Vec<String> = Vec::new();
    let mut current: String = String::new();
    let mut current_len: usize = 0;
    let mut i: usize = 0;
    proof {
        assert(texts(done@) =~= Seq::<Seq<char>>::empty());
    }
    while i < v.len()
        invariant
            i <= v@.len(),
            v@ == s@,
            current_len == current@.len(),
            current_len <= i,
            (texts(done@), current@) == words_and_rest(s@.take(i as int), spacing),
        decreases v@.len() - i,
    {
        proof {
            assert(s@.take(i + 1).drop_last() =~= s@.take(i as int));
        }
        if !spacing.is_separator(v[i]) {
            current.push(v[i]);
            current_len = current_len + 1;
        } else if current_len > 0 {
            proof {
                lemma_texts_push(done@, current);
            }
            done.push(current);
            current = String::new();
            current_len = 0;
        }
        i = i + 1;
    }
    proof {
        assert(s@.take(i as int) =~= s@);
        lemma_texts_push(done@, current);
    }
    if current_len > 0 {
        done.push(current);
    }
    done
}

/// Whether `x` is among the strings.
pub fn contains_string(v: &Vec<String>, x: &str) -> (r: bool)
    ensures
        r == texts(v@).contains(x@),
{
    let ghost all = texts(v@);
    let mut i: usize = 0;
    while i < v.len()
        invariant
            i <= v@.len(),
            all == texts(v@),
            forall|k: int| 0 <= k < i ==> all[k] != x@,
        decreases v@.len() - i,
    {
        assert(all[i as int] == v@[i as int]@);
        if same(v[i].as_str(), x) {
            return true;
        }
        i = i + 1;
    }
    false
}

// ---------------------------------------------------------------------------
// ASCII case
// ---------------------------------------------------------------------------

/// An ASCII capital as its small letter; any other character unchanged.
pub open spec fn lower_char(c: char) -> char {
    if 'A' <= c && c <= 'Z' {
        ((c as u32) + 32) as char
    } else {
        c
    }
}

/// `s` with its ASCII capitals as small letters.
pub open spec fn lower_text(s: Seq<char>) -> Seq<char> {
    s.map_values(|c: char| lower_char(c))
}

/// An ASCII capital as its small letter; any other character unchanged.
pub fn ascii_lower(c: char) -> (r: char)
    ensures
        r == lower_char(c),
{
    if 'A' <= c && c <= 'Z' {
        (c as u8 + 32) as char
    } else {
        c
    }
}

/// `s` with its ASCII capitals as small letters.
pub fn to_ascii_lowercase(s: &str) -> (r: String)
    ensures
        r@ == lower_text(s@),
{
    let c = chars_of(s);
    let mut r: String = String::new();
    let mut i: usize = 0;
    while i < c.len()
        invariant
            i <= c@.len(),
            c@ == s@,
            r@ =~= lower_text(s@.take(i as int)),
        decreases c@.len() - i,
    {
        r.push(ascii_lower(c[i]));
        i = i + 1;
    }
    proof {
        assert(s@.take(i as int) =~= s@);
    }
    r
}

/// Whether two texts are the same up to the case of ASCII letters.
pub fn eq_ignore_ascii_case(a: &str, b: &str) -> (r: bool)
    ensures
        r == (lower_text(a@) == lower_text(b@)),
{
    let x = to_ascii_lowercase(a);
    let y = to_ascii_lowercase(b);
    same(x.as_str(), y.as_str())
}

pub open spec fn is_digit(c: char) -> bool {
    '0' <= c && c <= '9'
}

pub open spec fn is_ascii_letter(c: char) -> bool {
    ('a' <= c && c <= 'z') || ('A' <= c && c <= 'Z')
}

pub open spec fn is_ascii_alnum(c: char) -> bool {
    is_digit(c) || is_ascii_letter(c)
}

/// Whether the character is an ASCII letter or digit.
pub fn is_ascii_alphanumeric(c: char) -> (r: bool)
    ensures
        r == is_ascii_alnum(c),
{
    ('0' <= c && c <= '9') || ('a' <= c && c <= 'z') || ('A' <= c && c <= 'Z')
}

// ---------------------------------------------------------------------------
// Replacing
// ---------------------------------------------------------------------------

/// `s` from position `i` on, with each occurrence of `from`, left to right, replaced by `to`.
pub open spec fn replace_from(s: Seq<char>, from: Seq<char>, to: Seq<char>, i: int) -> Seq<char>
    decreases s.len() - i,
{
    if i >= s.len() {
        Seq::empty()
    } else if from.len() > 0 && occurs_at(s, from, i) {
        to + replace_from(s, from, to, i + from.len())
    } else {
        seq![s[i]] + replace_from(s, from, to, i + 1)
    }
}

/// `s` with each occurrence of the nonempty `from` replaced by `to`.
pub open spec fn replace_text(s: Seq<char>, from: Seq<char>, to: Seq<char>) -> Seq<char> {
    replace_from(s, from, to, 0)
}

/// `s` with each occurrence of the nonempty `from` replaced by `to`.
pub fn replace(s: &str, from: &str, to: &str) -> (r: String)
    requires
        from@.len() > 0,
    ensures
        r@ == replace_text(s@, from@, to@),
{
    let sc = chars_of(s);
    let fc = chars_of(from);
    let mut r: String = String::new();
    let mut i: usize = 0;
    while i < sc.len()
        invariant
            i <= sc@.len(),
            sc@ == s@,
            fc@ == from@,
            from@.len() > 0,
            r@ + replace_from(s@, from@, to@, i as int) == replace_text(s@, from@, to@),
        decreases sc@.len() - i,
    {
        let ghost before = r@;
        if stands_at(&sc, &fc, i) {
            proof {
                assert((before + to@) + replace_from(s@, from@, to@, i + from@.len()) =~= before + (
                to@ + replace_from(s@, from@, to@, i + from@.len())));
            }
            r.append(to);
            i = i + fc.len();
        } else {
            proof {
                assert(before.push(s@[i as int]) + replace_from(s@, from@, to@, i + 1) =~= before
                    + (seq![s@[i as int]] + replace_from(s@, from@, to@, i + 1)));
            }
            r.push(sc[i]);
            i = i + 1;
        }
    }
    proof {
        assert(r@ + Seq::<char>::empty() =~= r@);
    }
    r
}

// ---------------------------------------------------------------------------
// Decimal numbers
// ---------------------------------------------------------------------------

pub open spec fn digit_char(d: nat) -> char {
    (('0' as u32) + d) as char
}

/// The decimal digits of `n`.
pub open spec fn decimal(n: nat) -> Seq<char>
    decreases n,
{
    if n < 10 {
        seq![digit_char(n)]
    } else {
        decimal(n / 10).push(digit_char(n % 10))
    }
}

/// The decimal digits of `n`.
pub fn decimal_string(n: u64) -> (r: String)
    ensures
        r@ == decimal(n as nat),
    decreases n,
{
    let last: char = (48 + (n % 10) as u8) as char;
    if n < 10 {
        let mut r: String = String::new();
        r.push(last);
        assert(r@ =~= seq![digit_char(n as nat)]);
        r
    } else {
        let mut r: String = decimal_string(n / 10);
        r.push(last);
        r
    }
}

pub open spec fn all_digits(s: Seq<char>) -> bool {
    forall|i: int| 0 <= i < s.len() ==> is_digit(#[trigger] s[i])
}

/// The number that the decimal digits `s` write.
pub open spec fn decimal_value(s: Seq<char>) -> nat
    decreases s.len(),
{
    if s.len() == 0 {
        0
    } else {
        decimal_value(s.drop_last()) * 10 + (s.last() as u32 - '0' as u32) as nat
    }
}

/// The digits of an unsigned number, which one plus sign may precede.
pub open spec fn unsigned_digits(s: Seq<char>) -> Seq<char> {
    if s.len() > 0 && s[0] == '+' {
        s.drop_first()
    } else {
        s
    }
}

/// `s` writes an unsigned number of at most `max`.
pub open spec fn parse_unsigned(s: Seq<char>, max: nat) -> Option<nat> {
    let d = unsigned_digits(s);
    if d.len() > 0 && all_digits(d) && decimal_value(d) <= max {
        Some(decimal_value(d))
    } else {
        None
    }
}

/// The digits of a number are read back as that number.
pub proof fn digits_read_back(n: nat)
    ensures
        all_digits(decimal(n)),
        decimal(n).len() > 0,
        decimal_value(decimal(n)) == n,
    decreases n,
{
    let d = decimal(n);
    if n < 10 {
        assert(d.drop_last() =~= Seq::<char>::empty());
        assert(decimal_value(d.drop_last()) == 0);
    } else {
        digits_read_back(n / 10);
        assert(d.drop_last() =~= decimal(n / 10));
        assert(d.last() == digit_char(n % 10));
    }
}

proof fn lemma_decimal_value_prefix(s: Seq<char>, i: int)
    requires
        0 <= i <= s.len(),
        all_digits(s),
    ensures
        decimal_value(s.take(i)) <= decimal_value(s),
    decreases s.len(),
{
    if i == s.len() {
        assert(s.take(i) =~= s);
    } else {
        lemma_decimal_value_prefix(s.drop_last(), i);
        assert(s.drop_last().take(i) =~= s.take(i));
    }
}

/// The number of at most `max` that `s` writes.
pub fn parse_at_most(s: &str, max: u64) -> (r: Option<u64>)
    ensures
        match r {
            Some(v) => parse_unsigned(s@, max as nat) == Some(v as nat),
            None => parse_unsigned(s@, max as nat) is None,
        },
{
    let c = chars_of(s);
    let start: usize = if c.len() > 0 && c[0] == '+' {
        1
    } else {
        0
    };
    let ghost d = unsigned_digits(s@);
    assert(d =~= s@.skip(start as int));
    if start == c.len() {
        return None;
    }
    let mut value: u64 = 0;
    let mut i: usize = start;
    while i < c.len()
        invariant
            start <= i <= c@.len(),
            c@ == s@,
            d == s@.skip(start as int),
            d == unsigned_digits(s@),
            all_digits(d.take(i - start)),
            value == decimal_value(d.take(i - start)),
            value <= max,
        decreases c@.len() - i,
    {
        let ch = c[i];
        assert(ch == d[i - start]);
        if !('0' <= ch && ch <= '9') {
            return None;
        }
        let digit: u64 = (ch as u8 - 48) as u64;
        proof {
            assert(d.take(i - start + 1).drop_last() =~= d.take(i - start));
            assert(decimal_value(d.take(i - start + 1)) == value * 10 + digit);
            assert(all_digits(d.take(i - start + 1))) by {
                assert forall|j: int| 0 <= j < i - start + 1 implies is_digit(
                    #[trigger] d.take(i - start + 1)[j],
                ) by {
                    if j < i - start {
                        assert(is_digit(d.take(i - start)[j]));
                    }
                }
            }
            if all_digits(d) {
                lemma_decimal_value_prefix(d, i - start + 1);
            }
        }
        if value > (u64::MAX - digit) / 10 {
            return None;
        }
        value = value * 10 + digit;
        if value > max {
            return None;
        }
        i = i + 1;
    }
    assert(d.take(i - start) =~= d);
    Some(value)
}

/// The machine-size number that `s` writes.
pub fn parse_usize(s: &str) -> (r: Option<usize>)
    ensures
        match r {
            Some(v) => parse_unsigned(s@, usize::MAX as nat) == Some(v as nat),
            None => parse_unsigned(s@, usize::MAX as nat) is None,
        },
{
    match parse_at_most(s, usize::MAX as u64) {
        Some(v) => Some(v as usize),
        None => None,
    }
}

/// The 64-bit number that `s` writes.
pub fn parse_u64(s: &str) -> (r: Option<u64>)
    ensures
        match r {
            Some(v) => parse_unsigned(s@, u64::MAX as nat) == Some(v as nat),
            None => parse_unsigned(s@, u64::MAX as nat) is None,
        },
{
    parse_at_most(s, u64::MAX)
}

// ---------------------------------------------------------------------------
// Order
// ---------------------------------------------------------------------------

/// The lexicographic order by code point, which is also that of the UTF-8 bytes.
pub open spec fn text_le(a: Seq<char>, b: Seq<char>) -> bool
    decreases a.len(),
{
    if a.len() == 0 {
        true
    } else if b.len() == 0 {
        false
    } else if a[0] == b[0] {
        text_le(a.skip(1), b.skip(1))
    } else {
        a[0] < b[0]
    }
}

pub proof fn lemma_text_le_reflexive(a: Seq<char>)
    ensures
        text_le(a, a),
    decreases a.len(),
{
    if a.len() > 0 {
        lemma_text_le_reflexive(a.skip(1));
    }
}

pub proof fn lemma_text_le_total(a: Seq<char>, b: Seq<char>)
    ensures
        text_le(a, b) || text_le(b, a),
        text_le(a, b) && text_le(b, a) ==> a == b,
    decreases a.len(),
{
    if a.len() > 0 && b.len() > 0 && a[0] == b[0] {
        lemma_text_le_total(a.skip(1), b.skip(1));
        assert(a =~= seq![a[0]] + a.skip(1));
        assert(b =~= seq![b[0]] + b.skip(1));
    } else if a.len() == 0 && b.len() == 0 {
        assert(a =~= b);
    }
}

pub proof fn lemma_text_le_antisymmetric(a: Seq<char>, b: Seq<char>)
    requires
        text_le(a, b),
        text_le(b, a),
    ensures
        a == b,
    decreases a.len(),
{
    if a.len() == 0 || b.len() == 0 {
        assert(a =~= b);
    } else {
        lemma_text_le_antisymmetric(a.drop_first(), b.drop_first());
        assert(a =~= seq![a[0]] + a.drop_first());
        assert(b =~= seq![b[0]] + b.drop_first());
    }
}

pub proof fn lemma_text_le_transitive(a: Seq<char>, b: Seq<char>, c: Seq<char>)
    requires
        text_le(a, b),
        text_le(b, c),
    ensures
        text_le(a, c),
    decreases a.len(),
{
    if a.len() > 0 && a[0] == b[0] && b[0] == c[0] {
        lemma_text_le_transitive(a.skip(1), b.skip(1), c.skip(1));
    }
}

/// Whether `a` is at most `b` in the order of their code points.
pub fn at_most(a: &str, b: &str) -> (r: bool)
    ensures
        r == text_le(a@, b@),
{
    let x = chars_of(a);
    let y = chars_of(b);
    let mut i: usize = 0;
    assert(x@.skip(0) =~= x@);
    assert(y@.skip(0) =~= y@);
    while i < x.len()
        invariant
            x@ == a@,
            y@ == b@,
            i <= x@.len(),
            i <= y@.len(),
            text_le(x@, y@) == text_le(x@.skip(i as int), y@.skip(i as int)),
        decreases x@.len() - i,
    {
        if i >= y.len() {
            return false;
        }
        if x[i] != y[i] {
            return x[i] < y[i];
        }
        proof {
            assert(x@.skip(i as int).skip(1) =~= x@.skip(i + 1));
            assert(y@.skip(i as int).skip(1) =~= y@.skip(i + 1));
        }
        i = i + 1;
    }
    true
}

// ---------------------------------------------------------------------------
// The last of something
// ---------------------------------------------------------------------------

/// What stands behind the last `c`.
pub open spec fn after_last_char(s: Seq<char>, c: char) -> Option<Seq<char>>
    decreases s.len(),
{
    if s.len() == 0 {
        None
    } else if s.last() == c {
        Some(Seq::empty())
    } else {
        match after_last_char(s.drop_last(), c) {
            Some(t) => Some(t.push(s.last())),
            None => None,
        }
    }
}

/// What stands behind the last `c`.
pub fn after_last(s: &str, c: char) -> (r: Option<String>)
    ensures
        opt_text(r) == after_last_char(s@, c),
{
    let v = chars_of(s);
    let n: usize = v.len();
    let mut i: usize = n;
    proof {
        assert(v@.take(n as int) =~= s@);
        if let Some(t) = after_last_char(s@, c) {
            assert(t + v@.skip(n as int) =~= t);
        }
    }
    while i > 0
        invariant
            i <= n,
            n == v@.len(),
            v@ == s@,
            after_last_char(s@, c) == match after_last_char(v@.take(i as int), c) {
                Some(t) => Some(t + v@.skip(i as int)),
                None => None,
            },
        decreases i,
    {
        proof {
            assert(v@.take(i as int).last() == v@[i - 1]);
            assert(v@.take(i as int).drop_last() =~= v@.take(i - 1));
        }
        if v[i - 1] == c {
            proof {
                assert(Seq::<char>::empty() + v@.skip(i as int) =~= v@.subrange(i as int, n as int));
            }
            return Some(string_between(&v, i, n));
        }
        proof {
            if let Some(t) = after_last_char(v@.take(i - 1), c) {
                assert(t.push(v@[i - 1]) + v@.skip(i as int) =~= t + v@.skip(i - 1));
            }
        }
        i = i - 1;
    }
    None
}

} // verus!
