//! What is found of post-quantum algorithms in a text: every line counts that is no comment, however
//! it is indented, and in a line every whole word that spells an algorithm.

use crate::bytes::lemma_encode_concat;
use crate::finding::Language;
use crate::rules::common::{fit, markers_of};
use crate::rules::place_laws::bytes_of_a_line_are_on_it;
use crate::rules::pq::{
    algorithm_table, any_claimed, bounded, claim, comment_line, found, found_in_lines, ident_byte,
    lemma_line_matches, line_found, lower_byte, lower_bytes, named_from, ready_finding, spelled,
    stands, take_algorithms, take_spelling, take_spellings, AlgorithmView, LineState,
};
use crate::text::{
    concatenated, inclusive_lines_of, is_ascii_alnum, is_space, lemma_split_nonempty, lines_of,
    lower_char, lower_text, split_text, trim_start_text,
};
use crate::text_laws::{all_space, lines_end_at_line_feeds};
use vstd::prelude::*;
use vstd::utf8::{encode_scalar, encode_utf8};

verus! {

// ---------------------------------------------------------------------------
// Lines of a text
// ---------------------------------------------------------------------------

/// A match, moved by `by` bytes.
pub open spec fn moved(f: (int, int, int), by: int) -> (int, int, int) {
    (by + f.0, by + f.1, f.2)
}

/// Where line `i` begins.
pub open spec fn line_start(lines: Seq<Seq<char>>, i: int) -> int {
    encode_utf8(concatenated(lines, i)).len() as int
}

/// The match at `k` in line `i`, moved to where the line begins, is `f`.
pub open spec fn is_of_line(lines: Seq<Seq<char>>, i: int, k: int, f: (int, int, int)) -> bool {
    0 <= k < line_found(lines[i]).len() && f == moved(line_found(lines[i])[k], line_start(lines, i))
}

proof fn lemma_found_grow(lines: Seq<Seq<char>>, n: int, m: int, language: Language, f: (int, int, int))
    requires
        0 <= n <= m <= lines.len(),
        found_in_lines(lines, n, language).contains(f),
    ensures
        found_in_lines(lines, m, language).contains(f),
    decreases m - n,
{
    if n < m {
        lemma_found_grow(lines, n, m - 1, language, f);
        let before = found_in_lines(lines, m - 1, language);
        let k = choose|k: int| 0 <= k < before.len() && before[k] == f;
        assert(found_in_lines(lines, m, language)[k] == f);
    }
}

/// Every match of a line that is no comment is a match of the text, moved to where the line begins,
/// whatever the other lines hold.
pub proof fn every_line_of_code_counts(source: Seq<char>, language: Language, i: int, k: int)
    requires
        0 <= i < inclusive_lines_of(source).len(),
        !comment_line(trim_start_text(inclusive_lines_of(source)[i]), language),
        0 <= k < line_found(inclusive_lines_of(source)[i]).len(),
    ensures
        found(source, language).contains(
            moved(
                line_found(inclusive_lines_of(source)[i])[k],
                line_start(inclusive_lines_of(source), i),
            ),
        ),
{
    let lines = inclusive_lines_of(source);
    let start = line_start(lines, i);
    let f = moved(line_found(lines[i])[k], start);
    let before = found_in_lines(lines, i, language);
    let here = line_found(lines[i]).map_values(
        |f: (int, int, int)| (start + f.0, start + f.1, f.2),
    );
    assert(found_in_lines(lines, i + 1, language) == before + here);
    assert((before + here)[before.len() + k] == f);
    lemma_found_grow(lines, i + 1, lines.len() as int, language, f);
}

/// The line is no comment, and `f` is its match at `k`.
pub open spec fn is_of_code_line(
    lines: Seq<Seq<char>>,
    language: Language,
    i: int,
    k: int,
    f: (int, int, int),
) -> bool {
    0 <= i < lines.len() && !comment_line(trim_start_text(lines[i]), language) && is_of_line(
        lines,
        i,
        k,
        f,
    )
}

proof fn lemma_found_is_of_a_line(
    lines: Seq<Seq<char>>,
    n: int,
    language: Language,
    f: (int, int, int),
) -> (r: (int, int))
    requires
        0 <= n <= lines.len(),
        found_in_lines(lines, n, language).contains(f),
    ensures
        is_of_code_line(lines, language, r.0, r.1, f),
    decreases n,
{
    let now = found_in_lines(lines, n, language);
    let before = found_in_lines(lines, n - 1, language);
    let at = choose|at: int| 0 <= at < now.len() && now[at] == f;
    if at < before.len() {
        assert(before[at] == f);
        assert(before.contains(f));
        lemma_found_is_of_a_line(lines, n - 1, language, f)
    } else {
        (n - 1, at - before.len())
    }
}

/// Each match of a text is one of a line that is no comment.
pub proof fn only_lines_of_code_count(source: Seq<char>, language: Language, f: (int, int, int))
    requires
        found(source, language).contains(f),
    ensures
        exists|i: int, k: int| #[trigger]
            is_of_code_line(inclusive_lines_of(source), language, i, k, f),
{
    let lines = inclusive_lines_of(source);
    let r = lemma_found_is_of_a_line(lines, lines.len() as int, language, f);
    assert(is_of_code_line(lines, language, r.0, r.1, f));
}

proof fn lemma_split_of_both(a: Seq<char>, b: Seq<char>, sep: char)
    requires
        a.len() > 0 && a.last() == sep,
    ensures
        split_text(a + b, sep) == split_text(a, sep).drop_last() + split_text(b, sep),
        split_text(a, sep).last().len() == 0,
    decreases b.len(),
{
    lemma_split_nonempty(a.drop_last(), sep);
    lemma_split_nonempty(b, sep);
    let x = split_text(a, sep);
    if b.len() == 0 {
        assert(a + b =~= a);
        assert(x =~= x.drop_last() + seq![Seq::<char>::empty()]) by {
            assert(x.last() =~= Seq::<char>::empty());
        }
    } else {
        let t = b.drop_last();
        lemma_split_of_both(a, t, sep);
        lemma_split_nonempty(t, sep);
        assert((a + b).drop_last() =~= a + t);
        let y = split_text(t, sep);
        let head = x.drop_last() + y;
        if b.last() == sep {
            assert(head.push(Seq::<char>::empty()) =~= x.drop_last() + y.push(
                Seq::<char>::empty(),
            ));
        } else {
            let l = y.last().push(b.last());
            assert(head.drop_last().push(head.last().push(b.last())) =~= x.drop_last()
                + y.drop_last().push(l));
        }
    }
}

proof fn lemma_lines_of_both(a: Seq<char>, b: Seq<char>)
    requires
        a.len() == 0 || a.last() == '\n',
    ensures
        inclusive_lines_of(a + b) == inclusive_lines_of(a) + inclusive_lines_of(b),
{
    if a.len() == 0 {
        assert(a + b =~= b);
        assert(split_text(a, '\n').drop_last() =~= Seq::<Seq<char>>::empty());
        assert(inclusive_lines_of(a) =~= Seq::<Seq<char>>::empty());
        assert(inclusive_lines_of(a) + inclusive_lines_of(b) =~= inclusive_lines_of(b));
    } else {
        lemma_split_of_both(a, b, '\n');
        lemma_split_nonempty(a, '\n');
        lemma_split_nonempty(b, '\n');
        let x = split_text(a, '\n').drop_last();
        let y = split_text(b, '\n');
        assert((x + y).drop_last() =~= x + y.drop_last());
        assert((x + y).last() == y.last());
        assert(inclusive_lines_of(a + b) =~= inclusive_lines_of(a) + inclusive_lines_of(b));
    }
}

proof fn lemma_found_prefix(a: Seq<Seq<char>>, b: Seq<Seq<char>>, n: int, language: Language)
    requires
        0 <= n <= a.len(),
        n <= b.len(),
        forall|i: int| 0 <= i < n ==> a[i] == b[i],
    ensures
        found_in_lines(a, n, language) == found_in_lines(b, n, language),
        concatenated(a, n) == concatenated(b, n),
    decreases n,
{
    if n > 0 {
        lemma_found_prefix(a, b, n - 1, language);
    }
}

proof fn lemma_found_of_both(a: Seq<Seq<char>>, b: Seq<Seq<char>>, n: int, language: Language)
    requires
        0 <= n <= b.len(),
    ensures
        concatenated(a + b, a.len() + n) == concatenated(a, a.len() as int) + concatenated(b, n),
        found_in_lines(a + b, a.len() + n, language) == found_in_lines(
            a,
            a.len() as int,
            language,
        ) + found_in_lines(b, n, language).map_values(
            |f: (int, int, int)| moved(f, line_start(a, a.len() as int)),
        ),
    decreases n,
{
    let m = a.len() as int;
    let by = line_start(a, m);
    let shift = |f: (int, int, int)| moved(f, by);
    let x = found_in_lines(a, m, language);
    if n == 0 {
        lemma_found_prefix(a, a + b, m, language);
        assert(x + found_in_lines(b, 0, language).map_values(shift) =~= x);
        assert(concatenated(a, m) + concatenated(b, 0) =~= concatenated(a, m));
    } else {
        lemma_found_of_both(a, b, n - 1, language);
        assert((a + b)[m + n - 1] == b[n - 1]);
        assert(concatenated(a + b, m + n) =~= concatenated(a, m) + concatenated(b, n));
        lemma_encode_concat(concatenated(a, m), concatenated(b, n - 1));
        let y = found_in_lines(b, n - 1, language);
        if !comment_line(trim_start_text(b[n - 1]), language) {
            let at = line_start(b, n - 1);
            let near = |f: (int, int, int)| (at + f.0, at + f.1, f.2);
            let start = line_start(a + b, m + n - 1);
            let far = |f: (int, int, int)| (start + f.0, start + f.1, f.2);
            assert(start == by + at);
            let z = line_found(b[n - 1]);
            assert((y + z.map_values(near)).map_values(shift) =~= y.map_values(shift)
                + z.map_values(far));
            assert((x + y.map_values(shift)) + z.map_values(far) =~= x + (y.map_values(shift)
                + z.map_values(far)));
        }
    }
}

/// The matches of two texts one behind the other, the first of which ends its last line, are those of
/// the first and then those of the second, moved behind the first.
pub proof fn texts_are_scanned_one_after_the_other(a: Seq<char>, b: Seq<char>, language: Language)
    requires
        a.len() == 0 || a.last() == '\n',
    ensures
        found(a + b, language) == found(a, language) + found(b, language).map_values(
            |f: (int, int, int)| moved(f, encode_utf8(a).len() as int),
        ),
{
    lemma_lines_of_both(a, b);
    let x = inclusive_lines_of(a);
    let y = inclusive_lines_of(b);
    crate::text::lemma_inclusive_lines(a);
    lemma_found_of_both(x, y, y.len() as int, language);
}

/// The only line of a text has its matches, or none where it is a comment.
pub proof fn a_single_line_has_its_matches(line: Seq<char>, language: Language)
    requires
        line.len() > 0,
        !line.contains('\n') || line.last() == '\n' && !line.drop_last().contains('\n'),
    ensures
        comment_line(trim_start_text(line), language) ==> found(line, language).len() == 0,
        !comment_line(trim_start_text(line), language) ==> found(line, language) == line_found(
            line,
        ),
{
    if line.contains('\n') {
        lines_end_at_line_feeds(line.drop_last(), Seq::empty());
        lines_end_at_line_feeds(Seq::empty(), Seq::empty());
        assert(line =~= line.drop_last().push('\n') + Seq::empty());
        assert(inclusive_lines_of(line) =~= seq![line]);
    } else {
        lines_end_at_line_feeds(line, Seq::empty());
    }
    let lines = inclusive_lines_of(line);
    assert(lines == seq![line]);
    assert(found_in_lines(lines, 0, language) =~= Seq::<(int, int, int)>::empty());
    assert(encode_utf8(concatenated(lines, 0)).len() == 0);
    let start: int = 0;
    assert(line_found(line).map_values(|f: (int, int, int)| (start + f.0, start + f.1, f.2))
        =~= line_found(line));
    assert(found_in_lines(lines, 0, language) + line_found(line) =~= line_found(line));
    assert(found_in_lines(lines, 1, language) == found(line, language));
}

// ---------------------------------------------------------------------------
// Comments
// ---------------------------------------------------------------------------

/// The language has comments that begin with a hash sign.
pub open spec fn has_hash_comments(language: Language) -> bool {
    matches!(
        language,
        Language::Php | Language::Python | Language::Ruby | Language::Bash | Language::NginxConf
            | Language::ApacheConf | Language::HAProxyConf | Language::Dockerfile
            | Language::Manifest
    )
}

/// The language has comments that begin with two slashes, and block comments.
pub open spec fn has_slash_comments(language: Language) -> bool {
    matches!(
        language,
        Language::JavaScript | Language::TypeScript | Language::Tsx | Language::Go | Language::Java
            | Language::Rust | Language::CSharp | Language::Swift | Language::Kotlin | Language::C
            | Language::Php
    )
}

/// A line is a comment exactly where it begins, behind its white space, with a marker of the
/// language: a hash sign or two slashes, or with an asterisk or the ends of a block comment.
pub proof fn comments_begin_with_a_marker(line: Seq<char>, language: Language)
    ensures
        comment_line(line, language) <==> (has_hash_comments(language) && "#"@.is_prefix_of(line)
            || has_slash_comments(language) && ("//"@.is_prefix_of(line) || "/*"@.is_prefix_of(line)
            || "*/"@.is_prefix_of(line) || "*"@.is_prefix_of(line))),
{
    reveal_strlit("#");
    reveal_strlit("//");
    reveal_strlit("/*");
    let markers = markers_of(language);
    assert("#"@.len() == 1 && "//"@.len() == 2 && "/*"@.len() == 2);
    assert("/*"@[1] == '*' && "//"@[1] == '/');
    if has_slash_comments(language) {
        assert(markers[0] == "//"@);
        assert(markers.contains("//"@));
        if language is Php {
            assert(markers[1] == "#"@);
        }
    } else {
        assert(markers[0] == "#"@);
        assert(markers.len() == 1);
    }
}

// ---------------------------------------------------------------------------
// Indentation
// ---------------------------------------------------------------------------

/// The spelling begins with an ASCII letter or digit.
spec fn begins_a_word(spelling: Seq<char>) -> bool {
    spelling.len() > 0 && is_ascii_alnum(spelling[0])
}

proof fn lemma_spellings_0(k: int)
    requires
        0 <= k < algorithm_table()[0].spellings.len(),
    ensures
        begins_a_word(algorithm_table()[0].spellings[k]),
{
    reveal_strlit("x25519mlkem768");
    reveal_strlit("x25519_mlkem768");
    reveal_strlit("x25519-mlkem768");
    reveal_strlit("x25519_ml_kem_768");
    reveal_strlit("x25519-ml-kem-768");
    reveal_strlit("x25519_ml_kem768");
    reveal_strlit("x25519-ml-kem768");
    reveal_strlit("x25519_mlkem_768");
    reveal_strlit("x25519-mlkem-768");
    reveal_strlit("secp256r1mlkem768");
    reveal_strlit("x25519mlkem");
    assert(algorithm_table()[0].spellings.len() == 11);
}

proof fn lemma_spellings_1(k: int)
    requires
        0 <= k < algorithm_table()[1].spellings.len(),
    ensures
        begins_a_word(algorithm_table()[1].spellings[k]),
{
    reveal_strlit("x25519kyber768draft00");
    reveal_strlit("x25519kyber768");
    reveal_strlit("x25519_kyber768");
    reveal_strlit("x25519-kyber768");
    reveal_strlit("p256_kyber768");
    reveal_strlit("p256-kyber768");
    reveal_strlit("x25519_kyber_768");
    reveal_strlit("x25519-kyber-768");
    assert(algorithm_table()[1].spellings.len() == 8);
}

proof fn lemma_spellings_2(k: int)
    requires
        0 <= k < algorithm_table()[2].spellings.len(),
    ensures
        begins_a_word(algorithm_table()[2].spellings[k]),
{
    reveal_strlit("ml_kem");
    reveal_strlit("ml-kem");
    reveal_strlit("mlkem");
    reveal_strlit("kyber");
    reveal_strlit("crystals-kyber");
    reveal_strlit("crystals_kyber");
    reveal_strlit("fips203");
    assert(algorithm_table()[2].spellings.len() == 7);
}

proof fn lemma_spellings_3(k: int)
    requires
        0 <= k < algorithm_table()[3].spellings.len(),
    ensures
        begins_a_word(algorithm_table()[3].spellings[k]),
{
    reveal_strlit("ml_dsa");
    reveal_strlit("ml-dsa");
    reveal_strlit("mldsa");
    reveal_strlit("dilithium");
    reveal_strlit("crystals-dilithium");
    reveal_strlit("crystals_dilithium");
    reveal_strlit("fips204");
    assert(algorithm_table()[3].spellings.len() == 7);
}

proof fn lemma_spellings_4(k: int)
    requires
        0 <= k < algorithm_table()[4].spellings.len(),
    ensures
        begins_a_word(algorithm_table()[4].spellings[k]),
{
    reveal_strlit("slh_dsa");
    reveal_strlit("slh-dsa");
    reveal_strlit("slhdsa");
    reveal_strlit("sphincsplus");
    reveal_strlit("sphincs_plus");
    reveal_strlit("sphincs+");
    reveal_strlit("sphincs");
    reveal_strlit("fips205");
    assert(algorithm_table()[4].spellings.len() == 8);
}

proof fn lemma_spellings_5(k: int)
    requires
        0 <= k < algorithm_table()[5].spellings.len(),
    ensures
        begins_a_word(algorithm_table()[5].spellings[k]),
{
    reveal_strlit("fn_dsa");
    reveal_strlit("fn-dsa");
    reveal_strlit("fndsa");
    reveal_strlit("falcon512");
    reveal_strlit("falcon-512");
    reveal_strlit("falcon_512");
    reveal_strlit("falcon1024");
    reveal_strlit("falcon-1024");
    reveal_strlit("falcon_1024");
    assert(algorithm_table()[5].spellings.len() == 9);
}

proof fn lemma_spellings_6(k: int)
    requires
        0 <= k < algorithm_table()[6].spellings.len(),
    ensures
        begins_a_word(algorithm_table()[6].spellings[k]),
{
    reveal_strlit("hqc-128");
    reveal_strlit("hqc-192");
    reveal_strlit("hqc-256");
    reveal_strlit("hqc128");
    reveal_strlit("hqc192");
    reveal_strlit("hqc256");
    reveal_strlit("hqc_128");
    reveal_strlit("hqc");
    assert(algorithm_table()[6].spellings.len() == 8);
}

proof fn lemma_spellings_7(k: int)
    requires
        0 <= k < algorithm_table()[7].spellings.len(),
    ensures
        begins_a_word(algorithm_table()[7].spellings[k]),
{
    reveal_strlit("liboqs");
    reveal_strlit("oqs-provider");
    reveal_strlit("oqsprovider");
    reveal_strlit("oqs_provider");
    reveal_strlit("open-quantum-safe");
    reveal_strlit("pqcrystals");
    reveal_strlit("pq-crystals");
    reveal_strlit("pqclean");
    reveal_strlit("oqs");
    assert(algorithm_table()[7].spellings.len() == 9);
}

proof fn lemma_spellings_begin_words(n: int, k: int)
    requires
        0 <= n < algorithm_table().len(),
        0 <= k < algorithm_table()[n].spellings.len(),
    ensures
        begins_a_word(algorithm_table()[n].spellings[k]),
{
    if n == 0 {
        lemma_spellings_0(k);
    } else if n == 1 {
        lemma_spellings_1(k);
    } else if n == 2 {
        lemma_spellings_2(k);
    } else if n == 3 {
        lemma_spellings_3(k);
    } else if n == 4 {
        lemma_spellings_4(k);
    } else if n == 5 {
        lemma_spellings_5(k);
    } else if n == 6 {
        lemma_spellings_6(k);
    } else {
        assert(n == 7);
        lemma_spellings_7(k);
    }
}

proof fn lemma_word_byte(spelling: Seq<char>)
    requires
        begins_a_word(spelling),
    ensures
        encode_utf8(spelling).len() > 0,
        ident_byte(encode_utf8(spelling)[0]),
{
    let c = spelling[0] as u32;
    assert(c <= 0x7f ==> (c & 0x7f) as u8 == c) by (bit_vector);
}

/// Nothing in the bytes is a letter or a digit.
spec fn no_word_bytes(bytes: Seq<u8>) -> bool {
    forall|i: int| 0 <= i < bytes.len() ==> !ident_byte(#[trigger] bytes[i])
}

proof fn lemma_space_bytes(x: Seq<char>)
    requires
        all_space(x),
    ensures
        no_word_bytes(lower_bytes(encode_utf8(x))),
    decreases x.len(),
{
    if x.len() > 0 {
        let t = x.drop_first();
        assert(all_space(t)) by {
            assert forall|i: int| 0 <= i < t.len() implies is_space(#[trigger] t[i]) by {
                assert(is_space(x[i + 1]));
            }
        }
        lemma_space_bytes(t);
        assert(is_space(x[0]));
        let c = x[0] as u32;
        assert(c <= 0x7f ==> (c & 0x7f) as u8 == c) by (bit_vector);
        assert(0xC0u8 | ((c >> 6) & 0x1F) as u8 >= 0x80) by (bit_vector);
        assert(0xE0u8 | ((c >> 12) & 0x0F) as u8 >= 0x80) by (bit_vector);
        assert(0xF0u8 | ((c >> 18) & 0x7) as u8 >= 0x80) by (bit_vector);
        assert(0x80u8 | (c & 0x3F) as u8 >= 0x80) by (bit_vector);
        assert(0x80u8 | ((c >> 6) & 0x3F) as u8 >= 0x80) by (bit_vector);
        assert(0x80u8 | ((c >> 12) & 0x3F) as u8 >= 0x80) by (bit_vector);
        let a = encode_scalar(c);
        let b = encode_utf8(t);
        let all = lower_bytes(encode_utf8(x));
        assert forall|i: int| 0 <= i < all.len() implies !ident_byte(#[trigger] all[i]) by {
            if i < a.len() {
                assert(all[i] == lower_byte(a[i]));
            } else {
                assert(all[i] == lower_bytes(b)[i - a.len()]);
            }
        }
    }
}

/// The state of a line, moved behind `by` bytes.
spec fn state_behind(by: nat, st: LineState) -> LineState {
    LineState {
        claimed: Seq::new(by, |k: int| false) + st.claimed,
        first: match st.first {
            Some(f) => Some((by + f.0, by + f.1)),
            None => None,
        },
    }
}

proof fn lemma_stands_behind(p: Seq<u8>, hay: Seq<u8>, needle: Seq<u8>, i: int)
    requires
        0 <= i,
    ensures
        stands(p + hay, needle, p.len() + i) == stands(hay, needle, i),
{
    if i + needle.len() <= hay.len() {
        assert((p + hay).subrange(p.len() + i, p.len() + i + needle.len()) =~= hay.subrange(
            i,
            i + needle.len(),
        ));
    }
}

proof fn lemma_spelling_behind(p: Seq<u8>, hay: Seq<u8>, needle: Seq<u8>, i: int, st: LineState)
    requires
        0 <= i,
        no_word_bytes(p),
        st.claimed.len() == hay.len(),
    ensures
        take_spelling(p + hay, needle, p.len() + i, state_behind(p.len(), st)) == state_behind(
            p.len(),
            take_spelling(hay, needle, i, st),
        ),
    decreases hay.len() - i,
{
    let n = p.len();
    let far = state_behind(n, st);
    let whole = p + hay;
    if needle.len() == 0 || i + needle.len() > hay.len() {
    } else {
        lemma_stands_behind(p, hay, needle, i);
        if stands(hay, needle, i) {
            let end = i + needle.len();
            assert(bounded(whole, n + i, n + end) == bounded(hay, i, end)) by {
                if i == 0 {
                    if n > 0 {
                        assert(whole[n - 1] == p[n - 1]);
                    }
                } else {
                    assert(whole[n + i - 1] == hay[i - 1]);
                }
                if end < hay.len() {
                    assert(whole[n + end] == hay[end]);
                }
            }
            assert(any_claimed(far.claimed, n + i, n + end) == any_claimed(st.claimed, i, end)) by {
                if any_claimed(st.claimed, i, end) {
                    let k = choose|k: int| i <= k < end && #[trigger] st.claimed[k];
                    assert(far.claimed[n + k]);
                }
                if any_claimed(far.claimed, n + i, n + end) {
                    let k = choose|k: int| n + i <= k < n + end && #[trigger] far.claimed[k];
                    assert(st.claimed[k - n]);
                }
            }
            if bounded(hay, i, end) && !any_claimed(st.claimed, i, end) {
                let next = LineState {
                    claimed: claim(st.claimed, i, end),
                    first: match st.first {
                        Some(f) => Some(f),
                        None => Some((i, end)),
                    },
                };
                assert(claim(far.claimed, n + i, n + end) =~= state_behind(n, next).claimed);
                lemma_spelling_behind(p, hay, needle, end, next);
            } else {
                lemma_spelling_behind(p, hay, needle, end, st);
            }
        } else {
            lemma_spelling_behind(p, hay, needle, i + 1, st);
        }
    }
}

proof fn lemma_spelling_skips(p: Seq<u8>, hay: Seq<u8>, needle: Seq<u8>, i: int, st: LineState)
    requires
        0 <= i <= p.len(),
        no_word_bytes(p),
        needle.len() > 0,
        ident_byte(needle[0]),
    ensures
        take_spelling(p + hay, needle, i, st) == take_spelling(
            p + hay,
            needle,
            p.len() as int,
            st,
        ),
    decreases p.len() - i,
{
    let whole = p + hay;
    if i < p.len() {
        assert(!stands(whole, needle, i)) by {
            if stands(whole, needle, i) {
                assert(whole.subrange(i, i + needle.len())[0] == whole[i]);
                assert(whole[i] == p[i]);
            }
        }
        lemma_spelling_skips(p, hay, needle, i + 1, st);
    }
}

proof fn lemma_spelling_keeps_len(hay: Seq<u8>, needle: Seq<u8>, i: int, st: LineState)
    ensures
        take_spelling(hay, needle, i, st).claimed.len() == st.claimed.len(),
        st.first is Some ==> take_spelling(hay, needle, i, st).first == st.first,
        take_spelling(hay, needle, i, st).first is None ==> take_spelling(hay, needle, i, st) == st,
    decreases hay.len() - i,
{
    if needle.len() == 0 || i < 0 || i + needle.len() > hay.len() {
    } else if stands(hay, needle, i) {
        let end = i + needle.len();
        let next = if bounded(hay, i, end) && !any_claimed(st.claimed, i, end) {
            LineState {
                claimed: claim(st.claimed, i, end),
                first: match st.first {
                    Some(f) => Some(f),
                    None => Some((i, end)),
                },
            }
        } else {
            st
        };
        lemma_spelling_keeps_len(hay, needle, end, next);
    } else {
        lemma_spelling_keeps_len(hay, needle, i + 1, st);
    }
}

proof fn lemma_spellings_keep_len(hay: Seq<u8>, spellings: Seq<Seq<char>>, n: int, st: LineState)
    ensures
        take_spellings(hay, spellings, n, st).claimed.len() == st.claimed.len(),
        st.first is Some ==> take_spellings(hay, spellings, n, st).first == st.first,
        take_spellings(hay, spellings, n, st).first is None ==> take_spellings(
            hay,
            spellings,
            n,
            st,
        ) == st,
    decreases n,
{
    if n > 0 {
        lemma_spellings_keep_len(hay, spellings, n - 1, st);
        lemma_spelling_keeps_len(
            hay,
            encode_utf8(spellings[n - 1]),
            0,
            take_spellings(hay, spellings, n - 1, st),
        );
    }
}

proof fn lemma_spellings_behind(
    p: Seq<u8>,
    hay: Seq<u8>,
    spellings: Seq<Seq<char>>,
    n: int,
    st: LineState,
)
    requires
        0 <= n <= spellings.len(),
        no_word_bytes(p),
        st.claimed.len() == hay.len(),
        forall|k: int| 0 <= k < spellings.len() ==> begins_a_word(#[trigger] spellings[k]),
    ensures
        take_spellings(p + hay, spellings, n, state_behind(p.len(), st)) == state_behind(
            p.len(),
            take_spellings(hay, spellings, n, st),
        ),
    decreases n,
{
    if n > 0 {
        lemma_spellings_behind(p, hay, spellings, n - 1, st);
        lemma_spellings_keep_len(hay, spellings, n - 1, st);
        let before = take_spellings(hay, spellings, n - 1, st);
        let needle = encode_utf8(spellings[n - 1]);
        assert(begins_a_word(spellings[n - 1]));
        lemma_word_byte(spellings[n - 1]);
        lemma_spelling_skips(p, hay, needle, 0, state_behind(p.len(), before));
        lemma_spelling_behind(p, hay, needle, 0, before);
    }
}

proof fn lemma_algorithms_behind(p: Seq<u8>, hay: Seq<u8>, n: int)
    requires
        0 <= n <= algorithm_table().len(),
        no_word_bytes(p),
    ensures
        take_algorithms(p + hay, algorithm_table(), n).0 == Seq::new(p.len(), |k: int| false)
            + take_algorithms(hay, algorithm_table(), n).0,
        take_algorithms(hay, algorithm_table(), n).0.len() == hay.len(),
        take_algorithms(p + hay, algorithm_table(), n).1 == take_algorithms(
            hay,
            algorithm_table(),
            n,
        ).1.map_values(|f: (int, int, int)| moved(f, p.len() as int)),
    decreases n,
{
    let table = algorithm_table();
    let shift = |f: (int, int, int)| moved(f, p.len() as int);
    if n == 0 {
        assert(take_algorithms(p + hay, table, 0).0 =~= Seq::new(p.len(), |k: int| false)
            + take_algorithms(hay, table, 0).0);
        assert(take_algorithms(hay, table, 0).1.map_values(shift) =~= Seq::<
            (int, int, int),
        >::empty());
    } else {
        lemma_algorithms_behind(p, hay, n - 1);
        let (claimed, so_far) = take_algorithms(hay, table, n - 1);
        let a = table[n - 1];
        let st = LineState { claimed, first: None };
        assert forall|k: int| 0 <= k < a.spellings.len() implies begins_a_word(
            #[trigger] a.spellings[k],
        ) by {
            lemma_spellings_begin_words(n - 1, k);
        }
        lemma_spellings_keep_len(hay, a.spellings, a.spellings.len() as int, st);
        lemma_spellings_behind(p, hay, a.spellings, a.spellings.len() as int, st);
        let end = take_spellings(hay, a.spellings, a.spellings.len() as int, st);
        assert(state_behind(p.len(), st) == LineState {
            claimed: take_algorithms(p + hay, table, n - 1).0,
            first: None,
        });
        if let Some(f) = end.first {
            let x = (f.0, f.1, n - 1);
            assert(so_far.push(x).map_values(shift) =~= so_far.map_values(shift).push(shift(x)));
        }
    }
}

proof fn lemma_trim_indented(indent: Seq<char>, line: Seq<char>)
    requires
        all_space(indent),
    ensures
        trim_start_text(indent + line) == trim_start_text(line),
    decreases indent.len(),
{
    if indent.len() == 0 {
        assert(indent + line =~= line);
    } else {
        let t = indent.drop_first();
        assert(all_space(t)) by {
            assert forall|i: int| 0 <= i < t.len() implies is_space(#[trigger] t[i]) by {
                assert(is_space(indent[i + 1]));
            }
        }
        lemma_trim_indented(t, line);
        assert(is_space(indent[0]));
        assert((indent + line).drop_first() =~= t + line);
    }
}

/// White space before a line changes nothing but the place of what is found: the line is a comment
/// where it was one, and the same algorithms match, moved behind the white space.
pub proof fn indentation_only_moves_what_is_found(
    indent: Seq<char>,
    line: Seq<char>,
    language: Language,
)
    requires
        all_space(indent),
    ensures
        comment_line(trim_start_text(indent + line), language) == comment_line(
            trim_start_text(line),
            language,
        ),
        line_found(indent + line) == line_found(line).map_values(
            |f: (int, int, int)| moved(f, encode_utf8(indent).len() as int),
        ),
{
    lemma_trim_indented(indent, line);
    lemma_encode_concat(indent, line);
    let p = lower_bytes(encode_utf8(indent));
    let hay = lower_bytes(encode_utf8(line));
    assert(lower_bytes(encode_utf8(indent + line)) =~= p + hay);
    lemma_space_bytes(indent);
    lemma_algorithms_behind(p, hay, algorithm_table().len() as int);
}

/// The same, of a text that is one line: white space before it moves its matches.
pub proof fn indented_lines_are_scanned(indent: Seq<char>, line: Seq<char>, language: Language)
    requires
        all_space(indent),
        !indent.contains('\n'),
        line.len() > 0,
        !line.contains('\n'),
    ensures
        found(indent + line, language) == found(line, language).map_values(
            |f: (int, int, int)| moved(f, encode_utf8(indent).len() as int),
        ),
{
    let both = indent + line;
    assert(!both.contains('\n')) by {
        assert forall|i: int| 0 <= i < both.len() implies both[i] != '\n' by {
            if i < indent.len() {
                assert(indent.contains(indent[i]));
            } else {
                assert(line.contains(line[i - indent.len()]));
            }
        }
    }
    a_single_line_has_its_matches(line, language);
    a_single_line_has_its_matches(both, language);
    indentation_only_moves_what_is_found(indent, line, language);
    let shift = |f: (int, int, int)| moved(f, encode_utf8(indent).len() as int);
    if comment_line(trim_start_text(line), language) {
        assert(found(both, language) =~= found(line, language).map_values(shift));
    }
}

// ---------------------------------------------------------------------------
// Words of a line
// ---------------------------------------------------------------------------

/// The byte is an ASCII letter or digit.
pub open spec fn is_word_byte(b: u8) -> bool {
    48 <= b <= 57 || 65 <= b <= 90 || 97 <= b <= 122
}

/// No letter or digit stands right before `start` or right behind `end`.
pub open spec fn stands_alone(hay: Seq<u8>, start: int, end: int) -> bool {
    (start > 0 ==> !is_word_byte(hay[start - 1])) && (end < hay.len() ==> !is_word_byte(hay[end]))
}

/// The bytes from `i` on are those of the needle.
pub open spec fn reads(hay: Seq<u8>, needle: Seq<u8>, i: int) -> bool {
    0 <= i && i + needle.len() <= hay.len() && hay.subrange(i, i + needle.len()) == needle
}

/// The needle stands at `j` as a whole word, and no earlier occurrence of it runs into this one.
pub open spec fn word_at(hay: Seq<u8>, needle: Seq<u8>, j: int) -> bool {
    &&& needle.len() > 0
    &&& reads(hay, needle, j)
    &&& stands_alone(hay, j, (j + needle.len()) as int)
    &&& forall|k: int| 0 <= k < j < k + needle.len() ==> !reads(hay, needle, k)
}

/// Each match of a line reads as one of the spellings of its algorithm, and no letter or digit touches
/// it.
pub proof fn matches_are_whole_words(line: Seq<char>, i: int) -> (s: int)
    requires
        0 <= i < line_found(line).len(),
    ensures
        ({
            let f = line_found(line)[i];
            let hay = lower_bytes(encode_utf8(line));
            let spellings = algorithm_table()[f.2].spellings;
            &&& 0 <= f.2 < algorithm_table().len()
            &&& 0 <= s < spellings.len()
            &&& reads(hay, encode_utf8(spellings[s]), f.0)
            &&& f.1 == f.0 + encode_utf8(spellings[s]).len()
            &&& stands_alone(hay, f.0, f.1)
        }),
{
    let hay = lower_bytes(encode_utf8(line));
    lemma_line_matches(hay, algorithm_table(), algorithm_table().len() as int);
    let f = line_found(line)[i];
    let spellings = algorithm_table()[f.2].spellings;
    let s = choose|s: int|
        0 <= s < spellings.len() && stands(hay, #[trigger] encode_utf8(spellings[s]), f.0) && f.1
            == f.0 + encode_utf8(spellings[s]).len() && encode_utf8(spellings[s]).len() > 0
            && bounded(hay, f.0, f.1);
    s
}

proof fn lemma_lower_bytes(s: Seq<char>)
    ensures
        lower_bytes(encode_utf8(s)) == encode_utf8(lower_text(s)),
    decreases s.len(),
{
    if s.len() == 0 {
        assert(lower_bytes(encode_utf8(s)) =~= encode_utf8(lower_text(s)));
    } else {
        let t = s.drop_first();
        lemma_lower_bytes(t);
        let low = lower_text(s);
        assert(low.drop_first() =~= lower_text(t));
        assert(low[0] == lower_char(s[0]));
        let c = s[0] as u32;
        let d = low[0] as u32;
        assert(c <= 0x7f ==> (c & 0x7f) as u8 == c) by (bit_vector);
        assert(d <= 0x7f ==> (d & 0x7f) as u8 == d) by (bit_vector);
        assert(0xC0u8 | ((c >> 6) & 0x1F) as u8 >= 0x80) by (bit_vector);
        assert(0xE0u8 | ((c >> 12) & 0x0F) as u8 >= 0x80) by (bit_vector);
        assert(0xF0u8 | ((c >> 18) & 0x7) as u8 >= 0x80) by (bit_vector);
        assert(0x80u8 | (c & 0x3F) as u8 >= 0x80) by (bit_vector);
        assert(0x80u8 | ((c >> 6) & 0x3F) as u8 >= 0x80) by (bit_vector);
        assert(0x80u8 | ((c >> 12) & 0x3F) as u8 >= 0x80) by (bit_vector);
        let a = encode_scalar(c);
        let b = encode_utf8(t);
        assert(lower_bytes(a) =~= encode_scalar(d));
        assert(lower_bytes(a + b) =~= lower_bytes(a) + lower_bytes(b));
    }
}

/// Capitals and small letters are alike: lines that are the same in small letters have the same
/// matches.
pub proof fn capitals_do_not_matter(a: Seq<char>, b: Seq<char>)
    requires
        lower_text(a) == lower_text(b),
    ensures
        line_found(a) == line_found(b),
        line_found(lower_text(a)) == line_found(a),
{
    lemma_lower_bytes(a);
    lemma_lower_bytes(b);
    lemma_lower_bytes(lower_text(a));
    assert(lower_text(lower_text(a)) =~= lower_text(a));
}

proof fn lemma_word_is_taken(hay: Seq<u8>, needle: Seq<u8>, i: int, st: LineState, j: int)
    requires
        0 <= i <= j,
        word_at(hay, needle, j),
    ensures
        take_spelling(hay, needle, i, st).first is Some || any_claimed(
            st.claimed,
            j,
            (j + needle.len()) as int,
        ),
    decreases hay.len() - i,
{
    if stands(hay, needle, i) {
        let end = i + needle.len();
        let next = if bounded(hay, i, end) && !any_claimed(st.claimed, i, end) {
            LineState {
                claimed: claim(st.claimed, i, end),
                first: match st.first {
                    Some(f) => Some(f),
                    None => Some((i, end)),
                },
            }
        } else {
            st
        };
        lemma_spelling_keeps_len(hay, needle, end, next);
        if i < j && next == st {
            assert(reads(hay, needle, i));
            assert(!(0 <= i < j < i + needle.len()));
            lemma_word_is_taken(hay, needle, end, next, j);
        }
    } else {
        lemma_word_is_taken(hay, needle, i + 1, st, j);
    }
}

proof fn lemma_word_is_taken_by_spellings(
    hay: Seq<u8>,
    spellings: Seq<Seq<char>>,
    n: int,
    st: LineState,
    s: int,
    j: int,
)
    requires
        0 <= s < n <= spellings.len(),
        0 <= j,
        word_at(hay, encode_utf8(spellings[s]), j),
    ensures
        take_spellings(hay, spellings, n, st).first is Some || any_claimed(
            st.claimed,
            j,
            (j + encode_utf8(spellings[s]).len()) as int,
        ),
    decreases n,
{
    let before = take_spellings(hay, spellings, n - 1, st);
    lemma_spellings_keep_len(hay, spellings, n - 1, st);
    lemma_spelling_keeps_len(hay, encode_utf8(spellings[n - 1]), 0, before);
    if s == n - 1 {
        lemma_word_is_taken(hay, encode_utf8(spellings[s]), 0, before, j);
    } else {
        lemma_word_is_taken_by_spellings(hay, spellings, n - 1, st, s, j);
    }
}

/// A whole word that spells the algorithm at `m` covers the byte at `k`.
pub open spec fn covers(hay: Seq<u8>, table: Seq<AlgorithmView>, m: int, k: int) -> bool {
    exists|a: int, b: int|
        a <= k < b && #[trigger] spelled(
            hay,
            table[m].spellings,
            table[m].spellings.len() as int,
            (a, b),
        )
}

proof fn lemma_spelling_claims(
    hay: Seq<u8>,
    table: Seq<AlgorithmView>,
    m: int,
    s: int,
    i: int,
    st: LineState,
    k: int,
)
    requires
        0 <= s < table[m].spellings.len(),
        0 <= k < hay.len(),
        st.claimed.len() == hay.len(),
        take_spelling(hay, encode_utf8(table[m].spellings[s]), i, st).claimed[k],
        !st.claimed[k],
    ensures
        covers(hay, table, m, k),
    decreases hay.len() - i,
{
    let needle = encode_utf8(table[m].spellings[s]);
    if needle.len() == 0 || i < 0 || i + needle.len() > hay.len() {
    } else if stands(hay, needle, i) {
        let end = i + needle.len();
        if bounded(hay, i, end) && !any_claimed(st.claimed, i, end) {
            let next = LineState {
                claimed: claim(st.claimed, i, end),
                first: match st.first {
                    Some(f) => Some(f),
                    None => Some((i, end)),
                },
            };
            if next.claimed[k] {
                assert(stands(hay, encode_utf8(table[m].spellings[s]), (i, end).0));
                assert(spelled(
                    hay,
                    table[m].spellings,
                    table[m].spellings.len() as int,
                    (i, end),
                ));
            } else {
                lemma_spelling_claims(hay, table, m, s, end, next, k);
            }
        } else {
            lemma_spelling_claims(hay, table, m, s, end, st, k);
        }
    } else {
        lemma_spelling_claims(hay, table, m, s, i + 1, st, k);
    }
}

proof fn lemma_spellings_claim(
    hay: Seq<u8>,
    table: Seq<AlgorithmView>,
    m: int,
    n: int,
    st: LineState,
    k: int,
)
    requires
        0 <= n <= table[m].spellings.len(),
        0 <= k < hay.len(),
        st.claimed.len() == hay.len(),
        take_spellings(hay, table[m].spellings, n, st).claimed[k],
        !st.claimed[k],
    ensures
        covers(hay, table, m, k),
    decreases n,
{
    if n > 0 {
        let before = take_spellings(hay, table[m].spellings, n - 1, st);
        lemma_spellings_keep_len(hay, table[m].spellings, n - 1, st);
        if before.claimed[k] {
            lemma_spellings_claim(hay, table, m, n - 1, st, k);
        } else {
            lemma_spelling_claims(hay, table, m, n - 1, 0, before, k);
        }
    }
}

/// The algorithm at `m` is among the matches.
pub open spec fn has_algorithm(hits: Seq<(int, int, int)>, m: int) -> bool {
    exists|i: int| 0 <= i < hits.len() && (#[trigger] hits[i]).2 == m
}

proof fn lemma_claims_are_found(hay: Seq<u8>, table: Seq<AlgorithmView>, n: int, k: int) -> (m: int)
    requires
        0 <= n <= table.len(),
        0 <= k < hay.len(),
        take_algorithms(hay, table, n).0[k],
    ensures
        0 <= m < n,
        covers(hay, table, m, k),
        has_algorithm(take_algorithms(hay, table, n).1, m),
    decreases n,
{
    if n == 0 {
        0
    } else {
        lemma_line_matches(hay, table, n - 1);
        let (claimed, so_far) = take_algorithms(hay, table, n - 1);
        let now = take_algorithms(hay, table, n).1;
        let a = table[n - 1];
        let st = LineState { claimed, first: None };
        let size = a.spellings.len() as int;
        lemma_spellings_keep_len(hay, a.spellings, size, st);
        if claimed[k] {
            let m = lemma_claims_are_found(hay, table, n - 1, k);
            let i = choose|i: int| 0 <= i < so_far.len() && (#[trigger] so_far[i]).2 == m;
            assert(now[i].2 == m);
            m
        } else {
            lemma_spellings_claim(hay, table, n - 1, size, st, k);
            assert(now[so_far.len() as int].2 == n - 1);
            n - 1
        }
    }
}

proof fn lemma_matches_grow(hay: Seq<u8>, table: Seq<AlgorithmView>, n: int, k: int, m: int)
    requires
        0 <= n <= k <= table.len(),
        has_algorithm(take_algorithms(hay, table, n).1, m),
    ensures
        has_algorithm(take_algorithms(hay, table, k).1, m),
    decreases k - n,
{
    if n < k {
        lemma_matches_grow(hay, table, n, k - 1, m);
        let before = take_algorithms(hay, table, k - 1).1;
        let i = choose|i: int| 0 <= i < before.len() && (#[trigger] before[i]).2 == m;
        assert(take_algorithms(hay, table, k).1[i].2 == m);
    }
}

/// The algorithm at `m` matches in the line, and a whole word that spells it covers a byte from `from`
/// to `to`.
pub open spec fn takes_part_of(line: Seq<char>, m: int, from: int, to: int) -> bool {
    has_algorithm(line_found(line), m) && exists|k: int|
        from <= k < to && #[trigger] covers(lower_bytes(encode_utf8(line)), algorithm_table(), m, k)
}

/// A whole word that spells an algorithm, in small letters or capitals, is found: the algorithm
/// matches in the line, or one that comes before it matches and takes part of the word.
pub proof fn whole_words_are_found(line: Seq<char>, n: int, s: int, j: int)
    requires
        0 <= n < algorithm_table().len(),
        0 <= s < algorithm_table()[n].spellings.len(),
        0 <= j,
        word_at(
            lower_bytes(encode_utf8(line)),
            encode_utf8(algorithm_table()[n].spellings[s]),
            j,
        ),
    ensures
        has_algorithm(line_found(line), n) || exists|m: int|
            0 <= m < n && #[trigger] takes_part_of(
                line,
                m,
                j,
                (j + encode_utf8(algorithm_table()[n].spellings[s]).len()) as int,
            ),
{
    let hay = lower_bytes(encode_utf8(line));
    let table = algorithm_table();
    let a = table[n];
    let end = j + encode_utf8(a.spellings[s]).len();
    let size = a.spellings.len() as int;
    let total = table.len() as int;
    let (claimed, so_far) = take_algorithms(hay, table, n);
    let st = LineState { claimed, first: None };
    lemma_line_matches(hay, table, n);
    lemma_word_is_taken_by_spellings(hay, a.spellings, size, st, s, j);
    if take_spellings(hay, a.spellings, size, st).first is Some {
        assert(take_algorithms(hay, table, n + 1).1[so_far.len() as int].2 == n);
        lemma_matches_grow(hay, table, n + 1, total, n);
    } else {
        let k = choose|k: int| j <= k < end && #[trigger] claimed[k];
        let m = lemma_claims_are_found(hay, table, n, k);
        lemma_matches_grow(hay, table, n, total, m);
        assert(takes_part_of(line, m, j, end));
    }
}

/// An algorithm is known by its canonical name: the first of the list that has it.
pub proof fn algorithms_are_known_by_name(table: Seq<AlgorithmView>, name: Seq<char>, i: int, k: int)
    requires
        0 <= i <= k <= table.len(),
        forall|j: int| i <= j < k ==> (#[trigger] table[j]).canonical != name,
    ensures
        k < table.len() && table[k].canonical == name ==> named_from(table, name, i) == Some(
            table[k],
        ),
        k == table.len() ==> named_from(table, name, i) is None,
    decreases k - i,
{
    if i < k {
        algorithms_are_known_by_name(table, name, i + 1, k);
    }
}

// ---------------------------------------------------------------------------
// Findings
// ---------------------------------------------------------------------------

/// The finding for a match of a line stands on that line and begins where the match does, names the
/// algorithm and shows the line.
pub proof fn findings_stand_on_the_line_of_their_match(
    rule_id: Seq<char>,
    source: Seq<char>,
    i: int,
    k: int,
)
    requires
        0 <= i < inclusive_lines_of(source).len(),
        0 <= k < line_found(inclusive_lines_of(source)[i]).len(),
    ensures
        ({
            let f = line_found(inclusive_lines_of(source)[i])[k];
            let shown = ready_finding(
                rule_id,
                source,
                moved(f, line_start(inclusive_lines_of(source), i)),
            );
            &&& shown.rule_id == rule_id
            &&& shown.line == fit(i + 1)
            &&& shown.column == fit(f.0 + 1)
            &&& shown.snippet == lines_of(source)[i]
            &&& shown.crypto_algorithm == Some(algorithm_table()[f.2].canonical)
        }),
{
    let lines = inclusive_lines_of(source);
    let hay = lower_bytes(encode_utf8(lines[i]));
    lemma_line_matches(hay, algorithm_table(), algorithm_table().len() as int);
    let f = line_found(lines[i])[k];
    bytes_of_a_line_are_on_it(source, i, f.0);
}

} // verus!
