//! What a scan for credentials finds and what it shows: every match of every kind in every line, and
//! of the line all that is no match.

use crate::finding::FindingView;
use crate::paths::{path_parts, PartView};
use crate::secrets::{
    after, by_start, excluded_by, file_findings, file_notice, files_findings, files_notices,
    kind_matches, line_findings, line_matches, lines_findings, listed_paths, marked_parts,
    match_finding, matches_findings, names_path, redacted_line, regex_accepts, regex_ranges,
    secret_patterns, shown_parts, text_findings, PatternView, SecretFile, SecretMatch,
    SecretScanConfig, SECRET_MARK,
};
use crate::sort::{sorting_orders_and_permutes, stable_sort};
use crate::text::{lines_of, opt_text, texts, trim_text, without_cr};
use crate::text_laws::lines_end_at_line_feeds;
use vstd::prelude::*;
use vstd::utf8::encode_utf8;

verus! {

// ---------------------------------------------------------------------------
// What is found
// ---------------------------------------------------------------------------

/// The kind at `k` is looked for, and its expression matches from the one byte to the other.
pub open spec fn kind_matches_at(
    kinds: Seq<PatternView>,
    k: int,
    line: Seq<char>,
    range: (usize, usize),
) -> bool {
    0 <= k < kinds.len() && regex_accepts(kinds[k].regex) && regex_ranges(
        kinds[k].regex,
        line,
    ).contains(range)
}

/// The finding is on the kind at `k`, in the line at position `i` of the file, and covers the bytes.
pub open spec fn tells_of(
    f: FindingView,
    kinds: Seq<PatternView>,
    k: int,
    file: Seq<char>,
    i: int,
    range: (usize, usize),
) -> bool {
    &&& f.rule_id == kinds[k].rule_id
    &&& f.severity == kinds[k].severity
    &&& f.description == kinds[k].description
    &&& f.cwe == Some(kinds[k].cwe)
    &&& f.file == file
    &&& f.line == after(i) && f.end_line == after(i)
    &&& f.column == after(range.0 as int)
    &&& f.end_column == after(range.1 as int)
}

proof fn lemma_both_contain<T>(a: Seq<T>, b: Seq<T>, x: T)
    ensures
        (a + b).contains(x) <==> a.contains(x) || b.contains(x),
{
    let t = a + b;
    if a.contains(x) {
        let k = choose|k: int| 0 <= k < a.len() && a[k] == x;
        assert(t[k] == x);
    }
    if b.contains(x) {
        let k = choose|k: int| 0 <= k < b.len() && b[k] == x;
        assert(t[a.len() + k] == x);
    }
    if t.contains(x) {
        let k = choose|k: int| 0 <= k < t.len() && t[k] == x;
        if k < a.len() {
            assert(a[k] == x);
        } else {
            assert(b[k - a.len()] == x);
        }
    }
}

proof fn lemma_line_matches(kinds: Seq<PatternView>, line: Seq<char>, n: int, m: SecretMatch)
    requires
        0 <= n <= kinds.len() <= usize::MAX,
    ensures
        line_matches(kinds, line, n).contains(m) <==> m.pattern < n && kind_matches_at(
            kinds,
            m.pattern as int,
            line,
            (m.start, m.end),
        ),
    decreases n,
{
    if n > 0 {
        lemma_line_matches(kinds, line, n - 1, m);
        let regex = kinds[n - 1].regex;
        let kind = (n - 1) as usize;
        let here = kind_matches(regex, kind, line);
        let ranges = regex_ranges(regex, line);
        lemma_both_contain(line_matches(kinds, line, n - 1), here, m);
        if here.contains(m) {
            let k = choose|k: int| 0 <= k < here.len() && here[k] == m;
            assert(ranges[k] == (m.start, m.end));
            assert(ranges.contains((m.start, m.end)));
        }
        if m.pattern == n - 1 && kind_matches_at(kinds, n - 1, line, (m.start, m.end)) {
            let k = choose|k: int| 0 <= k < ranges.len() && ranges[k] == (m.start, m.end);
            assert(here[k] == m);
        }
    }
}

proof fn lemma_sorted_contains(ms: Seq<SecretMatch>, m: SecretMatch)
    ensures
        stable_sort(ms, by_start()).contains(m) <==> ms.contains(m),
{
    broadcast use vstd::seq_lib::group_to_multiset_ensures;

    sorting_orders_and_permutes(ms, by_start());
    let sorted = stable_sort(ms, by_start());
    assert(sorted.contains(m) <==> sorted.to_multiset().count(m) > 0);
    assert(ms.contains(m) <==> ms.to_multiset().count(m) > 0);
}

proof fn lemma_matches_findings(
    kinds: Seq<PatternView>,
    ms: Seq<SecretMatch>,
    n: int,
    config: SecretScanConfig,
    file: Seq<char>,
    line: int,
    snippet: Seq<char>,
    at: int,
)
    requires
        0 <= at < n <= ms.len(),
        !config.ignores(kinds[ms[at].pattern as int].rule_id),
    ensures
        matches_findings(kinds, ms, n, config, file, line, snippet).contains(
            match_finding(kinds, ms[at], file, line, snippet),
        ),
    decreases n,
{
    let f = match_finding(kinds, ms[at], file, line, snippet);
    let now = matches_findings(kinds, ms, n, config, file, line, snippet);
    let before = matches_findings(kinds, ms, n - 1, config, file, line, snippet);
    if at == n - 1 {
        assert(now[before.len() as int] == f);
    } else {
        lemma_matches_findings(kinds, ms, n - 1, config, file, line, snippet, at);
        let k = choose|k: int| 0 <= k < before.len() && before[k] == f;
        assert(now[k] == f);
    }
}

proof fn lemma_finding_has_match(
    kinds: Seq<PatternView>,
    ms: Seq<SecretMatch>,
    n: int,
    config: SecretScanConfig,
    file: Seq<char>,
    line: int,
    snippet: Seq<char>,
    f: FindingView,
) -> (at: int)
    requires
        0 <= n <= ms.len(),
        matches_findings(kinds, ms, n, config, file, line, snippet).contains(f),
    ensures
        0 <= at < n,
        !config.ignores(kinds[ms[at].pattern as int].rule_id),
        f == match_finding(kinds, ms[at], file, line, snippet),
    decreases n,
{
    let now = matches_findings(kinds, ms, n, config, file, line, snippet);
    let before = matches_findings(kinds, ms, n - 1, config, file, line, snippet);
    let k = choose|k: int| 0 <= k < now.len() && now[k] == f;
    if k < before.len() {
        assert(before[k] == f);
        assert(before.contains(f));
        lemma_finding_has_match(kinds, ms, n - 1, config, file, line, snippet, f)
    } else {
        n - 1
    }
}

proof fn lemma_lines_grow(
    kinds: Seq<PatternView>,
    all: Seq<Seq<char>>,
    n: int,
    m: int,
    config: SecretScanConfig,
    file: Seq<char>,
)
    requires
        0 <= n <= m <= all.len(),
    ensures
        lines_findings(kinds, all, n, config, file).is_prefix_of(
            lines_findings(kinds, all, m, config, file),
        ),
    decreases m - n,
{
    let a = lines_findings(kinds, all, n, config, file);
    let b = lines_findings(kinds, all, m, config, file);
    if n < m {
        lemma_lines_grow(kinds, all, n, m - 1, config, file);
        let c = lines_findings(kinds, all, m - 1, config, file);
        assert(a =~= c.subrange(0, a.len() as int));
        assert(a =~= b.subrange(0, a.len() as int));
    } else {
        assert(a =~= b.subrange(0, a.len() as int));
    }
}

/// Every range that the expression of a kind matches in a line is found, unless the kind is ignored:
/// the findings hold one with the kind's rule, the line's number and the range's columns, whatever
/// the other lines and kinds hold.
pub proof fn every_match_in_every_line_is_found(
    text: Seq<char>,
    config: SecretScanConfig,
    file: Seq<char>,
    i: int,
    k: int,
    range: (usize, usize),
)
    requires
        0 <= i < lines_of(text).len(),
        kind_matches_at(secret_patterns(), k, lines_of(text)[i], range),
        !config.ignores(secret_patterns()[k].rule_id),
    ensures
        exists|f: FindingView|
            text_findings(text, config, file).contains(f) && #[trigger] tells_of(
                f,
                secret_patterns(),
                k,
                file,
                i,
                range,
            ),
{
    let kinds = secret_patterns();
    let all = lines_of(text);
    let line = all[i];
    let ms = line_matches(kinds, line, kinds.len() as int);
    let m = SecretMatch { pattern: k as usize, start: range.0, end: range.1 };
    lemma_line_matches(kinds, line, kinds.len() as int, m);
    lemma_sorted_contains(ms, m);
    let sorted = stable_sort(ms, by_start());
    let at = choose|at: int| 0 <= at < sorted.len() && sorted[at] == m;
    let snippet = vstd::utf8::decode_utf8(redacted_line(encode_utf8(line), sorted));
    lemma_matches_findings(kinds, sorted, sorted.len() as int, config, file, i, snippet, at);
    let f = match_finding(kinds, m, file, i, snippet);
    let here = line_findings(kinds, ms, config, file, i, line);
    lemma_both_contain(lines_findings(kinds, all, i, config, file), here, f);
    lemma_lines_grow(kinds, all, i + 1, all.len() as int, config, file);
    let upto = lines_findings(kinds, all, i + 1, config, file);
    let at = choose|at: int| 0 <= at < upto.len() && upto[at] == f;
    assert(text_findings(text, config, file)[at] == upto[at]) by {
        assert(upto == text_findings(text, config, file).subrange(0, upto.len() as int));
    }
    assert(tells_of(f, kinds, k, file, i, range));
}

/// The kind is not ignored and matches in the line, and the finding tells of it.
pub open spec fn is_backed(
    text: Seq<char>,
    config: SecretScanConfig,
    file: Seq<char>,
    f: FindingView,
    i: int,
    k: int,
    range: (usize, usize),
) -> bool {
    &&& 0 <= i < lines_of(text).len()
    &&& kind_matches_at(secret_patterns(), k, lines_of(text)[i], range)
    &&& !config.ignores(secret_patterns()[k].rule_id)
    &&& tells_of(f, secret_patterns(), k, file, i, range)
}

proof fn lemma_finding_is_backed(
    text: Seq<char>,
    config: SecretScanConfig,
    file: Seq<char>,
    n: int,
    f: FindingView,
) -> (r: (int, int, (usize, usize)))
    requires
        0 <= n <= lines_of(text).len(),
        lines_findings(secret_patterns(), lines_of(text), n, config, file).contains(f),
    ensures
        is_backed(text, config, file, f, r.0, r.1, r.2),
    decreases n,
{
    let kinds = secret_patterns();
    let all = lines_of(text);
    let before = lines_findings(kinds, all, n - 1, config, file);
    if before.contains(f) && n > 0 {
        lemma_finding_is_backed(text, config, file, n - 1, f)
    } else {
        let line = all[n - 1];
        let ms = line_matches(kinds, line, kinds.len() as int);
        let here = line_findings(kinds, ms, config, file, n - 1, line);
        lemma_both_contain(before, here, f);
        let sorted = stable_sort(ms, by_start());
        let snippet = vstd::utf8::decode_utf8(redacted_line(encode_utf8(line), sorted));
        let at = lemma_finding_has_match(
            kinds,
            sorted,
            sorted.len() as int,
            config,
            file,
            n - 1,
            snippet,
            f,
        );
        let m = sorted[at];
        assert(sorted.contains(m));
        lemma_sorted_contains(ms, m);
        lemma_line_matches(kinds, line, kinds.len() as int, m);
        (n - 1, m.pattern as int, (m.start, m.end))
    }
}

/// Each finding is of a line in which a kind that is not ignored matches.
pub proof fn only_matches_are_found(
    text: Seq<char>,
    config: SecretScanConfig,
    file: Seq<char>,
    f: FindingView,
)
    requires
        text_findings(text, config, file).contains(f),
    ensures
        exists|i: int, k: int, range: (usize, usize)| #[trigger]
            is_backed(text, config, file, f, i, k, range),
{
    let r = lemma_finding_is_backed(text, config, file, lines_of(text).len() as int, f);
    assert(is_backed(text, config, file, f, r.0, r.1, r.2));
}

proof fn lemma_matches_findings_len(
    kinds: Seq<PatternView>,
    ms: Seq<SecretMatch>,
    n: int,
    config: SecretScanConfig,
    file: Seq<char>,
    line: int,
    snippet: Seq<char>,
)
    requires
        0 <= n <= ms.len(),
    ensures
        matches_findings(kinds, ms, n, config, file, line, snippet) == ms.take(n).filter(
            |m: SecretMatch| !config.ignores(kinds[m.pattern as int].rule_id),
        ).map_values(|m: SecretMatch| match_finding(kinds, m, file, line, snippet)),
    decreases n,
{
    let p = |m: SecretMatch| !config.ignores(kinds[m.pattern as int].rule_id);
    let g = |m: SecretMatch| match_finding(kinds, m, file, line, snippet);
    if n == 0 {
        reveal(Seq::filter);
        assert(ms.take(0).filter(p).map_values(g) =~= Seq::<FindingView>::empty());
    } else {
        lemma_matches_findings_len(kinds, ms, n - 1, config, file, line, snippet);
        let t = ms.take(n - 1);
        assert(ms.take(n) =~= t.push(ms[n - 1]));
        t.lemma_filter_push(ms[n - 1], p);
        if p(ms[n - 1]) {
            assert(t.filter(p).push(ms[n - 1]).map_values(g) =~= t.filter(p).map_values(g).push(
                g(ms[n - 1]),
            ));
        }
    }
}

/// The findings of a line are its matches, but for those of ignored kinds, from left to right: those
/// that begin at the same byte keep the order of their kinds.
pub proof fn findings_of_a_line_go_from_left_to_right(
    kinds: Seq<PatternView>,
    ms: Seq<SecretMatch>,
    config: SecretScanConfig,
    file: Seq<char>,
    line: int,
    text: Seq<char>,
)
    ensures
        ({
            let kept = stable_sort(ms, by_start()).filter(
                |m: SecretMatch| !config.ignores(kinds[m.pattern as int].rule_id),
            );
            let found = line_findings(kinds, ms, config, file, line, text);
            &&& found.len() == kept.len()
            &&& forall|i: int|
                0 <= i < found.len() ==> tells_of(
                    #[trigger] found[i],
                    kinds,
                    kept[i].pattern as int,
                    file,
                    line,
                    (kept[i].start, kept[i].end),
                )
            &&& forall|i: int, j: int|
                0 <= i < j < found.len() ==> (#[trigger] found[i]).snippet == (
                #[trigger] found[j]).snippet
        }),
{
    let sorted = stable_sort(ms, by_start());
    let snippet = vstd::utf8::decode_utf8(redacted_line(encode_utf8(text), sorted));
    lemma_matches_findings_len(
        kinds,
        sorted,
        sorted.len() as int,
        config,
        file,
        line,
        snippet,
    );
    assert(sorted.take(sorted.len() as int) =~= sorted);
}

/// Matches are gathered kind by kind, none left out: as many of each kind as its expression has
/// ranges in the line.
pub proof fn matches_are_gathered_kind_by_kind(
    kinds: Seq<PatternView>,
    line: Seq<char>,
    n: int,
    k: int,
)
    requires
        0 <= k < n <= kinds.len() <= usize::MAX,
    ensures
        line_matches(kinds, line, n).filter(|m: SecretMatch| m.pattern == k).len() == (
        if regex_accepts(kinds[k].regex) {
            regex_ranges(kinds[k].regex, line).len()
        } else {
            0
        }),
{
    lemma_gathered(kinds, line, n, k);
}

proof fn lemma_gathered(kinds: Seq<PatternView>, line: Seq<char>, n: int, k: int)
    requires
        0 <= n <= kinds.len() <= usize::MAX,
        0 <= k < kinds.len(),
    ensures
        line_matches(kinds, line, n).filter(|m: SecretMatch| m.pattern == k).len() == (if k < n
            && regex_accepts(kinds[k].regex) {
            regex_ranges(kinds[k].regex, line).len()
        } else {
            0
        }),
    decreases n,
{
    let p = |m: SecretMatch| m.pattern == k;
    if n == 0 {
        reveal(Seq::filter);
        assert(line_matches(kinds, line, 0).filter(p).len() == 0);
    } else {
        lemma_gathered(kinds, line, n - 1, k);
        let before = line_matches(kinds, line, n - 1);
        let here = kind_matches(kinds[n - 1].regex, (n - 1) as usize, line);
        lemma_filter_block(before, here, n - 1, k);
    }
}

proof fn lemma_filter_block(a: Seq<SecretMatch>, b: Seq<SecretMatch>, kind: int, k: int)
    requires
        forall|i: int| 0 <= i < b.len() ==> (#[trigger] b[i]).pattern == kind,
    ensures
        (a + b).filter(|m: SecretMatch| m.pattern == k).len() == a.filter(
            |m: SecretMatch| m.pattern == k,
        ).len() + if kind == k {
            b.len()
        } else {
            0
        },
    decreases b.len(),
{
    let p = |m: SecretMatch| m.pattern == k;
    if b.len() == 0 {
        assert(a + b =~= a);
    } else {
        let t = b.drop_last();
        assert forall|i: int| 0 <= i < t.len() implies (#[trigger] t[i]).pattern == kind by {
            assert(t[i] == b[i]);
        }
        lemma_filter_block(a, t, kind, k);
        assert(a + b =~= (a + t).push(b.last()));
        (a + t).lemma_filter_push(b.last(), p);
        assert(b[b.len() - 1].pattern == kind);
    }
}

proof fn lemma_lines_prefix(
    kinds: Seq<PatternView>,
    a: Seq<Seq<char>>,
    b: Seq<Seq<char>>,
    n: int,
    config: SecretScanConfig,
    file: Seq<char>,
)
    requires
        0 <= n <= a.len(),
        n <= b.len(),
        forall|i: int| 0 <= i < n ==> a[i] == b[i],
    ensures
        lines_findings(kinds, a, n, config, file) == lines_findings(kinds, b, n, config, file),
    decreases n,
{
    if n > 0 {
        lemma_lines_prefix(kinds, a, b, n - 1, config, file);
    }
}

/// What stands in the first line of a text neither adds to the findings of the rest nor takes from
/// them, and the rest does not change those of the first line.
pub proof fn texts_are_scanned_one_after_the_other(
    first: Seq<char>,
    rest: Seq<char>,
    config: SecretScanConfig,
    file: Seq<char>,
)
    requires
        !first.contains('\n'),
    ensures
        text_findings(first.push('\n') + rest, config, file).len() == text_findings(
            first.push('\n'),
            config,
            file,
        ).len() + text_findings(rest, config, file).len(),
        text_findings(first.push('\n'), config, file).is_prefix_of(
            text_findings(first.push('\n') + rest, config, file),
        ),
{
    let kinds = secret_patterns();
    let none = Seq::<char>::empty();
    lines_end_at_line_feeds(first, rest);
    lines_end_at_line_feeds(first, none);
    lines_end_at_line_feeds(none, none);
    assert(first.push('\n') + none =~= first.push('\n'));
    let one = seq![without_cr(first)];
    assert(lines_of(first.push('\n')) =~= one);
    let tail = lines_of(rest);
    lemma_lines_len(kinds, one, tail, tail.len() as int, config, file);
    lemma_lines_grow(kinds, one + tail, 1, (one + tail).len() as int, config, file);
    lemma_lines_prefix(kinds, one, one + tail, 1, config, file);
}

proof fn lemma_lines_len(
    kinds: Seq<PatternView>,
    a: Seq<Seq<char>>,
    b: Seq<Seq<char>>,
    n: int,
    config: SecretScanConfig,
    file: Seq<char>,
)
    requires
        0 <= n <= b.len(),
    ensures
        lines_findings(kinds, a + b, a.len() + n, config, file).len() == lines_findings(
            kinds,
            a,
            a.len() as int,
            config,
            file,
        ).len() + lines_findings(kinds, b, n, config, file).len(),
    decreases n,
{
    if n == 0 {
        lemma_lines_prefix(kinds, a, a + b, a.len() as int, config, file);
    } else {
        lemma_lines_len(kinds, a, b, n - 1, config, file);
        let m = a.len() + n;
        assert((a + b)[m - 1] == b[n - 1]);
        let ms = line_matches(kinds, b[n - 1], kinds.len() as int);
        findings_of_a_line_go_from_left_to_right(kinds, ms, config, file, m - 1, b[n - 1]);
        findings_of_a_line_go_from_left_to_right(kinds, ms, config, file, n - 1, b[n - 1]);
    }
}

// ---------------------------------------------------------------------------
// What is shown
// ---------------------------------------------------------------------------

/// A line without matches is shown as it is.
pub proof fn lines_without_matches_are_shown_whole(line: Seq<u8>)
    ensures
        redacted_line(line, Seq::empty()) == line,
{
    assert(redacted_line(line, Seq::empty()) =~= line);
}

proof fn lemma_parts_prefix(a: Seq<SecretMatch>, b: Seq<SecretMatch>, n: int)
    requires
        0 <= n <= a.len(),
        n <= b.len(),
        forall|i: int| 0 <= i < n ==> a[i] == b[i],
    ensures
        shown_parts(a, n) == shown_parts(b, n),
    decreases n,
{
    if n > 0 {
        lemma_parts_prefix(a, b, n - 1);
    }
}

proof fn lemma_cursor(ms: Seq<SecretMatch>, n: int, bound: int)
    requires
        0 <= n <= ms.len(),
        0 <= bound,
        forall|i: int| 0 <= i < n ==> (#[trigger] ms[i]).start <= ms[i].end <= bound,
    ensures
        0 <= shown_parts(ms, n).1 <= bound,
        forall|k: int|
            0 <= k < shown_parts(ms, n).0.len() ==> 0 <= (#[trigger] shown_parts(ms, n).0[k]).0
                <= shown_parts(ms, n).0[k].1 <= bound,
        forall|i: int| 0 <= i < n ==> (#[trigger] ms[i]).end <= shown_parts(ms, n).1,
    decreases n,
{
    if n > 0 {
        lemma_cursor(ms, n - 1, bound);
        let before = shown_parts(ms, n - 1);
        let now = shown_parts(ms, n);
        assert(ms[n - 1].start <= ms[n - 1].end <= bound);
        assert forall|k: int| 0 <= k < now.0.len() implies 0 <= (#[trigger] now.0[k]).0
            <= now.0[k].1 <= bound by {
            if k < before.0.len() {
                assert(now.0[k] == before.0[k]);
            }
        }
    }
}

proof fn lemma_marked_prefix(a: Seq<u8>, b: Seq<u8>, parts: Seq<(int, int)>)
    requires
        a.is_prefix_of(b),
        forall|k: int|
            0 <= k < parts.len() ==> 0 <= (#[trigger] parts[k]).0 <= parts[k].1 <= a.len(),
    ensures
        marked_parts(a, parts) == marked_parts(b, parts),
    decreases parts.len(),
{
    if parts.len() > 0 {
        let t = parts.drop_last();
        assert forall|k: int| 0 <= k < t.len() implies 0 <= (#[trigger] t[k]).0 <= t[k].1
            <= a.len() by {
            assert(t[k] == parts[k]);
        }
        lemma_marked_prefix(a, b, t);
        let p = parts[parts.len() - 1];
        assert(a =~= b.subrange(0, a.len() as int));
        assert(a.subrange(p.0, p.1) =~= b.subrange(p.0, p.1));
    }
}

/// A match behind all others puts one mark in its place: what stands before it is shown as if the
/// line ended there, and what stands behind it is shown as it is.
pub proof fn a_match_puts_one_mark_in_its_place(
    line: Seq<u8>,
    ms: Seq<SecretMatch>,
    m: SecretMatch,
)
    requires
        forall|i: int| 0 <= i < ms.len() ==> (#[trigger] ms[i]).start <= ms[i].end <= m.start,
        m.start < m.end <= line.len(),
    ensures
        redacted_line(line, ms.push(m)) == redacted_line(line.take(m.start as int), ms)
            + encode_utf8(SECRET_MARK@) + line.skip(m.end as int),
{
    let n = ms.len() as int;
    let all = ms.push(m);
    let short = line.take(m.start as int);
    lemma_parts_prefix(ms, all, n);
    lemma_cursor(ms, n, m.start as int);
    let (parts, cursor) = shown_parts(ms, n);
    let last = (cursor, m.start as int);
    let now = shown_parts(all, n + 1);
    assert(now == (parts.push(last), m.end as int));
    assert(now.0.drop_last() =~= parts);
    assert(short.is_prefix_of(line)) by {
        assert(short =~= line.subrange(0, short.len() as int));
    }
    lemma_marked_prefix(short, line, parts);
    assert(line.subrange(last.0, last.1) =~= short.skip(cursor));
    let mark = encode_utf8(SECRET_MARK@);
    let head = marked_parts(line, parts);
    assert(redacted_line(line, all) =~= (head + short.skip(cursor)) + mark + line.skip(
        m.end as int,
    ));
}

/// A match that begins inside an earlier one shares its mark: nothing is put in for it, and no more
/// than the rest of it is taken away.
pub proof fn a_match_inside_another_shares_its_mark(
    line: Seq<u8>,
    ms: Seq<SecretMatch>,
    m: SecretMatch,
) -> (head: Seq<u8>)
    requires
        ms.len() > 0,
        forall|i: int| 0 <= i < ms.len() ==> (#[trigger] ms[i]).start <= ms[i].end <= line.len(),
        m.start <= m.end <= line.len(),
        m.start < shown_parts(ms, ms.len() as int).1,
    ensures
        redacted_line(line, ms) == head + line.skip(shown_parts(ms, ms.len() as int).1),
        redacted_line(line, ms.push(m)) == head + line.skip(
            if m.end as int > shown_parts(ms, ms.len() as int).1 {
                m.end as int
            } else {
                shown_parts(ms, ms.len() as int).1
            },
        ),
{
    let n = ms.len() as int;
    lemma_parts_prefix(ms, ms.push(m), n);
    marked_parts(line, shown_parts(ms, n).0)
}

/// The byte at `x` lies in one of the parts.
pub open spec fn in_some_part(parts: Seq<(int, int)>, x: int) -> bool {
    exists|k: int| 0 <= k < parts.len() && (#[trigger] parts[k]).0 <= x < parts[k].1
}

/// The byte at `x` is part of one of the matches.
pub open spec fn in_some_match(ms: Seq<SecretMatch>, x: int) -> bool {
    exists|i: int| 0 <= i < ms.len() && (#[trigger] ms[i]).start <= x < ms[i].end
}

/// What is no part of a match is shown: each such byte lies in a part that is kept, or behind the
/// last mark.
pub proof fn what_is_no_match_is_shown(ms: Seq<SecretMatch>, n: int, x: int)
    requires
        0 <= n <= ms.len(),
        0 <= x,
        forall|i: int| 0 <= i < ms.len() ==> (#[trigger] ms[i]).start <= ms[i].end,
        !in_some_match(ms, x),
    ensures
        in_some_part(shown_parts(ms, n).0, x) || x >= shown_parts(ms, n).1,
    decreases n,
{
    if n > 0 {
        what_is_no_match_is_shown(ms, n - 1, x);
        let before = shown_parts(ms, n - 1);
        let now = shown_parts(ms, n);
        let m = ms[n - 1];
        assert(!(m.start <= x < m.end));
        if in_some_part(before.0, x) {
            let k = choose|k: int|
                0 <= k < before.0.len() && (#[trigger] before.0[k]).0 <= x < before.0[k].1;
            assert(now.0[k] == before.0[k]);
        } else if m.end > before.1 && m.start >= before.1 && x < m.start {
            assert(now.0[before.0.len() as int] == (before.1, m.start as int));
        }
    }
}

// ---------------------------------------------------------------------------
// Files
// ---------------------------------------------------------------------------

proof fn lemma_files_prefix(
    a: Seq<SecretFile>,
    b: Seq<SecretFile>,
    n: int,
    base: Seq<PartView>,
    config: SecretScanConfig,
    max_file_size: u64,
)
    requires
        0 <= n <= a.len(),
        n <= b.len(),
        forall|i: int| 0 <= i < n ==> a[i] == b[i],
    ensures
        files_findings(a, n, base, config, max_file_size) == files_findings(
            b,
            n,
            base,
            config,
            max_file_size,
        ),
        files_notices(a, n, base, config, max_file_size) == files_notices(
            b,
            n,
            base,
            config,
            max_file_size,
        ),
    decreases n,
{
    if n > 0 {
        lemma_files_prefix(a, b, n - 1, base, config, max_file_size);
    }
}

/// Files are scanned one after the other, and none has a part in what is found in another: the
/// findings and notices of two lists of files are those of the first and then those of the second.
pub proof fn files_are_scanned_one_after_the_other(
    a: Seq<SecretFile>,
    b: Seq<SecretFile>,
    base: Seq<PartView>,
    config: SecretScanConfig,
    max_file_size: u64,
)
    ensures
        files_findings(a + b, (a + b).len() as int, base, config, max_file_size) == files_findings(
            a,
            a.len() as int,
            base,
            config,
            max_file_size,
        ) + files_findings(b, b.len() as int, base, config, max_file_size),
        files_notices(a + b, (a + b).len() as int, base, config, max_file_size) == files_notices(
            a,
            a.len() as int,
            base,
            config,
            max_file_size,
        ) + files_notices(b, b.len() as int, base, config, max_file_size),
    decreases b.len(),
{
    let n = a.len() as int;
    let m = b.len() as int;
    let x = files_findings(a, n, base, config, max_file_size);
    let u = files_notices(a, n, base, config, max_file_size);
    if m == 0 {
        assert(a + b =~= a);
        assert(x + files_findings(b, 0, base, config, max_file_size) =~= x);
        assert(u + files_notices(b, 0, base, config, max_file_size) =~= u);
    } else {
        let t = b.drop_last();
        files_are_scanned_one_after_the_other(a, t, base, config, max_file_size);
        lemma_files_prefix(a + t, a + b, n + m - 1, base, config, max_file_size);
        lemma_files_prefix(t, b, m - 1, base, config, max_file_size);
        assert((a + b)[n + m - 1] == b[m - 1]);
        let y = files_findings(t, m - 1, base, config, max_file_size);
        let v = files_notices(t, m - 1, base, config, max_file_size);
        let z = file_findings(b[m - 1], base, config, max_file_size);
        assert((x + y) + z =~= x + (y + z));
        if let Some(text) = file_notice(b[m - 1], max_file_size) {
            assert((u + v).push(text) =~= u + v.push(text));
        }
    }
}

/// A file that is not left out has either a notice or the findings of its text: it is too large or
/// its size is not known, or else it is searched, unless it cannot be read or holds a zero byte.
pub proof fn a_file_is_searched_or_has_a_notice(
    file: SecretFile,
    base: Seq<PartView>,
    config: SecretScanConfig,
    max_file_size: u64,
)
    ensures
        ({
            let found = files_findings(seq![file], 1, base, config, max_file_size);
            let notices = files_notices(seq![file], 1, base, config, max_file_size);
            let left_out = config.skips(base, file.path@, opt_text(file.canonical));
            let small = file.size matches Some(n) && n <= max_file_size;
            &&& left_out ==> found.len() == 0 && notices.len() == 0
            &&& !left_out && !small ==> found.len() == 0 && notices.len() == 1
            &&& !left_out && small ==> notices.len() == 0
            &&& !left_out && small && file.bytes is Some && !file.bytes.unwrap()@.contains(0u8)
                ==> found == text_findings(
                crate::bytes::utf8_lossy(file.bytes.unwrap()@),
                config,
                file.path@,
            )
            &&& file.bytes is None || file.bytes.unwrap()@.contains(0u8) ==> found.len() == 0
        }),
{
    let none = files_findings(seq![file], 0, base, config, max_file_size);
    let silent = files_notices(seq![file], 0, base, config, max_file_size);
    assert(none.len() == 0 && silent.len() == 0);
    let here = file_findings(file, base, config, max_file_size);
    assert(none + here =~= here);
    assert(files_findings(seq![file], 1, base, config, max_file_size) == none + here);
    assert(seq![file][0] == file);
}

// ---------------------------------------------------------------------------
// What is left out
// ---------------------------------------------------------------------------

/// The excluded path leaves the path out: it is the path or a directory that it lies in, as seen from
/// the base; an absolute one is held against the canonical form. An empty one leaves nothing out.
pub open spec fn leaves_out(
    excluded: Seq<char>,
    base: Seq<PartView>,
    path: Seq<char>,
    canonical: Option<Seq<char>>,
) -> bool {
    excluded.len() > 0 && if excluded[0] == '/' {
        canonical is Some && path_parts(excluded).is_prefix_of(path_parts(canonical.unwrap()))
    } else if base.is_prefix_of(path_parts(path)) {
        path_parts(excluded).is_prefix_of(path_parts(path).skip(base.len() as int))
    } else {
        path_parts(excluded).is_prefix_of(path_parts(path))
    }
}

/// A path is left out exactly where any of the excluded ones, at whichever place in the list, leaves
/// it out.
pub proof fn every_exclusion_counts(
    config: SecretScanConfig,
    base: Seq<PartView>,
    path: Seq<char>,
    canonical: Option<Seq<char>>,
)
    ensures
        config.skips(base, path, canonical) <==> exists|i: int|
            0 <= i < config.excluded_paths@.len() && leaves_out(
                #[trigger] config.excluded_paths@[i]@,
                base,
                path,
                canonical,
            ),
{
    if config.skips(base, path, canonical) {
        let i = choose|i: int|
            0 <= i < config.excluded_paths@.len() && excluded_by(
                #[trigger] config.excluded_paths@[i]@,
                base,
                path,
                canonical,
            );
        assert(leaves_out(config.excluded_paths@[i]@, base, path, canonical));
    }
    if exists|i: int|
        0 <= i < config.excluded_paths@.len() && leaves_out(
            #[trigger] config.excluded_paths@[i]@,
            base,
            path,
            canonical,
        ) {
        let i = choose|i: int|
            0 <= i < config.excluded_paths@.len() && leaves_out(
                #[trigger] config.excluded_paths@[i]@,
                base,
                path,
                canonical,
            );
        assert(excluded_by(config.excluded_paths@[i]@, base, path, canonical));
    }
}

/// A listing file names a path on each line that is neither blank nor a comment, without the white
/// space around it: the first line is read as if it were alone, and the others as if it were not
/// there.
pub proof fn listings_are_read_line_by_line(first: Seq<char>, rest: Seq<char>)
    requires
        !first.contains('\n'),
    ensures
        listed_paths(first.push('\n') + rest) == (if trim_text(without_cr(first)).len() > 0
            && trim_text(without_cr(first))[0] != '#' {
            seq![trim_text(without_cr(first))]
        } else {
            Seq::empty()
        }) + listed_paths(rest),
{
    lines_end_at_line_feeds(first, rest);
    lemma_listed(seq![without_cr(first)], lines_of(rest));
    let p = |l: Seq<char>| names_path(l);
    let f = |l: Seq<char>| trim_text(l);
    let none = Seq::<Seq<char>>::empty();
    let line = without_cr(first);
    assert(none.filter(p).len() == 0) by {
        reveal(Seq::filter);
    }
    none.lemma_filter_push(line, p);
    assert(none.push(line) =~= seq![line]);
    if names_path(line) {
        assert(seq![line].filter(p).map_values(f) =~= seq![trim_text(line)]);
    } else {
        assert(seq![line].filter(p).map_values(f) =~= none);
    }
}

proof fn lemma_listed(a: Seq<Seq<char>>, b: Seq<Seq<char>>)
    ensures
        (a + b).filter(|l: Seq<char>| names_path(l)).map_values(|l: Seq<char>| trim_text(l))
            == a.filter(|l: Seq<char>| names_path(l)).map_values(|l: Seq<char>| trim_text(l))
            + b.filter(|l: Seq<char>| names_path(l)).map_values(|l: Seq<char>| trim_text(l)),
    decreases b.len(),
{
    let p = |l: Seq<char>| names_path(l);
    let f = |l: Seq<char>| trim_text(l);
    let x = a.filter(p).map_values(f);
    if b.len() == 0 {
        assert(a + b =~= a);
        assert(b.filter(p).len() == 0) by {
            reveal(Seq::filter);
        }
        assert(x + b.filter(p).map_values(f) =~= x);
    } else {
        let t = b.drop_last();
        let last = b.last();
        lemma_listed(a, t);
        assert(a + b =~= (a + t).push(last));
        assert(b =~= t.push(last));
        (a + t).lemma_filter_push(last, p);
        t.lemma_filter_push(last, p);
        if p(last) {
            let y = t.filter(p).map_values(f);
            assert((a + t).filter(p).push(last).map_values(f) =~= (a + t).filter(p).map_values(
                f,
            ).push(f(last)));
            assert(t.filter(p).push(last).map_values(f) =~= y.push(f(last)));
            assert((x + y).push(f(last)) =~= x + y.push(f(last)));
        }
    }
}

/// Findings of a rule are left out exactly where the rule is listed, at whichever place, by its whole
/// name.
pub proof fn only_listed_rules_are_ignored(config: SecretScanConfig, rule_id: Seq<char>)
    ensures
        config.ignores(rule_id) <==> exists|i: int|
            0 <= i < config.ignored_rules@.len() && (#[trigger] config.ignored_rules@[i])@ == rule_id,
{
    let all = texts(config.ignored_rules@);
    if all.contains(rule_id) {
        let i = choose|i: int| 0 <= i < all.len() && all[i] == rule_id;
        assert(config.ignored_rules@[i]@ == rule_id);
    }
    if exists|i: int|
        0 <= i < config.ignored_rules@.len() && (#[trigger] config.ignored_rules@[i])@ == rule_id {
        let i = choose|i: int|
            0 <= i < config.ignored_rules@.len() && (#[trigger] config.ignored_rules@[i])@
                == rule_id;
        assert(all[i] == rule_id);
    }
}

} // verus!
