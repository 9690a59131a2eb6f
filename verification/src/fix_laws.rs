//! How fixes change a text and how the change is shown: each edit replaces its range and nothing
//! else, and a difference goes on at the next line that both texts have.

use crate::bytes::lemma_encode_concat;
use crate::finding::FindingView;
use crate::fix::{
    added_lines, applicable, difference, edited, edited_text, files_to_fix, fixer_of, has_sink,
    hunk_at, in_scope, later_first, match_from, positions_in, removed_lines, replayed, window,
    DiffLineView, EditView, MATCH_WINDOW,
};
use crate::paths::{components_are_read_piece_by_piece, path_parts, plain_name, PartView};
use crate::sort::{insert_stable, stable_sort};
use vstd::prelude::*;
use vstd::utf8::{
    encode_utf8, encode_utf8_valid_utf8, is_char_boundary,
    is_char_boundary_iff_not_is_continuation_byte, is_char_boundary_start_end_of_seq,
};

verus! {

// ---------------------------------------------------------------------------
// The next common line
// ---------------------------------------------------------------------------

/// The lines `a` and `b` behind the given ones are the same, and are looked at.
pub open spec fn common_at(
    old_lines: Seq<Seq<char>>,
    new_lines: Seq<Seq<char>>,
    i: int,
    j: int,
    a: int,
    b: int,
) -> bool {
    &&& 0 <= a < MATCH_WINDOW && i + a < old_lines.len()
    &&& 0 <= b < MATCH_WINDOW && j + b < new_lines.len()
    &&& a > 0 || b > 0
    &&& old_lines[i + a] == new_lines[j + b]
}

/// The one pair of distances comes before the other: it is nearer in the old text, or as near there
/// and nearer in the new one.
pub open spec fn nearer(a: int, b: int, c: int, d: int) -> bool {
    a < c || a == c && b < d
}

proof fn lemma_match(
    old_lines: Seq<Seq<char>>,
    new_lines: Seq<Seq<char>>,
    i: int,
    j: int,
    di: int,
    dj: int,
    a: int,
    b: int,
)
    requires
        0 <= i <= old_lines.len(),
        0 <= j <= new_lines.len(),
        0 <= di,
        0 <= dj,
        !nearer(a, b, di, dj),
        common_at(old_lines, new_lines, i, j, a, b),
        forall|c: int, d: int| #[trigger]
            common_at(old_lines, new_lines, i, j, c, d) && nearer(c, d, a, b) ==> nearer(
                c,
                d,
                di,
                dj,
            ),
    ensures
        match_from(old_lines, new_lines, i, j, di, dj) == Some((i + a, j + b)),
    decreases a - di, window(new_lines.len() as int, j) - dj,
{
    if dj >= window(new_lines.len() as int, j) {
        assert(di < a);
        assert forall|c: int, d: int| #[trigger]
            common_at(old_lines, new_lines, i, j, c, d) && nearer(c, d, a, b) implies nearer(
            c,
            d,
            di + 1,
            0,
        ) by {}
        lemma_match(old_lines, new_lines, i, j, di + 1, 0, a, b);
    } else if di == a && dj == b {
    } else {
        assert(!common_at(old_lines, new_lines, i, j, di, dj)) by {
            if common_at(old_lines, new_lines, i, j, di, dj) {
                assert(nearer(di, dj, a, b));
            }
        }
        assert forall|c: int, d: int| #[trigger]
            common_at(old_lines, new_lines, i, j, c, d) && nearer(c, d, a, b) implies nearer(
            c,
            d,
            di,
            dj + 1,
        ) by {}
        lemma_match(old_lines, new_lines, i, j, di, dj + 1, a, b);
    }
}

/// The next common line is the nearest of those that are looked at: by its distance in the old text,
/// and then by that in the new one.
pub proof fn the_nearest_common_line_is_next(
    old_lines: Seq<Seq<char>>,
    new_lines: Seq<Seq<char>>,
    i: int,
    j: int,
    a: int,
    b: int,
)
    requires
        0 <= i <= old_lines.len(),
        0 <= j <= new_lines.len(),
        common_at(old_lines, new_lines, i, j, a, b),
        forall|c: int, d: int| #[trigger]
            common_at(old_lines, new_lines, i, j, c, d) ==> !nearer(c, d, a, b),
    ensures
        match_from(old_lines, new_lines, i, j, 0, 0) == Some((i + a, j + b)),
{
    lemma_match(old_lines, new_lines, i, j, 0, 0, a, b);
}

proof fn lemma_no_match(
    old_lines: Seq<Seq<char>>,
    new_lines: Seq<Seq<char>>,
    i: int,
    j: int,
    di: int,
    dj: int,
)
    requires
        0 <= i <= old_lines.len(),
        0 <= j <= new_lines.len(),
        0 <= di,
        0 <= dj,
        forall|c: int, d: int| !#[trigger] common_at(old_lines, new_lines, i, j, c, d),
    ensures
        match_from(old_lines, new_lines, i, j, di, dj) is None,
    decreases
            window(old_lines.len() as int, i) - di,
            window(new_lines.len() as int, j) - dj,
{
    if di < window(old_lines.len() as int, i) {
        if dj >= window(new_lines.len() as int, j) {
            lemma_no_match(old_lines, new_lines, i, j, di + 1, 0);
        } else {
            assert(!common_at(old_lines, new_lines, i, j, di, dj));
            lemma_no_match(old_lines, new_lines, i, j, di, dj + 1);
        }
    }
}

/// Where none of the lines that are looked at is in both texts, there is no next common line.
pub proof fn without_a_common_line_none_is_next(
    old_lines: Seq<Seq<char>>,
    new_lines: Seq<Seq<char>>,
    i: int,
    j: int,
)
    requires
        0 <= i <= old_lines.len(),
        0 <= j <= new_lines.len(),
        forall|c: int, d: int| !#[trigger] common_at(old_lines, new_lines, i, j, c, d),
    ensures
        match_from(old_lines, new_lines, i, j, 0, 0) is None,
{
    lemma_no_match(old_lines, new_lines, i, j, 0, 0);
}

// ---------------------------------------------------------------------------
// Differences
// ---------------------------------------------------------------------------

/// Lines that both texts begin with are kept, and the difference is that of the rest.
pub proof fn common_first_lines_are_kept(
    old_lines: Seq<Seq<char>>,
    new_lines: Seq<Seq<char>>,
    n: int,
)
    requires
        0 <= n <= old_lines.len(),
        n <= new_lines.len(),
        forall|k: int| 0 <= k < n ==> old_lines[k] == new_lines[k],
    ensures
        difference(old_lines, new_lines, 0, 0, false) == old_lines.take(n).map_values(
            |l: Seq<char>| DiffLineView::Kept { line: l, shown: false },
        ) + difference(old_lines, new_lines, n, n, false),
    decreases n,
{
    let kept = |l: Seq<char>| DiffLineView::Kept { line: l, shown: false };
    if n == 0 {
        assert(old_lines.take(0).map_values(kept) + difference(old_lines, new_lines, 0, 0, false)
            =~= difference(old_lines, new_lines, 0, 0, false));
    } else {
        common_first_lines_are_kept(old_lines, new_lines, n - 1);
        let rest = difference(old_lines, new_lines, n, n, false);
        assert(difference(old_lines, new_lines, n - 1, n - 1, false) == seq![
            DiffLineView::Kept { line: old_lines[n - 1], shown: false },
        ] + rest);
        assert(old_lines.take(n) =~= old_lines.take(n - 1).push(old_lines[n - 1]));
        assert(old_lines.take(n).map_values(kept) + rest =~= old_lines.take(n - 1).map_values(kept)
            + (seq![DiffLineView::Kept { line: old_lines[n - 1], shown: false }] + rest));
    }
}

/// A change goes as far as the nearest line that both texts have: its lines of the old text are
/// removed, those of the new text added, and then the difference goes on, with the line behind the
/// change shown.
pub proof fn changes_end_at_the_next_common_line(
    old_lines: Seq<Seq<char>>,
    new_lines: Seq<Seq<char>>,
    i: int,
    j: int,
    a: int,
    b: int,
)
    requires
        0 <= i < old_lines.len(),
        0 <= j < new_lines.len(),
        old_lines[i] != new_lines[j],
        common_at(old_lines, new_lines, i, j, a, b),
        forall|c: int, d: int| #[trigger]
            common_at(old_lines, new_lines, i, j, c, d) ==> !nearer(c, d, a, b),
    ensures
        difference(old_lines, new_lines, i, j, false) == seq![
            DiffLineView::Hunk {
                old_start: i,
                old_count: old_lines.len() - i,
                new_start: j,
                new_count: new_lines.len() - j,
            },
        ] + removed_lines(old_lines.subrange(i, i + a)) + added_lines(
            new_lines.subrange(j, j + b),
        ) + seq![DiffLineView::Kept { line: old_lines[i + a], shown: true }] + difference(
            old_lines,
            new_lines,
            i + a + 1,
            j + b + 1,
            false,
        ),
{
    the_nearest_common_line_is_next(old_lines, new_lines, i, j, a, b);
    let head = seq![hunk_at(old_lines.len() as int, new_lines.len() as int, i, j)] + removed_lines(
        old_lines.subrange(i, i + a),
    ) + added_lines(new_lines.subrange(j, j + b));
    let shown = seq![DiffLineView::Kept { line: old_lines[i + a], shown: true }];
    let rest = difference(old_lines, new_lines, i + a + 1, j + b + 1, false);
    assert(difference(old_lines, new_lines, i, j, false) == head + difference(
        old_lines,
        new_lines,
        i + a,
        j + b,
        true,
    ));
    assert(difference(old_lines, new_lines, i + a, j + b, true) == shown + rest);
    assert(head + (shown + rest) =~= head + shown + rest);
}

/// Without a line that both texts have the change goes to their ends: all that is left of the old
/// text is removed, and all that is left of the new one added.
pub proof fn last_changes_go_to_the_ends(
    old_lines: Seq<Seq<char>>,
    new_lines: Seq<Seq<char>>,
    i: int,
    j: int,
)
    requires
        0 <= i <= old_lines.len(),
        0 <= j <= new_lines.len(),
        i < old_lines.len() || j < new_lines.len(),
        i < old_lines.len() && j < new_lines.len() ==> old_lines[i] != new_lines[j],
        forall|c: int, d: int| !#[trigger] common_at(old_lines, new_lines, i, j, c, d),
    ensures
        difference(old_lines, new_lines, i, j, false).len() == 1 + (old_lines.len() - i) + (
        new_lines.len() - j),
        forall|k: int|
            0 <= k < old_lines.len() - i ==> #[trigger] difference(
                old_lines,
                new_lines,
                i,
                j,
                false,
            )[1 + k] == DiffLineView::Removed(old_lines[i + k]),
        forall|k: int|
            0 <= k < new_lines.len() - j ==> #[trigger] difference(
                old_lines,
                new_lines,
                i,
                j,
                false,
            )[1 + old_lines.len() - i + k] == DiffLineView::Added(new_lines[j + k]),
{
    without_a_common_line_none_is_next(old_lines, new_lines, i, j);
}

// ---------------------------------------------------------------------------
// Edits
// ---------------------------------------------------------------------------

proof fn lemma_boundary(a: Seq<char>, b: Seq<char>)
    ensures
        is_char_boundary(encode_utf8(a + b), encode_utf8(a).len() as int),
{
    let s = encode_utf8(a + b);
    let t = encode_utf8(b);
    let n = encode_utf8(a).len() as int;
    lemma_encode_concat(a, b);
    encode_utf8_valid_utf8(a + b);
    encode_utf8_valid_utf8(b);
    is_char_boundary_start_end_of_seq(s);
    is_char_boundary_start_end_of_seq(t);
    if t.len() > 0 {
        is_char_boundary_iff_not_is_continuation_byte(t, 0);
        is_char_boundary_iff_not_is_continuation_byte(s, n);
        assert(s[n] == t[0]);
    }
}

/// The edit that replaces what stands behind `a`, which is `x`, by `r`.
pub open spec fn edit_behind(a: Seq<char>, x: Seq<char>, r: Seq<char>) -> EditView {
    EditView {
        start: encode_utf8(a).len() as int,
        end: encode_utf8(a + x).len() as int,
        replacement: r,
    }
}

proof fn lemma_one_edit(a: Seq<char>, x: Seq<char>, b: Seq<char>, r: Seq<char>)
    ensures
        applicable(encode_utf8(a + x + b), edit_behind(a, x, r)),
        edited(encode_utf8(a + x + b), edit_behind(a, x, r)) == encode_utf8(a + r + b),
{
    let s = encode_utf8(a + x + b);
    lemma_boundary(a + x, b);
    assert(a + x + b =~= a + (x + b));
    lemma_boundary(a, x + b);
    lemma_encode_concat(a + x, b);
    lemma_encode_concat(a, x);
    lemma_encode_concat(a + r, b);
    lemma_encode_concat(a, r);
    let n = encode_utf8(a).len() as int;
    let m = encode_utf8(a + x).len() as int;
    assert(s.take(n) =~= encode_utf8(a));
    assert(s.skip(m) =~= encode_utf8(b));
}

/// An edit replaces its range, and what stands before and behind it stays.
pub proof fn an_edit_replaces_its_range(a: Seq<char>, x: Seq<char>, b: Seq<char>, r: Seq<char>)
    ensures
        edited_text(a + x + b, seq![edit_behind(a, x, r)]) == Some(encode_utf8(a + r + b)),
{
    let e = edit_behind(a, x, r);
    let edits = seq![e];
    lemma_one_edit(a, x, b, r);
    assert(edits.drop_last() =~= Seq::<EditView>::empty());
    reveal_with_fuel(stable_sort, 3);
    reveal_with_fuel(insert_stable, 3);
    assert(stable_sort(edits, later_first()) =~= seq![e]);
    reveal_with_fuel(replayed, 3);
}

/// Two edits that lie apart are both applied, each where its range stood, in whichever order they
/// come.
pub proof fn edits_that_lie_apart_are_both_applied(
    a: Seq<char>,
    x: Seq<char>,
    b: Seq<char>,
    y: Seq<char>,
    c: Seq<char>,
    r: Seq<char>,
    s: Seq<char>,
)
    requires
        (x + b).len() > 0,
    ensures
        edited_text(
            a + x + b + y + c,
            seq![edit_behind(a, x, r), edit_behind(a + x + b, y, s)],
        ) == Some(encode_utf8(a + r + b + s + c)),
        edited_text(
            a + x + b + y + c,
            seq![edit_behind(a + x + b, y, s), edit_behind(a, x, r)],
        ) == Some(encode_utf8(a + r + b + s + c)),
{
    let e = edit_behind(a, x, r);
    let f = edit_behind(a + x + b, y, s);
    let source = a + x + b + y + c;
    lemma_one_edit(a + x + b, y, c, s);
    lemma_one_edit(a, x, b + s + c, r);
    assert(a + x + b + s + c =~= a + x + (b + s + c));
    assert(a + r + b + s + c =~= a + r + (b + s + c));
    lemma_encode_concat(a + x, b);
    lemma_encode_concat(a, x + b);
    assert(a + x + b =~= a + (x + b));
    lemma_encode_some(x + b);
    assert(e.start < f.start);
    assert(e.end <= f.start);
    lemma_sorted_pair(e, f);
    let bytes = encode_utf8(source);
    let order = seq![f, e];
    let none = Seq::<EditView>::empty();
    let once = edited(bytes, f);
    assert(!none.push(f).contains(e)) by {
        assert(none.push(f) =~= seq![f]);
    }
    assert(none.push(f).last() == f);
    assert(replayed(edited(once, e), none.push(f).push(e), order, 2) == Some(edited(once, e)));
    assert(replayed(once, none.push(f), order, 1) == Some(edited(once, e)));
    assert(replayed(bytes, none, order, 0) == Some(edited(once, e)));
}

proof fn lemma_encode_some(s: Seq<char>)
    requires
        s.len() > 0,
    ensures
        encode_utf8(s).len() > 0,
{
}

proof fn lemma_sorted_pair(e: EditView, f: EditView)
    requires
        e.start < f.start,
    ensures
        stable_sort(seq![e, f], later_first()) == seq![f, e],
        stable_sort(seq![f, e], later_first()) == seq![f, e],
{
    reveal_with_fuel(stable_sort, 4);
    reveal_with_fuel(insert_stable, 4);
    assert(seq![e, f].drop_last() =~= seq![e]);
    assert(seq![f, e].drop_last() =~= seq![f]);
    assert(seq![e].drop_last() =~= Seq::<EditView>::empty());
    assert(seq![f].drop_last() =~= Seq::<EditView>::empty());
    assert(stable_sort(seq![e], later_first()) =~= seq![e]);
    assert(stable_sort(seq![f], later_first()) =~= seq![f]);
    assert(insert_stable(Seq::empty(), f, later_first()) =~= seq![f]);
    assert(stable_sort(seq![e, f], later_first()) =~= seq![f, e]);
    assert(stable_sort(seq![f, e], later_first()) =~= seq![f, e]);
}

// ---------------------------------------------------------------------------
// Files to fix
// ---------------------------------------------------------------------------

/// The files to fix are those of the findings that say where their sink is, all of them, each once.
pub proof fn files_with_a_known_sink_are_fixed(findings: Seq<FindingView>, n: int, file: Seq<char>)
    requires
        0 <= n <= findings.len(),
    ensures
        files_to_fix(findings, n).contains(file) <==> exists|i: int|
            0 <= i < n && has_sink(#[trigger] findings[i]) && findings[i].file == file,
        files_to_fix(findings, n).no_duplicates(),
    decreases n,
{
    if n > 0 {
        files_with_a_known_sink_are_fixed(findings, n - 1, file);
        let before = files_to_fix(findings, n - 1);
        let now = files_to_fix(findings, n);
        let f = findings[n - 1];
        if now.contains(file) {
            let k = choose|k: int| 0 <= k < now.len() && now[k] == file;
            if k < before.len() {
                assert(before[k] == file);
            } else {
                assert(has_sink(findings[n - 1]) && findings[n - 1].file == file);
            }
        }
        if before.contains(file) {
            let k = choose|k: int| 0 <= k < before.len() && before[k] == file;
            assert(now[k] == file);
        }
        if has_sink(f) && f.file == file && !before.contains(file) {
            assert(now[before.len() as int] == file);
        }
        if exists|i: int| 0 <= i < n && has_sink(#[trigger] findings[i]) && findings[i].file == file {
            let i = choose|i: int|
                0 <= i < n && has_sink(#[trigger] findings[i]) && findings[i].file == file;
            if i < n - 1 {
                assert(has_sink(findings[i]));
            }
        }
    }
}

/// In a file the findings to fix are those that say where their sink is, in their order.
pub proof fn findings_with_a_known_sink_are_fixed(
    findings: Seq<FindingView>,
    file: Seq<char>,
    n: int,
)
    requires
        0 <= n <= findings.len(),
    ensures
        positions_in(findings, file, n) == Seq::new(n as nat, |i: int| i).filter(
            |i: int| has_sink(findings[i]) && findings[i].file == file,
        ),
    decreases n,
{
    let p = |i: int| has_sink(findings[i]) && findings[i].file == file;
    let all = Seq::new(n as nat, |i: int| i);
    if n == 0 {
        reveal(Seq::filter);
        assert(positions_in(findings, file, 0) =~= all.filter(p));
    } else {
        findings_with_a_known_sink_are_fixed(findings, file, n - 1);
        let t = Seq::new((n - 1) as nat, |i: int| i);
        assert(all =~= t.push(n - 1));
        t.lemma_filter_push(n - 1, p);
    }
}

/// A fix stays within what was scanned: a file below the scanned directory, at whatever depth, may be
/// changed, and so may the scanned file; a name that the directory's only begins with is another.
pub proof fn fixes_stay_within_what_was_scanned(root: Seq<char>, dir: Seq<char>, name: Seq<char>)
    requires
        root.len() > 0,
        dir.len() > 0,
        plain_name(name),
    ensures
        in_scope(false, root, root.push('/') + name),
        in_scope(false, root, dir) ==> in_scope(false, root, dir.push('/') + name),
        in_scope(true, root, root),
        !in_scope(true, root, root.push('/') + name),
{
    components_are_read_piece_by_piece(root, name);
    components_are_read_piece_by_piece(dir, name);
    let r = path_parts(root);
    let below = r.push(PartView::Name(name));
    let d = path_parts(dir);
    let further = d.push(PartView::Name(name));
    assert(r =~= below.subrange(0, r.len() as int));
    assert(below.len() == r.len() + 1);
    if r.is_prefix_of(d) {
        assert(r =~= d.subrange(0, r.len() as int));
        assert(r =~= further.subrange(0, r.len() as int));
    }
}

/// Findings are fixed in the language that their rule is about.
pub proof fn rules_are_fixed_in_their_language(rule_id: Seq<char>)
    ensures
        fixer_of(rule_id) matches Some(f) ==> {
            &&& "py/"@.is_prefix_of(rule_id) <==> (f is PythonSqlInjection
                || f is PythonCommandInjection)
            &&& "go/"@.is_prefix_of(rule_id) <==> (f is GoSqlInjection || f is GoCommandInjection)
            &&& "js/"@.is_prefix_of(rule_id) <==> (f is JavaScriptSqlInjection
                || f is JavaScriptCommandInjection || f is JavaScriptXss)
        },
{
    reveal_strlit("py/");
    reveal_strlit("go/");
    reveal_strlit("js/");
    reveal_strlit("py/taint-sql-injection");
    reveal_strlit("js/taint-sql-injection");
    reveal_strlit("go/taint-sql-injection");
    reveal_strlit("py/taint-command-injection");
    reveal_strlit("js/taint-command-injection");
    reveal_strlit("go/taint-command-injection");
    reveal_strlit("js/taint-xss-innerhtml");
    if fixer_of(rule_id) is Some {
        lemma_begins(rule_id, "py/"@);
        lemma_begins(rule_id, "go/"@);
        lemma_begins(rule_id, "js/"@);
    }
}

proof fn lemma_begins(s: Seq<char>, p: Seq<char>)
    requires
        p.len() == 3,
        s.len() >= 3,
    ensures
        p.is_prefix_of(s) <==> s[0] == p[0] && s[1] == p[1] && s[2] == p[2],
{
    if s[0] == p[0] && s[1] == p[1] && s[2] == p[2] {
        assert(p =~= s.subrange(0, 3));
    }
}

/// A finding says where its sink is where it gives both of its ends.
pub proof fn sinks_have_both_ends(f: FindingView)
    ensures
        has_sink(f) <==> f.sink_start_byte is Some && f.sink_end_byte is Some,
{
}

} // verus!
