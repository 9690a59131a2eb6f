//! What is told of a change and shown on it: which lines a patch adds, which findings stand on them,
//! and that each of these is named.

use crate::finding::{FindingView, Severity};
use crate::github_app::requests::gained_lines;
use crate::github_app::review::{
    added_lines, annotation_findings, annotations_of, changed_lines_of, finding_entries,
    finding_entry, first_plus, hunk_start, label_of, location_text, patch_position, percent_encoded,
    review_text, severity_count, summary_only, touches, unreserved, wrapped, ChangedFile,
    SourceRevision, COMMENT_MARKER,
};
use crate::text::{
    contains_text, decimal, digits_read_back, is_digit, is_space, lines_of, occurs_at, split_text,
    words_of, Spacing,
};
use crate::text_laws::{
    splitting_cuts_at_each_separator, trimming_a_character_takes_all_of_it,
    words_stand_between_separators, written_numbers_are_read,
};
use vstd::prelude::*;

verus! {

// ---------------------------------------------------------------------------
// Patches
// ---------------------------------------------------------------------------

/// The line adds something.
pub open spec fn is_addition(line: Seq<char>) -> bool {
    line.len() > 0 && line[0] == '+'
}

/// The line stands in the new file: it is added, or it was there before.
pub open spec fn is_in_new_file(line: Seq<char>) -> bool {
    line.len() > 0 && (line[0] == '+' || line[0] == ' ')
}

/// How many lines of the new file stand in the patch from `from` to `to`.
pub open spec fn new_lines_between(patch: Seq<Seq<char>>, from: int, to: int) -> nat {
    patch.subrange(from, to).filter(|l: Seq<char>| is_in_new_file(l)).len()
}

/// The line at `k` is added, in the hunk whose header is the line at `h` and starts at `start`.
pub open spec fn adds_in_hunk(patch: Seq<Seq<char>>, h: int, k: int, start: nat) -> bool {
    &&& 0 <= h < k < patch.len()
    &&& hunk_start(patch[h]) == Some(start)
    &&& forall|m: int| h < m <= k ==> hunk_start(#[trigger] patch[m]) is None
    &&& is_addition(patch[k])
}

proof fn lemma_position_in_hunk(patch: Seq<Seq<char>>, h: int, k: int, start: nat)
    requires
        0 <= h < k <= patch.len(),
        hunk_start(patch[h]) == Some(start),
        forall|m: int| h < m < k ==> hunk_start(#[trigger] patch[m]) is None,
    ensures
        patch_position(patch, k) == Some((start + new_lines_between(patch, h + 1, k)) as nat),
    decreases k - h,
{
    let p = |l: Seq<char>| is_in_new_file(l);
    if k == h + 1 {
        reveal(Seq::filter);
        assert(patch.subrange(k, k).filter(p).len() == 0);
    } else {
        lemma_position_in_hunk(patch, h, k - 1, start);
        assert(patch.subrange(h + 1, k) =~= patch.subrange(h + 1, k - 1).push(patch[k - 1]));
        patch.subrange(h + 1, k - 1).lemma_filter_push(patch[k - 1], p);
        assert(hunk_start(patch[k - 1]) is None);
    }
}

proof fn lemma_position_has_header(patch: Seq<Seq<char>>, n: int) -> (h: int)
    requires
        0 <= n <= patch.len(),
        patch_position(patch, n) is Some,
    ensures
        0 <= h < n,
        hunk_start(patch[h]) is Some,
        forall|m: int| h < m < n ==> hunk_start(#[trigger] patch[m]) is None,
    decreases n,
{
    if hunk_start(patch[n - 1]) is Some {
        n - 1
    } else {
        lemma_position_has_header(patch, n - 1)
    }
}

proof fn lemma_added_grow(patch: Seq<Seq<char>>, n: int, m: int, x: nat)
    requires
        0 <= n <= m <= patch.len(),
        added_lines(patch, n).contains(x),
    ensures
        added_lines(patch, m).contains(x),
    decreases m - n,
{
    if n < m {
        lemma_added_grow(patch, n, m - 1, x);
        let before = added_lines(patch, m - 1);
        let k = choose|k: int| 0 <= k < before.len() && before[k] == x;
        assert(added_lines(patch, m)[k] == x);
    }
}

/// Every hunk header starts the count anew: a line that is added in a hunk has the number at which
/// the hunk starts, and one more for each line of the new file between the header and it, whatever
/// stands before the header.
pub proof fn every_hunk_starts_the_count_anew(patch: Seq<Seq<char>>, h: int, k: int, start: nat)
    requires
        adds_in_hunk(patch, h, k, start),
    ensures
        added_lines(patch, patch.len() as int).contains(
            (start + new_lines_between(patch, h + 1, k)) as nat,
        ),
{
    lemma_position_in_hunk(patch, h, k, start);
    let x = (start + new_lines_between(patch, h + 1, k)) as nat;
    let now = added_lines(patch, k + 1);
    assert(hunk_start(patch[k]) is None);
    assert(now == added_lines(patch, k).push(x));
    assert(now[now.len() - 1] == x);
    lemma_added_grow(patch, k + 1, patch.len() as int, x);
}

proof fn lemma_added_in_hunk(patch: Seq<Seq<char>>, n: int, x: nat) -> (r: (int, int, nat))
    requires
        0 <= n <= patch.len(),
        added_lines(patch, n).contains(x),
    ensures
        adds_in_hunk(patch, r.0, r.1, r.2),
        r.1 < n,
        x == r.2 + new_lines_between(patch, r.0 + 1, r.1),
    decreases n,
{
    let before = added_lines(patch, n - 1);
    let now = added_lines(patch, n);
    let k = choose|k: int| 0 <= k < now.len() && now[k] == x;
    if k < before.len() {
        assert(before[k] == x);
        assert(before.contains(x));
        lemma_added_in_hunk(patch, n - 1, x)
    } else {
        let h = lemma_position_has_header(patch, n - 1);
        let start = hunk_start(patch[h]).unwrap();
        lemma_position_in_hunk(patch, h, n - 1, start);
        (h, n - 1, start)
    }
}

/// Nothing else is added: each number is that of a line which some hunk adds.
pub proof fn only_lines_of_hunks_are_added(patch: Seq<Seq<char>>, x: nat)
    requires
        added_lines(patch, patch.len() as int).contains(x),
    ensures
        exists|h: int, k: int, start: nat|
            #[trigger] adds_in_hunk(patch, h, k, start) && x == start + new_lines_between(
                patch,
                h + 1,
                k,
            ),
{
    let r = lemma_added_in_hunk(patch, patch.len() as int, x);
    assert(adds_in_hunk(patch, r.0, r.1, r.2));
}

proof fn lemma_patch_prefix(a: Seq<Seq<char>>, b: Seq<Seq<char>>, n: int)
    requires
        0 <= n <= a.len(),
        n <= b.len(),
        forall|i: int| 0 <= i < n ==> a[i] == b[i],
    ensures
        patch_position(a, n) == patch_position(b, n),
        added_lines(a, n) == added_lines(b, n),
    decreases n,
{
    if n > 0 {
        lemma_patch_prefix(a, b, n - 1);
    }
}

/// Hunks add their lines one after the other, and apart from each other: what a patch adds is what
/// its hunks up to some header add, and then what those from that header on add.
pub proof fn hunks_add_one_after_the_other(a: Seq<Seq<char>>, b: Seq<Seq<char>>)
    requires
        b.len() > 0 ==> hunk_start(b[0]) is Some,
    ensures
        added_lines(a + b, (a + b).len() as int) == added_lines(a, a.len() as int) + added_lines(
            b,
            b.len() as int,
        ),
        b.len() > 0 ==> patch_position(a + b, (a + b).len() as int) == patch_position(
            b,
            b.len() as int,
        ),
    decreases b.len(),
{
    let n = a.len() as int;
    let m = b.len() as int;
    if m == 0 {
        assert(a + b =~= a);
        assert(added_lines(a, n) + added_lines(b, 0) =~= added_lines(a, n));
    } else {
        let t = b.drop_last();
        if m > 1 {
            assert(t[0] == b[0]);
        }
        hunks_add_one_after_the_other(a, t);
        lemma_patch_prefix(a + t, a + b, n + m - 1);
        lemma_patch_prefix(t, b, m - 1);
        assert((a + b)[n + m - 1] == b[m - 1]);
        let x = added_lines(a, n);
        let y = added_lines(t, m - 1);
        if m == 1 {
            assert(t =~= Seq::<Seq<char>>::empty());
        } else {
            match patch_position(t, m - 1) {
                Some(at) => {
                    assert((x + y).push(at) =~= x + y.push(at));
                },
                None => {},
            }
        }
    }
}

/// In one hunk there are as many added lines as lines that begin with a plus sign, with ascending
/// numbers; before the first header nothing is added.
pub proof fn a_hunk_adds_its_plus_lines(header: Seq<char>, body: Seq<Seq<char>>)
    requires
        forall|i: int| 0 <= i < body.len() ==> hunk_start(#[trigger] body[i]) is None,
    ensures
        hunk_start(header) is Some ==> added_lines(seq![header] + body, body.len() as int + 1).len()
            == body.filter(|l: Seq<char>| is_addition(l)).len(),
        hunk_start(header) is Some ==> forall|i: int, j: int|
            0 <= i < j < added_lines(seq![header] + body, body.len() as int + 1).len() ==> (
            #[trigger] added_lines(seq![header] + body, body.len() as int + 1)[i]) < (
            #[trigger] added_lines(seq![header] + body, body.len() as int + 1)[j]),
        added_lines(body, body.len() as int).len() == 0,
        patch_position(body, body.len() as int) is None,
    decreases body.len(),
{
    let p = |l: Seq<char>| is_addition(l);
    let whole = seq![header] + body;
    let n = body.len() as int;
    if n == 0 {
        reveal(Seq::filter);
        assert(body.filter(p).len() == 0);
        assert(patch_position(whole, 0) is None);
        assert(added_lines(whole, 1) =~= added_lines(whole, 0));
    } else {
        let t = body.drop_last();
        assert forall|i: int| 0 <= i < t.len() implies hunk_start(#[trigger] t[i]) is None by {
            assert(t[i] == body[i]);
        }
        a_hunk_adds_its_plus_lines(header, t);
        lemma_patch_prefix(seq![header] + t, whole, n);
        lemma_patch_prefix(t, body, n - 1);
        assert(body =~= t.push(body[n - 1]));
        t.lemma_filter_push(body[n - 1], p);
        assert(whole[n] == body[n - 1]);
        assert(hunk_start(body[n - 1]) is None);
        if hunk_start(header) is Some {
            let start = hunk_start(header).unwrap();
            assert(whole[0] == header);
            assert forall|m: int| 0 < m < n + 1 implies hunk_start(#[trigger] whole[m]) is None by {
                assert(whole[m] == body[m - 1]);
            }
            lemma_position_in_hunk(whole, 0, n, start);
            let before = added_lines(whole, n);
            let now = added_lines(whole, n + 1);
            lemma_added_below(whole, n);
            assert forall|i: int, j: int| 0 <= i < j < now.len() implies (#[trigger] now[i]) < (
            #[trigger] now[j]) by {
                assert(now[i] == before[i]);
                if j < before.len() {
                    assert(now[j] == before[j]);
                }
            }
        }
    }
}

proof fn lemma_added_below(patch: Seq<Seq<char>>, n: int)
    requires
        0 < n <= patch.len(),
        hunk_start(patch[0]) is Some,
        forall|m: int| 0 < m < n ==> hunk_start(#[trigger] patch[m]) is None,
    ensures
        patch_position(patch, n) is Some,
        forall|i: int|
            0 <= i < added_lines(patch, n).len() ==> (#[trigger] added_lines(patch, n)[i])
                < patch_position(patch, n).unwrap(),
    decreases n,
{
    if n > 1 {
        lemma_added_below(patch, n - 1);
        assert(hunk_start(patch[n - 1]) is None);
        let before = added_lines(patch, n - 1);
        let now = added_lines(patch, n);
        assert forall|i: int| 0 <= i < now.len() implies (#[trigger] now[i]) < patch_position(
            patch,
            n,
        ).unwrap() by {
            if i < before.len() {
                assert(now[i] == before[i]);
            }
        }
    } else {
        assert(patch_position(patch, 0) is None);
        assert(added_lines(patch, 1) == added_lines(patch, 0));
    }
}

/// The header of a hunk names, behind a plus sign, the line of the new file at which it starts; how
/// many lines follow, and what else stands in the header, does not matter. Other lines are no
/// headers.
pub proof fn headers_name_the_new_start(
    old_range: Seq<char>,
    start: nat,
    rest: Seq<char>,
    other: Seq<char>,
)
    requires
        old_range.len() > 0,
        old_range[0] != '+',
        forall|i: int| 0 <= i < old_range.len() ==> !is_space(#[trigger] old_range[i]),
        start <= usize::MAX,
        rest.len() == 0 || rest[0] == ',' || is_space(rest[0]),
    ensures
        hunk_start("@@ "@ + (old_range.push(' ') + (seq!['+'] + decimal(start) + rest))) == Some(
            start,
        ),
        !"@@ "@.is_prefix_of(other) ==> hunk_start(other) is None,
{
    let digits = decimal(start);
    let tail = seq!['+'] + digits + rest;
    let hunk = old_range.push(' ') + tail;
    let line = "@@ "@ + hunk;
    assert("@@ "@.is_prefix_of(line));
    assert(line.skip("@@ "@.len() as int) =~= hunk);
    words_stand_between_separators(old_range, ' ', tail, Spacing::Unicode);
    assert forall|i: int| 0 <= i < old_range.len() implies !Spacing::Unicode.separates(
        #[trigger] old_range[i],
    ) by {
        assert(!is_space(old_range[i]));
    }
    let i = lemma_first_space(rest, 0);
    let extra = rest.take(i);
    let word = seq!['+'] + digits + extra;
    digits_read_back(start);
    assert forall|k: int| 0 <= k < word.len() implies !Spacing::Unicode.separates(
        #[trigger] word[k],
    ) by {
        if 0 < k <= digits.len() {
            assert(word[k] == digits[k - 1]);
            assert(is_digit(digits[k - 1]));
        } else if k > digits.len() {
            assert(word[k] == rest[k - 1 - digits.len()]);
        }
    }
    let words = words_of(hunk, Spacing::Unicode);
    if i == rest.len() {
        assert(extra =~= rest);
        words_stand_between_separators(word, ' ', Seq::empty(), Spacing::Unicode);
        assert(words =~= seq![old_range] + seq![word]);
    } else {
        let behind = rest.skip(i + 1);
        assert(tail =~= word.push(rest[i]) + behind);
        words_stand_between_separators(word, rest[i], behind, Spacing::Unicode);
        assert(words =~= seq![old_range] + (seq![word] + words_of(behind, Spacing::Unicode)));
    }
    assert(words[0] == old_range && words[1] == word);
    assert(first_plus(words, 1) == Some(word));
    assert(first_plus(words, 0) == Some(word));
    let plain = digits + extra;
    assert(is_digit(digits[0]));
    assert(plain.first() == digits[0]);
    trimming_a_character_takes_all_of_it(seq!['+'], plain, '+');
    assert(word =~= seq!['+'] + plain);
    assert(!digits.contains(',')) by {
        assert forall|k: int| 0 <= k < digits.len() implies digits[k] != ',' by {
            assert(is_digit(digits[k]));
        }
    }
    if extra.len() == 0 {
        assert(plain =~= digits);
        splitting_cuts_at_each_separator(digits, Seq::empty(), ',');
    } else {
        assert(extra[0] == rest[0]);
        let behind = extra.skip(1);
        assert(plain =~= digits.push(',') + behind);
        splitting_cuts_at_each_separator(digits, behind, ',');
        assert(split_text(plain, ',')[0] == digits);
    }
    written_numbers_are_read(start, usize::MAX as nat, digits);
}

proof fn lemma_first_space(s: Seq<char>, i: int) -> (k: int)
    requires
        0 <= i <= s.len(),
    ensures
        i <= k <= s.len(),
        forall|j: int| i <= j < k ==> !is_space(#[trigger] s[j]),
        k < s.len() ==> is_space(s[k]),
    decreases s.len() - i,
{
    if i == s.len() || is_space(s[i]) {
        i
    } else {
        lemma_first_space(s, i + 1)
    }
}

// ---------------------------------------------------------------------------
// Findings on changed lines
// ---------------------------------------------------------------------------

proof fn lemma_changed_lines(changed: Seq<ChangedFile>, file: Seq<char>, k: int)
    requires
        -1 <= k < changed.len(),
        k >= 0 ==> changed[k].file@ == file,
        forall|i: int| k < i < changed.len() ==> (#[trigger] changed[i]).file@ != file,
    ensures
        k >= 0 ==> changed_lines_of(changed, file) == Some(changed[k].lines@),
        k < 0 ==> changed_lines_of(changed, file) is None,
    decreases changed.len(),
{
    if changed.len() > 0 && k < changed.len() - 1 {
        assert(changed[changed.len() - 1].file@ != file);
        let t = changed.drop_last();
        assert forall|i: int| k < i < t.len() implies (#[trigger] t[i]).file@ != file by {
            assert(t[i] == changed[i]);
        }
        lemma_changed_lines(t, file, k);
    }
}

/// A finding touches a change exactly where its file changed and its line is one that was added, or
/// it names no line. Of several entries for a file the last counts.
pub proof fn findings_touch_the_lines_that_were_added(
    changed: Seq<ChangedFile>,
    f: FindingView,
    k: int,
)
    requires
        -1 <= k < changed.len(),
        k >= 0 ==> changed[k].file@ == f.file,
        forall|i: int| k < i < changed.len() ==> (#[trigger] changed[i]).file@ != f.file,
    ensures
        k >= 0 ==> touches(changed)(f) == (f.line == 0 || changed[k].lines@.contains(f.line)),
        k < 0 ==> !touches(changed)(f),
{
    lemma_changed_lines(changed, f.file, k);
}

/// Whichever findings there are, one that touches the change is shown, and no other: how often a
/// finding is shown is how often it was found.
pub proof fn findings_on_added_lines_are_shown(
    findings: Seq<FindingView>,
    changed: Seq<ChangedFile>,
    f: FindingView,
)
    ensures
        findings.filter(touches(changed)).to_multiset().count(f) == if touches(changed)(f) {
            findings.to_multiset().count(f)
        } else {
            0
        },
    decreases findings.len(),
{
    broadcast use vstd::seq_lib::group_to_multiset_ensures;

    let p = touches(changed);
    if findings.len() > 0 {
        let t = findings.drop_last();
        findings_on_added_lines_are_shown(t, changed, f);
        t.lemma_filter_push(findings.last(), p);
        assert(findings =~= t.push(findings.last()));
    } else {
        reveal(Seq::filter);
        assert(findings.filter(p) =~= findings);
        assert(findings =~= Seq::<FindingView>::empty());
    }
}

// ---------------------------------------------------------------------------
// What is shown
// ---------------------------------------------------------------------------

proof fn lemma_contains_itself(m: Seq<char>)
    ensures
        contains_text(m, m),
{
    assert(m.subrange(0, m.len() as int) =~= m);
    assert(occurs_at(m, m, 0));
}

proof fn lemma_contains_around(a: Seq<char>, s: Seq<char>, b: Seq<char>, m: Seq<char>)
    requires
        contains_text(s, m),
    ensures
        contains_text(a + s, m),
        contains_text(s + b, m),
{
    let i = choose|i: int| occurs_at(s, m, i);
    assert((a + s).subrange(a.len() + i, a.len() + i + m.len()) =~= s.subrange(i, i + m.len()));
    assert(occurs_at(a + s, m, a.len() + i));
    assert((s + b).subrange(i, i + m.len()) =~= s.subrange(i, i + m.len()));
    assert(occurs_at(s + b, m, i));
}

proof fn lemma_entries_contain(
    findings: Seq<FindingView>,
    source: SourceRevision,
    n: int,
    i: int,
    e: Seq<char>,
)
    requires
        0 <= i < n <= findings.len(),
        e == finding_entry(findings[i], source),
    ensures
        contains_text(finding_entries(findings, source, n), e),
    decreases n,
{
    let before = finding_entries(findings, source, n - 1);
    let last = finding_entry(findings[n - 1], source);
    if i == n - 1 {
        lemma_contains_itself(e);
        lemma_contains_around(before, e, Seq::empty(), e);
    } else {
        lemma_entries_contain(findings, source, n - 1, i, e);
        lemma_contains_around(Seq::empty(), before, last, e);
    }
}

proof fn lemma_entries_len(findings: Seq<FindingView>, source: SourceRevision, n: int, m: int)
    requires
        0 <= n <= m <= findings.len(),
    ensures
        finding_entries(findings, source, n).is_prefix_of(finding_entries(findings, source, m)),
    decreases m - n,
{
    let u = finding_entries(findings, source, n);
    let v = finding_entries(findings, source, m);
    if n < m {
        lemma_entries_len(findings, source, n, m - 1);
        lemma_prefix_grows(
            u,
            finding_entries(findings, source, m - 1),
            finding_entry(findings[m - 1], source),
        );
    } else {
        assert(u =~= v.subrange(0, u.len() as int));
    }
}

proof fn lemma_prefix_grows(u: Seq<char>, v: Seq<char>, e: Seq<char>)
    requires
        u.is_prefix_of(v),
    ensures
        u.is_prefix_of(v + e),
{
    assert((v + e).subrange(0, u.len() as int) =~= v.subrange(0, u.len() as int));
}

/// The message of a review holds the entry of each of its findings, and the entries stand in the
/// order of the findings.
pub proof fn reviews_hold_every_finding(findings: Seq<FindingView>, source: SourceRevision, i: int)
    requires
        0 <= i < findings.len(),
    ensures
        contains_text(review_text(findings, source), finding_entry(findings[i], source)),
        (finding_entries(findings, source, i) + finding_entry(findings[i], source)).is_prefix_of(
            finding_entries(findings, source, findings.len() as int),
        ),
{
    let e = finding_entry(findings[i], source);
    let all = finding_entries(findings, source, findings.len() as int);
    lemma_entries_contain(findings, source, findings.len() as int, i, e);
    lemma_entries_len(findings, source, i + 1, findings.len() as int);
    lemma_contains_around(
        COMMENT_MARKER@ + "\n\n**foxguard** found "@ + decimal(findings.len())
            + " issue(s) in this PR"@ + "\n\n**By severity**\n- `CRITICAL`: "@ + decimal(
            severity_count(findings, Severity::Critical),
        ) + "\n- `HIGH`: "@ + decimal(severity_count(findings, Severity::High))
            + "\n- `MEDIUM`: "@ + decimal(severity_count(findings, Severity::Medium))
            + "\n- `LOW`: "@ + decimal(severity_count(findings, Severity::Low))
            + "\n\n**Findings**"@,
        all,
        Seq::empty(),
        e,
    );
}

/// The entry of a finding holds its rule, its place and its description.
pub proof fn entries_name_rule_place_and_description(f: FindingView, source: SourceRevision)
    ensures
        contains_text(finding_entry(f, source), f.rule_id),
        contains_text(finding_entry(f, source), location_text(f, source)),
        contains_text(finding_entry(f, source), f.description),
{
    let none = Seq::<char>::empty();
    let to_rule = "\n- **"@ + label_of(f.severity) + "** `"@;
    let cwe = wrapped(" ("@, f.cwe, ")"@);
    let advisory = wrapped(" ("@, f.dep_vulnerability_id, ")"@);
    let place = location_text(f, source);
    let fix = wrapped("\n  - **Fix:** "@, f.fix_suggestion, ""@);
    let s1 = to_rule + f.rule_id;
    let s2 = s1 + "`"@;
    let s3 = s2 + cwe;
    let s4 = s3 + advisory;
    let s5 = s4 + " at "@;
    let s6 = s5 + place;
    let s7 = s6 + " — "@;
    let s8 = s7 + f.description;
    lemma_contains_itself(f.rule_id);
    lemma_contains_itself(place);
    lemma_contains_itself(f.description);
    lemma_contains_around(to_rule, f.rule_id, none, f.rule_id);
    lemma_contains_around(none, s1, "`"@, f.rule_id);
    lemma_contains_around(none, s2, cwe, f.rule_id);
    lemma_contains_around(none, s3, advisory, f.rule_id);
    lemma_contains_around(none, s4, " at "@, f.rule_id);
    lemma_contains_around(none, s5, place, f.rule_id);
    lemma_contains_around(none, s6, " — "@, f.rule_id);
    lemma_contains_around(none, s7, f.description, f.rule_id);
    lemma_contains_around(none, s8, fix, f.rule_id);
    lemma_contains_around(s5, place, none, place);
    lemma_contains_around(none, s6, " — "@, place);
    lemma_contains_around(none, s7, f.description, place);
    lemma_contains_around(none, s8, fix, place);
    lemma_contains_around(s7, f.description, none, f.description);
    lemma_contains_around(none, s8, fix, f.description);
}

/// A check run annotates the findings that stand on a line, in their order, all of them where there
/// are at most fifty: each annotation is at the file and line of the finding at its position.
pub proof fn findings_on_lines_are_annotated(findings: Seq<FindingView>)
    ensures
        ({
            let on_lines = findings.filter(|f: FindingView| f.line > 0);
            let shown = annotations_of(findings);
            &&& shown.len() == if on_lines.len() > 50 {
                50
            } else {
                on_lines.len()
            }
            &&& forall|i: int|
                0 <= i < shown.len() ==> (#[trigger] shown[i]).path == on_lines[i].file
                    && shown[i].start_line == on_lines[i].line
        }),
{
}

/// Annotations are made of findings that are not about dependencies, and where the changed lines are
/// known only of those that touch them: of each of these, and of no others.
pub proof fn annotations_are_of_findings_in_scope(
    findings: Seq<FindingView>,
    changed: Seq<ChangedFile>,
    f: FindingView,
)
    ensures
        annotation_findings(findings, None).contains(f) <==> findings.contains(f) && !summary_only(
            f,
        ),
        annotation_findings(findings, Some(changed)).contains(f) <==> findings.contains(f)
            && !summary_only(f) && touches(changed)(f),
{
    let p = |g: FindingView| !summary_only(g);
    lemma_filter_contains(findings, p, f);
    lemma_filter_contains(findings, touches(changed), f);
    lemma_filter_contains(findings.filter(touches(changed)), p, f);
}

proof fn lemma_filter_contains(s: Seq<FindingView>, p: spec_fn(FindingView) -> bool, f: FindingView)
    ensures
        s.filter(p).contains(f) <==> s.contains(f) && p(f),
{
    if s.filter(p).contains(f) {
        s.lemma_filter_contains_rev(p, f);
        let k = choose|k: int| 0 <= k < s.filter(p).len() && s.filter(p)[k] == f;
        s.lemma_filter_pred(p, k);
    }
    if s.contains(f) && p(f) {
        let k = choose|k: int| 0 <= k < s.len() && s[k] == f;
        s.lemma_filter_contains(p, k);
    }
}

/// In an address a byte that stands for itself is kept and any other is escaped, one after the other.
pub proof fn bytes_are_escaped_one_by_one(a: Seq<u8>, b: u8)
    ensures
        unreserved(b) ==> percent_encoded(a.push(b)) == percent_encoded(a).push(b as char),
        !unreserved(b) ==> percent_encoded(a.push(b)).len() == percent_encoded(a).len() + 3
            && percent_encoded(a).is_prefix_of(percent_encoded(a.push(b))) && percent_encoded(
            a.push(b),
        )[percent_encoded(a).len() as int] == '%',
        percent_encoded(Seq::empty()).len() == 0,
{
    assert(a.push(b).drop_last() =~= a);
    let x = percent_encoded(a);
    let y = percent_encoded(a.push(b));
    if !unreserved(b) {
        assert(x =~= y.subrange(0, x.len() as int));
    }
}

/// Every line that a hunk of a file's patch adds is handed on with its number, whichever hunk it is,
/// and as many lines are as were added.
pub proof fn every_added_line_is_handed_on(patch: String, h: int, k: int, start: nat)
    requires
        adds_in_hunk(lines_of(patch@), h, k, start),
        start + new_lines_between(lines_of(patch@), h + 1, k) <= usize::MAX,
    ensures
        gained_lines(Some(patch)).contains(
            (start + new_lines_between(lines_of(patch@), h + 1, k)) as usize,
        ),
        gained_lines(Some(patch)).len() == added_lines(
            lines_of(patch@),
            lines_of(patch@).len() as int,
        ).len(),
        gained_lines(None).len() == 0,
{
    let lines = lines_of(patch@);
    let all = added_lines(lines, lines.len() as int);
    let x = (start + new_lines_between(lines, h + 1, k)) as nat;
    every_hunk_starts_the_count_anew(lines, h, k, start);
    let i = choose|i: int| 0 <= i < all.len() && all[i] == x;
    assert(gained_lines(Some(patch))[i] == x as usize);
}

/// Findings that name a dependency are shown in the summary alone, and all others are not.
pub proof fn dependency_findings_are_summarized(f: FindingView)
    ensures
        summary_only(f) <==> f.dep_name is Some,
{
}

} // verus!
