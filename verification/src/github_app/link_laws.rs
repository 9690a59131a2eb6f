//! How paths and places stand in what is shown: nothing of a path is lost, and a plain one stays as
//! it is.

use crate::bytes::lemma_encode_concat;
use crate::engine::artifact::{hex_value, unescaped};
use crate::engine::scan_laws::escapes_are_resolved_from_the_left;
use crate::finding::{FindingView, Severity};
use crate::github_app::review::{
    annotation_of, dependency_bullets, dependency_line, dependency_section, display_path,
    encoded_segments, hex_upper, line_anchor, line_range, percent_encoded, repo_relative_path,
    severity_count, slashed, truncated, unreserved, SourceRevision,
};
use crate::paths::joined;
use crate::text::{
    contains_text, decimal, is_ascii_alnum, lemma_split_nonempty, occurs_at, split_text,
    trim_end_char_text,
};
use crate::text_laws::split_pieces_join_back;
use vstd::prelude::*;
use vstd::utf8::{encode_scalar, encode_utf8};

verus! {

// ---------------------------------------------------------------------------
// Escapes
// ---------------------------------------------------------------------------

proof fn lemma_escaped_both(a: Seq<u8>, b: Seq<u8>)
    ensures
        percent_encoded(a + b) == percent_encoded(a) + percent_encoded(b),
    decreases b.len(),
{
    let x = percent_encoded(a);
    if b.len() == 0 {
        assert(a + b =~= a);
        assert(x + percent_encoded(b) =~= x);
    } else {
        let t = b.drop_last();
        lemma_escaped_both(a, t);
        assert((a + b).drop_last() =~= a + t);
        assert((a + b).last() == b.last());
        let y = percent_encoded(t);
        assert(percent_encoded(a + b) =~= x + percent_encoded(b));
    }
}

proof fn lemma_ascii_byte(c: char)
    requires
        (c as u32) < 128,
    ensures
        encode_utf8(seq![c]) == seq![c as u32 as u8],
{
    let u = c as u32;
    assert(u <= 0x7f ==> (u & 0x7f) as u8 == u) by (bit_vector);
    assert(seq![c].drop_first() =~= Seq::<char>::empty());
    assert(encode_utf8(seq![c].drop_first()) =~= Seq::<u8>::empty());
    assert(encode_utf8(seq![c]) =~= encode_scalar(u));
    assert(encode_scalar(u) =~= seq![u as u8]);
}

proof fn lemma_hex_read_back(n: nat)
    requires
        n < 16,
    ensures
        (hex_upper(n) as u32) < 128,
        hex_value(hex_upper(n) as u32 as u8) == Some(n as u8),
{
}

/// What is escaped is read back: resolving the escapes of an escaped text gives its bytes.
pub proof fn escaped_bytes_are_read_back(bytes: Seq<u8>)
    ensures
        unescaped(encode_utf8(percent_encoded(bytes)), 0) == Some(bytes),
    decreases bytes.len(),
{
    if bytes.len() == 0 {
        assert(encode_utf8(percent_encoded(bytes)) =~= Seq::<u8>::empty());
        assert(bytes =~= Seq::<u8>::empty());
    } else {
        let b = bytes[0];
        let rest = bytes.drop_first();
        escaped_bytes_are_read_back(rest);
        assert(bytes =~= seq![b] + rest);
        lemma_escaped_both(seq![b], rest);
        let tail = encode_utf8(percent_encoded(rest));
        lemma_encode_concat(percent_encoded(seq![b]), percent_encoded(rest));
        assert(seq![b].drop_last() =~= Seq::<u8>::empty());
        assert(percent_encoded(seq![b].drop_last()) =~= Seq::<char>::empty());
        if unreserved(b) {
            assert(percent_encoded(seq![b]) =~= seq![b as char]);
            lemma_ascii_byte(b as char);
            assert(b as char as u32 as u8 == b);
            escapes_are_resolved_from_the_left(b, 0, 0, tail);
        } else {
            let high = hex_upper(b as nat / 16);
            let low = hex_upper(b as nat % 16);
            assert(percent_encoded(seq![b]) =~= seq!['%'] + seq![high] + seq![low]);
            lemma_encode_concat(seq!['%'] + seq![high], seq![low]);
            lemma_encode_concat(seq!['%'], seq![high]);
            lemma_hex_read_back(b as nat / 16);
            lemma_hex_read_back(b as nat % 16);
            lemma_ascii_byte('%');
            lemma_ascii_byte(high);
            lemma_ascii_byte(low);
            let h = high as u32 as u8;
            let l = low as u32 as u8;
            assert(encode_utf8(percent_encoded(seq![b])) =~= seq![0x25u8, h, l]);
            escapes_are_resolved_from_the_left(b, h, l, tail);
            assert((((b as nat / 16) as u8) * 16 + ((b as nat % 16) as u8)) as u8 == b);
        }
        assert(seq![b] + rest =~= bytes);
    }
}

// ---------------------------------------------------------------------------
// Paths
// ---------------------------------------------------------------------------

/// The character stands for itself in an address.
pub open spec fn is_plain(c: char) -> bool {
    is_ascii_alnum(c) || c == '-' || c == '.' || c == '_' || c == '~'
}

/// Every character stands for itself in an address.
pub open spec fn all_plain(s: Seq<char>) -> bool {
    forall|i: int| 0 <= i < s.len() ==> is_plain(#[trigger] s[i])
}

proof fn lemma_plain_text(s: Seq<char>)
    requires
        all_plain(s),
    ensures
        percent_encoded(encode_utf8(s)) == s,
    decreases s.len(),
{
    if s.len() == 0 {
        assert(percent_encoded(encode_utf8(s)) =~= s);
    } else {
        let t = s.drop_last();
        let c = s.last();
        assert(all_plain(t)) by {
            assert forall|i: int| 0 <= i < t.len() implies is_plain(#[trigger] t[i]) by {
                assert(is_plain(s[i]));
            }
        }
        lemma_plain_text(t);
        assert(is_plain(s[s.len() - 1]));
        assert(s =~= t + seq![c]);
        lemma_encode_concat(t, seq![c]);
        lemma_ascii_byte(c);
        let b = c as u32 as u8;
        assert(b as char == c);
        assert(encode_utf8(s) =~= encode_utf8(t).push(b));
        assert(encode_utf8(s).drop_last() =~= encode_utf8(t));
        assert(unreserved(b));
        assert(percent_encoded(encode_utf8(s)) =~= s);
    }
}

proof fn lemma_piece_chars(s: Seq<char>, i: int, k: int)
    requires
        0 <= i < split_text(s, '/').len(),
        0 <= k < split_text(s, '/')[i].len(),
    ensures
        s.contains(split_text(s, '/')[i][k]),
        split_text(s, '/')[i][k] != '/',
    decreases s.len(),
{
    if s.len() > 0 {
        let t = s.drop_last();
        lemma_split_nonempty(t, '/');
        let before = split_text(t, '/');
        let c = split_text(s, '/')[i][k];
        if i < before.len() && k < before[i].len() {
            lemma_piece_chars(t, i, k);
            let m = choose|m: int| 0 <= m < t.len() && t[m] == c;
            assert(s[m] == c);
        } else {
            assert(s[s.len() - 1] == c);
        }
    }
}

/// A path of plain characters.
pub open spec fn plain_path(path: Seq<char>) -> bool {
    forall|i: int| 0 <= i < path.len() ==> is_plain(#[trigger] path[i]) || path[i] == '/'
}

proof fn lemma_plain_segments(path: Seq<char>)
    requires
        plain_path(path),
    ensures
        encoded_segments(split_text(path, '/')) == split_text(path, '/'),
{
    let segments = split_text(path, '/');
    assert forall|i: int| 0 <= i < segments.len() implies encoded_segments(segments)[i]
        == #[trigger] segments[i] by {
        assert(all_plain(segments[i])) by {
            assert forall|k: int| 0 <= k < segments[i].len() implies is_plain(
                #[trigger] segments[i][k],
            ) by {
                lemma_piece_chars(path, i, k);
                let m = choose|m: int| 0 <= m < path.len() && path[m] == segments[i][k];
                assert(is_plain(path[m]) || path[m] == '/');
            }
        }
        lemma_plain_text(segments[i]);
    }
    assert(encoded_segments(segments) =~= segments);
}

proof fn lemma_slashed(segments: Seq<Seq<char>>)
    requires
        segments.len() > 0,
    ensures
        slashed(segments) == "/"@ + joined(encoded_segments(segments), "/"@),
    decreases segments.len(),
{
    let t = segments.drop_last();
    let last = percent_encoded(encode_utf8(segments.last()));
    let all = encoded_segments(segments);
    assert(all.drop_last() =~= encoded_segments(t));
    assert(all.last() == last);
    if t.len() == 0 {
        assert(slashed(t) =~= Seq::<char>::empty());
        assert(slashed(segments) =~= "/"@ + joined(all, "/"@));
    } else {
        lemma_slashed(t);
        assert(slashed(segments) =~= "/"@ + joined(all, "/"@));
    }
}

/// A path of letters, digits and the other characters that stand for themselves is shown as it is, and
/// its link leads to it: the repository, the scanned state, the path and the lines, one behind the
/// other.
pub proof fn plain_paths_are_shown_as_they_are(
    source: SourceRevision,
    path: Seq<char>,
    line: usize,
    end_line: usize,
)
    requires
        plain_path(path),
        all_plain(source.head_sha@),
    ensures
        display_path(path) == path,
        repo_relative_path(path) ==> source.link(path, line, end_line) == Some(
            trim_end_char_text(source.repo_web_url@, '/') + "/blob/"@ + source.head_sha@ + (
            "/"@ + path) + line_anchor(line, end_line),
        ),
{
    reveal_strlit("/");
    assert("/"@ =~= seq!['/']);
    lemma_split_nonempty(path, '/');
    lemma_plain_segments(path);
    split_pieces_join_back(path, '/');
    lemma_plain_text(source.head_sha@);
    lemma_slashed(split_text(path, '/'));
}

/// The lines of a finding stand behind its path: the first, and the last where it is another. A
/// finding on no line has none.
pub proof fn lines_stand_behind_the_path(line: usize, end_line: usize)
    ensures
        line > 0 && end_line <= line ==> line_range(line, end_line) == ":"@ + decimal(line as nat)
            && line_anchor(line, end_line) == "#L"@ + decimal(line as nat),
        0 < line < end_line ==> line_range(line, end_line) == line_range(line, line) + "-"@
            + decimal(end_line as nat) && line_anchor(line, end_line) == line_anchor(line, line)
            + "-L"@ + decimal(end_line as nat),
        line_range(0, end_line).len() == 0 && line_anchor(0, end_line).len() == 0,
{
}

// ---------------------------------------------------------------------------
// Annotations and dependencies
// ---------------------------------------------------------------------------

/// What is cut off is cut off at the end: a text that fits stays as it is, and of any other the
/// beginning stays, with dots behind it, and no more than may be.
pub proof fn long_texts_keep_their_beginning(value: Seq<char>, max: nat)
    ensures
        value.len() <= max ==> truncated(value, max) == value,
        truncated(value, max).len() <= max,
        value.len() > max > 3 ==> truncated(value, max).len() == max && forall|i: int|
            0 <= i < max - 3 ==> #[trigger] truncated(value, max)[i] == value[i],
{
    reveal_strlit("...");
}

/// An annotation spans the lines of its finding, is of a level that rises with the severity, and
/// holds the description as far as that fits.
pub proof fn annotations_span_their_finding(f: FindingView)
    ensures
        annotation_of(f).path == f.file,
        annotation_of(f).start_line == f.line,
        f.end_line >= f.line ==> annotation_of(f).end_line == f.end_line,
        f.end_line < f.line ==> annotation_of(f).end_line == f.line,
        f.description.len() <= 64_000 ==> annotation_of(f).message == f.description,
        (f.severity is High || f.severity is Critical) ==> annotation_of(f).annotation_level
            == "failure"@,
        f.severity is Medium ==> annotation_of(f).annotation_level == "warning"@,
        f.severity is Low ==> annotation_of(f).annotation_level == "notice"@,
{
}

proof fn lemma_contains_around(a: Seq<char>, s: Seq<char>, b: Seq<char>, m: Seq<char>)
    requires
        contains_text(s, m),
    ensures
        contains_text(a + s, m),
        contains_text(s + b, m),
{
    let i = choose|i: int| occurs_at(s, m, i);
    assert((a + s).subrange(a.len() + i, a.len() + i + m.len()) =~= s.subrange(i, i + m.len()));
    assert(occurs_at(a + s, m, a.len() + i));
    assert((s + b).subrange(i, i + m.len()) =~= s.subrange(i, i + m.len()));
    assert(occurs_at(s + b, m, i));
}

proof fn lemma_bullets_hold(findings: Seq<FindingView>, n: int, i: int, m: Seq<char>)
    requires
        0 <= i < n <= findings.len(),
        m == dependency_line(findings[i]),
    ensures
        contains_text(dependency_bullets(findings, n), m),
    decreases n,
{
    let before = dependency_bullets(findings, n - 1);
    let none = Seq::<char>::empty();
    let here = dependency_line(findings[n - 1]);
    if i == n - 1 {
        assert(m.subrange(0, m.len() as int) =~= m);
        assert(occurs_at(m, m, 0));
        lemma_contains_around(before + "\n- "@, m, none, m);
    } else {
        lemma_bullets_hold(findings, n - 1, i, m);
        lemma_contains_around(none, before, "\n- "@, m);
        lemma_contains_around(none, before + "\n- "@, here, m);
    }
}

/// Each of the first ten findings on dependencies has its line, whichever the others are.
pub proof fn dependencies_have_their_lines(findings: Seq<FindingView>, i: int)
    requires
        0 <= i < findings.len(),
        i < 10,
    ensures
        contains_text(dependency_section(findings), dependency_line(findings[i])),
        dependency_section(Seq::empty()).len() == 0,
{
    let n: int = if findings.len() > 10 {
        10
    } else {
        findings.len() as int
    };
    let m = dependency_line(findings[i]);
    lemma_bullets_hold(findings, n, i, m);
    let head = " "@ + decimal(findings.len())
        + " dependency finding(s) are summarized below without check annotations."@
        + "\n\nDependency findings (summary only):"@;
    let all = dependency_bullets(findings, n);
    let tail = if findings.len() > 10 {
        "\n- ... "@ + decimal((findings.len() - 10) as nat) + " more dependency finding(s)"@
    } else {
        Seq::empty()
    };
    lemma_contains_around(head, all, Seq::empty(), m);
    lemma_contains_around(Seq::empty(), head + all, tail, m);
}

/// Findings are counted by severity, each once: the counts add up to the number of findings.
pub proof fn severities_are_counted_once(findings: Seq<FindingView>)
    ensures
        severity_count(findings, Severity::Low) + severity_count(findings, Severity::Medium)
            + severity_count(findings, Severity::High) + severity_count(
            findings,
            Severity::Critical,
        ) == findings.len(),
    decreases findings.len(),
{
    lemma_severity_counts(findings, Severity::Low);
    lemma_severity_counts(findings, Severity::Medium);
    lemma_severity_counts(findings, Severity::High);
    lemma_severity_counts(findings, Severity::Critical);
    if findings.len() > 0 {
        severities_are_counted_once(findings.drop_last());
    }
}

proof fn lemma_severity_counts(findings: Seq<FindingView>, severity: Severity)
    ensures
        findings.len() == 0 ==> severity_count(findings, severity) == 0,
        findings.len() > 0 ==> severity_count(findings, severity) == severity_count(
            findings.drop_last(),
            severity,
        ) + if findings.last().severity == severity {
            1nat
        } else {
            0nat
        },
{
    let p = |f: FindingView| f.severity == severity;
    if findings.len() > 0 {
        let t = findings.drop_last();
        assert(findings =~= t.push(findings.last()));
        t.lemma_filter_push(findings.last(), p);
    } else {
        reveal(Seq::filter);
        assert(findings.filter(p).len() == 0);
    }
}

} // verus!
