//! What is read out of rules and settings for CodeQL: which rules stay, which severities and languages
//! words stand for, and where the sources of a database stood.

use crate::engine::codeql::{selected, severity_named, weakness, CodeQlRule, RuleView};
use crate::engine::codeql_scan::{
    both_streams, ends_token, extension_language, granted, is_language, line_language,
    metadata_roots, path_order, pieces_le, planned, roots_found, AutoDatabase, ScanSetup,
};
use crate::engine::scan_laws::names_end_at_the_first_separator;
use crate::document::{has_tag, Node};
use crate::finding::Severity;
use crate::sort::{ascending, sorting_orders_and_permutes, stable_sort, total_preorder};
use crate::text::{
    after_prefix, decimal, is_space, lemma_text_le_antisymmetric, lemma_text_le_total,
    lemma_text_le_transitive, lower_text, split_text, text_le,
};
use crate::text_laws::{
    all_space, trimming_takes_the_outer_white_space, written_numbers_are_read,
};
use vstd::prelude::*;

verus! {

// ---------------------------------------------------------------------------
// Rules
// ---------------------------------------------------------------------------

/// A rule stays exactly where it is enabled, or nothing is, and it is not disabled, whichever rules
/// stand beside it; those that stay keep their order.
pub proof fn enabled_rules_stay(
    rules: Seq<CodeQlRule>,
    rule: CodeQlRule,
    enable: Seq<Seq<char>>,
    disable: Seq<Seq<char>>,
)
    ensures
        rules.push(rule).filter(selected(enable, disable)) == if (enable.len() == 0 || exists|
            i: int,
        |
            0 <= i < enable.len() && enable[i] == rule.id@) && !(exists|i: int|
            0 <= i < disable.len() && disable[i] == rule.id@) {
            rules.filter(selected(enable, disable)).push(rule)
        } else {
            rules.filter(selected(enable, disable))
        },
{
    rules.lemma_filter_push(rule, selected(enable, disable));
    if enable.contains(rule.id@) {
        let i = choose|i: int| 0 <= i < enable.len() && enable[i] == rule.id@;
        assert(enable[i] == rule.id@);
    }
    if disable.contains(rule.id@) {
        let i = choose|i: int| 0 <= i < disable.len() && disable[i] == rule.id@;
        assert(disable[i] == rule.id@);
    }
}

proof fn lemma_lower_words()
    ensures
        lower_text("critical"@) == "critical"@,
        lower_text("high"@) == "high"@,
        lower_text("medium"@) == "medium"@,
        lower_text("low"@) == "low"@,
        "critical"@.len() == 8,
        "high"@.len() == 4,
        "medium"@.len() == 6,
        "low"@.len() == 3,
        "error"@.len() == 5,
        "warning"@.len() == 7,
        "info"@.len() == 4,
        "info"@[0] == 'i',
        "high"@[0] == 'h',
{
    reveal_strlit("critical");
    reveal_strlit("high");
    reveal_strlit("medium");
    reveal_strlit("low");
    reveal_strlit("error");
    reveal_strlit("warning");
    reveal_strlit("info");
    assert(lower_text("critical"@) =~= "critical"@);
    assert(lower_text("high"@) =~= "high"@);
    assert(lower_text("medium"@) =~= "medium"@);
    assert(lower_text("low"@) =~= "low"@);
}

/// Each severity is read from its own word, in small letters or capitals.
pub proof fn severities_are_read_from_their_words(severity: Severity, word: Seq<char>)
    requires
        lower_text(word) == severity.word(),
    ensures
        severity_named(word) == Some(severity),
        severity_named(severity.word()) == Some(severity),
{
    lemma_lower_words();
}

/// The case of a word does not matter where a severity, an extension or an engine is read.
pub proof fn words_are_read_in_any_case(a: Seq<char>, b: Seq<char>)
    requires
        lower_text(a) == lower_text(b),
    ensures
        severity_named(a) == severity_named(b),
        extension_language(a) == extension_language(b),
{
}

/// An extension stands for one of the languages that a query can be about, or for none.
pub proof fn extensions_stand_for_languages(extension: Seq<char>)
    ensures
        extension_language(extension) matches Some(l) ==> is_language(l),
{
}

proof fn lemma_import_prefix(rest: Seq<char>)
    ensures
        after_prefix("import "@ + rest, "import "@) == Some(rest),
        "import "@.len() == 7,
        "import "@[0] == 'i',
{
    reveal_strlit("import ");
    let s = "import "@ + rest;
    assert("import "@.is_prefix_of(s)) by {
        assert("import "@ =~= s.subrange(0, 7));
    }
    assert(s.skip(7) =~= rest);
}

/// A line imports the language whose name stands behind `import`, however it is indented and whatever
/// follows the name.
pub proof fn imports_name_their_language(
    indent: Seq<char>,
    language: Seq<char>,
    rest: Seq<char>,
    blank: Seq<char>,
)
    requires
        all_space(indent),
        all_space(blank),
        language.len() > 0,
        forall|j: int| 0 <= j < language.len() ==> !ends_token(#[trigger] language[j]),
        rest.len() == 0 || ends_token(rest[0]) && !is_space(rest.last()),
    ensures
        line_language(indent + ("import "@ + (language + rest)) + blank) == if is_language(
            language,
        ) {
            Some(language)
        } else {
            None
        },
{
    let t = "import "@ + (language + rest);
    lemma_import_prefix(language + rest);
    assert(t.first() == 'i');
    assert(!is_space(t.last())) by {
        if rest.len() == 0 {
            assert(t.last() == language[language.len() - 1]);
        } else {
            assert(t.last() == rest.last());
        }
    }
    trimming_takes_the_outer_white_space(indent, t, blank);
    names_end_at_the_first_separator(language, rest);
}

/// The database of a rule comes before that of the caller, and that before the environment's; what the
/// tool built counts only where none of these is given.
pub proof fn databases_are_taken_in_turn(rule: RuleView, setup: ScanSetup, auto: AutoDatabase)
    ensures
        rule.database matches Some(d) ==> planned(rule, setup, auto) == Ok::<_, Seq<char>>(d),
        rule.database is None ==> (setup.cli_database matches Some(d) ==> planned(
            rule,
            setup,
            auto,
        ) == Ok::<_, Seq<char>>(d@)),
        rule.database is None && setup.cli_database is None ==> (setup.env_database matches Some(d)
            ==> planned(rule, setup, auto) == Ok::<_, Seq<char>>(d@)),
        rule.database is None && setup.cli_database is None && setup.env_database is None
            && setup.scan_target is Some && setup.probe is Ok ==> (auto matches AutoDatabase::Built(
            d,
        ) ==> planned(rule, setup, auto) == Ok::<_, Seq<char>>(d@)),
        rule.database is None && setup.cli_database is None && setup.env_database is None && (
        setup.scan_target is None || setup.probe is Err || !(auto is Built)) ==> planned(
            rule,
            setup,
            auto,
        ) is Err,
{
}

/// A setting that writes a positive number of seconds grants them; anything else grants the default.
pub proof fn settings_grant_their_seconds(n: u64, default: u64)
    ensures
        n > 0 ==> granted(Some(decimal(n as nat)), default) == n,
        n == 0 ==> granted(Some(decimal(n as nat)), default) == default,
        granted(None, default) == default,
{
    written_numbers_are_read(n as nat, u64::MAX as nat, decimal(n as nat));
}

/// What a program printed is shown without the white space around it: what it printed on both streams
/// on lines of their own, and else what there is.
pub proof fn both_streams_are_shown(out: Seq<char>, err: Seq<char>, x: Seq<char>, y: Seq<char>)
    requires
        all_space(x),
        all_space(y),
        out.len() > 0,
        !is_space(out.first()),
        !is_space(out.last()),
        err.len() > 0,
        !is_space(err.first()),
        !is_space(err.last()),
    ensures
        both_streams(x + out + y, x + err + y) == out + "\n"@ + err,
        both_streams(x + out + y, x) == out,
        both_streams(y, x + err + y) == err,
{
    let none = Seq::<char>::empty();
    trimming_takes_the_outer_white_space(x, out, y);
    trimming_takes_the_outer_white_space(x, err, y);
    trimming_takes_the_outer_white_space(x, none, none);
    trimming_takes_the_outer_white_space(y, none, none);
    assert(x + none + none =~= x);
    assert(y + none + none =~= y);
}

// ---------------------------------------------------------------------------
// The order of paths
// ---------------------------------------------------------------------------

proof fn lemma_pieces_reflexive(a: Seq<Seq<char>>, i: int)
    ensures
        pieces_le(a, a, i),
    decreases a.len() - i,
{
    if 0 <= i < a.len() {
        lemma_pieces_reflexive(a, i + 1);
    }
}

proof fn lemma_pieces_total(a: Seq<Seq<char>>, b: Seq<Seq<char>>, i: int)
    requires
        0 <= i,
    ensures
        pieces_le(a, b, i) || pieces_le(b, a, i),
    decreases a.len() - i,
{
    if i < a.len() && i < b.len() {
        if a[i] == b[i] {
            lemma_pieces_total(a, b, i + 1);
        } else {
            lemma_text_le_total(a[i], b[i]);
        }
    }
}

proof fn lemma_pieces_transitive(a: Seq<Seq<char>>, b: Seq<Seq<char>>, c: Seq<Seq<char>>, i: int)
    requires
        0 <= i,
        pieces_le(a, b, i),
        pieces_le(b, c, i),
    ensures
        pieces_le(a, c, i),
    decreases a.len() - i,
{
    if i < a.len() {
        assert(i < b.len());
        assert(i < c.len());
        if a[i] == b[i] && b[i] == c[i] {
            lemma_pieces_transitive(a, b, c, i + 1);
        } else if a[i] != b[i] && b[i] != c[i] {
            lemma_text_le_transitive(a[i], b[i], c[i]);
            if a[i] == c[i] {
                lemma_text_le_antisymmetric(a[i], b[i]);
            }
        }
    }
}

/// The order of paths is one: every path comes before itself, of two one comes before the other, and
/// what comes before an earlier path comes before a later one.
pub proof fn paths_are_in_order()
    ensures
        total_preorder(path_order()),
{
    let le = path_order();
    assert forall|a: Seq<char>| #[trigger] le(a, a) by {
        lemma_pieces_reflexive(split_text(a, '/'), 0);
    }
    assert forall|a: Seq<char>, b: Seq<char>| #[trigger] le(a, b) || le(b, a) by {
        lemma_pieces_total(split_text(a, '/'), split_text(b, '/'), 0);
    }
    assert forall|a: Seq<char>, b: Seq<char>, c: Seq<char>| #[trigger]
        le(a, b) && #[trigger] le(b, c) implies le(a, c) by {
        lemma_pieces_transitive(split_text(a, '/'), split_text(b, '/'), split_text(c, '/'), 0);
    }
}

/// A directory comes before what lies in it, and the first piece in which two paths differ decides.
pub proof fn directories_come_before_their_contents(
    dir: Seq<char>,
    name: Seq<char>,
    other: Seq<char>,
)
    requires
        !name.contains('/'),
        !other.contains('/'),
    ensures
        path_order()(dir, dir.push('/') + name),
        !path_order()(dir.push('/') + name, dir),
        name != other ==> path_order()(dir.push('/') + name, dir.push('/') + other) == text_le(
            name,
            other,
        ),
{
    crate::text_laws::splitting_cuts_at_each_separator(dir, name, '/');
    crate::text_laws::splitting_cuts_at_each_separator(dir, other, '/');
    crate::text_laws::splitting_cuts_at_each_separator(name, Seq::empty(), '/');
    crate::text_laws::splitting_cuts_at_each_separator(other, Seq::empty(), '/');
    let a = split_text(dir, '/');
    lemma_common_pieces(a, Seq::empty(), seq![name], 0);
    lemma_common_pieces(a, seq![name], Seq::empty(), 0);
    lemma_common_pieces(a, seq![name], seq![other], 0);
    assert(a + Seq::<Seq<char>>::empty() =~= a);
}

proof fn lemma_common_pieces(a: Seq<Seq<char>>, x: Seq<Seq<char>>, y: Seq<Seq<char>>, i: int)
    requires
        0 <= i <= a.len(),
    ensures
        pieces_le(a + x, a + y, i) == pieces_le(a + x, a + y, a.len() as int),
    decreases a.len() - i,
{
    if i < a.len() {
        assert((a + x)[i] == a[i] && (a + y)[i] == a[i]);
        lemma_common_pieces(a, x, y, i + 1);
    }
}

/// The places that the metadata names come out in the order of paths, none lost and none added.
pub proof fn named_places_are_in_order(
    document: Result<Node, String>,
    metadata_path: Seq<char>,
    place: Seq<char>,
)
    ensures
        (metadata_roots(document, metadata_path) is Ok) == (roots_found(document, metadata_path)
            is Ok),
        metadata_roots(document, metadata_path) matches Ok(roots) ==> (roots_found(
            document,
            metadata_path,
        ) matches Ok(found) && ascending(roots, path_order()) && roots.len() == found.len() && (
        roots.contains(place) <==> found.contains(place))),
{
    broadcast use vstd::seq_lib::group_to_multiset_ensures;

    paths_are_in_order();
    if let Ok(found) = roots_found(document, metadata_path) {
        sorting_orders_and_permutes(found, path_order());
        let roots = stable_sort(found, path_order());
        assert(roots.contains(place) <==> roots.to_multiset().count(place) > 0);
        assert(found.contains(place) <==> found.to_multiset().count(place) > 0);
    }
}

/// The weakness class of a rule is the first that is written down, whatever follows it.
pub proof fn the_first_weakness_counts(v: Vec<Node>, one: String)
    requires
        v@.len() > 0,
        forall|i: int| 0 <= i < v@.len() ==> #[trigger] v@[i] is Text,
        !has_tag(Node::List(v)),
    ensures
        weakness(Node::List(v)) == Ok::<_, Seq<char>>(v@[0].text()),
        weakness(Node::Text(one)) == Ok::<_, Seq<char>>(Some(one@)),
        weakness(Node::Null) == Ok::<Option<Seq<char>>, Seq<char>>(None),
{
}

} // verus!
