//! What the rules on manifests find: every dependency that is listed counts, wherever it stands, and
//! every line that names a known package.

use crate::bytes::lemma_encode_concat;
use crate::document::Node;
use crate::finding::FindingView;
use crate::rules::common::fit;
use crate::rules::manifest::{
    cargo_seeds, dependency_name, depends_on, depends_on_seed, entry_from, entry_range, entry_stands,
    flagged_exactly_for_reachable_seeds, known_from, listed_packages, lock_findings, name_char,
    name_end, name_from, normal_name, package_finding, package_findings, packages_named, pip_name,
    pip_packages, reaches, required_name, requirement_findings, seed_of, seeds_met, surest,
    unicode_lower, walk_meets_exactly_the_reachable_seeds, KnownView,
};
use crate::rules::place_laws::places_in_a_line_are_on_it;
use crate::rules::pq::stands;
use crate::text::{
    concatenated, inclusive_lines_of, is_space, lemma_concatenated_prefix, lemma_inclusive_lines,
    lemma_split_nonempty, lines_of, split_text, trim_text,
};
use crate::text_laws::{
    all_space, halves_meet_at_the_first_occurrence, splitting_cuts_at_each_separator,
    trimming_takes_the_outer_white_space,
};
use vstd::prelude::*;
use vstd::utf8::encode_utf8;

verus! {

// ---------------------------------------------------------------------------
// Dependencies
// ---------------------------------------------------------------------------

/// The entry of a dependency list names the package: it is the name, or the name and a space and
/// something else.
pub open spec fn entry_names(entry: Seq<char>, name: Seq<char>) -> bool {
    !name.contains(' ') && (entry == name || name.push(' ').is_prefix_of(entry))
}

proof fn lemma_dependency_name(entry: Seq<char>, name: Seq<char>)
    ensures
        (dependency_name(entry) == name) <==> entry_names(entry, name),
{
    if entry_names(entry, name) {
        if entry != name {
            let rest = entry.skip(name.len() as int + 1);
            assert(name.push(' ') =~= entry.subrange(0, name.len() as int + 1));
            assert(entry =~= name.push(' ') + rest);
            halves_meet_at_the_first_occurrence(name, rest, ' ');
        } else {
            halves_meet_at_the_first_occurrence(name, Seq::empty(), ' ');
        }
    } else if entry.contains(' ') {
        let i = lemma_first_blank(entry, 0);
        let head = entry.take(i);
        let rest = entry.skip(i + 1);
        assert(!head.contains(' '));
        assert(entry =~= head.push(' ') + rest);
        halves_meet_at_the_first_occurrence(head, rest, ' ');
        assert(head.push(' ') =~= entry.subrange(0, i + 1));
        assert(entry_names(entry, head));
    } else {
        halves_meet_at_the_first_occurrence(entry, Seq::empty(), ' ');
        assert(entry_names(entry, entry));
    }
}

proof fn lemma_first_blank(s: Seq<char>, i: int) -> (k: int)
    requires
        0 <= i < s.len(),
        s.contains(' '),
        forall|j: int| 0 <= j < i ==> s[j] != ' ',
    ensures
        i <= k < s.len(),
        s[k] == ' ',
        forall|j: int| 0 <= j < k ==> s[j] != ' ',
    decreases s.len() - i,
{
    if s[i] == ' ' {
        i
    } else {
        let at = choose|at: int| 0 <= at < s.len() && s[at] == ' ';
        assert(at > i);
        lemma_first_blank(s, i + 1)
    }
}

proof fn lemma_packages_named(packages: Seq<Node>, name: Seq<char>, n: int, j: int)
    requires
        0 <= n <= packages.len(),
    ensures
        packages_named(packages, name, n).contains(j) <==> 0 <= j < n && packages[j].field_text(
            "name"@,
        ) == Some(name),
    decreases n,
{
    if n > 0 {
        lemma_packages_named(packages, name, n - 1, j);
        let before = packages_named(packages, name, n - 1);
        let now = packages_named(packages, name, n);
        if packages[n - 1].field_text("name"@) == Some(name) {
            lemma_push_contains(before, n - 1, j);
        }
    }
}

proof fn lemma_push_contains(s: Seq<int>, x: int, j: int)
    ensures
        s.push(x).contains(j) <==> s.contains(j) || x == j,
{
    let t = s.push(x);
    if s.contains(j) {
        let k = choose|k: int| 0 <= k < s.len() && s[k] == j;
        assert(t[k] == j);
    }
    if x == j {
        assert(t[s.len() as int] == j);
    }
    if t.contains(j) {
        let k = choose|k: int| 0 <= k < t.len() && t[k] == j;
        if k < s.len() {
            assert(s[k] == j);
        }
    }
}

proof fn lemma_both_contain(a: Seq<int>, b: Seq<int>, j: int)
    ensures
        (a + b).contains(j) <==> a.contains(j) || b.contains(j),
{
    let t = a + b;
    if a.contains(j) {
        let k = choose|k: int| 0 <= k < a.len() && a[k] == j;
        assert(t[k] == j);
    }
    if b.contains(j) {
        let k = choose|k: int| 0 <= k < b.len() && b[k] == j;
        assert(t[a.len() + k] == j);
    }
    if t.contains(j) {
        let k = choose|k: int| 0 <= k < t.len() && t[k] == j;
        if k < a.len() {
            assert(a[k] == j);
        } else {
            assert(b[k - a.len()] == j);
        }
    }
}

/// The entry is a text that names the package at `j`.
pub open spec fn node_names(entry: Node, packages: Seq<Node>, j: int) -> bool {
    entry.text() is Some && packages[j].field_text("name"@) is Some && entry_names(
        entry.text().unwrap(),
        packages[j].field_text("name"@).unwrap(),
    )
}

proof fn lemma_listed(packages: Seq<Node>, deps: Seq<Node>, n: int, j: int)
    requires
        0 <= n <= deps.len(),
    ensures
        listed_packages(packages, deps, n).contains(j) <==> 0 <= j < packages.len() && exists|k: int|
            0 <= k < n && node_names(#[trigger] deps[k], packages, j),
    decreases n,
{
    if n > 0 {
        lemma_listed(packages, deps, n - 1, j);
        let before = listed_packages(packages, deps, n - 1);
        let now = listed_packages(packages, deps, n);
        match deps[n - 1].text() {
            Some(entry) => {
                let name = dependency_name(entry);
                let named = packages_named(packages, name, packages.len() as int);
                lemma_packages_named(packages, name, packages.len() as int, j);
                lemma_both_contain(before, named, j);
                if 0 <= j < packages.len() && packages[j].field_text("name"@) is Some {
                    lemma_dependency_name(entry, packages[j].field_text("name"@).unwrap());
                }
                if named.contains(j) {
                    assert(node_names(deps[n - 1], packages, j));
                }
            },
            None => {
                assert(!node_names(deps[n - 1], packages, j));
            },
        }
        if exists|k: int| 0 <= k < n && node_names(#[trigger] deps[k], packages, j) {
            let k = choose|k: int| 0 <= k < n && node_names(#[trigger] deps[k], packages, j);
            if k < n - 1 {
                assert(node_names(deps[k], packages, j));
            }
        }
    }
}

/// A package depends on exactly those that its list names: for each entry, at any position, on every
/// package with the name up to the first space, and on no others.
pub proof fn every_entry_is_a_dependency(packages: Seq<Node>, i: int, j: int)
    requires
        0 <= i < packages.len(),
    ensures
        packages[i].field_items("dependencies"@) matches Some(deps) ==> (depends_on(
            packages,
            i,
        ).contains(j) <==> 0 <= j < packages.len() && exists|k: int|
            0 <= k < deps.len() && node_names(#[trigger] deps[k], packages, j)),
        packages[i].field_items("dependencies"@) is None ==> !depends_on(packages, i).contains(j),
{
    if let Some(deps) = packages[i].field_items("dependencies"@) {
        lemma_listed(packages, deps, deps.len() as int, j);
    }
}

/// What a package depends on is met in the order of its list: what the first entries name comes
/// before what the others name.
pub proof fn dependencies_are_met_in_the_order_of_the_list(
    packages: Seq<Node>,
    a: Seq<Node>,
    b: Seq<Node>,
)
    ensures
        listed_packages(packages, a + b, (a + b).len() as int) == listed_packages(
            packages,
            a,
            a.len() as int,
        ) + listed_packages(packages, b, b.len() as int),
    decreases b.len(),
{
    let n = a.len() as int;
    let m = b.len() as int;
    let x = listed_packages(packages, a, n);
    if m == 0 {
        assert(a + b =~= a);
        assert(x + listed_packages(packages, b, 0) =~= x);
    } else {
        let t = b.drop_last();
        dependencies_are_met_in_the_order_of_the_list(packages, a, t);
        lemma_listed_prefix(packages, a + t, a + b, n + m - 1);
        lemma_listed_prefix(packages, t, b, m - 1);
        assert((a + b)[n + m - 1] == b[m - 1]);
        match b[m - 1].text() {
            Some(entry) => {
                let named = packages_named(
                    packages,
                    dependency_name(entry),
                    packages.len() as int,
                );
                let y = listed_packages(packages, t, m - 1);
                assert((x + y) + named =~= x + (y + named));
            },
            None => {},
        }
    }
}

proof fn lemma_listed_prefix(packages: Seq<Node>, a: Seq<Node>, b: Seq<Node>, n: int)
    requires
        0 <= n <= a.len(),
        n <= b.len(),
        forall|i: int| 0 <= i < n ==> a[i] == b[i],
    ensures
        listed_packages(packages, a, n) == listed_packages(packages, b, n),
    decreases n,
{
    if n > 0 {
        lemma_listed_prefix(packages, a, b, n - 1);
    }
}

// ---------------------------------------------------------------------------
// Known packages
// ---------------------------------------------------------------------------

/// A package is known exactly where its name is in the list; of several entries with the name the
/// first counts.
pub proof fn known_packages_are_those_of_the_list(table: Seq<KnownView>, name: Seq<char>, i: int)
    requires
        0 <= i <= table.len(),
        forall|j: int| 0 <= j < i ==> (#[trigger] table[j]).name != name,
    ensures
        i < table.len() && table[i].name == name ==> known_from(table, name, 0) == Some(table[i]),
        i == table.len() ==> known_from(table, name, 0) is None,
{
    lemma_known_skips(table, name, 0, i);
}

proof fn lemma_known_skips(table: Seq<KnownView>, name: Seq<char>, i: int, k: int)
    requires
        0 <= i <= k <= table.len(),
        forall|j: int| i <= j < k ==> (#[trigger] table[j]).name != name,
    ensures
        known_from(table, name, i) == known_from(table, name, k),
    decreases k - i,
{
    if i < k {
        lemma_known_skips(table, name, i + 1, k);
    }
}

/// The first of the surest seeds is taken: none is surer, and none before it is as sure.
pub proof fn the_surest_seed_counts(met: Seq<KnownView>) -> (k: int)
    requires
        met.len() > 0,
    ensures
        0 <= k < met.len(),
        surest(met, met.len() as int) == met[k],
        forall|j: int| 0 <= j < met.len() ==> (#[trigger] met[j]).confidence <= met[k].confidence,
        forall|j: int| 0 <= j < k ==> (#[trigger] met[j]).confidence < met[k].confidence,
{
    lemma_surest(met, met.len() as int)
}

proof fn lemma_surest(met: Seq<KnownView>, n: int) -> (k: int)
    requires
        0 < n <= met.len(),
    ensures
        0 <= k < n,
        surest(met, n) == met[k],
        forall|j: int| 0 <= j < n ==> (#[trigger] met[j]).confidence <= met[k].confidence,
        forall|j: int| 0 <= j < k ==> (#[trigger] met[j]).confidence < met[k].confidence,
    decreases n,
{
    if n == 1 {
        0
    } else {
        let k = lemma_surest(met, n - 1);
        if met[n - 1].confidence > met[k].confidence {
            n - 1
        } else {
            k
        }
    }
}

/// Another package that the one at `i` reaches is the seed.
pub open spec fn is_reached_seed(packages: Seq<Node>, i: int, j: int, s: KnownView) -> bool {
    0 <= j < packages.len() && j != i && reaches(packages, i, j) && seed_of(packages, j) == Some(s)
}

/// The finding on a package tells of a seed that it reaches, and of none that is less sure than
/// another: its algorithm and how sure the finding is are those of the seed.
pub proof fn findings_tell_of_the_surest_seed(source: Seq<char>, packages: Seq<Node>, i: int)
    requires
        0 <= i < packages.len(),
    ensures
        package_finding(source, packages, i) matches Some(f) ==> {
            &&& f.dep_name == packages[i].field_text("name"@)
            &&& exists|j: int, s: KnownView| #[trigger]
                is_reached_seed(packages, i, j, s) && f.confidence == s.confidence
                    && f.crypto_algorithm == s.crypto_algorithm
            &&& forall|j: int, s: KnownView| #[trigger]
                is_reached_seed(packages, i, j, s) ==> s.confidence <= f.confidence
        },
{
    walk_meets_exactly_the_reachable_seeds(packages, i);
    if let Some(f) = package_finding(source, packages, i) {
        let met = seeds_met(packages, i);
        let k = the_surest_seed_counts(met);
        assert(depends_on_seed(packages, i, met[k]));
        let j = choose|j: int|
            0 <= j < packages.len() && j != i && #[trigger] reaches(packages, i, j) && seed_of(
                packages,
                j,
            ) == Some(met[k]);
        assert(is_reached_seed(packages, i, j, met[k]));
        assert forall|j: int, s: KnownView| #[trigger]
            is_reached_seed(packages, i, j, s) implies s.confidence <= f.confidence by {
            assert(met.contains(s));
            let m = choose|m: int| 0 <= m < met.len() && met[m] == s;
            assert(met[m].confidence <= met[k].confidence);
        }
    }
}

// ---------------------------------------------------------------------------
// Lock files
// ---------------------------------------------------------------------------

/// The package at `i` is flagged: it has a name, is no seed and reaches a package that is one.
pub open spec fn is_flagged(packages: Seq<Node>, i: int) -> bool {
    &&& packages[i].field_text("name"@) is Some
    &&& seed_of(packages, i) is None
    &&& exists|j: int|
        0 <= j < packages.len() && j != i && #[trigger] reaches(packages, i, j) && seed_of(
            packages,
            j,
        ) is Some
}

proof fn lemma_flagged(source: Seq<char>, packages: Seq<Node>, i: int)
    requires
        0 <= i < packages.len(),
    ensures
        (package_finding(source, packages, i) is Some) == is_flagged(packages, i),
{
    if packages[i].field_text("name"@) is Some {
        flagged_exactly_for_reachable_seeds(source, packages, i);
    }
}

proof fn lemma_package_findings(source: Seq<char>, packages: Seq<Node>, n: int)
    requires
        0 <= n <= packages.len(),
    ensures
        package_findings(source, packages, n) == Seq::new(n as nat, |i: int| i).filter(
            |i: int| is_flagged(packages, i),
        ).map_values(|i: int| package_finding(source, packages, i).unwrap()),
    decreases n,
{
    let p = |i: int| is_flagged(packages, i);
    let g = |i: int| package_finding(source, packages, i).unwrap();
    let all = Seq::new(n as nat, |i: int| i);
    if n == 0 {
        reveal(Seq::filter);
        assert(all.filter(p).map_values(g) =~= Seq::<FindingView>::empty());
    } else {
        let t = Seq::new((n - 1) as nat, |i: int| i);
        lemma_package_findings(source, packages, n - 1);
        lemma_flagged(source, packages, n - 1);
        assert(all =~= t.push(n - 1));
        t.lemma_filter_push(n - 1, p);
        if p(n - 1) {
            assert(t.filter(p).push(n - 1).map_values(g) =~= t.filter(p).map_values(g).push(
                g(n - 1),
            ));
        }
    }
}

/// A lock file has a finding for each package that is flagged, in the order of the packages, and
/// each names its package.
pub proof fn every_flagged_package_is_found(source: Seq<char>, root: Node, packages: Seq<Node>)
    requires
        root.field_items("package"@) == Some(packages),
    ensures
        ({
            let flagged = Seq::new(packages.len(), |i: int| i).filter(
                |i: int| is_flagged(packages, i),
            );
            let found = lock_findings(source, Ok(root));
            &&& found.len() == flagged.len()
            &&& forall|k: int|
                0 <= k < found.len() ==> (#[trigger] found[k]).dep_name
                    == packages[flagged[k]].field_text("name"@) && found[k].rule_id
                    == "manifest/cargo-pq-vulnerable-dep"@
        }),
{
    let p = |i: int| is_flagged(packages, i);
    let all = Seq::new(packages.len(), |i: int| i);
    let flagged = all.filter(p);
    lemma_package_findings(source, packages, packages.len() as int);
    let found = lock_findings(source, Ok(root));
    assert forall|k: int| 0 <= k < found.len() implies (#[trigger] found[k]).dep_name
        == packages[flagged[k]].field_text("name"@) && found[k].rule_id
        == "manifest/cargo-pq-vulnerable-dep"@ by {
        all.lemma_filter_pred(p, k);
        assert(all.contains(flagged[k])) by {
            assert(all.filter(p).contains(flagged[k]));
            all.lemma_filter_contains_rev(p, flagged[k]);
        }
        let m = choose|m: int| 0 <= m < all.len() && all[m] == flagged[k];
        assert(m == flagged[k]);
        lemma_flagged(source, packages, m);
    }
}

// ---------------------------------------------------------------------------
// Where an entry stands
// ---------------------------------------------------------------------------

proof fn lemma_entry_skips(source: Seq<u8>, name: Seq<u8>, version: Seq<u8>, i: int, k: int)
    requires
        0 <= i <= k < source.len(),
        forall|j: int| i <= j < k ==> !entry_stands(source, name, version, j),
        entry_stands(source, name, version, k),
    ensures
        entry_from(source, name, version, i) == Some(k),
    decreases k - i,
{
    if i < k {
        assert(!entry_stands(source, name, version, i));
        lemma_entry_skips(source, name, version, i + 1, k);
    }
}

proof fn lemma_no_entry(source: Seq<u8>, name: Seq<u8>, version: Seq<u8>, i: int)
    requires
        0 <= i,
        forall|j: int| i <= j < source.len() ==> !entry_stands(source, name, version, j),
    ensures
        entry_from(source, name, version, i) is None,
    decreases source.len() - i,
{
    if i < source.len() {
        assert(!entry_stands(source, name, version, i));
        lemma_no_entry(source, name, version, i + 1);
    }
}

proof fn lemma_name_skips(source: Seq<u8>, name: Seq<u8>, i: int, k: int)
    requires
        0 <= i <= k < source.len(),
        forall|j: int| i <= j < k ==> !stands(source, name, j),
        stands(source, name, k),
    ensures
        name_from(source, name, i) == Some(k),
    decreases k - i,
{
    if i < k {
        assert(!stands(source, name, i));
        lemma_name_skips(source, name, i + 1, k);
    }
}

/// The bytes of `piece` stand in `source` from `i` on.
pub open spec fn bytes_at(source: Seq<u8>, piece: Seq<u8>, i: int) -> bool {
    0 <= i && i + piece.len() <= source.len() && forall|k: int|
        0 <= k < piece.len() ==> source[i + k] == #[trigger] piece[k]
}

/// The name stands at `i`, with the version behind it on the next line.
pub open spec fn name_and_version_at(source: Seq<u8>, name: Seq<u8>, version: Seq<u8>, i: int) -> bool {
    bytes_at(source, name + seq![10u8] + version, i) || bytes_at(
        source,
        name + seq![13u8, 10u8] + version,
        i,
    )
}

proof fn lemma_stands(source: Seq<u8>, piece: Seq<u8>, i: int)
    ensures
        stands(source, piece, i) <==> bytes_at(source, piece, i),
{
    if bytes_at(source, piece, i) {
        assert(source.subrange(i, i + piece.len()) =~= piece);
    }
    if stands(source, piece, i) {
        assert forall|k: int| 0 <= k < piece.len() implies source[i + k] == #[trigger] piece[k] by {
            assert(source.subrange(i, i + piece.len())[k] == source[i + k]);
        }
    }
}

proof fn lemma_bytes_at_both(source: Seq<u8>, a: Seq<u8>, b: Seq<u8>, i: int)
    ensures
        bytes_at(source, a + b, i) <==> bytes_at(source, a, i) && bytes_at(
            source,
            b,
            i + a.len(),
        ),
{
    let t = a + b;
    if bytes_at(source, t, i) {
        assert forall|k: int| 0 <= k < a.len() implies source[i + k] == #[trigger] a[k] by {
            assert(t[k] == a[k]);
        }
        assert forall|k: int| 0 <= k < b.len() implies source[i + a.len() + k] == #[trigger] b[k] by {
            assert(t[a.len() + k] == b[k]);
        }
    }
    if bytes_at(source, a, i) && bytes_at(source, b, i + a.len()) {
        assert forall|k: int| 0 <= k < t.len() implies source[i + k] == #[trigger] t[k] by {
            if k < a.len() {
                assert(t[k] == a[k]);
            } else {
                assert(t[k] == b[k - a.len()]);
            }
        }
    }
}

proof fn lemma_entry_stands(source: Seq<u8>, name: Seq<u8>, version: Seq<u8>, i: int)
    ensures
        entry_stands(source, name, version, i) <==> name_and_version_at(source, name, version, i),
{
    let lf = seq![10u8];
    let crlf = seq![13u8, 10u8];
    let after = i + name.len();
    lemma_stands(source, name, i);
    lemma_stands(source, version, after + 1);
    lemma_stands(source, version, after + 2);
    lemma_bytes_at_both(source, name + lf, version, i);
    lemma_bytes_at_both(source, name, lf, i);
    lemma_bytes_at_both(source, name + crlf, version, i);
    lemma_bytes_at_both(source, name, crlf, i);
    assert(bytes_at(source, lf, after) <==> 0 <= after < source.len() && source[after] == 10) by {
        assert(lf[0] == 10u8);
    }
    assert(bytes_at(source, crlf, after) <==> 0 <= after && after + 1 < source.len()
        && source[after] == 13 && source[after + 1] == 10) by {
        assert(crlf[0] == 13u8 && crlf[1] == 10u8);
    }
}

/// A package is placed where its name stands with its version on the next line, at the first such
/// place, and its place ends behind the version; a line may end in either way.
pub proof fn entries_are_placed_by_name_and_version(
    source: Seq<u8>,
    name: Seq<u8>,
    version: Seq<u8>,
    i: int,
)
    requires
        0 <= i < source.len(),
        name_and_version_at(source, name, version, i),
        forall|j: int| 0 <= j < i ==> !name_and_version_at(source, name, version, j),
    ensures
        bytes_at(source, name + seq![10u8] + version, i) ==> entry_range(source, name, version) == (
            i,
            (i + name.len() + 1 + version.len()) as int,
        ),
        bytes_at(source, name + seq![13u8, 10u8] + version, i) ==> entry_range(
            source,
            name,
            version,
        ) == (i, (i + name.len() + 2 + version.len()) as int),
{
    lemma_entry_stands(source, name, version, i);
    assert forall|j: int| 0 <= j < i implies !entry_stands(source, name, version, j) by {
        lemma_entry_stands(source, name, version, j);
        assert(!name_and_version_at(source, name, version, j));
    }
    lemma_entry_skips(source, name, version, 0, i);
    let lf = seq![10u8];
    let crlf = seq![13u8, 10u8];
    lemma_bytes_at_both(source, name + lf, version, i);
    lemma_bytes_at_both(source, name, lf, i);
    lemma_bytes_at_both(source, name + crlf, version, i);
    lemma_bytes_at_both(source, name, crlf, i);
    if bytes_at(source, name + lf + version, i) {
        assert(lf[0] == 10u8);
        assert(source[i + name.len() + 0] == 10u8);
    }
    if bytes_at(source, name + crlf + version, i) {
        assert(crlf[0] == 13u8 && crlf[1] == 10u8);
        assert(source[i + name.len() + 0] == 13u8);
        assert(source[i + name.len() + 1] == 10u8);
    }
}

/// Where the name nowhere stands with the version behind it, a package is placed at the first place
/// where its name stands.
pub proof fn entries_are_placed_by_name_alone(
    source: Seq<u8>,
    name: Seq<u8>,
    version: Seq<u8>,
    i: int,
)
    requires
        0 <= i < source.len(),
        bytes_at(source, name, i),
        forall|j: int| 0 <= j < i ==> !bytes_at(source, name, j),
        forall|j: int| 0 <= j < source.len() ==> !name_and_version_at(source, name, version, j),
    ensures
        entry_range(source, name, version) == (i, (i + name.len()) as int),
{
    lemma_stands(source, name, i);
    assert forall|j: int| 0 <= j < i implies !stands(source, name, j) by {
        lemma_stands(source, name, j);
    }
    assert forall|j: int| 0 <= j < source.len() implies !entry_stands(source, name, version, j) by {
        lemma_entry_stands(source, name, version, j);
    }
    lemma_no_entry(source, name, version, 0);
    lemma_name_skips(source, name, 0, i);
}

// ---------------------------------------------------------------------------
// Requirement lists
// ---------------------------------------------------------------------------

proof fn lemma_name_end(s: Seq<char>, i: int, k: int)
    requires
        0 <= i <= k <= s.len(),
        forall|j: int| i <= j < k ==> name_char(#[trigger] s[j]),
        k == s.len() || !name_char(s[k]),
    ensures
        name_end(s, i) == k,
    decreases k - i,
{
    if i < k {
        assert(name_char(s[i]));
        lemma_name_end(s, i + 1, k);
    }
}

/// A name goes as far as there are characters that may stand in one.
pub proof fn names_end_where_their_characters_do(name: Seq<char>, rest: Seq<char>)
    requires
        forall|j: int| 0 <= j < name.len() ==> name_char(#[trigger] name[j]),
        rest.len() == 0 || !name_char(rest[0]),
    ensures
        pip_name(name + rest) == name,
{
    let s = name + rest;
    assert forall|j: int| 0 <= j < name.len() implies name_char(#[trigger] s[j]) by {
        assert(s[j] == name[j]);
    }
    lemma_name_end(s, 0, name.len() as int);
    assert(s.take(name.len() as int) =~= name);
}

proof fn lemma_inner_end(s: Seq<char>, n: int) -> (k: int)
    requires
        0 <= n <= s.len(),
        forall|j: int| n <= j < s.len() ==> is_space(#[trigger] s[j]),
    ensures
        0 <= k <= n,
        forall|j: int| k <= j < s.len() ==> is_space(#[trigger] s[j]),
        k > 0 ==> !is_space(s[k - 1]),
    decreases n,
{
    if n > 0 && is_space(s[n - 1]) {
        lemma_inner_end(s, n - 1)
    } else {
        n
    }
}

proof fn lemma_trimmed_name(name: Seq<char>, rest: Seq<char>)
    requires
        name.len() > 0,
        forall|j: int|
            0 <= j < name.len() ==> name_char(#[trigger] name[j]) && !is_space(name[j]),
        rest.len() == 0 || !name_char(rest[0]),
    ensures
        pip_name(trim_text(name + rest)) == name,
{
    let k = lemma_inner_end(rest, rest.len() as int);
    let kept = rest.take(k);
    let blank = rest.skip(k);
    let t = name + kept;
    assert(all_space(blank)) by {
        assert forall|j: int| 0 <= j < blank.len() implies is_space(#[trigger] blank[j]) by {
            assert(blank[j] == rest[k + j]);
        }
    }
    assert(name + rest =~= Seq::<char>::empty() + t + blank);
    assert(t.first() == name[0]);
    assert(!is_space(t.last())) by {
        if k > 0 {
            assert(t.last() == rest[k - 1]);
        } else {
            assert(t.last() == name[name.len() - 1]);
        }
    }
    trimming_takes_the_outer_white_space(Seq::empty(), t, blank);
    if k > 0 {
        assert(kept[0] == rest[0]);
    }
    names_end_where_their_characters_do(name, kept);
}

/// A requirement begins with its package, whatever white space stands before it and whatever extras,
/// version, environment or white space stand behind.
pub proof fn requirements_begin_with_their_package(
    indent: Seq<char>,
    name: Seq<char>,
    rest: Seq<char>,
    blank: Seq<char>,
)
    requires
        all_space(indent),
        all_space(blank),
        name.len() > 0,
        forall|j: int|
            0 <= j < name.len() ==> name_char(#[trigger] name[j]) && !is_space(name[j]) && name[j]
                != ';',
        rest.len() == 0 || !name_char(rest[0]),
        rest.len() > 0 ==> !is_space(rest.last()),
        !"#"@.is_prefix_of(name + rest),
        !"-"@.is_prefix_of(name + rest),
        !"git+"@.is_prefix_of(name + rest),
        !"http://"@.is_prefix_of(name + rest),
        !"https://"@.is_prefix_of(name + rest),
    ensures
        required_name(indent + (name + rest) + blank) == name,
{
    let t = name + rest;
    assert(t.first() == name[0]);
    assert(!is_space(t.last())) by {
        if rest.len() == 0 {
            assert(t.last() == name[name.len() - 1]);
        }
    }
    trimming_takes_the_outer_white_space(indent, t, blank);
    let k = lemma_first_semicolon(rest, 0);
    let front = rest.take(k);
    let head = name + front;
    assert(!head.contains(';')) by {
        assert forall|j: int| 0 <= j < head.len() implies head[j] != ';' by {
            if j < name.len() {
                assert(head[j] == name[j]);
            } else {
                assert(head[j] == rest[j - name.len()]);
            }
        }
    }
    if k < rest.len() {
        let behind = rest.skip(k + 1);
        assert(t =~= head.push(';') + behind);
        splitting_cuts_at_each_separator(head, behind, ';');
        assert(split_text(t, ';')[0] == head);
    } else {
        assert(front =~= rest);
        splitting_cuts_at_each_separator(head, Seq::empty(), ';');
    }
    if k > 0 {
        assert(front[0] == rest[0]);
    }
    lemma_trimmed_name(name, front);
}

proof fn lemma_first_semicolon(s: Seq<char>, i: int) -> (k: int)
    requires
        0 <= i <= s.len(),
    ensures
        i <= k <= s.len(),
        forall|j: int| i <= j < k ==> s[j] != ';',
        k < s.len() ==> s[k] == ';',
    decreases s.len() - i,
{
    if i == s.len() || s[i] == ';' {
        i
    } else {
        lemma_first_semicolon(s, i + 1)
    }
}

/// The line names a known package.
pub open spec fn requires_known(line: Seq<char>) -> bool {
    required_name(line).len() > 0 && exists|k: int|
        0 <= k < pip_packages().len() && (#[trigger] pip_packages()[k]).name == normal_name(
            required_name(line),
        )
}

proof fn lemma_known_exists(table: Seq<KnownView>, name: Seq<char>, i: int)
    requires
        0 <= i,
    ensures
        (known_from(table, name, i) is Some) <==> exists|k: int|
            i <= k < table.len() && (#[trigger] table[k]).name == name,
        known_from(table, name, i) matches Some(k) ==> k.name == name,
    decreases table.len() - i,
{
    if i < table.len() {
        lemma_known_exists(table, name, i + 1);
        if table[i].name == name {
        } else if exists|k: int| i <= k < table.len() && (#[trigger] table[k]).name == name {
            let k = choose|k: int| i <= k < table.len() && (#[trigger] table[k]).name == name;
            assert(table[k].name == name && i + 1 <= k);
        }
    }
}

/// The finding names the package of line `i` and stands on it.
pub open spec fn tells_of_line(source: Seq<char>, i: int, f: FindingView) -> bool {
    &&& f.rule_id == "manifest/pip-pq-vulnerable-dep"@
    &&& f.dep_name == Some(required_name(lines_of(source)[i]))
    &&& f.line == fit(i + 1)
    &&& f.column == 1
}

proof fn lemma_requirement_findings(source: Seq<char>, n: int)
    requires
        0 <= n <= lines_of(source).len(),
    ensures
        ({
            let named = Seq::new(n as nat, |i: int| i).filter(
                |i: int| requires_known(lines_of(source)[i]),
            );
            let found = requirement_findings(source, n);
            &&& found.len() == named.len()
            &&& forall|k: int|
                0 <= k < found.len() ==> tells_of_line(source, named[k], #[trigger] found[k])
        }),
    decreases n,
{
    let p = |i: int| requires_known(lines_of(source)[i]);
    let all = Seq::new(n as nat, |i: int| i);
    let named = all.filter(p);
    let found = requirement_findings(source, n);
    if n == 0 {
        reveal(Seq::filter);
        assert(named.len() == 0);
    } else {
        let t = Seq::new((n - 1) as nat, |i: int| i);
        lemma_requirement_findings(source, n - 1);
        let before = requirement_findings(source, n - 1);
        assert(all =~= t.push(n - 1));
        t.lemma_filter_push(n - 1, p);
        let line = lines_of(source)[n - 1];
        lemma_known_exists(pip_packages(), normal_name(required_name(line)), 0);
        if p(n - 1) {
            lemma_split_nonempty(source, '\n');
            assert(inclusive_lines_of(source).len() == lines_of(source).len());
            lemma_inclusive_lines(source);
            lemma_concatenated_prefix(
                inclusive_lines_of(source),
                n - 1,
                inclusive_lines_of(source).len() as int,
            );
            let above = concatenated(inclusive_lines_of(source), n - 1);
            let rest = source.skip(above.len() as int);
            assert(source =~= above + rest) by {
                assert(above =~= source.subrange(0, above.len() as int));
            }
            lemma_encode_concat(above, rest);
            let none = Seq::<char>::empty();
            assert(none =~= inclusive_lines_of(source)[n - 1].subrange(0, 0));
            assert(encode_utf8(none).len() == 0);
            places_in_a_line_are_on_it(source, n - 1, none);
            assert(tells_of_line(source, n - 1, found[before.len() as int]));
        }
        assert forall|k: int| 0 <= k < found.len() implies tells_of_line(
            source,
            named[k],
            #[trigger] found[k],
        ) by {
            if k < before.len() {
                assert(found[k] == before[k]);
            }
        }
    }
}

/// A requirement list has a finding for each line that names a known package, in the order of the
/// lines; each stands on its line and names the package.
pub proof fn every_line_with_a_known_package_is_found(source: Seq<char>)
    ensures
        ({
            let named = Seq::new(lines_of(source).len(), |i: int| i).filter(
                |i: int| requires_known(lines_of(source)[i]),
            );
            let found = requirement_findings(source, lines_of(source).len() as int);
            &&& found.len() == named.len()
            &&& forall|k: int|
                0 <= k < found.len() ==> tells_of_line(source, named[k], #[trigger] found[k])
        }),
{
    lemma_requirement_findings(source, lines_of(source).len() as int);
}

// ---------------------------------------------------------------------------
// The lists of known packages
// ---------------------------------------------------------------------------

/// Every crate of the list is known under its name, with its algorithm and how sure it is.
pub proof fn every_listed_crate_is_known(i: int)
    requires
        0 <= i < cargo_seeds().len(),
    ensures
        known_from(cargo_seeds(), cargo_seeds()[i].name, 0) == Some(cargo_seeds()[i]),
{
    reveal_strlit("rsa");
    reveal_strlit("p256");
    reveal_strlit("p384");
    reveal_strlit("ed25519-dalek");
    reveal_strlit("x25519-dalek");
    reveal_strlit("ecdsa");
    reveal_strlit("ring");
    reveal_strlit("openssl-sys");
    reveal_strlit("aws-lc-rs");
    let table = cargo_seeds();
    assert(table.len() == 9);
    assert(table[0].name.len() == 3);
    assert(table[1].name.len() == 4);
    assert(table[2].name.len() == 4);
    assert(table[3].name.len() == 13);
    assert(table[4].name.len() == 12);
    assert(table[5].name.len() == 5);
    assert(table[6].name.len() == 4);
    assert(table[7].name.len() == 11);
    assert(table[8].name.len() == 9);
    assert(table[1].name[1] != table[2].name[1]);
    assert(table[1].name[0] != table[6].name[0]);
    assert(table[2].name[0] != table[6].name[0]);
    assert forall|j: int| 0 <= j < i implies (#[trigger] table[j]).name != table[i].name by {
        assert(table[j].name.len() > 0);
    }
    known_packages_are_those_of_the_list(table, table[i].name, i);
}

/// Every Python package of the list is known under its name, with its algorithm and how sure it is.
pub proof fn every_listed_package_is_known(i: int)
    requires
        0 <= i < pip_packages().len(),
    ensures
        known_from(pip_packages(), pip_packages()[i].name, 0) == Some(pip_packages()[i]),
{
    reveal_strlit("python-rsa");
    reveal_strlit("rsa");
    reveal_strlit("ecdsa");
    reveal_strlit("ed25519");
    reveal_strlit("pynacl");
    reveal_strlit("paramiko");
    reveal_strlit("fabric");
    reveal_strlit("cryptography");
    reveal_strlit("pyopenssl");
    reveal_strlit("pycryptodome");
    reveal_strlit("pycryptodomex");
    let table = pip_packages();
    assert(table.len() == 11);
    assert(table[0].name.len() == 10);
    assert(table[1].name.len() == 3);
    assert(table[2].name.len() == 5);
    assert(table[3].name.len() == 7);
    assert(table[4].name.len() == 6);
    assert(table[5].name.len() == 8);
    assert(table[6].name.len() == 6);
    assert(table[7].name.len() == 12);
    assert(table[8].name.len() == 9);
    assert(table[9].name.len() == 12);
    assert(table[10].name.len() == 13);
    assert(table[4].name[0] != table[6].name[0]);
    assert(table[7].name[0] != table[9].name[0]);
    assert forall|j: int| 0 <= j < i implies (#[trigger] table[j]).name != table[i].name by {
        assert(table[j].name.len() > 0);
    }
    known_packages_are_those_of_the_list(table, table[i].name, i);
}

/// A comment, an option, an address or a blank line requires nothing.
pub proof fn other_lines_require_nothing(indent: Seq<char>, line: Seq<char>, blank: Seq<char>)
    requires
        all_space(indent),
        all_space(blank),
        line.len() > 0 ==> !is_space(line.first()) && !is_space(line.last()),
        line.len() == 0 || "#"@.is_prefix_of(line) || "-"@.is_prefix_of(line)
            || "git+"@.is_prefix_of(line) || "http://"@.is_prefix_of(line)
            || "https://"@.is_prefix_of(line),
    ensures
        required_name(indent + line + blank).len() == 0,
        !requires_known(indent + line + blank),
{
    trimming_takes_the_outer_white_space(indent, line, blank);
}

/// Names are compared in small letters, and dashes, underscores and dots in them are alike: names
/// that differ in nothing else are the same.
pub proof fn separators_in_names_are_alike(a: Seq<char>, b: Seq<char>)
    requires
        unicode_lower(a).len() == unicode_lower(b).len(),
        forall|i: int|
            0 <= i < unicode_lower(a).len() ==> #[trigger] unicode_lower(a)[i] == unicode_lower(b)[i]
                || (seq!['-', '_', '.'].contains(unicode_lower(a)[i]) && seq!['-', '_', '.'].contains(
                unicode_lower(b)[i],
            )),
    ensures
        normal_name(a) == normal_name(b),
        forall|i: int|
            0 <= i < normal_name(a).len() ==> (#[trigger] normal_name(a)[i]) != '_' && normal_name(
                a,
            )[i] != '.',
        forall|i: int|
            0 <= i < normal_name(a).len() && unicode_lower(a)[i] != '_' && unicode_lower(a)[i] != '.'
                ==> #[trigger] normal_name(a)[i] == unicode_lower(a)[i],
{
    let marks = seq!['-', '_', '.'];
    assert forall|c: char| #[trigger] marks.contains(c) implies c == '-' || c == '_' || c
        == '.' by {
        let k = choose|k: int| 0 <= k < marks.len() && marks[k] == c;
        assert(marks[k] == c);
    }
    assert(normal_name(a) =~= normal_name(b));
}

/// A package is a seed exactly where its name is that of a crate of the list.
pub proof fn seeds_are_the_listed_crates(packages: Seq<Node>, i: int, name: Seq<char>)
    requires
        packages[i].field_text("name"@) == Some(name),
    ensures
        (seed_of(packages, i) is Some) <==> exists|k: int|
            0 <= k < cargo_seeds().len() && (#[trigger] cargo_seeds()[k]).name == name,
        seed_of(packages, i) matches Some(s) ==> s.name == name && cargo_seeds().contains(s),
{
    lemma_known_exists(cargo_seeds(), name, 0);
    lemma_known_is_listed(cargo_seeds(), name, 0);
}

proof fn lemma_known_is_listed(table: Seq<KnownView>, name: Seq<char>, i: int)
    requires
        0 <= i,
    ensures
        known_from(table, name, i) matches Some(s) ==> table.contains(s),
    decreases table.len() - i,
{
    if i < table.len() && table[i].name != name {
        lemma_known_is_listed(table, name, i + 1);
    }
}

} // verus!
