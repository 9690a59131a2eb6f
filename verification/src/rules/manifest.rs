//! Quantum-vulnerable cryptography among the dependencies that manifests name.

use crate::document::{parse_toml, toml_document, Node};
use crate::finding::{
    finding_views, lemma_finding_views_push, Finding, FindingView, Language, Severity,
};
use crate::paths::{file_name, last_name};
use crate::rules::common::{make_finding_from_offsets, offset_finding};
use crate::rules::pq::stands;
use crate::text::{
    chars_of, concatenated, halves_at, inclusive_lines_of, is_ascii_alnum, lines, lines_inclusive,
    lines_of, lower_text, owned, same, split, split_once, split_text, starts_with, string_between,
    texts, trim, trim_text,
};
use vstd::prelude::*;
use vstd::utf8::{encode_utf8, is_ascii_chars};

verus! {

/// A package that is known to use quantum-vulnerable cryptography.
#[derive(Debug, Clone, Copy)]
pub struct KnownPackage {
    pub name: &'static str,
    /// The algorithm it stands for, where it is one.
    pub crypto_algorithm: Option<&'static str>,
    /// How sure a finding is, as the bit pattern of a single-precision number.
    pub confidence: u32,
}

pub struct KnownView {
    pub name: Seq<char>,
    pub crypto_algorithm: Option<Seq<char>>,
    pub confidence: u32,
}

impl View for KnownPackage {
    type V = KnownView;

    open spec fn view(&self) -> KnownView {
        KnownView {
            name: self.name@,
            crypto_algorithm: match self.crypto_algorithm {
                Some(a) => Some(a@),
                None => None,
            },
            confidence: self.confidence,
        }
    }
}

pub open spec fn known_views(v: Seq<KnownPackage>) -> Seq<KnownView> {
    v.map_values(|k: KnownPackage| k@)
}

/// 0.95
pub const CONFIDENCE_95: u32 = 0x3f73_3333;

/// 0.9
pub const CONFIDENCE_90: u32 = 0x3f66_6666;

/// 0.8
pub const CONFIDENCE_80: u32 = 0x3f4c_cccd;

/// 0.7
pub const CONFIDENCE_70: u32 = 0x3f33_3333;

/// 0.6
pub const CONFIDENCE_60: u32 = 0x3f19_999a;

/// 0.5
pub const CONFIDENCE_50: u32 = 0x3f00_0000;

pub open spec fn known(name: Seq<char>, algorithm: Option<Seq<char>>, confidence: u32) -> KnownView {
    KnownView { name, crypto_algorithm: algorithm, confidence }
}

/// The crates that are looked for: first those of one algorithm, then those of several.
pub open spec fn cargo_seeds() -> Seq<KnownView> {
    seq![
        known("rsa"@, Some("RSA"@), CONFIDENCE_90),
        known("p256"@, Some("ECDSA"@), CONFIDENCE_90),
        known("p384"@, Some("ECDSA"@), CONFIDENCE_90),
        known("ed25519-dalek"@, Some("Ed25519"@), CONFIDENCE_90),
        known("x25519-dalek"@, Some("X25519"@), CONFIDENCE_90),
        known("ecdsa"@, Some("ECDSA"@), CONFIDENCE_90),
        known("ring"@, None, CONFIDENCE_60),
        known("openssl-sys"@, None, CONFIDENCE_60),
        known("aws-lc-rs"@, None, CONFIDENCE_60),
    ]
}

/// The Python packages that are looked for.
pub open spec fn pip_packages() -> Seq<KnownView> {
    seq![
        known("python-rsa"@, Some("RSA"@), CONFIDENCE_95),
        known("rsa"@, Some("RSA"@), CONFIDENCE_95),
        known("ecdsa"@, Some("ECDSA"@), CONFIDENCE_95),
        known("ed25519"@, Some("Ed25519"@), CONFIDENCE_95),
        known("pynacl"@, Some("Ed25519"@), CONFIDENCE_90),
        known("paramiko"@, Some("RSA"@), CONFIDENCE_80),
        known("fabric"@, Some("RSA"@), CONFIDENCE_70),
        known("cryptography"@, None, CONFIDENCE_50),
        known("pyopenssl"@, None, CONFIDENCE_50),
        known("pycryptodome"@, None, CONFIDENCE_50),
        known("pycryptodomex"@, None, CONFIDENCE_50),
    ]
}

fn package(name: &'static str, algorithm: Option<&'static str>, confidence: u32) -> (r: KnownPackage)
    ensures
        r@ == known(
            name@,
            match algorithm {
                Some(a) => Some(a@),
                None => None,
            },
            confidence,
        ),
{
    KnownPackage { name, crypto_algorithm: algorithm, confidence }
}

fn cargo_seed_list() -> (r: Vec<KnownPackage>)
    ensures
        known_views(r@) == cargo_seeds(),
{
    let r: Vec<KnownPackage> = vec![
        package("rsa", Some("RSA"), CONFIDENCE_90),
        package("p256", Some("ECDSA"), CONFIDENCE_90),
        package("p384", Some("ECDSA"), CONFIDENCE_90),
        package("ed25519-dalek", Some("Ed25519"), CONFIDENCE_90),
        package("x25519-dalek", Some("X25519"), CONFIDENCE_90),
        package("ecdsa", Some("ECDSA"), CONFIDENCE_90),
        package("ring", None, CONFIDENCE_60),
        package("openssl-sys", None, CONFIDENCE_60),
        package("aws-lc-rs", None, CONFIDENCE_60),
    ];
    assert(known_views(r@) =~= cargo_seeds());
    r
}

fn pip_package_list() -> (r: Vec<KnownPackage>)
    ensures
        known_views(r@) == pip_packages(),
{
    let r: Vec<KnownPackage> = vec![
        package("python-rsa", Some("RSA"), CONFIDENCE_95),
        package("rsa", Some("RSA"), CONFIDENCE_95),
        package("ecdsa", Some("ECDSA"), CONFIDENCE_95),
        package("ed25519", Some("Ed25519"), CONFIDENCE_95),
        package("pynacl", Some("Ed25519"), CONFIDENCE_90),
        package("paramiko", Some("RSA"), CONFIDENCE_80),
        package("fabric", Some("RSA"), CONFIDENCE_70),
        package("cryptography", None, CONFIDENCE_50),
        package("pyopenssl", None, CONFIDENCE_50),
        package("pycryptodome", None, CONFIDENCE_50),
        package("pycryptodomex", None, CONFIDENCE_50),
    ];
    assert(known_views(r@) =~= pip_packages());
    r
}

/// The first package from `i` on with the given name.
pub open spec fn known_from(table: Seq<KnownView>, name: Seq<char>, i: int) -> Option<KnownView>
    decreases table.len() - i,
{
    if i < 0 || i >= table.len() {
        None
    } else if table[i].name == name {
        Some(table[i])
    } else {
        known_from(table, name, i + 1)
    }
}

fn find_known(table: &Vec<KnownPackage>, name: &str) -> (r: Option<KnownPackage>)
    ensures
        match r {
            Some(k) => known_from(known_views(table@), name@, 0) == Some(k@),
            None => known_from(known_views(table@), name@, 0) is None,
        },
{
    let ghost views = known_views(table@);
    let mut i: usize = 0;
    while i < table.len()
        invariant
            i <= table@.len(),
            views == known_views(table@),
            known_from(views, name@, 0) == known_from(views, name@, i as int),
        decreases table@.len() - i,
    {
        assert(views[i as int] == table@[i as int]@);
        if same(table[i].name, name) {
            return Some(table[i]);
        }
        i = i + 1;
    }
    None
}

// ---------------------------------------------------------------------------
// The dependency graph of a lock file
// ---------------------------------------------------------------------------

/// The name of a dependency, which a version may follow.
pub open spec fn dependency_name(text: Seq<char>) -> Seq<char> {
    match halves_at(text, ' ') {
        Some(h) => h.0,
        None => text,
    }
}

/// The packages among the first `n` that have the given name.
pub open spec fn packages_named(packages: Seq<Node>, name: Seq<char>, n: int) -> Seq<int>
    decreases n,
{
    if n <= 0 {
        Seq::empty()
    } else {
        let before = packages_named(packages, name, n - 1);
        if packages[n - 1].field_text("name"@) == Some(name) {
            before.push(n - 1)
        } else {
            before
        }
    }
}

/// The packages that the first `n` entries of a dependency list name.
pub open spec fn listed_packages(packages: Seq<Node>, deps: Seq<Node>, n: int) -> Seq<int>
    decreases n,
{
    if n <= 0 {
        Seq::empty()
    } else {
        let before = listed_packages(packages, deps, n - 1);
        match deps[n - 1].text() {
            Some(text) => before + packages_named(
                packages,
                dependency_name(text),
                packages.len() as int,
            ),
            None => before,
        }
    }
}

/// The packages that the one at `i` depends on.
pub open spec fn depends_on(packages: Seq<Node>, i: int) -> Seq<int> {
    match packages[i].field_items("dependencies"@) {
        Some(deps) => listed_packages(packages, deps, deps.len() as int),
        None => Seq::empty(),
    }
}

fn packages_with_name(packages: &Vec<Node>, name: &str, out: &mut Vec<usize>)
    ensures
        as_ints(final(out)@) == as_ints(old(out)@) + packages_named(
            packages@,
            name@,
            packages@.len() as int,
        ),
        forall|k: int|
            old(out)@.len() <= k < final(out)@.len() ==> (#[trigger] final(out)@[k])
                < packages@.len(),
        old(out)@.is_prefix_of(final(out)@),
{
    let ghost start = as_ints(out@);
    let ghost begin = out@;
    let mut i: usize = 0;
    assert(as_ints(out@) =~= start + packages_named(packages@, name@, 0));
    while i < packages.len()
        invariant
            i <= packages@.len(),
            as_ints(out@) == start + packages_named(packages@, name@, i as int),
            begin.is_prefix_of(out@),
            forall|k: int| begin.len() <= k < out@.len() ==> (#[trigger] out@[k]) < packages@.len(),
        decreases packages@.len() - i,
    {
        let hit = match packages[i].get_str("name") {
            Some(n) => same(n, name),
            None => false,
        };
        if hit {
            let ghost before = out@;
            out.push(i);
            assert(as_ints(out@) =~= as_ints(before).push(i as int));
            assert(as_ints(out@) =~= start + packages_named(packages@, name@, i + 1));
            assert(begin.is_prefix_of(out@));
        }
        i = i + 1;
    }
}

pub open spec fn as_ints(v: Seq<usize>) -> Seq<int> {
    v.map_values(|n: usize| n as int)
}

/// The packages that the one at `i` depends on.
fn dependencies(packages: &Vec<Node>, i: usize) -> (r: Vec<usize>)
    requires
        i < packages@.len(),
    ensures
        as_ints(r@) == depends_on(packages@, i as int),
        forall|k: int| 0 <= k < r@.len() ==> (#[trigger] r@[k]) < packages@.len(),
{
    let mut r: Vec<usize> = Vec::new();
    assert(as_ints(r@) =~= Seq::<int>::empty());
    if let Some(deps) = packages[i].get_list("dependencies") {
        let mut k: usize = 0;
        while k < deps.len()
            invariant
                k <= deps@.len(),
                as_ints(r@) == listed_packages(packages@, deps@, k as int),
                forall|m: int| 0 <= m < r@.len() ==> (#[trigger] r@[m]) < packages@.len(),
            decreases deps@.len() - k,
        {
            if let Some(text) = deps[k].as_str() {
                let name: String = match split_once(text, ' ') {
                    Some((name, _)) => name,
                    None => owned(text),
                };
                let ghost before = r@;
                packages_with_name(packages, name.as_str(), &mut r);
                assert forall|m: int| 0 <= m < r@.len() implies (#[trigger] r@[m])
                    < packages@.len() by {
                    if m < before.len() {
                        assert(r@[m] == before[m]);
                    }
                }
            }
            k = k + 1;
        }
    }
    r
}

/// What is known while the dependencies of a package are walked, nearest first: the packages that
/// were seen, those whose own dependencies are still to be looked at, and the seeds that were met.
#[verifier::ext_equal]
pub struct Walk {
    pub seen: Seq<bool>,
    pub queue: Seq<int>,
    pub met: Seq<KnownView>,
}

/// The seed that the package at `i` is.
pub open spec fn seed_of(packages: Seq<Node>, i: int) -> Option<KnownView> {
    match packages[i].field_text("name"@) {
        Some(name) => known_from(cargo_seeds(), name, 0),
        None => known_from(cargo_seeds(), ""@, 0),
    }
}

/// The walk once the first `n` of the given packages are met.
pub open spec fn meet(packages: Seq<Node>, next: Seq<int>, n: int, w: Walk) -> Walk
    decreases n,
{
    if n <= 0 {
        w
    } else {
        let before = meet(packages, next, n - 1, w);
        let p = next[n - 1];
        if 0 <= p < before.seen.len() && !before.seen[p] {
            Walk {
                seen: before.seen.update(p, true),
                queue: before.queue.push(p),
                met: match seed_of(packages, p) {
                    Some(s) => before.met.push(s),
                    None => before.met,
                },
            }
        } else {
            before
        }
    }
}

/// How many packages were not seen.
pub open spec fn unseen(seen: Seq<bool>) -> nat
    decreases seen.len(),
{
    if seen.len() == 0 {
        0
    } else {
        unseen(seen.drop_last()) + if seen.last() {
            0nat
        } else {
            1nat
        }
    }
}

proof fn lemma_unseen_update(seen: Seq<bool>, p: int)
    requires
        0 <= p < seen.len(),
        !seen[p],
    ensures
        unseen(seen.update(p, true)) == unseen(seen) - 1,
    decreases seen.len(),
{
    if p == seen.len() - 1 {
        assert(seen.update(p, true).drop_last() =~= seen.drop_last());
    } else {
        lemma_unseen_update(seen.drop_last(), p);
        assert(seen.update(p, true).drop_last() =~= seen.drop_last().update(p, true));
    }
}

proof fn lemma_meet_measure(packages: Seq<Node>, next: Seq<int>, n: int, w: Walk)
    ensures
        2 * unseen(meet(packages, next, n, w).seen) + meet(packages, next, n, w).queue.len() <= 2
            * unseen(w.seen) + w.queue.len(),
        meet(packages, next, n, w).seen.len() == w.seen.len(),
    decreases n,
{
    if n > 0 {
        lemma_meet_measure(packages, next, n - 1, w);
        let before = meet(packages, next, n - 1, w);
        let p = next[n - 1];
        if 0 <= p < before.seen.len() && !before.seen[p] {
            lemma_unseen_update(before.seen, p);
        }
    }
}

/// The walk to its end.
pub open spec fn walk(packages: Seq<Node>, w: Walk) -> Walk
    decreases 2 * unseen(w.seen) + w.queue.len(),
    via walk_ends
{
    if w.queue.len() == 0 {
        w
    } else {
        let next = depends_on(packages, w.queue[0]);
        walk(
            packages,
            meet(packages, next, next.len() as int, Walk { queue: w.queue.drop_first(), ..w }),
        )
    }
}

#[via_fn]
proof fn walk_ends(packages: Seq<Node>, w: Walk) {
    if w.queue.len() > 0 {
        let next = depends_on(packages, w.queue[0]);
        lemma_meet_measure(
            packages,
            next,
            next.len() as int,
            Walk { queue: w.queue.drop_first(), ..w },
        );
    }
}

/// The walk that begins at the package at `i`.
pub open spec fn walk_from(packages: Seq<Node>, i: int) -> Walk {
    Walk {
        seen: Seq::new(packages.len(), |k: int| k == i),
        queue: seq![i],
        met: Seq::empty(),
    }
}

/// The seeds that the package at `i` depends on, in the order in which they are met.
pub open spec fn seeds_met(packages: Seq<Node>, i: int) -> Seq<KnownView> {
    walk(packages, walk_from(packages, i)).met
}

/// The first of the surest among the first `n` seeds.
pub open spec fn surest(met: Seq<KnownView>, n: int) -> KnownView
    decreases n,
{
    if n <= 1 {
        met[0]
    } else {
        let before = surest(met, n - 1);
        if met[n - 1].confidence > before.confidence {
            met[n - 1]
        } else {
            before
        }
    }
}

fn is_seed(seeds: &Vec<KnownPackage>, packages: &Vec<Node>, i: usize) -> (r: Option<KnownPackage>)
    requires
        i < packages@.len(),
        known_views(seeds@) == cargo_seeds(),
    ensures
        match r {
            Some(k) => seed_of(packages@, i as int) == Some(k@),
            None => seed_of(packages@, i as int) is None,
        },
{
    match packages[i].get_str("name") {
        Some(name) => find_known(seeds, name),
        None => find_known(seeds, ""),
    }
}

/// The seeds that the package at `i` depends on, in the order in which they are met.
fn walk_dependencies(
    seeds: &Vec<KnownPackage>,
    packages: &Vec<Node>,
    graph: &Vec<Vec<usize>>,
    i: usize,
) -> (r: Vec<KnownPackage>)
    requires
        i < packages@.len(),
        known_views(seeds@) == cargo_seeds(),
        graph@.len() == packages@.len(),
        forall|k: int|
            0 <= k < graph@.len() ==> as_ints(#[trigger] graph@[k]@) == depends_on(packages@, k),
        forall|k: int, m: int|
            0 <= k < graph@.len() && 0 <= m < graph@[k]@.len() ==> (#[trigger] graph@[k]@[m])
                < packages@.len(),
    ensures
        known_views(r@) == seeds_met(packages@, i as int),
{
    let n: usize = packages.len();
    let mut seen: Vec<bool> = Vec::new();
    seen.resize(n, false);
    seen.set(i, true);
    let mut queue: Vec<usize> = Vec::new();
    queue.push(i);
    let mut met: Vec<KnownPackage> = Vec::new();
    let mut head: usize = 0;
    let ghost target = walk(packages@, walk_from(packages@, i as int));
    proof {
        assert(seen@ =~= Seq::new(n as nat, |k: int| k == i));
        assert(as_ints(queue@).skip(0) =~= seq![i as int]);
        assert(known_views(met@) =~= Seq::<KnownView>::empty());
        assert(Walk {
            seen: seen@,
            queue: as_ints(queue@).skip(0),
            met: known_views(met@),
        } =~= walk_from(packages@, i as int));
    }
    while head < queue.len()
        invariant
            n == packages@.len(),
            known_views(seeds@) == cargo_seeds(),
            graph@.len() == packages@.len(),
            forall|k: int|
                0 <= k < graph@.len() ==> as_ints(#[trigger] graph@[k]@) == depends_on(
                    packages@,
                    k,
                ),
            forall|k: int, m: int|
                0 <= k < graph@.len() && 0 <= m < graph@[k]@.len() ==> (#[trigger] graph@[k]@[m])
                    < packages@.len(),
            head <= queue@.len(),
            seen@.len() == n,
            forall|k: int| 0 <= k < queue@.len() ==> (#[trigger] queue@[k]) < n,
            walk(
                packages@,
                Walk {
                    seen: seen@,
                    queue: as_ints(queue@).skip(head as int),
                    met: known_views(met@),
                },
            ) == target,
        decreases 2 * unseen(seen@) + queue@.len() - head,
    {
        let node: usize = queue[head];
        let ghost now = Walk {
            seen: seen@,
            queue: as_ints(queue@).skip(head as int),
            met: known_views(met@),
        };
        let ghost next = depends_on(packages@, node as int);
        head = head + 1;
        let ghost start = Walk {
            seen: seen@,
            queue: as_ints(queue@).skip(head as int),
            met: known_views(met@),
        };
        proof {
            assert(now.queue[0] == node);
            assert(now.queue.drop_first() =~= start.queue);
            assert(Walk { queue: now.queue.drop_first(), ..now } =~= start);
            assert(as_ints(graph@[node as int]@) == next);
            lemma_meet_measure(packages@, next, next.len() as int, start);
        }
        let row = &graph[node];
        let mut k: usize = 0;
        while k < row.len()
            invariant
                n == packages@.len(),
                known_views(seeds@) == cargo_seeds(),
                k <= row@.len(),
                as_ints(row@) == next,
                forall|m: int| 0 <= m < row@.len() ==> (#[trigger] row@[m]) < n,
                head <= queue@.len(),
                seen@.len() == n,
                forall|m: int| 0 <= m < queue@.len() ==> (#[trigger] queue@[m]) < n,
                (Walk {
                    seen: seen@,
                    queue: as_ints(queue@).skip(head as int),
                    met: known_views(met@),
                }) == meet(packages@, next, k as int, start),
            decreases row@.len() - k,
        {
            let p: usize = row[k];
            assert(next[k as int] == p);
            if !seen[p] {
                let ghost queue_before = queue@;
                let ghost met_before = met@;
                seen.set(p, true);
                if let Some(s) = is_seed(seeds, packages, p) {
                    met.push(s);
                    assert(known_views(met@) =~= known_views(met_before).push(s@));
                }
                queue.push(p);
                assert(as_ints(queue@).skip(head as int) =~= as_ints(queue_before).skip(
                    head as int,
                ).push(p as int));
            }
            k = k + 1;
        }
    }
    proof {
        assert(as_ints(queue@).skip(head as int) =~= Seq::<int>::empty());
    }
    met
}

fn pick_surest(met: &Vec<KnownPackage>) -> (r: KnownPackage)
    requires
        met@.len() > 0,
    ensures
        r@ == surest(known_views(met@), met@.len() as int),
{
    let ghost views = known_views(met@);
    let mut best: KnownPackage = met[0];
    let mut i: usize = 1;
    assert(views[0] == met@[0]@);
    while i < met.len()
        invariant
            1 <= i <= met@.len(),
            views == known_views(met@),
            best@ == surest(views, i as int),
        decreases met@.len() - i,
    {
        assert(views[i as int] == met@[i as int]@);
        if met[i].confidence > best.confidence {
            best = met[i];
        }
        i = i + 1;
    }
    best
}

// ---------------------------------------------------------------------------
// Where a package stands in a lock file
// ---------------------------------------------------------------------------

/// How many bytes end the line at `at`: two for a carriage return and a line feed, one for a line
/// feed alone, none where no line ends there.
pub open spec fn line_end_length(source: Seq<u8>, at: int) -> int {
    if 0 <= at < source.len() && source[at] == 10 {
        1
    } else if 0 <= at && at + 1 < source.len() && source[at] == 13 && source[at + 1] == 10 {
        2
    } else {
        0
    }
}

/// The name stands at `i`, and the version on the line below.
pub open spec fn entry_stands(source: Seq<u8>, name: Seq<u8>, version: Seq<u8>, i: int) -> bool {
    let after = i + name.len();
    let gap = line_end_length(source, after);
    stands(source, name, i) && gap > 0 && stands(source, version, after + gap)
}

/// The first position from `i` on at which the entry stands.
pub open spec fn entry_from(source: Seq<u8>, name: Seq<u8>, version: Seq<u8>, i: int) -> Option<int>
    decreases source.len() - i,
{
    if i < 0 || i >= source.len() {
        None
    } else if entry_stands(source, name, version, i) {
        Some(i)
    } else {
        entry_from(source, name, version, i + 1)
    }
}

/// The first position from `i` on at which the name stands.
pub open spec fn name_from(source: Seq<u8>, name: Seq<u8>, i: int) -> Option<int>
    decreases source.len() - i,
{
    if i < 0 || i >= source.len() {
        None
    } else if stands(source, name, i) {
        Some(i)
    } else {
        name_from(source, name, i + 1)
    }
}

/// The bytes of the entry with the given name and version; failing that, of the name alone.
pub open spec fn entry_range(source: Seq<u8>, name: Seq<u8>, version: Seq<u8>) -> (int, int) {
    match entry_from(source, name, version, 0) {
        Some(i) => {
            let after = i + name.len();
            (i, after + line_end_length(source, after) + version.len())
        },
        None => match name_from(source, name, 0) {
            Some(i) => (i, i + name.len()),
            None => (0, name.len() as int),
        },
    }
}

fn slice_stands(hay: &[u8], needle: &[u8], i: usize) -> (r: bool)
    ensures
        r == stands(hay@, needle@, i as int),
{
    let total: usize = hay.len();
    let n: usize = needle.len();
    if i > total || n > total - i {
        return false;
    }
    let mut k: usize = 0;
    while k < n
        invariant
            k <= n,
            n == needle@.len(),
            total == hay@.len(),
            i + n <= total,
            forall|m: int| 0 <= m < k ==> hay@[i + m] == needle@[m],
        decreases n - k,
    {
        if hay[i + k] != needle[k] {
            assert(hay@.subrange(i as int, i + n)[k as int] != needle@[k as int]);
            return false;
        }
        k = k + 1;
    }
    assert(hay@.subrange(i as int, i + n) =~= needle@);
    true
}

/// The bytes of the entry with the given name and version; failing that, of the name alone. A line
/// may end with a line feed or with a carriage return before it, and the version tells packages
/// of one name apart.
pub fn find_name_version_offset(source: &str, name_pat: &str, ver_pat: &str) -> (r: (usize, usize))
    ensures
        (r.0 as int, r.1 as int) == entry_range(
            encode_utf8(source@),
            encode_utf8(name_pat@),
            encode_utf8(ver_pat@),
        ),
{
    let bytes = source.as_bytes();
    let name = name_pat.as_bytes();
    let version = ver_pat.as_bytes();
    let total: usize = bytes.len();
    let n: usize = name.len();
    let mut i: usize = 0;
    while i < total
        invariant
            i <= total,
            total == bytes@.len(),
            n == name@.len(),
            bytes@ == encode_utf8(source@),
            name@ == encode_utf8(name_pat@),
            version@ == encode_utf8(ver_pat@),
            entry_from(bytes@, name@, version@, 0) == entry_from(
                bytes@,
                name@,
                version@,
                i as int,
            ),
        decreases total - i,
    {
        if slice_stands(bytes, name, i) {
            let after: usize = i + n;
            let gap: usize = if after < total && bytes[after] == 10 {
                1
            } else if after < total && total - after > 1 && bytes[after] == 13 && bytes[after + 1]
                == 10 {
                2
            } else {
                0
            };
            if gap > 0 && slice_stands(bytes, version, after + gap) {
                return (i, after + gap + version.len());
            }
        }
        i = i + 1;
    }
    let mut k: usize = 0;
    while k < total
        invariant
            k <= total,
            total == bytes@.len(),
            n == name@.len(),
            bytes@ == encode_utf8(source@),
            name@ == encode_utf8(name_pat@),
            version@ == encode_utf8(ver_pat@),
            entry_from(bytes@, name@, version@, 0) is None,
            name_from(bytes@, name@, 0) == name_from(bytes@, name@, k as int),
        decreases total - k,
    {
        if slice_stands(bytes, name, k) {
            return (k, k + n);
        }
        k = k + 1;
    }
    (0, n)
}

// ---------------------------------------------------------------------------
// Lock files of Cargo
// ---------------------------------------------------------------------------

/// The rule on the lock files of Cargo.
#[derive(Debug, Clone, Copy)]
pub struct CargoLockPqCrypto;

/// The rule on the requirement lists of pip.
#[derive(Debug, Clone, Copy)]
pub struct RequirementsTxtPqCrypto;

/// What a finding says of a package that depends on a seed.
pub open spec fn cargo_description(name: Seq<char>, seed: KnownView) -> Seq<char> {
    match seed.crypto_algorithm {
        Some(algorithm) => "Crate `"@ + name + "` transitively depends on `"@ + seed.name
            + "` (PQ-vulnerable "@ + algorithm + ")"@,
        None => "Crate `"@ + name + "` transitively depends on `"@ + seed.name
            + "` (uses mixed classical cryptography)"@,
    }
}

/// `name = "..."` or `version = "..."`, as a lock file has it.
pub open spec fn assignment(key: Seq<char>, value: Seq<char>) -> Seq<char> {
    key + " = \""@ + value + "\""@
}

/// The finding on a package that depends on a seed.
pub open spec fn cargo_finding(
    source: Seq<char>,
    name: Seq<char>,
    version: Seq<char>,
    seed: KnownView,
) -> FindingView {
    let range = entry_range(
        encode_utf8(source),
        encode_utf8(assignment("name"@, name)),
        encode_utf8(assignment("version"@, version)),
    );
    FindingView {
        tags: seq!["PQ"@],
        crypto_algorithm: seed.crypto_algorithm,
        confidence: seed.confidence,
        dep_name: Some(name),
        ..offset_finding(
            "manifest/cargo-pq-vulnerable-dep"@,
            Severity::High,
            Some("CWE-327"@),
            cargo_description(name, seed),
            source,
            range.0,
            range.1,
        )
    }
}

/// The finding on the package at `i`, if there is one: it has a name, is no seed itself and depends
/// on one.
pub open spec fn package_finding(source: Seq<char>, packages: Seq<Node>, i: int) -> Option<
    FindingView,
> {
    match packages[i].field_text("name"@) {
        None => None,
        Some(name) => {
            let met = seeds_met(packages, i);
            if known_from(cargo_seeds(), name, 0) is Some || met.len() == 0 {
                None
            } else {
                Some(
                    cargo_finding(
                        source,
                        name,
                        match packages[i].field_text("version"@) {
                            Some(v) => v,
                            None => "?"@,
                        },
                        surest(met, met.len() as int),
                    ),
                )
            }
        },
    }
}

/// The findings on the first `n` packages.
pub open spec fn package_findings(source: Seq<char>, packages: Seq<Node>, n: int) -> Seq<FindingView>
    decreases n,
{
    if n <= 0 {
        Seq::empty()
    } else {
        let before = package_findings(source, packages, n - 1);
        match package_finding(source, packages, n - 1) {
            Some(f) => before.push(f),
            None => before,
        }
    }
}

/// The findings in a lock file that was read.
pub open spec fn lock_findings(source: Seq<char>, document: Result<Node, String>) -> Seq<
    FindingView,
> {
    match document {
        Err(_) => Seq::empty(),
        Ok(root) => match root.field_items("package"@) {
            Some(packages) => package_findings(source, packages, packages.len() as int),
            None => Seq::empty(),
        },
    }
}

fn assign(key: &str, value: &str) -> (r: String)
    ensures
        r@ == assignment(key@, value@),
{
    let mut s: String = owned(key);
    s.append(" = \"");
    s.append(value);
    s.append("\"");
    s
}

fn describe_cargo(name: &str, seed: &KnownPackage) -> (r: String)
    ensures
        r@ == cargo_description(name@, seed@),
{
    let mut s: String = owned("Crate `");
    s.append(name);
    s.append("` transitively depends on `");
    s.append(seed.name);
    match seed.crypto_algorithm {
        Some(algorithm) => {
            s.append("` (PQ-vulnerable ");
            s.append(algorithm);
            s.append(")");
        },
        None => {
            s.append("` (uses mixed classical cryptography)");
        },
    }
    s
}

fn pq_tags() -> (r: Vec<String>)
    ensures
        texts(r@) == seq!["PQ"@],
{
    let mut tags: Vec<String> = Vec::new();
    tags.push(owned("PQ"));
    assert(texts(tags@) =~= seq!["PQ"@]);
    tags
}

fn make_cargo_finding(source: &str, name: &str, version: &str, seed: KnownPackage) -> (r: Finding)
    ensures
        r@ == cargo_finding(source@, name@, version@, seed@),
{
    let name_pat = assign("name", name);
    let ver_pat = assign("version", version);
    let (start, end) = find_name_version_offset(source, name_pat.as_str(), ver_pat.as_str());
    let description = describe_cargo(name, &seed);
    let mut f = make_finding_from_offsets(
        "manifest/cargo-pq-vulnerable-dep",
        Severity::High,
        Some("CWE-327"),
        description.as_str(),
        source,
        start,
        end,
    );
    f.tags = pq_tags();
    f.crypto_algorithm = match seed.crypto_algorithm {
        Some(a) => Some(owned(a)),
        None => None,
    };
    f.confidence = seed.confidence;
    f.dep_name = Some(owned(name));
    f
}

/// The findings in a lock file that was read.
pub fn check_lock_document(source: &str, document: &Result<Node, String>) -> (r: Vec<Finding>)
    ensures
        finding_views(r@) == lock_findings(source@, *document),
{
    let mut r: Vec<Finding> = Vec::new();
    assert(finding_views(r@) =~= Seq::<FindingView>::empty());
    let root = match document {
        Ok(root) => root,
        Err(_) => {
            return r;
        },
    };
    let packages = match root.get_list("package") {
        Some(p) => p,
        None => {
            return r;
        },
    };
    let seeds = cargo_seed_list();
    let mut graph: Vec<Vec<usize>> = Vec::new();
    let mut i: usize = 0;
    while i < packages.len()
        invariant
            i <= packages@.len(),
            graph@.len() == i,
            forall|k: int|
                0 <= k < i ==> as_ints(#[trigger] graph@[k]@) == depends_on(packages@, k),
            forall|k: int, m: int|
                0 <= k < i && 0 <= m < graph@[k]@.len() ==> (#[trigger] graph@[k]@[m])
                    < packages@.len(),
        decreases packages@.len() - i,
    {
        let row = dependencies(packages, i);
        graph.push(row);
        i = i + 1;
    }
    let mut k: usize = 0;
    while k < packages.len()
        invariant
            k <= packages@.len(),
            known_views(seeds@) == cargo_seeds(),
            graph@.len() == packages@.len(),
            forall|m: int|
                0 <= m < graph@.len() ==> as_ints(#[trigger] graph@[m]@) == depends_on(
                    packages@,
                    m,
                ),
            forall|m: int, q: int|
                0 <= m < graph@.len() && 0 <= q < graph@[m]@.len() ==> (#[trigger] graph@[m]@[q])
                    < packages@.len(),
            finding_views(r@) == package_findings(source@, packages@, k as int),
        decreases packages@.len() - k,
    {
        if let Some(name) = packages[k].get_str("name") {
            if find_known(&seeds, name).is_none() {
                let met = walk_dependencies(&seeds, packages, &graph, k);
                assert(known_views(met@).len() == met@.len());
                if met.len() > 0 {
                    let best = pick_surest(&met);
                    let version: &str = match packages[k].get_str("version") {
                        Some(v) => v,
                        None => "?",
                    };
                    let f = make_cargo_finding(source, name, version, best);
                    proof {
                        lemma_finding_views_push(r@, f);
                    }
                    r.push(f);
                }
            }
        }
        k = k + 1;
    }
    r
}

impl CargoLockPqCrypto {
    pub fn id(&self) -> (r: &'static str)
        ensures
            r@ == "manifest/cargo-pq-vulnerable-dep"@,
    {
        "manifest/cargo-pq-vulnerable-dep"
    }

    pub fn severity(&self) -> (r: Severity)
        ensures
            r == Severity::High,
    {
        Severity::High
    }

    pub fn cwe(&self) -> (r: Option<&'static str>)
        ensures
            r matches Some(c) && c@ == "CWE-327"@,
    {
        Some("CWE-327")
    }

    pub fn description(&self) -> (r: &'static str)
        ensures
            r@ == "Dependency uses quantum-vulnerable cryptographic algorithm"@,
    {
        "Dependency uses quantum-vulnerable cryptographic algorithm"
    }

    pub fn language(&self) -> (r: Language)
        ensures
            r == Language::Manifest,
    {
        Language::Manifest
    }

    pub fn cnsa2_deadline(&self) -> (r: Option<&'static str>)
        ensures
            r matches Some(d) && d@ == "2033"@,
    {
        Some("2033")
    }

    /// The rule looks at files of this name.
    pub fn applies_to_path(&self, path: &str) -> (r: bool)
        ensures
            r == (last_name(path@) == Some("Cargo.lock"@)),
    {
        match file_name(path) {
            Some(name) => same(name.as_str(), "Cargo.lock"),
            None => false,
        }
    }

    /// The packages of a lock file that depend, directly or not, on a crate with
    /// quantum-vulnerable cryptography.
    pub fn check(&self, source: &str) -> (r: Vec<Finding>)
        ensures
            finding_views(r@) == lock_findings(source@, toml_document(source@)),
    {
        check_lock_document(source, &parse_toml(source))
    }
}

// ---------------------------------------------------------------------------
// Requirement lists of pip
// ---------------------------------------------------------------------------

/// The character has the Unicode property of letters or numbers.
pub uninterp spec fn unicode_alphanumeric(c: char) -> bool;

/// `char::is_alphanumeric` is a function of the character; of ASCII characters it holds for
/// letters and digits.
pub assume_specification[ char::is_alphanumeric ](c: char) -> (r: bool)
    ensures
        r == unicode_alphanumeric(c),
        (c as u32) < 128 ==> r == is_ascii_alnum(c),
;

/// The text in small letters, by the rules of Unicode.
pub uninterp spec fn unicode_lower(s: Seq<char>) -> Seq<char>;

/// `str::to_lowercase` is a function of the text; of an ASCII text it changes the capitals.
pub assume_specification[ str::to_lowercase ](s: &str) -> (r: String)
    ensures
        r@ == unicode_lower(s@),
        is_ascii_chars(s@) ==> r@ == lower_text(s@),
;

/// The character may stand in a package's name.
pub open spec fn name_char(c: char) -> bool {
    unicode_alphanumeric(c) || c == '-' || c == '_' || c == '.'
}

/// How many characters from `i` on may stand in a package's name.
pub open spec fn name_end(s: Seq<char>, i: int) -> int
    decreases s.len() - i,
{
    if i < 0 || i >= s.len() || !name_char(s[i]) {
        i
    } else {
        name_end(s, i + 1)
    }
}

/// The name with which a requirement begins.
pub open spec fn pip_name(s: Seq<char>) -> Seq<char> {
    s.take(name_end(s, 0))
}

/// The name with which a requirement begins, before extras and versions.
pub fn extract_pip_package_name(s: &str) -> (r: String)
    ensures
        r@ == pip_name(s@),
{
    let c = chars_of(s);
    let mut i: usize = 0;
    while i < c.len() && (c[i].is_alphanumeric() || c[i] == '-' || c[i] == '_' || c[i] == '.')
        invariant
            i <= c@.len(),
            c@ == s@,
            name_end(s@, 0) == name_end(s@, i as int),
        decreases c@.len() - i,
    {
        i = i + 1;
    }
    assert(c@.subrange(0, i as int) =~= s@.take(i as int));
    string_between(&c, 0, i)
}

/// The form in which names are compared: small letters, with dashes for underscores and dots.
pub open spec fn normal_name(s: Seq<char>) -> Seq<char> {
    unicode_lower(s).map_values(
        |c: char|
            if c == '_' || c == '.' {
                '-'
            } else {
                c
            },
    )
}

fn normalized_name(s: &str) -> (r: String)
    ensures
        r@ == normal_name(s@),
{
    let lower = s.to_lowercase();
    let c = chars_of(lower.as_str());
    let mut r: String = String::new();
    let mut i: usize = 0;
    while i < c.len()
        invariant
            i <= c@.len(),
            c@ == unicode_lower(s@),
            r@ =~= c@.take(i as int).map_values(
                |c: char|
                    if c == '_' || c == '.' {
                        '-'
                    } else {
                        c
                    },
            ),
        decreases c@.len() - i,
    {
        r.push(
            if c[i] == '_' || c[i] == '.' {
                '-'
            } else {
                c[i]
            },
        );
        i = i + 1;
    }
    assert(c@.take(i as int) =~= c@);
    r
}

/// The line names no package: it is blank, a comment, an option or an address.
pub open spec fn no_requirement(line: Seq<char>) -> bool {
    ||| line.len() == 0
    ||| "#"@.is_prefix_of(line)
    ||| "-"@.is_prefix_of(line)
    ||| "git+"@.is_prefix_of(line)
    ||| "http://"@.is_prefix_of(line)
    ||| "https://"@.is_prefix_of(line)
}

/// The package that a line names, without extras, version and environment.
pub open spec fn required_name(line: Seq<char>) -> Seq<char> {
    let trimmed = trim_text(line);
    if no_requirement(trimmed) {
        Seq::empty()
    } else {
        pip_name(trim_text(split_text(trimmed, ';')[0]))
    }
}

pub open spec fn pip_description(name: Seq<char>, k: KnownView) -> Seq<char> {
    match k.crypto_algorithm {
        Some(algorithm) => "Package `"@ + name + "` uses "@ + algorithm + " (PQ-vulnerable)"@,
        None => "Package `"@ + name
            + "` may use PQ-vulnerable algorithms (RSA, ECDSA, Ed25519)"@,
    }
}

/// The finding on a line that names a known package.
pub open spec fn pip_finding(
    source: Seq<char>,
    name: Seq<char>,
    k: KnownView,
    start: int,
    end: int,
) -> FindingView {
    FindingView {
        tags: seq!["PQ"@],
        crypto_algorithm: k.crypto_algorithm,
        confidence: k.confidence,
        dep_name: Some(name),
        fix_suggestion: if k.crypto_algorithm is None {
            Some(
                "Review usage — `"@ + name
                    + "` also provides PQ-safe primitives (AES, SHA-256)"@,
            )
        } else {
            None
        },
        ..offset_finding(
            "manifest/pip-pq-vulnerable-dep"@,
            Severity::High,
            Some("CWE-327"@),
            pip_description(name, k),
            source,
            start,
            end,
        )
    }
}

/// The findings on the first `n` lines.
pub open spec fn requirement_findings(source: Seq<char>, n: int) -> Seq<FindingView>
    decreases n,
{
    if n <= 0 {
        Seq::empty()
    } else {
        let before = requirement_findings(source, n - 1);
        let line = lines_of(source)[n - 1];
        let name = required_name(line);
        let start = encode_utf8(concatenated(inclusive_lines_of(source), n - 1)).len() as int;
        match known_from(pip_packages(), normal_name(name), 0) {
            Some(k) => if name.len() == 0 {
                before
            } else {
                before.push(
                    pip_finding(source, name, k, start, start + encode_utf8(line).len()),
                )
            },
            None => before,
        }
    }
}

fn is_no_requirement(line: &str) -> (r: bool)
    ensures
        r == no_requirement(line@),
{
    line.is_empty() || starts_with(line, "#") || starts_with(line, "-") || starts_with(
        line,
        "git+",
    ) || starts_with(line, "http://") || starts_with(line, "https://")
}

fn name_in_line(line: &str) -> (r: String)
    ensures
        r@ == required_name(line@),
{
    let trimmed = trim(line);
    if is_no_requirement(trimmed.as_str()) {
        return String::new();
    }
    let pieces = split(trimmed.as_str(), ';');
    proof {
        crate::text::lemma_split_nonempty(trimmed@, ';');
        assert(texts(pieces@)[0] == pieces@[0]@);
        assert(pieces@.len() == texts(pieces@).len());
    }
    let before_marker = trim(pieces[0].as_str());
    extract_pip_package_name(before_marker.as_str())
}

fn make_pip_finding(source: &str, name: &str, k: KnownPackage, start: usize, end: usize) -> (r:
    Finding)
    ensures
        r@ == pip_finding(source@, name@, k@, start as int, end as int),
{
    let mut description: String = owned("Package `");
    description.append(name);
    match k.crypto_algorithm {
        Some(algorithm) => {
            description.append("` uses ");
            description.append(algorithm);
            description.append(" (PQ-vulnerable)");
        },
        None => {
            description.append("` may use PQ-vulnerable algorithms (RSA, ECDSA, Ed25519)");
        },
    }
    let mut f = make_finding_from_offsets(
        "manifest/pip-pq-vulnerable-dep",
        Severity::High,
        Some("CWE-327"),
        description.as_str(),
        source,
        start,
        end,
    );
    f.tags = pq_tags();
    f.crypto_algorithm = match k.crypto_algorithm {
        Some(a) => Some(owned(a)),
        None => None,
    };
    f.confidence = k.confidence;
    f.dep_name = Some(owned(name));
    if k.crypto_algorithm.is_none() {
        let mut fix: String = owned("Review usage — `");
        fix.append(name);
        fix.append("` also provides PQ-safe primitives (AES, SHA-256)");
        f.fix_suggestion = Some(fix);
    }
    f
}

impl RequirementsTxtPqCrypto {
    pub fn id(&self) -> (r: &'static str)
        ensures
            r@ == "manifest/pip-pq-vulnerable-dep"@,
    {
        "manifest/pip-pq-vulnerable-dep"
    }

    pub fn severity(&self) -> (r: Severity)
        ensures
            r == Severity::High,
    {
        Severity::High
    }

    pub fn cwe(&self) -> (r: Option<&'static str>)
        ensures
            r matches Some(c) && c@ == "CWE-327"@,
    {
        Some("CWE-327")
    }

    pub fn description(&self) -> (r: &'static str)
        ensures
            r@ == "Dependency uses quantum-vulnerable cryptographic algorithm"@,
    {
        "Dependency uses quantum-vulnerable cryptographic algorithm"
    }

    pub fn language(&self) -> (r: Language)
        ensures
            r == Language::Manifest,
    {
        Language::Manifest
    }

    pub fn cnsa2_deadline(&self) -> (r: Option<&'static str>)
        ensures
            r matches Some(d) && d@ == "2033"@,
    {
        Some("2033")
    }

    /// The rule looks at files of this name.
    pub fn applies_to_path(&self, path: &str) -> (r: bool)
        ensures
            r == (last_name(path@) == Some("requirements.txt"@)),
    {
        match file_name(path) {
            Some(name) => same(name.as_str(), "requirements.txt"),
            None => false,
        }
    }

    /// The lines of a requirement list that name a package with quantum-vulnerable cryptography.
    pub fn check(&self, source: &str) -> (r: Vec<Finding>)
        ensures
            finding_views(r@) == requirement_findings(source@, lines_of(source@).len() as int),
    {
        let all = lines(source);
        let whole = lines_inclusive(source);
        let table = pip_package_list();
        let total: usize = source.as_bytes().len();
        let ghost views = lines_of(source@);
        let ghost full = inclusive_lines_of(source@);
        let mut r: Vec<Finding> = Vec::new();
        let mut start: usize = 0;
        let mut i: usize = 0;
        proof {
            crate::text::lemma_inclusive_lines(source@);
            assert(finding_views(r@) =~= Seq::<FindingView>::empty());
            assert(views.len() == full.len());
            assert(texts(all@).len() == all@.len());
            assert(texts(whole@).len() == whole@.len());
        }
        while i < all.len()
            invariant
                i <= all@.len(),
                all@.len() == whole@.len(),
                views == texts(all@),
                full == texts(whole@),
                views == lines_of(source@),
                full == inclusive_lines_of(source@),
                concatenated(full, full.len() as int) == source@,
                total == encode_utf8(source@).len(),
                known_views(table@) == pip_packages(),
                start == encode_utf8(concatenated(full, i as int)).len(),
                finding_views(r@) == requirement_findings(source@, i as int),
            decreases all@.len() - i,
        {
            let line = all[i].as_str();
            let n: usize = line.as_bytes().len();
            let step: usize = whole[i].as_str().as_bytes().len();
            proof {
                assert(views[i as int] == line@);
                assert(full[i as int] == whole@[i as int]@);
                crate::bytes::lemma_encode_concat(concatenated(full, i as int), full[i as int]);
                crate::text::lemma_concatenated_prefix(full, i + 1, full.len() as int);
                let head = concatenated(full, i + 1);
                let rest = source@.skip(head.len() as int);
                assert(source@ =~= head + rest);
                crate::bytes::lemma_encode_concat(head, rest);
                lemma_line_within(source@, i as int);
            }
            let name = name_in_line(line);
            if !name.as_str().is_empty() {
                let lookup = normalized_name(name.as_str());
                if let Some(k) = find_known(&table, lookup.as_str()) {
                    let f = make_pip_finding(source, name.as_str(), k, start, start + n);
                    proof {
                        lemma_finding_views_push(r@, f);
                    }
                    r.push(f);
                }
            }
            start = start + step;
            i = i + 1;
        }
        r
    }
}

/// A line is no longer, in bytes, than with its end.
proof fn lemma_line_within(source: Seq<char>, i: int)
    requires
        0 <= i < lines_of(source).len(),
    ensures
        encode_utf8(lines_of(source)[i]).len() <= encode_utf8(inclusive_lines_of(source)[i]).len(),
{
    let pieces = split_text(source, '\n');
    crate::text::lemma_split_nonempty(source, '\n');
    let line = lines_of(source)[i];
    let full = inclusive_lines_of(source)[i];
    if i < pieces.len() - 1 {
        let rest = full.skip(line.len() as int);
        assert(full =~= line + rest);
        crate::bytes::lemma_encode_concat(line, rest);
    }
}

// ---------------------------------------------------------------------------
// Laws
// ---------------------------------------------------------------------------

/// Each package of the path depends on the next; it leads from `i` to `j`.
pub open spec fn is_path(packages: Seq<Node>, path: Seq<int>, i: int, j: int) -> bool {
    &&& path.len() > 0
    &&& path.first() == i
    &&& path.last() == j
    &&& forall|k: int|
        0 <= k < path.len() - 1 ==> 0 <= #[trigger] path[k] < packages.len() && depends_on(
            packages,
            path[k],
        ).contains(path[k + 1])
}

/// The package at `i` is the one at `j` or depends on it, directly or not.
pub open spec fn reaches(packages: Seq<Node>, i: int, j: int) -> bool {
    exists|path: Seq<int>| #[trigger] is_path(packages, path, i, j)
}

/// What holds while the dependencies of the package at `i` are walked; those of `busy` are just
/// being met.
spec fn walk_sound(packages: Seq<Node>, i: int, w: Walk, busy: Option<int>) -> bool {
    &&& w.seen.len() == packages.len()
    &&& 0 <= i < packages.len()
    &&& w.seen[i]
    &&& forall|k: int|
        0 <= k < w.queue.len() ==> 0 <= #[trigger] w.queue[k] < packages.len()
            && w.seen[w.queue[k]]
    &&& forall|p: int| 0 <= p < packages.len() && #[trigger] w.seen[p] ==> reaches(packages, i, p)
    &&& forall|p: int, q: int|
        0 <= p < packages.len() && 0 <= q < packages.len() && #[trigger] w.seen[p]
            && !w.queue.contains(p) && busy != Some(p) && #[trigger] depends_on(
            packages,
            p,
        ).contains(q) ==> w.seen[q]
    &&& forall|p: int|
        0 <= p < packages.len() && p != i && #[trigger] w.seen[p] ==> (seed_of(packages, p)
            matches Some(s) ==> w.met.contains(s))
    &&& forall|k: int| 0 <= k < w.met.len() ==> backed(packages, i, w.seen, #[trigger] w.met[k])
}

/// Some package that was seen, other than the one at `i`, is the seed.
spec fn backed(packages: Seq<Node>, i: int, seen: Seq<bool>, s: KnownView) -> bool {
    exists|p: int|
        0 <= p < packages.len() && p != i && #[trigger] seen[p] && seed_of(packages, p) == Some(s)
}

proof fn lemma_reaches_further(packages: Seq<Node>, i: int, p: int, q: int)
    requires
        reaches(packages, i, p),
        0 <= p < packages.len(),
        depends_on(packages, p).contains(q),
    ensures
        reaches(packages, i, q),
{
    let path = choose|path: Seq<int>| #[trigger] is_path(packages, path, i, p);
    let longer = path.push(q);
    assert forall|k: int| 0 <= k < longer.len() - 1 implies 0 <= #[trigger] longer[k]
        < packages.len() && depends_on(packages, longer[k]).contains(longer[k + 1]) by {
        if k < path.len() - 1 {
            assert(path[k] == longer[k]);
        }
    }
    assert(is_path(packages, longer, i, q));
}

proof fn lemma_meet_sound(packages: Seq<Node>, i: int, node: int, n: int, w: Walk)
    requires
        walk_sound(packages, i, w, Some(node)),
        0 <= node < packages.len(),
        w.seen[node],
        0 <= n <= depends_on(packages, node).len(),
    ensures
        walk_sound(packages, i, meet(packages, depends_on(packages, node), n, w), Some(node)),
        meet(packages, depends_on(packages, node), n, w).seen[node],
        forall|k: int|
            0 <= k < n && 0 <= #[trigger] depends_on(packages, node)[k] < packages.len()
                ==> meet(packages, depends_on(packages, node), n, w).seen[depends_on(
                packages,
                node,
            )[k]],
    decreases n,
{
    let next = depends_on(packages, node);
    if n > 0 {
        lemma_meet_sound(packages, i, node, n - 1, w);
        let a = meet(packages, next, n - 1, w);
        let b = meet(packages, next, n, w);
        let p = next[n - 1];
        if 0 <= p < a.seen.len() && !a.seen[p] {
            assert(next.contains(p));
            lemma_reaches_further(packages, i, node, p);
            assert(b.queue[a.queue.len() as int] == p);
            assert forall|k: int| 0 <= k < b.queue.len() implies 0 <= #[trigger] b.queue[k]
                < packages.len() && b.seen[b.queue[k]] by {
                if k < a.queue.len() {
                    assert(b.queue[k] == a.queue[k]);
                }
            }
            assert forall|x: int, q: int|
                0 <= x < packages.len() && 0 <= q < packages.len() && #[trigger] b.seen[x]
                    && !b.queue.contains(x) && Some(node) != Some(x) && #[trigger] depends_on(
                    packages,
                    x,
                ).contains(q) implies b.seen[q] by {
                if x != p {
                    assert(a.seen[x]);
                    if a.queue.contains(x) {
                        let k = choose|k: int| 0 <= k < a.queue.len() && a.queue[k] == x;
                        assert(b.queue[k] == x);
                    }
                    assert(a.seen[q]);
                }
            }
            match seed_of(packages, p) {
                Some(s) => {
                    assert(b.met[a.met.len() as int] == s);
                    assert forall|x: int|
                        0 <= x < packages.len() && x != i && #[trigger] b.seen[x] implies (seed_of(
                        packages,
                        x,
                    ) matches Some(t) ==> b.met.contains(t)) by {
                        if x != p {
                            assert(a.seen[x]);
                            if let Some(t) = seed_of(packages, x) {
                                let k = choose|k: int| 0 <= k < a.met.len() && a.met[k] == t;
                                assert(b.met[k] == t);
                            }
                        }
                    }
                    assert forall|k: int| 0 <= k < b.met.len() implies backed(
                        packages,
                        i,
                        b.seen,
                        #[trigger] b.met[k],
                    ) by {
                        if k < a.met.len() {
                            assert(b.met[k] == a.met[k]);
                            assert(backed(packages, i, a.seen, a.met[k]));
                            let x = choose|x: int|
                                0 <= x < packages.len() && x != i && #[trigger] a.seen[x]
                                    && seed_of(packages, x) == Some(a.met[k]);
                            assert(b.seen[x]);
                        } else {
                            assert(b.seen[p] && p != i);
                        }
                    }
                },
                None => {
                    assert forall|k: int| 0 <= k < b.met.len() implies backed(
                        packages,
                        i,
                        b.seen,
                        #[trigger] b.met[k],
                    ) by {
                        assert(backed(packages, i, a.seen, a.met[k]));
                        let x = choose|x: int|
                            0 <= x < packages.len() && x != i && #[trigger] a.seen[x] && seed_of(
                                packages,
                                x,
                            ) == Some(a.met[k]);
                        assert(b.seen[x]);
                    }
                    assert forall|x: int|
                        0 <= x < packages.len() && x != i && #[trigger] b.seen[x] implies (seed_of(
                        packages,
                        x,
                    ) matches Some(t) ==> b.met.contains(t)) by {
                        if x != p {
                            assert(a.seen[x]);
                        }
                    }
                },
            }
            assert forall|x: int| 0 <= x < packages.len() && #[trigger] b.seen[x] implies reaches(
                packages,
                i,
                x,
            ) by {
                if x != p {
                    assert(a.seen[x]);
                }
            }
        }
    }
}

proof fn lemma_walk_sound(packages: Seq<Node>, i: int, w: Walk)
    requires
        walk_sound(packages, i, w, None),
    ensures
        walk_sound(packages, i, walk(packages, w), None),
        walk(packages, w).queue.len() == 0,
    decreases 2 * unseen(w.seen) + w.queue.len(),
{
    if w.queue.len() > 0 {
        let node = w.queue[0];
        let next = depends_on(packages, node);
        let start = Walk { queue: w.queue.drop_first(), ..w };
        assert(w.seen[node]);
        assert forall|k: int| 0 <= k < start.queue.len() implies 0 <= #[trigger] start.queue[k]
            < packages.len() && start.seen[start.queue[k]] by {
            assert(start.queue[k] == w.queue[k + 1]);
        }
        assert forall|p: int, q: int|
            0 <= p < packages.len() && 0 <= q < packages.len() && #[trigger] start.seen[p]
                && !start.queue.contains(p) && Some(node) != Some(p) && #[trigger] depends_on(
                packages,
                p,
            ).contains(q) implies start.seen[q] by {
            assert(w.seen[p]);
            if w.queue.contains(p) {
                let k = choose|k: int| 0 <= k < w.queue.len() && w.queue[k] == p;
                assert(start.queue[k - 1] == p);
            }
        }
        assert(walk_sound(packages, i, start, Some(node)));
        lemma_meet_sound(packages, i, node, next.len() as int, start);
        lemma_meet_measure(packages, next, next.len() as int, start);
        let after = meet(packages, next, next.len() as int, start);
        assert forall|p: int, q: int|
            0 <= p < packages.len() && 0 <= q < packages.len() && #[trigger] after.seen[p]
                && !after.queue.contains(p) && None::<int> != Some(p) && #[trigger] depends_on(
                packages,
                p,
            ).contains(q) implies after.seen[q] by {
            if p == node {
                let k = choose|k: int| 0 <= k < next.len() && next[k] == q;
                assert(depends_on(packages, node)[k] == q);
            }
        }
        assert(walk_sound(packages, i, after, None));
        lemma_walk_sound(packages, i, after);
    }
}

proof fn lemma_all_reached_seen(packages: Seq<Node>, i: int, w: Walk, path: Seq<int>, j: int)
    requires
        walk_sound(packages, i, w, None),
        w.queue.len() == 0,
        is_path(packages, path, i, j),
        0 <= j < packages.len(),
    ensures
        w.seen[j],
    decreases path.len(),
{
    if path.len() > 1 {
        let shorter = path.drop_last();
        let k = shorter.last();
        assert(path[path.len() - 2] == k);
        assert forall|m: int| 0 <= m < shorter.len() - 1 implies 0 <= #[trigger] shorter[m]
            < packages.len() && depends_on(packages, shorter[m]).contains(shorter[m + 1]) by {
            assert(path[m] == shorter[m]);
        }
        assert(is_path(packages, shorter, i, k));
        lemma_all_reached_seen(packages, i, w, shorter, k);
        assert(depends_on(packages, k).contains(j));
    }
}

/// The package at `i` depends, directly or not, on another one that is the seed.
pub open spec fn depends_on_seed(packages: Seq<Node>, i: int, s: KnownView) -> bool {
    exists|j: int|
        0 <= j < packages.len() && j != i && #[trigger] reaches(packages, i, j) && seed_of(
            packages,
            j,
        ) == Some(s)
}

/// The walk meets exactly the seeds that the package depends on, however far away they are: every
/// seed it meets is another package that is reached, and every other package that is reached and
/// is a seed is met.
pub proof fn walk_meets_exactly_the_reachable_seeds(packages: Seq<Node>, i: int)
    requires
        0 <= i < packages.len(),
    ensures
        forall|k: int|
            0 <= k < seeds_met(packages, i).len() ==> depends_on_seed(
                packages,
                i,
                #[trigger] seeds_met(packages, i)[k],
            ),
        forall|j: int|
            0 <= j < packages.len() && j != i && #[trigger] reaches(packages, i, j) ==> (seed_of(
                packages,
                j,
            ) matches Some(s) ==> seeds_met(packages, i).contains(s)),
{
    let w = walk_from(packages, i);
    assert(is_path(packages, seq![i], i, i));
    assert(w.queue[0] == i);
    assert(w.queue.contains(i));
    assert(walk_sound(packages, i, w, None)) by {
        assert forall|p: int, q: int|
            0 <= p < packages.len() && 0 <= q < packages.len() && #[trigger] w.seen[p]
                && !w.queue.contains(p) && None::<int> != Some(p) && #[trigger] depends_on(
                packages,
                p,
            ).contains(q) implies w.seen[q] by {}
    }
    lemma_walk_sound(packages, i, w);
    let end = walk(packages, w);
    assert forall|k: int| 0 <= k < end.met.len() implies depends_on_seed(
        packages,
        i,
        #[trigger] end.met[k],
    ) by {
        assert(backed(packages, i, end.seen, end.met[k]));
        let p = choose|p: int|
            0 <= p < packages.len() && p != i && #[trigger] end.seen[p] && seed_of(packages, p)
                == Some(end.met[k]);
        assert(reaches(packages, i, p));
    }
    assert forall|j: int|
        0 <= j < packages.len() && j != i && #[trigger] reaches(packages, i, j) implies (seed_of(
        packages,
        j,
    ) matches Some(s) ==> end.met.contains(s)) by {
        let path = choose|path: Seq<int>| #[trigger] is_path(packages, path, i, j);
        lemma_all_reached_seen(packages, i, end, path, j);
    }
}

/// A package with a name is flagged exactly where it is no seed itself and depends, directly or
/// not, on a package that is one.
pub proof fn flagged_exactly_for_reachable_seeds(source: Seq<char>, packages: Seq<Node>, i: int)
    requires
        0 <= i < packages.len(),
        packages[i].field_text("name"@) is Some,
    ensures
        (package_finding(source, packages, i) is Some) <==> (seed_of(packages, i) is None
            && exists|j: int|
            0 <= j < packages.len() && j != i && #[trigger] reaches(packages, i, j) && seed_of(
                packages,
                j,
            ) is Some),
{
    walk_meets_exactly_the_reachable_seeds(packages, i);
    let met = seeds_met(packages, i);
    if met.len() > 0 {
        assert(depends_on_seed(packages, i, met[0]));
        let j = choose|j: int|
            0 <= j < packages.len() && j != i && #[trigger] reaches(packages, i, j) && seed_of(
                packages,
                j,
            ) == Some(met[0]);
        assert(reaches(packages, i, j));
    }
}

} // verus!
