//! Deadlines of the CNSA 2.0 timeline, and how far a code base has come.

use crate::finding::{Finding, FindingView};
use crate::text::{contains, contains_text, owned, starts_with};
use vstd::prelude::*;

verus! {

/// The deadline for what a rule finds:
/// - `2027-01` for key exchange and encryption, which come first
/// - `2035` for the general migration
pub open spec fn deadline_of(rule_id: Seq<char>) -> Option<Seq<char>> {
    if contains_text(rule_id, "pq-vulnerable"@) {
        Some("2027-01"@)
    } else if contains_text(rule_id, "hardcoded-crypto-algorithm"@) {
        Some("2035"@)
    } else if "config/"@.is_prefix_of(rule_id) && contains_text(rule_id, "tls"@) {
        Some("2027-01"@)
    } else if contains_text(rule_id, "dockerfile-insecure-tls"@) {
        Some("2035"@)
    } else {
        None
    }
}

/// The text of an optional fixed word.
pub open spec fn opt_word(o: Option<&'static str>) -> Option<Seq<char>> {
    match o {
        Some(s) => Some(s@),
        None => None,
    }
}

/// The deadline for what a rule finds; none for rules that are not about post-quantum migration.
pub fn cnsa2_deadline_for_rule(rule_id: &str) -> (r: Option<&'static str>)
    ensures
        opt_word(r) == deadline_of(rule_id@),
{
    if contains(rule_id, "pq-vulnerable") {
        return Some("2027-01");
    }
    if contains(rule_id, "hardcoded-crypto-algorithm") {
        return Some("2035");
    }
    if starts_with(rule_id, "config/") && contains(rule_id, "tls") {
        return Some("2027-01");
    }
    if contains(rule_id, "dockerfile-insecure-tls") {
        return Some("2035");
    }
    None
}

/// The finding with the deadline that its rule has.
pub open spec fn with_deadline(f: FindingView) -> FindingView {
    FindingView { cnsa2_deadline: deadline_of(f.rule_id), ..f }
}

/// Gives each finding the deadline that its rule has.
pub fn annotate_cnsa2_deadlines(findings: &mut Vec<Finding>)
    ensures
        final(findings)@.len() == old(findings)@.len(),
        forall|i: int|
            0 <= i < final(findings)@.len() ==> (#[trigger] final(findings)@[i])@ == with_deadline(
                old(findings)@[i]@,
            ),
{
    let ghost before = findings@;
    let n: usize = findings.len();
    let mut i: usize = 0;
    while i < n
        invariant
            i <= n,
            n == findings@.len(),
            n == before.len(),
            forall|k: int| 0 <= k < i ==> (#[trigger] findings@[k])@ == with_deadline(before[k]@),
            forall|k: int| i <= k < n ==> #[trigger] findings@[k] == before[k],
        decreases n - i,
    {
        let deadline: Option<String> = match cnsa2_deadline_for_rule(
            findings[i].rule_id.as_str(),
        ) {
            Some(d) => Some(owned(d)),
            None => None,
        };
        let mut f = findings[i].clone();
        f.cnsa2_deadline = deadline;
        findings.set(i, f);
        i = i + 1;
    }
}

/// How far a code base has come, from one to five.
#[derive(Debug, Clone, Copy, PartialEq, Eq)]
pub struct PqMigrationLevel {
    pub level: u8,
    pub label: &'static str,
    pub pq_finding_count: usize,
    pub agility_finding_count: usize,
}

/// The finding is about an algorithm that is fixed in the code.
pub open spec fn about_agility(f: FindingView) -> bool {
    contains_text(f.rule_id, "hardcoded-crypto-algorithm"@)
}

/// The finding has a deadline and is not about agility.
pub open spec fn about_pq(f: FindingView) -> bool {
    f.cnsa2_deadline is Some && !about_agility(f)
}

pub open spec fn pq_count(findings: Seq<FindingView>) -> nat {
    findings.filter(|f: FindingView| about_pq(f)).len()
}

pub open spec fn agility_count(findings: Seq<FindingView>) -> nat {
    findings.filter(|f: FindingView| about_agility(f)).len()
}

/// The level and its name: enabled where nothing is vulnerable or fixed in the code, hardened where
/// only agility is lacking, ready with up to five vulnerable uses, aware beyond.
pub open spec fn level_of(pq: nat, agility: nat) -> (u8, Seq<char>) {
    if pq == 0 && agility == 0 {
        (5, "PQ-Enabled"@)
    } else if pq == 0 {
        (4, "PQ-Hardened"@)
    } else if pq <= 5 {
        (3, "PQ-Ready"@)
    } else {
        (2, "PQ-Aware"@)
    }
}

/// How far a code base has come, by the findings in it.
pub fn compute_pq_migration_level(findings: &[Finding]) -> (r: Option<PqMigrationLevel>)
    ensures
        ({
            let all = crate::finding::finding_views(findings@);
            let pq = pq_count(all);
            let agility = agility_count(all);
            &&& r matches Some(l)
            &&& l.level == level_of(pq, agility).0
            &&& l.label@ == level_of(pq, agility).1
            &&& l.pq_finding_count == pq
            &&& l.agility_finding_count == agility
        }),
{
    let ghost all = crate::finding::finding_views(findings@);
    let ghost p = |f: FindingView| about_pq(f);
    let ghost q = |f: FindingView| about_agility(f);
    let mut pq: usize = 0;
    let mut agility: usize = 0;
    let mut i: usize = 0;
    while i < findings.len()
        invariant
            i <= findings@.len(),
            pq <= i,
            agility <= i,
            all == crate::finding::finding_views(findings@),
            p == (|f: FindingView| about_pq(f)),
            q == (|f: FindingView| about_agility(f)),
            pq == all.take(i as int).filter(p).len(),
            agility == all.take(i as int).filter(q).len(),
        decreases findings@.len() - i,
    {
        proof {
            assert(all[i as int] == findings@[i as int]@);
            assert(all.take(i + 1) =~= all.take(i as int).push(all[i as int]));
            all.take(i as int).lemma_filter_push(all[i as int], p);
            all.take(i as int).lemma_filter_push(all[i as int], q);
        }
        if contains(findings[i].rule_id.as_str(), "hardcoded-crypto-algorithm") {
            agility = agility + 1;
        } else if findings[i].cnsa2_deadline.is_some() {
            pq = pq + 1;
        }
        i = i + 1;
    }
    assert(all.take(i as int) =~= all);
    let (level, label): (u8, &'static str) = if pq == 0 && agility == 0 {
        (5, "PQ-Enabled")
    } else if pq == 0 {
        (4, "PQ-Hardened")
    } else if pq <= 5 {
        (3, "PQ-Ready")
    } else {
        (2, "PQ-Aware")
    };
    Some(
        PqMigrationLevel {
            level,
            label,
            pq_finding_count: pq,
            agility_finding_count: agility,
        },
    )
}

/// Annotating findings again changes nothing.
pub proof fn annotating_twice_changes_nothing(f: FindingView)
    ensures
        with_deadline(with_deadline(f)) == with_deadline(f),
{
}

} // verus!
