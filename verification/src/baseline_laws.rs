//! What baselines take in and leave out: each finding once, and nothing that was there is lost.

use crate::baseline::{
    accounted, accounts_for, entry_of, fingerprint, fresh, has_fingerprint, hex_lower, hex_text, hit,
    positions, recurs, unaccounted, with_entries, EntryView,
};
use crate::finding::{Finding, FindingView};
use vstd::prelude::*;

verus! {

proof fn lemma_push_has(entries: Seq<EntryView>, e: EntryView, fp: Seq<char>)
    ensures
        has_fingerprint(entries.push(e), fp) <==> has_fingerprint(entries, fp) || e.fingerprint == fp,
{
    let t = entries.push(e);
    if has_fingerprint(entries, fp) {
        let i = choose|i: int| 0 <= i < entries.len() && (#[trigger] entries[i]).fingerprint == fp;
        assert(t[i].fingerprint == fp);
    }
    if e.fingerprint == fp {
        assert(t[entries.len() as int].fingerprint == fp);
    }
    if has_fingerprint(t, fp) {
        let i = choose|i: int| 0 <= i < t.len() && (#[trigger] t[i]).fingerprint == fp;
        if i < entries.len() {
            assert(entries[i].fingerprint == fp);
        }
    }
}

/// The entries tell fingerprints apart: no two have the same.
pub open spec fn all_different(entries: Seq<EntryView>) -> bool {
    forall|i: int, j: int|
        0 <= i < j < entries.len() ==> (#[trigger] entries[i]).fingerprint != (
        #[trigger] entries[j]).fingerprint
}

/// After findings were added a baseline knows what it knew before and each of the findings, and
/// nothing else; what was there stands first, as it was, and no fingerprint comes in twice.
pub proof fn baselines_take_in_every_finding(
    entries: Seq<EntryView>,
    findings: Seq<FindingView>,
    keys: Seq<Seq<char>>,
    n: int,
    fp: Seq<char>,
)
    requires
        0 <= n <= findings.len(),
        keys.len() == findings.len(),
    ensures
        has_fingerprint(with_entries(entries, findings, keys, n), fp) <==> has_fingerprint(
            entries,
            fp,
        ) || exists|i: int| 0 <= i < n && fingerprint(#[trigger] findings[i], keys[i]) == fp,
        entries.is_prefix_of(with_entries(entries, findings, keys, n)),
        all_different(entries) ==> all_different(with_entries(entries, findings, keys, n)),
        with_entries(entries, findings, keys, n).len() <= entries.len() + n,
    decreases n,
{
    let now = with_entries(entries, findings, keys, n);
    if n == 0 {
        assert(entries =~= now.subrange(0, entries.len() as int));
    } else {
        baselines_take_in_every_finding(entries, findings, keys, n - 1, fp);
        let before = with_entries(entries, findings, keys, n - 1);
        let e = entry_of(findings[n - 1], keys[n - 1]);
        lemma_push_has(before, e, fp);
        assert(fingerprint(findings[n - 1], keys[n - 1]) == e.fingerprint);
        assert(entries =~= before.subrange(0, entries.len() as int));
        assert(entries =~= now.subrange(0, entries.len() as int));
        if exists|i: int| 0 <= i < n && fingerprint(#[trigger] findings[i], keys[i]) == fp {
            let i = choose|i: int| 0 <= i < n && fingerprint(#[trigger] findings[i], keys[i]) == fp;
            if i < n - 1 {
                assert(fingerprint(findings[i], keys[i]) == fp);
            }
        }
        if all_different(entries) && !has_fingerprint(before, e.fingerprint) {
            assert forall|i: int, j: int| 0 <= i < j < now.len() implies (
            #[trigger] now[i]).fingerprint != (#[trigger] now[j]).fingerprint by {
                assert(now[i] == before[i]);
                if j < before.len() {
                    assert(now[j] == before[j]);
                }
            }
        }
    }
}

/// What comes in is the entry of the finding: each entry that was not there before tells of the first
/// finding that has its fingerprint.
pub proof fn new_entries_tell_of_their_finding(
    entries: Seq<EntryView>,
    findings: Seq<FindingView>,
    keys: Seq<Seq<char>>,
    n: int,
    k: int,
) -> (i: int)
    requires
        0 <= n <= findings.len(),
        keys.len() == findings.len(),
        entries.len() <= k < with_entries(entries, findings, keys, n).len(),
    ensures
        0 <= i < n,
        with_entries(entries, findings, keys, n)[k] == entry_of(findings[i], keys[i]),
        forall|j: int|
            0 <= j < i ==> fingerprint(#[trigger] findings[j], keys[j]) != fingerprint(
                findings[i],
                keys[i],
            ),
    decreases n,
{
    let before = with_entries(entries, findings, keys, n - 1);
    if n > 0 && k < before.len() {
        new_entries_tell_of_their_finding(entries, findings, keys, n - 1, k)
    } else {
        let fp = fingerprint(findings[n - 1], keys[n - 1]);
        baselines_take_in_every_finding(entries, findings, keys, n - 1, fp);
        assert forall|j: int| 0 <= j < n - 1 implies fingerprint(
            #[trigger] findings[j],
            keys[j],
        ) != fp by {}
        n - 1
    }
}

/// A comparison lists the positions of the findings that recur, or of the others, from the first to
/// the last.
pub proof fn compared_positions_are_all_listed(
    findings: Seq<FindingView>,
    keys: Seq<Seq<char>>,
    entries: Seq<EntryView>,
    entry_keys: Seq<Seq<char>>,
    recurring: bool,
    n: int,
)
    requires
        0 <= n <= findings.len() <= usize::MAX,
    ensures
        positions(findings, keys, entries, entry_keys, recurring, n).map_values(
            |i: usize| i as int,
        ) == Seq::new(n as nat, |i: int| i).filter(
            |i: int| recurs(findings[i], keys[i], entries, entry_keys) == recurring,
        ),
    decreases n,
{
    let p = |i: int| recurs(findings[i], keys[i], entries, entry_keys) == recurring;
    let number = |i: usize| i as int;
    let all = Seq::new(n as nat, |i: int| i);
    if n == 0 {
        reveal(Seq::filter);
        assert(positions(findings, keys, entries, entry_keys, recurring, 0).map_values(number)
            =~= all.filter(p));
    } else {
        compared_positions_are_all_listed(findings, keys, entries, entry_keys, recurring, n - 1);
        let t = Seq::new((n - 1) as nat, |i: int| i);
        let before = positions(findings, keys, entries, entry_keys, recurring, n - 1);
        assert(all =~= t.push(n - 1));
        t.lemma_filter_push(n - 1, p);
        assert(before.push((n - 1) as usize).map_values(number) =~= before.map_values(number).push(
            n - 1,
        ));
    }
}

/// Suppression keeps the findings that do not recur, each as it was and in their order, and drops
/// the others.
pub proof fn suppression_keeps_what_does_not_recur(
    findings: Seq<Finding>,
    keys: Seq<Seq<char>>,
    entries: Seq<EntryView>,
    entry_keys: Seq<Seq<char>>,
    n: int,
)
    requires
        0 <= n <= findings.len(),
    ensures
        fresh(findings, keys, entries, entry_keys, n) == Seq::new(n as nat, |i: int| i).filter(
            |i: int| !recurs(findings[i]@, keys[i], entries, entry_keys),
        ).map_values(|i: int| findings[i]),
    decreases n,
{
    let p = |i: int| !recurs(findings[i]@, keys[i], entries, entry_keys);
    let g = |i: int| findings[i];
    let all = Seq::new(n as nat, |i: int| i);
    if n == 0 {
        reveal(Seq::filter);
        assert(fresh(findings, keys, entries, entry_keys, 0) =~= all.filter(p).map_values(g));
    } else {
        suppression_keeps_what_does_not_recur(findings, keys, entries, entry_keys, n - 1);
        let t = Seq::new((n - 1) as nat, |i: int| i);
        assert(all =~= t.push(n - 1));
        t.lemma_filter_push(n - 1, p);
        assert(t.filter(p).push(n - 1).map_values(g) =~= t.filter(p).map_values(g).push(
            findings[n - 1],
        ));
    }
}

/// In hexadecimal form each byte has two digits of its own, the higher one first.
pub proof fn every_byte_has_two_digits(bytes: Seq<u8>, i: int)
    requires
        0 <= i < bytes.len(),
    ensures
        hex_text(bytes).len() == 2 * bytes.len(),
        hex_text(bytes)[2 * i] == hex_lower(bytes[i] as nat / 16),
        hex_text(bytes)[2 * i + 1] == hex_lower(bytes[i] as nat % 16),
    decreases bytes.len(),
{
    let t = bytes.drop_last();
    lemma_hex_len(t);
    if i < t.len() {
        every_byte_has_two_digits(t, i);
        assert(t[i] == bytes[i]);
    }
}

proof fn lemma_hex_len(bytes: Seq<u8>)
    ensures
        hex_text(bytes).len() == 2 * bytes.len(),
    decreases bytes.len(),
{
    if bytes.len() > 0 {
        lemma_hex_len(bytes.drop_last());
    }
}

/// A finding recurs where the baseline knows it with its file as its key has it, as the finding has
/// it, or as any entry of the same key has it, at whichever place the entry stands.
pub proof fn findings_recur_under_each_spelling(
    f: FindingView,
    key: Seq<char>,
    entries: Seq<EntryView>,
    entry_keys: Seq<Seq<char>>,
    i: int,
)
    requires
        0 <= i < entries.len(),
    ensures
        entries[i].fingerprint == fingerprint(f, key) ==> recurs(f, key, entries, entry_keys),
        entries[i].fingerprint == fingerprint(f, f.file) ==> recurs(f, key, entries, entry_keys),
        entry_keys[i] == key && entries[i].fingerprint == fingerprint(f, entries[i].file) ==> recurs(
            f,
            key,
            entries,
            entry_keys,
        ),
{
    if entries[i].fingerprint == fingerprint(f, key) {
        assert(hit(f, key, entries, entry_keys, key));
    }
    if entries[i].fingerprint == fingerprint(f, f.file) {
        assert(hit(f, key, entries, entry_keys, f.file));
    }
    if entry_keys[i] == key && entries[i].fingerprint == fingerprint(f, entries[i].file) {
        assert(hit(f, key, entries, entry_keys, entries[i].file));
    }
}

/// A finding that recurs has an entry with its fingerprint under one of these spellings.
pub proof fn only_known_findings_recur(
    f: FindingView,
    key: Seq<char>,
    entries: Seq<EntryView>,
    entry_keys: Seq<Seq<char>>,
)
    requires
        recurs(f, key, entries, entry_keys),
    ensures
        exists|i: int, s: Seq<char>|
            0 <= i < entries.len() && (#[trigger] entries[i]).fingerprint == #[trigger] fingerprint(
                f,
                s,
            ) && (s == key || s == f.file || exists|k: int|
                0 <= k < entries.len() && (#[trigger] entries[k]).file == s && entry_keys[k]
                    == key),
{
    let s = choose|s: Seq<char>| #[trigger] hit(f, key, entries, entry_keys, s);
    let i = choose|i: int|
        0 <= i < entries.len() && (#[trigger] entries[i]).fingerprint == fingerprint(f, s);
    assert(entries[i].fingerprint == fingerprint(f, s));
}

/// An entry is resolved exactly where no finding accounts for its fingerprint; the entries that are
/// resolved stay in order.
pub proof fn resolved_entries_are_those_without_a_finding(
    findings: Seq<FindingView>,
    keys: Seq<Seq<char>>,
    entries: Seq<EntryView>,
    entry_keys: Seq<Seq<char>>,
    e: EntryView,
)
    ensures
        unaccounted(findings, keys, entries, entry_keys).contains(e) <==> entries.contains(e)
            && forall|i: int|
            0 <= i < findings.len() ==> !accounts_for(
                #[trigger] findings[i],
                keys[i],
                entries,
                entry_keys,
                e.fingerprint,
            ),
{
    let p = |e: EntryView|
        !accounted(findings, keys, entries, entry_keys, findings.len() as int, e.fingerprint);
    let left = entries.filter(p);
    if left.contains(e) {
        let k = choose|k: int| 0 <= k < left.len() && left[k] == e;
        entries.lemma_filter_pred(p, k);
        entries.lemma_filter_contains_rev(p, e);
    }
    if entries.contains(e) && p(e) {
        let k = choose|k: int| 0 <= k < entries.len() && entries[k] == e;
        entries.lemma_filter_contains(p, k);
    }
}

/// A finding accounts for the entries that have its fingerprint, with its file as its key or the
/// finding has it, and for none with another; it recurs where it accounts for any.
pub proof fn findings_account_for_their_fingerprints(
    f: FindingView,
    key: Seq<char>,
    entries: Seq<EntryView>,
    entry_keys: Seq<Seq<char>>,
    i: int,
)
    requires
        0 <= i < entries.len(),
    ensures
        entries[i].fingerprint == fingerprint(f, key) ==> accounts_for(
            f,
            key,
            entries,
            entry_keys,
            entries[i].fingerprint,
        ),
        entries[i].fingerprint == fingerprint(f, f.file) ==> accounts_for(
            f,
            key,
            entries,
            entry_keys,
            entries[i].fingerprint,
        ),
        accounts_for(f, key, entries, entry_keys, entries[i].fingerprint) ==> recurs(
            f,
            key,
            entries,
            entry_keys,
        ) && exists|s: Seq<char>| #[trigger] fingerprint(f, s) == entries[i].fingerprint,
{
    let fp = entries[i].fingerprint;
    if fp == fingerprint(f, key) {
        assert(hit(f, key, entries, entry_keys, key));
    }
    if fp == fingerprint(f, f.file) {
        assert(hit(f, key, entries, entry_keys, f.file));
    }
    if accounts_for(f, key, entries, entry_keys, fp) {
        let s = choose|s: Seq<char>| #[trigger]
            hit(f, key, entries, entry_keys, s) && fp == fingerprint(f, s);
        assert(fingerprint(f, s) == fp);
    }
}

} // verus!
