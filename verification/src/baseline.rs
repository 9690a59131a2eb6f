//! Baselines: findings that are known already, by their fingerprints.
//!
//! A file may be spelled in several ways. Where that matters, functions take the key under which
//! the caller identifies it: equal keys name the same file.

use crate::bytes::lemma_encode_injective;
use crate::finding::{finding_views, Finding, FindingView};
use crate::text::{decimal, decimal_string, digits_read_back, is_digit, owned, same, texts};
use sha2::Digest;
use vstd::prelude::*;
use vstd::utf8::{encode_utf8, is_ascii_chars, is_ascii_chars_encode_utf8};

verus! {

/// One known finding.
#[derive(Debug, PartialEq, Eq)]
pub struct BaselineEntry {
    pub fingerprint: String,
    pub rule_id: String,
    pub file: String,
    pub line: usize,
}

/// The known findings.
#[derive(Debug, PartialEq, Eq)]
pub struct BaselineFile {
    pub version: u32,
    pub entries: Vec<BaselineEntry>,
}

pub struct EntryView {
    pub fingerprint: Seq<char>,
    pub rule_id: Seq<char>,
    pub file: Seq<char>,
    pub line: usize,
}

impl View for BaselineEntry {
    type V = EntryView;

    open spec fn view(&self) -> EntryView {
        EntryView {
            fingerprint: self.fingerprint@,
            rule_id: self.rule_id@,
            file: self.file@,
            line: self.line,
        }
    }
}

impl Clone for BaselineEntry {
    fn clone(&self) -> (r: Self)
        ensures
            r@ == self@,
    {
        BaselineEntry {
            fingerprint: self.fingerprint.clone(),
            rule_id: self.rule_id.clone(),
            file: self.file.clone(),
            line: self.line,
        }
    }
}

pub open spec fn entry_views(v: Seq<BaselineEntry>) -> Seq<EntryView> {
    v.map_values(|e: BaselineEntry| e@)
}

proof fn lemma_entry_views_push(v: Seq<BaselineEntry>, e: BaselineEntry)
    ensures
        entry_views(v.push(e)) == entry_views(v).push(e@),
{
    assert(entry_views(v.push(e)) =~= entry_views(v).push(e@));
}

/// What a scan's findings are against a baseline. That an entry is missing is no proof that its
/// cause is gone.
#[derive(Debug, PartialEq, Eq)]
pub struct BaselineComparison {
    pub introduced: Vec<usize>,
    pub recurring: Vec<usize>,
    pub resolved: Vec<BaselineEntry>,
}

// ---------------------------------------------------------------------------
// Fingerprints
// ---------------------------------------------------------------------------

/// The SHA-256 digest of bytes.
pub uninterp spec fn sha256(bytes: Seq<u8>) -> Seq<u8>;

/// Computes a digest with `sha2::Sha256::digest`. Claimed are that it is a function of the bytes
/// and that it has 32 bytes.
#[verifier::external_body]
fn sha256_digest(bytes: &Vec<u8>) -> (r: Vec<u8>)
    ensures
        r@ == sha256(bytes@),
        r@.len() == 32,
{
    sha2::Sha256::digest(bytes).to_vec()
}

pub open spec fn hex_lower(n: nat) -> char {
    if n < 10 {
        (('0' as u32) + n) as char
    } else {
        (('a' as u32) + n - 10) as char
    }
}

/// Two small hexadecimal digits for each byte.
pub open spec fn hex_text(bytes: Seq<u8>) -> Seq<char>
    decreases bytes.len(),
{
    if bytes.len() == 0 {
        Seq::empty()
    } else {
        let b = bytes.last();
        hex_text(bytes.drop_last()).push(hex_lower(b as nat / 16)).push(hex_lower(b as nat % 16))
    }
}

/// The text is a digest in hexadecimal form: 64 small hexadecimal digits.
pub open spec fn is_digest_text(s: Seq<char>) -> bool {
    &&& s.len() == 64
    &&& forall|i: int|
        0 <= i < s.len() ==> '0' <= #[trigger] s[i] <= '9' || 'a' <= s[i] <= 'f'
}

proof fn lemma_hex_text(bytes: Seq<u8>)
    ensures
        hex_text(bytes).len() == 2 * bytes.len(),
        forall|i: int|
            0 <= i < hex_text(bytes).len() ==> '0' <= #[trigger] hex_text(bytes)[i] <= '9' || 'a'
                <= hex_text(bytes)[i] <= 'f',
    decreases bytes.len(),
{
    if bytes.len() > 0 {
        lemma_hex_text(bytes.drop_last());
        let before = hex_text(bytes.drop_last());
        let b = bytes.last();
        let s = hex_text(bytes);
        assert forall|i: int| 0 <= i < s.len() implies '0' <= #[trigger] s[i] <= '9' || 'a' <= s[i]
            <= 'f' by {
            if i < before.len() {
                assert(s[i] == before[i]);
            } else if i == before.len() {
                assert(s[i] == hex_lower(b as nat / 16));
            } else {
                assert(s[i] == hex_lower(b as nat % 16));
            }
        }
    }
}

fn hex_digit(n: u8) -> (r: char)
    requires
        n < 16,
    ensures
        r == hex_lower(n as nat),
{
    if n < 10 {
        (48 + n) as char
    } else {
        (97 + (n - 10)) as char
    }
}

/// Two small hexadecimal digits for each byte.
pub fn hex_string(bytes: &Vec<u8>) -> (r: String)
    ensures
        r@ == hex_text(bytes@),
{
    let mut r: String = String::new();
    let mut i: usize = 0;
    while i < bytes.len()
        invariant
            i <= bytes@.len(),
            r@ =~= hex_text(bytes@.take(i as int)),
        decreases bytes@.len() - i,
    {
        let b = bytes[i];
        assert(bytes@.take(i + 1).drop_last() =~= bytes@.take(i as int));
        r.push(hex_digit(b / 16));
        r.push(hex_digit(b % 16));
        i = i + 1;
    }
    assert(bytes@.take(i as int) =~= bytes@);
    r
}

/// The bytes that a finding in the given file is identified by: its rule, file, place and
/// description, with a zero byte between each two.
pub open spec fn identity_bytes(f: FindingView, file: Seq<char>) -> Seq<u8> {
    encode_utf8(f.rule_id).push(0) + encode_utf8(file).push(0) + encode_utf8(
        decimal(f.line as nat),
    ).push(0) + encode_utf8(decimal(f.column as nat)).push(0) + encode_utf8(
        decimal(f.end_line as nat),
    ).push(0) + encode_utf8(decimal(f.end_column as nat)).push(0) + encode_utf8(f.description)
}

/// The fingerprint of a finding in the given file.
pub open spec fn fingerprint(f: FindingView, file: Seq<char>) -> Seq<char> {
    hex_text(sha256(identity_bytes(f, file)))
}

fn add_field(bytes: &mut Vec<u8>, text: &str)
    ensures
        final(bytes)@ == old(bytes)@ + encode_utf8(text@).push(0),
{
    let ghost start = bytes@;
    bytes.extend_from_slice(text.as_bytes());
    bytes.push(0);
    assert(bytes@ =~= start + encode_utf8(text@).push(0));
}

/// The fingerprint of a finding in the given file.
pub fn fingerprint_finding_with_file(finding: &Finding, file: &str) -> (r: String)
    ensures
        r@ == fingerprint(finding@, file@),
        is_digest_text(r@),
{
    let mut bytes: Vec<u8> = Vec::new();
    add_field(&mut bytes, finding.rule_id.as_str());
    add_field(&mut bytes, file);
    let line = decimal_string(finding.line as u64);
    add_field(&mut bytes, line.as_str());
    let column = decimal_string(finding.column as u64);
    add_field(&mut bytes, column.as_str());
    let end_line = decimal_string(finding.end_line as u64);
    add_field(&mut bytes, end_line.as_str());
    let end_column = decimal_string(finding.end_column as u64);
    add_field(&mut bytes, end_column.as_str());
    bytes.extend_from_slice(finding.description.as_str().as_bytes());
    assert(bytes@ =~= identity_bytes(finding@, file@));
    let digest = sha256_digest(&bytes);
    proof {
        lemma_hex_text(digest@);
    }
    hex_string(&digest)
}

/// The fingerprint of a finding.
pub fn fingerprint_finding(finding: &Finding) -> (r: String)
    ensures
        r@ == fingerprint(finding@, finding.file@),
        is_digest_text(r@),
{
    fingerprint_finding_with_file(finding, finding.file.as_str())
}

/// The fingerprint of a finding whose file has the given key.
pub fn fingerprint_finding_at_root(finding: &Finding, file_key: &str) -> (r: String)
    ensures
        r@ == fingerprint(finding@, file_key@),
        is_digest_text(r@),
{
    fingerprint_finding_with_file(finding, file_key)
}

/// The entry for a finding in the given file.
pub open spec fn entry_of(f: FindingView, file: Seq<char>) -> EntryView {
    EntryView { fingerprint: fingerprint(f, file), rule_id: f.rule_id, file, line: f.line }
}

impl BaselineEntry {
    /// The entry for a finding.
    pub fn from_finding(finding: &Finding) -> (r: Self)
        ensures
            r@ == entry_of(finding@, finding.file@),
            is_digest_text(r.fingerprint@),
    {
        BaselineEntry {
            fingerprint: fingerprint_finding(finding),
            rule_id: finding.rule_id.clone(),
            file: finding.file.clone(),
            line: finding.line,
        }
    }

    /// The entry for a finding whose file has the given key.
    pub fn from_finding_at_root(finding: &Finding, file_key: &str) -> (r: Self)
        ensures
            r@ == entry_of(finding@, file_key@),
            is_digest_text(r.fingerprint@),
    {
        BaselineEntry {
            fingerprint: fingerprint_finding_with_file(finding, file_key),
            rule_id: finding.rule_id.clone(),
            file: owned(file_key),
            line: finding.line,
        }
    }
}

// ---------------------------------------------------------------------------
// Making and extending baselines
// ---------------------------------------------------------------------------

/// Some entry has the fingerprint.
pub open spec fn has_fingerprint(entries: Seq<EntryView>, fp: Seq<char>) -> bool {
    exists|i: int| 0 <= i < entries.len() && (#[trigger] entries[i]).fingerprint == fp
}

/// `entries` with one for the finding, unless its fingerprint is there already.
pub open spec fn with_entry(entries: Seq<EntryView>, e: EntryView) -> Seq<EntryView> {
    if has_fingerprint(entries, e.fingerprint) {
        entries
    } else {
        entries.push(e)
    }
}

/// `entries` with those for the first `n` findings.
pub open spec fn with_entries(
    entries: Seq<EntryView>,
    findings: Seq<FindingView>,
    keys: Seq<Seq<char>>,
    n: int,
) -> Seq<EntryView>
    decreases n,
{
    if n <= 0 {
        entries
    } else {
        with_entry(
            with_entries(entries, findings, keys, n - 1),
            entry_of(findings[n - 1], keys[n - 1]),
        )
    }
}

fn find_fingerprint(entries: &Vec<BaselineEntry>, fp: &str) -> (r: bool)
    ensures
        r == has_fingerprint(entry_views(entries@), fp@),
{
    let ghost views = entry_views(entries@);
    let mut i: usize = 0;
    while i < entries.len()
        invariant
            i <= entries@.len(),
            views == entry_views(entries@),
            forall|k: int| 0 <= k < i ==> (#[trigger] views[k]).fingerprint != fp@,
        decreases entries@.len() - i,
    {
        assert(views[i as int] == entries@[i as int]@);
        if same(entries[i].fingerprint.as_str(), fp) {
            return true;
        }
        i = i + 1;
    }
    false
}

impl BaselineFile {
    /// A baseline of the given findings.
    pub fn from_findings(findings: &[Finding]) -> (r: Self)
        ensures
            r.version == 1,
            entry_views(r.entries@) == finding_views(findings@).map_values(
                |f: FindingView| entry_of(f, f.file),
            ),
    {
        let ghost all = finding_views(findings@);
        let mut entries: Vec<BaselineEntry> = Vec::new();
        let mut i: usize = 0;
        while i < findings.len()
            invariant
                i <= findings@.len(),
                all == finding_views(findings@),
                entry_views(entries@) =~= all.take(i as int).map_values(
                    |f: FindingView| entry_of(f, f.file),
                ),
            decreases findings@.len() - i,
        {
            let e = BaselineEntry::from_finding(&findings[i]);
            proof {
                lemma_entry_views_push(entries@, e);
                assert(all[i as int] == findings@[i as int]@);
            }
            entries.push(e);
            i = i + 1;
        }
        assert(all.take(i as int) =~= all);
        BaselineFile { version: 1, entries }
    }

    /// A baseline of the given findings, whose files have the given keys.
    pub fn from_findings_at_root(findings: &[Finding], file_keys: &[String]) -> (r: Self)
        requires
            file_keys@.len() == findings@.len(),
        ensures
            r.version == 1,
            entry_views(r.entries@) == Seq::new(
                findings@.len(),
                |i: int| entry_of(findings@[i]@, file_keys@[i]@),
            ),
    {
        let mut entries: Vec<BaselineEntry> = Vec::new();
        let mut i: usize = 0;
        while i < findings.len()
            invariant
                i <= findings@.len(),
                file_keys@.len() == findings@.len(),
                entry_views(entries@) =~= Seq::new(
                    i as nat,
                    |k: int| entry_of(findings@[k]@, file_keys@[k]@),
                ),
            decreases findings@.len() - i,
        {
            let e = BaselineEntry::from_finding_at_root(&findings[i], file_keys[i].as_str());
            proof {
                lemma_entry_views_push(entries@, e);
            }
            entries.push(e);
            i = i + 1;
        }
        BaselineFile { version: 1, entries }
    }

    fn add_entry(&mut self, entry: BaselineEntry) -> (r: bool)
        ensures
            final(self).version == old(self).version,
            r == !has_fingerprint(entry_views(old(self).entries@), entry@.fingerprint),
            entry_views(final(self).entries@) == with_entry(
                entry_views(old(self).entries@),
                entry@,
            ),
    {
        if find_fingerprint(&self.entries, entry.fingerprint.as_str()) {
            return false;
        }
        proof {
            lemma_entry_views_push(self.entries@, entry);
        }
        self.entries.push(entry);
        true
    }

    /// Adds a finding, unless it is known already; says whether it was added.
    pub fn add_finding(&mut self, finding: &Finding) -> (r: bool)
        ensures
            final(self).version == old(self).version,
            r == !has_fingerprint(
                entry_views(old(self).entries@),
                fingerprint(finding@, finding.file@),
            ),
            entry_views(final(self).entries@) == with_entry(
                entry_views(old(self).entries@),
                entry_of(finding@, finding.file@),
            ),
    {
        self.add_entry(BaselineEntry::from_finding(finding))
    }

    /// Adds a finding whose file has the given key, unless it is known already; says whether it
    /// was added.
    pub fn add_finding_at_root(&mut self, finding: &Finding, file_key: &str) -> (r: bool)
        ensures
            final(self).version == old(self).version,
            r == !has_fingerprint(
                entry_views(old(self).entries@),
                fingerprint(finding@, file_key@),
            ),
            entry_views(final(self).entries@) == with_entry(
                entry_views(old(self).entries@),
                entry_of(finding@, file_key@),
            ),
    {
        self.add_entry(BaselineEntry::from_finding_at_root(finding, file_key))
    }

    /// Adds findings whose files have the given keys, each unless it is known already; says how
    /// many were added.
    pub fn add_findings_at_root(&mut self, findings: &[Finding], file_keys: &[String]) -> (r: usize)
        requires
            file_keys@.len() == findings@.len(),
        ensures
            final(self).version == old(self).version,
            entry_views(final(self).entries@) == with_entries(
                entry_views(old(self).entries@),
                finding_views(findings@),
                texts(file_keys@),
                findings@.len() as int,
            ),
            r == final(self).entries@.len() - old(self).entries@.len(),
    {
        let ghost start = entry_views(self.entries@);
        let ghost all = finding_views(findings@);
        let ghost keys = texts(file_keys@);
        let ghost begin = self.entries@.len();
        let mut added: usize = 0;
        let mut i: usize = 0;
        while i < findings.len()
            invariant
                i <= findings@.len(),
                file_keys@.len() == findings@.len(),
                all == finding_views(findings@),
                keys == texts(file_keys@),
                self.version == old(self).version,
                entry_views(self.entries@) == with_entries(start, all, keys, i as int),
                self.entries@.len() == begin + added,
                added <= i,
            decreases findings@.len() - i,
        {
            assert(all[i as int] == findings@[i as int]@);
            assert(keys[i as int] == file_keys@[i as int]@);
            let ghost before = entry_views(self.entries@);
            if self.add_finding_at_root(&findings[i], file_keys[i].as_str()) {
                added = added + 1;
            }
            proof {
                assert(entry_views(self.entries@).len() == self.entries@.len());
            }
            i = i + 1;
        }
        added
    }
}

/// The entries of a baseline that was loaded; none where there was none.
pub open spec fn loaded_entries(loaded: Option<BaselineFile>) -> Seq<EntryView> {
    match loaded {
        Some(b) => entry_views(b.entries@),
        None => Seq::empty(),
    }
}

/// The version of a baseline that was loaded, or of a new one.
pub open spec fn loaded_version(loaded: Option<BaselineFile>) -> u32 {
    match loaded {
        Some(b) => b.version,
        None => 1,
    }
}

fn loaded_or_new(loaded: Option<BaselineFile>) -> (r: BaselineFile)
    ensures
        r.version == loaded_version(loaded),
        entry_views(r.entries@) == loaded_entries(loaded),
{
    match loaded {
        Some(b) => b,
        None => {
            let entries: Vec<BaselineEntry> = Vec::new();
            assert(entry_views(entries@) =~= Seq::<EntryView>::empty());
            BaselineFile { version: 1, entries }
        },
    }
}

/// The baseline to write after a finding is added to the one that was loaded, and whether it was
/// added.
pub fn append_finding_to_baseline(loaded: Option<BaselineFile>, finding: &Finding) -> (r: (
    BaselineFile,
    bool,
))
    ensures
        r.0.version == loaded_version(loaded),
        entry_views(r.0.entries@) == with_entry(
            loaded_entries(loaded),
            entry_of(finding@, finding.file@),
        ),
        r.1 == !has_fingerprint(loaded_entries(loaded), fingerprint(finding@, finding.file@)),
{
    let mut b = loaded_or_new(loaded);
    let added = b.add_finding(finding);
    (b, added)
}

/// The baseline to write after a finding whose file has the given key is added to the one that was
/// loaded, and whether it was added.
pub fn append_finding_to_baseline_at_root(
    loaded: Option<BaselineFile>,
    finding: &Finding,
    file_key: &str,
) -> (r: (BaselineFile, bool))
    ensures
        r.0.version == loaded_version(loaded),
        entry_views(r.0.entries@) == with_entry(
            loaded_entries(loaded),
            entry_of(finding@, file_key@),
        ),
        r.1 == !has_fingerprint(loaded_entries(loaded), fingerprint(finding@, file_key@)),
{
    let mut b = loaded_or_new(loaded);
    let added = b.add_finding_at_root(finding, file_key);
    (b, added)
}

/// The baseline after findings whose files have the given keys are added to the one that was loaded,
/// and how many were added; it is to be written where any were.
pub fn append_findings_to_baseline_at_root(
    loaded: Option<BaselineFile>,
    findings: &[Finding],
    file_keys: &[String],
) -> (r: (BaselineFile, usize))
    requires
        file_keys@.len() == findings@.len(),
    ensures
        r.0.version == loaded_version(loaded),
        entry_views(r.0.entries@) == with_entries(
            loaded_entries(loaded),
            finding_views(findings@),
            texts(file_keys@),
            findings@.len() as int,
        ),
        r.1 == r.0.entries@.len() - loaded_entries(loaded).len(),
{
    let mut b = loaded_or_new(loaded);
    assert(entry_views(b.entries@).len() == b.entries@.len());
    let added = b.add_findings_at_root(findings, file_keys);
    (b, added)
}

// ---------------------------------------------------------------------------
// Matching
// ---------------------------------------------------------------------------

/// The file of the finding may be spelled `s`: as its key, as the finding has it, or as an entry of
/// the same key has it.
pub open spec fn spelling(
    f: FindingView,
    key: Seq<char>,
    entries: Seq<EntryView>,
    entry_keys: Seq<Seq<char>>,
    s: Seq<char>,
) -> bool {
    ||| s == key
    ||| s == f.file
    ||| exists|i: int|
        0 <= i < entries.len() && (#[trigger] entries[i]).file == s && entry_keys[i] == key
}

/// The finding, with its file spelled `s`, is in the baseline.
pub open spec fn hit(
    f: FindingView,
    key: Seq<char>,
    entries: Seq<EntryView>,
    entry_keys: Seq<Seq<char>>,
    s: Seq<char>,
) -> bool {
    spelling(f, key, entries, entry_keys, s) && has_fingerprint(entries, fingerprint(f, s))
}

/// The finding accounts for the entries with the given fingerprint.
pub open spec fn accounts_for(
    f: FindingView,
    key: Seq<char>,
    entries: Seq<EntryView>,
    entry_keys: Seq<Seq<char>>,
    fp: Seq<char>,
) -> bool {
    exists|s: Seq<char>| #[trigger] hit(f, key, entries, entry_keys, s) && fp == fingerprint(f, s)
}

/// The finding is in the baseline.
pub open spec fn recurs(
    f: FindingView,
    key: Seq<char>,
    entries: Seq<EntryView>,
    entry_keys: Seq<Seq<char>>,
) -> bool {
    exists|s: Seq<char>| #[trigger] hit(f, key, entries, entry_keys, s)
}

fn visit(
    finding: &Finding,
    file: &str,
    baseline: &BaselineFile,
    matched: &mut Vec<String>,
) -> (r: bool)
    ensures
        r == has_fingerprint(entry_views(baseline.entries@), fingerprint(finding@, file@)),
        texts(final(matched)@) == if r {
            texts(old(matched)@).push(fingerprint(finding@, file@))
        } else {
            texts(old(matched)@)
        },
{
    let fp = fingerprint_finding_with_file(finding, file);
    if find_fingerprint(&baseline.entries, fp.as_str()) {
        proof {
            crate::text::lemma_texts_push(matched@, fp);
        }
        matched.push(fp);
        true
    } else {
        false
    }
}

/// The fingerprints of the baseline that a finding accounts for.
pub fn matching_fingerprints(
    finding: &Finding,
    file_key: &str,
    baseline: &BaselineFile,
    entry_keys: &[String],
) -> (r: Vec<String>)
    requires
        entry_keys@.len() == baseline.entries@.len(),
    ensures
        forall|fp: Seq<char>| #[trigger]
            texts(r@).contains(fp) <==> accounts_for(
                finding@,
                file_key@,
                entry_views(baseline.entries@),
                texts(entry_keys@),
                fp,
            ),
        (r@.len() > 0) == recurs(
            finding@,
            file_key@,
            entry_views(baseline.entries@),
            texts(entry_keys@),
        ),
{
    let ghost f = finding@;
    let ghost key = file_key@;
    let ghost entries = entry_views(baseline.entries@);
    let ghost keys = texts(entry_keys@);
    let ghost mut tried: Set<Seq<char>> = Set::empty();
    let mut matched: Vec<String> = Vec::new();
    assert(texts(matched@) =~= Seq::<Seq<char>>::empty());
    let first = visit(finding, file_key, baseline, &mut matched);
    proof {
        tried = tried.insert(key);
        assert(spelling(f, key, entries, keys, key));
        if first {
            assert(hit(f, key, entries, keys, key));
            assert(texts(matched@)[0] == fingerprint(f, key));
        }
    }
    if !same(finding.file.as_str(), file_key) {
        let ghost before = texts(matched@);
        let second = visit(finding, finding.file.as_str(), baseline, &mut matched);
        proof {
            assert(spelling(f, key, entries, keys, f.file));
            if second {
                assert(hit(f, key, entries, keys, f.file));
            }
            assert forall|fp: Seq<char>| #[trigger] texts(matched@).contains(fp) implies
                accounts_for(f, key, entries, keys, fp) by {
                let k = choose|k: int| 0 <= k < texts(matched@).len() && texts(matched@)[k] == fp;
                if k < before.len() {
                    assert(before[k] == fp);
                    assert(before.contains(fp));
                }
            }
            if first {
                assert(texts(matched@)[0] == fingerprint(f, key));
            }
            if second {
                assert(texts(matched@)[before.len() as int] == fingerprint(f, f.file));
            }
        }
    }
    proof {
        tried = tried.insert(f.file);
    }
    let mut i: usize = 0;
    while i < baseline.entries.len()
        invariant
            i <= baseline.entries@.len(),
            entry_keys@.len() == baseline.entries@.len(),
            f == finding@,
            key == file_key@,
            entries == entry_views(baseline.entries@),
            keys == texts(entry_keys@),
            tried.contains(key),
            tried.contains(f.file),
            forall|k: int|
                0 <= k < i && keys[k] == key ==> tried.contains((#[trigger] entries[k]).file),
            forall|s: Seq<char>| #[trigger]
                tried.contains(s) && hit(f, key, entries, keys, s) ==> texts(matched@).contains(
                    fingerprint(f, s),
                ),
            forall|fp: Seq<char>| #[trigger]
                texts(matched@).contains(fp) ==> accounts_for(f, key, entries, keys, fp),
        decreases baseline.entries@.len() - i,
    {
        let file = baseline.entries[i].file.as_str();
        assert(entries[i as int] == baseline.entries@[i as int]@);
        assert(keys[i as int] == entry_keys@[i as int]@);
        if same(entry_keys[i].as_str(), file_key) && !same(file, file_key) && !same(
            file,
            finding.file.as_str(),
        ) {
            let ghost before = texts(matched@);
            let found = visit(finding, file, baseline, &mut matched);
            proof {
                assert(spelling(f, key, entries, keys, file@)) by {
                    assert(entries[i as int].file == file@);
                }
                if found {
                    assert(hit(f, key, entries, keys, file@));
                    assert(texts(matched@)[before.len() as int] == fingerprint(f, file@));
                }
                assert forall|fp: Seq<char>| #[trigger] texts(matched@).contains(fp) implies
                    accounts_for(f, key, entries, keys, fp) by {
                    let k = choose|k: int|
                        0 <= k < texts(matched@).len() && texts(matched@)[k] == fp;
                    if k < before.len() {
                        assert(before[k] == fp);
                        assert(before.contains(fp));
                    }
                }
                assert forall|s: Seq<char>| #[trigger]
                    tried.contains(s) && hit(f, key, entries, keys, s) implies texts(
                    matched@,
                ).contains(fingerprint(f, s)) by {
                    let k = choose|k: int| 0 <= k < before.len() && before[k] == fingerprint(f, s);
                    assert(texts(matched@)[k] == fingerprint(f, s));
                }
                tried = tried.insert(file@);
            }
        }
        i = i + 1;
    }
    proof {
        assert forall|fp: Seq<char>| #[trigger] texts(matched@).contains(fp) <==> accounts_for(
            f,
            key,
            entries,
            keys,
            fp,
        ) by {
            if accounts_for(f, key, entries, keys, fp) {
                let s = choose|s: Seq<char>| #[trigger]
                    hit(f, key, entries, keys, s) && fp == fingerprint(f, s);
                if s != key && s != f.file {
                    let k = choose|k: int|
                        0 <= k < entries.len() && (#[trigger] entries[k]).file == s && keys[k]
                            == key;
                    assert(tried.contains(entries[k].file));
                }
                assert(tried.contains(s));
            }
        }
        if matched@.len() > 0 {
            let fp = texts(matched@)[0];
            assert(texts(matched@).contains(fp));
            let s = choose|s: Seq<char>| #[trigger]
                hit(f, key, entries, keys, s) && fp == fingerprint(f, s);
            assert(hit(f, key, entries, keys, s));
        }
        if recurs(f, key, entries, keys) {
            let s = choose|s: Seq<char>| #[trigger] hit(f, key, entries, keys, s);
            let fp = fingerprint(f, s);
            assert(accounts_for(f, key, entries, keys, fp));
            assert(texts(matched@).contains(fp));
        }
    }
    matched
}

// ---------------------------------------------------------------------------
// Comparing
// ---------------------------------------------------------------------------

/// The positions, among the first `n`, of the findings that recur, or of the others.
pub open spec fn positions(
    findings: Seq<FindingView>,
    keys: Seq<Seq<char>>,
    entries: Seq<EntryView>,
    entry_keys: Seq<Seq<char>>,
    recurring: bool,
    n: int,
) -> Seq<usize>
    decreases n,
{
    if n <= 0 {
        Seq::empty()
    } else {
        let before = positions(findings, keys, entries, entry_keys, recurring, n - 1);
        if recurs(findings[n - 1], keys[n - 1], entries, entry_keys) == recurring {
            before.push((n - 1) as usize)
        } else {
            before
        }
    }
}

/// Some of the first `n` findings accounts for entries with the fingerprint.
pub open spec fn accounted(
    findings: Seq<FindingView>,
    keys: Seq<Seq<char>>,
    entries: Seq<EntryView>,
    entry_keys: Seq<Seq<char>>,
    n: int,
    fp: Seq<char>,
) -> bool {
    exists|i: int|
        0 <= i < n && accounts_for(#[trigger] findings[i], keys[i], entries, entry_keys, fp)
}

/// The entries that no finding accounts for.
pub open spec fn unaccounted(
    findings: Seq<FindingView>,
    keys: Seq<Seq<char>>,
    entries: Seq<EntryView>,
    entry_keys: Seq<Seq<char>>,
) -> Seq<EntryView> {
    entries.filter(
        |e: EntryView|
            !accounted(
                findings,
                keys,
                entries,
                entry_keys,
                findings.len() as int,
                e.fingerprint,
            ),
    )
}

/// What the findings are against a baseline: which recur, which are new, and which entries none
/// of them accounts for. `file_keys` and `entry_keys` are the keys of the files of each finding and
/// each entry.
pub fn compare_with_baseline_at_root(
    findings: &[Finding],
    file_keys: &[String],
    baseline: &BaselineFile,
    entry_keys: &[String],
) -> (r: BaselineComparison)
    requires
        file_keys@.len() == findings@.len(),
        entry_keys@.len() == baseline.entries@.len(),
    ensures
        ({
            let all = finding_views(findings@);
            let keys = texts(file_keys@);
            let entries = entry_views(baseline.entries@);
            let known = texts(entry_keys@);
            &&& r.recurring@ == positions(all, keys, entries, known, true, all.len() as int)
            &&& r.introduced@ == positions(all, keys, entries, known, false, all.len() as int)
            &&& entry_views(r.resolved@) == unaccounted(all, keys, entries, known)
        }),
{
    let ghost all = finding_views(findings@);
    let ghost keys = texts(file_keys@);
    let ghost entries = entry_views(baseline.entries@);
    let ghost known = texts(entry_keys@);
    let mut introduced: Vec<usize> = Vec::new();
    let mut recurring: Vec<usize> = Vec::new();
    let mut matched: Vec<String> = Vec::new();
    let mut i: usize = 0;
    assert(texts(matched@) =~= Seq::<Seq<char>>::empty());
    while i < findings.len()
        invariant
            i <= findings@.len(),
            file_keys@.len() == findings@.len(),
            entry_keys@.len() == baseline.entries@.len(),
            all == finding_views(findings@),
            keys == texts(file_keys@),
            entries == entry_views(baseline.entries@),
            known == texts(entry_keys@),
            recurring@ == positions(all, keys, entries, known, true, i as int),
            introduced@ == positions(all, keys, entries, known, false, i as int),
            forall|fp: Seq<char>| #[trigger]
                texts(matched@).contains(fp) <==> accounted(
                    all,
                    keys,
                    entries,
                    known,
                    i as int,
                    fp,
                ),
        decreases findings@.len() - i,
    {
        assert(all[i as int] == findings@[i as int]@);
        assert(keys[i as int] == file_keys@[i as int]@);
        let mut here = matching_fingerprints(
            &findings[i],
            file_keys[i].as_str(),
            baseline,
            entry_keys,
        );
        if here.len() > 0 {
            recurring.push(i);
        } else {
            introduced.push(i);
        }
        let ghost before = matched@;
        let ghost added = here@;
        matched.append(&mut here);
        proof {
            assert(texts(before + added) =~= texts(before) + texts(added));
            assert forall|fp: Seq<char>| #[trigger] texts(matched@).contains(fp) <==> accounted(
                all,
                keys,
                entries,
                known,
                i + 1,
                fp,
            ) by {
                let total = texts(matched@);
                if total.contains(fp) {
                    let k = choose|k: int| 0 <= k < total.len() && total[k] == fp;
                    if k < before.len() {
                        assert(texts(before)[k] == fp);
                        assert(texts(before).contains(fp));
                        let m = choose|m: int|
                            0 <= m < i && accounts_for(
                                #[trigger] all[m],
                                keys[m],
                                entries,
                                known,
                                fp,
                            );
                        assert(accounts_for(all[m], keys[m], entries, known, fp));
                    } else {
                        assert(texts(added)[k - before.len()] == fp);
                        assert(texts(added).contains(fp));
                        assert(accounts_for(all[i as int], keys[i as int], entries, known, fp));
                    }
                }
                if accounted(all, keys, entries, known, i + 1, fp) {
                    let m = choose|m: int|
                        0 <= m < i + 1 && accounts_for(
                            #[trigger] all[m],
                            keys[m],
                            entries,
                            known,
                            fp,
                        );
                    if m < i {
                        assert(accounted(all, keys, entries, known, i as int, fp));
                        assert(texts(before).contains(fp));
                        let k = choose|k: int| 0 <= k < before.len() && texts(before)[k] == fp;
                        assert(total[k] == fp);
                    } else {
                        assert(texts(added).contains(fp));
                        let k = choose|k: int| 0 <= k < added.len() && texts(added)[k] == fp;
                        assert(total[before.len() + k] == fp);
                    }
                }
            }
        }
        i = i + 1;
    }
    let ghost p = |e: EntryView|
        !accounted(all, keys, entries, known, all.len() as int, e.fingerprint);
    let mut resolved: Vec<BaselineEntry> = Vec::new();
    let mut k: usize = 0;
    proof {
        assert(entries.take(0) =~= Seq::<EntryView>::empty());
        reveal(Seq::filter);
        assert(entry_views(resolved@) =~= entries.take(0).filter(p));
    }
    while k < baseline.entries.len()
        invariant
            k <= baseline.entries@.len(),
            entries == entry_views(baseline.entries@),
            p == (|e: EntryView|
                !accounted(all, keys, entries, known, all.len() as int, e.fingerprint)),
            forall|fp: Seq<char>| #[trigger]
                texts(matched@).contains(fp) <==> accounted(
                    all,
                    keys,
                    entries,
                    known,
                    all.len() as int,
                    fp,
                ),
            entry_views(resolved@) == entries.take(k as int).filter(p),
        decreases baseline.entries@.len() - k,
    {
        proof {
            assert(entries[k as int] == baseline.entries@[k as int]@);
            assert(entries.take(k + 1) =~= entries.take(k as int).push(entries[k as int]));
            entries.take(k as int).lemma_filter_push(entries[k as int], p);
        }
        if !crate::text::contains_string(&matched, baseline.entries[k].fingerprint.as_str()) {
            let e = baseline.entries[k].clone();
            proof {
                lemma_entry_views_push(resolved@, e);
            }
            resolved.push(e);
        }
        k = k + 1;
    }
    assert(entries.take(k as int) =~= entries);
    BaselineComparison { introduced, recurring, resolved }
}

/// The findings, among the first `n`, that are not in the baseline.
pub open spec fn fresh(
    findings: Seq<Finding>,
    keys: Seq<Seq<char>>,
    entries: Seq<EntryView>,
    entry_keys: Seq<Seq<char>>,
    n: int,
) -> Seq<Finding>
    decreases n,
{
    if n <= 0 {
        Seq::empty()
    } else {
        let before = fresh(findings, keys, entries, entry_keys, n - 1);
        if recurs(findings[n - 1]@, keys[n - 1], entries, entry_keys) {
            before
        } else {
            before.push(findings[n - 1])
        }
    }
}

/// The findings that are not in the baseline; all of them where there is none.
pub fn suppress_with_baseline_at_root(
    findings: Vec<Finding>,
    file_keys: &[String],
    baseline: Option<&BaselineFile>,
    entry_keys: &[String],
) -> (r: Vec<Finding>)
    requires
        file_keys@.len() == findings@.len(),
        baseline matches Some(b) ==> entry_keys@.len() == b.entries@.len(),
    ensures
        match baseline {
            None => r@ == findings@,
            Some(b) => r@ == fresh(
                findings@,
                texts(file_keys@),
                entry_views(b.entries@),
                texts(entry_keys@),
                findings@.len() as int,
            ),
        },
{
    let baseline = match baseline {
        Some(b) => b,
        None => {
            return findings;
        },
    };
    let ghost all = findings@;
    let ghost keys = texts(file_keys@);
    let ghost entries = entry_views(baseline.entries@);
    let ghost known = texts(entry_keys@);
    let mut r: Vec<Finding> = Vec::new();
    let mut i: usize = 0;
    for finding in it: findings
        invariant
            it.seq() == all,
            i == it.index(),
            file_keys@.len() == all.len(),
            entry_keys@.len() == baseline.entries@.len(),
            keys == texts(file_keys@),
            entries == entry_views(baseline.entries@),
            known == texts(entry_keys@),
            r@ == fresh(all, keys, entries, known, it.index() as int),
    {
        assert(keys[i as int] == file_keys@[i as int]@);
        let here = matching_fingerprints(&finding, file_keys[i].as_str(), baseline, entry_keys);
        if here.len() == 0 {
            r.push(finding);
        }
        i = i + 1;
    }
    r
}

/// The findings that are not in the baseline, with files as seen from the working directory.
pub fn suppress_with_baseline(
    findings: Vec<Finding>,
    file_keys: &[String],
    baseline: Option<&BaselineFile>,
    entry_keys: &[String],
) -> (r: Vec<Finding>)
    requires
        file_keys@.len() == findings@.len(),
        baseline matches Some(b) ==> entry_keys@.len() == b.entries@.len(),
    ensures
        match baseline {
            None => r@ == findings@,
            Some(b) => r@ == fresh(
                findings@,
                texts(file_keys@),
                entry_views(b.entries@),
                texts(entry_keys@),
                findings@.len() as int,
            ),
        },
{
    suppress_with_baseline_at_root(findings, file_keys, baseline, entry_keys)
}

// ---------------------------------------------------------------------------
// Laws
// ---------------------------------------------------------------------------

/// Findings against the baseline that was made of them: each of them recurs, whatever the keys of
/// its entries' files, and each entry is accounted for.
pub proof fn own_baseline_accounts_for_everything(
    findings: Seq<FindingView>,
    keys: Seq<Seq<char>>,
    entry_keys: Seq<Seq<char>>,
    i: int,
)
    requires
        keys.len() == findings.len(),
        0 <= i < findings.len(),
    ensures
        ({
            let entries = Seq::new(findings.len(), |k: int| entry_of(findings[k], keys[k]));
            &&& recurs(findings[i], keys[i], entries, entry_keys)
            &&& accounted(
                findings,
                keys,
                entries,
                entry_keys,
                findings.len() as int,
                entries[i].fingerprint,
            )
        }),
{
    let entries = Seq::new(findings.len(), |k: int| entry_of(findings[k], keys[k]));
    let fp = fingerprint(findings[i], keys[i]);
    assert(entries[i].fingerprint == fp);
    assert(has_fingerprint(entries, fp));
    assert(hit(findings[i], keys[i], entries, entry_keys, keys[i]));
    assert(accounts_for(findings[i], keys[i], entries, entry_keys, fp));
}

/// Against the baseline that was made of them, no finding is new, no entry is left over, and
/// suppression leaves nothing.
pub proof fn own_baseline_suppresses_everything(
    findings: Seq<Finding>,
    keys: Seq<Seq<char>>,
    entry_keys: Seq<Seq<char>>,
    n: int,
)
    requires
        keys.len() == findings.len(),
        0 <= n <= findings.len(),
    ensures
        ({
            let all = finding_views(findings);
            let entries = Seq::new(findings.len(), |k: int| entry_of(all[k], keys[k]));
            &&& positions(all, keys, entries, entry_keys, false, n) == Seq::<usize>::empty()
            &&& fresh(findings, keys, entries, entry_keys, n) == Seq::<Finding>::empty()
            &&& unaccounted(all, keys, entries, entry_keys) == Seq::<EntryView>::empty()
        }),
    decreases n,
{
    let all = finding_views(findings);
    let entries = Seq::new(findings.len(), |k: int| entry_of(all[k], keys[k]));
    if n > 0 {
        own_baseline_suppresses_everything(findings, keys, entry_keys, n - 1);
        own_baseline_accounts_for_everything(all, keys, entry_keys, n - 1);
        assert(all[n - 1] == findings[n - 1]@);
    }
    let p = |e: EntryView|
        !accounted(all, keys, entries, entry_keys, all.len() as int, e.fingerprint);
    let left = entries.filter(p);
    if left.len() > 0 {
        entries.lemma_filter_pred(p, 0);
        entries.lemma_filter_contains_rev(p, left[0]);
        let k = choose|k: int| 0 <= k < entries.len() && entries[k] == left[0];
        own_baseline_accounts_for_everything(all, keys, entry_keys, k);
    }
    assert(left =~= Seq::<EntryView>::empty());
}

/// A finding that was added is known: adding it again changes nothing.
pub proof fn adding_twice_changes_nothing(
    entries: Seq<EntryView>,
    f: FindingView,
    file: Seq<char>,
)
    ensures
        has_fingerprint(with_entry(entries, entry_of(f, file)), fingerprint(f, file)),
        with_entry(with_entry(entries, entry_of(f, file)), entry_of(f, file)) == with_entry(
            entries,
            entry_of(f, file),
        ),
{
    let e = entry_of(f, file);
    if !has_fingerprint(entries, e.fingerprint) {
        assert(entries.push(e)[entries.len() as int].fingerprint == e.fingerprint);
    }
}

/// An entry of another file never makes a finding recur, unless its fingerprint is that of the
/// finding itself under one of its own spellings.
pub proof fn entries_of_other_files_do_not_match(
    f: FindingView,
    key: Seq<char>,
    entries: Seq<EntryView>,
    entry_keys: Seq<Seq<char>>,
    s: Seq<char>,
)
    requires
        s != key,
        s != f.file,
        forall|i: int|
            0 <= i < entries.len() && (#[trigger] entries[i]).file == s ==> entry_keys[i] != key,
    ensures
        !hit(f, key, entries, entry_keys, s),
{
}

// ---------------------------------------------------------------------------
// Identity
// ---------------------------------------------------------------------------

/// The bytes hold no zero.
pub open spec fn zero_free(s: Seq<u8>) -> bool {
    forall|i: int| 0 <= i < s.len() ==> #[trigger] s[i] != 0
}

proof fn lemma_first_zero(a: Seq<u8>, x: Seq<u8>, b: Seq<u8>, y: Seq<u8>)
    requires
        zero_free(a),
        zero_free(b),
        a.push(0) + x == b.push(0) + y,
    ensures
        a == b,
        x == y,
{
    let s = a.push(0) + x;
    let t = b.push(0) + y;
    assert(s[a.len() as int] == 0);
    assert(t[b.len() as int] == 0);
    if a.len() < b.len() {
        assert(t[a.len() as int] == b[a.len() as int]);
    } else if b.len() < a.len() {
        assert(s[b.len() as int] == a[b.len() as int]);
    } else {
        assert(s.take(a.len() as int) =~= a);
        assert(t.take(b.len() as int) =~= b);
        assert(s.skip((a.len() + 1) as int) =~= x);
        assert(t.skip((b.len() + 1) as int) =~= y);
    }
}

proof fn lemma_digits_zero_free(n: nat)
    ensures
        zero_free(encode_utf8(decimal(n))),
{
    let d = decimal(n);
    digits_read_back(n);
    assert(is_ascii_chars(d)) by {
        assert forall|i: int| 0 <= i < d.len() implies '\0' <= #[trigger] d[i] <= '\u{7f}' by {
            assert(is_digit(d[i]));
        }
    }
    is_ascii_chars_encode_utf8(d);
    assert forall|i: int| 0 <= i < encode_utf8(d).len() implies #[trigger] encode_utf8(d)[i] != 0 by {
        assert(is_digit(d[i]));
        assert(d[i] as u8 == encode_utf8(d)[i]);
    }
}

proof fn lemma_same_number(m: nat, n: nat)
    requires
        encode_utf8(decimal(m)) == encode_utf8(decimal(n)),
    ensures
        m == n,
{
    lemma_encode_injective(decimal(m), decimal(n));
    digits_read_back(m);
    digits_read_back(n);
}

proof fn lemma_regroup(x: Seq<u8>, y: Seq<u8>, z: Seq<u8>)
    ensures
        x + y + z == x + (y + z),
{
    assert(x + y + z =~= x + (y + z));
}

proof fn lemma_identity_fields(
    a: Seq<u8>,
    b: Seq<u8>,
    c: Seq<u8>,
    d: Seq<u8>,
    e: Seq<u8>,
    f: Seq<u8>,
    g: Seq<u8>,
)
    ensures
        a + b + c + d + e + f + g == a + (b + (c + (d + (e + (f + g))))),
{
    lemma_regroup(a + b + c + d + e, f, g);
    lemma_regroup(a + b + c + d, e, f + g);
    lemma_regroup(a + b + c, d, e + (f + g));
    lemma_regroup(a + b, c, d + (e + (f + g)));
    lemma_regroup(a, b, c + (d + (e + (f + g))));
}

/// What a finding is identified by tells findings apart: findings with the same identity have the
/// same rule, file, place and description, unless a rule or file holds a zero.
pub proof fn identities_tell_findings_apart(
    f: FindingView,
    file: Seq<char>,
    g: FindingView,
    other: Seq<char>,
)
    requires
        zero_free(encode_utf8(f.rule_id)),
        zero_free(encode_utf8(g.rule_id)),
        zero_free(encode_utf8(file)),
        zero_free(encode_utf8(other)),
        identity_bytes(f, file) == identity_bytes(g, other),
    ensures
        f.rule_id == g.rule_id,
        file == other,
        f.line == g.line,
        f.column == g.column,
        f.end_line == g.end_line,
        f.end_column == g.end_column,
        f.description == g.description,
{
    let f1 = encode_utf8(f.rule_id);
    let g1 = encode_utf8(g.rule_id);
    let f2 = encode_utf8(file);
    let g2 = encode_utf8(other);
    let f3 = encode_utf8(decimal(f.line as nat));
    let g3 = encode_utf8(decimal(g.line as nat));
    let f4 = encode_utf8(decimal(f.column as nat));
    let g4 = encode_utf8(decimal(g.column as nat));
    let f5 = encode_utf8(decimal(f.end_line as nat));
    let g5 = encode_utf8(decimal(g.end_line as nat));
    let f6 = encode_utf8(decimal(f.end_column as nat));
    let g6 = encode_utf8(decimal(g.end_column as nat));
    let f7 = encode_utf8(f.description);
    let g7 = encode_utf8(g.description);
    lemma_digits_zero_free(f.line as nat);
    lemma_digits_zero_free(g.line as nat);
    lemma_digits_zero_free(f.column as nat);
    lemma_digits_zero_free(g.column as nat);
    lemma_digits_zero_free(f.end_line as nat);
    lemma_digits_zero_free(g.end_line as nat);
    lemma_digits_zero_free(f.end_column as nat);
    lemma_digits_zero_free(g.end_column as nat);
    let ft6 = f6.push(0) + f7;
    let gt6 = g6.push(0) + g7;
    let ft5 = f5.push(0) + ft6;
    let gt5 = g5.push(0) + gt6;
    let ft4 = f4.push(0) + ft5;
    let gt4 = g4.push(0) + gt5;
    let ft3 = f3.push(0) + ft4;
    let gt3 = g3.push(0) + gt4;
    let ft2 = f2.push(0) + ft3;
    let gt2 = g2.push(0) + gt3;
    lemma_identity_fields(
        f1.push(0),
        f2.push(0),
        f3.push(0),
        f4.push(0),
        f5.push(0),
        f6.push(0),
        f7,
    );
    lemma_identity_fields(
        g1.push(0),
        g2.push(0),
        g3.push(0),
        g4.push(0),
        g5.push(0),
        g6.push(0),
        g7,
    );
    lemma_first_zero(f1, ft2, g1, gt2);
    lemma_first_zero(f2, ft3, g2, gt3);
    lemma_first_zero(f3, ft4, g3, gt4);
    lemma_first_zero(f4, ft5, g4, gt5);
    lemma_first_zero(f5, ft6, g5, gt6);
    lemma_first_zero(f6, f7, g6, g7);
    lemma_encode_injective(f.rule_id, g.rule_id);
    lemma_encode_injective(file, other);
    lemma_encode_injective(f.description, g.description);
    lemma_same_number(f.line as nat, g.line as nat);
    lemma_same_number(f.column as nat, g.column as nat);
    lemma_same_number(f.end_line as nat, g.end_line as nat);
    lemma_same_number(f.end_column as nat, g.end_column as nat);
}

/// A comparison splits the findings: each is either recurring or new, by whether it recurs.
pub proof fn findings_recur_or_are_new(
    findings: Seq<FindingView>,
    keys: Seq<Seq<char>>,
    entries: Seq<EntryView>,
    entry_keys: Seq<Seq<char>>,
    n: int,
)
    requires
        0 <= n <= findings.len(),
        findings.len() <= usize::MAX,
    ensures
        ({
            let old = positions(findings, keys, entries, entry_keys, true, n);
            let new = positions(findings, keys, entries, entry_keys, false, n);
            &&& old.len() + new.len() == n
            &&& forall|i: usize|
                i < n ==> #[trigger] old.contains(i) == recurs(
                    findings[i as int],
                    keys[i as int],
                    entries,
                    entry_keys,
                )
            &&& forall|i: usize|
                i < n ==> #[trigger] new.contains(i) == !recurs(
                    findings[i as int],
                    keys[i as int],
                    entries,
                    entry_keys,
                )
            &&& forall|i: usize| #[trigger] old.contains(i) ==> i < n
            &&& forall|i: usize| #[trigger] new.contains(i) ==> i < n
        }),
    decreases n,
{
    if n > 0 {
        findings_recur_or_are_new(findings, keys, entries, entry_keys, n - 1);
        let last = (n - 1) as usize;
        let old = positions(findings, keys, entries, entry_keys, true, n - 1);
        let new = positions(findings, keys, entries, entry_keys, false, n - 1);
        assert forall|i: usize| #[trigger] old.push(last).contains(i) == (old.contains(i) || i
            == last) by {
            lemma_push_contains(old, last, i);
        }
        assert forall|i: usize| #[trigger] new.push(last).contains(i) == (new.contains(i) || i
            == last) by {
            lemma_push_contains(new, last, i);
        }
    }
}

proof fn lemma_push_contains(s: Seq<usize>, x: usize, y: usize)
    ensures
        s.push(x).contains(y) == (s.contains(y) || x == y),
{
    if s.contains(y) {
        let k = choose|k: int| 0 <= k < s.len() && s[k] == y;
        assert(s.push(x)[k] == y);
    }
    if x == y {
        assert(s.push(x)[s.len() as int] == y);
    }
    if s.push(x).contains(y) && x != y {
        let k = choose|k: int| 0 <= k < s.push(x).len() && s.push(x)[k] == y;
        assert(s[k] == y);
    }
}

/// How many of the rule, file, place and description two findings have in common.
pub open spec fn in_common(f: FindingView, file: Seq<char>, g: FindingView, other: Seq<char>) -> nat {
    (if f.rule_id == g.rule_id { 1nat } else { 0 }) + (if file == other { 1nat } else { 0 }) + (
    if f.line == g.line { 1nat } else { 0 }) + (if f.column == g.column { 1nat } else { 0 }) + (
    if f.end_line == g.end_line { 1nat } else { 0 }) + (
    if f.end_column == g.end_column { 1nat } else { 0 }) + (
    if f.description == g.description { 1nat } else { 0 })
}

proof fn lemma_same_rest(a: Seq<u8>, x: Seq<u8>, y: Seq<u8>)
    requires
        a + x == a + y,
    ensures
        x == y,
{
    assert((a + x).skip(a.len() as int) =~= x);
    assert((a + y).skip(a.len() as int) =~= y);
}

proof fn lemma_same_start(a: Seq<u8>, b: Seq<u8>, x: Seq<u8>)
    requires
        a.push(0) + x == b.push(0) + x,
    ensures
        a == b,
{
    let s = a.push(0) + x;
    let t = b.push(0) + x;
    assert(s.len() == a.len() + 1 + x.len() && t.len() == b.len() + 1 + x.len());
    assert(s.take(a.len() as int) =~= a);
    assert(t.take(b.len() as int) =~= b);
}

proof fn lemma_one_field_tells(
    a: Seq<Seq<u8>>,
    b: Seq<Seq<u8>>,
    k: int,
)
    requires
        a.len() == 7,
        b.len() == 7,
        0 <= k < 7,
        forall|i: int| 0 <= i < 7 && i != k ==> #[trigger] a[i] == b[i],
        a[0].push(0) + (a[1].push(0) + (a[2].push(0) + (a[3].push(0) + (a[4].push(0) + (a[5].push(0)
            + a[6]))))) == b[0].push(0) + (b[1].push(0) + (b[2].push(0) + (b[3].push(0) + (
        b[4].push(0) + (b[5].push(0) + b[6]))))),
    ensures
        a[k] == b[k],
{
    let a5 = a[5].push(0) + a[6];
    let b5 = b[5].push(0) + b[6];
    let a4 = a[4].push(0) + a5;
    let b4 = b[4].push(0) + b5;
    let a3 = a[3].push(0) + a4;
    let b3 = b[3].push(0) + b4;
    let a2 = a[2].push(0) + a3;
    let b2 = b[2].push(0) + b3;
    let a1 = a[1].push(0) + a2;
    let b1 = b[1].push(0) + b2;
    if k == 0 {
        lemma_same_start(a[0], b[0], a1);
    } else {
        lemma_same_rest(a[0].push(0), a1, b1);
        if k == 1 {
            lemma_same_start(a[1], b[1], a2);
        } else {
            lemma_same_rest(a[1].push(0), a2, b2);
            if k == 2 {
                lemma_same_start(a[2], b[2], a3);
            } else {
                lemma_same_rest(a[2].push(0), a3, b3);
                if k == 3 {
                    lemma_same_start(a[3], b[3], a4);
                } else {
                    lemma_same_rest(a[3].push(0), a4, b4);
                    if k == 4 {
                        lemma_same_start(a[4], b[4], a5);
                    } else {
                        lemma_same_rest(a[4].push(0), a5, b5);
                        if k == 5 {
                            lemma_same_start(a[5], b[5], a[6]);
                        } else {
                            lemma_same_rest(a[5].push(0), a[6], b[6]);
                        }
                    }
                }
            }
        }
    }
}

proof fn lemma_hex_text_injective(a: Seq<u8>, b: Seq<u8>)
    requires
        hex_text(a) == hex_text(b),
    ensures
        a == b,
    decreases a.len(),
{
    lemma_hex_text(a);
    lemma_hex_text(b);
    if a.len() > 0 {
        let s = hex_text(a);
        let t = hex_text(b);
        let n = s.len() as int;
        let x = a.last();
        let y = b.last();
        assert(s[n - 1] == hex_lower(x as nat % 16) && t[n - 1] == hex_lower(y as nat % 16));
        assert(s[n - 2] == hex_lower(x as nat / 16) && t[n - 2] == hex_lower(y as nat / 16));
        assert(x as nat == (x as nat / 16) * 16 + x as nat % 16);
        assert(y as nat == (y as nat / 16) * 16 + y as nat % 16);
        assert(hex_text(a.drop_last()) =~= s.take(n - 2));
        assert(hex_text(b.drop_last()) =~= t.take(n - 2));
        lemma_hex_text_injective(a.drop_last(), b.drop_last());
        assert(a =~= a.drop_last().push(x) && b =~= b.drop_last().push(y));
    } else {
        assert(a =~= b);
    }
}

/// A fingerprint says nothing of a finding but its rule, file, place and description: findings that
/// agree on these have the same one.
pub proof fn fingerprints_ignore_the_rest(
    f: FindingView,
    file: Seq<char>,
    g: FindingView,
    other: Seq<char>,
)
    requires
        in_common(f, file, g, other) == 7,
    ensures
        fingerprint(f, file) == fingerprint(g, other),
{
}

/// Findings that differ in just one of rule, file, place and description have different identities,
/// whatever these hold; they share a fingerprint only where the digests of these identities collide.
pub proof fn one_difference_changes_the_identity(
    f: FindingView,
    file: Seq<char>,
    g: FindingView,
    other: Seq<char>,
)
    requires
        in_common(f, file, g, other) == 6,
    ensures
        identity_bytes(f, file) != identity_bytes(g, other),
        fingerprint(f, file) == fingerprint(g, other) ==> sha256(identity_bytes(f, file)) == sha256(
            identity_bytes(g, other),
        ),
{
    let a = identity_fields(f, file);
    let b = identity_fields(g, other);
    if identity_bytes(f, file) == identity_bytes(g, other) {
        lemma_identity_fields(
            a[0].push(0),
            a[1].push(0),
            a[2].push(0),
            a[3].push(0),
            a[4].push(0),
            a[5].push(0),
            a[6],
        );
        lemma_identity_fields(
            b[0].push(0),
            b[1].push(0),
            b[2].push(0),
            b[3].push(0),
            b[4].push(0),
            b[5].push(0),
            b[6],
        );
        if f.rule_id != g.rule_id {
            lemma_one_field_tells(a, b, 0);
            lemma_encode_injective(f.rule_id, g.rule_id);
        } else if file != other {
            lemma_one_field_tells(a, b, 1);
            lemma_encode_injective(file, other);
        } else if f.line != g.line {
            lemma_one_field_tells(a, b, 2);
            lemma_same_number(f.line as nat, g.line as nat);
        } else if f.column != g.column {
            lemma_one_field_tells(a, b, 3);
            lemma_same_number(f.column as nat, g.column as nat);
        } else if f.end_line != g.end_line {
            lemma_one_field_tells(a, b, 4);
            lemma_same_number(f.end_line as nat, g.end_line as nat);
        } else if f.end_column != g.end_column {
            lemma_one_field_tells(a, b, 5);
            lemma_same_number(f.end_column as nat, g.end_column as nat);
        } else {
            lemma_one_field_tells(a, b, 6);
            lemma_encode_injective(f.description, g.description);
        }
    }
    if fingerprint(f, file) == fingerprint(g, other) {
        lemma_hex_text_injective(
            sha256(identity_bytes(f, file)),
            sha256(identity_bytes(g, other)),
        );
    }
}

/// What a finding is identified by, piece by piece.
spec fn identity_fields(f: FindingView, file: Seq<char>) -> Seq<Seq<u8>> {
    seq![
        encode_utf8(f.rule_id),
        encode_utf8(file),
        encode_utf8(decimal(f.line as nat)),
        encode_utf8(decimal(f.column as nat)),
        encode_utf8(decimal(f.end_line as nat)),
        encode_utf8(decimal(f.end_column as nat)),
        encode_utf8(f.description),
    ]
}

} // verus!
