//! Post-quantum algorithms in source text.
//!
//! Findings made here record the algorithms that teams migrate to. They are informational: they
//! carry the lowest severity, the tag for post-quantum-ready cryptography and no deadline.

use crate::bytes::lemma_encode_concat;
use crate::finding::{
    finding_views, lemma_finding_views_push, Finding, FindingView, Language, Severity, PQ_READY_TAG,
};
use crate::rules::common::{
    comment_markers, make_finding_from_offsets, markers_of, offset_finding,
};
use crate::text::{
    concatenated, inclusive_lines_of, lemma_concatenated_prefix, lemma_inclusive_lines,
    lines_inclusive, owned, same, starts_with, texts, trim_start, trim_start_text,
};
use vstd::prelude::*;
use vstd::utf8::encode_utf8;

verus! {

/// A post-quantum or hybrid algorithm and the spellings that identify it.
#[derive(Debug)]
pub struct PqAlgorithm {
    /// The name that reports use.
    pub canonical: &'static str,
    /// The standard that defines it.
    pub standard: &'static str,
    /// Its older or common name, or nothing.
    pub aka: &'static str,
    /// What it does: `kem`, `signature`, or nothing for the mark of a library.
    pub primitive: &'static str,
    /// Its spellings in small letters.
    pub spellings: Vec<&'static str>,
}

#[verifier::ext_equal]
pub struct AlgorithmView {
    pub canonical: Seq<char>,
    pub standard: Seq<char>,
    pub aka: Seq<char>,
    pub primitive: Seq<char>,
    pub spellings: Seq<Seq<char>>,
}

impl View for PqAlgorithm {
    type V = AlgorithmView;

    open spec fn view(&self) -> AlgorithmView {
        AlgorithmView {
            canonical: self.canonical@,
            standard: self.standard@,
            aka: self.aka@,
            primitive: self.primitive@,
            spellings: words_of_list(self.spellings@),
        }
    }
}

/// The texts of a list of fixed words.
pub open spec fn words_of_list(v: Seq<&'static str>) -> Seq<Seq<char>> {
    v.map_values(|s: &'static str| s@)
}

pub open spec fn algorithm_views(v: Seq<PqAlgorithm>) -> Seq<AlgorithmView> {
    v.map_values(|a: PqAlgorithm| a@)
}

/// The algorithms that are recognised. Hybrids come first: they claim their text before the
/// algorithms they are made of.
pub open spec fn algorithm_table() -> Seq<AlgorithmView> {
    seq![
        AlgorithmView {
            canonical: "X25519MLKEM768"@,
            standard: "FIPS 203 hybrid (RFC 9370)"@,
            aka: "X25519 + ML-KEM-768"@,
            primitive: "kem"@,
            spellings: seq![
                "x25519mlkem768"@,
                "x25519_mlkem768"@,
                "x25519-mlkem768"@,
                "x25519_ml_kem_768"@,
                "x25519-ml-kem-768"@,
                "x25519_ml_kem768"@,
                "x25519-ml-kem768"@,
                "x25519_mlkem_768"@,
                "x25519-mlkem-768"@,
                "secp256r1mlkem768"@,
                "x25519mlkem"@,
            ],
        },
        AlgorithmView {
            canonical: "X25519Kyber768"@,
            standard: "FIPS 203 hybrid (pre-standard draft)"@,
            aka: "X25519 + Kyber-768"@,
            primitive: "kem"@,
            spellings: seq![
                "x25519kyber768draft00"@,
                "x25519kyber768"@,
                "x25519_kyber768"@,
                "x25519-kyber768"@,
                "p256_kyber768"@,
                "p256-kyber768"@,
                "x25519_kyber_768"@,
                "x25519-kyber-768"@,
            ],
        },
        AlgorithmView {
            canonical: "ML-KEM"@,
            standard: "FIPS 203"@,
            aka: "Kyber"@,
            primitive: "kem"@,
            spellings: seq![
                "ml_kem"@,
                "ml-kem"@,
                "mlkem"@,
                "kyber"@,
                "crystals-kyber"@,
                "crystals_kyber"@,
                "fips203"@,
            ],
        },
        AlgorithmView {
            canonical: "ML-DSA"@,
            standard: "FIPS 204"@,
            aka: "Dilithium"@,
            primitive: "signature"@,
            spellings: seq![
                "ml_dsa"@,
                "ml-dsa"@,
                "mldsa"@,
                "dilithium"@,
                "crystals-dilithium"@,
                "crystals_dilithium"@,
                "fips204"@,
            ],
        },
        AlgorithmView {
            canonical: "SLH-DSA"@,
            standard: "FIPS 205"@,
            aka: "SPHINCS+"@,
            primitive: "signature"@,
            spellings: seq![
                "slh_dsa"@,
                "slh-dsa"@,
                "slhdsa"@,
                "sphincsplus"@,
                "sphincs_plus"@,
                "sphincs+"@,
                "sphincs"@,
                "fips205"@,
            ],
        },
        AlgorithmView {
            canonical: "FN-DSA"@,
            standard: "FIPS 206 (draft)"@,
            aka: "Falcon"@,
            primitive: "signature"@,
            spellings: seq![
                "fn_dsa"@,
                "fn-dsa"@,
                "fndsa"@,
                "falcon512"@,
                "falcon-512"@,
                "falcon_512"@,
                "falcon1024"@,
                "falcon-1024"@,
                "falcon_1024"@,
            ],
        },
        AlgorithmView {
            canonical: "HQC"@,
            standard: "NIST 5th selection (draft)"@,
            aka: ""@,
            primitive: "kem"@,
            spellings: seq![
                "hqc-128"@,
                "hqc-192"@,
                "hqc-256"@,
                "hqc128"@,
                "hqc192"@,
                "hqc256"@,
                "hqc_128"@,
                "hqc"@,
            ],
        },
        AlgorithmView {
            canonical: "liboqs"@,
            standard: "Open Quantum Safe (PQC library)"@,
            aka: "OQS"@,
            primitive: ""@,
            spellings: seq![
                "liboqs"@,
                "oqs-provider"@,
                "oqsprovider"@,
                "oqs_provider"@,
                "open-quantum-safe"@,
                "pqcrystals"@,
                "pq-crystals"@,
                "pqclean"@,
                "oqs"@,
            ],
        },
    ]
}

fn algorithm(
    canonical: &'static str,
    standard: &'static str,
    aka: &'static str,
    primitive: &'static str,
    spellings: Vec<&'static str>,
) -> (r: PqAlgorithm)
    ensures
        r@ == (AlgorithmView {
            canonical: canonical@,
            standard: standard@,
            aka: aka@,
            primitive: primitive@,
            spellings: words_of_list(spellings@),
        }),
{
    PqAlgorithm { canonical, standard, aka, primitive, spellings }
}

/// The algorithms that are recognised, hybrids first.
pub fn pq_algorithms() -> (r: Vec<PqAlgorithm>)
    ensures
        algorithm_views(r@) == algorithm_table(),
{
    let mut v: Vec<PqAlgorithm> = Vec::new();
    v.push(
        algorithm(
            "X25519MLKEM768",
            "FIPS 203 hybrid (RFC 9370)",
            "X25519 + ML-KEM-768",
            "kem",
            vec![
                "x25519mlkem768",
                "x25519_mlkem768",
                "x25519-mlkem768",
                "x25519_ml_kem_768",
                "x25519-ml-kem-768",
                "x25519_ml_kem768",
                "x25519-ml-kem768",
                "x25519_mlkem_768",
                "x25519-mlkem-768",
                "secp256r1mlkem768",
                "x25519mlkem",
            ],
        ),
    );
    v.push(
        algorithm(
            "X25519Kyber768",
            "FIPS 203 hybrid (pre-standard draft)",
            "X25519 + Kyber-768",
            "kem",
            vec![
                "x25519kyber768draft00",
                "x25519kyber768",
                "x25519_kyber768",
                "x25519-kyber768",
                "p256_kyber768",
                "p256-kyber768",
                "x25519_kyber_768",
                "x25519-kyber-768",
            ],
        ),
    );
    v.push(
        algorithm(
            "ML-KEM",
            "FIPS 203",
            "Kyber",
            "kem",
            vec![
                "ml_kem",
                "ml-kem",
                "mlkem",
                "kyber",
                "crystals-kyber",
                "crystals_kyber",
                "fips203",
            ],
        ),
    );
    v.push(
        algorithm(
            "ML-DSA",
            "FIPS 204",
            "Dilithium",
            "signature",
            vec![
                "ml_dsa",
                "ml-dsa",
                "mldsa",
                "dilithium",
                "crystals-dilithium",
                "crystals_dilithium",
                "fips204",
            ],
        ),
    );
    v.push(
        algorithm(
            "SLH-DSA",
            "FIPS 205",
            "SPHINCS+",
            "signature",
            vec![
                "slh_dsa",
                "slh-dsa",
                "slhdsa",
                "sphincsplus",
                "sphincs_plus",
                "sphincs+",
                "sphincs",
                "fips205",
            ],
        ),
    );
    v.push(
        algorithm(
            "FN-DSA",
            "FIPS 206 (draft)",
            "Falcon",
            "signature",
            vec![
                "fn_dsa",
                "fn-dsa",
                "fndsa",
                "falcon512",
                "falcon-512",
                "falcon_512",
                "falcon1024",
                "falcon-1024",
                "falcon_1024",
            ],
        ),
    );
    v.push(
        algorithm(
            "HQC",
            "NIST 5th selection (draft)",
            "",
            "kem",
            vec![
                "hqc-128",
                "hqc-192",
                "hqc-256",
                "hqc128",
                "hqc192",
                "hqc256",
                "hqc_128",
                "hqc",
            ],
        ),
    );
    v.push(
        algorithm(
            "liboqs",
            "Open Quantum Safe (PQC library)",
            "OQS",
            "",
            vec![
                "liboqs",
                "oqs-provider",
                "oqsprovider",
                "oqs_provider",
                "open-quantum-safe",
                "pqcrystals",
                "pq-crystals",
                "pqclean",
                "oqs",
            ],
        ),
    );
    proof {
        let t = algorithm_table();
        assert forall|i: int| 0 <= i < 8 implies v@[i]@ == #[trigger] t[i] by {
            assert(v@[i]@.spellings =~= t[i].spellings);
        }
        assert(algorithm_views(v@) =~= t);
    }
    v
}

impl Clone for PqAlgorithm {
    fn clone(&self) -> (r: Self)
        ensures
            r@ == self@,
    {
        let mut spellings: Vec<&'static str> = Vec::new();
        let mut i: usize = 0;
        while i < self.spellings.len()
            invariant
                i <= self.spellings@.len(),
                words_of_list(spellings@) =~= words_of_list(self.spellings@.take(i as int)),
            decreases self.spellings@.len() - i,
        {
            proof {
                let w = self.spellings@[i as int];
                assert(words_of_list(spellings@.push(w)) =~= words_of_list(spellings@).push(w@));
                assert(self.spellings@.take(i + 1) =~= self.spellings@.take(i as int).push(w));
                assert(words_of_list(self.spellings@.take(i as int).push(w)) =~= words_of_list(
                    self.spellings@.take(i as int),
                ).push(w@));
            }
            spellings.push(self.spellings[i]);
            i = i + 1;
        }
        assert(self.spellings@.take(i as int) =~= self.spellings@);
        PqAlgorithm {
            canonical: self.canonical,
            standard: self.standard,
            aka: self.aka,
            primitive: self.primitive,
            spellings,
        }
    }
}

/// The first algorithm from `i` on with the given canonical name.
pub open spec fn named_from(table: Seq<AlgorithmView>, name: Seq<char>, i: int) -> Option<
    AlgorithmView,
>
    decreases table.len() - i,
{
    if i < 0 || i >= table.len() {
        None
    } else if table[i].canonical == name {
        Some(table[i])
    } else {
        named_from(table, name, i + 1)
    }
}

/// The algorithm with the given canonical name.
pub fn algorithm_by_canonical(canonical: &str) -> (r: Option<PqAlgorithm>)
    ensures
        match r {
            Some(a) => named_from(algorithm_table(), canonical@, 0) == Some(a@),
            None => named_from(algorithm_table(), canonical@, 0) is None,
        },
{
    let all = pq_algorithms();
    let ghost table = algorithm_table();
    let mut i: usize = 0;
    while i < all.len()
        invariant
            i <= all@.len(),
            table == algorithm_views(all@),
            table == algorithm_table(),
            named_from(table, canonical@, 0) == named_from(table, canonical@, i as int),
        decreases all@.len() - i,
    {
        assert(table[i as int] == all@[i as int]@);
        if same(all[i].canonical, canonical) {
            return Some(all[i].clone());
        }
        i = i + 1;
    }
    None
}

// ---------------------------------------------------------------------------
// Scanning a line
// ---------------------------------------------------------------------------

/// The byte is an ASCII letter or digit. An underscore is none, so that a name is found between
/// underscores.
pub open spec fn ident_byte(b: u8) -> bool {
    (0x30 <= b <= 0x39) || (0x41 <= b <= 0x5a) || (0x61 <= b <= 0x7a)
}

/// The byte with an ASCII capital as its small letter.
pub open spec fn lower_byte(b: u8) -> u8 {
    if 0x41 <= b <= 0x5a {
        (b + 32) as u8
    } else {
        b
    }
}

pub open spec fn lower_bytes(s: Seq<u8>) -> Seq<u8> {
    s.map_values(|b: u8| lower_byte(b))
}

/// The needle stands at `i`.
pub open spec fn stands(hay: Seq<u8>, needle: Seq<u8>, i: int) -> bool {
    0 <= i && i + needle.len() <= hay.len() && hay.subrange(i, i + needle.len()) == needle
}

/// No letter or digit touches the bytes from `start` to `end`.
pub open spec fn bounded(hay: Seq<u8>, start: int, end: int) -> bool {
    (start == 0 || !ident_byte(hay[start - 1])) && (end == hay.len() || !ident_byte(hay[end]))
}

/// Some byte from `start` to `end` is claimed.
pub open spec fn any_claimed(claimed: Seq<bool>, start: int, end: int) -> bool {
    exists|k: int| start <= k < end && #[trigger] claimed[k]
}

/// `claimed` with the bytes from `start` to `end` claimed too.
pub open spec fn claim(claimed: Seq<bool>, start: int, end: int) -> Seq<bool> {
    Seq::new(claimed.len(), |k: int| claimed[k] || start <= k < end)
}

/// What is known while a line is scanned: the bytes that are claimed, and the first range of the
/// present algorithm.
pub struct LineState {
    pub claimed: Seq<bool>,
    pub first: Option<(int, int)>,
}

/// The state once the occurrences of a spelling from `i` on are taken in. An occurrence counts
/// where no letter or digit touches it and nothing of it is claimed.
pub open spec fn take_spelling(hay: Seq<u8>, needle: Seq<u8>, i: int, st: LineState) -> LineState
    decreases hay.len() - i,
{
    if needle.len() == 0 || i < 0 || i + needle.len() > hay.len() {
        st
    } else if stands(hay, needle, i) {
        let end = i + needle.len();
        let next = if bounded(hay, i, end) && !any_claimed(st.claimed, i, end) {
            LineState {
                claimed: claim(st.claimed, i, end),
                first: match st.first {
                    Some(f) => Some(f),
                    None => Some((i, end)),
                },
            }
        } else {
            st
        };
        take_spelling(hay, needle, end, next)
    } else {
        take_spelling(hay, needle, i + 1, st)
    }
}

/// The state once the first `n` spellings are taken in.
pub open spec fn take_spellings(
    hay: Seq<u8>,
    spellings: Seq<Seq<char>>,
    n: int,
    st: LineState,
) -> LineState
    decreases n,
{
    if n <= 0 {
        st
    } else {
        take_spelling(
            hay,
            encode_utf8(spellings[n - 1]),
            0,
            take_spellings(hay, spellings, n - 1, st),
        )
    }
}

/// The claimed bytes and the matches of a line once the first `n` algorithms are taken in: each
/// algorithm matches at most once.
pub open spec fn take_algorithms(hay: Seq<u8>, table: Seq<AlgorithmView>, n: int) -> (
    Seq<bool>,
    Seq<(int, int, int)>,
)
    decreases n,
{
    if n <= 0 {
        (Seq::new(hay.len(), |k: int| false), Seq::empty())
    } else {
        let (claimed, found) = take_algorithms(hay, table, n - 1);
        let a = table[n - 1];
        let st = take_spellings(
            hay,
            a.spellings,
            a.spellings.len() as int,
            LineState { claimed, first: None },
        );
        (
            st.claimed,
            match st.first {
                Some(f) => found.push((f.0, f.1, n - 1)),
                None => found,
            },
        )
    }
}

/// The matches of a line: where each begins and ends, and which algorithm it is.
pub open spec fn line_found(line: Seq<char>) -> Seq<(int, int, int)> {
    let table = algorithm_table();
    take_algorithms(lower_bytes(encode_utf8(line)), table, table.len() as int).1
}

/// The line, without its leading white space, begins a comment.
pub open spec fn comment_line(trimmed: Seq<char>, language: Language) -> bool {
    let markers = markers_of(language);
    ||| exists|i: int| 0 <= i < markers.len() && (#[trigger] markers[i]).is_prefix_of(trimmed)
    ||| (markers.contains("//"@) || markers.contains("/*"@)) && ("/*"@.is_prefix_of(trimmed)
        || "*/"@.is_prefix_of(trimmed) || "*"@.is_prefix_of(trimmed))
}

/// A match in a text.
#[derive(Debug)]
pub struct PqMatch {
    pub start_byte: usize,
    pub end_byte: usize,
    pub algo: PqAlgorithm,
}

/// The match begins and ends at the given bytes and is of the given algorithm.
pub open spec fn is_match(m: PqMatch, found: (int, int, int)) -> bool {
    &&& m.start_byte == found.0
    &&& m.end_byte == found.1
    &&& m.algo@ == algorithm_table()[found.2]
}

/// The matches in the first `n` lines, with their place in the whole text.
pub open spec fn found_in_lines(lines: Seq<Seq<char>>, n: int, language: Language) -> Seq<
    (int, int, int),
>
    decreases n,
{
    if n <= 0 {
        Seq::empty()
    } else {
        let before = found_in_lines(lines, n - 1, language);
        let line = lines[n - 1];
        if comment_line(trim_start_text(line), language) {
            before
        } else {
            let start = encode_utf8(concatenated(lines, n - 1)).len() as int;
            before + line_found(line).map_values(
                |f: (int, int, int)| (start + f.0, start + f.1, f.2),
            )
        }
    }
}

/// The matches in a text.
pub open spec fn found(source: Seq<char>, language: Language) -> Seq<(int, int, int)> {
    let lines = inclusive_lines_of(source);
    found_in_lines(lines, lines.len() as int, language)
}

fn is_ident_byte(b: u8) -> (r: bool)
    ensures
        r == ident_byte(b),
{
    (0x30 <= b && b <= 0x39) || (0x41 <= b && b <= 0x5a) || (0x61 <= b && b <= 0x7a)
}

fn lowered(line: &str) -> (r: Vec<u8>)
    ensures
        r@ == lower_bytes(encode_utf8(line@)),
{
    let bytes = line.as_bytes();
    let mut r: Vec<u8> = Vec::new();
    let mut i: usize = 0;
    while i < bytes.len()
        invariant
            i <= bytes@.len(),
            r@ =~= lower_bytes(bytes@.take(i as int)),
        decreases bytes@.len() - i,
    {
        let b = bytes[i];
        r.push(
            if 0x41 <= b && b <= 0x5a {
                b + 32
            } else {
                b
            },
        );
        i = i + 1;
    }
    assert(bytes@.take(i as int) =~= bytes@);
    r
}

fn bytes_stand(hay: &Vec<u8>, needle: &[u8], i: usize) -> (r: bool)
    requires
        i + needle@.len() <= hay@.len(),
    ensures
        r == stands(hay@, needle@, i as int),
{
    let n: usize = needle.len();
    let mut k: usize = 0;
    let total: usize = hay.len();
    while k < n
        invariant
            k <= n,
            n == needle@.len(),
            total == hay@.len(),
            i + n <= total,
            forall|m: int| 0 <= m < k ==> hay@[i + m] == needle@[m],
        decreases n - k,
    {
        if hay[i + k] != needle[k] {
            assert(hay@.subrange(i as int, i + n)[k as int] != needle@[k as int]);
            return false;
        }
        k = k + 1;
    }
    assert(hay@.subrange(i as int, i + n) =~= needle@);
    true
}

fn claimed_between(claimed: &Vec<bool>, start: usize, end: usize) -> (r: bool)
    requires
        start <= end <= claimed@.len(),
    ensures
        r == any_claimed(claimed@, start as int, end as int),
{
    let mut k: usize = start;
    while k < end
        invariant
            start <= k <= end <= claimed@.len(),
            forall|m: int| start <= m < k ==> !#[trigger] claimed@[m],
        decreases end - k,
    {
        if claimed[k] {
            return true;
        }
        k = k + 1;
    }
    false
}

fn claim_between(claimed: &mut Vec<bool>, start: usize, end: usize)
    requires
        start <= end <= old(claimed)@.len(),
    ensures
        final(claimed)@ == claim(old(claimed)@, start as int, end as int),
{
    let ghost before = claimed@;
    let mut k: usize = start;
    while k < end
        invariant
            start <= k <= end <= claimed@.len(),
            claimed@ =~= claim(before, start as int, k as int),
        decreases end - k,
    {
        claimed.set(k, true);
        k = k + 1;
    }
    assert(claimed@ =~= claim(before, start as int, end as int));
}

fn scan_spelling(
    hay: &Vec<u8>,
    spelling: &str,
    claimed: &mut Vec<bool>,
    first: Option<(usize, usize)>,
) -> (r: Option<(usize, usize)>)
    requires
        old(claimed)@.len() == hay@.len(),
        first matches Some(f) ==> f.0 <= f.1 <= hay@.len(),
    ensures
        final(claimed)@.len() == hay@.len(),
        r matches Some(f) ==> f.0 <= f.1 <= hay@.len(),
        ({
            let st = take_spelling(
                hay@,
                encode_utf8(spelling@),
                0,
                LineState { claimed: old(claimed)@, first: range_view(first) },
            );
            st.claimed == final(claimed)@ && st.first == range_view(r)
        }),
{
    let needle = spelling.as_bytes();
    let ghost target = take_spelling(
        hay@,
        needle@,
        0,
        LineState { claimed: claimed@, first: range_view(first) },
    );
    let n: usize = needle.len();
    let total: usize = hay.len();
    let mut first = first;
    if n == 0 {
        return first;
    }
    let mut i: usize = 0;
    while i <= total && n <= total - i
        invariant
            n == needle@.len(),
            n > 0,
            total == hay@.len(),
            claimed@.len() == total,
            first matches Some(f) ==> f.0 <= f.1 <= hay@.len(),
            take_spelling(
                hay@,
                needle@,
                i as int,
                LineState { claimed: claimed@, first: range_view(first) },
            ) == target,
        decreases total + 1 - i,
    {
        if bytes_stand(hay, needle, i) {
            let end: usize = i + n;
            let before_ok = i == 0 || !is_ident_byte(hay[i - 1]);
            let after_ok = end == total || !is_ident_byte(hay[end]);
            if before_ok && after_ok && !claimed_between(claimed, i, end) {
                if first.is_none() {
                    first = Some((i, end));
                }
                claim_between(claimed, i, end);
            }
            i = end;
        } else {
            i = i + 1;
        }
    }
    first
}

pub open spec fn range_view(r: Option<(usize, usize)>) -> Option<(int, int)> {
    match r {
        Some(f) => Some((f.0 as int, f.1 as int)),
        None => None,
    }
}

fn scan_algorithm(hay: &Vec<u8>, algo: &PqAlgorithm, claimed: &mut Vec<bool>) -> (r: Option<
    (usize, usize),
>)
    requires
        old(claimed)@.len() == hay@.len(),
    ensures
        final(claimed)@.len() == hay@.len(),
        r matches Some(f) ==> f.0 <= f.1 <= hay@.len(),
        ({
            let st = take_spellings(
                hay@,
                algo@.spellings,
                algo@.spellings.len() as int,
                LineState { claimed: old(claimed)@, first: None },
            );
            st.claimed == final(claimed)@ && st.first == range_view(r)
        }),
{
    let ghost start = LineState { claimed: claimed@, first: None };
    let ghost views = algo@.spellings;
    let mut first: Option<(usize, usize)> = None;
    let mut k: usize = 0;
    while k < algo.spellings.len()
        invariant
            k <= algo.spellings@.len(),
            views == words_of_list(algo.spellings@),
            claimed@.len() == hay@.len(),
            first matches Some(f) ==> f.0 <= f.1 <= hay@.len(),
            take_spellings(hay@, views, k as int, start) == (LineState {
                claimed: claimed@,
                first: range_view(first),
            }),
        decreases algo.spellings@.len() - k,
    {
        assert(views[k as int] == algo.spellings@[k as int]@);
        first = scan_spelling(hay, algo.spellings[k], claimed, first);
        k = k + 1;
    }
    first
}

/// The line, without its leading white space, begins a comment. Attributes and preprocessor
/// directives of languages without hash comments are code.
pub fn is_comment_line(trimmed: &str, language: Language) -> (r: bool)
    ensures
        r == comment_line(trimmed@, language),
{
    let markers = comment_markers(language);
    let ghost views = markers_of(language);
    let mut block: bool = false;
    let mut i: usize = 0;
    while i < markers.len()
        invariant
            i <= markers@.len(),
            views == markers@.map_values(|s: &'static str| s@),
            views == markers_of(language),
            forall|k: int| 0 <= k < i ==> !(#[trigger] views[k]).is_prefix_of(trimmed@),
            block == exists|k: int|
                0 <= k < i && (#[trigger] views[k] == "//"@ || views[k] == "/*"@),
        decreases markers@.len() - i,
    {
        assert(views[i as int] == markers@[i as int]@);
        if starts_with(trimmed, markers[i]) {
            return true;
        }
        if same(markers[i], "//") || same(markers[i], "/*") {
            block = true;
        }
        i = i + 1;
    }
    proof {
        if block {
            let k = choose|k: int|
                0 <= k < views.len() && (#[trigger] views[k] == "//"@ || views[k] == "/*"@);
            assert(views.contains(views[k]));
        } else {
            if views.contains("//"@) {
                let k = choose|k: int| 0 <= k < views.len() && views[k] == "//"@;
                assert(views[k] == "//"@);
            }
            if views.contains("/*"@) {
                let k = choose|k: int| 0 <= k < views.len() && views[k] == "/*"@;
                assert(views[k] == "/*"@);
            }
        }
    }
    block && (starts_with(trimmed, "/*") || starts_with(trimmed, "*/") || starts_with(trimmed, "*"))
}

/// The matches in a text, line by line: at most one for each algorithm in a line.
pub fn scan(source: &str, language: Language) -> (r: Vec<PqMatch>)
    ensures
        r@.len() == found(source@, language).len(),
        forall|i: int|
            0 <= i < r@.len() ==> is_match(#[trigger] r@[i], found(source@, language)[i]),
{
    let lines = lines_inclusive(source);
    let table = pq_algorithms();
    let ghost views = inclusive_lines_of(source@);
    let ghost algos = algorithm_table();
    let total: usize = source.as_bytes().len();
    let mut r: Vec<PqMatch> = Vec::new();
    let mut line_start: usize = 0;
    let mut i: usize = 0;
    proof {
        lemma_inclusive_lines(source@);
    }
    while i < lines.len()
        invariant
            i <= lines@.len(),
            views == texts(lines@),
            views == inclusive_lines_of(source@),
            concatenated(views, views.len() as int) == source@,
            total == encode_utf8(source@).len(),
            algos == algorithm_views(table@),
            algos == algorithm_table(),
            line_start == encode_utf8(concatenated(views, i as int)).len(),
            r@.len() == found_in_lines(views, i as int, language).len(),
            forall|k: int|
                0 <= k < r@.len() ==> is_match(
                    #[trigger] r@[k],
                    found_in_lines(views, i as int, language)[k],
                ),
        decreases lines@.len() - i,
    {
        let line = lines[i].as_str();
        let n: usize = line.as_bytes().len();
        let ghost before = found_in_lines(views, i as int, language);
        proof {
            assert(views[i as int] == line@);
            lemma_encode_concat(concatenated(views, i as int), line@);
            lemma_concatenated_prefix(views, i + 1, views.len() as int);
            let head = concatenated(views, i + 1);
            let rest = source@.skip(head.len() as int);
            assert(source@ =~= head + rest);
            lemma_encode_concat(head, rest);
            assert(line_start + n <= total);
        }
        let trimmed = trim_start(line);
        if !is_comment_line(trimmed.as_str(), language) {
            let hay = lowered(line);
            let mut claimed: Vec<bool> = Vec::new();
            claimed.resize(n, false);
            assert(claimed@ =~= Seq::new(hay@.len(), |k: int| false));
            let ghost here = line_found(line@);
            let ghost shift = |f: (int, int, int)| (line_start + f.0, line_start + f.1, f.2);
            let mut a: usize = 0;
            assert(before + Seq::<(int, int, int)>::empty().map_values(shift) =~= before);
            while a < table.len()
                invariant
                    a <= table@.len(),
                    algos == algorithm_views(table@),
                    algos == algorithm_table(),
                    n == hay@.len(),
                    line_start + n <= total,
                    shift == (|f: (int, int, int)| (line_start + f.0, line_start + f.1, f.2)),
                    claimed@.len() == hay@.len(),
                    claimed@ == take_algorithms(hay@, algos, a as int).0,
                    ({
                        let so_far = before + take_algorithms(hay@, algos, a as int).1.map_values(
                            shift,
                        );
                        &&& r@.len() == so_far.len()
                        &&& forall|k: int|
                            0 <= k < r@.len() ==> is_match(#[trigger] r@[k], so_far[k])
                    }),
                decreases table@.len() - a,
            {
                assert(algos[a as int] == table@[a as int]@);
                let ghost seen = take_algorithms(hay@, algos, a as int).1;
                if let Some(f) = scan_algorithm(&hay, &table[a], &mut claimed) {
                    let m = PqMatch {
                        start_byte: line_start + f.0,
                        end_byte: line_start + f.1,
                        algo: table[a].clone(),
                    };
                    proof {
                        let x = (f.0 as int, f.1 as int, a as int);
                        assert(seen.push(x).map_values(shift) =~= seen.map_values(shift).push(
                            shift(x),
                        ));
                        assert(is_match(m, shift(x)));
                    }
                    r.push(m);
                }
                a = a + 1;
            }
            assert(algos.len() == table@.len());
        }
        line_start = line_start + n;
        i = i + 1;
    }
    r
}

// ---------------------------------------------------------------------------
// Findings
// ---------------------------------------------------------------------------

/// What a finding says of an algorithm.
pub open spec fn ready_description(a: AlgorithmView) -> Seq<char> {
    "Post-quantum algorithm in use: "@ + a.canonical + " ("@ + a.standard + (if a.aka.len() == 0 {
        Seq::empty()
    } else {
        ", aka "@ + a.aka
    }) + ") — quantum-resistant; no migration required"@
}

/// The informational finding for a match.
pub open spec fn ready_finding(
    rule_id: Seq<char>,
    source: Seq<char>,
    f: (int, int, int),
) -> FindingView {
    let a = algorithm_table()[f.2];
    FindingView {
        tags: seq![PQ_READY_TAG@],
        crypto_algorithm: Some(a.canonical),
        ..offset_finding(
            rule_id,
            Severity::Low,
            None,
            ready_description(a),
            source,
            f.0,
            f.1,
        )
    }
}

/// An informational finding for each match in a text.
pub fn pq_ready_findings(rule_id: &str, source: &str, language: Language) -> (r: Vec<Finding>)
    ensures
        finding_views(r@) == found(source@, language).map_values(
            |f: (int, int, int)| ready_finding(rule_id@, source@, f),
        ),
{
    let matches = scan(source, language);
    let ghost all = found(source@, language);
    let ghost g = |f: (int, int, int)| ready_finding(rule_id@, source@, f);
    let mut r: Vec<Finding> = Vec::new();
    let mut i: usize = 0;
    while i < matches.len()
        invariant
            i <= matches@.len(),
            matches@.len() == all.len(),
            g == (|f: (int, int, int)| ready_finding(rule_id@, source@, f)),
            forall|k: int| 0 <= k < matches@.len() ==> is_match(#[trigger] matches@[k], all[k]),
            finding_views(r@) =~= all.take(i as int).map_values(g),
        decreases matches@.len() - i,
    {
        let m = &matches[i];
        assert(is_match(matches@[i as int], all[i as int]));
        let mut description: String = owned("Post-quantum algorithm in use: ");
        description.append(m.algo.canonical);
        description.append(" (");
        description.append(m.algo.standard);
        let ghost before = description@;
        if m.algo.aka.is_empty() {
            assert(description@ =~= before + Seq::<char>::empty());
        } else {
            description.append(", aka ");
            description.append(m.algo.aka);
            assert(description@ =~= before + (", aka "@ + m.algo.aka@));
        }
        description.append(") — quantum-resistant; no migration required");
        let mut f = make_finding_from_offsets(
            rule_id,
            Severity::Low,
            None,
            description.as_str(),
            source,
            m.start_byte,
            m.end_byte,
        );
        let mut tags: Vec<String> = Vec::new();
        tags.push(owned(PQ_READY_TAG));
        assert(texts(tags@) =~= seq![PQ_READY_TAG@]);
        f.tags = tags;
        f.crypto_algorithm = Some(owned(m.algo.canonical));
        proof {
            lemma_finding_views_push(r@, f);
            assert(f@ == g(all[i as int]));
            assert(all.take(i + 1) =~= all.take(i as int).push(all[i as int]));
        }
        r.push(f);
        i = i + 1;
    }
    assert(all.take(i as int) =~= all);
    r
}

// ---------------------------------------------------------------------------
// Laws
// ---------------------------------------------------------------------------

/// The range is a whole-word occurrence of one of the first `n` spellings.
pub open spec fn spelled(hay: Seq<u8>, spellings: Seq<Seq<char>>, n: int, f: (int, int)) -> bool {
    exists|k: int|
        0 <= k < n && stands(hay, #[trigger] encode_utf8(spellings[k]), f.0) && f.1 == f.0
            + encode_utf8(spellings[k]).len() && encode_utf8(spellings[k]).len() > 0 && bounded(
            hay,
            f.0,
            f.1,
        )
}

/// What the claimed bytes of `a` are, is claimed in `b` too.
pub open spec fn keeps_claims(a: Seq<bool>, b: Seq<bool>) -> bool {
    a.len() == b.len() && forall|k: int| 0 <= k < a.len() && a[k] ==> #[trigger] b[k]
}

/// What a state gains: claims are kept; a first range, where there was none, was free before and is
/// claimed now, and is spelled as it should be.
pub open spec fn gains(
    hay: Seq<u8>,
    spellings: Seq<Seq<char>>,
    n: int,
    a: LineState,
    b: LineState,
) -> bool {
    &&& keeps_claims(a.claimed, b.claimed)
    &&& a.first is Some ==> b.first == a.first
    &&& a.first is None ==> (b.first matches Some(f) ==> {
        &&& 0 <= f.0 < f.1 <= hay.len()
        &&& !any_claimed(a.claimed, f.0, f.1)
        &&& forall|k: int| f.0 <= k < f.1 ==> #[trigger] b.claimed[k]
        &&& spelled(hay, spellings, n, f)
    })
}

proof fn lemma_spelling_gains(
    hay: Seq<u8>,
    spellings: Seq<Seq<char>>,
    n: int,
    i: int,
    a: LineState,
)
    requires
        0 < n <= spellings.len(),
        0 <= i,
        a.claimed.len() == hay.len(),
    ensures
        gains(hay, spellings, n, a, take_spelling(hay, encode_utf8(spellings[n - 1]), i, a)),
    decreases hay.len() - i,
{
    let needle = encode_utf8(spellings[n - 1]);
    let b = take_spelling(hay, needle, i, a);
    if needle.len() == 0 || i + needle.len() > hay.len() {
    } else if stands(hay, needle, i) {
        let end = i + needle.len();
        if bounded(hay, i, end) && !any_claimed(a.claimed, i, end) {
            let next = LineState {
                claimed: claim(a.claimed, i, end),
                first: match a.first {
                    Some(f) => Some(f),
                    None => Some((i, end)),
                },
            };
            lemma_spelling_gains(hay, spellings, n, end, next);
            assert forall|k: int| 0 <= k < a.claimed.len() && a.claimed[k] implies
                #[trigger] b.claimed[k] by {
                assert(next.claimed[k]);
            }
            if a.first is None {
                assert(stands(hay, encode_utf8(spellings[n - 1]), i));
                assert(spelled(hay, spellings, n, (i, end)));
                assert forall|k: int| i <= k < end implies #[trigger] b.claimed[k] by {
                    assert(next.claimed[k]);
                }
            }
        } else {
            lemma_spelling_gains(hay, spellings, n, end, a);
        }
    } else {
        lemma_spelling_gains(hay, spellings, n, i + 1, a);
    }
}

proof fn lemma_spellings_gain(hay: Seq<u8>, spellings: Seq<Seq<char>>, n: int, a: LineState)
    requires
        0 <= n <= spellings.len(),
        a.claimed.len() == hay.len(),
    ensures
        gains(hay, spellings, n, a, take_spellings(hay, spellings, n, a)),
    decreases n,
{
    if n > 0 {
        lemma_spellings_gain(hay, spellings, n - 1, a);
        let m = take_spellings(hay, spellings, n - 1, a);
        lemma_spelling_gains(hay, spellings, n, 0, m);
        let b = take_spellings(hay, spellings, n, a);
        assert forall|k: int| 0 <= k < a.claimed.len() && a.claimed[k] implies
            #[trigger] b.claimed[k] by {
            assert(m.claimed[k]);
        }
        if a.first is None {
            if m.first is Some {
                let f = m.first.unwrap();
                assert(b.first == m.first);
                let k = choose|k: int|
                    0 <= k < n - 1 && stands(hay, #[trigger] encode_utf8(spellings[k]), f.0) && f.1
                        == f.0 + encode_utf8(spellings[k]).len() && encode_utf8(spellings[k]).len()
                        > 0 && bounded(hay, f.0, f.1);
                assert(stands(hay, encode_utf8(spellings[k]), f.0));
                assert(spelled(hay, spellings, n, f));
                assert forall|k: int| f.0 <= k < f.1 implies #[trigger] b.claimed[k] by {
                    assert(m.claimed[k]);
                }
            } else if b.first is Some {
                let f = b.first.unwrap();
                if any_claimed(a.claimed, f.0, f.1) {
                    let k = choose|k: int| f.0 <= k < f.1 && #[trigger] a.claimed[k];
                    assert(m.claimed[k]);
                }
            }
        }
    }
}

/// What holds of the matches of a line once the first `n` algorithms are taken in.
pub open spec fn line_matches_sound(
    hay: Seq<u8>,
    table: Seq<AlgorithmView>,
    n: int,
    claimed: Seq<bool>,
    found: Seq<(int, int, int)>,
) -> bool {
    &&& claimed.len() == hay.len()
    &&& forall|i: int|
        0 <= i < found.len() ==> {
            let f = #[trigger] found[i];
            &&& 0 <= f.0 < f.1 <= hay.len()
            &&& 0 <= f.2 < n
            &&& spelled(
                hay,
                table[f.2].spellings,
                table[f.2].spellings.len() as int,
                (f.0, f.1),
            )
            &&& forall|k: int| f.0 <= k < f.1 ==> #[trigger] claimed[k]
        }
    &&& forall|i: int, j: int|
        0 <= i < j < found.len() ==> (#[trigger] found[i]).2 < (#[trigger] found[j]).2 && (
        found[i].1 <= found[j].0 || found[j].1 <= found[i].0)
}

pub proof fn lemma_line_matches(hay: Seq<u8>, table: Seq<AlgorithmView>, n: int)
    requires
        0 <= n <= table.len(),
    ensures
        line_matches_sound(
            hay,
            table,
            n,
            take_algorithms(hay, table, n).0,
            take_algorithms(hay, table, n).1,
        ),
    decreases n,
{
    if n > 0 {
        lemma_line_matches(hay, table, n - 1);
        let (claimed, found) = take_algorithms(hay, table, n - 1);
        let a = table[n - 1];
        let start = LineState { claimed, first: None };
        lemma_spellings_gain(hay, a.spellings, a.spellings.len() as int, start);
        let (after, now) = take_algorithms(hay, table, n);
        assert forall|i: int| 0 <= i < now.len() implies {
            let f = #[trigger] now[i];
            &&& 0 <= f.0 < f.1 <= hay.len()
            &&& 0 <= f.2 < n
            &&& spelled(
                hay,
                table[f.2].spellings,
                table[f.2].spellings.len() as int,
                (f.0, f.1),
            )
            &&& forall|k: int| f.0 <= k < f.1 ==> #[trigger] after[k]
        } by {
            if i < found.len() {
                let f = found[i];
                assert(now[i] == f);
                assert forall|k: int| f.0 <= k < f.1 implies #[trigger] after[k] by {
                    assert(claimed[k]);
                }
            }
        }
        assert forall|i: int, j: int| 0 <= i < j < now.len() implies (#[trigger] now[i]).2 < (
        #[trigger] now[j]).2 && (now[i].1 <= now[j].0 || now[j].1 <= now[i].0) by {
            assert(now[i] == found[i]);
            if j < found.len() {
                assert(now[j] == found[j]);
            } else {
                let f = now[i];
                let g = now[j];
                if f.0 < g.1 && g.0 < f.1 {
                    let k = if f.0 > g.0 { f.0 } else { g.0 };
                    assert(claimed[k]);
                    assert(any_claimed(claimed, g.0, g.1));
                }
            }
        }
    }
}

/// In a line no two matches share text, no algorithm matches twice, and each match is a whole word
/// that spells its algorithm. So no part of a hybrid's name counts as one of its parts.
pub proof fn matches_of_a_line_are_apart(line: Seq<char>, i: int, j: int)
    requires
        0 <= i < j < line_found(line).len(),
    ensures
        ({
            let f = line_found(line)[i];
            let g = line_found(line)[j];
            &&& f.2 != g.2
            &&& f.1 <= g.0 || g.1 <= f.0
            &&& spelled(
                lower_bytes(encode_utf8(line)),
                algorithm_table()[f.2].spellings,
                algorithm_table()[f.2].spellings.len() as int,
                (f.0, f.1),
            )
        }),
{
    let hay = lower_bytes(encode_utf8(line));
    let table = algorithm_table();
    lemma_line_matches(hay, table, table.len() as int);
}

/// Findings on post-quantum algorithms are informational: tagged as ready, of the lowest severity,
/// and without a deadline or a weakness class.
pub proof fn ready_findings_are_informational(
    rule_id: Seq<char>,
    source: Seq<char>,
    f: (int, int, int),
)
    ensures
        ready_finding(rule_id, source, f).pq_ready(),
        ready_finding(rule_id, source, f).severity == Severity::Low,
        ready_finding(rule_id, source, f).cnsa2_deadline is None,
        ready_finding(rule_id, source, f).cwe is None,
{
    assert(ready_finding(rule_id, source, f).tags[0] == PQ_READY_TAG@);
}

} // verus!
