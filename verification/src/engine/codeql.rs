//! CodeQL rules: how they are read, chosen and ordered.

use crate::document::{
    carries_tag, has_tag, invalid_type, parse_yaml, wrong_type, yaml_document, Node,
};
use crate::finding::{copy_opt, Finding, FindingView, Severity};
use crate::paths::{join_path, joined_path};
use crate::text::{
    at_most, contains_string, decimal, decimal_string, eq_ignore_ascii_case, lemma_texts_push,
    lower_text, opt_text, owned, same, text_le, texts, to_ascii_lowercase,
};
use vstd::prelude::*;

verus! {

/// 0.8, as the bit pattern of a single-precision number.
pub const CODEQL_CONFIDENCE: u32 = 0x3f4c_cccd;

/// A query and what its results mean.
#[derive(Debug, PartialEq, Eq)]
pub struct CodeQlRule {
    pub id: String,
    pub message: String,
    pub severity: Severity,
    pub cwe: Option<String>,
    pub query: String,
    pub database: Option<String>,
}

#[verifier::ext_equal]
pub struct RuleView {
    pub id: Seq<char>,
    pub message: Seq<char>,
    pub severity: Severity,
    pub cwe: Option<Seq<char>>,
    pub query: Seq<char>,
    pub database: Option<Seq<char>>,
}

impl View for CodeQlRule {
    type V = RuleView;

    open spec fn view(&self) -> RuleView {
        RuleView {
            id: self.id@,
            message: self.message@,
            severity: self.severity,
            cwe: opt_text(self.cwe),
            query: self.query@,
            database: opt_text(self.database),
        }
    }
}

pub open spec fn rule_views(v: Seq<CodeQlRule>) -> Seq<RuleView> {
    v.map_values(|r: CodeQlRule| r@)
}

impl CodeQlRule {
    pub fn id(&self) -> (r: &str)
        ensures
            r@ == self.id@,
    {
        self.id.as_str()
    }

    pub fn query_path(&self) -> (r: &str)
        ensures
            r@ == self.query@,
    {
        self.query.as_str()
    }
}

/// The ids of the first `n` rules, each once, in order.
pub open spec fn distinct_ids(rules: Seq<CodeQlRule>, n: int) -> Seq<Seq<char>>
    decreases n,
{
    if n <= 0 {
        Seq::empty()
    } else {
        let before = distinct_ids(rules, n - 1);
        if before.contains(rules[n - 1].id@) {
            before
        } else {
            before.push(rules[n - 1].id@)
        }
    }
}

/// The ids of the rules, each once.
pub fn rule_ids(rules: &[CodeQlRule]) -> (r: Vec<String>)
    ensures
        texts(r@) == distinct_ids(rules@, rules@.len() as int),
{
    let mut r: Vec<String> = Vec::new();
    let mut i: usize = 0;
    assert(texts(r@) =~= Seq::<Seq<char>>::empty());
    while i < rules.len()
        invariant
            i <= rules@.len(),
            texts(r@) == distinct_ids(rules@, i as int),
        decreases rules@.len() - i,
    {
        if !contains_string(&r, rules[i].id.as_str()) {
            let id = rules[i].id.clone();
            proof {
                lemma_texts_push(r@, id);
            }
            r.push(id);
        }
        i = i + 1;
    }
    r
}

/// The rule stays: it is among the enabled ones, where any are named, and not among the disabled.
pub open spec fn selected(enable: Seq<Seq<char>>, disable: Seq<Seq<char>>) -> spec_fn(
    CodeQlRule,
) -> bool {
    |r: CodeQlRule| (enable.len() == 0 || enable.contains(r.id@)) && !disable.contains(r.id@)
}

/// Keeps the rules that are enabled, where any are named, and not disabled.
pub fn apply_rule_filter(rules: &mut Vec<CodeQlRule>, enable: &Vec<String>, disable: &Vec<String>)
    ensures
        final(rules)@ == old(rules)@.filter(selected(texts(enable@), texts(disable@))),
{
    let ghost all = rules@;
    let ghost p = selected(texts(enable@), texts(disable@));
    let n: usize = rules.len();
    let mut done: usize = 0;
    let mut at: usize = 0;
    proof {
        assert(all.take(0) =~= Seq::<CodeQlRule>::empty());
        reveal(Seq::filter);
        assert(all.take(0).filter(p) + all.skip(0) =~= all);
        assert(texts(enable@).len() == enable@.len());
    }
    while done < n
        invariant
            done <= n,
            n == all.len(),
            at <= done,
            texts(enable@).len() == enable@.len(),
            p == selected(texts(enable@), texts(disable@)),
            at == all.take(done as int).filter(p).len(),
            rules@ == all.take(done as int).filter(p) + all.skip(done as int),
        decreases n - done,
    {
        let ghost kept = all.take(done as int).filter(p);
        proof {
            assert(all.take(done + 1) =~= all.take(done as int).push(all[done as int]));
            all.take(done as int).lemma_filter_push(all[done as int], p);
            assert(rules@[at as int] == all[done as int]);
        }
        let enabled = enable.len() == 0 || contains_string(enable, rules[at].id.as_str());
        let disabled = contains_string(disable, rules[at].id.as_str());
        if enabled && !disabled {
            at = at + 1;
            proof {
                assert(rules@ =~= kept.push(all[done as int]) + all.skip(done + 1));
            }
        } else {
            let _ = rules.remove(at);
            proof {
                assert(rules@ =~= kept + all.skip(done + 1));
            }
        }
        done = done + 1;
    }
    proof {
        assert(all.take(n as int) =~= all);
        assert(rules@ =~= all.filter(p));
    }
}

// ---------------------------------------------------------------------------
// Rule files
// ---------------------------------------------------------------------------

/// The severity that a word names; it may be written in any case.
pub open spec fn severity_named(word: Seq<char>) -> Option<Severity> {
    let w = lower_text(word);
    if w == "critical"@ || w == "error"@ {
        Some(Severity::Critical)
    } else if w == "high"@ || w == "warning"@ {
        Some(Severity::High)
    } else if w == "medium"@ || w == "info"@ {
        Some(Severity::Medium)
    } else if w == "low"@ {
        Some(Severity::Low)
    } else {
        None
    }
}

/// The severity that a word names.
pub fn parse_codeql_severity(word: &str) -> (r: Result<Severity, String>)
    ensures
        match severity_named(word@) {
            Some(s) => r == Ok::<Severity, String>(s),
            None => r matches Err(e) && e@ == "unsupported CodeQL severity '"@ + lower_text(word@)
                + "'"@,
        },
{
    let w = to_ascii_lowercase(word);
    let w = w.as_str();
    if same(w, "critical") || same(w, "error") {
        Ok(Severity::Critical)
    } else if same(w, "high") || same(w, "warning") {
        Ok(Severity::High)
    } else if same(w, "medium") || same(w, "info") {
        Ok(Severity::Medium)
    } else if same(w, "low") {
        Ok(Severity::Low)
    } else {
        let mut e: String = owned("unsupported CodeQL severity '");
        e.append(w);
        e.append("'");
        Err(e)
    }
}

/// The text that a value is.
pub open spec fn text_value(value: Node) -> Result<Seq<char>, Seq<char>> {
    match value.text() {
        Some(t) => Ok(t),
        None => Err(invalid_type(value.untagged(), "a string"@)),
    }
}

/// The text that a value is, or nothing where it is null.
pub open spec fn optional_value(value: Node) -> Result<Option<Seq<char>>, Seq<char>> {
    if value is Null {
        Ok(None)
    } else {
        match text_value(value) {
            Ok(t) => Ok(Some(t)),
            Err(e) => Err(e),
        }
    }
}

/// The severity that a value names.
pub open spec fn severity_value(value: Node) -> Result<Severity, Seq<char>> {
    match text_value(value) {
        Err(e) => Err(e),
        Ok(word) => match severity_named(word) {
            Some(severity) => Ok(severity),
            None => Err("unsupported CodeQL severity '"@ + lower_text(word) + "'"@),
        },
    }
}

pub open spec fn all_texts(items: Seq<Node>) -> bool {
    forall|i: int| 0 <= i < items.len() ==> #[trigger] items[i] is Text
}

/// The weakness class: one text, or the first of a list of texts, none of them with a tag.
pub open spec fn weakness(cwe: Node) -> Result<Option<Seq<char>>, Seq<char>> {
    if has_tag(cwe) {
        Err("untagged and internally tagged enums do not support enum input"@)
    } else {
        match cwe {
            Node::Null => Ok(None),
            Node::Text(t) => Ok(Some(t@)),
            Node::List(v) => if !all_texts(v@) {
                Err("data did not match any variant of untagged enum CweValue"@)
            } else if v@.len() == 0 {
                Ok(None)
            } else {
                Ok(v@[0].text())
            },
            _ => Err("data did not match any variant of untagged enum CweValue"@),
        }
    }
}

/// What is said of a field that is written down twice.
pub open spec fn duplicate(field: Seq<char>) -> Seq<char> {
    "duplicate field `"@ + field + "`"@
}

/// What is said of a field that is not written down.
pub open spec fn missing(field: Seq<char>) -> Seq<char> {
    "missing field `"@ + field + "`"@
}

/// The name of a field that a key is.
pub open spec fn field_name(key: Node) -> Result<Seq<char>, Seq<char>> {
    match key.text() {
        Some(name) => Ok(name),
        None => Err(invalid_type(key.untagged(), "field identifier"@)),
    }
}

/// The weakness class in the first `n` entries of a rule's metadata, once it was met.
pub open spec fn metadata_fields(entries: Seq<(Node, Node)>, n: int) -> Result<
    Option<Option<Seq<char>>>,
    Seq<char>,
>
    decreases n,
{
    if n <= 0 {
        Ok(None)
    } else {
        match metadata_fields(entries, n - 1) {
            Err(e) => Err(e),
            Ok(before) => match field_name(entries[n - 1].0) {
                Err(e) => Err(e),
                Ok(name) => if name != "cwe"@ {
                    Ok(before)
                } else if before is Some {
                    Err(duplicate("cwe"@))
                } else {
                    match weakness(entries[n - 1].1) {
                        Err(e) => Err(e),
                        Ok(cwe) => Ok(Some(cwe)),
                    }
                },
            },
        }
    }
}

/// The weakness class that a rule's metadata names.
pub open spec fn metadata_value(value: Node) -> Result<Option<Seq<char>>, Seq<char>> {
    match value.untagged() {
        Node::Null => Ok(None),
        Node::Table(entries) => match metadata_fields(entries@, entries@.len() as int) {
            Err(e) => Err(e),
            Ok(Some(cwe)) => Ok(cwe),
            Ok(None) => Ok(None),
        },
        other => Err(invalid_type(other, "struct CodeQlMetadata"@)),
    }
}

/// The fields of a rule that have been met.
pub struct RuleFields<T> {
    pub id: Option<T>,
    pub engine: Option<Option<T>>,
    pub message: Option<T>,
    pub severity: Option<Severity>,
    pub metadata: Option<Option<T>>,
    pub query: Option<T>,
    pub database: Option<Option<T>>,
}

/// The text of a field that may have been met, and may hold none.
pub open spec fn met_text(o: Option<Option<String>>) -> Option<Option<Seq<char>>> {
    match o {
        Some(t) => Some(opt_text(t)),
        None => None,
    }
}

impl View for RuleFields<String> {
    type V = RuleFields<Seq<char>>;

    open spec fn view(&self) -> RuleFields<Seq<char>> {
        RuleFields {
            id: opt_text(self.id),
            engine: met_text(self.engine),
            message: opt_text(self.message),
            severity: self.severity,
            metadata: met_text(self.metadata),
            query: opt_text(self.query),
            database: met_text(self.database),
        }
    }
}

/// The fields once one more is met; fields that a rule does not have are passed over.
pub open spec fn with_field(
    fields: RuleFields<Seq<char>>,
    name: Seq<char>,
    value: Node,
) -> Result<RuleFields<Seq<char>>, Seq<char>> {
    if name == "id"@ {
        if fields.id is Some {
            Err(duplicate("id"@))
        } else {
            match text_value(value) {
                Ok(t) => Ok(RuleFields { id: Some(t), ..fields }),
                Err(e) => Err(e),
            }
        }
    } else if name == "engine"@ {
        if fields.engine is Some {
            Err(duplicate("engine"@))
        } else {
            match optional_value(value) {
                Ok(t) => Ok(RuleFields { engine: Some(t), ..fields }),
                Err(e) => Err(e),
            }
        }
    } else if name == "message"@ {
        if fields.message is Some {
            Err(duplicate("message"@))
        } else {
            match text_value(value) {
                Ok(t) => Ok(RuleFields { message: Some(t), ..fields }),
                Err(e) => Err(e),
            }
        }
    } else if name == "severity"@ {
        if fields.severity is Some {
            Err(duplicate("severity"@))
        } else {
            match severity_value(value) {
                Ok(severity) => Ok(RuleFields { severity: Some(severity), ..fields }),
                Err(e) => Err(e),
            }
        }
    } else if name == "metadata"@ {
        if fields.metadata is Some {
            Err(duplicate("metadata"@))
        } else {
            match metadata_value(value) {
                Ok(cwe) => Ok(RuleFields { metadata: Some(cwe), ..fields }),
                Err(e) => Err(e),
            }
        }
    } else if name == "query"@ {
        if fields.query is Some {
            Err(duplicate("query"@))
        } else {
            match text_value(value) {
                Ok(t) => Ok(RuleFields { query: Some(t), ..fields }),
                Err(e) => Err(e),
            }
        }
    } else if name == "database"@ {
        if fields.database is Some {
            Err(duplicate("database"@))
        } else {
            match optional_value(value) {
                Ok(t) => Ok(RuleFields { database: Some(t), ..fields }),
                Err(e) => Err(e),
            }
        }
    } else {
        Ok(fields)
    }
}

/// No field has been met.
pub open spec fn no_fields() -> RuleFields<Seq<char>> {
    RuleFields {
        id: None,
        engine: None,
        message: None,
        severity: None,
        metadata: None,
        query: None,
        database: None,
    }
}

/// The fields in the first `n` entries, or what is wrong with the first that does not belong.
pub open spec fn fields_of(entries: Seq<(Node, Node)>, n: int) -> Result<
    RuleFields<Seq<char>>,
    Seq<char>,
>
    decreases n,
{
    if n <= 0 {
        Ok(no_fields())
    } else {
        match fields_of(entries, n - 1) {
            Err(e) => Err(e),
            Ok(before) => match field_name(entries[n - 1].0) {
                Err(e) => Err(e),
                Ok(name) => with_field(before, name, entries[n - 1].1),
            },
        }
    }
}

/// The fields that an entry writes down.
pub open spec fn entry_fields(raw: Node) -> Result<RuleFields<Seq<char>>, Seq<char>> {
    match raw.untagged() {
        Node::Null => Ok(no_fields()),
        Node::Table(entries) => fields_of(entries@, entries@.len() as int),
        other => Err(invalid_type(other, "struct CodeQlRuleYaml"@)),
    }
}

/// The database that a value names: it may stand for the one that the environment names.
pub open spec fn database_value(value: Seq<char>, env: Option<Seq<char>>) -> Option<Seq<char>> {
    if value == "${FOXGUARD_CODEQL_DB}"@ {
        env
    } else {
        Some(value)
    }
}

/// The database that a value names.
pub fn resolve_database_value(value: &str, env_database: &Option<String>) -> (r: Option<String>)
    ensures
        opt_text(r) == database_value(value@, opt_text(*env_database)),
{
    if same(value, "${FOXGUARD_CODEQL_DB}") {
        copy_opt(env_database)
    } else {
        Some(owned(value))
    }
}

/// A path of a rule file, seen from the file's directory.
pub fn resolve_relative_path(rule_directory: &str, value: &str) -> (r: String)
    ensures
        r@ == joined_path(rule_directory@, value@),
{
    join_path(rule_directory, value)
}

/// The rule that an entry writes down, or what is wrong with it: the first field that does not
/// belong, as they stand, or else the first that is missing.
pub open spec fn rule_of(raw: Node, directory: Seq<char>, env: Option<Seq<char>>) -> Result<
    RuleView,
    Seq<char>,
> {
    match entry_fields(raw) {
        Err(e) => Err(e),
        Ok(fields) => if fields.id is None {
            Err(missing("id"@))
        } else if fields.message is None {
            Err(missing("message"@))
        } else if fields.severity is None {
            Err(missing("severity"@))
        } else if fields.query is None {
            Err(missing("query"@))
        } else {
            Ok(
                RuleView {
                    id: fields.id.unwrap(),
                    message: fields.message.unwrap(),
                    severity: fields.severity.unwrap(),
                    cwe: match fields.metadata {
                        Some(cwe) => cwe,
                        None => None,
                    },
                    query: joined_path(directory, fields.query.unwrap()),
                    database: match fields.database {
                        Some(Some(value)) => match database_value(value, env) {
                            Some(d) => Some(joined_path(directory, d)),
                            None => None,
                        },
                        _ => None,
                    },
                },
            )
        },
    }
}

fn read_text(value: &Node) -> (r: Result<String, String>)
    ensures
        crate::engine::artifact::text_outcome(r, text_value(*value)),
{
    match value.as_str() {
        Some(t) => Ok(owned(t)),
        None => Err(wrong_type(value.untag(), "a string")),
    }
}

/// The outcome that a decision on an optional text stands for.
pub open spec fn opt_outcome(
    r: Result<Option<String>, String>,
    d: Result<Option<Seq<char>>, Seq<char>>,
) -> bool {
    match d {
        Ok(t) => r matches Ok(o) && opt_text(o) == t,
        Err(t) => r matches Err(e) && e@ == t,
    }
}

fn read_optional(value: &Node) -> (r: Result<Option<String>, String>)
    ensures
        opt_outcome(r, optional_value(*value)),
{
    match value {
        Node::Null => Ok(None),
        _ => match read_text(value) {
            Ok(t) => Ok(Some(t)),
            Err(e) => Err(e),
        },
    }
}

fn read_severity(value: &Node) -> (r: Result<Severity, String>)
    ensures
        match severity_value(*value) {
            Ok(s) => r == Ok::<Severity, String>(s),
            Err(t) => r matches Err(e) && e@ == t,
        },
{
    match read_text(value) {
        Ok(word) => parse_codeql_severity(word.as_str()),
        Err(e) => Err(e),
    }
}

/// The weakness class that a node names: one text, or the first of a list of texts.
pub fn extract_cwe(cwe: &Node) -> (r: Result<Option<String>, String>)
    ensures
        opt_outcome(r, weakness(*cwe)),
{
    if carries_tag(cwe) {
        return Err(owned("untagged and internally tagged enums do not support enum input"));
    }
    match cwe {
        Node::Null => Ok(None),
        Node::Text(t) => Ok(Some(t.clone())),
        Node::List(v) => {
            let mut i: usize = 0;
            while i < v.len()
                invariant
                    i <= v@.len(),
                    *cwe == Node::List(*v),
                    !has_tag(*cwe),
                    forall|k: int| 0 <= k < i ==> #[trigger] v@[k] is Text,
                decreases v@.len() - i,
            {
                match &v[i] {
                    Node::Text(_) => {},
                    _ => {
                        assert(!(v@[i as int] is Text));
                        return Err(
                            owned("data did not match any variant of untagged enum CweValue"),
                        );
                    },
                }
                i = i + 1;
            }
            if v.len() == 0 {
                Ok(None)
            } else {
                match v[0].as_str() {
                    Some(t) => Ok(Some(owned(t))),
                    None => Ok(None),
                }
            }
        },
        _ => Err(owned("data did not match any variant of untagged enum CweValue")),
    }
}

fn duplicate_field(field: &str) -> (r: String)
    ensures
        r@ == duplicate(field@),
{
    let mut e: String = owned("duplicate field `");
    e.append(field);
    e.append("`");
    e
}

fn missing_field(field: &str) -> (r: String)
    ensures
        r@ == missing(field@),
{
    let mut e: String = owned("missing field `");
    e.append(field);
    e.append("`");
    e
}

fn read_name(key: &Node) -> (r: Result<String, String>)
    ensures
        crate::engine::artifact::text_outcome(r, field_name(*key)),
{
    match key.as_str() {
        Some(name) => Ok(owned(name)),
        None => Err(wrong_type(key.untag(), "field identifier")),
    }
}

proof fn lemma_metadata_error(entries: Seq<(Node, Node)>, n: int, m: int)
    requires
        n <= m,
        metadata_fields(entries, n) is Err,
    ensures
        metadata_fields(entries, m) == metadata_fields(entries, n),
    decreases m - n,
{
    if n < m {
        lemma_metadata_error(entries, n, m - 1);
    }
}

fn read_metadata(value: &Node) -> (r: Result<Option<String>, String>)
    ensures
        opt_outcome(r, metadata_value(*value)),
{
    let whole = value.untag();
    match whole {
        Node::Null => Ok(None),
        Node::Table(entries) => {
            let mut met: Option<Option<String>> = None;
            let mut i: usize = 0;
            while i < entries.len()
                invariant
                    i <= entries@.len(),
                    value.untagged() == Node::Table(*entries),
                    metadata_fields(entries@, i as int) == Ok::<_, Seq<char>>(met_text(met)),
                decreases entries@.len() - i,
            {
                let ghost n = entries@.len() as int;
                match read_name(&entries[i].0) {
                    Err(e) => {
                        proof {
                            lemma_metadata_error(entries@, i + 1, n);
                        }
                        return Err(e);
                    },
                    Ok(name) => if same(name.as_str(), "cwe") {
                        if met.is_some() {
                            proof {
                                lemma_metadata_error(entries@, i + 1, n);
                            }
                            return Err(duplicate_field("cwe"));
                        }
                        match extract_cwe(&entries[i].1) {
                            Err(e) => {
                                proof {
                                    lemma_metadata_error(entries@, i + 1, n);
                                }
                                return Err(e);
                            },
                            Ok(cwe) => {
                                met = Some(cwe);
                            },
                        }
                    },
                }
                i = i + 1;
            }
            match met {
                Some(cwe) => Ok(cwe),
                None => Ok(None),
            }
        },
        _ => Err(wrong_type(whole, "struct CodeQlMetadata")),
    }
}

/// The outcome that a decision on the fields of a rule stands for.
spec fn fields_outcome(
    r: Result<RuleFields<String>, String>,
    d: Result<RuleFields<Seq<char>>, Seq<char>>,
) -> bool {
    match d {
        Ok(f) => r matches Ok(v) && v@ == f,
        Err(t) => r matches Err(e) && e@ == t,
    }
}

fn take_field(fields: RuleFields<String>, name: &str, value: &Node) -> (r: Result<
    RuleFields<String>,
    String,
>)
    ensures
        fields_outcome(r, with_field(fields@, name@, *value)),
{
    if same(name, "id") {
        if fields.id.is_some() {
            return Err(duplicate_field("id"));
        }
        match read_text(value) {
            Ok(t) => Ok(RuleFields { id: Some(t), ..fields }),
            Err(e) => Err(e),
        }
    } else if same(name, "engine") {
        if fields.engine.is_some() {
            return Err(duplicate_field("engine"));
        }
        match read_optional(value) {
            Ok(t) => Ok(RuleFields { engine: Some(t), ..fields }),
            Err(e) => Err(e),
        }
    } else if same(name, "message") {
        if fields.message.is_some() {
            return Err(duplicate_field("message"));
        }
        match read_text(value) {
            Ok(t) => Ok(RuleFields { message: Some(t), ..fields }),
            Err(e) => Err(e),
        }
    } else if same(name, "severity") {
        if fields.severity.is_some() {
            return Err(duplicate_field("severity"));
        }
        match read_severity(value) {
            Ok(severity) => Ok(RuleFields { severity: Some(severity), ..fields }),
            Err(e) => Err(e),
        }
    } else if same(name, "metadata") {
        if fields.metadata.is_some() {
            return Err(duplicate_field("metadata"));
        }
        match read_metadata(value) {
            Ok(cwe) => Ok(RuleFields { metadata: Some(cwe), ..fields }),
            Err(e) => Err(e),
        }
    } else if same(name, "query") {
        if fields.query.is_some() {
            return Err(duplicate_field("query"));
        }
        match read_text(value) {
            Ok(t) => Ok(RuleFields { query: Some(t), ..fields }),
            Err(e) => Err(e),
        }
    } else if same(name, "database") {
        if fields.database.is_some() {
            return Err(duplicate_field("database"));
        }
        match read_optional(value) {
            Ok(t) => Ok(RuleFields { database: Some(t), ..fields }),
            Err(e) => Err(e),
        }
    } else {
        Ok(fields)
    }
}

proof fn lemma_fields_error(entries: Seq<(Node, Node)>, n: int, m: int)
    requires
        n <= m,
        fields_of(entries, n) is Err,
    ensures
        fields_of(entries, m) == fields_of(entries, n),
    decreases m - n,
{
    if n < m {
        lemma_fields_error(entries, n, m - 1);
    }
}

fn read_fields(raw: &Node) -> (r: Result<RuleFields<String>, String>)
    ensures
        fields_outcome(r, entry_fields(*raw)),
{
    let mut fields: RuleFields<String> = RuleFields {
        id: None,
        engine: None,
        message: None,
        severity: None,
        metadata: None,
        query: None,
        database: None,
    };
    let whole = raw.untag();
    match whole {
        Node::Null => Ok(fields),
        Node::Table(entries) => {
            let mut i: usize = 0;
            while i < entries.len()
                invariant
                    i <= entries@.len(),
                    raw.untagged() == Node::Table(*entries),
                    fields_of(entries@, i as int) == Ok::<_, Seq<char>>(fields@),
                decreases entries@.len() - i,
            {
                let ghost n = entries@.len() as int;
                let name = match read_name(&entries[i].0) {
                    Ok(name) => name,
                    Err(e) => {
                        proof {
                            lemma_fields_error(entries@, i + 1, n);
                        }
                        return Err(e);
                    },
                };
                match take_field(fields, name.as_str(), &entries[i].1) {
                    Ok(next) => {
                        fields = next;
                    },
                    Err(e) => {
                        proof {
                            lemma_fields_error(entries@, i + 1, n);
                        }
                        return Err(e);
                    },
                }
                i = i + 1;
            }
            Ok(fields)
        },
        _ => Err(wrong_type(whole, "struct CodeQlRuleYaml")),
    }
}

fn read_rule(raw: &Node, directory: &str, env_database: &Option<String>) -> (r: Result<
    CodeQlRule,
    String,
>)
    ensures
        match rule_of(*raw, directory@, opt_text(*env_database)) {
            Ok(v) => r matches Ok(rule) && rule@ == v,
            Err(t) => r matches Err(e) && e@ == t,
        },
{
    let fields = match read_fields(raw) {
        Ok(fields) => fields,
        Err(e) => {
            return Err(e);
        },
    };
    let id = match fields.id {
        Some(t) => t,
        None => {
            return Err(missing_field("id"));
        },
    };
    let message = match fields.message {
        Some(t) => t,
        None => {
            return Err(missing_field("message"));
        },
    };
    let severity = match fields.severity {
        Some(s) => s,
        None => {
            return Err(missing_field("severity"));
        },
    };
    let query = match fields.query {
        Some(t) => t,
        None => {
            return Err(missing_field("query"));
        },
    };
    let cwe: Option<String> = match fields.metadata {
        Some(cwe) => cwe,
        None => None,
    };
    let database: Option<String> = match fields.database {
        Some(Some(value)) => match resolve_database_value(value.as_str(), env_database) {
            None => None,
            Some(d) => Some(resolve_relative_path(directory, d.as_str())),
        },
        _ => None,
    };
    Ok(
        CodeQlRule {
            id,
            message,
            severity,
            cwe,
            query: resolve_relative_path(directory, query.as_str()),
            database,
        },
    )
}

/// The entry is a rule for this engine.
pub open spec fn for_codeql(raw: Node) -> bool {
    raw.field_text("engine"@) matches Some(e) && lower_text(e) == lower_text("codeql"@)
}

/// Whether the entry is a rule for this engine.
pub fn is_codeql_rule(raw_rule: &Node) -> (r: bool)
    ensures
        r == for_codeql(*raw_rule),
{
    match raw_rule.get_str("engine") {
        Some(e) => eq_ignore_ascii_case(e, "codeql"),
        None => false,
    }
}

/// What is said of an entry that is no proper rule.
pub open spec fn skip_notice(raw: Node, path: Seq<char>, position: nat, error: Seq<char>) -> Seq<
    char,
> {
    "Warning: CodeQL rule '"@ + (match raw.field_text("id"@) {
        Some(id) => id,
        None => "<unknown>"@,
    }) + "' in "@ + path + " at rule "@ + decimal(position) + " skipped: "@ + error
}

/// The rules and notices from the first `n` entries.
pub open spec fn rules_of(
    entries: Seq<Node>,
    n: int,
    path: Seq<char>,
    directory: Seq<char>,
    env: Option<Seq<char>>,
) -> (Seq<RuleView>, Seq<Seq<char>>)
    decreases n,
{
    if n <= 0 {
        (Seq::empty(), Seq::empty())
    } else {
        let (rules, notices) = rules_of(entries, n - 1, path, directory, env);
        let raw = entries[n - 1];
        if !for_codeql(raw) {
            (rules, notices)
        } else {
            match rule_of(raw, directory, env) {
                Ok(rule) => (rules.push(rule), notices),
                Err(e) => (rules, notices.push(skip_notice(raw, path, n as nat, e))),
            }
        }
    }
}

/// The outcome for a rule file that was read.
pub open spec fn rule_file_verdict(
    r: Result<(Vec<CodeQlRule>, Vec<String>), String>,
    document: Result<Node, String>,
    path: Seq<char>,
    directory: Seq<char>,
    env: Option<Seq<char>>,
) -> bool {
    match document {
        Err(error) => r matches Err(e) && e@ == "Failed to parse YAML "@ + path + ": "@ + error@,
        Ok(root) => {
            let wanted = match root.field_items("rules"@) {
                Some(entries) => rules_of(entries, entries.len() as int, path, directory, env),
                None => (Seq::empty(), Seq::empty()),
            };
            r matches Ok(pair) && rule_views(pair.0@) == wanted.0 && texts(pair.1@) == wanted.1
        },
    }
}

fn make_skip_notice(raw: &Node, path: &str, position: usize, error: &str) -> (r: String)
    ensures
        r@ == skip_notice(*raw, path@, position as nat, error@),
{
    let mut s: String = owned("Warning: CodeQL rule '");
    match raw.get_str("id") {
        Some(id) => {
            s.append(id);
        },
        None => {
            s.append("<unknown>");
        },
    }
    s.append("' in ");
    s.append(path);
    s.append(" at rule ");
    let n = decimal_string(position as u64);
    s.append(n.as_str());
    s.append(" skipped: ");
    s.append(error);
    s
}

/// The rules in a rule file that was read, and notices on entries that are no proper rules.
pub fn codeql_rules_in(
    document: &Result<Node, String>,
    path: &str,
    directory: &str,
    env_database: &Option<String>,
) -> (r: Result<(Vec<CodeQlRule>, Vec<String>), String>)
    ensures
        rule_file_verdict(r, *document, path@, directory@, opt_text(*env_database)),
{
    let root = match document {
        Ok(root) => root,
        Err(error) => {
            let mut e: String = owned("Failed to parse YAML ");
            e.append(path);
            e.append(": ");
            e.append(error.as_str());
            return Err(e);
        },
    };
    let mut rules: Vec<CodeQlRule> = Vec::new();
    let mut notices: Vec<String> = Vec::new();
    proof {
        assert(rule_views(rules@) =~= Seq::<RuleView>::empty());
        assert(texts(notices@) =~= Seq::<Seq<char>>::empty());
    }
    let entries = match root.get_list("rules") {
        Some(e) => e,
        None => {
            return Ok((rules, notices));
        },
    };
    let ghost env = opt_text(*env_database);
    let mut i: usize = 0;
    while i < entries.len()
        invariant
            i <= entries@.len(),
            env == opt_text(*env_database),
            (rule_views(rules@), texts(notices@)) == rules_of(
                entries@,
                i as int,
                path@,
                directory@,
                env,
            ),
        decreases entries@.len() - i,
    {
        let raw = &entries[i];
        if is_codeql_rule(raw) {
            match read_rule(raw, directory, env_database) {
                Ok(rule) => {
                    proof {
                        assert(rule_views(rules@.push(rule)) =~= rule_views(rules@).push(rule@));
                    }
                    rules.push(rule);
                },
                Err(error) => {
                    let notice = make_skip_notice(raw, path, i + 1, error.as_str());
                    proof {
                        lemma_texts_push(notices@, notice);
                    }
                    notices.push(notice);
                },
            }
        }
        i = i + 1;
    }
    Ok((rules, notices))
}

/// The rules in the text of a rule file, and notices on entries that are no proper rules. Paths in
/// it are seen from its directory.
pub fn parse_codeql_file(
    content: &str,
    path: &str,
    directory: &str,
    env_database: &Option<String>,
) -> (r: Result<(Vec<CodeQlRule>, Vec<String>), String>)
    ensures
        rule_file_verdict(
            r,
            yaml_document(content@),
            path@,
            directory@,
            opt_text(*env_database),
        ),
{
    codeql_rules_in(&parse_yaml(content), path, directory, env_database)
}

// ---------------------------------------------------------------------------
// Loading for a comparison
// ---------------------------------------------------------------------------

/// What reading one rule file brought.
#[derive(Debug)]
pub struct RuleFile {
    pub path: String,
    pub outcome: Result<(Vec<CodeQlRule>, Vec<String>), String>,
}

/// Why the first of the first `n` files that is not wholly usable stops a comparison.
pub open spec fn strict_error(files: Seq<RuleFile>, n: int) -> Option<Seq<char>>
    decreases n,
{
    if n <= 0 {
        None
    } else {
        match strict_error(files, n - 1) {
            Some(e) => Some(e),
            None => {
                let prefix = "CodeQL diff failed to load rules from "@ + files[n - 1].path@ + ": "@;
                match files[n - 1].outcome {
                    Err(e) => Some(prefix + e@),
                    Ok(pair) => if pair.1@.len() > 0 {
                        Some(prefix + crate::paths::joined(texts(pair.1@), "; "@))
                    } else {
                        None
                    },
                }
            },
        }
    }
}

/// The rules of the first `n` files.
pub open spec fn strict_rules(files: Seq<RuleFile>, n: int) -> Seq<CodeQlRule>
    decreases n,
{
    if n <= 0 {
        Seq::empty()
    } else {
        match files[n - 1].outcome {
            Ok(pair) => strict_rules(files, n - 1) + pair.0@,
            Err(_) => strict_rules(files, n - 1),
        }
    }
}

/// The first of the first `n` rules whose query is not among the existing ones.
pub open spec fn without_query(rules: Seq<CodeQlRule>, existing: Seq<Seq<char>>, n: int) -> Option<
    CodeQlRule,
>
    decreases n,
{
    if n <= 0 {
        None
    } else {
        match without_query(rules, existing, n - 1) {
            Some(r) => Some(r),
            None => if existing.contains(rules[n - 1].query@) {
                None
            } else {
                Some(rules[n - 1])
            },
        }
    }
}

proof fn lemma_without_query_stays(
    rules: Seq<CodeQlRule>,
    existing: Seq<Seq<char>>,
    n: int,
    m: int,
)
    requires
        0 <= n <= m,
        without_query(rules, existing, n) is Some,
    ensures
        without_query(rules, existing, m) == without_query(rules, existing, n),
    decreases m - n,
{
    if n < m {
        lemma_without_query_stays(rules, existing, n, m - 1);
    }
}

/// What loading rules for a comparison brings: all rules of the files, or the first reason against.
pub open spec fn strict_load(
    path: Seq<char>,
    files: Option<Seq<RuleFile>>,
    existing: Seq<Seq<char>>,
) -> Result<Seq<CodeQlRule>, Seq<char>> {
    match files {
        None => Err("CodeQL diff failed to load rules: "@ + path + " does not exist"@),
        Some(all) => match strict_error(all, all.len() as int) {
            Some(e) => Err(e),
            None => {
                let rules = strict_rules(all, all.len() as int);
                if rules.len() == 0 {
                    Err("CodeQL diff requires at least one engine: codeql rule in "@ + path)
                } else {
                    match without_query(rules, existing, rules.len() as int) {
                        Some(rule) => Err(
                            "CodeQL diff failed to load rule '"@ + rule.id@ + "': query "@
                                + rule.query@ + " does not exist"@,
                        ),
                        None => Ok(rules),
                    }
                }
            },
        },
    }
}

/// The files at a path, where there are any.
pub open spec fn files_of(files: Option<Vec<RuleFile>>) -> Option<Seq<RuleFile>> {
    match files {
        Some(v) => Some(v@),
        None => None,
    }
}

/// All rules of the files at a path, which may be missing, given which queries exist. A comparison
/// cannot take rules that were not loaded for rules without findings: any failure or notice stops
/// it, and so does a missing query or having no rule at all.
pub fn load_codeql_rules_for_diff(
    path: &str,
    files: Option<Vec<RuleFile>>,
    existing_queries: &Vec<String>,
) -> (r: Result<Vec<CodeQlRule>, String>)
    ensures
        match strict_load(path@, files_of(files), texts(existing_queries@)) {
            Ok(all) => r matches Ok(rules) && rules@ == all,
            Err(t) => r matches Err(e) && e@ == t,
        },
{
    let ghost given = files_of(files);
    let list = match files {
        Some(list) => list,
        None => {
            let mut e: String = owned("CodeQL diff failed to load rules: ");
            e.append(path);
            e.append(" does not exist");
            return Err(e);
        },
    };
    let rules = match join_rule_files(list) {
        Ok(rules) => rules,
        Err(e) => {
            return Err(e);
        },
    };
    if rules.len() == 0 {
        let mut e: String = owned("CodeQL diff requires at least one engine: codeql rule in ");
        e.append(path);
        return Err(e);
    }
    let ghost existing = texts(existing_queries@);
    let mut i: usize = 0;
    while i < rules.len()
        invariant
            i <= rules@.len(),
            existing == texts(existing_queries@),
            without_query(rules@, existing, i as int) is None,
            given == files_of(files),
            strict_load(path@, given, existing) == match without_query(
                rules@,
                existing,
                rules@.len() as int,
            ) {
                Some(rule) => Err::<Seq<CodeQlRule>, Seq<char>>(
                    "CodeQL diff failed to load rule '"@ + rule.id@ + "': query "@ + rule.query@
                        + " does not exist"@,
                ),
                None => Ok(rules@),
            },
        decreases rules@.len() - i,
    {
        if !contains_string(existing_queries, rules[i].query.as_str()) {
            proof {
                lemma_without_query_stays(rules@, existing, i + 1, rules@.len() as int);
            }
            return Err(missing_query_error(&rules[i]));
        }
        i = i + 1;
    }
    Ok(rules)
}

fn join_rule_files(files: Vec<RuleFile>) -> (r: Result<Vec<CodeQlRule>, String>)
    ensures
        match strict_error(files@, files@.len() as int) {
            Some(t) => r matches Err(e) && e@ == t,
            None => r matches Ok(rules) && rules@ == strict_rules(
                files@,
                files@.len() as int,
            ),
        },
{
    let ghost all = files@;
    let mut rules: Vec<CodeQlRule> = Vec::new();
    for file in it: files
        invariant
            it.seq() == all,
            strict_error(all, it.index() as int) is None,
            rules@ == strict_rules(all, it.index() as int),
    {
        let ghost i = it.index() as int;
        let mut prefix: String = owned("CodeQL diff failed to load rules from ");
        prefix.append(file.path.as_str());
        prefix.append(": ");
        match file.outcome {
            Err(e) => {
                prefix.append(e.as_str());
                proof {
                    lemma_strict_error_stays(all, i + 1, all.len() as int);
                }
                return Err(prefix);
            },
            Ok((mut parsed, notices)) => {
                if notices.len() > 0 {
                    let text = crate::paths::join(&notices, "; ");
                    prefix.append(text.as_str());
                    proof {
                        lemma_strict_error_stays(all, i + 1, all.len() as int);
                    }
                    return Err(prefix);
                }
                rules.append(&mut parsed);
            },
        }
    }
    Ok(rules)
}

proof fn lemma_strict_error_stays(files: Seq<RuleFile>, n: int, m: int)
    requires
        0 <= n <= m,
        strict_error(files, n) is Some,
    ensures
        strict_error(files, m) == strict_error(files, n),
    decreases m - n,
{
    if n < m {
        lemma_strict_error_stays(files, n, m - 1);
    }
}

fn missing_query_error(rule: &CodeQlRule) -> (r: String)
    ensures
        r@ == "CodeQL diff failed to load rule '"@ + rule.id@ + "': query "@ + rule.query@
            + " does not exist"@,
{
    let mut e: String = owned("CodeQL diff failed to load rule '");
    e.append(rule.id.as_str());
    e.append("': query ");
    e.append(rule.query.as_str());
    e.append(" does not exist");
    e
}

/// What is said of the first `n` files: their own notices, and those that could not be read.
pub open spec fn loaded_notices(files: Seq<RuleFile>, n: int) -> Seq<Seq<char>>
    decreases n,
{
    if n <= 0 {
        Seq::empty()
    } else {
        let before = loaded_notices(files, n - 1);
        match files[n - 1].outcome {
            Ok(pair) => before + texts(pair.1@),
            Err(e) => before.push("Warning: "@ + e@),
        }
    }
}

/// All rules of the files that could be read, and notices on what could not.
pub fn load_codeql_rules(files: Vec<RuleFile>) -> (r: (Vec<CodeQlRule>, Vec<String>))
    ensures
        r.0@ == strict_rules(files@, files@.len() as int),
        texts(r.1@) == loaded_notices(files@, files@.len() as int),
{
    let ghost all = files@;
    let mut rules: Vec<CodeQlRule> = Vec::new();
    let mut notices: Vec<String> = Vec::new();
    assert(texts(notices@) =~= Seq::<Seq<char>>::empty());
    for file in it: files
        invariant
            it.seq() == all,
            rules@ == strict_rules(all, it.index() as int),
            texts(notices@) == loaded_notices(all, it.index() as int),
    {
        match file.outcome {
            Err(e) => {
                let mut notice: String = owned("Warning: ");
                notice.append(e.as_str());
                proof {
                    lemma_texts_push(notices@, notice);
                }
                notices.push(notice);
            },
            Ok((mut parsed, mut more)) => {
                let ghost before = notices@;
                let ghost added = more@;
                rules.append(&mut parsed);
                notices.append(&mut more);
                assert(texts(before + added) =~= texts(before) + texts(added));
            },
        }
    }
    (rules, notices)
}

// ---------------------------------------------------------------------------
// Order
// ---------------------------------------------------------------------------

/// Findings are ordered by file, line, column and rule.
pub open spec fn place_le(a: FindingView, b: FindingView) -> bool {
    if a.file != b.file {
        text_le(a.file, b.file)
    } else if a.line != b.line {
        a.line <= b.line
    } else if a.column != b.column {
        a.column <= b.column
    } else {
        text_le(a.rule_id, b.rule_id)
    }
}

/// Whether the first finding stands at or before the second.
pub fn place_at_most(a: &Finding, b: &Finding) -> (r: bool)
    ensures
        r == place_le(a@, b@),
{
    if !same(a.file.as_str(), b.file.as_str()) {
        at_most(a.file.as_str(), b.file.as_str())
    } else if a.line != b.line {
        a.line <= b.line
    } else if a.column != b.column {
        a.column <= b.column
    } else {
        at_most(a.rule_id.as_str(), b.rule_id.as_str())
    }
}

} // verus!
