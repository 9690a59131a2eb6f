//! The difference between the results of two CodeQL databases.

use crate::document::{json_document, parse_json, Node};
use crate::engine::artifact::{
    absolute_names, base_comparison, name_lists, normalize_absolute_path, root_comparison,
    sarif_uri_path, single_root_comparison_path, stable_path_under_root,
    stable_path_under_source_root, stable_relative, stable_relative_path, stable_under,
    stable_under_roots, uri_base_comparison_path, uri_path,
};
use crate::engine::codeql::{place_at_most, place_le, rule_views, CodeQlRule, RuleView};
use crate::engine::sarif::{
    artifact, artifact_location, diff_views, finding_for, lemma_diff_views_push, normalized_finding,
    CodeQlDiffFinding, DiffFindingView,
};
use crate::finding::{finding_views, lemma_finding_views_push, Finding, FindingView};
use crate::paths::{absolute, is_absolute};
use crate::sort::{lemma_sort_map, sort_stable, stable_sort};
use crate::text::{
    chars_of, contains_string, decimal, decimal_string, digits_read_back, is_digit,
    lemma_texts_push, owned, replace, replace_text, same, texts, trim, trim_text,
};
use vstd::prelude::*;

verus! {

// ---------------------------------------------------------------------------
// Paths of artifacts
// ---------------------------------------------------------------------------

/// The places that the addresses of one run are seen from.
#[derive(Debug)]
pub struct CodeQlSarifPathResolver {
    pub uri_bases: Vec<(String, Vec<String>)>,
    pub source_roots: Vec<Vec<String>>,
    pub comparison_namespaces: Vec<String>,
}

/// A named place.
pub open spec fn base_view(b: (String, Vec<String>)) -> (Seq<char>, Seq<Seq<char>>) {
    (b.0@, texts(b.1@))
}

pub open spec fn base_views(v: Seq<(String, Vec<String>)>) -> Seq<(Seq<char>, Seq<Seq<char>>)> {
    v.map_values(|b: (String, Vec<String>)| base_view(b))
}

#[verifier::ext_equal]
pub struct ResolverView {
    pub uri_bases: Seq<(Seq<char>, Seq<Seq<char>>)>,
    pub source_roots: Seq<Seq<Seq<char>>>,
    pub comparison_namespaces: Seq<Seq<char>>,
}

impl View for CodeQlSarifPathResolver {
    type V = ResolverView;

    open spec fn view(&self) -> ResolverView {
        ResolverView {
            uri_bases: base_views(self.uri_bases@),
            source_roots: name_lists(self.source_roots@),
            comparison_namespaces: texts(self.comparison_namespaces@),
        }
    }
}

/// The name of an entry.
pub open spec fn entry_name(entry: (Node, Node)) -> Seq<char> {
    match entry.0.text() {
        Some(t) => t,
        None => Seq::empty(),
    }
}

/// The place that one entry names, or what is wrong with it.
pub open spec fn base_of(entry: (Node, Node)) -> Result<Seq<Seq<char>>, Seq<char>> {
    match entry.1.field_text("uri"@) {
        None => Err("originalUriBaseIds."@ + entry_name(entry) + " lacks a URI"@),
        Some(uri) => match uri_path(uri) {
            Err(e) => Err(e),
            Ok(path) => if !absolute(path) {
                Err(
                    "originalUriBaseIds."@ + entry_name(entry)
                        + " is not an absolute file URI"@,
                )
            } else {
                absolute_names(path)
            },
        },
    }
}

/// The places that the first `n` entries name.
pub open spec fn bases_of(entries: Seq<(Node, Node)>, n: int) -> Result<
    Seq<(Seq<char>, Seq<Seq<char>>)>,
    Seq<char>,
>
    decreases n,
{
    if n <= 0 {
        Ok(Seq::empty())
    } else {
        match bases_of(entries, n - 1) {
            Err(e) => Err(e),
            Ok(before) => match base_of(entries[n - 1]) {
                Err(e) => Err(e),
                Ok(names) => Ok(before.push((entry_name(entries[n - 1]), names))),
            },
        }
    }
}

/// The names that lead to the first `n` source roots, each once.
pub open spec fn roots_of(source_roots: Seq<Seq<char>>, n: int) -> Result<
    Seq<Seq<Seq<char>>>,
    Seq<char>,
>
    decreases n,
{
    if n <= 0 {
        Ok(Seq::empty())
    } else {
        match roots_of(source_roots, n - 1) {
            Err(e) => Err(e),
            Ok(before) => match absolute_names(source_roots[n - 1]) {
                Err(e) => Err(e),
                Ok(names) => Ok(
                    if before.contains(names) {
                        before
                    } else {
                        before.push(names)
                    },
                ),
            },
        }
    }
}

/// The bases name more than one place.
pub open spec fn several_places(bases: Seq<(Seq<char>, Seq<Seq<char>>)>) -> bool {
    exists|i: int| 0 <= i < bases.len() && (#[trigger] bases[i]).1 != bases[0].1
}

/// The names of the bases.
pub open spec fn base_names(bases: Seq<(Seq<char>, Seq<Seq<char>>)>) -> Seq<Seq<char>> {
    bases.map_values(|b: (Seq<char>, Seq<Seq<char>>)| b.0)
}

/// The bases that a run declares.
pub open spec fn run_bases(run: Node) -> Result<Seq<(Seq<char>, Seq<Seq<char>>)>, Seq<char>> {
    match run.field("originalUriBaseIds"@) {
        None => Ok(Seq::empty()),
        Some(Node::Table(entries)) => bases_of(entries@, entries@.len() as int),
        Some(_) => Err("originalUriBaseIds must be an object"@),
    }
}

/// The places that the addresses of a run are seen from, or what is wrong with them.
pub open spec fn resolver_of(run: Node, source_roots: Seq<Seq<char>>) -> Result<
    ResolverView,
    Seq<char>,
> {
    match run_bases(run) {
        Err(e) => Err(e),
        Ok(bases) => match roots_of(source_roots, source_roots.len() as int) {
            Err(e) => Err(e),
            Ok(roots) => Ok(
                ResolverView {
                    uri_bases: bases,
                    source_roots: roots,
                    comparison_namespaces: if several_places(bases) {
                        base_names(bases)
                    } else {
                        Seq::empty()
                    },
                },
            ),
        },
    }
}

/// The place of the first base from `i` on that has the name.
pub open spec fn base_from(
    bases: Seq<(Seq<char>, Seq<Seq<char>>)>,
    id: Seq<char>,
    i: int,
) -> Option<Seq<Seq<char>>>
    decreases bases.len() - i,
{
    if i < 0 || i >= bases.len() {
        None
    } else if bases[i].0 == id {
        Some(bases[i].1)
    } else {
        base_from(bases, id, i + 1)
    }
}

/// The shown path and the compared path of an artifact, or why it has none.
pub open spec fn artifact_paths(resolver: ResolverView, artifact: Node) -> Result<
    (Seq<char>, Seq<char>),
    Seq<char>,
> {
    match artifact.field_text("uri"@) {
        None => Err("artifact location lacks a URI"@),
        Some(uri) => match uri_path(uri) {
            Err(e) => Err(e),
            Ok(path) => match artifact.field("uriBaseId"@) {
                Some(Node::Text(id)) => match base_from(resolver.uri_bases, id@, 0) {
                    None => Err("artifact references unknown uriBaseId '"@ + id@ + "'"@),
                    Some(root) => {
                        let shown = if absolute(path) {
                            stable_under(path, root)
                        } else {
                            stable_relative(path)
                        };
                        match shown {
                            Err(e) => Err(e),
                            Ok(p) => Ok(
                                (
                                    p,
                                    if resolver.comparison_namespaces.contains(id@) {
                                        base_comparison(id@, p)
                                    } else {
                                        root_comparison(p)
                                    },
                                ),
                            ),
                        }
                    },
                },
                Some(_) => Err("artifact uriBaseId must be a string"@),
                None => if resolver.source_roots.len() > 1 {
                    Err("artifact path has multiple CodeQL source roots without a uriBaseId"@)
                } else {
                    let shown = if absolute(path) {
                        stable_under_roots(path, resolver.source_roots)
                    } else {
                        stable_relative(path)
                    };
                    match shown {
                        Err(e) => Err(e),
                        Ok(p) => Ok((p, root_comparison(p))),
                    }
                },
            },
        },
    }
}

fn message_about(before: &str, name: &str, after: &str) -> (r: String)
    ensures
        r@ == before@ + name@ + after@,
{
    let mut s: String = owned(before);
    s.append(name);
    s.append(after);
    s
}

fn read_base(entry: &(Node, Node)) -> (r: Result<(String, Vec<String>), String>)
    ensures
        match base_of(*entry) {
            Ok(names) => r matches Ok(b) && base_view(b) == (entry_name(*entry), names),
            Err(t) => r matches Err(e) && e@ == t,
        },
{
    let name: String = match entry.0.as_str() {
        Some(t) => owned(t),
        None => {
            let e: String = String::new();
            assert(e@ =~= Seq::<char>::empty());
            e
        },
    };
    match entry.1.get_str("uri") {
        None => Err(message_about("originalUriBaseIds.", name.as_str(), " lacks a URI")),
        Some(uri) => match sarif_uri_path(uri) {
            Err(e) => Err(e),
            Ok(path) => {
                if !is_absolute(path.as_str()) {
                    Err(
                        message_about(
                            "originalUriBaseIds.",
                            name.as_str(),
                            " is not an absolute file URI",
                        ),
                    )
                } else {
                    match normalize_absolute_path(path.as_str()) {
                        Ok(names) => Ok((name, names)),
                        Err(e) => Err(e),
                    }
                }
            },
        },
    }
}

proof fn lemma_bases_error(entries: Seq<(Node, Node)>, n: int, m: int)
    requires
        0 <= n <= m,
        bases_of(entries, n) is Err,
    ensures
        bases_of(entries, m) == bases_of(entries, n),
    decreases m - n,
{
    if n < m {
        lemma_bases_error(entries, n, m - 1);
    }
}

fn read_bases(run: &Node) -> (r: Result<Vec<(String, Vec<String>)>, String>)
    ensures
        match run_bases(*run) {
            Ok(bases) => r matches Ok(v) && base_views(v@) == bases,
            Err(t) => r matches Err(e) && e@ == t,
        },
{
    let mut bases: Vec<(String, Vec<String>)> = Vec::new();
    assert(base_views(bases@) =~= Seq::<(Seq<char>, Seq<Seq<char>>)>::empty());
    match run.get("originalUriBaseIds") {
        None => Ok(bases),
        Some(Node::Table(entries)) => {
            let mut i: usize = 0;
            while i < entries.len()
                invariant
                    i <= entries@.len(),
                    run_bases(*run) == bases_of(entries@, entries@.len() as int),
                    bases_of(entries@, i as int) == Ok::<_, Seq<char>>(base_views(bases@)),
                decreases entries@.len() - i,
            {
                match read_base(&entries[i]) {
                    Ok(b) => {
                        proof {
                            assert(base_views(bases@.push(b)) =~= base_views(bases@).push(
                                base_view(b),
                            ));
                        }
                        bases.push(b);
                    },
                    Err(e) => {
                        proof {
                            lemma_bases_error(entries@, i + 1, entries@.len() as int);
                        }
                        return Err(e);
                    },
                }
                i = i + 1;
            }
            Ok(bases)
        },
        Some(_) => Err(owned("originalUriBaseIds must be an object")),
    }
}

fn same_names(a: &Vec<String>, b: &Vec<String>) -> (r: bool)
    ensures
        r == (texts(a@) == texts(b@)),
{
    assert(texts(a@).len() == a@.len() && texts(b@).len() == b@.len());
    if a.len() != b.len() {
        return false;
    }
    let mut i: usize = 0;
    while i < a.len()
        invariant
            i <= a@.len(),
            a@.len() == b@.len(),
            forall|k: int| 0 <= k < i ==> #[trigger] texts(a@)[k] == texts(b@)[k],
        decreases a@.len() - i,
    {
        if !same(a[i].as_str(), b[i].as_str()) {
            assert(texts(a@)[i as int] != texts(b@)[i as int]);
            return false;
        }
        i = i + 1;
    }
    assert(texts(a@) =~= texts(b@));
    true
}

fn holds_names(v: &Vec<Vec<String>>, names: &Vec<String>) -> (r: bool)
    ensures
        r == name_lists(v@).contains(texts(names@)),
{
    let mut i: usize = 0;
    while i < v.len()
        invariant
            i <= v@.len(),
            forall|k: int| 0 <= k < i ==> #[trigger] name_lists(v@)[k] != texts(names@),
        decreases v@.len() - i,
    {
        assert(name_lists(v@)[i as int] == texts(v@[i as int]@));
        if same_names(&v[i], names) {
            return true;
        }
        i = i + 1;
    }
    false
}

proof fn lemma_roots_error(source_roots: Seq<Seq<char>>, n: int, m: int)
    requires
        0 <= n <= m,
        roots_of(source_roots, n) is Err,
    ensures
        roots_of(source_roots, m) == roots_of(source_roots, n),
    decreases m - n,
{
    if n < m {
        lemma_roots_error(source_roots, n, m - 1);
    }
}

fn read_roots(source_roots: &Vec<String>) -> (r: Result<Vec<Vec<String>>, String>)
    ensures
        match roots_of(texts(source_roots@), source_roots@.len() as int) {
            Ok(roots) => r matches Ok(v) && name_lists(v@) == roots,
            Err(t) => r matches Err(e) && e@ == t,
        },
{
    let ghost all = texts(source_roots@);
    let mut roots: Vec<Vec<String>> = Vec::new();
    assert(name_lists(roots@) =~= Seq::<Seq<Seq<char>>>::empty());
    let mut i: usize = 0;
    while i < source_roots.len()
        invariant
            i <= source_roots@.len(),
            all == texts(source_roots@),
            roots_of(all, i as int) == Ok::<_, Seq<char>>(name_lists(roots@)),
        decreases source_roots@.len() - i,
    {
        assert(all[i as int] == source_roots@[i as int]@);
        match normalize_absolute_path(source_roots[i].as_str()) {
            Ok(names) => {
                if !holds_names(&roots, &names) {
                    proof {
                        assert(name_lists(roots@.push(names)) =~= name_lists(roots@).push(
                            texts(names@),
                        ));
                    }
                    roots.push(names);
                }
            },
            Err(e) => {
                proof {
                    lemma_roots_error(all, i + 1, source_roots@.len() as int);
                }
                return Err(e);
            },
        }
        i = i + 1;
    }
    Ok(roots)
}

fn names_of_several_places(bases: &Vec<(String, Vec<String>)>) -> (r: Vec<String>)
    ensures
        texts(r@) == (if several_places(base_views(bases@)) {
            base_names(base_views(bases@))
        } else {
            Seq::empty()
        }),
{
    let ghost all = base_views(bases@);
    let mut several = false;
    let mut r: Vec<String> = Vec::new();
    assert(texts(r@) =~= base_names(all).take(0));
    let mut i: usize = 0;
    while i < bases.len()
        invariant
            i <= bases@.len(),
            all == base_views(bases@),
            several == (exists|k: int| 0 <= k < i && (#[trigger] all[k]).1 != all[0].1),
            texts(r@) == base_names(all).take(i as int),
        decreases bases@.len() - i,
    {
        assert(all[i as int] == base_view(bases@[i as int]));
        assert(all[0] == base_view(bases@[0]));
        if !same_names(&bases[i].1, &bases[0].1) {
            several = true;
        }
        let name = bases[i].0.clone();
        proof {
            lemma_texts_push(r@, name);
            assert(base_names(all).take(i + 1) =~= base_names(all).take(i as int).push(name@));
        }
        r.push(name);
        i = i + 1;
    }
    assert(base_names(all).take(i as int) =~= base_names(all));
    if several {
        r
    } else {
        let none: Vec<String> = Vec::new();
        assert(texts(none@) =~= Seq::<Seq<char>>::empty());
        none
    }
}

impl CodeQlSarifPathResolver {
    /// The places that the addresses of a run are seen from.
    pub fn from_run(run: &Node, source_roots: &Vec<String>) -> (r: Result<
        CodeQlSarifPathResolver,
        String,
    >)
        ensures
            match resolver_of(*run, texts(source_roots@)) {
                Ok(v) => r matches Ok(resolver) && resolver@ == v,
                Err(t) => r matches Err(e) && e@ == t,
            },
    {
        let uri_bases = match read_bases(run) {
            Ok(b) => b,
            Err(e) => {
                return Err(e);
            },
        };
        assert(texts(source_roots@).len() == source_roots@.len());
        let roots = match read_roots(source_roots) {
            Ok(r) => r,
            Err(e) => {
                return Err(e);
            },
        };
        let comparison_namespaces = names_of_several_places(&uri_bases);
        Ok(CodeQlSarifPathResolver { uri_bases, source_roots: roots, comparison_namespaces })
    }

    fn base(&self, id: &str) -> (r: Option<&Vec<String>>)
        ensures
            match base_from(self@.uri_bases, id@, 0) {
                Some(names) => r matches Some(v) && texts(v@) == names,
                None => r is None,
            },
    {
        let ghost all = self@.uri_bases;
        let mut i: usize = 0;
        while i < self.uri_bases.len()
            invariant
                i <= self.uri_bases@.len(),
                all == base_views(self.uri_bases@),
                base_from(all, id@, 0) == base_from(all, id@, i as int),
            decreases self.uri_bases@.len() - i,
        {
            assert(all[i as int] == base_view(self.uri_bases@[i as int]));
            if same(self.uri_bases[i].0.as_str(), id) {
                return Some(&self.uri_bases[i].1);
            }
            i = i + 1;
        }
        None
    }

    /// The shown path and the compared path of an artifact.
    pub fn normalize_artifact_location(&self, artifact_location: &Node) -> (r: Result<
        (String, String),
        String,
    >)
        ensures
            match artifact_paths(self@, *artifact_location) {
                Ok(p) => r matches Ok(q) && (q.0@, q.1@) == p,
                Err(t) => r matches Err(e) && e@ == t,
            },
    {
        let uri = match artifact_location.get_str("uri") {
            Some(uri) => uri,
            None => {
                return Err(owned("artifact location lacks a URI"));
            },
        };
        let path = match sarif_uri_path(uri) {
            Ok(p) => p,
            Err(e) => {
                return Err(e);
            },
        };
        match artifact_location.get("uriBaseId") {
            Some(Node::Text(id)) => match self.base(id.as_str()) {
                None => Err(
                    message_about("artifact references unknown uriBaseId '", id.as_str(), "'"),
                ),
                Some(root) => {
                    let shown = if is_absolute(path.as_str()) {
                        stable_path_under_root(path.as_str(), root)
                    } else {
                        stable_relative_path(path.as_str())
                    };
                    match shown {
                        Err(e) => Err(e),
                        Ok(p) => {
                            let comparison = if contains_string(
                                &self.comparison_namespaces,
                                id.as_str(),
                            ) {
                                uri_base_comparison_path(id.as_str(), p.as_str())
                            } else {
                                single_root_comparison_path(p.as_str())
                            };
                            Ok((p, comparison))
                        },
                    }
                },
            },
            Some(_) => Err(owned("artifact uriBaseId must be a string")),
            None => {
                assert(self@.source_roots.len() == self.source_roots@.len());
                if self.source_roots.len() > 1 {
                    return Err(
                        owned(
                            "artifact path has multiple CodeQL source roots without a uriBaseId",
                        ),
                    );
                }
                let shown = if is_absolute(path.as_str()) {
                    stable_path_under_source_root(path.as_str(), &self.source_roots)
                } else {
                    stable_relative_path(path.as_str())
                };
                match shown {
                    Err(e) => Err(e),
                    Ok(p) => {
                        let comparison = single_root_comparison_path(p.as_str());
                        Ok((p, comparison))
                    },
                }
            },
        }
    }
}

// ---------------------------------------------------------------------------
// Documents of results
// ---------------------------------------------------------------------------

/// The results of a well-formed run, or what is wrong with it; runs count from one.
pub open spec fn run_results(run: Node, position: nat) -> Result<Seq<Node>, Seq<char>> {
    let about = "SARIF run "@ + decimal(position);
    match run.field("tool"@) {
        Some(Node::Table(tool)) => match Node::Table(tool).field("driver"@) {
            Some(Node::Table(driver)) => {
                let name = Node::Table(driver).field_text("name"@);
                if name is None || trim_text(name.unwrap()).len() == 0 {
                    Err(about + " has a driver without a name"@)
                } else {
                    match run.field_items("results"@) {
                        Some(results) => Ok(results),
                        None => Err(about + " has a missing or non-array results field"@),
                    }
                }
            },
            _ => Err(about + " lacks a tool driver object"@),
        },
        _ => Err(about + " lacks a tool object"@),
    }
}

fn about_run(position: usize, what: &str) -> (r: String)
    ensures
        r@ == "SARIF run "@ + decimal(position as nat) + what@,
{
    let mut s: String = owned("SARIF run ");
    s.append(decimal_string(position as u64).as_str());
    s.append(what);
    s
}

/// The results of a well-formed run; runs count from one.
pub fn sarif_run_results(run: &Node, run_index: usize) -> (r: Result<&Vec<Node>, String>)
    ensures
        match run_results(*run, run_index as nat) {
            Ok(results) => r matches Ok(v) && v@ == results,
            Err(t) => r matches Err(e) && e@ == t,
        },
{
    let tool = match run.get("tool") {
        Some(tool) => match tool {
            Node::Table(_) => tool,
            _ => {
                return Err(about_run(run_index, " lacks a tool object"));
            },
        },
        None => {
            return Err(about_run(run_index, " lacks a tool object"));
        },
    };
    let driver = match tool.get("driver") {
        Some(driver) => match driver {
            Node::Table(_) => driver,
            _ => {
                return Err(about_run(run_index, " lacks a tool driver object"));
            },
        },
        None => {
            return Err(about_run(run_index, " lacks a tool driver object"));
        },
    };
    let named = match driver.get_str("name") {
        Some(name) => {
            let trimmed = trim(name);
            chars_of(trimmed.as_str()).len() > 0
        },
        None => false,
    };
    if !named {
        return Err(about_run(run_index, " has a driver without a name"));
    }
    match run.get_list("results") {
        Some(results) => Ok(results),
        None => Err(about_run(run_index, " has a missing or non-array results field")),
    }
}

/// The finding of one result, or why it has none; results and runs count from one.
pub open spec fn result_finding(
    rule: RuleView,
    result: Node,
    resolver: ResolverView,
    position: nat,
    run_position: nat,
) -> Result<DiffFindingView, Seq<char>> {
    let about = "SARIF result "@ + decimal(position) + " in run "@ + decimal(run_position);
    match artifact(result) {
        None => Err(about + " lacks a physical location"@),
        Some(a) => match artifact_paths(resolver, a) {
            Err(e) => Err(about + " has an unsafe artifact path: "@ + e),
            Ok(p) => Ok(finding_for(rule, result, p.0, p.1, None)),
        },
    }
}

fn about_result(position: usize, run_position: usize, what: &str) -> (r: String)
    ensures
        r@ == "SARIF result "@ + decimal(position as nat) + " in run "@ + decimal(
            run_position as nat,
        ) + what@,
{
    let mut s: String = owned("SARIF result ");
    s.append(decimal_string(position as u64).as_str());
    s.append(" in run ");
    s.append(decimal_string(run_position as u64).as_str());
    s.append(what);
    s
}

fn read_result(
    rule: &CodeQlRule,
    result: &Node,
    resolver: &CodeQlSarifPathResolver,
    position: usize,
    run_position: usize,
) -> (r: Result<CodeQlDiffFinding, String>)
    ensures
        match result_finding(rule@, *result, resolver@, position as nat, run_position as nat) {
            Ok(v) => r matches Ok(f) && f@ == v,
            Err(t) => r matches Err(e) && e@ == t,
        },
{
    match artifact_location(result) {
        None => Err(about_result(position, run_position, " lacks a physical location")),
        Some(a) => match resolver.normalize_artifact_location(a) {
            Err(e) => {
                let mut s = about_result(
                    position,
                    run_position,
                    " has an unsafe artifact path: ",
                );
                s.append(e.as_str());
                Err(s)
            },
            Ok((file, comparison)) => Ok(normalized_finding(rule, result, file, comparison, None)),
        },
    }
}

/// The findings of the first `n` results of a run.
pub open spec fn results_findings(
    rule: RuleView,
    results: Seq<Node>,
    n: int,
    resolver: ResolverView,
    run_position: nat,
) -> Result<Seq<DiffFindingView>, Seq<char>>
    decreases n,
{
    if n <= 0 {
        Ok(Seq::empty())
    } else {
        match results_findings(rule, results, n - 1, resolver, run_position) {
            Err(e) => Err(e),
            Ok(before) => match result_finding(
                rule,
                results[n - 1],
                resolver,
                n as nat,
                run_position,
            ) {
                Err(e) => Err(e),
                Ok(f) => Ok(before.push(f)),
            },
        }
    }
}

proof fn lemma_results_error(
    rule: RuleView,
    results: Seq<Node>,
    n: int,
    m: int,
    resolver: ResolverView,
    run_position: nat,
)
    requires
        0 <= n <= m,
        results_findings(rule, results, n, resolver, run_position) is Err,
    ensures
        results_findings(rule, results, m, resolver, run_position) == results_findings(
            rule,
            results,
            n,
            resolver,
            run_position,
        ),
    decreases m - n,
{
    if n < m {
        lemma_results_error(rule, results, n, m - 1, resolver, run_position);
    }
}

fn read_results(
    rule: &CodeQlRule,
    results: &Vec<Node>,
    resolver: &CodeQlSarifPathResolver,
    run_position: usize,
) -> (r: Result<Vec<CodeQlDiffFinding>, String>)
    ensures
        match results_findings(
            rule@,
            results@,
            results@.len() as int,
            resolver@,
            run_position as nat,
        ) {
            Ok(v) => r matches Ok(f) && diff_views(f@) == v,
            Err(t) => r matches Err(e) && e@ == t,
        },
{
    let mut findings: Vec<CodeQlDiffFinding> = Vec::new();
    assert(diff_views(findings@) =~= Seq::<DiffFindingView>::empty());
    let mut i: usize = 0;
    while i < results.len()
        invariant
            i <= results@.len(),
            results_findings(rule@, results@, i as int, resolver@, run_position as nat) == Ok::<
                _,
                Seq<char>,
            >(diff_views(findings@)),
        decreases results@.len() - i,
    {
        match read_result(rule, &results[i], resolver, i + 1, run_position) {
            Ok(f) => {
                proof {
                    lemma_diff_views_push(findings@, f);
                }
                findings.push(f);
            },
            Err(e) => {
                proof {
                    lemma_results_error(
                        rule@,
                        results@,
                        i + 1,
                        results@.len() as int,
                        resolver@,
                        run_position as nat,
                    );
                }
                return Err(e);
            },
        }
        i = i + 1;
    }
    Ok(findings)
}

/// The findings of a run, and the names of its bases where these are places of their own.
pub open spec fn run_findings(
    rule: RuleView,
    run: Node,
    position: nat,
    source_roots: Seq<Seq<char>>,
) -> Result<(Seq<DiffFindingView>, Seq<Seq<char>>), Seq<char>> {
    match run_results(run, position) {
        Err(e) => Err(e),
        Ok(results) => match resolver_of(run, source_roots) {
            Err(e) => Err("SARIF run "@ + decimal(position) + ": "@ + e),
            Ok(resolver) => match results_findings(
                rule,
                results,
                results.len() as int,
                resolver,
                position,
            ) {
                Err(e) => Err(e),
                Ok(found) => Ok((found, resolver.comparison_namespaces)),
            },
        },
    }
}

fn read_run(rule: &CodeQlRule, run: &Node, position: usize, source_roots: &Vec<String>) -> (r:
    Result<(Vec<CodeQlDiffFinding>, Vec<String>), String>)
    ensures
        match run_findings(rule@, *run, position as nat, texts(source_roots@)) {
            Ok(v) => r matches Ok(p) && (diff_views(p.0@), texts(p.1@)) == v,
            Err(t) => r matches Err(e) && e@ == t,
        },
{
    match sarif_run_results(run, position) {
        Err(e) => Err(e),
        Ok(results) => match CodeQlSarifPathResolver::from_run(run, source_roots) {
            Err(e) => {
                let mut s = about_run(position, ": ");
                s.append(e.as_str());
                Err(s)
            },
            Ok(resolver) => match read_results(rule, results, &resolver, position) {
                Err(e) => Err(e),
                Ok(findings) => Ok((findings, resolver.comparison_namespaces)),
            },
        },
    }
}

/// The findings and names of the first `n` runs.
pub open spec fn runs_findings(
    rule: RuleView,
    runs: Seq<Node>,
    n: int,
    source_roots: Seq<Seq<char>>,
) -> Result<(Seq<DiffFindingView>, Seq<Seq<char>>), Seq<char>>
    decreases n,
{
    if n <= 0 {
        Ok((Seq::empty(), Seq::empty()))
    } else {
        match runs_findings(rule, runs, n - 1, source_roots) {
            Err(e) => Err(e),
            Ok(before) => match run_findings(rule, runs[n - 1], n as nat, source_roots) {
                Err(e) => Err(e),
                Ok(found) => Ok((before.0 + found.0, before.1 + found.1)),
            },
        }
    }
}

proof fn lemma_runs_error(
    rule: RuleView,
    runs: Seq<Node>,
    n: int,
    m: int,
    source_roots: Seq<Seq<char>>,
)
    requires
        0 <= n <= m,
        runs_findings(rule, runs, n, source_roots) is Err,
    ensures
        runs_findings(rule, runs, m, source_roots) == runs_findings(rule, runs, n, source_roots),
    decreases m - n,
{
    if n < m {
        lemma_runs_error(rule, runs, n, m - 1, source_roots);
    }
}

// ---------------------------------------------------------------------------
// Keys and occurrences
// ---------------------------------------------------------------------------

/// What findings are compared by.
#[verifier::ext_equal]
pub struct KeyView {
    pub rule_id: Seq<char>,
    pub path: Seq<char>,
    pub identity: Seq<char>,
}

/// What a finding is compared by. Paths are written with slashes.
pub open spec fn key_of(f: DiffFindingView) -> KeyView {
    KeyView {
        rule_id: f.finding.rule_id,
        path: replace_text(f.comparison_path, "\\"@, "/"@),
        identity: f.identity,
    }
}

pub open spec fn keys_of(v: Seq<DiffFindingView>) -> Seq<KeyView> {
    v.map_values(|f: DiffFindingView| key_of(f))
}

/// What findings are compared by.
#[derive(Debug)]
pub struct DiffKey {
    pub rule_id: String,
    pub path: String,
    pub identity: String,
}

impl View for DiffKey {
    type V = KeyView;

    open spec fn view(&self) -> KeyView {
        KeyView { rule_id: self.rule_id@, path: self.path@, identity: self.identity@ }
    }
}

pub open spec fn key_views(v: Seq<DiffKey>) -> Seq<KeyView> {
    v.map_values(|k: DiffKey| k@)
}

/// What a finding is compared by.
pub fn codeql_diff_key(f: &CodeQlDiffFinding) -> (r: DiffKey)
    ensures
        r@ == key_of(f@),
{
    proof {
        reveal_strlit("\\");
    }
    DiffKey {
        rule_id: f.finding.rule_id.clone(),
        path: replace(f.comparison_path.as_str(), "\\", "/"),
        identity: f.identity.clone(),
    }
}

fn same_key(a: &DiffKey, b: &DiffKey) -> (r: bool)
    ensures
        r == (a@ == b@),
{
    same(a.rule_id.as_str(), b.rule_id.as_str()) && same(a.path.as_str(), b.path.as_str()) && same(
        a.identity.as_str(),
        b.identity.as_str(),
    )
}

fn holds_key(v: &Vec<DiffKey>, key: &DiffKey) -> (r: bool)
    ensures
        r == key_views(v@).contains(key@),
{
    let mut i: usize = 0;
    while i < v.len()
        invariant
            i <= v@.len(),
            forall|k: int| 0 <= k < i ==> #[trigger] key_views(v@)[k] != key@,
        decreases v@.len() - i,
    {
        assert(key_views(v@)[i as int] == v@[i as int]@);
        if same_key(&v[i], key) {
            return true;
        }
        i = i + 1;
    }
    false
}

fn all_keys(v: &Vec<CodeQlDiffFinding>) -> (r: Vec<DiffKey>)
    ensures
        key_views(r@) == keys_of(diff_views(v@)),
{
    let ghost all = keys_of(diff_views(v@));
    let mut r: Vec<DiffKey> = Vec::new();
    assert(key_views(r@) =~= all.take(0));
    let mut i: usize = 0;
    while i < v.len()
        invariant
            i <= v@.len(),
            all == keys_of(diff_views(v@)),
            key_views(r@) == all.take(i as int),
        decreases v@.len() - i,
    {
        let key = codeql_diff_key(&v[i]);
        proof {
            assert(all[i as int] == key@);
            assert(key_views(r@.push(key)) =~= key_views(r@).push(key@));
            assert(all.take(i + 1) =~= all.take(i as int).push(key@));
        }
        r.push(key);
        i = i + 1;
    }
    assert(all.take(i as int) =~= all);
    r
}

/// How many of the first `n` findings have the key and no fingerprint.
pub open spec fn occurrences(all: Seq<DiffFindingView>, key: KeyView, n: int) -> nat
    decreases n,
{
    if n <= 0 {
        0
    } else {
        occurrences(all, key, n - 1) + if !all[n - 1].has_fingerprint && key_of(all[n - 1])
            == key {
            1nat
        } else {
            0nat
        }
    }
}

/// The `i`-th finding; without a fingerprint, it is told from its like by its number among them.
pub open spec fn numbered(all: Seq<DiffFindingView>, i: int) -> DiffFindingView {
    if all[i].has_fingerprint {
        all[i]
    } else {
        DiffFindingView {
            identity: all[i].identity + "#"@ + decimal(occurrences(all, key_of(all[i]), i + 1)),
            ..all[i]
        }
    }
}

/// All findings, those without a fingerprint numbered.
pub open spec fn all_numbered(all: Seq<DiffFindingView>) -> Seq<DiffFindingView> {
    Seq::new(all.len(), |i: int| numbered(all, i))
}

fn count_occurrences(
    findings: &Vec<CodeQlDiffFinding>,
    keys: &Vec<DiffKey>,
    at: usize,
    Ghost(all): Ghost<Seq<DiffFindingView>>,
) -> (r: usize)
    requires
        at < findings@.len(),
        all.len() == findings@.len(),
        key_views(keys@) == keys_of(all),
        forall|k: int|
            0 <= k < all.len() ==> (#[trigger] findings@[k]).has_fingerprint
                == all[k].has_fingerprint,
    ensures
        r == occurrences(all, key_of(all[at as int]), at + 1),
        r <= at + 1,
{
    assert(key_views(keys@).len() == keys@.len());
    let len: usize = findings.len();
    let mut n: usize = 0;
    let mut j: usize = 0;
    while j <= at
        invariant
            j <= at + 1,
            at < len,
            len == findings@.len(),
            all.len() == findings@.len(),
            keys@.len() == all.len(),
            key_views(keys@) == keys_of(all),
            forall|k: int|
                0 <= k < all.len() ==> (#[trigger] findings@[k]).has_fingerprint
                    == all[k].has_fingerprint,
            n == occurrences(all, key_of(all[at as int]), j as int),
            n <= j,
        decreases at + 1 - j,
    {
        assert(key_views(keys@)[j as int] == keys@[j as int]@);
        assert(key_views(keys@)[at as int] == keys@[at as int]@);
        assert(keys_of(all)[j as int] == key_of(all[j as int]));
        assert(keys_of(all)[at as int] == key_of(all[at as int]));
        if !findings[j].has_fingerprint && same_key(&keys[j], &keys[at]) {
            n = n + 1;
        }
        j = j + 1;
    }
    n
}

/// Numbers the findings without a fingerprint, so that like ones can be told apart.
pub fn assign_fallback_occurrences(mut findings: Vec<CodeQlDiffFinding>) -> (r: Vec<
    CodeQlDiffFinding,
>)
    ensures
        diff_views(r@) == all_numbered(diff_views(findings@)),
{
    let ghost all = diff_views(findings@);
    let keys = all_keys(&findings);
    let n: usize = findings.len();
    let mut i: usize = 0;
    while i < n
        invariant
            i <= n,
            n == findings@.len(),
            all.len() == n,
            key_views(keys@) == keys_of(all),
            forall|k: int| 0 <= k < i ==> (#[trigger] findings@[k])@ == numbered(all, k),
            forall|k: int| i <= k < n ==> (#[trigger] findings@[k])@ == all[k],
        decreases n - i,
    {
        assert(findings@[i as int]@ == all[i as int]);
        if !findings[i].has_fingerprint {
            let count = count_occurrences(&findings, &keys, i, Ghost(all));
            let mut identity = findings[i].identity.clone();
            identity.append("#");
            identity.append(decimal_string(count as u64).as_str());
            findings[i].identity = identity;
        }
        assert(findings@[i as int]@ == numbered(all, i as int));
        i = i + 1;
    }
    assert(diff_views(findings@) =~= all_numbered(all));
    findings
}

// ---------------------------------------------------------------------------
// Reading a document for a comparison
// ---------------------------------------------------------------------------

/// What a document of results gives for a comparison.
#[derive(Debug)]
pub struct ParsedCodeQlDiffFindings {
    pub findings: Vec<CodeQlDiffFinding>,
    pub namespaces: Vec<String>,
}

/// The findings and names that a document gives, or what is wrong with it.
pub open spec fn document_findings(
    rule: RuleView,
    document: Result<Node, String>,
    source_roots: Seq<Seq<char>>,
) -> Result<(Seq<DiffFindingView>, Seq<Seq<char>>), Seq<char>> {
    match document {
        Err(e) => Err("invalid JSON: "@ + e@),
        Ok(root) => match root.field_text("version"@) {
            None => Err("missing SARIF version"@),
            Some(version) => if version != "2.1.0"@ {
                Err("unsupported SARIF version '"@ + version + "'; expected 2.1.0"@)
            } else {
                match root.field_items("runs"@) {
                    None => Err("missing SARIF runs array"@),
                    Some(runs) => if runs.len() == 0 {
                        Err("SARIF runs array is empty"@)
                    } else {
                        match runs_findings(rule, runs, runs.len() as int, source_roots) {
                            Err(e) => Err(e),
                            Ok(found) => Ok((all_numbered(found.0), found.1)),
                        }
                    },
                }
            },
        },
    }
}

/// The outcome that a decision on a document stands for.
pub open spec fn parsed_outcome(
    r: Result<ParsedCodeQlDiffFindings, String>,
    d: Result<(Seq<DiffFindingView>, Seq<Seq<char>>), Seq<char>>,
) -> bool {
    match d {
        Ok(v) => r matches Ok(p) && (diff_views(p.findings@), texts(p.namespaces@)) == v,
        Err(t) => r matches Err(e) && e@ == t,
    }
}

/// The findings and names that a document gives for a comparison.
pub fn diff_findings_of_document(
    rule: &CodeQlRule,
    document: &Result<Node, String>,
    source_roots: &Vec<String>,
) -> (r: Result<ParsedCodeQlDiffFindings, String>)
    ensures
        parsed_outcome(r, document_findings(rule@, *document, texts(source_roots@))),
{
    let root = match document {
        Ok(root) => root,
        Err(e) => {
            let mut s: String = owned("invalid JSON: ");
            s.append(e.as_str());
            return Err(s);
        },
    };
    match root.get_str("version") {
        None => {
            return Err(owned("missing SARIF version"));
        },
        Some(version) => {
            if !same(version, "2.1.0") {
                return Err(
                    message_about("unsupported SARIF version '", version, "'; expected 2.1.0"),
                );
            }
        },
    }
    let runs = match root.get_list("runs") {
        Some(runs) => runs,
        None => {
            return Err(owned("missing SARIF runs array"));
        },
    };
    if runs.len() == 0 {
        return Err(owned("SARIF runs array is empty"));
    }
    match read_runs(rule, runs, source_roots) {
        Err(e) => Err(e),
        Ok((findings, namespaces)) => Ok(
            ParsedCodeQlDiffFindings {
                findings: assign_fallback_occurrences(findings),
                namespaces,
            },
        ),
    }
}

fn read_runs(rule: &CodeQlRule, runs: &Vec<Node>, source_roots: &Vec<String>) -> (r: Result<
    (Vec<CodeQlDiffFinding>, Vec<String>),
    String,
>)
    ensures
        match runs_findings(rule@, runs@, runs@.len() as int, texts(source_roots@)) {
            Ok(v) => r matches Ok(p) && (diff_views(p.0@), texts(p.1@)) == v,
            Err(t) => r matches Err(e) && e@ == t,
        },
{
    let mut findings: Vec<CodeQlDiffFinding> = Vec::new();
    let mut namespaces: Vec<String> = Vec::new();
    proof {
        assert(diff_views(findings@) =~= Seq::<DiffFindingView>::empty());
        assert(texts(namespaces@) =~= Seq::<Seq<char>>::empty());
    }
    let mut i: usize = 0;
    while i < runs.len()
        invariant
            i <= runs@.len(),
            runs_findings(rule@, runs@, i as int, texts(source_roots@)) == Ok::<_, Seq<char>>(
                (diff_views(findings@), texts(namespaces@)),
            ),
        decreases runs@.len() - i,
    {
        match read_run(rule, &runs[i], i + 1, source_roots) {
            Ok((mut found, mut names)) => {
                let ghost before = (findings@, namespaces@);
                let ghost added = (found@, names@);
                findings.append(&mut found);
                namespaces.append(&mut names);
                proof {
                    assert(diff_views(before.0 + added.0) =~= diff_views(before.0) + diff_views(
                        added.0,
                    ));
                    assert(texts(before.1 + added.1) =~= texts(before.1) + texts(added.1));
                }
            },
            Err(e) => {
                proof {
                    lemma_runs_error(
                        rule@,
                        runs@,
                        i + 1,
                        runs@.len() as int,
                        texts(source_roots@),
                    );
                }
                return Err(e);
            },
        }
        i = i + 1;
    }
    Ok((findings, namespaces))
}

/// The findings and names that the text of a document gives for a comparison.
pub fn parse_sarif_diff_findings(rule: &CodeQlRule, sarif: &str, source_roots: &Vec<String>) -> (r:
    Result<ParsedCodeQlDiffFindings, String>)
    ensures
        parsed_outcome(r, document_findings(rule@, json_document(sarif@), texts(source_roots@))),
{
    diff_findings_of_document(rule, &parse_json(sarif), source_roots)
}

// ---------------------------------------------------------------------------
// Scanning a database that exists
// ---------------------------------------------------------------------------

/// The findings of a database, and the bases that are places of their own, with their rules.
#[derive(Debug)]
pub struct CodeQlDiffScanResult {
    pub findings: Vec<CodeQlDiffFinding>,
    pub namespaces: Vec<(String, String)>,
    pub files_scanned: usize,
}

pub open spec fn pair_views(v: Seq<(String, String)>) -> Seq<(Seq<char>, Seq<char>)> {
    v.map_values(|p: (String, String)| (p.0@, p.1@))
}

/// What running a rule brought: a document of results, which may not be readable, or why there is
/// none.
pub open spec fn read_outcome(outcome: Result<String, String>) -> Result<
    Result<Node, String>,
    String,
> {
    match outcome {
        Ok(sarif) => Ok(json_document(sarif@)),
        Err(e) => Err(e),
    }
}

/// The findings of one rule, or why the database cannot be compared.
pub open spec fn rule_findings(
    rule: RuleView,
    database: Seq<char>,
    document: Result<Result<Node, String>, String>,
    source_roots: Seq<Seq<char>>,
) -> Result<(Seq<DiffFindingView>, Seq<Seq<char>>), Seq<char>> {
    let about = "CodeQL diff failed: rule '"@ + rule.id + "' against "@ + database;
    match document {
        Err(e) => Err(about + ": "@ + e@),
        Ok(d) => match document_findings(rule, d, source_roots) {
            Err(e) => Err(about + " produced invalid SARIF: "@ + e),
            Ok(found) => Ok(found),
        },
    }
}

/// The names, each with its rule.
pub open spec fn with_rule(rule_id: Seq<char>, names: Seq<Seq<char>>) -> Seq<
    (Seq<char>, Seq<char>),
> {
    names.map_values(|n: Seq<char>| (rule_id, n))
}

/// The findings of the first `n` rules. The first failure stands for all.
pub open spec fn rules_findings(
    rules: Seq<RuleView>,
    n: int,
    database: Seq<char>,
    documents: Seq<Result<Result<Node, String>, String>>,
    source_roots: Seq<Seq<char>>,
) -> Result<(Seq<DiffFindingView>, Seq<(Seq<char>, Seq<char>)>), Seq<char>>
    decreases n,
{
    if n <= 0 {
        Ok((Seq::empty(), Seq::empty()))
    } else {
        match rules_findings(rules, n - 1, database, documents, source_roots) {
            Err(e) => Err(e),
            Ok(before) => match rule_findings(
                rules[n - 1],
                database,
                documents[n - 1],
                source_roots,
            ) {
                Err(e) => Err(e),
                Ok(found) => Ok(
                    (before.0 + found.0, before.1 + with_rule(rules[n - 1].id, found.1)),
                ),
            },
        }
    }
}

proof fn lemma_rules_error(
    rules: Seq<RuleView>,
    n: int,
    m: int,
    database: Seq<char>,
    documents: Seq<Result<Result<Node, String>, String>>,
    source_roots: Seq<Seq<char>>,
)
    requires
        0 <= n <= m,
        rules_findings(rules, n, database, documents, source_roots) is Err,
    ensures
        rules_findings(rules, m, database, documents, source_roots) == rules_findings(
            rules,
            n,
            database,
            documents,
            source_roots,
        ),
    decreases m - n,
{
    if n < m {
        lemma_rules_error(rules, n, m - 1, database, documents, source_roots);
    }
}

/// Findings are ordered by file, line, column and rule.
pub open spec fn diff_order() -> spec_fn(DiffFindingView, DiffFindingView) -> bool {
    |a: DiffFindingView, b: DiffFindingView| place_le(a.finding, b.finding)
}

/// The scan of a database: the sorted findings of all rules.
pub open spec fn scanned(
    rules: Seq<RuleView>,
    database: Seq<char>,
    documents: Seq<Result<Result<Node, String>, String>>,
    source_roots: Seq<Seq<char>>,
) -> Result<(Seq<DiffFindingView>, Seq<(Seq<char>, Seq<char>)>), Seq<char>> {
    match rules_findings(rules, rules.len() as int, database, documents, source_roots) {
        Err(e) => Err(e),
        Ok(found) => Ok((stable_sort(found.0, diff_order()), found.1)),
    }
}

/// The outcome that a decision on a scan stands for.
pub open spec fn scan_outcome(
    r: Result<CodeQlDiffScanResult, String>,
    d: Result<(Seq<DiffFindingView>, Seq<(Seq<char>, Seq<char>)>), Seq<char>>,
    files_scanned: usize,
) -> bool {
    match d {
        Ok(v) => r matches Ok(s) && (diff_views(s.findings@), pair_views(s.namespaces@)) == v
            && s.files_scanned == files_scanned,
        Err(t) => r matches Err(e) && e@ == t,
    }
}

fn about_rule(rule: &CodeQlRule, database: &str, what: &str, error: &str) -> (r: String)
    ensures
        r@ == "CodeQL diff failed: rule '"@ + rule.id@ + "' against "@ + database@ + what@ + error@,
{
    let mut s: String = owned("CodeQL diff failed: rule '");
    s.append(rule.id.as_str());
    s.append("' against ");
    s.append(database);
    s.append(what);
    s.append(error);
    s
}

fn read_rule_outcome(
    rule: &CodeQlRule,
    database: &str,
    document: &Result<Result<Node, String>, String>,
    source_roots: &Vec<String>,
) -> (r: Result<ParsedCodeQlDiffFindings, String>)
    ensures
        parsed_outcome(r, rule_findings(rule@, database@, *document, texts(source_roots@))),
{
    match document {
        Err(e) => Err(about_rule(rule, database, ": ", e.as_str())),
        Ok(d) => match diff_findings_of_document(rule, d, source_roots) {
            Err(e) => Err(about_rule(rule, database, " produced invalid SARIF: ", e.as_str())),
            Ok(p) => Ok(p),
        },
    }
}

fn pair_names(rule_id: &str, names: &Vec<String>) -> (r: Vec<(String, String)>)
    ensures
        pair_views(r@) == with_rule(rule_id@, texts(names@)),
{
    let ghost all = with_rule(rule_id@, texts(names@));
    let mut r: Vec<(String, String)> = Vec::new();
    assert(pair_views(r@) =~= all.take(0));
    let mut i: usize = 0;
    while i < names.len()
        invariant
            i <= names@.len(),
            all == with_rule(rule_id@, texts(names@)),
            pair_views(r@) == all.take(i as int),
        decreases names@.len() - i,
    {
        let p = (owned(rule_id), names[i].clone());
        proof {
            assert(all[i as int] == (p.0@, p.1@));
            assert(pair_views(r@.push(p)) =~= pair_views(r@).push((p.0@, p.1@)));
            assert(all.take(i + 1) =~= all.take(i as int).push((p.0@, p.1@)));
        }
        r.push(p);
        i = i + 1;
    }
    assert(all.take(i as int) =~= all);
    r
}

fn diff_at_most(a: &CodeQlDiffFinding, b: &CodeQlDiffFinding) -> (r: bool)
    ensures
        r == place_le(a.finding@, b.finding@),
{
    place_at_most(&a.finding, &b.finding)
}

/// The findings of a database, from what running each rule brought. A rule that failed, or whose
/// results cannot be trusted, fails the scan: a part of the results is never compared.
pub fn scan_documents(
    rules: &Vec<CodeQlRule>,
    database: &str,
    documents: &Vec<Result<Result<Node, String>, String>>,
    source_roots: &Vec<String>,
) -> (r: Result<CodeQlDiffScanResult, String>)
    requires
        documents@.len() == rules@.len(),
    ensures
        scan_outcome(
            r,
            scanned(rule_views(rules@), database@, documents@, texts(source_roots@)),
            1,
        ),
{
    let ghost all = rule_views(rules@);
    let mut findings: Vec<CodeQlDiffFinding> = Vec::new();
    let mut namespaces: Vec<(String, String)> = Vec::new();
    proof {
        assert(diff_views(findings@) =~= Seq::<DiffFindingView>::empty());
        assert(pair_views(namespaces@) =~= Seq::<(Seq<char>, Seq<char>)>::empty());
    }
    let mut i: usize = 0;
    while i < rules.len()
        invariant
            i <= rules@.len(),
            documents@.len() == rules@.len(),
            all == rule_views(rules@),
            rules_findings(all, i as int, database@, documents@, texts(source_roots@)) == Ok::<
                _,
                Seq<char>,
            >((diff_views(findings@), pair_views(namespaces@))),
        decreases rules@.len() - i,
    {
        assert(all[i as int] == rules@[i as int]@);
        match read_rule_outcome(&rules[i], database, &documents[i], source_roots) {
            Ok(mut parsed) => {
                let mut pairs = pair_names(rules[i].id.as_str(), &parsed.namespaces);
                let ghost before = (findings@, namespaces@);
                let ghost added = (parsed.findings@, pairs@);
                findings.append(&mut parsed.findings);
                namespaces.append(&mut pairs);
                proof {
                    assert(diff_views(before.0 + added.0) =~= diff_views(before.0) + diff_views(
                        added.0,
                    ));
                    assert(pair_views(before.1 + added.1) =~= pair_views(before.1) + pair_views(
                        added.1,
                    ));
                }
            },
            Err(e) => {
                proof {
                    lemma_rules_error(
                        all,
                        i + 1,
                        rules@.len() as int,
                        database@,
                        documents@,
                        texts(source_roots@),
                    );
                }
                return Err(e);
            },
        }
        i = i + 1;
    }
    let ghost le = |a: CodeQlDiffFinding, b: CodeQlDiffFinding| place_le(a.finding@, b.finding@);
    proof {
        lemma_sort_map(findings@, le, |f: CodeQlDiffFinding| f@, diff_order());
    }
    sort_stable(&mut findings, diff_at_most, Ghost(le));
    Ok(CodeQlDiffScanResult { findings, namespaces, files_scanned: 1 })
}

/// The documents that running each rule brought.
pub open spec fn read_outcomes(outcomes: Seq<Result<String, String>>) -> Seq<
    Result<Result<Node, String>, String>,
> {
    outcomes.map_values(|o: Result<String, String>| read_outcome(o))
}

/// The findings of a database that exists, from whether the tool is there, where the sources of the
/// database stood, and what running each rule brought.
pub fn scan_prebuilt_database(
    rules: &Vec<CodeQlRule>,
    database: &str,
    probe: &Result<(), String>,
    source_roots: &Result<Vec<String>, String>,
    outcomes: Vec<Result<String, String>>,
) -> (r: Result<CodeQlDiffScanResult, String>)
    requires
        rules@.len() == 0 || *probe is Err || *source_roots is Err || outcomes@.len()
            == rules@.len(),
    ensures
        if rules@.len() == 0 {
            r matches Ok(s) && s.findings@.len() == 0 && s.namespaces@.len() == 0
                && s.files_scanned == 0
        } else if *probe is Err {
            r matches Err(e) && e@ == "CodeQL diff skipped: "@ + probe->Err_0@
                + "; install CodeQL (`codeql`) to compare configured databases"@
        } else if *source_roots is Err {
            r matches Err(e) && e@ == source_roots->Err_0@
        } else {
            scan_outcome(
                r,
                scanned(
                    rule_views(rules@),
                    database@,
                    read_outcomes(outcomes@),
                    texts(source_roots->Ok_0@),
                ),
                1,
            )
        },
{
    if rules.len() == 0 {
        return Ok(
            CodeQlDiffScanResult {
                findings: Vec::new(),
                namespaces: Vec::new(),
                files_scanned: 0,
            },
        );
    }
    if let Err(e) = probe {
        return Err(
            message_about(
                "CodeQL diff skipped: ",
                e.as_str(),
                "; install CodeQL (`codeql`) to compare configured databases",
            ),
        );
    }
    let roots = match source_roots {
        Ok(roots) => roots,
        Err(e) => {
            return Err(e.clone());
        },
    };
    let ghost all = read_outcomes(outcomes@);
    let ghost given = outcomes@;
    let mut documents: Vec<Result<Result<Node, String>, String>> = Vec::new();
    assert(documents@ =~= all.take(0));
    for outcome in it: outcomes
        invariant
            it.seq() == given,
            all == read_outcomes(given),
            documents@ == all.take(it.index() as int),
    {
        let ghost i = it.index() as int;
        let document = match outcome {
            Ok(sarif) => Ok(parse_json(sarif.as_str())),
            Err(e) => Err(e),
        };
        proof {
            assert(all[i] == read_outcome(given[i]));
            assert(all.take(i + 1) =~= all.take(i).push(document));
        }
        documents.push(document);
    }
    assert(all.take(all.len() as int) =~= all);
    scan_documents(rules, database, &documents, roots)
}

// ---------------------------------------------------------------------------
// Comparison
// ---------------------------------------------------------------------------

/// The first finding of each key among the first `n`.
pub open spec fn first_of_each(all: Seq<DiffFindingView>, n: int) -> Seq<DiffFindingView>
    decreases n,
{
    if n <= 0 {
        Seq::empty()
    } else {
        let before = first_of_each(all, n - 1);
        if keys_of(all).take(n - 1).contains(key_of(all[n - 1])) {
            before
        } else {
            before.push(all[n - 1])
        }
    }
}

/// The first finding of each key of `current` that is no key of `base`.
pub open spec fn new_findings(current: Seq<DiffFindingView>, base: Seq<DiffFindingView>) -> Seq<
    DiffFindingView,
> {
    first_of_each(current, current.len() as int).filter(
        |f: DiffFindingView| !keys_of(base).contains(key_of(f)),
    )
}

pub open spec fn shown(v: Seq<DiffFindingView>) -> Seq<FindingView> {
    v.map_values(|f: DiffFindingView| f.finding)
}

/// The findings that one scan has and the other has not.
#[derive(Debug)]
pub struct DiffResult {
    pub new_findings: Vec<Finding>,
}

fn all_within(a: &Vec<(String, String)>, b: &Vec<(String, String)>) -> (r: bool)
    ensures
        r == pair_views(a@).to_set().subset_of(pair_views(b@).to_set()),
{
    let ghost x = pair_views(a@);
    let ghost y = pair_views(b@);
    let mut i: usize = 0;
    while i < a.len()
        invariant
            i <= a@.len(),
            x == pair_views(a@),
            y == pair_views(b@),
            forall|k: int| 0 <= k < i ==> y.contains(#[trigger] x[k]),
        decreases a@.len() - i,
    {
        let mut found = false;
        let mut j: usize = 0;
        assert(x[i as int] == (a@[i as int].0@, a@[i as int].1@));
        while j < b.len() && !found
            invariant
                i < a@.len(),
                j <= b@.len(),
                x == pair_views(a@),
                y == pair_views(b@),
                found ==> y.contains(x[i as int]),
                !found ==> forall|k: int| 0 <= k < j ==> #[trigger] y[k] != x[i as int],
            decreases b@.len() - j,
        {
            assert(x[i as int] == (a@[i as int].0@, a@[i as int].1@));
            assert(y[j as int] == (b@[j as int].0@, b@[j as int].1@));
            if same(a[i].0.as_str(), b[j].0.as_str()) && same(a[i].1.as_str(), b[j].1.as_str()) {
                found = true;
            }
            j = j + 1;
        }
        if !found {
            proof {
                assert(x.to_set().contains(x[i as int]));
                assert(!y.contains(x[i as int]));
                assert(!y.to_set().contains(x[i as int]));
            }
            return false;
        }
        i = i + 1;
    }
    proof {
        assert forall|p: (Seq<char>, Seq<char>)| #[trigger] x.to_set().contains(p) implies y.to_set().contains(
            p,
        ) by {
            let k = choose|k: int| 0 <= k < x.len() && x[k] == p;
            assert(y.contains(x[k]));
        }
    }
    true
}

/// Databases whose bases are several places can only be compared where those have the same names,
/// rule by rule.
pub fn validate_codeql_namespace_compatibility(
    current: &Vec<(String, String)>,
    base: &Vec<(String, String)>,
) -> (r: Result<(), String>)
    ensures
        if pair_views(current@).to_set() == pair_views(base@).to_set() {
            r is Ok
        } else {
            r matches Err(e) && e@
                == "paired CodeQL databases have incompatible multi-base uriBaseId namespaces; unable to map them safely"@
        },
{
    let forth = all_within(current, base);
    let back = all_within(base, current);
    proof {
        if forth && back {
            assert(pair_views(current@).to_set() =~= pair_views(base@).to_set());
        }
    }
    if forth && back {
        Ok(())
    } else {
        Err(
            owned(
                "paired CodeQL databases have incompatible multi-base uriBaseId namespaces; unable to map them safely",
            ),
        )
    }
}

/// The findings of the current scan that the base scan has not, one for each key.
pub fn diff_prebuilt_database_findings(
    current: CodeQlDiffScanResult,
    base: CodeQlDiffScanResult,
) -> (r: Result<DiffResult, String>)
    ensures
        if pair_views(current.namespaces@).to_set() == pair_views(base.namespaces@).to_set() {
            r matches Ok(d) && finding_views(d.new_findings@) == shown(
                new_findings(diff_views(current.findings@), diff_views(base.findings@)),
            )
        } else {
            r matches Err(e) && e@
                == "paired CodeQL databases have incompatible multi-base uriBaseId namespaces; unable to map them safely"@
        },
{
    if let Err(e) = validate_codeql_namespace_compatibility(
        &current.namespaces,
        &base.namespaces,
    ) {
        return Err(e);
    }
    let base_keys = all_keys(&base.findings);
    let ghost known = keys_of(diff_views(base.findings@));
    let ghost p = |f: DiffFindingView| !known.contains(key_of(f));
    let ghost given = current.findings@;
    let ghost all = diff_views(given);
    let mut seen: Vec<DiffKey> = Vec::new();
    let mut fresh: Vec<Finding> = Vec::new();
    proof {
        assert(key_views(seen@) =~= keys_of(all).take(0));
        reveal(Seq::filter);
        assert(finding_views(fresh@) =~= shown(first_of_each(all, 0).filter(p)));
    }
    for f in it: current.findings
        invariant
            it.seq() == given,
            all == diff_views(given),
            key_views(base_keys@) == known,
            p == (|f: DiffFindingView| !known.contains(key_of(f))),
            key_views(seen@) == keys_of(all).take(it.index() as int),
            finding_views(fresh@) == shown(first_of_each(all, it.index() as int).filter(p)),
    {
        let ghost i = it.index() as int;
        let key = codeql_diff_key(&f);
        assert(all[i] == f@);
        assert(keys_of(all)[i] == key@);
        let ghost before = first_of_each(all, i);
        if !holds_key(&seen, &key) {
            proof {
                before.lemma_filter_push(all[i], p);
            }
            if !holds_key(&base_keys, &key) {
                proof {
                    assert(shown(before.filter(p).push(f@)) =~= shown(before.filter(p)).push(
                        f.finding@,
                    ));
                    lemma_finding_views_push(fresh@, f.finding);
                }
                fresh.push(f.finding);
            }
        }
        proof {
            assert(key_views(seen@.push(key)) =~= key_views(seen@).push(key@));
            assert(keys_of(all).take(i + 1) =~= keys_of(all).take(i).push(key@));
        }
        seen.push(key);
    }
    Ok(DiffResult { new_findings: fresh })
}

// ---------------------------------------------------------------------------
// Laws
// ---------------------------------------------------------------------------

proof fn lemma_first_of_each(all: Seq<DiffFindingView>, n: int)
    requires
        0 <= n <= all.len(),
    ensures
        forall|k: int|
            0 <= k < first_of_each(all, n).len() ==> all.take(n).contains(
                #[trigger] first_of_each(all, n)[k],
            ),
        forall|i: int|
            0 <= i < n ==> keys_of(first_of_each(all, n)).contains(key_of(#[trigger] all[i])),
        keys_of(first_of_each(all, n)).no_duplicates(),
    decreases n,
{
    if n > 0 {
        lemma_first_of_each(all, n - 1);
        let before = first_of_each(all, n - 1);
        let now = first_of_each(all, n);
        let x = all[n - 1];
        assert forall|k: int| 0 <= k < now.len() implies all.take(n).contains(#[trigger] now[k]) by {
            if k < before.len() {
                assert(all.take(n - 1).contains(before[k]));
                let j = choose|j: int| 0 <= j < n - 1 && #[trigger] all.take(n - 1)[j] == before[k];
                assert(all.take(n)[j] == now[k]);
            } else {
                assert(all.take(n)[n - 1] == x);
            }
        }
        assert forall|i: int| 0 <= i < n implies keys_of(now).contains(
            key_of(#[trigger] all[i]),
        ) by {
            if i < n - 1 {
                let j = choose|j: int|
                    0 <= j < keys_of(before).len() && #[trigger] keys_of(before)[j] == key_of(all[i]);
                assert(keys_of(now)[j] == keys_of(before)[j]);
            } else if keys_of(all).take(n - 1).contains(key_of(x)) {
                let m = choose|m: int|
                    0 <= m < n - 1 && #[trigger] keys_of(all).take(n - 1)[m] == key_of(x);
                assert(key_of(all[m]) == key_of(x));
                assert(keys_of(before).contains(key_of(all[m])));
            } else {
                assert(keys_of(now)[before.len() as int] == key_of(x));
            }
        }
        if !keys_of(all).take(n - 1).contains(key_of(x)) {
            assert forall|a: int, b: int|
                0 <= a < now.len() && 0 <= b < now.len() && a != b implies keys_of(now)[a]
                != keys_of(now)[b] by {
                let lo = if a < b {
                    a
                } else {
                    b
                };
                let hi = if a < b {
                    b
                } else {
                    a
                };
                assert(keys_of(now)[lo] == keys_of(before)[lo]);
                if hi < before.len() {
                    assert(keys_of(now)[hi] == keys_of(before)[hi]);
                } else if keys_of(now)[lo] == keys_of(now)[hi] {
                    assert(all.take(n - 1).contains(before[lo]));
                    let m = choose|m: int| 0 <= m < n - 1 && #[trigger] all.take(n - 1)[m] == before[lo];
                    assert(keys_of(all).take(n - 1)[m] == key_of(x));
                }
            }
        }
    }
}

proof fn lemma_filtered_within(
    s: Seq<DiffFindingView>,
    p: spec_fn(DiffFindingView) -> bool,
    k: int,
)
    requires
        0 <= k < s.filter(p).len(),
    ensures
        s.contains(s.filter(p)[k]),
    decreases s.len(),
{
    reveal(Seq::filter);
    if s.len() > 0 {
        let rest = s.drop_last();
        if k < rest.filter(p).len() {
            lemma_filtered_within(rest, p, k);
            let m = choose|m: int| 0 <= m < rest.len() && #[trigger] rest[m] == rest.filter(p)[k];
            assert(s[m] == s.filter(p)[k]);
        } else {
            assert(s[s.len() - 1] == s.filter(p)[k]);
        }
    }
}

/// A comparison finds something new exactly for the keys that the base lacks: every new finding is
/// one of the current ones and has such a key, every current finding with such a key is stood for,
/// and no key comes twice.
pub proof fn new_findings_are_those_with_unknown_keys(
    current: Seq<DiffFindingView>,
    base: Seq<DiffFindingView>,
)
    ensures
        forall|f: DiffFindingView| #[trigger]
            new_findings(current, base).contains(f) ==> current.contains(f) && !keys_of(
                base,
            ).contains(key_of(f)),
        forall|i: int|
            0 <= i < current.len() && !keys_of(base).contains(key_of(#[trigger] current[i]))
                ==> keys_of(new_findings(current, base)).contains(key_of(current[i])),
        keys_of(new_findings(current, base)).no_duplicates(),
{
    let first = first_of_each(current, current.len() as int);
    let p = |f: DiffFindingView| !keys_of(base).contains(key_of(f));
    let new = new_findings(current, base);
    lemma_first_of_each(current, current.len() as int);
    assert(current.take(current.len() as int) =~= current);
    broadcast use vstd::seq_lib::group_filter_ensures;

    assert forall|f: DiffFindingView| #[trigger] new.contains(f) implies current.contains(f)
        && !keys_of(base).contains(key_of(f)) by {
        let k = choose|k: int| 0 <= k < new.len() && #[trigger] new[k] == f;
        assert(p(new[k]));
        lemma_filtered_within(first, p, k);
    }
    assert forall|i: int|
        0 <= i < current.len() && !keys_of(base).contains(
            key_of(#[trigger] current[i]),
        ) implies keys_of(new).contains(key_of(current[i])) by {
        let j = choose|j: int|
            0 <= j < keys_of(first).len() && #[trigger] keys_of(first)[j] == key_of(current[i]);
        assert(p(first[j]));
        assert(new.contains(first[j]));
        let k = choose|k: int| 0 <= k < new.len() && #[trigger] new[k] == first[j];
        assert(keys_of(new)[k] == key_of(current[i]));
    }
    lemma_filter_keeps_apart(first, p);
}

proof fn lemma_filter_keeps_apart(s: Seq<DiffFindingView>, p: spec_fn(DiffFindingView) -> bool)
    requires
        keys_of(s).no_duplicates(),
    ensures
        keys_of(s.filter(p)).no_duplicates(),
    decreases s.len(),
{
    reveal(Seq::filter);
    if s.len() > 0 {
        let rest = s.drop_last();
        assert forall|a: int, b: int|
            0 <= a < rest.len() && 0 <= b < rest.len() && a != b implies keys_of(rest)[a]
            != keys_of(rest)[b] by {
            assert(keys_of(rest)[a] == keys_of(s)[a]);
            assert(keys_of(rest)[b] == keys_of(s)[b]);
        }
        lemma_filter_keeps_apart(rest, p);
        broadcast use vstd::seq_lib::group_filter_ensures;

        let kept = rest.filter(p);
        if p(s.last()) {
            let now = kept.push(s.last());
            assert(s.filter(p) =~= now);
            assert forall|a: int, b: int|
                0 <= a < now.len() && 0 <= b < now.len() && a != b implies keys_of(now)[a]
                != keys_of(now)[b] by {
                let lo = if a < b {
                    a
                } else {
                    b
                };
                let hi = if a < b {
                    b
                } else {
                    a
                };
                assert(keys_of(now)[lo] == keys_of(kept)[lo]);
                if hi < kept.len() {
                    assert(keys_of(now)[hi] == keys_of(kept)[hi]);
                } else {
                    lemma_filtered_within(rest, p, lo);
                    let m = choose|m: int| 0 <= m < rest.len() && #[trigger] rest[m] == kept[lo];
                    assert(keys_of(s)[m] == key_of(kept[lo]));
                    assert(keys_of(s)[s.len() - 1] == key_of(s.last()));
                }
            }
        }
    }
}

/// A scan that is compared with itself has nothing new.
pub proof fn nothing_is_new_against_itself(v: Seq<DiffFindingView>)
    ensures
        new_findings(v, v).len() == 0,
{
    new_findings_are_those_with_unknown_keys(v, v);
    let new = new_findings(v, v);
    if new.len() > 0 {
        assert(new.contains(new[0]));
        let i = choose|i: int| 0 <= i < v.len() && v[i] == new[0];
        assert(keys_of(v)[i] == key_of(new[0]));
    }
}

proof fn lemma_occurrences_grow(all: Seq<DiffFindingView>, key: KeyView, i: int, j: int)
    requires
        0 <= i <= j <= all.len(),
    ensures
        occurrences(all, key, i) <= occurrences(all, key, j),
    decreases j - i,
{
    if i < j {
        lemma_occurrences_grow(all, key, i, j - 1);
    }
}

proof fn lemma_number_mark(a: Seq<char>, n: nat, b: Seq<char>, m: nat)
    requires
        a + "#"@ + decimal(n) == b + "#"@ + decimal(m),
    ensures
        a == b,
        n == m,
{
    reveal_strlit("#");
    digits_read_back(n);
    digits_read_back(m);
    let s = a + "#"@ + decimal(n);
    let t = b + "#"@ + decimal(m);
    assert(s.len() == a.len() + 1 + decimal(n).len());
    assert(t.len() == b.len() + 1 + decimal(m).len());
    assert(s[a.len() as int] == '#');
    assert(t[b.len() as int] == '#');
    if a.len() < b.len() {
        assert(s[b.len() as int] == decimal(n)[b.len() - a.len() - 1]);
        assert(is_digit(decimal(n)[b.len() - a.len() - 1]));
    } else if b.len() < a.len() {
        assert(t[a.len() as int] == decimal(m)[a.len() - b.len() - 1]);
        assert(is_digit(decimal(m)[a.len() - b.len() - 1]));
    } else {
        assert(s.take(a.len() as int) =~= a);
        assert(t.take(b.len() as int) =~= b);
        assert(s.skip((a.len() + 1) as int) =~= decimal(n));
        assert(t.skip((b.len() + 1) as int) =~= decimal(m));
    }
}

/// Numbering tells any two findings without a fingerprint apart.
pub proof fn numbered_findings_are_apart(all: Seq<DiffFindingView>, i: int, j: int)
    requires
        0 <= i < j < all.len(),
        !all[i].has_fingerprint,
        !all[j].has_fingerprint,
    ensures
        key_of(all_numbered(all)[i]) != key_of(all_numbered(all)[j]),
{
    let x = all_numbered(all)[i];
    let y = all_numbered(all)[j];
    if key_of(x) == key_of(y) {
        lemma_number_mark(
            all[i].identity,
            occurrences(all, key_of(all[i]), i + 1),
            all[j].identity,
            occurrences(all, key_of(all[j]), j + 1),
        );
        assert(key_of(all[i]) == key_of(all[j]));
        lemma_occurrences_grow(all, key_of(all[j]), i + 1, j);
    }
}

} // verus!
