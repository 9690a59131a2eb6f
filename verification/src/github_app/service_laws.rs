//! What holds of the hosted receiver's dealings with GitHub: which hosts it clones from, when it asks
//! for another page, which comments it replaces and which lines of an error it hides.

use crate::finding::FindingView;
use crate::github_app::dispatcher::{job_key, stored_delivery, web_address};
use crate::github_app::pull_request_job_store::{store_path_error, JobView};
use crate::github_app::requests::{
    comments_place, deletion, deletions, owned_ids, review_plan, ApiMethod, CommentKind, RequestView,
};
use crate::github_app::review::{
    entry_says_next, has_next, owned_marker, repo_relative_path, repo_segment, repository_objection,
    review_text, says_next, IssueComment, RepositoryPath, SourceRevision, COMMENT_MARKER,
};
use crate::github_app::scan::{
    allowed_host, any_names_authorization, auth_header, clone_commands, every_glob_is_excluded,
    excluded_globs, names_authorization, positive_setting, redacted, scanner_arguments,
    seen_from_checkout, shown_line, CloneTarget, REDACTED,
};
use crate::paths::{joined, path_parts, plain_name, PartView};
use crate::text::{
    contains_text, decimal, digits_read_back, is_digit, is_space, lemma_split_nonempty, lines_of,
    lower_text, split_text, trim_text,
};
use crate::text_laws::{
    all_space, splitting_cuts_at_each_separator, trimming_takes_the_outer_white_space,
    written_numbers_are_read,
};
use vstd::prelude::*;

verus! {

// ---------------------------------------------------------------------------
// Hosts
// ---------------------------------------------------------------------------

/// Some entry of the list, without the white space around it, is the host, in small letters or
/// capitals.
pub open spec fn lists_host(entries: Seq<Seq<char>>, host: Seq<char>) -> bool {
    exists|i: int|
        0 <= i < entries.len() && trim_text(#[trigger] entries[i]).len() > 0 && lower_text(
            trim_text(entries[i]),
        ) == lower_text(host)
}

proof fn lemma_allowed(host: Seq<char>, allowed: Seq<char>)
    ensures
        allowed_host(host, allowed) <==> host == "github.com"@ || lists_host(
            split_text(allowed, ','),
            host,
        ),
{
    let entries = split_text(allowed, ',');
    if lists_host(entries, host) {
        let i = choose|i: int|
            0 <= i < entries.len() && trim_text(#[trigger] entries[i]).len() > 0 && lower_text(
                trim_text(entries[i]),
            ) == lower_text(host);
        assert(trim_text(split_text(allowed, ',')[i]).len() > 0);
    }
}

/// A host is allowed where it is GitHub's own or stands in the list, at whichever place: a list is
/// read entry by entry, and a single entry allows its host, in small letters or capitals, with white
/// space around it or without. An empty entry allows nothing.
pub proof fn hosts_are_allowed_entry_by_entry(
    a: Seq<char>,
    b: Seq<char>,
    entry: Seq<char>,
    host: Seq<char>,
)
    requires
        !entry.contains(','),
    ensures
        allowed_host(host, a.push(',') + b) <==> allowed_host(host, a) || allowed_host(host, b),
        allowed_host(host, entry) <==> host == "github.com"@ || (trim_text(entry).len() > 0
            && lower_text(trim_text(entry)) == lower_text(host)),
{
    let both = a.push(',') + b;
    splitting_cuts_at_each_separator(a, b, ',');
    splitting_cuts_at_each_separator(entry, Seq::empty(), ',');
    lemma_allowed(host, both);
    lemma_allowed(host, a);
    lemma_allowed(host, b);
    lemma_allowed(host, entry);
    let x = split_text(a, ',');
    let y = split_text(b, ',');
    if lists_host(x + y, host) {
        let i = choose|i: int|
            0 <= i < (x + y).len() && trim_text(#[trigger] (x + y)[i]).len() > 0 && lower_text(
                trim_text((x + y)[i]),
            ) == lower_text(host);
        if i < x.len() {
            assert(trim_text(x[i]).len() > 0);
        } else {
            assert(trim_text(y[i - x.len()]).len() > 0);
        }
    }
    if lists_host(x, host) {
        let i = choose|i: int|
            0 <= i < x.len() && trim_text(#[trigger] x[i]).len() > 0 && lower_text(trim_text(x[i]))
                == lower_text(host);
        assert(trim_text((x + y)[i]).len() > 0);
    }
    if lists_host(y, host) {
        let i = choose|i: int|
            0 <= i < y.len() && trim_text(#[trigger] y[i]).len() > 0 && lower_text(trim_text(y[i]))
                == lower_text(host);
        assert(trim_text((x + y)[x.len() + i]).len() > 0);
    }
    if trim_text(entry).len() > 0 && lower_text(trim_text(entry)) == lower_text(host) {
        assert(seq![entry][0] == entry);
        assert(lists_host(seq![entry], host));
    }
}

/// A setting that is a positive number counts, with white space around it or without; anything else
/// gives the default.
pub proof fn settings_are_positive_numbers(
    before: Seq<char>,
    n: nat,
    behind: Seq<char>,
    max: nat,
    default: nat,
)
    requires
        all_space(before),
        all_space(behind),
    ensures
        0 < n <= max ==> positive_setting(Some(before + decimal(n) + behind), max, default) == n,
        n == 0 || n > max ==> positive_setting(Some(before + decimal(n) + behind), max, default)
            == default,
        positive_setting(None, max, default) == default,
{
    let digits = decimal(n);
    digits_read_back(n);
    assert(!is_space(digits.first()) && !is_space(digits.last())) by {
        assert(is_digit(digits[0]));
        assert(is_digit(digits[digits.len() - 1]));
    }
    trimming_takes_the_outer_white_space(before, digits, behind);
    written_numbers_are_read(n, max, digits);
}

// ---------------------------------------------------------------------------
// Pages
// ---------------------------------------------------------------------------

/// Another page follows where one of the links says so, at whichever place in the header.
pub proof fn links_are_read_one_by_one(a: Seq<char>, b: Seq<char>, entry: Seq<char>)
    requires
        !entry.contains(','),
    ensures
        has_next(a.push(',') + b) <==> has_next(a) || has_next(b),
        has_next(entry) <==> entry_says_next(entry),
{
    splitting_cuts_at_each_separator(a, b, ',');
    splitting_cuts_at_each_separator(entry, Seq::empty(), ',');
    let x = split_text(a, ',');
    let y = split_text(b, ',');
    let z = split_text(a.push(',') + b, ',');
    if has_next(a.push(',') + b) {
        let i = choose|i: int| 0 <= i < z.len() && entry_says_next(#[trigger] z[i]);
        if i < x.len() {
            assert(entry_says_next(x[i]));
        } else {
            assert(entry_says_next(y[i - x.len()]));
        }
    }
    if has_next(a) {
        let i = choose|i: int| 0 <= i < x.len() && entry_says_next(#[trigger] x[i]);
        assert(entry_says_next(z[i]));
    }
    if has_next(b) {
        let i = choose|i: int| 0 <= i < y.len() && entry_says_next(#[trigger] y[i]);
        assert(entry_says_next(z[x.len() + i]));
    }
    if entry_says_next(entry) {
        assert(split_text(entry, ',')[0] == entry);
    }
    if has_next(entry) {
        let i = choose|i: int|
            0 <= i < split_text(entry, ',').len() && entry_says_next(
                #[trigger] split_text(entry, ',')[i],
            );
        assert(i == 0);
    }
}

/// A link says that another page follows where one of the parameters behind its address does, at
/// whichever place; the address itself says nothing.
pub proof fn parameters_are_read_one_by_one(
    address: Seq<char>,
    link: Seq<char>,
    parameter: Seq<char>,
)
    requires
        !address.contains(';'),
        !parameter.contains(';'),
    ensures
        !entry_says_next(address),
        entry_says_next(link.push(';') + parameter) <==> entry_says_next(link) || says_next(
            trim_text(parameter),
        ),
{
    splitting_cuts_at_each_separator(address, Seq::empty(), ';');
    splitting_cuts_at_each_separator(link, parameter, ';');
    splitting_cuts_at_each_separator(parameter, Seq::empty(), ';');
    lemma_split_nonempty(link, ';');
    let x = split_text(link, ';');
    let z = split_text(link.push(';') + parameter, ';');
    assert(z =~= x.push(parameter));
    if entry_says_next(link.push(';') + parameter) {
        let k = choose|k: int| 1 <= k < z.len() && says_next(trim_text(#[trigger] z[k]));
        if k < x.len() {
            assert(says_next(trim_text(x[k])));
        }
    }
    if entry_says_next(link) {
        let k = choose|k: int| 1 <= k < x.len() && says_next(trim_text(#[trigger] x[k]));
        assert(says_next(trim_text(z[k])));
    }
    if says_next(trim_text(parameter)) {
        assert(z[x.len() as int] == parameter);
    }
}

// ---------------------------------------------------------------------------
// Comments
// ---------------------------------------------------------------------------

/// The comments that are the app's own are all found, in their order, whatever other comments stand
/// between them: those of two lists are those of the first and then those of the second.
pub proof fn own_comments_are_all_found(
    a: Seq<IssueComment>,
    b: Seq<IssueComment>,
    c: IssueComment,
    app_id: u64,
)
    ensures
        owned_ids(a + b, app_id) == owned_ids(a, app_id) + owned_ids(b, app_id),
        owned_marker(c, app_id) ==> owned_ids(seq![c], app_id) == seq![c.id],
        !owned_marker(c, app_id) ==> owned_ids(seq![c], app_id).len() == 0,
    decreases b.len(),
{
    let p = |c: IssueComment| owned_marker(c, app_id);
    let g = |c: IssueComment| c.id;
    let none = Seq::<IssueComment>::empty();
    assert(none.filter(p).len() == 0) by {
        reveal(Seq::filter);
    }
    none.lemma_filter_push(c, p);
    assert(none.push(c) =~= seq![c]);
    if p(c) {
        assert(owned_ids(seq![c], app_id) =~= seq![c.id]);
    }
    if b.len() == 0 {
        assert(a + b =~= a);
        assert(b =~= none);
        assert(owned_ids(a, app_id) + owned_ids(b, app_id) =~= owned_ids(a, app_id));
    } else {
        let t = b.drop_last();
        let last = b.last();
        own_comments_are_all_found(a, t, c, app_id);
        assert(a + b =~= (a + t).push(last));
        assert(b =~= t.push(last));
        (a + t).lemma_filter_push(last, p);
        t.lemma_filter_push(last, p);
        if p(last) {
            assert((a + t).filter(p).push(last).map_values(g) =~= (a + t).filter(p).map_values(
                g,
            ).push(last.id));
            assert(t.filter(p).push(last).map_values(g) =~= t.filter(p).map_values(g).push(last.id));
            let u = owned_ids(a, app_id);
            let v = owned_ids(t, app_id);
            assert((u + v).push(last.id) =~= u + v.push(last.id));
        }
    }
}

/// A review leaves none of the app's earlier comments on lines: each is deleted. Without an earlier
/// message a new one is made where there are findings, and there is none where there are not. No other
/// requests are made.
pub proof fn reviews_replace_what_was_there(
    repo: RepositoryPath,
    number: u64,
    inline: Seq<u64>,
    summaries: Seq<u64>,
    findings: Seq<FindingView>,
    source: SourceRevision,
    k: int,
)
    requires
        0 <= k < inline.len(),
    ensures
        review_plan(repo, number, inline, summaries, findings, source).contains(
            deletion(repo, CommentKind::Inline, inline[k]),
        ),
        summaries.len() > 0 ==> review_plan(
            repo,
            number,
            inline,
            summaries,
            findings,
            source,
        ).len() == summaries.len() + inline.len(),
        summaries.len() == 0 && findings.len() == 0 ==> review_plan(
            repo,
            number,
            inline,
            summaries,
            findings,
            source,
        ).len() == inline.len(),
        summaries.len() == 0 && findings.len() > 0 ==> review_plan(
            repo,
            number,
            inline,
            summaries,
            findings,
            source,
        ).len() == 1 + inline.len() && review_plan(
            repo,
            number,
            inline,
            summaries,
            findings,
            source,
        )[0] == (RequestView {
            method: ApiMethod::Post,
            path: comments_place(repo, CommentKind::Summary, number),
            body: Some(review_text(findings, source)),
        }),
{
    let plan = review_plan(repo, number, inline, summaries, findings, source);
    let last = deletions(repo, CommentKind::Inline, inline);
    let at = plan.len() - last.len() + k;
    assert(plan[at] == last[k]);
}

// ---------------------------------------------------------------------------
// Errors
// ---------------------------------------------------------------------------

proof fn lemma_split_joined(pieces: Seq<Seq<char>>, sep: char)
    requires
        pieces.len() > 0,
        forall|i: int| 0 <= i < pieces.len() ==> !(#[trigger] pieces[i]).contains(sep),
    ensures
        split_text(joined(pieces, seq![sep]), sep) == pieces,
    decreases pieces.len(),
{
    let t = pieces.drop_last();
    let last = pieces[pieces.len() - 1];
    splitting_cuts_at_each_separator(last, Seq::empty(), sep);
    if t.len() == 0 {
        assert(joined(pieces, seq![sep]) =~= last);
        assert(pieces =~= seq![last]);
    } else {
        assert forall|i: int| 0 <= i < t.len() implies !(#[trigger] t[i]).contains(sep) by {
            assert(t[i] == pieces[i]);
        }
        lemma_split_joined(t, sep);
        let head = joined(t, seq![sep]);
        splitting_cuts_at_each_separator(head, last, sep);
        assert(joined(pieces, seq![sep]) =~= head.push(sep) + last);
        assert(pieces =~= t + seq![last]);
    }
}

proof fn lemma_lines_have_no_line_feed(s: Seq<char>, i: int)
    requires
        0 <= i < lines_of(s).len(),
    ensures
        !lines_of(s)[i].contains('\n'),
{
    lemma_split_nonempty(s, '\n');
    let pieces = split_text(s, '\n');
    lemma_pieces_have_no_separator(s, '\n', i);
    let line = lines_of(s)[i];
    assert forall|k: int| 0 <= k < line.len() implies line[k] != '\n' by {
        assert(line[k] == pieces[i][k]);
        assert(pieces[i].contains(pieces[i][k]));
    }
}

proof fn lemma_pieces_have_no_separator(s: Seq<char>, sep: char, i: int)
    requires
        0 <= i < split_text(s, sep).len(),
    ensures
        !split_text(s, sep)[i].contains(sep),
    decreases s.len(),
{
    if s.len() > 0 {
        lemma_split_nonempty(s.drop_last(), sep);
        let before = split_text(s.drop_last(), sep);
        if i < before.len() {
            lemma_pieces_have_no_separator(s.drop_last(), sep, i);
        }
    }
}

/// Where a line of an error names the authorization header, that line is hidden, and every other line
/// that does, and all the rest are shown as they are; an error without such a line stays whole.
pub proof fn lines_with_the_header_are_hidden(error: Seq<char>, i: int)
    requires
        0 <= i < lines_of(error).len(),
    ensures
        (forall|k: int|
            0 <= k < lines_of(error).len() ==> !contains_text(
                lower_text(#[trigger] lines_of(error)[k]),
                "authorization:"@,
            )) ==> redacted(error, Seq::empty()) == error,
        !(forall|k: int|
            0 <= k < lines_of(error).len() ==> !contains_text(
                lower_text(#[trigger] lines_of(error)[k]),
                "authorization:"@,
            )) ==> {
            let shown = split_text(redacted(error, Seq::empty()), '\n');
            &&& shown.len() == lines_of(error).len()
            &&& contains_text(lower_text(lines_of(error)[i]), "authorization:"@) ==> shown[i]
                == REDACTED@
            &&& !contains_text(lower_text(lines_of(error)[i]), "authorization:"@) ==> shown[i]
                == lines_of(error)[i]
        },
{
    let lines = lines_of(error);
    if any_names_authorization(lines) {
        let k = choose|k: int| 0 <= k < lines.len() && names_authorization(#[trigger] lines[k]);
        assert(contains_text(lower_text(lines_of(error)[k]), "authorization:"@));
        let pieces = lines.map_values(|l: Seq<char>| shown_line(l));
        assert forall|k: int| 0 <= k < pieces.len() implies !(#[trigger] pieces[k]).contains(
            '\n',
        ) by {
            lemma_lines_have_no_line_feed(error, k);
            reveal_strlit("<redacted>");
        }
        reveal_strlit("\n");
        assert("\n"@ =~= seq!['\n']);
        lemma_split_joined(pieces, '\n');
    } else {
        assert forall|k: int| 0 <= k < lines.len() implies !contains_text(
            lower_text(#[trigger] lines_of(error)[k]),
            "authorization:"@,
        ) by {
            assert(!names_authorization(lines[k]));
        }
    }
}

/// A file directly below the checkout is seen by its name alone, and one that is not below it as it
/// is.
pub proof fn files_are_seen_from_the_checkout(checkout: Seq<char>, name: Seq<char>, file: Seq<char>)
    requires
        checkout.len() > 0,
        plain_name(name),
        !path_parts(checkout).is_prefix_of(path_parts(file)),
    ensures
        seen_from_checkout(checkout.push('/') + name, checkout) == name,
        seen_from_checkout(file, checkout) == file,
{
    crate::paths::components_are_read_piece_by_piece(checkout, name);
    let parts = path_parts(checkout);
    let whole = parts.push(PartView::Name(name));
    assert(parts.is_prefix_of(whole)) by {
        assert(parts =~= whole.subrange(0, parts.len() as int));
    }
    let rest = whole.skip(parts.len() as int);
    assert(rest =~= seq![PartView::Name(name)]);
    let texts = rest.map_values(|p: PartView| crate::paths::part_text(p));
    assert(texts =~= seq![name]);
    crate::text_laws::pieces_are_joined_in_order(texts, texts, name, "/"@);
}

// ---------------------------------------------------------------------------
// Programs
// ---------------------------------------------------------------------------

/// The scanner is run on the checkout, limited to the listed files where there is a list, with each
/// glob excluded, and answers in JSON.
pub proof fn the_scanner_is_told_everything(checkout: Seq<char>, list: Seq<char>, i: int)
    requires
        0 <= i < excluded_globs().len(),
    ensures
        ({
            let whole = scanner_arguments(checkout, None);
            let part = scanner_arguments(checkout, Some(list));
            let n = excluded_globs().len() as int;
            &&& whole[0] == checkout && part[0] == checkout
            &&& part[1] == "--changed-files-from"@ && part[2] == list
            &&& whole[1 + 2 * i] == "--exclude"@ && whole[2 + 2 * i] == excluded_globs()[i]
            &&& part[3 + 2 * i] == "--exclude"@ && part[4 + 2 * i] == excluded_globs()[i]
            &&& whole.len() == 3 + 2 * n && part.len() == 5 + 2 * n
            &&& whole[1 + 2 * n] == "--format"@ && whole[2 + 2 * n] == "json"@
            &&& part[3 + 2 * n] == "--format"@ && part[4 + 2 * n] == "json"@
        }),
{
    assert(excluded_globs().len() == 8);
    every_glob_is_excluded(excluded_globs(), 8, i);
}

/// A head is cloned without its files, fetched and checked out. The token stands in the environment of
/// each call, under the host's key, and among the arguments of none: with another token the arguments
/// are the same.
pub proof fn tokens_are_not_among_the_arguments(
    target: CloneTarget,
    head_sha: Seq<char>,
    token: Seq<char>,
    other: Seq<char>,
    checkout: Seq<char>,
    i: int,
)
    requires
        0 <= i < clone_commands(target, head_sha, token, checkout).len(),
    ensures
        ({
            let calls = clone_commands(target, head_sha, token, checkout);
            &&& calls.len() == 3
            &&& calls[i].args == clone_commands(target, head_sha, other, checkout)[i].args
            &&& calls[i].env.contains(("GIT_CONFIG_KEY_0"@, target.auth_header_key@))
            &&& calls[i].env.contains(("GIT_CONFIG_VALUE_0"@, auth_header(token)))
            &&& calls[i].env.contains(("GIT_TERMINAL_PROMPT"@, "0"@))
            &&& calls[0].args.contains(target.url@) && calls[0].args.last() == checkout
            &&& calls[1].args.contains(head_sha)
            &&& calls[2].args.last() == head_sha
            &&& !calls[0].in_checkout && calls[1].in_checkout && calls[2].in_checkout
        }),
{
    let calls = clone_commands(target, head_sha, token, checkout);
    assert(calls[i].env[2] == ("GIT_CONFIG_KEY_0"@, target.auth_header_key@));
    assert(calls[i].env[3] == ("GIT_CONFIG_VALUE_0"@, auth_header(token)));
    assert(calls[i].env[0] == ("GIT_TERMINAL_PROMPT"@, "0"@));
    assert(calls[0].args[3] == target.url@);
    assert(calls[1].args[2] == head_sha);
}

/// A stored job stands for the delivery that it was made of: the pull request, its head and its
/// repository are those of the job.
pub proof fn stored_jobs_stand_for_their_delivery(j: JobView)
    ensures
        ({
            let d = stored_delivery(j);
            &&& d.delivery == j.delivery_id
            &&& d.installation_id == j.installation_id
            &&& d.key == job_key(j)
            &&& d.key.repository == j.repository && d.key.number == j.pull_request
            &&& d.pull_request matches Some(p) && p.number == j.pull_request && p.sha == j.head_sha
                && p.repo.clone_url == j.clone_url
            &&& d.repository matches Some(r) && r.full_name == j.repository && r.clone_url
                == j.clone_url
        }),
{
}

/// The address at which a repository is shown is that from which it is cloned, without the ending.
pub proof fn repositories_are_shown_without_the_ending(url: Seq<char>)
    ensures
        web_address(url + ".git"@) == url,
        !".git"@.is_suffix_of(url) ==> web_address(url) == url,
{
    let s = url + ".git"@;
    assert(".git"@.is_suffix_of(s)) by {
        assert(".git"@ =~= s.subrange(s.len() - ".git"@.len(), s.len() as int));
    }
    assert(s.take(s.len() - ".git"@.len()) =~= url);
}

// ---------------------------------------------------------------------------
// Names
// ---------------------------------------------------------------------------

/// A repository is named by an owner and a name with one slash between them; with fewer or more
/// pieces, or with one that cannot be a name, it is refused.
pub proof fn repositories_are_named_by_owner_and_name(
    owner: Seq<char>,
    name: Seq<char>,
    more: Seq<char>,
)
    requires
        !owner.contains('/'),
        !name.contains('/'),
    ensures
        repository_objection(owner.push('/') + name) is None <==> repo_segment(owner)
            && repo_segment(name),
        repository_objection(owner) is Some,
        repository_objection((owner.push('/') + name).push('/') + more) is Some,
{
    splitting_cuts_at_each_separator(owner, name, '/');
    splitting_cuts_at_each_separator(name, Seq::empty(), '/');
    splitting_cuts_at_each_separator(owner, Seq::empty(), '/');
    splitting_cuts_at_each_separator(owner.push('/') + name, more, '/');
    lemma_split_nonempty(more, '/');
    let both = seq![owner] + seq![name];
    assert(both.len() == 2 && both[0] == owner && both[1] == name);
}

/// A path stays below the root of a repository where each of its pieces is a name: pieces behind a
/// slash are looked at one by one.
pub proof fn paths_below_a_repository_are_names(dir: Seq<char>, name: Seq<char>)
    requires
        !name.contains('/'),
    ensures
        repo_relative_path(dir.push('/') + name) <==> repo_relative_path(dir) && name.len() > 0
            && name != "."@ && name != ".."@,
        repo_relative_path(name) <==> name.len() > 0 && name != "."@ && name != ".."@,
{
    splitting_cuts_at_each_separator(dir, name, '/');
    splitting_cuts_at_each_separator(name, Seq::empty(), '/');
    let x = split_text(dir, '/');
    let z = split_text(dir.push('/') + name, '/');
    assert(z =~= x.push(name));
    if repo_relative_path(dir.push('/') + name) {
        assert(z[x.len() as int] == name);
        assert forall|i: int| 0 <= i < x.len() implies (#[trigger] x[i]).len() > 0 && x[i] != "."@
            && x[i] != ".."@ by {
            assert(z[i] == x[i]);
        }
    }
    if repo_relative_path(dir) && name.len() > 0 && name != "."@ && name != ".."@ {
        assert forall|i: int| 0 <= i < z.len() implies (#[trigger] z[i]).len() > 0 && z[i] != "."@
            && z[i] != ".."@ by {
            if i < x.len() {
                assert(z[i] == x[i]);
            }
        }
    }
    if repo_relative_path(name) {
        assert(split_text(name, '/')[0] == name);
    }
}

/// A store is kept in a file: a path that ends in a name is taken, unless a step upwards leads through
/// it, wherever that stands.
pub proof fn stores_are_kept_in_files(dir: Seq<char>, name: Seq<char>)
    requires
        dir.len() > 0,
        plain_name(name),
    ensures
        store_path_error(name) is None,
        store_path_error(dir.push('/') + name) is None <==> forall|i: int|
            0 <= i < path_parts(dir).len() ==> !(#[trigger] path_parts(dir)[i] is Current)
                && !(path_parts(dir)[i] is Parent),
        store_path_error(dir.push('/') + ".."@) is Some,
{
    crate::paths::components_are_read_piece_by_piece(dir, name);
    let parts = path_parts(dir);
    let whole = parts.push(PartView::Name(name));
    let up = parts.push(PartView::Parent);
    assert(up[parts.len() as int] is Parent);
    if forall|i: int|
        0 <= i < parts.len() ==> !(#[trigger] parts[i] is Current) && !(parts[i] is Parent) {
        assert forall|i: int| 0 <= i < whole.len() implies !(#[trigger] whole[i] is Current)
            && !(whole[i] is Parent) by {
            if i < parts.len() {
                assert(whole[i] == parts[i]);
            }
        }
    } else {
        let i = choose|i: int|
            0 <= i < parts.len() && ((#[trigger] parts[i] is Current) || parts[i] is Parent);
        assert(whole[i] == parts[i]);
    }
    let one = seq![PartView::Name(name)];
    assert forall|i: int| 0 <= i < one.len() implies !(#[trigger] one[i] is Current)
        && !(one[i] is Parent) by {}
}

/// A comment is the app's own exactly where it carries the marker, at whatever place in its text, and
/// was made by that app.
pub proof fn own_comments_carry_the_marker(comment: IssueComment, app_id: u64)
    ensures
        owned_marker(comment, app_id) <==> comment.body is Some && contains_text(
            comment.body.unwrap()@,
            COMMENT_MARKER@,
        ) && comment.performed_via_github_app is Some
            && comment.performed_via_github_app.unwrap().id == app_id,
{
}

} // verus!
