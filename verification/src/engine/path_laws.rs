//! Where the files of results lie: paths keep their names, lose the root they lie under, and are
//! refused where they lie under none.

use crate::document::Node;
use crate::engine::artifact::{
    absolute_names, decoded_uri, longest_root, stable_relative, stable_under, stable_under_roots,
    unescaped, uri_path, windows_absolute,
};
use crate::engine::codeql_diff::{artifact_paths, base_from, roots_of, several_places, ResolverView};
use crate::engine::scan_laws::the_longest_root_counts;
use crate::paths::{
    absolute, components_are_read_piece_by_piece, joined, normal_names, path_parts, piece_parts,
    plain_name, rooted, walked, PartView,
};
use crate::text::{contains_text, lemma_split_nonempty, split_text};
use crate::text_laws::splitting_cuts_at_each_separator;
use vstd::prelude::*;
use vstd::utf8::{
    char_u32_cast, encode_scalar, encode_utf8, encode_utf8_decode_utf8,
    encode_utf8_valid_utf8,
};

verus! {

// ---------------------------------------------------------------------------
// Names
// ---------------------------------------------------------------------------

/// Every name is a plain one.
pub open spec fn all_plain_names(names: Seq<Seq<char>>) -> bool {
    forall|i: int| 0 <= i < names.len() ==> plain_name(#[trigger] names[i])
}

/// The components that names are.
pub open spec fn as_parts(names: Seq<Seq<char>>) -> Seq<PartView> {
    names.map_values(|n: Seq<char>| PartView::Name(n))
}

proof fn lemma_joined_parts(names: Seq<Seq<char>>)
    requires
        names.len() > 0,
        all_plain_names(names),
    ensures
        path_parts(joined(names, "/"@)) == as_parts(names),
        joined(names, "/"@).len() > 0,
        joined(names, "/"@)[0] == names[0][0],
        joined(names, "/"@)[0] != '/',
        split_text(joined(names, "/"@), '/')[0] == names[0],
    decreases names.len(),
{
    reveal_strlit("/");
    assert("/"@ =~= seq!['/']);
    assert(plain_name(names[0]));
    assert(names[0].contains(names[0][0]));
    let t = names.drop_last();
    let last = names[names.len() - 1];
    assert(plain_name(last));
    if t.len() == 0 {
        components_are_read_piece_by_piece(last, last);
        splitting_cuts_at_each_separator(last, Seq::empty(), '/');
        assert(as_parts(names) =~= seq![PartView::Name(last)]);
    } else {
        assert forall|i: int| 0 <= i < t.len() implies plain_name(#[trigger] t[i]) by {
            assert(plain_name(names[i]));
        }
        lemma_joined_parts(t);
        let dir = joined(t, "/"@);
        components_are_read_piece_by_piece(dir, last);
        splitting_cuts_at_each_separator(dir, last, '/');
        lemma_split_nonempty(dir, '/');
        assert(joined(names, "/"@) =~= dir.push('/') + last);
        assert(as_parts(names) =~= as_parts(t).push(PartView::Name(last)));
    }
}

proof fn lemma_behind_nothing(pieces: Seq<Seq<char>>, n: int)
    requires
        0 <= n <= pieces.len(),
        n > 0 ==> pieces[0] != "."@,
    ensures
        piece_parts(seq![Seq::<char>::empty()] + pieces, n + 1) == piece_parts(pieces, n),
    decreases n,
{
    let all = seq![Seq::<char>::empty()] + pieces;
    if n > 0 {
        lemma_behind_nothing(pieces, n - 1);
        assert(all[n] == pieces[n - 1]);
    } else {
        assert(all[0].len() == 0);
        assert(piece_parts(all, 0) == piece_parts(pieces, 0));
    }
}

proof fn lemma_rooted_parts(names: Seq<Seq<char>>)
    requires
        all_plain_names(names),
    ensures
        path_parts(rooted(names)) == seq![PartView::Root] + as_parts(names),
        absolute(rooted(names)),
{
    reveal_strlit("/");
    assert("/"@ =~= seq!['/']);
    let path = rooted(names);
    if names.len() == 0 {
        let name = seq!['a'];
        assert(plain_name(name)) by {
            reveal_strlit(".");
            reveal_strlit("..");
            assert("."@[0] == '.');
            assert(".."@.len() == 2);
            assert(name[0] == 'a');
        }
        components_are_read_piece_by_piece(name, name);
        assert(path =~= "/"@);
        assert(seq![PartView::Root] + as_parts(names) =~= seq![PartView::Root]);
    } else {
        let inner = joined(names, "/"@);
        lemma_joined_parts(names);
        let none = Seq::<char>::empty();
        splitting_cuts_at_each_separator(none, inner, '/');
        assert(path =~= none.push('/') + inner);
        let pieces = split_text(inner, '/');
        lemma_split_nonempty(inner, '/');
        assert(plain_name(names[0]));
        lemma_behind_nothing(pieces, pieces.len() as int);
        assert((seq![none] + pieces).len() == pieces.len() + 1);
    }
}

proof fn lemma_walked_names(parts: Seq<PartView>, names: Seq<Seq<char>>, from: int, n: int)
    requires
        0 <= from <= 1,
        parts.len() == from + names.len(),
        from == 1 ==> parts[0] is Root,
        forall|i: int| 0 <= i < names.len() ==> parts[from + i] == PartView::Name(#[trigger] names[i]),
        0 <= n <= names.len(),
    ensures
        walked(parts, from + n) == Some(names.take(n)),
    decreases n,
{
    if n > 0 {
        lemma_walked_names(parts, names, from, n - 1);
        assert(parts[from + (n - 1)] == PartView::Name(names[n - 1]));
        assert(names.take(n) =~= names.take(n - 1).push(names[n - 1]));
    } else {
        assert(names.take(0) =~= Seq::<Seq<char>>::empty());
        if from == 1 {
            assert(walked(parts, 0) == Some(Seq::<Seq<char>>::empty()));
        }
    }
}

/// The names that a path is made of lead to the place that it names, whether it begins at the root or
/// not.
pub proof fn paths_lead_through_their_names(names: Seq<Seq<char>>)
    requires
        all_plain_names(names),
    ensures
        names.len() > 0 ==> normal_names(joined(names, "/"@)) == Some(names),
        normal_names(rooted(names)) == Some(names),
{
    assert(names.take(names.len() as int) =~= names);
    if names.len() > 0 {
        lemma_joined_parts(names);
        lemma_walked_names(as_parts(names), names, 0, names.len() as int);
    }
    lemma_rooted_parts(names);
    let parts = seq![PartView::Root] + as_parts(names);
    assert forall|i: int| 0 <= i < names.len() implies parts[1 + i] == PartView::Name(
        #[trigger] names[i],
    ) by {}
    lemma_walked_names(parts, names, 1, names.len() as int);
}

// ---------------------------------------------------------------------------
// Roots
// ---------------------------------------------------------------------------

/// A relative path of plain names is kept, and one under a root loses the root; under no root, or at
/// the root itself, it is refused.
pub proof fn files_lose_the_root_they_lie_under(
    root: Seq<Seq<char>>,
    names: Seq<Seq<char>>,
    other: Seq<Seq<char>>,
)
    requires
        all_plain_names(root),
        all_plain_names(names),
        names.len() > 0,
        all_plain_names(other),
        !root.is_prefix_of(other),
    ensures
        stable_relative(joined(names, "/"@)) == Ok::<_, Seq<char>>(joined(names, "/"@)),
        stable_under(rooted(root + names), root) == Ok::<_, Seq<char>>(joined(names, "/"@)),
        stable_under(rooted(root), root) is Err,
        stable_under(rooted(other), root) is Err,
        stable_relative(rooted(names)) is Err,
        stable_under(joined(names, "/"@), root) is Err,
{
    lemma_joined_parts(names);
    let whole = root + names;
    assert(all_plain_names(whole)) by {
        assert forall|i: int| 0 <= i < whole.len() implies plain_name(#[trigger] whole[i]) by {
            if i < root.len() {
                assert(plain_name(root[i]));
            } else {
                assert(plain_name(names[i - root.len()]));
            }
        }
    }
    paths_lead_through_their_names(names);
    paths_lead_through_their_names(whole);
    paths_lead_through_their_names(root);
    paths_lead_through_their_names(other);
    lemma_rooted_parts(whole);
    lemma_rooted_parts(root);
    lemma_rooted_parts(other);
    lemma_rooted_parts(names);
    assert(root =~= whole.subrange(0, root.len() as int));
    assert(whole.skip(root.len() as int) =~= names);
    assert(root =~= root.subrange(0, root.len() as int));
    assert(root.skip(root.len() as int) =~= Seq::<Seq<char>>::empty());
}

/// Of several roots that a file lies under the longest is taken away; a file under none is refused.
pub proof fn files_lose_their_longest_root(
    roots: Seq<Seq<Seq<char>>>,
    k: int,
    names: Seq<Seq<char>>,
    other: Seq<Seq<char>>,
)
    requires
        0 <= k < roots.len(),
        all_plain_names(roots[k] + names),
        names.len() > 0,
        forall|i: int|
            0 <= i < roots.len() && (#[trigger] roots[i]).is_prefix_of(roots[k] + names)
                ==> roots[i].len() <= roots[k].len(),
        all_plain_names(other),
        forall|i: int| 0 <= i < roots.len() ==> !(#[trigger] roots[i]).is_prefix_of(other),
    ensures
        stable_under_roots(rooted(roots[k] + names), roots) == Ok::<_, Seq<char>>(
            joined(names, "/"@),
        ),
        stable_under_roots(rooted(other), roots) is Err,
{
    let whole = roots[k] + names;
    paths_lead_through_their_names(whole);
    paths_lead_through_their_names(other);
    lemma_rooted_parts(whole);
    lemma_rooted_parts(other);
    the_longest_root_counts(roots, whole, roots.len() as int);
    the_longest_root_counts(roots, other, roots.len() as int);
    assert(roots[k].is_prefix_of(whole)) by {
        assert(roots[k] =~= whole.subrange(0, roots[k].len() as int));
    }
    if let Some(root) = longest_root(roots, whole, roots.len() as int) {
        assert(roots[k].len() <= root.len());
        let i = choose|i: int| 0 <= i < roots.len() && #[trigger] roots[i] == root;
        assert(roots[i].is_prefix_of(whole));
        assert(root.len() == roots[k].len());
        assert(whole.skip(root.len() as int) =~= names);
    }
    if let Some(root) = longest_root(roots, other, roots.len() as int) {
        let i = choose|i: int| 0 <= i < roots.len() && #[trigger] roots[i] == root;
        assert(roots[i].is_prefix_of(other));
    }
}

/// The bases of a run are several exactly where two of them stand for different places.
pub proof fn bases_are_several_where_they_differ(
    bases: Seq<(Seq<char>, Seq<Seq<char>>)>,
    i: int,
    j: int,
)
    requires
        0 <= i < bases.len(),
        0 <= j < bases.len(),
    ensures
        bases[i].1 != bases[j].1 ==> several_places(bases),
        (forall|k: int, m: int|
            0 <= k < bases.len() && 0 <= m < bases.len() ==> (#[trigger] bases[k]).1 == (
            #[trigger] bases[m]).1) ==> !several_places(bases),
{
    if bases[i].1 != bases[j].1 {
        if bases[i].1 != bases[0].1 {
            assert(several_places(bases));
        } else {
            assert(bases[j].1 != bases[0].1);
        }
    }
}

// ---------------------------------------------------------------------------
// Addresses
// ---------------------------------------------------------------------------

proof fn lemma_scalar_without_percent(c: char)
    requires
        c != '%',
    ensures
        !encode_scalar(c as u32).contains(0x25u8),
{
    let u = c as u32;
    if u == 0x25 {
        char_u32_cast(c, 0x25);
        char_u32_cast('%', 0x25);
    }
    assert(u <= 0x7f ==> (u & 0x7f) as u8 == u) by (bit_vector);
    assert(0xC0u8 | ((u >> 6) & 0x1F) as u8 >= 0x80) by (bit_vector);
    assert(0xE0u8 | ((u >> 12) & 0x0F) as u8 >= 0x80) by (bit_vector);
    assert(0xF0u8 | ((u >> 18) & 0x7) as u8 >= 0x80) by (bit_vector);
    assert(0x80u8 | (u & 0x3F) as u8 >= 0x80) by (bit_vector);
    assert(0x80u8 | ((u >> 6) & 0x3F) as u8 >= 0x80) by (bit_vector);
    assert(0x80u8 | ((u >> 12) & 0x3F) as u8 >= 0x80) by (bit_vector);
}

proof fn lemma_encode_without_percent(s: Seq<char>)
    requires
        !s.contains('%'),
    ensures
        !encode_utf8(s).contains(0x25u8),
    decreases s.len(),
{
    if s.len() > 0 {
        let t = s.drop_first();
        assert(!t.contains('%')) by {
            assert forall|i: int| 0 <= i < t.len() implies t[i] != '%' by {
                assert(t[i] == s[i + 1]);
            }
        }
        lemma_encode_without_percent(t);
        assert(s[0] != '%');
        lemma_scalar_without_percent(s[0]);
        let a = encode_scalar(s[0] as u32);
        let b = encode_utf8(t);
        assert forall|i: int| 0 <= i < (a + b).len() implies (a + b)[i] != 0x25u8 by {
            if i < a.len() {
                assert(a.contains(a[i]));
            } else {
                assert(b.contains(b[i - a.len()]));
            }
        }
    }
}

proof fn lemma_nothing_escaped(bytes: Seq<u8>, i: int)
    requires
        0 <= i <= bytes.len(),
        !bytes.contains(0x25u8),
    ensures
        unescaped(bytes, i) == Some(bytes.skip(i)),
    decreases bytes.len() - i,
{
    if i < bytes.len() {
        assert(bytes.contains(bytes[i]));
        lemma_nothing_escaped(bytes, i + 1);
        assert(seq![bytes[i]] + bytes.skip(i + 1) =~= bytes.skip(i));
    } else {
        assert(bytes.skip(i) =~= Seq::<u8>::empty());
    }
}

/// An address without escapes is read as it stands: a relative one is its path, and one of a local
/// file is the path behind its scheme and host. Any other scheme is refused.
pub proof fn addresses_without_escapes_are_read_as_they_stand(path: Seq<char>, uri: Seq<char>)
    requires
        !path.contains('%'),
        !windows_absolute(path),
        !uri.contains('%'),
        contains_text(uri, "://"@),
        !"file://"@.is_prefix_of(uri),
    ensures
        decoded_uri(path) == Ok::<_, Seq<char>>(path),
        !"file://"@.is_prefix_of(path) && !contains_text(path, "://"@) ==> uri_path(path) == Ok::<
            _,
            Seq<char>,
        >(path),
        path.len() > 0 && path[0] == '/' ==> uri_path("file://"@ + path) == Ok::<_, Seq<char>>(path),
        path.len() > 0 && path[0] == '/' ==> uri_path("file://localhost"@ + path) == Ok::<
            _,
            Seq<char>,
        >(path),
        uri_path(uri) is Err,
{
    reveal_strlit("file://");
    reveal_strlit("file://localhost");
    reveal_strlit("localhost/");
    reveal_strlit("/");
    lemma_decoded(path);
    lemma_decoded(uri);
    if path.len() > 0 && path[0] == '/' {
        let local = "file://"@ + path;
        assert(!local.contains('%')) by {
            assert forall|i: int| 0 <= i < local.len() implies local[i] != '%' by {
                if i >= 7 {
                    assert(local[i] == path[i - 7]);
                    assert(path.contains(path[i - 7]));
                }
            }
        }
        lemma_decoded(local);
        assert("file://"@.is_prefix_of(local)) by {
            assert("file://"@ =~= local.subrange(0, 7));
        }
        assert(local.skip(7) =~= path);
        assert("/"@.is_prefix_of(path)) by {
            assert("/"@ =~= path.subrange(0, 1));
        }
        let hosted = "file://localhost"@ + path;
        assert(!hosted.contains('%')) by {
            assert forall|i: int| 0 <= i < hosted.len() implies hosted[i] != '%' by {
                if i >= 16 {
                    assert(hosted[i] == path[i - 16]);
                    assert(path.contains(path[i - 16]));
                }
            }
        }
        lemma_decoded(hosted);
        assert("file://"@.is_prefix_of(hosted)) by {
            assert("file://"@ =~= hosted.subrange(0, 7));
        }
        let rest = hosted.skip(7);
        assert(rest[0] == 'l');
        assert(!"/"@.is_prefix_of(rest)) by {
            if "/"@.is_prefix_of(rest) {
                assert("/"@[0] == rest[0]);
            }
        }
        assert("localhost/"@.is_prefix_of(rest)) by {
            assert("localhost/"@ =~= rest.subrange(0, 10));
        }
        assert("/"@ + rest.skip(10) =~= path);
    }
}

proof fn lemma_decoded(s: Seq<char>)
    requires
        !s.contains('%'),
    ensures
        decoded_uri(s) == Ok::<_, Seq<char>>(s),
{
    let bytes = encode_utf8(s);
    lemma_encode_without_percent(s);
    lemma_nothing_escaped(bytes, 0);
    assert(bytes.skip(0) =~= bytes);
    encode_utf8_valid_utf8(s);
    encode_utf8_decode_utf8(s);
}

// ---------------------------------------------------------------------------
// Files of results
// ---------------------------------------------------------------------------

/// The places where sources stood are all kept, each once, and no others are, where all are proper;
/// otherwise none is.
pub proof fn every_source_root_is_kept(source_roots: Seq<Seq<char>>, n: int, names: Seq<Seq<char>>)
    requires
        0 <= n <= source_roots.len(),
    ensures
        (roots_of(source_roots, n) is Ok) <==> forall|i: int|
            0 <= i < n ==> absolute_names(#[trigger] source_roots[i]) is Ok,
        roots_of(source_roots, n) matches Ok(found) ==> found.no_duplicates() && (found.contains(
            names,
        ) <==> exists|i: int|
            0 <= i < n && absolute_names(#[trigger] source_roots[i]) == Ok::<_, Seq<char>>(names)),
    decreases n,
{
    if n > 0 {
        every_source_root_is_kept(source_roots, n - 1, names);
        if let Ok(before) = roots_of(source_roots, n - 1) {
            if let Ok(here) = absolute_names(source_roots[n - 1]) {
                let now = roots_of(source_roots, n)->Ok_0;
                assert forall|i: int| 0 <= i < n implies absolute_names(
                    #[trigger] source_roots[i],
                ) is Ok by {}
                if now.contains(names) {
                    let k = choose|k: int| 0 <= k < now.len() && now[k] == names;
                    if k < before.len() {
                        assert(before[k] == names);
                        assert(before.contains(names));
                    } else {
                        assert(absolute_names(source_roots[n - 1]) == Ok::<_, Seq<char>>(names));
                    }
                }
                if before.contains(names) {
                    let k = choose|k: int| 0 <= k < before.len() && before[k] == names;
                    assert(now[k] == names);
                }
                if here == names && !before.contains(names) {
                    assert(now[before.len() as int] == names);
                }
                if exists|i: int|
                    0 <= i < n && absolute_names(#[trigger] source_roots[i]) == Ok::<_, Seq<char>>(
                        names,
                    ) {
                    let i = choose|i: int|
                        0 <= i < n && absolute_names(#[trigger] source_roots[i]) == Ok::<
                            _,
                            Seq<char>,
                        >(names);
                    if i < n - 1 {
                        assert(absolute_names(source_roots[i]) == Ok::<_, Seq<char>>(names));
                    }
                }
            } else {
                assert(!(absolute_names(source_roots[n - 1]) is Ok));
            }
        } else {
            let i = choose|i: int|
                0 <= i < n - 1 && !(absolute_names(#[trigger] source_roots[i]) is Ok);
            assert(!(absolute_names(source_roots[i]) is Ok));
        }
    }
}

/// A file that a result names relative to the repository is shown by its path, with or without a base
/// that is known; one that it names in full under its base, or under the one source root, is shown
/// without it.
pub proof fn files_are_shown_below_the_repository(
    resolver: ResolverView,
    artifact: Node,
    uri: Seq<char>,
    root: Seq<Seq<char>>,
    names: Seq<Seq<char>>,
)
    requires
        names.len() > 0,
        all_plain_names(root),
        all_plain_names(names),
        artifact.field_text("uri"@) == Some(uri),
    ensures
        uri_path(uri) == Ok::<_, Seq<char>>(joined(names, "/"@)) && artifact.field(
            "uriBaseId"@,
        ) is None && resolver.source_roots.len() <= 1 ==> (artifact_paths(resolver, artifact)
            matches Ok(p) && p.0 == joined(names, "/"@)),
        uri_path(uri) == Ok::<_, Seq<char>>(joined(names, "/"@)) ==> (artifact.field("uriBaseId"@)
            matches Some(Node::Text(id)) ==> (base_from(resolver.uri_bases, id@, 0) is Some ==> (
        artifact_paths(resolver, artifact) matches Ok(p) && p.0 == joined(names, "/"@)))),
        uri_path(uri) == Ok::<_, Seq<char>>(rooted(root + names)) ==> (artifact.field("uriBaseId"@)
            matches Some(Node::Text(id)) ==> (base_from(resolver.uri_bases, id@, 0) == Some(root)
            ==> (artifact_paths(resolver, artifact) matches Ok(p) && p.0 == joined(names, "/"@)))),
        uri_path(uri) == Ok::<_, Seq<char>>(rooted(root + names)) && artifact.field(
            "uriBaseId"@,
        ) is None && resolver.source_roots == seq![root] ==> (artifact_paths(resolver, artifact)
            matches Ok(p) && p.0 == joined(names, "/"@)),
{
    lemma_joined_parts(names);
    let whole = root + names;
    assert(all_plain_names(whole)) by {
        assert forall|i: int| 0 <= i < whole.len() implies plain_name(#[trigger] whole[i]) by {
            if i < root.len() {
                assert(plain_name(root[i]));
            } else {
                assert(plain_name(names[i - root.len()]));
            }
        }
    }
    paths_lead_through_their_names(names);
    paths_lead_through_their_names(whole);
    lemma_rooted_parts(whole);
    assert(root =~= whole.subrange(0, root.len() as int));
    assert(whole.skip(root.len() as int) =~= names);
    the_longest_root_counts(seq![root], whole, 1);
    assert(seq![root][0] == root);
}

} // verus!
