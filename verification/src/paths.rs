//! Slash-separated paths: their components, normal forms and relations.

use crate::text::{
    chars_of, lemma_split_nonempty, lemma_texts_push, owned, same, split, split_text, texts,
};
use vstd::prelude::*;

verus! {

/// One component of a path.
#[derive(Debug, PartialEq, Eq)]
pub enum PathPart {
    /// The leading slash of an absolute path.
    Root,
    /// A leading `.`; elsewhere it names nothing.
    Current,
    /// `..`
    Parent,
    Name(String),
}

/// What a [`PathPart`] stands for.
pub enum PartView {
    Root,
    Current,
    Parent,
    Name(Seq<char>),
}

impl View for PathPart {
    type V = PartView;

    open spec fn view(&self) -> PartView {
        match self {
            PathPart::Root => PartView::Root,
            PathPart::Current => PartView::Current,
            PathPart::Parent => PartView::Parent,
            PathPart::Name(s) => PartView::Name(s@),
        }
    }
}

pub open spec fn part_views(v: Seq<PathPart>) -> Seq<PartView> {
    v.map_values(|p: PathPart| p@)
}

/// The path begins at the root.
pub open spec fn absolute(path: Seq<char>) -> bool {
    path.len() > 0 && path[0] == '/'
}

/// The components of the first `n` pieces between slashes: empty pieces name nothing, and neither
/// does a `.` that does not begin the path.
pub open spec fn piece_parts(pieces: Seq<Seq<char>>, n: int) -> Seq<PartView>
    decreases n,
{
    if n <= 0 {
        Seq::empty()
    } else {
        let before = piece_parts(pieces, n - 1);
        let p = pieces[n - 1];
        if p.len() == 0 {
            before
        } else if p == "."@ {
            if n == 1 {
                before.push(PartView::Current)
            } else {
                before
            }
        } else if p == ".."@ {
            before.push(PartView::Parent)
        } else {
            before.push(PartView::Name(p))
        }
    }
}

/// The components of a path.
pub open spec fn path_parts(path: Seq<char>) -> Seq<PartView> {
    let pieces = split_text(path, '/');
    let parts = piece_parts(pieces, pieces.len() as int);
    if absolute(path) {
        seq![PartView::Root] + parts
    } else {
        parts
    }
}

/// Whether the path begins at the root.
pub fn is_absolute(path: &str) -> (r: bool)
    ensures
        r == absolute(path@),
{
    let c = chars_of(path);
    c.len() > 0 && c[0] == '/'
}

proof fn lemma_part_views_push(v: Seq<PathPart>, p: PathPart)
    ensures
        part_views(v.push(p)) == part_views(v).push(p@),
{
    assert(part_views(v.push(p)) =~= part_views(v).push(p@));
}

/// The components of a path.
pub fn components(path: &str) -> (r: Vec<PathPart>)
    ensures
        part_views(r@) == path_parts(path@),
{
    let pieces = split(path, '/');
    let ghost texts_of = texts(pieces@);
    let mut r: Vec<PathPart> = Vec::new();
    let ghost lead: Seq<PartView> = if absolute(path@) {
        seq![PartView::Root]
    } else {
        Seq::empty()
    };
    if is_absolute(path) {
        r.push(PathPart::Root);
    }
    assert(part_views(r@) =~= lead);
    let mut i: usize = 0;
    while i < pieces.len()
        invariant
            i <= pieces@.len(),
            texts_of == texts(pieces@),
            part_views(r@) =~= lead + piece_parts(texts_of, i as int),
        decreases pieces@.len() - i,
    {
        let p = pieces[i].as_str();
        assert(texts_of[i as int] == p@);
        let ghost before = r@;
        if p.is_empty() {
        } else if same(p, ".") {
            if i == 0 {
                proof {
                    lemma_part_views_push(r@, PathPart::Current);
                }
                r.push(PathPart::Current);
            }
        } else if same(p, "..") {
            proof {
                lemma_part_views_push(r@, PathPart::Parent);
            }
            r.push(PathPart::Parent);
        } else {
            let name = PathPart::Name(owned(p));
            proof {
                lemma_part_views_push(r@, name);
            }
            r.push(name);
        }
        i = i + 1;
    }
    proof {
        assert(lead + piece_parts(texts_of, texts_of.len() as int) =~= path_parts(path@));
    }
    r
}

/// The last component, where it is a name.
pub open spec fn last_name(path: Seq<char>) -> Option<Seq<char>> {
    let parts = path_parts(path);
    if parts.len() > 0 {
        match parts.last() {
            PartView::Name(s) => Some(s),
            _ => None,
        }
    } else {
        None
    }
}

/// The last component of the path, where it is a name.
pub fn file_name(path: &str) -> (r: Option<String>)
    ensures
        crate::text::opt_text(r) == last_name(path@),
{
    let parts = components(path);
    let ghost views = part_views(parts@);
    if parts.len() == 0 {
        return None;
    }
    proof {
        assert(views.last() == parts@[parts@.len() - 1]@);
    }
    match &parts[parts.len() - 1] {
        PathPart::Name(s) => Some(s.clone()),
        _ => None,
    }
}

// ---------------------------------------------------------------------------
// Normal forms
// ---------------------------------------------------------------------------

/// The names that lead from a starting point to the place the first `n` components name, or
/// nothing where they climb above it.
pub open spec fn walked(parts: Seq<PartView>, n: int) -> Option<Seq<Seq<char>>>
    decreases n,
{
    if n <= 0 {
        Some(Seq::empty())
    } else {
        match walked(parts, n - 1) {
            None => None,
            Some(names) => match parts[n - 1] {
                PartView::Root => Some(names),
                PartView::Current => Some(names),
                PartView::Parent => if names.len() == 0 {
                    None
                } else {
                    Some(names.drop_last())
                },
                PartView::Name(s) => Some(names.push(s)),
            },
        }
    }
}

/// The names that lead to the place the path names, without any that are taken back.
pub open spec fn normal_names(path: Seq<char>) -> Option<Seq<Seq<char>>> {
    walked(path_parts(path), path_parts(path).len() as int)
}

proof fn lemma_walked_none(parts: Seq<PartView>, n: int, m: int)
    requires
        0 <= n <= m,
        walked(parts, n) is None,
    ensures
        walked(parts, m) is None,
    decreases m - n,
{
    if n < m {
        lemma_walked_none(parts, n, m - 1);
    }
}

/// The names that lead to the place the path names, or nothing where it climbs above its start.
pub fn normalize(path: &str) -> (r: Option<Vec<String>>)
    ensures
        match r {
            Some(names) => normal_names(path@) == Some(texts(names@)),
            None => normal_names(path@) is None,
        },
{
    let parts = components(path);
    let ghost views = part_views(parts@);
    let mut names: Vec<String> = Vec::new();
    let mut i: usize = 0;
    assert(texts(names@) =~= Seq::<Seq<char>>::empty());
    while i < parts.len()
        invariant
            i <= parts@.len(),
            views == part_views(parts@),
            views == path_parts(path@),
            walked(views, i as int) == Some(texts(names@)),
        decreases parts@.len() - i,
    {
        assert(views[i as int] == parts@[i as int]@);
        match &parts[i] {
            PathPart::Root => {},
            PathPart::Current => {},
            PathPart::Parent => {
                if names.len() == 0 {
                    proof {
                        assert(walked(views, i + 1) is None);
                        lemma_walked_none(views, i + 1, views.len() as int);
                    }
                    return None;
                }
                let ghost before = names@;
                let _ = names.pop();
                assert(texts(names@) =~= texts(before).drop_last());
            },
            PathPart::Name(s) => {
                let name = s.clone();
                proof {
                    lemma_texts_push(names@, name);
                }
                names.push(name);
            },
        }
        i = i + 1;
    }
    Some(names)
}

/// One path's components begin another's.
pub fn parts_under(path: &Vec<PathPart>, from: usize, prefix: &Vec<PathPart>) -> (r: bool)
    requires
        from <= path@.len(),
    ensures
        r == part_views(prefix@).is_prefix_of(part_views(path@).skip(from as int)),
{
    let ghost a = part_views(path@).skip(from as int);
    let ghost b = part_views(prefix@);
    let n: usize = path.len();
    if prefix.len() > n - from {
        return false;
    }
    let mut i: usize = 0;
    while i < prefix.len()
        invariant
            n == path@.len(),
            i <= prefix@.len(),
            from + prefix@.len() <= path@.len(),
            a == part_views(path@).skip(from as int),
            b == part_views(prefix@),
            forall|k: int| 0 <= k < i ==> a[k] == b[k],
        decreases prefix@.len() - i,
    {
        assert(from + i < path@.len());
        assert(a[i as int] == path@[from + i]@ && b[i as int] == prefix@[i as int]@);
        if !same_part(&path[from + i], &prefix[i]) {
            return false;
        }
        i = i + 1;
    }
    true
}

/// Whether two components are the same.
pub fn same_part(a: &PathPart, b: &PathPart) -> (r: bool)
    ensures
        r == (a@ == b@),
{
    match (a, b) {
        (PathPart::Root, PathPart::Root) => true,
        (PathPart::Current, PathPart::Current) => true,
        (PathPart::Parent, PathPart::Parent) => true,
        (PathPart::Name(x), PathPart::Name(y)) => same(x.as_str(), y.as_str()),
        _ => false,
    }
}

/// Whether two texts are the same path, component by component.
pub fn same_path(a: &str, b: &str) -> (r: bool)
    ensures
        r == (path_parts(a@) == path_parts(b@)),
{
    let x = components(a);
    let y = components(b);
    proof {
        assert(part_views(x@).skip(0) =~= part_views(x@));
        assert(part_views(x@).len() == x@.len() && part_views(y@).len() == y@.len());
    }
    let r = x.len() == y.len() && parts_under(&x, 0, &y);
    proof {
        if r {
            assert(part_views(x@) =~= part_views(y@));
        }
    }
    r
}

/// The pieces with `sep` between each two of them.
pub open spec fn joined(pieces: Seq<Seq<char>>, sep: Seq<char>) -> Seq<char>
    decreases pieces.len(),
{
    if pieces.len() == 0 {
        Seq::empty()
    } else if pieces.len() == 1 {
        pieces[0]
    } else {
        joined(pieces.drop_last(), sep) + sep + pieces.last()
    }
}

/// The pieces with `sep` between each two of them.
pub fn join(pieces: &Vec<String>, sep: &str) -> (r: String)
    ensures
        r@ == joined(texts(pieces@), sep@),
{
    let ghost all = texts(pieces@);
    let mut r: String = String::new();
    let mut i: usize = 0;
    while i < pieces.len()
        invariant
            i <= pieces@.len(),
            all == texts(pieces@),
            r@ =~= joined(all.take(i as int), sep@),
        decreases pieces@.len() - i,
    {
        proof {
            assert(all.take(i + 1).drop_last() =~= all.take(i as int));
            assert(all[i as int] == pieces@[i as int]@);
        }
        if i > 0 {
            r.append(sep);
        }
        r.append(pieces[i].as_str());
        i = i + 1;
    }
    assert(all.take(i as int) =~= all);
    r
}

/// The text of one component.
pub open spec fn part_text(part: PartView) -> Seq<char> {
    match part {
        PartView::Root => Seq::empty(),
        PartView::Current => "."@,
        PartView::Parent => ".."@,
        PartView::Name(name) => name,
    }
}

/// The path through the given components, with one slash between each two of them.
pub open spec fn parts_text(parts: Seq<PartView>) -> Seq<char> {
    if parts.len() == 1 && parts[0] is Root {
        "/"@
    } else {
        joined(parts.map_values(|p: PartView| part_text(p)), "/"@)
    }
}

/// The path through the components from `from` on.
pub fn path_from(parts: &Vec<PathPart>, from: usize) -> (r: String)
    requires
        from <= parts@.len(),
    ensures
        r@ == parts_text(part_views(parts@).skip(from as int)),
{
    let ghost rest = part_views(parts@).skip(from as int);
    let ghost wanted = rest.map_values(|p: PartView| part_text(p));
    let n: usize = parts.len();
    let mut pieces: Vec<String> = Vec::new();
    let mut i: usize = from;
    while i < n
        invariant
            from <= i <= n,
            n == parts@.len(),
            rest == part_views(parts@).skip(from as int),
            wanted == rest.map_values(|p: PartView| part_text(p)),
            texts(pieces@) =~= wanted.take(i - from),
        decreases n - i,
    {
        assert(rest[i - from] == parts@[i as int]@);
        let piece: String = match &parts[i] {
            PathPart::Root => String::new(),
            PathPart::Current => owned("."),
            PathPart::Parent => owned(".."),
            PathPart::Name(name) => name.clone(),
        };
        assert(piece@ =~= wanted[i - from]);
        proof {
            lemma_texts_push(pieces@, piece);
        }
        pieces.push(piece);
        i = i + 1;
    }
    assert(wanted.take(n - from) =~= wanted);
    if n - from == 1 {
        assert(rest[0] == parts@[from as int]@);
        if let PathPart::Root = &parts[from] {
            return owned("/");
        }
    }
    join(&pieces, "/")
}

/// The text of the absolute path through the given names.
pub open spec fn rooted(names: Seq<Seq<char>>) -> Seq<char> {
    "/"@ + joined(names, "/"@)
}

/// The text of the absolute path through the given names.
pub fn rooted_path(names: &Vec<String>) -> (r: String)
    ensures
        r@ == rooted(texts(names@)),
{
    let mut r: String = owned("/");
    let rest = join(names, "/");
    r.append(rest.as_str());
    r
}

/// Whether one path's names begin another's.
pub fn is_under(names: &Vec<String>, root: &Vec<String>) -> (r: bool)
    ensures
        r == texts(root@).is_prefix_of(texts(names@)),
{
    if root.len() > names.len() {
        return false;
    }
    let ghost a = texts(names@);
    let ghost b = texts(root@);
    let mut i: usize = 0;
    while i < root.len()
        invariant
            i <= root@.len() <= names@.len(),
            a == texts(names@),
            b == texts(root@),
            forall|k: int| 0 <= k < i ==> a[k] == b[k],
        decreases root@.len() - i,
    {
        assert(a[i as int] == names@[i as int]@ && b[i as int] == root@[i as int]@);
        if !same(names[i].as_str(), root[i].as_str()) {
            return false;
        }
        i = i + 1;
    }
    true
}

/// The names from position `from` on.
pub fn names_from(names: &Vec<String>, from: usize) -> (r: Vec<String>)
    requires
        from <= names@.len(),
    ensures
        texts(r@) == texts(names@).skip(from as int),
{
    let ghost all = texts(names@);
    let mut r: Vec<String> = Vec::new();
    let mut i: usize = from;
    while i < names.len()
        invariant
            from <= i <= names@.len(),
            all == texts(names@),
            texts(r@) =~= all.subrange(from as int, i as int),
        decreases names@.len() - i,
    {
        let s = names[i].clone();
        proof {
            lemma_texts_push(r@, s);
        }
        r.push(s);
        i = i + 1;
    }
    assert(all.subrange(from as int, all.len() as int) =~= all.skip(from as int));
    r
}

/// `dir` with the relative `path` appended.
pub open spec fn joined_path(dir: Seq<char>, path: Seq<char>) -> Seq<char> {
    if absolute(path) {
        path
    } else if dir.len() == 0 || dir.last() == '/' {
        dir + path
    } else {
        dir + "/"@ + path
    }
}

/// `path` as seen from `dir`: an absolute path stands for itself.
pub fn join_path(dir: &str, path: &str) -> (r: String)
    ensures
        r@ == joined_path(dir@, path@),
{
    if is_absolute(path) {
        return owned(path);
    }
    let c = chars_of(dir);
    let mut r: String = owned(dir);
    if c.len() > 0 && c[c.len() - 1] != '/' {
        r.append("/");
    }
    r.append(path);
    r
}

// ---------------------------------------------------------------------------
// Laws
// ---------------------------------------------------------------------------

/// The text names one file or directory: it is not empty, `.` or `..`, and holds no slash.
pub open spec fn plain_name(s: Seq<char>) -> bool {
    s.len() > 0 && s != "."@ && s != ".."@ && !s.contains('/')
}

proof fn lemma_pieces_hold_no_separator(s: Seq<char>, sep: char, k: int)
    requires
        0 <= k < split_text(s, sep).len(),
    ensures
        !split_text(s, sep)[k].contains(sep),
    decreases s.len(),
{
    lemma_split_nonempty(s, sep);
    if s.len() > 0 {
        let t = s.drop_last();
        lemma_split_nonempty(t, sep);
        let head = split_text(t, sep);
        if s.last() == sep {
            if k < head.len() {
                lemma_pieces_hold_no_separator(t, sep, k);
            }
        } else {
            lemma_pieces_hold_no_separator(t, sep, k);
            if k == head.len() - 1 {
                let p = head[k].push(s.last());
                if p.contains(sep) {
                    let i = choose|i: int| 0 <= i < p.len() && p[i] == sep;
                    assert(head[k][i] == sep);
                }
            }
        }
    }
}

proof fn lemma_parts_are_plain(pieces: Seq<Seq<char>>, n: int, k: int)
    requires
        0 <= n <= pieces.len(),
        forall|i: int| 0 <= i < pieces.len() ==> !(#[trigger] pieces[i]).contains('/'),
        0 <= k < piece_parts(pieces, n).len(),
    ensures
        piece_parts(pieces, n)[k] matches PartView::Name(s) ==> plain_name(s),
    decreases n,
{
    if n > 0 {
        let before = piece_parts(pieces, n - 1);
        if k < before.len() {
            lemma_parts_are_plain(pieces, n - 1, k);
        } else {
            assert(!pieces[n - 1].contains('/'));
        }
    }
}

proof fn lemma_walked_names_are_plain(parts: Seq<PartView>, n: int, k: int)
    requires
        0 <= n <= parts.len(),
        forall|i: int|
            0 <= i < parts.len() ==> (#[trigger] parts[i] matches PartView::Name(s) ==> plain_name(
                s,
            )),
        walked(parts, n) is Some,
        0 <= k < walked(parts, n).unwrap().len(),
    ensures
        plain_name(walked(parts, n).unwrap()[k]),
    decreases n,
{
    if n > 0 {
        let before = walked(parts, n - 1).unwrap();
        if k < before.len() {
            lemma_walked_names_are_plain(parts, n - 1, k);
        } else {
            assert(parts[n - 1] is Name);
        }
    }
}

/// A path in its normal form goes only through plain names: no detour, and no step upwards, is left
/// in it.
pub proof fn normal_forms_have_no_detours(path: Seq<char>, k: int)
    requires
        normal_names(path) is Some,
        0 <= k < normal_names(path).unwrap().len(),
    ensures
        plain_name(normal_names(path).unwrap()[k]),
{
    let pieces = split_text(path, '/');
    let parts = path_parts(path);
    assert forall|i: int| 0 <= i < pieces.len() implies !(#[trigger] pieces[i]).contains('/') by {
        lemma_pieces_hold_no_separator(path, '/', i);
    }
    let inner = piece_parts(pieces, pieces.len() as int);
    assert forall|i: int| 0 <= i < parts.len() implies (#[trigger] parts[i] matches PartView::Name(s)
        ==> plain_name(s)) by {
        let j = if absolute(path) { i - 1 } else { i };
        if j >= 0 {
            assert(parts[i] == inner[j]);
            lemma_parts_are_plain(pieces, pieces.len() as int, j);
        }
    }
    lemma_walked_names_are_plain(parts, parts.len() as int, k);
}

proof fn lemma_piece_parts_prefix(a: Seq<Seq<char>>, b: Seq<Seq<char>>, n: int)
    requires
        0 <= n <= a.len(),
        n <= b.len(),
        forall|i: int| 0 <= i < n ==> a[i] == b[i],
    ensures
        piece_parts(a, n) == piece_parts(b, n),
    decreases n,
{
    if n > 0 {
        lemma_piece_parts_prefix(a, b, n - 1);
    }
}

/// A path's components are read piece by piece: a name, or a step upwards, behind a slash comes
/// last, and a `.`, or nothing, behind a slash changes nothing.
pub proof fn components_are_read_piece_by_piece(dir: Seq<char>, name: Seq<char>)
    requires
        dir.len() > 0,
        plain_name(name),
    ensures
        path_parts(dir.push('/') + name) == path_parts(dir).push(PartView::Name(name)),
        path_parts(dir.push('/') + ".."@) == path_parts(dir).push(PartView::Parent),
        path_parts(dir.push('/') + "."@) == path_parts(dir),
        path_parts(dir.push('/')) == path_parts(dir),
        path_parts(name) == seq![PartView::Name(name)],
        path_parts(".."@) == seq![PartView::Parent],
        path_parts("."@) == seq![PartView::Current],
        path_parts("/"@) == seq![PartView::Root],
        path_parts(Seq::empty()) == Seq::<PartView>::empty(),
{
    reveal_strlit(".");
    reveal_strlit("..");
    reveal_strlit("/");
    assert(!"."@.contains('/') && !".."@.contains('/'));
    lemma_last_piece(dir, name);
    lemma_last_piece(dir, ".."@);
    lemma_last_piece(dir, "."@);
    lemma_last_piece(dir, Seq::empty());
    assert(dir.push('/') + Seq::<char>::empty() =~= dir.push('/'));
    lemma_only_piece(name);
    lemma_only_piece(".."@);
    lemma_only_piece("."@);
    lemma_only_piece(Seq::empty());
    lemma_last_piece(Seq::empty(), Seq::empty());
    assert(Seq::<char>::empty().push('/') + Seq::<char>::empty() =~= "/"@);
    assert(name.len() > 0 && name[0] != '/') by {
        assert(name.contains(name[0]));
    }
}

proof fn lemma_only_piece(p: Seq<char>)
    requires
        !p.contains('/'),
    ensures
        path_parts(p) == piece_parts(seq![p], 1),
        p == "."@ ==> path_parts(p) == seq![PartView::Current],
        p == ".."@ ==> path_parts(p) == seq![PartView::Parent],
        p.len() == 0 ==> path_parts(p) == Seq::<PartView>::empty(),
        plain_name(p) ==> path_parts(p) == seq![PartView::Name(p)],
{
    reveal_strlit(".");
    reveal_strlit("..");
    crate::text_laws::splitting_cuts_at_each_separator(p, Seq::empty(), '/');
    if p.len() > 0 {
        assert(p.contains(p[0]));
    }
    let none = piece_parts(seq![p], 0);
    assert(none =~= Seq::<PartView>::empty());
    assert(none.push(PartView::Current) =~= seq![PartView::Current]);
    assert(none.push(PartView::Parent) =~= seq![PartView::Parent]);
    assert(none.push(PartView::Name(p)) =~= seq![PartView::Name(p)]);
}

proof fn lemma_last_piece(dir: Seq<char>, p: Seq<char>)
    requires
        !p.contains('/'),
    ensures
        ({
            let before = if dir.len() > 0 {
                path_parts(dir)
            } else {
                seq![PartView::Root]
            };
            path_parts(dir.push('/') + p) == if p.len() == 0 || p == "."@ {
                before
            } else if p == ".."@ {
                before.push(PartView::Parent)
            } else {
                before.push(PartView::Name(p))
            }
        }),
{
    reveal_strlit(".");
    reveal_strlit("..");
    crate::text_laws::splitting_cuts_at_each_separator(p, Seq::empty(), '/');
    crate::text_laws::splitting_cuts_at_each_separator(dir, p, '/');
    lemma_split_nonempty(dir, '/');
    let x = split_text(dir, '/');
    let whole = dir.push('/') + p;
    let y = split_text(whole, '/');
    assert(y == x + seq![p]);
    let n = x.len() as int;
    lemma_piece_parts_prefix(x, y, n);
    assert(y.len() == n + 1 && y[n] == p);
    if dir.len() > 0 {
        assert(whole[0] == dir[0]);
        let inner = piece_parts(x, n);
        if absolute(dir) {
            assert(seq![PartView::Root] + inner.push(PartView::Parent) =~= (seq![PartView::Root]
                + inner).push(PartView::Parent));
            assert(seq![PartView::Root] + inner.push(PartView::Name(p)) =~= (seq![PartView::Root]
                + inner).push(PartView::Name(p)));
        }
    } else {
        assert(dir =~= Seq::<char>::empty());
        assert(whole[0] == '/');
        assert(x =~= seq![Seq::<char>::empty()]);
        assert(piece_parts(x, 0) =~= Seq::<PartView>::empty());
        assert(piece_parts(x, 1) =~= Seq::<PartView>::empty());
        let root = seq![PartView::Root];
        assert(root + Seq::<PartView>::empty() =~= root);
        assert(root + Seq::<PartView>::empty().push(PartView::Parent) =~= root.push(
            PartView::Parent,
        ));
        assert(root + Seq::<PartView>::empty().push(PartView::Name(p)) =~= root.push(
            PartView::Name(p),
        ));
    }
}

proof fn lemma_walked_prefix(a: Seq<PartView>, b: Seq<PartView>, n: int)
    requires
        0 <= n <= a.len(),
        n <= b.len(),
        forall|i: int| 0 <= i < n ==> a[i] == b[i],
    ensures
        walked(a, n) == walked(b, n),
    decreases n,
{
    if n > 0 {
        lemma_walked_prefix(a, b, n - 1);
    }
}

/// In the normal form of a path a name behind a slash comes last, and a step upwards takes the last
/// name back; where there is none to take back, the path has no normal form.
pub proof fn steps_upwards_take_names_back(dir: Seq<char>, name: Seq<char>)
    requires
        dir.len() > 0,
        plain_name(name),
        normal_names(dir) is Some,
    ensures
        normal_names(dir.push('/') + name) == Some(normal_names(dir).unwrap().push(name)),
        normal_names(dir.push('/') + "."@) == normal_names(dir),
        normal_names(dir.push('/') + ".."@) == if normal_names(dir).unwrap().len() > 0 {
            Some(normal_names(dir).unwrap().drop_last())
        } else {
            None
        },
        normal_names("/"@) == Some(Seq::<Seq<char>>::empty()),
{
    components_are_read_piece_by_piece(dir, name);
    let parts = path_parts(dir);
    let n = parts.len() as int;
    lemma_walked_prefix(parts, parts.push(PartView::Name(name)), n);
    lemma_walked_prefix(parts, parts.push(PartView::Parent), n);
    assert(walked(seq![PartView::Root], 0) == Some(Seq::<Seq<char>>::empty()));
}

/// The last name of a path is what stands behind its last slash; a step upwards is no name.
pub proof fn the_last_name_stands_behind_the_last_slash(dir: Seq<char>, name: Seq<char>)
    requires
        dir.len() > 0,
        plain_name(name),
    ensures
        last_name(dir.push('/') + name) == Some(name),
        last_name(name) == Some(name),
        last_name(dir.push('/') + ".."@) is None,
        last_name(dir.push('/')) == last_name(dir),
{
    components_are_read_piece_by_piece(dir, name);
}

/// A path is put behind a directory with one slash between them, whether or not the directory ends
/// in one; a path that begins at the root stands for itself.
pub proof fn paths_are_put_behind_their_directory(dir: Seq<char>, path: Seq<char>, name: Seq<char>)
    requires
        dir.len() > 0,
        dir.last() != '/',
        plain_name(name),
    ensures
        path.len() > 0 && path[0] == '/' ==> joined_path(dir, path) == path,
        path.len() == 0 || path[0] != '/' ==> joined_path(dir, path) == dir.push('/') + path
            && joined_path(dir.push('/'), path) == dir.push('/') + path && joined_path(
            Seq::empty(),
            path,
        ) == path,
        path_parts(joined_path(dir, name)) == path_parts(dir).push(PartView::Name(name)),
{
    reveal_strlit("/");
    components_are_read_piece_by_piece(dir, name);
    assert("/"@ =~= seq!['/']);
    assert(dir + "/"@ + path =~= dir.push('/') + path);
    assert(dir + "/"@ + name =~= dir.push('/') + name);
    assert(Seq::<char>::empty() + path =~= path);
    assert(name[0] != '/') by {
        assert(name.contains(name[0]));
    }
}

} // verus!
