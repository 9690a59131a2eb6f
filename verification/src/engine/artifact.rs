//! Which file of a repository an analyser's artifact address names.

use crate::baseline::{hex_string, hex_text};
use crate::paths::{
    absolute, is_absolute, is_under, join, joined, names_from, normal_names, normalize, rooted,
    rooted_path,
};
use crate::text::{
    after_prefix, chars_of, contains, contains_text, is_ascii_letter, owned, starts_with,
    strip_prefix, texts,
};
use vstd::prelude::*;
use vstd::utf8::{decode_utf8, encode_utf8, valid_utf8};

verus! {

/// The text of bytes that are UTF-8, with `String::from_utf8`; nothing where they are not.
#[verifier::external_body]
fn utf8_text(bytes: Vec<u8>) -> (r: Option<String>)
    ensures
        match r {
            Some(s) => valid_utf8(bytes@) && s@ == decode_utf8(bytes@),
            None => !valid_utf8(bytes@),
        },
{
    String::from_utf8(bytes).ok()
}

// ---------------------------------------------------------------------------
// Percent escapes
// ---------------------------------------------------------------------------

/// The value of a hexadecimal digit.
pub open spec fn hex_value(byte: u8) -> Option<u8> {
    if 0x30 <= byte <= 0x39 {
        Some((byte - 0x30) as u8)
    } else if 0x61 <= byte <= 0x66 {
        Some((byte - 0x61 + 10) as u8)
    } else if 0x41 <= byte <= 0x46 {
        Some((byte - 0x41 + 10) as u8)
    } else {
        None
    }
}

/// The value of a hexadecimal digit.
pub fn decode_hex(byte: u8) -> (r: Option<u8>)
    ensures
        r == hex_value(byte),
        r matches Some(v) ==> v < 16,
{
    if 0x30 <= byte && byte <= 0x39 {
        Some(byte - 0x30)
    } else if 0x61 <= byte && byte <= 0x66 {
        Some(byte - 0x61 + 10)
    } else if 0x41 <= byte && byte <= 0x46 {
        Some(byte - 0x41 + 10)
    } else {
        None
    }
}

/// The bytes from `i` on with their percent escapes resolved; nothing where one is malformed.
pub open spec fn unescaped(bytes: Seq<u8>, i: int) -> Option<Seq<u8>>
    decreases bytes.len() - i,
{
    if i < 0 || i >= bytes.len() {
        Some(Seq::empty())
    } else if bytes[i] != 0x25 {
        match unescaped(bytes, i + 1) {
            Some(rest) => Some(seq![bytes[i]] + rest),
            None => None,
        }
    } else if i + 2 >= bytes.len() {
        None
    } else {
        match (hex_value(bytes[i + 1]), hex_value(bytes[i + 2])) {
            (Some(high), Some(low)) => match unescaped(bytes, i + 3) {
                Some(rest) => Some(seq![(high * 16 + low) as u8] + rest),
                None => None,
            },
            _ => None,
        }
    }
}

/// The text of an address with its percent escapes resolved, or what is wrong with it.
pub open spec fn decoded_uri(uri: Seq<char>) -> Result<Seq<char>, Seq<char>> {
    match unescaped(encode_utf8(uri), 0) {
        None => Err("invalid percent escape in URI '"@ + uri + "'"@),
        Some(bytes) => if valid_utf8(bytes) {
            Ok(decode_utf8(bytes))
        } else {
            Err("URI '"@ + uri + "' is not valid UTF-8"@)
        },
    }
}

/// The outcome that a decision stands for.
pub open spec fn text_outcome(r: Result<String, String>, d: Result<Seq<char>, Seq<char>>) -> bool {
    match d {
        Ok(t) => r matches Ok(s) && s@ == t,
        Err(t) => r matches Err(e) && e@ == t,
    }
}

fn quoted(before: &str, text: &str, after: &str) -> (r: String)
    ensures
        r@ == before@ + text@ + after@,
{
    let mut s: String = owned(before);
    s.append(text);
    s.append(after);
    s
}

/// The text of an address with its percent escapes resolved.
pub fn decode_sarif_uri(uri: &str) -> (r: Result<String, String>)
    ensures
        text_outcome(r, decoded_uri(uri@)),
{
    let bytes = uri.as_bytes();
    let ghost all = encode_utf8(uri@);
    let n: usize = bytes.len();
    let mut decoded: Vec<u8> = Vec::new();
    let mut i: usize = 0;
    let ghost target = unescaped(all, 0);
    while i < n
        invariant
            i <= n,
            n == bytes@.len(),
            bytes@ == all,
            all == encode_utf8(uri@),
            target == unescaped(all, 0),
            target == match unescaped(all, i as int) {
                Some(rest) => Some(decoded@ + rest),
                None => None,
            },
        decreases n - i,
    {
        let ghost before = decoded@;
        if bytes[i] != 0x25 {
            decoded.push(bytes[i]);
            proof {
                if let Some(rest) = unescaped(all, i + 1) {
                    assert(before + (seq![all[i as int]] + rest) =~= before.push(all[i as int])
                        + rest);
                }
            }
            i = i + 1;
        } else {
            if n - i <= 2 {
                return Err(quoted("invalid percent escape in URI '", uri, "'"));
            }
            match (decode_hex(bytes[i + 1]), decode_hex(bytes[i + 2])) {
                (Some(high), Some(low)) => {
                    let b: u8 = high * 16 + low;
                    decoded.push(b);
                    proof {
                        if let Some(rest) = unescaped(all, i + 3) {
                            assert(before + (seq![b] + rest) =~= before.push(b) + rest);
                        }
                    }
                    i = i + 3;
                },
                _ => {
                    return Err(quoted("invalid percent escape in URI '", uri, "'"));
                },
            }
        }
    }
    proof {
        assert(decoded@ + Seq::<u8>::empty() =~= decoded@);
    }
    match utf8_text(decoded) {
        Some(s) => Ok(s),
        None => Err(quoted("URI '", uri, "' is not valid UTF-8")),
    }
}

// ---------------------------------------------------------------------------
// Addresses as paths
// ---------------------------------------------------------------------------

/// The path begins with a drive letter.
pub open spec fn windows_absolute(path: Seq<char>) -> bool {
    path.len() >= 3 && is_ascii_letter(path[0]) && path[1] == ':' && (path[2] == '/' || path[2]
        == '\\')
}

/// Whether the path begins with a drive letter.
pub fn looks_like_windows_absolute_path(path: &str) -> (r: bool)
    ensures
        r == windows_absolute(path@),
{
    let c = chars_of(path);
    c.len() >= 3 && (('a' <= c[0] && c[0] <= 'z') || ('A' <= c[0] && c[0] <= 'Z')) && c[1] == ':'
        && (c[2] == '/' || c[2] == '\\')
}

/// The path that an address names, or why it names none here.
pub open spec fn uri_path(uri: Seq<char>) -> Result<Seq<char>, Seq<char>> {
    match decoded_uri(uri) {
        Err(e) => Err(e),
        Ok(decoded) => {
            let path = match after_prefix(decoded, "file://"@) {
                Some(rest) => if "/"@.is_prefix_of(rest) {
                    Ok(rest)
                } else {
                    match after_prefix(rest, "localhost/"@) {
                        Some(local) => Ok("/"@ + local),
                        None => Err("unsupported non-local file URI '"@ + rest + "'"@),
                    }
                },
                None => if contains_text(decoded, "://"@) {
                    Err("unsupported artifact URI '"@ + uri + "'"@)
                } else {
                    Ok(decoded)
                },
            };
            match path {
                Err(e) => Err(e),
                Ok(p) => if windows_absolute(p) {
                    Err(
                        "cannot safely normalize Windows artifact path '"@ + p
                            + "' on this platform"@,
                    )
                } else {
                    Ok(p)
                },
            }
        },
    }
}

/// The path that an address names.
pub fn sarif_uri_path(uri: &str) -> (r: Result<String, String>)
    ensures
        text_outcome(r, uri_path(uri@)),
{
    let decoded = match decode_sarif_uri(uri) {
        Ok(d) => d,
        Err(e) => {
            return Err(e);
        },
    };
    let path: String = match strip_prefix(decoded.as_str(), "file://") {
        Some(rest) => {
            if starts_with(rest.as_str(), "/") {
                rest
            } else {
                match strip_prefix(rest.as_str(), "localhost/") {
                    Some(local) => quoted("/", local.as_str(), ""),
                    None => {
                        return Err(
                            quoted("unsupported non-local file URI '", rest.as_str(), "'"),
                        );
                    },
                }
            }
        },
        None => {
            if contains(decoded.as_str(), "://") {
                return Err(quoted("unsupported artifact URI '", uri, "'"));
            }
            decoded
        },
    };
    proof {
        reveal_strlit("");
        assert(forall|s: Seq<char>| #[trigger] ("/"@ + s + ""@) =~= "/"@ + s);
    }
    if looks_like_windows_absolute_path(path.as_str()) {
        return Err(
            quoted(
                "cannot safely normalize Windows artifact path '",
                path.as_str(),
                "' on this platform",
            ),
        );
    }
    Ok(path)
}

/// The names that lead to the place an absolute path names, or what is wrong with it.
pub open spec fn absolute_names(path: Seq<char>) -> Result<Seq<Seq<char>>, Seq<char>> {
    if !absolute(path) {
        Err("path "@ + path + " is not absolute"@)
    } else {
        match normal_names(path) {
            Some(names) => Ok(names),
            None => Err("path "@ + path + " escapes its root"@),
        }
    }
}

/// The names that lead to the place an absolute path names.
pub fn normalize_absolute_path(path: &str) -> (r: Result<Vec<String>, String>)
    ensures
        match absolute_names(path@) {
            Ok(names) => r matches Ok(v) && texts(v@) == names,
            Err(t) => r matches Err(e) && e@ == t,
        },
{
    if !is_absolute(path) {
        return Err(quoted("path ", path, " is not absolute"));
    }
    match normalize(path) {
        Some(names) => Ok(names),
        None => Err(quoted("path ", path, " escapes its root")),
    }
}

/// The text of a relative path through the given names.
pub open spec fn relative_text(names: Seq<Seq<char>>) -> Result<Seq<char>, Seq<char>> {
    if names.len() == 0 {
        Err("artifact path does not identify a source file"@)
    } else {
        Ok(joined(names, "/"@))
    }
}

/// The stable form of a relative path: without detours, and not above its start.
pub open spec fn stable_relative(path: Seq<char>) -> Result<Seq<char>, Seq<char>> {
    if absolute(path) {
        Err("artifact path "@ + path + " is not repository-relative"@)
    } else {
        match normal_names(path) {
            None => Err("relative artifact path "@ + path + " escapes its root"@),
            Some(names) => relative_text(names),
        }
    }
}

fn relative_path_text(names: &Vec<String>) -> (r: Result<String, String>)
    ensures
        text_outcome(r, relative_text(texts(names@))),
{
    assert(texts(names@).len() == names@.len());
    if names.len() == 0 {
        return Err(owned("artifact path does not identify a source file"));
    }
    Ok(join(names, "/"))
}

/// The stable form of a relative path: without detours, and not above its start.
pub fn stable_relative_path(path: &str) -> (r: Result<String, String>)
    ensures
        text_outcome(r, stable_relative(path@)),
{
    if is_absolute(path) {
        return Err(quoted("artifact path ", path, " is not repository-relative"));
    }
    match normalize(path) {
        None => Err(quoted("relative artifact path ", path, " escapes its root")),
        Some(names) => relative_path_text(&names),
    }
}

/// The stable form of an absolute path as seen from a root.
pub open spec fn stable_under(path: Seq<char>, root: Seq<Seq<char>>) -> Result<
    Seq<char>,
    Seq<char>,
> {
    match absolute_names(path) {
        Err(e) => Err(e),
        Ok(names) => if root.is_prefix_of(names) {
            relative_text(names.skip(root.len() as int))
        } else {
            Err("artifact path "@ + rooted(names) + " is outside "@ + rooted(root))
        },
    }
}

/// The stable form of an absolute path as seen from a root.
pub fn stable_path_under_root(path: &str, root: &Vec<String>) -> (r: Result<String, String>)
    ensures
        text_outcome(r, stable_under(path@, texts(root@))),
{
    match normalize_absolute_path(path) {
        Err(e) => Err(e),
        Ok(names) => {
            if is_under(&names, root) {
                assert(texts(root@).len() == root@.len());
                assert(texts(names@).len() == names@.len());
                let rest = names_from(&names, root.len());
                relative_path_text(&rest)
            } else {
                let p = rooted_path(&names);
                let q = rooted_path(root);
                let mut e: String = quoted("artifact path ", p.as_str(), " is outside ");
                e.append(q.as_str());
                Err(e)
            }
        },
    }
}

/// The names of each of a list of paths.
pub open spec fn name_lists(v: Seq<Vec<String>>) -> Seq<Seq<Seq<char>>> {
    v.map_values(|x: Vec<String>| texts(x@))
}

/// The longest of the first `n` roots that the path lies under.
pub open spec fn longest_root(roots: Seq<Seq<Seq<char>>>, names: Seq<Seq<char>>, n: int) -> Option<
    Seq<Seq<char>>,
>
    decreases n,
{
    if n <= 0 {
        None
    } else {
        let before = longest_root(roots, names, n - 1);
        let root = roots[n - 1];
        if root.is_prefix_of(names) && (before is None || before.unwrap().len() < root.len()) {
            Some(root)
        } else {
            before
        }
    }
}

/// The stable form of an absolute path as seen from the longest root that it lies under.
pub open spec fn stable_under_roots(path: Seq<char>, roots: Seq<Seq<Seq<char>>>) -> Result<
    Seq<char>,
    Seq<char>,
> {
    match absolute_names(path) {
        Err(e) => Err(e),
        Ok(names) => match longest_root(roots, names, roots.len() as int) {
            None => Err(
                "absolute artifact path "@ + rooted(names)
                    + " has no matching CodeQL source root"@,
            ),
            Some(root) => relative_text(names.skip(root.len() as int)),
        },
    }
}

proof fn lemma_longest_root(roots: Seq<Seq<Seq<char>>>, names: Seq<Seq<char>>, n: int)
    requires
        0 <= n <= roots.len(),
    ensures
        longest_root(roots, names, n) matches Some(root) ==> root.is_prefix_of(names),
    decreases n,
{
    if n > 0 {
        lemma_longest_root(roots, names, n - 1);
    }
}

/// The stable form of an absolute path as seen from the longest root that it lies under.
pub fn stable_path_under_source_root(path: &str, source_roots: &Vec<Vec<String>>) -> (r: Result<
    String,
    String,
>)
    ensures
        text_outcome(r, stable_under_roots(path@, name_lists(source_roots@))),
{
    let names = match normalize_absolute_path(path) {
        Ok(names) => names,
        Err(e) => {
            return Err(e);
        },
    };
    let ghost roots = name_lists(source_roots@);
    let ghost all = texts(names@);
    let mut best: Option<usize> = None;
    let mut i: usize = 0;
    while i < source_roots.len()
        invariant
            i <= source_roots@.len(),
            roots == name_lists(source_roots@),
            all == texts(names@),
            match best {
                Some(b) => b < i && longest_root(roots, all, i as int) == Some(roots[b as int]),
                None => longest_root(roots, all, i as int) is None,
            },
        decreases source_roots@.len() - i,
    {
        assert(roots[i as int] == texts(source_roots@[i as int]@));
        if is_under(&names, &source_roots[i]) {
            let longer = match best {
                Some(b) => {
                    assert(roots[b as int] == texts(source_roots@[b as int]@));
                    assert(roots[b as int].len() == source_roots@[b as int]@.len());
                    assert(roots[i as int].len() == source_roots@[i as int]@.len());
                    source_roots[b].len() < source_roots[i].len()
                },
                None => true,
            };
            if longer {
                best = Some(i);
            }
        }
        i = i + 1;
    }
    match best {
        None => {
            let p = rooted_path(&names);
            Err(
                quoted(
                    "absolute artifact path ",
                    p.as_str(),
                    " has no matching CodeQL source root",
                ),
            )
        },
        Some(b) => {
            proof {
                lemma_longest_root(roots, all, roots.len() as int);
                assert(roots[b as int] == texts(source_roots@[b as int]@));
                assert(roots[b as int].len() == source_roots@[b as int]@.len());
                assert(all.len() == names@.len());
            }
            let rest = names_from(&names, source_roots[b].len());
            relative_path_text(&rest)
        },
    }
}

/// The path under which files of a named base are compared.
pub open spec fn base_comparison(base: Seq<char>, path: Seq<char>) -> Seq<char> {
    "codeql-uri-base/"@ + hex_text(encode_utf8(base)) + "/"@ + path
}

/// The path under which files of the one root are compared.
pub open spec fn root_comparison(path: Seq<char>) -> Seq<char> {
    "codeql-single-root/"@ + path
}

/// The path under which files of a named base are compared.
pub fn uri_base_comparison_path(uri_base_id: &str, display_path: &str) -> (r: String)
    ensures
        r@ == base_comparison(uri_base_id@, display_path@),
{
    let bytes = vstd::slice::slice_to_vec(uri_base_id.as_bytes());
    let namespace = hex_string(&bytes);
    let mut s: String = owned("codeql-uri-base/");
    s.append(namespace.as_str());
    s.append("/");
    s.append(display_path);
    s
}

/// The path under which files of the one root are compared.
pub fn single_root_comparison_path(display_path: &str) -> (r: String)
    ensures
        r@ == root_comparison(display_path@),
{
    let mut s: String = owned("codeql-single-root/");
    s.append(display_path);
    s
}

} // verus!
