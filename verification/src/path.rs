//! Paths as texts with `/` between their parts.

use crate::text::{
    after_last, before_last, chars_of, concat2, cut_after_last, cut_before_last, join, join_text,
    same, split, split_text, string_of, views,
};
use vstd::prelude::*;

verus! {

/// The parts between the separators.
pub open spec fn parts(path: Seq<char>) -> Seq<Seq<char>> {
    split(path, "/"@)
}

/// A part that names a file or a directory.
pub open spec fn is_normal(part: Seq<char>) -> bool {
    part.len() > 0 && part != "."@ && part != ".."@
}

/// The parts that name files and directories.
pub open spec fn normal_parts(path: Seq<char>) -> Seq<Seq<char>> {
    parts(path).filter(|p: Seq<char>| is_normal(p))
}

/// A part that a path does not mean the same without, at its start or further in.
pub open spec fn counts(first: bool, part: Seq<char>) -> bool {
    part.len() > 0 && (first || part != "."@)
}

/// The parts that count. A dot counts only where the path starts with it.
pub open spec fn kept_parts(ps: Seq<Seq<char>>, n: int) -> Seq<Seq<char>>
    decreases n,
{
    if n <= 0 || n > ps.len() {
        Seq::empty()
    } else if counts(n == 1, ps[n - 1]) {
        kept_parts(ps, n - 1).push(ps[n - 1])
    } else {
        kept_parts(ps, n - 1)
    }
}

/// The path with one slash between its parts and without those that do not count. Two
/// paths are the same path where their normal forms are the same text.
pub open spec fn normal(path: Seq<char>) -> Seq<char> {
    let ps = parts(path);
    let body = join(kept_parts(ps, ps.len() as int), "/"@);
    if path.len() > 0 && path[0] == '/' {
        "/"@ + body
    } else {
        body
    }
}

/// The normal form of each path.
pub open spec fn normals(paths: Seq<Seq<char>>) -> Seq<Seq<char>> {
    paths.map_values(|p: Seq<char>| normal(p))
}

/// The last part that says something, at or before position `n`.
pub open spec fn last_part(parts: Seq<Seq<char>>, n: int) -> Option<Seq<char>>
    decreases n,
{
    if n <= 0 || n > parts.len() {
        None
    } else if parts[n - 1].len() == 0 || parts[n - 1] == "."@ {
        last_part(parts, n - 1)
    } else {
        Some(parts[n - 1])
    }
}

/// The name of the file that a path stands for: its last part, unless that leads
/// upward.
pub open spec fn file_name(path: Seq<char>) -> Option<Seq<char>> {
    match last_part(parts(path), parts(path).len() as int) {
        Some(p) => if p == ".."@ {
            None
        } else {
            Some(p)
        },
        None => None,
    }
}

/// A dot stands in the name, and not only at its start.
pub open spec fn has_extension(name: Seq<char>) -> bool {
    match before_last(name, "."@) {
        Some(b) => b.len() > 0,
        None => false,
    }
}

/// What follows the last dot of the file name, where something precedes it.
pub open spec fn extension(path: Seq<char>) -> Option<Seq<char>> {
    match file_name(path) {
        Some(name) => if has_extension(name) {
            Some(after_last(name, "."@))
        } else {
            None
        },
        None => None,
    }
}

/// The file name without its extension.
pub open spec fn stem_of(name: Seq<char>) -> Seq<char> {
    if has_extension(name) {
        before_last(name, "."@)->0
    } else {
        name
    }
}

/// The file name without its extension.
pub open spec fn file_stem(path: Seq<char>) -> Option<Seq<char>> {
    match file_name(path) {
        Some(name) => Some(stem_of(name)),
        None => None,
    }
}

fn slash_parts(path: &str) -> (r: Vec<String>)
    ensures
        views(r@) == parts(path@),
{
    proof {
        reveal_strlit("/");
    }
    split_text(path, "/")
}

/// The parts that name files and directories.
pub fn normal_components(path: &str) -> (r: Vec<String>)
    ensures
        views(r@) == normal_parts(path@),
{
    let all = slash_parts(path);
    let ghost keep = |p: Seq<char>| is_normal(p);
    let ghost seen = views(all@);
    let mut out: Vec<String> = Vec::new();
    let mut i: usize = 0;
    proof {
        reveal(Seq::filter);
        assert(seen.take(0) =~= Seq::empty());
        assert(views(out@) =~= Seq::empty());
    }
    while i < all.len()
        invariant
            i <= all@.len(),
            seen == views(all@),
            keep == (|p: Seq<char>| is_normal(p)),
            views(out@) == seen.take(i as int).filter(keep),
        decreases all@.len() - i,
    {
        let p = &all[i];
        proof {
            reveal(Seq::filter);
            assert(seen.take(i + 1).drop_last() =~= seen.take(i as int));
            assert(seen.take(i + 1).last() == p@);
        }
        if !p.as_str().is_empty() && !same(p.as_str(), ".") && !same(p.as_str(), "..") {
            let ghost had = out@;
            let c = p.clone();
            out.push(c);
            assert(views(out@) =~= views(had).push(c@));
        }
        i += 1;
    }
    assert(seen.take(seen.len() as int) =~= seen);
    out
}

/// The normal form of a path.
pub fn normal_text(path: &str) -> (r: String)
    ensures
        r@ == normal(path@),
{
    let all = slash_parts(path);
    let ghost seen = views(all@);
    let mut kept: Vec<String> = Vec::new();
    let mut i: usize = 0;
    assert(views(kept@) =~= Seq::empty());
    while i < all.len()
        invariant
            i <= all@.len() == seen.len(),
            seen == views(all@),
            views(kept@) == kept_parts(seen, i as int),
        decreases all@.len() - i,
    {
        let p = &all[i];
        assert(seen[i as int] == p@);
        if !p.as_str().is_empty() && (i == 0 || !same(p.as_str(), ".")) {
            let c = p.clone();
            assert(views(kept@.push(c)) =~= views(kept@).push(c@));
            kept.push(c);
        }
        i += 1;
    }
    let body = join_text(&kept, "/");
    let cs = chars_of(path);
    if cs.len() > 0 && cs[0] == '/' {
        concat2("/", body.as_str())
    } else {
        body
    }
}

/// The name of the file that a path stands for.
pub fn name_of(path: &str) -> (r: Option<String>)
    ensures
        match r {
            Some(n) => file_name(path@) == Some(n@),
            None => file_name(path@) is None,
        },
{
    let all = slash_parts(path);
    let ghost seen = views(all@);
    let mut n: usize = all.len();
    while n > 0
        invariant
            n <= all@.len() == seen.len(),
            seen == views(all@),
            last_part(seen, seen.len() as int) == last_part(seen, n as int),
            seen == parts(path@),
        decreases n,
    {
        let p = &all[n - 1];
        assert(seen[n - 1] == p@);
        if !p.as_str().is_empty() && !same(p.as_str(), ".") {
            if same(p.as_str(), "..") {
                return None;
            }
            return Some(p.clone());
        }
        n -= 1;
    }
    None
}

/// The extension of the file name, without the dot.
pub fn extension_of(path: &str) -> (r: Option<String>)
    ensures
        match r {
            Some(e) => extension(path@) == Some(e@),
            None => extension(path@) is None,
        },
{
    match name_of(path) {
        Some(name) => match cut_before_last(name.as_str(), ".") {
            Some(b) => if b.as_str().is_empty() {
                None
            } else {
                Some(cut_after_last(name.as_str(), "."))
            },
            None => None,
        },
        None => None,
    }
}

/// The name without its extension.
pub fn stem_text(name: &str) -> (r: String)
    ensures
        r@ == stem_of(name@),
{
    match cut_before_last(name, ".") {
        Some(b) => if b.as_str().is_empty() {
            name.to_owned()
        } else {
            b
        },
        None => name.to_owned(),
    }
}

/// Where the last part of the first `n` characters starts, whichever slash is used.
pub open spec fn base_start(s: Seq<char>, n: int) -> int
    decreases n,
{
    if n <= 0 || s[n - 1] == '/' || s[n - 1] == '\\' {
        n
    } else {
        base_start(s, n - 1)
    }
}

/// What follows the last slash, forward or backward.
pub open spec fn base_name(s: Seq<char>) -> Seq<char> {
    s.skip(base_start(s, s.len() as int))
}

/// What follows the last slash, forward or backward.
pub fn base_text(s: &str) -> (r: String)
    ensures
        r@ == base_name(s@),
{
    let cs = chars_of(s);
    let len: usize = cs.len();
    let mut n: usize = len;
    while n > 0 && cs[n - 1] != '/' && cs[n - 1] != '\\'
        invariant
            n <= len == cs@.len(),
            base_start(cs@, len as int) == base_start(cs@, n as int),
        decreases n,
    {
        n -= 1;
    }
    let r = string_of(&cs, n, len);
    assert(r@ =~= base_name(s@));
    r
}

// -- directories ----------------------------------------------------------------------

/// The path of `name` under `dir`; an absolute name stands for itself.
pub open spec fn under(dir: Seq<char>, name: Seq<char>) -> Seq<char> {
    if name.len() > 0 && name[0] == '/' {
        name
    } else if dir.len() == 0 {
        name
    } else if dir.last() == '/' {
        dir + name
    } else {
        dir + "/"@ + name
    }
}

/// The path of `name` under `dir`.
pub fn join_path(dir: &str, name: &str) -> (r: String)
    ensures
        r@ == under(dir@, name@),
{
    let n = chars_of(name);
    let d = chars_of(dir);
    if n.len() > 0 && n[0] == '/' {
        return name.to_owned();
    }
    if d.len() == 0 {
        return name.to_owned();
    }
    let mut out = dir.to_owned();
    if d[d.len() - 1] != '/' {
        out.append("/");
    }
    out.append(name);
    out
}

/// The first `n` characters end in what a path means the same without: a slash, or a dot
/// after one.
pub open spec fn trails(s: Seq<char>, n: int) -> bool {
    n > 0 && (s[n - 1] == '/' || (n > 1 && s[n - 1] == '.' && s[n - 2] == '/'))
}

/// How long the first `n` characters are without slashes and dots that mean nothing at
/// the end.
pub open spec fn unslashed(s: Seq<char>, n: int) -> int
    decreases n,
{
    if trails(s, n) {
        unslashed(s, n - 1)
    } else {
        n
    }
}

pub proof fn lemma_unslashed(s: Seq<char>, n: int)
    requires
        0 <= n <= s.len(),
    ensures
        0 <= unslashed(s, n) <= n,
    decreases n,
{
    if trails(s, n) {
        lemma_unslashed(s, n - 1);
    }
}

/// Where the last part of the first `n` characters starts.
pub open spec fn part_start(s: Seq<char>, n: int) -> int
    decreases n,
{
    if n > 0 && s[n - 1] != '/' {
        part_start(s, n - 1)
    } else {
        n
    }
}

pub proof fn lemma_part_start(s: Seq<char>, n: int)
    requires
        0 <= n <= s.len(),
    ensures
        0 <= part_start(s, n) <= n,
        n > 0 && s[n - 1] != '/' ==> part_start(s, n) < n,
    decreases n,
{
    if n > 0 && s[n - 1] != '/' {
        lemma_part_start(s, n - 1);
    }
}

/// The directory that holds a path: the path without its last part. The root and
/// the empty path have none.
pub open spec fn parent_dir(path: Seq<char>) -> Option<Seq<char>> {
    let e = unslashed(path, path.len() as int);
    if e <= 0 {
        None
    } else {
        let b = part_start(path, e);
        if b == 0 {
            Some(Seq::empty())
        } else {
            let d = unslashed(path, b);
            if d == 0 {
                Some(path.take(1))
            } else {
                Some(path.take(d))
            }
        }
    }
}

/// The directory that holds a path is a shorter path.
pub proof fn lemma_parent_shorter(path: Seq<char>)
    ensures
        parent_dir(path) is Some ==> parent_dir(path)->0.len() < path.len(),
{
    let e = unslashed(path, path.len() as int);
    lemma_unslashed(path, path.len() as int);
    if e > 0 {
        lemma_unslashed_stops(path, path.len() as int);
        lemma_part_start(path, e);
        let b = part_start(path, e);
        if b > 0 {
            lemma_unslashed(path, b);
        }
    }
}

proof fn lemma_unslashed_stops(s: Seq<char>, n: int)
    requires
        0 <= n <= s.len(),
    ensures
        unslashed(s, n) > 0 ==> s[unslashed(s, n) - 1] != '/',
    decreases n,
{
    if trails(s, n) {
        lemma_unslashed_stops(s, n - 1);
    }
}

/// The directory that holds a path.
pub fn parent_of(path: &str) -> (r: Option<String>)
    ensures
        match r {
            Some(d) => parent_dir(path@) == Some(d@),
            None => parent_dir(path@) is None,
        },
{
    let cs = chars_of(path);
    let len: usize = cs.len();
    let mut e: usize = len;
    while e > 0 && (cs[e - 1] == '/' || (e > 1 && cs[e - 1] == '.' && cs[e - 2] == '/'))
        invariant
            e <= len == cs@.len(),
            unslashed(cs@, len as int) == unslashed(cs@, e as int),
        decreases e,
    {
        e -= 1;
    }
    if e == 0 {
        return None;
    }
    let mut b: usize = e;
    while b > 0 && cs[b - 1] != '/'
        invariant
            b <= e <= len == cs@.len(),
            part_start(cs@, e as int) == part_start(cs@, b as int),
        decreases b,
    {
        b -= 1;
    }
    if b == 0 {
        return Some(String::new());
    }
    let mut d: usize = b;
    while d > 0 && (cs[d - 1] == '/' || (d > 1 && cs[d - 1] == '.' && cs[d - 2] == '/'))
        invariant
            d <= b <= len == cs@.len(),
            unslashed(cs@, b as int) == unslashed(cs@, d as int),
        decreases d,
    {
        d -= 1;
    }
    let n: usize = if d == 0 {
        1
    } else {
        d
    };
    let r = string_of(&cs, 0, n);
    assert(r@ =~= cs@.take(n as int));
    Some(r)
}

} // verus!
