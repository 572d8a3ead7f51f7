//! Names: scopes and segments of qualified names, words of a header, and the
//! module that a file stands for.

use crate::path::{file_stem, normal_parts};
use crate::text::{
    after_last, chars_of, cut_after_last, ends_with, has_suffix, join, same, string_of, views,
};
use vstd::prelude::*;

verus! {

/// The name within the scope.
pub open spec fn scoped(scope: Seq<char>, name: Seq<char>) -> Seq<char> {
    if scope.len() == 0 {
        name
    } else if name.len() == 0 {
        scope
    } else {
        scope + "::"@ + name
    }
}

/// The name within the scope.
pub fn join_scope(scope: &str, name: &str) -> (r: String)
    ensures
        r@ == scoped(scope@, name@),
{
    if scope.is_empty() {
        name.to_owned()
    } else if name.is_empty() {
        scope.to_owned()
    } else {
        let mut out = scope.to_owned();
        out.append("::");
        out.append(name);
        out
    }
}

/// The last segment of a path with `::` between its segments.
pub open spec fn last_segment(path: Seq<char>) -> Seq<char> {
    after_last(path, "::"@)
}

pub fn segment_text(path: &str) -> (r: String)
    ensures
        r@ == last_segment(path@),
{
    cut_after_last(path, "::")
}

/// A dot or a colon.
pub open spec fn is_sep(c: char) -> bool {
    c == '.' || c == ':'
}

/// Where the first `n` characters end without dots and colons at the end.
pub open spec fn seg_end(s: Seq<char>, n: int) -> int
    decreases n,
{
    if n <= 0 {
        0
    } else if is_sep(s[n - 1]) {
        seg_end(s, n - 1)
    } else {
        n
    }
}

/// Where the last segment of the first `n` characters starts.
pub open spec fn seg_start(s: Seq<char>, n: int) -> int
    decreases n,
{
    if n <= 0 || is_sep(s[n - 1]) {
        n
    } else {
        seg_start(s, n - 1)
    }
}

/// The last segment that is not empty, with dots or colons between the segments;
/// the whole text where there is none.
pub open spec fn last_dotted(s: Seq<char>) -> Seq<char> {
    let e = seg_end(s, s.len() as int);
    if e <= 0 {
        s
    } else {
        s.subrange(seg_start(s, e), e)
    }
}

pub fn dotted_text(s: &str) -> (r: String)
    ensures
        r@ == last_dotted(s@),
{
    let cs = chars_of(s);
    let len: usize = cs.len();
    let mut e: usize = len;
    while e > 0 && (cs[e - 1] == '.' || cs[e - 1] == ':')
        invariant
            e <= len == cs@.len(),
            seg_end(cs@, len as int) == seg_end(cs@, e as int),
        decreases e,
    {
        e -= 1;
    }
    if e == 0 {
        return s.to_owned();
    }
    let mut b: usize = e;
    while b > 0 && cs[b - 1] != '.' && cs[b - 1] != ':'
        invariant
            b <= e <= len == cs@.len(),
            seg_start(cs@, e as int) == seg_start(cs@, b as int),
        decreases b,
    {
        b -= 1;
    }
    string_of(&cs, b, e)
}

/// Dashes, dots and blanks become underscores.
pub open spec fn plain_char(c: char) -> char {
    if c == '-' || c == '.' || c == ' ' {
        '_'
    } else {
        c
    }
}

pub open spec fn sanitized(s: Seq<char>) -> Seq<char> {
    s.map_values(|c: char| plain_char(c))
}

pub fn sanitize(s: &str) -> (r: String)
    ensures
        r@ == sanitized(s@),
{
    let cs = chars_of(s);
    let ghost want = sanitized(s@);
    let mut out = String::new();
    let mut i: usize = 0;
    assert(out@ =~= want.take(0));
    while i < cs.len()
        invariant
            i <= cs@.len() == want.len(),
            cs@ == s@,
            want == sanitized(s@),
            out@ == want.take(i as int),
        decreases cs@.len() - i,
    {
        let c: char = cs[i];
        out.push(if c == '-' || c == '.' || c == ' ' { '_' } else { c });
        assert(want.take(i + 1) =~= want.take(i as int).push(want[i as int]));
        i += 1;
    }
    assert(want.take(want.len() as int) =~= want);
    out
}

/// The text without the suffix, where it ends with it.
pub open spec fn without_suffix(s: Seq<char>, suffix: Seq<char>) -> Option<Seq<char>> {
    if ends_with(s, suffix) {
        Some(s.take(s.len() - suffix.len()))
    } else {
        None
    }
}

pub fn strip_suffix(s: &str, suffix: &str) -> (r: Option<String>)
    ensures
        match r {
            Some(t) => without_suffix(s@, suffix@) == Some(t@),
            None => without_suffix(s@, suffix@) is None,
        },
{
    if has_suffix(s, suffix) {
        let cs = chars_of(s);
        let n: usize = chars_of(suffix).len();
        Some(string_of(&cs, 0, cs.len() - n))
    } else {
        None
    }
}

// -- words ------------------------------------------------------------------------

/// The character is a letter or a digit, as `char::is_alphanumeric` tells it.
pub uninterp spec fn is_alnum(c: char) -> bool;

/// `char::is_alphanumeric`: whether the character is a letter or a number by
/// Unicode's general categories.
#[verifier::external_body]
pub(crate) fn alnum(c: char) -> (r: bool)
    ensures
        r == is_alnum(c),
{
    c.is_alphanumeric()
}

/// The character is upper case, as `char::is_uppercase` tells it.
pub uninterp spec fn is_upper(c: char) -> bool;

/// `char::is_uppercase`: whether the character has Unicode's property `Uppercase`.
#[verifier::external_body]
pub(crate) fn upper(c: char) -> (r: bool)
    ensures
        r == is_upper(c),
{
    c.is_uppercase()
}

/// The text starts with an upper case letter.
pub open spec fn starts_upper(s: Seq<char>) -> bool {
    s.len() > 0 && is_upper(s[0])
}

pub fn has_upper_start(s: &str) -> (r: bool)
    ensures
        r == starts_upper(s@),
{
    let cs = chars_of(s);
    cs.len() > 0 && upper(cs[0])
}

/// A character of a word.
pub open spec fn is_word_char(c: char) -> bool {
    is_alnum(c) || c == '_'
}

/// The word that starts at `start` is `word`, or one after it is; the characters up
/// to `i` are known to belong to it.
pub open spec fn has_word_from(s: Seq<char>, word: Seq<char>, start: int, i: int) -> bool
    decreases s.len() - i,
{
    if i >= s.len() {
        s.subrange(start, s.len() as int) == word
    } else if is_word_char(s[i]) {
        has_word_from(s, word, start, i + 1)
    } else {
        s.subrange(start, i) == word || has_word_from(s, word, i + 1, i + 1)
    }
}

/// One of the words of the text is `word`.
pub open spec fn has_word(s: Seq<char>, word: Seq<char>) -> bool {
    has_word_from(s, word, 0, 0)
}

pub fn contains_word(s: &str, word: &str) -> (r: bool)
    ensures
        r == has_word(s@, word@),
{
    let cs = chars_of(s);
    let len: usize = cs.len();
    let mut start: usize = 0;
    let mut i: usize = 0;
    while i < len
        invariant
            start <= i <= len == cs@.len(),
            cs@ == s@,
            has_word(s@, word@) == has_word_from(s@, word@, start as int, i as int),
        decreases len - i,
    {
        if !(cs[i] == '_' || alnum(cs[i])) {
            if same(string_of(&cs, start, i).as_str(), word) {
                return true;
            }
            start = i + 1;
        }
        i += 1;
    }
    same(string_of(&cs, start, len).as_str(), word)
}

// -- modules ------------------------------------------------------------------------

/// The last place of `x` among the first `n` of `parts`.
pub open spec fn last_place(parts: Seq<Seq<char>>, x: Seq<char>, n: int) -> Option<int>
    decreases n,
{
    if n <= 0 || n > parts.len() {
        None
    } else if parts[n - 1] == x {
        Some(n - 1)
    } else {
        last_place(parts, x, n - 1)
    }
}

pub open spec fn sanitized_all(parts: Seq<Seq<char>>) -> Seq<Seq<char>> {
    parts.map_values(|p: Seq<char>| sanitized(p))
}

/// `name` without `suffix`, or as it is.
pub open spec fn stripped(name: Seq<char>, suffix: Seq<char>) -> Seq<char> {
    match without_suffix(name, suffix) {
        Some(s) => s,
        None => name,
    }
}

/// The modules that the parts below a source directory stand for: the directories,
/// and the file unless it stands for its directory.
pub open spec fn rust_modules(after: Seq<Seq<char>>) -> Seq<Seq<char>> {
    if after.len() == 0 {
        Seq::empty()
    } else {
        let dirs = sanitized_all(after.drop_last());
        let stem = stripped(after.last(), ".rs"@);
        if stem == "lib"@ || stem == "main"@ || stem == "mod"@ {
            dirs
        } else {
            dirs.push(sanitized(stem))
        }
    }
}

/// The module of a Rust file: the directory above the last `src`, then the modules
/// below it; the file's stem where there is no `src`.
pub open spec fn rust_module(path: Seq<char>) -> Seq<char> {
    let comps = normal_parts(path);
    match last_place(comps, "src"@, comps.len() as int) {
        Some(p) => {
            let home = if p > 0 {
                sanitized(comps[p - 1])
            } else {
                "crate"@
            };
            join(seq![home] + rust_modules(comps.skip(p + 1)), "::"@)
        },
        None => match file_stem(path) {
            Some(s) => sanitized(s),
            None => "crate"@,
        },
    }
}

/// The stem of a Python file name.
pub open spec fn python_stem(name: Seq<char>) -> Seq<char> {
    match without_suffix(name, ".pyi"@) {
        Some(s) => s,
        None => stripped(name, ".py"@),
    }
}

/// The module of a Python file: its directories and its stem; a package file stands
/// for its directory.
pub open spec fn python_module(path: Seq<char>) -> Seq<char> {
    let comps = normal_parts(path);
    if comps.len() == 0 {
        "module"@
    } else {
        let stem = python_stem(comps.last());
        let all = if stem == "__init__"@ {
            comps.drop_last()
        } else {
            comps.drop_last().push(stem)
        };
        if all.len() == 0 {
            "module"@
        } else {
            join(sanitized_all(all), "::"@)
        }
    }
}

/// The stem of a TypeScript file name.
pub open spec fn ts_stem(name: Seq<char>) -> Seq<char> {
    if ends_with(name, ".d.ts"@) {
        without_suffix(name, ".d.ts"@)->0
    } else if ends_with(name, ".tsx"@) {
        without_suffix(name, ".tsx"@)->0
    } else if ends_with(name, ".ts"@) {
        without_suffix(name, ".ts"@)->0
    } else if ends_with(name, ".mts"@) {
        without_suffix(name, ".mts"@)->0
    } else if ends_with(name, ".cts"@) {
        without_suffix(name, ".cts"@)->0
    } else if ends_with(name, ".jsx"@) {
        without_suffix(name, ".jsx"@)->0
    } else {
        stripped(name, ".js"@)
    }
}

/// The parts without a leading `src`.
pub open spec fn below_src(comps: Seq<Seq<char>>) -> Seq<Seq<char>> {
    if comps.len() > 0 && comps[0] == "src"@ {
        comps.skip(1)
    } else {
        comps
    }
}

/// The module of a TypeScript file: its directories below `src` and its stem; an
/// index file stands for its directory.
pub open spec fn ts_module(path: Seq<char>) -> Seq<char> {
    let comps = below_src(normal_parts(path));
    if comps.len() == 0 {
        "module"@
    } else {
        let dirs = sanitized_all(comps.drop_last());
        let stem = ts_stem(comps.last());
        let mods = if stem == "index"@ {
            dirs
        } else {
            dirs.push(sanitized(stem))
        };
        if mods.len() == 0 {
            "module"@
        } else {
            join(mods, "::"@)
        }
    }
}

/// The module of a Go file that names no package: its stem.
pub open spec fn go_module(path: Seq<char>) -> Seq<char> {
    match file_stem(path) {
        Some(s) => sanitized(s),
        None => "main"@,
    }
}

/// Append the sanitized parts `from..to`.
pub(crate) fn push_sanitized(out: &mut Vec<String>, parts: &Vec<String>, from: usize, to: usize)
    requires
        from <= to <= parts@.len(),
    ensures
        views(final(out)@) == views(old(out)@) + sanitized_all(
            views(parts@).subrange(from as int, to as int),
        ),
{
    let ghost start = views(out@);
    let ghost want = sanitized_all(views(parts@).subrange(from as int, to as int));
    let mut i: usize = from;
    assert(start + want.take(0) =~= start);
    while i < to
        invariant
            from <= i <= to <= parts@.len(),
            want == sanitized_all(views(parts@).subrange(from as int, to as int)),
            views(out@) == start + want.take(i - from),
        decreases to - i,
    {
        let s = sanitize(parts[i].as_str());
        let ghost had = out@;
        out.push(s);
        proof {
            assert(views(parts@)[i as int] == parts@[i as int]@);
            assert(want[i - from] == s@);
            assert(views(out@) =~= views(had).push(s@));
            assert(start + want.take(i + 1 - from) =~= (start + want.take(i - from)).push(s@));
        }
        i += 1;
    }
    assert(want.take(to - from) =~= want);
}

pub(crate) fn push_view(out: &mut Vec<String>, s: String)
    ensures
        views(final(out)@) == views(old(out)@).push(s@),
{
    let ghost had = out@;
    out.push(s);
    assert(views(out@) =~= views(had).push(s@));
}

pub(crate) fn strip_or_keep(name: &str, suffix: &str) -> (r: String)
    ensures
        r@ == stripped(name@, suffix@),
{
    match strip_suffix(name, suffix) {
        Some(s) => s,
        None => name.to_owned(),
    }
}

} // verus!
