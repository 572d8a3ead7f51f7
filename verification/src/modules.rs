//! Which module a source file stands for, read off the parts of its path, and what
//! splitting and joining texts have to do with each other.

use crate::naming::{
    below_src, go_module, last_place, python_module, python_stem, rust_module, rust_modules, sanitized,
    sanitized_all, ts_module, ts_stem, without_suffix,
};
use crate::path::{extension, file_name, is_normal, last_part, normal_parts, parts};
use crate::text::{
    find, join, lemma_find_from, occurs_at, rfind_upto, split,
};
use vstd::prelude::*;

verus! {

// -- splitting and joining ----------------------------------------------------------

proof fn lemma_join_front(ps: Seq<Seq<char>>, sep: Seq<char>)
    requires
        ps.len() >= 2,
    ensures
        join(ps, sep) == ps[0] + sep + join(ps.skip(1), sep),
    decreases ps.len(),
{
    let rest = ps.skip(1);
    if ps.len() == 2 {
        assert(ps.drop_last() =~= seq![ps[0]]);
        assert(rest =~= seq![ps[1]]);
        assert(join(ps.drop_last(), sep) == ps[0]);
    } else {
        lemma_join_front(ps.drop_last(), sep);
        assert(ps.drop_last().skip(1) =~= rest.drop_last());
        assert(join(ps, sep) =~= ps[0] + sep + join(rest, sep));
    }
}

/// Putting the pieces of a text together again gives the text, and a piece never
/// holds what the text was split by.
pub proof fn law_pieces_make_the_text(s: Seq<char>, sep: Seq<char>)
    requires
        sep.len() > 0,
    ensures
        split(s, sep).len() > 0,
        join(split(s, sep), sep) == s,
        forall|k: int, i: int|
            0 <= k < split(s, sep).len() && 0 <= i && i + sep.len() <= split(s, sep)[k].len()
                ==> #[trigger] split(s, sep)[k].subrange(i, i + sep.len()) != sep,
    decreases s.len(),
{
    lemma_find_from(s, sep, 0);
    match find(s, sep) {
        Some(at) => {
            let rest = s.skip(at + sep.len());
            let got = split(s, sep);
            law_pieces_make_the_text(rest, sep);
            assert(got == seq![s.take(at)] + split(rest, sep));
            assert(got.skip(1) =~= split(rest, sep));
            lemma_join_front(got, sep);
            assert(s =~= s.take(at) + sep + rest) by {
                assert(s.subrange(at, at + sep.len()) == sep);
                assert(forall|j: int|
                    0 <= j < sep.len() ==> sep[j] == #[trigger] s.subrange(at, at + sep.len())[j]);
                assert forall|j: int| 0 <= j < s.len() implies s[j] == #[trigger] (s.take(at) + sep
                    + rest)[j] by {
                    if at <= j < at + sep.len() {
                        assert(s.subrange(at, at + sep.len())[j - at] == s[j]);
                    }
                }
            }
            assert forall|k: int, i: int|
                0 <= k < got.len() && 0 <= i && i + sep.len() <= got[k].len() implies #[trigger] got[k].subrange(
                i,
                i + sep.len(),
            ) != sep by {
                if k == 0 {
                    assert(got[0] == s.take(at));
                    assert(got[0].subrange(i, i + sep.len()) =~= s.subrange(i, i + sep.len()));
                    assert(!occurs_at(s, sep, i));
                } else {
                    assert(got[k] == split(rest, sep)[k - 1]);
                }
            }
        },
        None => {
            let got = split(s, sep);
            assert(got == seq![s]);
            assert forall|k: int, i: int|
                0 <= k < got.len() && 0 <= i && i + sep.len() <= got[k].len() implies #[trigger] got[k].subrange(
                i,
                i + sep.len(),
            ) != sep by {
                assert(!occurs_at(s, sep, i));
            }
        },
    }
}

/// Splitting what was put together with a character that no piece holds gives the
/// pieces back.
pub proof fn law_joined_pieces_come_apart(ps: Seq<Seq<char>>, sep: Seq<char>)
    requires
        ps.len() > 0,
        sep.len() == 1,
        forall|k: int, i: int|
            0 <= k < ps.len() && 0 <= i < ps[k].len() ==> #[trigger] ps[k][i] != sep[0],
    ensures
        split(join(ps, sep), sep) == ps,
    decreases ps.len(),
{
    let s = join(ps, sep);
    lemma_find_from(s, sep, 0);
    if ps.len() == 1 {
        if let Some(at) = find(s, sep) {
            assert(s.subrange(at, at + 1)[0] == s[at]);
            assert(ps[0][at] != sep[0]);
        }
        assert(split(s, sep) =~= ps);
    } else {
        let rest = ps.skip(1);
        let n = ps[0].len() as int;
        lemma_join_front(ps, sep);
        assert forall|k: int, i: int| 0 <= k < rest.len() && 0 <= i < rest[k].len() implies #[trigger] rest[k][i]
            != sep[0] by {
            assert(ps[k + 1][i] != sep[0]);
        }
        law_joined_pieces_come_apart(rest, sep);
        assert(s.subrange(n, n + 1) =~= sep);
        assert(occurs_at(s, sep, n));
        assert(find(s, sep) is Some);
        let at = find(s, sep)->0;
        if at < n {
            assert(s.subrange(at, at + 1)[0] == s[at]);
            assert(s[at] == ps[0][at]);
        }
        assert(at == n);
        assert(s.take(n) =~= ps[0]);
        assert(s.skip(n + 1) =~= join(rest, sep));
        assert(split(s, sep) =~= ps);
    }
}

// -- parts of a path ----------------------------------------------------------------

/// The name of a file or a directory.
pub open spec fn entry(p: Seq<char>) -> bool {
    &&& p.len() > 0
    &&& p != "."@
    &&& p != ".."@
    &&& forall|i: int| 0 <= i < p.len() ==> #[trigger] p[i] != '/'
}

pub open spec fn entries(ps: Seq<Seq<char>>) -> bool {
    forall|k: int| 0 <= k < ps.len() ==> entry(#[trigger] ps[k])
}

/// The path that leads through `ps`.
pub open spec fn through(ps: Seq<Seq<char>>) -> Seq<char> {
    join(ps, "/"@)
}

/// The name as a module is called: `-`, `.` and a blank turn into `_`.
pub open spec fn plain(s: Seq<char>) -> Seq<char> {
    Seq::new(
        s.len(),
        |i: int|
            if s[i] == '-' || s[i] == '.' || s[i] == ' ' {
                '_'
            } else {
                s[i]
            },
    )
}

pub open spec fn plains(ps: Seq<Seq<char>>) -> Seq<Seq<char>> {
    Seq::new(ps.len(), |k: int| plain(ps[k]))
}

/// The module that a file adds to those of its directories, unless it stands for its
/// directory.
pub open spec fn own(stem: Seq<char>, whole: bool) -> Seq<Seq<char>> {
    if whole {
        Seq::empty()
    } else {
        seq![plain(stem)]
    }
}

proof fn lemma_plain(s: Seq<char>, ps: Seq<Seq<char>>)
    ensures
        sanitized(s) == plain(s),
        sanitized_all(ps) == plains(ps),
{
    assert(sanitized(s) =~= plain(s));
    assert forall|k: int| 0 <= k < ps.len() implies sanitized_all(ps)[k] == #[trigger] plains(ps)[k] by {
        assert(sanitized(ps[k]) =~= plain(ps[k]));
    }
    assert(sanitized_all(ps) =~= plains(ps));
}

proof fn lemma_all_normal(ps: Seq<Seq<char>>)
    requires
        entries(ps),
    ensures
        ps.filter(|p: Seq<char>| is_normal(p)) == ps,
    decreases ps.len(),
{
    reveal(Seq::filter);
    if ps.len() > 0 {
        assert(entry(ps[ps.len() - 1]));
        lemma_all_normal(ps.drop_last());
        assert(ps.drop_last().push(ps.last()) =~= ps);
    }
}

proof fn lemma_through(ps: Seq<Seq<char>>)
    requires
        ps.len() > 0,
        entries(ps),
    ensures
        parts(through(ps)) == ps,
        normal_parts(through(ps)) == ps,
        file_name(through(ps)) == Some(ps.last()),
{
    reveal_strlit("/");
    assert forall|k: int, i: int| 0 <= k < ps.len() && 0 <= i < ps[k].len() implies #[trigger] ps[k][i]
        != "/"@[0] by {
        assert(entry(ps[k]));
    }
    law_joined_pieces_come_apart(ps, "/"@);
    lemma_all_normal(ps);
    assert(entry(ps[ps.len() - 1]));
    assert(last_part(ps, ps.len() as int) == Some(ps.last()));
}

proof fn lemma_last_place(ps: Seq<Seq<char>>, x: Seq<char>, n: int, at: int)
    requires
        0 <= at < n <= ps.len(),
        ps[at] == x,
        forall|k: int| at < k < n ==> #[trigger] ps[k] != x,
    ensures
        last_place(ps, x, n) == Some(at),
    decreases n,
{
    if at < n - 1 {
        assert(ps[n - 1] != x);
        lemma_last_place(ps, x, n - 1, at);
    }
}

proof fn lemma_suffixed(stem: Seq<char>, end: Seq<char>)
    ensures
        without_suffix(stem + end, end) == Some(stem),
        occurs_at(stem + end, end, stem.len() as int),
{
    let name = stem + end;
    assert(name.subrange(stem.len() as int, name.len() as int) =~= end);
    assert(name.take(stem.len() as int) =~= stem);
}

proof fn lemma_src()
    ensures
        entry("src"@),
{
    reveal_strlit("src");
    reveal_strlit(".");
    reveal_strlit("..");
    let s = "src"@;
    assert(s.len() == 3);
    assert("."@.len() == 1);
    assert(".."@.len() == 2);
    assert(s[0] == 's' && s[1] == 'r' && s[2] == 'c');
}

proof fn lemma_src_parts(above: Seq<Seq<char>>, below: Seq<Seq<char>>, stem: Seq<char>)
    requires
        entries(above),
        entries(below),
        !below.contains("src"@),
        entry(stem + ".rs"@),
    ensures
        entries(above + seq!["src"@] + below + seq![stem + ".rs"@]),
        last_place(
            above + seq!["src"@] + below + seq![stem + ".rs"@],
            "src"@,
            (above + seq!["src"@] + below + seq![stem + ".rs"@]).len() as int,
        ) == Some(above.len() as int),
{
    let x = "src"@;
    let file = stem + ".rs"@;
    let ps = above + seq![x] + below + seq![file];
    let at = above.len() as int;
    lemma_src();
    assert(file != x) by {
        reveal_strlit("src");
        reveal_strlit(".rs");
        assert(".rs"@[2] == 's');
        assert(file[file.len() - 1] == 's');
        assert("src"@[2] == 'c');
    }
    assert(ps[at] == x);
    assert forall|k: int| 0 <= k < ps.len() implies entry(#[trigger] ps[k]) by {
        if k < at {
            assert(ps[k] == above[k]);
        } else if at < k < ps.len() - 1 {
            assert(ps[k] == below[k - at - 1]);
        }
    }
    assert forall|k: int| at < k < ps.len() implies #[trigger] ps[k] != x by {
        if k < ps.len() - 1 {
            assert(ps[k] == below[k - at - 1]);
            assert(below.contains(ps[k]));
        }
    }
    lemma_last_place(ps, x, ps.len() as int, at);
}

proof fn lemma_rust_named(
    path: Seq<char>,
    above: Seq<Seq<char>>,
    below: Seq<Seq<char>>,
    stem: Seq<char>,
)
    requires
        normal_parts(path) == above + seq!["src"@] + below + seq![stem + ".rs"@],
        last_place(normal_parts(path), "src"@, normal_parts(path).len() as int) == Some(
            above.len() as int,
        ),
    ensures
        rust_module(path) == join(
            seq![
                if above.len() > 0 {
                    plain(above.last())
                } else {
                    "crate"@
                },
            ] + plains(below) + own(stem, stem == "lib"@ || stem == "main"@ || stem == "mod"@),
            "::"@,
        ),
{
    let file = stem + ".rs"@;
    let ps = normal_parts(path);
    let at = above.len() as int;
    let after = ps.skip(at + 1);
    assert(after =~= below + seq![file]);
    assert(after.drop_last() =~= below);
    assert(after.last() == file);
    lemma_suffixed(stem, ".rs"@);
    lemma_plain(stem, below);
    if at > 0 {
        assert(ps[at - 1] == above.last());
        lemma_plain(above.last(), below);
    }
    let home = if at > 0 {
        plain(above.last())
    } else {
        "crate"@
    };
    let whole = stem == "lib"@ || stem == "main"@ || stem == "mod"@;
    let mods = rust_modules(after);
    assert(mods =~= plains(below) + own(stem, whole));
    assert(seq![home] + plains(below) + own(stem, whole) =~= seq![home] + mods);
    assert(rust_module(path) == join(seq![home] + mods, "::"@));
}

/// The module of a Rust file is called by what its path holds from the last `src` on:
/// the directory above it (`crate` where there is none), the directories below it and
/// the file, unless that is `lib.rs`, `main.rs` or `mod.rs`.
pub proof fn law_rust_files_are_modules(
    above: Seq<Seq<char>>,
    below: Seq<Seq<char>>,
    stem: Seq<char>,
)
    requires
        entries(above),
        entries(below),
        !below.contains("src"@),
        entry(stem + ".rs"@),
    ensures
        rust_module(through(above + seq!["src"@] + below + seq![stem + ".rs"@])) == join(
            seq![
                if above.len() > 0 {
                    plain(above.last())
                } else {
                    "crate"@
                },
            ] + plains(below) + own(stem, stem == "lib"@ || stem == "main"@ || stem == "mod"@),
            "::"@,
        ),
{
    let ps = above + seq!["src"@] + below + seq![stem + ".rs"@];
    lemma_src_parts(above, below, stem);
    lemma_through(ps);
    lemma_rust_named(through(ps), above, below, stem);
}

/// The module of a Python file is called by its directories and its stem; a package
/// file stands for its directory.
pub proof fn law_python_files_are_modules(
    dirs: Seq<Seq<char>>,
    stem: Seq<char>,
    end: Seq<char>,
)
    requires
        entries(dirs),
        entry(stem + end),
        end == ".py"@ || end == ".pyi"@,
        dirs.len() > 0 || stem != "__init__"@,
    ensures
        python_module(through(dirs + seq![stem + end])) == join(
            plains(dirs) + own(stem, stem == "__init__"@),
            "::"@,
        ),
{
    reveal_strlit(".py");
    reveal_strlit(".pyi");
    let file = stem + end;
    let ps = dirs + seq![file];
    assert(entries(ps)) by {
        assert forall|k: int| 0 <= k < ps.len() implies entry(#[trigger] ps[k]) by {
            if k < dirs.len() {
                assert(ps[k] == dirs[k]);
            }
        }
    }
    lemma_through(ps);
    assert(ps.drop_last() =~= dirs);
    lemma_suffixed(stem, end);
    if end == ".py"@ && file.len() >= 4 {
        let n = file.len() as int;
        assert(file[n - 1] == 'y');
        assert(file.subrange(n - 4, n)[3] == file[n - 1]);
        assert(".pyi"@[3] == 'i');
        assert(!occurs_at(file, ".pyi"@, n - 4));
    }
    assert(python_stem(file) == stem);
    lemma_plain(stem, dirs);
    lemma_plain(stem, dirs.push(stem));
    assert(plains(dirs.push(stem)) =~= plains(dirs) + own(stem, false));
    assert(plains(dirs) =~= plains(dirs) + own(stem, true));
}

/// The endings of TypeScript and JavaScript files.
pub open spec fn script_end(end: Seq<char>) -> bool {
    end == ".ts"@ || end == ".tsx"@ || end == ".mts"@ || end == ".cts"@ || end == ".js"@ || end
        == ".jsx"@ || end == ".d.ts"@
}

proof fn lemma_ends(name: Seq<char>, end: Seq<char>)
    ensures
        occurs_at(name, end, name.len() - end.len()) <==> end.len() <= name.len() && forall|i: int|
            0 <= i < end.len() ==> #[trigger] end[i] == name[name.len() - end.len() + i],
{
    let a = name.len() - end.len();
    if a >= 0 {
        let t = name.subrange(a, name.len() as int);
        if t == end {
            assert forall|i: int| 0 <= i < end.len() implies #[trigger] end[i] == name[a + i] by {
                assert(t[i] == name[a + i]);
            }
        }
        if forall|i: int| 0 <= i < end.len() ==> #[trigger] end[i] == name[a + i] {
            assert(t =~= end);
        }
    }
}

proof fn lemma_script_stem(stem: Seq<char>, end: Seq<char>)
    requires
        script_end(end),
        end == ".ts"@ ==> !(stem.len() >= 2 && stem[stem.len() - 2] == '.' && stem[stem.len() - 1]
            == 'd'),
    ensures
        ts_stem(stem + end) == stem,
{
    reveal_strlit(".ts");
    reveal_strlit(".tsx");
    reveal_strlit(".mts");
    reveal_strlit(".cts");
    reveal_strlit(".js");
    reveal_strlit(".jsx");
    reveal_strlit(".d.ts");
    let name = stem + end;
    let n = name.len() as int;
    lemma_suffixed(stem, end);
    lemma_ends(name, ".d.ts"@);
    lemma_ends(name, ".tsx"@);
    lemma_ends(name, ".ts"@);
    lemma_ends(name, ".mts"@);
    lemma_ends(name, ".cts"@);
    lemma_ends(name, ".jsx"@);
    assert(".d.ts"@[0] == '.' && ".d.ts"@[1] == 'd' && ".d.ts"@[2] == '.' && ".d.ts"@[3] == 't'
        && ".d.ts"@[4] == 's');
    assert(".tsx"@[0] == '.' && ".tsx"@[1] == 't' && ".tsx"@[2] == 's' && ".tsx"@[3] == 'x');
    assert(".jsx"@[0] == '.' && ".jsx"@[1] == 'j' && ".jsx"@[2] == 's' && ".jsx"@[3] == 'x');
    assert(".mts"@[0] == '.' && ".mts"@[1] == 'm' && ".mts"@[2] == 't' && ".mts"@[3] == 's');
    assert(".cts"@[0] == '.' && ".cts"@[1] == 'c' && ".cts"@[2] == 't' && ".cts"@[3] == 's');
    assert(".ts"@[0] == '.' && ".ts"@[1] == 't' && ".ts"@[2] == 's');
    assert(".js"@[0] == '.' && ".js"@[1] == 'j' && ".js"@[2] == 's');
    assert(forall|i: int| 0 <= i < end.len() ==> name[stem.len() + i] == #[trigger] end[i]);
    assert(name[n - 1] == end[end.len() - 1]);
    assert(name[n - 2] == end[end.len() - 2]);
    assert(name[n - 3] == end[end.len() - 3]);
    if end.len() == 3 && stem.len() >= 2 {
        assert(name[n - 4] == stem[stem.len() - 1]);
        assert(name[n - 5] == stem[stem.len() - 2]);
    }
}

/// The parts of the path of a file, below `src` or not.
pub open spec fn script_parts(src: bool, dirs: Seq<Seq<char>>, file: Seq<char>) -> Seq<Seq<char>> {
    if src {
        seq!["src"@] + dirs + seq![file]
    } else {
        dirs + seq![file]
    }
}

proof fn lemma_script_end(stem: Seq<char>, end: Seq<char>)
    requires
        script_end(end),
    ensures
        stem + end != "src"@,
{
    reveal_strlit("src");
    reveal_strlit(".ts");
    reveal_strlit(".tsx");
    reveal_strlit(".mts");
    reveal_strlit(".cts");
    reveal_strlit(".js");
    reveal_strlit(".jsx");
    reveal_strlit(".d.ts");
    let file = stem + end;
    assert("src"@[2] == 'c');
    assert(end[end.len() - 1] == 's' || end[end.len() - 1] == 'x');
    assert(file[file.len() - 1] == end[end.len() - 1]);
}

proof fn lemma_script_parts(src: bool, dirs: Seq<Seq<char>>, file: Seq<char>)
    requires
        entries(dirs),
        entry(file),
        file != "src"@,
        !src && dirs.len() > 0 ==> dirs[0] != "src"@,
    ensures
        entries(script_parts(src, dirs, file)),
        below_src(script_parts(src, dirs, file)) == dirs + seq![file],
{
    let ps = script_parts(src, dirs, file);
    lemma_src();
    assert forall|k: int| 0 <= k < ps.len() implies entry(#[trigger] ps[k]) by {
        if src && 0 < k < ps.len() - 1 {
            assert(ps[k] == dirs[k - 1]);
        }
        if !src && k < ps.len() - 1 {
            assert(ps[k] == dirs[k]);
        }
    }
    if src {
        assert(ps.skip(1) =~= dirs + seq![file]);
    } else if dirs.len() > 0 {
        assert(ps[0] == dirs[0]);
    } else {
        assert(ps[0] == file);
    }
}

proof fn lemma_script_named(path: Seq<char>, dirs: Seq<Seq<char>>, stem: Seq<char>, file: Seq<char>)
    requires
        below_src(normal_parts(path)) == dirs + seq![file],
        ts_stem(file) == stem,
        dirs.len() > 0 || stem != "index"@,
    ensures
        ts_module(path) == join(plains(dirs) + own(stem, stem == "index"@), "::"@),
{
    let inner = dirs + seq![file];
    assert(inner.drop_last() =~= dirs);
    assert(inner.last() == file);
    lemma_plain(stem, dirs);
    assert(plains(dirs).push(plain(stem)) =~= plains(dirs) + own(stem, false));
    assert(plains(dirs) =~= plains(dirs) + own(stem, true));
}

/// The module of a TypeScript or JavaScript file is called by its directories, without
/// a leading `src`, and its stem; an index file stands for its directory.
pub proof fn law_typescript_files_are_modules(
    src: bool,
    dirs: Seq<Seq<char>>,
    stem: Seq<char>,
    end: Seq<char>,
)
    requires
        entries(dirs),
        entry(stem + end),
        script_end(end),
        end == ".ts"@ ==> !(stem.len() >= 2 && stem[stem.len() - 2] == '.' && stem[stem.len() - 1]
            == 'd'),
        !src && dirs.len() > 0 ==> dirs[0] != "src"@,
        dirs.len() > 0 || stem != "index"@,
    ensures
        ts_module(
            through(script_parts(src, dirs, stem + end)),
        ) == join(plains(dirs) + own(stem, stem == "index"@), "::"@),
{
    let ps = script_parts(src, dirs, stem + end);
    lemma_script_end(stem, end);
    lemma_script_parts(src, dirs, stem + end);
    lemma_through(ps);
    lemma_script_stem(stem, end);
    lemma_script_named(through(ps), dirs, stem, stem + end);
}

proof fn lemma_last_dot(name: Seq<char>, at: int, n: int)
    requires
        0 <= at <= n < name.len(),
        name[at] == '.',
        forall|k: int| at < k <= n ==> #[trigger] name[k] != '.',
    ensures
        rfind_upto(name, "."@, n) == Some(at),
    decreases n,
{
    reveal_strlit(".");
    assert(name.subrange(n, n + 1) =~= seq![name[n]]);
    assert("."@ =~= seq!['.']);
    if at < n {
        assert(name.subrange(n, n + 1)[0] == name[n]);
        lemma_last_dot(name, at, n - 1);
    }
}

/// The module of a Go file without a package clause is called by the file's stem.
pub proof fn law_go_files_are_modules(dirs: Seq<Seq<char>>, stem: Seq<char>)
    requires
        entries(dirs),
        entry(stem + ".go"@),
        stem.len() > 0,
    ensures
        go_module(through(dirs + seq![stem + ".go"@])) == plain(stem),
{
    reveal_strlit(".go");
    reveal_strlit(".");
    let file = stem + ".go"@;
    let ps = dirs + seq![file];
    assert forall|k: int| 0 <= k < ps.len() implies entry(#[trigger] ps[k]) by {
        if k < dirs.len() {
            assert(ps[k] == dirs[k]);
        }
    }
    lemma_through(ps);
    let at = stem.len() as int;
    assert(".go"@[0] == '.' && ".go"@[1] == 'g' && ".go"@[2] == 'o');
    assert(file[at] == '.' && file[at + 1] == 'g' && file[at + 2] == 'o');
    lemma_last_dot(file, at, at + 2);
    assert(file.take(at) =~= stem);
    lemma_plain(stem, dirs);
}

/// The extension of a file is what its name holds after the last dot.
pub proof fn law_extension_follows_the_last_dot(
    dirs: Seq<Seq<char>>,
    stem: Seq<char>,
    end: Seq<char>,
)
    requires
        entries(dirs),
        entry(stem + "."@ + end),
        stem.len() > 0,
        forall|i: int| 0 <= i < end.len() ==> #[trigger] end[i] != '.',
    ensures
        extension(through(dirs + seq![stem + "."@ + end])) == Some(end),
{
    reveal_strlit(".");
    let file = stem + "."@ + end;
    let ps = dirs + seq![file];
    assert forall|k: int| 0 <= k < ps.len() implies entry(#[trigger] ps[k]) by {
        if k < dirs.len() {
            assert(ps[k] == dirs[k]);
        }
    }
    lemma_through(ps);
    let at = stem.len() as int;
    assert forall|k: int| at < k <= file.len() - 1 implies #[trigger] file[k] != '.' by {
        assert(file[k] == end[k - at - 1]);
    }
    lemma_last_dot(file, at, file.len() - 1);
    assert(file.take(at) =~= stem);
    assert(file.skip(at + 1) =~= end);
}

} // verus!
