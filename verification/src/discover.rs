//! Which files of a repository are read, and in what order.

use crate::config::Config;
use crate::order::{
    arrange, key_views, lemma_key_lt_total, lemma_order_exists, placed_before, sort_order,
    stable_order, text_key, KeyModel, SortKey,
};
use crate::path::{extension, extension_of, parts};
use crate::seqs::{gather, lemma_filter_has, views_of};
use crate::text::{concat2, lemma_text_lt_total, same, split_text, text_lt, views};
use vstd::prelude::*;

verus! {

/// The rules that leave out a directory and what is in it.
pub open spec fn directory_rules(name: Seq<char>) -> Seq<Seq<char>> {
    seq!["!"@ + name, "!**/"@ + name + "/**"@]
}

/// The rules of a walk: those for the directories that are always skipped, then one
/// for each pattern of the configuration. A leading `!` makes a rule leave out what
/// it matches.
pub open spec fn walk_rules(config: Config) -> Seq<Seq<char>> {
    directory_rules("target"@) + directory_rules("node_modules"@) + directory_rules("dist"@)
        + directory_rules(".git"@) + views(config.adapter.exclude@).map_values(
        |p: Seq<char>| "!"@ + p,
    )
}

fn push_directory(out: &mut Vec<String>, name: &str)
    ensures
        views(final(out)@) == views(old(out)@) + directory_rules(name@),
{
    let ghost before = views(out@);
    out.push(concat2("!", name));
    let mut all = concat2("!**/", name);
    all.append("/**");
    out.push(all);
    assert(views(out@) =~= before + directory_rules(name@));
}

/// The rules of a walk, in order.
pub fn exclude_rules(config: &Config) -> (r: Vec<String>)
    ensures
        views(r@) == walk_rules(*config),
{
    let mut out: Vec<String> = Vec::new();
    assert(views(out@) =~= Seq::empty());
    push_directory(&mut out, "target");
    push_directory(&mut out, "node_modules");
    push_directory(&mut out, "dist");
    push_directory(&mut out, ".git");
    let ghost front = views(out@);
    let patterns = &config.adapter.exclude;
    let ghost more = views(patterns@).map_values(|p: Seq<char>| "!"@ + p);
    let mut i: usize = 0;
    while i < patterns.len()
        invariant
            i <= patterns@.len(),
            more == views(patterns@).map_values(|p: Seq<char>| "!"@ + p),
            views(out@) =~= front + more.take(i as int),
        decreases patterns@.len() - i,
    {
        let ghost before = views(out@);
        let rule = concat2("!", patterns[i].as_str());
        proof {
            assert(more[i as int] == rule@);
            assert(more.take(i + 1) =~= more.take(i as int).push(rule@));
            assert(views(out@.push(rule)) =~= before.push(rule@));
        }
        out.push(rule);
        i += 1;
    }
    proof {
        assert(more.take(more.len() as int) =~= more);
        assert(views(out@) =~= walk_rules(*config));
    }
    out
}

/// The file has one of these extensions.
pub open spec fn wanted(path: Seq<char>, endings: Seq<Seq<char>>) -> bool {
    extension(path) matches Some(e) && endings.contains(e)
}

/// Whether the file has one of these extensions.
pub fn is_wanted(path: &str, extensions: &Vec<&'static str>) -> (r: bool)
    ensures
        r == wanted(path@, views_of(extensions@)),
{
    if let Some(e) = extension_of(path) {
        let mut i: usize = 0;
        while i < extensions.len()
            invariant
                i <= extensions@.len(),
                extension(path@) == Some(e@),
                forall|j: int| 0 <= j < i ==> #[trigger] views_of(extensions@)[j] != e@,
            decreases extensions@.len() - i,
        {
            if same(extensions[i], e.as_str()) {
                assert(views_of(extensions@)[i as int] == e@);
                return true;
            }
            i += 1;
        }
    }
    false
}

/// What a part of a path weighs in the order of paths: the root comes before a leading
/// dot, that before a step upward, that before names; names go by their characters.
/// Each weight ends in a mark that comes before all characters, so a name comes before
/// those that it begins. Empty parts and inner dots weigh nothing.
pub open spec fn part_weight(ps: Seq<Seq<char>>) -> spec_fn(int) -> Seq<char> {
    |i: int|
        if ps[i].len() == 0 {
            if i == 0 && ps.len() > 1 {
                "\u{1}\0"@
            } else {
                ""@
            }
        } else if ps[i] == "."@ {
            if i == 0 {
                "\u{2}\0"@
            } else {
                ""@
            }
        } else if ps[i] == ".."@ {
            "\u{3}\0"@
        } else {
            "\u{4}"@ + ps[i] + "\0"@
        }
}

/// The text by which paths are ordered: part by part.
pub open spec fn path_weight(path: Seq<char>) -> Seq<char> {
    gather(parts(path).len() as int, part_weight(parts(path)))
}

fn weight_text(path: &str) -> (r: String)
    ensures
        r@ == path_weight(path@),
{
    proof {
        reveal_strlit("/");
        reveal_strlit("");
    }
    let ps = split_text(path, "/");
    let ghost all = views(ps@);
    let ghost f = part_weight(all);
    let mut out = String::new();
    let mut i: usize = 0;
    assert(out@ =~= Seq::empty());
    while i < ps.len()
        invariant
            i <= ps@.len(),
            all == views(ps@),
            f == part_weight(all),
            ""@.len() == 0,
            out@ == gather(i as int, f),
        decreases ps@.len() - i,
    {
        let ghost before = out@;
        let part = ps[i].as_str();
        assert(all[i as int] == part@);
        if part.is_empty() {
            if i == 0 && ps.len() > 1 {
                out.append("\u{1}\0");
            }
        } else if same(part, ".") {
            if i == 0 {
                out.append("\u{2}\0");
            }
        } else if same(part, "..") {
            out.append("\u{3}\0");
        } else {
            let mut w = concat2("\u{4}", part);
            w.append("\0");
            out.append(w.as_str());
        }
        assert(out@ =~= before + f(i as int));
        i += 1;
    }
    out
}

pub open spec fn path_keys(paths: Seq<Seq<char>>) -> Seq<KeyModel> {
    paths.map_values(|p: Seq<char>| text_key(Seq::empty(), path_weight(p)))
}

/// The files that are read: those with a wanted extension, in the order of paths.
pub open spec fn selected(paths: Seq<Seq<char>>, endings: Seq<Seq<char>>) -> Seq<Seq<char>> {
    let chosen = paths.filter(|p: Seq<char>| wanted(p, endings));
    arrange(chosen, path_keys(chosen))
}

/// Of the files of a walk those that are read, in a fixed order.
pub fn select_files(paths: &Vec<String>, extensions: &Vec<&'static str>) -> (r: Vec<String>)
    ensures
        views(r@) == selected(views(paths@), views_of(extensions@)),
{
    let ghost endings = views_of(extensions@);
    let ghost keep = |p: Seq<char>| wanted(p, endings);
    let ghost all = views(paths@);
    let mut chosen: Vec<String> = Vec::new();
    let mut keys: Vec<SortKey> = Vec::new();
    let mut i: usize = 0;
    proof {
        reveal(Seq::filter);
        assert(all.take(0).filter(keep) =~= Seq::empty());
        assert(views(chosen@) =~= Seq::empty());
        assert(key_views(keys@) =~= path_keys(Seq::empty()));
    }
    while i < paths.len()
        invariant
            i <= paths@.len(),
            all == views(paths@),
            endings == views_of(extensions@),
            keep == (|p: Seq<char>| wanted(p, endings)),
            views(chosen@) == all.take(i as int).filter(keep),
            key_views(keys@) == path_keys(views(chosen@)),
        decreases paths@.len() - i,
    {
        let ghost before = views(chosen@);
        proof {
            reveal(Seq::filter);
            assert(all.take(i + 1).drop_last() =~= all.take(i as int));
            assert(all.take(i + 1).last() == paths@[i as int]@);
        }
        let path = &paths[i];
        if is_wanted(path.as_str(), extensions) {
            let ranks: Vec<u64> = Vec::new();
            let key = SortKey { ranks, text: weight_text(path.as_str()), minor: 0 };
            assert(key@ == text_key(Seq::empty(), path_weight(path@))) by {
                assert(key@.ranks =~= Seq::empty());
            }
            let ghost kept = keys@;
            keys.push(key);
            chosen.push(path.clone());
            proof {
                assert(views(chosen@) =~= before.push(path@));
                assert(key_views(keys@) =~= key_views(kept).push(key@));
                assert(path_keys(before.push(path@)) =~= path_keys(before).push(key@));
            }
        }
        i += 1;
    }
    assert(all.take(all.len() as int) =~= all);
    let order = sort_order(&keys);
    let ghost want = arrange(views(chosen@), key_views(keys@));
    let mut out: Vec<String> = Vec::new();
    let mut j: usize = 0;
    assert(views(out@) =~= want.take(0));
    while j < order.len()
        invariant
            j <= order@.len() == want.len(),
            keys@.len() == chosen@.len(),
            want == arrange(views(chosen@), key_views(keys@)),
            order@.map_values(|x: usize| x as int) == stable_order(key_views(keys@)),
            forall|x: int| 0 <= x < order@.len() ==> #[trigger] order@[x] < keys@.len(),
            views(out@) == want.take(j as int),
        decreases order@.len() - j,
    {
        let s = chosen[order[j]].clone();
        proof {
            let p = order@.map_values(|x: usize| x as int);
            assert(p[j as int] == order@[j as int]);
            assert(want[j as int] == s@);
            assert(want.take(j + 1) =~= want.take(j as int).push(s@));
            assert(views(out@.push(s)) =~= views(out@).push(s@));
        }
        out.push(s);
        j += 1;
    }
    assert(want.take(want.len() as int) =~= want);
    out
}

/// What is read is what was found with a wanted extension, nothing more or less.
pub proof fn law_selected_are_the_wanted(
    paths: Seq<Seq<char>>,
    endings: Seq<Seq<char>>,
    path: Seq<char>,
)
    ensures
        selected(paths, endings).contains(path) <==> paths.contains(path) && wanted(path, endings),
{
    let keep = |p: Seq<char>| wanted(p, endings);
    let chosen = paths.filter(keep);
    let keys = path_keys(chosen);
    lemma_filter_has(paths, keep);
    lemma_order_exists(keys);
    let p = stable_order(keys);
    let s = selected(paths, endings);
    if s.contains(path) {
        let i = s.index_of(path);
        assert(chosen[p[i]] == path);
    }
    if chosen.contains(path) {
        let x = chosen.index_of(path);
        assert(p.contains(x));
        assert(s[p.index_of(x)] == path);
    }
}

/// The path comes before the other in the order of paths.
spec fn comes_before(a: Seq<char>, b: Seq<char>) -> bool {
    text_lt(path_weight(a), path_weight(b))
}

/// Each path comes before all that follow it.
spec fn ascending(s: Seq<Seq<char>>) -> bool {
    forall|i: int, j: int| 0 <= i < j < s.len() ==> comes_before(#[trigger] s[i], #[trigger] s[j])
}

/// No two of the paths weigh the same.
pub open spec fn told_apart(paths: Seq<Seq<char>>) -> bool {
    forall|i: int, j: int|
        0 <= i < j < paths.len() ==> path_weight(#[trigger] paths[i]) != path_weight(
            #[trigger] paths[j],
        )
}

proof fn lemma_selected_ascends(paths: Seq<Seq<char>>, endings: Seq<Seq<char>>)
    requires
        told_apart(paths),
    ensures
        ascending(selected(paths, endings)),
{
    let keep = |p: Seq<char>| wanted(p, endings);
    let chosen = paths.filter(keep);
    let keys = path_keys(chosen);
    lemma_order_exists(keys);
    let p = stable_order(keys);
    let s = selected(paths, endings);
    lemma_filter_told_apart(paths, keep);
    assert forall|i: int, j: int| 0 <= i < j < s.len() implies comes_before(
        #[trigger] s[i],
        #[trigger] s[j],
    ) by {
        assert(placed_before(keys, p[i], p[j]));
        lemma_key_lt_total(keys[p[i]], keys[p[j]]);
        assert(p[i] != p[j]);
        assert(path_weight(chosen[p[i]]) != path_weight(chosen[p[j]]));
    }
}

proof fn lemma_filter_told_apart(paths: Seq<Seq<char>>, keep: spec_fn(Seq<char>) -> bool)
    requires
        told_apart(paths),
    ensures
        told_apart(paths.filter(keep)),
    decreases paths.len(),
{
    reveal(Seq::filter);
    if paths.len() > 0 {
        let front = paths.drop_last();
        assert(told_apart(front)) by {
            assert forall|i: int, j: int| 0 <= i < j < front.len() implies path_weight(
                #[trigger] front[i],
            ) != path_weight(#[trigger] front[j]) by {
                assert(front[i] == paths[i] && front[j] == paths[j]);
            }
        }
        lemma_filter_told_apart(front, keep);
        lemma_filter_has(front, keep);
        let short = front.filter(keep);
        let long = paths.filter(keep);
        assert forall|i: int, j: int| 0 <= i < j < long.len() implies path_weight(
            #[trigger] long[i],
        ) != path_weight(#[trigger] long[j]) by {
            assert(long[i] == short[i]);
            if j < short.len() {
                assert(long[j] == short[j]);
            } else {
                assert(short.contains(short[i]));
                let k = front.index_of(short[i]);
                assert(paths[k] == short[i]);
                assert(long[j] == paths[paths.len() - 1]);
            }
        }
    }
}

/// Ascending lists of the same paths agree place by place.
proof fn lemma_same_ascending(s: Seq<Seq<char>>, t: Seq<Seq<char>>, i: int)
    requires
        ascending(s),
        ascending(t),
        forall|p: Seq<char>| #[trigger] s.contains(p) <==> t.contains(p),
        0 <= i < s.len(),
    ensures
        i < t.len(),
        s[i] == t[i],
    decreases i,
{
    assert forall|k: int| 0 <= k < i implies k < t.len() && s[k] == t[k] by {
        lemma_same_ascending(s, t, k);
    }
    assert(s.contains(s[i]));
    let j = t.index_of(s[i]);
    assert(t[j] == s[i]);
    if j < i {
        assert(s[j] == s[i]);
        assert(comes_before(s[j], s[i]));
        lemma_text_lt_total(path_weight(s[i]), path_weight(s[i]));
    }
    if j > i {
        assert(comes_before(t[i], t[j]));
        assert(t.contains(t[i]));
        assert(s.contains(t[i]));
        let m = s.index_of(t[i]);
        assert(s[m] == t[i]);
        if m < i {
            assert(t[m] == t[i]);
            assert(comes_before(t[m], t[i]));
            lemma_text_lt_total(path_weight(t[i]), path_weight(t[i]));
        } else {
            if m > i {
                assert(comes_before(s[i], s[m]));
            }
            lemma_text_lt_total(path_weight(s[i]), path_weight(t[i]));
        }
    }
}

/// The order in which a walk finds the files makes no difference: two walks that find
/// the same files, no two of them with the same place, give the same list.
pub proof fn law_walk_order_makes_no_difference(
    a: Seq<Seq<char>>,
    b: Seq<Seq<char>>,
    endings: Seq<Seq<char>>,
)
    requires
        told_apart(a),
        told_apart(b),
        forall|p: Seq<char>| #[trigger] a.contains(p) <==> b.contains(p),
    ensures
        selected(a, endings) == selected(b, endings),
{
    let s = selected(a, endings);
    let t = selected(b, endings);
    lemma_selected_ascends(a, endings);
    lemma_selected_ascends(b, endings);
    assert forall|p: Seq<char>| #[trigger] s.contains(p) <==> t.contains(p) by {
        law_selected_are_the_wanted(a, endings, p);
        law_selected_are_the_wanted(b, endings, p);
        assert(a.contains(p) <==> b.contains(p));
    }
    assert forall|i: int| 0 <= i < s.len() implies i < t.len() && s[i] == t[i] by {
        lemma_same_ascending(s, t, i);
    }
    if s.len() > 0 {
        lemma_same_ascending(s, t, s.len() - 1);
    }
    if t.len() > 0 {
        lemma_same_ascending(t, s, t.len() - 1);
    }
    assert(s =~= t);
}

} // verus!
