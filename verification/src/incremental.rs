//! Incremental parsing: only the files whose content has changed are read again.

use crate::adapter::{
    fragments_for, graph_result, AdapterError, AdapterErrorModel, LanguageAdapter,
    RustTreeSitterAdapter,
};
use crate::cache::{hash_text, path_set, text_hash, CacheModel, FragmentCache};
use crate::fragment::{FileFragment, FragmentModel};
use crate::graph::{CodeGraph, GraphModel};
use crate::path::{normal, normals};
use crate::seqs::{lemma_push_has, lemma_views_push, views_of};
use crate::source::{SourceFile, SourceModel};
use crate::syntax::{grammar_failure, Grammar};
use crate::text::views;
use vstd::prelude::*;

verus! {

/// The fragments of files and the cache after they were gathered: what the cache holds
/// of an unchanged file is taken from it, any other file is read and put in. The first
/// error ends it.
pub open spec fn refreshed<A: LanguageAdapter>(
    adapter: A,
    cache: CacheModel,
    files: Seq<SourceModel>,
) -> (CacheModel, Result<Seq<FragmentModel>, AdapterErrorModel>)
    decreases files.len(),
{
    if files.len() == 0 {
        (cache, Ok(Seq::empty()))
    } else {
        let (c, r) = refreshed(adapter, cache, files.drop_last());
        let f = files.last();
        match r {
            Err(e) => (c, Err(e)),
            Ok(fs) => match c.found(f.path, text_hash(f.text)) {
                Some(kept) => (c, Ok(fs.push(kept))),
                None => match adapter.file_outcome(f) {
                    Err(e) => (c, Err(e)),
                    Ok(x) => (c.with(f.path, text_hash(f.text), x), Ok(fs.push(x))),
                },
            },
        }
    }
}

/// The normal forms of the paths of files.
pub open spec fn file_paths(files: Seq<SourceModel>) -> Seq<Seq<char>> {
    files.map_values(|f: SourceModel| normal(f.path))
}

/// The cache after a batch of files: where all could be read, only their entries stay.
pub open spec fn cache_after<A: LanguageAdapter>(
    adapter: A,
    cache: CacheModel,
    files: Seq<SourceModel>,
) -> CacheModel {
    let (c, r) = refreshed(adapter, cache, files);
    if !adapter.incremental() {
        cache
    } else if r is Ok {
        c.kept(file_paths(files).to_set())
    } else {
        c
    }
}

/// The graph of a batch of files, or the first error. An adapter that is not
/// incremental reads the whole batch.
pub open spec fn incremental_outcome<A: LanguageAdapter>(
    adapter: A,
    cache: CacheModel,
    files: Seq<SourceModel>,
) -> Result<GraphModel, AdapterErrorModel> {
    if !adapter.incremental() {
        adapter.outcome(files)
    } else {
        match refreshed(adapter, cache, files).1 {
            Err(e) => Err(e),
            Ok(fs) => adapter.link_outcome(fs),
        }
    }
}

/// An error in the first files ends the gathering.
proof fn lemma_stopped<A: LanguageAdapter>(
    adapter: A,
    cache: CacheModel,
    files: Seq<SourceModel>,
    k: int,
)
    requires
        0 <= k <= files.len(),
        refreshed(adapter, cache, files.take(k)).1 is Err,
    ensures
        refreshed(adapter, cache, files) == refreshed(adapter, cache, files.take(k)),
    decreases files.len(),
{
    if k < files.len() {
        assert(files.drop_last().take(k) =~= files.take(k));
        lemma_stopped(adapter, cache, files.drop_last(), k);
    } else {
        assert(files.take(k) =~= files);
    }
}

/// Read a batch of files into one graph, with the help of the fragments that the cache
/// holds of unchanged files. The cache then holds the fragments of these files and no
/// others.
pub fn parse_incremental<A: LanguageAdapter>(
    adapter: &A,
    files: &Vec<SourceFile>,
    cache: &mut FragmentCache,
) -> (r: Result<CodeGraph, AdapterError>)
    requires
        old(cache).wf(),
    ensures
        final(cache).wf(),
        final(cache)@ == cache_after(*adapter, old(cache)@, views_of(files@)),
        graph_result(r) == incremental_outcome(*adapter, old(cache)@, views_of(files@)),
        r is Ok ==> r->Ok_0.wf(),
{
    if !adapter.supports_incremental() {
        return adapter.parse(files);
    }
    let ghost all = views_of(files@);
    let ghost start = cache@;
    let mut fragments: Vec<FileFragment> = Vec::new();
    let mut paths: Vec<String> = Vec::new();
    let mut i: usize = 0;
    assert(all.take(0) =~= Seq::empty());
    assert(views_of(fragments@) =~= Seq::<FragmentModel>::empty());
    assert(normals(views(paths@)) =~= file_paths(all).take(0));
    while i < files.len()
        invariant
            i <= files@.len(),
            all == views_of(files@),
            adapter.incremental(),
            start == old(cache)@,
            cache.wf(),
            refreshed(*adapter, start, all.take(i as int)) == (
                cache@,
                Ok::<Seq<FragmentModel>, AdapterErrorModel>(views_of(fragments@)),
            ),
            normals(views(paths@)) == file_paths(all).take(i as int),
        decreases files@.len() - i,
    {
        let f = &files[i];
        proof {
            assert(all[i as int] == f@);
            assert(all.take(i + 1).drop_last() =~= all.take(i as int));
            assert(all.take(i + 1).last() == f@);
        }
        let hash: u64 = hash_text(f.text.as_str());
        let kept: Option<FileFragment> = match cache.get(f.path.as_str(), hash) {
            Some(x) => Some(x.clone()),
            None => None,
        };
        let fragment = match kept {
            Some(x) => x,
            None => match adapter.extract_fragment(f) {
                Ok(x) => {
                    cache.insert(f.path.clone(), hash, x.clone());
                    x
                },
                Err(e) => {
                    proof {
                        lemma_stopped(*adapter, start, all, i + 1);
                    }
                    return Err(e);
                },
            },
        };
        proof {
            lemma_views_push(fragments@, fragment);
        }
        fragments.push(fragment);
        let path = f.path.clone();
        proof {
            let want = file_paths(all);
            assert(want[i as int] == normal(path@));
            assert(want.take(i + 1) =~= want.take(i as int).push(normal(path@)));
            assert(normals(views(paths@.push(path))) =~= normals(views(paths@)).push(
                normal(path@),
            ));
        }
        paths.push(path);
        i += 1;
    }
    proof {
        assert(all.take(all.len() as int) =~= all);
        assert(file_paths(all).take(all.len() as int) =~= file_paths(all));
    }
    cache.retain(&paths);
    assert(path_set(paths@) == file_paths(all).to_set());
    adapter.resolve_fragments(&fragments)
}

// -- laws -----------------------------------------------------------------------------

/// What the cache holds of an unchanged file is what reading the file gives.
pub open spec fn faithful<A: LanguageAdapter>(
    adapter: A,
    cache: CacheModel,
    files: Seq<SourceModel>,
) -> bool {
    forall|i: int|
        0 <= i < files.len() ==> (cache.found(
            (#[trigger] files[i]).path,
            text_hash(files[i].text),
        ) matches Some(x) ==> adapter.file_outcome(files[i]) == Ok::<
            FragmentModel,
            AdapterErrorModel,
        >(x))
}

/// No path stands for two files.
pub open spec fn one_file_per_path(files: Seq<SourceModel>) -> bool {
    forall|i: int, j: int|
        0 <= i < j < files.len() ==> normal((#[trigger] files[i]).path) != normal(
            (#[trigger] files[j]).path,
        )
}

/// Gathering leaves the entries of other paths as they are.
proof fn lemma_untouched<A: LanguageAdapter>(
    adapter: A,
    cache: CacheModel,
    files: Seq<SourceModel>,
    p: Seq<char>,
    h: u64,
)
    requires
        !file_paths(files).contains(normal(p)),
    ensures
        refreshed(adapter, cache, files).0.found(p, h) == cache.found(p, h),
    decreases files.len(),
{
    if files.len() > 0 {
        let front = files.drop_last();
        assert(file_paths(files) =~= file_paths(front).push(normal(files.last().path)));
        lemma_push_has(file_paths(front), normal(files.last().path));
        lemma_untouched(adapter, cache, front, p, h);
    }
}

/// The fragments are what reading the files gives, and the cache holds them.
spec fn held<A: LanguageAdapter>(
    adapter: A,
    c: CacheModel,
    files: Seq<SourceModel>,
    fs: Seq<FragmentModel>,
) -> bool {
    &&& fs.len() == files.len()
    &&& forall|i: int|
        0 <= i < files.len() ==> adapter.file_outcome(#[trigger] files[i]) == Ok::<
            FragmentModel,
            AdapterErrorModel,
        >(fs[i])
    &&& forall|i: int|
        0 <= i < files.len() ==> c.found((#[trigger] files[i]).path, text_hash(files[i].text))
            == Some(fs[i])
}

/// The file at place `k` is the first that cannot be read.
spec fn refused_at<A: LanguageAdapter>(
    adapter: A,
    files: Seq<SourceModel>,
    k: int,
    e: AdapterErrorModel,
) -> bool {
    &&& 0 <= k < files.len()
    &&& adapter.file_outcome(files[k]) == Err::<FragmentModel, AdapterErrorModel>(e)
    &&& forall|i: int| 0 <= i < k ==> adapter.file_outcome(#[trigger] files[i]) is Ok
}

/// Gathering with a faithful cache gives what reading the files gives.
proof fn lemma_refreshed<A: LanguageAdapter>(
    adapter: A,
    cache: CacheModel,
    files: Seq<SourceModel>,
)
    requires
        faithful(adapter, cache, files),
        one_file_per_path(files),
    ensures
        match refreshed(adapter, cache, files).1 {
            Ok(fs) => held(adapter, refreshed(adapter, cache, files).0, files, fs),
            Err(e) => exists|k: int| refused_at(adapter, files, k, e),
        },
    decreases files.len(),
{
    if files.len() > 0 {
        let front = files.drop_last();
        let f = files.last();
        let n = front.len() as int;
        assert(files[n] == f);
        assert forall|i: int| 0 <= i < n implies front[i] == files[i] by {}
        assert(faithful(adapter, cache, front)) by {
            assert forall|i: int| 0 <= i < front.len() implies (cache.found(
                (#[trigger] front[i]).path,
                text_hash(front[i].text),
            ) matches Some(x) ==> adapter.file_outcome(front[i]) == Ok::<
                FragmentModel,
                AdapterErrorModel,
            >(x)) by {
                assert(front[i] == files[i]);
            }
        }
        assert(one_file_per_path(front)) by {
            assert forall|i: int, j: int| 0 <= i < j < front.len() implies normal(
                (#[trigger] front[i]).path,
            ) != normal((#[trigger] front[j]).path) by {
                assert(front[i] == files[i] && front[j] == files[j]);
            }
        }
        lemma_refreshed(adapter, cache, front);
        let c = refreshed(adapter, cache, front).0;
        let h = text_hash(f.text);
        assert(c.found(f.path, h) == cache.found(f.path, h)) by {
            if file_paths(front).contains(normal(f.path)) {
                let i = choose|i: int|
                    0 <= i < front.len() && file_paths(front)[i] == normal(f.path);
                assert(normal(files[i].path) == normal(files[n].path));
            }
            lemma_untouched(adapter, cache, front, f.path, h);
        }
        match refreshed(adapter, cache, front).1 {
            Ok(fs) => {
                lemma_one_more(adapter, c, files, fs, f, h);
            },
            Err(e) => {
                let k = choose|k: int| refused_at(adapter, front, k, e);
                assert(refused_at(adapter, files, k, e)) by {
                    assert(files[k] == front[k]);
                    assert forall|i: int| 0 <= i < k implies adapter.file_outcome(
                        #[trigger] files[i],
                    ) is Ok by {
                        assert(files[i] == front[i]);
                    }
                }
            },
        }
    }
}

/// One more file, taken from the cache or read.
proof fn lemma_one_more<A: LanguageAdapter>(
    adapter: A,
    c: CacheModel,
    files: Seq<SourceModel>,
    fs: Seq<FragmentModel>,
    f: SourceModel,
    h: u64,
)
    requires
        files.len() > 0,
        f == files.last(),
        h == text_hash(f.text),
        one_file_per_path(files),
        held(adapter, c, files.drop_last(), fs),
        c.found(f.path, h) matches Some(x) ==> adapter.file_outcome(f) == Ok::<
            FragmentModel,
            AdapterErrorModel,
        >(x),
    ensures
        c.found(f.path, h) matches Some(x) ==> held(adapter, c, files, fs.push(x)),
        c.found(f.path, h) is None ==> match adapter.file_outcome(f) {
            Ok(x) => held(adapter, c.with(f.path, h, x), files, fs.push(x)),
            Err(e) => refused_at(adapter, files, files.len() - 1, e),
        },
{
    let front = files.drop_last();
    let n = front.len() as int;
    assert(files[n] == f);
    assert forall|i: int| 0 <= i < n implies adapter.file_outcome(#[trigger] files[i]) == Ok::<
        FragmentModel,
        AdapterErrorModel,
    >(fs[i]) && c.found(files[i].path, text_hash(files[i].text)) == Some(fs[i]) && normal(
        files[i].path,
    ) != normal(f.path) by {
        assert(files[i] == front[i]);
        assert(normal(files[i].path) != normal(files[n].path));
    }
}

/// The first file that cannot be read gives the error of the batch.
proof fn lemma_first_refused(files: Seq<SourceModel>, k: int, e: AdapterErrorModel)
    requires
        refused_at(RustTreeSitterAdapter, files, k, e),
    ensures
        fragments_for(files) == Err::<Seq<FragmentModel>, AdapterErrorModel>(e),
    decreases files.len(),
{
    let front = files.drop_last();
    if k < front.len() {
        assert(front[k] == files[k]);
        assert forall|i: int| 0 <= i < k implies RustTreeSitterAdapter.file_outcome(
            #[trigger] front[i],
        ) is Ok by {
            assert(front[i] == files[i]);
        }
        lemma_first_refused(front, k, e);
    } else {
        lemma_all_read(front, front.len() as int, files);
        assert(files.last() == files[k]);
    }
}

proof fn lemma_all_read(front: Seq<SourceModel>, n: int, files: Seq<SourceModel>)
    requires
        0 <= n <= files.len(),
        front == files.take(n),
        forall|i: int| 0 <= i < n ==> RustTreeSitterAdapter.file_outcome(#[trigger] files[i]) is Ok,
    ensures
        fragments_for(front) is Ok,
    decreases n,
{
    if n > 0 {
        assert(front.drop_last() =~= files.take(n - 1));
        lemma_all_read(front.drop_last(), n - 1, files);
        assert(front.last() == files[n - 1]);
    }
}

/// The graph does not depend on what the cache holds: with a faithful cache the outcome
/// is that of reading every file anew.
pub proof fn law_cached_run_matches_cold_run(cache: CacheModel, files: Seq<SourceModel>)
    requires
        grammar_failure(Grammar::Rust) is None,
        one_file_per_path(files),
        faithful(RustTreeSitterAdapter, cache, files),
    ensures
        incremental_outcome(RustTreeSitterAdapter, cache, files) == RustTreeSitterAdapter.outcome(
            files,
        ),
{
    lemma_refreshed(RustTreeSitterAdapter, cache, files);
    match refreshed(RustTreeSitterAdapter, cache, files).1 {
        Ok(fs) => {
            crate::adapter::law_incremental_matches_parse(files, fs);
        },
        Err(e) => {
            let k = choose|k: int| refused_at(RustTreeSitterAdapter, files, k, e);
            lemma_first_refused(files, k, e);
        },
    }
}

/// After a run in which every file could be read, the cache holds exactly the files of
/// the run, each as reading it gives it.
pub proof fn law_cache_holds_the_run<A: LanguageAdapter>(
    adapter: A,
    cache: CacheModel,
    files: Seq<SourceModel>,
)
    requires
        adapter.incremental(),
        one_file_per_path(files),
        faithful(adapter, cache, files),
        refreshed(adapter, cache, files).1 is Ok,
    ensures
        forall|p: Seq<char>| #[trigger]
            cache_after(adapter, cache, files).entries.contains_key(p) <==> file_paths(
                files,
            ).contains(p),
        forall|i: int|
            0 <= i < files.len() ==> match cache_after(adapter, cache, files).found(
                (#[trigger] files[i]).path,
                text_hash(files[i].text),
            ) {
                Some(x) => adapter.file_outcome(files[i]) == Ok::<
                    FragmentModel,
                    AdapterErrorModel,
                >(x),
                None => false,
            },
{
    lemma_refreshed(adapter, cache, files);
    let c = refreshed(adapter, cache, files).0;
    let keep = file_paths(files).to_set();
    assert forall|i: int| 0 <= i < files.len() implies keep.contains(
        normal((#[trigger] files[i]).path),
    ) by {
        assert(file_paths(files)[i] == normal(files[i].path));
    }
    assert forall|p: Seq<char>| #[trigger]
        cache_after(adapter, cache, files).entries.contains_key(p) <==> file_paths(
            files,
        ).contains(p) by {
        if file_paths(files).contains(p) {
            let i = choose|i: int| 0 <= i < files.len() && file_paths(files)[i] == p;
            assert(c.found(files[i].path, text_hash(files[i].text)) is Some);
        }
    }
}

/// A second run on the same files reads none of them again: it leaves the cache as it
/// is, unchanged and not marked as changed.
pub proof fn law_unchanged_files_are_not_read_again<A: LanguageAdapter>(
    adapter: A,
    cache: CacheModel,
    files: Seq<SourceModel>,
)
    requires
        adapter.incremental(),
        one_file_per_path(files),
        faithful(adapter, cache, files),
        refreshed(adapter, cache, files).1 is Ok,
    ensures
        ({
            let once = cache_after(adapter, cache, files);
            &&& cache_after(adapter, once, files) == once
            &&& refreshed(adapter, once, files).1 == refreshed(adapter, cache, files).1
        }),
{
    lemma_refreshed(adapter, cache, files);
    law_cache_holds_the_run(adapter, cache, files);
    let once = cache_after(adapter, cache, files);
    let fs = refreshed(adapter, cache, files).1->Ok_0;
    lemma_all_found(adapter, once, files, fs, files.len() as int);
    assert(files.take(files.len() as int) =~= files);
    assert(fs.take(files.len() as int) =~= fs);
    assert(once.entries.restrict(file_paths(files).to_set()) =~= once.entries);
    assert(once.entries.dom().subset_of(file_paths(files).to_set()));
    assert(once.kept(file_paths(files).to_set()) =~= once);
}

proof fn lemma_all_found<A: LanguageAdapter>(
    adapter: A,
    cache: CacheModel,
    files: Seq<SourceModel>,
    fs: Seq<FragmentModel>,
    n: int,
)
    requires
        0 <= n <= files.len() == fs.len(),
        forall|i: int|
            0 <= i < files.len() ==> cache.found(
                (#[trigger] files[i]).path,
                text_hash(files[i].text),
            ) == Some(fs[i]),
    ensures
        refreshed(adapter, cache, files.take(n)) == (
            cache,
            Ok::<Seq<FragmentModel>, AdapterErrorModel>(fs.take(n)),
        ),
    decreases n,
{
    if n > 0 {
        lemma_all_found(adapter, cache, files, fs, n - 1);
        assert(files.take(n).drop_last() =~= files.take(n - 1));
        assert(files.take(n).last() == files[n - 1]);
        assert(fs.take(n) =~= fs.take(n - 1).push(fs[n - 1]));
    } else {
        assert(files.take(0) =~= Seq::empty());
        assert(fs.take(0) =~= Seq::empty());
    }
}

/// Two front ends that read each file alike gather alike.
pub proof fn lemma_same_gathering<A: LanguageAdapter, B: LanguageAdapter>(
    a: A,
    b: B,
    cache: CacheModel,
    files: Seq<SourceModel>,
)
    requires
        forall|f: SourceModel| #[trigger] a.file_outcome(f) == b.file_outcome(f),
    ensures
        refreshed(a, cache, files) == refreshed(b, cache, files),
    decreases files.len(),
{
    if files.len() > 0 {
        lemma_same_gathering(a, b, cache, files.drop_last());
        assert(a.file_outcome(files.last()) == b.file_outcome(files.last()));
    }
}

} // verus!
