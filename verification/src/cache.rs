//! The per-file fragment cache behind incremental analysis.
//!
//! Each entry holds the fragment of one file under the file's path, with a hash of
//! the text that it was read from. A file whose hash has not changed need not be read
//! again.

use crate::fragment::{FileFragment, FragmentModel};
use crate::path::{join_path, normal, normal_text, normals, under};
use crate::text::{byte_len, bytes_in, same, views};
use std::collections::hash_map::DefaultHasher;
use std::hash::Hasher;
use vstd::bytes::{spec_u64_to_le_bytes, u64_to_le_bytes};
use vstd::hash_map::StringHashMap;
use vstd::hash_set::StringHashSet;
use vstd::prelude::*;
use vstd::std_specs::hash::DefaultHasherAdditionalSpecFns;
use vstd::string::*;

verus! {

/// The version of the cache's layout. A cache of another version is not used.
pub const CACHE_VERSION: u32 = 1;

/// One file's fragment and the hash of the text that it was read from.
#[derive(Debug)]
pub struct CacheEntry {
    pub path: String,
    pub hash: u64,
    pub fragment: FileFragment,
}

/// The mathematical content of a [`CacheEntry`].
pub struct EntryModel {
    pub path: Seq<char>,
    pub hash: u64,
    pub fragment: FragmentModel,
}

impl CacheEntry {
    pub open spec fn content(self) -> EntryModel {
        EntryModel { path: self.path@, hash: self.hash, fragment: self.fragment@ }
    }

    /// What the entry is found under: the normal form of its path.
    pub open spec fn key(self) -> Seq<char> {
        normal(self.path@)
    }
}

/// The fragments of one repository, as one adapter reads them.
pub struct FragmentCache {
    version: u32,
    adapter: String,
    entries: Vec<CacheEntry>,
    places: StringHashMap<usize>,
    dirty: bool,
}

/// The mathematical content of a [`FragmentCache`].
#[verifier::ext_equal]
pub struct CacheModel {
    pub version: u32,
    /// The adapter that read the fragments.
    pub adapter: Seq<char>,
    /// The entries by the normal forms of their paths.
    pub entries: Map<Seq<char>, EntryModel>,
    /// Something has changed since the cache was loaded.
    pub dirty: bool,
}

/// The entries with one more, or with one replaced; that one keeps the spelling of its
/// path.
pub open spec fn entered(entries: Map<Seq<char>, EntryModel>, e: EntryModel) -> Map<
    Seq<char>,
    EntryModel,
> {
    let key = normal(e.path);
    let path = if entries.contains_key(key) {
        entries[key].path
    } else {
        e.path
    };
    entries.insert(key, EntryModel { path, ..e })
}

impl CacheModel {
    /// An empty cache for an adapter.
    pub open spec fn empty(adapter: Seq<char>) -> CacheModel {
        CacheModel { version: CACHE_VERSION, adapter, entries: Map::empty(), dirty: false }
    }

    /// The fragment of a path, where it was read from a text of this hash.
    pub open spec fn found(self, path: Seq<char>, hash: u64) -> Option<FragmentModel> {
        let key = normal(path);
        if self.entries.contains_key(key) && self.entries[key].hash == hash {
            Some(self.entries[key].fragment)
        } else {
            None
        }
    }

    pub open spec fn with(self, path: Seq<char>, hash: u64, fragment: FragmentModel) -> CacheModel {
        CacheModel {
            entries: entered(self.entries, EntryModel { path, hash, fragment }),
            dirty: true,
            ..self
        }
    }

    /// Only the entries of these paths, in their normal forms.
    pub open spec fn kept(self, keep: Set<Seq<char>>) -> CacheModel {
        CacheModel {
            entries: self.entries.restrict(keep),
            dirty: self.dirty || !self.entries.dom().subset_of(keep),
            ..self
        }
    }
}

/// The entry of each path.
pub closed spec fn entry_map(entries: Seq<CacheEntry>, places: Map<Seq<char>, usize>) -> Map<
    Seq<char>,
    EntryModel,
> {
    Map::new(
        |p: Seq<char>| places.contains_key(p),
        |p: Seq<char>| entries[places[p] as int].content(),
    )
}

/// Each path leads to its entry, and each entry is found under its path's normal form.
pub closed spec fn placed(entries: Seq<CacheEntry>, places: Map<Seq<char>, usize>) -> bool {
    &&& forall|p: Seq<char>| #[trigger]
        places.contains_key(p) ==> places[p] < entries.len() && entries[places[p] as int].key() == p
    &&& forall|i: int|
        0 <= i < entries.len() ==> places.contains_key((#[trigger] entries[i]).key())
            && places[entries[i].key()] == i
}

impl View for FragmentCache {
    type V = CacheModel;

    closed spec fn view(&self) -> CacheModel {
        CacheModel {
            version: self.version,
            adapter: self.adapter@,
            entries: entry_map(self.entries@, self.places@),
            dirty: self.dirty,
        }
    }
}

/// The normal forms of the paths of the list.
pub open spec fn path_set(paths: Seq<String>) -> Set<Seq<char>> {
    normals(views(paths)).to_set()
}

/// Entries put into a map one after the other.
pub open spec fn filled(entries: Seq<CacheEntry>) -> Map<Seq<char>, EntryModel>
    decreases entries.len(),
{
    if entries.len() == 0 {
        Map::empty()
    } else {
        entered(filled(entries.drop_last()), entries.last().content())
    }
}

impl FragmentCache {
    /// Each path has one entry, and is found.
    pub closed spec fn wf(&self) -> bool {
        placed(self.entries@, self.places@)
    }

    /// An empty cache for an adapter.
    pub fn new(adapter: &str) -> (r: Self)
        ensures
            r.wf(),
            r@ == CacheModel::empty(adapter@),
    {
        let r = FragmentCache {
            version: CACHE_VERSION,
            adapter: adapter.to_owned(),
            entries: Vec::new(),
            places: StringHashMap::new(),
            dirty: false,
        };
        assert(r@ =~= CacheModel::empty(adapter@));
        r
    }

    /// A cache of stored entries; of two with the same path the later one counts.
    pub fn from_entries(version: u32, adapter: &str, entries: Vec<CacheEntry>) -> (r: Self)
        ensures
            r.wf(),
            r@ == (CacheModel {
                version,
                adapter: adapter@,
                entries: filled(entries@),
                dirty: false,
            }),
    {
        let ghost all = entries@;
        let mut r = FragmentCache::new(adapter);
        let mut rest = entries;
        let mut todo: Vec<CacheEntry> = Vec::new();
        while rest.len() > 0
            invariant
                rest@.len() + todo@.len() == all.len(),
                rest@ == all.take(rest@.len() as int),
                forall|i: int| 0 <= i < todo@.len() ==> #[trigger] todo@[i] == all[all.len() - 1 - i],
            decreases rest@.len(),
        {
            if let Some(e) = rest.pop() {
                todo.push(e);
            }
        }
        while todo.len() > 0
            invariant
                r.wf(),
                r@.version == CACHE_VERSION,
                r@.adapter == adapter@,
                todo@.len() <= all.len(),
                forall|i: int| 0 <= i < todo@.len() ==> #[trigger] todo@[i] == all[all.len() - 1 - i],
                r@.entries == filled(all.take(all.len() - todo@.len())),
            decreases todo@.len(),
        {
            let ghost k = all.len() - todo@.len();
            if let Some(e) = todo.pop() {
                assert(all.take(k + 1).drop_last() =~= all.take(k));
                assert(all.take(k + 1).last() == e);
                r.insert(e.path, e.hash, e.fragment);
            }
        }
        assert(all.take(all.len() as int) =~= all);
        r.version = version;
        r.dirty = false;
        r
    }

    /// What a stored cache is worth to an adapter: a cache of this version that the
    /// same adapter has read is used; in any other case the cache starts empty.
    pub fn load(stored: Option<FragmentCache>, adapter: &str) -> (r: Self)
        requires
            stored matches Some(c) ==> c.wf(),
        ensures
            r.wf(),
            r@ == match stored {
                Some(c) => if c@.version == CACHE_VERSION && c@.adapter == adapter@ {
                    CacheModel { dirty: false, ..c@ }
                } else {
                    CacheModel::empty(adapter@)
                },
                None => CacheModel::empty(adapter@),
            },
    {
        if let Some(c) = stored {
            if c.version == CACHE_VERSION && same(c.adapter.as_str(), adapter) {
                let mut c = c;
                c.dirty = false;
                return c;
            }
        }
        FragmentCache::new(adapter)
    }

    /// The fragment of a path, where it was read from a text of this hash.
    pub fn get(&self, path: &str, hash: u64) -> (r: Option<&FileFragment>)
        requires
            self.wf(),
        ensures
            (match r {
                Some(f) => Some(f@),
                None => None,
            }) == self@.found(path@, hash),
    {
        let key = normal_text(path);
        if let Some(i) = self.places.get(key.as_str()) {
            assert(self.places@.contains_key(key@));
            let e = &self.entries[*i];
            if e.hash == hash {
                return Some(&e.fragment);
            }
        }
        None
    }

    /// Put in the fragment of a path, or replace it.
    pub fn insert(&mut self, path: String, hash: u64, fragment: FileFragment)
        requires
            old(self).wf(),
        ensures
            final(self).wf(),
            final(self)@ == old(self)@.with(path@, hash, fragment@),
    {
        let key = normal_text(path.as_str());
        let ghost p = key@;
        let ghost before = self.entries@;
        let ghost places = self.places@;
        let ghost content = EntryModel { path: path@, hash, fragment: fragment@ };
        let known: Option<usize> = match self.places.get(key.as_str()) {
            Some(i) => Some(*i),
            None => None,
        };
        self.dirty = true;
        match known {
            Some(i) => {
                assert(places.contains_key(p));
                let first = self.entries[i].path.clone();
                self.entries.set(i, CacheEntry { path: first, hash, fragment });
                proof {
                    assert(placed(self.entries@, self.places@)) by {
                        assert forall|q: Seq<char>| #[trigger] places.contains_key(q) implies places[q]
                            < self.entries@.len() && self.entries@[places[q] as int].key() == q by {}
                        assert forall|j: int| 0 <= j < self.entries@.len() implies places.contains_key(
                            (#[trigger] self.entries@[j]).key(),
                        ) && places[self.entries@[j].key()] == j by {
                            assert(places.contains_key(before[j].key()));
                        }
                    }
                    assert forall|q: Seq<char>| places.contains_key(q) && q != p implies places[q] != i by {
                        assert(before[places[q] as int].key() == q);
                    }
                }
            },
            None => {
                let n: usize = self.entries.len();
                self.places.insert(key, n);
                self.entries.push(CacheEntry { path, hash, fragment });
                proof {
                    assert forall|j: int| 0 <= j < self.entries@.len() implies self.places@.contains_key(
                        (#[trigger] self.entries@[j]).key(),
                    ) && self.places@[self.entries@[j].key()] == j by {
                        if j < n {
                            assert(places.contains_key(before[j].key()));
                            assert(before[j].key() != p);
                        }
                    }
                }
            },
        }
        proof {
            assert(self@.entries =~= entered(old(self)@.entries, content));
            assert(self@ =~= old(self)@.with(path@, hash, content.fragment));
        }
    }

    /// Drop the entries of all paths but these.
    pub fn retain(&mut self, keep: &Vec<String>)
        requires
            old(self).wf(),
        ensures
            final(self).wf(),
            final(self)@ == old(self)@.kept(path_set(keep@)),
    {
        let ghost wanted = path_set(keep@);
        let mut names = StringHashSet::new();
        let mut k: usize = 0;
        while k < keep.len()
            invariant
                k <= keep@.len(),
                names@ == normals(views(keep@)).take(k as int).to_set(),
            decreases keep@.len() - k,
        {
            names.insert(normal_text(keep[k].as_str()));
            proof {
                let v = normals(views(keep@));
                assert(v.take(k + 1) =~= v.take(k as int).push(v[k as int]));
                assert(v.take(k + 1).to_set() =~= v.take(k as int).to_set().insert(v[k as int])) by {
                    crate::seqs::lemma_push_has(v.take(k as int), v[k as int]);
                }
            }
            k += 1;
        }
        assert(normals(views(keep@)).take(keep@.len() as int) =~= normals(views(keep@)));
        let ghost all = self.entries@;
        let ghost was = self.places@;
        let mut rest: Vec<CacheEntry> = Vec::new();
        std::mem::swap(&mut rest, &mut self.entries);
        self.places = StringHashMap::new();
        let before: usize = rest.len();
        assert(rest@ =~= all.take(before as int));
        while rest.len() > 0
            invariant
                placed(all, was),
                names@ == wanted,
                rest@.len() <= before == all.len(),
                rest@ == all.take(rest@.len() as int),
                placed(self.entries@, self.places@),
                self.entries@.len() <= before - rest@.len(),
                self.entries@.len() == before - rest@.len() <==> forall|i: int|
                    rest@.len() <= i < all.len() ==> wanted.contains((#[trigger] all[i]).key()),
                forall|p: Seq<char>| #[trigger]
                    self.places@.contains_key(p) <==> was.contains_key(p) && was[p] >= rest@.len()
                        && wanted.contains(p),
                forall|p: Seq<char>| #[trigger]
                    self.places@.contains_key(p) ==> self.entries@[self.places@[p] as int].content()
                        == all[was[p] as int].content(),
                self.version == old(self).version,
                self.adapter == old(self).adapter,
                self.dirty == old(self).dirty,
            decreases rest@.len(),
        {
            let ghost n = rest@.len() - 1;
            let ghost kept = self.entries@;
            let ghost here = self.places@;
            if let Some(e) = rest.pop() {
                assert(e == all[n]);
                assert(was.contains_key(all[n].key()) && was[all[n].key()] == n);
                assert(rest@ =~= all.take(n));
                let key = normal_text(e.path.as_str());
                if names.contains(key.as_str()) {
                    let ghost p = key@;
                    let m: usize = self.entries.len();
                    self.places.insert(key, m);
                    self.entries.push(e);
                    proof {
                        assert(!here.contains_key(p));
                        assert forall|j: int| 0 <= j < self.entries@.len() implies self.places@.contains_key(
                            (#[trigger] self.entries@[j]).key(),
                        ) && self.places@[self.entries@[j].key()] == j by {
                            if j < m {
                                assert(here.contains_key(kept[j].key()));
                            }
                        }
                        assert forall|q: Seq<char>| #[trigger] self.places@.contains_key(q)
                            implies self.entries@[self.places@[q] as int].content()
                            == all[was[q] as int].content() by {
                            if q != p {
                                assert(here.contains_key(q));
                                assert(kept[here[q] as int].content() == all[was[q] as int].content());
                            }
                        }
                    }
                }
                proof {
                    assert forall|q: Seq<char>| #[trigger] self.places@.contains_key(q)
                        <==> was.contains_key(q) && was[q] >= n && wanted.contains(q) by {
                        assert(here.contains_key(q) <==> was.contains_key(q) && was[q] >= n + 1
                            && wanted.contains(q));
                        if was.contains_key(q) && was[q] == n {
                            assert(all[n].key() == q);
                        }
                    }
                }
            }
        }
        let ghost dropped = self.entries@.len() != before;
        if self.entries.len() != before {
            self.dirty = true;
        }
        proof {
            let m = old(self)@.entries;
            assert(dropped <==> !m.dom().subset_of(wanted)) by {
                if !dropped {
                    assert forall|p: Seq<char>| m.dom().contains(p) implies wanted.contains(p) by {
                        assert(was.contains_key(p));
                        assert(all[was[p] as int].key() == p);
                    }
                } else {
                    let i = choose|i: int|
                        0 <= i < all.len() && !wanted.contains((#[trigger] all[i]).key());
                    assert(was.contains_key(all[i].key()));
                    assert(m.dom().contains(all[i].key()));
                }
            }
            assert(self@.entries =~= m.restrict(wanted));
            assert(self@ =~= old(self)@.kept(wanted));
        }
    }

    /// Whether something has changed since the cache was loaded.
    pub fn is_dirty(&self) -> (r: bool)
        ensures
            r == self@.dirty,
    {
        self.dirty
    }

    /// The version of the layout.
    pub fn version(&self) -> (r: u32)
        ensures
            r == self@.version,
    {
        self.version
    }

    /// The adapter that read the fragments.
    pub fn adapter(&self) -> (r: &str)
        ensures
            r@ == self@.adapter,
    {
        self.adapter.as_str()
    }

    /// The entries, each path once, for storing.
    pub fn entries(&self) -> (r: &Vec<CacheEntry>)
        requires
            self.wf(),
        ensures
            forall|p: Seq<char>| #[trigger]
                self@.entries.contains_key(p) ==> exists|i: int|
                    0 <= i < r@.len() && (#[trigger] r@[i]).key() == p && r@[i].content()
                        == self@.entries[p],
            forall|i: int|
                0 <= i < r@.len() ==> self@.entries.contains_key((#[trigger] r@[i]).key())
                    && self@.entries[r@[i].key()] == r@[i].content(),
            forall|i: int, j: int|
                0 <= i < j < r@.len() ==> (#[trigger] r@[i]).key() != (#[trigger] r@[j]).key(),
    {
        proof {
            assert forall|p: Seq<char>| #[trigger] self@.entries.contains_key(p) implies exists|i: int|
                0 <= i < self.entries@.len() && (#[trigger] self.entries@[i]).key() == p
                    && self.entries@[i].content() == self@.entries[p] by {
                let i = self.places@[p] as int;
                assert(self.places@.contains_key(p));
                assert(self.entries@[i].key() == p);
            }
            assert forall|i: int| 0 <= i < self.entries@.len() implies self@.entries.contains_key(
                (#[trigger] self.entries@[i]).key(),
            ) && self@.entries[self.entries@[i].key()] == self.entries@[i].content() by {
                assert(self.places@.contains_key(self.entries@[i].key()));
            }
            assert forall|i: int, j: int| 0 <= i < j < self.entries@.len() implies (
            #[trigger] self.entries@[i]).key() != (#[trigger] self.entries@[j]).key() by {
                assert(self.places@[self.entries@[i].key()] == i);
                assert(self.places@[self.entries@[j].key()] == j);
            }
        }
        &self.entries
    }
}

// -- hashes ---------------------------------------------------------------------------

/// What is hashed of a text: its length, its bytes and an end mark.
pub open spec fn hashed_parts(text: Seq<char>) -> Seq<Seq<u8>> {
    seq![
        spec_u64_to_le_bytes(byte_len(text) as u64),
        vstd::utf8::encode_utf8(text),
        seq![0xffu8],
    ]
}

/// The content hash of a text.
pub open spec fn text_hash(text: Seq<char>) -> u64 {
    DefaultHasher::spec_finish(hashed_parts(text))
}

/// The content hash of a text. The hasher has a fixed seed, so the hash of a text is
/// the same in every run.
pub fn hash_text(text: &str) -> (r: u64)
    ensures
        r == text_hash(text@),
{
    let mut h = DefaultHasher::new();
    let size = u64_to_le_bytes(bytes_in(text) as u64);
    h.write(size.as_slice());
    h.write(text.as_bytes());
    let mut end: Vec<u8> = Vec::new();
    end.push(0xff);
    h.write(end.as_slice());
    proof {
        assert(end@ =~= seq![0xffu8]);
        assert(h@ =~= hashed_parts(text@));
    }
    h.finish()
}

// -- where the cache lies -------------------------------------------------------------

/// The character of a hexadecimal digit.
pub open spec fn hex_digit(d: int) -> char {
    if d == 0 { '0' } else if d == 1 { '1' } else if d == 2 { '2' } else if d == 3 { '3' } else if d == 4 {
        '4'
    } else if d == 5 { '5' } else if d == 6 { '6' } else if d == 7 { '7' } else if d == 8 {
        '8'
    } else if d == 9 { '9' } else if d == 10 { 'a' } else if d == 11 { 'b' } else if d == 12 {
        'c'
    } else if d == 13 { 'd' } else if d == 14 { 'e' } else { 'f' }
}

fn hex_char(d: u64) -> (c: char)
    requires
        d < 16,
    ensures
        c == hex_digit(d as int),
{
    if d == 0 { '0' } else if d == 1 { '1' } else if d == 2 { '2' } else if d == 3 { '3' } else if d == 4 {
        '4'
    } else if d == 5 { '5' } else if d == 6 { '6' } else if d == 7 { '7' } else if d == 8 {
        '8'
    } else if d == 9 { '9' } else if d == 10 { 'a' } else if d == 11 { 'b' } else if d == 12 {
        'c'
    } else if d == 13 { 'd' } else if d == 14 { 'e' } else { 'f' }
}

/// The last `width` hexadecimal digits of a number.
pub open spec fn hex(n: nat, width: nat) -> Seq<char>
    decreases width,
{
    if width == 0 {
        Seq::empty()
    } else {
        hex(n / 16, (width - 1) as nat).push(hex_digit(n as int % 16))
    }
}

/// The last `width` hexadecimal digits of a number.
pub fn hex_text(n: u64, width: u32) -> (r: String)
    ensures
        r@ == hex(n as nat, width as nat),
    decreases width,
{
    if width == 0 {
        let out = String::new();
        assert(out@ =~= Seq::empty());
        out
    } else {
        let mut out = hex_text(n / 16, width - 1);
        out.push(hex_char(n % 16));
        out
    }
}

/// The variable is set and not empty.
pub open spec fn is_set(v: Option<Seq<char>>) -> bool {
    v is Some && v->0.len() > 0
}

pub open spec fn opt_view(v: Option<&str>) -> Option<Seq<char>> {
    match v {
        Some(s) => Some(s@),
        None => None,
    }
}

fn non_empty(v: Option<&str>) -> (r: bool)
    ensures
        r == is_set(opt_view(v)),
{
    match v {
        Some(s) => !s.is_empty(),
        None => false,
    }
}

/// The user's cache home: the XDG variable, else `.cache` in the home directory, else
/// the local application data, else the directory for temporary files.
pub open spec fn home_of(
    xdg: Option<Seq<char>>,
    home: Option<Seq<char>>,
    local: Option<Seq<char>>,
    temp: Seq<char>,
) -> Seq<char> {
    if is_set(xdg) {
        xdg->0
    } else if is_set(home) {
        under(home->0, ".cache"@)
    } else if is_set(local) {
        local->0
    } else {
        temp
    }
}

/// The user's cache home, from the variables that may name it.
pub fn cache_home(
    xdg: Option<&str>,
    home: Option<&str>,
    local: Option<&str>,
    temp: &str,
) -> (r: String)
    ensures
        r@ == home_of(opt_view(xdg), opt_view(home), opt_view(local), temp@),
{
    if let Some(v) = xdg {
        if non_empty(xdg) {
            return v.to_owned();
        }
    }
    if let Some(v) = home {
        if non_empty(home) {
            return join_path(v, ".cache");
        }
    }
    if let Some(v) = local {
        if non_empty(local) {
            return v.to_owned();
        }
    }
    temp.to_owned()
}

/// The cache file of a repository: in the given directory, which is taken relative to
/// the root, or else in a directory of its own under the cache home.
pub open spec fn cache_path(
    root: Seq<char>,
    dir: Seq<char>,
    home: Option<Seq<char>>,
    key: u64,
) -> Option<Seq<char>> {
    if dir.len() > 0 {
        Some(under(under(root, dir), "fragments.json"@))
    } else {
        match home {
            Some(h) => Some(
                under(under(under(h, "livewalk"@), hex(key as nat, 16)), "fragments.json"@),
            ),
            None => None,
        }
    }
}

/// The cache file of a repository. `home` is the cache home and `key` a hash of the
/// root; both are needed only where no directory is given.
pub fn cache_file(root: &str, dir: &str, home: Option<&str>, key: u64) -> (r: Option<String>)
    ensures
        (match r {
            Some(p) => Some(p@),
            None => None,
        }) == cache_path(root@, dir@, opt_view(home), key),
{
    if non_empty(Some(dir)) {
        let base = join_path(root, dir);
        return Some(join_path(base.as_str(), "fragments.json"));
    }
    match home {
        Some(h) => {
            let own = join_path(h, "livewalk");
            let sub = join_path(own.as_str(), hex_text(key, 16).as_str());
            Some(join_path(sub.as_str(), "fragments.json"))
        },
        None => None,
    }
}

// -- laws -----------------------------------------------------------------------------

/// What was put in is found again under the same path, however it is spelled, and hash,
/// and under no other hash; other paths are not touched.
pub proof fn law_get_is_hash_validated(
    c: CacheModel,
    path: Seq<char>,
    hash: u64,
    fragment: FragmentModel,
    other: Seq<char>,
    stale: u64,
)
    ensures
        normal(other) == normal(path) ==> c.with(path, hash, fragment).found(other, hash) == Some(
            fragment,
        ),
        normal(other) == normal(path) && stale != hash ==> c.with(path, hash, fragment).found(
            other,
            stale,
        ) is None,
        normal(other) != normal(path) ==> c.with(path, hash, fragment).found(other, stale) == c.found(
            other,
            stale,
        ),
{
}

/// After dropping, exactly the paths that are kept are found as before; the cache is
/// marked as changed exactly when it was already or an entry went.
pub proof fn law_retain_keeps_the_rest(c: CacheModel, keep: Set<Seq<char>>, path: Seq<char>, hash: u64)
    ensures
        keep.contains(normal(path)) ==> c.kept(keep).found(path, hash) == c.found(path, hash),
        !keep.contains(normal(path)) ==> c.kept(keep).found(path, hash) is None,
        c.kept(keep).dirty <==> c.dirty || c.kept(keep).entries != c.entries,
{
    if c.entries.dom().subset_of(keep) {
        assert(c.entries.restrict(keep) =~= c.entries);
    } else {
        let p = choose|p: Seq<char>| c.entries.dom().contains(p) && !keep.contains(p);
        assert(!c.entries.restrict(keep).contains_key(p));
    }
}

/// The entries that a cache hands out for storing make up the same cache again.
pub proof fn law_stored_cache_is_restored(
    entries: Seq<CacheEntry>,
    m: Map<Seq<char>, EntryModel>,
)
    requires
        forall|p: Seq<char>| #[trigger]
            m.contains_key(p) ==> exists|i: int|
                0 <= i < entries.len() && (#[trigger] entries[i]).key() == p
                    && entries[i].content() == m[p],
        forall|i: int|
            0 <= i < entries.len() ==> m.contains_key((#[trigger] entries[i]).key())
                && m[entries[i].key()] == entries[i].content(),
    ensures
        filled(entries) == m,
{
    lemma_filled(entries, m, entries.len() as int);
    assert(entries.take(entries.len() as int) =~= entries);
    assert(filled(entries) =~= m);
}

proof fn lemma_filled(entries: Seq<CacheEntry>, m: Map<Seq<char>, EntryModel>, n: int)
    requires
        0 <= n <= entries.len(),
        forall|i: int|
            0 <= i < entries.len() ==> m.contains_key((#[trigger] entries[i]).key())
                && m[entries[i].key()] == entries[i].content(),
    ensures
        forall|p: Seq<char>| #[trigger]
            filled(entries.take(n)).contains_key(p) ==> m.contains_key(p) && filled(
                entries.take(n),
            )[p] == m[p],
        forall|i: int|
            0 <= i < n ==> filled(entries.take(n)).contains_key((#[trigger] entries[i]).key()),
    decreases n,
{
    if n > 0 {
        lemma_filled(entries, m, n - 1);
        assert(entries.take(n).drop_last() =~= entries.take(n - 1));
        assert(entries.take(n).last() == entries[n - 1]);
        assert forall|p: Seq<char>| #[trigger]
            filled(entries.take(n)).contains_key(p) implies m.contains_key(p) && filled(
            entries.take(n),
        )[p] == m[p] by {
            if p != entries[n - 1].key() {
                assert(filled(entries.take(n - 1)).contains_key(p));
            }
        }
    }
}

} // verus!
