//! Package descriptors: reading one from a directory, and the cache that
//! keeps every descriptor read.

use vstd::prelude::*;
use crate::bytes::{copy, equal, views};
use crate::context::{lemma_deps_equal, Deps, ResolutionContext};
use crate::fs::{content, stat, FileSystem, FsModel, Stat};
use crate::json::{get_field, parse, parsed, field, Json, JsonValue};
use crate::path::{join, joined, normalize, normalized};

verus! {

/// The mathematical value of a package descriptor.
pub struct DescriptorModel {
    /// The normal path of the package's directory.
    pub directory: Seq<u8>,
    /// Which of the configured descriptor file names it was read from.
    pub index: int,
    /// The document; always an object.
    pub json: JsonValue,
}

/// A package descriptor as read from a directory.
#[derive(Debug)]
pub struct PackageDescriptor {
    directory: Vec<u8>,
    index: usize,
    json: Json,
}

impl View for PackageDescriptor {
    type V = DescriptorModel;

    closed spec fn view(&self) -> DescriptorModel {
        DescriptorModel { directory: self.directory@, index: self.index as int, json: self.json@ }
    }
}

/// The field name `name`.
pub open spec fn name_field() -> Seq<u8> {
    seq![110u8, 97, 109, 101]
}

impl PackageDescriptor {
    /// Reads a descriptor from the content of the descriptor file of
    /// position `index` in the directory `dir`; `None` when the content is
    /// malformed.
    pub fn from_bytes(dir: &[u8], index: usize, bytes: &[u8]) -> (r: Option<PackageDescriptor>)
        ensures
            match r {
                Some(d) => described(dir@, index as int, bytes@) == Some(d@),
                None => described(dir@, index as int, bytes@) is None,
            },
    {
        match parse(bytes) {
            Some(Json::Object(members)) => {
                let ghost model = Json::Object(members)@;
                let d = PackageDescriptor {
                    directory: copy(dir),
                    index,
                    json: Json::Object(members),
                };
                assert(model is Object);
                Some(d)
            },
            _ => None,
        }
    }

    /// The package's directory.
    pub fn directory(&self) -> (r: &Vec<u8>)
        ensures
            r@ == self@.directory,
    {
        &self.directory
    }

    /// Which of the configured descriptor file names this was read from.
    pub fn index(&self) -> (r: usize)
        ensures
            r == self@.index,
    {
        self.index
    }

    /// The document.
    pub fn json(&self) -> (r: &Json)
        ensures
            r@ == self@.json,
    {
        &self.json
    }

    /// The member of the document named `key`.
    pub fn field(&self, key: &[u8]) -> (r: Option<&Json>)
        ensures
            match r {
                Some(x) => field(self@.json, key@) == Some(x@),
                None => field(self@.json, key@) is None,
            },
    {
        get_field(&self.json, key)
    }

    /// The package's name, when the document gives one as text.
    pub fn name(&self) -> (r: Option<&Vec<u8>>)
        ensures
            match r {
                Some(n) => field(self@.json, name_field()) == Some(JsonValue::Text(n@)),
                None => !(field(self@.json, name_field()) matches Some(JsonValue::Text(_))),
            },
    {
        let key: [u8; 4] = [110u8, 97, 109, 101];
        assert(key@ =~= name_field());
        match get_field(&self.json, key.as_slice()) {
            Some(Json::Text(n)) => Some(n),
            _ => None,
        }
    }
}

/// The descriptor that the content `bytes` of a descriptor file holds:
/// the content has to be a JSON text whose value is an object. `None` for
/// any other content, which is malformed.
pub open spec fn described(dir: Seq<u8>, index: int, bytes: Seq<u8>) -> Option<DescriptorModel> {
    match parsed(bytes) {
        Some(JsonValue::Object(members)) => Some(
            DescriptorModel { directory: dir, index, json: JsonValue::Object(members) },
        ),
        _ => None,
    }
}

/// What looking for a descriptor in a directory gives.
pub enum Loaded {
    /// None of the descriptor file names is a file there.
    Absent,
    /// The file of this index is there and is no JSON object.
    Invalid(int),
    /// The lookup of the file of this index failed.
    Failed(int),
    /// The descriptor.
    Found(DescriptorModel),
}

/// Looks for a descriptor in `dir` under the names `files[i..]`, in order.
pub open spec fn load_from(fs: FsModel, files: Seq<Seq<u8>>, dir: Seq<u8>, i: int) -> Loaded
    decreases files.len() - i,
{
    if i < 0 || i >= files.len() {
        Loaded::Absent
    } else {
        let p = join(dir, files[i]);
        match stat(fs, p) {
            Stat::Failed => Loaded::Failed(i),
            Stat::File => match content(fs, p) {
                None => Loaded::Failed(i),
                Some(bytes) => match described(dir, i, bytes) {
                    Some(d) => Loaded::Found(d),
                    None => Loaded::Invalid(i),
                },
            },
            _ => load_from(fs, files, dir, i + 1),
        }
    }
}

/// The descriptors that a cache holds, by directory.
pub type CacheModel = Map<Seq<u8>, DescriptorModel>;

/// What a resolver with the cache `cache` sees as the descriptor of `dir`:
/// the cached one if there is one, else what the filesystem gives.
pub open spec fn effective(cache: CacheModel, fs: FsModel, files: Seq<Seq<u8>>, dir: Seq<u8>)
    -> Loaded {
    let key = normalize(dir);
    if cache.contains_key(key) {
        Loaded::Found(cache[key])
    } else {
        load_from(fs, files, key, 0)
    }
}

/// The paths `dir/files[k]` for `k` below `n`.
pub open spec fn skipped(files: Seq<Seq<u8>>, dir: Seq<u8>, n: int) -> Set<Seq<u8>>
    decreases n,
{
    if n <= 0 {
        Set::empty()
    } else if n > files.len() {
        skipped(files, dir, files.len() as int)
    } else {
        skipped(files, dir, n - 1).insert(join(dir, files[n - 1]))
    }
}

/// What a lookup of the descriptor of `dir` records: every name passed over
/// as missing, and the file that was read, if one was, as found.
pub open spec fn load_deps(files: Seq<Seq<u8>>, dir: Seq<u8>, loaded: Loaded) -> Deps {
    let key = normalize(dir);
    match loaded {
        Loaded::Absent => Deps { files: Set::empty(), missing: skipped(files, key, files.len() as int) },
        Loaded::Failed(i) => Deps { files: Set::empty(), missing: skipped(files, key, i) },
        Loaded::Invalid(i) => Deps {
            files: if 0 <= i < files.len() {
                set![join(key, files[i])]
            } else {
                Set::empty()
            },
            missing: skipped(files, key, i),
        },
        Loaded::Found(d) => Deps {
            files: if 0 <= d.index < files.len() {
                set![join(key, files[d.index])]
            } else {
                Set::empty()
            },
            missing: skipped(files, key, d.index),
        },
    }
}

/// The map that a list of descriptors stands for, each under its directory.
pub open spec fn cache_map(entries: Seq<PackageDescriptor>) -> CacheModel
    decreases entries.len(),
{
    if entries.len() == 0 {
        Map::empty()
    } else {
        cache_map(entries.drop_last()).insert(entries.last()@.directory, entries.last()@)
    }
}

/// How a lookup in the cache ended.
#[derive(Debug, Clone, Copy, PartialEq, Eq, Structural)]
pub enum Lookup {
    /// The directory has no descriptor.
    Absent,
    /// The descriptor file is malformed; nothing was cached.
    Invalid,
    /// The filesystem refused the lookup.
    Failed,
    /// The descriptor is the cache's entry of this position.
    Found(usize),
}

/// The descriptors read so far, kept for as long as the resolver lives.
#[derive(Debug)]
pub struct DescriptorCache {
    entries: Vec<PackageDescriptor>,
}

impl View for DescriptorCache {
    type V = CacheModel;

    closed spec fn view(&self) -> CacheModel {
        cache_map(self.entries@)
    }
}

fn record_skipped(files: &Vec<Vec<u8>>, key: &[u8], n: usize, ctx: &mut ResolutionContext)
    ensures
        final(ctx)@ == old(ctx)@.union(
            Deps { files: Set::empty(), missing: skipped(views(files@), key@, n as int) },
        ),
{
    let limit = if n > files.len() {
        files.len()
    } else {
        n
    };
    let mut k: usize = 0;
    proof {
        lemma_deps_equal(
            ctx@,
            old(ctx)@.union(Deps { files: Set::empty(), missing: skipped(views(files@), key@, 0) }),
        );
    }
    while k < limit
        invariant
            k <= limit <= files@.len(),
            limit <= n,
            ctx@ == old(ctx)@.union(
                Deps { files: Set::empty(), missing: skipped(views(files@), key@, k as int) },
            ),
        decreases limit - k,
    {
        let p = joined(key, files[k].as_slice());
        ctx.add_missing(p.as_slice());
        k += 1;
        proof {
            lemma_deps_equal(
                ctx@,
                old(ctx)@.union(
                    Deps { files: Set::empty(), missing: skipped(views(files@), key@, k as int) },
                ),
            );
        }
    }
    proof {
        if n > files@.len() {
            assert(skipped(views(files@), key@, n as int) == skipped(
                views(files@),
                key@,
                limit as int,
            ));
        }
    }
}

fn record_load(files: &Vec<Vec<u8>>, key: &[u8], n: usize, found: bool, ctx: &mut ResolutionContext)
    ensures
        final(ctx)@ == old(ctx)@.union(
            Deps {
                files: if found && n < files@.len() {
                    set![join(key@, views(files@)[n as int])]
                } else {
                    Set::empty()
                },
                missing: skipped(views(files@), key@, n as int),
            },
        ),
{
    record_skipped(files, key, n, ctx);
    if found && n < files.len() {
        let p = joined(key, files[n].as_slice());
        ctx.add_file(p.as_slice());
    }
    proof {
        lemma_deps_equal(
            ctx@,
            old(ctx)@.union(
                Deps {
                    files: if found && n < files@.len() {
                        set![join(key@, views(files@)[n as int])]
                    } else {
                        Set::empty()
                    },
                    missing: skipped(views(files@), key@, n as int),
                },
            ),
        );
    }
}

/// What reading a descriptor from the filesystem gave.
enum Read {
    Absent,
    Invalid(usize),
    Failed(usize),
    Found(PackageDescriptor),
}

impl Read {
    spec fn loaded(self) -> Loaded {
        match self {
            Read::Absent => Loaded::Absent,
            Read::Invalid(i) => Loaded::Invalid(i as int),
            Read::Failed(i) => Loaded::Failed(i as int),
            Read::Found(d) => Loaded::Found(d@),
        }
    }
}

fn read_descriptor(fs: &FileSystem, files: &Vec<Vec<u8>>, key: &[u8]) -> (r: Read)
    ensures
        r.loaded() == load_from(fs@, views(files@), key@, 0),
{
    let mut i: usize = 0;
    while i < files.len()
        invariant
            i <= files@.len(),
            load_from(fs@, views(files@), key@, 0) == load_from(fs@, views(files@), key@, i as int),
        decreases files@.len() - i,
    {
        let p = joined(key, files[i].as_slice());
        match fs.stat(p.as_slice()) {
            Stat::Failed => {
                return Read::Failed(i);
            },
            Stat::File => {
                match fs.read_file(p.as_slice()) {
                    None => {
                        return Read::Failed(i);
                    },
                    Some(bytes) => {
                        match PackageDescriptor::from_bytes(key, i, bytes.as_slice()) {
                            Some(d) => {
                                return Read::Found(d);
                            },
                            None => {
                                return Read::Invalid(i);
                            },
                        }
                    },
                }
            },
            _ => {},
        }
        i += 1;
    }
    Read::Absent
}

impl DescriptorCache {
    /// A cache with nothing in it.
    pub fn new() -> (r: DescriptorCache)
        ensures
            r@ == Map::<Seq<u8>, DescriptorModel>::empty(),
            r.len() == 0,
    {
        DescriptorCache { entries: Vec::new() }
    }

    /// How many descriptors the cache holds.
    pub closed spec fn len(&self) -> nat {
        self.entries@.len()
    }

    /// The value of the entry at position `i`.
    pub closed spec fn at(&self, i: int) -> DescriptorModel {
        self.entries@[i]@
    }

    /// The entry at position `i`.
    pub fn entry(&self, i: usize) -> (r: &PackageDescriptor)
        requires
            i < self.len(),
        ensures
            r@ == self.at(i as int),
    {
        &self.entries[i]
    }

    /// How many descriptors the cache holds.
    pub fn count(&self) -> (r: usize)
        ensures
            r == self.len(),
    {
        self.entries.len()
    }

    fn find(&self, key: &[u8]) -> (r: Option<usize>)
        ensures
            match r {
                Some(i) => i < self.len() && self@.contains_key(key@) && self@[key@] == self.at(
                    i as int,
                ),
                None => !self@.contains_key(key@),
            },
    {
        let mut i: usize = self.entries.len();
        assert(self.entries@.take(i as int) =~= self.entries@);
        while i > 0
            invariant
                i <= self.entries@.len(),
                self@.contains_key(key@) == cache_map(self.entries@.take(i as int)).contains_key(
                    key@,
                ),
                self@.contains_key(key@) ==> self@[key@] == cache_map(
                    self.entries@.take(i as int),
                )[key@],
            decreases i,
        {
            i -= 1;
            proof {
                assert(self.entries@.take(i + 1).drop_last() =~= self.entries@.take(i as int));
                assert(self.entries@.take(i + 1).last() == self.entries@[i as int]);
            }
            if equal(self.entries[i].directory.as_slice(), key) {
                return Some(i);
            }
        }
        None
    }

    /// The descriptor of `dir`: the cached one, or else the one read from
    /// the filesystem, which is then cached under the normal form of
    /// `dir`; nothing else is cached, a malformed descriptor least of all.
    /// Records what was looked at, the same for a cached descriptor as for
    /// one just read. Whatever it finds, the cache gives the same
    /// descriptors afterwards as before, and keeps its entries in place.
    pub fn get_or_load(
        &mut self,
        fs: &FileSystem,
        files: &Vec<Vec<u8>>,
        dir: &[u8],
        ctx: &mut ResolutionContext,
    ) -> (r: Lookup)
        ensures
            match r {
                Lookup::Absent => effective(old(self)@, fs@, views(files@), dir@) is Absent,
                Lookup::Invalid => effective(old(self)@, fs@, views(files@), dir@) is Invalid,
                Lookup::Failed => effective(old(self)@, fs@, views(files@), dir@) is Failed,
                Lookup::Found(i) => i < final(self).len() && effective(
                    old(self)@,
                    fs@,
                    views(files@),
                    dir@,
                ) == Loaded::Found(final(self).at(i as int)),
            },
            final(ctx)@ == old(ctx)@.union(
                load_deps(views(files@), dir@, effective(old(self)@, fs@, views(files@), dir@)),
            ),
            forall|d: Seq<u8>|
                effective(final(self)@, fs@, views(files@), d) == effective(
                    old(self)@,
                    fs@,
                    views(files@),
                    d,
                ),
            final(self)@ == (match effective(old(self)@, fs@, views(files@), dir@) {
                Loaded::Found(d) => old(self)@.insert(normalize(dir@), d),
                _ => old(self)@,
            }),
            final(self).len() >= old(self).len(),
            forall|i: int| 0 <= i < old(self).len() ==> final(self).at(i) == old(self).at(i),
    {
        let key = normalized(dir);
        match self.find(key.as_slice()) {
            Some(i) => {
                assert(self@.insert(key@, self@[key@]) =~= self@);
                let n = self.entries[i].index;
                record_load(files, key.as_slice(), n, true, ctx);
                Lookup::Found(i)
            },
            None => {
                match read_descriptor(fs, files, key.as_slice()) {
                    Read::Absent => {
                        record_load(files, key.as_slice(), files.len(), false, ctx);
                        Lookup::Absent
                    },
                    Read::Failed(i) => {
                        record_load(files, key.as_slice(), i, false, ctx);
                        Lookup::Failed
                    },
                    Read::Invalid(i) => {
                        record_load(files, key.as_slice(), i, true, ctx);
                        Lookup::Invalid
                    },
                    Read::Found(d) => {
                        let n = d.index;
                        record_load(files, key.as_slice(), n, true, ctx);
                        proof {
                            lemma_load_from_found(fs@, views(files@), key@, 0);
                        }
                        self.entries.push(d);
                        proof {
                            assert(self.entries@.drop_last() =~= old(self).entries@);
                            assert forall|q: Seq<u8>|
                                effective(self@, fs@, views(files@), q) == effective(
                                    old(self)@,
                                    fs@,
                                    views(files@),
                                    q,
                                ) by {}
                        }
                        Lookup::Found(self.entries.len() - 1)
                    },
                }
            },
        }
    }
}

/// A descriptor that was found is in its directory and under one of the
/// names.
pub proof fn lemma_load_from_found(fs: FsModel, files: Seq<Seq<u8>>, dir: Seq<u8>, i: int)
    requires
        0 <= i,
    ensures
        match load_from(fs, files, dir, i) {
            Loaded::Found(d) => d.directory == dir && i <= d.index < files.len(),
            Loaded::Invalid(k) => i <= k < files.len(),
            Loaded::Failed(k) => i <= k < files.len(),
            Loaded::Absent => true,
        },
    decreases files.len() - i,
{
    if i < files.len() {
        lemma_load_from_found(fs, files, dir, i + 1);
    }
}

} // verus!
