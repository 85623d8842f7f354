//! What a resolution sees: the filesystem and, for every directory, the
//! descriptor that the resolver's cache or the filesystem gives for it.

use vstd::prelude::*;
use crate::bytes::views;
use crate::context::{Deps, ResolutionContext};
use crate::descriptor::{effective, load_deps, CacheModel, DescriptorCache, Loaded, Lookup};
use crate::fs::{FileSystem, FsModel};

verus! {

/// A value together with the paths that were looked at to get it.
pub struct Traced<T> {
    pub value: T,
    pub deps: Deps,
}

/// `t` with the paths of `d` looked at before it.
pub open spec fn after<T>(d: Deps, t: Traced<T>) -> Traced<T> {
    Traced { value: t.value, deps: d.union(t.deps) }
}

/// A value for which nothing was looked at.
pub open spec fn untraced<T>(value: T) -> Traced<T> {
    Traced { value, deps: Deps::empty() }
}

/// The filesystem and the descriptors as one resolver sees them.
pub struct World {
    pub fs: FsModel,
    pub descriptors: spec_fn(Seq<u8>) -> Loaded,
}

/// The world of a resolver whose cache is `cache`, over the filesystem
/// `fs`, with descriptors under the file names `files`.
pub open spec fn world(cache: CacheModel, fs: FsModel, files: Seq<Seq<u8>>) -> World {
    World { fs, descriptors: |dir: Seq<u8>| effective(cache, fs, files, dir) }
}

/// Two caches that give the same descriptor for every directory make the
/// same world.
pub proof fn lemma_same_world(a: CacheModel, b: CacheModel, fs: FsModel, files: Seq<Seq<u8>>)
    requires
        forall|d: Seq<u8>| effective(a, fs, files, d) == effective(b, fs, files, d),
    ensures
        world(a, fs, files) == world(b, fs, files),
{
    assert(world(a, fs, files).descriptors =~= world(b, fs, files).descriptors);
}

/// The descriptor of `dir` in the resolver's world; see
/// `DescriptorCache::get_or_load`. The world stays the same.
pub fn lookup(
    cache: &mut DescriptorCache,
    fs: &FileSystem,
    files: &Vec<Vec<u8>>,
    dir: &[u8],
    ctx: &mut ResolutionContext,
) -> (r: Lookup)
    ensures
        ({
            let w = world(old(cache)@, fs@, views(files@));
            let l = (w.descriptors)(dir@);
            &&& match r {
                Lookup::Absent => l is Absent,
                Lookup::Invalid => l is Invalid,
                Lookup::Failed => l is Failed,
                Lookup::Found(i) => i < final(cache).len() && l == Loaded::Found(
                    final(cache).at(i as int),
                ),
            }
            &&& final(ctx)@ == old(ctx)@.union(load_deps(views(files@), dir@, l))
            &&& world(final(cache)@, fs@, views(files@)) == w
        }),
{
    let r = cache.get_or_load(fs, files, dir, ctx);
    proof {
        lemma_same_world(cache@, old(cache)@, fs@, views(files@));
    }
    r
}

} // verus!
