//! Packages: finding an installed package from a directory upwards, the
//! package that encloses a directory, and a file inside a package through
//! its exports or imports map.

use vstd::prelude::*;
use crate::alias::{at_or_below, is_at_or_below};
use crate::bytes::{concatenated, copy, equal, views};
use crate::context::{lemma_union_assoc, lemma_union_simple, Deps, ResolutionContext};
use crate::descriptor::{load_deps, DescriptorCache, DescriptorModel, Loaded, Lookup};
use crate::error::ResolveError;
use crate::exports::{exports_targets, imports_targets, match_exports, match_imports, Match, Matched};
use crate::fs::{stat, FileSystem, FsModel, Stat};
use crate::json::field;
use crate::options::{Options, OptionsModel};
use crate::path::{absolute, first_segments, join, joined, segments, split, to_path, DOT, SLASH};
use crate::search::{
    found_view, nothing, probe, probe_deps, resolve_path, search_path, Search,
};
use crate::world::{after, lookup, untraced, world, Traced, World};

verus! {

/// The directory name `node_modules`.
pub open spec fn modules_name() -> Seq<u8> {
    seq![110u8, 111, 100, 101, 95, 109, 111, 100, 117, 108, 101, 115]
}

/// The field name `exports`.
pub open spec fn exports_name() -> Seq<u8> {
    seq![101u8, 120, 112, 111, 114, 116, 115]
}

/// The field name `imports`.
pub open spec fn imports_name() -> Seq<u8> {
    seq![105u8, 109, 112, 111, 114, 116, 115]
}

/// Where the package `name` is installed for the directory `base`.
pub open spec fn installed_at(base: Seq<u8>, name: Seq<u8>) -> Seq<u8> {
    join(join(base, modules_name()), name)
}

/// Looks for the installed package `name` from the directory of the first
/// `k` segments of `segs` upwards to the root. The first place that is a
/// directory is the package; every place probed is recorded.
pub open spec fn locate(fs: FsModel, segs: Seq<Seq<u8>>, name: Seq<u8>, k: int) -> Search
    decreases k,
{
    if k < 0 || k > segs.len() {
        untraced(Ok(None))
    } else {
        let pkg = installed_at(absolute(segs.take(k)), name);
        match stat(fs, pkg) {
            Stat::Directory => Traced { value: Ok(Some(pkg)), deps: Deps::file(pkg) },
            Stat::Failed => untraced(Err(ResolveError::FilesystemError)),
            _ => after(
                probe_deps(fs, pkg),
                if k == 0 {
                    untraced(Ok(None))
                } else {
                    locate(fs, segs, name, k - 1)
                },
            ),
        }
    }
}

/// The installed package `name` as seen from the directory `dir`.
pub open spec fn locate_package(fs: FsModel, dir: Seq<u8>, name: Seq<u8>) -> Search {
    locate(fs, segments(dir), name, segments(dir).len() as int)
}

/// Finds the installed package `name` from `dir` upwards.
pub fn find_package(fs: &FileSystem, dir: &[u8], name: &[u8], ctx: &mut ResolutionContext) -> (r:
    Result<Option<Vec<u8>>, ResolveError>)
    ensures
        found_view(r) == locate_package(fs@, dir@, name@).value,
        final(ctx)@ == old(ctx)@.union(locate_package(fs@, dir@, name@).deps),
{
    let modules = [110u8, 111, 100, 101, 95, 109, 111, 100, 117, 108, 101, 115];
    assert(modules@ =~= modules_name());
    let segs = split(dir);
    let ghost all = views(segs@);
    let mut k: usize = segs.len();
    loop
        invariant
            k <= segs@.len(),
            all == views(segs@),
            all == segments(dir@),
            modules@ == modules_name(),
            locate_package(fs@, dir@, name@).value == locate(fs@, all, name@, k as int).value,
            old(ctx)@.union(locate_package(fs@, dir@, name@).deps) == ctx@.union(
                locate(fs@, all, name@, k as int).deps,
            ),
        decreases k,
    {
        let prefix = first_segments(&segs, k);
        let base = to_path(&prefix);
        let holder = joined(base.as_slice(), modules.as_slice());
        let pkg = joined(holder.as_slice(), name);
        assert(pkg@ == installed_at(absolute(all.take(k as int)), name@));
        let ghost before = ctx@;
        proof {
            lemma_union_simple(before, pkg@);
            lemma_union_simple(before.union(probe_deps(fs@, pkg@)), pkg@);
            if k > 0 {
                lemma_union_assoc(
                    before,
                    probe_deps(fs@, pkg@),
                    locate(fs@, all, name@, k - 1).deps,
                );
            }
        }
        match probe(fs, pkg.as_slice(), ctx) {
            Stat::Directory => {
                return Ok(Some(pkg));
            },
            Stat::Failed => {
                return Err(ResolveError::FilesystemError);
            },
            _ => {},
        }
        if k == 0 {
            proof {
                lemma_union_assoc(before, probe_deps(fs@, pkg@), Deps::empty());
            }
            return Ok(None);
        }
        k -= 1;
    }
}

/// The outcome of a search for a package descriptor.
pub type Enclosing = Traced<Result<Option<DescriptorModel>, ResolveError>>;

/// Looks for the nearest descriptor from the directory of the first `k`
/// segments of `segs` upwards to the root. A malformed descriptor and a
/// failed lookup end the search.
pub open spec fn enclosing(w: World, files: Seq<Seq<u8>>, segs: Seq<Seq<u8>>, k: int) -> Enclosing
    decreases k,
{
    if k < 0 || k > segs.len() {
        untraced(Ok(None))
    } else {
        let d = absolute(segs.take(k));
        let l = (w.descriptors)(d);
        after(
            load_deps(files, d, l),
            match l {
                Loaded::Found(m) => untraced(Ok(Some(m))),
                Loaded::Invalid(_) => untraced(Err(ResolveError::InvalidPackageConfig)),
                Loaded::Failed(_) => untraced(Err(ResolveError::FilesystemError)),
                Loaded::Absent => if k == 0 {
                    untraced(Ok(None))
                } else {
                    enclosing(w, files, segs, k - 1)
                },
            },
        )
    }
}

/// The package that encloses the directory `dir`.
pub open spec fn enclosing_package(w: World, files: Seq<Seq<u8>>, dir: Seq<u8>) -> Enclosing {
    enclosing(w, files, segments(dir), segments(dir).len() as int)
}

/// Finds the package that encloses `dir`; gives the position of its
/// descriptor in the cache.
pub fn find_enclosing(
    cache: &mut DescriptorCache,
    fs: &FileSystem,
    opts: &Options,
    dir: &[u8],
    ctx: &mut ResolutionContext,
) -> (r: Result<Option<usize>, ResolveError>)
    ensures
        ({
            let w = world(old(cache)@, fs@, opts@.description_files);
            let e = enclosing_package(w, opts@.description_files, dir@);
            &&& match r {
                Ok(Some(i)) => i < final(cache).len() && e.value == Ok::<
                    Option<DescriptorModel>,
                    ResolveError,
                >(Some(final(cache).at(i as int))),
                Ok(None) => e.value == Ok::<Option<DescriptorModel>, ResolveError>(None),
                Err(x) => e.value == Err::<Option<DescriptorModel>, ResolveError>(x),
            }
            &&& final(ctx)@ == old(ctx)@.union(e.deps)
            &&& world(final(cache)@, fs@, opts@.description_files) == w
        }),
{
    let ghost w = world(old(cache)@, fs@, opts@.description_files);
    let ghost files = opts@.description_files;
    let segs = split(dir);
    let ghost all = views(segs@);
    let mut k: usize = segs.len();
    loop
        invariant
            k <= segs@.len(),
            all == views(segs@),
            all == segments(dir@),
            files == opts@.description_files,
            w == world(old(cache)@, fs@, files),
            world(cache@, fs@, files) == w,
            enclosing_package(w, files, dir@).value == enclosing(w, files, all, k as int).value,
            old(ctx)@.union(enclosing_package(w, files, dir@).deps) == ctx@.union(
                enclosing(w, files, all, k as int).deps,
            ),
        decreases k,
    {
        let prefix = first_segments(&segs, k);
        let d = to_path(&prefix);
        let ghost before = ctx@;
        let ghost l = (w.descriptors)(d@);
        let ghost loaded = load_deps(files, d@, l);
        proof {
            lemma_union_simple(before.union(loaded), d@);
            lemma_union_simple(loaded, d@);
            if k > 0 {
                lemma_union_assoc(before, loaded, enclosing(w, files, all, k - 1).deps);
            }
        }
        match lookup(cache, fs, &opts.description_files, d.as_slice(), ctx) {
            Lookup::Found(i) => {
                return Ok(Some(i));
            },
            Lookup::Invalid => {
                return Err(ResolveError::InvalidPackageConfig);
            },
            Lookup::Failed => {
                return Err(ResolveError::FilesystemError);
            },
            Lookup::Absent => {},
        }
        if k == 0 {
            return Ok(None);
        }
        k -= 1;
    }
}

/// `p` is the directory `dir` or lies below it.
pub open spec fn within(dir: Seq<u8>, p: Seq<u8>) -> bool {
    at_or_below(p, dir) || dir == seq![SLASH]
}

/// Tries the targets `targets[i..]` of the package at `dir`, in order: the
/// first that leads to a file is the result. A target that leads out of
/// the package is passed over.
pub open spec fn try_targets(
    w: World,
    opts: OptionsModel,
    dir: Seq<u8>,
    targets: Seq<Seq<u8>>,
    i: int,
) -> Search
    decreases targets.len() - i,
{
    if i < 0 || i >= targets.len() {
        untraced(Ok(None))
    } else {
        let p = join(dir, targets[i]);
        if !within(dir, p) {
            try_targets(w, opts, dir, targets, i + 1)
        } else {
            let r = resolve_path(w, opts, p, Seq::empty());
            if nothing(r) {
                after(r.deps, try_targets(w, opts, dir, targets, i + 1))
            } else {
                r
            }
        }
    }
}

fn is_within(dir: &[u8], p: &[u8]) -> (r: bool)
    ensures
        r == within(dir@, p@),
{
    let root = [SLASH];
    assert(root@ =~= seq![SLASH]);
    is_at_or_below(p, dir) || equal(dir, root.as_slice())
}

/// Finds the first file that the targets of the package at `dir` lead to.
pub fn search_targets(
    cache: &mut DescriptorCache,
    fs: &FileSystem,
    opts: &Options,
    dir: &[u8],
    targets: &Vec<Vec<u8>>,
    ctx: &mut ResolutionContext,
) -> (r: Result<Option<Vec<u8>>, ResolveError>)
    ensures
        ({
            let w = world(old(cache)@, fs@, opts@.description_files);
            &&& found_view(r) == try_targets(w, opts@, dir@, views(targets@), 0).value
            &&& final(ctx)@ == old(ctx)@.union(try_targets(w, opts@, dir@, views(targets@), 0).deps)
            &&& world(final(cache)@, fs@, opts@.description_files) == w
        }),
{
    let ghost w = world(old(cache)@, fs@, opts@.description_files);
    let ghost all = views(targets@);
    let none: [u8; 0] = [];
    assert(none@ =~= Seq::<u8>::empty());
    let mut i: usize = 0;
    while i < targets.len()
        invariant
            i <= targets@.len(),
            all == views(targets@),
            none@ == Seq::<u8>::empty(),
            w == world(old(cache)@, fs@, opts@.description_files),
            world(cache@, fs@, opts@.description_files) == w,
            try_targets(w, opts@, dir@, all, 0).value == try_targets(
                w,
                opts@,
                dir@,
                all,
                i as int,
            ).value,
            old(ctx)@.union(try_targets(w, opts@, dir@, all, 0).deps) == ctx@.union(
                try_targets(w, opts@, dir@, all, i as int).deps,
            ),
        decreases targets@.len() - i,
    {
        assert(all[i as int] == targets@[i as int]@);
        let p = joined(dir, targets[i].as_slice());
        if is_within(dir, p.as_slice()) {
            let ghost before = ctx@;
            proof {
                lemma_union_assoc(
                    before,
                    resolve_path(w, opts@, p@, none@).deps,
                    try_targets(w, opts@, dir@, all, i + 1).deps,
                );
            }
            let r = search_path(cache, fs, opts, p.as_slice(), none.as_slice(), ctx);
            match r {
                Ok(None) => {},
                other => {
                    return other;
                },
            }
        }
        i += 1;
    }
    proof {
        lemma_union_simple(ctx@, dir@);
    }
    Ok(None)
}

/// The outcome of a resolution step that has to give a file: the file or
/// the reason there is none; and what was looked at.
pub type Located = Traced<Result<Seq<u8>, ResolveError>>;

/// A search that found nothing has failed with `NotFound`.
pub open spec fn or_not_found(s: Search) -> Located {
    Traced {
        value: match s.value {
            Ok(Some(p)) => Ok(p),
            Ok(None) => Err(ResolveError::NotFound),
            Err(e) => Err(e),
        },
        deps: s.deps,
    }
}

/// The value of the outcome of an executable step that has to give a
/// file.
pub open spec fn located_view(r: Result<Vec<u8>, ResolveError>) -> Result<Seq<u8>, ResolveError> {
    match r {
        Ok(p) => Ok(p@),
        Err(e) => Err(e),
    }
}

/// Turns a search that found nothing into the failure `NotFound`.
pub fn require_found(r: Result<Option<Vec<u8>>, ResolveError>) -> (out: Result<Vec<u8>, ResolveError>)
    ensures
        located_view(out) == (match found_view(r) {
            Ok(Some(p)) => Ok::<Seq<u8>, ResolveError>(p),
            Ok(None) => Err(ResolveError::NotFound),
            Err(e) => Err(e),
        }),
{
    match r {
        Ok(Some(p)) => Ok(p),
        Ok(None) => Err(ResolveError::NotFound),
        Err(e) => Err(e),
    }
}

/// What the targets of a map lead to: a malformed map and an unlisted
/// subpath are failures of their own; listed targets are tried in order,
/// and when none leads to a file the failure is `NotFound`.
pub open spec fn through_targets(w: World, opts: OptionsModel, dir: Seq<u8>, m: Matched) -> Located {
    match m {
        Matched::Invalid => untraced(Err(ResolveError::InvalidPackageConfig)),
        Matched::NotExported => untraced(Err(ResolveError::PackagePathNotExported)),
        Matched::Targets(ts) => or_not_found(try_targets(w, opts, dir, ts, 0)),
    }
}

/// The file that `subpath` — empty, or a separator and a path — names in
/// the package at `pkg`. A package whose descriptor has an exports member
/// gives only what that lists; any other gives the path below its
/// directory, `ext` being the extension that the request wrote out.
pub open spec fn resolve_in_package(
    w: World,
    opts: OptionsModel,
    pkg: Seq<u8>,
    subpath: Seq<u8>,
    ext: Seq<u8>,
) -> Located {
    let l = (w.descriptors)(pkg);
    let sub = seq![DOT] + subpath;
    after(
        load_deps(opts.description_files, pkg, l),
        match l {
            Loaded::Invalid(_) => untraced(Err(ResolveError::InvalidPackageConfig)),
            Loaded::Failed(_) => untraced(Err(ResolveError::FilesystemError)),
            Loaded::Found(d) if field(d.json, exports_name()) is Some => through_targets(
                w,
                opts,
                pkg,
                exports_targets(field(d.json, exports_name())->Some_0, sub, opts.condition_names),
            ),
            _ => or_not_found(resolve_path(w, opts, join(pkg, sub), ext)),
        },
    )
}

fn follow_targets(
    cache: &mut DescriptorCache,
    fs: &FileSystem,
    opts: &Options,
    dir: &[u8],
    m: Match,
    ctx: &mut ResolutionContext,
) -> (r: Result<Vec<u8>, ResolveError>)
    ensures
        ({
            let w = world(old(cache)@, fs@, opts@.description_files);
            &&& located_view(r) == through_targets(w, opts@, dir@, m@).value
            &&& final(ctx)@ == old(ctx)@.union(through_targets(w, opts@, dir@, m@).deps)
            &&& world(final(cache)@, fs@, opts@.description_files) == w
        }),
{
    proof {
        lemma_union_simple(ctx@, dir@);
    }
    match m {
        Match::Invalid => Err(ResolveError::InvalidPackageConfig),
        Match::NotExported => Err(ResolveError::PackagePathNotExported),
        Match::Targets(ts) => {
            let r = search_targets(cache, fs, opts, dir, &ts, ctx);
            require_found(r)
        },
    }
}

/// Finds the file that `subpath` names in the package at `pkg`.
pub fn search_package(
    cache: &mut DescriptorCache,
    fs: &FileSystem,
    opts: &Options,
    pkg: &[u8],
    subpath: &[u8],
    ext: &[u8],
    ctx: &mut ResolutionContext,
) -> (r: Result<Vec<u8>, ResolveError>)
    ensures
        ({
            let w = world(old(cache)@, fs@, opts@.description_files);
            &&& located_view(r) == resolve_in_package(w, opts@, pkg@, subpath@, ext@).value
            &&& final(ctx)@ == old(ctx)@.union(
                resolve_in_package(w, opts@, pkg@, subpath@, ext@).deps,
            )
            &&& world(final(cache)@, fs@, opts@.description_files) == w
        }),
{
    let ghost w = world(old(cache)@, fs@, opts@.description_files);
    let ghost l = (w.descriptors)(pkg@);
    let ghost loaded = load_deps(opts@.description_files, pkg@, l);
    let exports_key = [101u8, 120, 112, 111, 114, 116, 115];
    assert(exports_key@ =~= exports_name());
    let dot = [DOT];
    let sub = concatenated(dot.as_slice(), subpath);
    assert(sub@ =~= seq![DOT] + subpath@);
    let found = lookup(cache, fs, &opts.description_files, pkg, ctx);
    proof {
        lemma_union_simple(ctx@, pkg@);
        lemma_union_simple(loaded, pkg@);
    }
    let listed: Option<Match> = match found {
        Lookup::Invalid => {
            return Err(ResolveError::InvalidPackageConfig);
        },
        Lookup::Failed => {
            return Err(ResolveError::FilesystemError);
        },
        Lookup::Absent => None,
        Lookup::Found(i) => {
            match cache.entry(i).field(exports_key.as_slice()) {
                Some(e) => Some(match_exports(e, sub.as_slice(), &opts.condition_names)),
                None => None,
            }
        },
    };
    match listed {
        Some(m) => {
            proof {
                lemma_union_assoc(old(ctx)@, loaded, through_targets(w, opts@, pkg@, m@).deps);
            }
            follow_targets(cache, fs, opts, pkg, m, ctx)
        },
        None => {
            let p = joined(pkg, sub.as_slice());
            proof {
                lemma_union_assoc(old(ctx)@, loaded, resolve_path(w, opts@, p@, ext@).deps);
            }
            let r = search_path(cache, fs, opts, p.as_slice(), ext, ctx);
            require_found(r)
        },
    }
}

/// The file that the request `request`, which begins with `#`, names in
/// the package of the descriptor `d`, through the descriptor's imports
/// member. Without the member, or without an entry for the request, the
/// failure is `PackagePathNotExported`.
pub open spec fn resolve_imports(w: World, opts: OptionsModel, d: DescriptorModel, request: Seq<u8>)
    -> Located {
    match field(d.json, imports_name()) {
        None => untraced(Err(ResolveError::PackagePathNotExported)),
        Some(v) => through_targets(
            w,
            opts,
            d.directory,
            imports_targets(v, request, opts.condition_names),
        ),
    }
}

/// Finds the file that a self-reference names in the package whose
/// descriptor is the cache's entry at `i`.
pub fn search_imports(
    cache: &mut DescriptorCache,
    fs: &FileSystem,
    opts: &Options,
    i: usize,
    request: &[u8],
    ctx: &mut ResolutionContext,
) -> (r: Result<Vec<u8>, ResolveError>)
    requires
        i < old(cache).len(),
    ensures
        ({
            let w = world(old(cache)@, fs@, opts@.description_files);
            let t = resolve_imports(w, opts@, old(cache).at(i as int), request@);
            &&& located_view(r) == t.value
            &&& final(ctx)@ == old(ctx)@.union(t.deps)
            &&& world(final(cache)@, fs@, opts@.description_files) == w
        }),
{
    let imports_key = [105u8, 109, 112, 111, 114, 116, 115];
    assert(imports_key@ =~= imports_name());
    proof {
        lemma_union_simple(ctx@, request@);
    }
    let d = cache.entry(i);
    let listed = match d.field(imports_key.as_slice()) {
        None => None,
        Some(v) => Some(
            (
                match_imports(v, request, &opts.condition_names),
                copy(d.directory().as_slice()),
            ),
        ),
    };
    match listed {
        None => Err(ResolveError::PackagePathNotExported),
        Some((m, base)) => follow_targets(cache, fs, opts, base.as_slice(), m, ctx),
    }
}

/// A package whose exports do not list a subpath does not give it, whatever
/// the filesystem holds: the failure is `PackagePathNotExported`, and
/// nothing but the descriptor was looked at.
pub proof fn lemma_unexported_rejected(
    w: World,
    opts: OptionsModel,
    pkg: Seq<u8>,
    subpath: Seq<u8>,
    ext: Seq<u8>,
    d: DescriptorModel,
)
    requires
        (w.descriptors)(pkg) == Loaded::Found(d),
        field(d.json, exports_name()) is Some,
        exports_targets(
            field(d.json, exports_name())->Some_0,
            seq![DOT] + subpath,
            opts.condition_names,
        ) is NotExported,
    ensures
        resolve_in_package(w, opts, pkg, subpath, ext).value == Err::<Seq<u8>, ResolveError>(
            ResolveError::PackagePathNotExported,
        ),
        resolve_in_package(w, opts, pkg, subpath, ext).deps == load_deps(
            opts.description_files,
            pkg,
            (w.descriptors)(pkg),
        ),
{
    lemma_union_simple(load_deps(opts.description_files, pkg, (w.descriptors)(pkg)), pkg);
}

} // verus!
