//! The resolver: from a start directory and a raw specifier to a file, in
//! the order classify, alias, locate the package, read its exports, find
//! the file, follow symbolic links.

use vstd::prelude::*;
use vstd::string::StringSliceAdditionalSpecFns;
use crate::alias::{aliased, apply_aliases, AliasOutcome, Aliased};
use crate::bytes::{copy, equal, optional_view};
use crate::context::{
    lemma_deps_equal, lemma_union_assoc, lemma_union_simple, Deps, ResolutionContext,
};
use crate::descriptor::{load_from, CacheModel, DescriptorCache, DescriptorModel, Loaded};
use crate::error::ResolveError;
use crate::exports::exports_targets;
use crate::fields::{apply_alias_fields, field_aliased, FieldAlias, FieldAliased};
use crate::fs::{links_of, realpath, stat, FileSystem, FsModel, Stat};
use crate::json::field;
use crate::options::{Options, OptionsModel};
use crate::package::{
    enclosing_package, exports_name, find_enclosing, find_package, lemma_unexported_rejected,
    locate_package, located_view, or_not_found, require_found, resolve_imports,
    resolve_in_package, search_imports, search_package, Located,
};
use crate::path::{is_absolute, join, joined, normalize, normalized, starts_at_root, DOT};
use crate::search::{
    lemma_attempts_recorded, lemma_first_extension_wins, passed_over, resolve_path, search_path,
};
use crate::specifier::{classified, classify, Specifier, SpecifierKind, SpecifierModel};
use crate::world::{after, untraced, world, Traced, World};

verus! {

/// The mathematical value of a `Resolution`.
pub struct ResolutionModel {
    pub path: Seq<u8>,
    pub package: Option<Seq<u8>>,
    pub suffix: Seq<u8>,
}

/// A file that a specifier resolved to.
#[derive(Debug)]
pub struct Resolution {
    /// The absolute path of the file.
    pub path: Vec<u8>,
    /// The directory of the package through which it was found, for a
    /// package request and a self-reference.
    pub package: Option<Vec<u8>>,
    /// The query and fragment that the specifier ended with.
    pub suffix: Vec<u8>,
}

impl View for Resolution {
    type V = ResolutionModel;

    open spec fn view(&self) -> ResolutionModel {
        ResolutionModel {
            path: self.path@,
            package: optional_view(self.package),
            suffix: self.suffix@,
        }
    }
}

/// The mathematical value of a `Resolved`.
pub enum ResolvedModel {
    File(ResolutionModel),
    Ignored,
    External(Seq<u8>),
}

/// How a resolution that did not fail ended.
#[derive(Debug)]
pub enum Resolved {
    /// The specifier names this file.
    File(Resolution),
    /// An alias maps the specifier to nothing, on purpose.
    Ignored,
    /// The specifier has a protocol and names no file; it is given back
    /// as written.
    External(Vec<u8>),
}

impl View for Resolved {
    type V = ResolvedModel;

    open spec fn view(&self) -> ResolvedModel {
        match self {
            Resolved::File(r) => ResolvedModel::File(r@),
            Resolved::Ignored => ResolvedModel::Ignored,
            Resolved::External(s) => ResolvedModel::External(s@),
        }
    }
}

/// The outcome of a resolution and what was looked at.
pub type Outcome = Traced<Result<ResolvedModel, ResolveError>>;

/// The value of the outcome of an executable resolution.
pub open spec fn outcome_view(r: Result<Resolved, ResolveError>) -> Result<
    ResolvedModel,
    ResolveError,
> {
    match r {
        Ok(x) => Ok(x@),
        Err(e) => Err(e),
    }
}

/// A file found through `package`, as the outcome of a resolution of a
/// specifier that ended with `suffix`; unless symbolic links are kept, the
/// file's canonical path takes the place of its path, that path and the
/// links passed through on the way to it are recorded as found, and a file
/// whose links cannot be followed is a filesystem failure.
pub open spec fn finished(
    fs: FsModel,
    opts: OptionsModel,
    l: Located,
    package: Option<Seq<u8>>,
    suffix: Seq<u8>,
) -> Outcome {
    match l.value {
        Err(e) => Traced { value: Err(e), deps: l.deps },
        Ok(p) => if opts.preserve_symlinks {
            Traced {
                value: Ok(ResolvedModel::File(ResolutionModel { path: p, package, suffix })),
                deps: l.deps,
            }
        } else {
            match realpath(fs, p) {
                None => Traced { value: Err(ResolveError::FilesystemError), deps: l.deps },
                Some(canon) => Traced {
                    value: Ok(
                        ResolvedModel::File(ResolutionModel { path: canon, package, suffix }),
                    ),
                    deps: l.deps.union(traversal(fs, p, canon)),
                },
            }
        },
    }
}

/// The file that the classified request `c`, made from `dir`, names.
///
/// A path is followed from the root or from `dir`. A package request
/// looks for the package from `dir` upwards and then inside it. A
/// self-reference goes through the imports of the package that encloses
/// `dir`. Where there is no package the failure is `NotFound`.
pub open spec fn resolve_request(
    w: World,
    opts: OptionsModel,
    dir: Seq<u8>,
    c: SpecifierModel,
    suffix: Seq<u8>,
) -> Outcome {
    match c.kind {
        SpecifierKind::Absolute => finished(
            w.fs,
            opts,
            or_not_found(resolve_path(w, opts, normalize(c.request), c.extension)),
            None,
            suffix,
        ),
        SpecifierKind::Relative => finished(
            w.fs,
            opts,
            or_not_found(resolve_path(w, opts, join(dir, c.request), c.extension)),
            None,
            suffix,
        ),
        SpecifierKind::Bare | SpecifierKind::ScopedBare => {
            let l = locate_package(w.fs, dir, c.package_name);
            after(
                l.deps,
                match l.value {
                    Err(e) => untraced(Err(e)),
                    Ok(None) => untraced(Err(ResolveError::NotFound)),
                    Ok(Some(pkg)) => finished(
                        w.fs,
                        opts,
                        resolve_in_package(w, opts, pkg, c.subpath, c.extension),
                        Some(pkg),
                        suffix,
                    ),
                },
            )
        },
        SpecifierKind::SelfReference => {
            let e = enclosing_package(w, opts.description_files, dir);
            after(
                e.deps,
                match e.value {
                    Err(x) => untraced(Err(x)),
                    Ok(None) => untraced(Err(ResolveError::NotFound)),
                    Ok(Some(d)) => finished(
                        w.fs,
                        opts,
                        resolve_imports(w, opts, d, c.request),
                        Some(d.directory),
                        suffix,
                    ),
                },
            )
        },
        SpecifierKind::External => untraced(Ok(ResolvedModel::External(c.request))),
    }
}

/// The outcome for a request once the alias rules are done with it: an
/// external one is given back; any other goes by the alias fields of the
/// package that encloses `dir`, which may leave it out, leave it alone, or
/// put another request from the package's directory in its place, once.
pub open spec fn resolve_classified(
    w: World,
    opts: OptionsModel,
    dir: Seq<u8>,
    c: SpecifierModel,
    suffix: Seq<u8>,
) -> Outcome {
    if c.kind is External {
        untraced(Ok(ResolvedModel::External(c.request)))
    } else {
        let f = field_aliased(w, opts, dir, c);
        after(
            f.deps,
            match f.value {
                Err(x) => untraced(Err(x)),
                Ok(FieldAliased::Ignored) => untraced(Ok(ResolvedModel::Ignored)),
                Ok(FieldAliased::Unchanged) => resolve_request(w, opts, dir, c, suffix),
                Ok(FieldAliased::Rewritten(base, request)) => match classified(request) {
                    None => untraced(Err(ResolveError::InvalidSpecifier)),
                    Some(c2) => resolve_request(w, opts, base, c2, suffix),
                },
            },
        )
    }
}

/// The outcome of resolving the raw specifier `raw` from the directory
/// `dir`, and every path looked at on the way.
///
/// The start directory has to be an absolute path of a directory. The
/// specifier is classified; an external one is given back as written. The
/// alias rules rewrite the request until none applies: a rule that maps to
/// nothing ends the resolution as ignored, a circle as `CircularAlias`.
/// What the rules leave is classified again if they changed it, and
/// resolved as `resolve_classified` says. The result carries the query and
/// fragment of the specifier as it was written.
pub open spec fn resolution(w: World, opts: OptionsModel, dir: Seq<u8>, raw: Seq<u8>) -> Outcome {
    if !is_absolute(dir) || !(stat(w.fs, dir) is Directory) {
        untraced(
            Err(
                if is_absolute(dir) && stat(w.fs, dir) is Failed {
                    ResolveError::FilesystemError
                } else {
                    ResolveError::InvalidStartDirectory
                },
            ),
        )
    } else {
        match classified(raw) {
            None => untraced(Err(ResolveError::InvalidSpecifier)),
            Some(c) => if c.kind is External {
                untraced(Ok(ResolvedModel::External(c.request)))
            } else {
                match aliased(opts.alias, c.request) {
                    Aliased::Ignored => untraced(Ok(ResolvedModel::Ignored)),
                    Aliased::Circular => untraced(Err(ResolveError::CircularAlias)),
                    Aliased::Request(r) => if r == c.request {
                        resolve_classified(w, opts, dir, c, c.suffix)
                    } else {
                        match classified(r) {
                            None => untraced(Err(ResolveError::InvalidSpecifier)),
                            Some(c1) => resolve_classified(w, opts, dir, c1, c.suffix),
                        }
                    },
                }
            },
        }
    }
}

/// What following symbolic links to the canonical path `canon` of `p`
/// records as found: every link passed through, and `canon`.
pub open spec fn traversal(fs: FsModel, p: Seq<u8>, canon: Seq<u8>) -> Deps {
    Deps { files: links_of(fs, p).to_set().insert(canon), missing: Set::empty() }
}

/// What following the symbolic links of a found file records, unless links
/// are kept or cannot be followed.
pub open spec fn link_deps(fs: FsModel, opts: OptionsModel, v: Result<Seq<u8>, ResolveError>)
    -> Deps {
    match v {
        Ok(p) if !opts.preserve_symlinks => match realpath(fs, p) {
            Some(canon) => traversal(fs, p, canon),
            None => Deps::empty(),
        },
        _ => Deps::empty(),
    }
}

/// `finished` keeps what was looked at and adds what `link_deps` says; its
/// value does not depend on what was looked at.
pub proof fn lemma_finished(
    fs: FsModel,
    opts: OptionsModel,
    l: Located,
    package: Option<Seq<u8>>,
    suffix: Seq<u8>,
)
    ensures
        finished(fs, opts, l, package, suffix).deps == l.deps.union(link_deps(fs, opts, l.value)),
        finished(fs, opts, l, package, suffix).value == finished(
            fs,
            opts,
            untraced(l.value),
            package,
            suffix,
        ).value,
{
    lemma_union_simple(l.deps, suffix);
}

fn finish(
    fs: &FileSystem,
    opts: &Options,
    found: Result<Vec<u8>, ResolveError>,
    package: Option<Vec<u8>>,
    suffix: &[u8],
    ctx: &mut ResolutionContext,
) -> (r: Result<Resolved, ResolveError>)
    ensures
        outcome_view(r) == finished(
            fs@,
            opts@,
            untraced(located_view(found)),
            optional_view(package),
            suffix@,
        ).value,
        final(ctx)@ == old(ctx)@.union(link_deps(fs@, opts@, located_view(found))),
{
    proof {
        lemma_union_simple(old(ctx)@, suffix@);
    }
    match found {
        Err(e) => Err(e),
        Ok(p) => {
            if opts.preserve_symlinks {
                Ok(Resolved::File(Resolution { path: p, package, suffix: copy(suffix) }))
            } else {
                let (canonical, links) = fs.follow_links(p.as_slice());
                match canonical {
                    None => Err(ResolveError::FilesystemError),
                    Some(canon) => {
                        ctx.add_files(&links);
                        ctx.add_file(canon.as_slice());
                        proof {
                            lemma_deps_equal(ctx@, old(ctx)@.union(traversal(fs@, p@, canon@)));
                        }
                        Ok(Resolved::File(Resolution { path: canon, package, suffix: copy(suffix) }))
                    },
                }
            }
        },
    }
}

/// Finds the file that a classified request names.
pub fn locate_request(
    cache: &mut DescriptorCache,
    fs: &FileSystem,
    opts: &Options,
    dir: &[u8],
    c: &Specifier,
    suffix: &[u8],
    ctx: &mut ResolutionContext,
) -> (r: Result<Resolved, ResolveError>)
    ensures
        ({
            let w = world(old(cache)@, fs@, opts@.description_files);
            let t = resolve_request(w, opts@, dir@, c@, suffix@);
            &&& outcome_view(r) == t.value
            &&& final(ctx)@ == old(ctx)@.union(t.deps)
            &&& world(final(cache)@, fs@, opts@.description_files) == w
        }),
{
    let ghost w = world(old(cache)@, fs@, opts@.description_files);
    let ghost c0 = old(ctx)@;
    proof {
        lemma_union_simple(c0, dir@);
    }
    match c.kind {
        SpecifierKind::External => Ok(Resolved::External(copy(c.request.as_slice()))),
        SpecifierKind::Absolute | SpecifierKind::Relative => {
            let p = if c.kind == SpecifierKind::Absolute {
                normalized(c.request.as_slice())
            } else {
                joined(dir, c.request.as_slice())
            };
            let found = require_found(
                search_path(cache, fs, opts, p.as_slice(), c.extension.as_slice(), ctx),
            );
            proof {
                let l = or_not_found(resolve_path(w, opts@, p@, c@.extension));
                lemma_finished(fs@, opts@, l, None, suffix@);
                lemma_union_assoc(c0, l.deps, link_deps(fs@, opts@, l.value));
            }
            finish(fs, opts, found, None, suffix, ctx)
        },
        SpecifierKind::Bare | SpecifierKind::ScopedBare => {
            let ghost lp = locate_package(fs@, dir@, c@.package_name);
            proof {
                lemma_union_simple(c0.union(lp.deps), dir@);
                lemma_union_simple(lp.deps, dir@);
            }
            match find_package(fs, dir, c.package_name.as_slice(), ctx) {
                Err(e) => Err(e),
                Ok(None) => Err(ResolveError::NotFound),
                Ok(Some(pkg)) => {
                    let found = search_package(
                        cache,
                        fs,
                        opts,
                        pkg.as_slice(),
                        c.subpath.as_slice(),
                        c.extension.as_slice(),
                        ctx,
                    );
                    proof {
                        let l = resolve_in_package(w, opts@, pkg@, c@.subpath, c@.extension);
                        lemma_finished(fs@, opts@, l, Some(pkg@), suffix@);
                        lemma_union_assoc(c0.union(lp.deps), l.deps, link_deps(fs@, opts@, l.value));
                        lemma_union_assoc(c0, lp.deps, l.deps.union(link_deps(fs@, opts@, l.value)));
                    }
                    finish(fs, opts, found, Some(pkg), suffix, ctx)
                },
            }
        },
        SpecifierKind::SelfReference => {
            let ghost e = enclosing_package(w, opts@.description_files, dir@);
            proof {
                lemma_union_simple(c0.union(e.deps), dir@);
                lemma_union_simple(e.deps, dir@);
            }
            match find_enclosing(cache, fs, opts, dir, ctx) {
                Err(x) => Err(x),
                Ok(None) => Err(ResolveError::NotFound),
                Ok(Some(i)) => {
                    let ghost d = cache.at(i as int);
                    let base = copy(cache.entry(i).directory().as_slice());
                    let found = search_imports(cache, fs, opts, i, c.request.as_slice(), ctx);
                    proof {
                        let l = resolve_imports(w, opts@, d, c@.request);
                        lemma_finished(fs@, opts@, l, Some(d.directory), suffix@);
                        lemma_union_assoc(c0.union(e.deps), l.deps, link_deps(fs@, opts@, l.value));
                        lemma_union_assoc(c0, e.deps, l.deps.union(link_deps(fs@, opts@, l.value)));
                    }
                    finish(fs, opts, found, Some(base), suffix, ctx)
                },
            }
        },
    }
}

/// Resolves a request that the alias rules are done with.
pub fn resolve_after_aliases(
    cache: &mut DescriptorCache,
    fs: &FileSystem,
    opts: &Options,
    dir: &[u8],
    c: &Specifier,
    suffix: &[u8],
    ctx: &mut ResolutionContext,
) -> (r: Result<Resolved, ResolveError>)
    ensures
        ({
            let w = world(old(cache)@, fs@, opts@.description_files);
            let t = resolve_classified(w, opts@, dir@, c@, suffix@);
            &&& outcome_view(r) == t.value
            &&& final(ctx)@ == old(ctx)@.union(t.deps)
            &&& world(final(cache)@, fs@, opts@.description_files) == w
        }),
{
    let ghost w = world(old(cache)@, fs@, opts@.description_files);
    let ghost c0 = old(ctx)@;
    let ghost f = field_aliased(w, opts@, dir@, c@);
    proof {
        lemma_union_simple(c0, dir@);
        lemma_union_simple(c0.union(f.deps), dir@);
        lemma_union_simple(f.deps, dir@);
    }
    if c.kind == SpecifierKind::External {
        return Ok(Resolved::External(copy(c.request.as_slice())));
    }
    match apply_alias_fields(cache, fs, opts, dir, c, ctx) {
        Err(x) => Err(x),
        Ok(FieldAlias::Ignored) => Ok(Resolved::Ignored),
        Ok(FieldAlias::Unchanged) => {
            proof {
                lemma_union_assoc(c0, f.deps, resolve_request(w, opts@, dir@, c@, suffix@).deps);
            }
            locate_request(cache, fs, opts, dir, c, suffix, ctx)
        },
        Ok(FieldAlias::Rewritten(base, request)) => {
            match classify(request.as_slice()) {
                Err(_) => Err(ResolveError::InvalidSpecifier),
                Ok(c2) => {
                    proof {
                        lemma_union_assoc(
                            c0,
                            f.deps,
                            resolve_request(w, opts@, base@, c2@, suffix@).deps,
                        );
                    }
                    locate_request(cache, fs, opts, base.as_slice(), &c2, suffix, ctx)
                },
            }
        },
    }
}

/// Resolves a raw specifier from a start directory.
pub fn resolve_with(
    cache: &mut DescriptorCache,
    fs: &FileSystem,
    opts: &Options,
    dir: &[u8],
    raw: &[u8],
    ctx: &mut ResolutionContext,
) -> (r: Result<Resolved, ResolveError>)
    ensures
        ({
            let w = world(old(cache)@, fs@, opts@.description_files);
            let t = resolution(w, opts@, dir@, raw@);
            &&& outcome_view(r) == t.value
            &&& final(ctx)@ == old(ctx)@.union(t.deps)
            &&& world(final(cache)@, fs@, opts@.description_files) == w
        }),
{
    proof {
        lemma_union_simple(ctx@, dir@);
    }
    if !starts_at_root(dir) {
        return Err(ResolveError::InvalidStartDirectory);
    }
    match fs.stat(dir) {
        Stat::Directory => {},
        Stat::Failed => {
            return Err(ResolveError::FilesystemError);
        },
        _ => {
            return Err(ResolveError::InvalidStartDirectory);
        },
    }
    let c = match classify(raw) {
        Err(_) => {
            return Err(ResolveError::InvalidSpecifier);
        },
        Ok(c) => c,
    };
    if c.kind == SpecifierKind::External {
        return Ok(Resolved::External(c.request));
    }
    match apply_aliases(&opts.alias, c.request.as_slice()) {
        AliasOutcome::Ignored => Ok(Resolved::Ignored),
        AliasOutcome::Circular => Err(ResolveError::CircularAlias),
        AliasOutcome::Request(r) => {
            if equal(r.as_slice(), c.request.as_slice()) {
                resolve_after_aliases(cache, fs, opts, dir, &c, c.suffix.as_slice(), ctx)
            } else {
                match classify(r.as_slice()) {
                    Err(_) => Err(ResolveError::InvalidSpecifier),
                    Ok(c1) => resolve_after_aliases(
                        cache,
                        fs,
                        opts,
                        dir,
                        &c1,
                        c.suffix.as_slice(),
                        ctx,
                    ),
                }
            }
        },
    }
}

/// A resolver: a configuration and the descriptors read so far.
#[derive(Debug)]
pub struct Resolver {
    options: Options,
    cache: DescriptorCache,
}

impl Resolver {
    #[verifier::type_invariant]
    spec fn accepted(self) -> bool {
        self.options@.valid()
    }

    /// The configuration.
    pub closed spec fn options(&self) -> OptionsModel {
        self.options@
    }

    /// The descriptors read so far, by directory.
    pub closed spec fn cached(&self) -> CacheModel {
        self.cache@
    }

    /// What this resolver sees over the filesystem `fs`.
    pub open spec fn world(&self, fs: FsModel) -> World {
        world(self.cached(), fs, self.options().description_files)
    }

    /// The resolver is in step with the filesystem `fs`: for every
    /// directory it sees the descriptor that `fs` gives, as a resolver
    /// with an empty cache does.
    pub open spec fn in_step(&self, fs: FsModel) -> bool {
        self.world(fs) == world(
            Map::<Seq<u8>, DescriptorModel>::empty(),
            fs,
            self.options().description_files,
        )
    }

    /// A resolver with the configuration `options` and an empty cache,
    /// in step with every filesystem; `None` when the configuration is not
    /// valid.
    pub fn new(options: Options) -> (r: Option<Resolver>)
        ensures
            match r {
                Some(x) => options@.valid() && x.options() == options@ && x.cached()
                    == Map::<Seq<u8>, DescriptorModel>::empty() && forall|fs: FsModel|
                    x.in_step(fs),
                None => !options@.valid(),
            },
    {
        if options.is_valid() {
            Some(Resolver { options, cache: DescriptorCache::new() })
        } else {
            None
        }
    }

    /// The configuration, which is valid.
    pub fn configuration(&self) -> (r: &Options)
        ensures
            r@ == self.options(),
            r@.valid(),
    {
        proof {
            use_type_invariant(self);
        }
        &self.options
    }

    /// Forgets every descriptor read so far, which puts the resolver in
    /// step with every filesystem.
    pub fn clear_cache(&mut self)
        ensures
            final(self).options() == old(self).options(),
            final(self).cached() == Map::<Seq<u8>, DescriptorModel>::empty(),
            forall|fs: FsModel| final(self).in_step(fs),
    {
        proof {
            use_type_invariant(&*self);
        }
        let mut empty = DescriptorCache::new();
        core::mem::swap(&mut self.cache, &mut empty);
    }

    /// Resolves `specifier` from the directory `dir` over the filesystem
    /// `fs`. The outcome and the paths added to `ctx` are those of
    /// `resolution`; nothing is taken out of `ctx`. The resolver keeps its
    /// configuration, and whatever it has read, it sees the same world
    /// afterwards; one that was in step with `fs` still is.
    pub fn resolve(
        &mut self,
        fs: &FileSystem,
        dir: &[u8],
        specifier: &[u8],
        ctx: &mut ResolutionContext,
    ) -> (r: Result<Resolved, ResolveError>)
        ensures
            outcome_view(r) == resolution(
                old(self).world(fs@),
                old(self).options(),
                dir@,
                specifier@,
            ).value,
            final(ctx)@ == old(ctx)@.union(
                resolution(old(self).world(fs@), old(self).options(), dir@, specifier@).deps,
            ),
            old(ctx)@.within(final(ctx)@),
            final(self).options() == old(self).options(),
            final(self).world(fs@) == old(self).world(fs@),
            old(self).in_step(fs@) ==> final(self).in_step(fs@),
    {
        proof {
            use_type_invariant(&*self);
        }
        let mut cache = DescriptorCache::new();
        core::mem::swap(&mut self.cache, &mut cache);
        let r = resolve_with(&mut cache, fs, &self.options, dir, specifier, ctx);
        core::mem::swap(&mut self.cache, &mut cache);
        r
    }

    /// As `resolve`, for a directory and a specifier given as text; they
    /// are taken by their bytes.
    pub fn resolve_str(
        &mut self,
        fs: &FileSystem,
        dir: &str,
        specifier: &str,
        ctx: &mut ResolutionContext,
    ) -> (r: Result<Resolved, ResolveError>)
        ensures
            outcome_view(r) == resolution(
                old(self).world(fs@),
                old(self).options(),
                dir.spec_bytes(),
                specifier.spec_bytes(),
            ).value,
            final(ctx)@ == old(ctx)@.union(
                resolution(
                    old(self).world(fs@),
                    old(self).options(),
                    dir.spec_bytes(),
                    specifier.spec_bytes(),
                ).deps,
            ),
            old(ctx)@.within(final(ctx)@),
            final(self).options() == old(self).options(),
            final(self).world(fs@) == old(self).world(fs@),
            old(self).in_step(fs@) ==> final(self).in_step(fs@),
    {
        self.resolve(fs, dir.as_bytes(), specifier.as_bytes(), ctx)
    }
}

/// Resolving twice gives the same. The outcome and what is looked at are
/// a function of the world, the configuration, the directory and the
/// specifier; a resolution leaves the world as it was (see
/// `Resolver::resolve`), so a second one has the same outcome and looks at
/// the same paths; and a record that already holds those paths is not
/// changed by it.
pub proof fn lemma_resolving_twice(
    before: World,
    between: World,
    opts: OptionsModel,
    dir: Seq<u8>,
    raw: Seq<u8>,
    record: Deps,
)
    requires
        between == before,
    ensures
        resolution(between, opts, dir, raw) == resolution(before, opts, dir, raw),
        Deps::empty().union(resolution(between, opts, dir, raw).deps) == Deps::empty().union(
            resolution(before, opts, dir, raw).deps,
        ),
        record.union(resolution(before, opts, dir, raw).deps).union(
            resolution(between, opts, dir, raw).deps,
        ) == record.union(resolution(before, opts, dir, raw).deps),
{
    let d = resolution(before, opts, dir, raw).deps;
    lemma_union_assoc(record, d, d);
    lemma_union_simple(d, dir);
}

/// For a resolver in step with the filesystem, the outcome of a resolution
/// is a function of the filesystem, the configuration, the directory and
/// the specifier alone: the cache does not show.
pub proof fn lemma_cache_does_not_show(
    cache: CacheModel,
    fs: FsModel,
    opts: OptionsModel,
    dir: Seq<u8>,
    raw: Seq<u8>,
)
    requires
        world(cache, fs, opts.description_files) == world(
            Map::<Seq<u8>, DescriptorModel>::empty(),
            fs,
            opts.description_files,
        ),
    ensures
        resolution(world(cache, fs, opts.description_files), opts, dir, raw) == resolution(
            world(Map::<Seq<u8>, DescriptorModel>::empty(), fs, opts.description_files),
            opts,
            dir,
            raw,
        ),
{
}

/// A resolver whose cache holds nothing sees, for every directory, the
/// descriptor that the filesystem gives.
pub proof fn lemma_new_resolver_world(fs: FsModel, files: Seq<Seq<u8>>, dir: Seq<u8>)
    ensures
        (world(Map::<Seq<u8>, DescriptorModel>::empty(), fs, files).descriptors)(dir)
            == load_from(fs, files, normalize(dir), 0),
{
}

/// A specifier whose request the alias rules map to nothing resolves as
/// ignored, never as not found, and nothing is looked at for it.
pub proof fn lemma_ignored_not_missing(
    w: World,
    opts: OptionsModel,
    dir: Seq<u8>,
    raw: Seq<u8>,
    c: SpecifierModel,
)
    requires
        is_absolute(dir),
        stat(w.fs, dir) is Directory,
        classified(raw) == Some(c),
        !(c.kind is External),
        aliased(opts.alias, c.request) is Ignored,
    ensures
        resolution(w, opts, dir, raw) == untraced::<Result<ResolvedModel, ResolveError>>(
            Ok(ResolvedModel::Ignored),
        ),
{
}

/// Unless symbolic links are kept, a found file comes out under its
/// canonical path, and that path and every link passed through on the way
/// are recorded as found along with what was looked at before.
pub proof fn lemma_canonical_path(
    fs: FsModel,
    opts: OptionsModel,
    l: Located,
    package: Option<Seq<u8>>,
    suffix: Seq<u8>,
    p: Seq<u8>,
    canon: Seq<u8>,
)
    requires
        !opts.preserve_symlinks,
        l.value == Ok::<Seq<u8>, ResolveError>(p),
        realpath(fs, p) == Some(canon),
    ensures
        finished(fs, opts, l, package, suffix).value == Ok::<ResolvedModel, ResolveError>(
            ResolvedModel::File(ResolutionModel { path: canon, package, suffix }),
        ),
        finished(fs, opts, l, package, suffix).deps.files.contains(canon),
        forall|i: int|
            0 <= i < links_of(fs, p).len() ==> finished(
                fs,
                opts,
                l,
                package,
                suffix,
            ).deps.files.contains(#[trigger] links_of(fs, p)[i]),
        l.deps.within(finished(fs, opts, l, package, suffix).deps),
{
    assert forall|i: int| 0 <= i < links_of(fs, p).len() implies links_of(fs, p).to_set().contains(
        #[trigger] links_of(fs, p)[i],
    ) by {
        assert(links_of(fs, p).contains(links_of(fs, p)[i]));
    }
}

/// The request `c` of the specifier `raw` reaches the search as it was
/// written: the start directory is one, no alias rule applies to the
/// request, and no alias field is configured.
pub open spec fn unaliased(
    w: World,
    opts: OptionsModel,
    dir: Seq<u8>,
    raw: Seq<u8>,
    c: SpecifierModel,
) -> bool {
    &&& is_absolute(dir)
    &&& stat(w.fs, dir) is Directory
    &&& classified(raw) == Some(c)
    &&& aliased(opts.alias, c.request) == Aliased::Request(c.request)
    &&& opts.alias_fields.len() == 0
}

/// A request that reaches the search as it was written is resolved by
/// `resolve_request` from the start directory.
pub proof fn lemma_unaliased(
    w: World,
    opts: OptionsModel,
    dir: Seq<u8>,
    raw: Seq<u8>,
    c: SpecifierModel,
)
    requires
        unaliased(w, opts, dir, raw, c),
    ensures
        resolution(w, opts, dir, raw) == resolve_request(w, opts, dir, c, c.suffix),
{
    let r = resolve_request(w, opts, dir, c, c.suffix);
    lemma_union_simple(r.deps, dir);
    if c.kind is External {
        assert(r == untraced::<Result<ResolvedModel, ResolveError>>(
            Ok(ResolvedModel::External(c.request)),
        ));
    } else {
        assert(resolution(w, opts, dir, raw).value == r.value);
        assert(resolution(w, opts, dir, raw).deps == r.deps);
    }
}

/// Extension priority, from specifier to file: for a relative request
/// without a written extension whose path is nothing by itself, the result
/// is the path with the first configured extension that makes a file; and
/// every extension passed over on the way that made nothing is in the
/// record as missing.
pub proof fn lemma_relative_extension_priority(
    w: World,
    opts: OptionsModel,
    dir: Seq<u8>,
    raw: Seq<u8>,
    c: SpecifierModel,
    k: int,
)
    requires
        unaliased(w, opts, dir, raw, c),
        c.kind is Relative,
        c.extension.len() == 0,
        opts.preserve_symlinks,
        stat(w.fs, join(dir, c.request)) is Missing,
        0 <= k < opts.extensions.len(),
        stat(w.fs, join(dir, c.request) + opts.extensions[k]) is File,
        passed_over(w.fs, join(dir, c.request), opts.extensions, 0, k),
    ensures
        resolution(w, opts, dir, raw).value == Ok::<ResolvedModel, ResolveError>(
            ResolvedModel::File(
                ResolutionModel {
                    path: join(dir, c.request) + opts.extensions[k],
                    package: None,
                    suffix: c.suffix,
                },
            ),
        ),
        forall|j: int|
            0 <= j < k && stat(w.fs, join(dir, c.request) + #[trigger] opts.extensions[j])
                is Missing ==> resolution(w, opts, dir, raw).deps.missing.contains(
                join(dir, c.request) + opts.extensions[j],
            ),
{
    let p = join(dir, c.request);
    lemma_unaliased(w, opts, dir, raw, c);
    lemma_first_extension_wins(w.fs, p, opts.extensions, 0, k);
    assert forall|j: int|
        0 <= j < k && stat(w.fs, p + #[trigger] opts.extensions[j])
            is Missing implies resolution(w, opts, dir, raw).deps.missing.contains(
        p + opts.extensions[j],
    ) by {
        assert forall|m: int| 0 <= m < j implies !(stat(w.fs, p + #[trigger] opts.extensions[m])
            is File) && !(stat(w.fs, p + opts.extensions[m]) is Failed) by {}
        lemma_attempts_recorded(w.fs, p, opts.extensions, 0, j);
    }
}

/// Unexported subpath, from specifier to failure: a package request whose
/// package is installed and has exports that do not list the subpath fails
/// with `PackagePathNotExported`, whatever files the package holds.
pub proof fn lemma_unexported_subpath(
    w: World,
    opts: OptionsModel,
    dir: Seq<u8>,
    raw: Seq<u8>,
    c: SpecifierModel,
    pkg: Seq<u8>,
    d: DescriptorModel,
)
    requires
        unaliased(w, opts, dir, raw, c),
        c.kind is Bare || c.kind is ScopedBare,
        locate_package(w.fs, dir, c.package_name).value == Ok::<Option<Seq<u8>>, ResolveError>(
            Some(pkg),
        ),
        (w.descriptors)(pkg) == Loaded::Found(d),
        field(d.json, exports_name()) is Some,
        exports_targets(
            field(d.json, exports_name())->Some_0,
            seq![DOT] + c.subpath,
            opts.condition_names,
        ) is NotExported,
    ensures
        resolution(w, opts, dir, raw).value == Err::<ResolvedModel, ResolveError>(
            ResolveError::PackagePathNotExported,
        ),
{
    lemma_unaliased(w, opts, dir, raw, c);
    lemma_unexported_rejected(w, opts, pkg, c.subpath, c.extension, d);
}

} // verus!
