//! From a candidate path to a file: the path itself, with an extension put
//! in place of the one written, with an extension added, or, for a
//! directory, its main entry or its index file.

use vstd::prelude::*;
use crate::bytes::{concatenated, copy, copy_range, ends_with, equal, has_suffix, views};
use crate::context::{lemma_union_assoc, lemma_union_simple, Deps, ResolutionContext};
use crate::descriptor::{load_deps, DescriptorCache, Loaded, Lookup};
use crate::error::ResolveError;
use crate::fs::{stat, FileSystem, FsModel, Stat};
use crate::json::{field, get_field, Json, JsonValue};
use crate::options::{extension_alias_models, ExtensionAlias, ExtensionAliasModel, Options, OptionsModel};
use crate::path::{join, joined};
use crate::world::{after, lookup, untraced, world, Traced, World};

verus! {

/// The outcome of a search for a file: the file, nothing, or a failure;
/// and what was looked at.
pub type Search = Traced<Result<Option<Seq<u8>>, ResolveError>>;

/// The search found nothing and did not fail.
pub open spec fn nothing(s: Search) -> bool {
    s.value == Ok::<Option<Seq<u8>>, ResolveError>(None)
}

/// The value of the outcome of an executable search.
pub open spec fn found_view(r: Result<Option<Vec<u8>>, ResolveError>) -> Result<
    Option<Seq<u8>>,
    ResolveError,
> {
    match r {
        Ok(Some(p)) => Ok(Some(p@)),
        Ok(None) => Ok(None),
        Err(e) => Err(e),
    }
}

/// What one probe of `p` records: the path as found when something is
/// there, as missing when nothing is, and nothing when the probe fails.
pub open spec fn probe_deps(fs: FsModel, p: Seq<u8>) -> Deps {
    match stat(fs, p) {
        Stat::File => Deps::file(p),
        Stat::Directory => Deps::file(p),
        Stat::Missing => Deps::miss(p),
        Stat::Failed => Deps::empty(),
    }
}

/// Probes `p` and records the probe.
pub fn probe(fs: &FileSystem, p: &[u8], ctx: &mut ResolutionContext) -> (r: Stat)
    ensures
        r == stat(fs@, p@),
        final(ctx)@ == old(ctx)@.union(probe_deps(fs@, p@)),
{
    let r = fs.stat(p);
    proof {
        lemma_union_simple(old(ctx)@, p@);
    }
    match r {
        Stat::File => ctx.add_file(p),
        Stat::Directory => ctx.add_file(p),
        Stat::Missing => ctx.add_missing(p),
        Stat::Failed => {},
    }
    r
}

/// Tries `base` with each of `exts[i..]` added, in order: the first that
/// is a file is the result, and a probe that fails ends the search. Every
/// path tried is recorded, whatever comes after it.
pub open spec fn try_suffixes(fs: FsModel, base: Seq<u8>, exts: Seq<Seq<u8>>, i: int) -> Search
    decreases exts.len() - i,
{
    if i < 0 || i >= exts.len() {
        untraced(Ok(None))
    } else {
        let p = base + exts[i];
        match stat(fs, p) {
            Stat::File => Traced { value: Ok(Some(p)), deps: Deps::file(p) },
            Stat::Failed => untraced(Err(ResolveError::FilesystemError)),
            _ => after(probe_deps(fs, p), try_suffixes(fs, base, exts, i + 1)),
        }
    }
}

/// The first file among `base` with each of `exts` added.
pub fn search_suffixes(
    fs: &FileSystem,
    base: &[u8],
    exts: &Vec<Vec<u8>>,
    ctx: &mut ResolutionContext,
) -> (r: Result<Option<Vec<u8>>, ResolveError>)
    ensures
        found_view(r) == try_suffixes(fs@, base@, views(exts@), 0).value,
        final(ctx)@ == old(ctx)@.union(try_suffixes(fs@, base@, views(exts@), 0).deps),
{
    let ghost all = views(exts@);
    let mut i: usize = 0;
    while i < exts.len()
        invariant
            i <= exts@.len(),
            all == views(exts@),
            try_suffixes(fs@, base@, all, 0).value == try_suffixes(fs@, base@, all, i as int).value,
            old(ctx)@.union(try_suffixes(fs@, base@, all, 0).deps) == ctx@.union(
                try_suffixes(fs@, base@, all, i as int).deps,
            ),
        decreases exts@.len() - i,
    {
        let p = concatenated(base, exts[i].as_slice());
        let ghost before = ctx@;
        assert(all[i as int] == exts@[i as int]@);
        proof {
            lemma_union_assoc(
                before,
                probe_deps(fs@, p@),
                try_suffixes(fs@, base@, all, i + 1).deps,
            );
            lemma_union_simple(before, p@);
        }
        match probe(fs, p.as_slice(), ctx) {
            Stat::File => {
                return Ok(Some(p));
            },
            Stat::Failed => {
                return Err(ResolveError::FilesystemError);
            },
            _ => {},
        }
        i += 1;
    }
    proof {
        lemma_union_simple(ctx@, base@);
    }
    Ok(None)
}

/// The position of the first rule for `ext` among `rules[i..]`; -1 when
/// there is none.
pub open spec fn alias_index(rules: Seq<ExtensionAliasModel>, ext: Seq<u8>, i: int) -> int
    decreases rules.len() - i,
{
    if i < 0 || i >= rules.len() {
        -1
    } else if rules[i].extension == ext {
        i
    } else {
        alias_index(rules, ext, i + 1)
    }
}

fn find_extension_alias(rules: &Vec<ExtensionAlias>, ext: &[u8]) -> (r: Option<usize>)
    ensures
        match r {
            Some(k) => k < rules@.len() && k == alias_index(
                extension_alias_models(rules@),
                ext@,
                0,
            ),
            None => alias_index(extension_alias_models(rules@), ext@, 0) == -1,
        },
{
    let ghost all = extension_alias_models(rules@);
    let mut i: usize = 0;
    while i < rules.len()
        invariant
            i <= rules@.len(),
            all == extension_alias_models(rules@),
            alias_index(all, ext@, 0) == alias_index(all, ext@, i as int),
        decreases rules@.len() - i,
    {
        assert(all[i as int].extension == rules@[i as int].extension@);
        if equal(rules[i].extension.as_slice(), ext) {
            return Some(i);
        }
        i += 1;
    }
    None
}

/// What is tried once `p` itself is known to be no file. Where the request
/// wrote an extension that has a rule, `p` with each replacement in place
/// of that extension; otherwise `p` with each configured extension added.
pub open spec fn beyond_exact(fs: FsModel, opts: OptionsModel, p: Seq<u8>, ext: Seq<u8>) -> Search {
    let k = alias_index(opts.extension_alias, ext, 0);
    if ext.len() > 0 && has_suffix(p, ext) && 0 <= k < opts.extension_alias.len() {
        try_suffixes(fs, p.take(p.len() - ext.len()), opts.extension_alias[k].replacements, 0)
    } else {
        try_suffixes(fs, p, opts.extensions, 0)
    }
}

/// The file that the candidate `p` stands for, `ext` being the extension
/// that the request wrote out (empty for none): `p` itself if it is a file,
/// else what `beyond_exact` finds.
pub open spec fn resolve_file(fs: FsModel, opts: OptionsModel, p: Seq<u8>, ext: Seq<u8>) -> Search {
    match stat(fs, p) {
        Stat::File => Traced { value: Ok(Some(p)), deps: Deps::file(p) },
        Stat::Failed => untraced(Err(ResolveError::FilesystemError)),
        _ => after(probe_deps(fs, p), beyond_exact(fs, opts, p, ext)),
    }
}

/// The file name `index`.
pub open spec fn index_name() -> Seq<u8> {
    seq![105u8, 110, 100, 101, 120]
}

/// The index file of the directory `dir`: `index` with each configured
/// extension added.
pub open spec fn index_file(fs: FsModel, opts: OptionsModel, dir: Seq<u8>) -> Search {
    try_suffixes(fs, join(dir, index_name()), opts.extensions, 0)
}

/// The file that a main entry `p` stands for: as `resolve_file` without a
/// written extension, and the index file of `p` if `p` is a directory and
/// nothing else was found.
pub open spec fn file_or_index(fs: FsModel, opts: OptionsModel, p: Seq<u8>) -> Search {
    let a = resolve_file(fs, opts, p, Seq::empty());
    if nothing(a) && stat(fs, p) is Directory {
        after(a.deps, index_file(fs, opts, p))
    } else {
        a
    }
}

/// The main fields from position `i` on: the first whose value in the
/// descriptor is a non-empty text that leads to a file.
pub open spec fn main_entries(
    fs: FsModel,
    opts: OptionsModel,
    dir: Seq<u8>,
    json: JsonValue,
    i: int,
) -> Search
    decreases opts.main_fields.len() - i,
{
    if i < 0 || i >= opts.main_fields.len() {
        untraced(Ok(None))
    } else {
        match field(json, opts.main_fields[i]) {
            Some(JsonValue::Text(m)) if m.len() > 0 => {
                let r = file_or_index(fs, opts, join(dir, m));
                if nothing(r) {
                    after(r.deps, main_entries(fs, opts, dir, json, i + 1))
                } else {
                    r
                }
            },
            _ => main_entries(fs, opts, dir, json, i + 1),
        }
    }
}

/// The file that the directory `dir` stands for: what its descriptor's
/// main fields lead to, else its index file. A malformed descriptor and a
/// failed lookup end the search.
pub open spec fn resolve_directory(w: World, opts: OptionsModel, dir: Seq<u8>) -> Search {
    let l = (w.descriptors)(dir);
    after(
        load_deps(opts.description_files, dir, l),
        match l {
            Loaded::Invalid(_) => untraced(Err(ResolveError::InvalidPackageConfig)),
            Loaded::Failed(_) => untraced(Err(ResolveError::FilesystemError)),
            Loaded::Absent => index_file(w.fs, opts, dir),
            Loaded::Found(d) => {
                let m = main_entries(w.fs, opts, dir, d.json, 0);
                if nothing(m) {
                    after(m.deps, index_file(w.fs, opts, dir))
                } else {
                    m
                }
            },
        },
    )
}

/// The file that the candidate `p` stands for: as `resolve_file`, and as
/// `resolve_directory` if `p` is a directory and no file was found.
pub open spec fn resolve_path(w: World, opts: OptionsModel, p: Seq<u8>, ext: Seq<u8>) -> Search {
    let a = resolve_file(w.fs, opts, p, ext);
    if nothing(a) && stat(w.fs, p) is Directory {
        after(a.deps, resolve_directory(w, opts, p))
    } else {
        a
    }
}

fn search_beyond_exact(
    fs: &FileSystem,
    opts: &Options,
    p: &[u8],
    ext: &[u8],
    ctx: &mut ResolutionContext,
) -> (r: Result<Option<Vec<u8>>, ResolveError>)
    ensures
        found_view(r) == beyond_exact(fs@, opts@, p@, ext@).value,
        final(ctx)@ == old(ctx)@.union(beyond_exact(fs@, opts@, p@, ext@).deps),
{
    if ext.len() > 0 && ends_with(p, ext) {
        match find_extension_alias(&opts.extension_alias, ext) {
            Some(k) => {
                let base = copy_range(p, 0, p.len() - ext.len());
                assert(p@.subrange(0, p@.len() - ext@.len()) =~= p@.take(p@.len() - ext@.len()));
                assert(opts@.extension_alias[k as int].replacements == views(
                    opts.extension_alias@[k as int].replacements@,
                ));
                return search_suffixes(
                    fs,
                    base.as_slice(),
                    &opts.extension_alias[k].replacements,
                    ctx,
                );
            },
            None => {},
        }
    }
    search_suffixes(fs, p, &opts.extensions, ctx)
}

/// What `resolve_file` looks at after its probe of `p`.
pub open spec fn beyond_probe(fs: FsModel, opts: OptionsModel, p: Seq<u8>, ext: Seq<u8>) -> Deps {
    match stat(fs, p) {
        Stat::File => Deps::empty(),
        Stat::Failed => Deps::empty(),
        _ => beyond_exact(fs, opts, p, ext).deps,
    }
}

/// `resolve_file` looks at `p` and then at what `beyond_probe` says.
pub proof fn lemma_resolve_file_deps(fs: FsModel, opts: OptionsModel, p: Seq<u8>, ext: Seq<u8>)
    ensures
        resolve_file(fs, opts, p, ext).deps == probe_deps(fs, p).union(
            beyond_probe(fs, opts, p, ext),
        ),
{
    lemma_union_simple(probe_deps(fs, p), p);
}

/// Finds the file that `p` stands for, given what a probe of `p` gave.
fn search_file_after(
    fs: &FileSystem,
    opts: &Options,
    p: &[u8],
    ext: &[u8],
    st: Stat,
    ctx: &mut ResolutionContext,
) -> (r: Result<Option<Vec<u8>>, ResolveError>)
    requires
        st == stat(fs@, p@),
    ensures
        found_view(r) == resolve_file(fs@, opts@, p@, ext@).value,
        final(ctx)@ == old(ctx)@.union(beyond_probe(fs@, opts@, p@, ext@)),
{
    proof {
        lemma_union_simple(old(ctx)@, p@);
    }
    match st {
        Stat::File => Ok(Some(copy(p))),
        Stat::Failed => Err(ResolveError::FilesystemError),
        _ => search_beyond_exact(fs, opts, p, ext, ctx),
    }
}

/// Finds the file that the candidate `p` stands for.
pub fn search_file(
    fs: &FileSystem,
    opts: &Options,
    p: &[u8],
    ext: &[u8],
    ctx: &mut ResolutionContext,
) -> (r: Result<Option<Vec<u8>>, ResolveError>)
    ensures
        found_view(r) == resolve_file(fs@, opts@, p@, ext@).value,
        final(ctx)@ == old(ctx)@.union(resolve_file(fs@, opts@, p@, ext@).deps),
{
    let st = probe(fs, p, ctx);
    let r = search_file_after(fs, opts, p, ext, st, ctx);
    proof {
        lemma_resolve_file_deps(fs@, opts@, p@, ext@);
        lemma_union_assoc(old(ctx)@, probe_deps(fs@, p@), beyond_probe(fs@, opts@, p@, ext@));
    }
    r
}

/// Finds the index file of the directory `dir`.
pub fn search_index(fs: &FileSystem, opts: &Options, dir: &[u8], ctx: &mut ResolutionContext) -> (r:
    Result<Option<Vec<u8>>, ResolveError>)
    ensures
        found_view(r) == index_file(fs@, opts@, dir@).value,
        final(ctx)@ == old(ctx)@.union(index_file(fs@, opts@, dir@).deps),
{
    let name = [105u8, 110, 100, 101, 120];
    assert(name@ =~= index_name());
    let base = joined(dir, name.as_slice());
    search_suffixes(fs, base.as_slice(), &opts.extensions, ctx)
}

/// Finds the file that a main entry `p` stands for.
pub fn search_file_or_index(
    fs: &FileSystem,
    opts: &Options,
    p: &[u8],
    ctx: &mut ResolutionContext,
) -> (r: Result<Option<Vec<u8>>, ResolveError>)
    ensures
        found_view(r) == file_or_index(fs@, opts@, p@).value,
        final(ctx)@ == old(ctx)@.union(file_or_index(fs@, opts@, p@).deps),
{
    let none: [u8; 0] = [];
    assert(none@ =~= Seq::<u8>::empty());
    let st = probe(fs, p, ctx);
    let a = search_file_after(fs, opts, p, none.as_slice(), st, ctx);
    proof {
        lemma_resolve_file_deps(fs@, opts@, p@, none@);
        lemma_union_assoc(old(ctx)@, probe_deps(fs@, p@), beyond_probe(fs@, opts@, p@, none@));
    }
    match a {
        Ok(None) => {
            if st == Stat::Directory {
                proof {
                    lemma_union_assoc(
                        old(ctx)@,
                        resolve_file(fs@, opts@, p@, none@).deps,
                        index_file(fs@, opts@, p@).deps,
                    );
                }
                search_index(fs, opts, p, ctx)
            } else {
                Ok(None)
            }
        },
        other => other,
    }
}

/// Finds the file that the main fields of a descriptor lead to.
pub fn search_main_entries(
    fs: &FileSystem,
    opts: &Options,
    dir: &[u8],
    json: &Json,
    ctx: &mut ResolutionContext,
) -> (r: Result<Option<Vec<u8>>, ResolveError>)
    ensures
        found_view(r) == main_entries(fs@, opts@, dir@, json@, 0).value,
        final(ctx)@ == old(ctx)@.union(main_entries(fs@, opts@, dir@, json@, 0).deps),
{
    let mut i: usize = 0;
    proof {
        lemma_union_simple(ctx@, dir@);
    }
    while i < opts.main_fields.len()
        invariant
            i <= opts.main_fields@.len(),
            main_entries(fs@, opts@, dir@, json@, 0).value == main_entries(
                fs@,
                opts@,
                dir@,
                json@,
                i as int,
            ).value,
            old(ctx)@.union(main_entries(fs@, opts@, dir@, json@, 0).deps) == ctx@.union(
                main_entries(fs@, opts@, dir@, json@, i as int).deps,
            ),
        decreases opts.main_fields@.len() - i,
    {
        assert(opts@.main_fields[i as int] == opts.main_fields@[i as int]@);
        match get_field(json, opts.main_fields[i].as_slice()) {
            Some(Json::Text(m)) => {
                if m.len() > 0 {
                    let target = joined(dir, m.as_slice());
                    let ghost before = ctx@;
                    let r = search_file_or_index(fs, opts, target.as_slice(), ctx);
                    proof {
                        lemma_union_assoc(
                            before,
                            file_or_index(fs@, opts@, target@).deps,
                            main_entries(fs@, opts@, dir@, json@, i + 1).deps,
                        );
                    }
                    match r {
                        Ok(None) => {},
                        other => {
                            return other;
                        },
                    }
                }
            },
            _ => {},
        }
        i += 1;
    }
    proof {
        lemma_union_simple(ctx@, dir@);
    }
    Ok(None)
}

/// Finds the file that the directory `dir` stands for.
pub fn search_directory(
    cache: &mut DescriptorCache,
    fs: &FileSystem,
    opts: &Options,
    dir: &[u8],
    ctx: &mut ResolutionContext,
) -> (r: Result<Option<Vec<u8>>, ResolveError>)
    ensures
        ({
            let w = world(old(cache)@, fs@, opts@.description_files);
            &&& found_view(r) == resolve_directory(w, opts@, dir@).value
            &&& final(ctx)@ == old(ctx)@.union(resolve_directory(w, opts@, dir@).deps)
            &&& world(final(cache)@, fs@, opts@.description_files) == w
        }),
{
    let ghost w = world(old(cache)@, fs@, opts@.description_files);
    let ghost l = (w.descriptors)(dir@);
    let ghost loaded = load_deps(opts@.description_files, dir@, l);
    let found = lookup(cache, fs, &opts.description_files, dir, ctx);
    proof {
        lemma_union_simple(ctx@, dir@);
        lemma_union_simple(loaded, dir@);
    }
    match found {
        Lookup::Invalid => Err(ResolveError::InvalidPackageConfig),
        Lookup::Failed => Err(ResolveError::FilesystemError),
        Lookup::Absent => {
            proof {
                lemma_union_assoc(old(ctx)@, loaded, index_file(fs@, opts@, dir@).deps);
            }
            search_index(fs, opts, dir, ctx)
        },
        Lookup::Found(i) => {
            let d = cache.entry(i);
            let ghost m = main_entries(fs@, opts@, dir@, d@.json, 0);
            let r = search_main_entries(fs, opts, dir, d.json(), ctx);
            proof {
                lemma_union_assoc(old(ctx)@, loaded, m.deps);
            }
            match r {
                Ok(None) => {
                    proof {
                        lemma_union_assoc(
                            old(ctx)@.union(loaded),
                            m.deps,
                            index_file(fs@, opts@, dir@).deps,
                        );
                        lemma_union_assoc(
                            old(ctx)@,
                            loaded,
                            m.deps.union(index_file(fs@, opts@, dir@).deps),
                        );
                    }
                    search_index(fs, opts, dir, ctx)
                },
                other => other,
            }
        },
    }
}

/// Finds the file that the candidate `p` stands for, a directory's entry
/// included.
pub fn search_path(
    cache: &mut DescriptorCache,
    fs: &FileSystem,
    opts: &Options,
    p: &[u8],
    ext: &[u8],
    ctx: &mut ResolutionContext,
) -> (r: Result<Option<Vec<u8>>, ResolveError>)
    ensures
        ({
            let w = world(old(cache)@, fs@, opts@.description_files);
            &&& found_view(r) == resolve_path(w, opts@, p@, ext@).value
            &&& final(ctx)@ == old(ctx)@.union(resolve_path(w, opts@, p@, ext@).deps)
            &&& world(final(cache)@, fs@, opts@.description_files) == w
        }),
{
    let ghost w = world(old(cache)@, fs@, opts@.description_files);
    let st = probe(fs, p, ctx);
    let a = search_file_after(fs, opts, p, ext, st, ctx);
    proof {
        lemma_resolve_file_deps(fs@, opts@, p@, ext@);
        lemma_union_assoc(old(ctx)@, probe_deps(fs@, p@), beyond_probe(fs@, opts@, p@, ext@));
    }
    match a {
        Ok(None) => {
            if st == Stat::Directory {
                proof {
                    lemma_union_assoc(
                        old(ctx)@,
                        resolve_file(fs@, opts@, p@, ext@).deps,
                        resolve_directory(w, opts@, p@).deps,
                    );
                }
                search_directory(cache, fs, opts, p, ctx)
            } else {
                Ok(None)
            }
        },
        other => other,
    }
}

/// The extensions `exts[i..j]` are all passed over: none of them, added
/// to `base`, is a file, and no probe of them fails.
pub open spec fn passed_over(fs: FsModel, base: Seq<u8>, exts: Seq<Seq<u8>>, i: int, j: int)
    -> bool {
    forall|m: int|
        i <= m < j ==> !(stat(fs, base + #[trigger] exts[m]) is File) && !(stat(fs, base + exts[m])
            is Failed)
}

/// Extension priority: the first extension, in the configured order, that
/// makes a file is the result, and that file is recorded as found.
pub proof fn lemma_first_extension_wins(
    fs: FsModel,
    base: Seq<u8>,
    exts: Seq<Seq<u8>>,
    i: int,
    k: int,
)
    requires
        0 <= i <= k < exts.len(),
        stat(fs, base + exts[k]) is File,
        passed_over(fs, base, exts, i, k),
    ensures
        try_suffixes(fs, base, exts, i).value == Ok::<Option<Seq<u8>>, ResolveError>(
            Some(base + exts[k]),
        ),
        try_suffixes(fs, base, exts, i).deps.files.contains(base + exts[k]),
    decreases k - i,
{
    if i < k {
        assert(!(stat(fs, base + exts[i]) is File) && !(stat(fs, base + exts[i]) is Failed));
        lemma_first_extension_wins(fs, base, exts, i + 1, k);
    }
}

/// Every extension that was tried and made no file is recorded as missing,
/// whether or not a later one made a file.
pub proof fn lemma_attempts_recorded(
    fs: FsModel,
    base: Seq<u8>,
    exts: Seq<Seq<u8>>,
    i: int,
    j: int,
)
    requires
        0 <= i <= j < exts.len(),
        passed_over(fs, base, exts, i, j),
        stat(fs, base + exts[j]) is Missing,
    ensures
        try_suffixes(fs, base, exts, i).deps.missing.contains(base + exts[j]),
    decreases j - i,
{
    if i < j {
        assert(!(stat(fs, base + exts[i]) is File) && !(stat(fs, base + exts[i]) is Failed));
        lemma_attempts_recorded(fs, base, exts, i + 1, j);
    }
}

/// When no extension makes a file and no probe fails, nothing is found.
pub proof fn lemma_no_extension_fits(fs: FsModel, base: Seq<u8>, exts: Seq<Seq<u8>>, i: int)
    requires
        0 <= i <= exts.len(),
        passed_over(fs, base, exts, i, exts.len() as int),
    ensures
        nothing(try_suffixes(fs, base, exts, i)),
    decreases exts.len() - i,
{
    if i < exts.len() {
        assert(!(stat(fs, base + exts[i]) is File) && !(stat(fs, base + exts[i]) is Failed));
        lemma_no_extension_fits(fs, base, exts, i + 1);
    }
}

/// A request that wrote no extension goes by the configured extensions and
/// never by the extension aliases: what it finds and looks at beyond the
/// path itself is the same whatever the aliases are.
pub proof fn lemma_no_extension_no_alias(fs: FsModel, opts: OptionsModel, p: Seq<u8>)
    ensures
        beyond_exact(fs, opts, p, Seq::empty()) == try_suffixes(fs, p, opts.extensions, 0),
{
}

/// A request that wrote an extension which has a rule, for a path that is
/// not itself a file, goes by the rule's replacements in their order and
/// not by the configured extensions.
pub proof fn lemma_written_extension_uses_alias(
    fs: FsModel,
    opts: OptionsModel,
    p: Seq<u8>,
    ext: Seq<u8>,
    k: int,
)
    requires
        ext.len() > 0,
        has_suffix(p, ext),
        0 <= k < opts.extension_alias.len(),
        k == alias_index(opts.extension_alias, ext, 0),
        !(stat(fs, p) is File),
        !(stat(fs, p) is Failed),
    ensures
        resolve_file(fs, opts, p, ext).value == try_suffixes(
            fs,
            p.take(p.len() - ext.len()),
            opts.extension_alias[k].replacements,
            0,
        ).value,
{
}

/// Whatever `resolve_path` looks at beyond the path and its extensions, it
/// has looked at everything that `resolve_file` does: a path tried with an
/// extension is recorded even when the directory's entry is what is found.
pub proof fn lemma_file_attempts_kept(w: World, opts: OptionsModel, p: Seq<u8>, ext: Seq<u8>)
    ensures
        resolve_file(w.fs, opts, p, ext).deps.within(resolve_path(w, opts, p, ext).deps),
        beyond_exact(w.fs, opts, p, ext).deps.within(resolve_path(w, opts, p, ext).deps) || stat(
            w.fs,
            p,
        ) is File || stat(w.fs, p) is Failed,
{
}

} // verus!
