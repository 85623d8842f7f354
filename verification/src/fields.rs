//! A package's own rewrites: the alias fields of the descriptor that
//! encloses the importing directory.

use vstd::prelude::*;
use crate::bytes::{copy, equal, views};
use crate::context::{lemma_union_simple, ResolutionContext};
use crate::descriptor::{DescriptorCache, PackageDescriptor};
use crate::error::ResolveError;
use crate::exports::{is_target, is_target_text};
use crate::fs::FileSystem;
use crate::json::{
    field, find_member, get_field, lemma_member_index, lemma_object_model, member_index,
    member_models, Json, JsonValue,
};
use crate::options::{Options, OptionsModel};
use crate::package::{enclosing_package, find_enclosing};
use crate::path::{join, joined, normalize, normalized};
use crate::specifier::{Specifier, SpecifierKind, SpecifierModel};
use crate::world::{untraced, world, Traced, World};

verus! {

/// What a package's alias fields make of a request.
pub enum FieldAliased {
    /// No field has an entry for it.
    Unchanged,
    /// A field maps it to `false`: the module is left out on purpose.
    Ignored,
    /// A field maps it to the second request, to be resolved from the
    /// package's directory, the first.
    Rewritten(Seq<u8>, Seq<u8>),
}

/// The position of the last member among the first `n` whose key, a path
/// that begins with `./`, names `target` when followed from `base`; -1
/// when there is none.
pub open spec fn path_key_index(
    members: Seq<(Seq<u8>, JsonValue)>,
    base: Seq<u8>,
    target: Seq<u8>,
    n: int,
) -> int
    decreases n,
{
    if n <= 0 || n > members.len() {
        -1
    } else if is_target(members[n - 1].0) && join(base, members[n - 1].0) == target {
        n - 1
    } else {
        path_key_index(members, base, target, n - 1)
    }
}

/// The member of an alias field that speaks of the request `c` made from
/// `dir`, the field belonging to the package at `base`: for a package
/// request the member whose key is the request; for a path the member
/// whose key names the same file.
pub open spec fn alias_key_index(
    members: Seq<(Seq<u8>, JsonValue)>,
    base: Seq<u8>,
    dir: Seq<u8>,
    c: SpecifierModel,
) -> int {
    match c.kind {
        SpecifierKind::Bare => member_index(members, c.request),
        SpecifierKind::ScopedBare => member_index(members, c.request),
        SpecifierKind::Relative => path_key_index(
            members,
            base,
            join(dir, c.request),
            members.len() as int,
        ),
        SpecifierKind::Absolute => path_key_index(
            members,
            base,
            normalize(c.request),
            members.len() as int,
        ),
        _ => -1,
    }
}

/// The value that the names `path[i..]` lead to from `json`, each name
/// the member of the object reached so far.
pub open spec fn field_from(json: JsonValue, path: Seq<Seq<u8>>, i: int) -> Option<JsonValue>
    decreases path.len() - i,
{
    if i < 0 || i >= path.len() {
        Some(json)
    } else {
        match field(json, path[i]) {
            Some(v) => field_from(v, path, i + 1),
            None => None,
        }
    }
}

/// The value that a path of names leads to from the top of `json`.
pub open spec fn field_at(json: JsonValue, path: Seq<Seq<u8>>) -> Option<JsonValue> {
    field_from(json, path, 0)
}

/// What the alias fields `fields[i..]` of a descriptor make of a request:
/// the first field that is an object with a member for the request whose
/// value is a text or `false` decides.
pub open spec fn field_rewrite(
    json: JsonValue,
    fields: Seq<Seq<Seq<u8>>>,
    i: int,
    base: Seq<u8>,
    dir: Seq<u8>,
    c: SpecifierModel,
) -> FieldAliased
    decreases fields.len() - i,
{
    if i < 0 || i >= fields.len() {
        FieldAliased::Unchanged
    } else {
        let k = match field_at(json, fields[i]) {
            Some(JsonValue::Object(members)) => alias_key_index(members, base, dir, c),
            _ => -1,
        };
        let value = match field_at(json, fields[i]) {
            Some(JsonValue::Object(members)) if 0 <= k < members.len() => members[k].1,
            _ => JsonValue::Null,
        };
        match value {
            JsonValue::Text(t) => FieldAliased::Rewritten(base, t),
            JsonValue::Bool(false) => FieldAliased::Ignored,
            _ => field_rewrite(json, fields, i + 1, base, dir, c),
        }
    }
}

/// What the package that encloses `dir` makes of a request. With no alias
/// field configured no package is looked for.
pub open spec fn field_aliased(w: World, opts: OptionsModel, dir: Seq<u8>, c: SpecifierModel)
    -> Traced<Result<FieldAliased, ResolveError>> {
    if opts.alias_fields.len() == 0 {
        untraced(Ok(FieldAliased::Unchanged))
    } else {
        let e = enclosing_package(w, opts.description_files, dir);
        Traced {
            value: match e.value {
                Err(x) => Err(x),
                Ok(None) => Ok(FieldAliased::Unchanged),
                Ok(Some(d)) => Ok(field_rewrite(d.json, opts.alias_fields, 0, d.directory, dir, c)),
            },
            deps: e.deps,
        }
    }
}

/// What a package's alias fields made of a request.
#[derive(Debug)]
pub enum FieldAlias {
    /// No field has an entry for it.
    Unchanged,
    /// The module is left out on purpose.
    Ignored,
    /// The package's directory and the request to resolve from it.
    Rewritten(Vec<u8>, Vec<u8>),
}

impl View for FieldAlias {
    type V = FieldAliased;

    open spec fn view(&self) -> FieldAliased {
        match self {
            FieldAlias::Unchanged => FieldAliased::Unchanged,
            FieldAlias::Ignored => FieldAliased::Ignored,
            FieldAlias::Rewritten(base, request) => FieldAliased::Rewritten(base@, request@),
        }
    }
}

/// The value that a path of names leads to from the top of a document.
pub fn get_path<'a>(j: &'a Json, path: &Vec<Vec<u8>>) -> (r: Option<&'a Json>)
    ensures
        match r {
            Some(x) => field_at(j@, views(path@)) == Some(x@),
            None => field_at(j@, views(path@)) is None,
        },
{
    let ghost names = views(path@);
    let mut cur: &Json = j;
    let mut i: usize = 0;
    while i < path.len()
        invariant
            i <= path@.len(),
            names == views(path@),
            field_at(j@, names) == field_from(cur@, names, i as int),
        decreases path@.len() - i,
    {
        assert(names[i as int] == path@[i as int]@);
        match get_field(cur, path[i].as_slice()) {
            Some(next) => {
                cur = next;
            },
            None => {
                return None;
            },
        }
        i += 1;
    }
    Some(cur)
}

fn find_path_key(members: &Vec<(Vec<u8>, Json)>, base: &[u8], target: &[u8]) -> (r: Option<usize>)
    ensures
        match r {
            Some(k) => k < members@.len() && k == path_key_index(
                member_models(members@),
                base@,
                target@,
                members@.len() as int,
            ),
            None => path_key_index(member_models(members@), base@, target@, members@.len() as int)
                == -1,
        },
{
    let ghost all = member_models(members@);
    let mut n: usize = members.len();
    while n > 0
        invariant
            n <= members@.len(),
            all == member_models(members@),
            path_key_index(all, base@, target@, members@.len() as int) == path_key_index(
                all,
                base@,
                target@,
                n as int,
            ),
        decreases n,
    {
        let key = members[n - 1].0.as_slice();
        assert(all[n - 1].0 == key@);
        if is_target_text(key) {
            let p = joined(base, key);
            if equal(p.as_slice(), target) {
                return Some(n - 1);
            }
        }
        n -= 1;
    }
    None
}

fn find_alias_key(members: &Vec<(Vec<u8>, Json)>, base: &[u8], dir: &[u8], c: &Specifier) -> (r:
    Option<usize>)
    ensures
        match r {
            Some(k) => k < members@.len() && k == alias_key_index(
                member_models(members@),
                base@,
                dir@,
                c@,
            ),
            None => !(0 <= alias_key_index(member_models(members@), base@, dir@, c@)
                < members@.len()),
        },
{
    proof {
        lemma_member_index(member_models(members@), c@.request);
    }
    match c.kind {
        SpecifierKind::Bare => find_member(members, c.request.as_slice()),
        SpecifierKind::ScopedBare => find_member(members, c.request.as_slice()),
        SpecifierKind::Relative => {
            let target = joined(dir, c.request.as_slice());
            find_path_key(members, base, target.as_slice())
        },
        SpecifierKind::Absolute => {
            let target = normalized(c.request.as_slice());
            find_path_key(members, base, target.as_slice())
        },
        _ => None,
    }
}

/// What the alias fields of the descriptor `d` make of a request made from
/// `dir`.
pub fn rewrite_by_fields(d: &PackageDescriptor, opts: &Options, dir: &[u8], c: &Specifier) -> (r:
    FieldAlias)
    ensures
        r@ == field_rewrite(d@.json, opts@.alias_fields, 0, d@.directory, dir@, c@),
{
    let ghost fields = opts@.alias_fields;
    let base = d.directory();
    let mut i: usize = 0;
    while i < opts.alias_fields.len()
        invariant
            i <= opts.alias_fields@.len(),
            fields == opts@.alias_fields,
            base@ == d@.directory,
            field_rewrite(d@.json, fields, 0, d@.directory, dir@, c@) == field_rewrite(
                d@.json,
                fields,
                i as int,
                d@.directory,
                dir@,
                c@,
            ),
        decreases opts.alias_fields@.len() - i,
    {
        assert(fields[i as int] == views(opts.alias_fields@[i as int]@));
        match get_path(d.json(), &opts.alias_fields[i]) {
            Some(Json::Object(members)) => {
                proof {
                    lemma_object_model(*members);
                }
                match find_alias_key(members, base.as_slice(), dir, c) {
                    Some(k) => {
                        assert(member_models(members@)[k as int].1 == members@[k as int].1@);
                        match &members[k].1 {
                            Json::Text(t) => {
                                return FieldAlias::Rewritten(
                                    copy(base.as_slice()),
                                    copy(t.as_slice()),
                                );
                            },
                            Json::Bool(false) => {
                                return FieldAlias::Ignored;
                            },
                            _ => {},
                        }
                    },
                    None => {},
                }
            },
            _ => {},
        }
        i += 1;
    }
    FieldAlias::Unchanged
}

/// What the package that encloses `dir` makes of a request.
pub fn apply_alias_fields(
    cache: &mut DescriptorCache,
    fs: &FileSystem,
    opts: &Options,
    dir: &[u8],
    c: &Specifier,
    ctx: &mut ResolutionContext,
) -> (r: Result<FieldAlias, ResolveError>)
    ensures
        ({
            let w = world(old(cache)@, fs@, opts@.description_files);
            let t = field_aliased(w, opts@, dir@, c@);
            &&& match r {
                Ok(a) => t.value == Ok::<FieldAliased, ResolveError>(a@),
                Err(x) => t.value == Err::<FieldAliased, ResolveError>(x),
            }
            &&& final(ctx)@ == old(ctx)@.union(t.deps)
            &&& world(final(cache)@, fs@, opts@.description_files) == w
        }),
{
    if opts.alias_fields.len() == 0 {
        proof {
            lemma_union_simple(ctx@, dir@);
        }
        return Ok(FieldAlias::Unchanged);
    }
    match find_enclosing(cache, fs, opts, dir, ctx) {
        Err(x) => Err(x),
        Ok(None) => Ok(FieldAlias::Unchanged),
        Ok(Some(i)) => Ok(rewrite_by_fields(cache.entry(i), opts, dir, c)),
    }
}

} // verus!
