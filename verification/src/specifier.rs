//! Sorting a raw specifier into its kind and its parts.

use vstd::prelude::*;
use crate::bytes::{
    copy, copy_range, equal, find_from, find_last, has_prefix, has_suffix, index_from,
    last_index, lemma_index_from_bounds, lemma_last_index_bounds, starts_with,
};
use crate::error::ResolveError;
use crate::path::{DOT, SLASH};

verus! {

/// The byte `?`, which opens a query.
pub const QUESTION: u8 = 63;

/// The byte `#`, which opens a fragment, or a self-reference when it leads.
pub const HASH: u8 = 35;

/// The byte `:`, which closes a protocol.
pub const COLON: u8 = 58;

/// The byte `@`, which opens a scope.
pub const AT: u8 = 64;

/// What a specifier names.
#[derive(Debug, Clone, Copy, PartialEq, Eq, Structural)]
pub enum SpecifierKind {
    /// A path from the filesystem root.
    Absolute,
    /// A path from the importing directory: `.`, `..`, `./x`, `../x`.
    Relative,
    /// An installed package, `name` or `name/sub`.
    Bare,
    /// An installed package in a scope, `@scope/name` or `@scope/name/sub`.
    ScopedBare,
    /// An entry of the importing package's own imports map, `#x`.
    SelfReference,
    /// A specifier with a protocol, such as `node:fs`; not a file.
    External,
}

/// The parts of a classified specifier.
pub struct SpecifierModel {
    pub kind: SpecifierKind,
    /// The specifier without its query and fragment; the whole of an
    /// external one.
    pub request: Seq<u8>,
    /// The package named by a bare or scoped specifier, else empty.
    pub package_name: Seq<u8>,
    /// What follows the package name, with its leading separator; the whole
    /// request of a self-reference; else empty.
    pub subpath: Seq<u8>,
    /// The extension written on the last segment, with its dot; else empty.
    pub extension: Seq<u8>,
    /// The query and fragment taken off the end.
    pub suffix: Seq<u8>,
}

/// A classified specifier.
#[derive(Debug)]
pub struct Specifier {
    pub kind: SpecifierKind,
    pub request: Vec<u8>,
    pub package_name: Vec<u8>,
    pub subpath: Vec<u8>,
    pub extension: Vec<u8>,
    pub suffix: Vec<u8>,
}

impl View for Specifier {
    type V = SpecifierModel;

    open spec fn view(&self) -> SpecifierModel {
        SpecifierModel {
            kind: self.kind,
            request: self.request@,
            package_name: self.package_name@,
            subpath: self.subpath@,
            extension: self.extension@,
            suffix: self.suffix@,
        }
    }
}

/// Where the request ends and the query or fragment begins: at the first
/// `?`, or the first `#` that does not lead.
pub open spec fn request_end(raw: Seq<u8>) -> int {
    let q = index_from(raw, 0, QUESTION);
    let h = index_from(raw, 1, HASH);
    if raw.len() == 0 {
        0
    } else if q < h {
        q
    } else {
        h
    }
}

/// A letter of the Latin alphabet.
pub open spec fn is_letter(b: u8) -> bool {
    (65 <= b <= 90) || (97 <= b <= 122)
}

/// A byte that may stand in a protocol name.
pub open spec fn is_protocol_byte(b: u8) -> bool {
    is_letter(b) || (48 <= b <= 57) || b == 43 || b == 45 || b == 46
}

/// The specifier begins with a protocol: a letter, then at least one more
/// protocol byte, then a colon.
pub open spec fn has_protocol(raw: Seq<u8>) -> bool {
    let c = index_from(raw, 0, COLON);
    2 <= c < raw.len() && is_letter(raw[0]) && forall|j: int|
        0 <= j < c ==> is_protocol_byte(#[trigger] raw[j])
}

/// The request is `.`, `..`, or begins with `./` or `../`.
pub open spec fn is_relative(req: Seq<u8>) -> bool {
    req == seq![DOT] || req == seq![DOT, DOT] || has_prefix(req, seq![DOT, SLASH]) || has_prefix(
        req,
        seq![DOT, DOT, SLASH],
    )
}

/// Where the extension of the last segment begins; the length of the
/// request when the segment has none. A dot that leads or ends the segment
/// opens no extension.
pub open spec fn extension_start(req: Seq<u8>) -> int {
    let slash = last_index(req, SLASH);
    let dot = last_index(req, DOT);
    if slash + 1 < dot < req.len() - 1 {
        dot
    } else {
        req.len() as int
    }
}

/// The extension written on the last segment, with its dot.
pub open spec fn extension_of(req: Seq<u8>) -> Seq<u8> {
    req.skip(extension_start(req))
}

/// Where a scoped package's name ends: at the second separator.
pub open spec fn scoped_name_end(req: Seq<u8>) -> int {
    index_from(req, index_from(req, 0, SLASH) + 1, SLASH)
}

/// A scoped request is well formed when a separator ends the scope and a
/// non-empty name follows it.
pub open spec fn scope_well_formed(req: Seq<u8>) -> bool {
    let first = index_from(req, 0, SLASH);
    first < req.len() && first + 1 < scoped_name_end(req)
}

/// The classification of a raw specifier; `None` when it is invalid: the
/// request is empty, or a scope has no name after it.
pub open spec fn classified(raw: Seq<u8>) -> Option<SpecifierModel> {
    let end = request_end(raw);
    let req = raw.take(end);
    let suffix = raw.skip(end);
    let path_like = |kind: SpecifierKind|
        Some(
            SpecifierModel {
                kind,
                request: req,
                package_name: Seq::empty(),
                subpath: Seq::empty(),
                extension: extension_of(req),
                suffix,
            },
        );
    if req.len() == 0 {
        None
    } else if req[0] == HASH {
        Some(
            SpecifierModel {
                kind: SpecifierKind::SelfReference,
                request: req,
                package_name: Seq::empty(),
                subpath: req,
                extension: extension_of(req),
                suffix,
            },
        )
    } else if req[0] == SLASH {
        path_like(SpecifierKind::Absolute)
    } else if is_relative(req) {
        path_like(SpecifierKind::Relative)
    } else if has_protocol(raw) {
        Some(
            SpecifierModel {
                kind: SpecifierKind::External,
                request: raw,
                package_name: Seq::empty(),
                subpath: Seq::empty(),
                extension: Seq::empty(),
                suffix: Seq::empty(),
            },
        )
    } else if req[0] == AT {
        if scope_well_formed(req) {
            Some(
                SpecifierModel {
                    kind: SpecifierKind::ScopedBare,
                    request: req,
                    package_name: req.take(scoped_name_end(req)),
                    subpath: req.skip(scoped_name_end(req)),
                    extension: extension_of(req),
                    suffix,
                },
            )
        } else {
            None
        }
    } else {
        Some(
            SpecifierModel {
                kind: SpecifierKind::Bare,
                request: req,
                package_name: req.take(index_from(req, 0, SLASH)),
                subpath: req.skip(index_from(req, 0, SLASH)),
                extension: extension_of(req),
                suffix,
            },
        )
    }
}

fn letter(b: u8) -> (r: bool)
    ensures
        r == is_letter(b),
{
    (65 <= b && b <= 90) || (97 <= b && b <= 122)
}

fn protocol_byte(b: u8) -> (r: bool)
    ensures
        r == is_protocol_byte(b),
{
    letter(b) || (48 <= b && b <= 57) || b == 43 || b == 45 || b == 46
}

/// Whether the specifier begins with a protocol.
pub fn starts_with_protocol(raw: &[u8]) -> (r: bool)
    ensures
        r == has_protocol(raw@),
{
    let c = find_from(raw, 0, COLON);
    if c < 2 || c >= raw.len() || !letter(raw[0]) {
        return false;
    }
    let mut j: usize = 0;
    while j < c
        invariant
            j <= c < raw@.len(),
            c == index_from(raw@, 0, COLON),
            is_letter(raw@[0]),
            2 <= c,
            forall|k: int| 0 <= k < j ==> is_protocol_byte(#[trigger] raw@[k]),
        decreases c - j,
    {
        if !protocol_byte(raw[j]) {
            assert(!is_protocol_byte(raw@[j as int]));
            return false;
        }
        j += 1;
    }
    true
}

/// Whether the request is written relative to the importing directory.
pub fn relative(req: &[u8]) -> (r: bool)
    ensures
        r == is_relative(req@),
{
    let one = [DOT];
    let two = [DOT, DOT];
    let one_slash = [DOT, SLASH];
    let two_slash = [DOT, DOT, SLASH];
    assert(one@ =~= seq![DOT]);
    assert(two@ =~= seq![DOT, DOT]);
    assert(one_slash@ =~= seq![DOT, SLASH]);
    assert(two_slash@ =~= seq![DOT, DOT, SLASH]);
    equal(req, one.as_slice()) || equal(req, two.as_slice()) || starts_with(
        req,
        one_slash.as_slice(),
    ) || starts_with(req, two_slash.as_slice())
}

/// The extension written on the last segment of `req`, with its dot;
/// empty when there is none.
pub fn extension(req: &[u8]) -> (r: Vec<u8>)
    ensures
        r@ == extension_of(req@),
{
    proof {
        lemma_last_index_bounds(req@, SLASH);
        lemma_last_index_bounds(req@, DOT);
    }
    let n = req.len();
    let start = match find_last(req, DOT) {
        None => req.len(),
        Some(dot) => {
            let after_slash: usize = match find_last(req, SLASH) {
                None => 0,
                Some(slash) => slash + 1,
            };
            if after_slash < dot && dot < req.len() - 1 {
                dot
            } else {
                req.len()
            }
        },
    };
    let r = copy_range(req, start, req.len());
    assert(req@.subrange(start as int, req@.len() as int) =~= req@.skip(start as int));
    r
}

/// Classifies a raw specifier.
pub fn classify(raw: &[u8]) -> (r: Result<Specifier, ResolveError>)
    ensures
        match r {
            Ok(s) => classified(raw@) == Some(s@),
            Err(e) => e == ResolveError::InvalidSpecifier && classified(raw@) is None,
        },
{
    if raw.len() == 0 {
        return Err(ResolveError::InvalidSpecifier);
    }
    let q = find_from(raw, 0, QUESTION);
    let h = find_from(raw, 1, HASH);
    let end = if q < h {
        q
    } else {
        h
    };
    let request = copy_range(raw, 0, end);
    let suffix = copy_range(raw, end, raw.len());
    assert(raw@.subrange(0, end as int) =~= raw@.take(end as int));
    assert(raw@.subrange(end as int, raw@.len() as int) =~= raw@.skip(end as int));
    if request.len() == 0 {
        return Err(ResolveError::InvalidSpecifier);
    }
    let ext = extension(request.as_slice());
    if request[0] == HASH {
        let subpath = copy(request.as_slice());
        return Ok(
            Specifier {
                kind: SpecifierKind::SelfReference,
                request,
                package_name: Vec::new(),
                subpath,
                extension: ext,
                suffix,
            },
        );
    }
    if request[0] == SLASH || relative(request.as_slice()) {
        let kind = if request[0] == SLASH {
            SpecifierKind::Absolute
        } else {
            SpecifierKind::Relative
        };
        return Ok(
            Specifier {
                kind,
                request,
                package_name: Vec::new(),
                subpath: Vec::new(),
                extension: ext,
                suffix,
            },
        );
    }
    if starts_with_protocol(raw) {
        return Ok(
            Specifier {
                kind: SpecifierKind::External,
                request: copy(raw),
                package_name: Vec::new(),
                subpath: Vec::new(),
                extension: Vec::new(),
                suffix: Vec::new(),
            },
        );
    }
    let first = find_from(request.as_slice(), 0, SLASH);
    if request[0] == AT {
        if first >= request.len() {
            return Err(ResolveError::InvalidSpecifier);
        }
        let name_end = find_from(request.as_slice(), first + 1, SLASH);
        if name_end <= first + 1 {
            return Err(ResolveError::InvalidSpecifier);
        }
        let package_name = copy_range(request.as_slice(), 0, name_end);
        let subpath = copy_range(request.as_slice(), name_end, request.len());
        assert(request@.subrange(0, name_end as int) =~= request@.take(name_end as int));
        assert(request@.subrange(name_end as int, request@.len() as int) =~= request@.skip(
            name_end as int,
        ));
        return Ok(
            Specifier {
                kind: SpecifierKind::ScopedBare,
                request,
                package_name,
                subpath,
                extension: ext,
                suffix,
            },
        );
    }
    let package_name = copy_range(request.as_slice(), 0, first);
    let subpath = copy_range(request.as_slice(), first, request.len());
    assert(request@.subrange(0, first as int) =~= request@.take(first as int));
    assert(request@.subrange(first as int, request@.len() as int) =~= request@.skip(first as int));
    Ok(
        Specifier {
            kind: SpecifierKind::Bare,
            request,
            package_name,
            subpath,
            extension: ext,
            suffix,
        },
    )
}

/// The parts of a classified specifier make up the whole: the request and
/// the suffix are the specifier as written, unless it is external and kept
/// whole; and a package request is the package name and the subpath.
pub proof fn lemma_classified_parts(raw: Seq<u8>, c: SpecifierModel)
    requires
        classified(raw) == Some(c),
    ensures
        c.request.len() > 0,
        c.kind is External ==> c.request == raw && c.suffix.len() == 0,
        !(c.kind is External) ==> c.request + c.suffix == raw,
        c.kind is Bare || c.kind is ScopedBare ==> c.package_name + c.subpath == c.request
            && c.package_name.len() > 0,
        c.kind is SelfReference ==> c.subpath == c.request,
        has_suffix(c.request, c.extension),
{
    let end = request_end(raw);
    lemma_index_from_bounds(raw, 0, QUESTION);
    if raw.len() > 0 {
        lemma_index_from_bounds(raw, 1, HASH);
    }
    let req = raw.take(end);
    assert(req + raw.skip(end) =~= raw);
    lemma_last_index_bounds(req, DOT);
    lemma_last_index_bounds(req, SLASH);
    let start = extension_start(req);
    assert(req.subrange(req.len() - extension_of(req).len(), req.len() as int) =~= req.skip(start));
    if c.kind is External {
        assert(raw.subrange(raw.len() - 0, raw.len() as int) =~= Seq::<u8>::empty());
    }
    if c.kind is Bare {
        lemma_index_from_bounds(req, 0, SLASH);
        let n = index_from(req, 0, SLASH);
        assert(req.take(n) + req.skip(n) =~= req);
    }
    if c.kind is ScopedBare {
        lemma_index_from_bounds(req, 0, SLASH);
        lemma_index_from_bounds(req, index_from(req, 0, SLASH) + 1, SLASH);
        let n = scoped_name_end(req);
        assert(req.take(n) + req.skip(n) =~= req);
    }
}

} // verus!
