//! Matching a subpath against a package's exports or imports map and
//! choosing among conditional targets.

use vstd::prelude::*;
use crate::bytes::{
    append, copy, copy_range, ends_with, equal, find_from, has_prefix, has_suffix, index_from,
    optional_view, starts_with, views,
};
use crate::json::{
    find_member, item_models, lemma_array_model, lemma_member_index, lemma_object_model,
    member_index, member_models, Json, JsonValue,
};
use crate::path::{DOT, SLASH};

verus! {

/// The byte `*`, which stands for the rest of a subpath in a pattern.
pub const STAR: u8 = 42;

/// The condition name `default`.
pub open spec fn default_name() -> Seq<u8> {
    seq![100u8, 101, 102, 97, 117, 108, 116]
}

/// A key is a pattern when it holds exactly one star.
pub open spec fn is_pattern(key: Seq<u8>) -> bool {
    let star = index_from(key, 0, STAR);
    star < key.len() && index_from(key, star + 1, STAR) == key.len()
}

/// The pattern `key` covers `sub`: `sub` begins with what stands before
/// the star, ends with what stands after it, and has at least one byte in
/// between.
pub open spec fn pattern_matches(key: Seq<u8>, sub: Seq<u8>) -> bool {
    let star = index_from(key, 0, STAR);
    is_pattern(key) && sub.len() >= key.len() && has_prefix(sub, key.take(star)) && has_suffix(
        sub,
        key.skip(star + 1),
    )
}

/// What the star of `key` stands for in `sub`.
pub open spec fn captured(key: Seq<u8>, sub: Seq<u8>) -> Seq<u8> {
    let star = index_from(key, 0, STAR);
    sub.subrange(star, sub.len() - (key.len() - star - 1))
}

/// The best pattern for `sub` among `members[i..]` and `best` (-1 for
/// none): the one with the most bytes before its star, the earlier of two
/// with as many.
pub open spec fn best_pattern(
    members: Seq<(Seq<u8>, JsonValue)>,
    sub: Seq<u8>,
    i: int,
    best: int,
) -> int
    decreases members.len() - i,
{
    if i < 0 || i >= members.len() {
        best
    } else if pattern_matches(members[i].0, sub) && (best < 0 || best >= members.len()
        || index_from(members[i].0, 0, STAR) > index_from(members[best].0, 0, STAR)) {
        best_pattern(members, sub, i + 1, i)
    } else {
        best_pattern(members, sub, i + 1, best)
    }
}

/// `best_pattern` gives -1 or a position in the list.
pub proof fn lemma_best_pattern(
    members: Seq<(Seq<u8>, JsonValue)>,
    sub: Seq<u8>,
    i: int,
    best: int,
)
    requires
        0 <= i <= members.len(),
        -1 <= best < members.len(),
    ensures
        -1 <= best_pattern(members, sub, i, best) < members.len(),
        best >= 0 ==> best_pattern(members, sub, i, best) >= 0,
        best < 0 && best_pattern(members, sub, i, best) >= 0 ==> pattern_matches(
            members[best_pattern(members, sub, i, best)].0,
            sub,
        ),
        best < 0 && (forall|j: int| i <= j < members.len() ==> !pattern_matches(members[j].0, sub))
            ==> best_pattern(members, sub, i, best) < 0,
    decreases members.len() - i,
{
    if i < members.len() {
        if pattern_matches(members[i].0, sub) && (best < 0 || index_from(members[i].0, 0, STAR)
            > index_from(members[best].0, 0, STAR)) {
            lemma_best_pattern(members, sub, i + 1, i);
            lemma_best_pattern_stays(members, sub, i + 1, i);
        } else {
            lemma_best_pattern(members, sub, i + 1, best);
        }
    }
}

/// With a pattern that covers `sub` in hand, `best_pattern` gives one that
/// covers `sub`.
pub proof fn lemma_best_pattern_stays(
    members: Seq<(Seq<u8>, JsonValue)>,
    sub: Seq<u8>,
    i: int,
    best: int,
)
    requires
        0 <= i <= members.len(),
        0 <= best < members.len(),
        pattern_matches(members[best].0, sub),
    ensures
        0 <= best_pattern(members, sub, i, best) < members.len(),
        pattern_matches(members[best_pattern(members, sub, i, best)].0, sub),
    decreases members.len() - i,
{
    if i < members.len() {
        if pattern_matches(members[i].0, sub) && index_from(members[i].0, 0, STAR) > index_from(
            members[best].0,
            0,
            STAR,
        ) {
            lemma_best_pattern_stays(members, sub, i + 1, i);
        } else {
            lemma_best_pattern_stays(members, sub, i + 1, best);
        }
    }
}

/// The entry of a subpath map that serves `sub`.
pub enum Entry {
    /// No key equals `sub` and no pattern covers it.
    Unlisted,
    /// The member at this position, and what its star stands for if it is
    /// a pattern.
    Listed(int, Option<Seq<u8>>),
}

/// The member that serves `sub`: the one whose key equals it, else the
/// best pattern that covers it.
pub open spec fn entry_for(members: Seq<(Seq<u8>, JsonValue)>, sub: Seq<u8>) -> Entry {
    let exact = member_index(members, sub);
    let pattern = best_pattern(members, sub, 0, -1);
    if 0 <= exact < members.len() {
        Entry::Listed(exact, None)
    } else if 0 <= pattern < members.len() {
        Entry::Listed(pattern, Some(captured(members[pattern].0, sub)))
    } else {
        Entry::Unlisted
    }
}

/// `t` with every star replaced by `piece`.
pub open spec fn replace_stars(t: Seq<u8>, piece: Seq<u8>) -> Seq<u8>
    decreases t.len(),
{
    if t.len() == 0 {
        Seq::empty()
    } else if t.last() == STAR {
        replace_stars(t.drop_last(), piece) + piece
    } else {
        replace_stars(t.drop_last(), piece).push(t.last())
    }
}

/// A target as it stands for a request: with the captured piece in place
/// of its stars, if a pattern was matched.
pub open spec fn substituted(t: Seq<u8>, piece: Option<Seq<u8>>) -> Seq<u8> {
    match piece {
        Some(p) => replace_stars(t, p),
        None => t,
    }
}

/// A target names a file inside the package: it begins with `./`.
pub open spec fn is_target(t: Seq<u8>) -> bool {
    has_prefix(t, seq![DOT, SLASH])
}

/// The targets that a value of the map stands for, in the order in which
/// they are to be tried. A text is one target; an array gives the targets
/// of its items one after the other; an object is read by conditions;
/// anything else, and a text that is no target, gives none.
pub open spec fn targets_of(v: JsonValue, conds: Seq<Seq<u8>>, piece: Option<Seq<u8>>) -> Seq<
    Seq<u8>,
>
    decreases v, 0nat,
{
    match v {
        JsonValue::Text(t) => if is_target(t) {
            seq![substituted(t, piece)]
        } else {
            Seq::empty()
        },
        JsonValue::Array(items) => targets_of_items(items, conds, piece, 0),
        JsonValue::Object(members) => targets_by_condition(members, conds, piece, 0),
        _ => Seq::empty(),
    }
}

/// The targets of `items[k..]`, one item after the other.
pub open spec fn targets_of_items(
    items: Seq<JsonValue>,
    conds: Seq<Seq<u8>>,
    piece: Option<Seq<u8>>,
    k: int,
) -> Seq<Seq<u8>>
    decreases items, items.len() - k,
{
    if k < 0 || k >= items.len() {
        Seq::empty()
    } else {
        targets_of(items[k], conds, piece) + targets_of_items(items, conds, piece, k + 1)
    }
}

/// The condition tried at step `i`: the configured ones in their order,
/// then `default`.
pub open spec fn condition_at(conds: Seq<Seq<u8>>, i: int) -> Seq<u8> {
    if 0 <= i < conds.len() {
        conds[i]
    } else {
        default_name()
    }
}

/// The targets of a condition object from step `i` on: those of the first
/// condition, in the configured order and not the object's, that has a
/// member which gives any; `default` comes last.
pub open spec fn targets_by_condition(
    members: Seq<(Seq<u8>, JsonValue)>,
    conds: Seq<Seq<u8>>,
    piece: Option<Seq<u8>>,
    i: int,
) -> Seq<Seq<u8>>
    decreases members, conds.len() + 1 - i,
{
    if i < 0 || i > conds.len() {
        Seq::empty()
    } else {
        let k = member_index(members, condition_at(conds, i));
        let here = if 0 <= k < members.len() {
            targets_of(members[k].1, conds, piece)
        } else {
            Seq::empty()
        };
        if here.len() > 0 {
            here
        } else {
            targets_by_condition(members, conds, piece, i + 1)
        }
    }
}

/// What a map makes of a subpath.
pub enum Matched {
    /// The map does not list the subpath, or lists it with no target.
    NotExported,
    /// The map mixes subpath keys with condition names.
    Invalid,
    /// The targets to try, in order; never empty.
    Targets(Seq<Seq<u8>>),
}

/// How many of the keys begin with `lead`.
pub open spec fn leading(members: Seq<(Seq<u8>, JsonValue)>, lead: u8, n: int) -> int
    decreases n,
{
    if n <= 0 || n > members.len() {
        0
    } else {
        leading(members, lead, n - 1) + if members[n - 1].0.len() > 0 && members[n - 1].0[0]
            == lead {
            1int
        } else {
            0int
        }
    }
}

/// The targets that a subpath map gives for `sub`.
pub open spec fn map_targets(
    members: Seq<(Seq<u8>, JsonValue)>,
    sub: Seq<u8>,
    conds: Seq<Seq<u8>>,
) -> Matched {
    match entry_for(members, sub) {
        Entry::Unlisted => Matched::NotExported,
        Entry::Listed(k, piece) => {
            let t = targets_of(members[k].1, conds, piece);
            if t.len() == 0 {
                Matched::NotExported
            } else {
                Matched::Targets(t)
            }
        },
    }
}

/// The targets that an exports value gives for `sub`, which is `.` for the
/// package itself and `./x` for what lies below. An object whose keys all
/// begin with a dot is a subpath map; one with no such key, and any value
/// that is no object, is the target of `.` alone.
pub open spec fn exports_targets(exports: JsonValue, sub: Seq<u8>, conds: Seq<Seq<u8>>)
    -> Matched {
    let dotted = match exports {
        JsonValue::Object(members) => leading(members, DOT, members.len() as int),
        _ => 0,
    };
    match exports {
        JsonValue::Object(members) if dotted > 0 => if dotted < members.len() {
            Matched::Invalid
        } else {
            map_targets(members, sub, conds)
        },
        _ => if sub == seq![DOT] && targets_of(exports, conds, None).len() > 0 {
            Matched::Targets(targets_of(exports, conds, None))
        } else {
            Matched::NotExported
        },
    }
}

/// The targets that an imports value gives for the request `sub`, which
/// begins with `#`. Only an object lists anything.
pub open spec fn imports_targets(imports: JsonValue, sub: Seq<u8>, conds: Seq<Seq<u8>>)
    -> Matched {
    match imports {
        JsonValue::Object(members) => map_targets(members, sub, conds),
        _ => Matched::NotExported,
    }
}

fn replace(t: &[u8], piece: &[u8]) -> (r: Vec<u8>)
    ensures
        r@ == replace_stars(t@, piece@),
{
    let mut out: Vec<u8> = Vec::new();
    let mut i: usize = 0;
    while i < t.len()
        invariant
            i <= t@.len(),
            out@ == replace_stars(t@.take(i as int), piece@),
        decreases t@.len() - i,
    {
        proof {
            assert(t@.take(i + 1).drop_last() =~= t@.take(i as int));
            assert(t@.take(i + 1).last() == t@[i as int]);
        }
        if t[i] == STAR {
            append(&mut out, piece);
        } else {
            out.push(t[i]);
        }
        i += 1;
    }
    assert(t@.take(t@.len() as int) =~= t@);
    out
}

fn substitute(t: &[u8], piece: &Option<Vec<u8>>) -> (r: Vec<u8>)
    ensures
        r@ == substituted(t@, optional_view(*piece)),
{
    match piece {
        Some(p) => replace(t, p.as_slice()),
        None => copy(t),
    }
}

fn pattern_covers(key: &[u8], sub: &[u8]) -> (r: bool)
    ensures
        r == pattern_matches(key@, sub@),
{
    let star = find_from(key, 0, STAR);
    if star >= key.len() {
        return false;
    }
    if find_from(key, star + 1, STAR) != key.len() || sub.len() < key.len() {
        return false;
    }
    let before = copy_range(key, 0, star);
    let after = copy_range(key, star + 1, key.len());
    assert(key@.subrange(0, star as int) =~= key@.take(star as int));
    assert(key@.subrange(star + 1, key@.len() as int) =~= key@.skip(star + 1));
    starts_with(sub, before.as_slice()) && ends_with(sub, after.as_slice())
}

fn capture(key: &[u8], sub: &[u8]) -> (r: Vec<u8>)
    requires
        pattern_matches(key@, sub@),
    ensures
        r@ == captured(key@, sub@),
{
    let star = find_from(key, 0, STAR);
    copy_range(sub, star, sub.len() - (key.len() - star - 1))
}

fn find_pattern(members: &Vec<(Vec<u8>, Json)>, sub: &[u8]) -> (r: Option<usize>)
    ensures
        match r {
            Some(k) => k == best_pattern(member_models(members@), sub@, 0, -1) && k
                < members@.len(),
            None => best_pattern(member_models(members@), sub@, 0, -1) == -1,
        },
{
    let ghost all = member_models(members@);
    let mut best: Option<usize> = None;
    let mut best_star: usize = 0;
    let mut i: usize = 0;
    while i < members.len()
        invariant
            i <= members@.len(),
            all == member_models(members@),
            match best {
                Some(b) => b < i && best_star == index_from(all[b as int].0, 0, STAR)
                    && best_pattern(all, sub@, 0, -1) == best_pattern(all, sub@, i as int, b as int),
                None => best_pattern(all, sub@, 0, -1) == best_pattern(all, sub@, i as int, -1),
            },
        decreases members@.len() - i,
    {
        let key = members[i].0.as_slice();
        assert(all[i as int].0 == key@);
        if pattern_covers(key, sub) {
            let star = find_from(key, 0, STAR);
            if best.is_none() || star > best_star {
                best = Some(i);
                best_star = star;
            }
        }
        i += 1;
    }
    best
}

fn find_entry(members: &Vec<(Vec<u8>, Json)>, sub: &[u8]) -> (r: Option<(usize, Option<Vec<u8>>)>)
    ensures
        match r {
            Some((k, piece)) => k < members@.len() && entry_for(member_models(members@), sub@)
                == Entry::Listed(k as int, optional_view(piece)),
            None => entry_for(member_models(members@), sub@) is Unlisted,
        },
{
    proof {
        lemma_member_index(member_models(members@), sub@);
        lemma_best_pattern(member_models(members@), sub@, 0, -1);
    }
    match find_member(members, sub) {
        Some(k) => Some((k, None)),
        None => match find_pattern(members, sub) {
            Some(k) => {
                assert(member_models(members@)[k as int].0 == members@[k as int].0@);
                let piece = capture(members[k].0.as_slice(), sub);
                Some((k, Some(piece)))
            },
            None => None,
        },
    }
}

/// Whether a text names a file inside the package.
pub fn is_target_text(t: &[u8]) -> (r: bool)
    ensures
        r == is_target(t@),
{
    let lead = [DOT, SLASH];
    assert(lead@ =~= seq![DOT, SLASH]);
    starts_with(t, lead.as_slice())
}

fn collect_targets(
    j: &Json,
    conds: &Vec<Vec<u8>>,
    piece: &Option<Vec<u8>>,
    out: &mut Vec<Vec<u8>>,
)
    ensures
        views(final(out)@) == views(old(out)@) + targets_of(
            j@,
            views(conds@),
            optional_view(*piece),
        ),
    decreases j,
{
    let ghost start = views(out@);
    let ghost cs = views(conds@);
    let ghost pc = optional_view(*piece);
    match j {
        Json::Text(t) => {
            if is_target_text(t.as_slice()) {
                let item = substitute(t.as_slice(), piece);
                out.push(item);
                assert(views(out@) =~= start + seq![substituted(t@, pc)]);
            } else {
                assert(views(out@) =~= start + Seq::<Seq<u8>>::empty());
            }
        },
        Json::Array(items) => {
            proof {
                lemma_array_model(*items);
            }
            let ghost all = item_models(items@);
            let mut k: usize = 0;
            while k < items.len()
                invariant
                    k <= items@.len(),
                    all == item_models(items@),
                    *j == Json::Array(*items),
                    cs == views(conds@),
                    pc == optional_view(*piece),
                    start + targets_of_items(all, cs, pc, 0) == views(out@) + targets_of_items(
                        all,
                        cs,
                        pc,
                        k as int,
                    ),
                decreases items@.len() - k,
            {
                let ghost before = views(out@);
                assert(*j is Array && j->Array_0 == *items);
                assert(decreases_to!(*items => items[k as int]));
                collect_targets(&items[k], conds, piece, out);
                proof {
                    assert(all[k as int] == items@[k as int]@);
                    assert(before + (targets_of(all[k as int], cs, pc) + targets_of_items(
                        all,
                        cs,
                        pc,
                        k + 1,
                    )) =~= (before + targets_of(all[k as int], cs, pc)) + targets_of_items(
                        all,
                        cs,
                        pc,
                        k + 1,
                    ));
                }
                k += 1;
            }
            assert(views(out@) + Seq::<Seq<u8>>::empty() =~= views(out@));
        },
        Json::Object(members) => {
            proof {
                lemma_object_model(*members);
            }
            let ghost all = member_models(members@);
            let default_key = [100u8, 101, 102, 97, 117, 108, 116];
            assert(default_key@ =~= default_name());
            let mut i: usize = 0;
            let mut done = false;
            while !done
                invariant
                    i <= conds@.len(),
                    all == member_models(members@),
                    *j == Json::Object(*members),
                    j@ == JsonValue::Object(all),
                    cs == views(conds@),
                    pc == optional_view(*piece),
                    default_key@ == default_name(),
                    !done ==> views(out@) == start,
                    !done ==> targets_by_condition(all, cs, pc, 0) == targets_by_condition(
                        all,
                        cs,
                        pc,
                        i as int,
                    ),
                    done ==> views(out@) == start + targets_by_condition(all, cs, pc, 0),
                decreases conds@.len() + 1 - i, if done { 0int } else { 1int },
            {
                let name: &[u8] = if i < conds.len() {
                    conds[i].as_slice()
                } else {
                    default_key.as_slice()
                };
                assert(name@ == condition_at(cs, i as int));
                proof {
                    lemma_member_index(all, name@);
                }
                match find_member(members, name) {
                    Some(k) => {
                        let before = out.len();
                        collect_targets(&members[k].1, conds, piece, out);
                        let ghost here = targets_of(all[k as int].1, cs, pc);
                        assert(all[k as int].1 == members@[k as int].1@);
                        assert(views(out@) == start + here);
                        assert(views(out@).len() == out@.len());
                        assert(start.len() == before);
                        assert(here.len() == out@.len() - before);
                        if out.len() > before {
                            assert(targets_by_condition(all, cs, pc, i as int) == here);
                            done = true;
                        } else {
                            assert(views(out@) =~= start);
                        }
                    },
                    None => {},
                }
                if !done {
                    if i == conds.len() {
                        assert(targets_by_condition(all, cs, pc, i + 1) =~= Seq::<Seq<u8>>::empty());
                        assert(targets_by_condition(all, cs, pc, i as int) =~= Seq::<
                            Seq<u8>,
                        >::empty());
                        assert(views(out@) =~= start + Seq::<Seq<u8>>::empty());
                        done = true;
                    } else {
                        i += 1;
                    }
                }
            }
        },
        _ => {
            assert(views(out@) =~= start + Seq::<Seq<u8>>::empty());
        },
    }
}

/// What a map made of a subpath.
#[derive(Debug)]
pub enum Match {
    /// The map does not list the subpath, or lists it with no target.
    NotExported,
    /// The map mixes subpath keys with condition names.
    Invalid,
    /// The targets to try, in order.
    Targets(Vec<Vec<u8>>),
}

impl View for Match {
    type V = Matched;

    open spec fn view(&self) -> Matched {
        match self {
            Match::NotExported => Matched::NotExported,
            Match::Invalid => Matched::Invalid,
            Match::Targets(t) => Matched::Targets(views(t@)),
        }
    }
}

fn targets_or_none(j: &Json, conds: &Vec<Vec<u8>>, piece: &Option<Vec<u8>>) -> (r: Match)
    ensures
        r@ == if targets_of(j@, views(conds@), optional_view(*piece)).len() == 0 {
            Matched::NotExported
        } else {
            Matched::Targets(targets_of(j@, views(conds@), optional_view(*piece)))
        },
{
    let mut out: Vec<Vec<u8>> = Vec::new();
    assert(views(out@) =~= Seq::<Seq<u8>>::empty());
    collect_targets(j, conds, piece, &mut out);
    assert(views(out@) =~= targets_of(j@, views(conds@), optional_view(*piece)));
    if out.len() == 0 {
        Match::NotExported
    } else {
        Match::Targets(out)
    }
}

fn match_map(members: &Vec<(Vec<u8>, Json)>, sub: &[u8], conds: &Vec<Vec<u8>>) -> (r: Match)
    ensures
        r@ == map_targets(member_models(members@), sub@, views(conds@)),
{
    match find_entry(members, sub) {
        None => Match::NotExported,
        Some((k, piece)) => {
            assert(member_models(members@)[k as int].1 == members@[k as int].1@);
            targets_or_none(&members[k].1, conds, &piece)
        },
    }
}

fn count_leading(members: &Vec<(Vec<u8>, Json)>, lead: u8) -> (r: usize)
    ensures
        r == leading(member_models(members@), lead, members@.len() as int),
        r <= members@.len(),
{
    let ghost all = member_models(members@);
    let mut count: usize = 0;
    let mut i: usize = 0;
    while i < members.len()
        invariant
            i <= members@.len(),
            all == member_models(members@),
            count <= i,
            count == leading(all, lead, i as int),
        decreases members@.len() - i,
    {
        assert(all[i as int].0 == members@[i as int].0@);
        if members[i].0.len() > 0 && members[i].0[0] == lead {
            count += 1;
        }
        i += 1;
    }
    count
}

/// The targets that an exports value gives for a subpath.
pub fn match_exports(exports: &Json, sub: &[u8], conds: &Vec<Vec<u8>>) -> (r: Match)
    ensures
        r@ == exports_targets(exports@, sub@, views(conds@)),
{
    match exports {
        Json::Object(members) => {
            proof {
                lemma_object_model(*members);
            }
            let dotted = count_leading(members, DOT);
            if dotted > 0 {
                if dotted < members.len() {
                    return Match::Invalid;
                }
                return match_map(members, sub, conds);
            }
        },
        _ => {},
    }
    let root = [DOT];
    assert(root@ =~= seq![DOT]);
    if equal(sub, root.as_slice()) {
        let none: Option<Vec<u8>> = None;
        targets_or_none(exports, conds, &none)
    } else {
        Match::NotExported
    }
}

/// The targets that an imports value gives for a request.
pub fn match_imports(imports: &Json, sub: &[u8], conds: &Vec<Vec<u8>>) -> (r: Match)
    ensures
        r@ == imports_targets(imports@, sub@, views(conds@)),
{
    match imports {
        Json::Object(members) => {
            proof {
                lemma_object_model(*members);
            }
            match_map(members, sub, conds)
        },
        _ => Match::NotExported,
    }
}

/// The targets that the condition at step `i` gives.
pub open spec fn condition_targets(
    members: Seq<(Seq<u8>, JsonValue)>,
    conds: Seq<Seq<u8>>,
    piece: Option<Seq<u8>>,
    i: int,
) -> Seq<Seq<u8>> {
    let k = member_index(members, condition_at(conds, i));
    if 0 <= k < members.len() {
        targets_of(members[k].1, conds, piece)
    } else {
        Seq::empty()
    }
}

/// Conditions go by the configured order: the targets of a condition
/// object are those of the first step, counted over the configured
/// conditions and then `default`, that gives any, wherever its member
/// stands in the object.
pub proof fn lemma_first_condition_wins(
    members: Seq<(Seq<u8>, JsonValue)>,
    conds: Seq<Seq<u8>>,
    piece: Option<Seq<u8>>,
    i: int,
    k: int,
)
    requires
        0 <= i <= k <= conds.len(),
        condition_targets(members, conds, piece, k).len() > 0,
        forall|j: int| i <= j < k ==> condition_targets(members, conds, piece, j).len() == 0,
    ensures
        targets_by_condition(members, conds, piece, i) == condition_targets(
            members,
            conds,
            piece,
            k,
        ),
    decreases k - i,
{
    if i < k {
        assert(condition_targets(members, conds, piece, i).len() == 0);
        lemma_first_condition_wins(members, conds, piece, i + 1, k);
    }
}

/// A subpath map that has no key equal to the subpath and no pattern that
/// covers it does not export it, whatever the conditions are.
pub proof fn lemma_unlisted_not_exported(
    members: Seq<(Seq<u8>, JsonValue)>,
    sub: Seq<u8>,
    conds: Seq<Seq<u8>>,
)
    requires
        member_index(members, sub) < 0,
        forall|j: int| 0 <= j < members.len() ==> !pattern_matches(members[j].0, sub),
    ensures
        map_targets(members, sub, conds) == Matched::NotExported,
{
    lemma_best_pattern(members, sub, 0, -1);
}

} // verus!
