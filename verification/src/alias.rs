//! Rewriting a request by the configured alias rules.

use vstd::prelude::*;
use crate::bytes::{append, contains, copy, copy_range, equal, has_prefix, starts_with, views};
use crate::options::{AliasRule, AliasRuleModel, AliasTarget, AliasTargetModel, rule_models};
use crate::path::SLASH;

verus! {

/// How many rewrites one request may go through.
pub const MAX_REWRITES: usize = 64;

/// `s` is `base` or lies below it: `base` followed by a separator.
pub open spec fn at_or_below(s: Seq<u8>, base: Seq<u8>) -> bool {
    s == base || has_prefix(s, base.push(SLASH))
}

/// The rule applies to `s`: an exact rule to its pattern alone, any other
/// also to what lies below the pattern. A rule does not apply to a request
/// that already is, or lies below, the path it rewrites to.
pub open spec fn rule_matches(rule: AliasRuleModel, s: Seq<u8>) -> bool {
    &&& if rule.exact {
        s == rule.pattern
    } else {
        at_or_below(s, rule.pattern)
    }
    &&& match rule.target {
        AliasTargetModel::Path(p) => !at_or_below(s, p),
        AliasTargetModel::Ignore => true,
    }
}

/// `a` is preferred to `b`: exact before the others, then the longer
/// pattern.
pub open spec fn preferred(a: AliasRuleModel, b: AliasRuleModel) -> bool {
    (a.exact && !b.exact) || (a.exact == b.exact && a.pattern.len() > b.pattern.len())
}

/// The best rule for `s` among `rules[i..]` and `best`, the best so far
/// (-1 for none). Of two rules neither of which is preferred, the earlier
/// stays.
pub open spec fn best_rule(rules: Seq<AliasRuleModel>, s: Seq<u8>, i: int, best: int) -> int
    decreases rules.len() - i,
{
    if i < 0 || i >= rules.len() {
        best
    } else if rule_matches(rules[i], s) && (best < 0 || best >= rules.len() || preferred(
        rules[i],
        rules[best],
    )) {
        best_rule(rules, s, i + 1, i)
    } else {
        best_rule(rules, s, i + 1, best)
    }
}

/// The rule that rewrites `s`; -1 when none applies.
pub open spec fn selected_rule(rules: Seq<AliasRuleModel>, s: Seq<u8>) -> int {
    best_rule(rules, s, 0, -1)
}

/// How aliasing a request ends.
pub enum Aliased {
    /// No rule applies any more; this is the request to resolve.
    Request(Seq<u8>),
    /// A rule maps the request to nothing.
    Ignored,
    /// A rewrite gave what an earlier one had given, or there were too
    /// many.
    Circular,
}

/// One rewrite: the target with what lay below the pattern.
pub open spec fn rewritten(rule: AliasRuleModel, s: Seq<u8>) -> Seq<u8> {
    rule.target->Path_0 + s.skip(rule.pattern.len() as int)
}

/// Rewrites `s` until no rule applies. `visited` holds the request and
/// every rewrite so far; `fuel` is how many rewrites are left.
pub open spec fn alias_chain(
    rules: Seq<AliasRuleModel>,
    s: Seq<u8>,
    visited: Seq<Seq<u8>>,
    fuel: nat,
) -> Aliased
    decreases fuel,
{
    let k = selected_rule(rules, s);
    if k < 0 || k >= rules.len() {
        Aliased::Request(s)
    } else if rules[k].target is Ignore {
        Aliased::Ignored
    } else {
        let next = rewritten(rules[k], s);
        if fuel == 0 || visited.contains(next) {
            Aliased::Circular
        } else {
            alias_chain(rules, next, visited.push(next), (fuel - 1) as nat)
        }
    }
}

/// What the alias rules make of a request.
pub open spec fn aliased(rules: Seq<AliasRuleModel>, s: Seq<u8>) -> Aliased {
    alias_chain(rules, s, seq![s], MAX_REWRITES as nat)
}

/// The result of `best_rule` is -1 or the position of a rule that applies,
/// given that `best` is.
pub proof fn lemma_best_rule(rules: Seq<AliasRuleModel>, s: Seq<u8>, i: int, best: int)
    requires
        0 <= i <= rules.len(),
        best == -1 || (0 <= best < rules.len() && rule_matches(rules[best], s)),
    ensures
        -1 <= best_rule(rules, s, i, best) < rules.len(),
        best_rule(rules, s, i, best) >= 0 ==> rule_matches(rules[best_rule(rules, s, i, best)], s),
        best >= 0 ==> best_rule(rules, s, i, best) >= 0,
        best >= 0 && rules[best].exact ==> rules[best_rule(rules, s, i, best)].exact,
        (exists|j: int| i <= j < rules.len() && rule_matches(rules[j], s)) ==> best_rule(
            rules,
            s,
            i,
            best,
        ) >= 0,
        (exists|j: int| i <= j < rules.len() && rule_matches(rules[j], s) && rules[j].exact)
            ==> rules[best_rule(rules, s, i, best)].exact,
    decreases rules.len() - i,
{
    if i < rules.len() {
        if rule_matches(rules[i], s) && (best < 0 || preferred(rules[i], rules[best])) {
            lemma_best_rule(rules, s, i + 1, i);
        } else {
            lemma_best_rule(rules, s, i + 1, best);
        }
    }
}

/// An exact rule that applies wins over every rule that is not exact: when
/// some exact rule applies to a request, the selected rule is exact.
pub proof fn lemma_exact_rule_first(rules: Seq<AliasRuleModel>, s: Seq<u8>, j: int)
    requires
        0 <= j < rules.len(),
        rules[j].exact,
        rule_matches(rules[j], s),
    ensures
        0 <= selected_rule(rules, s) < rules.len(),
        rules[selected_rule(rules, s)].exact,
        rules[selected_rule(rules, s)].pattern == s,
{
    lemma_best_rule(rules, s, 0, -1);
}

/// A request whose selected rule maps to nothing comes out as ignored.
pub proof fn lemma_ignore_rule(rules: Seq<AliasRuleModel>, s: Seq<u8>)
    requires
        0 <= selected_rule(rules, s) < rules.len(),
        rules[selected_rule(rules, s)].target is Ignore,
    ensures
        aliased(rules, s) == Aliased::Ignored,
{
}

/// Whether `s` is `base` or lies below it.
pub fn is_at_or_below(s: &[u8], base: &[u8]) -> (r: bool)
    ensures
        r == at_or_below(s@, base@),
{
    if equal(s, base) {
        return true;
    }
    let r = starts_with(s, base) && s.len() > base.len() && s[base.len()] == SLASH;
    proof {
        let b = base@.push(SLASH);
        if r {
            assert(s@.subrange(0, b.len() as int) =~= b) by {
                assert(s@.subrange(0, base@.len() as int) == base@);
                assert forall|k: int| 0 <= k < b.len() implies s@.subrange(0, b.len() as int)[k]
                    == b[k] by {
                    if k < base@.len() {
                        assert(s@.subrange(0, base@.len() as int)[k] == s@[k]);
                    }
                }
            }
        } else if has_prefix(s@, b) {
            assert(s@.subrange(0, b.len() as int)[base@.len() as int] == SLASH);
            assert(s@.subrange(0, base@.len() as int) =~= s@.subrange(0, b.len() as int).subrange(
                0,
                base@.len() as int,
            ));
            assert(b.subrange(0, base@.len() as int) =~= base@);
        }
    }
    r
}

fn matches_rule(rule: &AliasRule, s: &[u8]) -> (r: bool)
    ensures
        r == rule_matches(rule@, s@),
{
    let hit = if rule.exact {
        equal(s, rule.pattern.as_slice())
    } else {
        is_at_or_below(s, rule.pattern.as_slice())
    };
    if !hit {
        return false;
    }
    match &rule.target {
        AliasTarget::Path(p) => !is_at_or_below(s, p.as_slice()),
        AliasTarget::Ignore => true,
    }
}

/// Selects the rule that rewrites `s`.
pub fn select_rule(rules: &Vec<AliasRule>, s: &[u8]) -> (r: Option<usize>)
    ensures
        match r {
            Some(k) => k == selected_rule(rule_models(rules@), s@) && k < rules@.len(),
            None => selected_rule(rule_models(rules@), s@) == -1,
        },
{
    let ghost all = rule_models(rules@);
    let mut best: Option<usize> = None;
    let mut i: usize = 0;
    while i < rules.len()
        invariant
            i <= rules@.len(),
            all == rule_models(rules@),
            match best {
                Some(b) => b < i && selected_rule(all, s@) == best_rule(all, s@, i as int, b as int),
                None => selected_rule(all, s@) == best_rule(all, s@, i as int, -1),
            },
        decreases rules@.len() - i,
    {
        if matches_rule(&rules[i], s) {
            let better = match best {
                None => true,
                Some(b) => (rules[i].exact && !rules[b].exact) || (rules[i].exact == rules[b].exact
                    && rules[i].pattern.len() > rules[b].pattern.len()),
            };
            if better {
                best = Some(i);
            }
        }
        i += 1;
    }
    best
}

/// How aliasing a request ended.
#[derive(Debug)]
pub enum AliasOutcome {
    /// The request to resolve.
    Request(Vec<u8>),
    /// A rule maps the request to nothing.
    Ignored,
    /// The rewrites went in a circle, or there were too many.
    Circular,
}

impl View for AliasOutcome {
    type V = Aliased;

    open spec fn view(&self) -> Aliased {
        match self {
            AliasOutcome::Request(s) => Aliased::Request(s@),
            AliasOutcome::Ignored => Aliased::Ignored,
            AliasOutcome::Circular => Aliased::Circular,
        }
    }
}

/// Applies the alias rules to a request until none applies.
pub fn apply_aliases(rules: &Vec<AliasRule>, request: &[u8]) -> (r: AliasOutcome)
    ensures
        r@ == aliased(rule_models(rules@), request@),
{
    let ghost all = rule_models(rules@);
    let mut current = copy(request);
    let mut visited: Vec<Vec<u8>> = Vec::new();
    visited.push(copy(request));
    assert(views(visited@) =~= seq![request@]);
    let mut fuel: usize = MAX_REWRITES;
    loop
        invariant
            all == rule_models(rules@),
            aliased(all, request@) == alias_chain(all, current@, views(visited@), fuel as nat),
        decreases fuel,
    {
        match select_rule(rules, current.as_slice()) {
            None => {
                return AliasOutcome::Request(current);
            },
            Some(k) => {
                match &rules[k].target {
                    AliasTarget::Ignore => {
                        return AliasOutcome::Ignored;
                    },
                    AliasTarget::Path(p) => {
                        proof {
                            lemma_best_rule(all, current@, 0, -1);
                        }
                        let mut next = copy(p.as_slice());
                        let from = rules[k].pattern.len();
                        if from <= current.len() {
                            let tail = copy_range(
                                current.as_slice(),
                                from,
                                current.len(),
                            );
                            append(&mut next, tail.as_slice());
                            assert(current@.subrange(from as int, current@.len() as int)
                                =~= current@.skip(from as int));
                        }
                        assert(next@ == rewritten(all[k as int], current@));
                        if fuel == 0 || contains(&visited, next.as_slice()) {
                            return AliasOutcome::Circular;
                        }
                        let ghost before = views(visited@);
                        visited.push(copy(next.as_slice()));
                        assert(views(visited@) =~= before.push(next@));
                        current = next;
                        fuel -= 1;
                    },
                }
            },
        }
    }
}

} // verus!
