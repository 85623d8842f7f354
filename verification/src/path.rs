//! Slash-separated absolute paths: splitting into segments, removing `.` and
//! `..`, and joining.

use vstd::prelude::*;
use crate::bytes::{append, copy, views};

verus! {

/// The separator byte, `/`.
pub const SLASH: u8 = 47;

/// The byte `.`.
pub const DOT: u8 = 46;

/// A path is absolute when it begins with the separator.
pub open spec fn is_absolute(p: Seq<u8>) -> bool {
    p.len() > 0 && p[0] == SLASH
}

/// The segment stack after one more segment: empty and `.` segments leave it
/// alone, `..` removes the top (and stays at the root), any other is pushed.
pub open spec fn push_segment(stack: Seq<Seq<u8>>, seg: Seq<u8>) -> Seq<Seq<u8>> {
    if seg.len() == 0 || seg == seq![DOT] {
        stack
    } else if seg == seq![DOT, DOT] {
        if stack.len() > 0 {
            stack.drop_last()
        } else {
            stack
        }
    } else {
        stack.push(seg)
    }
}

/// Reads `p` from byte `i` on, with `stack` the segments finished so far and
/// `cur` the segment being read.
pub open spec fn scan(p: Seq<u8>, i: int, stack: Seq<Seq<u8>>, cur: Seq<u8>) -> Seq<Seq<u8>>
    decreases p.len() - i,
{
    if i < 0 || i >= p.len() {
        push_segment(stack, cur)
    } else if p[i] == SLASH {
        scan(p, i + 1, push_segment(stack, cur), Seq::empty())
    } else {
        scan(p, i + 1, stack, cur.push(p[i]))
    }
}

/// The segments that `p` denotes when it is followed on top of `base`.
pub open spec fn segments_onto(base: Seq<Seq<u8>>, p: Seq<u8>) -> Seq<Seq<u8>> {
    scan(p, 0, base, Seq::empty())
}

/// The segments of a path read from the root.
pub open spec fn segments(p: Seq<u8>) -> Seq<Seq<u8>> {
    segments_onto(Seq::empty(), p)
}

/// Every segment written after a separator.
pub open spec fn render(stack: Seq<Seq<u8>>) -> Seq<u8>
    decreases stack.len(),
{
    if stack.len() == 0 {
        Seq::empty()
    } else {
        render(stack.drop_last()) + seq![SLASH] + stack.last()
    }
}

/// The absolute path that a segment stack stands for; the root is `/`.
pub open spec fn absolute(stack: Seq<Seq<u8>>) -> Seq<u8> {
    if stack.len() == 0 {
        seq![SLASH]
    } else {
        render(stack)
    }
}

/// The path with empty, `.` and `..` segments resolved.
pub open spec fn normalize(p: Seq<u8>) -> Seq<u8> {
    absolute(segments(p))
}

/// `rel` followed from the directory `dir`. An absolute `rel` is followed
/// from the root.
pub open spec fn join(dir: Seq<u8>, rel: Seq<u8>) -> Seq<u8> {
    if is_absolute(rel) {
        normalize(rel)
    } else {
        absolute(segments_onto(segments(dir), rel))
    }
}

/// Whether a path begins with the separator.
pub fn starts_at_root(p: &[u8]) -> (r: bool)
    ensures
        r == is_absolute(p@),
{
    p.len() > 0 && p[0] == SLASH
}

fn is_dot(seg: &Vec<u8>) -> (r: bool)
    ensures
        r == (seg@ == seq![DOT]),
{
    let r = seg.len() == 1 && seg[0] == DOT;
    proof {
        if r {
            assert(seg@ =~= seq![DOT]);
        }
    }
    r
}

fn is_dot_dot(seg: &Vec<u8>) -> (r: bool)
    ensures
        r == (seg@ == seq![DOT, DOT]),
{
    let r = seg.len() == 2 && seg[0] == DOT && seg[1] == DOT;
    proof {
        if r {
            assert(seg@ =~= seq![DOT, DOT]);
        } else if seg@ == seq![DOT, DOT] {
            assert(seg@[0] == DOT && seg@[1] == DOT);
        }
    }
    r
}

fn push_onto(stack: &mut Vec<Vec<u8>>, seg: Vec<u8>)
    ensures
        views(final(stack)@) == push_segment(views(old(stack)@), seg@),
{
    if seg.len() == 0 || is_dot(&seg) {
    } else if is_dot_dot(&seg) {
        if stack.len() > 0 {
            stack.pop();
            assert(views(stack@) =~= views(old(stack)@).drop_last());
        }
    } else {
        stack.push(seg);
        assert(views(stack@) =~= views(old(stack)@).push(seg@));
    }
}

/// Follows `p` on top of the segment stack `stack`.
pub fn follow(stack: &mut Vec<Vec<u8>>, p: &[u8])
    ensures
        views(final(stack)@) == segments_onto(views(old(stack)@), p@),
{
    let mut cur: Vec<u8> = Vec::new();
    let mut i: usize = 0;
    while i < p.len()
        invariant
            i <= p@.len(),
            segments_onto(views(old(stack)@), p@) == scan(p@, i as int, views(stack@), cur@),
        decreases p@.len() - i,
    {
        if p[i] == SLASH {
            push_onto(stack, cur);
            cur = Vec::new();
        } else {
            cur.push(p[i]);
        }
        i += 1;
    }
    push_onto(stack, cur);
}

/// The segments of `p`, read from the root.
pub fn split(p: &[u8]) -> (r: Vec<Vec<u8>>)
    ensures
        views(r@) == segments(p@),
{
    let mut stack: Vec<Vec<u8>> = Vec::new();
    assert(views(stack@) =~= Seq::empty());
    follow(&mut stack, p);
    stack
}

/// Writes the absolute path of a segment stack.
pub fn to_path(stack: &Vec<Vec<u8>>) -> (r: Vec<u8>)
    ensures
        r@ == absolute(views(stack@)),
{
    let mut out: Vec<u8> = Vec::new();
    if stack.len() == 0 {
        out.push(SLASH);
        assert(out@ =~= seq![SLASH]);
        return out;
    }
    let mut i: usize = 0;
    while i < stack.len()
        invariant
            i <= stack@.len(),
            out@ == render(views(stack@).take(i as int)),
        decreases stack@.len() - i,
    {
        let ghost before = out@;
        out.push(SLASH);
        append(&mut out, stack[i].as_slice());
        i += 1;
        proof {
            let t = views(stack@).take(i as int);
            assert(t.drop_last() =~= views(stack@).take(i - 1));
            assert(t.last() == stack@[i - 1]@);
            assert(out@ =~= before + seq![SLASH] + stack@[i - 1]@);
        }
    }
    assert(views(stack@).take(stack@.len() as int) =~= views(stack@));
    out
}

/// The normal form of a path.
pub fn normalized(p: &[u8]) -> (r: Vec<u8>)
    ensures
        r@ == normalize(p@),
{
    let stack = split(p);
    to_path(&stack)
}

/// `rel` followed from `dir`.
pub fn joined(dir: &[u8], rel: &[u8]) -> (r: Vec<u8>)
    ensures
        r@ == join(dir@, rel@),
{
    if starts_at_root(rel) {
        normalized(rel)
    } else {
        let mut stack = split(dir);
        follow(&mut stack, rel);
        to_path(&stack)
    }
}

/// The first `n` segments of a stack.
pub fn first_segments(stack: &Vec<Vec<u8>>, n: usize) -> (r: Vec<Vec<u8>>)
    requires
        n <= stack@.len(),
    ensures
        views(r@) == views(stack@).take(n as int),
{
    let mut r: Vec<Vec<u8>> = Vec::new();
    let mut i: usize = 0;
    while i < n
        invariant
            i <= n <= stack@.len(),
            views(r@) == views(stack@).take(i as int),
        decreases n - i,
    {
        let ghost before = r@;
        let item = copy(stack[i].as_slice());
        r.push(item);
        i += 1;
        assert(views(r@) =~= views(before).push(item@));
        assert(views(stack@).take(i as int) =~= views(stack@).take(i - 1).push(stack@[i - 1]@));
    }
    r
}

/// Appends the segments of `stack` from index `from` on to `base`.
pub fn extend_segments(base: &mut Vec<Vec<u8>>, stack: &Vec<Vec<u8>>, from: usize)
    requires
        from <= stack@.len(),
    ensures
        views(final(base)@) == views(old(base)@) + views(stack@).skip(from as int),
{
    let mut i: usize = from;
    while i < stack.len()
        invariant
            from <= i <= stack@.len(),
            views(base@) == views(old(base)@) + views(stack@).subrange(from as int, i as int),
        decreases stack@.len() - i,
    {
        let ghost before = base@;
        let item = copy(stack[i].as_slice());
        base.push(item);
        i += 1;
        assert(views(base@) =~= views(before).push(item@));
        assert(views(stack@).subrange(from as int, i as int) =~= views(stack@).subrange(
            from as int,
            i - 1,
        ).push(stack@[i - 1]@));
    }
    assert(views(stack@).subrange(from as int, stack@.len() as int) =~= views(stack@).skip(
        from as int,
    ));
}

/// What `render` writes for a stack that is not empty begins with the
/// separator.
pub proof fn lemma_render_leads(stack: Seq<Seq<u8>>)
    requires
        stack.len() > 0,
    ensures
        is_absolute(render(stack)),
    decreases stack.len(),
{
    if stack.len() > 1 {
        lemma_render_leads(stack.drop_last());
        let head = render(stack.drop_last());
        assert((head + seq![SLASH] + stack.last())[0] == head[0]);
    } else {
        assert(render(stack.drop_last()) =~= Seq::<u8>::empty());
        assert((Seq::<u8>::empty() + seq![SLASH] + stack.last())[0] == SLASH);
    }
}

/// The normal form of any path, and any path followed from any directory,
/// is absolute.
pub proof fn lemma_absolute_results(dir: Seq<u8>, p: Seq<u8>)
    ensures
        is_absolute(normalize(p)),
        is_absolute(join(dir, p)),
{
    if segments(p).len() > 0 {
        lemma_render_leads(segments(p));
    }
    if segments_onto(segments(dir), p).len() > 0 {
        lemma_render_leads(segments_onto(segments(dir), p));
    }
}

} // verus!
