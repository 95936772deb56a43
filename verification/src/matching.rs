//! Matching a request path against route patterns: which patterns match,
//! what they capture, and which of several matching patterns wins.

use vstd::prelude::*;

use crate::path::{PatSeg, Segment, seg_views, views};

verus! {

/// The segments `s` joined with `/` between them.
pub open spec fn join_slash(s: Seq<Seq<char>>) -> Seq<char>
    decreases s.len(),
{
    if s.len() == 0 {
        Seq::<char>::empty()
    } else if s.len() == 1 {
        s[0]
    } else {
        join_slash(s.drop_last()) + seq!['/'] + s.last()
    }
}

/// Whether the pattern `pat` matches the request segments `req`. A static
/// segment matches the same text, a capture any segment (an empty one too),
/// and a wildcard (always last) all the rest, if that rest is not empty.
pub open spec fn pattern_matches(pat: Seq<PatSeg>, req: Seq<Seq<char>>) -> bool
    decreases pat.len(),
{
    if pat.len() == 0 {
        req.len() == 0
    } else {
        match pat[0] {
            PatSeg::Static(s) => req.len() > 0 && req[0] == s && pattern_matches(
                pat.drop_first(),
                req.drop_first(),
            ),
            PatSeg::Param(_) => req.len() > 0 && pattern_matches(
                pat.drop_first(),
                req.drop_first(),
            ),
            PatSeg::Wildcard(_) => pat.len() == 1 && req.len() > 0 && join_slash(req).len() > 0,
        }
    }
}

/// The captures of `pat` on `req`, as (name, value) pairs in pattern order.
pub open spec fn captures(pat: Seq<PatSeg>, req: Seq<Seq<char>>) -> Seq<(Seq<char>, Seq<char>)>
    decreases pat.len(),
{
    if pat.len() == 0 || req.len() == 0 {
        Seq::empty()
    } else {
        match pat[0] {
            PatSeg::Static(_) => captures(pat.drop_first(), req.drop_first()),
            PatSeg::Param(name) => seq![(name, req[0])] + captures(
                pat.drop_first(),
                req.drop_first(),
            ),
            PatSeg::Wildcard(name) => seq![(name, join_slash(req))],
        }
    }
}

/// How specific a segment is: static text before a capture before a wildcard.
pub open spec fn rank(s: PatSeg) -> int {
    match s {
        PatSeg::Static(_) => 2,
        PatSeg::Param(_) => 1,
        PatSeg::Wildcard(_) => 0,
    }
}

/// `a` is more specific than `b`: at the first position where the kinds of
/// their segments differ, `a` has the more specific kind.
pub open spec fn more_specific(a: Seq<PatSeg>, b: Seq<PatSeg>) -> bool
    decreases a.len(),
{
    if a.len() == 0 || b.len() == 0 {
        false
    } else if rank(a[0]) != rank(b[0]) {
        rank(a[0]) > rank(b[0])
    } else {
        more_specific(a.drop_first(), b.drop_first())
    }
}

/// Two segments of the same shape: the same static text, or both captures,
/// or both wildcards.
pub open spec fn seg_same_shape(x: PatSeg, y: PatSeg) -> bool {
    match (x, y) {
        (PatSeg::Static(s), PatSeg::Static(t)) => s == t,
        (PatSeg::Param(_), PatSeg::Param(_)) => true,
        (PatSeg::Wildcard(_), PatSeg::Wildcard(_)) => true,
        _ => false,
    }
}

/// Two patterns that overlap: they match exactly the same request paths.
pub open spec fn same_shape(a: Seq<PatSeg>, b: Seq<PatSeg>) -> bool {
    &&& a.len() == b.len()
    &&& forall|i: int| 0 <= i < a.len() ==> seg_same_shape(#[trigger] a[i], b[i])
}

pub proof fn lemma_more_specific_irreflexive(a: Seq<PatSeg>)
    ensures
        !more_specific(a, a),
    decreases a.len(),
{
    if a.len() > 0 {
        lemma_more_specific_irreflexive(a.drop_first());
    }
}

pub proof fn lemma_more_specific_transitive(a: Seq<PatSeg>, b: Seq<PatSeg>, c: Seq<PatSeg>)
    requires
        more_specific(a, b),
        more_specific(b, c),
    ensures
        more_specific(a, c),
    decreases a.len(),
{
    if rank(a[0]) == rank(b[0]) && rank(b[0]) == rank(c[0]) {
        lemma_more_specific_transitive(a.drop_first(), b.drop_first(), c.drop_first());
    }
}

/// Of two patterns that match the same path and do not overlap, one is
/// more specific than the other.
pub proof fn lemma_more_specific_total(a: Seq<PatSeg>, b: Seq<PatSeg>, req: Seq<Seq<char>>)
    requires
        pattern_matches(a, req),
        pattern_matches(b, req),
        !same_shape(a, b),
    ensures
        more_specific(a, b) || more_specific(b, a),
    decreases a.len(),
{
    if a.len() == 0 {
        assert(b.len() == 0) by {
            if b.len() > 0 {
                match b[0] {
                    PatSeg::Static(_) => {},
                    PatSeg::Param(_) => {},
                    PatSeg::Wildcard(_) => {},
                }
            }
        }
        assert(same_shape(a, b));
    } else if b.len() == 0 {
        match a[0] {
            PatSeg::Static(_) => {},
            PatSeg::Param(_) => {},
            PatSeg::Wildcard(_) => {},
        }
    } else if rank(a[0]) == rank(b[0]) {
        match (a[0], b[0]) {
            (PatSeg::Wildcard(_), PatSeg::Wildcard(_)) => {
                assert(same_shape(a, b)) by {
                    assert forall|i: int| 0 <= i < a.len() implies seg_same_shape(
                        #[trigger] a[i],
                        b[i],
                    ) by {
                        assert(i == 0);
                    }
                }
            },
            _ => {
                assert(seg_same_shape(a[0], b[0]));
                assert(!same_shape(a.drop_first(), b.drop_first())) by {
                    if same_shape(a.drop_first(), b.drop_first()) {
                        assert forall|i: int| 0 <= i < a.len() implies seg_same_shape(
                            #[trigger] a[i],
                            b[i],
                        ) by {
                            if i > 0 {
                                assert(a[i] == a.drop_first()[i - 1]);
                                assert(b[i] == b.drop_first()[i - 1]);
                            }
                        }
                    }
                }
                lemma_more_specific_total(a.drop_first(), b.drop_first(), req.drop_first());
            },
        }
    }
}

/// `a` more specific than `b`, computed.
pub fn more_specific_exec(a: &Vec<Segment>, b: &Vec<Segment>) -> (r: bool)
    ensures
        r == more_specific(seg_views(a@), seg_views(b@)),
{
    let ghost sa = seg_views(a@);
    let ghost sb = seg_views(b@);
    let mut i: usize = 0;
    proof {
        assert(sa.skip(0) =~= sa);
        assert(sb.skip(0) =~= sb);
    }
    while i < a.len() && i < b.len()
        invariant
            sa == seg_views(a@),
            sb == seg_views(b@),
            i <= a.len(),
            i <= b.len(),
            more_specific(sa, sb) == more_specific(sa.skip(i as int), sb.skip(i as int)),
        decreases a.len() - i,
    {
        let ra: u8 = match &a[i] {
            Segment::Static(_) => 2,
            Segment::Param(_) => 1,
            Segment::Wildcard(_) => 0,
        };
        let rb: u8 = match &b[i] {
            Segment::Static(_) => 2,
            Segment::Param(_) => 1,
            Segment::Wildcard(_) => 0,
        };
        assert(sa.skip(i as int)[0] == a@[i as int]@);
        assert(sb.skip(i as int)[0] == b@[i as int]@);
        assert(rank(a@[i as int]@) == ra);
        assert(rank(b@[i as int]@) == rb);
        if ra != rb {
            return ra > rb;
        }
        assert(sa.skip(i as int).drop_first() =~= sa.skip(i + 1));
        assert(sb.skip(i as int).drop_first() =~= sb.skip(i + 1));
        i = i + 1;
    }
    false
}

/// Whether two patterns overlap, computed.
pub fn same_shape_exec(a: &Vec<Segment>, b: &Vec<Segment>) -> (r: bool)
    ensures
        r == same_shape(seg_views(a@), seg_views(b@)),
{
    if a.len() != b.len() {
        return false;
    }
    let mut i: usize = 0;
    while i < a.len()
        invariant
            a.len() == b.len(),
            i <= a.len(),
            forall|k: int|
                0 <= k < i ==> seg_same_shape(#[trigger] seg_views(a@)[k], seg_views(b@)[k]),
        decreases a.len() - i,
    {
        let same = match (&a[i], &b[i]) {
            (Segment::Static(s), Segment::Static(t)) => vec_chars_eq(s, t),
            (Segment::Param(_), Segment::Param(_)) => true,
            (Segment::Wildcard(_), Segment::Wildcard(_)) => true,
            _ => false,
        };
        assert(seg_views(a@)[i as int] == a@[i as int]@);
        assert(seg_views(b@)[i as int] == b@[i as int]@);
        if !same {
            return false;
        }
        i = i + 1;
    }
    true
}

/// Equality of two character vectors.
pub fn vec_chars_eq(s: &Vec<char>, t: &Vec<char>) -> (r: bool)
    ensures
        r == (s@ == t@),
{
    if s.len() != t.len() {
        return false;
    }
    let mut i: usize = 0;
    while i < s.len()
        invariant
            s.len() == t.len(),
            i <= s.len(),
            forall|k: int| 0 <= k < i ==> s@[k] == t@[k],
        decreases s.len() - i,
    {
        if s[i] != t[i] {
            return false;
        }
        i = i + 1;
    }
    assert(s@ =~= t@);
    true
}

/// `s[from..]` joined with `/`.
pub fn join_from(s: &Vec<Vec<char>>, from: usize) -> (r: Vec<char>)
    requires
        from <= s.len(),
    ensures
        r@ == join_slash(views(s@).skip(from as int)),
{
    let ghost all = views(s@);
    let mut r: Vec<char> = Vec::new();
    let mut i = from;
    proof {
        assert(all.skip(from as int).take(0) =~= Seq::<Seq<char>>::empty());
    }
    while i < s.len()
        invariant
            all == views(s@),
            from <= i <= s.len(),
            r@ == join_slash(all.skip(from as int).take(i - from)),
        decreases s.len() - i,
    {
        let ghost t = all.skip(from as int).take(i - from + 1);
        assert(t.drop_last() =~= all.skip(from as int).take(i - from));
        assert(t.last() == s@[i as int]@);
        if i > from {
            r.push('/');
        }
        let seg = &s[i];
        let mut j: usize = 0;
        let ghost base = r@;
        while j < seg.len()
            invariant
                j <= seg.len(),
                r@ == base + seg@.take(j as int),
            decreases seg.len() - j,
        {
            r.push(seg[j]);
            j = j + 1;
            assert(r@ =~= base + seg@.take(j as int));
        }
        assert(seg@.take(j as int) =~= seg@);
        proof {
            if i == from {
                assert(t.len() == 1);
                assert(r@ =~= join_slash(t));
            } else {
                assert(r@ =~= join_slash(t.drop_last()) + seq!['/'] + t.last());
            }
        }
        i = i + 1;
    }
    assert(all.skip(from as int).take(i - from) =~= all.skip(from as int));
    r
}

/// The (name, value) character pairs held by a vector of pairs.
pub open spec fn pair_views(v: Seq<(Vec<char>, Vec<char>)>) -> Seq<(Seq<char>, Seq<char>)> {
    v.map_values(|p: (Vec<char>, Vec<char>)| (p.0@, p.1@))
}

/// Matches the pattern `pat` against the request segments `req`; on a match,
/// gives its captures.
pub fn match_segments(pat: &Vec<Segment>, req: &Vec<Vec<char>>) -> (r: Option<
    Vec<(Vec<char>, Vec<char>)>,
>)
    ensures
        r is Some <==> pattern_matches(seg_views(pat@), views(req@)),
        r matches Some(c) ==> pair_views(c@) == captures(seg_views(pat@), views(req@)),
{
    let ghost p = seg_views(pat@);
    let ghost q = views(req@);
    let mut acc: Vec<(Vec<char>, Vec<char>)> = Vec::new();
    let mut i: usize = 0;
    proof {
        assert(p.skip(0) =~= p);
        assert(q.skip(0) =~= q);
    }
    while i < pat.len()
        invariant
            p == seg_views(pat@),
            q == views(req@),
            i <= pat.len(),
            i <= req.len(),
            pattern_matches(p, q) == pattern_matches(p.skip(i as int), q.skip(i as int)),
            captures(p, q) == pair_views(acc@) + captures(p.skip(i as int), q.skip(i as int)),
        decreases pat.len() - i,
    {
        let ghost ps = p.skip(i as int);
        let ghost qs = q.skip(i as int);
        assert(ps[0] == pat@[i as int]@);
        assert(ps.drop_first() =~= p.skip(i + 1));
        if i >= req.len() {
            assert(qs.len() == 0);
            match &pat[i] {
                Segment::Static(_) => {},
                Segment::Param(_) => {},
                Segment::Wildcard(_) => {},
            }
            return None;
        }
        assert(qs[0] == req@[i as int]@);
        assert(qs.drop_first() =~= q.skip(i + 1));
        match &pat[i] {
            Segment::Static(text) => {
                if !vec_chars_eq(&req[i], text) {
                    return None;
                }
            },
            Segment::Param(name) => {
                let ghost before = pair_views(acc@);
                acc.push((name.clone(), req[i].clone()));
                assert(pair_views(acc@) =~= before.push((name@, req@[i as int]@)));
                assert(pair_views(acc@) + captures(p.skip(i + 1), q.skip(i + 1)) =~= before + (
                seq![(name@, qs[0])] + captures(p.skip(i + 1), q.skip(i + 1))));
            },
            Segment::Wildcard(name) => {
                let rest = join_from(req, i);
                if i + 1 != pat.len() || rest.len() == 0 {
                    return None;
                }
                let ghost before = pair_views(acc@);
                acc.push((name.clone(), rest));
                assert(pair_views(acc@) =~= before.push((name@, join_slash(qs))));
                assert(captures(ps, qs) =~= seq![(name@, join_slash(qs))]);
                return Some(acc);
            },
        }
        i = i + 1;
    }
    assert(p.skip(i as int).len() == 0);
    if i < req.len() {
        return None;
    }
    assert(q.skip(i as int).len() == 0);
    assert(pair_views(acc@) + captures(p.skip(i as int), q.skip(i as int)) =~= pair_views(acc@));
    Some(acc)
}

} // verus!
