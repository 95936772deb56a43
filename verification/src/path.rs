//! The grammar of route paths: splitting into segments, parsing captures and
//! wildcards, and the checks a path must pass before it is registered.

use vstd::prelude::*;

use crate::error::RouteError;

verus! {

broadcast use vstd::string::group_string_axioms;

/// The characters of a string slice, in order.
pub fn chars_of(s: &str) -> (r: Vec<char>)
    ensures
        r@ == s@,
{
    let mut r: Vec<char> = Vec::new();
    for c in it: s.chars()
        invariant
            r@ == it.seq().take(it.index() as int),
            it.seq() == s@,
    {
        r.push(c);
    }
    r
}

/// `s` cut at every `/`: `"a/b"` gives `["a", "b"]`, `""` gives `[""]`,
/// `"/"` gives `["", ""]`.
pub open spec fn split_slash(s: Seq<char>) -> Seq<Seq<char>>
    decreases s.len(),
{
    if s.len() == 0 {
        seq![Seq::<char>::empty()]
    } else {
        let p = split_slash(s.drop_last());
        if s.last() == '/' {
            p.push(Seq::<char>::empty())
        } else {
            p.update(p.len() - 1, p.last().push(s.last()))
        }
    }
}

pub proof fn lemma_split_slash_nonempty(s: Seq<char>)
    ensures
        split_slash(s).len() >= 1,
    decreases s.len(),
{
    if s.len() > 0 {
        lemma_split_slash_nonempty(s.drop_last());
    }
}

/// The character sequences held by a vector of character vectors.
pub open spec fn views(v: Seq<Vec<char>>) -> Seq<Seq<char>> {
    v.map_values(|x: Vec<char>| x@)
}

/// A text without `/` is one segment.
pub proof fn lemma_split_no_slash(s: Seq<char>)
    requires
        forall|i: int| 0 <= i < s.len() ==> s[i] != '/',
    ensures
        split_slash(s) == seq![s],
    decreases s.len(),
{
    if s.len() > 0 {
        lemma_split_no_slash(s.drop_last());
        assert(s.drop_last().push(s.last()) =~= s);
        assert(split_slash(s) =~= seq![s]);
    } else {
        assert(s =~= Seq::<char>::empty());
    }
}

/// The segments of `/` followed by `s`: an empty one, then those of `s`.
pub proof fn lemma_split_after_slash(s: Seq<char>)
    ensures
        split_slash(seq!['/'] + s) == seq![Seq::<char>::empty()] + split_slash(s),
    decreases s.len(),
{
    let t = seq!['/'] + s;
    if s.len() == 0 {
        assert(t =~= seq!['/']);
        assert(t.drop_last() =~= Seq::<char>::empty());
        assert(t.last() == '/');
        assert(s =~= Seq::<char>::empty());
        assert(split_slash(Seq::<char>::empty()) == seq![Seq::<char>::empty()]);
        assert(split_slash(t) == split_slash(t.drop_last()).push(Seq::<char>::empty()));
        assert(split_slash(t) =~= seq![Seq::<char>::empty()] + split_slash(s));
    } else {
        lemma_split_after_slash(s.drop_last());
        assert(t.drop_last() =~= seq!['/'] + s.drop_last());
        assert(t.last() == s.last());
        lemma_split_slash_nonempty(s.drop_last());
        let p = split_slash(s.drop_last());
        let q = seq![Seq::<char>::empty()] + p;
        if s.last() == '/' {
            assert(q.push(Seq::<char>::empty()) =~= seq![Seq::<char>::empty()] + p.push(
                Seq::<char>::empty(),
            ));
        } else {
            assert(q.update(q.len() - 1, q.last().push(s.last())) =~= seq![
                Seq::<char>::empty(),
            ] + p.update(p.len() - 1, p.last().push(s.last())));
        }
    }
}

/// Splits `s[start..]` at every `/`.
pub fn split_from(s: &Vec<char>, start: usize) -> (r: Vec<Vec<char>>)
    requires
        start <= s.len(),
    ensures
        views(r@) == split_slash(s@.subrange(start as int, s.len() as int)),
{
    let mut done: Vec<Vec<char>> = Vec::new();
    let mut cur: Vec<char> = Vec::new();
    let mut i = start;
    proof {
        assert(s@.subrange(start as int, start as int) =~= Seq::<char>::empty());
    }
    while i < s.len()
        invariant
            start <= i <= s.len(),
            views(done@).push(cur@) == split_slash(s@.subrange(start as int, i as int)),
        decreases s.len() - i,
    {
        let c = s[i];
        proof {
            let t = s@.subrange(start as int, i as int + 1);
            assert(t.drop_last() =~= s@.subrange(start as int, i as int));
            lemma_split_slash_nonempty(t.drop_last());
        }
        if c == '/' {
            let old_cur = cur;
            cur = Vec::new();
            let ghost before = views(done@);
            done.push(old_cur);
            proof {
                assert(views(done@) =~= before.push(old_cur@));
            }
        } else {
            let ghost before = views(done@);
            cur.push(c);
            proof {
                assert(views(done@) =~= before);
            }
        }
        i = i + 1;
        proof {
            let t = s@.subrange(start as int, i as int);
            assert(t.last() == c);
            assert(views(done@).push(cur@) =~= split_slash(t));
        }
    }
    let ghost before = views(done@);
    done.push(cur);
    proof {
        assert(views(done@) =~= before.push(cur@));
    }
    done
}

/// A copy of `s[lo..hi]`.
pub fn copy_range(s: &Vec<char>, lo: usize, hi: usize) -> (r: Vec<char>)
    requires
        lo <= hi <= s.len(),
    ensures
        r@ == s@.subrange(lo as int, hi as int),
{
    let mut r: Vec<char> = Vec::new();
    let mut i = lo;
    while i < hi
        invariant
            lo <= i <= hi <= s.len(),
            r@ == s@.subrange(lo as int, i as int),
        decreases hi - i,
    {
        r.push(s[i]);
        i = i + 1;
        proof {
            assert(r@ =~= s@.subrange(lo as int, i as int));
        }
    }
    r
}

/// No character of `s` is a brace.
pub open spec fn no_braces(s: Seq<char>) -> bool {
    forall|i: int| 0 <= i < s.len() ==> s[i] != '{' && s[i] != '}'
}

/// Whether `s[lo..hi]` holds no brace.
pub fn range_has_no_braces(s: &Vec<char>, lo: usize, hi: usize) -> (r: bool)
    requires
        lo <= hi <= s.len(),
    ensures
        r == no_braces(s@.subrange(lo as int, hi as int)),
{
    let mut i = lo;
    while i < hi
        invariant
            lo <= i <= hi <= s.len(),
            no_braces(s@.subrange(lo as int, i as int)),
        decreases hi - i,
    {
        if s[i] == '{' || s[i] == '}' {
            assert(s@.subrange(lo as int, hi as int)[i - lo] == s@[i as int]);
            return false;
        }
        i = i + 1;
        assert forall|k: int| 0 <= k < i - lo implies s@.subrange(lo as int, i as int)[k] != '{'
            && s@.subrange(lo as int, i as int)[k] != '}' by {
            if k < i - 1 - lo {
                assert(s@.subrange(lo as int, i - 1)[k] == s@[lo + k]);
            }
        }
    }
    true
}

/// One segment of a route pattern.
#[derive(Debug)]
pub enum Segment {
    /// Matches exactly this text.
    Static(Vec<char>),
    /// `{name}`: matches any one non-empty segment and captures it under `name`.
    Param(Vec<char>),
    /// `{*name}`: matches all the rest of a path, if that rest is not empty.
    Wildcard(Vec<char>),
}

/// The mathematical form of a [`Segment`].
pub enum PatSeg {
    Static(Seq<char>),
    Param(Seq<char>),
    Wildcard(Seq<char>),
}

impl View for Segment {
    type V = PatSeg;

    open spec fn view(&self) -> PatSeg {
        match self {
            Segment::Static(s) => PatSeg::Static(s@),
            Segment::Param(s) => PatSeg::Param(s@),
            Segment::Wildcard(s) => PatSeg::Wildcard(s@),
        }
    }
}

impl Segment {
    pub fn clone_segment(&self) -> (r: Segment)
        ensures
            r@ == self@,
    {
        match self {
            Segment::Static(s) => Segment::Static(s.clone()),
            Segment::Param(s) => Segment::Param(s.clone()),
            Segment::Wildcard(s) => Segment::Wildcard(s.clone()),
        }
    }
}

/// What the text of one pattern segment means: a wildcard `{*name}`, a
/// capture `{name}`, or static text; `None` where braces are misused or a
/// name is empty.
pub open spec fn parse_segment(s: Seq<char>) -> Option<PatSeg> {
    if s.len() >= 3 && s[0] == '{' && s[1] == '*' && s.last() == '}' {
        let name = s.subrange(2, s.len() - 1);
        if name.len() > 0 && no_braces(name) {
            Some(PatSeg::Wildcard(name))
        } else {
            None
        }
    } else if s.len() >= 2 && s[0] == '{' && s.last() == '}' {
        let name = s.subrange(1, s.len() - 1);
        if name.len() > 0 && no_braces(name) {
            Some(PatSeg::Param(name))
        } else {
            None
        }
    } else if no_braces(s) {
        Some(PatSeg::Static(s))
    } else {
        None
    }
}

/// Parses the text of one pattern segment.
pub fn parse_segment_exec(s: &Vec<char>) -> (r: Option<Segment>)
    ensures
        match r {
            Some(seg) => parse_segment(s@) == Some(seg@),
            None => parse_segment(s@) is None,
        },
{
    let n = s.len();
    proof {
        assert(s@.subrange(0, n as int) =~= s@);
    }
    if n >= 3 && s[0] == '{' && s[1] == '*' && s[n - 1] == '}' {
        if n - 1 > 2 && range_has_no_braces(s, 2, n - 1) {
            Some(Segment::Wildcard(copy_range(s, 2, n - 1)))
        } else {
            None
        }
    } else if n >= 2 && s[0] == '{' && s[n - 1] == '}' {
        if n - 1 > 1 && range_has_no_braces(s, 1, n - 1) {
            Some(Segment::Param(copy_range(s, 1, n - 1)))
        } else {
            None
        }
    } else if range_has_no_braces(s, 0, n) {
        Some(Segment::Static(s.clone()))
    } else {
        None
    }
}

/// A parsed pattern: every segment parses, and a wildcard stands only last.
pub open spec fn segments_valid(segs: Seq<Seq<char>>) -> bool {
    &&& forall|i: int| 0 <= i < segs.len() ==> (#[trigger] parse_segment(segs[i])) is Some
    &&& forall|i: int|
        0 <= i < segs.len() - 1 ==> !((#[trigger] parse_segment(segs[i]))->0 is Wildcard)
}

/// The segments of the pattern `p` (which starts with `/`), or `None` where
/// a segment does not parse or a wildcard is not the last segment.
pub open spec fn parse_pattern(p: Seq<char>) -> Option<Seq<PatSeg>> {
    let segs = split_slash(p.drop_first());
    if segments_valid(segs) {
        Some(segs.map_values(|s: Seq<char>| parse_segment(s)->0))
    } else {
        None
    }
}

/// The views of a vector of segments.
pub open spec fn seg_views(v: Seq<Segment>) -> Seq<PatSeg> {
    v.map_values(|s: Segment| s@)
}

/// Parses a pattern that starts with `/`.
pub fn parse_pattern_exec(p: &Vec<char>) -> (r: Option<Vec<Segment>>)
    requires
        p.len() >= 1,
    ensures
        match r {
            Some(v) => parse_pattern(p@) == Some(seg_views(v@)),
            None => parse_pattern(p@) is None,
        },
{
    let raw = split_from(p, 1);
    let ghost segs = split_slash(p@.drop_first());
    proof {
        assert(p@.subrange(1, p.len() as int) =~= p@.drop_first());
        lemma_split_slash_nonempty(p@.drop_first());
    }
    let mut out: Vec<Segment> = Vec::new();
    let mut i: usize = 0;
    while i < raw.len()
        invariant
            views(raw@) == segs,
            segs == split_slash(p@.drop_first()),
            i <= raw.len(),
            out.len() == i,
            forall|k: int| 0 <= k < i ==> parse_segment(segs[k]) == Some(#[trigger] out@[k]@),
            forall|k: int| 0 <= k < i && k < segs.len() - 1 ==> !(out@[k]@ is Wildcard),
        decreases raw.len() - i,
    {
        assert(raw@[i as int]@ == segs[i as int]);
        match parse_segment_exec(&raw[i]) {
            Some(seg) => {
                let is_wild = match &seg {
                    Segment::Wildcard(_) => true,
                    _ => false,
                };
                if is_wild && i + 1 < raw.len() {
                    assert(!segments_valid(segs)) by {
                        assert(parse_segment(segs[i as int])->0 is Wildcard);
                    }
                    return None;
                }
                out.push(seg);
            },
            None => {
                assert(!segments_valid(segs)) by {
                    assert(parse_segment(segs[i as int]) is None);
                }
                return None;
            },
        }
        i = i + 1;
    }
    proof {
        assert forall|k: int| 0 <= k < segs.len() - 1 implies !((#[trigger] parse_segment(
            segs[k]))->0 is Wildcard) by {
            assert(parse_segment(segs[k]) == Some(out@[k]@));
        }
        assert forall|k: int| 0 <= k < segs.len() implies (#[trigger] parse_segment(
            segs[k])) is Some by {
            assert(parse_segment(segs[k]) == Some(out@[k]@));
        }
        assert(segments_valid(segs));
        assert(seg_views(out@) =~= segs.map_values(|s: Seq<char>| parse_segment(s)->0));
    }
    Some(out)
}

/// The error of the first segment that starts with `:` or `*`, if any.
pub open spec fn v07_error(segs: Seq<Seq<char>>) -> Option<RouteError>
    decreases segs.len(),
{
    if segs.len() == 0 {
        None
    } else if segs[0].len() > 0 && segs[0][0] == ':' {
        Some(RouteError::ColonSegment)
    } else if segs[0].len() > 0 && segs[0][0] == '*' {
        Some(RouteError::AsteriskSegment)
    } else {
        v07_error(segs.drop_first())
    }
}

/// Looks for a segment in the old syntax (`:name` or `*name`).
pub fn v07_check(segs: &Vec<Vec<char>>) -> (r: Option<RouteError>)
    ensures
        r == v07_error(views(segs@)),
{
    let ghost all = views(segs@);
    let mut i: usize = 0;
    proof {
        assert(all.skip(0) =~= all);
    }
    while i < segs.len()
        invariant
            all == views(segs@),
            i <= segs.len(),
            v07_error(all) == v07_error(all.skip(i as int)),
        decreases segs.len() - i,
    {
        let seg = &segs[i];
        assert(all.skip(i as int)[0] == seg@);
        if seg.len() > 0 && seg[0] == ':' {
            return Some(RouteError::ColonSegment);
        }
        if seg.len() > 0 && seg[0] == '*' {
            return Some(RouteError::AsteriskSegment);
        }
        assert(all.skip(i as int).drop_first() =~= all.skip(i + 1));
        i = i + 1;
    }
    assert(all.skip(i as int) =~= Seq::<Seq<char>>::empty());
    None
}

/// What registering the path `p` fails with before its segments are
/// parsed: an empty path, a path without a leading `/`, or (with the checks
/// for the old syntax on) a segment that starts with `:` or `*`.
pub open spec fn validate_path(v7_checks: bool, p: Seq<char>) -> Option<RouteError> {
    if p.len() == 0 {
        Some(RouteError::EmptyPath)
    } else if p[0] != '/' {
        Some(RouteError::MissingLeadingSlash)
    } else if v7_checks {
        v07_error(split_slash(p))
    } else {
        None
    }
}

pub fn validate_path_exec(v7_checks: bool, p: &Vec<char>) -> (r: Option<RouteError>)
    ensures
        r == validate_path(v7_checks, p@),
{
    if p.len() == 0 {
        Some(RouteError::EmptyPath)
    } else if p[0] != '/' {
        Some(RouteError::MissingLeadingSlash)
    } else if v7_checks {
        let segs = split_from(p, 0);
        proof {
            assert(p@.subrange(0, p.len() as int) =~= p@);
        }
        v07_check(&segs)
    } else {
        None
    }
}

/// A segment of the form `{*name}`, as the nesting check sees it.
pub open spec fn is_wildcard_text(s: Seq<char>) -> bool {
    s.len() >= 2 && s[0] == '{' && s[1] == '*' && s.last() == '}' && s[s.len() - 2] != '}'
}

/// What nesting at the path `p` fails with: a path without a leading `/`,
/// the root, a wildcard segment, or (with the checks for the old syntax on)
/// a segment that starts with `:` or `*`.
pub open spec fn validate_nest_path(v7_checks: bool, p: Seq<char>) -> Option<RouteError> {
    if p.len() == 0 || p[0] != '/' {
        Some(RouteError::MissingLeadingSlash)
    } else if p.len() <= 1 {
        Some(RouteError::NestAtRoot)
    } else if exists|i: int|
        0 <= i < split_slash(p).len() && is_wildcard_text(#[trigger] split_slash(p)[i]) {
        Some(RouteError::NestWildcard)
    } else if v7_checks {
        v07_error(split_slash(p))
    } else {
        None
    }
}

pub fn validate_nest_path_exec(v7_checks: bool, p: &Vec<char>) -> (r: Option<RouteError>)
    ensures
        r == validate_nest_path(v7_checks, p@),
{
    if p.len() == 0 || p[0] != '/' {
        return Some(RouteError::MissingLeadingSlash);
    }
    if p.len() <= 1 {
        return Some(RouteError::NestAtRoot);
    }
    let segs = split_from(p, 0);
    proof {
        assert(p@.subrange(0, p.len() as int) =~= p@);
    }
    let ghost all = views(segs@);
    let mut i: usize = 0;
    while i < segs.len()
        invariant
            all == views(segs@),
            all == split_slash(p@),
            p@.len() > 1,
            p@[0] == '/',
            i <= segs.len(),
            forall|k: int| 0 <= k < i ==> !is_wildcard_text(#[trigger] all[k]),
        decreases segs.len() - i,
    {
        let s = &segs[i];
        assert(all[i as int] == s@);
        let n = s.len();
        if n >= 2 && s[0] == '{' && s[1] == '*' && s[n - 1] == '}' && s[n - 2] != '}' {
            assert(is_wildcard_text(split_slash(p@)[i as int]));
            assert(exists|j: int|
                0 <= j < split_slash(p@).len() && is_wildcard_text(#[trigger] split_slash(p@)[j]));
            return Some(RouteError::NestWildcard);
        }
        i = i + 1;
    }
    if v7_checks {
        v07_check(&segs)
    } else {
        None
    }
}

/// `s` without its leading slashes.
pub open spec fn trim_leading_slashes(s: Seq<char>) -> Seq<char>
    decreases s.len(),
{
    if s.len() > 0 && s[0] == '/' {
        trim_leading_slashes(s.drop_first())
    } else {
        s
    }
}

/// How many `/` characters `s` holds.
pub open spec fn slash_count(s: Seq<char>) -> nat
    decreases s.len(),
{
    if s.len() == 0 {
        0
    } else {
        slash_count(s.drop_last()) + if s.last() == '/' {
            1nat
        } else {
            0nat
        }
    }
}

/// The number of segments of the prefix `p` that a router or service nested
/// at `p` does not see: its `/` characters, not counting one that ends it.
pub open spec fn prefix_depth(p: Seq<char>) -> nat {
    if p.len() > 0 && p.last() == '/' {
        (slash_count(p) - 1) as nat
    } else {
        slash_count(p)
    }
}

pub fn prefix_depth_exec(p: &Vec<char>) -> (r: usize)
    ensures
        r == prefix_depth(p@),
{
    let mut count: usize = 0;
    let mut i: usize = 0;
    while i < p.len()
        invariant
            i <= p.len(),
            count <= i,
            count == slash_count(p@.take(i as int)),
        decreases p.len() - i,
    {
        assert(p@.take(i + 1).drop_last() =~= p@.take(i as int));
        if p[i] == '/' {
            count = count + 1;
        }
        i = i + 1;
    }
    assert(p@.take(i as int) =~= p@);
    if p.len() > 0 && p[p.len() - 1] == '/' {
        count - 1
    } else {
        count
    }
}

/// The path `s` (which starts with `/`) without its first `k` segments:
/// what a service nested under a prefix of `k` segments sees. Where nothing
/// is left, it is `/`.
pub open spec fn strip_segments(s: Seq<char>, k: nat) -> Seq<char>
    decreases s.len(),
{
    if k == 0 {
        s
    } else if s.len() <= 1 {
        seq!['/']
    } else if s[1] == '/' {
        strip_segments(s.drop_first(), (k - 1) as nat)
    } else {
        strip_segments(seq!['/'] + s.skip(2), k)
    }
}

/// The path that a service nested under a prefix of `k` segments sees of a
/// request to `path`: the path itself where it does not start with `/`.
pub open spec fn seen_path(path: Seq<char>, k: nat) -> Seq<char> {
    if path.len() > 0 && path[0] == '/' {
        strip_segments(path, k)
    } else {
        path
    }
}

/// The path that a service nested under a prefix of `k` segments sees.
pub fn seen_path_exec(path: &Vec<char>, k: usize) -> (r: Vec<char>)
    ensures
        r@ == seen_path(path@, k as nat),
{
    if !(path.len() > 0 && path[0] == '/') || k == 0 {
        return path.clone();
    }
    let mut rem: usize = k;
    let mut i: usize = 1;
    proof {
        assert(seq!['/'] + path@.skip(1) =~= path@);
    }
    while rem > 0 && i < path.len()
        invariant
            1 <= i <= path.len(),
            strip_segments(path@, k as nat) == strip_segments(
                seq!['/'] + path@.skip(i as int),
                rem as nat,
            ),
        decreases path.len() - i,
    {
        let ghost cur = seq!['/'] + path@.skip(i as int);
        assert(cur[1] == path@[i as int]);
        if path[i] == '/' {
            assert(cur.drop_first() =~= seq!['/'] + path@.skip(i + 1));
            rem = rem - 1;
        } else {
            assert(seq!['/'] + cur.skip(2) =~= seq!['/'] + path@.skip(i + 1));
        }
        i = i + 1;
    }
    let mut r: Vec<char> = vec!['/'];
    if rem > 0 {
        assert(path@.skip(i as int).len() == 0);
        assert(seq!['/'] + path@.skip(i as int) =~= seq!['/']);
        return r;
    }
    let mut j: usize = i;
    while j < path.len()
        invariant
            i <= j <= path.len(),
            r@ == seq!['/'] + path@.subrange(i as int, j as int),
        decreases path.len() - j,
    {
        r.push(path[j]);
        j = j + 1;
        assert(r@ =~= seq!['/'] + path@.subrange(i as int, j as int));
    }
    assert(path@.subrange(i as int, j as int) =~= path@.skip(i as int));
    r
}

/// The path at which a route registered at `path` inside a router nested at
/// `prefix` is registered in the outer router.
pub open spec fn nested_path(prefix: Seq<char>, path: Seq<char>) -> Seq<char> {
    if prefix.len() > 0 && prefix.last() == '/' {
        prefix + trim_leading_slashes(path)
    } else if path == seq!['/'] {
        prefix
    } else {
        prefix + path
    }
}

pub fn nested_path_exec(prefix: &Vec<char>, path: &Vec<char>) -> (r: Vec<char>)
    ensures
        r@ == nested_path(prefix@, path@),
{
    let mut r = prefix.clone();
    let n = prefix.len();
    if n > 0 && prefix[n - 1] == '/' {
        let mut i: usize = 0;
        proof {
            assert(path@.skip(0) =~= path@);
        }
        while i < path.len() && path[i] == '/'
            invariant
                i <= path.len(),
                trim_leading_slashes(path@) == trim_leading_slashes(path@.skip(i as int)),
            decreases path.len() - i,
        {
            assert(path@.skip(i as int).drop_first() =~= path@.skip(i + 1));
            i = i + 1;
        }
        let ghost base = r@;
        while i < path.len()
            invariant
                i <= path.len(),
                r@ + path@.skip(i as int) == base + trim_leading_slashes(path@),
            decreases path.len() - i,
        {
            let ghost before = r@;
            r.push(path[i]);
            assert(before + path@.skip(i as int) =~= r@ + path@.skip(i + 1));
            i = i + 1;
        }
        assert(r@ + path@.skip(i as int) =~= r@);
        r
    } else if path.len() == 1 && path[0] == '/' {
        assert(path@ =~= seq!['/']);
        r
    } else {
        proof {
            if path@ == seq!['/'] {
                assert(path@.len() == 1 && path@[0] == '/');
            }
        }
        let mut i: usize = 0;
        let ghost base = r@;
        while i < path.len()
            invariant
                i <= path.len(),
                r@ == base + path@.take(i as int),
            decreases path.len() - i,
        {
            r.push(path[i]);
            i = i + 1;
            assert(r@ =~= base + path@.take(i as int));
        }
        assert(path@.take(i as int) =~= path@);
        r
    }
}

} // verus!
