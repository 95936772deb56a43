//! Laws of the path operations: what the path a nested service sees, the
//! path a nested route is registered at, and the checks of the old syntax
//! say of every input.

use vstd::prelude::*;

use crate::error::RouteError;
use crate::path::{
    nested_path, prefix_depth, seen_path, slash_count, split_slash, strip_segments, trim_leading_slashes,
    v07_error, validate_path,
};

verus! {

/// The `/` characters of two paths put together are those of each.
pub proof fn lemma_slash_count_concat(a: Seq<char>, b: Seq<char>)
    ensures
        slash_count(a + b) == slash_count(a) + slash_count(b),
    decreases b.len(),
{
    if b.len() == 0 {
        assert(a + b =~= a);
    } else {
        assert((a + b).drop_last() =~= a + b.drop_last());
        lemma_slash_count_concat(a, b.drop_last());
    }
}

pub proof fn lemma_slash_count_one(c: char)
    ensures
        slash_count(seq![c]) == if c == '/' {
            1nat
        } else {
            0nat
        },
{
    assert(seq![c].drop_last() =~= Seq::<char>::empty());
    assert(slash_count(Seq::<char>::empty()) == 0);
}

/// A path that starts with `/` holds at least that one.
proof fn lemma_slash_count_leading(s: Seq<char>)
    requires
        s.len() > 0,
        s[0] == '/',
    ensures
        slash_count(s) == 1 + slash_count(s.drop_first()),
{
    assert(seq![s[0]] + s.drop_first() =~= s);
    lemma_slash_count_concat(seq![s[0]], s.drop_first());
    lemma_slash_count_one(s[0]);
}

proof fn lemma_strip_segments(s: Seq<char>, k: nat)
    requires
        s.len() > 0,
        s[0] == '/',
    ensures
        slash_count(s) > k ==> exists|i: int|
            0 <= i < s.len() && s[i] == '/' && slash_count(#[trigger] s.take(i)) == k
                && strip_segments(s, k) == s.skip(i),
        k > 0 && slash_count(s) <= k ==> strip_segments(s, k) == seq!['/'],
    decreases s.len(),
{
    lemma_slash_count_leading(s);
    if k == 0 {
        assert(s.take(0) =~= Seq::<char>::empty());
        assert(s.skip(0) =~= s);
    } else if s.len() <= 1 {
        assert(s.drop_first() =~= Seq::<char>::empty());
    } else if s[1] == '/' {
        let d = s.drop_first();
        lemma_strip_segments(d, (k - 1) as nat);
        lemma_slash_count_leading(d);
        if slash_count(s) > k {
            let i2 = choose|i: int|
                0 <= i < d.len() && d[i] == '/' && slash_count(#[trigger] d.take(i)) == k - 1
                    && strip_segments(d, (k - 1) as nat) == d.skip(i);
            let i = i2 + 1;
            assert(s.take(i) =~= seq![s[0]] + d.take(i2));
            lemma_slash_count_concat(seq![s[0]], d.take(i2));
            lemma_slash_count_one(s[0]);
            assert(s.skip(i) =~= d.skip(i2));
            assert(s[i] == '/');
        }
    } else {
        let t = seq!['/'] + s.skip(2);
        assert(t.len() == s.len() - 1);
        assert(s.take(2) + s.skip(2) =~= s);
        lemma_slash_count_concat(s.take(2), s.skip(2));
        lemma_slash_count_concat(seq!['/'], s.skip(2));
        lemma_slash_count_one('/');
        lemma_slash_count_one(s[1]);
        assert(s.take(2) =~= seq![s[0]] + seq![s[1]]);
        lemma_slash_count_concat(seq![s[0]], seq![s[1]]);
        assert(slash_count(s.take(2)) == 1);
        assert(slash_count(t) == slash_count(s));
        lemma_strip_segments(t, k);
        if slash_count(s) > k {
            let i2 = choose|i: int|
                0 <= i < t.len() && t[i] == '/' && slash_count(#[trigger] t.take(i)) == k
                    && strip_segments(t, k) == t.skip(i);
            if i2 == 0 {
                assert(t.take(0) =~= Seq::<char>::empty());
            }
            assert(i2 >= 1);
            let i = i2 + 1;
            let mid = s.skip(2).take(i2 - 1);
            assert(t.take(i2) =~= seq!['/'] + mid);
            assert(s.take(i) =~= s.take(2) + mid);
            lemma_slash_count_concat(seq!['/'], mid);
            lemma_slash_count_concat(s.take(2), mid);
            assert(s.skip(i) =~= t.skip(i2));
            assert(s[i] == t[i2]);
            assert(slash_count(s.take(i)) == k);
        }
    }
}

/// What a service nested under a prefix of `k` segments sees of a request
/// path `p` (that starts with `/`) is the rest of `p` after its first `k`
/// segments, character for character: a suffix of `p` that starts at a `/`
/// with exactly `k` `/` before it, so that the stripped prefix followed by
/// the path seen gives `p` back. Where `p` has no more than `k` segments,
/// the service sees `/`.
pub proof fn lemma_seen_path_is_the_rest(p: Seq<char>, k: nat)
    requires
        p.len() > 0,
        p[0] == '/',
    ensures
        slash_count(p) > k ==> exists|i: int|
            0 <= i < p.len() && p[i] == '/' && slash_count(#[trigger] p.take(i)) == k
                && seen_path(p, k) == p.skip(i) && p.take(i) + seen_path(p, k) == p,
        k > 0 && slash_count(p) <= k ==> seen_path(p, k) == seq!['/'],
{
    lemma_strip_segments(p, k);
    if slash_count(p) > k {
        let i = choose|i: int|
            0 <= i < p.len() && p[i] == '/' && slash_count(#[trigger] p.take(i)) == k
                && strip_segments(p, k) == p.skip(i);
        assert(p.take(i) + p.skip(i) =~= p);
    }
}

proof fn lemma_trim_leading_slashes(q: Seq<char>) -> (n: int)
    ensures
        0 <= n <= q.len(),
        forall|j: int| 0 <= j < n ==> #[trigger] q[j] == '/',
        n == q.len() || q[n] != '/',
        trim_leading_slashes(q) == q.skip(n),
    decreases q.len(),
{
    if q.len() > 0 && q[0] == '/' {
        let d = q.drop_first();
        let m = lemma_trim_leading_slashes(d);
        assert(d.skip(m) =~= q.skip(m + 1));
        assert forall|j: int| 0 <= j < m + 1 implies #[trigger] q[j] == '/' by {
            if j > 0 {
                assert(q[j] == d[j - 1]);
            }
        }
        if m + 1 < q.len() {
            assert(q[m + 1] == d[m]);
        }
        m + 1
    } else {
        assert(q.skip(0) =~= q);
        0
    }
}

/// A route registered at `q` in a router nested at `p` is registered at
/// the text of `p` and then that of `q`, with exactly one `/` between them:
/// where `p` ends with `/`, the slashes that start `q` are dropped; nested
/// at `/`, the route is registered at the prefix itself.
pub proof fn lemma_nested_path_joins(p: Seq<char>, q: Seq<char>)
    requires
        p.len() > 0,
        q.len() > 0,
        q[0] == '/',
    ensures
        p.last() == '/' ==> exists|n: int|
            #![trigger q.skip(n)]
            1 <= n <= q.len() && (forall|j: int| 0 <= j < n ==> #[trigger] q[j] == '/') && (n == q.len()
                || q[n] != '/') && nested_path(p, q) == p + q.skip(n),
        p.last() == '/' && (q.len() == 1 || q[1] != '/') ==> nested_path(p, q) == p.drop_last() + q,
        p.last() != '/' ==> nested_path(p, q) == if q == seq!['/'] {
            p
        } else {
            p + q
        },
{
    let n = lemma_trim_leading_slashes(q);
    if n == 0 {
        assert(q[0] == '/');
    }
    if p.last() == '/' {
        assert(nested_path(p, q) == p + q.skip(n));
    }
    if p.last() == '/' && (q.len() == 1 || q[1] != '/') {
        if n > 1 {
            assert(q[1] == '/');
        }
        assert(n == 1);
        assert(p + q.skip(1) =~= p.drop_last() + q);
    }
}

/// A segment in the syntax of the older version: `:name` or `*name`.
pub open spec fn old_syntax(seg: Seq<char>) -> bool {
    seg.len() > 0 && (seg[0] == ':' || seg[0] == '*')
}

proof fn lemma_v07_error_first(segs: Seq<Seq<char>>, i: int)
    requires
        0 <= i <= segs.len(),
        forall|j: int| 0 <= j < i ==> !old_syntax(#[trigger] segs[j]),
        i < segs.len() ==> old_syntax(segs[i]),
    ensures
        v07_error(segs) == if i == segs.len() {
            None::<RouteError>
        } else if segs[i][0] == ':' {
            Some(RouteError::ColonSegment)
        } else {
            Some(RouteError::AsteriskSegment)
        },
    decreases i,
{
    if i > 0 {
        assert(!old_syntax(segs[0]));
        let rest = segs.drop_first();
        assert forall|j: int| 0 <= j < i - 1 implies !old_syntax(#[trigger] rest[j]) by {
            assert(rest[j] == segs[j + 1]);
        }
        if i < segs.len() {
            assert(rest[i - 1] == segs[i]);
        }
        lemma_v07_error_first(rest, i - 1);
    }
}

/// With the checks for the old syntax on, a path is refused exactly when one
/// of its segments is in that syntax, whichever segment it is, and the
/// error names the kind of the first such segment.
pub proof fn lemma_old_syntax_refused(p: Seq<char>)
    requires
        p.len() > 0,
        p[0] == '/',
    ensures
        (forall|j: int| 0 <= j < split_slash(p).len() ==> !old_syntax(#[trigger] split_slash(p)[j]))
            ==> validate_path(true, p) is None,
        forall|i: int|
            0 <= i < split_slash(p).len() && old_syntax(#[trigger] split_slash(p)[i]) && (forall|j: int|
                0 <= j < i ==> !old_syntax(#[trigger] split_slash(p)[j])) ==> validate_path(true, p)
                == Some(
                if split_slash(p)[i][0] == ':' {
                    RouteError::ColonSegment
                } else {
                    RouteError::AsteriskSegment
                },
            ),
{
    let segs = split_slash(p);
    if forall|j: int| 0 <= j < segs.len() ==> !old_syntax(#[trigger] segs[j]) {
        lemma_v07_error_first(segs, segs.len() as int);
    }
    assert forall|i: int|
        0 <= i < segs.len() && old_syntax(#[trigger] segs[i]) && (forall|j: int|
            0 <= j < i ==> !old_syntax(#[trigger] segs[j])) implies validate_path(true, p) == Some(
        if segs[i][0] == ':' {
            RouteError::ColonSegment
        } else {
            RouteError::AsteriskSegment
        },
    ) by {
        lemma_v07_error_first(segs, i);
    }
}

/// A path without `/` holds none.
pub proof fn lemma_slash_count_none(s: Seq<char>)
    requires
        forall|i: int| 0 <= i < s.len() ==> s[i] != '/',
    ensures
        slash_count(s) == 0,
    decreases s.len(),
{
    if s.len() > 0 {
        lemma_slash_count_none(s.drop_last());
    }
}

/// A request path that does not start with `/` is seen as it is.
pub proof fn lemma_seen_path_of_other_paths(p: Seq<char>, k: nat)
    requires
        !(p.len() > 0 && p[0] == '/'),
    ensures
        seen_path(p, k) == p,
{
}

/// Where `t` holds exactly `k` `/`, and `s[i]` is a `/` preceded by `k` of
/// them, `i` is where `t` ends in `t` followed by a path starting with `/`.
proof fn lemma_slash_position(t: Seq<char>, r: Seq<char>, i: int)
    requires
        r.len() > 0,
        r[0] == '/',
        0 <= i < (t + r).len(),
        (t + r)[i] == '/',
        slash_count((t + r).take(i)) == slash_count(t),
    ensures
        i == t.len(),
{
    let s = t + r;
    if i < t.len() {
        assert(t =~= s.take(i) + t.skip(i));
        lemma_slash_count_concat(s.take(i), t.skip(i));
        assert(t.skip(i) =~= seq!['/'] + t.skip(i + 1));
        lemma_slash_count_concat(seq!['/'], t.skip(i + 1));
        lemma_slash_count_one('/');
    } else if i > t.len() {
        assert(s.take(i) =~= t + (seq!['/'] + r.skip(1).take(i - t.len() - 1)));
        lemma_slash_count_concat(t, seq!['/'] + r.skip(1).take(i - t.len() - 1));
        lemma_slash_count_concat(seq!['/'], r.skip(1).take(i - t.len() - 1));
        lemma_slash_count_one('/');
    }
}

/// A service nested at the prefix `p` sees, of a request to `p` followed by
/// a path `r`, exactly `r` (where `p` does not end with `/` and `r` starts
/// with one), or `/` followed by `r` (where `p` ends with `/`).
pub proof fn lemma_nested_service_sees_the_rest(p: Seq<char>, r: Seq<char>)
    requires
        p.len() > 1,
        p[0] == '/',
    ensures
        p.last() != '/' && r.len() > 0 && r[0] == '/' ==> seen_path(p + r, prefix_depth(p)) == r,
        p.last() == '/' ==> seen_path(p + r, prefix_depth(p)) == seq!['/'] + r,
{
    let s = p + r;
    let k = prefix_depth(p);
    assert(s[0] == '/');
    lemma_slash_count_concat(p, r);
    if p.last() != '/' && r.len() > 0 && r[0] == '/' {
        assert(r =~= seq!['/'] + r.skip(1));
        lemma_slash_count_concat(seq!['/'], r.skip(1));
        lemma_slash_count_one('/');
        lemma_seen_path_is_the_rest(s, k);
        let i = choose|i: int|
            0 <= i < s.len() && s[i] == '/' && slash_count(#[trigger] s.take(i)) == k
                && seen_path(s, k) == s.skip(i) && s.take(i) + seen_path(s, k) == s;
        lemma_slash_position(p, r, i);
        assert(s.skip(i) =~= r);
    }
    if p.last() == '/' {
        let t = p.drop_last();
        let r2 = seq!['/'] + r;
        assert(s =~= t + r2);
        assert(p =~= t + seq!['/']);
        lemma_slash_count_concat(t, seq!['/']);
        lemma_slash_count_one('/');
        assert(k == slash_count(t));
        lemma_slash_count_concat(t, r2);
        lemma_slash_count_concat(seq!['/'], r);
        lemma_seen_path_is_the_rest(s, k);
        let i = choose|i: int|
            0 <= i < s.len() && s[i] == '/' && slash_count(#[trigger] s.take(i)) == k
                && seen_path(s, k) == s.skip(i) && s.take(i) + seen_path(s, k) == s;
        lemma_slash_position(t, r2, i);
        assert(s.skip(i) =~= r2);
    }
}

} // verus!
