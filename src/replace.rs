use vstd::prelude::*;
use crate::identity::{IdentityTriple, Substitution, rule};

verus! {

/// `p` is non-empty and occurs in `s` starting at position `i`.
pub open spec fn occurs_at(s: Seq<char>, i: int, p: Seq<char>) -> bool {
    &&& p.len() > 0
    &&& 0 <= i
    &&& i + p.len() <= s.len()
    &&& s.subrange(i, i + p.len()) == p
}

/// Some placeholder of `t` occurs somewhere in `s`.
pub open spec fn mentions_any(s: Seq<char>, t: &IdentityTriple) -> bool {
    exists|i: int, k: int| 0 <= k < 3 && #[trigger] occurs_at(s, i, rule(t, k).0)
}

/// The substitution that applies at position `i` of `s`: the first of the
/// triple whose placeholder occurs there.
pub open spec fn hit(s: Seq<char>, i: int, t: &IdentityTriple) -> Option<(Seq<char>, Seq<char>)> {
    if occurs_at(s, i, rule(t, 0).0) {
        Some(rule(t, 0))
    } else if occurs_at(s, i, rule(t, 1).0) {
        Some(rule(t, 1))
    } else if occurs_at(s, i, rule(t, 2).0) {
        Some(rule(t, 2))
    } else {
        None
    }
}

/// `s` with every placeholder of `t` replaced in one left-to-right scan: at each
/// position the first matching placeholder is replaced and the scan resumes
/// after it, so replaced text is never scanned again.
pub open spec fn substitute(s: Seq<char>, t: &IdentityTriple) -> Seq<char>
    decreases s.len(),
{
    if s.len() == 0 {
        seq![]
    } else {
        match hit(s, 0, t) {
            Some(pr) => pr.1 + substitute(s.skip(pr.0.len() as int), t),
            None => seq![s[0]] + substitute(s.skip(1), t),
        }
    }
}

proof fn lemma_occurs_shift(s: Seq<char>, j: int, i: int, p: Seq<char>)
    requires
        0 <= j <= s.len(),
        0 <= i,
    ensures
        occurs_at(s.skip(j), i, p) == occurs_at(s, i + j, p),
{
    if occurs_at(s, i + j, p) {
        assert(s.skip(j).subrange(i, i + p.len()) =~= s.subrange(i + j, i + j + p.len()));
    }
    if occurs_at(s.skip(j), i, p) {
        assert(s.skip(j).subrange(i, i + p.len()) =~= s.subrange(i + j, i + j + p.len()));
    }
}

proof fn lemma_hit_shift(s: Seq<char>, j: int, i: int, t: &IdentityTriple)
    requires
        0 <= j <= s.len(),
        0 <= i,
    ensures
        hit(s.skip(j), i, t) == hit(s, i + j, t),
{
    lemma_occurs_shift(s, j, i, rule(t, 0).0);
    lemma_occurs_shift(s, j, i, rule(t, 1).0);
    lemma_occurs_shift(s, j, i, rule(t, 2).0);
}

/// Where no placeholder starts before position `n`, the first `n` characters
/// are kept as they are.
proof fn lemma_clean_prefix(s: Seq<char>, n: int, t: &IdentityTriple)
    requires
        0 <= n <= s.len(),
        forall|i: int| 0 <= i < n ==> #[trigger] hit(s, i, t) is None,
    ensures
        substitute(s, t) == s.take(n) + substitute(s.skip(n), t),
    decreases n,
{
    if n == 0 {
        assert(s.take(0) + substitute(s.skip(0), t) =~= substitute(s, t)) by {
            assert(s.skip(0) =~= s);
        }
    } else {
        let s1 = s.skip(1);
        assert(hit(s, 0, t) is None);
        assert forall|i: int| 0 <= i < n - 1 implies #[trigger] hit(s1, i, t) is None by {
            lemma_hit_shift(s, 1, i, t);
            assert(hit(s, i + 1, t) is None);
        }
        lemma_clean_prefix(s1, n - 1, t);
        assert(s1.skip(n - 1) =~= s.skip(n));
        assert(seq![s[0]] + s1.take(n - 1) =~= s.take(n));
        assert(substitute(s, t) == seq![s[0]] + substitute(s1, t));
        assert(substitute(s, t) =~= s.take(n) + substitute(s.skip(n), t));
    }
}

/// A text that holds no placeholder is left unchanged.
pub proof fn lemma_substitute_unmentioned(s: Seq<char>, t: &IdentityTriple)
    requires
        !mentions_any(s, t),
    ensures
        substitute(s, t) == s,
{
    assert forall|i: int| 0 <= i < s.len() implies #[trigger] hit(s, i, t) is None by {
        if occurs_at(s, i, rule(t, 0).0) {
            assert(mentions_any(s, t));
        }
        if occurs_at(s, i, rule(t, 1).0) {
            assert(mentions_any(s, t));
        }
        if occurs_at(s, i, rule(t, 2).0) {
            assert(mentions_any(s, t));
        }
    }
    lemma_clean_prefix(s, s.len() as int, t);
    assert(s.skip(s.len() as int) =~= Seq::<char>::empty());
    assert(s.take(s.len() as int) =~= s);
    assert(substitute(s, t) =~= s);
}

/// A text in which exactly one placeholder occurs exactly once, the `k`-th at
/// position `n`, comes out with that one occurrence replaced by the `k`-th
/// replacement and everything around it kept.
pub proof fn lemma_substitute_single(s: Seq<char>, t: &IdentityTriple, k: int, n: int)
    requires
        0 <= k < 3,
        occurs_at(s, n, rule(t, k).0),
        forall|i: int, j: int|
            0 <= j < 3 && #[trigger] occurs_at(s, i, rule(t, j).0) ==> i == n && j == k,
    ensures
        substitute(s, t) == s.take(n) + rule(t, k).1 + s.skip(n + rule(t, k).0.len()),
{
    let p = rule(t, k).0;
    let r = rule(t, k).1;
    assert forall|i: int| 0 <= i < n implies #[trigger] hit(s, i, t) is None by {
        if occurs_at(s, i, rule(t, 0).0) {
        }
        if occurs_at(s, i, rule(t, 1).0) {
        }
        if occurs_at(s, i, rule(t, 2).0) {
        }
    }
    lemma_clean_prefix(s, n, t);
    let rest = s.skip(n);
    lemma_hit_shift(s, n, 0, t);
    if k > 0 {
        assert(!occurs_at(s, n, rule(t, 0).0));
    }
    if k > 1 {
        assert(!occurs_at(s, n, rule(t, 1).0));
    }
    assert(hit(rest, 0, t) == Some(rule(t, k)));
    let tail = rest.skip(p.len() as int);
    assert(tail =~= s.skip(n + p.len()));
    assert(substitute(rest, t) == r + substitute(tail, t));
    assert forall|i: int, j: int| 0 <= j < 3 && #[trigger] occurs_at(tail, i, rule(t, j).0) implies false by {
        lemma_occurs_shift(s, n + p.len(), i, rule(t, j).0);
    }
    lemma_substitute_unmentioned(tail, t);
    assert(substitute(s, t) =~= s.take(n) + r + s.skip(n + p.len()));
}

/// Whether `p` is non-empty and occurs in `s` at position `i`.
pub fn occurs_at_exec(s: &Vec<char>, i: usize, p: &Vec<char>) -> (r: bool)
    ensures
        r == occurs_at(s@, i as int, p@),
{
    if i > s.len() || p.len() == 0 || p.len() > s.len() - i {
        return false;
    }
    let mut k: usize = 0;
    while k < p.len()
        invariant
            0 < p.len() <= s.len() - i,
            k <= p.len(),
            forall|m: int| 0 <= m < k ==> s@[i + m] == p@[m],
        decreases p.len() - k,
    {
        if s[i + k] != p[k] {
            assert(s@.subrange(i as int, i + p.len())[k as int] != p@[k as int]);
            return false;
        }
        k = k + 1;
    }
    assert(s@.subrange(i as int, i + p.len()) =~= p@);
    true
}

/// Appends the characters of `s` to `out`.
pub fn push_all(out: &mut Vec<char>, s: &Vec<char>)
    ensures
        final(out)@ == old(out)@ + s@,
{
    let mut k: usize = 0;
    while k < s.len()
        invariant
            k <= s.len(),
            out@ == old(out)@ + s@.take(k as int),
        decreases s.len() - k,
    {
        out.push(s[k]);
        k = k + 1;
        assert(out@ =~= old(out)@ + s@.take(k as int));
    }
    assert(s@.take(s.len() as int) =~= s@);
}

/// The substitution of `t` whose placeholder occurs first at position `i`, if any.
fn hit_exec<'a>(s: &Vec<char>, i: usize, t: &'a IdentityTriple) -> (r: Option<&'a Substitution>)
    requires
        i <= s.len(),
    ensures
        match hit(s@, i as int, t) {
            Some(pr) => r is Some && pr == (r->0.placeholder@, r->0.replacement@),
            None => r is None,
        },
{
    if occurs_at_exec(s, i, &t.class_name.placeholder) {
        Some(&t.class_name)
    } else if occurs_at_exec(s, i, &t.namespace.placeholder) {
        Some(&t.namespace)
    } else if occurs_at_exec(s, i, &t.display_name.placeholder) {
        Some(&t.display_name)
    } else {
        None
    }
}

/// Replaces every placeholder of `t` in `text` in one left-to-right scan.
pub fn substitute_all(text: &Vec<char>, t: &IdentityTriple) -> (r: Vec<char>)
    ensures
        r@ == substitute(text@, t),
{
    let mut out: Vec<char> = Vec::new();
    let mut i: usize = 0;
    assert(out@ + substitute(text@.skip(0), t) =~= substitute(text@, t)) by {
        assert(text@.skip(0) =~= text@);
    }
    while i < text.len()
        invariant
            i <= text.len(),
            out@ + substitute(text@.skip(i as int), t) == substitute(text@, t),
        decreases text.len() - i,
    {
        let ghost rest = text@.skip(i as int);
        proof {
            lemma_hit_shift(text@, i as int, 0, t);
        }
        match hit_exec(text, i, t) {
            Some(sub) => {
                let ghost plen = sub.placeholder@.len() as int;
                assert(rest.skip(plen) =~= text@.skip(i + plen));
                push_all(&mut out, &sub.replacement);
                i = i + sub.placeholder.len();
            },
            None => {
                assert(rest.skip(1) =~= text@.skip(i + 1));
                out.push(text[i]);
                i = i + 1;
            },
        }
        assert(out@ + substitute(text@.skip(i as int), t) =~= substitute(text@, t));
    }
    assert(text@.skip(i as int) =~= Seq::<char>::empty());
    assert(out@ =~= substitute(text@, t));
    out
}

} // verus!
