use vstd::prelude::*;
use crate::identity::IdentityTriple;
use crate::replace::{substitute, substitute_all, mentions_any, lemma_substitute_unmentioned};
use crate::content::same_chars;

verus! {

/// A path as the sequence of its segments, root first.
pub type PathSegs = Seq<Seq<char>>;

/// One step of a rename plan: the entry at `from` gets the path `to`.
pub struct Rename {
    pub from: Vec<Vec<char>>,
    pub to: Vec<Vec<char>>,
}

/// The segments of an executable path.
pub open spec fn segs(p: Seq<Vec<char>>) -> PathSegs {
    p.map_values(|s: Vec<char>| s@)
}

/// The paths of a list of entries.
pub open spec fn tree(e: Seq<Vec<Vec<char>>>) -> Seq<PathSegs> {
    e.map_values(|p: Vec<Vec<char>>| segs(p@))
}

impl View for Rename {
    type V = (PathSegs, PathSegs);

    open spec fn view(&self) -> (PathSegs, PathSegs) {
        (segs(self.from@), segs(self.to@))
    }
}

/// The steps of a plan.
pub open spec fn steps(v: Seq<Rename>) -> Seq<(PathSegs, PathSegs)> {
    v.map_values(|r: Rename| r@)
}

/// `path` with its final segment substituted; the parent segments are kept.
pub open spec fn renamed(path: PathSegs, t: &IdentityTriple) -> PathSegs {
    path.drop_last().push(substitute(path.last(), t))
}

/// The entry at `path` has a name, and the substitution changes it.
pub open spec fn needs_rename(path: PathSegs, t: &IdentityTriple) -> bool {
    path.len() > 0 && substitute(path.last(), t) != path.last()
}

/// The renames that the entries call for, in the order of the entries.
pub open spec fn candidates(e: Seq<PathSegs>, t: &IdentityTriple) -> Seq<(PathSegs, PathSegs)>
    decreases e.len(),
{
    if e.len() == 0 {
        seq![]
    } else {
        let c = candidates(e.drop_last(), t);
        if needs_rename(e.last(), t) {
            c.push((e.last(), renamed(e.last(), t)))
        } else {
            c
        }
    }
}

/// A copy of `s`.
pub fn copy_chars(s: &Vec<char>) -> (r: Vec<char>)
    ensures
        r@ == s@,
{
    let mut out: Vec<char> = Vec::new();
    let mut i: usize = 0;
    while i < s.len()
        invariant
            i <= s.len(),
            out@ == s@.take(i as int),
        decreases s.len() - i,
    {
        out.push(s[i]);
        i = i + 1;
        assert(out@ =~= s@.take(i as int));
    }
    assert(s@.take(i as int) =~= s@);
    out
}

/// The first `n` segments of `p`.
fn copy_prefix(p: &Vec<Vec<char>>, n: usize) -> (r: Vec<Vec<char>>)
    requires
        n <= p.len(),
    ensures
        segs(r@) == segs(p@).take(n as int),
{
    let mut out: Vec<Vec<char>> = Vec::new();
    let mut i: usize = 0;
    while i < n
        invariant
            i <= n <= p.len(),
            out@.len() == i,
            segs(out@) == segs(p@).take(i as int),
        decreases n - i,
    {
        let seg = copy_chars(&p[i]);
        let ghost before = out@;
        out.push(seg);
        assert forall|k: int| 0 <= k <= i implies #[trigger] segs(out@)[k] == segs(p@)[k] by {
            if k < i {
                assert(out@[k] == before[k]);
                assert(segs(before)[k] == segs(p@).take(i as int)[k]);
            }
        }
        i = i + 1;
        assert(segs(out@) =~= segs(p@).take(i as int));
    }
    out
}

/// A copy of the path `p`.
pub fn copy_path(p: &Vec<Vec<char>>) -> (r: Vec<Vec<char>>)
    ensures
        segs(r@) == segs(p@),
{
    let r = copy_prefix(p, p.len());
    assert(segs(p@).take(p.len() as int) =~= segs(p@));
    r
}

impl Rename {
    /// A copy of this step.
    pub fn copy(&self) -> (r: Rename)
        ensures
            r@ == self@,
    {
        Rename { from: copy_path(&self.from), to: copy_path(&self.to) }
    }
}

/// The rename that the entry at `path` calls for, if any.
pub fn rename_of(path: &Vec<Vec<char>>, t: &IdentityTriple) -> (r: Option<Rename>)
    ensures
        r is Some <==> needs_rename(segs(path@), t),
        r is Some ==> r->0@ == (segs(path@), renamed(segs(path@), t)),
{
    let ghost p = segs(path@);
    if path.len() == 0 {
        return None;
    }
    let n = path.len() - 1;
    assert(p.last() == path@[n as int]@);
    let name = substitute_all(&path[n], t);
    if same_chars(&name, &path[n]) {
        return None;
    }
    let mut to = copy_prefix(path, n);
    to.push(name);
    assert(segs(to@) =~= renamed(p, t));
    Some(Rename { from: copy_path(path), to })
}

/// The renames that the entries call for, in the order of the entries.
pub fn collect_candidates(entries: &Vec<Vec<Vec<char>>>, t: &IdentityTriple) -> (r: Vec<Rename>)
    ensures
        steps(r@) == candidates(tree(entries@), t),
{
    let ghost e = tree(entries@);
    let mut out: Vec<Rename> = Vec::new();
    let mut i: usize = 0;
    while i < entries.len()
        invariant
            i <= entries.len(),
            e == tree(entries@),
            steps(out@) == candidates(e.take(i as int), t),
        decreases entries.len() - i,
    {
        assert(e.take(i + 1).drop_last() =~= e.take(i as int));
        assert(e.take(i + 1).last() == segs(entries@[i as int]@));
        match rename_of(&entries[i], t) {
            Some(step) => {
                out.push(step);
                assert(steps(out@) =~= candidates(e.take(i + 1), t));
            },
            None => {},
        }
        i = i + 1;
    }
    assert(e.take(i as int) =~= e);
    out
}

/// The depth of the deepest source path among the steps `c`.
pub open spec fn max_depth(c: Seq<(PathSegs, PathSegs)>) -> nat
    decreases c.len(),
{
    if c.len() == 0 {
        0
    } else {
        let m = max_depth(c.drop_last());
        if c.last().0.len() > m {
            c.last().0.len()
        } else {
            m
        }
    }
}

/// The steps of `c` whose source path has depth `d`, in their order in `c`.
pub open spec fn layer(c: Seq<(PathSegs, PathSegs)>, d: int) -> Seq<(PathSegs, PathSegs)> {
    c.filter(|r: (PathSegs, PathSegs)| r.0.len() == d)
}

/// The layers of depths `hi`, `hi - 1`, ..., `hi - n + 1`, deepest first.
pub open spec fn layers(c: Seq<(PathSegs, PathSegs)>, hi: int, n: nat) -> Seq<(PathSegs, PathSegs)>
    decreases n,
{
    if n == 0 {
        seq![]
    } else {
        layers(c, hi, (n - 1) as nat) + layer(c, hi - (n - 1))
    }
}

/// The rename plan of a tree whose entries are at the paths `e`: the renames
/// that the entries call for, deepest source path first, and those of equal
/// depth in the order of the entries.
pub open spec fn plan_of(e: Seq<PathSegs>, t: &IdentityTriple) -> Seq<(PathSegs, PathSegs)> {
    let c = candidates(e, t);
    layers(c, max_depth(c) as int, max_depth(c) + 1)
}

fn max_depth_exec(c: &Vec<Rename>) -> (r: usize)
    ensures
        r == max_depth(steps(c@)),
{
    let ghost cs = steps(c@);
    let mut m: usize = 0;
    let mut i: usize = 0;
    while i < c.len()
        invariant
            i <= c.len(),
            cs == steps(c@),
            m == max_depth(cs.take(i as int)),
        decreases c.len() - i,
    {
        assert(cs.take(i + 1).drop_last() =~= cs.take(i as int));
        assert(cs[i as int].0.len() == c@[i as int].from@.len());
        if c[i].from.len() > m {
            m = c[i].from.len();
        }
        i = i + 1;
    }
    assert(cs.take(i as int) =~= cs);
    m
}

/// Builds the rename plan of a tree whose entries are at the paths `entries`:
/// every entry whose final segment the substitution changes is renamed within
/// its parent, and the steps come deepest source path first, so that
/// everything inside a directory is renamed while it still has its old name.
pub fn build_plan(entries: &Vec<Vec<Vec<char>>>, t: &IdentityTriple) -> (r: Vec<Rename>)
    ensures
        steps(r@) == plan_of(tree(entries@), t),
{
    let c = collect_candidates(entries, t);
    let max = max_depth_exec(&c);
    let ghost cs = steps(c@);
    let mut out: Vec<Rename> = Vec::new();
    let mut d: usize = max;
    loop
        invariant_except_break
            d <= max,
            cs == steps(c@),
            steps(out@) == layers(cs, max as int, (max - d) as nat),
        ensures
            steps(out@) == layers(cs, max as int, (max + 1) as nat),
        decreases d,
    {
        let mut j: usize = 0;
        assert(cs.take(0) =~= Seq::<(PathSegs, PathSegs)>::empty());
        proof {
            reveal(Seq::filter);
        }
        assert(steps(out@) =~= layers(cs, max as int, (max - d) as nat) + layer(cs.take(0), d as int));
        while j < c.len()
            invariant
                d <= max,
                j <= c.len(),
                cs == steps(c@),
                steps(out@) == layers(cs, max as int, (max - d) as nat) + layer(cs.take(j as int), d as int),
            decreases c.len() - j,
        {
            proof {
                assert(cs.take(j + 1).drop_last() =~= cs.take(j as int));
                reveal(Seq::filter);
            }
            assert(cs[j as int].0.len() == c@[j as int].from@.len());
            if c[j].from.len() == d {
                let step = c[j].copy();
                let ghost before = out@;
                out.push(step);
                assert(steps(out@) =~= steps(before).push(cs[j as int]));
            }
            j = j + 1;
        }
        assert(cs.take(j as int) =~= cs);
        assert(steps(out@) == layers(cs, max as int, (max - d + 1) as nat));
        if d == 0 {
            break;
        }
        d = d - 1;
    }
    out
}

proof fn lemma_layers_depths(c: Seq<(PathSegs, PathSegs)>, hi: int, n: nat)
    ensures
        forall|i: int|
            0 <= i < layers(c, hi, n).len() ==> hi - n < #[trigger] layers(c, hi, n)[i].0.len() <= hi,
        forall|i: int, j: int|
            0 <= i < j < layers(c, hi, n).len() ==> #[trigger] layers(c, hi, n)[i].0.len()
                >= #[trigger] layers(c, hi, n)[j].0.len(),
    decreases n,
{
    if n > 0 {
        lemma_layers_depths(c, hi, (n - 1) as nat);
        let a = layers(c, hi, (n - 1) as nat);
        let b = layer(c, hi - (n - 1));
        assert forall|k: int| 0 <= k < b.len() implies #[trigger] b[k].0.len() == hi - (n - 1) by {
            c.lemma_filter_pred(|r: (PathSegs, PathSegs)| r.0.len() == hi - (n - 1), k);
        }
        let s = layers(c, hi, n);
        assert(s == a + b);
        assert forall|i: int| 0 <= i < s.len() implies hi - n < #[trigger] s[i].0.len() <= hi by {
            if i < a.len() {
                assert(s[i] == a[i]);
            } else {
                assert(s[i] == b[i - a.len()]);
            }
        }
        assert forall|i: int, j: int| 0 <= i < j < s.len() implies #[trigger] s[i].0.len()
            >= #[trigger] s[j].0.len() by {
            if j < a.len() {
                assert(s[i] == a[i] && s[j] == a[j]);
            } else if i < a.len() {
                assert(s[i] == a[i] && s[j] == b[j - a.len()]);
            } else {
                assert(s[i] == b[i - a.len()] && s[j] == b[j - a.len()]);
            }
        }
    }
}

/// In a rename plan, the steps come in order of non-increasing depth of their
/// source path.
pub proof fn lemma_plan_deepest_first(e: Seq<PathSegs>, t: &IdentityTriple, i: int, j: int)
    requires
        0 <= i < j < plan_of(e, t).len(),
    ensures
        plan_of(e, t)[i].0.len() >= plan_of(e, t)[j].0.len(),
{
    let c = candidates(e, t);
    lemma_layers_depths(c, max_depth(c) as int, max_depth(c) + 1);
}

/// Where the source of one step of a plan lies inside the directory that
/// another step renames, the step inside comes strictly first.
pub proof fn lemma_plan_contents_first(e: Seq<PathSegs>, t: &IdentityTriple, inner: int, outer: int)
    requires
        0 <= inner < plan_of(e, t).len(),
        0 <= outer < plan_of(e, t).len(),
        plan_of(e, t)[outer].0.len() < plan_of(e, t)[inner].0.len(),
        plan_of(e, t)[inner].0.take(plan_of(e, t)[outer].0.len() as int) == plan_of(e, t)[outer].0,
    ensures
        inner < outer,
{
    if outer <= inner {
        lemma_plan_deepest_first(e, t, outer, inner);
    }
}

proof fn lemma_candidates_complete(e: Seq<PathSegs>, t: &IdentityTriple, k: int)
    requires
        0 <= k < e.len(),
        needs_rename(e[k], t),
    ensures
        candidates(e, t).contains((e[k], renamed(e[k], t))),
    decreases e.len(),
{
    let c = candidates(e.drop_last(), t);
    if k == e.len() - 1 {
        assert(candidates(e, t) == c.push((e.last(), renamed(e.last(), t))));
        assert(candidates(e, t)[c.len() as int] == (e[k], renamed(e[k], t)));
    } else {
        assert(e.drop_last()[k] == e[k]);
        lemma_candidates_complete(e.drop_last(), t, k);
        let j = choose|j: int| 0 <= j < c.len() && c[j] == (e[k], renamed(e[k], t));
        if needs_rename(e.last(), t) {
            assert(candidates(e, t)[j] == c[j]);
        }
    }
}

proof fn lemma_candidates_sound(e: Seq<PathSegs>, t: &IdentityTriple, i: int)
    requires
        0 <= i < candidates(e, t).len(),
    ensures
        exists|k: int|
            0 <= k < e.len() && needs_rename(e[k], t) && #[trigger] candidates(e, t)[i] == (
            e[k], renamed(e[k], t)),
    decreases e.len(),
{
    let c = candidates(e.drop_last(), t);
    if i < c.len() {
        lemma_candidates_sound(e.drop_last(), t, i);
        let k = choose|k: int|
            0 <= k < e.drop_last().len() && needs_rename(e.drop_last()[k], t) && #[trigger] c[i]
                == (e.drop_last()[k], renamed(e.drop_last()[k], t));
        assert(e.drop_last()[k] == e[k]);
        assert(candidates(e, t)[i] == c[i]);
    } else {
        assert(candidates(e, t)[i] == (e[e.len() - 1], renamed(e[e.len() - 1], t)));
    }
}

proof fn lemma_max_depth_bound(c: Seq<(PathSegs, PathSegs)>, i: int)
    requires
        0 <= i < c.len(),
    ensures
        c[i].0.len() <= max_depth(c),
    decreases c.len(),
{
    if i < c.len() - 1 {
        assert(c.drop_last()[i] == c[i]);
        lemma_max_depth_bound(c.drop_last(), i);
    }
}

proof fn lemma_layers_complete(c: Seq<(PathSegs, PathSegs)>, hi: int, n: nat, x: (PathSegs, PathSegs))
    requires
        c.contains(x),
        hi - n < x.0.len() <= hi,
    ensures
        layers(c, hi, n).contains(x),
    decreases n,
{
    let a = layers(c, hi, (n - 1) as nat);
    let b = layer(c, hi - (n - 1));
    assert(layers(c, hi, n) == a + b);
    if x.0.len() == hi - (n - 1) {
        let k = choose|k: int| 0 <= k < c.len() && c[k] == x;
        c.lemma_filter_contains(|r: (PathSegs, PathSegs)| r.0.len() == hi - (n - 1), k);
        let j = choose|j: int| 0 <= j < b.len() && b[j] == x;
        assert((a + b)[a.len() + j] == x);
    } else {
        lemma_layers_complete(c, hi, (n - 1) as nat, x);
        let j = choose|j: int| 0 <= j < a.len() && a[j] == x;
        assert((a + b)[j] == x);
    }
}

proof fn lemma_layers_sound(c: Seq<(PathSegs, PathSegs)>, hi: int, n: nat, i: int)
    requires
        0 <= i < layers(c, hi, n).len(),
    ensures
        c.contains(layers(c, hi, n)[i]),
    decreases n,
{
    let a = layers(c, hi, (n - 1) as nat);
    let b = layer(c, hi - (n - 1));
    assert(layers(c, hi, n) == a + b);
    if i < a.len() {
        lemma_layers_sound(c, hi, (n - 1) as nat, i);
        assert((a + b)[i] == a[i]);
    } else {
        assert((a + b)[i] == b[i - a.len()]);
        c.lemma_filter_contains_rev(|r: (PathSegs, PathSegs)| r.0.len() == hi - (n - 1), b[i - a.len()]);
    }
}

/// Every entry whose name the substitution changes is renamed by the plan
/// within its parent directory, whatever kind of file it is.
pub proof fn lemma_plan_complete(e: Seq<PathSegs>, t: &IdentityTriple, k: int)
    requires
        0 <= k < e.len(),
        needs_rename(e[k], t),
    ensures
        plan_of(e, t).contains((e[k], renamed(e[k], t))),
{
    let c = candidates(e, t);
    lemma_candidates_complete(e, t, k);
    let i = choose|i: int| 0 <= i < c.len() && c[i] == (e[k], renamed(e[k], t));
    lemma_max_depth_bound(c, i);
    lemma_layers_complete(c, max_depth(c) as int, max_depth(c) + 1, c[i]);
}

/// Every step of the plan renames an entry of the scanned tree, at the path
/// that the scan found, within its parent directory, and only where the
/// substitution changes its name.
pub proof fn lemma_plan_sound(e: Seq<PathSegs>, t: &IdentityTriple, i: int)
    requires
        0 <= i < plan_of(e, t).len(),
    ensures
        exists|k: int|
            0 <= k < e.len() && needs_rename(e[k], t) && #[trigger] plan_of(e, t)[i] == (
            e[k], renamed(e[k], t)),
{
    let c = candidates(e, t);
    lemma_layers_sound(c, max_depth(c) as int, max_depth(c) + 1, i);
    let j = choose|j: int| 0 <= j < c.len() && c[j] == plan_of(e, t)[i];
    lemma_candidates_sound(e, t, j);
}

/// A tree in which no name holds a placeholder gets an empty plan.
pub proof fn lemma_plan_untouched(e: Seq<PathSegs>, t: &IdentityTriple)
    requires
        forall|k: int| 0 <= k < e.len() && e[k].len() > 0 ==> !mentions_any(#[trigger] e[k].last(), t),
    ensures
        plan_of(e, t).len() == 0,
{
    if plan_of(e, t).len() > 0 {
        lemma_plan_sound(e, t, 0);
        let k = choose|k: int|
            0 <= k < e.len() && needs_rename(e[k], t) && #[trigger] plan_of(e, t)[0] == (
            e[k], renamed(e[k], t));
        lemma_substitute_unmentioned(e[k].last(), t);
    }
}

/// Building the plan twice from one scan of an unchanged tree gives the same
/// steps in the same order.
pub proof fn lemma_plan_deterministic(e1: Seq<PathSegs>, e2: Seq<PathSegs>, t: &IdentityTriple)
    requires
        e1 == e2,
    ensures
        plan_of(e1, t) == plan_of(e2, t),
{
}

} // verus!
