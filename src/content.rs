use vstd::prelude::*;
use crate::identity::IdentityTriple;
use crate::replace::{substitute, substitute_all, mentions_any, lemma_substitute_unmentioned};

verus! {

/// The extension of packaged archives, whose content is never rewritten.
pub open spec fn opaque_suffix() -> Seq<char> {
    seq!['.', 'j', 'a', 'r']
}

/// A file name whose extension marks a packaged archive: it ends in `.jar`
/// with a non-empty stem before it (`.jar` alone is a hidden file without
/// extension).
pub open spec fn opaque_name(name: Seq<char>) -> bool {
    name.len() > 4 && name.subrange(name.len() - 4, name.len() as int) == opaque_suffix()
}

/// Whether the file name `name` marks a packaged archive.
pub fn is_opaque(name: &Vec<char>) -> (r: bool)
    ensures
        r == opaque_name(name@),
{
    let n = name.len();
    if n <= 4 {
        return false;
    }
    let r = name[n - 4] == '.' && name[n - 3] == 'j' && name[n - 2] == 'a' && name[n - 1] == 'r';
    let ghost tail = name@.subrange(n - 4, n as int);
    assert(tail[0] == name@[n - 4] && tail[1] == name@[n - 3]);
    assert(tail[2] == name@[n - 2] && tail[3] == name@[n - 1]);
    if r {
        assert(tail =~= opaque_suffix());
    }
    r
}

/// The entry at `path` (a sequence of path segments) is read and rewritten by
/// the content pass: it is a regular file and its name does not mark it opaque.
pub open spec fn rewrites(path: Seq<Seq<char>>, is_file: bool) -> bool {
    is_file && !(path.len() > 0 && opaque_name(path.last()))
}

/// Whether the content pass opens the entry at `path`, a regular file if
/// `is_file`. An opaque file is never opened, whatever it holds.
pub fn opens_for_rewrite(path: &Vec<Vec<char>>, is_file: bool) -> (r: bool)
    ensures
        r == rewrites(path@.map_values(|s: Vec<char>| s@), is_file),
{
    let ghost segs = path@.map_values(|s: Vec<char>| s@);
    if !is_file {
        return false;
    }
    if path.len() == 0 {
        return true;
    }
    assert(segs.last() == path@.last()@);
    !is_opaque(&path[path.len() - 1])
}

/// Whether `a` and `b` hold the same characters.
pub fn same_chars(a: &Vec<char>, b: &Vec<char>) -> (r: bool)
    ensures
        r == (a@ == b@),
{
    if a.len() != b.len() {
        return false;
    }
    let mut i: usize = 0;
    while i < a.len()
        invariant
            a.len() == b.len(),
            i <= a.len(),
            forall|k: int| 0 <= k < i ==> a@[k] == b@[k],
        decreases a.len() - i,
    {
        if a[i] != b[i] {
            return false;
        }
        i = i + 1;
    }
    assert(a@ =~= b@);
    true
}

/// The new content of a file that holds `text`: `None` where the substitution
/// changes nothing, so that the file need not be written; in particular where
/// the text holds no placeholder.
pub fn rewritten_content(text: &Vec<char>, t: &IdentityTriple) -> (r: Option<Vec<char>>)
    ensures
        r is None <==> substitute(text@, t) == text@,
        r is Some ==> r->0@ == substitute(text@, t),
        !mentions_any(text@, t) ==> r is None,
{
    proof {
        if !mentions_any(text@, t) {
            lemma_substitute_unmentioned(text@, t);
        }
    }
    let new_text = substitute_all(text, t);
    if same_chars(&new_text, text) {
        None
    } else {
        Some(new_text)
    }
}

} // verus!
