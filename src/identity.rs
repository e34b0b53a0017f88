use vstd::prelude::*;

verus! {

/// One literal substitution: every occurrence of `placeholder` becomes `replacement`.
pub struct Substitution {
    pub placeholder: Vec<char>,
    pub replacement: Vec<char>,
}

/// The identity of a project: class name, namespace and display name, each as a
/// substitution of the template's placeholder by the target value. Where two
/// placeholders start at one position, the earlier of this order wins.
pub struct IdentityTriple {
    pub class_name: Substitution,
    pub namespace: Substitution,
    pub display_name: Substitution,
}

/// The `k`-th substitution of the triple as (placeholder, replacement):
/// 0 is the class name, 1 the namespace, 2 the display name.
pub open spec fn rule(t: &IdentityTriple, k: int) -> (Seq<char>, Seq<char>) {
    if k == 0 {
        (t.class_name.placeholder@, t.class_name.replacement@)
    } else if k == 1 {
        (t.namespace.placeholder@, t.namespace.replacement@)
    } else {
        (t.display_name.placeholder@, t.display_name.replacement@)
    }
}

/// The template's class name placeholder.
pub open spec fn template_class() -> Seq<char> {
    seq!['T', 'e', 'm', 'p', 'l', 'a', 't', 'e', 'M', 'o', 'd']
}

/// The template's namespace placeholder.
pub open spec fn template_namespace() -> Seq<char> {
    seq!['t', 'e', 'm', 'p', 'l', 'a', 't', 'e', 'm', 'o', 'd']
}

/// The template's display name placeholder.
pub open spec fn template_display() -> Seq<char> {
    seq!['T', 'e', 'm', 'p', 'l', 'a', 't', 'e', ' ', 'M', 'o', 'd']
}

/// `s` with every space removed.
pub open spec fn without_spaces(s: Seq<char>) -> Seq<char> {
    s.filter(|c: char| c != ' ')
}

/// What `str::to_lowercase` returns for the string of characters `s`.
pub uninterp spec fn lower_of(s: Seq<char>) -> Seq<char>;

/// Relies on `str::to_lowercase`: the lower-case form depends on the characters
/// alone, and an empty string stays empty.
#[verifier::external_body]
fn lowercase(s: &Vec<char>) -> (r: Vec<char>)
    ensures
        r@ == lower_of(s@),
        s@.len() == 0 ==> r@.len() == 0,
{
    let text: String = s.iter().collect();
    text.to_lowercase().chars().collect()
}

impl Substitution {
    pub fn new(placeholder: Vec<char>, replacement: Vec<char>) -> (r: Substitution)
        ensures
            r.placeholder@ == placeholder@,
            r.replacement@ == replacement@,
    {
        Substitution { placeholder, replacement }
    }
}

/// `s` with every space removed: the class name derived from a display name.
pub fn class_name_of(s: &Vec<char>) -> (r: Vec<char>)
    ensures
        r@ == without_spaces(s@),
{
    let mut out: Vec<char> = Vec::new();
    let mut i: usize = 0;
    while i < s.len()
        invariant
            i <= s.len(),
            out@ == without_spaces(s@.take(i as int)),
        decreases s.len() - i,
    {
        proof {
            assert(s@.take(i + 1).drop_last() =~= s@.take(i as int));
            reveal(Seq::filter);
        }
        if s[i] != ' ' {
            out.push(s[i]);
        }
        i = i + 1;
    }
    assert(s@.take(s.len() as int) =~= s@);
    out
}

impl IdentityTriple {
    /// A triple of three arbitrary substitutions.
    pub fn new(class_name: Substitution, namespace: Substitution, display_name: Substitution) -> (r:
        IdentityTriple)
        ensures
            r.class_name == class_name,
            r.namespace == namespace,
            r.display_name == display_name,
    {
        IdentityTriple { class_name, namespace, display_name }
    }

    /// The template's placeholders mapped to the given class name, namespace
    /// and display name.
    pub fn from_template(class_name: Vec<char>, namespace: Vec<char>, display_name: Vec<char>) -> (r:
        IdentityTriple)
        ensures
            rule(&r, 0) == (template_class(), class_name@),
            rule(&r, 1) == (template_namespace(), namespace@),
            rule(&r, 2) == (template_display(), display_name@),
    {
        let class_p = vec!['T', 'e', 'm', 'p', 'l', 'a', 't', 'e', 'M', 'o', 'd'];
        let namespace_p = vec!['t', 'e', 'm', 'p', 'l', 'a', 't', 'e', 'm', 'o', 'd'];
        let display_p = vec!['T', 'e', 'm', 'p', 'l', 'a', 't', 'e', ' ', 'M', 'o', 'd'];
        assert(class_p@ =~= template_class());
        assert(namespace_p@ =~= template_namespace());
        assert(display_p@ =~= template_display());
        IdentityTriple {
            class_name: Substitution { placeholder: class_p, replacement: class_name },
            namespace: Substitution { placeholder: namespace_p, replacement: namespace },
            display_name: Substitution { placeholder: display_p, replacement: display_name },
        }
    }

    /// The identity of a project named `display_name`: the class name is the
    /// display name without spaces, the namespace that class name in lower case.
    pub fn for_display_name(display_name: Vec<char>) -> (r: IdentityTriple)
        ensures
            rule(&r, 0) == (template_class(), without_spaces(display_name@)),
            rule(&r, 1) == (template_namespace(), lower_of(without_spaces(display_name@))),
            rule(&r, 2) == (template_display(), display_name@),
    {
        let class_name = class_name_of(&display_name);
        let namespace = lowercase(&class_name);
        IdentityTriple::from_template(class_name, namespace, display_name)
    }
}

} // verus!
