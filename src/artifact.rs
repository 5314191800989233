use vstd::prelude::*;

verus! {

/// How a candidate's build output is recognised among the entries of its
/// build-output directory.
#[derive(Debug)]
pub enum NamePattern {
    /// The entry's name is exactly this.
    Exact { name: Vec<u8> },
    /// The entry's name starts with `prefix` and ends with `suffix`
    /// (versioned archive names).
    Affixes { prefix: Vec<u8>, suffix: Vec<u8> },
}

/// Why no single artifact could be picked.
#[derive(Debug, Clone, Copy, PartialEq, Eq, Structural)]
pub enum ResolveError {
    /// No entry matches the pattern.
    NotFound,
    /// More than one entry matches the pattern.
    Ambiguous,
}

pub open spec fn has_prefix(n: Seq<u8>, p: Seq<u8>) -> bool {
    p.len() <= n.len() && n.subrange(0, p.len() as int) == p
}

pub open spec fn has_suffix(n: Seq<u8>, s: Seq<u8>) -> bool {
    s.len() <= n.len() && n.subrange(n.len() - s.len(), n.len() as int) == s
}

/// The entry name `n` is one that pattern `p` recognises.
pub open spec fn name_matches(p: NamePattern, n: Seq<u8>) -> bool {
    match p {
        NamePattern::Exact { name } => n == name@,
        NamePattern::Affixes { prefix, suffix } => has_prefix(n, prefix@) && has_suffix(n, suffix@),
    }
}

/// Whether `n[at..at + p.len()]` is `p`.
fn equal_at(n: &Vec<u8>, at: usize, p: &Vec<u8>) -> (r: bool)
    requires
        at + p.len() <= n.len(),
    ensures
        r == (n@.subrange(at as int, at + p.len()) == p@),
{
    let mut i: usize = 0;
    while i < p.len()
        invariant
            i <= p.len(),
            at + p.len() <= n.len(),
            forall|j: int| 0 <= j < i ==> n@[at + j] == p@[j],
        decreases p.len() - i,
    {
        if n[at + i] != p[i] {
            assert(n@.subrange(at as int, at + p.len())[i as int] != p@[i as int]);
            return false;
        }
        i = i + 1;
    }
    assert(n@.subrange(at as int, at + p.len()) =~= p@);
    true
}

/// Whether the entry name `n` is recognised by `p`.
pub fn matches_pattern(p: &NamePattern, n: &Vec<u8>) -> (r: bool)
    ensures
        r == name_matches(*p, n@),
{
    match p {
        NamePattern::Exact { name } => {
            if name.len() != n.len() {
                return false;
            }
            let r = equal_at(n, 0, name);
            assert(n@.subrange(0, n.len() as int) =~= n@);
            r
        },
        NamePattern::Affixes { prefix, suffix } => {
            if prefix.len() > n.len() || suffix.len() > n.len() {
                return false;
            }
            equal_at(n, 0, prefix) && equal_at(n, n.len() - suffix.len(), suffix)
        },
    }
}

/// Picks the one entry of a build-output directory that `p` recognises.
/// No match, or more than one, is an error: there is no fallback.
pub fn resolve_artifact(p: &NamePattern, names: &Vec<Vec<u8>>) -> (r: Result<usize, ResolveError>)
    ensures
        r matches Ok(i) ==> i < names.len() && name_matches(*p, names@[i as int]@) && forall|j: int|
            0 <= j < names.len() && j != i ==> !name_matches(*p, #[trigger] names@[j]@),
        r == Err::<usize, ResolveError>(ResolveError::NotFound) <==> forall|j: int|
            0 <= j < names.len() ==> !name_matches(*p, #[trigger] names@[j]@),
        r == Err::<usize, ResolveError>(ResolveError::Ambiguous) ==> exists|i: int, j: int|
            0 <= i < j < names.len() && name_matches(*p, #[trigger] names@[i]@) && name_matches(
                *p,
                #[trigger] names@[j]@,
            ),
{
    let mut found: Option<usize> = None;
    let mut i: usize = 0;
    while i < names.len()
        invariant
            i <= names.len(),
            found matches Some(f) ==> f < i && name_matches(*p, names@[f as int]@) && forall|j: int|
                0 <= j < i && j != f ==> !name_matches(*p, #[trigger] names@[j]@),
            found is None ==> forall|j: int| 0 <= j < i ==> !name_matches(*p, #[trigger] names@[j]@),
        decreases names.len() - i,
    {
        if matches_pattern(p, &names[i]) {
            match found {
                Some(f) => {
                    assert(name_matches(*p, names@[f as int]@) && name_matches(*p, names@[i as int]@));
                    return Err(ResolveError::Ambiguous);
                },
                None => {
                    found = Some(i);
                },
            }
        }
        i = i + 1;
    }
    match found {
        Some(f) => Ok(f),
        None => Err(ResolveError::NotFound),
    }
}

} // verus!
