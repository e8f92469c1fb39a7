use vstd::prelude::*;
use vstd::string::StrSliceExecFns;
use vstd::string::StringExecFns;

verus! {

/// One named child of a tree node, as read from a commit.
///
/// `name` is `None` where the repository stores a name that is not valid
/// text: such an entry is skipped, with everything beneath it.
pub enum Entry {
    /// A subdirectory with its own entries.
    Dir { name: Option<String>, children: Vec<Entry> },
    /// A file: its byte length and the resolved value of its `merge`
    /// attribute (`None` where the attribute is unset).
    Blob { name: Option<String>, size: u64, merge_attr: Option<String> },
    /// Anything else a tree may hold (a submodule link): ignored by every check.
    Other { name: Option<String> },
}

/// The name of an entry, as text.
pub open spec fn entry_name(e: Entry) -> Option<Seq<char>> {
    match e {
        Entry::Dir { name, .. } => match name {
            Some(n) => Some(n@),
            None => None,
        },
        Entry::Blob { name, .. } => match name {
            Some(n) => Some(n@),
            None => None,
        },
        Entry::Other { name } => match name {
            Some(n) => Some(n@),
            None => None,
        },
    }
}

/// The path of a child named `name` under the logical path `base`; the root
/// has the empty path.
pub open spec fn child_path(base: Seq<char>, name: Seq<char>) -> Seq<char> {
    if base.len() == 0 {
        name
    } else {
        base + seq!['/'] + name
    }
}

/// The string views of a sequence of strings.
pub open spec fn views(v: Seq<String>) -> Seq<Seq<char>> {
    v.map_values(|s: String| s@)
}

/// Builds the logical path of a child named `name` under `base`.
pub fn join_path(base: &String, name: &String) -> (r: String)
    ensures
        r@ == child_path(base@, name@),
{
    if base.as_str().unicode_len() == 0 {
        name.clone()
    } else {
        let mut s = base.clone();
        s.append("/");
        s.append(name.as_str());
        proof {
            reveal_strlit("/");
        }
        s
    }
}

/// Whether `s` begins with `p`.
pub open spec fn has_prefix(s: Seq<char>, p: Seq<char>) -> bool {
    p.len() <= s.len() && s.take(p.len() as int) == p
}

/// Whether `s` ends with `p`.
pub open spec fn has_suffix(s: Seq<char>, p: Seq<char>) -> bool {
    p.len() <= s.len() && s.skip(s.len() - p.len()) == p
}

/// Tests whether `s` begins with `p`, character by character.
pub fn starts_with(s: &str, p: &str) -> (r: bool)
    ensures
        r == has_prefix(s@, p@),
{
    let n = s.unicode_len();
    let m = p.unicode_len();
    if m > n {
        return false;
    }
    let mut i: usize = 0;
    while i < m
        invariant
            m == p@.len(),
            n == s@.len(),
            m <= n,
            i <= m,
            forall|j: int| 0 <= j < i ==> s@[j] == p@[j],
        decreases m - i,
    {
        if s.get_char(i) != p.get_char(i) {
            assert(s@.take(m as int)[i as int] != p@[i as int]);
            return false;
        }
        i = i + 1;
    }
    assert(s@.take(m as int) =~= p@);
    true
}

/// Tests whether `s` ends with `p`, character by character.
pub fn ends_with(s: &str, p: &str) -> (r: bool)
    ensures
        r == has_suffix(s@, p@),
{
    let n = s.unicode_len();
    let m = p.unicode_len();
    if m > n {
        return false;
    }
    let d: usize = n - m;
    let mut i: usize = 0;
    while i < m
        invariant
            m == p@.len(),
            n == s@.len(),
            d == n - m,
            i <= m,
            forall|j: int| 0 <= j < i ==> s@[d + j] == p@[j],
        decreases m - i,
    {
        if s.get_char(d + i) != p.get_char(i) {
            assert(s@.skip(d as int)[i as int] != p@[i as int]);
            return false;
        }
        i = i + 1;
    }
    assert(s@.skip(d as int) =~= p@);
    true
}

} // verus!
