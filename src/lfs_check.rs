use vstd::prelude::*;
use vstd::string::StrSliceExecFns;
use crate::tree::{child_path, join_path, starts_with, Entry};

verus! {

/// Blobs this large or larger that are marked for LFS but stored inline are
/// reported, by default.
pub const DEFAULT_SIZE_THRESHOLD: u64 = 150;

/// The `merge` attribute value that marks a path as stored in LFS.
pub open spec fn lfs_marker() -> Seq<char> {
    seq!['l', 'f', 's']
}

/// The view of an optional attribute value.
pub open spec fn attr_view(a: Option<String>) -> Option<Seq<char>> {
    match a {
        Some(s) => Some(s@),
        None => None,
    }
}

/// A blob with this attribute and size should have been stored in LFS but
/// holds its content inline.
pub open spec fn should_be_in_lfs(attr: Option<Seq<char>>, size: u64, threshold: u64) -> bool {
    attr == Some(lfs_marker()) && size >= threshold
}

/// The blobs of `e` (under `base`) that should have been stored in LFS, with
/// their sizes, in walk order.
pub open spec fn lfs_entry(e: Entry, base: Seq<char>, threshold: u64) -> Seq<(Seq<char>, u64)>
    decreases e,
{
    match e {
        Entry::Dir { name: Some(n), children } => lfs_entries(children@, child_path(base, n@), threshold),
        Entry::Blob { name: Some(n), size, merge_attr } => {
            if should_be_in_lfs(attr_view(merge_attr), size, threshold) {
                seq![(child_path(base, n@), size)]
            } else {
                Seq::empty()
            }
        },
        _ => Seq::empty(),
    }
}

/// The blobs among `es` and beneath them that should have been stored in LFS.
pub open spec fn lfs_entries(es: Seq<Entry>, base: Seq<char>, threshold: u64) -> Seq<(Seq<char>, u64)>
    decreases es,
{
    if es.len() == 0 {
        Seq::empty()
    } else {
        lfs_entries(es.drop_last(), base, threshold) + lfs_entry(es.last(), base, threshold)
    }
}

/// The views of reported blobs.
pub open spec fn blob_views(v: Seq<(String, u64)>) -> Seq<(Seq<char>, u64)> {
    v.map_values(|b: (String, u64)| (b.0@, b.1))
}

/// Whether `attr` is the LFS marker.
pub fn is_lfs_attr(attr: &Option<String>) -> (r: bool)
    ensures
        r == (attr_view(*attr) == Some(lfs_marker())),
{
    proof {
        reveal_strlit("lfs");
        assert("lfs"@ =~= lfs_marker());
    }
    match attr {
        Some(a) => {
            let r = a.as_str().unicode_len() == 3 && starts_with(a.as_str(), "lfs");
            proof {
                if r || a@ == lfs_marker() {
                    assert(a@ =~= a@.take(3));
                }
            }
            r
        },
        None => false,
    }
}

/// Decides one blob: its attribute marks it for LFS, yet its inline content
/// is at least `threshold` bytes long.
pub fn is_oversized_lfs_blob(attr: &Option<String>, size: u64, threshold: u64) -> (r: bool)
    ensures
        r == should_be_in_lfs(attr_view(*attr), size, threshold),
{
    is_lfs_attr(attr) && size >= threshold
}

fn collect_lfs_entry(e: &Entry, base: &String, threshold: u64, out: &mut Vec<(String, u64)>)
    ensures
        blob_views(final(out)@) == blob_views(old(out)@) + lfs_entry(*e, base@, threshold),
    decreases e,
{
    let ghost start = blob_views(out@);
    match e {
        Entry::Dir { name: Some(n), children } => {
            let p = join_path(base, n);
            collect_lfs_entries(children, &p, threshold, out);
        },
        Entry::Blob { name: Some(n), size, merge_attr } => {
            if is_oversized_lfs_blob(merge_attr, *size, threshold) {
                out.push((join_path(base, n), *size));
            }
        },
        _ => {},
    }
    assert(blob_views(out@) =~= start + lfs_entry(*e, base@, threshold));
}

fn collect_lfs_entries(es: &Vec<Entry>, base: &String, threshold: u64, out: &mut Vec<(String, u64)>)
    ensures
        blob_views(final(out)@) == blob_views(old(out)@) + lfs_entries(es@, base@, threshold),
    decreases es,
{
    let ghost start = blob_views(out@);
    let mut i: usize = 0;
    while i < es.len()
        invariant
            i <= es.len(),
            blob_views(out@) == start + lfs_entries(es@.take(i as int), base@, threshold),
        decreases es.len() - i,
    {
        assert(es@.take(i as int + 1).drop_last() =~= es@.take(i as int));
        collect_lfs_entry(&es[i], base, threshold, out);
        i = i + 1;
    }
    assert(es@.take(i as int) =~= es@);
}

/// Every blob of the tree that is marked for LFS yet stored inline with at
/// least `threshold` bytes, with its path and size, in walk order.
pub fn lfs_violations(root: &Vec<Entry>, threshold: u64) -> (r: Vec<(String, u64)>)
    ensures
        blob_views(r@) == lfs_entries(root@, Seq::empty(), threshold),
{
    let mut out: Vec<(String, u64)> = Vec::new();
    collect_lfs_entries(root, &String::new(), threshold, &mut out);
    assert(blob_views(out@) =~= Seq::<(Seq<char>, u64)>::empty() + lfs_entries(root@, Seq::empty(), threshold));
    out
}

/// The number of blobs reported by [`lfs_violations`].
pub fn lfs_violation_count(root: &Vec<Entry>, threshold: u64) -> (r: usize)
    ensures
        r == lfs_entries(root@, Seq::empty(), threshold).len(),
{
    lfs_violations(root, threshold).len()
}

/// A blob is reported once when it is marked for LFS and at least
/// `threshold` bytes long, and never otherwise, whatever its size.
pub proof fn blob_reported_once_iff_marked_and_large(
    name: String,
    size: u64,
    merge_attr: Option<String>,
    base: Seq<char>,
    threshold: u64,
)
    ensures
        lfs_entry(Entry::Blob { name: Some(name), size, merge_attr }, base, threshold).len()
            == if attr_view(merge_attr) == Some(lfs_marker()) && size >= threshold { 1int } else { 0int },
{
}

} // verus!
