use vstd::prelude::*;
use crate::tree::{child_path, join_path, views, Entry};

verus! {

/// Logical paths of the directories and blobs of `e` (under `base`), in
/// pre-order: a directory comes before its contents.
pub open spec fn entry_paths(e: Entry, base: Seq<char>) -> Seq<Seq<char>>
    decreases e,
{
    match e {
        Entry::Dir { name: Some(n), children } => {
            let p = child_path(base, n@);
            seq![p] + entries_paths(children@, p)
        },
        Entry::Blob { name: Some(n), .. } => seq![child_path(base, n@)],
        _ => Seq::empty(),
    }
}

/// Logical paths of every directory and blob in `es`, in pre-order.
pub open spec fn entries_paths(es: Seq<Entry>, base: Seq<char>) -> Seq<Seq<char>>
    decreases es,
{
    if es.len() == 0 {
        Seq::empty()
    } else {
        entries_paths(es.drop_last(), base) + entry_paths(es.last(), base)
    }
}


/// Appends to `out` the logical paths of `e` under `base`, in pre-order.
fn collect_entry(e: &Entry, base: &String, out: &mut Vec<String>)
    ensures
        views(final(out)@) == views(old(out)@) + entry_paths(*e, base@),
    decreases e,
{
    match e {
        Entry::Dir { name: Some(n), children } => {
            let p = join_path(base, n);
            out.push(p.clone());
            collect_entries(children, &p, out);
        },
        Entry::Blob { name: Some(n), .. } => {
            out.push(join_path(base, n));
        },
        _ => {},
    }
}

/// Appends to `out` the logical paths of every entry of `es` under `base`,
/// in pre-order.
fn collect_entries(es: &Vec<Entry>, base: &String, out: &mut Vec<String>)
    ensures
        views(final(out)@) == views(old(out)@) + entries_paths(es@, base@),
    decreases es,
{
    let ghost start = views(out@);
    let mut i: usize = 0;
    while i < es.len()
        invariant
            i <= es.len(),
            views(out@) == start + entries_paths(es@.take(i as int), base@),
        decreases es.len() - i,
    {
        assert(es@.take(i as int + 1).drop_last() =~= es@.take(i as int));
        collect_entry(&es[i], base, out);
        i = i + 1;
    }
    assert(es@.take(i as int) =~= es@);
}

/// The logical path of every directory and blob of the tree, in pre-order.
pub fn logical_paths(root: &Vec<Entry>) -> (r: Vec<String>)
    ensures
        views(r@) == entries_paths(root@, Seq::empty()),
{
    let mut out: Vec<String> = Vec::new();
    collect_entries(root, &String::new(), &mut out);
    assert(views(out@) =~= Seq::<Seq<char>>::empty() + entries_paths(root@, Seq::empty()));
    out
}


/// The locale-independent lowercase form of a string.
pub uninterp spec fn lower_of(s: Seq<char>) -> Seq<char>;

/// Relies on `str::to_lowercase`: Unicode lowercase mapping, which depends on
/// the characters alone (no locale).
#[verifier::external_body]
fn lowercase(s: &str) -> (r: String)
    ensures
        r@ == lower_of(s@),
{
    s.to_lowercase()
}

/// The case-folded key of each path.
pub open spec fn folded(paths: Seq<Seq<char>>) -> Seq<Seq<char>> {
    paths.map_values(|p: Seq<char>| lower_of(p))
}

/// The entries of `paths` whose key in `keys` (same position) already occurs
/// at an earlier position: each occurrence of a key after its first.
pub open spec fn repeated(paths: Seq<Seq<char>>, keys: Seq<Seq<char>>) -> Seq<Seq<char>>
    decreases keys.len(),
{
    if keys.len() == 0 || paths.len() == 0 {
        Seq::empty()
    } else {
        let rest = repeated(paths.drop_last(), keys.drop_last());
        if keys.drop_last().contains(keys.last()) {
            rest.push(paths.last())
        } else {
            rest
        }
    }
}

/// Whether `keys[i]` occurs among `keys[0..i]`.
fn occurs_before(keys: &Vec<String>, i: usize) -> (r: bool)
    requires
        i < keys.len(),
    ensures
        r == views(keys@).take(i as int).contains(keys@[i as int]@),
{
    let ghost ks = views(keys@);
    let mut j: usize = 0;
    while j < i
        invariant
            i < keys.len(),
            j <= i,
            ks == views(keys@),
            forall|k: int| 0 <= k < j ==> ks[k] != ks[i as int],
        decreases i - j,
    {
        if keys[j] == keys[i] {
            assert(ks.take(i as int)[j as int] == ks[i as int]);
            return true;
        }
        j = j + 1;
    }
    assert forall|k: int| 0 <= k < ks.take(i as int).len() implies ks.take(i as int)[k] != ks[i as int] by {
        assert(ks.take(i as int)[k] == ks[k]);
    }
    false
}

/// Given the logical paths of a tree and their case-folded keys, lists the
/// paths whose key was already seen at an earlier position.
pub fn find_repeats(paths: &Vec<String>, keys: &Vec<String>) -> (r: Vec<String>)
    requires
        paths.len() == keys.len(),
    ensures
        views(r@) == repeated(views(paths@), views(keys@)),
{
    let ghost ps = views(paths@);
    let ghost ks = views(keys@);
    let mut out: Vec<String> = Vec::new();
    let mut i: usize = 0;
    while i < keys.len()
        invariant
            paths.len() == keys.len(),
            i <= keys.len(),
            ps == views(paths@),
            ks == views(keys@),
            views(out@) == repeated(ps.take(i as int), ks.take(i as int)),
        decreases keys.len() - i,
    {
        let ghost pi = ps.take(i as int + 1);
        let ghost ki = ks.take(i as int + 1);
        assert(pi.drop_last() =~= ps.take(i as int));
        assert(ki.drop_last() =~= ks.take(i as int));
        if occurs_before(keys, i) {
            out.push(paths[i].clone());
            assert(views(out@) =~= repeated(ps.take(i as int), ks.take(i as int)).push(ps[i as int]));
        }
        i = i + 1;
    }
    assert(ps.take(i as int) =~= ps);
    assert(ks.take(i as int) =~= ks);
    out
}

/// Lists every directory or blob whose logical path equals, after
/// lowercasing, the path of an entry met earlier in pre-order.
pub fn case_collisions(root: &Vec<Entry>) -> (r: Vec<String>)
    ensures
        views(r@) == repeated(entries_paths(root@, Seq::empty()), folded(entries_paths(root@, Seq::empty()))),
{
    let paths = logical_paths(root);
    let ghost ps = views(paths@);
    let mut keys: Vec<String> = Vec::new();
    let mut i: usize = 0;
    while i < paths.len()
        invariant
            i <= paths.len(),
            ps == views(paths@),
            views(keys@) == folded(ps.take(i as int)),
        decreases paths.len() - i,
    {
        keys.push(lowercase(paths[i].as_str()));
        assert(folded(ps.take(i as int + 1)) =~= folded(ps.take(i as int)).push(lower_of(ps[i as int])));
        i = i + 1;
    }
    assert(ps.take(i as int) =~= ps);
    find_repeats(&paths, &keys)
}

/// The number of case collisions in the tree (see [`case_collisions`]).
pub fn case_collision_count(root: &Vec<Entry>) -> (r: usize)
    ensures
        r == repeated(entries_paths(root@, Seq::empty()), folded(entries_paths(root@, Seq::empty()))).len(),
{
    case_collisions(root).len()
}


/// Each key beyond the first occurrence of its value is reported once: the
/// number of repeats is the number of keys less the number of distinct keys.
pub proof fn lemma_repeated_len(paths: Seq<Seq<char>>, keys: Seq<Seq<char>>)
    requires
        paths.len() == keys.len(),
    ensures
        repeated(paths, keys).len() + keys.to_set().len() == keys.len(),
    decreases keys.len(),
{
    broadcast use {vstd::set::group_set_axioms, vstd::seq_lib::seq_to_set_is_finite};
    if keys.len() == 0 {
        assert(keys.to_set() =~= Set::empty());
    } else {
        let init = keys.drop_last();
        lemma_repeated_len(paths.drop_last(), init);
        assert(init.to_set().insert(keys.last()) =~= keys.to_set()) by {
            assert forall|x| keys.to_set().contains(x) implies init.to_set().insert(keys.last()).contains(x) by {
                let k = choose|k: int| 0 <= k < keys.len() && keys[k] == x;
                if k < keys.len() - 1 {
                    assert(init[k] == x);
                }
            }
            assert forall|x| init.to_set().insert(keys.last()).contains(x) implies keys.to_set().contains(x) by {
                if x != keys.last() {
                    let k = choose|k: int| 0 <= k < init.len() && init[k] == x;
                    assert(keys[k] == x);
                }
            }
        }
    }
}

/// A tree in which no two directories or blobs share a logical path up to
/// letter case has no case collision.
pub proof fn case_collisions_absent_when_paths_distinct(root: Seq<Entry>)
    requires
        ({
            let keys = folded(entries_paths(root, Seq::empty()));
            forall|i: int, j: int| 0 <= i < j < keys.len() ==> keys[i] != keys[j]
        }),
    ensures
        repeated(entries_paths(root, Seq::empty()), folded(entries_paths(root, Seq::empty()))).len() == 0,
{
    let paths = entries_paths(root, Seq::empty());
    let keys = folded(paths);
    lemma_repeated_len(paths, keys);
    assert(keys.no_duplicates());
    keys.unique_seq_to_set();
}

/// The number of case collisions of a tree is the number of its directories
/// and blobs beyond the first of each group whose paths agree up to case
/// (three paths folding to one key count two).
pub proof fn case_collisions_count_extra_occurrences(root: Seq<Entry>)
    ensures
        ({
            let paths = entries_paths(root, Seq::empty());
            repeated(paths, folded(paths)).len() == paths.len() - folded(paths).to_set().len()
        }),
{
    let paths = entries_paths(root, Seq::empty());
    lemma_repeated_len(paths, folded(paths));
}

} // verus!
