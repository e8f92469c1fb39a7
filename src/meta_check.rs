use vstd::prelude::*;
use vstd::string::StrSliceExecFns;
use vstd::string::StringExecFns;
use crate::tree::{child_path, entry_name, ends_with, has_prefix, has_suffix, join_path, starts_with, views, Entry};

verus! {

/// Names that Unity skips: hidden ones (leading `.`) and backups (trailing `~`).
pub open spec fn ignored_name(n: Seq<char>) -> bool {
    has_prefix(n, seq!['.']) || has_suffix(n, seq!['~'])
}

/// The suffix that marks a sidecar metadata file.
pub open spec fn sidecar_suffix() -> Seq<char> {
    seq!['.', 'm', 'e', 't', 'a']
}

/// A name of the form `<stem>.meta` with a non-empty stem.
pub open spec fn sidecar_name(n: Seq<char>) -> bool {
    n.len() > sidecar_suffix().len() && has_suffix(n, sidecar_suffix())
}

/// A path with its sidecar suffix removed.
pub open spec fn strip_sidecar(p: Seq<char>) -> Seq<char> {
    p.take(p.len() - sidecar_suffix().len())
}

/// The prefix of every path under the asset subtree.
pub open spec fn asset_prefix() -> Seq<char> {
    seq!['A', 's', 's', 'e', 't', 's', '/']
}

/// Whether a path lies strictly inside the asset subtree.
pub open spec fn under_assets(p: Seq<char>) -> bool {
    has_prefix(p, asset_prefix()) && p.len() > asset_prefix().len()
}

/// What the sidecar check records for `e` under `base`: pairs of a base path
/// and whether the entry was a sidecar. An ignored name contributes nothing,
/// nor does anything beneath it; a directory is recorded as content after
/// its contents.
pub open spec fn meta_entry(e: Entry, base: Seq<char>) -> Seq<(Seq<char>, bool)>
    decreases e,
{
    match e {
        Entry::Dir { name: Some(n), children } => {
            if ignored_name(n@) {
                Seq::empty()
            } else {
                let p = child_path(base, n@);
                meta_entries(children@, p).push((p, false))
            }
        },
        Entry::Blob { name: Some(n), .. } => {
            if ignored_name(n@) {
                Seq::empty()
            } else if sidecar_name(n@) {
                seq![(strip_sidecar(child_path(base, n@)), true)]
            } else {
                seq![(child_path(base, n@), false)]
            }
        },
        _ => Seq::empty(),
    }
}

/// What the sidecar check records for the entries `es` under `base`.
pub open spec fn meta_entries(es: Seq<Entry>, base: Seq<char>) -> Seq<(Seq<char>, bool)>
    decreases es,
{
    if es.len() == 0 {
        Seq::empty()
    } else {
        meta_entries(es.drop_last(), base) + meta_entry(es.last(), base)
    }
}

/// The views of recorded pairs.
pub open spec fn record_views(v: Seq<(String, bool)>) -> Seq<(Seq<char>, bool)> {
    v.map_values(|r: (String, bool)| (r.0@, r.1))
}

/// Whether a name is skipped by the sidecar check.
pub fn is_ignored(name: &str) -> (r: bool)
    ensures
        r == ignored_name(name@),
{
    proof {
        reveal_strlit(".");
        reveal_strlit("~");
        assert("."@ =~= seq!['.']);
        assert("~"@ =~= seq!['~']);
    }
    starts_with(name, ".") || ends_with(name, "~")
}

/// Whether a name is that of a sidecar file.
pub fn is_sidecar(name: &str) -> (r: bool)
    ensures
        r == sidecar_name(name@),
{
    proof {
        reveal_strlit(".meta");
        assert(".meta"@ =~= sidecar_suffix());
    }
    name.unicode_len() > 5 && ends_with(name, ".meta")
}

/// Whether a path lies strictly inside the asset subtree.
pub fn is_under_assets(path: &str) -> (r: bool)
    ensures
        r == under_assets(path@),
{
    proof {
        reveal_strlit("Assets/");
        assert("Assets/"@ =~= asset_prefix());
    }
    path.unicode_len() > 7 && starts_with(path, "Assets/")
}

fn collect_meta_entry(e: &Entry, base: &String, out: &mut Vec<(String, bool)>)
    ensures
        record_views(final(out)@) == record_views(old(out)@) + meta_entry(*e, base@),
    decreases e,
{
    let ghost start = record_views(out@);
    match e {
        Entry::Dir { name: Some(n), children } => {
            if !is_ignored(n.as_str()) {
                let p = join_path(base, n);
                collect_meta_entries(children, &p, out);
                let ghost mid = out@;
                out.push((p, false));
                assert(out@ =~= mid.push((p, false)));
                assert(record_views(out@) =~= record_views(mid).push((p@, false)));
                assert(record_views(out@) =~= start + meta_entry(*e, base@));
            }
        },
        Entry::Blob { name: Some(n), .. } => {
            if !is_ignored(n.as_str()) {
                let p = join_path(base, n);
                if is_sidecar(n.as_str()) {
                    let len = p.as_str().unicode_len();
                    let b = String::from_str(p.as_str().substring_char(0, len - 5));
                    out.push((b, true));
                } else {
                    out.push((p, false));
                }
                assert(record_views(out@) =~= start + meta_entry(*e, base@));
            }
        },
        _ => {},
    }
    assert(record_views(out@) =~= start + meta_entry(*e, base@));
}

fn collect_meta_entries(es: &Vec<Entry>, base: &String, out: &mut Vec<(String, bool)>)
    ensures
        record_views(final(out)@) == record_views(old(out)@) + meta_entries(es@, base@),
    decreases es,
{
    let ghost start = record_views(out@);
    let mut i: usize = 0;
    while i < es.len()
        invariant
            i <= es.len(),
            record_views(out@) == start + meta_entries(es@.take(i as int), base@),
        decreases es.len() - i,
    {
        assert(es@.take(i as int + 1).drop_last() =~= es@.take(i as int));
        collect_meta_entry(&es[i], base, out);
        i = i + 1;
    }
    assert(es@.take(i as int) =~= es@);
}

/// The pairs that the sidecar check records for the tree, in walk order.
pub fn meta_records(root: &Vec<Entry>) -> (r: Vec<(String, bool)>)
    ensures
        record_views(r@) == meta_entries(root@, Seq::empty()),
{
    let mut out: Vec<(String, bool)> = Vec::new();
    collect_meta_entries(root, &String::new(), &mut out);
    assert(record_views(out@) =~= Seq::<(Seq<char>, bool)>::empty() + meta_entries(root@, Seq::empty()));
    out
}


/// What is known of one base path: whether its content entry and its sidecar
/// were seen.
#[derive(Clone, Copy, Debug, PartialEq, Eq, Structural)]
pub struct MetaStatus {
    pub has_content: bool,
    pub has_sidecar: bool,
}

impl MetaStatus {
    /// The status of a path whose content entry was seen.
    pub fn file() -> (r: Self)
        ensures
            r.has_content && !r.has_sidecar,
    {
        MetaStatus { has_content: true, has_sidecar: false }
    }

    /// The status of a path whose sidecar was seen.
    pub fn meta() -> (r: Self)
        ensures
            !r.has_content && r.has_sidecar,
    {
        MetaStatus { has_content: false, has_sidecar: true }
    }
}

/// A content entry was recorded at `k`.
pub open spec fn has_content(rs: Seq<(Seq<char>, bool)>, k: Seq<char>) -> bool {
    rs.contains((k, false))
}

/// A sidecar was recorded at `k`.
pub open spec fn has_sidecar(rs: Seq<(Seq<char>, bool)>, k: Seq<char>) -> bool {
    rs.contains((k, true))
}

/// Some entry was recorded at `k`.
pub open spec fn recorded(rs: Seq<(Seq<char>, bool)>, k: Seq<char>) -> bool {
    has_content(rs, k) || has_sidecar(rs, k)
}

/// `k` is a recorded path inside the asset subtree that lacks its content
/// entry or its sidecar.
pub open spec fn unpaired(rs: Seq<(Seq<char>, bool)>, k: Seq<char>) -> bool {
    under_assets(k) && recorded(rs, k) && !(has_content(rs, k) && has_sidecar(rs, k))
}

/// `keys` and `sts` form the status table of the records `rs`: one row per
/// recorded base path, with the flags merged over all its records.
pub open spec fn status_table(rs: Seq<(Seq<char>, bool)>, keys: Seq<Seq<char>>, sts: Seq<MetaStatus>) -> bool {
    &&& keys.len() == sts.len()
    &&& keys.no_duplicates()
    &&& forall|i: int| 0 <= i < keys.len() ==> {
        &&& (#[trigger] sts[i]).has_content == has_content(rs, keys[i])
        &&& sts[i].has_sidecar == has_sidecar(rs, keys[i])
    }
    &&& forall|k: Seq<char>| #[trigger] recorded(rs, k) <==> keys.contains(k)
}

proof fn lemma_push_contains<A>(s: Seq<A>, a: A, x: A)
    ensures
        s.push(a).contains(x) <==> (s.contains(x) || x == a),
{
    if s.contains(x) {
        let j = choose|j: int| 0 <= j < s.len() && s[j] == x;
        assert(s.push(a)[j] == x);
    }
    if x == a {
        assert(s.push(a)[s.len() as int] == x);
    }
    if s.push(a).contains(x) {
        let j = choose|j: int| 0 <= j < s.len() + 1 && s.push(a)[j] == x;
        if j < s.len() {
            assert(s[j] == x);
        }
    }
}

proof fn lemma_record_step(pre: Seq<(Seq<char>, bool)>, r: (Seq<char>, bool), k: Seq<char>)
    ensures
        has_content(pre.push(r), k) == (has_content(pre, k) || r == (k, false)),
        has_sidecar(pre.push(r), k) == (has_sidecar(pre, k) || r == (k, true)),
{
    lemma_push_contains(pre, r, (k, false));
    lemma_push_contains(pre, r, (k, true));
}

/// The index of `k` in `keys`, if it is there.
fn position_of(keys: &Vec<String>, k: &String) -> (r: Option<usize>)
    ensures
        match r {
            Some(j) => j < keys.len() && keys@[j as int]@ == k@,
            None => !views(keys@).contains(k@),
        },
{
    let mut j: usize = 0;
    while j < keys.len()
        invariant
            j <= keys.len(),
            forall|i: int| 0 <= i < j ==> keys@[i]@ != k@,
        decreases keys.len() - j,
    {
        if keys[j] == *k {
            return Some(j);
        }
        j = j + 1;
    }
    proof {
        let ks = views(keys@);
        if ks.contains(k@) {
            let i = choose|i: int| 0 <= i < ks.len() && ks[i] == k@;
            assert(keys@[i]@ == k@);
        }
    }
    None
}

/// Merges the records into a table with one row per base path: its key and
/// whether a content entry and a sidecar were recorded there.
pub fn meta_statuses(records: &Vec<(String, bool)>) -> (r: (Vec<String>, Vec<MetaStatus>))
    ensures
        status_table(record_views(records@), views(r.0@), r.1@),
{
    let ghost rs = record_views(records@);
    let mut keys: Vec<String> = Vec::new();
    let mut sts: Vec<MetaStatus> = Vec::new();
    let mut i: usize = 0;
    while i < records.len()
        invariant
            i <= records.len(),
            rs == record_views(records@),
            status_table(rs.take(i as int), views(keys@), sts@),
        decreases records.len() - i,
    {
        let ghost pre = rs.take(i as int);
        let ghost cur = rs.take(i as int + 1);
        let ghost r = rs[i as int];
        assert(cur =~= pre.push(r));
        let is_side = records[i].1;
        let ghost old_keys = views(keys@);
        let ghost old_sts = sts@;
        match position_of(&keys, &records[i].0) {
            Some(j) => {
                let st = sts[j];
                let merged = if is_side {
                    MetaStatus { has_content: st.has_content, has_sidecar: true }
                } else {
                    MetaStatus { has_content: true, has_sidecar: st.has_sidecar }
                };
                sts.set(j, merged);
                assert forall|a: int| 0 <= a < old_keys.len() implies {
                    &&& (#[trigger] sts@[a]).has_content == has_content(cur, old_keys[a])
                    &&& sts@[a].has_sidecar == has_sidecar(cur, old_keys[a])
                } by {
                    lemma_record_step(pre, r, old_keys[a]);
                    if a != j {
                        assert(old_keys[a] != old_keys[j as int]);
                    }
                }
                assert forall|k: Seq<char>| #[trigger] recorded(cur, k) <==> views(keys@).contains(k) by {
                    lemma_record_step(pre, r, k);
                    assert(recorded(pre, k) <==> old_keys.contains(k));
                    if k == r.0 {
                        assert(old_keys[j as int] == k);
                    }
                }
            },
            None => {
                let k0 = records[i].0.clone();
                keys.push(k0);
                sts.push(if is_side { MetaStatus::meta() } else { MetaStatus::file() });
                let ghost nk = views(keys@);
                assert(nk =~= old_keys.push(r.0));
                assert forall|k: Seq<char>| #[trigger] recorded(cur, k) <==> nk.contains(k) by {
                    lemma_record_step(pre, r, k);
                    assert(recorded(pre, k) <==> old_keys.contains(k));
                    lemma_push_contains(old_keys, r.0, k);
                }
                assert forall|a: int, b: int| 0 <= a < b < nk.len() implies nk[a] != nk[b] by {
                    if b == nk.len() - 1 {
                        assert(old_keys.contains(nk[a]));
                    }
                }
                assert forall|a: int| 0 <= a < nk.len() implies {
                    &&& (#[trigger] sts@[a]).has_content == has_content(cur, nk[a])
                    &&& sts@[a].has_sidecar == has_sidecar(cur, nk[a])
                } by {
                    lemma_record_step(pre, r, nk[a]);
                    if a < nk.len() - 1 {
                        assert(old_keys.contains(nk[a]));
                        assert(nk[a] != r.0);
                        assert(old_sts[a] == sts@[a]);
                    } else {
                        assert(r.0 == records@[i as int].0@ && r.1 == is_side);
                        assert(!old_keys.contains(r.0));
                        assert(!recorded(pre, r.0));
                    }
                }
            },
        }
        i = i + 1;
    }
    assert(rs.take(i as int) =~= rs);
    (keys, sts)
}


/// The paths of reported violations.
pub open spec fn violation_paths(v: Seq<(String, MetaStatus)>) -> Seq<Seq<char>> {
    v.map_values(|x: (String, MetaStatus)| x.0@)
}

/// `v` reports each unpaired base path of the records `rs` exactly once,
/// with its merged flags.
pub open spec fn reports_unpaired(rs: Seq<(Seq<char>, bool)>, v: Seq<(String, MetaStatus)>) -> bool {
    &&& violation_paths(v).no_duplicates()
    &&& forall|i: int| 0 <= i < v.len() ==> {
        &&& (#[trigger] v[i]).1.has_content == has_content(rs, v[i].0@)
        &&& v[i].1.has_sidecar == has_sidecar(rs, v[i].0@)
    }
    &&& forall|k: Seq<char>| #[trigger] unpaired(rs, k) <==> violation_paths(v).contains(k)
}

/// Every base path inside the asset subtree that lacks its content entry or
/// its sidecar, with what was seen of it.
pub fn sidecar_violations(root: &Vec<Entry>) -> (r: Vec<(String, MetaStatus)>)
    ensures
        reports_unpaired(meta_entries(root@, Seq::empty()), r@),
{
    let records = meta_records(root);
    let ghost rs = record_views(records@);
    let (keys, sts) = meta_statuses(&records);
    let ghost ks = views(keys@);
    let mut out: Vec<(String, MetaStatus)> = Vec::new();
    let mut i: usize = 0;
    while i < keys.len()
        invariant
            i <= keys.len(),
            ks == views(keys@),
            status_table(rs, ks, sts@),
            violation_paths(out@).no_duplicates(),
            forall|a: int| 0 <= a < out.len() ==> {
                &&& (#[trigger] out@[a]).1.has_content == has_content(rs, out@[a].0@)
                &&& out@[a].1.has_sidecar == has_sidecar(rs, out@[a].0@)
            },
            forall|k: Seq<char>| #[trigger] violation_paths(out@).contains(k) <==> (ks.take(i as int).contains(k) && unpaired(rs, k)),
        decreases keys.len() - i,
    {
        let ghost old_out = out@;
        let ghost vp = violation_paths(out@);
        let ghost k = ks[i as int];
        assert(ks.take(i as int + 1) =~= ks.take(i as int).push(k));
        assert(ks.contains(k));
        assert(recorded(rs, k));
        let st = sts[i];
        if is_under_assets(keys[i].as_str()) && !(st.has_content && st.has_sidecar) {
            out.push((keys[i].clone(), st));
            assert(violation_paths(out@) =~= vp.push(k));
            assert(!vp.contains(k)) by {
                if vp.contains(k) {
                    let a = choose|a: int| 0 <= a < i && ks.take(i as int)[a] == k;
                    assert(ks[a] == ks[i as int]);
                }
            }
            assert forall|a: int, b: int| 0 <= a < b < out.len() implies violation_paths(out@)[a] != violation_paths(out@)[b] by {
                if b == out.len() - 1 {
                    assert(vp.contains(violation_paths(out@)[a]));
                }
            }
            assert forall|a: int| 0 <= a < out.len() implies {
                &&& (#[trigger] out@[a]).1.has_content == has_content(rs, out@[a].0@)
                &&& out@[a].1.has_sidecar == has_sidecar(rs, out@[a].0@)
            } by {
                if a < out.len() - 1 {
                    assert(out@[a] == old_out[a]);
                }
            }
            assert forall|x: Seq<char>| #[trigger] violation_paths(out@).contains(x) <==> (ks.take(i as int + 1).contains(x) && unpaired(rs, x)) by {
                lemma_push_contains(vp, k, x);
                lemma_push_contains(ks.take(i as int), k, x);
            }
        } else {
            assert forall|x: Seq<char>| #[trigger] violation_paths(out@).contains(x) <==> (ks.take(i as int + 1).contains(x) && unpaired(rs, x)) by {
                lemma_push_contains(ks.take(i as int), k, x);
            }
        }
        i = i + 1;
    }
    assert(ks.take(i as int) =~= ks);
    out
}

/// The number of unpaired base paths inside the asset subtree.
pub fn sidecar_violation_count(root: &Vec<Entry>) -> (r: usize)
    ensures
        r == Set::new(|k: Seq<char>| unpaired(meta_entries(root@, Seq::empty()), k)).len(),
{
    let v = sidecar_violations(root);
    proof {
        let rs = meta_entries(root@, Seq::empty());
        let vp = violation_paths(v@);
        assert(vp.to_set() =~= Set::new(|k: Seq<char>| unpaired(rs, k)));
        vp.unique_seq_to_set();
    }
    v.len()
}


/// A base path inside the asset subtree for which both a content entry and a
/// sidecar were recorded is not reported.
pub proof fn paired_path_not_reported(root: Seq<Entry>, k: Seq<char>)
    requires
        under_assets(k),
        has_content(meta_entries(root, Seq::empty()), k),
        has_sidecar(meta_entries(root, Seq::empty()), k),
    ensures
        !unpaired(meta_entries(root, Seq::empty()), k),
{
}

/// Where a base path inside the asset subtree has its content entry and its
/// sidecar, each recorded once, dropping either record makes the path
/// reported.
pub proof fn dropping_one_of_a_pair_reports_path(rs: Seq<(Seq<char>, bool)>, k: Seq<char>, i: int)
    requires
        under_assets(k),
        has_content(rs, k),
        has_sidecar(rs, k),
        0 <= i < rs.len(),
        rs[i].0 == k,
        forall|j: int| 0 <= j < rs.len() && j != i ==> rs[j] != rs[i],
    ensures
        unpaired(rs.remove(i), k),
{
    let rest = rs.remove(i);
    let other = (k, !rs[i].1);
    let j = choose|j: int| 0 <= j < rs.len() && rs[j] == other;
    if j < i {
        assert(rest[j] == other);
    } else {
        assert(rest[j - 1] == other);
    }
    if rest.contains(rs[i]) {
        let a = choose|a: int| 0 <= a < rest.len() && rest[a] == rs[i];
        if a < i {
            assert(rs[a] == rs[i]);
        } else {
            assert(rs[a + 1] == rs[i]);
        }
    }
}

/// Records of consecutive entry lists concatenate.
pub proof fn lemma_meta_entries_append(a: Seq<Entry>, b: Seq<Entry>, base: Seq<char>)
    ensures
        meta_entries(a + b, base) == meta_entries(a, base) + meta_entries(b, base),
    decreases b.len(),
{
    if b.len() == 0 {
        assert(a + b =~= a);
        assert(meta_entries(a, base) + meta_entries(b, base) =~= meta_entries(a, base));
    } else {
        assert((a + b).drop_last() =~= a + b.drop_last());
        assert((a + b).last() == b.last());
        lemma_meta_entries_append(a, b.drop_last(), base);
        assert(meta_entries(a + b, base) =~= meta_entries(a, base) + meta_entries(b, base));
    }
}

/// An entry with a hidden or backup name, wherever it is inserted among
/// the entries of a directory, changes nothing that the sidecar check
/// records: neither it nor anything beneath it is ever looked at.
pub proof fn ignored_entry_leaves_no_record(es: Seq<Entry>, i: int, e: Entry, n: Seq<char>, base: Seq<char>)
    requires
        0 <= i <= es.len(),
        entry_name(e) == Some(n),
        ignored_name(n),
    ensures
        meta_entries(es.insert(i, e), base) == meta_entries(es, base),
{
    let pre = es.take(i);
    let post = es.skip(i);
    assert(es.insert(i, e) =~= pre + seq![e] + post);
    assert(es =~= pre + post);
    lemma_meta_entries_append(pre + seq![e], post, base);
    lemma_meta_entries_append(pre, seq![e], base);
    lemma_meta_entries_append(pre, post, base);
    assert(seq![e].drop_last() =~= Seq::<Entry>::empty());
    assert(seq![e].last() == e);
    assert(meta_entry(e, base) =~= Seq::empty()) by {
        match e {
            Entry::Dir { name: Some(m), .. } => assert(m@ == n),
            Entry::Blob { name: Some(m), .. } => assert(m@ == n),
            _ => {},
        }
    }
    assert(meta_entries(Seq::<Entry>::empty(), base) =~= Seq::empty());
    assert(meta_entries(seq![e], base) =~= Seq::empty());
    assert(meta_entries(pre, base) + meta_entries(seq![e], base) =~= meta_entries(pre, base));
}

} // verus!
