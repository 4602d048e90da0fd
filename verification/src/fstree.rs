//! An in-memory model of a directory tree.
//!
//! A tree is a flat list of entries, each an absolute path (a list of
//! components) together with what sits at that path: a directory, or a text
//! file with its contents.  The abstract view of a tree is a map from paths
//! (as sequences of character sequences) to [`Item`] values, and every
//! operation is specified as a transformation of that map.

use vstd::prelude::*;

use crate::error::Error;

verus! {

/// The abstract content of one path: a directory, or a file's text.
pub enum Item {
    Dir,
    File(Seq<char>),
}

/// The concrete content of one path.
pub enum FsItem {
    Dir,
    File { content: String },
}

/// One path of the tree together with what sits there.
pub struct FsEntry {
    pub path: Vec<String>,
    pub item: FsItem,
}

/// A directory tree, as the list of all paths it holds.
pub struct Fs {
    pub entries: Vec<FsEntry>,
}

/// The abstract value of a path: each component as its character sequence.
pub open spec fn path_view(p: Seq<String>) -> Seq<Seq<char>> {
    p.map_values(|s: String| s@)
}

/// The abstract value of one entry's content.
pub open spec fn item_view(it: FsItem) -> Item {
    match it {
        FsItem::Dir => Item::Dir,
        FsItem::File { content } => Item::File(content@),
    }
}

/// The abstract value of a list of entries: a map from paths to contents.
/// A later entry for the same path wins, though well-formed trees have no
/// duplicate paths.
pub open spec fn entries_map(s: Seq<FsEntry>) -> Map<Seq<Seq<char>>, Item>
    decreases s.len(),
{
    if s.len() == 0 {
        Map::empty()
    } else {
        entries_map(s.drop_last()).insert(
            path_view(s.last().path@),
            item_view(s.last().item),
        )
    }
}

/// No two entries name the same path, and no entry has an empty path.
pub open spec fn wf_entries(s: Seq<FsEntry>) -> bool {
    &&& forall|i: int, j: int|
        0 <= i < j < s.len() ==> path_view(s[i].path@) != path_view(s[j].path@)
    &&& forall|i: int| 0 <= i < s.len() ==> #[trigger] s[i].path@.len() >= 1
}

impl View for Fs {
    type V = Map<Seq<Seq<char>>, Item>;

    open spec fn view(&self) -> Self::V {
        entries_map(self.entries@)
    }
}

impl Fs {
    /// The tree's invariant: distinct, nonempty paths.
    pub open spec fn wf(&self) -> bool {
        wf_entries(self.entries@)
    }

    /// An empty tree.
    pub fn new() -> (r: Fs)
        ensures
            r.wf(),
            r@ == Map::<Seq<Seq<char>>, Item>::empty(),
            r.entries@.len() == 0,
    {
        Fs { entries: Vec::new() }
    }
}

/// `k` lies strictly below `p`.
pub open spec fn strictly_under(k: Seq<Seq<char>>, p: Seq<Seq<char>>) -> bool {
    p.is_prefix_of(k) && k.len() > p.len()
}

/// A path occurs in a list of entries exactly when the map of that list
/// contains it.
pub proof fn lemma_entries_map_contains(s: Seq<FsEntry>, k: Seq<Seq<char>>)
    ensures
        entries_map(s).dom().contains(k) <==> exists|i: int|
            0 <= i < s.len() && path_view(s[i].path@) == k,
    decreases s.len(),
{
    if s.len() > 0 {
        lemma_entries_map_contains(s.drop_last(), k);
        if entries_map(s).dom().contains(k) {
            if path_view(s.last().path@) == k {
                assert(path_view(s[s.len() - 1].path@) == k);
            } else {
                let i = choose|i: int|
                    0 <= i < s.drop_last().len() && path_view(s.drop_last()[i].path@) == k;
                assert(path_view(s[i].path@) == k);
            }
        }
        if exists|i: int| 0 <= i < s.len() && path_view(s[i].path@) == k {
            let i = choose|i: int| 0 <= i < s.len() && path_view(s[i].path@) == k;
            if i < s.len() - 1 {
                assert(path_view(s.drop_last()[i].path@) == k);
            }
        }
    }
}

/// In a well-formed list, the map sends each entry's path to that entry's
/// content.
pub proof fn lemma_entries_map_value(s: Seq<FsEntry>, i: int)
    requires
        wf_entries(s),
        0 <= i < s.len(),
    ensures
        entries_map(s).dom().contains(path_view(s[i].path@)),
        entries_map(s)[path_view(s[i].path@)] == item_view(s[i].item),
    decreases s.len(),
{
    if i == s.len() - 1 {
    } else {
        assert(wf_entries(s.drop_last()));
        lemma_entries_map_value(s.drop_last(), i);
        assert(path_view(s[i].path@) != path_view(s[s.len() - 1].path@));
    }
}

/// String equality, stated over the character sequences.
pub fn string_eq(a: &String, b: &String) -> (r: bool)
    ensures
        r == (a@ == b@),
{
    *a == *b
}

/// An exact copy of a string.
pub fn string_copy(s: &String) -> (r: String)
    ensures
        r == *s,
{
    s.clone()
}

/// Whether some component of `v` has the same characters as `s`.
pub fn contains_string(v: &Vec<String>, s: &String) -> (r: bool)
    ensures
        r == path_view(v@).contains(s@),
{
    let mut i: usize = 0;
    while i < v.len()
        invariant
            i <= v.len(),
            forall|j: int| 0 <= j < i ==> path_view(v@)[j] != s@,
        decreases v.len() - i,
    {
        if string_eq(&v[i], s) {
            assert(path_view(v@)[i as int] == s@);
            return true;
        }
        i += 1;
    }
    false
}

/// An exact copy of a path.
pub fn clone_path(p: &Vec<String>) -> (r: Vec<String>)
    ensures
        r@ == p@,
{
    let mut r: Vec<String> = Vec::new();
    let mut i: usize = 0;
    while i < p.len()
        invariant
            i <= p.len(),
            r@.len() == i,
            forall|j: int| 0 <= j < i ==> r@[j] == p@[j],
        decreases p.len() - i,
    {
        r.push(p[i].clone());
        i += 1;
    }
    assert(r@ =~= p@);
    r
}

/// An exact copy of an entry's content.
pub fn clone_item(it: &FsItem) -> (r: FsItem)
    ensures
        r == *it,
{
    match it {
        FsItem::Dir => FsItem::Dir,
        FsItem::File { content } => FsItem::File { content: content.clone() },
    }
}

/// The first `n` components of a path, as a new path.
pub fn path_prefix(p: &Vec<String>, n: usize) -> (r: Vec<String>)
    requires
        n <= p.len(),
    ensures
        r@ == p@.take(n as int),
{
    let mut r: Vec<String> = Vec::new();
    let mut i: usize = 0;
    while i < n
        invariant
            i <= n,
            n <= p.len(),
            r@.len() == i,
            forall|j: int| 0 <= j < i ==> r@[j] == p@[j],
        decreases n - i,
    {
        r.push(p[i].clone());
        i += 1;
    }
    assert(r@ =~= p@.take(n as int));
    r
}

/// `p` followed by the components of `q` from position `from` on.
pub fn path_concat_from(p: &Vec<String>, q: &Vec<String>, from: usize) -> (r: Vec<String>)
    requires
        from <= q.len(),
    ensures
        r@ == p@ + q@.skip(from as int),
{
    let mut r = clone_path(p);
    let mut i: usize = from;
    while i < q.len()
        invariant
            from <= i <= q.len(),
            r@.len() == p@.len() + i - from,
            forall|j: int| 0 <= j < p@.len() ==> r@[j] == p@[j],
            forall|j: int| p@.len() <= j < r@.len() ==> r@[j] == q@[j - p@.len() + from],
        decreases q.len() - i,
    {
        r.push(q[i].clone());
        i += 1;
    }
    assert(r@ =~= p@ + q@.skip(from as int));
    r
}

/// Whether the first `n` components of `p` equal, component for component,
/// the whole of `q`.
pub fn path_take_eq(p: &Vec<String>, n: usize, q: &Vec<String>) -> (r: bool)
    requires
        n <= p.len(),
    ensures
        r == (path_view(p@).take(n as int) == path_view(q@)),
{
    if q.len() != n {
        assert(path_view(p@).take(n as int).len() == n);
        assert(path_view(q@).len() == q@.len());
        return false;
    }
    let mut i: usize = 0;
    while i < n
        invariant
            i <= n,
            n <= p.len(),
            n == q.len(),
            forall|j: int| 0 <= j < i ==> p@[j]@ == q@[j]@,
        decreases n - i,
    {
        if !string_eq(&p[i], &q[i]) {
            assert(path_view(p@).take(n as int)[i as int] != path_view(q@)[i as int]);
            return false;
        }
        i += 1;
    }
    assert(path_view(p@).take(n as int) =~= path_view(q@));
    true
}

/// Whether the paths are equal.
pub fn path_eq(p: &Vec<String>, q: &Vec<String>) -> (r: bool)
    ensures
        r == (path_view(p@) == path_view(q@)),
{
    if p.len() != q.len() {
        assert(path_view(p@).len() != path_view(q@).len());
        return false;
    }
    let r = path_take_eq(p, p.len(), q);
    assert(path_view(p@).take(p@.len() as int) =~= path_view(p@));
    r
}

/// Whether `p` is a prefix of `q` (`p` itself included).
pub fn path_starts_with(q: &Vec<String>, p: &Vec<String>) -> (r: bool)
    ensures
        r == path_view(p@).is_prefix_of(path_view(q@)),
{
    if p.len() > q.len() {
        return false;
    }
    let r = path_take_eq(q, p.len(), p);
    assert(path_view(q@).take(p@.len() as int) =~= path_view(q@).subrange(0, p@.len() as int));
    r
}

/// A path written as one string: its components joined by `/`.
pub open spec fn join_path(p: Seq<Seq<char>>) -> Seq<char>
    decreases p.len(),
{
    if p.len() == 0 {
        Seq::empty()
    } else if p.len() == 1 {
        p[0]
    } else {
        join_path(p.drop_last()) + seq!['/'] + p.last()
    }
}

/// The path as one string, components joined by `/`.
pub fn path_display(p: &Vec<String>) -> (r: String)
    ensures
        r@ == join_path(path_view(p@)),
{
    let ghost pv = path_view(p@);
    let mut out = String::new();
    let mut i: usize = 0;
    while i < p.len()
        invariant
            i <= p@.len(),
            pv == path_view(p@),
            out@ == join_path(pv.take(i as int)),
        decreases p@.len() - i,
    {
        proof {
            reveal_strlit("/");
        }
        if i > 0 {
            out.append("/");
        }
        out.append(p[i].as_str());
        proof {
            let prev = pv.take(i as int);
            let next = pv.take(i + 1);
            assert(next.drop_last() =~= prev);
            assert(next.last() == pv[i as int]);
            if i == 0 {
                assert(out@ =~= pv[0]);
            } else {
                assert(out@ =~= join_path(prev) + seq!['/'] + pv[i as int]);
            }
        }
        i += 1;
    }
    proof {
        assert(pv.take(p@.len() as int) =~= pv);
    }
    out
}

/// Appending an entry inserts its path into the map.
pub proof fn lemma_entries_map_push(s: Seq<FsEntry>, e: FsEntry)
    ensures
        entries_map(s.push(e)) == entries_map(s).insert(path_view(e.path@), item_view(e.item)),
{
    assert(s.push(e).drop_last() =~= s);
    assert(s.push(e).last() == e);
}

/// Replacing the entry at `i` by one with the same path updates that path in
/// the map.
pub proof fn lemma_entries_map_update(s: Seq<FsEntry>, i: int, e: FsEntry)
    requires
        wf_entries(s),
        0 <= i < s.len(),
        path_view(e.path@) == path_view(s[i].path@),
        e.path@.len() >= 1,
    ensures
        entries_map(s.update(i, e)) == entries_map(s).insert(
            path_view(e.path@),
            item_view(e.item),
        ),
        wf_entries(s.update(i, e)),
{
    let s2 = s.update(i, e);
    assert(wf_entries(s2));
    let m2 = entries_map(s2);
    let mi = entries_map(s).insert(path_view(e.path@), item_view(e.item));
    assert forall|k: Seq<Seq<char>>| m2.dom().contains(k) implies mi.dom().contains(k) by {
        lemma_entries_map_contains(s2, k);
        let j = choose|j: int| 0 <= j < s2.len() && path_view(s2[j].path@) == k;
        lemma_entries_map_contains(s, k);
        assert(path_view(s[j].path@) == k || k == path_view(e.path@));
    }
    assert forall|k: Seq<Seq<char>>| mi.dom().contains(k) implies m2.dom().contains(k) by {
        lemma_entries_map_contains(s, k);
        lemma_entries_map_contains(s2, k);
        if k == path_view(e.path@) {
            assert(path_view(s2[i].path@) == k);
        } else {
            let j = choose|j: int| 0 <= j < s.len() && path_view(s[j].path@) == k;
            assert(path_view(s2[j].path@) == k);
        }
    }
    assert forall|k: Seq<Seq<char>>| m2.dom().contains(k) implies m2[k] == mi[k] by {
        lemma_entries_map_contains(s2, k);
        let j = choose|j: int| 0 <= j < s2.len() && path_view(s2[j].path@) == k;
        lemma_entries_map_value(s2, j);
        if k == path_view(e.path@) {
            assert(j == i);
        } else {
            assert(j != i);
            lemma_entries_map_value(s, j);
        }
    }
    assert(m2 =~= mi);
}

/// The index of the entry for path `p`, if one is listed.
pub fn find_in(entries: &Vec<FsEntry>, p: &Vec<String>) -> (r: Option<usize>)
    ensures
        match r {
            Some(i) => i < entries@.len() && path_view(entries@[i as int].path@) == path_view(
                p@,
            ),
            None => !entries_map(entries@).dom().contains(path_view(p@)),
        },
{
    let mut i: usize = 0;
    while i < entries.len()
        invariant
            i <= entries@.len(),
            forall|j: int| 0 <= j < i ==> path_view(entries@[j].path@) != path_view(p@),
        decreases entries@.len() - i,
    {
        if path_eq(&entries[i].path, p) {
            return Some(i);
        }
        i += 1;
    }
    proof {
        lemma_entries_map_contains(entries@, path_view(p@));
    }
    None
}

/// The index of the entry for path `p` in the tree, if any.
pub fn find_entry(fs: &Fs, p: &Vec<String>) -> (r: Option<usize>)
    ensures
        match r {
            Some(i) => i < fs.entries@.len() && path_view(fs.entries@[i as int].path@)
                == path_view(p@),
            None => !fs@.dom().contains(path_view(p@)),
        },
{
    find_in(&fs.entries, p)
}

/// What sits at path `p`, if anything.
pub fn get_item<'a>(fs: &'a Fs, p: &Vec<String>) -> (r: Option<&'a FsItem>)
    requires
        fs.wf(),
    ensures
        match r {
            Some(it) => fs@.dom().contains(path_view(p@)) && fs@[path_view(p@)] == item_view(
                *it,
            ),
            None => !fs@.dom().contains(path_view(p@)),
        },
{
    match find_entry(fs, p) {
        Some(i) => {
            proof {
                lemma_entries_map_value(fs.entries@, i as int);
            }
            Some(&fs.entries[i].item)
        },
        None => None,
    }
}

/// Whether anything sits at `p`.
pub fn contains_path(fs: &Fs, p: &Vec<String>) -> (r: bool)
    requires
        fs.wf(),
    ensures
        r == fs@.dom().contains(path_view(p@)),
{
    match get_item(fs, p) {
        Some(_) => true,
        None => false,
    }
}

/// Whether a directory sits at `p`.
pub fn is_dir(fs: &Fs, p: &Vec<String>) -> (r: bool)
    requires
        fs.wf(),
    ensures
        r == (fs@.dom().contains(path_view(p@)) && fs@[path_view(p@)] is Dir),
{
    match get_item(fs, p) {
        Some(it) => matches!(it, FsItem::Dir),
        None => false,
    }
}

/// Whether a file sits at `p`.
pub fn is_file(fs: &Fs, p: &Vec<String>) -> (r: bool)
    requires
        fs.wf(),
    ensures
        r == (fs@.dom().contains(path_view(p@)) && fs@[path_view(p@)] is File),
{
    match get_item(fs, p) {
        Some(it) => matches!(it, FsItem::File { .. }),
        None => false,
    }
}

/// The contents of the file at `p`, if a file sits there.
pub fn read_file<'a>(fs: &'a Fs, p: &Vec<String>) -> (r: Option<&'a String>)
    requires
        fs.wf(),
    ensures
        match r {
            Some(c) => fs@.dom().contains(path_view(p@)) && fs@[path_view(p@)] == Item::File(
                c@,
            ),
            None => !(fs@.dom().contains(path_view(p@)) && fs@[path_view(p@)] is File),
        },
{
    match get_item(fs, p) {
        Some(it) => match it {
            FsItem::File { content } => Some(content),
            FsItem::Dir => None,
        },
        None => None,
    }
}

/// Whether anything sits strictly below `p`.
pub fn has_entries_under(fs: &Fs, p: &Vec<String>) -> (r: bool)
    requires
        fs.wf(),
    ensures
        r == exists|k: Seq<Seq<char>>|
            fs@.dom().contains(k) && strictly_under(k, path_view(p@)),
{
    let mut i: usize = 0;
    while i < fs.entries.len()
        invariant
            fs.wf(),
            i <= fs.entries@.len(),
            forall|j: int|
                0 <= j < i ==> !strictly_under(
                    path_view(fs.entries@[j].path@),
                    path_view(p@),
                ),
        decreases fs.entries@.len() - i,
    {
        let e = &fs.entries[i];
        if e.path.len() > p.len() && path_starts_with(&e.path, p) {
            proof {
                lemma_entries_map_value(fs.entries@, i as int);
            }
            assert(strictly_under(path_view(fs.entries@[i as int].path@), path_view(p@)));
            return true;
        }
        proof {
            assert(path_view(fs.entries@[i as int].path@).len() == fs.entries@[i as int].path@.len());
        }
        i += 1;
    }
    proof {
        if exists|k: Seq<Seq<char>>| fs@.dom().contains(k) && strictly_under(k, path_view(p@)) {
            let k = choose|k: Seq<Seq<char>>|
                fs@.dom().contains(k) && strictly_under(k, path_view(p@));
            lemma_entries_map_contains(fs.entries@, k);
        }
    }
    false
}

/// When directory creation along `p` succeeds: every present prefix of `p`
/// is a directory.
pub open spec fn dirs_to_ok(m: Map<Seq<Seq<char>>, Item>, p: Seq<Seq<char>>) -> bool {
    forall|j: int|
        1 <= j <= p.len() ==> (m.dom().contains(#[trigger] p.take(j)) ==> m[p.take(j)] is Dir)
}

/// The map after creating the directory at `p` and every missing prefix.
pub open spec fn dirs_to(m: Map<Seq<Seq<char>>, Item>, p: Seq<Seq<char>>) -> Map<
    Seq<Seq<char>>,
    Item,
> {
    Map::new(
        |k: Seq<Seq<char>>| m.dom().contains(k) || (1 <= k.len() && k.is_prefix_of(p)),
        |k: Seq<Seq<char>>| if m.dom().contains(k) {
            m[k]
        } else {
            Item::Dir
        },
    )
}

/// Creates the directory at `p`, together with every missing intermediate
/// directory; a no-op on directories already present.  Fails when a file is
/// in the way at `p` or at one of its prefixes.
pub fn create_dir_all(fs: &mut Fs, p: &Vec<String>) -> (r: Result<(), Error>)
    requires
        old(fs).wf(),
        p@.len() >= 1,
    ensures
        final(fs).wf(),
        r is Ok <==> dirs_to_ok(old(fs)@, path_view(p@)),
        r is Ok ==> final(fs)@ == dirs_to(old(fs)@, path_view(p@)),
        r matches Err(e) ==> *final(fs) == *old(fs) && e is Io,
{
    let ghost m0 = old(fs)@;
    let ghost pv = path_view(p@);
    // Validate: no file may sit at any prefix of `p`.
    let mut jx: usize = 0;
    while jx < p.len()
        invariant
            jx <= p@.len(),
            fs == old(fs),
            fs.wf(),
            p@.len() >= 1,
            pv == path_view(p@),
            m0 == fs@,
            forall|jj: int|
                1 <= jj <= jx ==> (m0.dom().contains(#[trigger] pv.take(jj)) ==> m0[pv.take(jj)]
                    is Dir),
        decreases p@.len() - jx,
    {
        let j = jx + 1;
        let pre = path_prefix(p, j);
        assert(path_view(pre@) =~= pv.take(j as int));
        match find_entry(fs, &pre) {
            Some(i) => {
                proof {
                    lemma_entries_map_value(fs.entries@, i as int);
                }
                match &fs.entries[i].item {
                    FsItem::File { .. } => {
                        return Err(Error::Io { path: pre });
                    },
                    FsItem::Dir => {},
                }
            },
            None => {},
        }
        jx += 1;
    }
    assert(dirs_to_ok(m0, pv));
    // Insert a directory entry for each missing prefix, shortest first.
    let mut jx: usize = 0;
    while jx < p.len()
        invariant
            jx <= p@.len(),
            p@.len() >= 1,
            pv == path_view(p@),
            fs.wf(),
            fs@ == Map::new(
                |k: Seq<Seq<char>>| m0.dom().contains(k) || (1 <= k.len() < jx + 1
                    && k.is_prefix_of(pv)),
                |k: Seq<Seq<char>>| if m0.dom().contains(k) {
                    m0[k]
                } else {
                    Item::Dir
                },
            ),
        decreases p@.len() - jx,
    {
        let j = jx + 1;
        let pre = path_prefix(p, j);
        assert(path_view(pre@) =~= pv.take(j as int));
        let ghost mprev = fs@;
        match find_entry(fs, &pre) {
            Some(i) => {
                proof {
                    lemma_entries_map_value(fs.entries@, i as int);
                }
                assert(fs@ =~= Map::new(
                    |k: Seq<Seq<char>>| m0.dom().contains(k) || (1 <= k.len() < j + 1
                        && k.is_prefix_of(pv)),
                    |k: Seq<Seq<char>>| if m0.dom().contains(k) {
                        m0[k]
                    } else {
                        Item::Dir
                    },
                )) by {
                    assert(pv.take(j as int).len() == j);
                    assert forall|k: Seq<Seq<char>>| 1 <= k.len() < j + 1 && k.is_prefix_of(pv)
                        implies mprev.dom().contains(k) by {
                        if k.len() == j {
                            assert(k =~= pv.take(j as int));
                        }
                    }
                }
            },
            None => {
                let ghost olds = fs.entries@;
                proof {
                    lemma_entries_map_contains(olds, path_view(pre@));
                }
                fs.entries.push(FsEntry { path: pre, item: FsItem::Dir });
                proof {
                    lemma_entries_map_push(olds, fs.entries@.last());
                    assert(fs.entries@.drop_last() =~= olds);
                    // Well-formedness: the new path is distinct from all others.
                    assert forall|a: int, b: int| 0 <= a < b < fs.entries@.len() implies
                        path_view(fs.entries@[a].path@) != path_view(fs.entries@[b].path@) by {
                        if b == fs.entries@.len() - 1 {
                            if path_view(fs.entries@[a].path@) == path_view(fs.entries@[b].path@) {
                                lemma_entries_map_contains(olds, path_view(fs.entries@[b].path@));
                            }
                        }
                    }
                    assert(path_view(fs.entries@[fs.entries@.len() - 1].path@).len() == j);
                }
                assert(fs@ =~= Map::new(
                    |k: Seq<Seq<char>>| m0.dom().contains(k) || (1 <= k.len() < j + 1
                        && k.is_prefix_of(pv)),
                    |k: Seq<Seq<char>>| if m0.dom().contains(k) {
                        m0[k]
                    } else {
                        Item::Dir
                    },
                )) by {
                    assert(pv.take(j as int).len() == j);
                    assert(pv.take(j as int).is_prefix_of(pv));
                    assert forall|k: Seq<Seq<char>>| 1 <= k.len() < j + 1 && k.is_prefix_of(pv)
                        && k.len() == j implies k == pv.take(j as int) by {
                        assert(k =~= pv.take(j as int));
                    }
                }
            },
        }
        jx += 1;
    }
    proof {
        assert(fs@ =~= dirs_to(m0, pv)) by {
            assert forall|k: Seq<Seq<char>>| 1 <= k.len() && k.is_prefix_of(pv) implies k.len()
                < p@.len() + 1 by {}
        }
    }
    Ok(())
}

/// When writing the file at `p` succeeds: the parent directory exists (or
/// `p` is a single component) and nothing but a file sits at `p` already.
pub open spec fn write_ok(m: Map<Seq<Seq<char>>, Item>, p: Seq<Seq<char>>) -> bool {
    &&& (p.len() == 1 || (m.dom().contains(p.take(p.len() - 1)) && m[p.take(p.len() - 1)]
        is Dir))
    &&& (m.dom().contains(p) ==> m[p] is File)
}

/// Writes `content` to the file at `p`, creating or overwriting it.  Fails
/// when the parent directory is missing or a directory sits at `p`.
pub fn write_file(fs: &mut Fs, p: &Vec<String>, content: String) -> (r: Result<(), Error>)
    requires
        old(fs).wf(),
        p@.len() >= 1,
    ensures
        final(fs).wf(),
        r is Ok <==> write_ok(old(fs)@, path_view(p@)),
        r is Ok ==> final(fs)@ == old(fs)@.insert(path_view(p@), Item::File(content@)),
        r matches Err(e) ==> *final(fs) == *old(fs) && e is Io,
{
    let ghost pv = path_view(p@);
    if p.len() > 1 {
        let parent = path_prefix(p, p.len() - 1);
        assert(path_view(parent@) =~= pv.take(pv.len() - 1));
        if !is_dir(fs, &parent) {
            return Err(Error::Io { path: parent });
        }
    }
    match find_entry(fs, p) {
        Some(i) => {
            proof {
                lemma_entries_map_value(fs.entries@, i as int);
            }
            match &fs.entries[i].item {
                FsItem::Dir => Err(Error::Io { path: clone_path(p) }),
                FsItem::File { .. } => {
                    let ghost olds = fs.entries@;
                    let e = FsEntry { path: clone_path(p), item: FsItem::File { content } };
                    proof {
                        lemma_entries_map_update(olds, i as int, e);
                    }
                    fs.entries.set(i, e);
                    Ok(())
                },
            }
        },
        None => {
            let ghost olds = fs.entries@;
            proof {
                lemma_entries_map_contains(olds, pv);
            }
            fs.entries.push(FsEntry { path: clone_path(p), item: FsItem::File { content } });
            proof {
                lemma_entries_map_push(olds, fs.entries@.last());
                assert(fs.entries@.drop_last() =~= olds);
                assert forall|a: int, b: int| 0 <= a < b < fs.entries@.len() implies
                    path_view(fs.entries@[a].path@) != path_view(fs.entries@[b].path@) by {
                    if b == fs.entries@.len() - 1 {
                        if path_view(fs.entries@[a].path@) == path_view(fs.entries@[b].path@) {
                            lemma_entries_map_contains(olds, path_view(fs.entries@[b].path@));
                        }
                    }
                }
            }
            Ok(())
        },
    }
}

/// The map after removing, from directly inside `d`, every entry whose name
/// is not listed in `keep` (whole subtrees included).
pub open spec fn remove_except_spec(
    m: Map<Seq<Seq<char>>, Item>,
    d: Seq<Seq<char>>,
    keep: Seq<Seq<char>>,
) -> Map<Seq<Seq<char>>, Item> {
    Map::new(
        |k: Seq<Seq<char>>| m.dom().contains(k) && (strictly_under(k, d) ==> keep.contains(
            k[d.len() as int],
        )),
        |k: Seq<Seq<char>>| m[k],
    )
}

/// Removes every entry of the directory at `dir` whose name is not listed
/// in `keep`; removed directories go with their whole subtree.  Fails when
/// no directory sits at `dir`.
pub fn remove_files_except(fs: &mut Fs, dir: &Vec<String>, keep: &Vec<String>) -> (r: Result<
    (),
    Error,
>)
    requires
        old(fs).wf(),
    ensures
        final(fs).wf(),
        r is Ok <==> (old(fs)@.dom().contains(path_view(dir@)) && old(fs)@[path_view(dir@)]
            is Dir),
        r is Ok ==> final(fs)@ == remove_except_spec(
            old(fs)@,
            path_view(dir@),
            path_view(keep@),
        ),
        r matches Err(e) ==> *final(fs) == *old(fs) && e is Io,
{
    let ghost m0 = old(fs)@;
    let ghost dv = path_view(dir@);
    let ghost kv = path_view(keep@);
    if !is_dir(fs, dir) {
        return Err(Error::Io { path: clone_path(dir) });
    }
    let n = fs.entries.len();
    let mut out: Vec<FsEntry> = Vec::new();
    let mut i: usize = 0;
    while i < n
        invariant
            i <= n,
            n == fs.entries@.len(),
            fs == old(fs),
            fs.wf(),
            m0 == fs@,
            dv == path_view(dir@),
            kv == path_view(keep@),
            wf_entries(out@),
            entries_map(out@) == remove_except_spec(
                entries_map(fs.entries@.take(i as int)),
                dv,
                kv,
            ),
            forall|a: int|
                0 <= a < out@.len() ==> entries_map(fs.entries@.take(i as int)).dom().contains(
                    path_view(#[trigger] out@[a].path@),
                ),
        decreases n - i,
    {
        let ghost spre = fs.entries@.take(i as int);
        let ghost snext = fs.entries@.take(i + 1);
        proof {
            assert(snext.drop_last() =~= spre);
            assert(snext.last() == fs.entries@[i as int]);
            lemma_entries_map_contains(spre, path_view(fs.entries@[i as int].path@));
        }
        let e = &fs.entries[i];
        let ghost pe = path_view(e.path@);
        let keep_it: bool = if e.path.len() > dir.len() && path_starts_with(&e.path, dir) {
            assert(e.path@[dir@.len() as int]@ == pe[dv.len() as int]);
            contains_string(keep, &e.path[dir.len()])
        } else {
            true
        };
        assert(keep_it == (strictly_under(pe, dv) ==> kv.contains(pe[dv.len() as int])));
        if keep_it {
            let ghost outpre = out@;
            let e2 = FsEntry { path: clone_path(&e.path), item: clone_item(&e.item) };
            out.push(e2);
            proof {
                lemma_entries_map_push(outpre, out@.last());
                assert(out@.drop_last() =~= outpre);
                assert forall|a: int, b: int| 0 <= a < b < out@.len() implies path_view(
                    out@[a].path@,
                ) != path_view(out@[b].path@) by {
                    if b == out@.len() - 1 {
                        if path_view(out@[a].path@) == pe {
                            lemma_entries_map_contains(spre, pe);
                        }
                    }
                }
                assert(entries_map(out@) =~= remove_except_spec(entries_map(snext), dv, kv));
                assert forall|a: int| 0 <= a < out@.len() implies entries_map(
                    snext,
                ).dom().contains(path_view(#[trigger] out@[a].path@)) by {
                    if a < out@.len() - 1 {
                        lemma_entries_map_contains(spre, path_view(out@[a].path@));
                        lemma_entries_map_contains(snext, path_view(out@[a].path@));
                    }
                }
            }
        } else {
            proof {
                lemma_entries_map_contains(spre, pe);
                assert(!entries_map(spre).dom().contains(pe));
                assert(entries_map(out@) =~= remove_except_spec(entries_map(snext), dv, kv));
                assert forall|a: int| 0 <= a < out@.len() implies entries_map(
                    snext,
                ).dom().contains(path_view(#[trigger] out@[a].path@)) by {
                    lemma_entries_map_contains(spre, path_view(out@[a].path@));
                    lemma_entries_map_contains(snext, path_view(out@[a].path@));
                }
            }
        }
        i += 1;
    }
    proof {
        assert(fs.entries@.take(n as int) =~= fs.entries@);
    }
    fs.entries = out;
    Ok(())
}

/// What remains of `m` once everything strictly below `p` is removed.
pub open spec fn drop_under(m: Map<Seq<Seq<char>>, Item>, p: Seq<Seq<char>>) -> Map<
    Seq<Seq<char>>,
    Item,
> {
    Map::new(|k: Seq<Seq<char>>| m.dom().contains(k) && !strictly_under(k, p), |k: Seq<Seq<char>>| m[k])
}

/// The map after recreating the directory at `p` from scratch: its subtree
/// is gone, and `p` with its missing prefixes exists as directories.
pub open spec fn recreate_spec(m: Map<Seq<Seq<char>>, Item>, p: Seq<Seq<char>>) -> Map<
    Seq<Seq<char>>,
    Item,
> {
    dirs_to(drop_under(m, p), p)
}

/// Recreates the directory at `p`, ensuring it exists and is empty: an
/// existing directory loses its whole subtree; a missing one is created,
/// intermediate directories included.  Fails with [`Error::NotADirectory`]
/// when a file sits at `p`, and with [`Error::Io`] when a file sits at one
/// of its prefixes.
pub fn recreate_dir(fs: &mut Fs, p: &Vec<String>) -> (r: Result<(), Error>)
    requires
        old(fs).wf(),
        p@.len() >= 1,
    ensures
        final(fs).wf(),
        r is Ok <==> dirs_to_ok(old(fs)@, path_view(p@)),
        r is Ok ==> final(fs)@ == recreate_spec(old(fs)@, path_view(p@)),
        r matches Err(e) ==> *final(fs) == *old(fs) && (if old(fs)@.dom().contains(path_view(p@))
            && old(fs)@[path_view(p@)] is File {
            e matches Error::NotADirectory { path } && path@ == p@
        } else {
            e is Io
        }),
{
    let ghost m0 = old(fs)@;
    let ghost pv = path_view(p@);
    // A file at `p` itself is the dedicated error case.
    match find_entry(fs, p) {
        Some(i) => {
            proof {
                lemma_entries_map_value(fs.entries@, i as int);
            }
            match &fs.entries[i].item {
                FsItem::File { .. } => {
                    proof {
                        assert(pv.take(pv.len() as int) =~= pv);
                        assert(!dirs_to_ok(m0, pv));
                    }
                    return Err(Error::NotADirectory { path: clone_path(p) });
                },
                FsItem::Dir => {},
            }
        },
        None => {},
    }
    // A file at a prefix of `p` blocks directory creation.
    let mut jx: usize = 0;
    while jx < p.len()
        invariant
            jx <= p@.len(),
            fs == old(fs),
            fs.wf(),
            p@.len() >= 1,
            pv == path_view(p@),
            m0 == fs@,
            !(m0.dom().contains(pv) && m0[pv] is File),
            forall|jj: int|
                1 <= jj <= jx ==> (m0.dom().contains(#[trigger] pv.take(jj)) ==> m0[pv.take(jj)]
                    is Dir),
        decreases p@.len() - jx,
    {
        let j = jx + 1;
        let pre = path_prefix(p, j);
        assert(path_view(pre@) =~= pv.take(j as int));
        match find_entry(fs, &pre) {
            Some(i) => {
                proof {
                    lemma_entries_map_value(fs.entries@, i as int);
                }
                match &fs.entries[i].item {
                    FsItem::File { .. } => {
                        return Err(Error::Io { path: pre });
                    },
                    FsItem::Dir => {},
                }
            },
            None => {},
        }
        jx += 1;
    }
    assert(dirs_to_ok(m0, pv));
    // Drop everything strictly below `p`.
    let n = fs.entries.len();
    let mut out: Vec<FsEntry> = Vec::new();
    let mut i: usize = 0;
    while i < n
        invariant
            i <= n,
            n == fs.entries@.len(),
            fs == old(fs),
            fs.wf(),
            m0 == fs@,
            pv == path_view(p@),
            wf_entries(out@),
            entries_map(out@) == drop_under(entries_map(fs.entries@.take(i as int)), pv),
            forall|a: int|
                0 <= a < out@.len() ==> entries_map(fs.entries@.take(i as int)).dom().contains(
                    path_view(#[trigger] out@[a].path@),
                ),
        decreases n - i,
    {
        let ghost spre = fs.entries@.take(i as int);
        let ghost snext = fs.entries@.take(i + 1);
        proof {
            assert(snext.drop_last() =~= spre);
            assert(snext.last() == fs.entries@[i as int]);
            lemma_entries_map_contains(spre, path_view(fs.entries@[i as int].path@));
        }
        let e = &fs.entries[i];
        let ghost pe = path_view(e.path@);
        let keep_it = !(e.path.len() > p.len() && path_starts_with(&e.path, p));
        assert(keep_it == !strictly_under(pe, pv));
        if keep_it {
            let ghost outpre = out@;
            let e2 = FsEntry { path: clone_path(&e.path), item: clone_item(&e.item) };
            out.push(e2);
            proof {
                lemma_entries_map_push(outpre, out@.last());
                assert(out@.drop_last() =~= outpre);
                assert forall|a: int, b: int| 0 <= a < b < out@.len() implies path_view(
                    out@[a].path@,
                ) != path_view(out@[b].path@) by {
                    if b == out@.len() - 1 {
                        if path_view(out@[a].path@) == pe {
                            lemma_entries_map_contains(spre, pe);
                        }
                    }
                }
                assert(entries_map(out@) =~= drop_under(entries_map(snext), pv));
                assert forall|a: int| 0 <= a < out@.len() implies entries_map(
                    snext,
                ).dom().contains(path_view(#[trigger] out@[a].path@)) by {
                    if a < out@.len() - 1 {
                        lemma_entries_map_contains(spre, path_view(out@[a].path@));
                        lemma_entries_map_contains(snext, path_view(out@[a].path@));
                    }
                }
            }
        } else {
            proof {
                lemma_entries_map_contains(spre, pe);
                assert(!entries_map(spre).dom().contains(pe));
                assert(entries_map(out@) =~= drop_under(entries_map(snext), pv));
                assert forall|a: int| 0 <= a < out@.len() implies entries_map(
                    snext,
                ).dom().contains(path_view(#[trigger] out@[a].path@)) by {
                    lemma_entries_map_contains(spre, path_view(out@[a].path@));
                    lemma_entries_map_contains(snext, path_view(out@[a].path@));
                }
            }
        }
        i += 1;
    }
    proof {
        assert(fs.entries@.take(n as int) =~= fs.entries@);
    }
    fs.entries = out;
    // Recreate `p` itself, with any missing intermediate directories.
    assert(dirs_to_ok(fs@, pv)) by {
        assert forall|j: int| 1 <= j <= pv.len() && fs@.dom().contains(#[trigger] pv.take(j))
            implies fs@[pv.take(j)] is Dir by {
            assert(pv.take(j).len() == j);
            assert(!strictly_under(pv.take(j), pv));
            assert(m0.dom().contains(pv.take(j)));
        }
    }
    let r = create_dir_all(fs, p);
    proof {
        if r is Ok {
            assert(fs@ =~= recreate_spec(m0, pv));
        }
    }
    r
}

/// A prefix, put back before the rest of the path, gives the path again.
pub proof fn lemma_prefix_reassemble(k: Seq<Seq<char>>, p: Seq<Seq<char>>)
    requires
        p.is_prefix_of(k),
    ensures
        p + k.skip(p.len() as int) == k,
{
    assert(p + k.skip(p.len() as int) =~= k);
}

/// Dropping the first part of a concatenation leaves the second.
pub proof fn lemma_concat_skip(a: Seq<Seq<char>>, b: Seq<Seq<char>>)
    ensures
        (a + b).skip(a.len() as int) == b,
        a.is_prefix_of(a + b),
{
    assert((a + b).skip(a.len() as int) =~= b);
    assert((a + b).take(a.len() as int) =~= a);
}

/// Two prefixes of one path are ordered by length.
pub proof fn lemma_prefix_comparable(a: Seq<Seq<char>>, b: Seq<Seq<char>>, k: Seq<Seq<char>>)
    requires
        a.is_prefix_of(k),
        b.is_prefix_of(k),
        a.len() <= b.len(),
    ensures
        a.is_prefix_of(b),
{
    assert(b.take(a.len() as int) =~= k.take(a.len() as int));
}

/// The path view of a concatenation is the concatenation of the views.
pub proof fn lemma_path_view_concat(a: Seq<String>, b: Seq<String>)
    ensures
        path_view(a + b) == path_view(a) + path_view(b),
{
    assert(path_view(a + b) =~= path_view(a) + path_view(b));
}

/// The map of a concatenation of entry lists, second list winning.
pub proof fn lemma_entries_map_concat(s1: Seq<FsEntry>, s2: Seq<FsEntry>)
    ensures
        entries_map(s1 + s2) == entries_map(s1).union_prefer_right(entries_map(s2)),
    decreases s2.len(),
{
    if s2.len() == 0 {
        assert(s1 + s2 =~= s1);
        assert(entries_map(s1).union_prefer_right(entries_map(s2)) =~= entries_map(s1));
    } else {
        lemma_entries_map_concat(s1, s2.drop_last());
        assert((s1 + s2).drop_last() =~= s1 + s2.drop_last());
        assert((s1 + s2).last() == s2.last());
        assert(entries_map(s1).union_prefer_right(entries_map(s2)) =~= entries_map(
            s1,
        ).union_prefer_right(entries_map(s2.drop_last())).insert(
            path_view(s2.last().path@),
            item_view(s2.last().item),
        ));
    }
}

/// When copying the subtree at `src` to `dst` succeeds: a directory sits at
/// `src`, nothing but directories sit on the way to `dst`, the two subtrees
/// are disjoint, and wherever both sides already hold an entry the kinds
/// agree.
pub open spec fn copy_ok(
    m: Map<Seq<Seq<char>>, Item>,
    src: Seq<Seq<char>>,
    dst: Seq<Seq<char>>,
) -> bool {
    &&& m.dom().contains(src) && m[src] is Dir
    &&& dirs_to_ok(m, dst)
    &&& !src.is_prefix_of(dst) && !dst.is_prefix_of(src)
    &&& forall|k: Seq<Seq<char>>|
        (#[trigger] m.dom().contains(k)) && src.is_prefix_of(k) && m.dom().contains(
            dst + k.skip(src.len() as int),
        ) ==> (m[k] is Dir <==> m[dst + k.skip(src.len() as int)] is Dir)
}

/// The map after copying the subtree at `src` to `dst`: every path below
/// `src` reappears below `dst`, entries of `dst` not overwritten stay, and
/// the way to `dst` exists as directories.
pub open spec fn copy_spec(
    m: Map<Seq<Seq<char>>, Item>,
    src: Seq<Seq<char>>,
    dst: Seq<Seq<char>>,
) -> Map<Seq<Seq<char>>, Item> {
    Map::new(
        |k: Seq<Seq<char>>| m.dom().contains(k) || (1 <= k.len() && k.is_prefix_of(dst)) || (
        dst.is_prefix_of(k) && m.dom().contains(src + k.skip(dst.len() as int))),
        |k: Seq<Seq<char>>| if dst.is_prefix_of(k) && m.dom().contains(
            src + k.skip(dst.len() as int),
        ) {
            m[src + k.skip(dst.len() as int)]
        } else if m.dom().contains(k) {
            m[k]
        } else {
            Item::Dir
        },
    )
}

/// The transplanted image of the subtree at `src`, rooted at `dst`.
pub open spec fn transplant_spec(
    m: Map<Seq<Seq<char>>, Item>,
    src: Seq<Seq<char>>,
    dst: Seq<Seq<char>>,
) -> Map<Seq<Seq<char>>, Item> {
    Map::new(
        |k: Seq<Seq<char>>| dst.is_prefix_of(k) && m.dom().contains(
            src + k.skip(dst.len() as int),
        ),
        |k: Seq<Seq<char>>| m[src + k.skip(dst.len() as int)],
    )
}

/// Being a prefix is transitive.
pub proof fn lemma_prefix_transitive(a: Seq<Seq<char>>, b: Seq<Seq<char>>, c: Seq<Seq<char>>)
    requires
        a.is_prefix_of(b),
        b.is_prefix_of(c),
    ensures
        a.is_prefix_of(c),
{
    assert(a =~= c.subrange(0, a.len() as int));
}

/// The path view of a suffix is the suffix of the path view.
pub proof fn lemma_path_view_skip(a: Seq<String>, n: int)
    requires
        0 <= n <= a.len(),
    ensures
        path_view(a.skip(n)) == path_view(a).skip(n),
{
    assert(path_view(a.skip(n)) =~= path_view(a).skip(n));
}

/// Whether the one entry `e` raises no kind clash when transplanted from
/// below `src` to below `dst` in `m`.
pub open spec fn clash_free_at(
    m: Map<Seq<Seq<char>>, Item>,
    src: Seq<Seq<char>>,
    dst: Seq<Seq<char>>,
    e: FsEntry,
) -> bool {
    src.is_prefix_of(path_view(e.path@)) && m.dom().contains(
        dst + path_view(e.path@).skip(src.len() as int),
    ) ==> (item_view(e.item) is Dir <==> m[dst + path_view(e.path@).skip(src.len() as int)]
        is Dir)
}

/// Copies the subtree at `src` into `dst`: every path below `src`
/// reappears below `dst` with the same content, entries of `dst` that the
/// source does not overwrite stay, and missing directories on the way to
/// `dst` are created.  The two subtrees must be disjoint.  Fails when no
/// directory sits at `src`, when a file blocks the way to `dst`, when the
/// subtrees overlap, or when an entry of one kind would overwrite one of
/// the other kind.
pub fn copy_dir_all(fs: &mut Fs, src: &Vec<String>, dst: &Vec<String>) -> (r: Result<(), Error>)
    requires
        old(fs).wf(),
        src@.len() >= 1,
        dst@.len() >= 1,
    ensures
        final(fs).wf(),
        r is Ok <==> copy_ok(old(fs)@, path_view(src@), path_view(dst@)),
        r is Ok ==> final(fs)@ == copy_spec(old(fs)@, path_view(src@), path_view(dst@)),
        r matches Err(e) ==> *final(fs) == *old(fs) && e is Io,
{
    let ghost m0 = old(fs)@;
    let ghost sv = path_view(src@);
    let ghost dv = path_view(dst@);
    // A directory must sit at the source.
    if !is_dir(fs, src) {
        return Err(Error::Io { path: clone_path(src) });
    }
    // No file may block the way to the destination.
    let mut jx: usize = 0;
    while jx < dst.len()
        invariant
            jx <= dst@.len(),
            fs == old(fs),
            fs.wf(),
            dst@.len() >= 1,
            dv == path_view(dst@),
            m0 == fs@,
            forall|jj: int|
                1 <= jj <= jx ==> (m0.dom().contains(#[trigger] dv.take(jj)) ==> m0[dv.take(jj)]
                    is Dir),
        decreases dst@.len() - jx,
    {
        let j = jx + 1;
        let pre = path_prefix(dst, j);
        assert(path_view(pre@) =~= dv.take(j as int));
        match find_entry(fs, &pre) {
            Some(i) => {
                proof {
                    lemma_entries_map_value(fs.entries@, i as int);
                }
                match &fs.entries[i].item {
                    FsItem::File { .. } => {
                        return Err(Error::Io { path: pre });
                    },
                    FsItem::Dir => {},
                }
            },
            None => {},
        }
        jx += 1;
    }
    assert(dirs_to_ok(m0, dv));
    // The two subtrees must be disjoint.
    if path_starts_with(dst, src) || path_starts_with(src, dst) {
        return Err(Error::Io { path: clone_path(dst) });
    }
    // Wherever source and destination both hold an entry, the kinds must
    // agree.
    let n = fs.entries.len();
    let mut i: usize = 0;
    while i < n
        invariant
            i <= n,
            n == fs.entries@.len(),
            fs == old(fs),
            fs.wf(),
            m0 == fs@,
            sv == path_view(src@),
            dv == path_view(dst@),
            src@.len() >= 1,
            dst@.len() >= 1,
            forall|a: int| 0 <= a < i ==> clash_free_at(m0, sv, dv, #[trigger] fs.entries@[a]),
        decreases n - i,
    {
        let e = &fs.entries[i];
        let ghost pe = path_view(e.path@);
        if path_starts_with(&e.path, src) {
            assert(src@.len() <= e.path@.len());
            let tgt = path_concat_from(dst, &e.path, src.len());
            proof {
                lemma_path_view_concat(dst@, e.path@.skip(src@.len() as int));
                lemma_path_view_skip(e.path@, src@.len() as int);
            }
            assert(path_view(tgt@) == dv + pe.skip(sv.len() as int));
            match find_entry(fs, &tgt) {
                Some(ti) => {
                    proof {
                        lemma_entries_map_value(fs.entries@, ti as int);
                    }
                    let src_is_dir = matches!(&e.item, FsItem::Dir);
                    let dst_is_dir = matches!(&fs.entries[ti].item, FsItem::Dir);
                    if src_is_dir != dst_is_dir {
                        proof {
                            lemma_entries_map_value(fs.entries@, i as int);
                            assert(m0.dom().contains(pe));
                            assert(m0[pe] == item_view(fs.entries@[i as int].item));
                            assert(!(m0[pe] is Dir <==> m0[dv + pe.skip(sv.len() as int)] is Dir));
                            assert(!copy_ok(m0, sv, dv));
                        }
                        return Err(Error::Io { path: tgt });
                    }
                },
                None => {},
            }
        }
        i += 1;
    }
    proof {
        assert forall|k: Seq<Seq<char>>| (#[trigger] m0.dom().contains(k)) && sv.is_prefix_of(k)
            && m0.dom().contains(dv + k.skip(sv.len() as int)) implies (m0[k] is Dir <==> m0[dv
            + k.skip(sv.len() as int)] is Dir) by {
            lemma_entries_map_contains(fs.entries@, k);
            let a = choose|a: int| 0 <= a < fs.entries@.len() && path_view(fs.entries@[a].path@)
                == k;
            lemma_entries_map_value(fs.entries@, a);
            assert(clash_free_at(m0, sv, dv, fs.entries@[a]));
        }
        assert(copy_ok(m0, sv, dv));
    }
    // Drop the destination-side entries that the source overwrites.
    let mut out: Vec<FsEntry> = Vec::new();
    let mut i: usize = 0;
    while i < n
        invariant
            i <= n,
            n == fs.entries@.len(),
            fs == old(fs),
            fs.wf(),
            m0 == fs@,
            sv == path_view(src@),
            dv == path_view(dst@),
            src@.len() >= 1,
            dst@.len() >= 1,
            wf_entries(out@),
            entries_map(out@) == Map::new(
                |k: Seq<Seq<char>>| entries_map(fs.entries@.take(i as int)).dom().contains(k)
                    && !(dv.is_prefix_of(k) && m0.dom().contains(sv + k.skip(dv.len() as int))),
                |k: Seq<Seq<char>>| entries_map(fs.entries@.take(i as int))[k],
            ),
            forall|a: int|
                0 <= a < out@.len() ==> entries_map(fs.entries@.take(i as int)).dom().contains(
                    path_view(#[trigger] out@[a].path@),
                ),
        decreases n - i,
    {
        let ghost spre = fs.entries@.take(i as int);
        let ghost snext = fs.entries@.take(i + 1);
        proof {
            assert(snext.drop_last() =~= spre);
            assert(snext.last() == fs.entries@[i as int]);
            lemma_entries_map_contains(spre, path_view(fs.entries@[i as int].path@));
        }
        let e = &fs.entries[i];
        let ghost pe = path_view(e.path@);
        let drop_it: bool = if path_starts_with(&e.path, dst) {
            assert(dst@.len() <= e.path@.len());
            let cp = path_concat_from(src, &e.path, dst.len());
            proof {
                lemma_path_view_concat(src@, e.path@.skip(dst@.len() as int));
                lemma_path_view_skip(e.path@, dst@.len() as int);
            }
            assert(path_view(cp@) == sv + pe.skip(dv.len() as int));
            match find_entry(fs, &cp) {
                Some(ci) => {
                    proof {
                        lemma_entries_map_value(fs.entries@, ci as int);
                    }
                    true
                },
                None => false,
            }
        } else {
            false
        };
        assert(drop_it == (dv.is_prefix_of(pe) && m0.dom().contains(
            sv + pe.skip(dv.len() as int),
        )));
        if !drop_it {
            let ghost outpre = out@;
            let e2 = FsEntry { path: clone_path(&e.path), item: clone_item(&e.item) };
            out.push(e2);
            proof {
                lemma_entries_map_push(outpre, out@.last());
                assert(out@.drop_last() =~= outpre);
                assert forall|a: int, b: int| 0 <= a < b < out@.len() implies path_view(
                    out@[a].path@,
                ) != path_view(out@[b].path@) by {
                    if b == out@.len() - 1 {
                        if path_view(out@[a].path@) == pe {
                            lemma_entries_map_contains(spre, pe);
                        }
                    }
                }
                assert(entries_map(out@) =~= Map::new(
                    |k: Seq<Seq<char>>| entries_map(snext).dom().contains(k) && !(
                    dv.is_prefix_of(k) && m0.dom().contains(sv + k.skip(dv.len() as int))),
                    |k: Seq<Seq<char>>| entries_map(snext)[k],
                ));
                assert forall|a: int| 0 <= a < out@.len() implies entries_map(
                    snext,
                ).dom().contains(path_view(#[trigger] out@[a].path@)) by {
                    if a < out@.len() - 1 {
                        lemma_entries_map_contains(spre, path_view(out@[a].path@));
                        lemma_entries_map_contains(snext, path_view(out@[a].path@));
                    }
                }
            }
        } else {
            proof {
                lemma_entries_map_contains(spre, pe);
                assert(!entries_map(spre).dom().contains(pe));
                assert(entries_map(out@) =~= Map::new(
                    |k: Seq<Seq<char>>| entries_map(snext).dom().contains(k) && !(
                    dv.is_prefix_of(k) && m0.dom().contains(sv + k.skip(dv.len() as int))),
                    |k: Seq<Seq<char>>| entries_map(snext)[k],
                ));
                assert forall|a: int| 0 <= a < out@.len() implies entries_map(
                    snext,
                ).dom().contains(path_view(#[trigger] out@[a].path@)) by {
                    lemma_entries_map_contains(spre, path_view(out@[a].path@));
                    lemma_entries_map_contains(snext, path_view(out@[a].path@));
                }
            }
        }
        i += 1;
    }
    proof {
        assert(fs.entries@.take(n as int) =~= fs.entries@);
    }
    fs.entries = out;
    let ghost m1 = fs@;
    // Create the missing directories on the way to the destination.
    if dst.len() > 1 {
        let parent = path_prefix(dst, dst.len() - 1);
        let ghost dvp = path_view(parent@);
        proof {
            assert(dvp =~= dv.take(dv.len() - 1));
            assert(dvp.is_prefix_of(dv)) by {
                assert(dvp =~= dv.subrange(0, dvp.len() as int));
            }
            assert(dirs_to_ok(m1, dvp)) by {
                assert forall|j: int| 1 <= j <= dvp.len() && m1.dom().contains(
                    #[trigger] dvp.take(j),
                ) implies m1[dvp.take(j)] is Dir by {
                    assert(dvp.take(j) =~= dv.take(j));
                    assert(m0.dom().contains(dv.take(j)));
                }
            }
        }
        let r2 = create_dir_all(fs, &parent);
        proof {
            if r2 is Err {
                assert(false);
            }
        }
    }
    let ghost m2 = fs@;
    proof {
        // On the way to the destination nothing changed for source-side
        // keys: they are disjoint from the destination subtree.
        assert forall|k: Seq<Seq<char>>| sv.is_prefix_of(k) implies (m2.dom().contains(k)
            <==> m0.dom().contains(k)) && (m0.dom().contains(k) ==> m2[k] == m0[k]) by {
            if dv.is_prefix_of(k) {
                if sv.len() <= dv.len() {
                    lemma_prefix_comparable(sv, dv, k);
                } else {
                    lemma_prefix_comparable(dv, sv, k);
                }
            }
            if k.is_prefix_of(dv.take(dv.len() - 1)) {
                assert(dv.take(dv.len() - 1).is_prefix_of(dv)) by {
                    assert(dv.take(dv.len() - 1) =~= dv.subrange(0, dv.len() - 1));
                }
                lemma_prefix_transitive(k, dv.take(dv.len() - 1), dv);
                lemma_prefix_comparable(sv, dv, k);
            }
        }
    }
    // Transplant the source subtree below the destination.
    let n2 = fs.entries.len();
    let mut tvec: Vec<FsEntry> = Vec::new();
    let mut i: usize = 0;
    while i < n2
        invariant
            i <= n2,
            n2 == fs.entries@.len(),
            fs.wf(),
            m2 == fs@,
            sv == path_view(src@),
            dv == path_view(dst@),
            src@.len() >= 1,
            dst@.len() >= 1,
            wf_entries(tvec@),
            entries_map(tvec@) == transplant_spec(entries_map(fs.entries@.take(i as int)), sv, dv),
        decreases n2 - i,
    {
        let ghost spre = fs.entries@.take(i as int);
        let ghost snext = fs.entries@.take(i + 1);
        proof {
            assert(snext.drop_last() =~= spre);
            assert(snext.last() == fs.entries@[i as int]);
            lemma_entries_map_contains(spre, path_view(fs.entries@[i as int].path@));
        }
        let e = &fs.entries[i];
        let ghost pe = path_view(e.path@);
        if path_starts_with(&e.path, src) {
            assert(src@.len() <= e.path@.len());
            let tgt = path_concat_from(dst, &e.path, src.len());
            proof {
                lemma_path_view_concat(dst@, e.path@.skip(src@.len() as int));
                lemma_path_view_skip(e.path@, src@.len() as int);
            }
            let ghost tv = path_view(tgt@);
            assert(tv == dv + pe.skip(sv.len() as int));
            proof {
                lemma_concat_skip(dv, pe.skip(sv.len() as int));
                lemma_prefix_reassemble(pe, sv);
            }
            let ghost tpre = tvec@;
            tvec.push(FsEntry { path: tgt, item: clone_item(&e.item) });
            proof {
                lemma_entries_map_push(tpre, tvec@.last());
                assert(tvec@.drop_last() =~= tpre);
                // The new target path is distinct from all earlier targets.
                assert forall|a: int, b: int| 0 <= a < b < tvec@.len() implies path_view(
                    tvec@[a].path@,
                ) != path_view(tvec@[b].path@) by {
                    if b == tvec@.len() - 1 {
                        if path_view(tvec@[a].path@) == tv {
                            lemma_entries_map_contains(tpre, tv);
                            assert(transplant_spec(entries_map(spre), sv, dv).dom().contains(tv));
                            assert(entries_map(spre).dom().contains(sv + tv.skip(dv.len() as int)));
                            assert(sv + tv.skip(dv.len() as int) == pe);
                            lemma_entries_map_contains(spre, pe);
                        }
                    }
                }
                assert(tvec@[tvec@.len() - 1].path@.len() >= 1);
                // The map gained exactly the transplanted entry.
                assert forall|k: Seq<Seq<char>>| #![auto]
                    transplant_spec(entries_map(snext), sv, dv).dom().contains(k) <==> entries_map(
                    tvec@,
                ).dom().contains(k) by {
                    if dv.is_prefix_of(k) {
                        lemma_prefix_reassemble(k, dv);
                        if sv + k.skip(dv.len() as int) == pe {
                            assert(k == dv + pe.skip(sv.len() as int)) by {
                                lemma_concat_skip(sv, k.skip(dv.len() as int));
                            }
                        }
                    }
                }
                assert forall|k: Seq<Seq<char>>| #![auto]
                    entries_map(tvec@).dom().contains(k) implies entries_map(tvec@)[k]
                    == transplant_spec(entries_map(snext), sv, dv)[k] by {
                    if dv.is_prefix_of(k) {
                        lemma_prefix_reassemble(k, dv);
                        if sv + k.skip(dv.len() as int) == pe {
                            assert(k == dv + pe.skip(sv.len() as int)) by {
                                lemma_concat_skip(sv, k.skip(dv.len() as int));
                            }
                        }
                    }
                }
                assert(entries_map(tvec@) =~= transplant_spec(entries_map(snext), sv, dv));
            }
        } else {
            proof {
                assert forall|k: Seq<Seq<char>>| #![auto]
                    transplant_spec(entries_map(snext), sv, dv).dom().contains(k) <==> entries_map(
                    tvec@,
                ).dom().contains(k) by {
                    if dv.is_prefix_of(k) {
                        if sv + k.skip(dv.len() as int) == pe {
                            lemma_concat_skip(sv, k.skip(dv.len() as int));
                            assert(sv.is_prefix_of(pe));
                        }
                    }
                }
                assert(entries_map(tvec@) =~= transplant_spec(entries_map(snext), sv, dv));
            }
        }
        i += 1;
    }
    proof {
        assert(fs.entries@.take(n2 as int) =~= fs.entries@);
    }
    // Install the transplanted entries.
    let ghost cur = fs.entries@;
    let ghost tv0 = tvec@;
    fs.entries.append(&mut tvec);
    proof {
        lemma_entries_map_concat(cur, tv0);
        assert(fs.entries@ == cur + tv0);
        let tmap = transplant_spec(m2, sv, dv);
        // The transplanted keys are fresh: no kept entry shares a path.
        assert forall|k: Seq<Seq<char>>| #![auto] tmap.dom().contains(k) implies !m2.dom().contains(
            k,
        ) by {
            assert(dv.is_prefix_of(k));
            assert(m2.dom().contains(sv + k.skip(dv.len() as int)));
            assert(m0.dom().contains(sv + k.skip(dv.len() as int)));
            if m2.dom().contains(k) {
                if k.is_prefix_of(dv.take(dv.len() - 1)) {
                    assert(k.len() <= dv.len() - 1);
                    assert(dv.len() <= k.len());
                } else {
                    assert(m1.dom().contains(k));
                }
            }
        }
        assert forall|a: int, b: int| 0 <= a < b < fs.entries@.len() implies path_view(
            fs.entries@[a].path@,
        ) != path_view(fs.entries@[b].path@) by {
            if a < cur.len() && b >= cur.len() {
                if path_view(fs.entries@[a].path@) == path_view(fs.entries@[b].path@) {
                    let k = path_view(fs.entries@[b].path@);
                    assert(tv0[b - cur.len()] == fs.entries@[b]);
                    lemma_entries_map_contains(tv0, k);
                    assert(entries_map(tv0).dom().contains(k));
                    assert(tmap.dom().contains(k));
                    assert(cur[a] == fs.entries@[a]);
                    lemma_entries_map_contains(cur, k);
                    assert(m2.dom().contains(k));
                }
            }
        }
        assert forall|a: int| 0 <= a < fs.entries@.len() implies #[trigger] fs.entries@[a].path@.len()
            >= 1 by {
            if a >= cur.len() {
                assert(tv0[a - cur.len()] == fs.entries@[a]);
            }
        }
        assert(fs.wf());
        // The result is exactly the copy transformation of the old map.
        assert forall|k: Seq<Seq<char>>| #![auto] fs@.dom().contains(k) <==> copy_spec(
            m0,
            sv,
            dv,
        ).dom().contains(k) by {
            lemma_copy_domain_case(m0, m1, m2, sv, dv, k);
        }
        assert forall|k: Seq<Seq<char>>| #![auto] fs@.dom().contains(k) implies fs@[k] == copy_spec(
            m0,
            sv,
            dv,
        )[k] by {
            lemma_copy_domain_case(m0, m1, m2, sv, dv, k);
        }
        assert(fs@ =~= copy_spec(m0, sv, dv));
    }
    Ok(())
}

/// The per-key case analysis behind [`copy_dir_all`]: how the kept
/// entries, the created directories and the transplanted entries together
/// make up the copy transformation.
proof fn lemma_copy_domain_case(
    m0: Map<Seq<Seq<char>>, Item>,
    m1: Map<Seq<Seq<char>>, Item>,
    m2: Map<Seq<Seq<char>>, Item>,
    sv: Seq<Seq<char>>,
    dv: Seq<Seq<char>>,
    k: Seq<Seq<char>>,
)
    requires
        sv.len() >= 1,
        dv.len() >= 1,
        !sv.is_prefix_of(dv),
        !dv.is_prefix_of(sv),
        m0.dom().contains(sv),
        m1 == Map::new(
            |k: Seq<Seq<char>>| m0.dom().contains(k) && !(dv.is_prefix_of(k)
                && m0.dom().contains(sv + k.skip(dv.len() as int))),
            |k: Seq<Seq<char>>| m0[k],
        ),
        m2 == (if dv.len() > 1 {
            dirs_to(m1, dv.take(dv.len() - 1))
        } else {
            m1
        }),
    ensures
        m2.union_prefer_right(transplant_spec(m2, sv, dv)).dom().contains(k) <==> copy_spec(
            m0,
            sv,
            dv,
        ).dom().contains(k),
        m2.union_prefer_right(transplant_spec(m2, sv, dv)).dom().contains(k)
            ==> m2.union_prefer_right(transplant_spec(m2, sv, dv))[k] == copy_spec(m0, sv, dv)[k],
{
    let dvp = dv.take(dv.len() - 1);
    assert(dvp.is_prefix_of(dv)) by {
        assert(dvp =~= dv.subrange(0, dvp.len() as int));
    }
    // Source-side keys survive to `m2` untouched.
    assert forall|q: Seq<Seq<char>>| sv.is_prefix_of(q) implies (m2.dom().contains(q)
        <==> m0.dom().contains(q)) && (m0.dom().contains(q) ==> m2[q] == m0[q]) by {
        if dv.is_prefix_of(q) {
            if sv.len() <= dv.len() {
                lemma_prefix_comparable(sv, dv, q);
            } else {
                lemma_prefix_comparable(dv, sv, q);
            }
        }
        if q.is_prefix_of(dvp) {
            lemma_prefix_transitive(q, dvp, dv);
            lemma_prefix_comparable(sv, dv, q);
        }
    }
    if dv.is_prefix_of(k) && m0.dom().contains(sv + k.skip(dv.len() as int)) {
        // A transplanted key.
        assert(sv.is_prefix_of(sv + k.skip(dv.len() as int))) by {
            lemma_concat_skip(sv, k.skip(dv.len() as int));
        }
        assert(transplant_spec(m2, sv, dv).dom().contains(k));
        assert(k.len() >= dv.len() >= 1);
    } else {
        assert(!transplant_spec(m2, sv, dv).dom().contains(k)) by {
            if dv.is_prefix_of(k) {
                lemma_concat_skip(sv, k.skip(dv.len() as int));
                assert(sv.is_prefix_of(sv + k.skip(dv.len() as int)));
            }
        }
        if m0.dom().contains(k) {
            assert(m1.dom().contains(k));
            assert(m2.dom().contains(k) && m2[k] == m0[k]);
        } else if 1 <= k.len() && k.is_prefix_of(dv) {
            // A directory created on the way to the destination.
            if k.len() == dv.len() {
                assert(k =~= dv);
                assert(k.skip(dv.len() as int) =~= Seq::<Seq<char>>::empty());
                assert(sv + k.skip(dv.len() as int) =~= sv);
                assert(false);
            } else {
                assert(k.is_prefix_of(dvp)) by {
                    assert(k =~= dvp.subrange(0, k.len() as int));
                }
                assert(dv.len() > 1);
                assert(m2.dom().contains(k) && m2[k] is Dir);
                assert(!(dv.is_prefix_of(k)));
            }
        } else {
            assert(!m1.dom().contains(k));
            if m2.dom().contains(k) {
                assert(dv.len() > 1 && k.is_prefix_of(dvp) && 1 <= k.len());
                lemma_prefix_transitive(k, dvp, dv);
                assert(false);
            }
            assert(!copy_spec(m0, sv, dv).dom().contains(k));
        }
    }
}

/// Recreating a directory leaves an existing, empty directory at the path:
/// the path maps to a directory and nothing is left below it.  (When a
/// file sits at the path instead, [`recreate_dir`] refuses with
/// [`Error::NotADirectory`] and changes nothing.)
pub proof fn lemma_recreate_dir_empty(m: Map<Seq<Seq<char>>, Item>, p: Seq<Seq<char>>)
    requires
        p.len() >= 1,
        dirs_to_ok(m, p),
    ensures
        recreate_spec(m, p).dom().contains(p),
        recreate_spec(m, p)[p] is Dir,
        forall|k: Seq<Seq<char>>|
            strictly_under(k, p) ==> !(#[trigger] recreate_spec(m, p).dom().contains(k)),
{
    assert(p.is_prefix_of(p)) by {
        assert(p =~= p.subrange(0, p.len() as int));
    }
    assert(p.take(p.len() as int) =~= p);
    assert(m.dom().contains(p) ==> m[p] is Dir);
    assert forall|k: Seq<Seq<char>>| strictly_under(k, p) implies !(
    #[trigger] recreate_spec(m, p).dom().contains(k)) by {
        if k.is_prefix_of(p) {
            assert(k.len() <= p.len());
        }
    }
}

/// Tree copy round-trip: every entry below the source, files with their
/// exact contents included, reappears below the destination at the same
/// relative path.
pub proof fn lemma_copy_preserves_files(
    m: Map<Seq<Seq<char>>, Item>,
    src: Seq<Seq<char>>,
    dst: Seq<Seq<char>>,
    q: Seq<Seq<char>>,
)
    requires
        m.dom().contains(src + q),
    ensures
        copy_spec(m, src, dst).dom().contains(dst + q),
        copy_spec(m, src, dst)[dst + q] == m[src + q],
{
    lemma_concat_skip(dst, q);
}

/// Copying an empty source directory yields an existing, empty destination
/// directory: the destination maps to a directory, and when nothing lay
/// below either side beforehand, nothing lies below the destination after.
pub proof fn lemma_copy_empty_dir(
    m: Map<Seq<Seq<char>>, Item>,
    src: Seq<Seq<char>>,
    dst: Seq<Seq<char>>,
)
    requires
        m.dom().contains(src),
        m[src] is Dir,
        forall|k: Seq<Seq<char>>| #[trigger] m.dom().contains(k) ==> !strictly_under(k, src),
        forall|k: Seq<Seq<char>>| #[trigger] m.dom().contains(k) ==> !strictly_under(k, dst),
    ensures
        copy_spec(m, src, dst).dom().contains(dst),
        copy_spec(m, src, dst)[dst] is Dir,
        forall|k: Seq<Seq<char>>|
            strictly_under(k, dst) ==> !(#[trigger] copy_spec(m, src, dst).dom().contains(k)),
{
    assert(dst.is_prefix_of(dst)) by {
        assert(dst =~= dst.subrange(0, dst.len() as int));
    }
    assert(dst.skip(dst.len() as int) =~= Seq::<Seq<char>>::empty());
    assert(src + dst.skip(dst.len() as int) =~= src);
    assert(copy_spec(m, src, dst).dom().contains(dst));
    assert forall|k: Seq<Seq<char>>| strictly_under(k, dst) implies !(
    #[trigger] copy_spec(m, src, dst).dom().contains(k)) by {
        if k.is_prefix_of(dst) {
            assert(k.len() <= dst.len());
        }
        if m.dom().contains(src + k.skip(dst.len() as int)) {
            lemma_concat_skip(src, k.skip(dst.len() as int));
            assert(k.skip(dst.len() as int).len() > 0);
            assert(strictly_under(src + k.skip(dst.len() as int), src));
        }
    }
}

/// Selective removal: a path survives exactly when it either does not lie
/// directly or transitively inside the cleaned directory, or enters it
/// through a kept name; surviving paths keep their contents.  With an
/// empty keep-list everything below the directory is removed.
pub proof fn lemma_remove_except_exact(
    m: Map<Seq<Seq<char>>, Item>,
    d: Seq<Seq<char>>,
    keep: Seq<Seq<char>>,
    k: Seq<Seq<char>>,
)
    ensures
        remove_except_spec(m, d, keep).dom().contains(k) <==> (m.dom().contains(k) && (
        strictly_under(k, d) ==> keep.contains(k[d.len() as int]))),
        remove_except_spec(m, d, keep).dom().contains(k) ==> remove_except_spec(m, d, keep)[k]
            == m[k],
        keep.len() == 0 && strictly_under(k, d) ==> !remove_except_spec(
            m,
            d,
            keep,
        ).dom().contains(k),
{
}

} // verus!
