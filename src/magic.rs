//! The magic-mount tree: nodes built from module entries, merged across
//! modules, and the per-directory decisions of the mount walk.
use vstd::prelude::*;
use crate::text::{lemma_push_to_set, str_eq};

verus! {

/// What a node of the merged tree stands for.
#[derive(PartialEq, Eq, Structural, Clone, Copy, Debug)]
pub enum NodeFileType {
    RegularFile,
    Symlink,
    Directory,
    Whiteout,
}

/// What a module's directory entry is on disk.
#[derive(PartialEq, Eq, Structural, Clone, Copy, Debug)]
pub enum EntryKind {
    File,
    Symlink,
    Directory,
    CharDevice { rdev: u64 },
    Other,
}

/// One entry of the merged magic-mount tree.
pub struct Node {
    pub name: String,
    pub file_type: NodeFileType,
    pub children: Vec<Node>,
    pub module_source: Option<String>,
    pub replace: bool,
    pub skip: bool,
}

/// Names of the nodes, in order.
pub open spec fn child_names(c: Seq<Node>) -> Seq<Seq<char>> {
    c.map_values(|n: Node| n.name@)
}

/// Position of the child called `x` (meaningful where there is one).
pub open spec fn child_index(s: Seq<Node>, x: Seq<char>) -> int {
    choose|k: int| 0 <= k < s.len() && s[k].name@ == x
}

/// The children after adding `c`: in place of a child of the same name, else at the end.
pub open spec fn with_child(s: Seq<Node>, c: Node) -> Seq<Node> {
    if child_names(s).contains(c.name@) {
        s.update(child_index(s, c.name@), c)
    } else {
        s.push(c)
    }
}

/// The children after taking out the one called `x`, if any.
pub open spec fn without_child(s: Seq<Node>, x: Seq<char>) -> Seq<Node> {
    if child_names(s).contains(x) {
        s.remove(child_index(s, x))
    } else {
        s
    }
}

/// Among children with distinct names, `k` is the position of its own name.
pub proof fn lemma_child_index(s: Seq<Node>, k: int)
    requires
        child_names(s).no_duplicates(),
        0 <= k < s.len(),
    ensures
        child_names(s).contains(s[k].name@),
        child_index(s, s[k].name@) == k,
{
    assert(child_names(s)[k] == s[k].name@);
    let j = child_index(s, s[k].name@);
    assert(0 <= j < s.len() && s[j].name@ == s[k].name@);
    assert(child_names(s)[j] == child_names(s)[k]);
}

impl Node {
    /// Shape rules that hold at every node: only directories have children,
    /// a replacing node comes from a module, and sibling names are distinct.
    pub open spec fn wf(&self) -> bool
        decreases self,
    {
        &&& (self.file_type != NodeFileType::Directory ==> self.children@.len() == 0)
        &&& (self.replace ==> self.module_source is Some)
        &&& child_names(self.children@).no_duplicates()
        &&& forall|i: int|
            0 <= i < self.children@.len() ==> (#[trigger] self.children@[i]).wf()
    }

    /// A synthetic directory with no module behind it.
    pub fn new_root(name: String) -> (r: Node)
        ensures
            r.wf(),
            r.name@ == name@,
            r.file_type == NodeFileType::Directory,
            r.module_source is None,
            !r.replace,
            !r.skip,
            r.children@.len() == 0,
    {
        let r = Node {
            name,
            file_type: NodeFileType::Directory,
            children: Vec::new(),
            module_source: None,
            replace: false,
            skip: false,
        };
        assert(child_names(r.children@) =~= Seq::<Seq<char>>::empty());
        r
    }

    /// The node for a module entry at `path`: files, symlinks and directories
    /// keep their type, a character device numbered 0 is a whiteout, anything
    /// else has no node. A directory with a replace marker replaces the live one.
    pub fn from_entry(name: String, path: String, kind: EntryKind, replace_marker: bool) -> (r:
        Option<Node>)
        ensures
            r is Some <==> (kind is File || kind is Symlink || kind is Directory || kind
                == EntryKind::CharDevice { rdev: 0 }),
            r matches Some(n) ==> {
                &&& n.wf()
                &&& n.name@ == name@
                &&& n.module_source == Some(path)
                &&& n.children@.len() == 0
                &&& !n.skip
                &&& n.replace == (kind is Directory && replace_marker)
                &&& n.file_type == match kind {
                    EntryKind::File => NodeFileType::RegularFile,
                    EntryKind::Symlink => NodeFileType::Symlink,
                    EntryKind::Directory => NodeFileType::Directory,
                    _ => NodeFileType::Whiteout,
                }
            },
    {
        let file_type = match kind {
            EntryKind::File => NodeFileType::RegularFile,
            EntryKind::Symlink => NodeFileType::Symlink,
            EntryKind::Directory => NodeFileType::Directory,
            EntryKind::CharDevice { rdev } => {
                if rdev == 0 {
                    NodeFileType::Whiteout
                } else {
                    return None;
                }
            },
            EntryKind::Other => {
                return None;
            },
        };
        let is_dir = match kind {
            EntryKind::Directory => true,
            _ => false,
        };
        let n = Node {
            name,
            file_type,
            children: Vec::new(),
            module_source: Some(path),
            replace: is_dir && replace_marker,
            skip: false,
        };
        assert(child_names(n.children@) =~= Seq::<Seq<char>>::empty());
        Some(n)
    }

    /// Index of the child called `name`.
    pub fn find_child(&self, name: &str) -> (r: Option<usize>)
        ensures
            r matches Some(k) ==> k < self.children@.len() && self.children@[k as int].name@
                == name@,
            r is None ==> !child_names(self.children@).contains(name@),
    {
        let mut k: usize = 0;
        while k < self.children.len()
            invariant
                k <= self.children@.len(),
                forall|j: int| 0 <= j < k ==> self.children@[j].name@ != name@,
            decreases self.children@.len() - k,
        {
            if str_eq(self.children[k].name.as_str(), name) {
                return Some(k);
            }
            k = k + 1;
        }
        proof {
            if child_names(self.children@).contains(name@) {
                let j = choose|j: int|
                    0 <= j < child_names(self.children@).len() && child_names(self.children@)[j]
                        == name@;
                assert(self.children@[j].name@ == name@);
            }
        }
        None
    }

    /// Adds a child to a directory, replacing one of the same name.
    /// Non-directories take no children and are left unchanged.
    pub fn add_child(&mut self, child: Node)
        requires
            old(self).wf(),
            child.wf(),
        ensures
            final(self).wf(),
            final(self).name == old(self).name,
            final(self).file_type == old(self).file_type,
            final(self).module_source == old(self).module_source,
            final(self).replace == old(self).replace,
            old(self).file_type == NodeFileType::Directory ==> child_names(
                final(self).children@,
            ).to_set() == child_names(old(self).children@).to_set().insert(child.name@),
            old(self).file_type != NodeFileType::Directory ==> final(self).children@ == old(
                self,
            ).children@,
            old(self).file_type == NodeFileType::Directory ==> final(self).children@ == with_child(
                old(self).children@,
                child,
            ),
    {
        if self.file_type != NodeFileType::Directory {
            return;
        }
        let ghost before = self.children@;
        match self.find_child(child.name.as_str()) {
            Some(k) => {
                let ghost cname = child.name@;
                let ghost cv = child;
                proof {
                    lemma_child_index(before, k as int);
                }
                self.children.set(k, child);
                proof {
                    assert(self.children@ == before.update(k as int, cv));
                    let after = self.children@;
                    assert(child_names(after) =~= child_names(before).update(k as int, cname));
                    assert(child_names(before)[k as int] == cname);
                    assert(child_names(after) =~= child_names(before));
                    assert(child_names(before).contains(cname));
                    assert(child_names(before).to_set().insert(cname) =~= child_names(
                        before,
                    ).to_set());
                    assert forall|i: int| 0 <= i < after.len() implies (#[trigger] after[i]).wf() by {
                        if i != k {
                            assert(after[i] == before[i]);
                        }
                    }
                }
            },
            None => {
                let ghost cname = child.name@;
                self.children.push(child);
                proof {
                    let after = self.children@;
                    assert(child_names(after) =~= child_names(before).push(cname));
                    assert forall|i: int, j: int|
                        0 <= i < j < child_names(after).len() implies child_names(after)[i]
                        != child_names(after)[j] by {
                        if j == before.len() {
                            assert(child_names(before)[i] == child_names(after)[i]);
                        }
                    }
                    assert forall|x| #[trigger] child_names(after).to_set().contains(x)
                        <==> child_names(before).to_set().insert(cname).contains(x) by {
                        if x == cname {
                            assert(child_names(after)[before.len() as int] == x);
                        }
                        if child_names(after).to_set().contains(x) && x != cname {
                            let i = choose|i: int|
                                0 <= i < child_names(after).len() && child_names(after)[i] == x;
                            assert(child_names(before)[i] == x);
                        }
                        if child_names(before).to_set().contains(x) {
                            let i = choose|i: int|
                                0 <= i < child_names(before).len() && child_names(before)[i] == x;
                            assert(child_names(after)[i] == x);
                        }
                    }
                    assert(child_names(after).to_set() =~= child_names(before).to_set().insert(
                        cname,
                    ));
                    assert forall|i: int| 0 <= i < after.len() implies (#[trigger] after[i]).wf() by {
                        if i < before.len() {
                            assert(after[i] == before[i]);
                        }
                    }
                }
            },
        }
    }
}

/// Whether a merge takes the lower node's module, type and replace flag: only
/// when the higher node has no module behind it, and never so as to turn a
/// directory that already has children into something that cannot hold them.
pub open spec fn adopts(high: Node, low: Node) -> bool {
    high.module_source is None && (low.file_type == NodeFileType::Directory
        || high.children@.len() == 0)
}

/// The type a merge leaves.
pub open spec fn merged_type(high: Node, low: Node) -> NodeFileType {
    if adopts(high, low) {
        low.file_type
    } else {
        high.file_type
    }
}

/// `r` is `low` merged into `high`: the first occupant keeps its module, type
/// and replace flag; a node that ends up a directory holds the children of
/// both, those of only one side as they were and shared ones merged the same
/// way; a node that ends up something else keeps the higher node's (no)
/// children and the lower node's are dropped.
pub open spec fn merged_into(r: Node, high: Node, low: Node) -> bool
    decreases low,
{
    let hc = high.children@;
    let lc = low.children@;
    let rc = r.children@;
    &&& r.name == high.name
    &&& r.skip == high.skip
    &&& r.file_type == merged_type(high, low)
    &&& r.module_source == (if adopts(high, low) {
        low.module_source
    } else {
        high.module_source
    })
    &&& r.replace == (if adopts(high, low) {
        low.replace
    } else {
        high.replace
    })
    &&& (r.file_type != NodeFileType::Directory ==> rc == hc)
    &&& (r.file_type == NodeFileType::Directory ==> {
        &&& child_names(rc).to_set() == child_names(hc).to_set().union(child_names(lc).to_set())
        &&& forall|i: int, j: int|
            0 <= i < rc.len() && 0 <= j < hc.len() && #[trigger] rc[i].name@ == #[trigger] hc[j].name@
                && !child_names(lc).contains(hc[j].name@) ==> rc[i] == hc[j]
        &&& forall|i: int, k: int|
            0 <= i < rc.len() && 0 <= k < lc.len() && #[trigger] rc[i].name@ == #[trigger] lc[k].name@
                && !child_names(hc).contains(lc[k].name@) ==> rc[i] == lc[k]
        &&& forall|i: int, j: int, k: int|
            0 <= i < rc.len() && 0 <= j < hc.len() && 0 <= k < lc.len() && #[trigger] rc[i].name@
                == #[trigger] hc[j].name@ && #[trigger] lc[k].name@ == hc[j].name@ ==> merged_into(
                rc[i],
                hc[j],
                lc[k],
            )
    })
}

/// Merges a lower-priority tree into a higher-priority one (see `merged_into`).
pub fn merge_nodes(high: &mut Node, low: Node)
    requires
        old(high).wf(),
        low.wf(),
    ensures
        final(high).wf(),
        merged_into(*final(high), *old(high), low),
{
    let ghost whole = low;
    merge_rec(high, low, Ghost(whole));
}

proof fn lemma_names_index(s: Seq<Node>, i: int)
    requires
        0 <= i < s.len(),
    ensures
        child_names(s).contains(s[i].name@),
        child_names(s)[i] == s[i].name@,
{
    assert(child_names(s)[i] == s[i].name@);
}

fn merge_rec(high: &mut Node, low: Node, Ghost(whole): Ghost<Node>)
    requires
        low == whole,
        old(high).wf(),
        low.wf(),
    ensures
        final(high).wf(),
        merged_into(*final(high), *old(high), low),
    decreases whole,
{
    let ghost low0 = low;
    let ghost h0 = *high;
    let ghost orig = high.children@;
    let adopt = high.module_source.is_none() && (low.file_type == NodeFileType::Directory
        || high.children.len() == 0);
    let Node { name: _, file_type, children, module_source, replace, skip: _ } = low;
    if adopt {
        high.module_source = module_source;
        high.file_type = file_type;
        high.replace = replace;
    }
    if high.file_type != NodeFileType::Directory {
        proof {
            assert(h0.file_type != NodeFileType::Directory ==> orig.len() == 0);
        }
        return;
    }
    let ghost lows = children@;
    let mut rest = children;
    let ghost mut idx: int = 0;
    assert(lows.skip(0) =~= lows);
    assert(child_names(lows.take(0)).to_set() =~= Set::<Seq<char>>::empty());
    assert(child_names(high.children@).to_set() =~= child_names(orig).to_set().union(
        child_names(lows.take(0)).to_set(),
    ));
    while rest.len() > 0
        invariant
            0 <= idx <= lows.len(),
            lows == low0.children@,
            low0 == whole,
            h0 == *old(high),
            orig == h0.children@,
            rest@ == lows.skip(idx),
            low0.wf(),
            h0.wf(),
            high.name == h0.name,
            high.skip == h0.skip,
            high.file_type == NodeFileType::Directory,
            high.file_type == merged_type(h0, low0),
            high.module_source == (if adopts(h0, low0) {
                low0.module_source
            } else {
                h0.module_source
            }),
            high.replace == (if adopts(h0, low0) {
                low0.replace
            } else {
                h0.replace
            }),
            high.replace ==> high.module_source is Some,
            child_names(high.children@).no_duplicates(),
            forall|j: int| 0 <= j < high.children@.len() ==> (#[trigger] high.children@[j]).wf(),
            child_names(high.children@).to_set() == child_names(orig).to_set().union(
                child_names(lows.take(idx)).to_set(),
            ),
            high.children@.len() >= orig.len(),
            forall|i: int| 0 <= i < orig.len() ==> #[trigger] high.children@[i].name == orig[i].name,
            forall|i: int|
                0 <= i < orig.len() && !child_names(lows.take(idx)).contains(orig[i].name@)
                    ==> #[trigger] high.children@[i] == orig[i],
            forall|i: int, m: int|
                0 <= i < orig.len() && 0 <= m < idx && #[trigger] lows[m].name@ == #[trigger] orig[i].name@
                    ==> merged_into(high.children@[i], orig[i], lows[m]),
            forall|i: int|
                orig.len() <= i < high.children@.len() ==> !child_names(orig).contains(
                    #[trigger] high.children@[i].name@,
                ) && child_names(lows.take(idx)).contains(high.children@[i].name@),
            forall|i: int, k: int|
                orig.len() <= i < high.children@.len() && 0 <= k < lows.len()
                    && #[trigger] high.children@[i].name@ == #[trigger] lows[k].name@
                    ==> high.children@[i] == lows[k],
        decreases rest@.len(),
    {
        let c = rest.remove(0);
        proof {
            assert(c == lows[idx]);
            assert(rest@ =~= lows.skip(idx + 1));
            assert(child_names(lows.take(idx + 1)) =~= child_names(lows.take(idx)).push(c.name@));
            lemma_push_to_set(child_names(lows.take(idx)), c.name@);
            assert(c.wf());
            assert(!child_names(lows.take(idx)).contains(c.name@)) by {
                if child_names(lows.take(idx)).contains(c.name@) {
                    let m = choose|m: int|
                        0 <= m < child_names(lows.take(idx)).len() && child_names(lows.take(idx))[m]
                            == c.name@;
                    assert(child_names(lows)[m] == child_names(lows)[idx]);
                }
            }
        }
        let ghost before = high.children@;
        let ghost cname = c.name@;
        match high.find_child(c.name.as_str()) {
            Some(k) => {
                proof {
                    if k >= orig.len() {
                        assert(child_names(lows.take(idx)).contains(before[k as int].name@));
                    }
                    assert(before[k as int] == orig[k as int]);
                }
                let mut h = high.children.remove(k);
                let ghost cg = c;
                proof {
                    assert(h == before[k as int]);
                    assert(cg == whole.children@[idx]);
                    vstd::std_specs::vec::axiom_vec_decreases_to_view(whole.children);
                    vstd::seq::axiom_seq_index_decreases(whole.children@, idx);
                    assert(decreases_to!(whole => cg));
                }
                merge_rec(&mut h, c, Ghost(cg));
                high.children.insert(k, h);
                proof {
                    let after = high.children@;
                    assert(after =~= before.update(k as int, after[k as int]));
                    assert(child_names(after) =~= child_names(before));
                    assert(child_names(before)[k as int] == cname);
                    assert(child_names(before).to_set().contains(cname));
                    assert forall|j: int| 0 <= j < after.len() implies (#[trigger] after[j]).wf() by {
                        if j != k {
                            assert(after[j] == before[j]);
                        }
                    }
                    assert forall|i: int|
                        orig.len() <= i < after.len() implies !child_names(orig).contains(
                            #[trigger] after[i].name@,
                        ) && child_names(lows.take(idx + 1)).contains(after[i].name@) by {
                        assert(after[i] == before[i]);
                        let m = choose|m: int|
                            0 <= m < child_names(lows.take(idx)).len() && child_names(
                                lows.take(idx),
                            )[m] == before[i].name@;
                        assert(child_names(lows.take(idx + 1))[m] == before[i].name@);
                    }
                    assert forall|i: int, q: int|
                        orig.len() <= i < after.len() && 0 <= q < lows.len()
                            && #[trigger] after[i].name@ == #[trigger] lows[q].name@ implies after[i]
                        == lows[q] by {
                        assert(after[i] == before[i]);
                    }
                    assert forall|i: int| 0 <= i < orig.len() implies #[trigger] after[i].name
                        == orig[i].name by {
                        if i != k {
                            assert(after[i] == before[i]);
                        }
                    }
                    assert forall|i: int|
                        0 <= i < orig.len() && !child_names(lows.take(idx + 1)).contains(
                            orig[i].name@,
                        ) implies #[trigger] after[i] == orig[i] by {
                        assert(child_names(lows.take(idx + 1)).contains(cname)) by {
                            assert(child_names(lows.take(idx + 1))[idx] == cname);
                        }
                        if i != k {
                            assert(after[i] == before[i]);
                            assert(child_names(lows.take(idx)).to_set().subset_of(
                                child_names(lows.take(idx + 1)).to_set(),
                            ));
                            if child_names(lows.take(idx)).contains(orig[i].name@) {
                                assert(child_names(lows.take(idx)).to_set().contains(orig[i].name@));
                            }
                        }
                    }
                    assert forall|i: int, m: int|
                        0 <= i < orig.len() && 0 <= m < idx + 1 && #[trigger] lows[m].name@
                            == #[trigger] orig[i].name@ implies merged_into(after[i], orig[i], lows[m]) by {
                        if m == idx {
                            lemma_names_index(orig, i);
                            lemma_names_index(orig, k as int);
                            assert(child_names(orig)[i] == child_names(orig)[k as int]);
                        } else if i == k {
                            lemma_names_index(lows, m);
                            lemma_names_index(lows, idx);
                            assert(child_names(lows)[m] == child_names(lows)[idx]);
                        } else {
                            assert(after[i] == before[i]);
                        }
                    }
                    assert(child_names(after).to_set() =~= child_names(orig).to_set().union(
                        child_names(lows.take(idx + 1)).to_set(),
                    ));
                }
            },
            None => {
                high.children.push(c);
                proof {
                    let after = high.children@;
                    assert(child_names(after) =~= child_names(before).push(cname));
                    lemma_push_to_set(child_names(before), cname);
                    assert forall|i: int, j: int|
                        0 <= i < j < child_names(after).len() implies child_names(after)[i]
                        != child_names(after)[j] by {
                        if j == before.len() {
                            assert(child_names(before)[i] == child_names(after)[i]);
                        }
                    }
                    assert forall|j: int| 0 <= j < after.len() implies (#[trigger] after[j]).wf() by {
                        if j < before.len() {
                            assert(after[j] == before[j]);
                        }
                    }
                    assert(!child_names(orig).contains(cname)) by {
                        if child_names(orig).contains(cname) {
                            let i = choose|i: int|
                                0 <= i < child_names(orig).len() && child_names(orig)[i] == cname;
                            assert(before[i].name == orig[i].name);
                            assert(child_names(before)[i] == cname);
                        }
                    }
                    assert forall|i: int|
                        orig.len() <= i < after.len() implies !child_names(orig).contains(
                            #[trigger] after[i].name@,
                        ) && child_names(lows.take(idx + 1)).contains(after[i].name@) by {
                        if i == before.len() {
                            assert(child_names(lows.take(idx + 1))[idx] == cname);
                        } else {
                            assert(after[i] == before[i]);
                            let m = choose|m: int|
                                0 <= m < child_names(lows.take(idx)).len() && child_names(
                                    lows.take(idx),
                                )[m] == before[i].name@;
                            assert(child_names(lows.take(idx + 1))[m] == before[i].name@);
                        }
                    }
                    assert forall|i: int, q: int|
                        orig.len() <= i < after.len() && 0 <= q < lows.len()
                            && #[trigger] after[i].name@ == #[trigger] lows[q].name@ implies after[i]
                        == lows[q] by {
                        if i == before.len() {
                            lemma_names_index(lows, q);
                            lemma_names_index(lows, idx);
                            assert(child_names(lows)[q] == child_names(lows)[idx]);
                        } else {
                            assert(after[i] == before[i]);
                        }
                    }
                    assert forall|i: int|
                        0 <= i < orig.len() && !child_names(lows.take(idx + 1)).contains(
                            orig[i].name@,
                        ) implies #[trigger] after[i] == orig[i] by {
                        assert(after[i] == before[i]);
                        if child_names(lows.take(idx)).contains(orig[i].name@) {
                            let m = choose|m: int|
                                0 <= m < child_names(lows.take(idx)).len() && child_names(
                                    lows.take(idx),
                                )[m] == orig[i].name@;
                            assert(child_names(lows.take(idx + 1))[m] == orig[i].name@);
                        }
                    }
                    assert forall|i: int, m: int|
                        0 <= i < orig.len() && 0 <= m < idx + 1 && #[trigger] lows[m].name@
                            == #[trigger] orig[i].name@ implies merged_into(after[i], orig[i], lows[m]) by {
                        assert(after[i] == before[i]);
                        if m == idx {
                            lemma_names_index(orig, i);
                        }
                    }
                    assert(child_names(after).to_set() =~= child_names(orig).to_set().union(
                        child_names(lows.take(idx + 1)).to_set(),
                    ));
                }
            },
        }
        proof {
            idx = idx + 1;
        }
    }
    proof {
        assert(lows.take(idx) =~= lows);
        let rc = high.children@;
        assert forall|i: int, j: int|
            0 <= i < rc.len() && 0 <= j < orig.len() && #[trigger] rc[i].name@ == #[trigger] orig[j].name@
                && !child_names(lows).contains(orig[j].name@) implies rc[i] == orig[j] by {
            if i < orig.len() {
                lemma_names_index(orig, i);
                lemma_names_index(orig, j);
                assert(child_names(orig)[i] == child_names(orig)[j]);
            } else {
                lemma_names_index(orig, j);
            }
        }
        assert forall|i: int, k: int|
            0 <= i < rc.len() && 0 <= k < lows.len() && #[trigger] rc[i].name@ == #[trigger] lows[k].name@
                && !child_names(orig).contains(lows[k].name@) implies rc[i] == lows[k] by {
            if i < orig.len() {
                lemma_names_index(orig, i);
            }
        }
        assert forall|i: int, j: int, k: int|
            0 <= i < rc.len() && 0 <= j < orig.len() && 0 <= k < lows.len() && #[trigger] rc[i].name@
                == #[trigger] orig[j].name@ && #[trigger] lows[k].name@ == orig[j].name@ implies merged_into(
            rc[i],
            orig[j],
            lows[k],
        ) by {
            lemma_names_index(orig, j);
            if i < orig.len() {
                lemma_names_index(orig, i);
                assert(child_names(orig)[i] == child_names(orig)[j]);
            }
        }
    }
}

impl Node {
    /// Removes and returns the child called `name`.
    pub fn take_child(&mut self, name: &str) -> (r: Option<Node>)
        requires
            old(self).wf(),
        ensures
            final(self).wf(),
            final(self).name == old(self).name,
            final(self).file_type == old(self).file_type,
            final(self).module_source == old(self).module_source,
            final(self).replace == old(self).replace,
            r is Some <==> child_names(old(self).children@).contains(name@),
            r matches Some(c) ==> c.wf() && c.name@ == name@ && c == old(self).children@[child_index(
                old(self).children@,
                name@,
            )],
            final(self).children@ == without_child(old(self).children@, name@),
            child_names(final(self).children@).to_set() == child_names(old(self).children@).to_set().remove(
                name@,
            ),
    {
        match self.find_child(name) {
            Some(k) => {
                let ghost before = self.children@;
                proof {
                    lemma_child_index(before, k as int);
                }
                let c = self.children.remove(k);
                proof {
                    let after = self.children@;
                    assert(after =~= before.remove(k as int));
                    assert(child_names(after) =~= child_names(before).remove(k as int));
                    assert(child_names(before)[k as int] == name@);
                    assert(child_names(before).contains(name@));
                    assert forall|j: int| 0 <= j < after.len() implies (#[trigger] after[j]).wf() by {
                        if j < k {
                            assert(after[j] == before[j]);
                        } else {
                            assert(after[j] == before[j + 1]);
                        }
                    }
                    assert forall|i: int, j: int|
                        0 <= i < j < child_names(after).len() implies child_names(after)[i]
                        != child_names(after)[j] by {
                        let ii = if i < k { i } else { i + 1 };
                        let jj = if j < k { j } else { j + 1 };
                        assert(child_names(after)[i] == child_names(before)[ii]);
                        assert(child_names(after)[j] == child_names(before)[jj]);
                    }
                    assert forall|x| #[trigger] child_names(after).to_set().contains(x)
                        <==> child_names(before).to_set().remove(name@).contains(x) by {
                        if child_names(after).to_set().contains(x) {
                            let i = choose|i: int|
                                0 <= i < child_names(after).len() && child_names(after)[i] == x;
                            let ii = if i < k { i } else { i + 1 };
                            assert(child_names(before)[ii] == x);
                            assert(ii != k);
                        }
                        if child_names(before).to_set().remove(name@).contains(x) {
                            let i = choose|i: int|
                                0 <= i < child_names(before).len() && child_names(before)[i] == x;
                            assert(i != k);
                            if i < k {
                                assert(child_names(after)[i] == x);
                            } else {
                                assert(child_names(after)[i - 1] == x);
                            }
                        }
                    }
                    assert(child_names(after).to_set() =~= child_names(before).to_set().remove(
                        name@,
                    ));
                }
                Some(c)
            },
            None => {
                assert(child_names(self.children@).to_set().remove(name@) =~= child_names(
                    self.children@,
                ).to_set());
                None
            },
        }
    }
}

/// Whether a partition collected under `system/` is moved to the root: its
/// live `/<partition>` must be a directory, and for `vendor`, `system_ext` and
/// `product` the live `/system/<partition>` must also be a symlink.
pub open spec fn elevates(partition: Seq<char>, root_is_dir: bool, system_is_symlink: bool) -> bool {
    if partition == "vendor"@ || partition == "system_ext"@ || partition == "product"@ {
        root_is_dir && system_is_symlink
    } else {
        root_is_dir
    }
}

/// Decides whether a partition is elevated to the root of the tree.
pub fn should_elevate(partition: &str, root_is_dir: bool, system_is_symlink: bool) -> (r: bool)
    ensures
        r == elevates(partition@, root_is_dir, system_is_symlink),
{
    if str_eq(partition, "vendor") || str_eq(partition, "system_ext") || str_eq(partition, "product") {
        root_is_dir && system_is_symlink
    } else {
        root_is_dir
    }
}

/// Moves the child called `name` of `from` under `to`, if there is one.
pub fn move_child(from: &mut Node, to: &mut Node, name: &str)
    requires
        old(from).wf(),
        old(to).wf(),
        old(to).file_type == NodeFileType::Directory,
    ensures
        final(from).wf(),
        final(to).wf(),
        final(to).file_type == NodeFileType::Directory,
        final(to).name == old(to).name,
        final(to).module_source == old(to).module_source,
        final(from).name == old(from).name,
        final(from).file_type == old(from).file_type,
        final(from).module_source == old(from).module_source,
        child_names(final(from).children@).to_set() == child_names(old(from).children@).to_set().remove(
            name@,
        ),
        child_names(final(to).children@).to_set() == (if child_names(old(from).children@).contains(
            name@,
        ) {
            child_names(old(to).children@).to_set().insert(name@)
        } else {
            child_names(old(to).children@).to_set()
        }),
        final(from).replace == old(from).replace,
        final(to).replace == old(to).replace,
        final(from).children@ == without_child(old(from).children@, name@),
        final(to).children@ == (if child_names(old(from).children@).contains(name@) {
            with_child(
                old(to).children@,
                old(from).children@[child_index(old(from).children@, name@)],
            )
        } else {
            old(to).children@
        }),
{
    match from.take_child(name) {
        Some(c) => {
            to.add_child(c);
        },
        None => {},
    }
}

/// Attaches a partition subtree below `system`: as a new child, in place of a
/// symlink of the same name, or merged into the directory already there,
/// which as the earlier occupant takes precedence.
pub fn attach_partition(system: &mut Node, part: Node)
    requires
        old(system).wf(),
        old(system).file_type == NodeFileType::Directory,
        part.wf(),
        part.file_type == NodeFileType::Directory,
    ensures
        final(system).wf(),
        final(system).file_type == NodeFileType::Directory,
        final(system).name == old(system).name,
        final(system).module_source == old(system).module_source,
        child_names(final(system).children@).to_set() == child_names(
            old(system).children@,
        ).to_set().insert(part.name@),
        ({
            let oc = old(system).children@;
            let fc = final(system).children@;
            let k = child_index(oc, part.name@);
            if !child_names(oc).contains(part.name@) {
                fc == oc.push(part)
            } else if oc[k].file_type == NodeFileType::Symlink {
                fc == oc.update(k, part)
            } else {
                fc == oc.update(k, fc[k]) && merged_into(fc[k], oc[k], part)
            }
        }),
{
    let ghost oc = system.children@;
    match system.find_child(part.name.as_str()) {
        None => {
            system.add_child(part);
        },
        Some(k) => {
            proof {
                lemma_child_index(oc, k as int);
            }
            if system.children[k].file_type == NodeFileType::Symlink {
                system.add_child(part);
            } else {
                let ghost before = system.children@;
                let mut existing = system.children.remove(k);
                proof {
                    assert(existing == before[k as int]);
                    assert(before[k as int].wf());
                }
                let ghost pname = part.name@;
                merge_nodes(&mut existing, part);
                system.children.insert(k, existing);
                proof {
                    let after = system.children@;
                    assert(after =~= before.update(k as int, after[k as int]));
                    assert(child_names(after) =~= child_names(before));
                    assert(child_names(before)[k as int] == pname);
                    assert(child_names(before).contains(pname));
                    assert(child_names(before).to_set().insert(pname) =~= child_names(
                        before,
                    ).to_set());
                    assert forall|j: int| 0 <= j < after.len() implies (#[trigger] after[j]).wf() by {
                        if j != k {
                            assert(after[j] == before[j]);
                        }
                    }
                }
            }
        },
    }
}

/// How a live entry looks: its type, or absent.
pub open spec fn needs_tmpfs(child: Node, live: Option<NodeFileType>) -> bool {
    match child.file_type {
        NodeFileType::Symlink => true,
        NodeFileType::Whiteout => live is Some,
        _ => match live {
            None => true,
            Some(t) => t != child.file_type || t == NodeFileType::Symlink,
        },
    }
}

/// Whether a directory's children force a tmpfs skeleton there. `live[i]` is
/// the type of the live entry under the directory that child `i` covers.
/// Scanning in order, a child that needs one but has no module behind it is
/// marked to be skipped; the first one that needs one and has a module
/// decides, and the scan stops there.
pub fn check_tmpfs(node: &mut Node, live: &Vec<Option<NodeFileType>>) -> (r: bool)
    requires
        old(node).wf(),
        live@.len() == old(node).children@.len(),
    ensures
        final(node).wf(),
        final(node).name == old(node).name,
        final(node).file_type == old(node).file_type,
        final(node).module_source == old(node).module_source,
        final(node).replace == old(node).replace,
        final(node).children@.len() == old(node).children@.len(),
        r == exists|i: int|
            0 <= i < live@.len() && needs_tmpfs(old(node).children@[i], live@[i])
                && (#[trigger] old(node).children@[i]).module_source is Some,
        forall|i: int|
            0 <= i < live@.len() ==> {
                let c = old(node).children@[i];
                let d = #[trigger] final(node).children@[i];
                let before_decider = forall|k: int|
                    0 <= k < i ==> !(needs_tmpfs(old(node).children@[k], live@[k])
                        && (#[trigger] old(node).children@[k]).module_source is Some);
                &&& d.name == c.name
                &&& d.file_type == c.file_type
                &&& d.module_source == c.module_source
                &&& d.replace == c.replace
                &&& d.children == c.children
                &&& d.skip == (c.skip || (before_decider && needs_tmpfs(c, live@[i])
                    && c.module_source is None))
            },
{
    let ghost before = node.children@;
    let n = node.children.len();
    let mut i: usize = 0;
    let mut found = false;
    while !found && i < n
        invariant
            n == before.len(),
            live@.len() == n,
            i <= n,
            found ==> i < n && needs_tmpfs(before[i as int], live@[i as int])
                && before[i as int].module_source is Some,
            node.children@.len() == n,
            node.name == old(node).name,
            node.file_type == old(node).file_type,
            node.module_source == old(node).module_source,
            node.replace == old(node).replace,
            before == old(node).children@,
            old(node).wf(),
            forall|k: int|
                0 <= k < i ==> !(needs_tmpfs(before[k], live@[k])
                    && (#[trigger] before[k]).module_source is Some),
            forall|k: int|
                0 <= k < n ==> {
                    let c = before[k];
                    let d = #[trigger] node.children@[k];
                    &&& d.name == c.name
                    &&& d.file_type == c.file_type
                    &&& d.module_source == c.module_source
                    &&& d.replace == c.replace
                    &&& d.children == c.children
                    &&& d.skip == (c.skip || (k < i && needs_tmpfs(c, live@[k])
                        && c.module_source is None))
                },
        decreases n - i + (if found { 0int } else { 1int }),
    {
        let ft = node.children[i].file_type;
        let need = match ft {
            NodeFileType::Symlink => true,
            NodeFileType::Whiteout => live[i].is_some(),
            _ => match live[i] {
                None => true,
                Some(t) => t != ft || t == NodeFileType::Symlink,
            },
        };
        if need && node.children[i].module_source.is_some() {
            found = true;
        } else {
            if need {
                let mut c = node.children.remove(i);
                c.skip = true;
                node.children.insert(i, c);
            }
            i = i + 1;
        }
    }
    let r = found;
    proof {
        let after = node.children@;
        assert(child_names(after) =~= child_names(before));
        assert forall|j: int| 0 <= j < after.len() implies (#[trigger] after[j]).wf() by {
            assert(before[j].wf());
            assert(after[j].children == before[j].children);
            assert(child_names(after[j].children@) == child_names(before[j].children@));
        }
    }
    r
}

/// How a directory of the tree is mounted.
pub struct DirPlan {
    /// The directory is built in a tmpfs skeleton.
    pub has_tmpfs: bool,
    /// This directory owns the skeleton and moves it into place at the end.
    pub create_tmpfs: bool,
    /// Live entries the node does not cover are mirrored into the skeleton.
    pub mirror_live: bool,
}

/// Decides how a directory node is mounted, given whether its parent is
/// already inside a tmpfs skeleton and the live entries its children cover
/// (see `check_tmpfs`, which runs only when neither the parent nor a replace
/// flag settles it). A replacing directory never mirrors live entries.
pub fn plan_directory(parent_has_tmpfs: bool, node: &mut Node, live: &Vec<Option<NodeFileType>>) -> (r:
    DirPlan)
    requires
        old(node).wf(),
        old(node).file_type == NodeFileType::Directory,
        live@.len() == old(node).children@.len(),
    ensures
        final(node).wf(),
        final(node).children@.len() == old(node).children@.len(),
        final(node).replace == old(node).replace,
        final(node).module_source == old(node).module_source,
        r.create_tmpfs == (!parent_has_tmpfs && (if old(node).replace {
            true
        } else {
            exists|i: int|
                0 <= i < live@.len() && needs_tmpfs(old(node).children@[i], live@[i])
                    && (#[trigger] old(node).children@[i]).module_source is Some
        })),
        r.has_tmpfs == (parent_has_tmpfs || r.create_tmpfs),
        r.mirror_live == (r.has_tmpfs && !old(node).replace),
        (parent_has_tmpfs || old(node).replace) ==> final(node).children == old(node).children,
{
    let mut create = !parent_has_tmpfs && node.replace && node.module_source.is_some();
    if !parent_has_tmpfs && !create {
        create = check_tmpfs(node, live);
    }
    let has_tmpfs = parent_has_tmpfs || create;
    DirPlan { has_tmpfs, create_tmpfs: create, mirror_live: has_tmpfs && !node.replace }
}

/// In a well-formed tree a replacing node always has a module behind it, a
/// whiteout has no children, and every child is itself well formed.
pub proof fn lemma_wf_shape(n: Node)
    requires
        n.wf(),
    ensures
        n.replace ==> n.module_source is Some,
        n.file_type == NodeFileType::Whiteout ==> n.children@.len() == 0,
        forall|i: int| 0 <= i < n.children@.len() ==> (#[trigger] n.children@[i]).wf(),
{
}

/// A module's contribution to the tree: its `system` subtree, the subtrees
/// of built-in partitions found at its root, and those of extra partitions.
pub struct ModuleTree {
    pub system: Option<Node>,
    pub partitions: Vec<Node>,
    pub extras: Vec<Node>,
}

/// All trees are well formed directories.
pub open spec fn all_dirs_wf(v: Seq<Node>) -> bool {
    forall|i: int|
        0 <= i < v.len() ==> (#[trigger] v[i]).wf() && v[i].file_type == NodeFileType::Directory
}

/// Attaches each subtree below `parent` (see `attach_partition`).
fn attach_all(parent: &mut Node, parts: Vec<Node>)
    requires
        old(parent).wf(),
        old(parent).file_type == NodeFileType::Directory,
        all_dirs_wf(parts@),
    ensures
        final(parent).wf(),
        final(parent).file_type == NodeFileType::Directory,
        final(parent).name == old(parent).name,
        final(parent).module_source == old(parent).module_source,
        child_names(final(parent).children@).to_set() == child_names(old(parent).children@).to_set().union(
            child_names(parts@).to_set(),
        ),
{
    let ghost all = parts@;
    let ghost mut n: int = 0;
    let mut rest = parts;
    assert(all.skip(0) =~= all);
    assert(child_names(all.take(0)).to_set() =~= Set::<Seq<char>>::empty());
    assert(child_names(parent.children@).to_set() =~= child_names(old(parent).children@).to_set().union(
        child_names(all.take(0)).to_set(),
    ));
    while rest.len() > 0
        invariant
            0 <= n <= all.len(),
            rest@ == all.skip(n),
            parent.wf(),
            parent.file_type == NodeFileType::Directory,
            parent.name == old(parent).name,
            parent.module_source == old(parent).module_source,
            all_dirs_wf(all),
            child_names(parent.children@).to_set() == child_names(old(parent).children@).to_set().union(
                child_names(all.take(n)).to_set(),
            ),
        decreases rest@.len(),
    {
        let part = rest.remove(0);
        proof {
            assert(part == all[n]);
            assert(rest@ =~= all.skip(n + 1));
            assert(child_names(all.take(n + 1)) =~= child_names(all.take(n)).push(part.name@));
            lemma_push_to_set(child_names(all.take(n)), part.name@);
        }
        attach_partition(parent, part);
        proof {
            assert(child_names(parent.children@).to_set() =~= child_names(old(parent).children@).to_set().union(
                child_names(all.take(n + 1)).to_set(),
            ));
            n = n + 1;
        }
    }
    assert(all.take(n) =~= all);
}

/// The `(root, system)` pair of one module: built-in partitions go below
/// `system` (replacing a symlink there), extra partitions below the root.
pub fn process_module(tree: ModuleTree) -> (r: (Node, Node))
    requires
        tree.system matches Some(s) ==> s.wf() && s.file_type == NodeFileType::Directory,
        all_dirs_wf(tree.partitions@),
        all_dirs_wf(tree.extras@),
    ensures
        r.0.wf(),
        r.1.wf(),
        r.0.file_type == NodeFileType::Directory,
        r.1.file_type == NodeFileType::Directory,
        r.0.name@.len() == 0,
        !r.0.replace,
        r.1.name@ == "system"@,
        r.0.module_source is None,
        child_names(r.0.children@).to_set() == child_names(tree.extras@).to_set(),
        child_names(r.1.children@).to_set() == (match tree.system {
            Some(s) => child_names(s.children@).to_set(),
            None => Set::empty(),
        }).union(child_names(tree.partitions@).to_set()),
{
    let ModuleTree { system, partitions, extras } = tree;
    let mut sys = match system {
        Some(s) => s,
        None => Node::new_root(String::from_str("system")),
    };
    assert(tree.system is None ==> child_names(sys.children@).to_set() =~= Set::<Seq<char>>::empty());
    sys.name = String::from_str("system");
    attach_all(&mut sys, partitions);
    let mut root = Node::new_root(String::new());
    assert(child_names(root.children@).to_set() =~= Set::<Seq<char>>::empty());
    attach_all(&mut root, extras);
    assert(child_names(root.children@).to_set() =~= child_names(tree.extras@).to_set());
    (root, sys)
}

/// Child names that the first `k` modules put at the root (`which` false) or
/// below `system` (`which` true).
pub open spec fn module_names(mods: Seq<(Node, Node)>, k: int, which: bool) -> Set<Seq<char>>
    decreases k,
{
    if k <= 0 {
        Set::empty()
    } else {
        module_names(mods, k - 1, which).union(
            child_names(
                if which {
                    mods[k - 1].1.children@
                } else {
                    mods[k - 1].0.children@
                },
            ).to_set(),
        )
    }
}

/// The names of a list of partitions.
pub open spec fn name_set(e: Seq<String>) -> Set<Seq<char>> {
    crate::text::views(e).to_set()
}

/// A fresh synthetic directory called `name`.
pub open spec fn fresh_dir(n: Node, name: Seq<char>) -> bool {
    &&& n.name@ == name
    &&& n.children@.len() == 0
    &&& n.module_source is None
    &&& n.file_type == NodeFileType::Directory
    &&& !n.replace
    &&& !n.skip
}

/// How the tree `t` comes out of the module trees: `ar` and `asy` are the root
/// and `system` after merging each module in turn, the earlier module as the
/// higher side; `rs` and `ss` are the children of the root and of `system`
/// while each listed partition moves from `system` to the root; `sf` is the
/// final `system` node, which then goes under the root.
pub open spec fn assembled(
    mods: Seq<(Node, Node)>,
    e: Seq<String>,
    t: Node,
    ar: Seq<Node>,
    asy: Seq<Node>,
    rs: Seq<Seq<Node>>,
    ss: Seq<Seq<Node>>,
    sf: Node,
) -> bool {
    let n = mods.len() as int;
    let m = e.len() as int;
    &&& ar.len() == n + 1
    &&& asy.len() == n + 1
    &&& fresh_dir(ar[0], Seq::empty())
    &&& fresh_dir(asy[0], "system"@)
    &&& forall|k: int|
        0 <= k < n ==> merged_into(#[trigger] ar[k + 1], ar[k], mods[k].0) && merged_into(
            asy[k + 1],
            asy[k],
            mods[k].1,
        )
    &&& rs.len() == m + 1
    &&& ss.len() == m + 1
    &&& rs[0] == ar[n].children@
    &&& ss[0] == asy[n].children@
    &&& forall|k: int|
        0 <= k < m ==> ss[k + 1] == without_child(ss[k], (#[trigger] e[k])@) && rs[k + 1] == (
        if child_names(ss[k]).contains(e[k]@) {
            with_child(rs[k], ss[k][child_index(ss[k], e[k]@)])
        } else {
            rs[k]
        })
    &&& sf.name == asy[n].name
    &&& sf.file_type == asy[n].file_type
    &&& sf.module_source == asy[n].module_source
    &&& sf.replace == asy[n].replace
    &&& sf.children@ == ss[m]
    &&& t.name == ar[n].name
    &&& t.file_type == ar[n].file_type
    &&& t.module_source == ar[n].module_source
    &&& t.replace == ar[n].replace
    &&& t.children@ == with_child(rs[m], sf)
}

/// Merges the per-module `(root, system)` trees in priority order, then moves
/// each partition listed in `elevated` from below `system` to the root and
/// hangs `system` under the root. None when no module contributed anything.
pub fn collect_module_files(modules: Vec<(Node, Node)>, elevated: &Vec<String>) -> (r: Option<Node>)
    requires
        forall|i: int|
            0 <= i < modules@.len() ==> (#[trigger] modules@[i]).0.wf() && modules@[i].1.wf()
                && modules@[i].0.file_type == NodeFileType::Directory && modules@[i].1.file_type
                == NodeFileType::Directory && modules@[i].0.module_source is None
                && !modules@[i].0.replace,
    ensures
        r is Some <==> exists|i: int|
            0 <= i < modules@.len() && ((#[trigger] modules@[i]).0.children@.len() > 0
                || modules@[i].1.children@.len() > 0),
        r matches Some(t) ==> {
            &&& t.wf()
            &&& t.name@.len() == 0
            &&& t.module_source is None
            &&& t.file_type == NodeFileType::Directory
            &&& child_names(t.children@).to_set() == module_names(
                modules@,
                modules@.len() as int,
                false,
            ).union(name_set(elevated@).intersect(
                module_names(modules@, modules@.len() as int, true),
            )).insert("system"@)
            &&& child_names(t.children@).contains("system"@)
            &&& child_names(t.children@[child_index(t.children@, "system"@)].children@).to_set()
                == module_names(modules@, modules@.len() as int, true).difference(
                name_set(elevated@),
            )
            &&& exists|ar: Seq<Node>, asy: Seq<Node>, rs: Seq<Seq<Node>>, ss: Seq<Seq<Node>>, sf: Node|
                #[trigger] assembled(modules@, elevated@, t, ar, asy, rs, ss, sf)
        },
{
    let mut root = Node::new_root(String::new());
    let mut system = Node::new_root(String::from_str("system"));
    let ghost all = modules@;
    let ghost mut n: int = 0;
    let ghost mut ar: Seq<Node> = seq![root];
    let ghost mut asy: Seq<Node> = seq![system];
    let mut rest = modules;
    assert(all.skip(0) =~= all);
    assert(child_names(root.children@).to_set() =~= module_names(all, 0, false));
    assert(child_names(system.children@).to_set() =~= module_names(all, 0, true));
    while rest.len() > 0
        invariant
            0 <= n <= all.len(),
            rest@ == all.skip(n),
            root.wf(),
            system.wf(),
            root.file_type == NodeFileType::Directory,
            system.file_type == NodeFileType::Directory,
            root.module_source is None,
            !root.replace,
            root.name@.len() == 0,
            system.name@ == "system"@,
            forall|i: int|
                0 <= i < all.len() ==> (#[trigger] all[i]).0.wf() && all[i].1.wf()
                    && all[i].0.file_type == NodeFileType::Directory && all[i].1.file_type
                    == NodeFileType::Directory && all[i].0.module_source is None && !all[i].0.replace,
            child_names(root.children@).to_set() == module_names(all, n, false),
            child_names(system.children@).to_set() == module_names(all, n, true),
            ar.len() == n + 1,
            asy.len() == n + 1,
            ar[n] == root,
            asy[n] == system,
            fresh_dir(ar[0], Seq::empty()),
            fresh_dir(asy[0], "system"@),
            forall|k: int|
                0 <= k < n ==> merged_into(#[trigger] ar[k + 1], ar[k], all[k].0) && merged_into(
                    asy[k + 1],
                    asy[k],
                    all[k].1,
                ),
        decreases rest@.len(),
    {
        let (r, s) = rest.remove(0);
        proof {
            assert((r, s) == all[n]);
            assert(rest@ =~= all.skip(n + 1));
        }
        merge_nodes(&mut root, r);
        merge_nodes(&mut system, s);
        proof {
            let ar0 = ar;
            let asy0 = asy;
            ar = ar.push(root);
            asy = asy.push(system);
            assert forall|q: int|
                0 <= q < n + 1 implies merged_into(#[trigger] ar[q + 1], ar[q], all[q].0) && merged_into(
                asy[q + 1],
                asy[q],
                all[q].1,
            ) by {
                if q < n {
                    assert(ar[q + 1] == ar0[q + 1] && ar[q] == ar0[q]);
                    assert(asy[q + 1] == asy0[q + 1] && asy[q] == asy0[q]);
                }
            }
            assert(module_names(all, n + 1, false) == module_names(all, n, false).union(
                child_names(all[n].0.children@).to_set(),
            ));
            assert(module_names(all, n + 1, true) == module_names(all, n, true).union(
                child_names(all[n].1.children@).to_set(),
            ));
            n = n + 1;
        }
    }
    proof {
        assert(all =~= modules@);
        lemma_module_names_empty(all, n);
        lemma_names_empty(root.children@);
        lemma_names_empty(system.children@);
    }
    if root.children.len() == 0 && system.children.len() == 0 {
        return None;
    }
    let ghost rn = root;
    let ghost sn = system;
    let ghost mut rs: Seq<Seq<Node>> = seq![root.children@];
    let ghost mut ss: Seq<Seq<Node>> = seq![system.children@];
    let ghost ev = elevated@;
    let mut k: usize = 0;
    proof {
        assert(name_set(ev.take(0)) =~= Set::<Seq<char>>::empty());
        assert(child_names(root.children@).to_set() =~= module_names(all, n, false).union(
            name_set(ev.take(0)).intersect(module_names(all, n, true)),
        ));
        assert(child_names(system.children@).to_set() =~= module_names(all, n, true).difference(
            name_set(ev.take(0)),
        ));
    }
    while k < elevated.len()
        invariant
            ev == elevated@,
            k <= ev.len(),
            root.wf(),
            system.wf(),
            root.file_type == NodeFileType::Directory,
            system.file_type == NodeFileType::Directory,
            root.module_source is None,
            root.name@.len() == 0,
            !root.replace,
            system.name == sn.name,
            system.file_type == sn.file_type,
            system.module_source == sn.module_source,
            system.replace == sn.replace,
            root.name == rn.name,
            root.module_source == rn.module_source,
            root.replace == rn.replace,
            rs.len() == k + 1,
            ss.len() == k + 1,
            rs[0] == rn.children@,
            ss[0] == sn.children@,
            rs[k as int] == root.children@,
            ss[k as int] == system.children@,
            forall|q: int|
                0 <= q < k ==> ss[q + 1] == without_child(ss[q], (#[trigger] ev[q])@) && rs[q + 1] == (
                if child_names(ss[q]).contains(ev[q]@) {
                    with_child(rs[q], ss[q][child_index(ss[q], ev[q]@)])
                } else {
                    rs[q]
                }),
            child_names(root.children@).to_set() == module_names(all, n, false).union(
                name_set(ev.take(k as int)).intersect(module_names(all, n, true)),
            ),
            child_names(system.children@).to_set() == module_names(all, n, true).difference(
                name_set(ev.take(k as int)),
            ),
        decreases elevated@.len() - k,
    {
        let ghost x = ev[k as int]@;
        let ghost sb = system.children@;
        move_child(&mut system, &mut root, elevated[k].as_str());
        proof {
            let rs0 = rs;
            let ss0 = ss;
            rs = rs.push(root.children@);
            ss = ss.push(system.children@);
            assert(ev[k as int]@ == x);
            assert forall|q: int|
                0 <= q < k + 1 implies ss[q + 1] == without_child(ss[q], (#[trigger] ev[q])@) && rs[q + 1]
                == (if child_names(ss[q]).contains(ev[q]@) {
                with_child(rs[q], ss[q][child_index(ss[q], ev[q]@)])
            } else {
                rs[q]
            }) by {
                if q < k {
                    assert(ss[q + 1] == ss0[q + 1] && ss[q] == ss0[q]);
                    assert(rs[q + 1] == rs0[q + 1] && rs[q] == rs0[q]);
                }
            }
            assert(ev.take(k + 1) =~= ev.take(k as int).push(ev[k as int]));
            assert(crate::text::views(ev.take(k + 1)) =~= crate::text::views(ev.take(k as int)).push(x));
            crate::text::lemma_push_to_set(crate::text::views(ev.take(k as int)), x);
            assert(name_set(ev.take(k + 1)) == name_set(ev.take(k as int)).insert(x));
            assert(child_names(sb).contains(x) == child_names(sb).to_set().contains(x));
            assert(child_names(root.children@).to_set() =~= module_names(all, n, false).union(
                name_set(ev.take(k + 1)).intersect(module_names(all, n, true)),
            ));
            assert(child_names(system.children@).to_set() =~= module_names(all, n, true).difference(
                name_set(ev.take(k + 1)),
            ));
        }
        k = k + 1;
    }
    proof {
        assert(ev.take(ev.len() as int) =~= ev);
    }
    let ghost sf = system;
    let ghost rb = root.children@;
    root.add_child(system);
    proof {
        let t = root;
        let tc = t.children@;
        assert(tc == with_child(rb, sf));
        let pos = if child_names(rb).contains("system"@) {
            child_index(rb, "system"@)
        } else {
            rb.len() as int
        };
        assert(0 <= pos < tc.len() && tc[pos] == sf);
        lemma_child_index(tc, pos);
        assert(child_names(tc).to_set() =~= module_names(all, n, false).union(
            name_set(ev).intersect(module_names(all, n, true)),
        ).insert("system"@));
        assert(assembled(modules@, elevated@, t, ar, asy, rs, ss, sf));
    }
    Some(root)
}

proof fn lemma_names_empty(c: Seq<Node>)
    ensures
        (child_names(c).to_set() == Set::<Seq<char>>::empty()) <==> c.len() == 0,
{
    if c.len() > 0 {
        assert(child_names(c)[0] == c[0].name@);
        assert(child_names(c).to_set().contains(c[0].name@));
    } else {
        assert(child_names(c).to_set() =~= Set::<Seq<char>>::empty());
    }
}

proof fn lemma_module_names_empty(mods: Seq<(Node, Node)>, k: int)
    requires
        0 <= k <= mods.len(),
    ensures
        (module_names(mods, k, false) == Set::<Seq<char>>::empty() && module_names(mods, k, true)
            == Set::<Seq<char>>::empty()) <==> !(exists|i: int|
            0 <= i < k && ((#[trigger] mods[i]).0.children@.len() > 0 || mods[i].1.children@.len()
                > 0)),
    decreases k,
{
    if k > 0 {
        lemma_module_names_empty(mods, k - 1);
        lemma_names_empty(mods[k - 1].0.children@);
        lemma_names_empty(mods[k - 1].1.children@);
        let a = module_names(mods, k - 1, false);
        let b = module_names(mods, k - 1, true);
        let x = child_names(mods[k - 1].0.children@).to_set();
        let y = child_names(mods[k - 1].1.children@).to_set();
        if a.union(x) == Set::<Seq<char>>::empty() && b.union(y) == Set::<Seq<char>>::empty() {
            assert(a =~= Set::<Seq<char>>::empty());
            assert(b =~= Set::<Seq<char>>::empty());
            assert(x =~= Set::<Seq<char>>::empty());
            assert(y =~= Set::<Seq<char>>::empty());
            assert forall|i: int| 0 <= i < k implies !((#[trigger] mods[i]).0.children@.len() > 0
                || mods[i].1.children@.len() > 0) by {
                if i < k - 1 {
                }
            }
        }
        if !(exists|i: int|
            0 <= i < k && ((#[trigger] mods[i]).0.children@.len() > 0 || mods[i].1.children@.len()
                > 0)) {
            assert(!((mods[k - 1]).0.children@.len() > 0 || mods[k - 1].1.children@.len() > 0));
            assert(!(exists|i: int|
                0 <= i < k - 1 && ((#[trigger] mods[i]).0.children@.len() > 0
                    || mods[i].1.children@.len() > 0)));
            assert(a.union(x) =~= Set::<Seq<char>>::empty());
            assert(b.union(y) =~= Set::<Seq<char>>::empty());
        }
    } else {
        assert(module_names(mods, k, false) =~= Set::<Seq<char>>::empty());
        assert(module_names(mods, k, true) =~= Set::<Seq<char>>::empty());
    }
}

} // verus!
