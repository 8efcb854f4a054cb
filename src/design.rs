//! What a loaded design offers: its signals, and the instance tree that
//! groups them by the prefixes of their dotted paths.

use crate::paths::{same_text, PathSet};
use vstd::prelude::*;

verus! {

/// A signal of the design: its full dotted path, its width in bits, and
/// whether it can be read and written.
#[derive(Clone, Debug)]
pub struct Signal {
    pub name: String,
    pub width: u64,
    pub get: bool,
    pub set: bool,
}

/// A module instance, held in an arena: its name, its dotted path, the type
/// of module it instantiates, the arena indices of its children, and the
/// indices of its signals in the design's signal list.
#[derive(Clone, Debug)]
pub struct InstanceNode {
    pub name: String,
    pub path: String,
    pub module_name: String,
    pub children: Vec<usize>,
    pub signals: Vec<usize>,
}

/// The active session: the design's signals, its instance tree, and the
/// paths of the signals being recorded.
#[derive(Clone, Debug)]
pub struct LoadedDut {
    pub signals: Vec<Signal>,
    pub nodes: Vec<InstanceNode>,
    pub probed_points: PathSet,
}

/// Some signal of `signals` has path `p` and can be read.
pub open spec fn readable(signals: Seq<Signal>, p: Seq<char>) -> bool {
    exists|j: int| 0 <= j < signals.len() && #[trigger] signals[j].name@ == p && signals[j].get
}

impl LoadedDut {
    /// The tree is that of the signals, and every probed path names a
    /// readable signal.
    pub open spec fn wf(&self) -> bool {
        &&& is_tree_of(self.nodes@, self.signals@)
        &&& self.probed_points.wf()
        &&& forall|p: Seq<char>| #[trigger] self.probed_points@.contains(p) ==> readable(self.signals@, p)
    }
}

impl Signal {
    /// A signal with the same path, width and capabilities.
    pub fn copy(&self) -> (r: Signal)
        ensures
            r.name@ == self.name@,
            r.width == self.width,
            r.get == self.get,
            r.set == self.set,
    {
        Signal { name: self.name.clone(), width: self.width, get: self.get, set: self.set }
    }
}

/// A copy of an index list.
pub fn copy_indices(v: &Vec<usize>) -> (r: Vec<usize>)
    ensures
        r@ == v@,
{
    let mut r: Vec<usize> = Vec::new();
    let mut i: usize = 0;
    while i < v.len()
        invariant
            i <= v@.len(),
            r@ == v@.subrange(0, i as int),
        decreases v@.len() - i,
    {
        r.push(v[i]);
        proof {
            assert(r@ =~= v@.subrange(0, i + 1));
        }
        i = i + 1;
    }
    assert(r@ =~= v@);
    r
}

/// `a` and `b` hold the same text and indices.
pub open spec fn same_node(a: InstanceNode, b: InstanceNode) -> bool {
    &&& a.name@ == b.name@
    &&& a.path@ == b.path@
    &&& a.module_name@ == b.module_name@
    &&& a.children@ == b.children@
    &&& a.signals@ == b.signals@
}

/// `a` and `b` hold the same path, width and capabilities.
pub open spec fn same_signal(a: Signal, b: Signal) -> bool {
    a.name@ == b.name@ && a.width == b.width && a.get == b.get && a.set == b.set
}

impl LoadedDut {
    /// `self` and `o` describe the same session.
    pub open spec fn same_as(&self, o: LoadedDut) -> bool {
        &&& self.signals@.len() == o.signals@.len()
        &&& forall|j: int| 0 <= j < self.signals@.len() ==> same_signal(#[trigger] self.signals@[j], o.signals@[j])
        &&& self.nodes@.len() == o.nodes@.len()
        &&& forall|n: int| 0 <= n < self.nodes@.len() ==> same_node(#[trigger] self.nodes@[n], o.nodes@[n])
        &&& self.probed_points@ == o.probed_points@
    }

    /// A session equal to this one.
    pub fn copy(&self) -> (r: LoadedDut)
        requires
            self.wf(),
        ensures
            r.wf(),
            r.same_as(*self),
    {
        let mut signals: Vec<Signal> = Vec::new();
        let mut j: usize = 0;
        while j < self.signals.len()
            invariant
                j <= self.signals@.len(),
                signals@.len() == j,
                forall|q: int| 0 <= q < j ==> same_signal(#[trigger] signals@[q], self.signals@[q]),
            decreases self.signals@.len() - j,
        {
            signals.push(self.signals[j].copy());
            j = j + 1;
        }
        let mut nodes: Vec<InstanceNode> = Vec::new();
        let mut n: usize = 0;
        while n < self.nodes.len()
            invariant
                n <= self.nodes@.len(),
                nodes@.len() == n,
                forall|q: int| 0 <= q < n ==> same_node(#[trigger] nodes@[q], self.nodes@[q]),
            decreases self.nodes@.len() - n,
        {
            let m = &self.nodes[n];
            nodes.push(
                InstanceNode {
                    name: m.name.clone(),
                    path: m.path.clone(),
                    module_name: m.module_name.clone(),
                    children: copy_indices(&m.children),
                    signals: copy_indices(&m.signals),
                },
            );
            n = n + 1;
        }
        let r = LoadedDut { signals, nodes, probed_points: self.probed_points.copy() };
        proof {
            lemma_same_wf(*self, r);
        }
        r
    }
}

proof fn lemma_same_wf(a: LoadedDut, b: LoadedDut)
    requires
        a.wf(),
        b.same_as(a),
        b.probed_points.wf(),
    ensures
        b.wf(),
{
    reveal(tree_wf);
    let (an, bn, as_, bs) = (a.nodes@, b.nodes@, a.signals@, b.signals@);
    assert(same_node(bn[0], an[0]));
    assert(same_signal(bs[0], as_[0]));
    assert forall|k: int| 1 <= k < bn.len() implies has_dot(#[trigger] bn[k].path@) by {
        assert(same_node(bn[k], an[k]));
        assert(has_dot(an[k].path@));
    }
    assert forall|n: int, j: int| 0 <= n < bn.len() && 0 <= j < bn[n].children@.len() implies {
        let c = #[trigger] bn[n].children@[j] as int;
        &&& n < c < bn.len()
        &&& bn[c].path@ == bn[n].path@ + seq!['.'] + bn[c].name@
    } by {
        assert(same_node(bn[n], an[n]));
        assert(an[n].children@[j] == bn[n].children@[j]);
        let c = an[n].children@[j] as int;
        assert(same_node(bn[c], an[c]));
    }
    assert forall|n: int, j: int| 0 <= n < bn.len() && 0 <= j < bn[n].signals@.len() implies #[trigger] bn[n].signals@[j]
        < bs.len() by {
        assert(same_node(bn[n], an[n]));
        assert(an[n].signals@[j] == bn[n].signals@[j]);
    }
    assert(tree_wf(bn, bs.len()));
    assert forall|j: int| 0 <= j < bs.len() implies listed(bn, bs, j) by {
        assert(listed(an, as_, j));
        assert(same_signal(bs[j], as_[j]));
        let (n, m) = choose|n: int, m: int|
            0 <= n < an.len() && 0 <= m < #[trigger] an[n].signals@.len() && #[trigger] an[n].signals@[m] == j
                && an[n].path@ == scope_of(as_[j].name@);
        assert(same_node(bn[n], an[n]));
        assert(bn[n].signals@[m] == j);
    }
    assert forall|p: Seq<char>| #[trigger] b.probed_points@.contains(p) implies readable(bs, p) by {
        assert(readable(as_, p));
        let j = choose|j: int| 0 <= j < as_.len() && #[trigger] as_[j].name@ == p && as_[j].get;
        assert(same_signal(bs[j], as_[j]));
        assert(bs[j].name@ == p);
    }
}

/// Whether some signal of `signals` has path `p` and can be read.
pub fn is_readable(signals: &Vec<Signal>, p: &str) -> (r: bool)
    ensures
        r == readable(signals@, p@),
{
    let mut j: usize = 0;
    while j < signals.len()
        invariant
            j <= signals@.len(),
            forall|k: int| 0 <= k < j ==> !(#[trigger] signals@[k].name@ == p@ && signals@[k].get),
        decreases signals@.len() - j,
    {
        if signals[j].get && same_text(signals[j].name.as_str(), p) {
            return true;
        }
        j = j + 1;
    }
    false
}

/// The index of the first signal of `signals` with path `p`.
pub open spec fn first_named(signals: Seq<Signal>, p: Seq<char>, j: int) -> bool {
    &&& 0 <= j < signals.len()
    &&& signals[j].name@ == p
    &&& forall|k: int| 0 <= k < j ==> #[trigger] signals[k].name@ != p
}

/// The index of the first signal with path `p`, if any.
pub fn find_signal(signals: &Vec<Signal>, p: &str) -> (r: Option<usize>)
    ensures
        match r {
            Some(j) => first_named(signals@, p@, j as int),
            None => forall|k: int| 0 <= k < signals@.len() ==> #[trigger] signals@[k].name@ != p@,
        },
{
    let mut j: usize = 0;
    while j < signals.len()
        invariant
            j <= signals@.len(),
            forall|k: int| 0 <= k < j ==> #[trigger] signals@[k].name@ != p@,
        decreases signals@.len() - j,
    {
        if same_text(signals[j].name.as_str(), p) {
            return Some(j);
        }
        j = j + 1;
    }
    None
}

/// The index of the last `'.'` in `s`, or -1 if there is none.
pub open spec fn last_dot(s: Seq<char>) -> int
    decreases s.len(),
{
    if s.len() == 0 {
        -1
    } else if s.last() == '.' {
        s.len() - 1
    } else {
        last_dot(s.drop_last())
    }
}

/// Whether `s` holds a `'.'`.
pub open spec fn has_dot(s: Seq<char>) -> bool {
    exists|i: int| 0 <= i < s.len() && s[i] == '.'
}

/// The index of the first `'.'` in `s` (meaningful where `has_dot(s)`).
pub open spec fn first_dot(s: Seq<char>) -> int {
    choose|i: int| 0 <= i < s.len() && s[i] == '.' && forall|k: int| 0 <= k < i ==> s[k] != '.'
}

/// The path of the instance that owns the signal at path `s`.
pub open spec fn scope_of(s: Seq<char>) -> Seq<char> {
    s.subrange(0, last_dot(s))
}

/// The top instance's name in path `s`.
pub open spec fn top_of(s: Seq<char>) -> Seq<char> {
    s.subrange(0, first_dot(s))
}

/// The arena `nodes` is a tree over `n_signals` signals, rooted at index 0:
/// each child stands after its parent, its path is the parent's path, a dot
/// and its name, and only the root's path is free of dots.
#[verifier::opaque]
pub open spec fn tree_wf(nodes: Seq<InstanceNode>, n_signals: nat) -> bool {
    &&& nodes.len() >= 1
    &&& nodes[0].path@ == nodes[0].name@
    &&& !has_dot(nodes[0].path@)
    &&& forall|k: int| 1 <= k < nodes.len() ==> has_dot(#[trigger] nodes[k].path@)
    &&& forall|n: int, j: int|
        0 <= n < nodes.len() && 0 <= j < nodes[n].children@.len() ==> {
            let c = #[trigger] nodes[n].children@[j] as int;
            &&& n < c < nodes.len()
            &&& nodes[c].path@ == nodes[n].path@ + seq!['.'] + nodes[c].name@
        }
    &&& forall|n: int, j: int|
        0 <= n < nodes.len() && 0 <= j < nodes[n].signals@.len() ==> #[trigger] nodes[n].signals@[j]
            < n_signals
}

/// Every signal path holds a dot, and all of them start with one top name.
pub open spec fn groupable(signals: Seq<Signal>) -> bool {
    &&& signals.len() >= 1
    &&& forall|j: int| 0 <= j < signals.len() ==> has_dot(#[trigger] signals[j].name@)
    &&& forall|j: int|
        0 <= j < signals.len() ==> top_of(#[trigger] signals[j].name@) == top_of(signals[0].name@)
}

/// `nodes` is the instance tree of `signals`: a tree whose root is their
/// common top, where each signal is listed under the instance named by its
/// path without the last part.
pub open spec fn is_tree_of(nodes: Seq<InstanceNode>, signals: Seq<Signal>) -> bool {
    &&& signals.len() >= 1
    &&& tree_wf(nodes, signals.len())
    &&& nodes[0].path@ == top_of(signals[0].name@)
    &&& forall|j: int|
        0 <= j < signals.len() ==> listed(nodes, signals, j)
}

/// Signal `j` is listed under the instance whose path is its scope.
pub open spec fn listed(nodes: Seq<InstanceNode>, signals: Seq<Signal>, j: int) -> bool {
    exists|n: int, m: int|
        0 <= n < nodes.len() && 0 <= m < #[trigger] nodes[n].signals@.len() && #[trigger] nodes[n].signals@[m]
            == j && nodes[n].path@ == scope_of(signals[j].name@)
}

/// The index of a node of `nodes` whose path is `path`, if there is one.
fn find_node(nodes: &Vec<InstanceNode>, path: &String) -> (r: Option<usize>)
    ensures
        match r {
            Some(k) => k < nodes@.len() && nodes@[k as int].path@ == path@,
            None => forall|k: int| 0 <= k < nodes@.len() ==> nodes@[k].path@ != path@,
        },
{
    let mut k: usize = 0;
    while k < nodes.len()
        invariant
            k <= nodes@.len(),
            forall|q: int| 0 <= q < k ==> nodes@[q].path@ != path@,
        decreases nodes@.len() - k,
    {
        if nodes[k].path == *path {
            return Some(k);
        }
        k = k + 1;
    }
    None
}

proof fn lemma_last_dot_step(s: Seq<char>, i: int)
    requires
        0 <= i < s.len(),
    ensures
        last_dot(s.subrange(0, i + 1)) == if s[i] == '.' {
            i
        } else {
            last_dot(s.subrange(0, i))
        },
{
    assert(s.subrange(0, i + 1).drop_last() =~= s.subrange(0, i));
}

proof fn lemma_last_dot_range(s: Seq<char>)
    ensures
        -1 <= last_dot(s) < s.len(),
        last_dot(s) >= 0 ==> s[last_dot(s)] == '.',
        last_dot(s) == -1 <==> !has_dot(s),
    decreases s.len(),
{
    if s.len() > 0 {
        lemma_last_dot_range(s.drop_last());
        if s.last() != '.' {
            if has_dot(s) {
                let i = choose|i: int| 0 <= i < s.len() && s[i] == '.';
                assert(s.drop_last()[i] == '.');
            }
            if has_dot(s.drop_last()) {
                let i = choose|i: int| 0 <= i < s.drop_last().len() && s.drop_last()[i] == '.';
                assert(s[i] == '.');
            }
        } else {
            assert(s[s.len() - 1] == '.');
        }
    }
}

/// The first dot of `s` stands at `i` when `s[i]` is a dot and none comes before.
proof fn lemma_first_dot_at(s: Seq<char>, i: int)
    requires
        0 <= i < s.len(),
        s[i] == '.',
        forall|k: int| 0 <= k < i ==> s[k] != '.',
    ensures
        first_dot(s) == i,
{
    let f = first_dot(s);
    assert(0 <= f < s.len() && s[f] == '.' && forall|k: int| 0 <= k < f ==> s[k] != '.');
}

/// `b` keeps every node of `a` with the same path and signals.
pub open spec fn extends(a: Seq<InstanceNode>, b: Seq<InstanceNode>) -> bool {
    &&& a.len() <= b.len()
    &&& forall|n: int|
        #![trigger b[n]]
        0 <= n < a.len() ==> {
            &&& b[n].path@ == a[n].path@
            &&& a[n].signals@.len() <= b[n].signals@.len()
            &&& a[n].signals@ == b[n].signals@.subrange(0, a[n].signals@.len() as int)
        }
}

/// The summed path lengths of the first `j` signals.
pub open spec fn total_len(signals: Seq<Signal>, j: int) -> nat
    decreases j,
{
    if j <= 0 || j > signals.len() {
        0
    } else {
        total_len(signals, j - 1) + signals[j - 1].name@.len()
    }
}

proof fn lemma_total_len_mono(signals: Seq<Signal>, j: int, k: int)
    requires
        0 <= j <= k <= signals.len(),
    ensures
        total_len(signals, j) <= total_len(signals, k),
    decreases k - j,
{
    if j < k {
        lemma_total_len_mono(signals, j, k - 1);
    }
}

proof fn lemma_listed_extends(a: Seq<InstanceNode>, b: Seq<InstanceNode>, signals: Seq<Signal>, q: int)
    requires
        extends(a, b),
        listed(a, signals, q),
    ensures
        listed(b, signals, q),
{
    let (n, m) = choose|n: int, m: int|
        0 <= n < a.len() && 0 <= m < #[trigger] a[n].signals@.len() && #[trigger] a[n].signals@[m] == q
            && a[n].path@ == scope_of(signals[q].name@);
    assert(b[n].signals@.subrange(0, a[n].signals@.len() as int)[m] == b[n].signals@[m]);
}

proof fn lemma_extends_refl(a: Seq<InstanceNode>)
    ensures
        extends(a, a),
{
    assert forall|n: int| 0 <= n < a.len() implies a[n].signals@ == a[n].signals@.subrange(
        0,
        a[n].signals@.len() as int,
    ) by {
        assert(a[n].signals@ =~= a[n].signals@.subrange(0, a[n].signals@.len() as int));
    }
}

proof fn lemma_extends_trans(a: Seq<InstanceNode>, b: Seq<InstanceNode>, c: Seq<InstanceNode>)
    requires
        extends(a, b),
        extends(b, c),
    ensures
        extends(a, c),
{
    assert forall|n: int| 0 <= n < a.len() implies a[n].signals@ == c[n].signals@.subrange(
        0,
        a[n].signals@.len() as int,
    ) by {
        assert(b[n].signals@ == c[n].signals@.subrange(0, b[n].signals@.len() as int));
        assert(a[n].signals@ =~= c[n].signals@.subrange(0, a[n].signals@.len() as int));
    }
}

/// Adds a child named `name` with path `path` under node `parent`.
fn add_child(
    nodes: &mut Vec<InstanceNode>,
    parent: usize,
    name: String,
    path: String,
    module_name: String,
    Ghost(ns): Ghost<nat>,
) -> (r: usize)
    requires
        tree_wf(old(nodes)@, ns),
        parent < old(nodes)@.len(),
        path@ == old(nodes)@[parent as int].path@ + seq!['.'] + name@,
        old(nodes)@.len() < usize::MAX,
    ensures
        r == old(nodes)@.len(),
        final(nodes)@.len() == r + 1,
        tree_wf(final(nodes)@, ns),
        extends(old(nodes)@, final(nodes)@),
        final(nodes)@[r as int].path@ == path@,
{
    let idx = nodes.len();
    let node = InstanceNode { name, path, module_name, children: Vec::new(), signals: Vec::new() };
    nodes.push(node);
    nodes[parent].children.push(idx);
    proof {
        reveal(tree_wf);
        let a = old(nodes)@;
        let b = nodes@;
        assert(has_dot(b[idx as int].path@)) by {
            assert(b[idx as int].path@[a[parent as int].path@.len() as int] == '.');
        }
        assert forall|n: int, j: int|
            0 <= n < b.len() && 0 <= j < b[n].children@.len() implies {
                let c = #[trigger] b[n].children@[j] as int;
                &&& n < c < b.len()
                &&& b[c].path@ == b[n].path@ + seq!['.'] + b[c].name@
            } by {
            if n != parent && n < a.len() {
                assert(b[n] == a[n]);
            }
        }
        assert forall|k: int| 1 <= k < b.len() implies has_dot(#[trigger] b[k].path@) by {
            if k < a.len() && k != parent {
                assert(b[k] == a[k]);
            }
        }
        assert forall|n: int, j: int|
            0 <= n < b.len() && 0 <= j < b[n].signals@.len() implies #[trigger] b[n].signals@[j] < ns by {
            if n < a.len() && n != parent {
                assert(b[n] == a[n]);
            }
        }
        assert forall|n: int| 0 <= n < a.len() implies a[n].signals@ == b[n].signals@.subrange(
            0,
            a[n].signals@.len() as int,
        ) by {
            assert(a[n].signals@ =~= b[n].signals@.subrange(0, a[n].signals@.len() as int));
        }
    }
    idx
}

/// At the dot at `i` of `name`, finds or creates the node whose path is
/// `name` up to that dot; `cur` is the node of the path up to the previous
/// dot `prev`, if `seen`. `None` where this is the first dot and the top name
/// differs from `top`.
#[verifier::rlimit(60)]
fn enter_scope(
    nodes: &mut Vec<InstanceNode>,
    name: &str,
    i: usize,
    prev: usize,
    seen: bool,
    cur: usize,
    Ghost(top): Ghost<Seq<char>>,
    Ghost(ns): Ghost<nat>,
) -> (r: Option<usize>)
    requires
        i < name@.len(),
        name@[i as int] == '.',
        old(nodes)@.len() < usize::MAX,
        !seen ==> forall|k: int| 0 <= k < i ==> name@[k] != '.',
        !seen && old(nodes)@.len() == 0 ==> top == top_of(name@),
        !seen && old(nodes)@.len() > 0 ==> tree_wf(old(nodes)@, ns) && old(nodes)@[0].path@ == top,
        seen ==> {
            &&& tree_wf(old(nodes)@, ns)
            &&& old(nodes)@[0].path@ == top
            &&& cur < old(nodes)@.len()
            &&& prev < i
            &&& name@[prev as int] == '.'
            &&& old(nodes)@[cur as int].path@ == name@.subrange(0, prev as int)
            &&& forall|k: int| prev < k < i ==> name@[k] != '.'
            &&& top_of(name@) == top
        },
    ensures
        r is None ==> !seen && top_of(name@) != top,
        r matches Some(c) ==> {
            &&& tree_wf(final(nodes)@, ns)
            &&& final(nodes)@[0].path@ == top
            &&& c < final(nodes)@.len()
            &&& final(nodes)@[c as int].path@ == name@.subrange(0, i as int)
            &&& extends(old(nodes)@, final(nodes)@)
            &&& final(nodes)@.len() <= old(nodes)@.len() + 1
            &&& top_of(name@) == top
        },
{
    let ghost sn = name@;
    let prefix = name.substring_char(0, i).to_owned();
    let found = find_node(nodes, &prefix);
    proof {
        lemma_extends_refl(nodes@);
    }
    if !seen {
        proof {
            lemma_first_dot_at(sn, i as int);
            assert(prefix@ == top_of(sn));
        }
        if nodes.len() > 0 {
            match found {
                Some(k) => {
                    proof {
                        reveal(tree_wf);
                        if k > 0 {
                            let d = choose|d: int|
                                0 <= d < nodes@[k as int].path@.len() && nodes@[k as int].path@[d] == '.';
                            assert(sn[d] == '.');
                        }
                    }
                    Some(k)
                },
                None => {
                    proof {
                        assert(nodes@[0].path@ != prefix@);
                    }
                    None
                },
            }
        } else {
            let root = InstanceNode {
                name: name.substring_char(0, i).to_owned(),
                path: prefix,
                module_name: name.substring_char(0, i).to_owned(),
                children: Vec::new(),
                signals: Vec::new(),
            };
            nodes.push(root);
            proof {
                reveal(tree_wf);
                assert(!has_dot(nodes@[0].path@));
                lemma_extends_refl(nodes@);
            }
            Some(0)
        }
    } else {
        match found {
            Some(k) => Some(k),
            None => {
                let seg = name.substring_char(prev + 1, i).to_owned();
                proof {
                    assert(prefix@ =~= sn.subrange(0, prev as int) + seq!['.'] + seg@);
                }
                let module_name = name.substring_char(prev + 1, i).to_owned();
                let c = add_child(nodes, cur, seg, prefix, module_name, Ghost(ns));
                Some(c)
            },
        }
    }
}

/// Finds or creates, along the dots of `name`, the node of its scope; `None`
/// where `name` has no dot or does not start with `top`.
#[verifier::rlimit(100)]
fn scope_node(nodes: &mut Vec<InstanceNode>, name: &str, Ghost(top): Ghost<Seq<char>>, Ghost(ns): Ghost<nat>) -> (r: Option<usize>)
    requires
        old(nodes)@.len() == 0 ==> top == top_of(name@),
        old(nodes)@.len() > 0 ==> tree_wf(old(nodes)@, ns) && old(nodes)@[0].path@ == top,
        old(nodes)@.len() + name@.len() < usize::MAX,
    ensures
        r.is_some() <==> has_dot(name@) && top_of(name@) == top,
        r matches Some(c) ==> {
            &&& tree_wf(final(nodes)@, ns)
            &&& final(nodes)@[0].path@ == top
            &&& c < final(nodes)@.len()
            &&& final(nodes)@[c as int].path@ == scope_of(name@)
            &&& extends(old(nodes)@, final(nodes)@)
            &&& final(nodes)@.len() <= old(nodes)@.len() + name@.len()
        },
{
    let ghost sn = name@;
    let len = name.unicode_len();
    proof {
        lemma_extends_refl(old(nodes)@);
    }
    let mut cur: usize = 0;
    let mut seen = false;
    let mut prev: usize = 0;
    let mut i: usize = 0;
    while i < len
        invariant
            len == sn.len(),
            name@ == sn,
            i <= len,
            old(nodes)@.len() == 0 ==> top == top_of(sn),
            old(nodes)@.len() > 0 ==> tree_wf(old(nodes)@, ns) && old(nodes)@[0].path@ == top,
            !seen ==> nodes@ == old(nodes)@,
            seen ==> tree_wf(nodes@, ns) && nodes@[0].path@ == top,
            nodes@.len() <= old(nodes)@.len() + i,
            old(nodes)@.len() + len < usize::MAX,
            last_dot(sn.subrange(0, i as int)) == if seen { prev as int } else { -1 },
            seen ==> cur < nodes@.len() && prev < i && nodes@[cur as int].path@ == sn.subrange(0, prev as int),
            seen ==> sn[prev as int] == '.' && forall|k: int| prev < k < i ==> sn[k] != '.',
            seen ==> top_of(sn) == top,
            !seen ==> forall|k: int| 0 <= k < i ==> sn[k] != '.',
            extends(old(nodes)@, nodes@),
        decreases len - i,
    {
        proof {
            lemma_last_dot_step(sn, i as int);
        }
        if name.get_char(i) == '.' {
            let ghost before = nodes@;
            match enter_scope(nodes, name, i, prev, seen, cur, Ghost(top), Ghost(ns)) {
                None => {
                    return None;
                },
                Some(c) => {
                    proof {
                        lemma_extends_trans(old(nodes)@, before, nodes@);
                    }
                    cur = c;
                },
            }
            seen = true;
            prev = i;
        }
        i = i + 1;
    }
    proof {
        assert(sn.subrange(0, len as int) =~= sn);
        lemma_last_dot_range(sn);
    }
    if !seen {
        None
    } else {
        Some(cur)
    }
}

/// Lists signal `j` under node `c`.
fn add_signal(nodes: &mut Vec<InstanceNode>, c: usize, j: usize, Ghost(ns): Ghost<nat>)
    requires
        tree_wf(old(nodes)@, ns),
        c < old(nodes)@.len(),
        j < ns,
    ensures
        final(nodes)@.len() == old(nodes)@.len(),
        tree_wf(final(nodes)@, ns),
        extends(old(nodes)@, final(nodes)@),
        final(nodes)@[0].path@ == old(nodes)@[0].path@,
        final(nodes)@[c as int].signals@ == old(nodes)@[c as int].signals@.push(j),
        final(nodes)@[c as int].path@ == old(nodes)@[c as int].path@,
{
    nodes[c].signals.push(j);
    proof {
        reveal(tree_wf);
        let a = old(nodes)@;
        let b = nodes@;
        assert(b[c as int].signals@.subrange(0, a[c as int].signals@.len() as int) =~= a[c as int].signals@);
        assert forall|n: int, q: int|
            0 <= n < b.len() && 0 <= q < b[n].children@.len() implies {
                let x = #[trigger] b[n].children@[q] as int;
                &&& n < x < b.len()
                &&& b[x].path@ == b[n].path@ + seq!['.'] + b[x].name@
            } by {
            if n != c {
                assert(b[n] == a[n]);
            }
            let x = b[n].children@[q] as int;
            if x != c {
                assert(b[x] == a[x]);
            }
        }
        assert forall|k: int| 1 <= k < b.len() implies has_dot(#[trigger] b[k].path@) by {
            if k != c {
                assert(b[k] == a[k]);
            }
        }
        assert forall|n: int, q: int|
            0 <= n < b.len() && 0 <= q < b[n].signals@.len() implies #[trigger] b[n].signals@[q] < ns by {
            if n != c {
                assert(b[n] == a[n]);
            }
        }
        assert forall|n: int| 0 <= n < a.len() implies a[n].signals@ == b[n].signals@.subrange(
            0,
            a[n].signals@.len() as int,
        ) by {
            assert(a[n].signals@ =~= b[n].signals@.subrange(0, a[n].signals@.len() as int));
        }
    }
}

#[verifier::rlimit(100)]
/// Groups `signals` into their instance tree; `None` where a signal path has
/// no dot or the paths do not share one top name.
pub fn build_tree(signals: &Vec<Signal>) -> (r: Option<Vec<InstanceNode>>)
    requires
        total_len(signals@, signals@.len() as int) < usize::MAX,
    ensures
        r.is_some() <==> groupable(signals@),
        r matches Some(nodes) ==> is_tree_of(nodes@, signals@),
{
    if signals.len() == 0 {
        return None;
    }
    let mut nodes: Vec<InstanceNode> = Vec::new();
    let ghost top = top_of(signals@[0].name@);
    let mut j: usize = 0;
    while j < signals.len()
        invariant
            1 <= signals@.len(),
            total_len(signals@, signals@.len() as int) < usize::MAX,
            nodes@.len() <= total_len(signals@, j as int),
            top == top_of(signals@[0].name@),
            j <= signals@.len(),
            j == 0 ==> nodes@.len() == 0,
            j > 0 ==> tree_wf(nodes@, signals@.len()) && nodes@[0].path@ == top,
            forall|q: int|
                0 <= q < j ==> has_dot(#[trigger] signals@[q].name@) && top_of(signals@[q].name@) == top,
            forall|q: int| 0 <= q < j ==> listed(nodes@, signals@, q),
        decreases signals@.len() - j,
    {
        proof {
            lemma_total_len_mono(signals@, j as int + 1, signals@.len() as int);
            reveal(tree_wf);
        }
        let ghost before = nodes@;
        let name = signals[j].name.as_str();
        match scope_node(&mut nodes, name, Ghost(top), Ghost(signals@.len())) {
            None => {
                return None;
            },
            Some(c) => {
                let ghost mid = nodes@;
                let m = nodes[c].signals.len();
                add_signal(&mut nodes, c, j, Ghost(signals@.len()));
                proof {
                    assert forall|q: int| 0 <= q < j implies listed(nodes@, signals@, q) by {
                        lemma_listed_extends(before, mid, signals@, q);
                        lemma_listed_extends(mid, nodes@, signals@, q);
                    }
                    assert(nodes@[c as int].signals@[m as int] == j);
                    assert(listed(nodes@, signals@, j as int));
                    lemma_extends_trans(before, mid, nodes@);
                }
            },
        }
        j = j + 1;
    }
    Some(nodes)
}

} // verus!
