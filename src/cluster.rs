//! Win/loss counts of build orders and the labelled tree that groups them.
use vstd::prelude::*;
use vstd::string::StringSliceAdditionalSpecFns;
use vstd::utf8::encode_utf8;

verus! {

/// How often a build was seen, won and lost.
#[derive(Clone, Copy, Debug, PartialEq, Eq, Structural)]
pub struct BuildCount {
    pub total: u16,
    pub wins: u16,
    pub losses: u16,
}

/// Field-by-field sum of two counts.
pub open spec fn plus(a: BuildCount, b: BuildCount) -> BuildCount {
    BuildCount {
        total: (a.total + b.total) as u16,
        wins: (a.wins + b.wins) as u16,
        losses: (a.losses + b.losses) as u16,
    }
}

/// `v` can take `c` without overflow.
pub open spec fn fits(v: BuildCount, c: BuildCount) -> bool {
    &&& v.total + c.total <= u16::MAX
    &&& v.wins + c.wins <= u16::MAX
    &&& v.losses + c.losses <= u16::MAX
}

impl BuildCount {
    pub fn new() -> (r: BuildCount)
        ensures
            r.total == 0 && r.wins == 0 && r.losses == 0,
    {
        BuildCount { total: 0, wins: 0, losses: 0 }
    }

    /// Adds another count field by field.
    pub fn add(&mut self, other_build_count: &BuildCount)
        requires
            old(self).total + other_build_count.total <= u16::MAX,
            old(self).wins + other_build_count.wins <= u16::MAX,
            old(self).losses + other_build_count.losses <= u16::MAX,
        ensures
            final(self).total == old(self).total + other_build_count.total,
            final(self).wins == old(self).wins + other_build_count.wins,
            final(self).losses == old(self).losses + other_build_count.losses,
    {
        self.total = self.total + other_build_count.total;
        self.wins = self.wins + other_build_count.wins;
        self.losses = self.losses + other_build_count.losses;
    }
}

/// One node of the build tree: a comma-separated run of build steps.
#[derive(Debug)]
pub struct Node {
    pub label: String,
    pub children: Vec<Node>,
    pub value: BuildCount,
}

/// The length of the common prefix of `key` and `label` that ends just before
/// a comma, scanning from index `i` with `best` found so far.
pub open spec fn match_from(key: Seq<u8>, label: Seq<u8>, i: int, best: int) -> int
    decreases key.len() - i,
{
    if i < 0 || i >= key.len() || i >= label.len() || key[i] != label[i] {
        best
    } else {
        match_from(key, label, i + 1, if key[i] == 44 { i } else { best })
    }
}

impl Node {
    pub fn new(label: String, value: BuildCount) -> (r: Node)
        ensures
            r.label == label,
            r.value == value,
            r.children@.len() == 0,
    {
        Node { label, children: Vec::new(), value }
    }

    /// The position of the last comma inside the common prefix of `build` and
    /// the label; 0 when there is none.
    pub fn match_key(&self, build: &str) -> (r: usize)
        ensures
            r == match_from(build.spec_bytes(), encode_utf8(self.label@), 0, 0),
    {
        let key_chars = build.as_bytes();
        let node_chars = self.label.as_str().as_bytes();
        let upper_bound = if key_chars.len() < node_chars.len() {
            key_chars.len()
        } else {
            node_chars.len()
        };
        let mut match_length: usize = 0;
        let mut idx: usize = 0;
        while idx < upper_bound
            invariant
                key_chars@ == build.spec_bytes(),
                node_chars@ == encode_utf8(self.label@),
                upper_bound <= key_chars@.len(),
                upper_bound <= node_chars@.len(),
                upper_bound == key_chars@.len() || upper_bound == node_chars@.len(),
                idx <= upper_bound,
                match_from(key_chars@, node_chars@, 0, 0) == match_from(
                    key_chars@,
                    node_chars@,
                    idx as int,
                    match_length as int,
                ),
            decreases upper_bound - idx,
        {
            let current_key_char = key_chars[idx];
            let current_node_char = node_chars[idx];
            if current_key_char != current_node_char {
                return match_length;
            }
            if current_key_char == 44 {
                match_length = idx;
            }
            idx = idx + 1;
        }
        match_length
    }
}

/// Every count in the subtree under `n` can take `c`.
pub open spec fn has_room(n: Node, c: BuildCount) -> bool
    decreases n,
{
    &&& fits(n.value, c)
    &&& forall|i: int| 0 <= i < n.children@.len() ==> has_room(#[trigger] n.children@[i], c)
}

/// The last comma inside the common prefix of `a` and `b`, scanning from `i`.
pub open spec fn comma_from(a: Seq<char>, b: Seq<char>, i: int, best: int) -> int
    decreases a.len() - i,
{
    if i < 0 || i >= a.len() || i >= b.len() || a[i] != b[i] {
        best
    } else {
        comma_from(a, b, i + 1, if a[i] == ',' { i } else { best })
    }
}

proof fn lemma_comma_from_bound(a: Seq<char>, b: Seq<char>, i: int, best: int)
    requires
        0 <= best,
        best < a.len() && best < b.len() || best == 0,
        0 <= i,
    ensures
        0 <= comma_from(a, b, i, best),
        comma_from(a, b, i, best) < a.len() && comma_from(a, b, i, best) < b.len() || comma_from(a, b, i, best) == 0,
    decreases a.len() - i,
{
    if !(i >= a.len() || i >= b.len() || a[i] != b[i]) {
        lemma_comma_from_bound(a, b, i + 1, if a[i] == ',' { i } else { best });
    }
}

fn same_text(a: &str, b: &str) -> (r: bool)
    ensures
        r == (a@ == b@),
{
    let n = a.unicode_len();
    if n != b.unicode_len() {
        return false;
    }
    let mut i: usize = 0;
    while i < n
        invariant
            n == a@.len() == b@.len(),
            i <= n,
            a@.subrange(0, i as int) == b@.subrange(0, i as int),
        decreases n - i,
    {
        if a.get_char(i) != b.get_char(i) {
            return false;
        }
        assert(a@.subrange(0, i + 1) =~= a@.subrange(0, i as int).push(a@[i as int]));
        assert(b@.subrange(0, i + 1) =~= b@.subrange(0, i as int).push(b@[i as int]));
        i = i + 1;
    }
    assert(a@ =~= a@.subrange(0, n as int));
    assert(b@ =~= b@.subrange(0, n as int));
    true
}

fn shared_comma(a: &str, b: &str) -> (r: usize)
    ensures
        r == comma_from(a@, b@, 0, 0),
{
    let na = a.unicode_len();
    let nb = b.unicode_len();
    let upper = if na < nb {
        na
    } else {
        nb
    };
    let mut best: usize = 0;
    let mut i: usize = 0;
    while i < upper
        invariant
            na == a@.len(),
            nb == b@.len(),
            upper <= na,
            upper <= nb,
            upper == na || upper == nb,
            i <= upper,
            best <= i,
            comma_from(a@, b@, 0, 0) == comma_from(a@, b@, i as int, best as int),
        decreases upper - i,
    {
        let c = a.get_char(i);
        if c != b.get_char(i) {
            return best;
        }
        if c == ',' {
            best = i;
        }
        i = i + 1;
    }
    best
}

impl Node {
    /// Cuts the label at `idx`, dropping the character there: the node keeps
    /// the part before, and a single child takes the part after with the
    /// node's count and children.
    pub fn split_at(&mut self, idx: usize)
        requires
            idx < old(self).label@.len(),
        ensures
            final(self).label@ == old(self).label@.subrange(0, idx as int),
            final(self).value == old(self).value,
            final(self).children@.len() == 1,
            final(self).children@[0].label@ == old(self).label@.subrange(idx + 1, old(self).label@.len() as int),
            final(self).children@[0].value == old(self).value,
            final(self).children@[0].children == old(self).children,
    {
        let n = self.label.as_str().unicode_len();
        let head = String::from_str(self.label.as_str().substring_char(0, idx));
        let tail = String::from_str(self.label.as_str().substring_char(idx + 1, n));
        let mut new_node = Node::new(tail, self.value);
        std::mem::swap(&mut new_node.children, &mut self.children);
        self.children.push(new_node);
        self.label = head;
    }

    /// Inserts the build `build_fragment` with `count` below this node,
    /// sharing labels with the first child it overlaps. A child whose label
    /// extends the build is split and restarts from twice the count, so the
    /// count must fit twice.
    pub fn walk(&mut self, build_fragment: &str, count: &BuildCount)
        requires
            has_room(*old(self), *count),
            fits(*count, *count),
        ensures
            final(self).label == old(self).label,
            final(self).value == plus(old(self).value, *count),
            final(self).children@.len() >= old(self).children@.len(),
            old(self).children@.len() == 0 ==> {
                &&& final(self).children@.len() == 1
                &&& final(self).children@[0].label@ == build_fragment@
                &&& final(self).children@[0].value == *count
                &&& final(self).children@[0].children@.len() == 0
            },
        decreases build_fragment@.len(),
    {
        let flen = build_fragment.unicode_len();
        let n = self.children.len();
        let mut i: usize = 0;
        while i < n
            invariant
                *self == *old(self),
                fits(*count, *count),
                n == self.children@.len(),
                flen == build_fragment@.len(),
                i <= n,
                has_room(*self, *count),
            decreases n - i,
        {
            proof {
                assert(has_room(self.children@[i as int], *count));
            }
            let label_len = self.children[i].label.as_str().unicode_len();
            if same_text(self.children[i].label.as_str(), build_fragment) {
                let mut child = self.children.remove(i);
                child.value.add(count);
                self.children.insert(i, child);
                self.value.add(count);
                return;
            }
            let compare_fragment: &str = if flen > label_len {
                build_fragment.substring_char(0, label_len)
            } else {
                build_fragment
            };
            if same_text(compare_fragment, self.children[i].label.as_str()) {
                let next_fragment = build_fragment.substring_char(label_len + 1, flen);
                let mut child = self.children.remove(i);
                if child.children.len() != 0 {
                    child.walk(next_fragment, count);
                } else {
                    child.children.push(Node::new(String::from_str(next_fragment), *count));
                    child.value.add(count);
                }
                self.children.insert(i, child);
                self.value.add(count);
                return;
            }
            if flen < label_len && same_text(
                self.children[i].label.as_str().substring_char(0, flen),
                build_fragment,
            ) {
                let mut child = self.children.remove(i);
                child.split_at(flen);
                child.value = *count;
                child.value.add(count);
                self.children.insert(i, child);
                self.value.add(count);
                return;
            }
            let match_length = shared_comma(build_fragment, self.children[i].label.as_str());
            proof {
                lemma_comma_from_bound(build_fragment@, self.children@[i as int].label@, 0, 0);
            }
            if match_length != 0 {
                let rest = build_fragment.substring_char(match_length + 1, flen);
                let mut child = self.children.remove(i);
                child.split_at(match_length);
                child.children.push(Node::new(String::from_str(rest), *count));
                child.value.add(count);
                self.children.insert(i, child);
                self.value.add(count);
                return;
            }
            i = i + 1;
        }
        self.children.push(Node::new(String::from_str(build_fragment), *count));
        self.value.add(count);
    }
}

/// A tree of builds under a root labelled `ROOT`.
#[derive(Debug)]
pub struct RadixTrie {
    pub root: Node,
}

impl RadixTrie {
    pub fn new() -> (r: RadixTrie)
        ensures
            r.root.label@ == "ROOT"@,
            r.root.children@.len() == 0,
            r.root.value == (BuildCount { total: 0, wins: 0, losses: 0 }),
    {
        RadixTrie { root: Node::new(String::from_str("ROOT"), BuildCount::new()) }
    }

    /// A tree holding one build.
    pub fn from(build: &str, count: BuildCount) -> (r: RadixTrie)
        requires
            fits(count, count),
        ensures
            r.root.label@ == "ROOT"@,
            r.root.value == count,
            r.root.children@.len() == 1,
            r.root.children@[0].label@ == build@,
            r.root.children@[0].value == count,
            r.root.children@[0].children@.len() == 0,
    {
        let mut tree = RadixTrie::new();
        tree.insert(build, count);
        tree
    }

    /// Adds a build with its count.
    pub fn insert(&mut self, build: &str, count: BuildCount)
        requires
            has_room(old(self).root, count),
            fits(count, count),
        ensures
            final(self).root.label == old(self).root.label,
            final(self).root.value == plus(old(self).root.value, count),
            final(self).root.children@.len() >= old(self).root.children@.len(),
            old(self).root.children@.len() == 0 ==> {
                &&& final(self).root.children@.len() == 1
                &&& final(self).root.children@[0].label@ == build@
                &&& final(self).root.children@[0].value == count
                &&& final(self).root.children@[0].children@.len() == 0
            },
    {
        self.root.walk(build, &count);
    }
}

/// A node of a cluster tree as it is exported.
#[derive(Debug)]
pub struct ClusterTreeNode {
    pub label: String,
    pub matchup: String,
    pub children: Vec<ClusterTreeNode>,
}

#[derive(Debug)]
pub struct ClusterTree {
    pub terms: Vec<ClusterTreeNode>,
}

} // verus!
