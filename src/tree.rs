//! The lookup tree: an arena of nodes, one per label position, each with the
//! indices of its children.
use vstd::prelude::*;
use vstd::string::StrSliceExecFns;
use crate::labels::{
    Path, rev_labels, domain_of, domain_to_rseg, lemma_rev_labels_nonempty,
    lemma_domain_of_rev_labels,
};
use vstd::string::StringExecFns;

verus! {

/// The tree as a mathematical value: every label path that has a node,
/// mapped to that node's wildcard flag.
pub type Model = Map<Path, bool>;

/// A rule with a leading `.` matches its domain and every domain below it.
pub open spec fn is_wildcard_rule(r: Seq<char>) -> bool {
    r.len() > 0 && r[0] == '.'
}

/// How many labels of a rule become nodes: all of them, but for the empty
/// one that the leading `.` of a wildcard rule leaves at the end.
pub open spec fn rule_depth(r: Seq<char>) -> int {
    if is_wildcard_rule(r) {
        rev_labels(r).len() - 1
    } else {
        rev_labels(r).len() as int
    }
}

/// The label path that a rule is stored under.
pub open spec fn rule_path(r: Seq<char>) -> Path {
    rev_labels(r).take(rule_depth(r))
}

/// A rule is accepted when it names at least one label and none of its
/// labels is empty (one leading `.` aside): this refuses `""`, `"."`,
/// `"..a"`, `"a..b"` and `"a."`.
pub open spec fn is_valid_rule(r: Seq<char>) -> bool {
    &&& rule_depth(r) >= 1
    &&& forall|i: int| 0 <= i < rule_depth(r) ==> (#[trigger] rev_labels(r)[i]).len() > 0
}

/// Every path of the tree is non-empty, and its parent path is in the tree
/// too.
pub open spec fn is_prefix_closed(m: Model) -> bool {
    forall|p: Path| #[trigger]
        m.contains_key(p) ==> p.len() >= 1 && (p.len() > 1 ==> m.contains_key(p.drop_last()))
}

/// The tree after a rule with path `p` is inserted: every non-empty prefix of
/// `p` has a node, new nodes are not wildcards, flags already set stay set,
/// and a wildcard rule sets the flag of the node at `p`.
pub open spec fn insert_model(m: Model, p: Path, wildcard: bool) -> Model {
    Map::new(
        |k: Path| m.contains_key(k) || (1 <= k.len() <= p.len() && k == p.take(k.len() as int)),
        |k: Path| (wildcard && k == p) || (m.contains_key(k) && m[k]),
    )
}

/// The deepest prefix of `p`, of length at most `k`, that is a wildcard node.
pub open spec fn deepest_wildcard(m: Model, p: Path, k: int) -> Option<int>
    decreases k,
{
    if k <= 0 {
        None
    } else if m.contains_key(p.take(k)) && m[p.take(k)] {
        Some(k)
    } else {
        deepest_wildcard(m, p, k - 1)
    }
}

/// One more label of a rule's path: the node is either there already or
/// added without a flag.
proof fn lemma_insert_model_step(m0: Model, before: Model, p: Path, i: int)
    requires
        before == insert_model(m0, p.take(i), false),
        0 <= i < p.len(),
    ensures
        before.contains_key(p.take(i + 1)) ==> before == insert_model(m0, p.take(i + 1), false),
        !before.contains_key(p.take(i + 1)) ==> before.insert(p.take(i + 1), false) == insert_model(
            m0,
            p.take(i + 1),
            false,
        ),
{
    assert forall|k: Path| 1 <= k.len() <= i implies (p.take(i + 1).take(k.len() as int) == k
        <==> #[trigger] p.take(i).take(k.len() as int) == k) by {
        assert(p.take(i + 1).take(k.len() as int) =~= p.take(i).take(k.len() as int));
    }
    assert(p.take(i + 1).take(i + 1) =~= p.take(i + 1));
    let after = insert_model(m0, p.take(i + 1), false);
    if before.contains_key(p.take(i + 1)) {
        assert(before =~= after);
    } else {
        assert(before.insert(p.take(i + 1), false) =~= after);
    }
}

/// Setting the flag at the end of a wildcard rule's path.
proof fn lemma_insert_model_flag(m0: Model, p: Path)
    requires
        p.len() >= 1,
    ensures
        insert_model(m0, p, false).insert(p, true) == insert_model(m0, p, true),
{
    assert(p.take(p.len() as int) =~= p);
    assert(insert_model(m0, p, false).insert(p, true) =~= insert_model(m0, p, true));
}

/// What a traversal finds for the query `q`: the query itself with its
/// node's flag when the whole query has a node; else the domain of the
/// deepest wildcard node above it; else nothing.
pub open spec fn traverse_model(m: Model, q: Seq<char>) -> Option<(Seq<char>, bool)> {
    let p = rev_labels(q);
    if m.contains_key(p) {
        Some((q, m[p]))
    } else {
        match deepest_wildcard(m, p, p.len() - 1) {
            Some(k) => Some((domain_of(p.take(k)), true)),
            None => None,
        }
    }
}

/// Below a missing path nothing is in a prefix-closed tree.
pub proof fn lemma_absent_below(m: Model, p: Path, j: int, l: int)
    requires
        is_prefix_closed(m),
        1 <= j <= l <= p.len(),
        !m.contains_key(p.take(j)),
    ensures
        !m.contains_key(p.take(l)),
    decreases l - j,
{
    if l > j {
        lemma_absent_below(m, p, j, l - 1);
        assert(p.take(l).drop_last() =~= p.take(l - 1));
    }
}

/// Where the prefix of length `j` is missing, no deeper wildcard exists.
pub proof fn lemma_deepest_wildcard_stops(m: Model, p: Path, j: int, k: int)
    requires
        is_prefix_closed(m),
        1 <= j <= p.len(),
        !m.contains_key(p.take(j)),
        j - 1 <= k <= p.len(),
    ensures
        deepest_wildcard(m, p, k) == deepest_wildcard(m, p, j - 1),
    decreases k,
{
    if k > j - 1 {
        lemma_absent_below(m, p, j, k);
        lemma_deepest_wildcard_stops(m, p, j, k - 1);
    }
}

/// A matched domain as a rule: with a leading `.` when it is a wildcard.
pub open spec fn rendered(d: Seq<char>, wildcard: bool) -> Seq<char> {
    if wildcard {
        seq!['.'] + d
    } else {
        d
    }
}

/// What a lookup of the query `q` returns.
pub open spec fn lookup_model(m: Model, q: Seq<char>) -> Option<Seq<char>> {
    match traverse_model(m, q) {
        Some((d, w)) => Some(rendered(d, w)),
        None => None,
    }
}

/// The error for a rule that `is_valid_rule` refuses.
#[derive(Debug, PartialEq, Eq, Structural)]
pub enum RuleError {
    InvalidDomainRule,
}

/// One label position of the tree. Its children are kept as arena indices
/// and searched by label.
pub struct Node {
    label: String,
    wildcard: bool,
    children: Vec<usize>,
}

impl Node {
    fn new(wildcard: bool, label: String) -> (r: Node)
        ensures
            r.label@ == label@,
            r.wildcard == wildcard,
            r.children@.len() == 0,
    {
        Node { label, wildcard, children: Vec::new() }
    }

    /// The node's label.
    pub closed spec fn spec_label(&self) -> Seq<char> {
        self.label@
    }

    /// Whether a wildcard rule ends at this node.
    pub closed spec fn spec_wildcard(&self) -> bool {
        self.wildcard
    }

    pub fn label(&self) -> (r: &str)
        ensures
            r@ == self.spec_label(),
    {
        self.label.as_str()
    }

    pub fn is_wildcard(&self) -> (r: bool)
        ensures
            r == self.spec_wildcard(),
    {
        self.wildcard
    }
}

/// A trie of domain labels, top-level label first. Node 0 is the root,
/// which stands for no label.
pub struct DomainLookupTree {
    nodes: Vec<Node>,
    /// The label path of each node.
    paths: Ghost<Seq<Path>>,
    /// The node of each label path.
    index: Ghost<Map<Path, nat>>,
}

impl View for DomainLookupTree {
    type V = Model;

    closed spec fn view(&self) -> Model {
        Map::new(
            |p: Path| self.index@.contains_key(p) && p.len() > 0,
            |p: Path| self.nodes@[self.index@[p] as int].wildcard,
        )
    }
}

impl DomainLookupTree {
    /// The nodes, their paths and the index agree, and every child edge
    /// adds one label.
    pub closed spec fn wf(&self) -> bool {
        let n = self.nodes@;
        let paths = self.paths@;
        let index = self.index@;
        &&& n.len() >= 1
        &&& paths.len() == n.len()
        &&& paths[0] == Seq::<Seq<char>>::empty()
        &&& forall|i: int|
            0 <= i < n.len() ==> index.contains_key(#[trigger] paths[i]) && index[paths[i]] == i
        &&& forall|p: Path| #[trigger]
            index.contains_key(p) ==> index[p] < n.len() && paths[index[p] as int] == p
        &&& forall|i: int|
            1 <= i < n.len() ==> (#[trigger] paths[i]).len() >= 1 && n[i].label@ == paths[i].last()
        &&& forall|i: int, j: int|
            0 <= i < n.len() && 0 <= j < n[i].children@.len() ==> 1 <= #[trigger] n[i].children@[j]
                < n.len() && paths[n[i].children@[j] as int].drop_last() == paths[i]
        &&& forall|i: int| 0 <= i < n.len() ==> (#[trigger] n[i].children@).no_duplicates()
        &&& forall|p: Path| #[trigger]
            index.contains_key(p) && p.len() >= 1 ==> index.contains_key(p.drop_last())
                && n[index[p.drop_last()] as int].children@.contains(index[p] as usize)
    }

    /// The tree's paths are non-empty and closed under taking the parent.
    pub proof fn lemma_view_prefix_closed(&self)
        requires
            self.wf(),
        ensures
            is_prefix_closed(self@),
    {
        assert forall|p: Path| #[trigger] self@.contains_key(p) implies p.len() >= 1 && (p.len() > 1
            ==> self@.contains_key(p.drop_last())) by {
            assert(self.index@.contains_key(p) && p.len() >= 1);
        }
    }

    /// An empty tree. It takes no minimum rule depth: no rule is refused
    /// for being shallow, and malformed rules are refused by `insert`.
    pub fn new() -> (r: DomainLookupTree)
        ensures
            r.wf(),
            r@ == Map::<Path, bool>::empty(),
    {
        let mut nodes: Vec<Node> = Vec::new();
        nodes.push(Node::new(false, String::new()));
        let ghost paths = seq![Seq::<Seq<char>>::empty()];
        let ghost index = map![Seq::<Seq<char>>::empty() => 0nat];
        let r = DomainLookupTree { nodes, paths: Ghost(paths), index: Ghost(index) };
        assert(r@ =~= Map::<Path, bool>::empty());
        r
    }

    /// Adds a node for `label` below node `h`, where there is none yet.
    fn add_child(&mut self, h: usize, label: String) -> (c: usize)
        requires
            old(self).wf(),
            h < old(self).nodes@.len(),
            !old(self).index@.contains_key(old(self).paths@[h as int].push(label@)),
        ensures
            final(self).wf(),
            c == old(self).nodes@.len(),
            final(self).paths@ == old(self).paths@.push(old(self).paths@[h as int].push(label@)),
            final(self)@ == old(self)@.insert(old(self).paths@[h as int].push(label@), false),
    {
        let c = self.nodes.len();
        let ghost p = self.paths@[h as int].push(label@);
        let ghost old_nodes = self.nodes@;
        let ghost old_paths = self.paths@;
        let ghost old_index = self.index@;
        let ghost old_view = self@;
        self.nodes.push(Node::new(false, label));
        self.nodes[h].children.push(c);
        proof {
            self.paths@ = old_paths.push(p);
            self.index@ = old_index.insert(p, c as nat);
            let n = self.nodes@;
            assert(p.drop_last() =~= old_paths[h as int]);
            assert forall|i: int|
                0 <= i < n.len() implies self.index@.contains_key(#[trigger] self.paths@[i])
                && self.index@[self.paths@[i]] == i by {
                if i < c {
                    assert(self.paths@[i] == old_paths[i]);
                    assert(old_index.contains_key(old_paths[i]));
                }
            }
            assert forall|i: int, j: int|
                0 <= i < n.len() && 0 <= j < n[i].children@.len() implies 1 <= #[trigger] n[i].children@[j]
                < n.len() && self.paths@[n[i].children@[j] as int].drop_last() == self.paths@[i] by {
                if i != h && i < c {
                    assert(n[i].children@ == old_nodes[i].children@);
                } else if i == h {
                    if j < old_nodes[i].children@.len() {
                        assert(n[i].children@[j] == old_nodes[i].children@[j]);
                    }
                }
            }
            assert forall|i: int| 0 <= i < n.len() implies (#[trigger] n[i].children@).no_duplicates() by {
                if i == h {
                    let ch = n[i].children@;
                    assert forall|a: int, b: int| 0 <= a < b < ch.len() implies ch[a] != ch[b] by {
                        if b == ch.len() - 1 {
                            assert(ch[a] == old_nodes[i].children@[a]);
                        } else {
                            assert(ch[a] == old_nodes[i].children@[a]);
                            assert(ch[b] == old_nodes[i].children@[b]);
                        }
                    }
                } else if i < c {
                    assert(n[i].children@ == old_nodes[i].children@);
                } else {
                    assert(n[i].children@.len() == 0);
                }
            }
            assert forall|q: Path| #[trigger]
                self.index@.contains_key(q) && q.len() >= 1 implies self.index@.contains_key(q.drop_last())
                && n[self.index@[q.drop_last()] as int].children@.contains(self.index@[q] as usize) by {
                if q != p {
                    let pi = old_index[q.drop_last()] as int;
                    assert(old_nodes[pi].children@.contains(old_index[q] as usize));
                    let j = choose|j: int| 0 <= j < old_nodes[pi].children@.len()
                        && old_nodes[pi].children@[j] == old_index[q] as usize;
                    assert(n[pi].children@[j] == old_nodes[pi].children@[j]);
                } else {
                    assert(old_index.contains_key(old_paths[h as int]));
                    assert(n[h as int].children@.last() == c);
                    assert(n[h as int].children@[n[h as int].children@.len() - 1] == c);
                }
            }
            assert(self@ =~= old_view.insert(p, false));
        }
        c
    }

    /// Marks the node `h` as the end of a wildcard rule.
    fn set_wildcard(&mut self, h: usize)
        requires
            old(self).wf(),
            1 <= h < old(self).nodes@.len(),
        ensures
            final(self).wf(),
            final(self).paths@ == old(self).paths@,
            final(self)@ == old(self)@.insert(old(self).paths@[h as int], true),
    {
        let ghost old_nodes = self.nodes@;
        let ghost old_view = self@;
        self.nodes[h].wildcard = true;
        proof {
            let n = self.nodes@;
            assert forall|i: int| 0 <= i < n.len() implies #[trigger] n[i].children@ == old_nodes[i].children@
                && n[i].label@ == old_nodes[i].label@ by {}
            assert(self.index@.contains_key(self.paths@[h as int]));
            assert(self@ =~= old_view.insert(self.paths@[h as int], true));
        }
    }

    /// Inserts a rule. An absolute rule (`www.example.com`) matches that
    /// domain only; a wildcard rule (`.example.com`) matches that domain and
    /// every domain below it. A node is made for every label on the rule's
    /// path. A rule that `is_valid_rule` refuses leaves the tree as it was.
    pub fn insert(&mut self, domain: &str) -> (r: Result<(), RuleError>)
        requires
            old(self).wf(),
        ensures
            final(self).wf(),
            is_valid_rule(domain@) ==> r == Ok::<(), RuleError>(()) && final(self)@ == insert_model(
                old(self)@,
                rule_path(domain@),
                is_wildcard_rule(domain@),
            ),
            !is_valid_rule(domain@) ==> r == Err::<(), RuleError>(RuleError::InvalidDomainRule)
                && final(self)@ == old(self)@,
    {
        let is_wildcard = domain.unicode_len() > 0 && domain.get_char(0) == '.';
        let segments = domain_to_rseg(domain);
        let ghost labels = rev_labels(domain@);
        proof {
            lemma_rev_labels_nonempty(domain@);
            assert(labels.len() == segments@.len());
            assert forall|j: int| 0 <= j < segments@.len() implies #[trigger] segments@[j]@ == labels[j] by {
                assert(segments@.map_values(|l: String| l@)[j] == segments@[j]@);
            }
        }
        let n_segments = segments.len();
        let depth = if is_wildcard {
            n_segments - 1
        } else {
            n_segments
        };
        assert(depth == rule_depth(domain@));
        if depth == 0 {
            return Err(RuleError::InvalidDomainRule);
        }
        let ghost m0 = self@;
        let mut i: usize = 0;
        while i < depth
            invariant
                self.wf(),
                self@ == m0,
                labels.len() == segments@.len(),
                depth == rule_depth(domain@),
                depth <= segments@.len(),
                forall|j: int| 0 <= j < segments@.len() ==> #[trigger] segments@[j]@ == labels[j],
                labels == rev_labels(domain@),
                forall|j: int| 0 <= j < i ==> (#[trigger] labels[j]).len() > 0,
            decreases depth - i,
        {
            if segments[i].as_str().is_empty() {
                return Err(RuleError::InvalidDomainRule);
            }
            i = i + 1;
        }
        let ghost p = rule_path(domain@);
        let mut head: usize = 0;
        let mut i: usize = 0;
        assert(insert_model(m0, p.take(0), false) =~= m0);
        while i < depth
            invariant
                self.wf(),
                depth == rule_depth(domain@) == p.len(),
                depth <= segments@.len(),
                forall|j: int| 0 <= j < segments@.len() ==> #[trigger] segments@[j]@ == labels[j],
                labels.len() == segments@.len(),
                p == labels.take(depth as int),
                0 <= i <= depth,
                head < self.nodes@.len(),
                i > 0 ==> head >= 1,
                self.paths@[head as int] == p.take(i as int),
                self@ == insert_model(m0, p.take(i as int), false),
            decreases depth - i,
        {
            let ghost before = self@;
            assert(p[i as int] == labels[i as int]);
            assert(segments@[i as int]@ == p[i as int]);
            assert(p.take(i as int).push(p[i as int]) =~= p.take(i + 1));
            match self.find_child(head, &segments[i]) {
                Some(c) => {
                    head = c;
                    assert(self.index@.contains_key(p.take(i + 1)));
                    assert(before.contains_key(p.take(i + 1)));
                }
                None => {
                    let label = segments[i].clone();
                    assert(!before.contains_key(p.take(i + 1)));
                    assert(!m0.contains_key(p.take(i + 1)));
                    head = self.add_child(head, label);
                    assert(self@ == before.insert(p.take(i + 1), false));
                }
            }
            proof { lemma_insert_model_step(m0, before, p, i as int); }
            i = i + 1;
        }
        assert(p.take(depth as int) =~= p);
        if is_wildcard {
            self.set_wildcard(head);
            proof { lemma_insert_model_flag(m0, p); }
        }
        Ok(())
    }

    /// The node of a wildcard match found during a traversal.
    fn wildcard_found(&self, best: Option<(String, usize)>) -> (r: Option<(String, &Node)>)
        requires
            best matches Some((d, c)) ==> c < self.nodes@.len(),
        ensures
            match best {
                Some((d, c)) => r matches Some((e, n)) && e@ == d@ && *n == self.nodes@[c as int],
                None => r is None,
            },
    {
        match best {
            Some((d, c)) => Some((d, &self.nodes[c])),
            None => None,
        }
    }

    /// Walks the tree along the labels of `domain`, top-level label first.
    /// Where the whole domain has a node, returns the domain and that node,
    /// whatever its flag; else the domain of the deepest wildcard node passed
    /// on the way and that node; else nothing.
    pub fn traverse(&self, domain: &str) -> (r: Option<(String, &Node)>)
        requires
            self.wf(),
        ensures
            match r {
                Some((d, n)) => traverse_model(self@, domain@) == Some((d@, n.spec_wildcard())),
                None => traverse_model(self@, domain@) is None,
            },
    {
        let segments = domain_to_rseg(domain);
        let ghost p = rev_labels(domain@);
        let ghost m = self@;
        proof {
            lemma_rev_labels_nonempty(domain@);
            lemma_domain_of_rev_labels(domain@);
            self.lemma_view_prefix_closed();
            reveal_strlit(".");
            assert forall|j: int| 0 <= j < segments@.len() implies #[trigger] segments@[j]@ == p[j] by {
                assert(segments@.map_values(|l: String| l@)[j] == segments@[j]@);
            }
            assert(p.take(0) =~= Seq::<Seq<char>>::empty());
        }
        let n_segments = segments.len();
        let mut wildcard_match: Option<(String, usize)> = None;
        let ghost mut best: int = 0;
        let mut fqdn = String::new();
        let mut head: usize = 0;
        let mut i: usize = 0;
        while i < n_segments
            invariant
                self.wf(),
                m == self@,
                is_prefix_closed(m),
                p == rev_labels(domain@),
                domain_of(p) == domain@,
                n_segments == segments@.len() == p.len(),
                forall|j: int| 0 <= j < segments@.len() ==> #[trigger] segments@[j]@ == p[j],
                i < n_segments,
                head < self.nodes@.len(),
                self.paths@[head as int] == p.take(i as int),
                fqdn@ == domain_of(p.take(i as int)),
                "."@ == seq!['.'],
                match wildcard_match {
                    Some((d, c)) => deepest_wildcard(m, p, i as int) == Some(best) && 1 <= best <= i
                        && d@ == domain_of(p.take(best)) && c < self.nodes@.len()
                        && self.nodes@[c as int].wildcard,
                    None => deepest_wildcard(m, p, i as int) is None,
                },
            decreases n_segments - i,
        {
            assert(self.paths@[head as int].push(segments@[i as int]@) =~= p.take(i + 1));
            match self.find_child(head, &segments[i]) {
                None => {
                    proof {
                        assert(!m.contains_key(p.take(i + 1)));
                        lemma_absent_below(m, p, i + 1, p.len() as int);
                        assert(p.take(p.len() as int) =~= p);
                        lemma_deepest_wildcard_stops(m, p, i + 1, p.len() - 1);
                    }
                    return self.wildcard_found(wildcard_match);
                }
                Some(c) => {
                    let ghost q = p.take(i + 1);
                    assert(self.index@.contains_key(q) && self.index@[q] == c);
                    assert(m.contains_key(q) && m[q] == self.nodes@[c as int].wildcard);
                    if i == 0 {
                        fqdn = segments[0].clone();
                        assert(domain_of(q) == q[0]);
                    } else {
                        let mut longer = segments[i].clone();
                        longer.append(".");
                        longer.append(fqdn.as_str());
                        fqdn = longer;
                        assert(q.drop_last() =~= p.take(i as int));
                        assert(domain_of(q) == q.last() + seq!['.'] + domain_of(q.drop_last()));
                        assert(fqdn@ =~= domain_of(q));
                    }
                    head = c;
                    if i + 1 == n_segments {
                        assert(q =~= p);
                        return Some((fqdn, &self.nodes[c]));
                    } else if self.nodes[c].wildcard {
                        wildcard_match = Some((fqdn.clone(), c));
                        proof {
                            best = i + 1;
                        }
                    }
                }
            }
            i = i + 1;
        }
        self.wildcard_found(wildcard_match)
    }

    /// Looks up a domain. Returns the matched rule: the domain itself where
    /// it has a node (with a leading `.` when that node is a wildcard), else
    /// the deepest wildcard rule above it, else nothing.
    pub fn lookup(&self, domain: &str) -> (r: Option<String>)
        requires
            self.wf(),
        ensures
            match r {
                Some(s) => lookup_model(self@, domain@) == Some(s@),
                None => lookup_model(self@, domain@) is None,
            },
    {
        match self.traverse(domain) {
            None => None,
            Some((d, node)) => {
                if node.is_wildcard() {
                    let mut s = ".".to_owned();
                    proof {
                        reveal_strlit(".");
                    }
                    s.append(d.as_str());
                    Some(s)
                } else {
                    Some(d)
                }
            },
        }
    }

    /// The number of distinct top-level labels among the rules inserted.
    pub fn top_level_count(&self) -> (r: usize)
        requires
            self.wf(),
        ensures
            r == self@.dom().filter(|p: Path| p.len() == 1).len(),
    {
        let ghost ch = self.nodes@[0].children@;
        let ghost paths = self.paths@;
        let ghost ps = ch.map_values(|c: usize| paths[c as int]);
        let ghost top = self@.dom().filter(|p: Path| p.len() == 1);
        proof {
            assert forall|a: int, b: int| 0 <= a < b < ps.len() implies ps[a] != ps[b] by {
                assert(self.index@[paths[ch[a] as int]] == ch[a]);
                assert(self.index@[paths[ch[b] as int]] == ch[b]);
            }
            assert forall|p: Path| top.contains(p) <==> ps.to_set().contains(p) by {
                if top.contains(p) {
                    let c = self.index@[p] as int;
                    assert(c < self.nodes@.len() && paths[c] == p);
                    assert(c < self.nodes.len());
                    assert(p.drop_last() =~= paths[0]);
                    assert(ch.contains(c as usize));
                    let j = choose|j: int| 0 <= j < ch.len() && ch[j] == c as usize;
                    assert(ch[j] as int == c);
                    assert(ps[j] == paths[ch[j] as int]);
                }
                if ps.to_set().contains(p) {
                    let j = choose|j: int| 0 <= j < ps.len() && ps[j] == p;
                    let c = ch[j] as int;
                    assert(paths[c].drop_last() == paths[0]);
                    assert(self.index@.contains_key(paths[c]));
                }
            }
            assert(top =~= ps.to_set());
            ps.unique_seq_to_set();
        }
        self.nodes[0].children.len()
    }

    /// The child of node `h` whose label is `label`, if there is one.
    fn find_child(&self, h: usize, label: &String) -> (r: Option<usize>)
        requires
            self.wf(),
            h < self.nodes@.len(),
        ensures
            match r {
                Some(c) => 1 <= c < self.nodes@.len() && self.paths@[c as int]
                    == self.paths@[h as int].push(label@),
                None => !self.index@.contains_key(self.paths@[h as int].push(label@)),
            },
    {
        let mut k: usize = 0;
        while k < self.nodes[h].children.len()
            invariant
                self.wf(),
                h < self.nodes@.len(),
                forall|j: int|
                    0 <= j < k ==> self.nodes@[self.nodes@[h as int].children@[j] as int].label@
                        != label@,
            decreases self.nodes@[h as int].children@.len() - k,
        {
            let c = self.nodes[h].children[k];
            assert(self.nodes@[h as int].children@[k as int] == c);
            if self.nodes[c].label == *label {
                let ghost pc = self.paths@[c as int];
                assert(pc =~= self.paths@[h as int].push(label@));
                return Some(c);
            }
            k = k + 1;
        }
        proof {
            let p = self.paths@[h as int].push(label@);
            if self.index@.contains_key(p) {
                assert(p.drop_last() =~= self.paths@[h as int]);
                let ci = self.index@[p] as int;
                assert(ci < self.nodes.len());
                let c = ci as usize;
                let ch = self.nodes@[h as int].children@;
                assert(ch.contains(c));
                let j = choose|j: int| 0 <= j < ch.len() && ch[j] == c;
                assert(self.paths@[ci] == p);
                assert(self.nodes@[ci].label@ == label@);
                assert(false);
            }
        }
        None
    }
}

} // verus!
