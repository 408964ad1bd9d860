//! The rule trie and its lookup engine.
//!
//! Rules are inserted TLD first: the rightmost label of a rule becomes an
//! edge out of the root. Lookup walks the input's labels in the same order,
//! preferring an exact literal edge over the wildcard edge at every node,
//! and commits a match each time it reaches a terminal node; an exception
//! node commits one label less and stops the walk.

use crate::bytes::{rlabels, rsplit_bytes};
use crate::Type;
use vstd::prelude::*;

verus! {

/// The wildcard rule label.
pub const WILD: u8 = 42;

/// Result of a lookup: how many labels of the input the best matching rule
/// covers, and that rule's provenance. `len == 0` means no rule matched.
#[derive(Copy, Clone, Eq, PartialEq, Debug)]
pub struct Info {
    pub len: usize,
    pub typ: Option<Type>,
}

/// Mathematical counterpart of `Info`.
pub ghost struct InfoV {
    pub len: int,
    pub typ: Option<Type>,
}

impl View for Info {
    type V = InfoV;

    open spec fn view(&self) -> InfoV {
        InfoV { len: self.len as int, typ: self.typ }
    }
}

/// One trie node. Literal edges are keyed by label text; the wildcard edge
/// is kept apart because a literal edge always wins over it.
pub struct Node {
    edges: Vec<(Vec<u8>, usize)>,
    wild: Option<usize>,
    terminal: Option<Type>,
    exception: bool,
}

/// Mathematical counterpart of `Node`.
pub ghost struct NodeV {
    pub edges: Seq<(Seq<u8>, int)>,
    pub wild: Option<int>,
    pub terminal: Option<Type>,
    pub exception: bool,
}

impl View for Node {
    type V = NodeV;

    closed spec fn view(&self) -> NodeV {
        NodeV {
            edges: self.edges@.map_values(|e: (Vec<u8>, usize)| (e.0@, e.1 as int)),
            wild: match self.wild {
                Some(w) => Some(w as int),
                None => None,
            },
            terminal: self.terminal,
            exception: self.exception,
        }
    }
}

/// The compiled list: an arena of trie nodes, the root at index zero.
pub struct List {
    nodes: Vec<Node>,
}

impl View for List {
    type V = Seq<NodeV>;

    closed spec fn view(&self) -> Seq<NodeV> {
        self.nodes@.map_values(|n: Node| n@)
    }
}

/// Construction failures. Building is the only fallible stage: lookup
/// itself never fails.
#[derive(Copy, Clone, Eq, PartialEq, Debug, Structural)]
pub enum BuildError {
    /// An empty rule set has no sensible default.
    EmptyList,
    /// An exception rule needs an enclosing rule above it, so it cannot
    /// consist of a single label.
    RootException,
    /// The same rule path was given two different types or markers.
    RuleConflict,
}

/// Every edge leads to a node further along the arena, so the structure is
/// acyclic and the root is never a child.
pub open spec fn node_wf(t: Seq<NodeV>, i: int) -> bool {
    &&& forall|e: int| 0 <= e < t[i].edges.len() ==> i < (#[trigger] t[i].edges[e]).1 < t.len()
    &&& (t[i].wild is Some ==> i < t[i].wild->0 < t.len())
}

/// The wildcard edge is the only way a wildcard label is stored.
pub open spec fn no_wild_keys(t: Seq<NodeV>) -> bool {
    forall|i: int, e: int|
        0 <= i < t.len() && 0 <= e < t[i].edges.len() ==> !is_wild((#[trigger] t[i].edges[e]).0)
}

pub open spec fn lit_edge(t: Seq<NodeV>, i: int, e: int) -> bool {
    0 <= i < t.len() && 0 <= e < t[i].edges.len()
}

/// Each node is the target of at most one edge, literal edges and wildcard
/// edges counted together: the arena is a tree.
pub open spec fn unique_parent(t: Seq<NodeV>) -> bool {
    &&& forall|i1: int, e1: int, i2: int, e2: int|
        lit_edge(t, i1, e1) && lit_edge(t, i2, e2) && (#[trigger] t[i1].edges[e1]).1 == (
        #[trigger] t[i2].edges[e2]).1 ==> i1 == i2 && e1 == e2
    &&& forall|i1: int, i2: int|
        0 <= i1 < t.len() && 0 <= i2 < t.len() && t[i1].wild is Some && (#[trigger] t[i1].wild)
            == (#[trigger] t[i2].wild) ==> i1 == i2
    &&& forall|i1: int, e1: int, i2: int|
        lit_edge(t, i1, e1) && 0 <= i2 < t.len() && (#[trigger] t[i2].wild) is Some ==> (
        #[trigger] t[i1].edges[e1]).1 != t[i2].wild->0
}

pub open spec fn trie_wf(t: Seq<NodeV>) -> bool {
    &&& t.len() >= 1
    &&& forall|i: int| 0 <= i < t.len() ==> node_wf(t, i)
    &&& no_wild_keys(t)
    &&& unique_parent(t)
}

/// The terminal type and exception mark of a node.
pub open spec fn marks(t: Seq<NodeV>, i: int) -> (Option<Type>, bool) {
    (t[i].terminal, t[i].exception)
}

/// `t2` grows out of `t`: nodes are only appended, and an existing node only
/// gains edges after the ones it had.
pub open spec fn shape_extends(t: Seq<NodeV>, t2: Seq<NodeV>) -> bool {
    &&& t.len() <= t2.len()
    &&& forall|i: int|
        0 <= i < t.len() ==> {
            &&& t[i].edges.is_prefix_of((#[trigger] t2[i]).edges)
            &&& (t[i].wild is Some ==> t2[i].wild == t[i].wild)
        }
}

/// First literal edge out of a node for a given label.
pub open spec fn edge_lookup(edges: Seq<(Seq<u8>, int)>, lab: Seq<u8>) -> Option<int>
    decreases edges.len(),
{
    if edges.len() == 0 {
        None
    } else if edges[0].0 == lab {
        Some(edges[0].1)
    } else {
        edge_lookup(edges.drop_first(), lab)
    }
}

/// Lookup dispatch at one node: the literal edge if there is one, the
/// wildcard edge otherwise.
pub open spec fn child_of(node: NodeV, lab: Seq<u8>) -> Option<int> {
    match edge_lookup(node.edges, lab) {
        Some(c) => Some(c),
        None => node.wild,
    }
}

/// The lookup walk: consume labels TLD first from position
/// `depth`, starting at node `n`, with `best` the last committed match.
pub open spec fn lookup_from(
    t: Seq<NodeV>,
    n: int,
    labs: Seq<Seq<u8>>,
    depth: int,
    best: InfoV,
) -> InfoV
    decreases labs.len() - depth,
{
    if depth < 0 || depth >= labs.len() {
        best
    } else {
        match child_of(t[n], labs[depth]) {
            None => best,
            Some(c) => {
                if t[c].exception {
                    InfoV { len: depth, typ: t[c].terminal }
                } else {
                    let best2 = if t[c].terminal is Some {
                        InfoV { len: depth + 1, typ: t[c].terminal }
                    } else {
                        best
                    };
                    lookup_from(t, c, labs, depth + 1, best2)
                }
            },
        }
    }
}

/// What a whole lookup returns for the given labels.
pub open spec fn spec_find(t: Seq<NodeV>, labs: Seq<Seq<u8>>) -> InfoV {
    lookup_from(t, 0, labs, 0, InfoV { len: 0, typ: None })
}

/// A label written `*` in a rule denotes the wildcard edge.
pub open spec fn is_wild(lab: Seq<u8>) -> bool {
    lab == seq![WILD]
}

/// The edge an inserted rule label uses at a node.
pub open spec fn insert_child(node: NodeV, lab: Seq<u8>) -> Option<int> {
    if is_wild(lab) {
        node.wild
    } else {
        edge_lookup(node.edges, lab)
    }
}

/// Follow a rule path from node `n`; `None` when some edge is missing.
pub open spec fn walk(t: Seq<NodeV>, n: int, path: Seq<Seq<u8>>) -> Option<int>
    decreases path.len(),
{
    if path.len() == 0 {
        Some(n)
    } else {
        match insert_child(t[n], path[0]) {
            None => None,
            Some(c) => walk(t, c, path.drop_first()),
        }
    }
}

/// A rule whose text starts with `!` is an exception rule.
pub open spec fn rule_exception(rule: Seq<u8>) -> bool {
    rule.len() > 0 && rule[0] == 0x21
}

/// The trie path of a rule: its labels, marker stripped, TLD first.
pub open spec fn rule_path(rule: Seq<u8>) -> Seq<Seq<u8>> {
    if rule_exception(rule) {
        rlabels(rule.drop_first())
    } else {
        rlabels(rule)
    }
}

/// The rule stands in the trie: its path ends at a node carrying its type,
/// marked as exception exactly when the rule is one.
pub open spec fn rule_in(t: Seq<NodeV>, rule: Seq<u8>, typ: Type) -> bool {
    match walk(t, 0, rule_path(rule)) {
        Some(e) => {
            &&& 0 <= e < t.len()
            &&& t[e].terminal == Some(typ)
            &&& t[e].exception == rule_exception(rule)
        },
        None => false,
    }
}

impl Node {
    /// A node with no edges and no marks.
    fn empty() -> (n: Node)
        ensures
            n@.edges == Seq::<(Seq<u8>, int)>::empty(),
            n@.wild is None,
            n@.terminal is None,
            !n@.exception,
    {
        let n = Node { edges: Vec::new(), wild: None, terminal: None, exception: false };
        proof {
            assert(n@.edges =~= Seq::<(Seq<u8>, int)>::empty());
        }
        n
    }

    /// The literal edge for this label, if the node has one.
    fn lit(&self, lab: &[u8]) -> (r: Option<usize>)
        ensures
            match r {
                Some(c) => edge_lookup(self@.edges, lab@) == Some(c as int),
                None => edge_lookup(self@.edges, lab@) is None,
            },
    {
        let n = self.edges.len();
        let mut i: usize = 0;
        proof {
            assert(self@.edges.skip(0) =~= self@.edges);
        }
        while i < n
            invariant
                n == self.edges@.len(),
                0 <= i <= n,
                edge_lookup(self@.edges, lab@) == edge_lookup(self@.edges.skip(i as int), lab@),
            decreases n - i,
        {
            proof {
                assert(self@.edges[i as int] == (
                    self.edges@[i as int].0@,
                    self.edges@[i as int].1 as int,
                ));
            }
            if crate::bytes::bytes_eq(self.edges[i].0.as_slice(), lab) {
                proof {
                    assert(self@.edges.skip(i as int)[0] == self@.edges[i as int]);
                }
                return Some(self.edges[i].1);
            }
            proof {
                assert(self@.edges.skip(i as int)[0] == self@.edges[i as int]);
                assert(self@.edges.skip(i as int).drop_first() =~= self@.edges.skip(i + 1));
            }
            i += 1;
        }
        proof {
            assert(self@.edges.skip(n as int) =~= Seq::empty());
        }
        None
    }

    /// The child a lookup takes for this input label, literal edges first.
    fn child(&self, lab: &[u8]) -> (r: Option<usize>)
        ensures
            match r {
                Some(c) => child_of(self@, lab@) == Some(c as int),
                None => child_of(self@, lab@) is None,
            },
    {
        match self.lit(lab) {
            Some(c) => Some(c),
            None => match self.wild {
                Some(w) => Some(w),
                None => None,
            },
        }
    }
}

impl List {
    /// The structural invariant of the arena.
    pub open spec fn wf(&self) -> bool {
        trie_wf(self@)
    }

    /// Run the lookup engine over the input's labels, TLD first.
    pub fn find(&self, labels: &Vec<&[u8]>) -> (r: Info)
        requires
            self.wf(),
        ensures
            r@ == spec_find(self@, labels.deep_view()),
            r.len <= labels@.len(),
    {
        let ghost labs = labels.deep_view();
        let mut cur: usize = 0;
        let mut depth: usize = 0;
        let mut best = Info { len: 0, typ: None };
        let n = labels.len();
        proof {
            assert(labs.len() == labels@.len());
        }
        while depth < n
            invariant
                self.wf(),
                labs == labels.deep_view(),
                labs.len() == n == labels@.len(),
                0 <= depth <= n,
                0 <= cur < self@.len(),
                best.len <= depth,
                spec_find(self@, labs) == lookup_from(self@, cur as int, labs, depth as int, best@),
            decreases n - depth,
        {
            let lab: &[u8] = labels[depth];
            proof {
                assert(labs[depth as int] == lab@);
            }
            match self.nodes[cur].child(lab) {
                None => {
                    return best;
                },
                Some(c) => {
                    proof {
                        assert(node_wf(self@, cur as int));
                        assert(child_of(self@[cur as int], lab@) == Some(c as int));
                        if edge_lookup(self@[cur as int].edges, lab@) is Some {
                            lemma_edge_lookup_in_range(self@, cur as int, lab@);
                        }
                    }
                    if self.nodes[c].exception {
                        return Info { len: depth, typ: self.nodes[c].terminal };
                    }
                    if let Some(t) = self.nodes[c].terminal {
                        best = Info { len: depth + 1, typ: Some(t) };
                    }
                    cur = c;
                    depth += 1;
                },
            }
        }
        best
    }

    /// Insert one rule, given as its text: labels are split on dots and
    /// consumed TLD first, a leading `!` marks an exception, and a lone `*`
    /// label follows the wildcard edge.
    fn insert(&mut self, rule: &[u8], typ: Type) -> (r: Result<(), BuildError>)
        requires
            old(self).wf(),
        ensures
            final(self).wf(),
            old(self)@.len() <= final(self)@.len(),
            shape_extends(old(self)@, final(self)@),
            forall|p: Seq<Seq<u8>>|
                walk(old(self)@, 0, p) is Some ==> walk(final(self)@, 0, p) == walk(
                    old(self)@,
                    0,
                    p,
                ),
            match r {
                Ok(_) => {
                    &&& rule_in(final(self)@, rule@, typ)
                    &&& ({
                        let e = walk(final(self)@, 0, rule_path(rule@))->0;
                        forall|i: int|
                            0 <= i < final(self)@.len() && i != e ==> marks(final(self)@, i) == (
                            if i < old(self)@.len() {
                                marks(old(self)@, i)
                            } else {
                                (None::<Type>, false)
                            })
                    })
                },
                Err(e) => {
                    &&& *final(self) == *old(self)
                    &&& (e == BuildError::RootException <==> rule_exception(rule@) && rule_path(
                        rule@,
                    ).len() == 1)
                    &&& (e == BuildError::RuleConflict ==> (walk(old(self)@, 0, rule_path(rule@))
                        matches Some(m) && marks(old(self)@, m).0 is Some && marks(old(self)@, m)
                        != (Some(typ), rule_exception(rule@))))
                    &&& e != BuildError::EmptyList
                },
            },
            (r is Err) <==> ((rule_exception(rule@) && rule_path(rule@).len() == 1) || (walk(
                old(self)@,
                0,
                rule_path(rule@),
            ) matches Some(m) && marks(old(self)@, m).0 is Some && marks(old(self)@, m) != (
            Some(typ),
            rule_exception(rule@),
            ))),
    {
        let ghost path = rule_path(rule@);
        let exception = rule.len() > 0 && rule[0] == 0x21;
        let text: &[u8] = if exception {
            vstd::slice::slice_subrange(rule, 1, rule.len())
        } else {
            rule
        };
        proof {
            if exception {
                assert(text@ =~= rule@.drop_first());
            }
            assert(exception == rule_exception(rule@));
            assert(rlabels(text@) == path);
        }
        let labels = rsplit_bytes(text);
        proof {
            assert(labels.deep_view() == path);
            assert(labels@.len() == path.len());
            assert(path.len() >= 1);
        }
        if exception && labels.len() == 1 {
            return Err(BuildError::RootException);
        }
        let n_labels = labels.len();
        let mut cur: usize = 0;
        let mut i: usize = 0;
        let mut created = false;
        proof {
            assert(path.take(0) =~= Seq::<Seq<u8>>::empty());
        }
        while i < n_labels
            invariant
                self.wf(),
                old(self).wf(),
                n_labels == labels@.len() == path.len(),
                labels.deep_view() == path,
                0 <= i <= n_labels,
                0 <= cur < self@.len(),
                old(self)@.len() <= self@.len(),
                shape_extends(old(self)@, self@),
                walk(self@, 0, path.take(i as int)) == Some(cur as int),
                forall|j: int|
                    0 <= j < self@.len() ==> marks(self@, j) == (if j < old(self)@.len() {
                        marks(old(self)@, j)
                    } else {
                        (None::<Type>, false)
                    }),
                !created ==> self == old(self),
                created ==> cur >= old(self)@.len(),
                created ==> walk(old(self)@, 0, path) is None,
                created ==> self@[cur as int].edges.len() == 0 && self@[cur as int].wild is None,
            decreases n_labels - i,
        {
            let lab: &[u8] = labels[i];
            proof {
                assert(path[i as int] =~= lab@);
            }
            let wild = lab.len() == 1 && lab[0] == WILD;
            proof {
                if wild {
                    assert(lab@ =~= seq![WILD]);
                } else if is_wild(lab@) {
                    assert(lab@ == seq![WILD]);
                    assert(lab@.len() == 1 && lab@[0] == WILD);
                }
                assert(wild == is_wild(lab@));
            }
            proof {
                assert(self@[cur as int] == self.nodes@[cur as int]@);
            }
            let existing: Option<usize> = if wild {
                self.nodes[cur].wild
            } else {
                self.nodes[cur].lit(lab)
            };
            match existing {
                Some(c) => {
                    proof {
                        assert(insert_child(self@[cur as int], lab@) == Some(c as int));
                        assert(created ==> false);
                        assert(node_wf(self@, cur as int));
                        if !wild {
                            lemma_edge_lookup_in_range(self@, cur as int, lab@);
                        }
                        lemma_step_take(self@, path, i as int, cur as int, c as int);
                    }
                    cur = c;
                    i += 1;
                },
                None => {
                    proof {
                        assert(insert_child(self@[cur as int], lab@) is None);
                        if !created {
                            lemma_step_take_none(self@, path, i as int, cur as int);
                        }
                    }
                    let idx = self.nodes.len();
                    let ghost t_a = self@;
                    self.nodes.push(Node::empty());
                    let ghost t_b = self@;
                    proof {
                        assert(t_b.len() == t_a.len() + 1);
                        assert forall|j: int| 0 <= j < t_a.len() implies t_b[j] == t_a[j] by {
                            assert(t_b[j] == self.nodes@[j]@);
                        }
                        assert(t_b[t_a.len() as int] == self.nodes@[t_a.len() as int]@);
                        assert(t_b[t_a.len() as int].edges =~= Seq::<(Seq<u8>, int)>::empty());
                        lemma_push_preserves(t_a, t_b);
                    }
                    if wild {
                        self.nodes[cur].wild = Some(idx);
                    } else {
                        let key = vstd::slice::slice_to_vec(lab);
                        self.nodes[cur].edges.push((key, idx));
                    }
                    let ghost t_c = self@;
                    proof {
                        assert(t_c.len() == t_b.len());
                        assert forall|j: int| 0 <= j < t_b.len() && j != cur implies t_c[j]
                            == t_b[j] by {
                            assert(t_c[j] == self.nodes@[j]@);
                        }
                        assert(t_c[cur as int] == self.nodes@[cur as int]@);
                        if wild {
                            assert(t_c[cur as int].wild == Some(idx as int));
                            assert(t_c[cur as int].edges == t_b[cur as int].edges);
                        } else {
                            assert(t_c[cur as int].edges =~= t_b[cur as int].edges.push(
                                (lab@, idx as int),
                            ));
                            assert(t_c[cur as int].wild == t_b[cur as int].wild);
                        }
                        assert(t_c[cur as int].terminal == t_b[cur as int].terminal);
                        assert(t_c[cur as int].exception == t_b[cur as int].exception);
                        lemma_attach(t_b, t_c, cur as int, idx as int, lab@, wild);
                        // the new edge completes one more step of the path
                        assert(walk(t_a, 0, path.take(i as int)) == Some(cur as int));
                        lemma_extends_trans(t_a, t_b, t_c);
                        lemma_walk_extends(t_a, t_c, 0, path.take(i as int));
                        assert(insert_child(t_c[cur as int], lab@) == Some(idx as int));
                        lemma_step_take(t_c, path, i as int, cur as int, idx as int);
                        lemma_extends_trans(old(self)@, t_a, t_c);
                        assert(marks(t_c, idx as int) == (None::<Type>, false));
                        assert forall|j: int| 0 <= j < t_c.len() implies marks(t_c, j) == (
                        if j < old(self)@.len() {
                            marks(old(self)@, j)
                        } else {
                            (None::<Type>, false)
                        }) by {
                            if j < t_a.len() {
                                assert(marks(t_c, j) == marks(t_b, j));
                                assert(marks(t_b, j) == marks(t_a, j));
                            }
                        }
                        assert(t_c[idx as int] == t_b[idx as int]);
                    }
                    created = true;
                    cur = idx;
                    i += 1;
                },
            }
        }
        proof {
            assert(path.take(n_labels as int) =~= path);
        }
        if !created {
            proof {
                assert(self@[cur as int] == self.nodes@[cur as int]@);
            }
            let conflict = match self.nodes[cur].terminal {
                Some(t) => !(t == typ && self.nodes[cur].exception == exception),
                None => false,
            };
            if conflict {
                proof {
                    assert(walk(old(self)@, 0, path) == Some(cur as int));
                    assert(marks(old(self)@, cur as int).0 is Some);
                    assert(marks(old(self)@, cur as int) != (Some(typ), rule_exception(rule@)));
                }
                return Err(BuildError::RuleConflict);
            }
        }
        let ghost t_d = self@;
        proof {
            if !created {
                assert(walk(old(self)@, 0, path) == Some(cur as int));
                assert(marks(old(self)@, cur as int).0 is None || marks(old(self)@, cur as int)
                    == (Some(typ), rule_exception(rule@)));
            }
        }
        self.nodes[cur].terminal = Some(typ);
        let ghost t_e = self@;
        proof {
            assert forall|j: int| 0 <= j < t_d.len() && j != cur as int implies t_e[j] == t_d[j] by {
                assert(t_e[j] == self.nodes@[j]@);
            }
            assert(t_e[cur as int] == self.nodes@[cur as int]@);
            assert(t_e[cur as int].edges == t_d[cur as int].edges);
            assert(t_e[cur as int].wild == t_d[cur as int].wild);
            assert(t_e[cur as int].terminal == Some(typ));
            lemma_remark(t_d, t_e, cur as int);
        }
        self.nodes[cur].exception = exception;
        let ghost t_f = self@;
        proof {
            assert forall|j: int| 0 <= j < t_e.len() && j != cur as int implies t_f[j] == t_e[j] by {
                assert(t_f[j] == self.nodes@[j]@);
            }
            assert(t_f[cur as int] == self.nodes@[cur as int]@);
            assert(t_f[cur as int].edges == t_e[cur as int].edges);
            assert(t_f[cur as int].wild == t_e[cur as int].wild);
            assert(t_f[cur as int].terminal == Some(typ));
            assert(t_f[cur as int].exception == exception);
            lemma_remark(t_e, t_f, cur as int);
            lemma_extends_trans(t_d, t_e, t_f);
            lemma_walk_extends(t_d, t_f, 0, path);
            assert(walk(t_f, 0, path) == Some(cur as int));
            lemma_extends_trans(old(self)@, t_d, t_f);
            assert forall|p: Seq<Seq<u8>>| walk(old(self)@, 0, p) is Some implies walk(t_f, 0, p)
                == walk(old(self)@, 0, p) by {
                lemma_walk_extends(old(self)@, t_f, 0, p);
            }
            assert(rule_in(t_f, rule@, typ));
            assert forall|j: int| 0 <= j < t_f.len() && j != cur as int implies marks(t_f, j) == (
            if j < old(self)@.len() {
                marks(old(self)@, j)
            } else {
                (None::<Type>, false)
            }) by {
                assert(marks(t_f, j) == marks(t_d, j));
            }
        }
        Ok(())
    }

    /// Compile a rule set. An empty set, a lone exception rule, and two
    /// rules that spell the same path but disagree are the construction
    /// errors; the first offending rule decides which one is reported.
    pub fn from_rules(rules: &Vec<(Vec<u8>, Type)>) -> (r: Result<List, BuildError>)
        ensures
            match r {
                Ok(l) => {
                    &&& build_err(rules_view(rules@)) is None
                    &&& l.wf()
                    &&& forall|k: int|
                        0 <= k < rules@.len() ==> rule_in(
                            l@,
                            (#[trigger] rules@[k]).0@,
                            rules@[k].1,
                        )
                    &&& forall|i: int|
                        0 <= i < l@.len() && (#[trigger] l@[i]).exception ==> has_exception_rule(
                            rules_view(rules@),
                        )
                },
                Err(e) => build_err(rules_view(rules@)) == Some(e),
            },
    {
        let ghost rv = rules_view(rules@);
        if rules.len() == 0 {
            return Err(BuildError::EmptyList);
        }
        let mut nodes: Vec<Node> = Vec::new();
        nodes.push(Node::empty());
        let list0 = List { nodes };
        proof {
            assert(list0@.len() == 1);
            assert(list0@[0] == list0.nodes@[0]@);
            assert(trie_wf(list0@)) by {
                assert(node_wf(list0@, 0));
                assert forall|i: int, e: int| lit_edge(list0@, i, e) implies false by {
                    assert(i == 0);
                }
            }
        }
        let mut list = list0;
        let n = rules.len();
        let mut k: usize = 0;
        proof {
            assert(forall|j: int| 0 <= j < rv.len() ==> (#[trigger] rv[j]) == (
                rules@[j].0@,
                rules@[j].1,
            ));
        }
        while k < n
            invariant
                n == rules@.len(),
                rv == rules_view(rules@),
                forall|j: int|
                    0 <= j < rv.len() ==> (#[trigger] rv[j]) == (rules@[j].0@, rules@[j].1),
                0 <= k <= n,
                list.wf(),
                build_err_upto(rv, k as int) is None,
                forall|j: int|
                    0 <= j < k ==> rule_in(list@, (#[trigger] rules@[j]).0@, rules@[j].1),
                forall|i: int|
                    0 <= i < list@.len() && (#[trigger] list@[i]).exception ==> has_exception_rule(
                        rv,
                    ),
                origin(list@, rv, k as int),
            decreases n - k,
        {
            let entry = &rules[k];
            let typ = entry.1;
            let ghost pre = list@;
            let ghost path_k = rule_path(rv[k as int].0);
            let ghost exc_k = rule_exception(rv[k as int].0);
            match list.insert(entry.0.as_slice(), typ) {
                Ok(_) => {
                    proof {
                        let e_k = walk(list@, 0, path_k)->0;
                        // no earlier rule conflicts with this one
                        assert forall|j: int| 0 <= j < k implies !rule_conflicts(
                            #[trigger] rv[j],
                            rv[k as int],
                        ) by {
                            if rule_conflicts(rv[j], rv[k as int]) {
                                assert(rule_in(pre, rules@[j].0@, rules@[j].1));
                                let m = walk(pre, 0, rule_path(rv[j].0))->0;
                                assert(walk(pre, 0, path_k) == Some(m));
                                assert(marks(pre, m).0 is Some);
                            }
                        }
                        assert(rule_err(rv, k as int) is None);
                        assert(build_err_upto(rv, k as int + 1) is None);
                        // earlier rules keep their place
                        assert forall|j: int| 0 <= j < k + 1 implies rule_in(
                            list@,
                            (#[trigger] rules@[j]).0@,
                            rules@[j].1,
                        ) by {
                            if j < k {
                                assert(rule_in(pre, rules@[j].0@, rules@[j].1));
                                let pj = rule_path(rules@[j].0@);
                                let e_j = walk(pre, 0, pj)->0;
                                assert(walk(list@, 0, pj) == Some(e_j));
                                if e_j == e_k {
                                    lemma_walk_inj(list@, pj, path_k);
                                    assert(!rule_conflicts(rv[j], rv[k as int]));
                                    assert(marks(list@, e_k) == (Some(typ), exc_k));
                                } else {
                                    assert(marks(list@, e_j) == marks(pre, e_j));
                                }
                            } else {
                                assert(rule_in(list@, rules@[k as int].0@, typ));
                            }
                        }
                        // the origin of every mark
                        assert(origin(list@, rv, k as int + 1)) by {
                            assert forall|i: int|
                                0 <= i < list@.len() && (#[trigger] list@[i]).terminal
                                    is Some implies exists|j: int|
                                0 <= j < k + 1 && walk(list@, 0, rule_path((#[trigger] rv[j]).0))
                                    == Some(i) && marks(list@, i) == (
                                Some(rv[j].1),
                                rule_exception(rv[j].0),
                                ) by {
                                if i == e_k {
                                    assert(walk(list@, 0, rule_path(rv[k as int].0)) == Some(i)
                                        && marks(list@, i) == (
                                    Some(rv[k as int].1),
                                    rule_exception(rv[k as int].0),
                                    ));
                                } else if i < pre.len() {
                                    assert(marks(list@, i) == marks(pre, i));
                                    assert(pre[i].terminal is Some);
                                    let j = choose|j: int|
                                        0 <= j < k && walk(pre, 0, rule_path((#[trigger] rv[j]).0))
                                            == Some(i) && marks(pre, i) == (
                                        Some(rv[j].1),
                                        rule_exception(rv[j].0),
                                        );
                                    assert(walk(list@, 0, rule_path(rv[j].0)) == Some(i)
                                        && marks(list@, i) == (
                                    Some(rv[j].1),
                                    rule_exception(rv[j].0),
                                    ));
                                } else {
                                    assert(marks(list@, i) == (None::<Type>, false));
                                }
                            }
                        }
                        // exceptions only out of exception rules
                        assert forall|i: int|
                            0 <= i < list@.len() && (#[trigger] list@[i]).exception implies has_exception_rule(
                            rv,
                        ) by {
                            if i == e_k {
                                if exc_k {
                                    assert(rule_exception(rv[k as int].0));
                                } else {
                                    assert(marks(list@, i) == (Some(typ), false));
                                }
                            } else if i < pre.len() {
                                assert(marks(list@, i) == marks(pre, i));
                                assert(pre[i].exception);
                            } else {
                                assert(marks(list@, i) == (None::<Type>, false));
                            }
                        }
                    }
                    k += 1;
                },
                Err(e) => {
                    proof {
                        if e == BuildError::RootException {
                            assert(rule_err(rv, k as int) == Some(BuildError::RootException));
                        } else {
                            assert(e == BuildError::RuleConflict);
                            assert(walk(pre, 0, path_k) is Some);
                            lemma_walk_range(pre, 0, path_k);
                            let m = walk(pre, 0, path_k)->0;
                            assert(0 <= m < pre.len());
                            assert(pre[m].terminal is Some);
                            assert(origin(pre, rv, k as int));
                            assert(exists|j: int|
                                0 <= j < k && walk(pre, 0, rule_path((#[trigger] rv[j]).0)) == Some(
                                    m,
                                ) && marks(pre, m) == (Some(rv[j].1), rule_exception(rv[j].0)));
                            let j = choose|j: int|
                                0 <= j < k && walk(pre, 0, rule_path((#[trigger] rv[j]).0)) == Some(
                                    m,
                                ) && marks(pre, m) == (Some(rv[j].1), rule_exception(rv[j].0));
                            lemma_walk_inj(pre, rule_path(rv[j].0), path_k);
                            assert(rule_conflicts(rv[j], rv[k as int]));
                            assert(rule_err(rv, k as int) == Some(BuildError::RuleConflict));
                        }
                        lemma_build_err_from(rv, k as int, rv.len() as int);
                    }
                    return Err(e);
                },
            }
        }
        Ok(list)
    }
}

/// The rules as mathematical values: rule text and provenance.
pub open spec fn rules_view(rules: Seq<(Vec<u8>, Type)>) -> Seq<(Seq<u8>, Type)> {
    rules.map_values(|r: (Vec<u8>, Type)| (r.0@, r.1))
}

/// Two rules conflict when they spell the same trie path but disagree on
/// type or exception marker.
pub open spec fn rule_conflicts(a: (Seq<u8>, Type), b: (Seq<u8>, Type)) -> bool {
    &&& rule_path(a.0) == rule_path(b.0)
    &&& !(a.1 == b.1 && rule_exception(a.0) == rule_exception(b.0))
}

/// The construction error that rule `k` runs into, given the rules before it.
pub open spec fn rule_err(rules: Seq<(Seq<u8>, Type)>, k: int) -> Option<BuildError> {
    if rule_exception(rules[k].0) && rule_path(rules[k].0).len() == 1 {
        Some(BuildError::RootException)
    } else if exists|j: int| 0 <= j < k && rule_conflicts(#[trigger] rules[j], rules[k]) {
        Some(BuildError::RuleConflict)
    } else {
        None
    }
}

pub open spec fn build_err_upto(rules: Seq<(Seq<u8>, Type)>, k: int) -> Option<BuildError>
    decreases k,
{
    if k <= 0 {
        None
    } else if build_err_upto(rules, k - 1) is Some {
        build_err_upto(rules, k - 1)
    } else {
        rule_err(rules, k - 1)
    }
}

/// Whether building from these rules fails, and how: an empty set is
/// rejected outright, otherwise the first offending rule decides.
pub open spec fn build_err(rules: Seq<(Seq<u8>, Type)>) -> Option<BuildError> {
    if rules.len() == 0 {
        Some(BuildError::EmptyList)
    } else {
        build_err_upto(rules, rules.len() as int)
    }
}

pub open spec fn has_exception_rule(rules: Seq<(Seq<u8>, Type)>) -> bool {
    exists|k: int| 0 <= k < rules.len() && rule_exception((#[trigger] rules[k]).0)
}

/// Every marked node is accounted for by one of the first `k` rules.
spec fn origin(t: Seq<NodeV>, rs: Seq<(Seq<u8>, Type)>, k: int) -> bool {
    forall|i: int|
        0 <= i < t.len() && (#[trigger] t[i]).terminal is Some ==> exists|j: int|
            0 <= j < k && walk(t, 0, rule_path((#[trigger] rs[j]).0)) == Some(i) && marks(t, i) == (
            Some(rs[j].1),
            rule_exception(rs[j].0),
            )
}

/// The first rule to offend decides the error for every larger prefix.
proof fn lemma_build_err_from(rs: Seq<(Seq<u8>, Type)>, k: int, m: int)
    requires
        0 <= k < m,
        build_err_upto(rs, k) is None,
        rule_err(rs, k) is Some,
    ensures
        build_err_upto(rs, m) == rule_err(rs, k),
    decreases m,
{
    if m == k + 1 {
    } else {
        lemma_build_err_from(rs, k, m - 1);
    }
}

/// A lookup never commits more labels than it has consumed, nor more than
/// the input has.
pub proof fn lemma_lookup_len(t: Seq<NodeV>, n: int, labs: Seq<Seq<u8>>, depth: int, best: InfoV)
    requires
        0 <= best.len <= depth,
        best.len <= labs.len(),
    ensures
        0 <= lookup_from(t, n, labs, depth, best).len <= labs.len(),
    decreases labs.len() - depth,
{
    if depth < 0 || depth >= labs.len() {
    } else {
        match child_of(t[n], labs[depth]) {
            None => {},
            Some(c) => {
                if t[c].exception {
                } else {
                    let best2 = if t[c].terminal is Some {
                        InfoV { len: depth + 1, typ: t[c].terminal }
                    } else {
                        best
                    };
                    lemma_lookup_len(t, c, labs, depth + 1, best2);
                }
            },
        }
    }
}

/// Committed matches never shrink: a lookup returns at least its running
/// best.
pub proof fn lemma_lookup_monotone(t: Seq<NodeV>, n: int, labs: Seq<Seq<u8>>, depth: int, best: InfoV)
    requires
        0 <= best.len <= depth,
    ensures
        lookup_from(t, n, labs, depth, best).len >= best.len,
    decreases labs.len() - depth,
{
    if depth < 0 || depth >= labs.len() {
    } else {
        match child_of(t[n], labs[depth]) {
            None => {},
            Some(c) => {
                if t[c].exception {
                } else {
                    let best2 = if t[c].terminal is Some {
                        InfoV { len: depth + 1, typ: t[c].terminal }
                    } else {
                        best
                    };
                    lemma_lookup_monotone(t, c, labs, depth + 1, best2);
                }
            },
        }
    }
}

/// The descent follows a literal path to its terminal: since a literal edge
/// always beats the wildcard edge and nothing stops the walk in a trie
/// without exception nodes, the committed match reaches the path's end.
proof fn lemma_lookup_follows(
    t: Seq<NodeV>,
    n: int,
    path: Seq<Seq<u8>>,
    labs: Seq<Seq<u8>>,
    depth: int,
    best: InfoV,
)
    requires
        trie_wf(t),
        0 <= n < t.len(),
        path.len() >= 1,
        walk(t, n, path) is Some,
        t[walk(t, n, path)->0].terminal is Some,
        forall|i: int| 0 <= i < path.len() ==> !is_wild(#[trigger] path[i]),
        forall|i: int| 0 <= i < t.len() ==> !(#[trigger] t[i]).exception,
        0 <= depth,
        depth + path.len() <= labs.len(),
        forall|i: int| 0 <= i < path.len() ==> labs[depth + i] == #[trigger] path[i],
        0 <= best.len <= depth,
    ensures
        lookup_from(t, n, labs, depth, best).len >= depth + path.len(),
    decreases path.len(),
{
    assert(labs[depth] == path[0]);
    let c = insert_child(t[n], path[0])->0;
    assert(edge_lookup(t[n].edges, path[0]) == Some(c));
    assert(child_of(t[n], labs[depth]) == Some(c));
    lemma_edge_lookup_in_range(t, n, path[0]);
    assert(!t[c].exception);
    let best2 = if t[c].terminal is Some {
        InfoV { len: depth + 1, typ: t[c].terminal }
    } else {
        best
    };
    assert(lookup_from(t, n, labs, depth, best) == lookup_from(t, c, labs, depth + 1, best2));
    if path.len() == 1 {
        assert(path.drop_first() =~= Seq::<Seq<u8>>::empty());
        assert(walk(t, c, path.drop_first()) == Some(c));
        assert(t[c].terminal is Some);
        lemma_lookup_monotone(t, c, labs, depth + 1, best2);
    } else {
        assert forall|i: int| 0 <= i < path.drop_first().len() implies labs[depth + 1 + i] == (
        #[trigger] path.drop_first()[i]) by {
            assert(path.drop_first()[i] == path[i + 1]);
        }
        lemma_lookup_follows(t, c, path.drop_first(), labs, depth + 1, best2);
    }
}

/// Longest-match law for literal rules. In a trie without exception nodes,
/// a rule made only of literal labels that matches the input — its path is
/// a prefix of the input's labels — never goes unrewarded: the lookup's
/// committed length is at least the rule's own label count.
pub proof fn lemma_literal_rule_wins(t: Seq<NodeV>, rule: Seq<u8>, typ: Type, labs: Seq<Seq<u8>>)
    requires
        trie_wf(t),
        rule_in(t, rule, typ),
        forall|i: int|
            0 <= i < rule_path(rule).len() ==> !is_wild(#[trigger] rule_path(rule)[i]),
        forall|i: int| 0 <= i < t.len() ==> !(#[trigger] t[i]).exception,
        rule_path(rule).len() <= labs.len(),
        forall|i: int| 0 <= i < rule_path(rule).len() ==> labs[i] == #[trigger] rule_path(rule)[i],
    ensures
        spec_find(t, labs).len >= rule_path(rule).len(),
{
    crate::bytes::lemma_last_dot(if rule_exception(rule) {
        rule.drop_first()
    } else {
        rule
    });
    assert(rule_path(rule).len() >= 1);
    lemma_lookup_follows(t, 0, rule_path(rule), labs, 0, InfoV { len: 0, typ: None });
}

impl List {
    /// Compile a parsed rule set into a list, rule texts taken as bytes.
    pub fn from_list(rules: &crate::lexer::List) -> (r: Result<List, BuildError>)
        ensures
            match r {
                Ok(l) => {
                    &&& build_err(crate::lexer::byte_rules(rules@)) is None
                    &&& l.wf()
                    &&& forall|k: int|
                        0 <= k < crate::lexer::byte_rules(rules@).len() ==> rule_in(
                            l@,
                            (#[trigger] crate::lexer::byte_rules(rules@)[k]).0,
                            crate::lexer::byte_rules(rules@)[k].1,
                        )
                    &&& forall|i: int|
                        0 <= i < l@.len() && (#[trigger] l@[i]).exception ==> has_exception_rule(
                            crate::lexer::byte_rules(rules@),
                        )
                },
                Err(e) => crate::lexer::byte_rules(rules@).len() == 0 && e == BuildError::EmptyList
                    || build_err(crate::lexer::byte_rules(rules@)) == Some(e),
            },
            r is Err <==> build_err(crate::lexer::byte_rules(rules@)) is Some,
    {
        let rv = rules.to_rules();
        proof {
            assert(rules_view(rv@) =~= crate::lexer::byte_rules(rules@));
        }
        Self::from_rules(&rv)
    }
}

/// A literal edge found by lookup stays inside the arena.
proof fn lemma_edge_lookup_in_range(t: Seq<NodeV>, n: int, lab: Seq<u8>)
    requires
        trie_wf(t),
        0 <= n < t.len(),
        edge_lookup(t[n].edges, lab) is Some,
    ensures
        n < edge_lookup(t[n].edges, lab)->0 < t.len(),
{
    assert(node_wf(t, n));
    lemma_edge_lookup_member(t[n].edges, lab);
}

/// A found edge is a member of the list, key and target alike.
proof fn lemma_edge_lookup_member(edges: Seq<(Seq<u8>, int)>, lab: Seq<u8>)
    requires
        edge_lookup(edges, lab) is Some,
    ensures
        exists|e: int|
            0 <= e < edges.len() && (#[trigger] edges[e]).0 == lab && edges[e].1 == edge_lookup(
                edges,
                lab,
            )->0,
    decreases edges.len(),
{
    if edges[0].0 == lab {
        assert((edges[0]).0 == lab && edges[0].1 == edge_lookup(edges, lab)->0);
    } else {
        lemma_edge_lookup_member(edges.drop_first(), lab);
        let e = choose|e: int|
            0 <= e < edges.drop_first().len() && (#[trigger] edges.drop_first()[e]).0 == lab
                && edges.drop_first()[e].1 == edge_lookup(edges.drop_first(), lab)->0;
        assert((edges[e + 1]).0 == lab && edges[e + 1].1 == edge_lookup(edges, lab)->0);
    }
}

/// First-match lookup does not change when edges are appended.
proof fn lemma_edge_lookup_prefix(es: Seq<(Seq<u8>, int)>, es2: Seq<(Seq<u8>, int)>, lab: Seq<u8>)
    requires
        es.is_prefix_of(es2),
        edge_lookup(es, lab) is Some,
    ensures
        edge_lookup(es2, lab) == edge_lookup(es, lab),
    decreases es.len(),
{
    assert(es2[0] == es[0]);
    if es[0].0 == lab {
    } else {
        assert(es.drop_first().is_prefix_of(es2.drop_first())) by {
            assert(es.drop_first() =~= es2.drop_first().subrange(0, es.len() - 1));
        }
        lemma_edge_lookup_prefix(es.drop_first(), es2.drop_first(), lab);
    }
}

/// Appending an edge to a node that lacked one for this key makes the new
/// edge the one that lookup finds.
proof fn lemma_edge_lookup_append(es: Seq<(Seq<u8>, int)>, lab: Seq<u8>, e: (Seq<u8>, int))
    requires
        edge_lookup(es, lab) is None,
    ensures
        edge_lookup(es.push(e), lab) == if e.0 == lab {
            Some(e.1)
        } else {
            None::<int>
        },
    decreases es.len(),
{
    if es.len() == 0 {
        assert(es.push(e)[0] == e);
        assert(es.push(e).drop_first() =~= Seq::<(Seq<u8>, int)>::empty());
        assert(edge_lookup(Seq::<(Seq<u8>, int)>::empty(), lab) is None);
        if e.0 == lab {
            assert(edge_lookup(es.push(e), lab) == Some(e.1));
        } else {
            assert(edge_lookup(es.push(e), lab) is None);
        }
    } else {
        assert(es.push(e)[0] == es[0]);
        assert(es[0].0 != lab);
        lemma_edge_lookup_append(es.drop_first(), lab, e);
        assert(es.push(e).drop_first() =~= es.drop_first().push(e));
    }
}

/// No edge points at node `v`.
pub open spec fn unreferenced(t: Seq<NodeV>, v: int) -> bool {
    &&& forall|i: int, e: int| lit_edge(t, i, e) ==> (#[trigger] t[i].edges[e]).1 != v
    &&& forall|i: int| 0 <= i < t.len() ==> (#[trigger] t[i].wild) != Some(v)
}

/// One walk step extends a walk over a prefix of the path.
proof fn lemma_step_take(t: Seq<NodeV>, path: Seq<Seq<u8>>, i: int, cur: int, c: int)
    requires
        0 <= i < path.len(),
        walk(t, 0, path.take(i)) == Some(cur),
        insert_child(t[cur], path[i]) == Some(c),
    ensures
        walk(t, 0, path.take(i + 1)) == Some(c),
{
    lemma_walk_split(t, 0, path.take(i + 1), i);
    assert(path.take(i + 1).take(i) =~= path.take(i));
    let s1 = seq![path[i]];
    assert(path.take(i + 1).skip(i) =~= s1);
    assert(s1.len() == 1 && s1[0] == path[i]);
    assert(s1.drop_first() =~= Seq::<Seq<u8>>::empty());
    assert(walk(t, c, s1.drop_first()) == Some(c));
    assert(walk(t, cur, s1) == Some(c));
}

/// A missing edge midway dooms the whole walk.
proof fn lemma_step_take_none(t: Seq<NodeV>, path: Seq<Seq<u8>>, i: int, cur: int)
    requires
        0 <= i < path.len(),
        walk(t, 0, path.take(i)) == Some(cur),
        insert_child(t[cur], path[i]) is None,
    ensures
        walk(t, 0, path) is None,
{
    lemma_walk_split(t, 0, path.take(i + 1), i);
    assert(path.take(i + 1).take(i) =~= path.take(i));
    let s1 = path.take(i + 1).skip(i);
    assert(s1 =~= seq![path[i]]);
    assert(s1[0] == path[i]);
    assert(walk(t, cur, s1) is None);
    lemma_walk_split(t, 0, path, i + 1);
}

/// Appending a bare node changes no existing structure.
proof fn lemma_push_preserves(t: Seq<NodeV>, t2: Seq<NodeV>)
    requires
        trie_wf(t),
        t2.len() == t.len() + 1,
        forall|i: int| 0 <= i < t.len() ==> t2[i] == t[i],
        t2[t.len() as int].edges.len() == 0,
        t2[t.len() as int].wild is None,
    ensures
        trie_wf(t2),
        shape_extends(t, t2),
        unreferenced(t2, t.len() as int),
    decreases t.len(),
{
    assert forall|i: int| 0 <= i < t2.len() implies node_wf(t2, i) by {
        if i < t.len() {
            assert(node_wf(t, i));
        }
    }
    assert forall|i: int, e: int| lit_edge(t2, i, e) implies !is_wild(
        (#[trigger] t2[i].edges[e]).0,
    ) && t2[i].edges[e].1 != t.len() by {
        assert(i < t.len());
        assert(t2[i] == t[i]);
        assert(node_wf(t, i));
        assert(lit_edge(t, i, e));
    }
    assert forall|i: int| 0 <= i < t2.len() implies (#[trigger] t2[i].wild) != Some(
        t.len() as int,
    ) by {
        if i < t.len() {
            assert(node_wf(t, i));
            if t[i].wild is Some {
                assert(t[i].wild->0 < t.len());
            }
        }
    }
    assert forall|i: int| 0 <= i < t.len() implies t[i].edges.is_prefix_of(
        (#[trigger] t2[i]).edges,
    ) by {
        assert(t[i].edges =~= t2[i].edges.subrange(0, t[i].edges.len() as int));
    }
    assert(unique_parent(t2)) by {
        assert forall|i1: int, e1: int, i2: int, e2: int|
            lit_edge(t2, i1, e1) && lit_edge(t2, i2, e2) && (#[trigger] t2[i1].edges[e1]).1 == (
            #[trigger] t2[i2].edges[e2]).1 implies i1 == i2 && e1 == e2 by {
            assert(lit_edge(t, i1, e1) && lit_edge(t, i2, e2));
        }
        assert forall|i1: int, i2: int|
            0 <= i1 < t2.len() && 0 <= i2 < t2.len() && t2[i1].wild is Some && (
            #[trigger] t2[i1].wild) == (#[trigger] t2[i2].wild) implies i1 == i2 by {
            assert(i1 < t.len());
            if i2 >= t.len() {
                assert(t2[i2].wild is None);
            }
        }
        assert forall|i1: int, e1: int, i2: int|
            lit_edge(t2, i1, e1) && 0 <= i2 < t2.len() && (#[trigger] t2[i2].wild) is Some implies (
        #[trigger] t2[i1].edges[e1]).1 != t2[i2].wild->0 by {
            assert(lit_edge(t, i1, e1));
            assert(i2 < t.len());
        }
    }
}

/// Hanging the freshly appended node under `cur` keeps the arena a tree and
/// makes the new label step lead to it.
proof fn lemma_attach(t: Seq<NodeV>, t2: Seq<NodeV>, cur: int, idx: int, lab: Seq<u8>, wild: bool)
    requires
        trie_wf(t),
        0 <= cur < idx,
        idx == t.len() - 1,
        t[idx].edges.len() == 0,
        t[idx].wild is None,
        unreferenced(t, idx),
        wild == is_wild(lab),
        insert_child(t[cur], lab) is None,
        t2.len() == t.len(),
        forall|i: int| 0 <= i < t.len() && i != cur ==> t2[i] == t[i],
        t2[cur].terminal == t[cur].terminal,
        t2[cur].exception == t[cur].exception,
        wild ==> t2[cur].edges == t[cur].edges && t2[cur].wild == Some(idx),
        !wild ==> t2[cur].edges == t[cur].edges.push((lab, idx)) && t2[cur].wild == t[cur].wild,
    ensures
        trie_wf(t2),
        shape_extends(t, t2),
        insert_child(t2[cur], lab) == Some(idx),
        forall|i: int| 0 <= i < t.len() ==> marks(t2, i) == marks(t, i),
{
    assert forall|i: int| 0 <= i < t2.len() implies node_wf(t2, i) by {
        assert(node_wf(t, i));
        if i == cur && !wild {
            assert forall|e: int| 0 <= e < t2[i].edges.len() implies i < (
            #[trigger] t2[i].edges[e]).1 < t2.len() by {
                if e < t[i].edges.len() {
                    assert(t2[i].edges[e] == t[i].edges[e]);
                } else {
                    assert(t2[i].edges[e] == (lab, idx));
                }
            }
        }
    }
    assert(no_wild_keys(t2)) by {
        assert forall|i: int, e: int| lit_edge(t2, i, e) implies !is_wild(
            (#[trigger] t2[i].edges[e]).0,
        ) by {
            if i == cur && !wild && e == t[i].edges.len() {
                assert(t2[i].edges[e] == (lab, idx));
            } else {
                assert(t2[i].edges[e] == t[i].edges[e]);
                assert(lit_edge(t, i, e));
            }
        }
    }
    // exactly one in-edge was added, and it points at a node nothing else
    // points at
    assert(unique_parent(t2)) by {
        assert forall|i1: int, e1: int, i2: int, e2: int|
            lit_edge(t2, i1, e1) && lit_edge(t2, i2, e2) && (#[trigger] t2[i1].edges[e1]).1 == (
            #[trigger] t2[i2].edges[e2]).1 implies i1 == i2 && e1 == e2 by {
            let new1 = !wild && i1 == cur && e1 == t[cur].edges.len();
            let new2 = !wild && i2 == cur && e2 == t[cur].edges.len();
            if new1 && new2 {
            } else if new1 {
                assert(t2[i2].edges[e2] == t[i2].edges[e2]);
                assert(lit_edge(t, i2, e2));
                assert(t[i2].edges[e2].1 != idx);
                assert(t2[i1].edges[e1] == (lab, idx));
            } else if new2 {
                assert(t2[i1].edges[e1] == t[i1].edges[e1]);
                assert(lit_edge(t, i1, e1));
                assert(t[i1].edges[e1].1 != idx);
                assert(t2[i2].edges[e2] == (lab, idx));
            } else {
                assert(t2[i1].edges[e1] == t[i1].edges[e1]);
                assert(t2[i2].edges[e2] == t[i2].edges[e2]);
                assert(lit_edge(t, i1, e1) && lit_edge(t, i2, e2));
            }
        }
        assert forall|i1: int, i2: int|
            0 <= i1 < t2.len() && 0 <= i2 < t2.len() && t2[i1].wild is Some && (
            #[trigger] t2[i1].wild) == (#[trigger] t2[i2].wild) implies i1 == i2 by {
            if wild && i1 == cur && i2 != cur {
                assert(t2[i2].wild == t[i2].wild);
                assert(t[i2].wild != Some(idx));
            } else if wild && i2 == cur && i1 != cur {
                assert(t2[i1].wild == t[i1].wild);
                assert(t[i1].wild != Some(idx));
            } else if !wild || (i1 != cur && i2 != cur) {
                assert(t2[i1].wild == t[i1].wild && t2[i2].wild == t[i2].wild);
            }
        }
        assert forall|i1: int, e1: int, i2: int|
            lit_edge(t2, i1, e1) && 0 <= i2 < t2.len() && (#[trigger] t2[i2].wild) is Some implies (
        #[trigger] t2[i1].edges[e1]).1 != t2[i2].wild->0 by {
            let new1 = !wild && i1 == cur && e1 == t[cur].edges.len();
            if new1 {
                assert(t2[i1].edges[e1] == (lab, idx));
                if wild {
                } else {
                    assert(t2[i2].wild == t[i2].wild);
                    assert(t[i2].wild != Some(idx));
                }
            } else {
                assert(t2[i1].edges[e1] == t[i1].edges[e1]);
                assert(lit_edge(t, i1, e1));
                if wild && i2 == cur {
                    assert(t2[i2].wild == Some(idx));
                    assert(t[i1].edges[e1].1 != idx);
                } else {
                    assert(t2[i2].wild == t[i2].wild);
                }
            }
        }
    }
    assert(shape_extends(t, t2)) by {
        assert forall|i: int| 0 <= i < t.len() implies t[i].edges.is_prefix_of(
            (#[trigger] t2[i]).edges,
        ) && (t[i].wild is Some ==> t2[i].wild == t[i].wild) by {
            if i == cur && !wild {
                assert(t[i].edges =~= t2[i].edges.subrange(0, t[i].edges.len() as int));
            } else {
                assert(t[i].edges =~= t2[i].edges.subrange(0, t[i].edges.len() as int));
            }
        }
    }
    if wild {
        assert(t2[cur].wild == Some(idx));
    } else {
        lemma_edge_lookup_append(t[cur].edges, lab, (lab, idx));
    }
}

/// Changing only the marks of nodes leaves every walk alone.
proof fn lemma_remark(t: Seq<NodeV>, t2: Seq<NodeV>, cur: int)
    requires
        trie_wf(t),
        0 <= cur < t.len(),
        t2.len() == t.len(),
        forall|i: int| 0 <= i < t.len() && i != cur ==> t2[i] == t[i],
        t2[cur].edges == t[cur].edges,
        t2[cur].wild == t[cur].wild,
    ensures
        trie_wf(t2),
        shape_extends(t, t2),
{
    assert forall|i: int| 0 <= i < t2.len() implies node_wf(t2, i) by {
        assert(node_wf(t, i));
        assert(t2[i].edges == t[i].edges && t2[i].wild == t[i].wild);
    }
    assert(no_wild_keys(t2)) by {
        assert forall|i: int, e: int| lit_edge(t2, i, e) implies !is_wild(
            (#[trigger] t2[i].edges[e]).0,
        ) by {
            assert(t2[i].edges == t[i].edges);
            assert(lit_edge(t, i, e));
        }
    }
    assert(unique_parent(t2)) by {
        assert forall|i: int| 0 <= i < t2.len() implies t2[i].edges == t[i].edges && t2[i].wild
            == t[i].wild by {}
        assert forall|i1: int, e1: int, i2: int, e2: int|
            lit_edge(t2, i1, e1) && lit_edge(t2, i2, e2) && (#[trigger] t2[i1].edges[e1]).1 == (
            #[trigger] t2[i2].edges[e2]).1 implies i1 == i2 && e1 == e2 by {
            assert(lit_edge(t, i1, e1) && lit_edge(t, i2, e2));
            assert(t2[i1].edges[e1] == t[i1].edges[e1]);
            assert(t2[i2].edges[e2] == t[i2].edges[e2]);
        }
    }
    assert forall|i: int| 0 <= i < t.len() implies t[i].edges.is_prefix_of(
        (#[trigger] t2[i]).edges,
    ) by {
        assert(t[i].edges =~= t2[i].edges.subrange(0, t[i].edges.len() as int));
    }
}

/// Growth composes.
proof fn lemma_extends_trans(a: Seq<NodeV>, b: Seq<NodeV>, c: Seq<NodeV>)
    requires
        shape_extends(a, b),
        shape_extends(b, c),
    ensures
        shape_extends(a, c),
{
    assert forall|i: int| 0 <= i < a.len() implies a[i].edges.is_prefix_of((#[trigger] c[i]).edges)
        && (a[i].wild is Some ==> c[i].wild == a[i].wild) by {
        assert(a[i].edges.is_prefix_of(b[i].edges));
        assert(b[i].edges.is_prefix_of(c[i].edges));
        assert(a[i].edges =~= c[i].edges.subrange(0, a[i].edges.len() as int));
    }
}

/// A walk stays inside the arena and, when it moves at all, strictly
/// forward.
proof fn lemma_walk_range(t: Seq<NodeV>, n: int, p: Seq<Seq<u8>>)
    requires
        trie_wf(t),
        0 <= n < t.len(),
        walk(t, n, p) is Some,
    ensures
        0 <= walk(t, n, p)->0 < t.len(),
        p.len() > 0 ==> walk(t, n, p)->0 > n,
    decreases p.len(),
{
    if p.len() > 0 {
        let c = insert_child(t[n], p[0])->0;
        assert(node_wf(t, n));
        if !is_wild(p[0]) {
            lemma_edge_lookup_in_range(t, n, p[0]);
        }
        lemma_walk_range(t, c, p.drop_first());
    }
}

/// Walks preserved under growth: whatever path led somewhere still leads
/// to the same node after nodes or edges are added.
proof fn lemma_walk_extends(t: Seq<NodeV>, t2: Seq<NodeV>, n: int, p: Seq<Seq<u8>>)
    requires
        trie_wf(t),
        shape_extends(t, t2),
        0 <= n < t.len(),
        walk(t, n, p) is Some,
    ensures
        walk(t2, n, p) == walk(t, n, p),
    decreases p.len(),
{
    if p.len() > 0 {
        let c = insert_child(t[n], p[0])->0;
        assert(node_wf(t, n));
        if is_wild(p[0]) {
            assert(t2[n].wild == t[n].wild);
        } else {
            lemma_edge_lookup_prefix(t[n].edges, t2[n].edges, p[0]);
            lemma_edge_lookup_in_range(t, n, p[0]);
        }
        lemma_walk_extends(t, t2, c, p.drop_first());
    }
}

/// A walk can be cut anywhere: follow the first `k` labels, then the rest.
proof fn lemma_walk_split(t: Seq<NodeV>, n: int, p: Seq<Seq<u8>>, k: int)
    requires
        0 <= k <= p.len(),
    ensures
        walk(t, n, p) == match walk(t, n, p.take(k)) {
            Some(m) => walk(t, m, p.skip(k)),
            None => None::<int>,
        },
    decreases k,
{
    if k == 0 {
        assert(p.take(0) =~= Seq::empty());
        assert(p.skip(0) =~= p);
    } else {
        assert(p.take(k)[0] == p[0]);
        match insert_child(t[n], p[0]) {
            None => {},
            Some(c) => {
                assert(p.take(k).drop_first() =~= p.drop_first().take(k - 1));
                assert(p.skip(k) =~= p.drop_first().skip(k - 1));
                lemma_walk_split(t, c, p.drop_first(), k - 1);
            },
        }
    }
}

/// The last step of a walk, read off the end.
proof fn lemma_walk_last(t: Seq<NodeV>, n: int, p: Seq<Seq<u8>>)
    requires
        p.len() > 0,
        walk(t, n, p) is Some,
    ensures
        walk(t, n, p.drop_last()) is Some,
        insert_child(t[walk(t, n, p.drop_last())->0], p.last()) == Some(walk(t, n, p)->0),
{
    lemma_walk_split(t, n, p, p.len() - 1);
    assert(p.take(p.len() - 1) =~= p.drop_last());
    let s1 = seq![p.last()];
    assert(p.skip(p.len() - 1) =~= s1);
    assert(walk(t, n, p) == match walk(t, n, p.drop_last()) {
        Some(m) => walk(t, m, s1),
        None => None::<int>,
    });
    let m = walk(t, n, p.drop_last())->0;
    assert(s1[0] == p.last());
    match insert_child(t[m], p.last()) {
        None => {
            assert(walk(t, m, s1) is None);
        },
        Some(c) => {
            assert(s1.drop_first() =~= Seq::<Seq<u8>>::empty());
            assert(walk(t, c, s1.drop_first()) == Some(c));
        },
    }
}

/// In a tree no two rule paths reach the same node.
proof fn lemma_walk_inj(t: Seq<NodeV>, p1: Seq<Seq<u8>>, p2: Seq<Seq<u8>>)
    requires
        trie_wf(t),
        walk(t, 0, p1) is Some,
        walk(t, 0, p1) == walk(t, 0, p2),
    ensures
        p1 =~= p2,
    decreases p1.len() + p2.len(),
{
    let m = walk(t, 0, p1)->0;
    lemma_walk_range(t, 0, p1);
    if p1.len() == 0 {
        if p2.len() > 0 {
            lemma_walk_range(t, 0, p2);
        }
    } else if p2.len() == 0 {
        lemma_walk_range(t, 0, p1);
    } else {
        lemma_walk_last(t, 0, p1);
        lemma_walk_last(t, 0, p2);
        let n1 = walk(t, 0, p1.drop_last())->0;
        let n2 = walk(t, 0, p2.drop_last())->0;
        lemma_walk_range(t, 0, p1.drop_last());
        lemma_walk_range(t, 0, p2.drop_last());
        if is_wild(p1.last()) {
            assert(t[n1].wild == Some(m));
            if is_wild(p2.last()) {
                assert(t[n2].wild == Some(m));
                assert(n1 == n2);
            } else {
                lemma_edge_lookup_member(t[n2].edges, p2.last());
                assert(false);
            }
        } else {
            lemma_edge_lookup_member(t[n1].edges, p1.last());
            let e1 = choose|e: int|
                0 <= e < t[n1].edges.len() && (#[trigger] t[n1].edges[e]).0 == p1.last()
                    && t[n1].edges[e].1 == m;
            if is_wild(p2.last()) {
                assert(t[n2].wild == Some(m));
                assert(false);
            } else {
                lemma_edge_lookup_member(t[n2].edges, p2.last());
                let e2 = choose|e: int|
                    0 <= e < t[n2].edges.len() && (#[trigger] t[n2].edges[e]).0 == p2.last()
                        && t[n2].edges[e].1 == m;
                assert(lit_edge(t, n1, e1) && lit_edge(t, n2, e2));
                assert(n1 == n2 && e1 == e2);
            }
        }
        assert(p1.last() == p2.last());
        lemma_walk_inj(t, p1.drop_last(), p2.drop_last());
        assert(p1 =~= p1.drop_last().push(p1.last()));
        assert(p2 =~= p2.drop_last().push(p2.last()));
    }
}

} // verus!
