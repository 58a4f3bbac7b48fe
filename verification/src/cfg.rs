use vstd::prelude::*;
use std::collections::HashMap;
use crate::ast::BExpression;
use crate::labelled_ast::{block_tokens, Label, StatementL};
use crate::labeler::labels_of;
use crate::lexer::Token;

verus! {

broadcast use vstd::std_specs::hash::group_hash_axioms;

/// A control-flow edge.
#[derive(Debug, PartialEq, Eq, Structural, Clone, Copy)]
pub struct Edge {
    pub from: Label,
    pub to: Label,
}

/// A control-flow graph: its nodes in the order they were added, its edges
/// in the order they were added, and the tokens of each node's elementary
/// block (for an `if` or a `while`, its keyword and test).
pub struct Cfg {
    pub nodes: Vec<Label>,
    pub edges: Vec<Edge>,
    pub statement_map: HashMap<Label, Vec<Token>>,
}

/// A control-flow graph as plain values.
pub struct CfgView {
    pub nodes: Seq<Label>,
    pub edges: Seq<(Label, Label)>,
    pub statements: Map<Label, Seq<Token>>,
}

impl View for Cfg {
    type V = CfgView;

    open spec fn view(&self) -> CfgView {
        CfgView {
            nodes: self.nodes@,
            edges: self.edges@.map_values(|e: Edge| (e.from, e.to)),
            statements: self.statement_map@.map_values(|v: Vec<Token>| v@),
        }
    }
}

/// `g` with the node `l`, whose statement has the tokens `t`, unless `l`
/// is a node already.
pub open spec fn with_node(g: CfgView, l: Label, t: Seq<Token>) -> CfgView {
    if g.nodes.contains(l) {
        g
    } else {
        CfgView { nodes: g.nodes.push(l), edges: g.edges, statements: g.statements.insert(l, t) }
    }
}

/// `g` with the edge `from --> to`, unless it has it already.
pub open spec fn with_edge(g: CfgView, from: Label, to: Label) -> CfgView {
    if g.edges.contains((from, to)) {
        g
    } else {
        CfgView { nodes: g.nodes, edges: g.edges.push((from, to)), statements: g.statements }
    }
}

/// `g` with an edge from each of `exits`, in order, to `entry`.
pub open spec fn with_edges_to(g: CfgView, exits: Seq<Label>, entry: Label) -> CfgView
    decreases exits.len(),
{
    if exits.len() == 0 {
        g
    } else {
        with_edges_to(with_edge(g, exits[0], entry), exits.drop_first(), entry)
    }
}

/// The graph, entry label and exit labels that building the control flow
/// of `s` into `g` gives.
pub open spec fn cfg_of(s: StatementL, g: CfgView) -> (CfgView, Label, Seq<Label>)
    decreases s,
{
    match s {
        StatementL::Assign(l, _, _) => (with_node(g, l, block_tokens(s)), l, seq![l]),
        StatementL::Skip(l) => (with_node(g, l, block_tokens(s)), l, seq![l]),
        StatementL::Sequence(a, b) => {
            let (g1, entry1, exits1) = cfg_of(*a, g);
            let (g2, entry2, exits2) = cfg_of(*b, g1);
            (with_edges_to(g2, exits1, entry2), entry1, exits2)
        },
        StatementL::If(l, _, a, b) => {
            let g0 = with_node(g, l, block_tokens(s));
            let (g1, entry1, exits1) = cfg_of(*a, g0);
            let (g2, entry2, exits2) = cfg_of(*b, g1);
            (with_edge(with_edge(g2, l, entry1), l, entry2), l, exits1 + exits2)
        },
        StatementL::While(l, _, body) => {
            let g0 = with_node(g, l, block_tokens(s));
            let (g1, entry_body, exits_body) = cfg_of(*body, g0);
            (with_edges_to(with_edge(g1, l, entry_body), exits_body, l), l, seq![l])
        },
    }
}

impl Cfg {
    /// An empty graph.
    pub fn new() -> (g: Self)
        ensures
            g@.nodes == Seq::<Label>::empty(),
            g@.edges == Seq::<(Label, Label)>::empty(),
            g@.statements == Map::<Label, Seq<Token>>::empty(),
    {
        let g = Self { nodes: Vec::new(), edges: Vec::new(), statement_map: HashMap::new() };
        assert(g@.edges =~= Seq::<(Label, Label)>::empty());
        assert(g@.statements =~= Map::<Label, Seq<Token>>::empty());
        g
    }

    fn has_node(&self, label: Label) -> (r: bool)
        ensures
            r == self@.nodes.contains(label),
    {
        let mut i: usize = 0;
        while i < self.nodes.len()
            invariant
                i <= self.nodes@.len(),
                forall|j: int| 0 <= j < i ==> self.nodes@[j] != label,
            decreases self.nodes.len() - i,
        {
            if self.nodes[i] == label {
                return true;
            }
            i = i + 1;
        }
        false
    }

    fn has_edge(&self, from: Label, to: Label) -> (r: bool)
        ensures
            r == self@.edges.contains((from, to)),
    {
        let mut i: usize = 0;
        while i < self.edges.len()
            invariant
                i <= self.edges@.len(),
                forall|j: int| 0 <= j < i ==> self@.edges[j] != (from, to),
            decreases self.edges.len() - i,
        {
            if self.edges[i].from == from && self.edges[i].to == to {
                assert(self@.edges[i as int] == (from, to));
                return true;
            }
            i = i + 1;
        }
        false
    }

    /// Adds the node `label` with the tokens of the elementary block of
    /// `stmt` (see `block_tokens`), unless `label` is a node already.
    pub fn add_node(&mut self, label: Label, stmt: &StatementL)
        ensures
            final(self)@ == with_node(old(self)@, label, block_tokens(*stmt)),
    {
        if !self.has_node(label) {
            self.nodes.push(label);
            let tokens = stmt.block_to_tokens();
            let ghost t = tokens@;
            self.statement_map.insert(label, tokens);
            assert(self@.statements =~= old(self)@.statements.insert(label, t));
        }
    }

    /// Adds the edge `from --> to`, unless the graph has it already.
    pub fn add_edge(&mut self, from: Label, to: Label)
        ensures
            final(self)@ == with_edge(old(self)@, from, to),
    {
        if !self.has_edge(from, to) {
            self.edges.push(Edge { from, to });
            assert(self@.edges =~= old(self)@.edges.push((from, to)));
        }
    }

    fn add_edges_to(&mut self, exits: &Vec<Label>, entry: Label)
        ensures
            final(self)@ == with_edges_to(old(self)@, exits@, entry),
    {
        let mut i: usize = 0;
        assert(exits@.subrange(0, exits@.len() as int) =~= exits@);
        while i < exits.len()
            invariant
                i <= exits@.len(),
                with_edges_to(old(self)@, exits@, entry) == with_edges_to(
                    self@,
                    exits@.subrange(i as int, exits@.len() as int),
                    entry,
                ),
            decreases exits.len() - i,
        {
            let ghost rest = exits@.subrange(i as int, exits@.len() as int);
            assert(rest.drop_first() =~= exits@.subrange(i + 1, exits@.len() as int));
            self.add_edge(exits[i], entry);
            i = i + 1;
        }
        assert(exits@.subrange(i as int, exits@.len() as int) =~= Seq::<Label>::empty());
    }
}

/// Builds the control flow of `stmt` into `cfg`: every elementary statement
/// becomes a node; a sequence joins the exits of its first part to the
/// entry of its second; an `if` test leads to both branches, whose exits
/// are its exits; a `while` test leads to its body, whose exits lead back
/// to it, and it is its own exit. Returns the entry label and the exit
/// labels.
pub fn build_cfg(stmt: &StatementL, cfg: &mut Cfg) -> (r: (Label, Vec<Label>))
    ensures
        (final(cfg)@, r.0, r.1@) == cfg_of(*stmt, old(cfg)@),
    decreases stmt,
{
    match stmt {
        StatementL::Assign(l, _, _) => {
            cfg.add_node(*l, stmt);
            (*l, vec![*l])
        },
        StatementL::Skip(l) => {
            cfg.add_node(*l, stmt);
            (*l, vec![*l])
        },
        StatementL::Sequence(s1, s2) => {
            let (entry1, exits1) = build_cfg(s1, cfg);
            let (entry2, exits2) = build_cfg(s2, cfg);
            cfg.add_edges_to(&exits1, entry2);
            (entry1, exits2)
        },
        StatementL::If(l, _, s1, s2) => {
            cfg.add_node(*l, stmt);
            let (entry1, mut exits1) = build_cfg(s1, cfg);
            let (entry2, mut exits2) = build_cfg(s2, cfg);
            cfg.add_edge(*l, entry1);
            cfg.add_edge(*l, entry2);
            exits1.append(&mut exits2);
            (*l, exits1)
        },
        StatementL::While(l, _, body) => {
            cfg.add_node(*l, stmt);
            let (entry_body, exits_body) = build_cfg(body, cfg);
            cfg.add_edge(*l, entry_body);
            cfg.add_edges_to(&exits_body, *l);
            (*l, vec![*l])
        },
    }
}

/// A well-formed graph: no node or edge twice, every edge between nodes,
/// and tokens for exactly the nodes.
pub open spec fn cfg_wf(g: CfgView) -> bool {
    &&& g.nodes.no_duplicates()
    &&& g.edges.no_duplicates()
    &&& forall|i: int|
        0 <= i < g.edges.len() ==> g.nodes.contains(#[trigger] g.edges[i].0) && g.nodes.contains(
            g.edges[i].1,
        )
    &&& g.statements.dom() == g.nodes.to_set()
}

proof fn lemma_with_node(g: CfgView, l: Label, t: Seq<Token>)
    requires
        cfg_wf(g),
    ensures
        cfg_wf(with_node(g, l, t)),
        with_node(g, l, t).nodes.to_set() == g.nodes.to_set().insert(l),
        with_node(g, l, t).edges == g.edges,
        !g.nodes.contains(l) ==> with_node(g, l, t).nodes == g.nodes.push(l),
{
    let g2 = with_node(g, l, t);
    if !g.nodes.contains(l) {
        assert(g2.nodes.to_set() =~= g.nodes.to_set().insert(l)) by {
            assert forall|x: Label| g2.nodes.to_set().contains(x) <==> g.nodes.to_set().insert(
                l,
            ).contains(x) by {
                if g2.nodes.contains(x) && x != l {
                    let i = choose|i: int| 0 <= i < g2.nodes.len() && g2.nodes[i] == x;
                    assert(g.nodes[i] == x);
                }
                if g.nodes.contains(x) {
                    let i = choose|i: int| 0 <= i < g.nodes.len() && g.nodes[i] == x;
                    assert(g2.nodes[i] == x);
                }
                if x == l {
                    assert(g2.nodes[g.nodes.len() as int] == l);
                }
            }
        }
        assert forall|i: int| 0 <= i < g2.edges.len() implies g2.nodes.contains(#[trigger] g2.edges[i].0)
            && g2.nodes.contains(g2.edges[i].1) by {
            let a = choose|j: int| 0 <= j < g.nodes.len() && g.nodes[j] == g.edges[i].0;
            let b = choose|j: int| 0 <= j < g.nodes.len() && g.nodes[j] == g.edges[i].1;
            assert(g2.nodes[a] == g.edges[i].0);
            assert(g2.nodes[b] == g.edges[i].1);
        }
        assert(g2.statements.dom() =~= g2.nodes.to_set());
    } else {
        assert(g.nodes.to_set() =~= g.nodes.to_set().insert(l));
    }
}

proof fn lemma_with_edge(g: CfgView, from: Label, to: Label)
    requires
        cfg_wf(g),
        g.nodes.contains(from),
        g.nodes.contains(to),
    ensures
        cfg_wf(with_edge(g, from, to)),
        with_edge(g, from, to).nodes == g.nodes,
        with_edge(g, from, to).edges.contains((from, to)),
        forall|e: (Label, Label)| g.edges.contains(e) ==> with_edge(g, from, to).edges.contains(e),
{
    let g2 = with_edge(g, from, to);
    if !g.edges.contains((from, to)) {
        assert(g2.edges[g.edges.len() as int] == (from, to));
        assert forall|e: (Label, Label)| g.edges.contains(e) implies g2.edges.contains(e) by {
            let i = choose|i: int| 0 <= i < g.edges.len() && g.edges[i] == e;
            assert(g2.edges[i] == e);
        }
        assert forall|i: int| 0 <= i < g2.edges.len() implies g2.nodes.contains(#[trigger] g2.edges[i].0)
            && g2.nodes.contains(g2.edges[i].1) by {
            if i < g.edges.len() {
                assert(g2.edges[i] == g.edges[i]);
            }
        }
    }
}

proof fn lemma_with_edges_to(g: CfgView, exits: Seq<Label>, entry: Label)
    requires
        cfg_wf(g),
        g.nodes.contains(entry),
        forall|i: int| 0 <= i < exits.len() ==> g.nodes.contains(#[trigger] exits[i]),
    ensures
        cfg_wf(with_edges_to(g, exits, entry)),
        with_edges_to(g, exits, entry).nodes == g.nodes,
        forall|i: int|
            0 <= i < exits.len() ==> with_edges_to(g, exits, entry).edges.contains(
                (#[trigger] exits[i], entry),
            ),
        forall|e: (Label, Label)|
            g.edges.contains(e) ==> with_edges_to(g, exits, entry).edges.contains(e),
    decreases exits.len(),
{
    if exits.len() > 0 {
        assert(g.nodes.contains(exits[0]));
        lemma_with_edge(g, exits[0], entry);
        let g1 = with_edge(g, exits[0], entry);
        assert forall|i: int| 0 <= i < exits.drop_first().len() implies g1.nodes.contains(
            #[trigger] exits.drop_first()[i],
        ) by {
            assert(exits.drop_first()[i] == exits[i + 1]);
        }
        lemma_with_edges_to(g1, exits.drop_first(), entry);
        let g2 = with_edges_to(g, exits, entry);
        assert forall|i: int| 0 <= i < exits.len() implies g2.edges.contains(
            (#[trigger] exits[i], entry),
        ) by {
            if i > 0 {
                assert(exits.drop_first()[i - 1] == exits[i]);
            }
        }
    }
}

/// What building the control flow of `s` into `g` comes to: a
/// well-formed graph whose nodes are those of `g` and the labels of `s`,
/// with every edge of `g`, entered at the first label of `s` and left at
/// labels of `s` only.
pub open spec fn cfg_shape(s: StatementL, g: CfgView) -> bool {
    let (g2, entry, exits) = cfg_of(s, g);
    &&& cfg_wf(g2)
    &&& g2.nodes.to_set() == g.nodes.to_set().union(labels_of(s).to_set())
    &&& labels_of(s).len() > 0
    &&& entry == labels_of(s)[0]
    &&& exits.len() > 0
    &&& forall|i: int| 0 <= i < exits.len() ==> labels_of(s).contains(#[trigger] exits[i])
    &&& forall|e: (Label, Label)| g.edges.contains(e) ==> g2.edges.contains(e)
}

proof fn lemma_in_labels(s: StatementL, g: CfgView, x: Label)
    requires
        cfg_shape(s, g),
        labels_of(s).contains(x),
    ensures
        cfg_of(s, g).0.nodes.contains(x),
{
    assert(labels_of(s).to_set().contains(x));
    assert(cfg_of(s, g).0.nodes.to_set().contains(x));
}

proof fn lemma_in_nodes(s: StatementL, g: CfgView, x: Label)
    requires
        cfg_shape(s, g),
        g.nodes.contains(x),
    ensures
        cfg_of(s, g).0.nodes.contains(x),
{
    assert(g.nodes.to_set().contains(x));
    assert(cfg_of(s, g).0.nodes.to_set().contains(x));
}

proof fn lemma_shape_sequence(s: StatementL, g: CfgView)
    requires
        cfg_wf(g),
        s is Sequence,
    ensures
        cfg_shape(s, g),
    decreases s, 0int,
{
    if let StatementL::Sequence(a, b) = s {
        law_cfg_of_shape(*a, g);
        let (g1, entry1, exits1) = cfg_of(*a, g);
        law_cfg_of_shape(*b, g1);
        let (g2, entry2, exits2) = cfg_of(*b, g1);
        lemma_in_labels(*b, g1, entry2);
        assert forall|i: int| 0 <= i < exits1.len() implies g2.nodes.contains(#[trigger] exits1[i]) by {
            lemma_in_labels(*a, g, exits1[i]);
            lemma_in_nodes(*b, g1, exits1[i]);
        }
        lemma_with_edges_to(g2, exits1, entry2);
        vstd::seq_lib::seq_to_set_distributes_over_add(labels_of(*a), labels_of(*b));
        assert(labels_of(s)[0] == labels_of(*a)[0]);
        assert forall|i: int| 0 <= i < exits2.len() implies labels_of(s).contains(#[trigger] exits2[i]) by {
            let j = choose|j: int| 0 <= j < labels_of(*b).len() && labels_of(*b)[j] == exits2[i];
            assert(labels_of(s)[labels_of(*a).len() + j] == exits2[i]);
        }
        assert(cfg_of(s, g).0.nodes.to_set() =~= g.nodes.to_set().union(labels_of(s).to_set()));
    }
}

proof fn lemma_shape_if(s: StatementL, g: CfgView)
    requires
        cfg_wf(g),
        s is If,
    ensures
        cfg_shape(s, g),
    decreases s, 0int,
{
    if let StatementL::If(l, _, a, b) = s {
        let g0 = with_node(g, l, block_tokens(s));
        lemma_with_node(g, l, block_tokens(s));
        assert(g0.nodes.to_set().contains(l));
        law_cfg_of_shape(*a, g0);
        let (g1, entry1, exits1) = cfg_of(*a, g0);
        law_cfg_of_shape(*b, g1);
        let (g2, entry2, exits2) = cfg_of(*b, g1);
        lemma_in_nodes(*a, g0, l);
        lemma_in_nodes(*b, g1, l);
        lemma_in_labels(*a, g0, entry1);
        lemma_in_nodes(*b, g1, entry1);
        lemma_in_labels(*b, g1, entry2);
        lemma_with_edge(g2, l, entry1);
        lemma_with_edge(with_edge(g2, l, entry1), l, entry2);
        vstd::seq_lib::seq_to_set_distributes_over_add(seq![l], labels_of(*a));
        vstd::seq_lib::seq_to_set_distributes_over_add(seq![l] + labels_of(*a), labels_of(*b));
        assert(seq![l].to_set() =~= set![l]) by {
            assert(seq![l][0] == l);
        }
        assert(labels_of(s)[0] == l);
        let exits = exits1 + exits2;
        assert forall|i: int| 0 <= i < exits.len() implies labels_of(s).contains(#[trigger] exits[i]) by {
            if i < exits1.len() {
                let j = choose|j: int| 0 <= j < labels_of(*a).len() && labels_of(*a)[j] == exits1[i];
                assert(labels_of(s)[1 + j] == exits[i]);
            } else {
                let k = i - exits1.len();
                assert(exits[i] == exits2[k]);
                let j = choose|j: int| 0 <= j < labels_of(*b).len() && labels_of(*b)[j] == exits2[k];
                assert(labels_of(s)[1 + labels_of(*a).len() + j] == exits[i]);
            }
        }
        assert(cfg_of(s, g).0.nodes.to_set() =~= g.nodes.to_set().union(labels_of(s).to_set()));
    }
}

proof fn lemma_shape_while(s: StatementL, g: CfgView)
    requires
        cfg_wf(g),
        s is While,
    ensures
        cfg_shape(s, g),
    decreases s, 0int,
{
    if let StatementL::While(l, _, body) = s {
        let g0 = with_node(g, l, block_tokens(s));
        lemma_with_node(g, l, block_tokens(s));
        assert(g0.nodes.to_set().contains(l));
        law_cfg_of_shape(*body, g0);
        let (g1, entry_body, exits_body) = cfg_of(*body, g0);
        lemma_in_nodes(*body, g0, l);
        lemma_in_labels(*body, g0, entry_body);
        lemma_with_edge(g1, l, entry_body);
        let g2 = with_edge(g1, l, entry_body);
        assert forall|i: int| 0 <= i < exits_body.len() implies g2.nodes.contains(#[trigger] exits_body[i]) by {
            lemma_in_labels(*body, g0, exits_body[i]);
        }
        lemma_with_edges_to(g2, exits_body, l);
        vstd::seq_lib::seq_to_set_distributes_over_add(seq![l], labels_of(*body));
        assert(seq![l].to_set() =~= set![l]) by {
            assert(seq![l][0] == l);
        }
        assert(labels_of(s)[0] == l);
        assert(labels_of(s).contains(l));
        assert(cfg_of(s, g).0.nodes.to_set() =~= g.nodes.to_set().union(labels_of(s).to_set()));
    }
}

/// Building the control flow of `s` into a well-formed graph keeps it
/// well formed, adds exactly the labels of `s` as nodes, keeps every edge,
/// enters `s` at its first label, and leaves it at labels of `s` only.
pub proof fn law_cfg_of_shape(s: StatementL, g: CfgView)
    requires
        cfg_wf(g),
    ensures
        cfg_shape(s, g),
    decreases s, 1int,
{
    match s {
        StatementL::Assign(l, _, _) | StatementL::Skip(l) => {
            lemma_with_node(g, l, block_tokens(s));
            assert(labels_of(s).to_set() =~= set![l]) by {
                assert(labels_of(s)[0] == l);
            }
            assert(g.nodes.to_set().insert(l) =~= g.nodes.to_set().union(set![l]));
            assert(labels_of(s)[0] == l);
        },
        StatementL::Sequence(_, _) => lemma_shape_sequence(s, g),
        StatementL::If(_, _, _, _) => lemma_shape_if(s, g),
        StatementL::While(_, _, _) => lemma_shape_while(s, g),
    }
}

proof fn lemma_edges_keep_nodes(g: CfgView, exits: Seq<Label>, entry: Label)
    ensures
        with_edges_to(g, exits, entry).nodes == g.nodes,
    decreases exits.len(),
{
    if exits.len() > 0 {
        lemma_edges_keep_nodes(with_edge(g, exits[0], entry), exits.drop_first(), entry);
    }
}

/// With labels that are distinct and new to the graph, the nodes are
/// added in the order of the labels: the elementary statements in
/// pre-order.
pub proof fn law_nodes_in_label_order(s: StatementL, g: CfgView)
    requires
        labels_of(s).no_duplicates(),
        forall|i: int| 0 <= i < labels_of(s).len() ==> !g.nodes.contains(#[trigger] labels_of(s)[i]),
    ensures
        cfg_of(s, g).0.nodes == g.nodes + labels_of(s),
    decreases s,
{
    match s {
        StatementL::Assign(l, _, _) | StatementL::Skip(l) => {
            assert(labels_of(s)[0] == l);
            assert(g.nodes.push(l) =~= g.nodes + labels_of(s));
        },
        StatementL::Sequence(a, b) => {
            let la = labels_of(*a);
            let lb = labels_of(*b);
            assert forall|i: int, j: int| 0 <= i < la.len() && 0 <= j < la.len() && i != j implies la[i] != la[j] by {
                assert(la[i] == labels_of(s)[i] && la[j] == labels_of(s)[j]);
            }
            assert forall|i: int| 0 <= i < la.len() implies !g.nodes.contains(#[trigger] la[i]) by {
                assert(la[i] == labels_of(s)[i]);
            }
            law_nodes_in_label_order(*a, g);
            let g1 = cfg_of(*a, g).0;
            assert forall|i: int, j: int| 0 <= i < lb.len() && 0 <= j < lb.len() && i != j implies lb[i] != lb[j] by {
                assert(lb[i] == labels_of(s)[la.len() + i] && lb[j] == labels_of(s)[la.len() + j]);
            }
            assert forall|i: int| 0 <= i < lb.len() implies !g1.nodes.contains(#[trigger] lb[i]) by {
                assert(lb[i] == labels_of(s)[la.len() + i]);
                if g1.nodes.contains(lb[i]) {
                    let k = choose|k: int| 0 <= k < g1.nodes.len() && g1.nodes[k] == lb[i];
                    if k < g.nodes.len() {
                        assert(g.nodes[k] == lb[i]);
                    } else {
                        assert(la[k - g.nodes.len()] == lb[i]);
                        assert(labels_of(s)[k - g.nodes.len()] == labels_of(s)[la.len() + i]);
                    }
                }
            }
            law_nodes_in_label_order(*b, g1);
            let g2 = cfg_of(*b, g1).0;
            let exits1 = cfg_of(*a, g).2;
            lemma_edges_keep_nodes(g2, exits1, cfg_of(*b, g1).1);
            assert(g.nodes + la + lb =~= g.nodes + labels_of(s));
        },
        StatementL::If(l, _, a, b) => {
            let ls = labels_of(s);
            let la = labels_of(*a);
            let lb = labels_of(*b);
            assert(ls[0] == l);
            let g0 = with_node(g, l, block_tokens(s));
            assert(!g.nodes.contains(l));
            assert(g0.nodes == g.nodes.push(l));
            assert forall|i: int, j: int| 0 <= i < la.len() && 0 <= j < la.len() && i != j implies la[i] != la[j] by {
                assert(la[i] == ls[1 + i] && la[j] == ls[1 + j]);
            }
            assert forall|i: int| 0 <= i < la.len() implies !g0.nodes.contains(#[trigger] la[i]) by {
                assert(la[i] == ls[1 + i]);
                if g0.nodes.contains(la[i]) {
                    let k = choose|k: int| 0 <= k < g0.nodes.len() && g0.nodes[k] == la[i];
                    if k < g.nodes.len() {
                        assert(g.nodes[k] == la[i]);
                    } else {
                        assert(ls[0] == ls[1 + i]);
                    }
                }
            }
            law_nodes_in_label_order(*a, g0);
            let g1 = cfg_of(*a, g0).0;
            assert forall|i: int, j: int| 0 <= i < lb.len() && 0 <= j < lb.len() && i != j implies lb[i] != lb[j] by {
                assert(lb[i] == ls[1 + la.len() + i] && lb[j] == ls[1 + la.len() + j]);
            }
            assert forall|i: int| 0 <= i < lb.len() implies !g1.nodes.contains(#[trigger] lb[i]) by {
                assert(lb[i] == ls[1 + la.len() + i]);
                if g1.nodes.contains(lb[i]) {
                    let k = choose|k: int| 0 <= k < g1.nodes.len() && g1.nodes[k] == lb[i];
                    if k < g.nodes.len() {
                        assert(g.nodes[k] == lb[i]);
                    } else if k == g.nodes.len() {
                        assert(ls[0] == ls[1 + la.len() + i]);
                    } else {
                        assert(la[k - g.nodes.len() - 1] == lb[i]);
                        assert(ls[k - g.nodes.len()] == ls[1 + la.len() + i]);
                    }
                }
            }
            law_nodes_in_label_order(*b, g1);
            assert(g.nodes.push(l) + la + lb =~= g.nodes + ls);
        },
        StatementL::While(l, _, body) => {
            let ls = labels_of(s);
            let lb = labels_of(*body);
            assert(ls[0] == l);
            let g0 = with_node(g, l, block_tokens(s));
            assert(!g.nodes.contains(l));
            assert(g0.nodes == g.nodes.push(l));
            assert forall|i: int, j: int| 0 <= i < lb.len() && 0 <= j < lb.len() && i != j implies lb[i] != lb[j] by {
                assert(lb[i] == ls[1 + i] && lb[j] == ls[1 + j]);
            }
            assert forall|i: int| 0 <= i < lb.len() implies !g0.nodes.contains(#[trigger] lb[i]) by {
                assert(lb[i] == ls[1 + i]);
                if g0.nodes.contains(lb[i]) {
                    let k = choose|k: int| 0 <= k < g0.nodes.len() && g0.nodes[k] == lb[i];
                    if k < g.nodes.len() {
                        assert(g.nodes[k] == lb[i]);
                    } else {
                        assert(ls[0] == ls[1 + i]);
                    }
                }
            }
            law_nodes_in_label_order(*body, g0);
            let (g1, entry_body, exits_body) = cfg_of(*body, g0);
            lemma_edges_keep_nodes(with_edge(g1, l, entry_body), exits_body, l);
            assert(g.nodes.push(l) + lb =~= g.nodes + ls);
        },
    }
}

/// Adding a node that the graph has, or an edge that it has, changes
/// nothing.
pub proof fn law_adding_again_changes_nothing(g: CfgView, l: Label, t: Seq<Token>, from: Label, to: Label)
    ensures
        with_node(with_node(g, l, t), l, t) == with_node(g, l, t),
        with_edge(with_edge(g, from, to), from, to) == with_edge(g, from, to),
{
    if !g.nodes.contains(l) {
        assert(g.nodes.push(l)[g.nodes.len() as int] == l);
    }
    if !g.edges.contains((from, to)) {
        assert(g.edges.push((from, to))[g.edges.len() as int] == (from, to));
    }
}

proof fn lemma_with_edge_new(g: CfgView, from: Label, to: Label, e: (Label, Label))
    ensures
        with_edge(g, from, to).edges.contains(e) ==> g.edges.contains(e) || e == (from, to),
{
    if with_edge(g, from, to).edges.contains(e) && !g.edges.contains((from, to)) {
        let i = choose|i: int| 0 <= i < g.edges.len() + 1 && g.edges.push((from, to))[i] == e;
        if i < g.edges.len() {
            assert(g.edges[i] == e);
        }
    }
}

proof fn lemma_with_edges_to_new(g: CfgView, exits: Seq<Label>, entry: Label, e: (Label, Label))
    ensures
        with_edges_to(g, exits, entry).edges.contains(e) ==> g.edges.contains(e) || (exits.contains(
            e.0,
        ) && e.1 == entry),
    decreases exits.len(),
{
    if exits.len() > 0 {
        let g1 = with_edge(g, exits[0], entry);
        lemma_with_edges_to_new(g1, exits.drop_first(), entry, e);
        lemma_with_edge_new(g, exits[0], entry, e);
        if exits.drop_first().contains(e.0) {
            let i = choose|i: int| 0 <= i < exits.drop_first().len() && exits.drop_first()[i] == e.0;
            assert(exits[i + 1] == e.0);
        }
        assert(exits[0] == exits[0]);
    }
}

/// Every edge that building `s` adds runs between labels of `s`.
pub open spec fn new_edges_within(s: StatementL, g: CfgView) -> bool {
    forall|e: (Label, Label)|
        #[trigger] cfg_of(s, g).0.edges.contains(e) ==> g.edges.contains(e) || (labels_of(s).contains(
            e.0,
        ) && labels_of(s).contains(e.1))
}

proof fn lemma_new_edges_within(s: StatementL, g: CfgView)
    requires
        cfg_wf(g),
    ensures
        new_edges_within(s, g),
    decreases s,
{
    law_cfg_of_shape(s, g);
    match s {
        StatementL::Assign(l, _, _) | StatementL::Skip(l) => {
            lemma_with_node(g, l, block_tokens(s));
        },
        StatementL::Sequence(a, b) => {
            let (g1, entry1, exits1) = cfg_of(*a, g);
            law_cfg_of_shape(*a, g);
            law_cfg_of_shape(*b, g1);
            lemma_new_edges_within(*a, g);
            lemma_new_edges_within(*b, g1);
            let (g2, entry2, exits2) = cfg_of(*b, g1);
            assert forall|e: (Label, Label)| #[trigger] cfg_of(s, g).0.edges.contains(e) implies g.edges.contains(e)
                || (labels_of(s).contains(e.0) && labels_of(s).contains(e.1)) by {
                lemma_with_edges_to_new(g2, exits1, entry2, e);
                lemma_sub_labels_seq(*a, *b, e.0);
                lemma_sub_labels_seq(*a, *b, e.1);
                if g2.edges.contains(e) && !g1.edges.contains(e) {
                    assert(labels_of(*b).contains(e.0) && labels_of(*b).contains(e.1));
                }
                if exits1.contains(e.0) {
                    let i = choose|i: int| 0 <= i < exits1.len() && exits1[i] == e.0;
                    assert(labels_of(*a).contains(exits1[i]));
                }
                if e.1 == entry2 {
                    assert(labels_of(*b).contains(labels_of(*b)[0]));
                }
            }
        },
        StatementL::If(l, _, a, b) => {
            let g0 = with_node(g, l, block_tokens(s));
            lemma_with_node(g, l, block_tokens(s));
            let (g1, entry1, exits1) = cfg_of(*a, g0);
            law_cfg_of_shape(*a, g0);
            law_cfg_of_shape(*b, g1);
            lemma_new_edges_within(*a, g0);
            lemma_new_edges_within(*b, g1);
            let (g2, entry2, exits2) = cfg_of(*b, g1);
            assert forall|e: (Label, Label)| #[trigger] cfg_of(s, g).0.edges.contains(e) implies g.edges.contains(e)
                || (labels_of(s).contains(e.0) && labels_of(s).contains(e.1)) by {
                lemma_with_edge_new(with_edge(g2, l, entry1), l, entry2, e);
                lemma_with_edge_new(g2, l, entry1, e);
                lemma_sub_labels_if(l, *a, *b, s, e.0);
                lemma_sub_labels_if(l, *a, *b, s, e.1);
                assert(labels_of(*a).contains(labels_of(*a)[0]));
                assert(labels_of(*b).contains(labels_of(*b)[0]));
            }
        },
        StatementL::While(l, _, body) => {
            let g0 = with_node(g, l, block_tokens(s));
            lemma_with_node(g, l, block_tokens(s));
            let (g1, entry_body, exits_body) = cfg_of(*body, g0);
            law_cfg_of_shape(*body, g0);
            lemma_new_edges_within(*body, g0);
            assert forall|e: (Label, Label)| #[trigger] cfg_of(s, g).0.edges.contains(e) implies g.edges.contains(e)
                || (labels_of(s).contains(e.0) && labels_of(s).contains(e.1)) by {
                lemma_with_edges_to_new(with_edge(g1, l, entry_body), exits_body, l, e);
                lemma_with_edge_new(g1, l, entry_body, e);
                lemma_sub_labels_while(l, *body, s, e.0);
                lemma_sub_labels_while(l, *body, s, e.1);
                assert(labels_of(*body).contains(labels_of(*body)[0]));
                if exits_body.contains(e.0) {
                    let i = choose|i: int| 0 <= i < exits_body.len() && exits_body[i] == e.0;
                    assert(labels_of(*body).contains(exits_body[i]));
                }
            }
        },
    }
}

proof fn lemma_sub_labels_seq(a: StatementL, b: StatementL, x: Label)
    ensures
        (labels_of(a).contains(x) || labels_of(b).contains(x)) ==> (labels_of(a) + labels_of(b)).contains(x),
{
    if labels_of(a).contains(x) {
        let i = choose|i: int| 0 <= i < labels_of(a).len() && labels_of(a)[i] == x;
        assert((labels_of(a) + labels_of(b))[i] == x);
    } else if labels_of(b).contains(x) {
        let i = choose|i: int| 0 <= i < labels_of(b).len() && labels_of(b)[i] == x;
        assert((labels_of(a) + labels_of(b))[labels_of(a).len() + i] == x);
    }
}

proof fn lemma_sub_labels_if(l: Label, a: StatementL, b: StatementL, s: StatementL, x: Label)
    requires
        labels_of(s) == seq![l] + labels_of(a) + labels_of(b),
    ensures
        (x == l || labels_of(a).contains(x) || labels_of(b).contains(x)) ==> labels_of(s).contains(x),
{
    if x == l {
        assert(labels_of(s)[0] == l);
    } else if labels_of(a).contains(x) {
        let i = choose|i: int| 0 <= i < labels_of(a).len() && labels_of(a)[i] == x;
        assert(labels_of(s)[1 + i] == x);
    } else if labels_of(b).contains(x) {
        let i = choose|i: int| 0 <= i < labels_of(b).len() && labels_of(b)[i] == x;
        assert(labels_of(s)[1 + labels_of(a).len() + i] == x);
    }
}

proof fn lemma_sub_labels_while(l: Label, body: StatementL, s: StatementL, x: Label)
    requires
        labels_of(s) == seq![l] + labels_of(body),
    ensures
        (x == l || labels_of(body).contains(x)) ==> labels_of(s).contains(x),
{
    if x == l {
        assert(labels_of(s)[0] == l);
    } else if labels_of(body).contains(x) {
        let i = choose|i: int| 0 <= i < labels_of(body).len() && labels_of(body)[i] == x;
        assert(labels_of(s)[1 + i] == x);
    }
}

/// The control flow of a loop: its test is its entry and its only exit,
/// it leads to the first label of the body, and the edges into the test
/// come exactly from the exits of the body. Here the loop's label is new
/// to the graph and not a label of its body.
pub proof fn law_loop_returns_from_body_exits(l: Label, c: BExpression, body: StatementL, g: CfgView)
    requires
        cfg_wf(g),
        !g.nodes.contains(l),
        !labels_of(body).contains(l),
    ensures
        ({
            let w = StatementL::While(l, c, Box::new(body));
            let (g2, entry, exits) = cfg_of(w, g);
            let exits_body = cfg_of(body, with_node(g, l, block_tokens(w))).2;
            &&& entry == l
            &&& exits == seq![l]
            &&& g2.edges.contains((l, labels_of(body)[0]))
            &&& forall|x: Label| #[trigger] g2.edges.contains((x, l)) <==> exits_body.contains(x)
        }),
{
    let w = StatementL::While(l, c, Box::new(body));
    law_cfg_of_shape(w, g);
    let g0 = with_node(g, l, block_tokens(w));
    lemma_with_node(g, l, block_tokens(w));
    law_cfg_of_shape(body, g0);
    lemma_new_edges_within(body, g0);
    let (g1, entry_body, exits_body) = cfg_of(body, g0);
    assert(g0.nodes[g.nodes.len() as int] == l);
    lemma_in_nodes(body, g0, l);
    lemma_in_labels(body, g0, entry_body);
    lemma_with_edge(g1, l, entry_body);
    let ga = with_edge(g1, l, entry_body);
    assert forall|i: int| 0 <= i < exits_body.len() implies ga.nodes.contains(#[trigger] exits_body[i]) by {
        lemma_in_labels(body, g0, exits_body[i]);
    }
    lemma_with_edges_to(ga, exits_body, l);
    let g2 = cfg_of(w, g).0;
    assert forall|x: Label| #[trigger] g2.edges.contains((x, l)) <==> exits_body.contains(x) by {
        if exits_body.contains(x) {
            let i = choose|i: int| 0 <= i < exits_body.len() && exits_body[i] == x;
            assert(g2.edges.contains((exits_body[i], l)));
        }
        if g2.edges.contains((x, l)) {
            lemma_with_edges_to_new(ga, exits_body, l, (x, l));
            lemma_with_edge_new(g1, l, entry_body, (x, l));
            assert(g1.edges.contains((x, l)) ==> g0.edges.contains((x, l)) || labels_of(body).contains(l));
            if g0.edges.contains((x, l)) {
                assert(g0.edges == g.edges);
                let i = choose|i: int| 0 <= i < g.edges.len() && g.edges[i] == (x, l);
                assert(g.nodes.contains(g.edges[i].0) && g.nodes.contains(g.edges[i].1));
                assert(g.edges[i].1 == l);
            }
            if (x, l) == (l, entry_body) {
                assert(labels_of(body).contains(labels_of(body)[0]));
            }
        }
    }
}

/// The control flow of a sequence: it is entered where its first part
/// is, left where its second part is left, and every exit of the first
/// part leads to the first label of the second.
pub proof fn law_sequence_joins_parts(a: StatementL, b: StatementL, g: CfgView)
    requires
        cfg_wf(g),
    ensures
        ({
            let s = StatementL::Sequence(Box::new(a), Box::new(b));
            let (g2, entry, exits) = cfg_of(s, g);
            let (g1, _, exits_a) = cfg_of(a, g);
            &&& entry == labels_of(a)[0]
            &&& exits == cfg_of(b, g1).2
            &&& forall|i: int| 0 <= i < exits_a.len() ==> g2.edges.contains((#[trigger] exits_a[i], labels_of(b)[0]))
        }),
{
    let s = StatementL::Sequence(Box::new(a), Box::new(b));
    law_cfg_of_shape(s, g);
    lemma_shape_sequence(s, g);
    law_cfg_of_shape(a, g);
    let (g1, entry1, exits1) = cfg_of(a, g);
    law_cfg_of_shape(b, g1);
    let (g2, entry2, exits2) = cfg_of(b, g1);
    lemma_in_labels(b, g1, entry2);
    assert forall|i: int| 0 <= i < exits1.len() implies g2.nodes.contains(#[trigger] exits1[i]) by {
        lemma_in_labels(a, g, exits1[i]);
        lemma_in_nodes(b, g1, exits1[i]);
    }
    lemma_with_edges_to(g2, exits1, entry2);
}

/// The control flow of a conditional: its test is its entry, it leads to
/// the first label of each branch, and it is left where either branch is.
pub proof fn law_conditional_branches(l: Label, c: BExpression, a: StatementL, b: StatementL, g: CfgView)
    requires
        cfg_wf(g),
    ensures
        ({
            let s = StatementL::If(l, c, Box::new(a), Box::new(b));
            let (g2, entry, exits) = cfg_of(s, g);
            let (g1, _, exits_a) = cfg_of(a, with_node(g, l, block_tokens(s)));
            &&& entry == l
            &&& g2.edges.contains((l, labels_of(a)[0]))
            &&& g2.edges.contains((l, labels_of(b)[0]))
            &&& exits == exits_a + cfg_of(b, g1).2
        }),
{
    let s = StatementL::If(l, c, Box::new(a), Box::new(b));
    let g0 = with_node(g, l, block_tokens(s));
    lemma_with_node(g, l, block_tokens(s));
    assert(g0.nodes.to_set().contains(l));
    law_cfg_of_shape(a, g0);
    let (g1, entry1, exits1) = cfg_of(a, g0);
    law_cfg_of_shape(b, g1);
    let (g2, entry2, exits2) = cfg_of(b, g1);
    lemma_in_nodes(a, g0, l);
    lemma_in_nodes(b, g1, l);
    lemma_in_labels(a, g0, entry1);
    lemma_in_nodes(b, g1, entry1);
    lemma_in_labels(b, g1, entry2);
    lemma_with_edge(g2, l, entry1);
    lemma_with_edge(with_edge(g2, l, entry1), l, entry2);
}

} // verus!
