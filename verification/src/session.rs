//! The state of a walk through a graph: what is selected, from where a flow is traced,
//! and what was looked at before.

use crate::calltree::CallTreeOptions;
use crate::engine::Progress;
use crate::findings::{goes, lemma_goes};
use crate::flow::{
    is_route, law_no_shorter_path, lemma_own_source, nearest, routes, shortest_path, target_at,
};
use crate::graph::{lemma_neighbors, CodeGraph, GraphModel};
use crate::ids::NodeId;
use crate::lenses::{count_text, counted};
use crate::reach::{is_walk, neighbors, Direction};
use vstd::prelude::*;

verus! {

/// The most hops of a traced flow.
pub const FLOW_MAX_DEPTH: u32 = 64;

/// The levels of the call tree under the selected node.
pub const TREE_DEPTH: u32 = 3;

/// The children shown under each node of that tree.
pub const TREE_WIDTH: usize = 8;

/// The nodes that are remembered for going back.
pub const HISTORY_MAX: usize = 64;

/// The state of a walk.
#[derive(Debug)]
pub struct Nav {
    pub selected: Option<NodeId>,
    /// From where flows are traced.
    pub anchor: Option<NodeId>,
    pub anchor_name: String,
    /// The path from there to the selection; empty where there is none.
    pub chain: Vec<NodeId>,
    /// The nodes selected before, the latest last.
    pub history: Vec<NodeId>,
}

/// The mathematical content of a [`Nav`].
#[verifier::ext_equal]
pub struct NavModel {
    pub selected: Option<NodeId>,
    pub anchor: Option<NodeId>,
    pub anchor_name: Seq<char>,
    pub chain: Seq<NodeId>,
    pub history: Seq<NodeId>,
}

impl View for Nav {
    type V = NavModel;

    open spec fn view(&self) -> NavModel {
        NavModel {
            selected: self.selected,
            anchor: self.anchor,
            anchor_name: self.anchor_name@,
            chain: self.chain@,
            history: self.history@,
        }
    }
}

/// The shortest path between two nodes; empty where there is none.
pub open spec fn path_between(g: GraphModel, from: NodeId, to: NodeId) -> Seq<NodeId> {
    match nearest(g, seq![from], seq![to], FLOW_MAX_DEPTH as nat) {
        None => Seq::empty(),
        Some(d) => routes(
            g,
            seq![from],
            seq![to],
            target_at(g, seq![from], seq![to], d),
            d,
        )[0],
    }
}

/// A history with one more node; the oldest one goes where it gets too long.
pub open spec fn remembered(history: Seq<NodeId>, id: NodeId) -> Seq<NodeId> {
    let longer = history.push(id);
    if longer.len() > HISTORY_MAX {
        longer.skip(1)
    } else {
        longer
    }
}

impl NavModel {
    /// Nothing selected, nothing traced, nothing remembered.
    pub open spec fn fresh() -> NavModel {
        NavModel {
            selected: None,
            anchor: None,
            anchor_name: Seq::empty(),
            chain: Seq::empty(),
            history: Seq::empty(),
        }
    }

    /// After selecting `id`. Going forward remembers what was selected before, if it
    /// was another node.
    pub open spec fn selecting(self, g: GraphModel, id: NodeId, forward: bool) -> NavModel {
        NavModel {
            selected: Some(id),
            chain: match self.anchor {
                Some(a) => if a != id {
                    path_between(g, a, id)
                } else {
                    Seq::empty()
                },
                None => Seq::empty(),
            },
            history: match self.selected {
                Some(prev) => if forward && prev != id {
                    remembered(self.history, prev)
                } else {
                    self.history
                },
                None => self.history,
            },
            ..self
        }
    }

    /// After dropping the selection.
    pub open spec fn cleared(self) -> NavModel {
        NavModel { selected: None, chain: Seq::empty(), ..self }
    }

    /// After making the selection the source of flows.
    pub open spec fn tracing(self, g: GraphModel) -> NavModel {
        match self.selected {
            None => self,
            Some(id) => NavModel {
                anchor: Some(id),
                anchor_name: if g.has(id) {
                    g.node(id).name
                } else {
                    Seq::empty()
                },
                chain: Seq::empty(),
                ..self
            },
        }
    }

    /// After forgetting the source of flows.
    pub open spec fn untraced(self) -> NavModel {
        NavModel { anchor: None, anchor_name: Seq::empty(), chain: Seq::empty(), ..self }
    }

    /// After going back to what was selected before. What is remembered but is no
    /// longer a node is dropped and nothing is selected in its place.
    pub open spec fn back(self, g: GraphModel) -> NavModel {
        if self.history.len() == 0 {
            self
        } else {
            let rest = NavModel { history: self.history.drop_last(), ..self };
            if g.has(self.history.last()) {
                rest.selecting(g, self.history.last(), false)
            } else {
                rest
            }
        }
    }
}

impl Default for Nav {
    fn default() -> (r: Self)
        ensures
            r@ == NavModel::fresh(),
    {
        Nav::new()
    }
}

impl Nav {
    pub fn new() -> (r: Self)
        ensures
            r@ == NavModel::fresh(),
    {
        let r = Nav {
            selected: None,
            anchor: None,
            anchor_name: String::new(),
            chain: Vec::new(),
            history: Vec::new(),
        };
        assert(r@ =~= NavModel::fresh());
        r
    }

    /// Forget everything.
    pub fn reset(&mut self)
        ensures
            final(self)@ == NavModel::fresh(),
    {
        *self = Nav::new();
    }

    /// Select a node. Nothing changes where the graph has no such node.
    pub fn select(&mut self, graph: &CodeGraph, id: NodeId, forward: bool) -> (r: bool)
        requires
            graph.wf(),
        ensures
            r == graph@.has(id),
            final(self)@ == if graph@.has(id) {
                old(self)@.selecting(graph@, id, forward)
            } else {
                old(self)@
            },
    {
        if graph.try_node(id).is_none() {
            return false;
        }
        let mut chain: Vec<NodeId> = Vec::new();
        if let Some(a) = self.anchor {
            if a != id {
                if let Some(p) = shortest_path(graph, a, id, FLOW_MAX_DEPTH) {
                    chain = p;
                }
            }
        }
        if let Some(prev) = self.selected {
            if forward && prev != id {
                let ghost before = self.history@;
                self.history.push(prev);
                if self.history.len() > HISTORY_MAX {
                    let dropped = self.history.remove(0);
                    assert(self.history@ =~= remembered(before, prev));
                }
            }
        }
        self.selected = Some(id);
        self.chain = chain;
        assert(self@ =~= old(self)@.selecting(graph@, id, forward));
        true
    }

    /// Drop the selection.
    pub fn clear(&mut self)
        ensures
            final(self)@ == old(self)@.cleared(),
    {
        self.selected = None;
        self.chain = Vec::new();
        assert(self@ =~= old(self)@.cleared());
    }

    /// A click on the canvas: select the node under it, or drop the selection where
    /// there is none.
    pub fn click(&mut self, graph: &CodeGraph, hit: Option<NodeId>)
        requires
            graph.wf(),
        ensures
            final(self)@ == match hit {
                Some(id) => if graph@.has(id) {
                    old(self)@.selecting(graph@, id, true)
                } else {
                    old(self)@
                },
                None => old(self)@.cleared(),
            },
    {
        match hit {
            Some(id) => {
                let _ = self.select(graph, id, true);
            },
            None => self.clear(),
        }
    }

    /// Make the selection the source of flows.
    pub fn trace(&mut self, graph: &CodeGraph)
        ensures
            final(self)@ == old(self)@.tracing(graph@),
    {
        if let Some(id) = self.selected {
            self.anchor = Some(id);
            self.anchor_name = match graph.try_node(id) {
                Some(n) => n.name.clone(),
                None => String::new(),
            };
            self.chain = Vec::new();
            assert(self@ =~= old(self)@.tracing(graph@));
        }
    }

    /// Forget the source of flows.
    pub fn clear_flow(&mut self)
        ensures
            final(self)@ == old(self)@.untraced(),
    {
        self.anchor = None;
        self.anchor_name = String::new();
        self.chain = Vec::new();
        assert(self@ =~= old(self)@.untraced());
    }

    /// Go back to what was selected before.
    pub fn back(&mut self, graph: &CodeGraph) -> (r: bool)
        requires
            graph.wf(),
        ensures
            final(self)@ == old(self)@.back(graph@),
            r == (old(self)@.history.len() > 0 && graph@.has(old(self)@.history.last())),
    {
        match self.history.pop() {
            Some(id) => {
                assert(self@ =~= NavModel {
                    history: old(self)@.history.drop_last(),
                    ..old(self)@
                });
                self.select(graph, id, false)
            },
            None => false,
        }
    }
}

/// The call tree shown under a selected node.
pub fn tree_options() -> (r: CallTreeOptions)
    ensures
        r == (CallTreeOptions {
            direction: Direction::Callees,
            max_depth: TREE_DEPTH,
            max_children: TREE_WIDTH,
            include_external: false,
        }),
{
    CallTreeOptions {
        direction: Direction::Callees,
        max_depth: TREE_DEPTH,
        max_children: TREE_WIDTH,
        include_external: false,
    }
}

// -- progress -------------------------------------------------------------------------

/// The phase and the message that stand for a step of an analysis.
pub open spec fn step_texts(p: Progress) -> (Seq<char>, Seq<char>) {
    match p {
        Progress::Discovering => ("discover"@, "scanning repository"@),
        Progress::Discovered { files } => (
            "discover"@,
            counted("found "@, files as int, " files"@),
        ),
        Progress::Reading { files } => ("read"@, counted("reading "@, files as int, " files"@)),
        Progress::Parsing { files } => ("parse"@, counted("parsing "@, files as int, " files"@)),
        Progress::Parsed { nodes, edges } => (
            "parse"@,
            counted("parsed "@, nodes as int, counted(" nodes / "@, edges as int, " edges"@)),
        ),
        Progress::Analyzing => ("analyze"@, "running lenses & metrics"@),
        Progress::Advising => ("advise"@, "detecting vertical & suggestions"@),
        Progress::Done { nodes, .. } => (
            "graph"@,
            counted("graph ready ("@, nodes as int, " nodes)"@),
        ),
    }
}

/// The phase and the message that stand for a step of an analysis.
pub fn progress_note(p: Progress) -> (r: (&'static str, String))
    ensures
        (r.0@, r.1@) == step_texts(p),
{
    match p {
        Progress::Discovering => ("discover", "scanning repository".to_owned()),
        Progress::Discovered { files } => (
            "discover",
            count_text("found ", files as u128, " files"),
        ),
        Progress::Reading { files } => ("read", count_text("reading ", files as u128, " files")),
        Progress::Parsing { files } => ("parse", count_text("parsing ", files as u128, " files")),
        Progress::Parsed { nodes, edges } => (
            "parse",
            count_text(
                "parsed ",
                nodes as u128,
                count_text(" nodes / ", edges as u128, " edges").as_str(),
            ),
        ),
        Progress::Analyzing => ("analyze", "running lenses & metrics".to_owned()),
        Progress::Advising => ("advise", "detecting vertical & suggestions".to_owned()),
        Progress::Done { nodes, .. } => (
            "graph",
            count_text("graph ready (", nodes as u128, " nodes)"),
        ),
    }
}

// -- laws -----------------------------------------------------------------------------

/// Going forward to another node and back again returns to the same selection, path
/// and flow source. The history is as it was, where it was not full.
pub proof fn law_back_undoes_select(s: NavModel, g: GraphModel, id: NodeId)
    requires
        s.selected is Some,
        s.selected->0 != id,
        g.has(s.selected->0),
        g.has(id),
    ensures
        s.selecting(g, id, true).back(g).selected == s.selected,
        s.selecting(g, id, true).back(g).anchor == s.anchor,
        s.selecting(g, id, true).back(g).chain == s.selecting(g, s.selected->0, false).chain,
        s.history.len() < HISTORY_MAX ==> s.selecting(g, id, true).back(g).history == s.history,
{
    let t = s.selecting(g, id, true);
    let prev = s.selected->0;
    assert(t.history == remembered(s.history, prev));
    assert(t.history.last() == prev);
    if s.history.len() < HISTORY_MAX {
        assert(t.history.drop_last() =~= s.history);
    }
}

/// The history never gets longer than its limit.
pub proof fn law_history_is_bounded(s: NavModel, g: GraphModel, id: NodeId, forward: bool)
    requires
        s.history.len() <= HISTORY_MAX,
    ensures
        s.selecting(g, id, forward).history.len() <= HISTORY_MAX,
        s.back(g).history.len() <= HISTORY_MAX,
        s.cleared().history == s.history,
        s.tracing(g).history == s.history,
        s.untraced().history == s.history,
{
}

/// Each node of `p` calls the next one.
pub open spec fn calls_along(g: GraphModel, p: Seq<NodeId>) -> bool {
    &&& p.len() > 0
    &&& forall|i: int| 0 <= i < p.len() - 1 ==> goes(g, (#[trigger] p[i]).0 as int, p[i + 1].0 as int)
}

proof fn lemma_along(g: GraphModel, p: Seq<NodeId>)
    requires
        g.wf(),
    ensures
        calls_along(g, p) <==> is_walk(g, Direction::Callees, p),
{
    lemma_neighbors(g);
    assert forall|i: int| 0 <= i < p.len() - 1 implies (goes(
        g,
        (#[trigger] p[i]).0 as int,
        p[i + 1].0 as int,
    ) <==> neighbors(g, Direction::Callees, p[i]).contains(p[i + 1])) by {
        lemma_goes(g, p[i], p[i + 1]);
        assert(g.neighbors_out(p[i]).contains(p[i + 1]) <==> g.calls(p[i], p[i + 1]));
    }
}

/// The path that is shown while a flow is traced leads by calls from the source of flows
/// to what is selected. No way of calls between the two is shorter, and where none is
/// shown there is none, of at most sixty-four calls.
pub proof fn law_traced_path_is_a_shortest_one(
    s: NavModel,
    g: GraphModel,
    id: NodeId,
    forward: bool,
    p: Seq<NodeId>,
)
    requires
        g.wf(),
        s.anchor matches Some(a) && a != id,
    ensures
        s.selecting(g, id, forward).selected == Some(id),
        ({
            let c = s.selecting(g, id, forward).chain;
            &&& c.len() > 0 ==> calls_along(g, c) && c[0] == s.anchor->0 && c.last() == id && c.len()
                <= 65
            &&& calls_along(g, p) && p[0] == s.anchor->0 && p.last() == id && p.len() <= 65 ==> 0
                < c.len() <= p.len()
        }),
{
    let a = s.anchor->0;
    let (from, to) = (seq![a], seq![id]);
    let max = FLOW_MAX_DEPTH as nat;
    let c = s.selecting(g, id, forward).chain;
    assert(c == path_between(g, a, id));
    if let Some(d) = nearest(g, from, to, max) {
        lemma_own_source(g, from, to, max, d);
        assert(is_route(g, from, target_at(g, from, to, d), d, c));
        lemma_along(g, c);
        assert(from.contains(c[0]));
        assert(to.contains(c.last()));
    }
    lemma_along(g, p);
    if calls_along(g, p) && p[0] == a && p.last() == id && p.len() <= 65 {
        assert(from[0] == p[0]);
        assert(to[0] == p.last());
        assert(from.contains(p[0]));
        assert(to.contains(p.last()));
        law_no_shorter_path(g, from, to, max, p);
    }
}

/// Selecting remembers what was selected before where one goes forward to another node,
/// and forgets the oldest where more than the limit are remembered. Making the selection
/// the source of flows selects nothing else and shows no path yet.
pub proof fn law_steps_are_remembered(s: NavModel, g: GraphModel, id: NodeId, forward: bool)
    ensures
        ({
            let h = s.selecting(g, id, forward).history;
            if s.selected is Some && s.selected != Some(id) && forward {
                &&& h.last() == s.selected->0
                &&& h.len() == if s.history.len() < HISTORY_MAX {
                    s.history.len() + 1
                } else {
                    s.history.len()
                }
                &&& forall|k: int|
                    0 <= k < h.len() - 1 ==> #[trigger] h[k] == s.history[k + s.history.len() + 1
                        - h.len()]
            } else {
                h == s.history
            }
        }),
        s.tracing(g).selected == s.selected,
        s.selected is Some ==> s.tracing(g).anchor == s.selected && s.tracing(g).chain.len() == 0,
        s.selected is Some && g.has(s.selected->0) ==> s.tracing(g).anchor_name == g.node(
            s.selected->0,
        ).name,
        s.untraced().anchor is None,
        s.untraced().selected == s.selected,
        s.cleared().selected is None,
        s.cleared().anchor == s.anchor,
{
    let h = s.selecting(g, id, forward).history;
    if s.selected is Some && s.selected != Some(id) && forward {
        let longer = s.history.push(s.selected->0);
        assert(h == longer || h == longer.skip(1));
    }
}

} // verus!
