//! The hierarchy of agents seen in a session: a main session and the
//! sub-agents it spawned.

use vstd::prelude::*;

use crate::text::str_eq;

verus! {

/// A single agent (main session or sub-agent).
#[derive(Debug)]
pub struct AgentNode {
    pub id: String,
    pub parent_id: Option<String>,
    pub session_file: String,
    pub label: String,
}

/// Whether `a` names `parent` as its parent.
pub open spec fn spec_is_child_of(a: AgentNode, parent: Seq<char>) -> bool {
    a.parent_id is Some && a.parent_id->0@ == parent
}

/// The agents of a session, keyed by id, with the root agent remembered.
#[derive(Debug)]
pub struct AgentTree {
    pub agents: Vec<AgentNode>,
    pub root_id: Option<String>,
}

impl AgentTree {
    /// No two agents share an id.
    pub open spec fn wf(&self) -> bool {
        forall|a: int, b: int|
            0 <= a < b < self.agents@.len() ==> (#[trigger] self.agents@[a]).id@ != (
            #[trigger] self.agents@[b]).id@
    }

    /// An empty tree.
    pub fn new() -> (r: Self)
        ensures
            r.wf(),
            r.agents@ == Seq::<AgentNode>::empty(),
            r.root_id is None,
    {
        AgentTree { agents: Vec::new(), root_id: None }
    }

    /// Add an agent, replacing any existing agent with the same id. The first
    /// parentless agent added becomes the root.
    #[verifier::loop_isolation(false)]
    pub fn add_agent(&mut self, agent: AgentNode)
        requires
            old(self).wf(),
        ensures
            final(self).wf(),
            ({
                let s = old(self).agents@;
                if exists|i: int| 0 <= i < s.len() && (#[trigger] s[i]).id@ == agent.id@ {
                    final(self).agents@ == s.update(
                        choose|i: int| 0 <= i < s.len() && (#[trigger] s[i]).id@ == agent.id@,
                        agent,
                    )
                } else {
                    final(self).agents@ == s.push(agent)
                }
            }),
            final(self).root_id == if old(self).root_id is None && agent.parent_id is None {
                Some(agent.id)
            } else {
                old(self).root_id
            },
    {
        if self.root_id.is_none() && agent.parent_id.is_none() {
            self.root_id = Some(agent.id.clone());
        }
        let n = self.agents.len();
        let mut i: usize = 0;
        while i < n
            invariant
                old(self).wf(),
                n == self.agents@.len(),
                self.agents@ == old(self).agents@,
                self.root_id == if old(self).root_id is None && agent.parent_id is None {
                    Some(agent.id)
                } else {
                    old(self).root_id
                },
                0 <= i <= n,
                forall|j: int| 0 <= j < i ==> (#[trigger] self.agents@[j]).id@ != agent.id@,
            decreases n - i,
        {
            if str_eq(self.agents[i].id.as_str(), agent.id.as_str()) {
                let ghost w = i as int;
                let _old = self.agents.remove(i);
                self.agents.insert(i, agent);
                proof {
                    let s = old(self).agents@;
                    assert(s[w].id@ == agent.id@);
                    let c = choose|k: int| 0 <= k < s.len() && (#[trigger] s[k]).id@ == agent.id@;
                    assert(s[c].id@ == agent.id@);
                    if c != w {
                        assert(s[c].id@ != s[w].id@);
                    }
                    assert(self.agents@ =~= s.update(w, agent));
                }
                return ;
            }
            i = i + 1;
        }
        self.agents.push(agent);
    }

    /// The agents whose parent is `agent_id`, in insertion order.
    pub fn children_of(&self, agent_id: &str) -> (r: Vec<AgentNode>)
        ensures
            r@ == self.agents@.filter(|a: AgentNode| spec_is_child_of(a, agent_id@)),
    {
        let ghost pred = |a: AgentNode| spec_is_child_of(a, agent_id@);
        let mut r: Vec<AgentNode> = Vec::new();
        let mut i: usize = 0;
        proof {
            reveal(Seq::filter);
            assert(self.agents@.take(0) =~= Seq::<AgentNode>::empty());
            assert(self.agents@.take(0).filter(pred) =~= Seq::<AgentNode>::empty());
        }
        while i < self.agents.len()
            invariant
                0 <= i <= self.agents@.len(),
                r@ == self.agents@.take(i as int).filter(
                    |a: AgentNode| spec_is_child_of(a, agent_id@),
                ),
            decreases self.agents@.len() - i,
        {
            let a = &self.agents[i];
            let is_child = match &a.parent_id {
                Some(p) => str_eq(p.as_str(), agent_id),
                None => false,
            };
            proof {
                reveal(Seq::filter);
                let t1 = self.agents@.take(i + 1);
                assert(t1.drop_last() =~= self.agents@.take(i as int));
                assert(t1.last() == self.agents@[i as int]);
            }
            if is_child {
                r.push(clone_agent(a));
            }
            i = i + 1;
        }
        proof {
            assert(self.agents@.take(self.agents@.len() as int) =~= self.agents@);
        }
        r
    }
}

fn clone_agent(a: &AgentNode) -> (r: AgentNode)
    ensures
        r == *a,
{
    AgentNode {
        id: a.id.clone(),
        parent_id: match &a.parent_id {
            Some(p) => Some(p.clone()),
            None => None,
        },
        session_file: a.session_file.clone(),
        label: a.label.clone(),
    }
}

} // verus!
