//! The registry of AI agents: registered (or updated) by name, removed only once they
//! hold no perspectives or associations.

use vstd::prelude::*;
use crate::text::str_is;

verus! {

/// What kind of agent it is.
#[derive(Clone, Copy, Debug, PartialEq, Eq, Structural)]
pub enum AgentKind {
    Human,
    Llm,
    Tool,
    Swarm,
}

pub open spec fn agent_kind_named(s: Seq<char>) -> Option<AgentKind> {
    if s == "human"@ {
        Some(AgentKind::Human)
    } else if s == "llm"@ {
        Some(AgentKind::Llm)
    } else if s == "tool"@ {
        Some(AgentKind::Tool)
    } else if s == "swarm"@ {
        Some(AgentKind::Swarm)
    } else {
        None
    }
}

/// The name of each agent kind.
pub open spec fn agent_kind_text(k: AgentKind) -> Seq<char> {
    match k {
        AgentKind::Human => "human"@,
        AgentKind::Llm => "llm"@,
        AgentKind::Tool => "tool"@,
        AgentKind::Swarm => "swarm"@,
    }
}

/// Agent kinds are exactly `human`, `llm`, `tool` and `swarm`: each of these names
/// reads as its own kind, and no other name is a kind.
pub proof fn law_agent_kinds(s: Seq<char>, k: AgentKind)
    ensures
        agent_kind_named(agent_kind_text(k)) == Some(k),
        agent_kind_named(s) matches Some(j) ==> s == agent_kind_text(j),
{
    reveal_strlit("human");
    reveal_strlit("llm");
    reveal_strlit("tool");
    reveal_strlit("swarm");
    assert("human"@ != "llm"@) by { assert("human"@.len() != "llm"@.len()); }
    assert("human"@ != "tool"@) by { assert("human"@.len() != "tool"@.len()); }
    assert("human"@ != "swarm"@) by { assert("human"@[0] != "swarm"@[0]); }
    assert("llm"@ != "tool"@) by { assert("llm"@.len() != "tool"@.len()); }
    assert("llm"@ != "swarm"@) by { assert("llm"@.len() != "swarm"@.len()); }
    assert("tool"@ != "swarm"@) by { assert("tool"@.len() != "swarm"@.len()); }
}

/// The kind of agent a name denotes.
pub fn parse_agent_kind(s: &str) -> (k: Option<AgentKind>)
    ensures
        k == agent_kind_named(s@),
{
    if str_is(s, "human") {
        Some(AgentKind::Human)
    } else if str_is(s, "llm") {
        Some(AgentKind::Llm)
    } else if str_is(s, "tool") {
        Some(AgentKind::Tool)
    } else if str_is(s, "swarm") {
        Some(AgentKind::Swarm)
    } else {
        None
    }
}

/// A registered agent.
#[derive(Clone, Debug)]
pub struct Agent {
    pub id: u128,
    pub name: String,
    pub kind: AgentKind,
    pub model: Option<String>,
    /// The configuration as JSON text (`{}` when none was given).
    pub config: String,
}

/// Why an agent operation was refused.
#[derive(Clone, Copy, Debug, PartialEq, Eq, Structural)]
pub enum AgentError {
    InvalidKind,
    HasPerspectives,
    HasAssociations,
}

/// An agent as plain values: id, name, kind, model, configuration.
pub open spec fn agent_view(a: Agent) -> (u128, Seq<char>, AgentKind, Option<Seq<char>>, Seq<char>) {
    (a.id, a.name@, a.kind, match a.model { Some(m) => Some(m@), None => None }, a.config@)
}

pub open spec fn agents_view(s: Seq<Agent>) -> Seq<(u128, Seq<char>, AgentKind, Option<Seq<char>>, Seq<char>)> {
    s.map_values(|a: Agent| agent_view(a))
}

/// The position of the agent with a name.
pub open spec fn agent_index(s: Seq<(u128, Seq<char>, AgentKind, Option<Seq<char>>, Seq<char>)>, name: Seq<char>) -> Option<int>
    decreases s.len(),
{
    if s.len() == 0 {
        None
    } else {
        match agent_index(s.drop_last(), name) {
            Some(i) => Some(i),
            None => if s.last().1 == name { Some(s.len() - 1) } else { None },
        }
    }
}

proof fn lemma_agent_index(s: Seq<(u128, Seq<char>, AgentKind, Option<Seq<char>>, Seq<char>)>, name: Seq<char>)
    ensures
        agent_index(s, name) matches Some(i) ==> 0 <= i < s.len() && s[i].1 == name
            && forall|j: int| 0 <= j < i ==> (#[trigger] s[j]).1 != name,
        agent_index(s, name) is None ==> forall|j: int| 0 <= j < s.len() ==> (#[trigger] s[j]).1 != name,
    decreases s.len(),
{
    if s.len() > 0 {
        lemma_agent_index(s.drop_last(), name);
        assert forall|j: int| 0 <= j < s.len() - 1 implies s.drop_last()[j] == s[j] by {}
    }
}

proof fn lemma_agent_index_first(s: Seq<(u128, Seq<char>, AgentKind, Option<Seq<char>>, Seq<char>)>, name: Seq<char>, i: int)
    requires
        0 <= i < s.len(),
        s[i].1 == name,
        forall|j: int| 0 <= j < i ==> (#[trigger] s[j]).1 != name,
    ensures
        agent_index(s, name) == Some(i),
    decreases s.len(),
{
    lemma_agent_index(s, name);
    if i < s.len() - 1 {
        assert forall|j: int| 0 <= j < i implies (#[trigger] s.drop_last()[j]).1 != name by {
            assert(s.drop_last()[j] == s[j]);
        }
        assert(s.drop_last()[i] == s[i]);
        lemma_agent_index_first(s.drop_last(), name, i);
    } else {
        lemma_agent_index(s.drop_last(), name);
        assert forall|j: int| 0 <= j < s.drop_last().len() implies (#[trigger] s.drop_last()[j]).1 != name by {
            assert(s.drop_last()[j] == s[j]);
        }
    }
}

fn find_agent(agents: &Vec<Agent>, name: &str) -> (r: Option<usize>)
    ensures
        r matches Some(i) ==> i < agents@.len() && agent_index(agents_view(agents@), name@) == Some(i as int),
        r is None ==> agent_index(agents_view(agents@), name@) is None,
{
    let ghost av = agents_view(agents@);
    proof {
        lemma_agent_index(av, name@);
    }
    let mut i: usize = 0;
    while i < agents.len()
        invariant
            i <= agents@.len(),
            av == agents_view(agents@),
            av.len() == agents@.len(),
            forall|j: int| 0 <= j < i ==> (#[trigger] av[j]).1 != name@,
        decreases agents@.len() - i,
    {
        if str_is(agents[i].name.as_str(), name) {
            proof {
                lemma_agent_index_first(av, name@, i as int);
            }
            return Some(i);
        }
        i = i + 1;
    }
    proof {
        if agent_index(av, name@) is Some {
            assert(false);
        }
    }
    None
}

/// The registry after registering an agent: an agent of that name is updated (it keeps
/// its id), else one is added with `new_id`.
pub open spec fn registered(
    s: Seq<(u128, Seq<char>, AgentKind, Option<Seq<char>>, Seq<char>)>,
    name: Seq<char>,
    kind: AgentKind,
    model: Option<Seq<char>>,
    config: Seq<char>,
    new_id: u128,
) -> Seq<(u128, Seq<char>, AgentKind, Option<Seq<char>>, Seq<char>)> {
    match agent_index(s, name) {
        Some(i) => s.update(i, (s[i].0, name, kind, model, config)),
        None => s.push((new_id, name, kind, model, config)),
    }
}

/// No two agents share a name.
pub open spec fn names_unique(s: Seq<(u128, Seq<char>, AgentKind, Option<Seq<char>>, Seq<char>)>) -> bool {
    forall|i: int, j: int| 0 <= i < j < s.len() ==> (#[trigger] s[i]).1 != (#[trigger] s[j]).1
}

/// Registration is an upsert by name: the registry keeps one agent per name, the name
/// then finds the agent as just registered (with its old id when it existed), other
/// names find what they found before, and registering the same agent again changes
/// nothing.
pub proof fn law_register_is_upsert(
    s: Seq<(u128, Seq<char>, AgentKind, Option<Seq<char>>, Seq<char>)>,
    name: Seq<char>,
    kind: AgentKind,
    model: Option<Seq<char>>,
    config: Seq<char>,
    new_id: u128,
    other: Seq<char>,
)
    requires
        names_unique(s),
    ensures
        names_unique(registered(s, name, kind, model, config, new_id)),
        ({
            let r = registered(s, name, kind, model, config, new_id);
            let id = match agent_index(s, name) { Some(i) => s[i].0, None => new_id };
            &&& agent_index(r, name) matches Some(i) && r[i] == (id, name, kind, model, config)
            &&& other != name ==> agent_index(r, other) == agent_index(s, other)
            &&& registered(r, name, kind, model, config, new_id) == r
        }),
{
    lemma_agent_index(s, name);
    lemma_agent_index(s, other);
    let r = registered(s, name, kind, model, config, new_id);
    match agent_index(s, name) {
        Some(i) => {
            assert forall|j: int| 0 <= j < i implies (#[trigger] r[j]).1 != name by {
                assert(r[j] == s[j]);
            }
            lemma_agent_index_first(r, name, i);
            assert forall|a: int, b: int| 0 <= a < b < r.len() implies (#[trigger] r[a]).1 != (#[trigger] r[b]).1 by {
                if a != i {
                    assert(r[a] == s[a]);
                }
                if b != i {
                    assert(r[b] == s[b]);
                }
            }
            if other != name {
                match agent_index(s, other) {
                    Some(k) => {
                        assert forall|j: int| 0 <= j < k implies (#[trigger] r[j]).1 != other by {
                            if j != i {
                                assert(r[j] == s[j]);
                            }
                        }
                        assert(r[k] == s[k]);
                        lemma_agent_index_first(r, other, k);
                    },
                    None => {
                        lemma_agent_index(r, other);
                        if agent_index(r, other) is Some {
                            let k = agent_index(r, other)->0;
                            if k != i {
                                assert(r[k] == s[k]);
                            }
                        }
                    },
                }
            }
            assert(r.update(i, (r[i].0, name, kind, model, config)) =~= r);
        },
        None => {
            assert forall|j: int| 0 <= j < s.len() implies (#[trigger] r[j]).1 != name by {
                assert(r[j] == s[j]);
            }
            lemma_agent_index_first(r, name, s.len() as int);
            assert forall|a: int, b: int| 0 <= a < b < r.len() implies (#[trigger] r[a]).1 != (#[trigger] r[b]).1 by {
                assert(r[a] == s[a]);
                if b < s.len() {
                    assert(r[b] == s[b]);
                }
            }
            if other != name {
                match agent_index(s, other) {
                    Some(k) => {
                        assert forall|j: int| 0 <= j < k implies (#[trigger] r[j]).1 != other by {
                            assert(r[j] == s[j]);
                        }
                        assert(r[k] == s[k]);
                        lemma_agent_index_first(r, other, k);
                    },
                    None => {
                        lemma_agent_index(r, other);
                        if agent_index(r, other) is Some {
                            let k = agent_index(r, other)->0;
                            if k < s.len() {
                                assert(r[k] == s[k]);
                            }
                        }
                    },
                }
            }
            let i = s.len() as int;
            assert(r.update(i, (r[i].0, name, kind, model, config)) =~= r);
        },
    }
}

/// Register an agent, or update the kind, model and configuration of the agent with that
/// name. Returns its id and whether it is new. `new_id` is the id a new agent gets;
/// `config` is its configuration as JSON text, if any.
pub fn register_agent(
    agents: &mut Vec<Agent>,
    name: &str,
    kind: &str,
    model: Option<&str>,
    config: Option<&str>,
    new_id: u128,
) -> (r: Result<(u128, bool), AgentError>)
    ensures
        agent_kind_named(kind@) is None ==> r == Err::<(u128, bool), AgentError>(AgentError::InvalidKind)
            && final(agents)@ == old(agents)@,
        agent_kind_named(kind@) matches Some(k) ==> {
            let before = agents_view(old(agents)@);
            let cfg = match config { Some(c) => c@, None => "{}"@ };
            let m = match model { Some(x) => Some(x@), None => None };
            &&& agents_view(final(agents)@) == registered(before, name@, k, m, cfg, new_id)
            &&& r == Ok::<(u128, bool), AgentError>(match agent_index(before, name@) {
                Some(i) => (before[i].0, false),
                None => (new_id, true),
            })
        },
        names_unique(agents_view(old(agents)@)) ==> names_unique(agents_view(final(agents)@)),
{
    let k = match parse_agent_kind(kind) {
        Some(k) => k,
        None => return Err(AgentError::InvalidKind),
    };
    let cfg: String = match config {
        Some(c) => c.to_string(),
        None => "{}".to_string(),
    };
    let m: Option<String> = match model {
        Some(x) => Some(x.to_string()),
        None => None,
    };
    let ghost before = agents@;
    proof {
        if names_unique(agents_view(before)) {
            law_register_is_upsert(agents_view(before), name@, k,
                match model { Some(x) => Some(x@), None => None },
                match config { Some(c) => c@, None => "{}"@ }, new_id, name@);
        }
    }
    match find_agent(agents, name) {
        Some(i) => {
            let id = agents[i].id;
            let row = Agent { id, name: name.to_string(), kind: k, model: m, config: cfg };
            let _old = agents.remove(i);
            agents.insert(i, row);
            assert(agents@ =~= before.update(i as int, row));
            assert(agents_view(agents@) =~= registered(agents_view(before), name@, k,
                match model { Some(x) => Some(x@), None => None },
                match config { Some(c) => c@, None => "{}"@ }, new_id));
            Ok((id, false))
        },
        None => {
            let row = Agent { id: new_id, name: name.to_string(), kind: k, model: m, config: cfg };
            agents.push(row);
            assert(agents_view(agents@) =~= registered(agents_view(before), name@, k,
                match model { Some(x) => Some(x@), None => None },
                match config { Some(c) => c@, None => "{}"@ }, new_id));
            Ok((new_id, true))
        },
    }
}

/// Remove the agent with a name. `Ok(false)` when there is none; refused while it holds
/// perspectives or associations (given as the ids of the agents that hold some).
pub fn remove_agent(
    agents: &mut Vec<Agent>,
    name: &str,
    perspective_holders: &[u128],
    association_holders: &[u128],
) -> (r: Result<bool, AgentError>)
    ensures
        ({
            let before = agents_view(old(agents)@);
            match agent_index(before, name@) {
                None => r == Ok::<bool, AgentError>(false) && final(agents)@ == old(agents)@,
                Some(i) => if perspective_holders@.contains(before[i].0) {
                    r == Err::<bool, AgentError>(AgentError::HasPerspectives) && final(agents)@ == old(agents)@
                } else if association_holders@.contains(before[i].0) {
                    r == Err::<bool, AgentError>(AgentError::HasAssociations) && final(agents)@ == old(agents)@
                } else {
                    r == Ok::<bool, AgentError>(true) && agents_view(final(agents)@) == before.remove(i)
                },
            }
        }),
{
    let i = match find_agent(agents, name) {
        Some(i) => i,
        None => return Ok(false),
    };
    let id = agents[i].id;
    assert(agents_view(agents@)[i as int].0 == id);
    if crate::ledger::wallet_exists(perspective_holders, id) {
        return Err(AgentError::HasPerspectives);
    }
    if crate::ledger::wallet_exists(association_holders, id) {
        return Err(AgentError::HasAssociations);
    }
    let ghost before = agents@;
    let _gone = agents.remove(i);
    assert(agents_view(agents@) =~= agents_view(before).remove(i as int));
    Ok(true)
}

} // verus!
