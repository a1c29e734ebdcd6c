use kerai::agents::{parse_agent_kind, register_agent, remove_agent, Agent, AgentError, AgentKind};

#[test]
fn register_and_update() {
    let mut agents: Vec<Agent> = Vec::new();
    assert_eq!(register_agent(&mut agents, "bot", "robot", None, None, 1), Err(AgentError::InvalidKind));
    assert_eq!(register_agent(&mut agents, "bot", "llm", Some("gpt"), None, 1), Ok((1, true)));
    assert_eq!(agents[0].config, "{}");
    assert_eq!(register_agent(&mut agents, "bot", "tool", None, Some("{\"k\":1}"), 2), Ok((1, false)));
    assert_eq!(agents.len(), 1);
    assert_eq!(agents[0].kind, AgentKind::Tool);
    assert_eq!(agents[0].model, None);
    assert_eq!(agents[0].config, "{\"k\":1}");
    assert_eq!(parse_agent_kind("swarm"), Some(AgentKind::Swarm));
    assert_eq!(parse_agent_kind("human"), Some(AgentKind::Human));
}

#[test]
fn removal_rules() {
    let mut agents: Vec<Agent> = Vec::new();
    register_agent(&mut agents, "a", "human", None, None, 7).unwrap();
    assert_eq!(remove_agent(&mut agents, "zzz", &[], &[]), Ok(false));
    assert_eq!(remove_agent(&mut agents, "a", &[7], &[]), Err(AgentError::HasPerspectives));
    assert_eq!(remove_agent(&mut agents, "a", &[], &[7]), Err(AgentError::HasAssociations));
    assert_eq!(agents.len(), 1);
    assert_eq!(remove_agent(&mut agents, "a", &[8], &[9]), Ok(true));
    assert!(agents.is_empty());
}
