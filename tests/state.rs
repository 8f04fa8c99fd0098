use z11n_core::state::AgentState;

#[test]
fn it_works() {
    println!("{}", AgentState::Online.to_string());
}

#[test]
fn state_names() {
    assert_eq!(AgentState::Online.to_string(), "Online");
    assert_eq!(AgentState::Offline.to_string(), "Offline");
}
