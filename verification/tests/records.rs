use secret_sharing_algos::config::DbConfig;
use secret_sharing_algos::models::{CastedVotes, PollOption, ResultsQuery, User, VoteOption};

#[test]
fn db_config_new_keeps_the_three_values() {
    let config = DbConfig::new("mongodb", "mongodb://localhost:27017".to_string(), "rustest");
    assert_eq!(config.db_type, "mongodb");
    assert_eq!(config.connection_string, "mongodb://localhost:27017");
    assert_eq!(config.database_name, "rustest");
}

#[test]
fn db_config_new_accepts_empty_values() {
    let config = DbConfig::new("", String::new(), "");
    assert_eq!(config.db_type, "");
    assert_eq!(config.connection_string, "");
    assert_eq!(config.database_name, "");
}

#[test]
fn records_hold_their_fields() {
    let option = PollOption { option_id: 1, text: "yes".to_string(), votes: 3 };
    assert_eq!(option.clone().votes, 3);
    assert_eq!(option.text, "yes");
    let query = ResultsQuery { live: true };
    assert!(query.live);
    let vote = VoteOption { option_id: 1, username: "ada".to_string() };
    assert_eq!(vote.option_id, option.option_id);
    let user = User {
        user_id: 7,
        email: "ada@example.org".to_string(),
        votes: vec![CastedVotes { poll_id: 2, option_id: 1 }],
    };
    assert_eq!(user.votes.len(), 1);
    assert_eq!(user.votes[0].poll_id, 2);
    assert_eq!(user.clone().email, "ada@example.org");
}
