use hope::cortex::{first_reply, key_notice, should_answer, AgentCommand, SpineCursor};

#[test]
fn parse_write_command() {
    let cmd = AgentCommand::parse("CMD:WRITE:Szia Máté!");
    assert_eq!(cmd, AgentCommand::WriteMessage("Szia Máté!".to_string()));
}

#[test]
fn parse_status_command() {
    assert_eq!(AgentCommand::parse("CMD:STATUS"), AgentCommand::QueryStatus);
}

#[test]
fn parse_noop() {
    assert_eq!(AgentCommand::parse("CMD:NOOP"), AgentCommand::Noop);
    assert_eq!(AgentCommand::parse("   "), AgentCommand::Noop);
}

#[test]
fn free_text_is_noop() {
    let cmd = AgentCommand::parse("Ez egy szöveges válasz, nem parancs.");
    assert_eq!(cmd, AgentCommand::Noop);
}

#[test]
fn oversized_payload_is_invalid() {
    let long = "x".repeat(241);
    let raw = format!("CMD:WRITE:{}", long);
    assert!(matches!(AgentCommand::parse(&raw), AgentCommand::Invalid(_)));
}

#[test]
fn control_char_is_invalid() {
    let cmd = AgentCommand::parse("CMD:WRITE:hello\x01world");
    assert!(matches!(cmd, AgentCommand::Invalid(_)));
}

#[test]
fn executable_check() {
    assert!(AgentCommand::WriteMessage("x".to_string()).is_executable());
    assert!(AgentCommand::QueryStatus.is_executable());
    assert!(!AgentCommand::Noop.is_executable());
}

#[test]
fn write_payload_is_trimmed_on_both_sides() {
    let cmd = AgentCommand::parse("  \t CMD:WRITE:   hello spine \n ");
    assert_eq!(cmd, AgentCommand::WriteMessage("hello spine".to_string()));
}

#[test]
fn empty_write_payload_reports_size() {
    assert_eq!(
        AgentCommand::parse("CMD:WRITE:   "),
        AgentCommand::Invalid("WRITE payload méret hiba: 0 byte".to_string())
    );
}

#[test]
fn oversized_payload_reports_byte_count() {
    let raw = format!("CMD:WRITE:{}", "x".repeat(241));
    assert_eq!(
        AgentCommand::parse(&raw),
        AgentCommand::Invalid("WRITE payload méret hiba: 241 byte".to_string())
    );
}

#[test]
fn payload_limit_counts_utf8_bytes() {
    // 120 two-byte characters: 240 bytes, accepted.
    let ok = format!("CMD:WRITE:{}", "é".repeat(120));
    assert_eq!(AgentCommand::parse(&ok), AgentCommand::WriteMessage("é".repeat(120)));
    // 121 of them: 242 bytes, refused although only 121 characters.
    let too_long = format!("CMD:WRITE:{}", "é".repeat(121));
    assert_eq!(
        AgentCommand::parse(&too_long),
        AgentCommand::Invalid("WRITE payload méret hiba: 242 byte".to_string())
    );
    let exact = format!("CMD:WRITE:{}", "x".repeat(240));
    assert_eq!(AgentCommand::parse(&exact), AgentCommand::WriteMessage("x".repeat(240)));
}

#[test]
fn line_feed_inside_payload_is_allowed() {
    assert_eq!(
        AgentCommand::parse("CMD:WRITE:first\nsecond"),
        AgentCommand::WriteMessage("first\nsecond".to_string())
    );
    assert_eq!(
        AgentCommand::parse("CMD:WRITE:tab\there"),
        AgentCommand::Invalid("WRITE payload control karaktert tartalmaz".to_string())
    );
}

#[test]
fn status_must_match_whole_reply() {
    assert_eq!(AgentCommand::parse("  CMD:STATUS  "), AgentCommand::QueryStatus);
    assert_eq!(AgentCommand::parse("CMD:STATUS now"), AgentCommand::Noop);
    assert_eq!(AgentCommand::parse("cmd:status"), AgentCommand::Noop);
    assert!(!AgentCommand::Invalid("x".to_string()).is_executable());
}

#[test]
fn first_reply_or_notice() {
    assert_eq!(first_reply(&vec!["a".to_string(), "b".to_string()]), "a");
    assert_eq!(first_reply(&vec![]), "Nem érkezett válasz az API-tól.");
}

#[test]
fn answers_only_new_messages() {
    assert!(should_answer("Szia!"));
    assert!(!should_answer(""));
    assert!(!should_answer("AGENT: kész"));
    assert!(should_answer("agent: kisbetűs"));
}

#[test]
fn cursor_hands_out_each_number_once() {
    let mut c = SpineCursor::starting_at(5);
    assert_eq!(c.step(5), None);
    assert_eq!(c.step(7), Some(5));
    assert_eq!(c.step(7), Some(6));
    assert_eq!(c.step(7), None);
    assert_eq!(c.next, 7);
}

#[test]
fn missing_key_gets_a_notice() {
    assert_eq!(
        key_notice("MISSING_KEY").as_deref(),
        Some("Hiba: Hiányzik a MINIMAX_API_KEY környezeti változó!")
    );
    assert!(key_notice("sk-123").is_none());
    assert!(key_notice("MISSING_KEY ").is_none());
    assert!(key_notice("").is_none());
}

#[test]
fn cursor_hands_out_each_number_once_in_order() {
    let mut c = SpineCursor::starting_at(10);
    let readings = [9u64, 12, 12, 12, 11, 20, 13, 13];
    let handed: Vec<u64> = readings.iter().filter_map(|&w| c.step(w)).collect();
    assert_eq!(handed, vec![10, 11, 12]);
    assert_eq!(c.next, 13);
}
