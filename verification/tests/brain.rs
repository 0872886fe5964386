use tetoscribe::brain::{
    brain_backend_from_env, command_output, fallback_name_for_remaining_speaker, mentions_name,
    mentions_self_as, parse_speaker_lines, BackendError, BrainBackend, BrainConfig, BrainError,
    BrainStep, EngineError, KnownNames, KnownNamesError, RegexIdentityEngine, TetoBrain,
};
use tetoscribe::env::EnvVars;
use tetoscribe::protocol::BrainIdentityRequest;
use tetoscribe::string_map::StringMap;

fn test_known_names() -> KnownNames {
    KnownNames::from_json(
        r#"{
                "Алиса": ["alice", "алиса"],
                "Борис": ["bob", "борис"]
            }"#,
    )
    .unwrap()
}

fn owned(tags: &[&str]) -> Vec<String> {
    tags.iter().map(|tag| tag.to_string()).collect()
}

fn named(engine: &RegexIdentityEngine, tags: &[&str], transcript: &str) -> Vec<(String, String)> {
    let request = BrainIdentityRequest::new("session-1", owned(tags), transcript);
    let response = engine.infer(&request).unwrap();
    assert_eq!(response.session_id, "session-1");
    (0..response.identities.len())
        .map(|i| {
            let (tag, name) = response.identities.entry(i);
            (tag.clone(), name.clone())
        })
        .collect()
}

fn pair(a: &str, b: &str) -> (String, String) {
    (a.to_owned(), b.to_owned())
}

#[test]
fn parses_speaker_tagged_transcript() {
    let lines = parse_speaker_lines("Speaker_1: Алло, Алиса.\nSpeaker_2: Привет, Борис.");

    assert_eq!(
        lines,
        vec![
            ("Speaker_1".to_owned(), "Алло, Алиса.".to_owned()),
            ("Speaker_2".to_owned(), "Привет, Борис.".to_owned()),
        ]
    );
}

#[test]
fn regex_engine_maps_mentioned_names_from_config() {
    let request = BrainIdentityRequest::new(
        "session-1",
        vec!["Speaker_1".to_owned(), "Speaker_2".to_owned()],
        "Speaker_1: Алло, Алиса.\nSpeaker_2: Привет, Борис.",
    );
    let engine = RegexIdentityEngine::new(test_known_names());

    let response = engine.infer(&request).unwrap();

    assert_eq!(response.identities.get("Speaker_1"), Some(&"Алиса".to_owned()));
    assert_eq!(response.identities.get("Speaker_2"), Some(&"Борис".to_owned()));
}

#[test]
fn regex_engine_maps_self_introduction_from_config() {
    let request = BrainIdentityRequest::new(
        "session-1",
        vec!["Speaker_1".to_owned(), "Speaker_2".to_owned()],
        "Speaker_1: Привет, это Алиса.\nSpeaker_2: Рад знакомству.",
    );
    let engine = RegexIdentityEngine::new(test_known_names());

    let response = engine.infer(&request).unwrap();

    assert_eq!(response.identities.get("Speaker_1"), Some(&"Алиса".to_owned()));
}

#[test]
fn known_names_rejects_invalid_json() {
    let err = KnownNames::from_json(r#"{"Алиса": "алиса"}"#).unwrap_err();

    assert!(err.message().contains("expected JSON object"));
}

#[test]
fn speaker_lines_skip_blanks_and_name_the_unknown() {
    assert_eq!(
        parse_speaker_lines("\r\n  Speaker_1 : hello: there \r\n\n just words \n:\n"),
        vec![
            pair("Speaker_1", "hello: there"),
            pair("unknown", "just words"),
            pair("", ""),
        ]
    );
    assert!(parse_speaker_lines("").is_empty());
}

#[test]
fn known_names_are_trimmed_and_put_in_order() {
    let names =
        KnownNames::from_json(r#"{" Zoe ": [" ZOE ", "  "], "Ann": ["Annie", "ÄNN"]}"#).unwrap();
    assert_eq!(names.canonical_names(), vec!["Zoe", "Ann"]);
    assert_eq!(
        format!("{:?}", names.iter()),
        r#"[KnownName { canonical: "Zoe", aliases: ["zoe"] }, KnownName { canonical: "Ann", aliases: ["annie", "änn"] }]"#
    );

    let ordered = KnownNames::from_json(r#"{"b": [], "a": []}"#).unwrap();
    assert_eq!(ordered.canonical_names(), vec!["a", "b"]);
}

#[test]
fn known_names_may_be_blank_but_a_name_may_not() {
    assert!(KnownNames::from_json(" \n").unwrap().canonical_names().is_empty());
    let err = KnownNames::from_json(r#"{"  ": ["x"]}"#).unwrap_err();
    assert!(matches!(err, KnownNamesError::EmptyCanonical));
    assert_eq!(err.message(), "known name canonical value cannot be empty");
    assert!(matches!(
        KnownNames::from_json("nonsense").unwrap_err(),
        KnownNamesError::InvalidJson(_)
    ));
}

#[test]
fn mentions_follow_the_markers() {
    assert!(mentions_self_as("this is mike", "mike", &[]));
    assert!(mentions_self_as("i'm mike", "mike", &[]));
    assert!(!mentions_self_as("mike is here", "mike", &[]));
    assert!(mentions_self_as("well, i am mick", "mike", &["MICK".to_owned()]));
    assert!(!mentions_self_as("this is mick", "mike", &["mick".to_owned()]));
    assert!(mentions_self_as("это миша", "mike", &["Миша".to_owned()]));
    assert!(mentions_name("ask mick", &["MICK".to_owned()]));
    assert!(!mentions_name("ask nick", &["mick".to_owned()]));
}

#[test]
fn left_speakers_get_the_names_that_are_left() {
    let engine = RegexIdentityEngine::new(test_known_names());
    assert_eq!(
        named(&engine, &["Speaker_1", "Speaker_2"], "Speaker_1: hi\nSpeaker_2: hello"),
        vec![pair("Speaker_1", "Алиса"), pair("Speaker_2", "Борис")]
    );
    assert_eq!(
        named(&engine, &["Speaker_1", "Speaker_2"], "Speaker_2: i am alice\nSpeaker_1: hi"),
        vec![pair("Speaker_1", "Борис"), pair("Speaker_2", "Алиса")]
    );
}

#[test]
fn uneven_rest_is_left_without_names() {
    let engine = RegexIdentityEngine::new(test_known_names());
    assert_eq!(
        named(&engine, &["Speaker_1", "Speaker_2", "Speaker_3"], "Speaker_1: hi"),
        vec![]
    );
    let request = BrainIdentityRequest::new("s", owned(&["Speaker_1"]), "Speaker_1: hi");
    assert!(engine.infer(&request).unwrap().identities.is_empty());
}

#[test]
fn later_mentions_replace_earlier_ones() {
    let engine = RegexIdentityEngine::new(test_known_names());
    assert_eq!(
        named(&engine, &["Speaker_1"], "Speaker_1: alice\nSpeaker_1: bob\nother: alice"),
        vec![pair("Speaker_1", "Борис"), pair("other", "Алиса")]
    );
}

#[test]
fn fallback_counts_the_speakers_before() {
    let names = test_known_names();
    let tags = owned(&["a", "b"]);
    let none: StringMap<String> = StringMap::new();
    assert_eq!(
        fallback_name_for_remaining_speaker("b", &none, &tags, &names),
        Some("Борис".to_owned())
    );
    assert_eq!(
        fallback_name_for_remaining_speaker("c", &none, &tags, &names),
        None
    );
    let mut taken: StringMap<String> = StringMap::new();
    taken.insert("a".to_owned(), "Борис".to_owned());
    assert_eq!(
        fallback_name_for_remaining_speaker("b", &taken, &tags, &names),
        Some("Алиса".to_owned())
    );
}

#[test]
fn brain_config_reads_the_environment() {
    let mut env = EnvVars::new();
    let config = BrainConfig::from_env(&env);
    assert_eq!(config.redis_url, "redis://127.0.0.1/");
    assert_eq!(config.brain_queue, "teto_brain_queue");
    assert_eq!(config.brain_resolutions_queue, "brain_resolutions");
    assert_eq!(config.reconnect_delay_secs, 2);
    env.set("REDIS_URL", " redis://elsewhere/ ");
    env.set("TETO_BRAIN_QUEUE", "  ");
    env.set("TETO_BRAIN_RECONNECT_DELAY_SECS", "7");
    let config = BrainConfig::from_env(&env);
    assert_eq!(config.redis_url, "redis://elsewhere/");
    assert_eq!(config.brain_queue, "teto_brain_queue");
    assert_eq!(config.reconnect_delay_secs, 7);
    env.set("TETO_BRAIN_RECONNECT_DELAY_SECS", "0");
    assert_eq!(BrainConfig::from_env(&env).reconnect_delay_secs, 2);
}

#[test]
fn backend_follows_the_environment() {
    let mut env = EnvVars::new();
    env.set("TETO_KNOWN_NAMES_JSON", r#"{"Алиса": ["alice"]}"#);
    assert!(matches!(brain_backend_from_env(&env), Ok(BrainBackend::Regex(_))));
    env.set("TETO_BRAIN_BACKEND", " Command ");
    assert!(matches!(
        brain_backend_from_env(&env),
        Err(BackendError::MissingCommand)
    ));
    env.set("TETO_BRAIN_COMMAND", " run\tit  now ");
    match brain_backend_from_env(&env).unwrap() {
        BrainBackend::Command(words) => assert_eq!(words, owned(&["run", "it", "now"])),
        BrainBackend::Regex(_) => panic!("a command was asked for"),
    }
    env.set("TETO_BRAIN_BACKEND", "LLM");
    let err = brain_backend_from_env(&env).unwrap_err();
    assert_eq!(
        err.message(),
        "unsupported TETO_BRAIN_BACKEND 'llm'; expected 'regex' or 'command'"
    );
    env.set("TETO_BRAIN_BACKEND", "regex");
    env.set("TETO_KNOWN_NAMES_JSON", "[]");
    let err = brain_backend_from_env(&env).unwrap_err();
    assert_eq!(
        err.message(),
        "failed to initialize regex identity engine: failed to parse TETO_KNOWN_NAMES_JSON: \
         expected JSON object mapping canonical names to aliases"
    );
    let err = RegexIdentityEngine::from_env(&env).unwrap_err();
    assert_eq!(
        err.message(),
        "failed to parse TETO_KNOWN_NAMES_JSON: \
         expected JSON object mapping canonical names to aliases"
    );
    env.set("TETO_KNOWN_NAMES_JSON", r#"{" ": []}"#);
    let err = RegexIdentityEngine::from_env(&env).unwrap_err();
    assert!(matches!(err, EngineError::KnownNames(KnownNamesError::EmptyCanonical)));
    assert_eq!(
        BackendError::MissingCommand.message(),
        "TETO_BRAIN_COMMAND is required when TETO_BRAIN_BACKEND=command"
    );
}

#[test]
fn backend_answers_or_names_the_program() {
    let request = BrainIdentityRequest::new("s", owned(&["a", "b"]), "a: alice");
    let regex = BrainBackend::Regex(RegexIdentityEngine::new(test_known_names()));
    match regex.infer(&request) {
        Ok(BrainStep::Answer(response)) => {
            assert_eq!(response.session_id, "s");
            assert_eq!(response.identities.get("a"), Some(&"Алиса".to_owned()));
            assert_eq!(response.identities.get("b"), Some(&"Борис".to_owned()));
        }
        other => panic!("no answer: {other:?}"),
    }
    match BrainBackend::Command(owned(&["run", "it", "now"])).infer(&request) {
        Ok(BrainStep::Run { program, args }) => {
            assert_eq!(program, "run");
            assert_eq!(args, owned(&["it", "now"]));
        }
        other => panic!("nothing to run: {other:?}"),
    }
    let err = BrainBackend::Command(Vec::new()).infer(&request).unwrap_err();
    assert_eq!(err, BrainError::EmptyCommand);
    assert_eq!(
        err.message(),
        "TETO_BRAIN_COMMAND must contain at least one executable"
    );
}

#[test]
fn command_output_is_taken_where_it_succeeded() {
    assert_eq!(
        command_output(true, "exit status: 0".to_owned(), vec![1, 2], b"noise"),
        Ok(vec![1, 2])
    );
    let err = command_output(false, "exit status: 3".to_owned(), vec![1], b"bad \xff end").unwrap_err();
    assert_eq!(
        err.message(),
        "brain command exited with status exit status: 3: bad \u{fffd} end"
    );
}

#[test]
fn brain_holds_its_settings() {
    let config = BrainConfig::from_env(&EnvVars::new());
    let brain = TetoBrain::new(config.clone(), BrainBackend::Command(owned(&["x"])));
    assert_eq!(brain.config(), &config);
    assert!(matches!(brain.backend(), BrainBackend::Command(words) if words.len() == 1));
}
