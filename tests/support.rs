use std::str::FromStr;

use rag_postprocess::budget::max_tokens_for_rag_chat;
use rag_postprocess::chat::{blank, push_turn, context_limit_for_message, context_limit_in_chat, trailing_user_messages, ChatMessage};
use rag_postprocess::git::{file_changes_from_deltas, Checkpoint, Delta, DeltaKind, FileChangeStatus};
use rag_postprocess::integrations::{failed_integration_names_after_last_user_message, go_to_configuration_message};
use rag_postprocess::loader::make_file;
use rag_postprocess::model::ContextFile;
use rag_postprocess::tokens::{count_tokens, postprocess_at_results2};
use tokenizers::Tokenizer;

const WORDS: &str = r#"{"version":"1.0","truncation":null,"padding":null,"added_tokens":[],"normalizer":null,"pre_tokenizer":{"type":"WhitespaceSplit"},"post_processor":null,"decoder":null,"model":{"type":"WordLevel","vocab":{"[UNK]":0,"a":1},"unk_token":"[UNK]"}}"#;

#[test]
fn rag_budget_reserves_question_tokens() {
    assert_eq!(max_tokens_for_rag_chat(4096, 1024), 2048);
    assert_eq!(max_tokens_for_rag_chat(2048, 1024), 0);
    assert_eq!(max_tokens_for_rag_chat(100, 1000), 0);
}

#[test]
fn budget_divided_without_redistribution() {
    assert_eq!(context_limit_for_message(3000, 2, 100), 1400);
    assert_eq!(context_limit_for_message(3000, 0, 100), 2900);
    assert_eq!(context_limit_for_message(3000, 1, 100), 2900);
    assert_eq!(context_limit_for_message(100, 1, 200), 0);
    assert_eq!(context_limit_in_chat(4096, 1024, 2, 24), 1000);
}

fn msg(role: &str, content: &str) -> ChatMessage {
    ChatMessage { role: role.to_string(), content: content.to_string(), tool_calls: None, tool_call_id: String::new() }
}

#[test]
fn trailing_user_messages_counted() {
    let ms = vec![msg("user", "@a"), msg("assistant", "ok"), msg("user", "@file x"), msg("user", "hi")];
    assert_eq!(trailing_user_messages(&ms), (2, 1));
    assert_eq!(trailing_user_messages(&vec![msg("user", "@x"), msg("user", "@y")]), (0, 2));
    assert_eq!(trailing_user_messages(&vec![msg("assistant", "x")]), (1, 0));
    assert_eq!(trailing_user_messages(&vec![]), (0, 0));
}

#[test]
fn status_initials() {
    assert_eq!(FileChangeStatus::ADDED.initial(), 'A');
    assert_eq!(FileChangeStatus::MODIFIED.initial(), 'M');
    assert_eq!(FileChangeStatus::DELETED.initial(), 'D');
}

#[test]
fn workspace_hash_is_md5_hex_of_folder() {
    let c = Checkpoint { workspace_folder: "abc".to_string(), commit_hash: String::new() };
    assert_eq!(c.workspace_hash(), "900150983cd24fb0d6963f7d28e17f72");
}

fn paths(rel: &str) -> Option<(String, String)> {
    Some((rel.to_string(), format!("/w/{}", rel)))
}

#[test]
fn deltas_become_file_changes() {
    let ds = vec![
        Delta { kind: DeltaKind::Untracked, old_paths: None, new_paths: paths("n.rs") },
        Delta { kind: DeltaKind::Renamed, old_paths: paths("old.rs"), new_paths: paths("new.rs") },
        Delta { kind: DeltaKind::Ignored, old_paths: None, new_paths: None },
        Delta { kind: DeltaKind::Conflicted, old_paths: None, new_paths: paths("c.rs") },
        Delta { kind: DeltaKind::Deleted, old_paths: paths("d.rs"), new_paths: None },
    ];
    let cs = file_changes_from_deltas(&ds).unwrap();
    let got: Vec<(String, String, char)> = cs.iter().map(|c| (c.relative_path.clone(), c.absolute_path.clone(), c.status.initial())).collect();
    assert_eq!(got, vec![
        ("n.rs".to_string(), "/w/n.rs".to_string(), 'A'),
        ("old.rs".to_string(), "/w/old.rs".to_string(), 'D'),
        ("new.rs".to_string(), "/w/new.rs".to_string(), 'A'),
        ("c.rs".to_string(), "/w/c.rs".to_string(), 'M'),
        ("d.rs".to_string(), "/w/d.rs".to_string(), 'D'),
    ]);
}

#[test]
fn delta_without_path_is_an_error() {
    let ds = vec![Delta { kind: DeltaKind::Deleted, old_paths: None, new_paths: paths("x") }];
    assert_eq!(file_changes_from_deltas(&ds).unwrap_err(), "Failed to get old file path for file deleted");
    let ds = vec![Delta { kind: DeltaKind::Added, old_paths: paths("x"), new_paths: None }];
    assert_eq!(file_changes_from_deltas(&ds).unwrap_err(), "Failed to get new file path for file added");
}

#[test]
fn tokenizer_counts_words() {
    let tok = Tokenizer::from_str(WORDS).unwrap();
    assert_eq!(count_tokens(&tok, "x y z"), 3);
    assert_eq!(count_tokens(&tok, ""), 0);
}

#[test]
fn postprocess_with_tokenizer() {
    let tok = Tokenizer::from_str(WORDS).unwrap();
    let files = vec![make_file("a.txt".to_string(), "one two\nthree\nfour five six".to_string(), vec![])];
    let hints = vec![ContextFile {
        file_name: "a.txt".to_string(),
        file_content: String::new(),
        line1: 1,
        line2: 3,
        symbol: 0,
        gradient_type: -1,
        usefulness: 50_000_000,
        is_body_important: true,
    }];
    // "a.txt" is one token, plus 5 overhead; lines cost 2, 1 and 3
    let out = postprocess_at_results2(&files, &hints, &tok, 8, false).unwrap();
    assert_eq!(out[0].file_content, "one two\n...\n");
    let out = postprocess_at_results2(&files, &hints, &tok, 9, false).unwrap();
    assert_eq!(out[0].file_content, "one two\nthree\n...\n");
    let out = postprocess_at_results2(&files, &hints, &tok, 12, false).unwrap();
    assert_eq!(out[0].file_content, "one two\nthree\nfour five six\n");
}

fn call(id: &str, name: &str) -> rag_postprocess::chat::ChatToolCall {
    rag_postprocess::chat::ChatToolCall {
        id: id.to_string(),
        function: rag_postprocess::chat::ChatToolFunction { name: name.to_string(), arguments: "{}".to_string() },
    }
}

fn answer(id: &str, content: &str) -> ChatMessage {
    ChatMessage { role: "tool".to_string(), content: content.to_string(), tool_calls: None, tool_call_id: id.to_string() }
}

#[test]
fn failed_integrations_sorted_and_unique() {
    let ask = |n: &str| format!("error: {}", go_to_configuration_message(n));
    let mut assistant = msg("assistant", "");
    assistant.tool_calls = Some(vec![call("1", "pg"), call("2", "docker"), call("3", "pg"), call("4", "cmd")]);
    let mut early = msg("assistant", "");
    early.tool_calls = Some(vec![call("0", "zzz")]);
    let ms = vec![
        early,
        answer("0", &ask("zzz")),
        msg("user", "go"),
        assistant,
        answer("1", &ask("pg")),
        answer("2", "all good"),
        answer("3", &ask("pg")),
        answer("4", &ask("cmd")),
    ];
    assert_eq!(failed_integration_names_after_last_user_message(&ms), vec!["cmd".to_string(), "pg".to_string()]);
    assert!(failed_integration_names_after_last_user_message(&vec![]).is_empty());
}

#[test]
fn configuration_message_names_the_integration() {
    assert!(go_to_configuration_message("pg").ends_with("SETTINGS:pg"));
}

#[test]
fn turn_assembly_skips_blank_text() {
    assert!(blank(" \t\n"));
    assert!(!blank(" x "));
    let mut rebuilt = vec![msg("system", "s")];
    push_turn(&mut rebuilt, vec![msg("user", "cmd output")], Some(msg("context_file", "[]")), "user".to_string(), "  hello ".to_string());
    let roles: Vec<&str> = rebuilt.iter().map(|m| m.role.as_str()).collect();
    assert_eq!(roles, vec!["system", "user", "context_file", "user"]);
    assert_eq!(rebuilt[3].content, "  hello ");
    let mut again = vec![];
    push_turn(&mut again, vec![], None, "user".to_string(), "   ".to_string());
    assert!(again.is_empty());
}
