use code_editor::lsp::{body_message, header_step, is_publish_diagnostics, notification_diagnostics};
use code_editor::lsp::{
    builtin_servers, classify_message, content_length_header, decimal_string, doc_target,
    language_for_extension, parse_header_line, parse_usize, position_to_char_idx, Diagnostic, HeaderLine, LspManager,
    LspSession, MessageKind, Position, Range, ServerStep, SEVERITY_ERROR, SEVERITY_HINT, SEVERITY_WARNING,
};

fn pos(line: u32, character: u32) -> Position {
    Position { line, character }
}

fn diag(sev: Option<i32>) -> Diagnostic {
    Diagnostic { range: Range { start: pos(0, 0), end: pos(0, 1) }, severity: sev, message: String::from("m") }
}

#[test]
fn builtin_server_table() {
    let s = builtin_servers();
    assert_eq!(s.len(), 5);
    assert_eq!(s[0].language_id, "rust");
    assert_eq!(s[0].command, "rust-analyzer");
    assert!(s[0].args.is_empty());
    assert_eq!(s[2].command, "typescript-language-server");
    assert_eq!(s[2].args, vec![String::from("--stdio")]);
    assert_eq!(s[2].extensions, vec!["ts", "tsx", "js", "jsx"]);
    assert_eq!(s[4].extensions, vec!["c", "h", "cpp", "hpp", "cc"]);
}

#[test]
fn language_by_extension() {
    let s = builtin_servers();
    assert_eq!(language_for_extension(&s, "rs"), Some(String::from("rust")));
    assert_eq!(language_for_extension(&s, "jsx"), Some(String::from("typescript")));
    assert_eq!(language_for_extension(&s, "hpp"), Some(String::from("c")));
    assert_eq!(language_for_extension(&s, "go"), Some(String::from("go")));
    assert_eq!(language_for_extension(&s, "md"), None);
}

#[test]
fn numbers_parse_like_std() {
    for s in ["0", "42", "+7", "007", "18446744073709551615", "", "+", "-1", "4x", " 4", "18446744073709551616"] {
        assert_eq!(parse_usize(s), s.parse::<usize>().ok(), "{s:?}");
    }
}

#[test]
fn decimal_round_trip() {
    for n in [0usize, 9, 10, 99, 100, 12345, usize::MAX] {
        assert_eq!(decimal_string(n), n.to_string());
        assert_eq!(parse_usize(&decimal_string(n)), Some(n));
    }
}

#[test]
fn headers_read_back() {
    assert_eq!(content_length_header(123), "Content-Length: 123\r\n\r\n");
    match parse_header_line("Content-Length: 123\r\n") {
        HeaderLine::ContentLength(n) => assert_eq!(n, Some(123)),
        _ => panic!("not a length"),
    }
    assert!(matches!(parse_header_line("\r\n"), HeaderLine::End));
    assert!(matches!(parse_header_line(""), HeaderLine::End));
    assert!(matches!(parse_header_line("Content-Type: application/json\r\n"), HeaderLine::Other));
    assert!(matches!(parse_header_line("Content-Length: x\r\n"), HeaderLine::ContentLength(None)));
    assert!(matches!(parse_header_line("Content-Length:17"), HeaderLine::ContentLength(Some(17))));
    for n in [0usize, 5, 4096] {
        let h = content_length_header(n);
        let first = &h[..h.len() - 2];
        assert!(matches!(parse_header_line(first), HeaderLine::ContentLength(Some(m)) if m == n));
    }
}

#[test]
fn message_kinds() {
    assert!(matches!(classify_message(Some("textDocument/publishDiagnostics"), Some(3)),
        Some(MessageKind::Notification(m)) if m == "textDocument/publishDiagnostics"));
    assert!(matches!(classify_message(None, Some(3)), Some(MessageKind::Response(3))));
    assert!(classify_message(None, None).is_none());
}

#[test]
fn file_urls() {
    let s = builtin_servers();
    assert_eq!(doc_target(&s, "/tmp/a b.rs"), Some((String::from("rust"), String::from("file:///tmp/a%20b.rs"))));
    assert_eq!(doc_target(&s, "relative.rs"), None);
}

#[test]
fn document_targets() {
    let s = builtin_servers();
    assert_eq!(doc_target(&s, "/w/main.rs"), Some((String::from("rust"), String::from("file:///w/main.rs"))));
    assert_eq!(doc_target(&s, "/w/readme.md"), None);
    assert_eq!(doc_target(&s, "/w/Makefile"), None);
    assert_eq!(doc_target(&s, "main.rs"), None);
}

#[test]
fn positions_to_indices() {
    let c = "ab\ncdef\n\nxyz";
    assert_eq!(position_to_char_idx(c, &pos(0, 0)), 0);
    assert_eq!(position_to_char_idx(c, &pos(0, 1)), 1);
    assert_eq!(position_to_char_idx(c, &pos(0, 9)), 2);
    assert_eq!(position_to_char_idx(c, &pos(1, 2)), 5);
    assert_eq!(position_to_char_idx(c, &pos(2, 0)), 8);
    assert_eq!(position_to_char_idx(c, &pos(2, 4)), 8);
    assert_eq!(position_to_char_idx(c, &pos(3, 1)), 10);
    assert_eq!(position_to_char_idx(c, &pos(3, 3)), 12);
    assert_eq!(position_to_char_idx(c, &pos(9, 0)), 12);
}

#[test]
fn session_initialization() {
    let mut s = LspSession::new(String::from("rust"));
    assert_eq!(s.language_id(), "rust");
    assert!(!s.is_initialized());
    let id = s.send_initialize();
    assert_eq!(id, 1);
    assert!(!s.on_response(7, true));
    assert!(!s.is_initialized());
    assert!(s.on_response(1, true));
    assert!(s.is_initialized());
    assert!(!s.on_response(1, true));
    assert_eq!(s.next_id(), 2);
}

#[test]
fn failed_initialization() {
    let mut s = LspSession::new(String::from("go"));
    let id = s.send_initialize();
    assert!(!s.on_response(id, false));
    assert!(!s.is_initialized());
    assert_eq!(s.did_open("file:///a.go"), None);
    assert_eq!(s.shutdown(), None);
}

#[test]
fn document_versions() {
    let mut s = LspSession::new(String::from("rust"));
    assert_eq!(s.did_open("file:///a.rs"), None);
    let id = s.send_initialize();
    s.on_response(id, true);
    assert_eq!(s.did_change("file:///a.rs"), None);
    assert!(!s.did_save("file:///a.rs"));
    assert_eq!(s.did_open("file:///a.rs"), Some(1));
    assert_eq!(s.did_open("file:///a.rs"), None);
    assert_eq!(s.did_change("file:///a.rs"), Some(2));
    assert_eq!(s.did_change("file:///a.rs"), Some(3));
    assert!(s.did_save("file:///a.rs"));
    assert_eq!(s.did_open("file:///b.rs"), Some(1));
    assert!(s.did_close("file:///a.rs"));
    assert!(!s.did_close("file:///a.rs"));
    assert_eq!(s.did_change("file:///a.rs"), None);
    assert_eq!(s.did_open("file:///a.rs"), Some(1));
    assert_eq!(s.did_change("file:///b.rs"), Some(2));
    assert_eq!(s.shutdown(), Some(2));
}

#[test]
fn open_then_change_sends_version_two() {
    let mut s = LspSession::new(String::from("python"));
    let id = s.send_initialize();
    s.on_response(id, true);
    assert_eq!(s.did_open("file:///x.py"), Some(1));
    assert_eq!(s.did_change("file:///x.py"), Some(2));
}

#[test]
fn manager_starts_each_server_once() {
    let mut m = LspManager::new();
    assert_eq!(m.specs().len(), 5);
    assert!(m.workspace_root().is_none());
    match m.server_for("rust") {
        ServerStep::Start(spec) => assert_eq!(spec.command, "rust-analyzer"),
        _ => panic!("expected a start"),
    }
    m.server_started("rust");
    assert!(matches!(m.server_for("rust"), ServerStep::Ready));
    assert!(matches!(m.server_for("cobol"), ServerStep::Unavailable));
    assert!(matches!(m.server_for("cobol"), ServerStep::Unavailable));
    assert!(matches!(m.server_for("go"), ServerStep::Start(_)));
    m.server_failed("go", "not found");
    assert_eq!(m.last_error().as_deref(), Some("go: not found"));
    assert!(matches!(m.server_for("go"), ServerStep::Unavailable));
    assert_eq!(m.active_languages(), vec![String::from("rust")]);
    m.server_stopped("rust");
    assert!(m.active_languages().is_empty());
    assert!(matches!(m.server_for("rust"), ServerStep::Unavailable));
    m.set_workspace_root(String::from("/w"));
    assert_eq!(m.workspace_root().as_deref(), Some("/w"));
    assert!(matches!(m.server_for("go"), ServerStep::Start(_)));
}

#[test]
fn manager_diagnostics() {
    let mut m = LspManager::new();
    m.apply_diagnostics(String::from("file:///a"), vec![diag(Some(SEVERITY_ERROR)), diag(Some(SEVERITY_WARNING))]);
    m.apply_diagnostics(String::from("file:///b"), vec![diag(Some(SEVERITY_ERROR)), diag(Some(SEVERITY_HINT)), diag(None)]);
    assert_eq!(m.total_count(), (2, 1));
    m.apply_diagnostics(String::from("file:///a"), vec![]);
    assert_eq!(m.total_count(), (1, 0));
    assert_eq!(m.diagnostics().len(), 2);
    m.forget_diagnostics("file:///b");
    assert_eq!(m.total_count(), (0, 0));
    assert_eq!(m.diagnostics().len(), 1);
    m.forget_diagnostics("file:///zzz");
    assert_eq!(m.diagnostics().len(), 1);
    m.set_workspace_root(String::from("/w"));
    assert!(m.diagnostics().is_empty());
}

#[test]
fn session_versions_and_ids() {
    let mut s = LspSession::new(String::from("rust"));
    assert!(s.has_ids_left());
    let id = s.send_initialize();
    s.on_response(id, true);
    assert_eq!(s.version_of("file:///a.rs"), None);
    s.did_open("file:///a.rs");
    assert_eq!(s.version_of("file:///a.rs"), Some(1));
    s.did_change("file:///a.rs");
    assert_eq!(s.version_of("file:///a.rs"), Some(2));
    s.did_close("file:///a.rs");
    assert_eq!(s.version_of("file:///a.rs"), None);
}

#[test]
fn message_bodies() {
    let n = br#"{"jsonrpc":"2.0","method":"textDocument/publishDiagnostics","params":{}}"#;
    assert!(matches!(body_message(n), Some((MessageKind::Notification(m), _)) if is_publish_diagnostics(&m)));
    let ok = br#"{"jsonrpc":"2.0","id":1,"result":{"capabilities":{}}}"#;
    assert!(matches!(body_message(ok), Some((MessageKind::Response(1), true))));
    let null_result = br#"{"id":2,"result":null}"#;
    assert!(matches!(body_message(null_result), Some((MessageKind::Response(2), true))));
    let err = br#"{"id":3,"error":{"code":-1,"message":"x"}}"#;
    assert!(matches!(body_message(err), Some((MessageKind::Response(3), false))));
    let both = br#"{"id":4,"result":1,"error":{}}"#;
    assert!(matches!(body_message(both), Some((MessageKind::Response(4), false))));
    let request = br#"{"id":"a","method":"window/showMessage"}"#;
    assert!(matches!(body_message(request), Some((MessageKind::Notification(m), _)) if m == "window/showMessage"));
    assert!(body_message(br#"{"id":"x"}"#).is_none());
    assert!(body_message(br#"{"id":-1}"#).is_none());
    assert!(body_message(b"not json").is_none());
    assert!(body_message(b"[1,2]").is_none());
    assert!(!is_publish_diagnostics("textDocument/didOpen"));
}

#[test]
fn header_steps() {
    assert_eq!(header_step(None, "Content-Length: 42\r\n"), (false, Some(42)));
    assert_eq!(header_step(Some(42), "Content-Type: x\r\n"), (false, Some(42)));
    assert_eq!(header_step(Some(42), "\r\n"), (true, Some(42)));
    assert_eq!(header_step(Some(42), "Content-Length: oops\r\n"), (false, None));
}

#[test]
fn published_diagnostics_are_decoded() {
    let body = br#"{"jsonrpc":"2.0","method":"textDocument/publishDiagnostics","params":{"uri":"file:///w/a.rs","diagnostics":[
        {"range":{"start":{"line":3,"character":4},"end":{"line":3,"character":9}},"severity":1,"message":"mismatched types\nexpected u8"},
        {"range":{"start":{"line":0,"character":0},"end":{"line":1,"character":2}},"message":"no severity"},
        {"range":{"start":{"line":7,"character":1},"end":{"line":7,"character":1}},"severity":4,"message":"hint"}]}}"#;
    let (uri, ds) = notification_diagnostics("textDocument/publishDiagnostics", body).unwrap();
    assert_eq!(uri, "file:///w/a.rs");
    assert_eq!(ds.len(), 3);
    assert_eq!((ds[0].range.start.line, ds[0].range.start.character, ds[0].range.end.line, ds[0].range.end.character), (3, 4, 3, 9));
    assert_eq!(ds[0].severity, Some(SEVERITY_ERROR));
    assert_eq!(ds[0].message, "mismatched types\nexpected u8");
    assert_eq!(ds[1].severity, None);
    assert_eq!((ds[1].range.end.line, ds[1].range.end.character), (1, 2));
    assert_eq!(ds[2].severity, Some(SEVERITY_HINT));
    assert!(notification_diagnostics("window/logMessage", body).is_none());
    assert!(notification_diagnostics("textDocument/publishDiagnostics", b"{}").is_none());
    assert!(notification_diagnostics("textDocument/publishDiagnostics", b"garbage").is_none());
    let mut m = LspManager::new();
    m.apply_diagnostics(uri, ds);
    assert_eq!(m.total_count(), (1, 0));
}

#[test]
fn replace_all_needs_no_bound() {
    assert_eq!(code_editor::find::replace_all("ééé", "é", "e"), (String::from("eee"), 3));
}
