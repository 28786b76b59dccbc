use rsystem::context::HandleContext;
use rsystem::handle_key::HandleKey;
use rsystem::handler::{Dispatch, HandleWrapper, HandlerRegistry, InputKind, ValueShape};

fn wrapper(default: bool, string: bool, f64: bool, id: u32) -> HandleWrapper<u32> {
    HandleWrapper { can_handle_default: default, can_handle_string: string, can_handle_f64: f64, invoke: id }
}

#[test]
fn reply_without_id() {
    let mut ctx = HandleContext::new(String::new());
    ctx.reply("r::Pong", "{\"timestamp\":5}");
    assert_eq!(ctx.take_messages(), vec!["{\"tag\":\"r::Pong\",\"value\":{\"timestamp\":5}}\r\n".to_string()]);
}

#[test]
fn reply_with_id() {
    let mut ctx = HandleContext::new("7".to_string());
    ctx.reply("Pong", "1.5");
    assert_eq!(ctx.take_messages(), vec!["{\"id\":\"7\",\"tag\":\"Pong\",\"value\":1.5}\r\n".to_string()]);
}

#[test]
fn reply_with_null_value_leaves_it_out() {
    let mut ctx = HandleContext::new(String::new());
    ctx.reply("Unit", "null");
    assert_eq!(ctx.take_messages(), vec!["{\"tag\":\"Unit\"}\r\n".to_string()]);
}

#[test]
fn error_with_json_value() {
    let mut ctx = HandleContext::new("x".to_string());
    ctx.error("Boom", "\"bad\"");
    assert_eq!(ctx.take_messages(), vec!["{\"id\":\"x\",\"tag\":\"Boom\",\"error\":\"bad\"}\r\n".to_string()]);
}

#[test]
fn error_string_escapes_text() {
    let mut ctx = HandleContext::new(String::new());
    ctx.error_string("Handler \"x\" not found");
    assert_eq!(
        ctx.take_messages(),
        vec!["{\"tag\":\"\",\"error\":\"Handler \\\"x\\\" not found\"}\r\n".to_string()]
    );
}

#[test]
fn error_string_is_one_line() {
    let mut ctx = HandleContext::new("a\nb".to_string());
    ctx.error_string("line\r\nbreak\t\u{1}\\");
    let messages = ctx.take_messages();
    assert_eq!(
        messages,
        vec!["{\"id\":\"a\\nb\",\"tag\":\"\",\"error\":\"line\\r\\nbreak\\t\\u0001\\\\\"}\r\n".to_string()]
    );
    let body = &messages[0][..messages[0].len() - 2];
    assert!(!body.contains('\n') && !body.contains('\r'));
}

#[test]
fn escaping_matches_serde_json() {
    let texts = ["plain", "q\"uote", "back\\slash", "\u{0}\u{8}\u{c}\u{1f}", "über ✓ \u{7f}"];
    for text in texts {
        let mut ctx = HandleContext::new(String::new());
        ctx.error_string(text);
        let expected = format!("{{\"tag\":\"\",\"error\":{}}}\r\n", serde_json::to_string(text).unwrap());
        assert_eq!(ctx.take_messages(), vec![expected]);
    }
}

#[test]
fn messages_keep_their_order() {
    let mut ctx = HandleContext::new(String::new());
    ctx.reply("A", "1");
    ctx.error("B", "2");
    ctx.error_string("c");
    let messages = ctx.take_messages();
    assert_eq!(messages.len(), 3);
    assert!(messages[0].starts_with("{\"tag\":\"A\""));
    assert!(messages[1].starts_with("{\"tag\":\"B\""));
    assert!(messages[2].starts_with("{\"tag\":\"\""));
    for m in &messages {
        assert!(m.ends_with("}\r\n"));
    }
}

#[test]
fn new_context_has_no_messages() {
    assert!(HandleContext::new("id".to_string()).take_messages().is_empty());
}

#[test]
fn input_kind_choices() {
    let all = wrapper(true, true, true, 0);
    assert_eq!(all.input_kind(ValueShape::Null), InputKind::Default);
    assert_eq!(all.input_kind(ValueShape::F64), InputKind::F64);
    assert_eq!(all.input_kind(ValueShape::String), InputKind::String);
    assert_eq!(all.input_kind(ValueShape::Other), InputKind::Json);
    let none = wrapper(false, false, false, 0);
    assert_eq!(none.input_kind(ValueShape::Null), InputKind::Json);
    assert_eq!(none.input_kind(ValueShape::F64), InputKind::Json);
    assert_eq!(none.input_kind(ValueShape::String), InputKind::Json);
    let strings = wrapper(false, true, false, 0);
    assert_eq!(strings.input_kind(ValueShape::String), InputKind::String);
    assert_eq!(strings.input_kind(ValueShape::F64), InputKind::Json);
}

#[test]
fn registry_finds_keys_ignoring_case() {
    let mut r = HandlerRegistry::new();
    assert!(r.try_register(HandleKey::from_path("r::Ping"), wrapper(true, false, false, 1)));
    assert!(r.try_register(HandleKey::from_path("logger::temp::Record"), wrapper(false, false, true, 2)));
    assert_eq!(r.len(), 2);
    assert_eq!(r.find("Ping"), Some(0));
    assert_eq!(r.find("ping"), Some(0));
    assert_eq!(r.find("PING"), Some(0));
    assert_eq!(r.find("TEMP.record"), Some(1));
    assert_eq!(r.find("Pong"), None);
    assert_eq!(r.find(""), None);
    assert_eq!(r.get(1).invoke, 2);
    assert_eq!(r.key(1).as_str(), "temp.Record");
}

#[test]
fn registry_ignores_case_beyond_ascii() {
    let mut r = HandlerRegistry::new();
    assert!(r.try_register(HandleKey::from_path("a::Ärger"), wrapper(false, false, false, 1)));
    assert_eq!(r.find("äRGER"), Some(0));
    assert_eq!(r.find("arger"), None);
}

#[test]
fn registering_a_key_twice_is_refused() {
    let mut r = HandlerRegistry::new();
    assert!(r.try_register(HandleKey::from_path("r::Ping"), wrapper(true, false, false, 1)));
    assert!(!r.try_register(HandleKey::from_path("other::PING"), wrapper(false, false, false, 9)));
    assert_eq!(r.len(), 1);
    assert_eq!(r.get(0).invoke, 1);
}

#[test]
fn registered_key_is_found_after_registration() {
    let mut r = HandlerRegistry::new();
    for (i, path) in ["a::One", "a::Two", "a::Three"].iter().enumerate() {
        assert!(r.try_register(HandleKey::from_path(path), wrapper(false, false, false, i as u32)));
        let key = HandleKey::from_path(path);
        assert_eq!(r.find(key.as_str()), Some(i));
    }
    assert_eq!(r.find("one"), Some(0));
}

#[test]
fn dispatch_invokes_with_the_chosen_input() {
    let mut r = HandlerRegistry::new();
    r.try_register(HandleKey::from_path("log::Log"), wrapper(false, true, false, 1));
    match r.dispatch("log", ValueShape::String) {
        Dispatch::Invoke { index, input } => {
            assert_eq!(index, 0);
            assert_eq!(input, InputKind::String);
        }
        other => panic!("unexpected {:?}", other),
    }
    match r.dispatch("LOG", ValueShape::Null) {
        Dispatch::Invoke { index, input } => {
            assert_eq!(index, 0);
            assert_eq!(input, InputKind::Json);
        }
        other => panic!("unexpected {:?}", other),
    }
}

#[test]
fn dispatch_reports_a_missing_handler() {
    let r: HandlerRegistry<u32> = HandlerRegistry::new();
    match r.dispatch("Pong", ValueShape::Null) {
        Dispatch::NotFound(text) => assert_eq!(text, "Handler \"Pong\" not found"),
        other => panic!("unexpected {:?}", other),
    }
    match r.dispatch("a\"b", ValueShape::Other) {
        Dispatch::NotFound(text) => assert_eq!(text, format!("Handler {:?} not found", "a\"b")),
        other => panic!("unexpected {:?}", other),
    }
}

#[test]
fn many_answers_come_out_one_each_in_order() {
    let mut ctx = HandleContext::new("q".to_string());
    let mut expected = Vec::new();
    for k in 0..5 {
        match k % 3 {
            0 => {
                ctx.reply("R", &k.to_string());
                expected.push(format!("{{\"id\":\"q\",\"tag\":\"R\",\"value\":{}}}\r\n", k));
            }
            1 => {
                ctx.error("E", &k.to_string());
                expected.push(format!("{{\"id\":\"q\",\"tag\":\"E\",\"error\":{}}}\r\n", k));
            }
            _ => {
                ctx.error_string(&format!("t{}", k));
                expected.push(format!("{{\"id\":\"q\",\"tag\":\"\",\"error\":\"t{}\"}}\r\n", k));
            }
        }
    }
    assert_eq!(ctx.take_messages(), expected);
}

#[test]
fn a_tag_reaches_only_the_handler_whose_key_it_matches() {
    let mut r = HandlerRegistry::new();
    for (i, path) in ["a::Ping", "a::Pong", "a::temp::Record", "a::Ärger"].iter().enumerate() {
        assert!(r.try_register(HandleKey::from_path(path), wrapper(false, false, false, i as u32)));
    }
    for (tag, want) in [("ping", Some(0)), ("PONG", Some(1)), ("temp.record", Some(2)), ("äRGER", Some(3)), ("temp", None)] {
        assert_eq!(r.find(tag), want, "{}", tag);
    }
}
