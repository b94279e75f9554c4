use mistake_agent::contract::{full_name, full_to_wire, CallerPolicy, LoadPolicy, PluginError, ToolError, ToolErrorCode};
use mistake_agent::kernel::{compose_user_message, AttachmentInfo, ForcedToolRequest, RpcError, TurnSlot};
use mistake_agent::registry::{namespace_text, CommandDef, EntryKind, EnsureStep, Info, Registry, ToolDef};
use mistake_agent::services::ServiceId;
use mistake_agent::session::SessionKey;

fn tool(name: &str, title: Option<&str>, policy: CallerPolicy) -> ToolDef {
    ToolDef {
        name: name.into(),
        user_visible: true,
        title: title.map(|t| t.to_string()),
        group: None,
        description: format!("{name} 工具"),
        params: "{}".into(),
        policy,
        timeout: None,
        icon: None,
    }
}

fn info(ns: &str, tools: Vec<ToolDef>) -> Info {
    Info {
        namespace: ns.into(),
        requires: vec![ServiceId::Model],
        provides: Vec::new(),
        load: LoadPolicy::Lazy,
        tools,
        commands: vec![CommandDef {
            name: "reset".into(),
            user_visible: true,
            title: None,
            group: None,
            description: "重置".into(),
            params: "{}".into(),
            icon: None,
        }],
        events: Vec::new(),
    }
}

fn registry() -> Registry {
    let mut r = Registry::new(vec![ServiceId::Model, ServiceId::Storage]);
    r.register(
        info(
            "memory",
            vec![tool("show", Some("翻看记忆"), CallerPolicy::UserAndModel), tool("wipe", None, CallerPolicy::UserOnly)],
        ),
        false,
    )
    .unwrap();
    assert_eq!(r.begin_load("memory").unwrap(), true);
    r.bind("memory", "show", EntryKind::Tool).unwrap();
    r.bind("memory", "wipe", EntryKind::Tool).unwrap();
    r
}

#[test]
fn names_and_wire_names() {
    assert_eq!(full_name("memory", "show"), "memory::show");
    assert_eq!(full_to_wire("memory::show"), "memory__show");
}

#[test]
fn tool_error_constructors() {
    let e = ToolError::unknown_tool("x::y");
    assert_eq!(e.code, ToolErrorCode::UnknownTool);
    assert_eq!(e.message, "未知工具：x::y");
    assert!(!e.retryable);
    assert!(ToolError::invalid_params("p").retryable);
    assert!(ToolError::timeout().retryable);
    assert_eq!(ToolError::aborted().message, "执行被取消");
    assert_eq!(ToolError::forbidden().code, ToolErrorCode::Forbidden);
    assert_eq!(ToolError::internal("i").code, ToolErrorCode::Internal);
    assert_eq!(ToolError::handler("h").code, ToolErrorCode::HandlerError);
    assert_eq!(ToolError::new(ToolErrorCode::Timeout, "t", false).message, "t");
}

#[test]
fn register_refuses_taken_namespace_and_unavailable_services() {
    let mut r = registry();
    assert!(matches!(r.register(info("memory", Vec::new()), false), Err(PluginError::NamespaceTaken(n)) if n == "memory"));
    let mut needs = info("vision", Vec::new());
    needs.requires = vec![ServiceId::Compute];
    assert!(matches!(r.register(needs, false), Err(PluginError::CapabilityUnavailable(_))));
}

#[test]
fn entry_title_uses_title_or_name() {
    let r = registry();
    assert_eq!(r.entry_title("memory::show").as_deref(), Some("翻看记忆"));
    assert_eq!(r.entry_title("memory::wipe").as_deref(), Some("wipe"));
    assert_eq!(r.entry_title("memory::reset").as_deref(), Some("reset"));
    assert_eq!(r.entry_title("memory::nope"), None);
}

#[test]
fn model_tools_leave_out_user_only_tools() {
    let r = registry();
    let tools = r.model_tools();
    assert_eq!(tools.len(), 1);
    assert_eq!(tools[0].name, "memory__show");
    assert_eq!(r.resolve_bound_wire("memory__show").as_deref(), Some("memory::show"));
}

#[test]
fn forced_tool_message_with_hint_and_title() {
    let r = registry();
    let ft = ForcedToolRequest { entry: "memory::show".into(), hint: Some(" 数学/向量组的线性相关性 ".into()), display: None };
    let c = compose_user_message(&r, "原文", Some(&ft), &Vec::new(), &Vec::new()).unwrap();
    assert_eq!(c.text, "请调用工具 memory::show 处理：数学/向量组的线性相关性");
    assert_eq!(c.display_text.as_deref(), Some("翻看记忆：数学/向量组的线性相关性"));
    assert_eq!(c.forced_wire.as_deref(), Some("memory__show"));
    let bare = ForcedToolRequest { entry: "memory::show".into(), hint: None, display: Some("看看".into()) };
    let c = compose_user_message(&r, "原文", Some(&bare), &Vec::new(), &Vec::new()).unwrap();
    assert_eq!(c.text, "请调用工具 memory::show 处理当前请求。");
    assert_eq!(c.display_text.as_deref(), Some("看看"));
}

#[test]
fn forced_tool_errors() {
    let r = registry();
    let unknown = ForcedToolRequest { entry: "session::switch".into(), hint: None, display: None };
    let e: RpcError = compose_user_message(&r, "换个话题", Some(&unknown), &Vec::new(), &Vec::new()).unwrap_err();
    assert_eq!(e.code, "unknown_tool");
    let user_only = ForcedToolRequest { entry: "memory::wipe".into(), hint: None, display: None };
    let e = compose_user_message(&r, "x", Some(&user_only), &Vec::new(), &Vec::new()).unwrap_err();
    assert_eq!(e.code, "forbidden_tool");
    assert_eq!(e.message, "该工具仅用户可调，不能被模型强制调用");
}

#[test]
fn files_and_attachments_add_lines() {
    let r = registry();
    let files = vec!["/tmp/mistake-agent-1.png".to_string()];
    let assets = vec![AttachmentInfo { path: "uploads/a.png".into(), name: "a.png".into() }];
    let c = compose_user_message(&r, "看图", None, &files, &assets).unwrap();
    assert_eq!(c.text, "看图\n暂存文件：/tmp/mistake-agent-1.png\n附件：uploads/a.png|a.png");
    assert_eq!(c.display_text.as_deref(), Some("看图"));
    assert!(c.forced_wire.is_none());
    let plain = compose_user_message(&r, "你好", None, &Vec::new(), &Vec::new()).unwrap();
    assert_eq!(plain.text, "你好");
    assert!(plain.display_text.is_none());
}

#[test]
fn one_turn_at_a_time() {
    let mut slot = TurnSlot::new();
    assert_eq!(slot.state(), ("idle", None));
    slot.begin(SessionKey(1)).unwrap();
    let e = slot.begin(SessionKey(2)).unwrap_err();
    assert_eq!(e.code, "turn_in_progress");
    assert_eq!(slot.state(), ("busy", Some(SessionKey(1))));
    assert!(slot.abort());
    slot.finish(SessionKey(2));
    assert_eq!(slot.state(), ("busy", Some(SessionKey(1))));
    slot.finish(SessionKey(1));
    assert_eq!(slot.state(), ("idle", None));
    assert!(slot.begin(SessionKey(2)).is_ok());
}

#[test]
fn rpc_error_new_keeps_fields() {
    let e = RpcError::new("unknown_method", "未知方法：x");
    assert_eq!(e.code, "unknown_method");
    assert_eq!(e.message, "未知方法：x");
}

#[test]
fn removed_switch_tool_is_unknown() {
    let r = registry();
    let switch = ForcedToolRequest { entry: "session::switch".into(), hint: None, display: None };
    let e = compose_user_message(&r, "换个话题", Some(&switch), &Vec::new(), &Vec::new()).unwrap_err();
    assert_eq!(e.code, "unknown_tool");
}

#[test]
fn entries_are_ensured_with_lazy_loading() {
    let mut r = registry();
    r.register(info("notes", vec![tool("find", None, CallerPolicy::UserAndModel)]), false).unwrap();
    assert!(matches!(r.ensure_step("memory::show", EntryKind::Tool), EnsureStep::Found(e) if e.full_name == "memory::show"));
    match r.ensure_step("notes::find", EntryKind::Tool) {
        EnsureStep::Load(ns) => assert_eq!(ns, "notes"),
        _ => panic!("an unloaded plugin is loaded on demand"),
    }
    assert!(r.begin_load("notes").unwrap());
    r.bind("notes", "find", EntryKind::Tool).unwrap();
    assert!(matches!(r.ensure_step("notes::find", EntryKind::Tool), EnsureStep::Found(_)));
    match r.ensure_step("ghost::x", EntryKind::Tool) {
        EnsureStep::Missing(PluginError::Internal(m)) => assert_eq!(m, "未知插件：ghost"),
        _ => panic!("an unknown namespace is refused"),
    }
    match r.ensure_step("memory::nope", EntryKind::Tool) {
        EnsureStep::Missing(PluginError::Internal(m)) => assert_eq!(m, "入口点不存在：memory::nope"),
        _ => panic!("a loaded plugin without the entry misses"),
    }
    match r.entry("ghost::x", EntryKind::Tool) {
        Err(PluginError::Internal(m)) => assert_eq!(m, "未知插件：ghost"),
        _ => panic!("unknown plugin"),
    }
    match r.entry("memory::show", EntryKind::Command) {
        Err(PluginError::Internal(m)) => assert_eq!(m, "入口点不存在：memory::show"),
        _ => panic!("wrong kind"),
    }
    assert_eq!(namespace_text("a:::b"), "a");
    assert_eq!(namespace_text("plain"), "plain");
    assert_eq!(namespace_text("::x"), "");
}
