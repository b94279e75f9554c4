//! How a conversation goes on the wire to a model provider: the items of
//! the Responses input, of the Chat Completions messages and of the
//! Anthropic Messages request, in order.  The caller writes them as JSON.
use vstd::prelude::*;

use crate::contract::{wire_of, ToolError, ToolErrorCode};
use crate::message::{KindView, Message, MessageKind, MessageView, ToolErrorView};
use crate::store::{uuid_text, views};
use crate::text::{concat2, owned};

verus! {

#[derive(Debug, Clone, Copy, PartialEq, Eq, Structural)]
pub enum Role {
    User,
    Assistant,
    System,
}

/// One item of a request.
#[derive(Debug)]
pub enum WireItem {
    Message { role: Role, text: String },
    Reasoning { id: String, text: String },
    Call { call_id: String, name: String, arguments: String },
    CallOutput { call_id: String, output: String },
}

pub enum ItemView {
    Message { role: Role, text: Seq<char> },
    Reasoning { id: Seq<char>, text: Seq<char> },
    Call { call_id: Seq<char>, name: Seq<char>, arguments: Seq<char> },
    CallOutput { call_id: Seq<char>, output: Seq<char> },
}

impl View for WireItem {
    type V = ItemView;

    open spec fn view(&self) -> ItemView {
        match *self {
            WireItem::Message { role, text } => ItemView::Message { role, text: text@ },
            WireItem::Reasoning { id, text } => ItemView::Reasoning { id: id@, text: text@ },
            WireItem::Call { call_id, name, arguments } => ItemView::Call {
                call_id: call_id@,
                name: name@,
                arguments: arguments@,
            },
            WireItem::CallOutput { call_id, output } => ItemView::CallOutput { call_id: call_id@, output: output@ },
        }
    }
}

pub open spec fn item_views(v: Seq<WireItem>) -> Seq<ItemView> {
    v.map_values(|i: WireItem| i@)
}

/// How a JSON string writes one character: `"` and `\` and the control
/// characters escaped (the short forms `\b \t \n \f \r` where they exist,
/// else `\u00` and two hex digits), every other character as it is.
pub open spec fn json_escaped_char(c: char) -> Seq<char> {
    if c == '"' {
        seq!['\\', '"']
    } else if c == '\\' {
        seq!['\\', '\\']
    } else if c == '\u{8}' {
        seq!['\\', 'b']
    } else if c == '\t' {
        seq!['\\', 't']
    } else if c == '\n' {
        seq!['\\', 'n']
    } else if c == '\u{c}' {
        seq!['\\', 'f']
    } else if c == '\r' {
        seq!['\\', 'r']
    } else if (c as u32) < 0x20 {
        seq!['\\', 'u', '0', '0', crate::text::hex_digit((c as int) / 16), crate::text::hex_digit((c as int) % 16)]
    } else {
        seq![c]
    }
}

pub open spec fn json_escaped(s: Seq<char>) -> Seq<char>
    decreases s.len(),
{
    if s.len() == 0 {
        Seq::empty()
    } else {
        json_escaped(s.drop_last()) + json_escaped_char(s.last())
    }
}

/// The JSON text of a string: quoted, each character escaped as above.
pub open spec fn json_quoted(s: Seq<char>) -> Seq<char> {
    seq!['"'] + json_escaped(s) + seq!['"']
}

/// `serde_json::to_string(&str)`: the compact formatter writes a quote, the
/// text with `"`, `\` and the control characters below U+0020 escaped
/// (its escape table), and a quote; writing a string does not fail.
#[verifier::external_body]
fn quote_json(s: &str) -> (r: String)
    ensures
        r@ == json_quoted(s@),
{
    serde_json::to_string(s).unwrap_or_default()
}

pub open spec fn code_name(c: ToolErrorCode) -> Seq<char> {
    match c {
        ToolErrorCode::UnknownTool => "unknown_tool"@,
        ToolErrorCode::InvalidParams => "invalid_params"@,
        ToolErrorCode::HandlerError => "handler_error"@,
        ToolErrorCode::Timeout => "timeout"@,
        ToolErrorCode::Aborted => "aborted"@,
        ToolErrorCode::Forbidden => "forbidden"@,
        ToolErrorCode::ModelUnavailable => "model_unavailable"@,
        ToolErrorCode::Internal => "internal"@,
    }
}

fn code_text(c: ToolErrorCode) -> (r: &'static str)
    ensures
        r@ == code_name(c),
{
    match c {
        ToolErrorCode::UnknownTool => "unknown_tool",
        ToolErrorCode::InvalidParams => "invalid_params",
        ToolErrorCode::HandlerError => "handler_error",
        ToolErrorCode::Timeout => "timeout",
        ToolErrorCode::Aborted => "aborted",
        ToolErrorCode::Forbidden => "forbidden",
        ToolErrorCode::ModelUnavailable => "model_unavailable",
        ToolErrorCode::Internal => "internal",
    }
}

/// The output text of a failed tool call: `{"error":{"code":..,"message":..,"retryable":..}}`.
pub open spec fn error_output_of(e: ToolErrorView) -> Seq<char> {
    "{\"error\":{\"code\":\""@ + code_name(e.code) + "\",\"message\":"@ + json_quoted(e.message)
        + ",\"retryable\":"@ + (if e.retryable {
        "true"@
    } else {
        "false"@
    }) + "}}"@
}

pub fn error_output(e: &ToolError) -> (r: String)
    ensures
        r@ == error_output_of(ToolErrorView { code: e.code, message: e.message@, retryable: e.retryable }),
{
    let mut out = concat2("{\"error\":{\"code\":\"", code_text(e.code));
    out.append("\",\"message\":");
    out.append(quote_json(e.message.as_str()).as_str());
    out.append(",\"retryable\":");
    out.append(if e.retryable { "true" } else { "false" });
    out.append("}}");
    out
}

/// The call id of a tool call: its own, or the message id when it has none.
pub open spec fn call_id_of(m: MessageView) -> Seq<char> {
    let c = m.kind->ToolCall_call_id;
    if c.len() > 0 {
        c
    } else {
        uuid_text(m.id.0)
    }
}

/// The items one message becomes (`reasoning`: whether the protocol takes
/// reasoning items).
pub open spec fn message_items(m: MessageView, reasoning: bool) -> Seq<ItemView> {
    match m.kind {
        KindView::User { text, .. } => seq![ItemView::Message { role: Role::User, text }],
        KindView::Assistant { text } => seq![ItemView::Message { role: Role::Assistant, text }],
        KindView::System { text, .. } => seq![ItemView::Message { role: Role::System, text }],
        KindView::Reasoning { id, text } => if reasoning {
            seq![ItemView::Reasoning { id, text }]
        } else {
            Seq::empty()
        },
        KindView::ToolCall { entry, params, result, .. } => seq![
            ItemView::Call { call_id: call_id_of(m), name: wire_of(entry), arguments: params },
            ItemView::CallOutput {
                call_id: call_id_of(m),
                output: match result {
                    Ok(v) => v,
                    Err(e) => error_output_of(e),
                },
            },
        ],
    }
}

/// The items of a conversation, message by message.
pub open spec fn conversation_items(ms: Seq<MessageView>, reasoning: bool) -> Seq<ItemView>
    decreases ms.len(),
{
    if ms.len() == 0 {
        Seq::empty()
    } else {
        conversation_items(ms.drop_last(), reasoning) + message_items(ms.last(), reasoning)
    }
}

fn push_items(out: &mut Vec<WireItem>, m: &Message, reasoning: bool)
    ensures
        item_views(final(out)@) == item_views(old(out)@) + message_items(m@, reasoning),
{
    let ghost before = item_views(out@);
    match &m.kind {
        MessageKind::User { text, .. } => {
            out.push(WireItem::Message { role: Role::User, text: owned(text.as_str()) });
        },
        MessageKind::Assistant { text } => {
            out.push(WireItem::Message { role: Role::Assistant, text: owned(text.as_str()) });
        },
        MessageKind::System { text, .. } => {
            out.push(WireItem::Message { role: Role::System, text: owned(text.as_str()) });
        },
        MessageKind::Reasoning { id, text } => {
            if reasoning {
                out.push(WireItem::Reasoning { id: owned(id.as_str()), text: owned(text.as_str()) });
            }
        },
        MessageKind::ToolCall { entry, params, result, call_id } => {
            let cid = if call_id.unicode_len() > 0 {
                owned(call_id.as_str())
            } else {
                crate::store::uuid_string(m.id.0)
            };
            let cid2 = owned(cid.as_str());
            out.push(
                WireItem::Call {
                    call_id: cid,
                    name: crate::contract::full_to_wire(entry.as_str()),
                    arguments: owned(params.as_str()),
                },
            );
            let output = match result {
                Ok(v) => owned(v.as_str()),
                Err(e) => error_output(e),
            };
            out.push(WireItem::CallOutput { call_id: cid2, output });
        },
    }
    proof {
        assert(item_views(out@) =~= before + message_items(m@, reasoning));
    }
}

fn items_of(messages: &Vec<Message>, reasoning: bool) -> (r: Vec<WireItem>)
    ensures
        item_views(r@) == conversation_items(views(messages@), reasoning),
{
    let mut out: Vec<WireItem> = Vec::new();
    let mut i: usize = 0;
    proof {
        assert(views(messages@).take(0) =~= Seq::<MessageView>::empty());
        assert(item_views(out@) =~= Seq::<ItemView>::empty());
    }
    while i < messages.len()
        invariant
            i <= messages@.len(),
            item_views(out@) == conversation_items(views(messages@).take(i as int), reasoning),
        decreases messages.len() - i,
    {
        push_items(&mut out, &messages[i], reasoning);
        proof {
            assert(views(messages@).take(i + 1).drop_last() =~= views(messages@).take(i as int));
            assert(views(messages@).take(i + 1).last() == messages@[i as int]@);
        }
        i = i + 1;
    }
    proof {
        assert(views(messages@).take(messages@.len() as int) =~= views(messages@));
    }
    out
}

/// The input items of a Responses request (reasoning included).
pub fn messages_to_responses_input(messages: &Vec<Message>) -> (r: Vec<WireItem>)
    ensures
        item_views(r@) == conversation_items(views(messages@), true),
{
    items_of(messages, true)
}

/// The messages of a Chat Completions request (reasoning left out).
pub fn messages_to_cc(messages: &Vec<Message>) -> (r: Vec<WireItem>)
    ensures
        item_views(r@) == conversation_items(views(messages@), false),
{
    items_of(messages, false)
}

/// The system text of an Anthropic request: the system messages' texts,
/// joined by newlines.
pub open spec fn system_join(ms: Seq<MessageView>) -> Seq<char>
    decreases ms.len(),
{
    if ms.len() == 0 {
        Seq::empty()
    } else {
        let s = system_join(ms.drop_last());
        match ms.last().kind {
            KindView::System { text, .. } => if system_count(ms.drop_last()) > 0 {
                s + "\n"@ + text
            } else {
                text
            },
            _ => s,
        }
    }
}

pub open spec fn system_count(ms: Seq<MessageView>) -> nat
    decreases ms.len(),
{
    if ms.len() == 0 {
        0
    } else {
        system_count(ms.drop_last()) + if ms.last().kind is System {
            1nat
        } else {
            0nat
        }
    }
}

proof fn lemma_no_system_join(ms: Seq<MessageView>)
    requires
        system_count(ms) == 0,
    ensures
        system_join(ms) == Seq::<char>::empty(),
    decreases ms.len(),
{
    if ms.len() > 0 {
        lemma_no_system_join(ms.drop_last());
    }
}

/// The dialogue of an Anthropic request: user and assistant messages only.
pub open spec fn dialogue(ms: Seq<MessageView>) -> Seq<ItemView>
    decreases ms.len(),
{
    if ms.len() == 0 {
        Seq::empty()
    } else {
        let d = dialogue(ms.drop_last());
        match ms.last().kind {
            KindView::User { text, .. } => d.push(ItemView::Message { role: Role::User, text }),
            KindView::Assistant { text } => d.push(ItemView::Message { role: Role::Assistant, text }),
            _ => d,
        }
    }
}

/// The parts of an Anthropic Messages request: the system text (empty when
/// there is none) and the dialogue.
pub fn anthropic_parts(messages: &Vec<Message>) -> (r: (String, Vec<WireItem>))
    ensures
        r.0@ == system_join(views(messages@)),
        item_views(r.1@) == dialogue(views(messages@)),
{
    let mut system = String::new();
    let mut count: usize = 0;
    let mut out: Vec<WireItem> = Vec::new();
    let mut i: usize = 0;
    proof {
        assert(views(messages@).take(0) =~= Seq::<MessageView>::empty());
        assert(item_views(out@) =~= Seq::<ItemView>::empty());
    }
    while i < messages.len()
        invariant
            i <= messages@.len(),
            count <= i,
            system@ == system_join(views(messages@).take(i as int)),
            count == system_count(views(messages@).take(i as int)),
            item_views(out@) == dialogue(views(messages@).take(i as int)),
        decreases messages.len() - i,
    {
        let ghost pre = views(messages@).take(i as int);
        proof {
            assert(views(messages@).take(i + 1).drop_last() =~= pre);
            assert(views(messages@).take(i + 1).last() == messages@[i as int]@);
        }
        let ghost before = item_views(out@);
        match &messages[i].kind {
            MessageKind::System { text, .. } => {
                let ghost s0 = system@;
                if count > 0 {
                    system.append("\n");
                }
                system.append(text.as_str());
                proof {
                    if count > 0 {
                        assert(system@ =~= s0 + "\n"@ + text@);
                    } else {
                        assert(s0 == system_join(pre));
                        assert(system_count(pre) == 0);
                        lemma_no_system_join(pre);
                        assert(system@ =~= text@);
                    }
                }
                count = count + 1;
            },
            MessageKind::User { text, .. } => {
                out.push(WireItem::Message { role: Role::User, text: owned(text.as_str()) });
                proof {
                    assert(item_views(out@) =~= before.push(ItemView::Message { role: Role::User, text: text@ }));
                }
            },
            MessageKind::Assistant { text } => {
                out.push(WireItem::Message { role: Role::Assistant, text: owned(text.as_str()) });
                proof {
                    assert(item_views(out@) =~= before.push(ItemView::Message { role: Role::Assistant, text: text@ }));
                }
            },
            _ => {},
        }
        i = i + 1;
    }
    proof {
        assert(views(messages@).take(messages@.len() as int) =~= views(messages@));
    }
    (system, out)
}

} // verus!
