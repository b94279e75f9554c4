//! Plugin registry: fail-fast registration checks, the two-phase contract
//! (declare, then bind), lazy loading and the model's tool list.
//!
//! The registry holds what plugins declare and which entry points have been
//! bound; the handler closures themselves live with the caller, keyed by the
//! full names this registry hands out.
use vstd::prelude::*;
use vstd::string::*;

use crate::contract::{
    full_name, full_name_of, full_to_wire, wire_of, CallerPolicy, EventDef, LoadPolicy, PluginError,
};
use crate::services::ServiceId;
use crate::text::{owned, str_eq};

verus! {

#[derive(Debug, Clone, Copy, PartialEq, Eq, Structural)]
pub enum EntryKind {
    Tool,
    Command,
    Event,
}

/// Declared tool. `params` is the parameter JSON schema, as text.
#[derive(Debug, Clone)]
pub struct ToolDef {
    pub name: String,
    pub user_visible: bool,
    pub title: Option<String>,
    pub group: Option<String>,
    pub description: String,
    pub params: String,
    pub policy: CallerPolicy,
    pub timeout: Option<u64>,
    pub icon: Option<String>,
}

/// Declared command (user-only entry point).
#[derive(Debug, Clone)]
pub struct CommandDef {
    pub name: String,
    pub user_visible: bool,
    pub title: Option<String>,
    pub group: Option<String>,
    pub description: String,
    pub params: String,
    pub icon: Option<String>,
}

/// What a plugin declares before it is registered.
#[derive(Debug, Clone)]
pub struct Info {
    pub namespace: String,
    pub requires: Vec<ServiceId>,
    pub provides: Vec<ServiceId>,
    pub load: LoadPolicy,
    pub tools: Vec<ToolDef>,
    pub commands: Vec<CommandDef>,
    pub events: Vec<EventDef>,
}

/// A registered plugin: its declaration, whether it is a kernel plugin and
/// whether its register phase has run.
#[derive(Debug, Clone)]
pub struct PluginRecord {
    pub info: Info,
    pub kernel: bool,
    pub loaded: bool,
}

/// A bound entry point (the handler itself is kept by the caller).
#[derive(Debug, Clone)]
pub struct BoundEntry {
    pub full_name: String,
    pub kind: EntryKind,
    pub policy: CallerPolicy,
    pub timeout: Option<u64>,
    pub description: String,
    pub icon: Option<String>,
    pub params: String,
}

pub struct Registry {
    plugins: Vec<PluginRecord>,
    available: Vec<ServiceId>,
    bound: Vec<BoundEntry>,
}

// ---------- the declared names of a plugin ----------

/// Short names in declaration order: tools, then commands, then events.
pub open spec fn shorts(info: Info) -> Seq<Seq<char>> {
    info.tools@.map_values(|t: ToolDef| t.name@) + info.commands@.map_values(|c: CommandDef| c.name@)
        + info.events@.map_values(|e: EventDef| e.name@)
}

pub open spec fn full_at(info: Info, j: int) -> Seq<char> {
    full_name_of(info.namespace@, shorts(info)[j])
}

pub open spec fn wire_at(info: Info, j: int) -> Seq<char> {
    wire_of(full_at(info, j))
}

/// Label of the j-th declared name in a collision message.
pub open spec fn kind_label(info: Info, j: int) -> Seq<char> {
    if j < info.tools@.len() {
        "工具"@
    } else if j < info.tools@.len() + info.commands@.len() {
        "命令"@
    } else {
        "事件"@
    }
}

pub open spec fn collision_message(info: Info, j: int) -> Seq<char> {
    kind_label(info, j) + " "@ + shorts(info)[j] + " → "@ + wire_at(info, j)
}

// ---------- registration checks ----------

pub open spec fn ns_taken(plugins: Seq<PluginRecord>, ns: Seq<char>) -> bool {
    exists|p: int| 0 <= p < plugins.len() && (#[trigger] plugins[p]).info.namespace@ == ns
}

pub open spec fn provided_by(plugins: Seq<PluginRecord>, id: ServiceId) -> bool {
    exists|p: int, k: int|
        0 <= p < plugins.len() && 0 <= k < plugins[p].info.provides@.len() && (
        #[trigger] plugins[p].info.provides@[k]) == id
}

pub open spec fn wire_taken(plugins: Seq<PluginRecord>, w: Seq<char>) -> bool {
    exists|p: int, j: int|
        0 <= p < plugins.len() && 0 <= j < shorts(plugins[p].info).len() && #[trigger] wire_at(
            plugins[p].info,
            j,
        ) == w
}

/// A kernel plugin's j-th provided service is already provided, by an earlier
/// plugin or earlier in its own list.
pub open spec fn provide_clash(plugins: Seq<PluginRecord>, provides: Seq<ServiceId>, j: int) -> bool {
    provided_by(plugins, provides[j]) || exists|i: int| 0 <= i < j && provides[i] == provides[j]
}

pub open spec fn first_provide_clash(plugins: Seq<PluginRecord>, provides: Seq<ServiceId>, j: int) -> bool {
    &&& 0 <= j < provides.len()
    &&& provide_clash(plugins, provides, j)
    &&& forall|i: int| 0 <= i < j ==> !provide_clash(plugins, provides, i)
}

pub open spec fn any_provide_clash(plugins: Seq<PluginRecord>, provides: Seq<ServiceId>) -> bool {
    exists|j: int| 0 <= j < provides.len() && provide_clash(plugins, provides, j)
}

/// Required services that are not available, in declaration order.
pub open spec fn missing_services(required: Seq<ServiceId>, available: Seq<ServiceId>) -> Seq<ServiceId> {
    required.filter(|r: ServiceId| !available.contains(r))
}

pub open spec fn full_clash(info: Info, j: int) -> bool {
    exists|i: int| 0 <= i < j && full_at(info, i) == full_at(info, j)
}

pub open spec fn wire_clash(plugins: Seq<PluginRecord>, info: Info, j: int) -> bool {
    wire_taken(plugins, wire_at(info, j)) || exists|i: int| 0 <= i < j && wire_at(info, i) == wire_at(info, j)
}

pub open spec fn entry_clash(plugins: Seq<PluginRecord>, info: Info, j: int) -> bool {
    full_clash(info, j) || wire_clash(plugins, info, j)
}

pub open spec fn first_entry_clash(plugins: Seq<PluginRecord>, info: Info, j: int) -> bool {
    &&& 0 <= j < shorts(info).len()
    &&& entry_clash(plugins, info, j)
    &&& forall|i: int| 0 <= i < j ==> !entry_clash(plugins, info, i)
}

pub open spec fn any_entry_clash(plugins: Seq<PluginRecord>, info: Info) -> bool {
    exists|j: int| 0 <= j < shorts(info).len() && entry_clash(plugins, info, j)
}

/// The service part of the checks passes.
pub open spec fn services_ok(plugins: Seq<PluginRecord>, available: Seq<ServiceId>, info: Info, kernel: bool) -> bool {
    if kernel {
        !any_provide_clash(plugins, info.provides@)
    } else {
        info.provides@.len() == 0 && missing_services(info.requires@, available).len() == 0
    }
}

/// Every registration check passes.
pub open spec fn registration_accepted(plugins: Seq<PluginRecord>, available: Seq<ServiceId>, info: Info, kernel: bool) -> bool {
    &&& !ns_taken(plugins, info.namespace@)
    &&& services_ok(plugins, available, info, kernel)
    &&& !any_entry_clash(plugins, info)
}

fn str_vec_contains(v: &Vec<String>, s: &String) -> (b: bool)
    ensures
        b == exists|i: int| 0 <= i < v@.len() && (#[trigger] v@[i])@ == s@,
{
    let mut i: usize = 0;
    while i < v.len()
        invariant
            i <= v@.len(),
            forall|k: int| 0 <= k < i ==> (#[trigger] v@[k])@ != s@,
        decreases v.len() - i,
    {
        if v[i] == *s {
            return true;
        }
        i = i + 1;
    }
    false
}

fn service_vec_contains(v: &Vec<ServiceId>, id: ServiceId) -> (b: bool)
    ensures
        b == v@.contains(id),
{
    let mut i: usize = 0;
    while i < v.len()
        invariant
            i <= v@.len(),
            forall|k: int| 0 <= k < i ==> v@[k] != id,
        decreases v.len() - i,
    {
        if v[i] == id {
            assert(v@[i as int] == id);
            return true;
        }
        i = i + 1;
    }
    false
}

/// Declared short names of a plugin, in order.
fn shorts_vec(info: &Info) -> (r: Vec<String>)
    ensures
        r@.map_values(|s: String| s@) == shorts(*info),
{
    let mut out: Vec<String> = Vec::new();
    let ghost a = info.tools@.map_values(|t: ToolDef| t.name@);
    let ghost b = info.commands@.map_values(|c: CommandDef| c.name@);
    let ghost c = info.events@.map_values(|e: EventDef| e.name@);
    let mut i: usize = 0;
    while i < info.tools.len()
        invariant
            i <= info.tools@.len(),
            out@.map_values(|s: String| s@) == a.subrange(0, i as int),
            a == info.tools@.map_values(|t: ToolDef| t.name@),
        decreases info.tools.len() - i,
    {
        let item = owned(info.tools[i].name.as_str());
        let ghost before = out@;
        out.push(item);
        assert(a[i as int] == info.tools@[i as int].name@);
        assert(out@.map_values(|s: String| s@) =~= before.map_values(|s: String| s@).push(item@));
        assert(out@.map_values(|s: String| s@) =~= a.subrange(0, i + 1));
        i = i + 1;
    }
    assert(a.subrange(0, info.tools@.len() as int) =~= a);
    let mut i: usize = 0;
    while i < info.commands.len()
        invariant
            i <= info.commands@.len(),
            out@.map_values(|s: String| s@) == a + b.subrange(0, i as int),
            a == info.tools@.map_values(|t: ToolDef| t.name@),
            b == info.commands@.map_values(|c: CommandDef| c.name@),
        decreases info.commands.len() - i,
    {
        let item = owned(info.commands[i].name.as_str());
        let ghost before = out@;
        out.push(item);
        assert(b[i as int] == info.commands@[i as int].name@);
        assert(out@.map_values(|s: String| s@) =~= before.map_values(|s: String| s@).push(item@));
        assert(out@.map_values(|s: String| s@) =~= a + b.subrange(0, i + 1));
        i = i + 1;
    }
    assert(b.subrange(0, info.commands@.len() as int) =~= b);
    let mut i: usize = 0;
    while i < info.events.len()
        invariant
            i <= info.events@.len(),
            out@.map_values(|s: String| s@) == a + b + c.subrange(0, i as int),
            a == info.tools@.map_values(|t: ToolDef| t.name@),
            b == info.commands@.map_values(|c: CommandDef| c.name@),
            c == info.events@.map_values(|e: EventDef| e.name@),
        decreases info.events.len() - i,
    {
        let item = owned(info.events[i].name.as_str());
        let ghost before = out@;
        out.push(item);
        assert(c[i as int] == info.events@[i as int].name@);
        assert(out@.map_values(|s: String| s@) =~= before.map_values(|s: String| s@).push(item@));
        assert(out@.map_values(|s: String| s@) =~= a + b + c.subrange(0, i + 1));
        i = i + 1;
    }
    assert(c.subrange(0, info.events@.len() as int) =~= c);
    out
}

impl Registry {
    /// An empty registry over the services that are available.
    pub fn new(available: Vec<ServiceId>) -> (r: Registry)
        ensures
            r.plugins() == Seq::<PluginRecord>::empty(),
            r.available() == available@,
            r.bound() == Seq::<BoundEntry>::empty(),
    {
        Registry { plugins: Vec::new(), available, bound: Vec::new() }
    }

    pub closed spec fn plugins(&self) -> Seq<PluginRecord> {
        self.plugins@
    }

    pub closed spec fn available(&self) -> Seq<ServiceId> {
        self.available@
    }

    pub closed spec fn bound(&self) -> Seq<BoundEntry> {
        self.bound@
    }

    /// Whether a wire name belongs to an already registered plugin.
    fn wire_taken_exec(&self, w: &String) -> (b: bool)
        ensures
            b == wire_taken(self.plugins(), w@),
    {
        let mut p: usize = 0;
        while p < self.plugins.len()
            invariant
                p <= self.plugins@.len(),
                forall|q: int, j: int|
                    0 <= q < p && 0 <= j < shorts(self.plugins@[q].info).len() ==> #[trigger] wire_at(
                        self.plugins@[q].info,
                        j,
                    ) != w@,
            decreases self.plugins.len() - p,
        {
            let info = &self.plugins[p].info;
            let names = shorts_vec(info);
            let mut j: usize = 0;
            while j < names.len()
                invariant
                    p < self.plugins@.len(),
                    info == self.plugins@[p as int].info,
                    names@.map_values(|s: String| s@) == shorts(*info),
                    j <= names@.len(),
                    forall|k: int| 0 <= k < j ==> #[trigger] wire_at(*info, k) != w@,
                decreases names.len() - j,
            {
                let full = full_name(info.namespace.as_str(), names[j].as_str());
                let wire = full_to_wire(full.as_str());
                proof {
                    assert(names@.map_values(|s: String| s@)[j as int] == names@[j as int]@);
                    assert(wire@ == wire_at(*info, j as int));
                }
                if wire == *w {
                    return true;
                }
                j = j + 1;
            }
            p = p + 1;
        }
        false
    }

    /// The services a kernel plugin declares, checked against earlier plugins
    /// and against themselves; the first one already provided is returned.
    fn first_taken_provide(&self, provides: &Vec<ServiceId>) -> (r: Option<ServiceId>)
        ensures
            match r {
                Some(id) => exists|j: int|
                    first_provide_clash(self.plugins(), provides@, j) && id == provides@[j],
                None => !any_provide_clash(self.plugins(), provides@),
            },
    {
        let mut j: usize = 0;
        while j < provides.len()
            invariant
                j <= provides@.len(),
                forall|i: int| 0 <= i < j ==> !provide_clash(self.plugins(), provides@, i),
            decreases provides.len() - j,
        {
            let id = provides[j];
            let mut taken = false;
            let mut p: usize = 0;
            while p < self.plugins.len()
                invariant
                    p <= self.plugins@.len(),
                    j < provides@.len(),
                    id == provides@[j as int],
                    taken == exists|q: int, k: int|
                        0 <= q < p && 0 <= k < self.plugins@[q].info.provides@.len() && (
                        #[trigger] self.plugins@[q].info.provides@[k]) == id,
                decreases self.plugins.len() - p,
            {
                let here = service_vec_contains(&self.plugins[p].info.provides, id);
                proof {
                    if here {
                        let k = choose|k: int|
                            0 <= k < self.plugins@[p as int].info.provides@.len()
                                && self.plugins@[p as int].info.provides@[k] == id;
                        assert(self.plugins@[p as int].info.provides@[k] == id);
                    }
                }
                taken = taken || here;
                p = p + 1;
            }
            let mut i: usize = 0;
            let mut earlier = false;
            while i < j
                invariant
                    i <= j,
                    j < provides@.len(),
                    id == provides@[j as int],
                    earlier == exists|k: int| 0 <= k < i && provides@[k] == id,
                decreases j - i,
            {
                if provides[i] == id {
                    earlier = true;
                }
                i = i + 1;
            }
            if taken || earlier {
                assert(provide_clash(self.plugins(), provides@, j as int));
                return Some(id);
            }
            assert(!provide_clash(self.plugins(), provides@, j as int));
            j = j + 1;
        }
        None
    }

    /// Checks a plugin's declaration and records it (not yet loaded).
    ///
    /// Checks, in order: the namespace is free; a kernel plugin provides no
    /// service already provided; a user plugin provides nothing and requires
    /// only available services; every declared name is new in the plugin and
    /// its wire name is new in the registry.  Whether the plugin is loaded at
    /// once (`info.load == Eager`) is decided by the caller, who then runs its
    /// register phase through `begin_load`.
    pub fn register(&mut self, info: Info, kernel: bool) -> (r: Result<(), PluginError>)
        ensures
            r is Ok <==> registration_accepted(old(self).plugins(), old(self).available(), info, kernel),
            r is Ok ==> final(self).plugins() == old(self).plugins().push(
                PluginRecord { info, kernel, loaded: false },
            ),
            r is Err ==> final(self).plugins() == old(self).plugins(),
            final(self).available() == old(self).available(),
            final(self).bound() == old(self).bound(),
            ns_taken(old(self).plugins(), info.namespace@) ==> (r matches Err(
                PluginError::NamespaceTaken(n),
            ) && n@ == info.namespace@),
            !ns_taken(old(self).plugins(), info.namespace@) && kernel && any_provide_clash(
                old(self).plugins(),
                info.provides@,
            ) ==> (r matches Err(PluginError::ServiceTaken(id)) && exists|j: int|
                first_provide_clash(old(self).plugins(), info.provides@, j) && id
                    == info.provides@[j]),
            !ns_taken(old(self).plugins(), info.namespace@) && !kernel && info.provides@.len() > 0
                ==> (r matches Err(PluginError::ProvisionNotAllowed(v)) && v@ == info.provides@),
            !ns_taken(old(self).plugins(), info.namespace@) && !kernel && info.provides@.len() == 0
                && missing_services(info.requires@, old(self).available()).len() > 0 ==> (r matches Err(
                PluginError::CapabilityUnavailable(v),
            ) && v@ == missing_services(info.requires@, old(self).available())),
            !ns_taken(old(self).plugins(), info.namespace@) && services_ok(
                old(self).plugins(),
                old(self).available(),
                info,
                kernel,
            ) && any_entry_clash(old(self).plugins(), info) ==> exists|j: int|
                first_entry_clash(old(self).plugins(), info, j) && (if full_clash(info, j) {
                    r matches Err(PluginError::DuplicateEntry(f)) && f@ == full_at(info, j)
                } else {
                    r matches Err(PluginError::WireNameCollision(m)) && m@ == collision_message(
                        info,
                        j,
                    )
                }),
    {
        let ghost plugins = self.plugins@;
        // namespace
        let mut p: usize = 0;
        while p < self.plugins.len()
            invariant
                p <= self.plugins@.len(),
                plugins == self.plugins@,
                forall|q: int| 0 <= q < p ==> (#[trigger] plugins[q]).info.namespace@ != info.namespace@,
            decreases self.plugins.len() - p,
        {
            if self.plugins[p].info.namespace == info.namespace {
                assert(plugins[p as int].info.namespace@ == info.namespace@);
                let n = owned(info.namespace.as_str());
                return Err(PluginError::NamespaceTaken(n));
            }
            p = p + 1;
        }
        assert(!ns_taken(plugins, info.namespace@));
        // services
        if kernel {
            match self.first_taken_provide(&info.provides) {
                Some(id) => {
                    return Err(PluginError::ServiceTaken(id));
                },
                None => {},
            }
        } else {
            if info.provides.len() > 0 {
                return Err(PluginError::ProvisionNotAllowed(info.provides.clone()));
            }
            let mut missing: Vec<ServiceId> = Vec::new();
            let mut k: usize = 0;
            while k < info.requires.len()
                invariant
                    k <= info.requires@.len(),
                    missing@ == missing_services(info.requires@.subrange(0, k as int), self.available@),
                    self.plugins@ == plugins,
                decreases info.requires.len() - k,
            {
                let id = info.requires[k];
                let present = service_vec_contains(&self.available, id);
                proof {
                    let pre = info.requires@.subrange(0, k as int);
                    let next = info.requires@.subrange(0, k + 1);
                    assert(next.drop_last() =~= pre);
                    reveal(Seq::filter);
                    assert(next.last() == id);
                }
                if !present {
                    missing.push(id);
                }
                k = k + 1;
            }
            proof {
                assert(info.requires@.subrange(0, info.requires@.len() as int) =~= info.requires@);
            }
            if missing.len() > 0 {
                return Err(PluginError::CapabilityUnavailable(missing));
            }
        }
        assert(services_ok(plugins, self.available@, info, kernel));
        // declared names
        let names = shorts_vec(&info);
        let mut fulls: Vec<String> = Vec::new();
        let mut wires: Vec<String> = Vec::new();
        let mut j: usize = 0;
        while j < names.len()
            invariant
                self.plugins@ == plugins,
                self.available@ == old(self).available@,
                plugins == old(self).plugins@,
                !ns_taken(plugins, info.namespace@),
                services_ok(plugins, self.available@, info, kernel),
                names@.map_values(|s: String| s@) == shorts(info),
                j <= names@.len(),
                fulls@.len() == j,
                wires@.len() == j,
                forall|i: int| 0 <= i < j ==> (#[trigger] fulls@[i])@ == full_at(info, i),
                forall|i: int| 0 <= i < j ==> (#[trigger] wires@[i])@ == wire_at(info, i),
                forall|i: int| 0 <= i < j ==> !entry_clash(plugins, info, i),
            decreases names.len() - j,
        {
            let full = full_name(info.namespace.as_str(), names[j].as_str());
            let wire = full_to_wire(full.as_str());
            proof {
                assert(names@.map_values(|s: String| s@)[j as int] == names@[j as int]@);
                assert(full@ == full_at(info, j as int));
                assert(wire@ == wire_at(info, j as int));
            }
            if str_vec_contains(&fulls, &full) {
                proof {
                    let i = choose|i: int| 0 <= i < fulls@.len() && (#[trigger] fulls@[i])@ == full@;
                    assert(full_at(info, i) == full_at(info, j as int));
                    assert(full_clash(info, j as int));
                    assert(first_entry_clash(plugins, info, j as int));
                }
                return Err(PluginError::DuplicateEntry(full));
            }
            proof {
                assert forall|i: int| 0 <= i < j implies full_at(info, i) != full_at(info, j as int) by {
                    assert(fulls@[i]@ == full_at(info, i));
                }
            }
            let taken = self.wire_taken_exec(&wire);
            let again = str_vec_contains(&wires, &wire);
            if taken || again {
                proof {
                    if again {
                        let i = choose|i: int| 0 <= i < wires@.len() && (#[trigger] wires@[i])@ == wire@;
                        assert(wire_at(info, i) == wire_at(info, j as int));
                    }
                    assert(wire_clash(plugins, info, j as int));
                    assert(!full_clash(info, j as int));
                    assert(first_entry_clash(plugins, info, j as int));
                }
                let label = if j < info.tools.len() {
                    "工具"
                } else if j < info.tools.len() + info.commands.len() {
                    "命令"
                } else {
                    "事件"
                };
                let mut msg = owned(label);
                msg.append(" ");
                msg.append(names[j].as_str());
                msg.append(" → ");
                msg.append(wire.as_str());
                proof {
                    assert(names@[j as int]@ == shorts(info)[j as int]);
                    assert(msg@ == collision_message(info, j as int));
                }
                return Err(PluginError::WireNameCollision(msg));
            }
            proof {
                assert forall|i: int| 0 <= i < j implies wire_at(info, i) != wire_at(info, j as int) by {
                    assert(wires@[i]@ == wire_at(info, i));
                }
                assert(!entry_clash(plugins, info, j as int));
            }
            fulls.push(full);
            wires.push(wire);
            j = j + 1;
        }
        assert(!any_entry_clash(plugins, info));
        self.plugins.push(PluginRecord { info, kernel, loaded: false });
        Ok(())
    }
}


/// Tool schema offered to the model: wire name, description, parameter schema.
#[derive(Debug)]
pub struct ToolSchema {
    pub name: String,
    pub description: String,
    pub input_schema: String,
}

/// Tools a plugin offers to the model (policy `UserAndModel`), in order, by
/// (wire name, description, parameter schema).
pub open spec fn plugin_model_tools(info: Info) -> Seq<(Seq<char>, Seq<char>, Seq<char>)> {
    info.tools@.filter(|t: ToolDef| t.policy == CallerPolicy::UserAndModel).map_values(
        |t: ToolDef| (wire_of(full_name_of(info.namespace@, t.name@)), t.description@, t.params@),
    )
}

/// Model tools of all plugins, plugin by plugin.
pub open spec fn model_tools_of(plugins: Seq<PluginRecord>) -> Seq<(Seq<char>, Seq<char>, Seq<char>)>
    decreases plugins.len(),
{
    if plugins.len() == 0 {
        Seq::empty()
    } else {
        model_tools_of(plugins.drop_last()) + plugin_model_tools(plugins.last().info)
    }
}

pub open spec fn schema_view(t: ToolSchema) -> (Seq<char>, Seq<char>, Seq<char>) {
    (t.name@, t.description@, t.input_schema@)
}

/// The entry that `bind` records for a declared name.
pub open spec fn bound_of_tool(namespace: Seq<char>, t: ToolDef, e: BoundEntry) -> bool {
    &&& e.full_name@ == full_name_of(namespace, t.name@)
    &&& e.kind == EntryKind::Tool
    &&& e.policy == t.policy
    &&& e.timeout == t.timeout
    &&& e.description@ == t.description@
    &&& e.icon.is_some() == t.icon.is_some()
    &&& (e.icon.is_some() ==> e.icon.unwrap()@ == t.icon.unwrap()@)
    &&& e.params@ == t.params@
}

pub open spec fn bound_of_command(namespace: Seq<char>, c: CommandDef, e: BoundEntry) -> bool {
    &&& e.full_name@ == full_name_of(namespace, c.name@)
    &&& e.kind == EntryKind::Command
    &&& e.policy == CallerPolicy::UserOnly
    &&& e.timeout.is_none()
    &&& e.description@ == c.description@
    &&& e.icon.is_some() == c.icon.is_some()
    &&& (e.icon.is_some() ==> e.icon.unwrap()@ == c.icon.unwrap()@)
    &&& e.params@ == c.params@
}

pub open spec fn bound_of_event(namespace: Seq<char>, name: Seq<char>, e: BoundEntry) -> bool {
    &&& e.full_name@ == full_name_of(namespace, name)
    &&& e.kind == EntryKind::Event
    &&& e.policy == CallerPolicy::UserOnly
    &&& e.timeout.is_none()
    &&& e.description@ == Seq::<char>::empty()
    &&& e.icon.is_none()
    &&& e.params@ == empty_params_schema()
}

/// Parameter schema of an entry point that takes no parameters.
pub open spec fn empty_params_schema() -> Seq<char> {
    "{\"type\":\"object\"}"@
}

pub open spec fn plugin_index(plugins: Seq<PluginRecord>, ns: Seq<char>, p: int) -> bool {
    &&& 0 <= p < plugins.len()
    &&& plugins[p].info.namespace@ == ns
    &&& forall|q: int| 0 <= q < p ==> (#[trigger] plugins[q]).info.namespace@ != ns
}

pub open spec fn bound_index(bound: Seq<BoundEntry>, full: Seq<char>, k: int) -> bool {
    &&& 0 <= k < bound.len()
    &&& bound[k].full_name@ == full
    &&& forall|q: int| 0 <= q < k ==> (#[trigger] bound[q]).full_name@ != full
}

pub open spec fn is_bound(bound: Seq<BoundEntry>, full: Seq<char>) -> bool {
    exists|k: int| 0 <= k < bound.len() && (#[trigger] bound[k]).full_name@ == full
}

pub open spec fn unknown_plugin_message(ns: Seq<char>) -> Seq<char> {
    "未知插件："@ + ns
}

pub open spec fn missing_entry_message(full: Seq<char>) -> Seq<char> {
    "入口点不存在："@ + full
}

/// Why a lookup of `full` found no entry: an unbound name of an unknown
/// namespace names the plugin; anything else names the entry.
pub open spec fn lookup_failure_message(plugins: Seq<PluginRecord>, bound: Seq<BoundEntry>, full: Seq<char>) -> Seq<char> {
    if !is_bound(bound, full) && !ns_taken(plugins, namespace_of(full)) {
        unknown_plugin_message(namespace_of(full))
    } else {
        missing_entry_message(full)
    }
}

/// What a call needs next to reach an entry point.
pub enum EnsureStep<'a> {
    Found(&'a BoundEntry),
    /// Load the plugin of this namespace, then ask again.
    Load(String),
    Missing(PluginError),
}

/// The namespace of a full name: the part before the first `::` (all of
/// it when there is none), as `split("::").next()` gives it.
pub open spec fn namespace_of(full: Seq<char>) -> Seq<char>
    decreases full.len(),
{
    if full.len() < 2 {
        full
    } else if full[0] == ':' && full[1] == ':' {
        Seq::empty()
    } else {
        seq![full[0]] + namespace_of(full.drop_first())
    }
}

pub fn namespace_text(full: &str) -> (r: String)
    ensures
        r@ == namespace_of(full@),
{
    let n = full.unicode_len();
    let mut i: usize = 0;
    proof {
        assert(full@.subrange(0, n as int) =~= full@);
        assert(full@.subrange(0, 0) + namespace_of(full@) =~= namespace_of(full@));
    }
    while i + 1 < n && !(full.get_char(i) == ':' && full.get_char(i + 1) == ':')
        invariant
            n == full@.len(),
            i <= n,
            n == 0 ==> i == 0,
            i > 0 ==> i < n,
            namespace_of(full@) == full@.subrange(0, i as int) + namespace_of(full@.subrange(i as int, n as int)),
        decreases n - i,
    {
        proof {
            let t = full@.subrange(i as int, n as int);
            assert(t.drop_first() =~= full@.subrange(i + 1, n as int));
            assert(t[0] == full@[i as int] && t[1] == full@[i + 1]);
            assert(full@.subrange(0, i + 1) =~= full@.subrange(0, i as int) + seq![full@[i as int]]);
        }
        i = i + 1;
    }
    if i + 1 < n {
        proof {
            let t = full@.subrange(i as int, n as int);
            assert(t[0] == full@[i as int] && t[1] == full@[i + 1]);
            assert(namespace_of(t) =~= Seq::<char>::empty());
            assert(full@.subrange(0, i as int) + Seq::<char>::empty() =~= full@.subrange(0, i as int));
        }
        owned(full.substring_char(0, i))
    } else {
        proof {
            assert(full@.subrange(0, i as int) + full@.subrange(i as int, n as int) =~= full@);
        }
        owned(full)
    }
}

impl Registry {
    fn find_plugin(&self, ns: &str) -> (r: Option<usize>)
        ensures
            match r {
                Some(p) => plugin_index(self.plugins(), ns@, p as int),
                None => !ns_taken(self.plugins(), ns@),
            },
    {
        let mut p: usize = 0;
        while p < self.plugins.len()
            invariant
                p <= self.plugins@.len(),
                forall|q: int| 0 <= q < p ==> (#[trigger] self.plugins@[q]).info.namespace@ != ns@,
            decreases self.plugins.len() - p,
        {
            if str_eq(self.plugins[p].info.namespace.as_str(), ns) {
                return Some(p);
            }
            p = p + 1;
        }
        None
    }

    fn find_bound(&self, full: &str) -> (r: Option<usize>)
        ensures
            match r {
                Some(k) => bound_index(self.bound(), full@, k as int),
                None => !is_bound(self.bound(), full@),
            },
    {
        let mut k: usize = 0;
        while k < self.bound.len()
            invariant
                k <= self.bound@.len(),
                forall|q: int| 0 <= q < k ==> (#[trigger] self.bound@[q]).full_name@ != full@,
            decreases self.bound.len() - k,
        {
            if str_eq(self.bound[k].full_name.as_str(), full) {
                return Some(k);
            }
            k = k + 1;
        }
        None
    }

    /// The registered plugin with this namespace.
    pub fn plugin(&self, ns: &str) -> (r: Option<&PluginRecord>)
        ensures
            match r {
                Some(rec) => exists|p: int| plugin_index(self.plugins(), ns@, p) && *rec == self.plugins()[p],
                None => !ns_taken(self.plugins(), ns@),
            },
    {
        match self.find_plugin(ns) {
            Some(p) => Some(&self.plugins[p]),
            None => None,
        }
    }

    /// Starts loading a plugin: `Ok(true)` means its register phase must run
    /// now (it is marked loaded), `Ok(false)` that it already ran.
    pub fn begin_load(&mut self, ns: &str) -> (r: Result<bool, PluginError>)
        ensures
            final(self).available() == old(self).available(),
            final(self).bound() == old(self).bound(),
            final(self).plugins().len() == old(self).plugins().len(),
            !ns_taken(old(self).plugins(), ns@) ==> (r matches Err(PluginError::Internal(m)) && m@
                == unknown_plugin_message(ns@) && final(self).plugins() == old(self).plugins()),
            forall|p: int| #[trigger] plugin_index(old(self).plugins(), ns@, p) ==> {
                &&& r == Ok::<bool, PluginError>(!old(self).plugins()[p].loaded)
                &&& final(self).plugins() == old(self).plugins().update(
                    p,
                    PluginRecord { loaded: true, ..old(self).plugins()[p] },
                )
            },
    {
        match self.find_plugin(ns) {
            None => {
                let m = crate::text::concat2("未知插件：", ns);
                Err(PluginError::Internal(m))
            },
            Some(p) => {
                if self.plugins[p].loaded {
                    proof {
                        assert(self.plugins@.update(p as int, PluginRecord { loaded: true, ..self.plugins@[p as int] }) =~= self.plugins@);
                    }
                    Ok(false)
                } else {
                    self.plugins[p].loaded = true;
                    Ok(true)
                }
            },
        }
    }

    /// Undoes `begin_load` after a register phase failed.
    pub fn abort_load(&mut self, ns: &str)
        ensures
            final(self).available() == old(self).available(),
            final(self).bound() == old(self).bound(),
            !ns_taken(old(self).plugins(), ns@) ==> final(self).plugins() == old(self).plugins(),
            forall|p: int| #[trigger] plugin_index(old(self).plugins(), ns@, p) ==> final(self).plugins()
                == old(self).plugins().update(p, PluginRecord { loaded: false, ..old(self).plugins()[p] }),
    {
        match self.find_plugin(ns) {
            None => {},
            Some(p) => {
                self.plugins[p].loaded = false;
            },
        }
    }

    /// Binds a declared entry point of plugin `ns` (second phase of the
    /// contract): the name must be declared as `kind` and not bound yet.
    pub fn bind(&mut self, ns: &str, short: &str, kind: EntryKind) -> (r: Result<(), PluginError>)
        ensures
            final(self).available() == old(self).available(),
            final(self).plugins() == old(self).plugins(),
            !ns_taken(old(self).plugins(), ns@) ==> (r matches Err(PluginError::Internal(m)) && m@
                == unknown_plugin_message(ns@)),
            r is Err ==> final(self).bound() == old(self).bound(),
            forall|p: int| #[trigger] plugin_index(old(self).plugins(), ns@, p) ==> {
                let info = old(self).plugins()[p].info;
                let full = full_name_of(ns@, short@);
                let declared = match kind {
                    EntryKind::Tool => exists|i: int| 0 <= i < info.tools@.len() && (#[trigger] info.tools@[i]).name@ == short@,
                    EntryKind::Command => exists|i: int| 0 <= i < info.commands@.len() && (#[trigger] info.commands@[i]).name@ == short@,
                    EntryKind::Event => exists|i: int| 0 <= i < info.events@.len() && (#[trigger] info.events@[i]).name@ == short@,
                };
                &&& !declared ==> (r matches Err(PluginError::UndeclaredEntry(m)) && m@ == short@)
                &&& declared && is_bound(old(self).bound(), full) ==> (r matches Err(PluginError::DuplicateEntry(m)) && m@ == full)
                &&& declared && !is_bound(old(self).bound(), full) ==> {
                    &&& r is Ok
                    &&& final(self).bound().drop_last() == old(self).bound()
                    &&& final(self).bound().len() == old(self).bound().len() + 1
                    &&& match kind {
                        EntryKind::Tool => exists|i: int| 0 <= i < info.tools@.len() && info.tools@[i].name@ == short@
                            && (forall|q: int| 0 <= q < i ==> (#[trigger] info.tools@[q]).name@ != short@)
                            && bound_of_tool(ns@, info.tools@[i], final(self).bound().last()),
                        EntryKind::Command => exists|i: int| 0 <= i < info.commands@.len() && info.commands@[i].name@ == short@
                            && (forall|q: int| 0 <= q < i ==> (#[trigger] info.commands@[q]).name@ != short@)
                            && bound_of_command(ns@, info.commands@[i], final(self).bound().last()),
                        EntryKind::Event => bound_of_event(ns@, short@, final(self).bound().last()),
                    }
                }
            },
    {
        let p = match self.find_plugin(ns) {
            None => {
                let m = crate::text::concat2("未知插件：", ns);
                return Err(PluginError::Internal(m));
            },
            Some(p) => p,
        };
        let ghost info = self.plugins@[p as int].info;
        let ghost mut widx: int = 0;
        proof {
            assert forall|p2: int| #[trigger] plugin_index(old(self).plugins(), ns@, p2) implies p2 == p by {
                if p2 < p {
                    assert(self.plugins@[p2].info.namespace@ != ns@);
                } else if p2 > p {
                    assert(old(self).plugins()[p as int].info.namespace@ != ns@);
                }
            }
        }
        let full = full_name(ns, short);
        let entry = match kind {
            EntryKind::Tool => {
                let tools = &self.plugins[p].info.tools;
                let mut i: usize = 0;
                while i < tools.len()
                    invariant
                        i <= tools@.len(),
                        forall|q: int| 0 <= q < i ==> (#[trigger] tools@[q]).name@ != short@,
                    ensures
                        i <= tools@.len(),
                        forall|q: int| 0 <= q < i ==> (#[trigger] tools@[q]).name@ != short@,
                        i < tools@.len() ==> tools@[i as int].name@ == short@,
                    decreases tools.len() - i,
                {
                    if str_eq(tools[i].name.as_str(), short) {
                        break;
                    }
                    i = i + 1;
                }
                if i == tools.len() {
                    return Err(PluginError::UndeclaredEntry(owned(short)));
                }
                proof {
                    widx = i as int;
                    assert(tools@[widx].name@ == short@);
                }
                let t = &tools[i];
                BoundEntry {
                    full_name: owned(full.as_str()),
                    kind: EntryKind::Tool,
                    policy: t.policy,
                    timeout: t.timeout,
                    description: owned(t.description.as_str()),
                    icon: match &t.icon {
                        Some(s) => Some(owned(s.as_str())),
                        None => None,
                    },
                    params: owned(t.params.as_str()),
                }
            },
            EntryKind::Command => {
                let commands = &self.plugins[p].info.commands;
                let mut i: usize = 0;
                while i < commands.len()
                    invariant
                        i <= commands@.len(),
                        forall|q: int| 0 <= q < i ==> (#[trigger] commands@[q]).name@ != short@,
                    ensures
                        i <= commands@.len(),
                        forall|q: int| 0 <= q < i ==> (#[trigger] commands@[q]).name@ != short@,
                        i < commands@.len() ==> commands@[i as int].name@ == short@,
                    decreases commands.len() - i,
                {
                    if str_eq(commands[i].name.as_str(), short) {
                        break;
                    }
                    i = i + 1;
                }
                if i == commands.len() {
                    return Err(PluginError::UndeclaredEntry(owned(short)));
                }
                proof {
                    widx = i as int;
                    assert(commands@[widx].name@ == short@);
                }
                let c = &commands[i];
                BoundEntry {
                    full_name: owned(full.as_str()),
                    kind: EntryKind::Command,
                    policy: CallerPolicy::UserOnly,
                    timeout: None,
                    description: owned(c.description.as_str()),
                    icon: match &c.icon {
                        Some(s) => Some(owned(s.as_str())),
                        None => None,
                    },
                    params: owned(c.params.as_str()),
                }
            },
            EntryKind::Event => {
                let events = &self.plugins[p].info.events;
                let mut i: usize = 0;
                while i < events.len()
                    invariant
                        i <= events@.len(),
                        forall|q: int| 0 <= q < i ==> (#[trigger] events@[q]).name@ != short@,
                    ensures
                        i <= events@.len(),
                        forall|q: int| 0 <= q < i ==> (#[trigger] events@[q]).name@ != short@,
                        i < events@.len() ==> events@[i as int].name@ == short@,
                    decreases events.len() - i,
                {
                    if str_eq(events[i].name.as_str(), short) {
                        break;
                    }
                    i = i + 1;
                }
                if i == events.len() {
                    return Err(PluginError::UndeclaredEntry(owned(short)));
                }
                proof {
                    widx = i as int;
                    assert(events@[widx].name@ == short@);
                }
                BoundEntry {
                    full_name: owned(full.as_str()),
                    kind: EntryKind::Event,
                    policy: CallerPolicy::UserOnly,
                    timeout: None,
                    description: String::new(),
                    icon: None,
                    params: owned("{\"type\":\"object\"}"),
                }
            },
        };
        if self.find_bound(full.as_str()).is_some() {
            proof {
                match kind {
                    EntryKind::Tool => assert(info.tools@[widx].name@ == short@),
                    EntryKind::Command => assert(info.commands@[widx].name@ == short@),
                    EntryKind::Event => assert(info.events@[widx].name@ == short@),
                }
            }
            return Err(PluginError::DuplicateEntry(full));
        }
        self.bound.push(entry);
        proof {
            assert(self.bound@.drop_last() =~= old(self).bound@);
        }
        Ok(())
    }

    /// The bound entry with this full name, if it is of the kind asked for;
    /// else the reason (an unknown plugin, or no such entry).  Plugins not
    /// loaded yet are loaded by the caller first (`ensure_step`).
    pub fn entry(&self, full: &str, kind: EntryKind) -> (r: Result<&BoundEntry, PluginError>)
        ensures
            match r {
                Ok(e) => exists|k: int| bound_index(self.bound(), full@, k) && *e == self.bound()[k] && e.kind == kind,
                Err(PluginError::Internal(m)) => m@ == lookup_failure_message(self.plugins(), self.bound(), full@)
                    && forall|k: int| bound_index(self.bound(), full@, k) ==> self.bound()[k].kind != kind,
                Err(_) => false,
            },
    {
        match self.find_bound(full) {
            Some(k) => {
                if self.bound[k].kind == kind {
                    return Ok(&self.bound[k]);
                }
                let m = crate::text::concat2("入口点不存在：", full);
                return Err(PluginError::Internal(m));
            },
            None => {},
        }
        let ns = namespace_text(full);
        match self.find_plugin(ns.as_str()) {
            None => {
                let m = crate::text::concat2("未知插件：", ns.as_str());
                Err(PluginError::Internal(m))
            },
            Some(_) => {
                let m = crate::text::concat2("入口点不存在：", full);
                Err(PluginError::Internal(m))
            },
        }
    }

    /// The entry a call needs, loading its plugin on demand: the bound
    /// entry of that name if it is of the kind asked for; an entry bound
    /// with another kind is missing; an unbound name sends the caller to load
    /// the plugin of its namespace (the part before the first `::`) when that
    /// plugin is registered and not loaded yet, after which it asks again; an
    /// unknown namespace, or a loaded plugin without the entry, is an error.
    pub fn ensure_step(&self, full: &str, kind: EntryKind) -> (r: EnsureStep)
        ensures
            forall|k: int|
                #![trigger bound_index(self.bound(), full@, k)]
                bound_index(self.bound(), full@, k) ==> if self.bound()[k].kind == kind {
                    r matches EnsureStep::Found(e) && *e == self.bound()[k]
                } else {
                    r matches EnsureStep::Missing(PluginError::Internal(m)) && m@ == missing_entry_message(full@)
                },
            !is_bound(self.bound(), full@) && !ns_taken(self.plugins(), namespace_of(full@)) ==> (r matches EnsureStep::Missing(
                PluginError::Internal(m),
            ) && m@ == unknown_plugin_message(namespace_of(full@))),
            forall|p: int|
                #![trigger plugin_index(self.plugins(), namespace_of(full@), p)]
                !is_bound(self.bound(), full@) && plugin_index(self.plugins(), namespace_of(full@), p) ==> if self.plugins()[p].loaded {
                    r matches EnsureStep::Missing(PluginError::Internal(m)) && m@ == missing_entry_message(full@)
                } else {
                    r matches EnsureStep::Load(ns) && ns@ == namespace_of(full@)
                },
    {
        match self.find_bound(full) {
            Some(k) => {
                proof {
                    assert forall|q: int| #[trigger] bound_index(self.bound(), full@, q) implies q == k by {
                        if q < k {
                            assert(self.bound()[q].full_name@ != full@);
                        } else if k < q {
                            assert(self.bound()[k as int].full_name@ != full@);
                        }
                    }
                }
                if self.bound[k].kind == kind {
                    return EnsureStep::Found(&self.bound[k]);
                }
                let m = crate::text::concat2("入口点不存在：", full);
                return EnsureStep::Missing(PluginError::Internal(m));
            },
            None => {},
        }
        let ns = namespace_text(full);
        match self.find_plugin(ns.as_str()) {
            None => {
                let m = crate::text::concat2("未知插件：", ns.as_str());
                EnsureStep::Missing(PluginError::Internal(m))
            },
            Some(p) => {
                proof {
                    assert forall|q: int| #[trigger] plugin_index(self.plugins(), ns@, q) implies q == p by {
                        if q < p {
                            assert(self.plugins()[q].info.namespace@ != ns@);
                        } else if p < q {
                            assert(self.plugins()[p as int].info.namespace@ != ns@);
                        }
                    }
                }
                if self.plugins[p].loaded {
                    let m = crate::text::concat2("入口点不存在：", full);
                    EnsureStep::Missing(PluginError::Internal(m))
                } else {
                    EnsureStep::Load(ns)
                }
            },
        }
    }

    /// Full name of the first bound entry whose wire name is `wire`.
    pub open spec fn resolve_wire_of(&self, wire: Seq<char>) -> Option<Seq<char>> {
        if exists|k: int| 0 <= k < self.bound().len() && wire_of(#[trigger] self.bound()[k].full_name@) == wire {
            let k = choose|k: int|
                0 <= k < self.bound().len() && wire_of(#[trigger] self.bound()[k].full_name@) == wire && forall|q: int|
                    0 <= q < k ==> wire_of((#[trigger] self.bound()[q]).full_name@) != wire;
            Some(self.bound()[k].full_name@)
        } else {
            None
        }
    }

    /// Full name of the bound entry whose wire name is `wire`.
    pub fn resolve_bound_wire(&self, wire: &str) -> (r: Option<String>)
        ensures
            match r {
                Some(f) => exists|k: int| 0 <= k < self.bound().len() && wire_of(self.bound()[k].full_name@) == wire@
                    && f@ == self.bound()[k].full_name@
                    && forall|q: int| 0 <= q < k ==> wire_of((#[trigger] self.bound()[q]).full_name@) != wire@,
                None => forall|k: int| 0 <= k < self.bound().len() ==> wire_of((#[trigger] self.bound()[k]).full_name@) != wire@,
            },
            crate::message::opt_str(r) == self.resolve_wire_of(wire@),
    {
        let mut k: usize = 0;
        while k < self.bound.len()
            invariant
                k <= self.bound@.len(),
                forall|q: int| 0 <= q < k ==> wire_of((#[trigger] self.bound@[q]).full_name@) != wire@,
            decreases self.bound.len() - k,
        {
            let w = full_to_wire(self.bound[k].full_name.as_str());
            if str_eq(w.as_str(), wire) {
                proof {
                    let kk = k as int;
                    assert(self.bound()[kk] == self.bound@[kk]);
                    assert(wire_of(self.bound()[kk].full_name@) == wire@);
                    assert forall|q: int| 0 <= q < kk implies wire_of((#[trigger] self.bound()[q]).full_name@) != wire@ by {
                        assert(self.bound()[q] == self.bound@[q]);
                    }
                    let c = choose|c: int|
                        0 <= c < self.bound().len() && wire_of(#[trigger] self.bound()[c].full_name@) == wire@ && forall|q: int|
                            0 <= q < c ==> wire_of((#[trigger] self.bound()[q]).full_name@) != wire@;
                    if c < kk {
                        assert(self.bound()[c] == self.bound@[c]);
                    } else if c > kk {
                        assert(wire_of(self.bound()[kk].full_name@) != wire@);
                    }
                }
                return Some(owned(self.bound[k].full_name.as_str()));
            }
            k = k + 1;
        }
        None
    }

    /// Namespace of the first plugin that declares a tool with this wire name
    /// (the plugin to load before the wire name can resolve).
    pub fn namespace_declaring_wire(&self, wire: &str) -> (r: Option<String>)
        ensures
            match r {
                Some(ns) => exists|p: int, i: int| 0 <= p < self.plugins().len() && 0 <= i < self.plugins()[p].info.tools@.len()
                    && wire_of(full_name_of(self.plugins()[p].info.namespace@, self.plugins()[p].info.tools@[i].name@)) == wire@
                    && ns@ == self.plugins()[p].info.namespace@
                    && forall|q: int, j: int| 0 <= q < p && 0 <= j < self.plugins()[q].info.tools@.len() ==>
                        wire_of(full_name_of(self.plugins()[q].info.namespace@, (#[trigger] self.plugins()[q].info.tools@[j]).name@)) != wire@,
                None => forall|q: int, j: int| 0 <= q < self.plugins().len() && 0 <= j < self.plugins()[q].info.tools@.len() ==>
                    wire_of(full_name_of(self.plugins()[q].info.namespace@, (#[trigger] self.plugins()[q].info.tools@[j]).name@)) != wire@,
            },
    {
        let mut p: usize = 0;
        while p < self.plugins.len()
            invariant
                p <= self.plugins@.len(),
                forall|q: int, j: int| 0 <= q < p && 0 <= j < self.plugins@[q].info.tools@.len() ==>
                    wire_of(full_name_of(self.plugins@[q].info.namespace@, (#[trigger] self.plugins@[q].info.tools@[j]).name@)) != wire@,
            decreases self.plugins.len() - p,
        {
            let info = &self.plugins[p].info;
            let mut i: usize = 0;
            while i < info.tools.len()
                invariant
                    p < self.plugins@.len(),
                    info == self.plugins@[p as int].info,
                    i <= info.tools@.len(),
                    forall|j: int| 0 <= j < i ==> wire_of(full_name_of(info.namespace@, (#[trigger] info.tools@[j]).name@)) != wire@,
                    forall|q: int, j: int| 0 <= q < p && 0 <= j < self.plugins@[q].info.tools@.len() ==>
                        wire_of(full_name_of(self.plugins@[q].info.namespace@, (#[trigger] self.plugins@[q].info.tools@[j]).name@)) != wire@,
                decreases info.tools.len() - i,
            {
                let full = full_name(info.namespace.as_str(), info.tools[i].name.as_str());
                let w = full_to_wire(full.as_str());
                if str_eq(w.as_str(), wire) {
                    proof {
                        assert(wire_of(full_name_of(self.plugins@[p as int].info.namespace@, self.plugins@[p as int].info.tools@[i as int].name@)) == wire@);
                    }
                    return Some(owned(info.namespace.as_str()));
                }
                i = i + 1;
            }
            p = p + 1;
        }
        None
    }

    /// Tools offered to the model: every tool of policy `UserAndModel`, by
    /// wire name, plugin by plugin in registration order.
    pub fn model_tools(&self) -> (r: Vec<ToolSchema>)
        ensures
            r@.map_values(|t: ToolSchema| schema_view(t)) == model_tools_of(self.plugins()),
    {
        let mut out: Vec<ToolSchema> = Vec::new();
        let mut p: usize = 0;
        while p < self.plugins.len()
            invariant
                p <= self.plugins@.len(),
                out@.map_values(|t: ToolSchema| schema_view(t)) == model_tools_of(self.plugins@.subrange(0, p as int)),
            decreases self.plugins.len() - p,
        {
            let info = &self.plugins[p].info;
            let ghost base = out@.map_values(|t: ToolSchema| schema_view(t));
            let ghost keep = |t: ToolDef| t.policy == CallerPolicy::UserAndModel;
            let ghost conv = |t: ToolDef| (wire_of(full_name_of(info.namespace@, t.name@)), t.description@, t.params@);
            let mut i: usize = 0;
            while i < info.tools.len()
                invariant
                    p < self.plugins@.len(),
                    info == self.plugins@[p as int].info,
                    i <= info.tools@.len(),
                    out@.map_values(|t: ToolSchema| schema_view(t)) == base + info.tools@.subrange(0, i as int).filter(keep).map_values(conv),
                    keep == (|t: ToolDef| t.policy == CallerPolicy::UserAndModel),
                    conv == (|t: ToolDef| (wire_of(full_name_of(info.namespace@, t.name@)), t.description@, t.params@)),
                decreases info.tools.len() - i,
            {
                let t = &info.tools[i];
                proof {
                    let pre = info.tools@.subrange(0, i as int);
                    let next = info.tools@.subrange(0, i + 1);
                    assert(next.drop_last() =~= pre);
                    reveal(Seq::filter);
                }
                if t.policy == CallerPolicy::UserAndModel {
                    let full = full_name(info.namespace.as_str(), t.name.as_str());
                    let schema = ToolSchema {
                        name: full_to_wire(full.as_str()),
                        description: owned(t.description.as_str()),
                        input_schema: owned(t.params.as_str()),
                    };
                    let ghost before = out@;
                    out.push(schema);
                    proof {
                        let pre = info.tools@.subrange(0, i as int);
                        let next = info.tools@.subrange(0, i + 1);
                        assert(next.filter(keep) == pre.filter(keep).push(*t));
                        assert(next.filter(keep).map_values(conv) =~= pre.filter(keep).map_values(conv).push(conv(*t)));
                        assert(out@.map_values(|t: ToolSchema| schema_view(t)) =~= before.map_values(|t: ToolSchema| schema_view(t)).push(schema_view(schema)));
                    }
                } else {
                    proof {
                        let pre = info.tools@.subrange(0, i as int);
                        let next = info.tools@.subrange(0, i + 1);
                        assert(next.filter(keep) == pre.filter(keep));
                    }
                }
                i = i + 1;
            }
            proof {
                assert(info.tools@.subrange(0, info.tools@.len() as int) =~= info.tools@);
                let sub = self.plugins@.subrange(0, p + 1);
                assert(sub.drop_last() =~= self.plugins@.subrange(0, p as int));
                assert(sub.last() == self.plugins@[p as int]);
                assert(plugin_model_tools(*info) == info.tools@.filter(keep).map_values(conv));
            }
            p = p + 1;
        }
        proof {
            assert(self.plugins@.subrange(0, self.plugins@.len() as int) =~= self.plugins@);
        }
        out
    }
}

// ---------- titles ----------

pub open spec fn def_title(title: Option<String>, name: String) -> Seq<char> {
    match title {
        Some(t) => t@,
        None => name@,
    }
}

/// Title of the first tool of `ns` whose full name is `full` (its name when
/// it has no title).
pub open spec fn tool_title(tools: Seq<ToolDef>, ns: Seq<char>, full: Seq<char>) -> Option<Seq<char>>
    decreases tools.len(),
{
    if tools.len() == 0 {
        None
    } else if full_name_of(ns, tools[0].name@) == full {
        Some(def_title(tools[0].title, tools[0].name))
    } else {
        tool_title(tools.drop_first(), ns, full)
    }
}

/// Title of the first command of `ns` whose full name is `full`.
pub open spec fn command_title(commands: Seq<CommandDef>, ns: Seq<char>, full: Seq<char>) -> Option<Seq<char>>
    decreases commands.len(),
{
    if commands.len() == 0 {
        None
    } else if full_name_of(ns, commands[0].name@) == full {
        Some(def_title(commands[0].title, commands[0].name))
    } else {
        command_title(commands.drop_first(), ns, full)
    }
}

/// Title of an entry point: plugin by plugin, its tools before its commands.
pub open spec fn entry_title_of(plugins: Seq<PluginRecord>, full: Seq<char>) -> Option<Seq<char>>
    decreases plugins.len(),
{
    if plugins.len() == 0 {
        None
    } else {
        let info = plugins[0].info;
        match tool_title(info.tools@, info.namespace@, full) {
            Some(t) => Some(t),
            None => match command_title(info.commands@, info.namespace@, full) {
                Some(t) => Some(t),
                None => entry_title_of(plugins.drop_first(), full),
            },
        }
    }
}

fn title_or_name(title: &Option<String>, name: &String) -> (r: String)
    ensures
        r@ == def_title(*title, *name),
{
    match title {
        Some(t) => owned(t.as_str()),
        None => owned(name.as_str()),
    }
}

fn find_tool_title(tools: &Vec<ToolDef>, ns: &str, full: &str) -> (r: Option<String>)
    ensures
        match r {
            Some(t) => tool_title(tools@, ns@, full@) == Some(t@),
            None => tool_title(tools@, ns@, full@) is None,
        },
{
    let mut i: usize = 0;
    proof {
        assert(tools@.skip(0) =~= tools@);
    }
    while i < tools.len()
        invariant
            i <= tools@.len(),
            tool_title(tools@, ns@, full@) == tool_title(tools@.skip(i as int), ns@, full@),
        decreases tools.len() - i,
    {
        proof {
            assert(tools@.skip(i as int)[0] == tools@[i as int]);
            assert(tools@.skip(i as int).drop_first() =~= tools@.skip(i + 1));
        }
        let f = full_name(ns, tools[i].name.as_str());
        if crate::text::str_eq(f.as_str(), full) {
            return Some(title_or_name(&tools[i].title, &tools[i].name));
        }
        i = i + 1;
    }
    proof {
        assert(tools@.skip(i as int) =~= Seq::<ToolDef>::empty());
    }
    None
}

fn find_command_title(commands: &Vec<CommandDef>, ns: &str, full: &str) -> (r: Option<String>)
    ensures
        match r {
            Some(t) => command_title(commands@, ns@, full@) == Some(t@),
            None => command_title(commands@, ns@, full@) is None,
        },
{
    let mut i: usize = 0;
    proof {
        assert(commands@.skip(0) =~= commands@);
    }
    while i < commands.len()
        invariant
            i <= commands@.len(),
            command_title(commands@, ns@, full@) == command_title(commands@.skip(i as int), ns@, full@),
        decreases commands.len() - i,
    {
        proof {
            assert(commands@.skip(i as int)[0] == commands@[i as int]);
            assert(commands@.skip(i as int).drop_first() =~= commands@.skip(i + 1));
        }
        let f = full_name(ns, commands[i].name.as_str());
        if crate::text::str_eq(f.as_str(), full) {
            return Some(title_or_name(&commands[i].title, &commands[i].name));
        }
        i = i + 1;
    }
    proof {
        assert(commands@.skip(i as int) =~= Seq::<CommandDef>::empty());
    }
    None
}

impl Registry {
    /// Display title of an entry point (its name when it has no title).
    pub fn entry_title(&self, full: &str) -> (r: Option<String>)
        ensures
            match r {
                Some(t) => entry_title_of(self.plugins(), full@) == Some(t@),
                None => entry_title_of(self.plugins(), full@) is None,
            },
    {
        let mut p: usize = 0;
        proof {
            assert(self.plugins@.skip(0) =~= self.plugins@);
        }
        while p < self.plugins.len()
            invariant
                p <= self.plugins@.len(),
                entry_title_of(self.plugins@, full@) == entry_title_of(self.plugins@.skip(p as int), full@),
            decreases self.plugins.len() - p,
        {
            proof {
                assert(self.plugins@.skip(p as int)[0] == self.plugins@[p as int]);
                assert(self.plugins@.skip(p as int).drop_first() =~= self.plugins@.skip(p + 1));
            }
            let info = &self.plugins[p].info;
            match find_tool_title(&info.tools, info.namespace.as_str(), full) {
                Some(t) => return Some(t),
                None => {},
            }
            match find_command_title(&info.commands, info.namespace.as_str(), full) {
                Some(t) => return Some(t),
                None => {},
            }
            p = p + 1;
        }
        proof {
            assert(self.plugins@.skip(p as int) =~= Seq::<PluginRecord>::empty());
        }
        None
    }
}

// ---------- the entry points users see ----------

/// An entry point as the GUI lists it.
#[derive(Debug)]
pub struct UserEntry {
    pub entry: String,
    pub kind: EntryKind,
    pub title: Option<String>,
    pub group: Option<String>,
    pub policy: CallerPolicy,
    pub description: String,
    pub icon: Option<String>,
    pub params: String,
}

pub struct EntryRow {
    pub entry: Seq<char>,
    pub kind: EntryKind,
    pub title: Option<Seq<char>>,
    pub group: Option<Seq<char>>,
    pub policy: CallerPolicy,
    pub description: Seq<char>,
    pub icon: Option<Seq<char>>,
    pub params: Seq<char>,
}

pub open spec fn row_of(e: UserEntry) -> EntryRow {
    EntryRow {
        entry: e.entry@,
        kind: e.kind,
        title: crate::message::opt_str(e.title),
        group: crate::message::opt_str(e.group),
        policy: e.policy,
        description: e.description@,
        icon: crate::message::opt_str(e.icon),
        params: e.params@,
    }
}

pub open spec fn tool_row(ns: Seq<char>, t: ToolDef) -> EntryRow {
    EntryRow {
        entry: full_name_of(ns, t.name@),
        kind: EntryKind::Tool,
        title: crate::message::opt_str(t.title),
        group: crate::message::opt_str(t.group),
        policy: t.policy,
        description: t.description@,
        icon: crate::message::opt_str(t.icon),
        params: t.params@,
    }
}

/// A command is listed as user-only.
pub open spec fn command_row(ns: Seq<char>, c: CommandDef) -> EntryRow {
    EntryRow {
        entry: full_name_of(ns, c.name@),
        kind: EntryKind::Command,
        title: crate::message::opt_str(c.title),
        group: crate::message::opt_str(c.group),
        policy: CallerPolicy::UserOnly,
        description: c.description@,
        icon: crate::message::opt_str(c.icon),
        params: c.params@,
    }
}

/// The visible tools, then the visible commands, of a plugin.
pub open spec fn plugin_rows(info: Info) -> Seq<EntryRow> {
    info.tools@.filter(|t: ToolDef| t.user_visible).map_values(|t: ToolDef| tool_row(info.namespace@, t))
        + info.commands@.filter(|c: CommandDef| c.user_visible).map_values(|c: CommandDef| command_row(info.namespace@, c))
}

pub open spec fn user_rows(plugins: Seq<PluginRecord>) -> Seq<EntryRow>
    decreases plugins.len(),
{
    if plugins.len() == 0 {
        Seq::empty()
    } else {
        user_rows(plugins.drop_last()) + plugin_rows(plugins.last().info)
    }
}

pub open spec fn rows(v: Seq<UserEntry>) -> Seq<EntryRow> {
    v.map_values(|e: UserEntry| row_of(e))
}

fn copy_opt(o: &Option<String>) -> (r: Option<String>)
    ensures
        crate::message::opt_str(r) == crate::message::opt_str(*o),
{
    crate::message::copy_opt_string(o)
}

impl Registry {
    /// The entry points the GUI lists: visible tools and commands, plugin by
    /// plugin in registration order.
    pub fn user_entries(&self) -> (r: Vec<UserEntry>)
        ensures
            rows(r@) == user_rows(self.plugins()),
    {
        let mut out: Vec<UserEntry> = Vec::new();
        let mut p: usize = 0;
        proof {
            assert(rows(out@) =~= user_rows(self.plugins@.subrange(0, 0)));
        }
        while p < self.plugins.len()
            invariant
                p <= self.plugins@.len(),
                rows(out@) == user_rows(self.plugins@.subrange(0, p as int)),
            decreases self.plugins.len() - p,
        {
            let info = &self.plugins[p].info;
            let ghost base = rows(out@);
            let ghost ns = info.namespace@;
            let ghost keep_t = |t: ToolDef| t.user_visible;
            let ghost conv_t = |t: ToolDef| tool_row(ns, t);
            let mut i: usize = 0;
            proof {
                reveal(Seq::filter);
                assert(info.tools@.subrange(0, 0) =~= Seq::<ToolDef>::empty());
                assert(rows(out@) =~= base + info.tools@.subrange(0, 0).filter(keep_t).map_values(conv_t));
            }
            while i < info.tools.len()
                invariant
                    p < self.plugins@.len(),
                    info == self.plugins@[p as int].info,
                    ns == info.namespace@,
                    i <= info.tools@.len(),
                    rows(out@) == base + info.tools@.subrange(0, i as int).filter(keep_t).map_values(conv_t),
                    keep_t == (|t: ToolDef| t.user_visible),
                    conv_t == (|t: ToolDef| tool_row(ns, t)),
                decreases info.tools.len() - i,
            {
                let t = &info.tools[i];
                let ghost pre = info.tools@.subrange(0, i as int);
                let ghost next = info.tools@.subrange(0, i + 1);
                proof {
                    assert(next =~= pre.push(*t));
                    pre.lemma_filter_push(*t, keep_t);
                }
                if t.user_visible {
                    let row = UserEntry {
                        entry: full_name(info.namespace.as_str(), t.name.as_str()),
                        kind: EntryKind::Tool,
                        title: copy_opt(&t.title),
                        group: copy_opt(&t.group),
                        policy: t.policy,
                        description: owned(t.description.as_str()),
                        icon: copy_opt(&t.icon),
                        params: owned(t.params.as_str()),
                    };
                    let ghost before = out@;
                    out.push(row);
                    proof {
                        assert(next.filter(keep_t).map_values(conv_t) =~= pre.filter(keep_t).map_values(conv_t).push(conv_t(*t)));
                        assert(rows(out@) =~= rows(before).push(row_of(row)));
                    }
                }
                i = i + 1;
            }
            let ghost mid = rows(out@);
            let ghost keep_c = |c: CommandDef| c.user_visible;
            let ghost conv_c = |c: CommandDef| command_row(ns, c);
            let mut j: usize = 0;
            proof {
                assert(info.tools@.subrange(0, info.tools@.len() as int) =~= info.tools@);
                reveal(Seq::filter);
                assert(info.commands@.subrange(0, 0) =~= Seq::<CommandDef>::empty());
                assert(rows(out@) =~= mid + info.commands@.subrange(0, 0).filter(keep_c).map_values(conv_c));
            }
            while j < info.commands.len()
                invariant
                    p < self.plugins@.len(),
                    info == self.plugins@[p as int].info,
                    ns == info.namespace@,
                    j <= info.commands@.len(),
                    rows(out@) == mid + info.commands@.subrange(0, j as int).filter(keep_c).map_values(conv_c),
                    keep_c == (|c: CommandDef| c.user_visible),
                    conv_c == (|c: CommandDef| command_row(ns, c)),
                decreases info.commands.len() - j,
            {
                let c = &info.commands[j];
                let ghost pre = info.commands@.subrange(0, j as int);
                let ghost next = info.commands@.subrange(0, j + 1);
                proof {
                    assert(next =~= pre.push(*c));
                    pre.lemma_filter_push(*c, keep_c);
                }
                if c.user_visible {
                    let row = UserEntry {
                        entry: full_name(info.namespace.as_str(), c.name.as_str()),
                        kind: EntryKind::Command,
                        title: copy_opt(&c.title),
                        group: copy_opt(&c.group),
                        policy: CallerPolicy::UserOnly,
                        description: owned(c.description.as_str()),
                        icon: copy_opt(&c.icon),
                        params: owned(c.params.as_str()),
                    };
                    let ghost before = out@;
                    out.push(row);
                    proof {
                        assert(next.filter(keep_c).map_values(conv_c) =~= pre.filter(keep_c).map_values(conv_c).push(conv_c(*c)));
                        assert(rows(out@) =~= rows(before).push(row_of(row)));
                    }
                }
                j = j + 1;
            }
            proof {
                assert(info.commands@.subrange(0, info.commands@.len() as int) =~= info.commands@);
                let sub = self.plugins@.subrange(0, p + 1);
                assert(sub.drop_last() =~= self.plugins@.subrange(0, p as int));
                assert(sub.last() == self.plugins@[p as int]);
                assert(rows(out@) =~= user_rows(sub));
            }
            p = p + 1;
        }
        proof {
            assert(self.plugins@.subrange(0, self.plugins@.len() as int) =~= self.plugins@);
        }
        out
    }

    /// The icon of a bound entry point.
    pub fn entry_icon(&self, full: &str) -> (r: Option<String>)
        ensures
            match r {
                Some(i) => exists|k: int| bound_index(self.bound(), full@, k) && crate::message::opt_str(self.bound()[k].icon) == Some(i@),
                None => forall|k: int| bound_index(self.bound(), full@, k) ==> self.bound()[k].icon is None,
            },
    {
        match self.find_bound(full) {
            Some(k) => match &self.bound[k].icon {
                Some(i) => Some(owned(i.as_str())),
                None => {
                    proof {
                        assert forall|q: int| bound_index(self.bound(), full@, q) implies self.bound()[q].icon is None by {
                            if q < k as int {
                                assert(self.bound()[q].full_name@ != full@);
                            } else if (k as int) < q {
                                assert(self.bound()[k as int].full_name@ != full@);
                            }
                        }
                    }
                    None
                },
            },
            None => None,
        }
    }
}

/// A tool declaration with the defaults: visible, no title, group,
/// timeout or icon, parameters an object schema.
pub fn tool_def(name: &str, description: &str, policy: CallerPolicy) -> (t: ToolDef)
    ensures
        t.name@ == name@,
        t.user_visible,
        t.title is None,
        t.group is None,
        t.description@ == description@,
        t.params@ == "{\"type\":\"object\"}"@,
        t.policy == policy,
        t.timeout is None,
        t.icon is None,
{
    ToolDef {
        name: owned(name),
        user_visible: true,
        title: None,
        group: None,
        description: owned(description),
        params: owned("{\"type\":\"object\"}"),
        policy,
        timeout: None,
        icon: None,
    }
}

/// The reference user plugin, to copy when writing one: a `ping` tool.
pub struct UserDemoPlugin;

impl UserDemoPlugin {
    /// Namespace `user_demo`, no services, one visible tool `ping` that the
    /// model may call too, with an object schema and nothing else set.
    pub fn info() -> (i: Info)
        ensures
            i.namespace@ == "user_demo"@,
            i.requires@.len() == 0,
            i.provides@.len() == 0,
            i.load == LoadPolicy::Lazy,
            i.tools@.len() == 1,
            i.tools@[0].name@ == "ping"@,
            i.tools@[0].user_visible,
            crate::message::opt_str(i.tools@[0].title) == Some("示例工具"@),
            crate::message::opt_str(i.tools@[0].group) == Some("示例"@),
            i.tools@[0].description@ == "示例工具：返回 pong。复制后改成你的工具。"@,
            i.tools@[0].params@ == "{\"type\":\"object\"}"@,
            i.tools@[0].policy == CallerPolicy::UserAndModel,
            i.tools@[0].timeout is None,
            i.tools@[0].icon is None,
            i.commands@.len() == 0,
            i.events@.len() == 0,
    {
        let mut ping = tool_def("ping", "示例工具：返回 pong。复制后改成你的工具。", CallerPolicy::UserAndModel);
        ping.title = Some(owned("示例工具"));
        ping.group = Some(owned("示例"));
        let mut tools: Vec<ToolDef> = Vec::new();
        tools.push(ping);
        Info {
            namespace: owned("user_demo"),
            requires: Vec::new(),
            provides: Vec::new(),
            load: LoadPolicy::default_policy(),
            tools,
            commands: Vec::new(),
            events: Vec::new(),
        }
    }

    /// The `ping` handler's answer, as JSON text.
    pub fn ping() -> (r: String)
        ensures
            r@ == "{\"reply\":\"pong\"}"@,
    {
        owned("{\"reply\":\"pong\"}")
    }
}

} // verus!
