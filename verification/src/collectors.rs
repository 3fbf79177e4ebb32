//! Decisions of the resource collectors: which backend owns a resource id,
//! how backend states map to resource states, which actions are allowed, and
//! the simulated collector used for demonstrations and tests.
use vstd::prelude::*;

use crate::compose::{
    pick, service_ref, split_service_ref, strip_prefix, strip_prefix_exec, ComposeContainerInfo,
};
use crate::resource::{
    action_target, action_target_status, is_known_action, AppError, ResourceKind, ResourceStatus,
};
use crate::text::{chars_of, push_all, starts_with, starts_with_exec, str_eq_lit, str_views, string_of};

verus! {

// ---------------------------------------------------------------------------
// Routing
// ---------------------------------------------------------------------------
/// Backend that owns a resource.
#[derive(Debug, Clone, Copy, PartialEq, Eq, Structural)]
pub enum Backend {
    Systemd,
    Docker,
    Compose,
}

/// Backend named by the prefix of a resource id.
pub open spec fn backend_of(id: Seq<char>) -> Option<Backend> {
    if starts_with(id, "systemd:"@) {
        Some(Backend::Systemd)
    } else if starts_with(id, "docker:"@) {
        Some(Backend::Docker)
    } else if starts_with(id, "compose_project:"@) || starts_with(id, "compose_service:"@) {
        Some(Backend::Compose)
    } else {
        None
    }
}

fn has_prefix(id: &[char], p: &str) -> (r: bool)
    ensures
        r == starts_with(id@, p@),
{
    let pc = chars_of(p);
    crate::text::starts_with_exec(id, &pc)
}

/// Picks the backend that answers for `id`.
pub fn route(id: &str) -> (r: Option<Backend>)
    ensures
        r == backend_of(id@),
{
    let c = chars_of(id);
    if has_prefix(&c, "systemd:") {
        Some(Backend::Systemd)
    } else if has_prefix(&c, "docker:") {
        Some(Backend::Docker)
    } else if has_prefix(&c, "compose_project:") || has_prefix(&c, "compose_service:") {
        Some(Backend::Compose)
    } else {
        None
    }
}

/// `s` without the prefix `p` when it has it, else `s` itself.
pub open spec fn strip_or_keep(s: Seq<char>, p: Seq<char>) -> Seq<char> {
    match strip_prefix(s, p) {
        Some(t) => t,
        None => s,
    }
}

pub fn strip_or_keep_exec(s: &str, p: &str) -> (r: String)
    ensures
        r@ == strip_or_keep(s@, p@),
{
    let c = chars_of(s);
    match strip_prefix_exec(&c, p) {
        Some(t) => string_of(&t),
        None => s.to_owned(),
    }
}

/// Whether `x` is one of `list`.
pub fn listed(list: &Vec<String>, x: &str) -> (r: bool)
    ensures
        r == str_views(list@).contains(x@),
{
    let mut i: usize = 0;
    while i < list.len()
        invariant
            i <= list@.len(),
            forall|j: int| 0 <= j < i ==> list@[j]@ != x@,
        decreases list.len() - i,
    {
        if str_eq_lit(x, list[i].as_str()) {
            proof {
                assert(str_views(list@)[i as int] == x@);
            }
            return true;
        }
        i += 1;
    }
    proof {
        if str_views(list@).contains(x@) {
            let j = choose|j: int| 0 <= j < str_views(list@).len() && str_views(list@)[j] == x@;
            assert(list@[j]@ == x@);
        }
    }
    false
}

// ---------------------------------------------------------------------------
// systemd units
// ---------------------------------------------------------------------------
/// Status of a unit from its `ActiveState`.
pub open spec fn unit_status(active: Seq<char>) -> ResourceStatus {
    if active == "active"@ {
        ResourceStatus::Running
    } else if active == "inactive"@ {
        ResourceStatus::Stopped
    } else if active == "failed"@ {
        ResourceStatus::Failed
    } else if active == "degraded"@ {
        ResourceStatus::Degraded
    } else if active == "reloading"@ || active == "activating"@ || active == "deactivating"@ {
        ResourceStatus::Restarting
    } else {
        ResourceStatus::Unknown
    }
}

pub fn systemd_unit_status(active_state: &str) -> (r: ResourceStatus)
    ensures
        r == unit_status(active_state@),
{
    if str_eq_lit(active_state, "active") {
        ResourceStatus::Running
    } else if str_eq_lit(active_state, "inactive") {
        ResourceStatus::Stopped
    } else if str_eq_lit(active_state, "failed") {
        ResourceStatus::Failed
    } else if str_eq_lit(active_state, "degraded") {
        ResourceStatus::Degraded
    } else if str_eq_lit(active_state, "reloading") || str_eq_lit(active_state, "activating")
        || str_eq_lit(active_state, "deactivating") {
        ResourceStatus::Restarting
    } else {
        ResourceStatus::Unknown
    }
}

/// Name shown for a unit: without a `.service` suffix.
pub open spec fn unit_display_name(unit: Seq<char>) -> Seq<char> {
    if crate::text::ends_with(unit, ".service"@) {
        unit.take(unit.len() - ".service"@.len())
    } else {
        unit
    }
}

pub fn systemd_display_name(unit: &str) -> (r: String)
    ensures
        r@ == unit_display_name(unit@),
{
    let c = chars_of(unit);
    let suf = chars_of(".service");
    if crate::text::ends_with_exec(&c, &suf) {
        string_of(&crate::text::slice_of(&c, 0, c.len() - suf.len()))
    } else {
        unit.to_owned()
    }
}

/// D-Bus method that carries out a unit action.
pub open spec fn unit_method(action: Seq<char>) -> Seq<char> {
    if action == "start"@ {
        "StartUnit"@
    } else if action == "stop"@ {
        "StopUnit"@
    } else {
        "RestartUnit"@
    }
}

/// What acting on `id` with `action` does for the configured `units` and
/// `allow_actions`: the D-Bus method to call, or why it is refused.
pub open spec fn unit_action(
    units: Seq<Seq<char>>,
    allow: Seq<Seq<char>>,
    id: Seq<char>,
    action: Seq<char>,
) -> Result<Seq<char>, (int, Seq<char>, Seq<char>)> {
    let unit = strip_or_keep(id, "systemd:"@);
    if !units.contains(unit) {
        Err((0, id, Seq::empty()))
    } else if !allow.contains(action) || !is_known_action(action) {
        Err((1, action, id))
    } else {
        Ok(unit_method(action))
    }
}

pub fn systemd_action(units: &Vec<String>, allow_actions: &Vec<String>, id: &str, action: &str) -> (r:
    Result<&'static str, AppError>)
    ensures
        match r {
            Ok(m) => unit_action(str_views(units@), str_views(allow_actions@), id@, action@) == Ok::<
                _,
                (int, Seq<char>, Seq<char>),
            >(m@),
            Err(e) => unit_action(str_views(units@), str_views(allow_actions@), id@, action@)
                == Err::<Seq<char>, _>(crate::compose::err_view(e)),
        },
{
    let unit = strip_or_keep_exec(id, "systemd:");
    if !listed(units, unit.as_str()) {
        return Err(AppError::ResourceNotFound(id.to_owned()));
    }
    if !listed(allow_actions, action) {
        return Err(AppError::ActionNotAllowed(action.to_owned(), id.to_owned()));
    }
    if str_eq_lit(action, "start") {
        Ok("StartUnit")
    } else if str_eq_lit(action, "stop") {
        Ok("StopUnit")
    } else if str_eq_lit(action, "restart") {
        Ok("RestartUnit")
    } else {
        Err(AppError::ActionNotAllowed(action.to_owned(), id.to_owned()))
    }
}

// ---------------------------------------------------------------------------
// Docker containers
// ---------------------------------------------------------------------------
/// Status a Docker lifecycle event reports, if it is one that changes state.
pub open spec fn event_status(action: Seq<char>) -> Option<ResourceStatus> {
    if action == "start"@ || action == "unpause"@ {
        Some(ResourceStatus::Running)
    } else if action == "stop"@ || action == "die"@ || action == "kill"@ || action == "pause"@ {
        Some(ResourceStatus::Stopped)
    } else if action == "restart"@ {
        Some(ResourceStatus::Restarting)
    } else {
        None
    }
}

pub fn docker_event_status(action: &str) -> (r: Option<ResourceStatus>)
    ensures
        r == event_status(action@),
{
    if str_eq_lit(action, "start") || str_eq_lit(action, "unpause") {
        Some(ResourceStatus::Running)
    } else if str_eq_lit(action, "stop") || str_eq_lit(action, "die") || str_eq_lit(action, "kill")
        || str_eq_lit(action, "pause") {
        Some(ResourceStatus::Stopped)
    } else if str_eq_lit(action, "restart") {
        Some(ResourceStatus::Restarting)
    } else {
        None
    }
}

/// Status of a container from the state `inspect` reports (case-sensitive).
pub open spec fn inspect_status(state: Seq<char>) -> ResourceStatus {
    if state == "running"@ {
        ResourceStatus::Running
    } else if state == "exited"@ || state == "dead"@ || state == "created"@ {
        ResourceStatus::Stopped
    } else if state == "restarting"@ {
        ResourceStatus::Restarting
    } else {
        ResourceStatus::Unknown
    }
}

pub fn docker_inspect_status(state: &str) -> (r: ResourceStatus)
    ensures
        r == inspect_status(state@),
{
    if str_eq_lit(state, "running") {
        ResourceStatus::Running
    } else if str_eq_lit(state, "exited") || str_eq_lit(state, "dead") || str_eq_lit(state, "created") {
        ResourceStatus::Stopped
    } else if str_eq_lit(state, "restarting") {
        ResourceStatus::Restarting
    } else {
        ResourceStatus::Unknown
    }
}

/// A container is listed when no allowlist is configured or it is on it.
pub open spec fn container_listed(allow: Seq<Seq<char>>, name: Seq<char>) -> bool {
    allow.len() == 0 || allow.contains(name)
}

pub fn docker_container_listed(allowlist: &Vec<String>, name: &str) -> (r: bool)
    ensures
        r == container_listed(str_views(allowlist@), name@),
{
    allowlist.len() == 0 || listed(allowlist, name)
}

/// What acting on the container `id` with `action` does: the action to run
/// on the container, or why it is refused.
pub open spec fn container_action(
    docker: bool,
    allow: Seq<Seq<char>>,
    id: Seq<char>,
    action: Seq<char>,
) -> Result<ResourceStatus, (int, Seq<char>, Seq<char>)> {
    if !docker {
        Err((2, "Docker daemon is not available"@, Seq::empty()))
    } else if !allow.contains(action) || !is_known_action(action) {
        Err((1, action, id))
    } else {
        Ok(action_target(action))
    }
}

/// Checks an action on a container; `Ok` gives the state the action leads to.
pub fn docker_action(docker_available: bool, allow_actions: &Vec<String>, id: &str, action: &str) -> (r:
    Result<ResourceStatus, AppError>)
    ensures
        match r {
            Ok(s) => container_action(docker_available, str_views(allow_actions@), id@, action@)
                == Ok::<_, (int, Seq<char>, Seq<char>)>(s),
            Err(e) => container_action(docker_available, str_views(allow_actions@), id@, action@)
                == Err::<ResourceStatus, _>(crate::compose::err_view(e)),
        },
{
    if !docker_available {
        return Err(AppError::Internal("Docker daemon is not available".to_owned()));
    }
    if !listed(allow_actions, action) {
        return Err(AppError::ActionNotAllowed(action.to_owned(), id.to_owned()));
    }
    if str_eq_lit(action, "start") || str_eq_lit(action, "stop") || str_eq_lit(action, "restart") {
        Ok(action_target_status(action))
    } else {
        Err(AppError::ActionNotAllowed(action.to_owned(), id.to_owned()))
    }
}

// ---------------------------------------------------------------------------
// Logs of compose targets
// ---------------------------------------------------------------------------
/// Containers of `cs` (all, managed or not) whose logs make up the log of the
/// compose service or project `id`; `None` when `id` names neither.
pub open spec fn log_targets(cs: Seq<ComposeContainerInfo>, id: Seq<char>) -> Option<
    Seq<ComposeContainerInfo>,
> {
    if let Some(rest) = strip_prefix(id, "compose_service:"@) {
        match service_ref(rest) {
            Some((p, s)) => Some(members_of(cs, p, Some(s))),
            None => None,
        }
    } else if let Some(p) = strip_prefix(id, "compose_project:"@) {
        Some(members_of(cs, p, None))
    } else {
        None
    }
}

/// Containers of `cs` that belong to project `p` (and to service `svc`, when
/// given), in list order.
pub open spec fn members_of(
    cs: Seq<ComposeContainerInfo>,
    p: Seq<char>,
    svc: Option<Seq<char>>,
) -> Seq<ComposeContainerInfo>
    decreases cs.len(),
{
    if cs.len() == 0 {
        Seq::empty()
    } else {
        let rest = members_of(cs.drop_last(), p, svc);
        let c = cs.last();
        if c.project@ == p && (svc is None || c.service@ == svc->0) {
            rest.push(c)
        } else {
            rest
        }
    }
}

fn select_containers(cs: &[ComposeContainerInfo], p: &String, svc: Option<&String>) -> (ix: Vec<
    usize,
>)
    ensures
        forall|a: int| 0 <= a < ix@.len() ==> (#[trigger] ix@[a] as int) < cs@.len(),
        pick(cs@, ix@) == members_of(
            cs@,
            p@,
            match svc {
                Some(x) => Some(x@),
                None => None,
            },
        ),
{
    let ghost sv = match svc {
        Some(x) => Some(x@),
        None => None::<Seq<char>>,
    };
    let mut ix: Vec<usize> = Vec::new();
    let mut i: usize = 0;
    while i < cs.len()
        invariant
            i <= cs@.len(),
            sv == match svc {
                Some(x) => Some(x@),
                None => None,
            },
            forall|a: int| 0 <= a < ix@.len() ==> (#[trigger] ix@[a] as int) < i,
            pick(cs@, ix@) == members_of(cs@.take(i as int), p@, sv),
        decreases cs.len() - i,
    {
        proof {
            assert(cs@.take(i + 1).drop_last() =~= cs@.take(i as int));
        }
        let c = &cs[i];
        let hit = c.project == *p && match svc {
            Some(x) => c.service == *x,
            None => true,
        };
        if hit {
            proof {
                assert(pick(cs@, ix@.push(i)) =~= pick(cs@, ix@).push(cs@[i as int]));
            }
            ix.push(i);
        }
        i += 1;
    }
    proof {
        assert(cs@.take(cs@.len() as int) =~= cs@);
    }
    ix
}

/// Indices of the containers whose logs make up the log of `id`, or
/// `ResourceNotFound` when `id` names no compose service or project.
pub fn compose_log_targets(cs: &[ComposeContainerInfo], id: &str) -> (r: Result<Vec<usize>, AppError>)
    ensures
        match r {
            Ok(ix) => (forall|a: int| 0 <= a < ix@.len() ==> (#[trigger] ix@[a] as int) < cs@.len())
                && log_targets(cs@, id@) == Some(pick(cs@, ix@)),
            Err(e) => log_targets(cs@, id@) is None && crate::compose::err_view(e) == (
                0int,
                id@,
                Seq::<char>::empty(),
            ),
        },
{
    let idc = chars_of(id);
    if let Some(rest) = strip_prefix_exec(&idc, "compose_service:") {
        return match split_service_ref(&rest) {
            Some((pc, sc)) => {
                let p = string_of(&pc);
                let s = string_of(&sc);
                Ok(select_containers(cs, &p, Some(&s)))
            },
            None => Err(AppError::ResourceNotFound(id.to_owned())),
        };
    }
    if let Some(pc) = strip_prefix_exec(&idc, "compose_project:") {
        let p = string_of(&pc);
        return Ok(select_containers(cs, &p, None));
    }
    Err(AppError::ResourceNotFound(id.to_owned()))
}

// ---------------------------------------------------------------------------
// Project and service details
// ---------------------------------------------------------------------------
/// Number of entries of `cs` that are managed and running.
pub open spec fn managed_running(cs: Seq<ComposeContainerInfo>) -> nat
    decreases cs.len(),
{
    if cs.len() == 0 {
        0
    } else {
        managed_running(cs.drop_last()) + if cs.last().is_managed && cs.last().status
            == ResourceStatus::Running {
            1nat
        } else {
            0nat
        }
    }
}

/// Number of managed entries of `cs`.
pub open spec fn managed_count(cs: Seq<ComposeContainerInfo>) -> nat
    decreases cs.len(),
{
    if cs.len() == 0 {
        0
    } else {
        managed_count(cs.drop_last()) + if cs.last().is_managed {
            1nat
        } else {
            0nat
        }
    }
}

/// `"<running>/<managed> managed running"`, the sub-state of a project.
pub open spec fn project_sub_state(cs: Seq<ComposeContainerInfo>) -> Seq<char> {
    crate::text::fmt_dec(managed_running(cs)) + seq!['/'] + crate::text::fmt_dec(managed_count(cs))
        + " managed running"@
}

/// Sub-state of a compose project from its containers.
pub fn project_sub_state_text(cs: &[ComposeContainerInfo], ix: &Vec<usize>) -> (r: String)
    requires
        forall|a: int| 0 <= a < ix@.len() ==> (#[trigger] ix@[a] as int) < cs@.len(),
    ensures
        r@ == project_sub_state(pick(cs@, ix@)),
{
    let ghost ms = pick(cs@, ix@);
    let mut running: u64 = 0;
    let mut managed: u64 = 0;
    let mut a: usize = 0;
    while a < ix.len()
        invariant
            a <= ix@.len(),
            ms == pick(cs@, ix@),
            forall|b: int| 0 <= b < ix@.len() ==> (#[trigger] ix@[b] as int) < cs@.len(),
            running == managed_running(ms.take(a as int)),
            managed == managed_count(ms.take(a as int)),
            running <= managed <= a,
        decreases ix.len() - a,
    {
        proof {
            assert(ms.take(a + 1).drop_last() =~= ms.take(a as int));
        }
        let c = &cs[ix[a]];
        if c.is_managed {
            managed += 1;
            if c.status == ResourceStatus::Running {
                running += 1;
            }
        }
        a += 1;
    }
    proof {
        assert(ms.take(ix@.len() as int) =~= ms);
    }
    let mut out: Vec<char> = Vec::new();
    crate::text::push_dec(&mut out, running);
    out.push('/');
    crate::text::push_dec(&mut out, managed);
    push_all(&mut out, &chars_of(" managed running"));
    proof {
        assert(out@ =~= project_sub_state(ms));
    }
    string_of(&out)
}

/// What the detail of a compose project or service reports, apart from
/// its labels: its kind, the positions of its containers, their aggregated
/// state, how many are managed, and the sub-state text.
#[derive(Debug, Clone)]
pub struct ComposeDetail {
    pub kind: ResourceKind,
    pub members: Vec<usize>,
    pub status: ResourceStatus,
    pub managed_count: usize,
    pub sub_state: String,
}

/// The states of the containers `ms`, in order.
pub open spec fn states_of(ms: Seq<ComposeContainerInfo>) -> Seq<ResourceStatus> {
    Seq::new(ms.len(), |i: int| ms[i].status)
}

/// The detail of the compose project or service `id`, given the containers
/// found: `None` when `id` names none or it has no container; else the
/// project kind (a `compose_project:` id) or service kind, the containers'
/// aggregated state and managed count, and as sub-state the containers'
/// states (a project) or the service's declared dependencies (a service,
/// those of its first container).
pub fn compose_detail(cs: &[ComposeContainerInfo], id: &str) -> (r: Option<ComposeDetail>)
    ensures
        match r {
            None => match log_targets(cs@, id@) {
                None => true,
                Some(ms) => ms.len() == 0,
            },
            Some(d) => {
                &&& forall|a: int| 0 <= a < d.members@.len() ==> (#[trigger] d.members@[a] as int) < cs@.len()
                &&& log_targets(cs@, id@) == Some(pick(cs@, d.members@))
                &&& d.members@.len() > 0
                &&& d.kind == if starts_with(id@, "compose_project:"@) {
                    ResourceKind::ComposeProject
                } else {
                    ResourceKind::ComposeService
                }
                &&& d.status == crate::compose::aggregate(states_of(pick(cs@, d.members@)))
                &&& d.managed_count == crate::compose::managed_among(cs@, d.members@)
                &&& d.sub_state@ == if starts_with(id@, "compose_project:"@) {
                    project_sub_state(pick(cs@, d.members@))
                } else {
                    "depends_on: "@ + crate::compose::debug_list(
                        str_views(cs@[d.members@[0] as int].depends_on@),
                    )
                }
            },
        },
{
    let ix = match compose_log_targets(cs, id) {
        Ok(ix) => ix,
        Err(_) => {
            return None;
        },
    };
    if ix.len() == 0 {
        return None;
    }
    let mut states: Vec<ResourceStatus> = Vec::new();
    let mut a: usize = 0;
    while a < ix.len()
        invariant
            a <= ix@.len(),
            forall|b: int| 0 <= b < ix@.len() ==> (#[trigger] ix@[b] as int) < cs@.len(),
            states@ == states_of(pick(cs@, ix@)).take(a as int),
        decreases ix.len() - a,
    {
        proof {
            assert(states_of(pick(cs@, ix@)).take(a + 1) =~= states_of(pick(cs@, ix@)).take(a as int).push(
                cs@[ix@[a as int] as int].status,
            ));
        }
        states.push(cs[ix[a]].status);
        a += 1;
    }
    proof {
        assert(states_of(pick(cs@, ix@)).take(a as int) =~= states_of(pick(cs@, ix@)));
    }
    let status = crate::compose::aggregate_statuses(&states);
    let managed_count = crate::compose::count_managed(cs, &ix);
    let project = starts_with_exec(&chars_of(id), &chars_of("compose_project:"));
    let (kind, sub_state) = if project {
        (ResourceKind::ComposeProject, project_sub_state_text(cs, &ix))
    } else {
        (ResourceKind::ComposeService, crate::compose::depends_on_text(&cs[ix[0]].depends_on))
    };
    Some(ComposeDetail { kind, members: ix, status, managed_count, sub_state })
}

} // verus!
