//! Managed resources: their kinds, run states and the errors reported when
//! an operation on them is refused.
use vstd::prelude::*;

verus! {

/// Observed run state of a resource.
#[derive(Debug, Clone, Copy, PartialEq, Eq, Structural)]
pub enum ResourceStatus {
    Running,
    Stopped,
    Failed,
    Degraded,
    Restarting,
    Unknown,
}

/// Kind of a managed resource.
#[derive(Debug, Clone, Copy, PartialEq, Eq, Structural)]
pub enum ResourceKind {
    SystemdUnit,
    DockerContainer,
    ComposeProject,
    ComposeService,
}

/// Lower-case name of a status.
pub open spec fn status_name(s: ResourceStatus) -> Seq<char> {
    match s {
        ResourceStatus::Running => "running"@,
        ResourceStatus::Stopped => "stopped"@,
        ResourceStatus::Failed => "failed"@,
        ResourceStatus::Degraded => "degraded"@,
        ResourceStatus::Restarting => "restarting"@,
        ResourceStatus::Unknown => "unknown"@,
    }
}

impl ResourceStatus {
    pub fn as_str(&self) -> (r: &'static str)
        ensures
            r@ == status_name(*self),
    {
        match self {
            ResourceStatus::Running => "running",
            ResourceStatus::Stopped => "stopped",
            ResourceStatus::Failed => "failed",
            ResourceStatus::Degraded => "degraded",
            ResourceStatus::Restarting => "restarting",
            ResourceStatus::Unknown => "unknown",
        }
    }
}

/// Snake-case name of a kind.
pub open spec fn kind_name(k: ResourceKind) -> Seq<char> {
    match k {
        ResourceKind::SystemdUnit => "systemd_unit"@,
        ResourceKind::DockerContainer => "docker_container"@,
        ResourceKind::ComposeProject => "compose_project"@,
        ResourceKind::ComposeService => "compose_service"@,
    }
}

impl ResourceKind {
    pub fn as_str(&self) -> (r: &'static str)
        ensures
            r@ == kind_name(*self),
    {
        match self {
            ResourceKind::SystemdUnit => "systemd_unit",
            ResourceKind::DockerContainer => "docker_container",
            ResourceKind::ComposeProject => "compose_project",
            ResourceKind::ComposeService => "compose_service",
        }
    }
}

/// Why an operation on a resource was refused.
#[derive(Debug, Clone, PartialEq, Eq)]
pub enum AppError {
    /// No resource has this id.
    ResourceNotFound(String),
    /// The action (first field) is not allowed; the second field says on what and why.
    ActionNotAllowed(String, String),
    /// A backend failed.
    Internal(String),
}

/// The status an action drives a resource to.
pub open spec fn action_target(action: Seq<char>) -> ResourceStatus {
    if action == "start"@ {
        ResourceStatus::Running
    } else if action == "stop"@ {
        ResourceStatus::Stopped
    } else if action == "restart"@ {
        ResourceStatus::Restarting
    } else {
        ResourceStatus::Unknown
    }
}

pub fn action_target_status(action: &str) -> (r: ResourceStatus)
    ensures
        r == action_target(action@),
{
    if crate::text::str_eq_lit(action, "start") {
        ResourceStatus::Running
    } else if crate::text::str_eq_lit(action, "stop") {
        ResourceStatus::Stopped
    } else if crate::text::str_eq_lit(action, "restart") {
        ResourceStatus::Restarting
    } else {
        ResourceStatus::Unknown
    }
}

/// The known actions.
pub open spec fn is_known_action(action: Seq<char>) -> bool {
    action == "start"@ || action == "stop"@ || action == "restart"@
}

} // verus!
