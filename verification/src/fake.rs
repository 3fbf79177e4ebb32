//! A simulated set of managed resources (two systemd units, a container and a
//! compose project with a managed worker and an unmanaged database) whose
//! states follow the actions applied to them.
use vstd::prelude::*;

use crate::compose::err_view;
use crate::resource::{AppError, ResourceKind, ResourceStatus};
use crate::text::{chars_of, push_all, starts_with, str_eq_lit, str_views, string_of};

verus! {

broadcast use vstd::seq_lib::lemma_seq_contains_after_push;

/// A simulated resource.
#[derive(Debug, Clone)]
pub struct FakeResource {
    pub id: String,
    pub kind: ResourceKind,
    pub name: String,
    pub display_name: String,
    pub group_name: String,
    pub source: String,
    /// The resource's labels as JSON text, where it has any.
    pub labels_json: Option<String>,
}

/// A simulated resource as plain values.
pub struct FakeResourceView {
    pub id: Seq<char>,
    pub kind: ResourceKind,
    pub name: Seq<char>,
    pub display_name: Seq<char>,
    pub group_name: Seq<char>,
    pub source: Seq<char>,
    pub labels_json: Option<Seq<char>>,
}

pub open spec fn opt_view(o: Option<String>) -> Option<Seq<char>> {
    match o {
        Some(s) => Some(s@),
        None => None,
    }
}

impl View for FakeResource {
    type V = FakeResourceView;

    open spec fn view(&self) -> FakeResourceView {
        FakeResourceView {
            id: self.id@,
            kind: self.kind,
            name: self.name@,
            display_name: self.display_name@,
            group_name: self.group_name@,
            source: self.source@,
            labels_json: opt_view(self.labels_json),
        }
    }
}

pub open spec fn fake_view(
    id: Seq<char>,
    kind: ResourceKind,
    name: Seq<char>,
    display: Seq<char>,
    group: Seq<char>,
    source: Seq<char>,
    labels: Option<Seq<char>>,
) -> FakeResourceView {
    FakeResourceView {
        id,
        kind,
        name,
        display_name: display,
        group_name: group,
        source,
        labels_json: labels,
    }
}

/// Labels of the managed container `komga`.
pub open spec fn komga_labels() -> Seq<char> {
    "{\"mop.managed\":\"true\",\"mop.group\":\"Docker\"}"@
}

/// Summary of the compose project: its two containers, one of them managed.
pub open spec fn media_stack_labels() -> Seq<char> {
    "{\"containers\":[{\"is_managed\":true,\"name\":\"media-stack-manga-worker-1\",\"service\":\"manga-worker\",\"status\":\"running\"},{\"is_managed\":false,\"name\":\"media-stack-db-1\",\"service\":\"db\",\"status\":\"running\"}],\"containers_count\":2,\"managed_containers_count\":1,\"project\":\"media-stack\",\"type\":\"compose_project\"}"@
}

/// Summary of the managed service `manga-worker`, which depends on `db`.
pub open spec fn worker_service_labels() -> Seq<char> {
    "{\"containers\":[{\"is_managed\":true,\"name\":\"media-stack-manga-worker-1\",\"service\":\"manga-worker\",\"status\":\"running\"}],\"containers_count\":1,\"depends_on\":[\"db\"],\"mop.managed\":\"true\",\"project\":\"media-stack\",\"service\":\"manga-worker\",\"type\":\"compose_service\"}"@
}

/// Summary of the unmanaged service `db`.
pub open spec fn db_service_labels() -> Seq<char> {
    "{\"containers\":[{\"is_managed\":false,\"name\":\"media-stack-db-1\",\"service\":\"db\",\"status\":\"running\"}],\"containers_count\":1,\"depends_on\":[],\"mop.managed\":\"false\",\"project\":\"media-stack\",\"service\":\"db\",\"type\":\"compose_service\"}"@
}

/// Compose labels of the worker's container.
pub open spec fn worker_container_labels() -> Seq<char> {
    "{\"com.docker.compose.container-number\":\"1\",\"com.docker.compose.depends_on\":\"db\",\"com.docker.compose.project\":\"media-stack\",\"com.docker.compose.service\":\"manga-worker\",\"mop.managed\":\"true\"}"@
}

/// Compose labels of the database's container.
pub open spec fn db_container_labels() -> Seq<char> {
    "{\"com.docker.compose.container-number\":\"1\",\"com.docker.compose.project\":\"media-stack\",\"com.docker.compose.service\":\"db\",\"mop.managed\":\"false\"}"@
}

/// The simulated resources, in listing order.
pub open spec fn fixture() -> Seq<FakeResourceView> {
    seq![
        fake_view(caddy(), ResourceKind::SystemdUnit, "caddy.service"@, "Caddy Web Server"@, "Systemd"@, "allowlist"@, None),
        fake_view(nginx(), ResourceKind::SystemdUnit, "nginx.service"@, "Nginx Reverse Proxy"@, "Systemd"@, "allowlist"@, None),
        fake_view(komga(), ResourceKind::DockerContainer, "komga"@, "Komga Media Server"@, "Docker"@, "label"@, Some(komga_labels())),
        fake_view(media_stack(), ResourceKind::ComposeProject, "media-stack"@, "media-stack"@, "Docker Compose"@, "compose"@, Some(media_stack_labels())),
        fake_view(worker_service(), ResourceKind::ComposeService, "manga-worker"@, "media-stack / manga-worker"@, "media-stack"@, "compose"@, Some(worker_service_labels())),
        fake_view(db_service(), ResourceKind::ComposeService, "db"@, "media-stack / db"@, "media-stack"@, "compose"@, Some(db_service_labels())),
        fake_view(worker_container(), ResourceKind::DockerContainer, "media-stack-manga-worker-1"@, "media-stack-manga-worker-1"@, "media-stack"@, "compose"@, Some(worker_container_labels())),
        fake_view(db_container(), ResourceKind::DockerContainer, "media-stack-db-1"@, "media-stack-db-1"@, "media-stack"@, "compose"@, Some(db_container_labels())),
    ]
}

pub open spec fn caddy() -> Seq<char> {
    "systemd:caddy.service"@
}

pub open spec fn nginx() -> Seq<char> {
    "systemd:nginx.service"@
}

pub open spec fn komga() -> Seq<char> {
    "docker:komga"@
}

pub open spec fn media_stack() -> Seq<char> {
    "compose_project:media-stack"@
}

pub open spec fn worker_service() -> Seq<char> {
    "compose_service:media-stack:manga-worker"@
}

pub open spec fn db_service() -> Seq<char> {
    "compose_service:media-stack:db"@
}

pub open spec fn worker_container() -> Seq<char> {
    "docker:media-stack-manga-worker-1"@
}

pub open spec fn db_container() -> Seq<char> {
    "docker:media-stack-db-1"@
}

/// Ids of the simulated resources, in listing order.
pub open spec fn fixture_ids() -> Seq<Seq<char>> {
    seq![
        caddy(),
        nginx(),
        komga(),
        media_stack(),
        worker_service(),
        db_service(),
        worker_container(),
        db_container(),
    ]
}

/// State a simulated resource starts in: everything runs but nginx.
pub open spec fn initial_status(id: Seq<char>) -> Option<ResourceStatus> {
    if id == nginx() {
        Some(ResourceStatus::Stopped)
    } else if fixture_ids().contains(id) {
        Some(ResourceStatus::Running)
    } else {
        None
    }
}

/// Value stored for `id` in a list of `(id, value)` entries (first entry wins).
pub open spec fn status_lookup(v: Seq<(String, ResourceStatus)>, id: Seq<char>) -> Option<
    ResourceStatus,
>
    decreases v.len(),
{
    if v.len() == 0 {
        None
    } else if v[0].0@ == id {
        Some(v[0].1)
    } else {
        status_lookup(v.drop_first(), id)
    }
}

/// Resources whose state follows a restart of `id`: the managed worker's
/// service and container for the project, its container for the service.
pub open spec fn restart_followers(id: Seq<char>) -> Seq<Seq<char>> {
    if id == media_stack() {
        seq![worker_service(), worker_container()]
    } else if id == worker_service() {
        seq![worker_container()]
    } else {
        Seq::empty()
    }
}

/// Kind of a resource from the prefix of its id.
pub open spec fn kind_of_id(id: Seq<char>) -> ResourceKind {
    if starts_with(id, "systemd:"@) {
        ResourceKind::SystemdUnit
    } else if starts_with(id, "compose_project:"@) {
        ResourceKind::ComposeProject
    } else if starts_with(id, "compose_service:"@) {
        ResourceKind::ComposeService
    } else {
        ResourceKind::DockerContainer
    }
}

pub fn kind_of_resource_id(id: &str) -> (r: ResourceKind)
    ensures
        r == kind_of_id(id@),
{
    let c = chars_of(id);
    if crate::text::starts_with_exec(&c, &chars_of("systemd:")) {
        ResourceKind::SystemdUnit
    } else if crate::text::starts_with_exec(&c, &chars_of("compose_project:")) {
        ResourceKind::ComposeProject
    } else if crate::text::starts_with_exec(&c, &chars_of("compose_service:")) {
        ResourceKind::ComposeService
    } else {
        ResourceKind::DockerContainer
    }
}

/// What an accepted action does: the state `id` moves to, and the
/// resources whose state follows it.
#[derive(Debug, Clone)]
pub struct FakeTransition {
    pub kind: ResourceKind,
    pub status: ResourceStatus,
    pub followers: Vec<String>,
}

/// The simulated resources and their current states.
pub struct FakeCollectorState {
    resources: Vec<FakeResource>,
    statuses: Vec<(String, ResourceStatus)>,
}

fn resource(
    id: &str,
    kind: ResourceKind,
    name: &str,
    display: &str,
    group: &str,
    source: &str,
    labels: Option<&str>,
) -> (r: FakeResource)
    ensures
        r@ == fake_view(id@, kind, name@, display@, group@, source@, match labels {
            Some(l) => Some(l@),
            None => None,
        }),
{
    FakeResource {
        id: id.to_owned(),
        kind,
        name: name.to_owned(),
        display_name: display.to_owned(),
        group_name: group.to_owned(),
        source: source.to_owned(),
        labels_json: match labels {
            Some(l) => Some(l.to_owned()),
            None => None,
        },
    }
}

impl FakeCollectorState {
    /// Ids of the resources, in listing order.
    pub closed spec fn ids(&self) -> Seq<Seq<char>> {
        Seq::new(self.resources@.len(), |i: int| self.resources@[i].id@)
    }

    /// The resources as plain values, in listing order.
    pub closed spec fn views(&self) -> Seq<FakeResourceView> {
        Seq::new(self.resources@.len(), |i: int| self.resources@[i]@)
    }

    /// Current state of `id` (`None` for an id never given one).
    pub closed spec fn status(&self, id: Seq<char>) -> Option<ResourceStatus> {
        status_lookup(self.statuses@, id)
    }

    /// The eight simulated resources in their initial states.
    pub fn new() -> (r: Self)
        ensures
            r.views() == fixture(),
            r.ids() == fixture_ids(),
            forall|id: Seq<char>| #[trigger] r.status(id) == initial_status(id),
    {
        let resources = vec![
            resource("systemd:caddy.service", ResourceKind::SystemdUnit, "caddy.service", "Caddy Web Server", "Systemd", "allowlist", None),
            resource("systemd:nginx.service", ResourceKind::SystemdUnit, "nginx.service", "Nginx Reverse Proxy", "Systemd", "allowlist", None),
            resource("docker:komga", ResourceKind::DockerContainer, "komga", "Komga Media Server", "Docker", "label", Some("{\"mop.managed\":\"true\",\"mop.group\":\"Docker\"}")),
            resource("compose_project:media-stack", ResourceKind::ComposeProject, "media-stack", "media-stack", "Docker Compose", "compose", Some("{\"containers\":[{\"is_managed\":true,\"name\":\"media-stack-manga-worker-1\",\"service\":\"manga-worker\",\"status\":\"running\"},{\"is_managed\":false,\"name\":\"media-stack-db-1\",\"service\":\"db\",\"status\":\"running\"}],\"containers_count\":2,\"managed_containers_count\":1,\"project\":\"media-stack\",\"type\":\"compose_project\"}")),
            resource("compose_service:media-stack:manga-worker", ResourceKind::ComposeService, "manga-worker", "media-stack / manga-worker", "media-stack", "compose", Some("{\"containers\":[{\"is_managed\":true,\"name\":\"media-stack-manga-worker-1\",\"service\":\"manga-worker\",\"status\":\"running\"}],\"containers_count\":1,\"depends_on\":[\"db\"],\"mop.managed\":\"true\",\"project\":\"media-stack\",\"service\":\"manga-worker\",\"type\":\"compose_service\"}")),
            resource("compose_service:media-stack:db", ResourceKind::ComposeService, "db", "media-stack / db", "media-stack", "compose", Some("{\"containers\":[{\"is_managed\":false,\"name\":\"media-stack-db-1\",\"service\":\"db\",\"status\":\"running\"}],\"containers_count\":1,\"depends_on\":[],\"mop.managed\":\"false\",\"project\":\"media-stack\",\"service\":\"db\",\"type\":\"compose_service\"}")),
            resource("docker:media-stack-manga-worker-1", ResourceKind::DockerContainer, "media-stack-manga-worker-1", "media-stack-manga-worker-1", "media-stack", "compose", Some("{\"com.docker.compose.container-number\":\"1\",\"com.docker.compose.depends_on\":\"db\",\"com.docker.compose.project\":\"media-stack\",\"com.docker.compose.service\":\"manga-worker\",\"mop.managed\":\"true\"}")),
            resource("docker:media-stack-db-1", ResourceKind::DockerContainer, "media-stack-db-1", "media-stack-db-1", "media-stack", "compose", Some("{\"com.docker.compose.container-number\":\"1\",\"com.docker.compose.project\":\"media-stack\",\"com.docker.compose.service\":\"db\",\"mop.managed\":\"false\"}")),
        ];
        let statuses = vec![
            ("systemd:caddy.service".to_owned(), ResourceStatus::Running),
            ("systemd:nginx.service".to_owned(), ResourceStatus::Stopped),
            ("docker:komga".to_owned(), ResourceStatus::Running),
            ("compose_project:media-stack".to_owned(), ResourceStatus::Running),
            ("compose_service:media-stack:manga-worker".to_owned(), ResourceStatus::Running),
            ("compose_service:media-stack:db".to_owned(), ResourceStatus::Running),
            ("docker:media-stack-manga-worker-1".to_owned(), ResourceStatus::Running),
            ("docker:media-stack-db-1".to_owned(), ResourceStatus::Running),
        ];
        let r = FakeCollectorState { resources, statuses };
        proof {
            assert(r.views() =~= fixture());
            assert(r.ids() =~= fixture_ids());
            assert forall|id: Seq<char>| #[trigger] r.status(id) == initial_status(id) by {
                let v = r.statuses@;
                assert(v.drop_first() =~= v.subrange(1, 8));
                assert(v.subrange(1, 8).drop_first() =~= v.subrange(2, 8));
                assert(v.subrange(2, 8).drop_first() =~= v.subrange(3, 8));
                assert(v.subrange(3, 8).drop_first() =~= v.subrange(4, 8));
                assert(v.subrange(4, 8).drop_first() =~= v.subrange(5, 8));
                assert(v.subrange(5, 8).drop_first() =~= v.subrange(6, 8));
                assert(v.subrange(6, 8).drop_first() =~= v.subrange(7, 8));
                assert(v.subrange(7, 8).drop_first() =~= v.subrange(8, 8));
                reveal_with_fuel(status_lookup, 10);
                reveal_strlit("systemd:caddy.service");
                reveal_strlit("systemd:nginx.service");
                reveal_strlit("docker:komga");
                reveal_strlit("compose_project:media-stack");
                reveal_strlit("compose_service:media-stack:manga-worker");
                reveal_strlit("compose_service:media-stack:db");
                reveal_strlit("docker:media-stack-manga-worker-1");
                reveal_strlit("docker:media-stack-db-1");
                assert(caddy()[8] != nginx()[8]);
                assert(caddy() != nginx());
                if fixture_ids().contains(id) {
                    let k = choose|k: int| 0 <= k < 8 && fixture_ids()[k] == id;
                    assert(fixture_ids()[k] == v[k].0@);
                }
            }
        }
        r
    }

    /// The resources, in listing order.
    pub fn resources(&self) -> (r: &Vec<FakeResource>)
        ensures
            Seq::new(r@.len(), |i: int| r@[i]@) == self.views(),
            Seq::new(r@.len(), |i: int| r@[i].id@) == self.ids(),
    {
        &self.resources
    }

    fn find_status(&self, id: &str) -> (r: Option<usize>)
        ensures
            match r {
                Some(k) => k < self.statuses@.len() && self.status(id@) == Some(
                    self.statuses@[k as int].1,
                ) && self.statuses@[k as int].0@ == id@ && forall|j: int|
                    0 <= j < k ==> self.statuses@[j].0@ != id@,
                None => self.status(id@) is None,
            },
    {
        let v = &self.statuses;
        let mut i: usize = 0;
        proof {
            assert(v@.skip(0) =~= v@);
        }
        while i < v.len()
            invariant
                i <= v@.len(),
                v == &self.statuses,
                status_lookup(v@, id@) == status_lookup(v@.skip(i as int), id@),
                forall|j: int| 0 <= j < i ==> v@[j].0@ != id@,
            decreases v.len() - i,
        {
            proof {
                assert(v@.skip(i as int)[0] == v@[i as int]);
                assert(v@.skip(i as int).drop_first() =~= v@.skip(i + 1));
            }
            if str_eq_lit(v[i].0.as_str(), id) {
                return Some(i);
            }
            i += 1;
        }
        None
    }

    /// Current state of `id`; `Unknown` for an id without one.
    pub fn status_of(&self, id: &str) -> (r: ResourceStatus)
        ensures
            r == match self.status(id@) {
                Some(s) => s,
                None => ResourceStatus::Unknown,
            },
    {
        match self.find_status(id) {
            Some(k) => self.statuses[k].1,
            None => ResourceStatus::Unknown,
        }
    }

    /// Records `s` as the state of `id`.
    pub fn set_status(&mut self, id: &str, s: ResourceStatus)
        ensures
            final(self).ids() == old(self).ids(),
            final(self).views() == old(self).views(),
            forall|k: Seq<char>|
                #[trigger] final(self).status(k) == if k == id@ {
                    Some(s)
                } else {
                    old(self).status(k)
                },
    {
        match self.find_status(id) {
            Some(k) => {
                let ghost before = self.statuses@;
                let t = id.to_owned();
                proof {
                    lemma_lookup_update(before, k as int, t, s);
                }
                self.statuses.set(k, (t, s));
            },
            None => {
                let ghost before = self.statuses@;
                let t = id.to_owned();
                proof {
                    assert forall|x: Seq<char>| #[trigger] status_lookup(before.push((t, s)), x) == if x
                        == id@ {
                        Some(s)
                    } else {
                        status_lookup(before, x)
                    } by {
                        lemma_lookup_push(before, t, s, x);
                    }
                }
                self.statuses.push((t, s));
            },
        }
    }

    fn has_resource(&self, id: &str) -> (r: bool)
        ensures
            r == self.ids().contains(id@),
    {
        let mut i: usize = 0;
        while i < self.resources.len()
            invariant
                i <= self.resources@.len(),
                forall|j: int| 0 <= j < i ==> self.resources@[j].id@ != id@,
            decreases self.resources.len() - i,
        {
            if str_eq_lit(id, self.resources[i].id.as_str()) {
                proof {
                    assert(self.ids()[i as int] == id@);
                }
                return true;
            }
            i += 1;
        }
        proof {
            if self.ids().contains(id@) {
                let j = choose|j: int| 0 <= j < self.ids().len() && self.ids()[j] == id@;
                assert(self.resources@[j].id@ == id@);
            }
        }
        false
    }

    /// Checks an action before it is carried out: unknown resources are not
    /// found; the unmanaged database service and container are refused.
    pub fn check_action(&self, id: &str, action: &str) -> (r: Result<ResourceKind, AppError>)
        ensures
            match r {
                Ok(k) => self.ids().contains(id@) && id@ != db_service() && id@ != db_container()
                    && k == kind_of_id(id@),
                Err(e) => if !self.ids().contains(id@) {
                    err_view(e) == (0int, id@, Seq::<char>::empty())
                } else {
                    (id@ == db_service() || id@ == db_container()) && err_view(e) == (
                        1int,
                        action@,
                        crate::compose::no_managed_detail(id@),
                    )
                },
            },
    {
        if !self.has_resource(id) {
            return Err(AppError::ResourceNotFound(id.to_owned()));
        }
        if str_eq_lit(id, "compose_service:media-stack:db") || str_eq_lit(id, "docker:media-stack-db-1") {
            let mut d = chars_of(id);
            push_all(&mut d, &chars_of(" has no managed containers (mop.managed=true required)"));
            return Err(AppError::ActionNotAllowed(action.to_owned(), string_of(&d)));
        }
        Ok(kind_of_resource_id(id))
    }

    /// Carries out a checked action: `start` and `stop` set the state of `id`;
    /// `restart` marks `id` and its followers restarting; anything else is
    /// refused.
    pub fn apply_action(&mut self, id: &str, action: &str) -> (r: Result<FakeTransition, AppError>)
        ensures
            final(self).ids() == old(self).ids(),
            final(self).views() == old(self).views(),
            match r {
                Ok(t) => {
                    &&& crate::resource::is_known_action(action@)
                    &&& t.kind == kind_of_id(id@)
                    &&& t.status == crate::resource::action_target(action@)
                    &&& str_views(t.followers@) == if action@ == "restart"@ {
                        restart_followers(id@)
                    } else {
                        Seq::empty()
                    }
                    &&& forall|k: Seq<char>|
                        #[trigger] final(self).status(k) == if k == id@ || str_views(
                            t.followers@,
                        ).contains(k) {
                            Some(t.status)
                        } else {
                            old(self).status(k)
                        }
                },
                Err(e) => !crate::resource::is_known_action(action@) && err_view(e) == (
                    1int,
                    action@,
                    id@,
                ) && forall|k: Seq<char>| #[trigger] final(self).status(k) == old(self).status(k),
            },
    {
        let kind = kind_of_resource_id(id);
        let status = crate::resource::action_target_status(action);
        if !(str_eq_lit(action, "start") || str_eq_lit(action, "stop") || str_eq_lit(action, "restart")) {
            return Err(AppError::ActionNotAllowed(action.to_owned(), id.to_owned()));
        }
        let followers = if str_eq_lit(action, "restart") {
            restart_followers_of(id)
        } else {
            Vec::new()
        };
        self.set_all(id, &followers, status);
        proof {
            assert(str_views(Seq::<String>::empty()) =~= Seq::<Seq<char>>::empty());
        }
        Ok(FakeTransition { kind, status, followers })
    }

    /// The delayed end of a restart: `id` and its followers run again.
    pub fn finish_restart(&mut self, id: &str) -> (r: Vec<String>)
        ensures
            final(self).ids() == old(self).ids(),
            final(self).views() == old(self).views(),
            str_views(r@) == restart_followers(id@),
            forall|k: Seq<char>|
                #[trigger] final(self).status(k) == if k == id@ || restart_followers(id@).contains(k) {
                    Some(ResourceStatus::Running)
                } else {
                    old(self).status(k)
                },
    {
        let followers = restart_followers_of(id);
        self.set_all(id, &followers, ResourceStatus::Running);
        followers
    }

    fn set_all(&mut self, id: &str, followers: &Vec<String>, s: ResourceStatus)
        ensures
            final(self).ids() == old(self).ids(),
            final(self).views() == old(self).views(),
            forall|k: Seq<char>|
                #[trigger] final(self).status(k) == if k == id@ || str_views(followers@).contains(k) {
                    Some(s)
                } else {
                    old(self).status(k)
                },
    {
        self.set_status(id, s);
        let mut i: usize = 0;
        while i < followers.len()
            invariant
                i <= followers@.len(),
                self.ids() == old(self).ids(),
                self.views() == old(self).views(),
                forall|k: Seq<char>|
                    #[trigger] self.status(k) == if k == id@ || str_views(followers@).take(
                        i as int,
                    ).contains(k) {
                        Some(s)
                    } else {
                        old(self).status(k)
                    },
            decreases followers.len() - i,
        {
            self.set_status(followers[i].as_str(), s);
            proof {
                assert(str_views(followers@).take(i + 1) =~= str_views(followers@).take(
                    i as int,
                ).push(followers@[i as int]@));
            }
            i += 1;
        }
        proof {
            assert(str_views(followers@).take(followers@.len() as int) =~= str_views(followers@));
        }
    }
}

/// What the simulation reports for a state: active state, sub-state,
/// uptime in seconds and memory in bytes.
pub open spec fn detail_of(s: ResourceStatus) -> (Seq<char>, Seq<char>, Option<u64>, Option<u64>) {
    match s {
        ResourceStatus::Running => ("active"@, "running"@, Some(7200u64), Some(134217728u64)),
        ResourceStatus::Stopped => ("inactive"@, "dead"@, None, None),
        ResourceStatus::Failed => ("failed"@, "failed"@, None, None),
        ResourceStatus::Degraded => ("degraded"@, "degraded"@, None, None),
        ResourceStatus::Restarting => ("reloading"@, "start-pre"@, Some(1u64), Some(67108864u64)),
        ResourceStatus::Unknown => ("unknown"@, "unknown"@, None, None),
    }
}

pub fn fake_detail(s: ResourceStatus) -> (r: (&'static str, &'static str, Option<u64>, Option<u64>))
    ensures
        (r.0@, r.1@, r.2, r.3) == detail_of(s),
{
    match s {
        ResourceStatus::Running => ("active", "running", Some(7200), Some(1024 * 1024 * 128)),
        ResourceStatus::Stopped => ("inactive", "dead", None, None),
        ResourceStatus::Failed => ("failed", "failed", None, None),
        ResourceStatus::Degraded => ("degraded", "degraded", None, None),
        ResourceStatus::Restarting => ("reloading", "start-pre", Some(1), Some(1024 * 1024 * 64)),
        ResourceStatus::Unknown => ("unknown", "unknown", None, None),
    }
}

/// Containers whose logs make up the log of a simulated compose resource, as
/// `(service, container resource id, container name)`; `None` for a resource
/// with a log of its own.
pub open spec fn log_sources(id: Seq<char>) -> Option<Seq<(Seq<char>, Seq<char>, Seq<char>)>> {
    if id == worker_service() {
        Some(seq![("manga-worker"@, worker_container(), "media-stack-manga-worker-1"@)])
    } else if id == media_stack() {
        Some(
            seq![
                ("manga-worker"@, worker_container(), "media-stack-manga-worker-1"@),
                ("db"@, db_container(), "media-stack-db-1"@),
            ],
        )
    } else {
        None
    }
}

pub fn fake_log_sources(id: &str) -> (r: Option<Vec<(&'static str, &'static str, &'static str)>>)
    ensures
        match r {
            Some(v) => log_sources(id@) == Some(
                Seq::new(v@.len(), |i: int| (v@[i].0@, v@[i].1@, v@[i].2@)),
            ),
            None => log_sources(id@) is None,
        },
{
    if str_eq_lit(id, "compose_service:media-stack:manga-worker") {
        let v = vec![("manga-worker", "docker:media-stack-manga-worker-1", "media-stack-manga-worker-1")];
        proof {
            assert(Seq::new(v@.len(), |i: int| (v@[i].0@, v@[i].1@, v@[i].2@)) =~= log_sources(
                id@,
            )->0);
        }
        Some(v)
    } else if str_eq_lit(id, "compose_project:media-stack") {
        let v = vec![
            ("manga-worker", "docker:media-stack-manga-worker-1", "media-stack-manga-worker-1"),
            ("db", "docker:media-stack-db-1", "media-stack-db-1"),
        ];
        proof {
            reveal_strlit("compose_service:media-stack:manga-worker");
            reveal_strlit("compose_project:media-stack");
            assert(Seq::new(v@.len(), |i: int| (v@[i].0@, v@[i].1@, v@[i].2@)) =~= log_sources(
                id@,
            )->0);
        }
        Some(v)
    } else {
        None
    }
}

fn restart_followers_of(id: &str) -> (r: Vec<String>)
    ensures
        str_views(r@) == restart_followers(id@),
{
    let r = if str_eq_lit(id, "compose_project:media-stack") {
        vec![
            "compose_service:media-stack:manga-worker".to_owned(),
            "docker:media-stack-manga-worker-1".to_owned(),
        ]
    } else if str_eq_lit(id, "compose_service:media-stack:manga-worker") {
        vec!["docker:media-stack-manga-worker-1".to_owned()]
    } else {
        Vec::new()
    };
    proof {
        assert(str_views(r@) =~= restart_followers(id@));
    }
    r
}

proof fn lemma_lookup_update(v: Seq<(String, ResourceStatus)>, k: int, t: String, s: ResourceStatus)
    requires
        0 <= k < v.len(),
        v[k].0@ == t@,
        forall|j: int| 0 <= j < k ==> v[j].0@ != t@,
    ensures
        forall|x: Seq<char>|
            #[trigger] status_lookup(v.update(k, (t, s)), x) == if x == t@ {
                Some(s)
            } else {
                status_lookup(v, x)
            },
{
    assert forall|x: Seq<char>|
        #[trigger] status_lookup(v.update(k, (t, s)), x) == if x == t@ {
            Some(s)
        } else {
            status_lookup(v, x)
        } by {
        lemma_lookup_update_one(v, k, t, s, x);
    }
}

proof fn lemma_lookup_update_one(
    v: Seq<(String, ResourceStatus)>,
    k: int,
    t: String,
    s: ResourceStatus,
    x: Seq<char>,
)
    requires
        0 <= k < v.len(),
        v[k].0@ == t@,
        forall|j: int| 0 <= j < k ==> v[j].0@ != t@,
    ensures
        status_lookup(v.update(k, (t, s)), x) == if x == t@ {
            Some(s)
        } else {
            status_lookup(v, x)
        },
    decreases v.len(),
{
    let w = v.update(k, (t, s));
    if k == 0 {
        assert(w.drop_first() =~= v.drop_first());
    } else {
        assert(w.drop_first() =~= v.drop_first().update(k - 1, (t, s)));
        assert(v[0].0@ != t@);
        assert(w[0] == v[0]);
        assert forall|j: int| 0 <= j < k - 1 implies v.drop_first()[j].0@ != t@ by {
            assert(v.drop_first()[j] == v[j + 1]);
        }
        lemma_lookup_update_one(v.drop_first(), k - 1, t, s, x);
    }
}

proof fn lemma_lookup_push(v: Seq<(String, ResourceStatus)>, t: String, s: ResourceStatus, x: Seq<char>)
    requires
        status_lookup(v, t@) is None,
    ensures
        status_lookup(v.push((t, s)), x) == if x == t@ {
            Some(s)
        } else {
            status_lookup(v, x)
        },
    decreases v.len(),
{
    if v.len() > 0 {
        assert(v.push((t, s)).drop_first() =~= v.drop_first().push((t, s)));
        assert(v.push((t, s))[0] == v[0]);
        assert(v[0].0@ != t@);
        if v[0].0@ == x {
            assert(x != t@);
        } else {
            lemma_lookup_push(v.drop_first(), t, s, x);
        }
    } else {
        assert(v.push((t, s)).drop_first() =~= Seq::<(String, ResourceStatus)>::empty());
        assert(status_lookup(Seq::<(String, ResourceStatus)>::empty(), x) is None);
        assert(v.push((t, s))[0] == (t, s));
    }
}

/// How the event for resource `res` names it when an action was taken on
/// `id`: the resource acted on by id, the managed worker's service and
/// container by their names.
pub open spec fn event_subject(id: Seq<char>, res: Seq<char>) -> Seq<char> {
    if res != id && res == worker_service() {
        "Service manga-worker"@
    } else if res != id && res == worker_container() {
        "Container media-stack-manga-worker-1"@
    } else {
        "Resource "@ + res
    }
}

/// Text of the event reported for resource `res` when the action on `id`
/// moves it to `status`: for a restart, "is restarting" and then "restarted
/// successfully"; for a start or stop, "transitioned to" the new state.
pub open spec fn event_text(id: Seq<char>, res: Seq<char>, restart: bool, status: ResourceStatus) -> Seq<
    char,
> {
    if restart && status == ResourceStatus::Restarting {
        event_subject(id, res) + " is restarting"@
    } else if restart {
        event_subject(id, res) + " restarted successfully"@
    } else {
        event_subject(id, res) + " transitioned to "@ + crate::resource::status_name(status)
    }
}

pub fn fake_event_text(id: &str, res: &str, restart: bool, status: ResourceStatus) -> (r: String)
    ensures
        r@ == event_text(id@, res@, restart, status),
{
    let mut v: Vec<char>;
    if !str_eq_lit(res, id) && str_eq_lit(res, "compose_service:media-stack:manga-worker") {
        v = chars_of("Service manga-worker");
    } else if !str_eq_lit(res, id) && str_eq_lit(res, "docker:media-stack-manga-worker-1") {
        v = chars_of("Container media-stack-manga-worker-1");
    } else {
        v = chars_of("Resource ");
        push_all(&mut v, &chars_of(res));
    }
    proof {
        assert(v@ =~= event_subject(id@, res@));
    }
    let ghost subject = v@;
    if restart && status == ResourceStatus::Restarting {
        push_all(&mut v, &chars_of(" is restarting"));
    } else if restart {
        push_all(&mut v, &chars_of(" restarted successfully"));
    } else {
        push_all(&mut v, &chars_of(" transitioned to "));
        push_all(&mut v, &chars_of(status.as_str()));
        proof {
            assert(v@ =~= subject + " transitioned to "@ + crate::resource::status_name(status));
        }
    }
    string_of(&v)
}

} // verus!
