//! The resource cascade: four dependency-ordered resolution steps plus the
//! platform lookup. Each step consumes a freshly queried candidate set and
//! narrows one dimension; the scope of every query is exactly the selection
//! of the step before it, never a raw hint.

use vstd::prelude::*;
use crate::errors::AppError;
use crate::select::{find_item, resolution_ok, some_match};

verus! {

/// The operator's partial hints, one per cascade dimension.
#[derive(Clone)]
pub struct ResourceHints {
    pub cluster: Option<String>,
    pub service: Option<String>,
    pub task: Option<String>,
}

/// What the cascade needs next from the inventory, or what it concluded.
/// The scope fields carry the resolved selections forward, so the caller can
/// only ever query with them.
#[derive(Clone)]
pub enum CascadeStep {
    /// Query all cluster identifiers, unscoped.
    Clusters,
    /// Query the services of exactly this cluster.
    Services { cluster: String },
    /// Query the tasks of exactly this cluster and service.
    Tasks { cluster: String, service: String },
    /// Query the details of exactly the chosen task on the chosen cluster.
    TaskDetail { cluster: String, service: String, task: String },
    /// Every dimension is resolved.
    Done { cluster: String, service: String, task: String, platform: String },
}

/// The sequential resolver, driven by supplying one candidate set per step.
pub struct Cascade {
    pub hints: ResourceHints,
    pub step: CascadeStep,
}

impl Cascade {
    pub fn new(hints: ResourceHints) -> (c: Cascade)
        ensures
            c.step is Clusters,
            c.hints == hints,
    {
        Cascade { hints, step: CascadeStep::Clusters }
    }

    /// Resolve the cluster from the queried candidates: the cluster hint
    /// picks the first containing candidate, no hint falls back to silent
    /// unique choice or the interactive prompt.
    pub fn supply_clusters(&mut self, candidates: Vec<String>) -> (r: Result<(), AppError>)
        requires
            old(self).step is Clusters,
        ensures
            final(self).hints == old(self).hints,
            r is Ok ==> (final(self).step matches CascadeStep::Services { cluster }
                && resolution_ok(
                cluster@,
                old(self).hints.cluster.deep_view(),
                candidates.deep_view(),
            )),
            old(self).hints.cluster matches Some(h) ==> (some_match(candidates.deep_view(), h@)
                ==> r is Ok) && (!some_match(candidates.deep_view(), h@) ==> (r matches Err(e)
                && e matches AppError::NotFound { label, hint } && label@ == "Cluster"@ && hint@
                == h@)),
            old(self).hints.cluster is None ==> (candidates@.len() == 1 ==> r is Ok) && (
            candidates@.len() == 0 ==> r is Err),
            r matches Err(e) ==> (old(self).hints.cluster is None ==> e is Interaction),
            r is Err ==> final(self).step == old(self).step,
    {
        match find_item("Cluster", &self.hints.cluster, candidates) {
            Ok(c) => {
                self.step = CascadeStep::Services { cluster: c };
                Ok(())
            },
            Err(e) => Err(e),
        }
    }

    /// Resolve the service; the scope of the candidates was the cluster this
    /// step carries, which stays in place for the next step.
    pub fn supply_services(&mut self, candidates: Vec<String>) -> (r: Result<(), AppError>)
        requires
            old(self).step is Services,
        ensures
            final(self).hints == old(self).hints,
            r is Ok ==> (old(self).step matches CascadeStep::Services { cluster: c0 }
                && final(self).step matches CascadeStep::Tasks { cluster, service } && cluster@
                == c0@ && resolution_ok(
                service@,
                old(self).hints.service.deep_view(),
                candidates.deep_view(),
            )),
            r is Err ==> final(self).step == old(self).step,
    {
        let cluster = match &self.step {
            CascadeStep::Services { cluster } => cluster.clone(),
            _ => vstd::pervasive::unreached(),
        };
        match find_item("Service", &self.hints.service, candidates) {
            Ok(s) => {
                self.step = CascadeStep::Tasks { cluster, service: s };
                Ok(())
            },
            Err(e) => Err(e),
        }
    }

    /// Resolve the task; cluster and service scopes stay in place.
    pub fn supply_tasks(&mut self, candidates: Vec<String>) -> (r: Result<(), AppError>)
        requires
            old(self).step is Tasks,
        ensures
            final(self).hints == old(self).hints,
            r is Ok ==> (old(self).step matches CascadeStep::Tasks { cluster: c0, service: s0 }
                && final(self).step matches CascadeStep::TaskDetail { cluster, service, task }
                && cluster@ == c0@ && service@ == s0@ && resolution_ok(
                task@,
                old(self).hints.task.deep_view(),
                candidates.deep_view(),
            )),
            old(self).hints.task matches Some(h) ==> (some_match(candidates.deep_view(), h@)
                ==> r is Ok) && (!some_match(candidates.deep_view(), h@) ==> (r matches Err(e)
                && e matches AppError::NotFound { label, hint } && label@ == "Task"@ && hint@
                == h@)),
            old(self).hints.task is None ==> (candidates@.len() == 1 ==> r is Ok) && (
            candidates@.len() == 0 ==> r is Err),
            r matches Err(e) ==> (old(self).hints.task is None ==> e is Interaction),
            r is Err ==> final(self).step == old(self).step,
    {
        let (cluster, service) = match &self.step {
            CascadeStep::Tasks { cluster, service } => (cluster.clone(), service.clone()),
            _ => vstd::pervasive::unreached(),
        };
        match find_item("Task", &self.hints.task, candidates) {
            Ok(t) => {
                self.step = CascadeStep::TaskDetail { cluster, service, task: t };
                Ok(())
            },
            Err(e) => Err(e),
        }
    }

    /// Conclude from the queried task details. `detail` is the platform
    /// attribute of the first described task: `None` where no task data came
    /// back, `Some(None)` where the task carries no platform attribute.
    pub fn supply_task_detail(&mut self, detail: Option<Option<String>>) -> (r: Result<
        (),
        AppError,
    >)
        requires
            old(self).step is TaskDetail,
        ensures
            final(self).hints == old(self).hints,
            detail.deep_view() matches Some(Some(p)) ==> (r is Ok && (old(self).step
                matches CascadeStep::TaskDetail { cluster: c0, service: s0, task: t0 }
                && final(self).step matches CascadeStep::Done { cluster, service, task, platform }
                && cluster@ == c0@ && service@ == s0@ && task@ == t0@ && platform@ == p)),
            !(detail.deep_view() matches Some(Some(p))) ==> (r matches Err(e)
                && e matches AppError::NotFound { label, hint } && label@ == "Platform"@ && (old(
                self,
            ).step matches CascadeStep::TaskDetail { task: t0, .. } && hint@ == t0@)
                && final(self).step == old(self).step),
    {
        let (cluster, service, task) = match &self.step {
            CascadeStep::TaskDetail { cluster, service, task } => (
                cluster.clone(),
                service.clone(),
                task.clone(),
            ),
            _ => vstd::pervasive::unreached(),
        };
        match task_platform(detail, task.as_str()) {
            Ok(platform) => {
                self.step = CascadeStep::Done { cluster, service, task, platform };
                Ok(())
            },
            Err(e) => Err(e),
        }
    }
}

/// The platform family of a described task: absent task data or an unset
/// platform attribute is fatal, since without it no default shell can be
/// chosen. `task` only labels the error.
pub fn task_platform(detail: Option<Option<String>>, task: &str) -> (r: Result<String, AppError>)
    ensures
        detail.deep_view() matches Some(Some(p)) ==> (r matches Ok(s) && s@ == p),
        !(detail.deep_view() matches Some(Some(p))) ==> (r matches Err(e)
            && e matches AppError::NotFound { label, hint } && label@ == "Platform"@ && hint@
            == task@),
{
    match detail {
        Some(Some(p)) => Ok(p),
        _ => Err(
            AppError::NotFound { label: String::from_str("Platform"), hint: task.to_owned() },
        ),
    }
}

} // verus!
