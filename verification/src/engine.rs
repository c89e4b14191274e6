//! The proxy engine: the registry of modules by destination name, and the
//! decisions taken while a request goes through the module pipeline.
//!
//! The modules themselves, and the waiting on them, live with the caller: the
//! engine names a module by its slot, the position it was registered at.
use vstd::prelude::*;
use crate::config::DestinationProvider;
use crate::error::{AppError, AppErrorView, concat_str};
use crate::text::str_eq;

verus! {

/// The first slot at or after `from` that holds `name`.
pub open spec fn slot_from(names: Seq<Seq<char>>, name: Seq<char>, from: int) -> Option<int>
    decreases names.len() - from,
{
    if from < 0 || from >= names.len() {
        None
    } else if names[from] == name {
        Some(from)
    } else {
        slot_from(names, name, from + 1)
    }
}

/// The slot of the module registered under `name`.
pub open spec fn name_slot(names: Seq<Seq<char>>, name: Seq<char>) -> Option<int> {
    slot_from(names, name, 0)
}

/// The registry after registering a module under `name`: a name already
/// present keeps its slot (its module is replaced), a new one takes the next.
pub open spec fn register_name(names: Seq<Seq<char>>, name: Seq<char>) -> Seq<Seq<char>> {
    if name_slot(names, name) is Some {
        names
    } else {
        names.push(name)
    }
}

/// The slot a registration under `name` uses.
pub open spec fn registered_slot(names: Seq<Seq<char>>, name: Seq<char>) -> int {
    match name_slot(names, name) {
        Some(k) => k,
        None => names.len() as int,
    }
}

proof fn lemma_slot_from_bounds(names: Seq<Seq<char>>, name: Seq<char>, from: int)
    requires
        from >= 0,
    ensures
        slot_from(names, name, from) matches Some(k) ==> from <= k < names.len() && names[k]
            == name,
        slot_from(names, name, from) is None ==> forall|j: int|
            from <= j < names.len() ==> names[j] != name,
    decreases names.len() - from,
{
    if from < names.len() && names[from] != name {
        lemma_slot_from_bounds(names, name, from + 1);
    }
}

proof fn lemma_slot_from_push(names: Seq<Seq<char>>, name: Seq<char>, other: Seq<char>, from: int)
    requires
        0 <= from <= names.len(),
    ensures
        slot_from(names.push(name), other, from) == if slot_from(names, other, from) is Some {
            slot_from(names, other, from)
        } else if other == name {
            Some(names.len() as int)
        } else {
            None::<int>
        },
    decreases names.len() - from,
{
    let pushed = names.push(name);
    if from < names.len() {
        assert(pushed[from] == names[from]);
        lemma_slot_from_push(names, name, other, from + 1);
    } else {
        assert(pushed[from] == name);
        assert(slot_from(pushed, other, from + 1) is None);
    }
}

proof fn lemma_slot_from_first(names: Seq<Seq<char>>, name: Seq<char>, from: int, k: int)
    requires
        0 <= from <= k < names.len(),
        names[k] == name,
        forall|j: int| from <= j < k ==> names[j] != name,
    ensures
        slot_from(names, name, from) == Some(k),
    decreases k - from,
{
    if from < k {
        lemma_slot_from_first(names, name, from + 1, k);
    }
}

/// Registration routes its name to the slot it used, and leaves the route
/// of every other name as it was.
pub proof fn lemma_register_routes(names: Seq<Seq<char>>, name: Seq<char>, other: Seq<char>)
    ensures
        name_slot(register_name(names, name), name) == Some(registered_slot(names, name)),
        other != name ==> name_slot(register_name(names, name), other) == name_slot(names, other),
{
    lemma_slot_from_push(names, name, name, 0);
    lemma_slot_from_push(names, name, other, 0);
}

/// No name is registered twice.
pub open spec fn distinct_names(names: Seq<Seq<char>>) -> bool {
    forall|i: int, j: int| 0 <= i < j < names.len() ==> names[i] != names[j]
}

/// Registration keeps the names distinct, as the keys of a map are.
pub proof fn lemma_register_keeps_names_distinct(names: Seq<Seq<char>>, name: Seq<char>)
    requires
        distinct_names(names),
    ensures
        distinct_names(register_name(names, name)),
{
    if name_slot(names, name) is None {
        lemma_slot_from_bounds(names, name, 0);
        let pushed = names.push(name);
        assert forall|i: int, j: int| 0 <= i < j < pushed.len() implies pushed[i] != pushed[j] by {
            if j == names.len() {
                assert(names[i] != name);
            } else {
                assert(pushed[i] == names[i] && pushed[j] == names[j]);
            }
        }
    }
}

/// Where a request stands in the pipeline.
pub enum RequestStage {
    /// The destination has not been looked up yet.
    Routing,
    /// The module in `slot` is processing the request, which goes to `endpoint` if it lets it through.
    AwaitingOnRequest { slot: usize, endpoint: String },
    /// The request the module in `slot` let through is with the backend.
    AwaitingUpstream { slot: usize },
    /// The module in `slot` is processing the backend's response.
    AwaitingOnResponse { slot: usize },
    /// A response has been chosen.
    Finished,
}

/// What the caller reports back.
pub enum RequestEvent {
    /// The destination read from the configuration; `None` when the
    /// configuration lock could not be taken.
    ConfigRead(Option<DestinationProvider>),
    /// The module's request hook finished: `Ok(true)` when it answered the
    /// request itself, `Ok(false)` to let the request through to the backend.
    OnRequestDone(Result<bool, AppError>),
    /// The backend answered (`Ok`), or the exchange with it failed.
    UpstreamDone(Result<(), AppError>),
    /// The module's response hook finished.
    OnResponseDone(Result<(), AppError>),
}

/// What the caller does next.
pub enum RequestAction {
    /// Run the request hook of the module in `slot`.
    CallOnRequest { slot: usize },
    /// Send the request on to the backend at `endpoint`.
    Forward { endpoint: String },
    /// Run the response hook of the module in `slot` on the backend's response.
    CallOnResponse { slot: usize },
    /// Send the response the request hook produced.
    ReturnModuleResponse,
    /// Send the backend's response, as the response hook left it.
    ReturnUpstreamResponse,
    /// Send the response that reports this error.
    ReturnError(AppError),
}

/// Whether an event is the one a stage waits for.
pub open spec fn event_fits(stage: RequestStage, event: RequestEvent) -> bool {
    match (stage, event) {
        (RequestStage::Routing, RequestEvent::ConfigRead(_)) => true,
        (RequestStage::AwaitingOnRequest { .. }, RequestEvent::OnRequestDone(_)) => true,
        (RequestStage::AwaitingUpstream { .. }, RequestEvent::UpstreamDone(_)) => true,
        (RequestStage::AwaitingOnResponse { .. }, RequestEvent::OnResponseDone(_)) => true,
        _ => false,
    }
}

/// The stage a fitting event leads to: a routed request waits for its
/// module's request hook; a request the hook lets through waits for the
/// backend; the backend's answer waits for the response hook; everything
/// else finishes the request.
pub open spec fn next_request_stage(names: Seq<Seq<char>>, stage: RequestStage, event: RequestEvent) -> RequestStage {
    match (stage, event) {
        (RequestStage::Routing, RequestEvent::ConfigRead(Some(d))) => match name_slot(names, d.name@) {
            Some(k) => RequestStage::AwaitingOnRequest { slot: k as usize, endpoint: d.endpoint },
            None => RequestStage::Finished,
        },
        (RequestStage::AwaitingOnRequest { slot, .. }, RequestEvent::OnRequestDone(Ok(false))) => {
            RequestStage::AwaitingUpstream { slot }
        },
        (RequestStage::AwaitingUpstream { slot }, RequestEvent::UpstreamDone(Ok(()))) => {
            RequestStage::AwaitingOnResponse { slot }
        },
        _ => RequestStage::Finished,
    }
}

/// How far along the pipeline a stage is.
pub open spec fn stage_rank(stage: RequestStage) -> int {
    match stage {
        RequestStage::Routing => 0,
        RequestStage::AwaitingOnRequest { .. } => 1,
        RequestStage::AwaitingUpstream { .. } => 2,
        RequestStage::AwaitingOnResponse { .. } => 3,
        RequestStage::Finished => 4,
    }
}

/// Whether an action sends the request's response.
pub open spec fn answers(action: RequestAction) -> bool {
    action is ReturnModuleResponse || action is ReturnUpstreamResponse || action is ReturnError
}

/// Whether each event fits the stage the events before it led to.
pub open spec fn run_fits(names: Seq<Seq<char>>, stage: RequestStage, events: Seq<RequestEvent>) -> bool
    decreases events.len(),
{
    events.len() == 0 || (event_fits(stage, events[0]) && run_fits(
        names,
        next_request_stage(names, stage, events[0]),
        events.drop_first(),
    ))
}

proof fn lemma_next_stage_advances(names: Seq<Seq<char>>, stage: RequestStage, event: RequestEvent)
    requires
        event_fits(stage, event),
    ensures
        stage_rank(next_request_stage(names, stage, event)) > stage_rank(stage),
{
}

proof fn lemma_run_length(names: Seq<Seq<char>>, stage: RequestStage, events: Seq<RequestEvent>)
    requires
        run_fits(names, stage, events),
    ensures
        events.len() <= 4 - stage_rank(stage),
    decreases events.len(),
{
    if events.len() > 0 {
        lemma_next_stage_advances(names, stage, events[0]);
        lemma_run_length(names, next_request_stage(names, stage, events[0]), events.drop_first());
    }
}

/// An event that fits a stage that is not finished.
pub open spec fn awaited_event(stage: RequestStage) -> RequestEvent {
    match stage {
        RequestStage::Routing => RequestEvent::ConfigRead(None),
        RequestStage::AwaitingOnRequest { .. } => RequestEvent::OnRequestDone(Ok(true)),
        RequestStage::AwaitingUpstream { .. } => RequestEvent::UpstreamDone(Ok(())),
        _ => RequestEvent::OnResponseDone(Ok(())),
    }
}

/// A request keeps the module it was routed to: where the destination's name
/// is registered in slot `k`, routing awaits the request hook of slot `k`
/// with the destination's endpoint, a request that hook lets through waits
/// for the backend on slot `k`, and the backend's answer goes to the response
/// hook of slot `k`, the same module.
pub proof fn lemma_routed_slot_is_kept(names: Seq<Seq<char>>, d: DestinationProvider, k: int)
    requires
        names.len() <= usize::MAX,
        0 <= k < names.len(),
        names[k] == d.name@,
        forall|j: int| 0 <= j < k ==> names[j] != d.name@,
    ensures
        ({
            let s1 = next_request_stage(names, RequestStage::Routing, RequestEvent::ConfigRead(Some(d)));
            let s2 = next_request_stage(names, s1, RequestEvent::OnRequestDone(Ok(false)));
            let s3 = next_request_stage(names, s2, RequestEvent::UpstreamDone(Ok(())));
            &&& s1 matches RequestStage::AwaitingOnRequest { slot, endpoint } && slot == k && endpoint
                == d.endpoint
            &&& s2 matches RequestStage::AwaitingUpstream { slot } && slot == k
            &&& s3 matches RequestStage::AwaitingOnResponse { slot } && slot == k
        }),
{
    lemma_slot_from_first(names, d.name@, 0, k);
}

/// Every request is answered: a stage that is not finished always has an
/// event to wait for, no event fits a finished request, and a run of the
/// pipeline from `Routing` takes at most four reported events, since each
/// event moves the request strictly forward. So the caller's loop ends, and
/// it ends on a step that finishes the request, which is exactly a step
/// whose action sends an answer (see `request_step`): a response, never a
/// failure of the pipeline itself.
pub proof fn lemma_pipeline_answers(names: Seq<Seq<char>>, events: Seq<RequestEvent>)
    requires
        run_fits(names, RequestStage::Routing, events),
    ensures
        events.len() <= 4,
        forall|e: RequestEvent| !event_fits(RequestStage::Finished, e),
        forall|s: RequestStage| !(s is Finished) ==> event_fits(s, #[trigger] awaited_event(s)),
{
    lemma_run_length(names, RequestStage::Routing, events);
}

/// The detail of the error for a destination without a module.
pub open spec fn no_module_message(name: Seq<char>) -> Seq<char> {
    "No module found for destination: "@ + name
}

/// Routes requests to modules by destination name.
pub struct ProxyEngine {
    modules: Vec<String>,
}

impl ProxyEngine {
    /// The names of the registered modules, by slot.
    pub closed spec fn module_names(&self) -> Seq<Seq<char>> {
        self.modules@.map_values(|n: String| n@)
    }

    /// No name is registered twice: the names are the keys of the registry.
    #[verifier::type_invariant]
    closed spec fn names_distinct(&self) -> bool {
        distinct_names(self.module_names())
    }

    /// An engine with no module.
    pub fn new() -> (e: Self)
        ensures
            e.module_names() == Seq::<Seq<char>>::empty(),
            distinct_names(e.module_names()),
    {
        let e = ProxyEngine { modules: Vec::new() };
        assert(e.module_names() =~= Seq::<Seq<char>>::empty());
        e
    }

    /// The slot of the module registered under `name`.
    pub fn module_slot(&self, name: &str) -> (r: Option<usize>)
        ensures
            r is Some <==> name_slot(self.module_names(), name@) is Some,
            r matches Some(k) ==> name_slot(self.module_names(), name@) == Some(k as int),
    {
        let ghost names = self.module_names();
        let mut i: usize = 0;
        while i < self.modules.len()
            invariant
                i <= self.modules@.len(),
                names == self.module_names(),
                names.len() == self.modules@.len(),
                name_slot(names, name@) == slot_from(names, name@, i as int),
            decreases self.modules@.len() - i,
        {
            assert(names[i as int] == self.modules@[i as int]@);
            if str_eq(self.modules[i].as_str(), name) {
                return Some(i);
            }
            i = i + 1;
        }
        None
    }

    /// Registers a module under `name`, and returns its slot: the slot of a
    /// module already registered under that name, whose module it replaces,
    /// or else the next free slot.
    pub fn register_module(&mut self, name: String) -> (slot: usize)
        ensures
            final(self).module_names() == register_name(old(self).module_names(), name@),
            slot == registered_slot(old(self).module_names(), name@),
            distinct_names(final(self).module_names()),
    {
        proof {
            use_type_invariant(&*self);
        }
        match self.module_slot(name.as_str()) {
            Some(k) => k,
            None => {
                let ghost before = self.module_names();
                let mut modules: Vec<String> = Vec::new();
                std::mem::swap(&mut modules, &mut self.modules);
                let slot = modules.len();
                modules.push(name);
                assert(modules@.map_values(|n: String| n@) =~= before.push(name@));
                proof {
                    lemma_register_keeps_names_distinct(before, name@);
                }
                self.modules = modules;
                slot
            },
        }
    }

    /// The pipeline's next move. From `Routing`, the destination is looked
    /// up: a failed configuration read is an internal error, a destination
    /// without a module a configuration error, and otherwise the module's
    /// request hook runs. A request hook that answers ends the pipeline with
    /// its answer; one that lets the request through sends it to the
    /// destination's endpoint, and the response hook runs on the backend's
    /// response, which is then sent. A hook or backend failure ends the
    /// pipeline with its error.
    pub fn request_step(&self, stage: RequestStage, event: RequestEvent) -> (r: (RequestStage, RequestAction))
        requires
            event_fits(stage, event),
        ensures
            r.0 == next_request_stage(self.module_names(), stage, event),
            stage_rank(r.0) > stage_rank(stage),
            r.0 is Finished <==> answers(r.1),
            match (stage, event) {
                (RequestStage::Routing, RequestEvent::ConfigRead(None)) => {
                    r.1 matches RequestAction::ReturnError(e) && e@ == AppErrorView::Internal(
                        "Config lock failed"@,
                    )
                },
                (RequestStage::Routing, RequestEvent::ConfigRead(Some(d))) => match name_slot(
                    self.module_names(),
                    d.name@,
                ) {
                    Some(k) => {
                        &&& r.0 matches RequestStage::AwaitingOnRequest { slot: s, endpoint: target }
                        &&& s == k && target@ == d.endpoint@
                        &&& r.1 matches RequestAction::CallOnRequest { slot } && slot == k
                    },
                    None => r.1 matches RequestAction::ReturnError(e) && e@ == AppErrorView::Config(
                        no_module_message(d.name@),
                    ),
                },
                (
                    RequestStage::AwaitingOnRequest { slot, endpoint },
                    RequestEvent::OnRequestDone(Ok(answered)),
                ) => if answered {
                    r.1 is ReturnModuleResponse
                } else {
                    &&& r.1 matches RequestAction::Forward { endpoint: target } && target == endpoint
                    &&& r.0 matches RequestStage::AwaitingUpstream { slot: s } && s == slot
                },
                (RequestStage::AwaitingOnRequest { .. }, RequestEvent::OnRequestDone(Err(err))) => {
                    r.1 matches RequestAction::ReturnError(e) && e@ == err@
                },
                (RequestStage::AwaitingUpstream { slot }, RequestEvent::UpstreamDone(Ok(()))) => {
                    &&& r.1 matches RequestAction::CallOnResponse { slot: s } && s == slot
                    &&& r.0 matches RequestStage::AwaitingOnResponse { slot: s } && s == slot
                },
                (RequestStage::AwaitingUpstream { .. }, RequestEvent::UpstreamDone(Err(err))) => {
                    r.1 matches RequestAction::ReturnError(e) && e@ == err@
                },
                (RequestStage::AwaitingOnResponse { .. }, RequestEvent::OnResponseDone(Ok(()))) => {
                    r.1 is ReturnUpstreamResponse
                },
                (RequestStage::AwaitingOnResponse { .. }, RequestEvent::OnResponseDone(Err(err))) => {
                    r.1 matches RequestAction::ReturnError(e) && e@ == err@
                },
                _ => false,
            },
    {
        match event {
            RequestEvent::ConfigRead(None) => (
                RequestStage::Finished,
                RequestAction::ReturnError(AppError::Internal("Config lock failed".to_owned())),
            ),
            RequestEvent::ConfigRead(Some(d)) => match self.module_slot(d.name.as_str()) {
                Some(k) => (
                    RequestStage::AwaitingOnRequest { slot: k, endpoint: d.endpoint },
                    RequestAction::CallOnRequest { slot: k },
                ),
                None => (
                    RequestStage::Finished,
                    RequestAction::ReturnError(
                        AppError::Config(
                            concat_str("No module found for destination: ", d.name.as_str()),
                        ),
                    ),
                ),
            },
            RequestEvent::OnRequestDone(Ok(answered)) => {
                if answered {
                    (RequestStage::Finished, RequestAction::ReturnModuleResponse)
                } else {
                    match stage {
                        RequestStage::AwaitingOnRequest { slot, endpoint } => (
                            RequestStage::AwaitingUpstream { slot },
                            RequestAction::Forward { endpoint },
                        ),
                        _ => (RequestStage::Finished, RequestAction::ReturnModuleResponse),
                    }
                }
            },
            RequestEvent::OnRequestDone(Err(e)) => (RequestStage::Finished, RequestAction::ReturnError(e)),
            RequestEvent::UpstreamDone(Ok(())) => match stage {
                RequestStage::AwaitingUpstream { slot } => (
                    RequestStage::AwaitingOnResponse { slot },
                    RequestAction::CallOnResponse { slot },
                ),
                _ => (RequestStage::Finished, RequestAction::ReturnUpstreamResponse),
            },
            RequestEvent::UpstreamDone(Err(e)) => (RequestStage::Finished, RequestAction::ReturnError(e)),
            RequestEvent::OnResponseDone(Ok(())) => (
                RequestStage::Finished,
                RequestAction::ReturnUpstreamResponse,
            ),
            RequestEvent::OnResponseDone(Err(e)) => (RequestStage::Finished, RequestAction::ReturnError(e)),
        }
    }
}

} // verus!
