//! Which tracers the gateway sets up, and for whom.
//!
//! Spans of the gateway go to one tracer provider. A compute driver that runs
//! inside the gateway process may have a provider of its own, and its spans
//! are then kept out of the gateway's. Building providers and installing the
//! subscriber is passed in; the providers `P` and setup errors `E` are not
//! looked into.

use vstd::prelude::*;

verus! {

/// How an in-process compute driver is traced.
#[derive(Clone, Copy, Debug, PartialEq, Eq)]
pub struct ComputeDriverTracing {
    compute_driver: &'static str,
}

impl ComputeDriverTracing {
    /// The name of the driver.
    pub closed spec fn driver_name(self) -> &'static str {
        self.compute_driver
    }

    /// The tracing of the driver of that name.
    pub fn new(compute_driver: &'static str) -> (tracing: Self)
        ensures
            tracing.driver_name() == compute_driver,
    {
        ComputeDriverTracing { compute_driver }
    }

    /// The name of the driver.
    pub fn compute_driver(&self) -> (name: &'static str)
        ensures
            name == self.driver_name(),
    {
        self.compute_driver
    }
}

/// A compute driver that is built into the gateway.
#[derive(Clone, Debug, PartialEq, Eq)]
pub struct ComputeDriverRegistration {
    pub name: String,
    /// How the driver is traced if it runs in this process.
    pub in_process_tracing: Option<ComputeDriverTracing>,
}

/// The compute driver that the gateway is configured with.
#[derive(Clone, Debug, PartialEq, Eq)]
pub enum ConfiguredComputeDriver {
    /// A driver that is built in.
    Registered(ComputeDriverRegistration),
    /// A driver that runs elsewhere.
    Remote { name: String },
}

/// Where traces are sent to.
#[derive(Clone, Debug, PartialEq, Eq)]
pub struct OtlpConfig {
    pub endpoint: String,
}

/// What traces say about the gateway.
#[derive(Clone, Copy, Debug, PartialEq, Eq)]
pub struct GatewayResourceAttributes<'a> {
    pub name: &'a str,
    pub compute_driver: &'a str,
}

/// The tracing of the configured driver: what a built-in driver registered
/// for itself, and nothing for one that runs elsewhere.
pub open spec fn selected_tracing(driver: ConfiguredComputeDriver) -> Option<ComputeDriverTracing> {
    match driver {
        ConfiguredComputeDriver::Registered(registration) => registration.in_process_tracing,
        ConfiguredComputeDriver::Remote { .. } => None,
    }
}

/// Finds out how the configured driver is traced in this process.
pub fn in_process_driver_tracing(driver: &ConfiguredComputeDriver) -> (tracing: Option<
    ComputeDriverTracing,
>)
    ensures
        tracing == selected_tracing(*driver),
{
    match driver {
        ConfiguredComputeDriver::Registered(registration) => registration.in_process_tracing,
        ConfiguredComputeDriver::Remote { .. } => None,
    }
}

/// The endpoint that a driver sends its traces to: the configured one, if a
/// driver is traced at all.
pub open spec fn endpoint_for(driver: Option<ComputeDriverTracing>, config: Option<OtlpConfig>) -> Option<
    Seq<char>,
> {
    match (driver, config) {
        (Some(_), Some(config)) => Some(config.endpoint@),
        _ => None,
    }
}

/// The text of an optional string slice.
pub open spec fn slice_text(slice: Option<&str>) -> Option<Seq<char>> {
    match slice {
        Some(text) => Some(text@),
        None => None,
    }
}

/// The value that an optional reference refers to.
pub open spec fn referent<A>(reference: Option<&A>) -> Option<A> {
    match reference {
        Some(value) => Some(*value),
        None => None,
    }
}

/// Finds the endpoint that a driver sends its traces to.
pub fn driver_endpoint<'a>(
    driver: &Option<ComputeDriverTracing>,
    otlp_config: Option<&'a OtlpConfig>,
) -> (endpoint: Option<&'a str>)
    ensures
        slice_text(endpoint) == endpoint_for(*driver, referent(otlp_config)),
        endpoint is Some <==> driver is Some && otlp_config is Some,
        endpoint is Some ==> endpoint->0@ == otlp_config->0.endpoint@,
{
    match driver {
        Some(_) => match otlp_config {
            Some(config) => Some(config.endpoint.as_str()),
            None => None,
        },
        None => None,
    }
}

/// What a provider for a driver's traces is made from.
#[derive(Clone, Copy, Debug, PartialEq, Eq)]
pub struct DriverProviderRequest<'a> {
    pub driver: ComputeDriverTracing,
    pub endpoint: Option<&'a str>,
    pub version: &'a str,
    pub gateway_name: &'a str,
    pub compute_driver: &'a str,
}

/// The request asks for the driver's provider, with the gateway's attributes.
pub open spec fn requests_provider(
    request: DriverProviderRequest<'_>,
    driver: ComputeDriverTracing,
    endpoint: Option<Seq<char>>,
    version: &str,
    gateway: GatewayResourceAttributes<'_>,
) -> bool {
    &&& request.driver == driver
    &&& slice_text(request.endpoint) == endpoint
    &&& request.version == version
    &&& request.gateway_name == gateway.name
    &&& request.compute_driver == gateway.compute_driver
}

/// The provider and setup error of a driver: none of either without a traced
/// driver, and what `provider_for` made of the request with one.
pub open spec fn driver_provided<'a, P, E, B>(
    driver: Option<ComputeDriverTracing>,
    endpoint: Option<Seq<char>>,
    version: &'a str,
    gateway: GatewayResourceAttributes<'a>,
    provider_for: B,
    provided: (Option<P>, Option<E>),
) -> bool where B: FnOnce(DriverProviderRequest<'a>) -> (Option<P>, Option<E>) {
    match driver {
        None => provided.0 is None && provided.1 is None,
        Some(driver) => exists|request: DriverProviderRequest<'a>| #[trigger]
            call_ensures(provider_for, (request,), provided) && requests_provider(
                request,
                driver,
                endpoint,
                version,
                gateway,
            ),
    }
}

/// Makes the provider of an in-process driver, if one is traced.
pub fn in_process_driver_provider<'a, P, E, B>(
    driver: Option<ComputeDriverTracing>,
    endpoint: Option<&'a str>,
    version: &'a str,
    gateway: GatewayResourceAttributes<'a>,
    provider_for: B,
) -> (provided: (Option<P>, Option<E>)) where
    B: FnOnce(DriverProviderRequest<'a>) -> (Option<P>, Option<E>),

    requires
        forall|request: DriverProviderRequest<'a>|
            driver is Some && requests_provider(
                request,
                driver->0,
                slice_text(endpoint),
                version,
                gateway,
            ) ==> call_requires(provider_for, (request,)),
    ensures
        driver_provided(driver, slice_text(endpoint), version, gateway, provider_for, provided),
{
    match driver {
        None => (None, None),
        Some(descriptor) => {
            let request = DriverProviderRequest {
                driver: descriptor,
                endpoint,
                version,
                gateway_name: gateway.name,
                compute_driver: gateway.compute_driver,
            };
            assert(requests_provider(request, descriptor, slice_text(endpoint), version, gateway));
            provider_for(request)
        },
    }
}

/// A driver has a provider or a setup error only if it is traced in this
/// process; so a provider always comes with the driver that it is for.
pub proof fn law_provider_comes_with_driver<'a, P, E, B>(
    driver: Option<ComputeDriverTracing>,
    endpoint: Option<Seq<char>>,
    version: &'a str,
    gateway: GatewayResourceAttributes<'a>,
    provider_for: B,
    provided: (Option<P>, Option<E>),
) where B: FnOnce(DriverProviderRequest<'a>) -> (Option<P>, Option<E>)
    requires
        driver_provided(driver, endpoint, version, gateway, provider_for, provided),
    ensures
        provided.0 is Some || provided.1 is Some ==> driver is Some,
{
}

/// Makes the layer that sends a driver's spans to its provider, if it has
/// one. A provider is only there for a traced driver.
pub fn in_process_driver_layer<'a, P, L, B>(
    provider: &'a Option<P>,
    driver: Option<ComputeDriverTracing>,
    layer: B,
) -> (result: Option<L>) where B: FnOnce(ComputeDriverTracing, &'a P) -> L
    requires
        provider is Some ==> driver is Some && call_requires(layer, (driver->0, &provider->0)),
    ensures
        match *provider {
            None => result is None,
            Some(provider) => result is Some && call_ensures(
                layer,
                (driver->0, &provider),
                result->0,
            ),
        },
{
    match provider {
        None => None,
        Some(provider) => match driver {
            Some(descriptor) => Some(layer(descriptor, provider)),
            None => None,
        },
    }
}

/// The error that is reported of two: the gateway's before the driver's.
pub open spec fn reported_error<E>(gateway: Option<E>, driver: Option<E>) -> Option<E> {
    if gateway is Some {
        gateway
    } else {
        driver
    }
}

/// The tracer providers of a running gateway.
pub struct TracingHandle<P> {
    tracer_provider: Option<P>,
    driver_tracer_provider: Option<P>,
}

/// Whose spans a tracer provider takes.
#[derive(Clone, Copy, Debug, PartialEq, Eq, Structural)]
pub enum TracerOwner {
    Gateway,
    Driver,
}

/// The provider with its owner, if it is there.
pub open spec fn owned<P>(owner: TracerOwner, provider: Option<P>) -> Seq<(TracerOwner, P)> {
    match provider {
        Some(provider) => seq![(owner, provider)],
        None => Seq::empty(),
    }
}

/// Shutting one provider down takes the state before to the state after:
/// `stop` is called once, and `warn` once behind it where it fails.
pub open spec fn stopped<P, S, E, F, W>(
    entry: (TracerOwner, P),
    stop: F,
    warn: W,
    before: S,
    after: S,
) -> bool where F: Fn(S, &P) -> (S, Result<(), E>), W: Fn(S, TracerOwner, E) -> S {
    exists|end: (S, Result<(), E>)| #[trigger]
        call_ensures(stop, (before, &entry.1), end) && match end.1 {
            Ok(_) => after == end.0,
            Err(error) => call_ensures(warn, (end.0, entry.0, error), after),
        }
}

/// Shutting the providers down one after the other, in order and each once,
/// takes the state before to the state after.
pub open spec fn all_stopped<P, S, E, F, W>(
    entries: Seq<(TracerOwner, P)>,
    stop: F,
    warn: W,
    before: S,
    after: S,
) -> bool where F: Fn(S, &P) -> (S, Result<(), E>), W: Fn(S, TracerOwner, E) -> S
    decreases entries.len(),
{
    if entries.len() == 0 {
        after == before
    } else {
        exists|middle: S|
            all_stopped(entries.drop_last(), stop, warn, before, middle) && #[trigger] stopped(
                entries.last(),
                stop,
                warn,
                middle,
                after,
            )
    }
}

/// The entries of a list of references.
pub open spec fn entries_of<P>(list: Seq<(TracerOwner, &P)>) -> Seq<(TracerOwner, P)> {
    list.map_values(|entry: (TracerOwner, &P)| (entry.0, *entry.1))
}

impl<P> TracingHandle<P> {
    /// The provider of the gateway.
    pub closed spec fn gateway_provider(self) -> Option<P> {
        self.tracer_provider
    }

    /// The provider of the in-process driver.
    pub closed spec fn driver_provider(self) -> Option<P> {
        self.driver_tracer_provider
    }

    /// The providers that are there, in the order in which they are shut
    /// down: the gateway's first.
    pub open spec fn stop_order(self) -> Seq<(TracerOwner, P)> {
        owned(TracerOwner::Gateway, self.gateway_provider()) + owned(
            TracerOwner::Driver,
            self.driver_provider(),
        )
    }

    /// Lists the providers to shut down, in order and each once.
    pub fn providers_to_stop(&self) -> (list: Vec<(TracerOwner, &P)>)
        ensures
            entries_of(list@) == self.stop_order(),
    {
        let mut list: Vec<(TracerOwner, &P)> = Vec::new();
        match &self.tracer_provider {
            Some(provider) => {
                list.push((TracerOwner::Gateway, provider));
            },
            None => {},
        }
        match &self.driver_tracer_provider {
            Some(provider) => {
                list.push((TracerOwner::Driver, provider));
            },
            None => {},
        }
        assert(entries_of(list@) =~= self.stop_order());
        list
    }

    /// Shuts each provider down once, the gateway's first, and the driver's
    /// also where the gateway's fails. A failure is handed to `warn`, and
    /// nothing else comes of it. What the calls do is kept in a state that
    /// goes from call to call.
    pub fn shutdown<S, E, F, W>(&self, state: S, stop: F, warn: W) -> (after: S) where
        F: Fn(S, &P) -> (S, Result<(), E>),
        W: Fn(S, TracerOwner, E) -> S,

        requires
            forall|state: S, i: int|
                0 <= i < self.stop_order().len() ==> #[trigger] call_requires(
                    stop,
                    (state, &self.stop_order()[i].1),
                ),
            forall|state: S, i: int, end: (S, Result<(), E>)|
                0 <= i < self.stop_order().len() && #[trigger] call_ensures(
                    stop,
                    (state, &self.stop_order()[i].1),
                    end,
                ) && end.1 is Err ==> call_requires(
                    warn,
                    (end.0, self.stop_order()[i].0, end.1->Err_0),
                ),
        ensures
            all_stopped(self.stop_order(), stop, warn, state, after),
    {
        let list = self.providers_to_stop();
        let ghost entries = self.stop_order();
        let ghost start = state;
        let mut state = state;
        assert(entries.take(0) =~= Seq::empty());
        for i in 0..list.len()
            invariant
                entries == self.stop_order(),
                entries_of(list@) == entries,
                all_stopped(entries.take(i as int), stop, warn, start, state),
                forall|state: S, i: int|
                    0 <= i < entries.len() ==> #[trigger] call_requires(
                        stop,
                        (state, &entries[i].1),
                    ),
                forall|state: S, i: int, end: (S, Result<(), E>)|
                    0 <= i < entries.len() && #[trigger] call_ensures(
                        stop,
                        (state, &entries[i].1),
                        end,
                    ) && end.1 is Err ==> call_requires(
                        warn,
                        (end.0, entries[i].0, end.1->Err_0),
                    ),
        {
            let (owner, provider) = list[i];
            let ghost middle = state;
            assert(entries[i as int] == (owner, *provider));
            assert(entries.take(i + 1).drop_last() =~= entries.take(i as int));
            assert(call_requires(stop, (state, &entries[i as int].1)));
            let (next, result) = stop(state, provider);
            assert(call_ensures(stop, (middle, &entries[i as int].1), (next, result)));
            match result {
                Ok(_) => {
                    state = next;
                },
                Err(error) => {
                    state = warn(next, owner, error);
                },
            }
            assert(entries.take(i + 1).last() == entries[i as int]);
            assert(stopped(entries.take(i + 1).last(), stop, warn, middle, state));
        }
        assert(entries.take(entries.len() as int) =~= entries);
        state
    }
}

/// With two providers, the gateway's is shut down first and the driver's is
/// shut down after it, whether that failed or not; with one, that one is; and
/// with none, nothing happens.
pub proof fn law_gateway_stops_first<P, S, E, F, W>(
    handle: TracingHandle<P>,
    stop: F,
    warn: W,
    before: S,
    after: S,
) where F: Fn(S, &P) -> (S, Result<(), E>), W: Fn(S, TracerOwner, E) -> S
    requires
        all_stopped(handle.stop_order(), stop, warn, before, after),
    ensures
        match (handle.gateway_provider(), handle.driver_provider()) {
            (None, None) => after == before,
            (Some(gateway), None) => stopped(
                (TracerOwner::Gateway, gateway),
                stop,
                warn,
                before,
                after,
            ),
            (None, Some(driver)) => stopped(
                (TracerOwner::Driver, driver),
                stop,
                warn,
                before,
                after,
            ),
            (Some(gateway), Some(driver)) => exists|middle: S| #[trigger]
                stopped((TracerOwner::Gateway, gateway), stop, warn, before, middle) && stopped(
                    (TracerOwner::Driver, driver),
                    stop,
                    warn,
                    middle,
                    after,
                ),
        },
{
    reveal_with_fuel(all_stopped, 3);
    let entries = handle.stop_order();
    match (handle.gateway_provider(), handle.driver_provider()) {
        (None, None) => {},
        (Some(gateway), None) => {
            assert(entries =~= seq![(TracerOwner::Gateway, gateway)]);
        },
        (None, Some(driver)) => {
            assert(entries =~= seq![(TracerOwner::Driver, driver)]);
        },
        (Some(gateway), Some(driver)) => {
            assert(entries =~= seq![(TracerOwner::Gateway, gateway), (TracerOwner::Driver, driver)]);
            assert(entries.drop_last() =~= seq![(TracerOwner::Gateway, gateway)]);
        },
    }
}

/// The layers of the subscriber that send spans to a provider.
pub struct LayerPlan<'a, P> {
    /// The gateway's provider, and the driver whose spans are kept out of it.
    pub gateway: Option<(&'a P, Option<ComputeDriverTracing>)>,
    /// The driver's provider.
    pub driver: Option<(&'a P, ComputeDriverTracing)>,
}

/// The plan gives each provider that is there its layer.
pub open spec fn plans_layers<P>(
    plan: LayerPlan<'_, P>,
    gateway_provider: Option<P>,
    driver_provider: Option<P>,
    selected: Option<ComputeDriverTracing>,
) -> bool {
    &&& match gateway_provider {
        None => plan.gateway is None,
        Some(provider) => plan.gateway == Some((&provider, selected)),
    }
    &&& match driver_provider {
        None => plan.driver is None,
        Some(provider) => plan.driver == Some((&provider, selected->0)),
    }
}

/// The layer of a driver with a provider.
fn driver_layer_of<'a, P>(driver: ComputeDriverTracing, provider: &'a P) -> (layer: (
    &'a P,
    ComputeDriverTracing,
))
    ensures
        layer == (provider, driver),
{
    (provider, driver)
}

/// Sets tracing up: makes the gateway's provider and that of a traced driver,
/// and installs the subscriber with a layer for each, in this order. The
/// errors of making them do not stop it; the first is handed back.
pub fn install<'a, P, E, G, D, S>(
    otlp_config: Option<&'a OtlpConfig>,
    driver: &ConfiguredComputeDriver,
    version: &'a str,
    gateway: GatewayResourceAttributes<'a>,
    gateway_provider_for: G,
    driver_provider_for: D,
    subscribe: S,
) -> (installed: (TracingHandle<P>, Option<E>)) where
    G: FnOnce(Option<&'a OtlpConfig>, GatewayResourceAttributes<'a>) -> (Option<P>, Option<E>),
    D: FnOnce(DriverProviderRequest<'a>) -> (Option<P>, Option<E>),
    S: FnOnce(LayerPlan<'_, P>),

    requires
        call_requires(gateway_provider_for, (otlp_config, gateway)),
        forall|request: DriverProviderRequest<'a>, own: (Option<P>, Option<E>)|
            #[trigger] call_ensures(gateway_provider_for, (otlp_config, gateway), own)
                && selected_tracing(*driver) is Some && #[trigger] requests_provider(
                request,
                selected_tracing(*driver)->0,
                endpoint_for(selected_tracing(*driver), referent(otlp_config)),
                version,
                gateway,
            ) ==> call_requires(driver_provider_for, (request,)),
        forall|plan: LayerPlan<'_, P>, own: (Option<P>, Option<E>), other: (Option<P>, Option<E>)|
            #[trigger] call_ensures(gateway_provider_for, (otlp_config, gateway), own)
                && #[trigger] driver_provided(
                selected_tracing(*driver),
                endpoint_for(selected_tracing(*driver), referent(otlp_config)),
                version,
                gateway,
                driver_provider_for,
                other,
            ) && #[trigger] plans_layers(plan, own.0, other.0, selected_tracing(*driver))
                ==> call_requires(subscribe, (plan,)),
    ensures
        exists|own: (Option<P>, Option<E>), other: (Option<P>, Option<E>)|
            {
                &&& #[trigger] call_ensures(gateway_provider_for, (otlp_config, gateway), own)
                &&& #[trigger] driver_provided(
                    selected_tracing(*driver),
                    endpoint_for(selected_tracing(*driver), referent(otlp_config)),
                    version,
                    gateway,
                    driver_provider_for,
                    other,
                )
                &&& installed.0.gateway_provider() == own.0
                &&& installed.0.driver_provider() == other.0
                &&& installed.1 == reported_error(own.1, other.1)
            },
        exists|plan: LayerPlan<'_, P>| #[trigger]
            call_ensures(subscribe, (plan,), ()) && plans_layers(
                plan,
                installed.0.gateway_provider(),
                installed.0.driver_provider(),
                selected_tracing(*driver),
            ),
{
    let own = gateway_provider_for(otlp_config, gateway);
    let selected = in_process_driver_tracing(driver);
    let endpoint = driver_endpoint(&selected, otlp_config);
    let other = in_process_driver_provider(selected, endpoint, version, gateway, driver_provider_for);
    assert(driver_provided(
        selected,
        endpoint_for(selected, referent(otlp_config)),
        version,
        gateway,
        driver_provider_for,
        other,
    ));
    let (tracer_provider, setup_error) = own;
    let (driver_tracer_provider, driver_setup_error) = other;
    let handle = TracingHandle { tracer_provider, driver_tracer_provider };
    let gateway_layer = match &handle.tracer_provider {
        Some(provider) => Some((provider, selected)),
        None => None,
    };
    let driver_layer = in_process_driver_layer(
        &handle.driver_tracer_provider,
        selected,
        driver_layer_of,
    );
    let plan = LayerPlan { gateway: gateway_layer, driver: driver_layer };
    assert(plans_layers(plan, own.0, other.0, selected));
    subscribe(plan);
    let error = match setup_error {
        Some(error) => Some(error),
        None => driver_setup_error,
    };
    (handle, error)
}

/// The tracing of a built-in driver is the one it registered, and a driver
/// that runs elsewhere has none.
pub proof fn law_registered_tracing_is_selected(
    registration: ComputeDriverRegistration,
    name: String,
)
    ensures
        selected_tracing(ConfiguredComputeDriver::Registered(registration))
            == registration.in_process_tracing,
        selected_tracing(ConfiguredComputeDriver::Remote { name }) is None,
{
}

/// A traced driver sends to the configured endpoint, whatever its text; only
/// without a configuration, or without a traced driver, there is none.
pub proof fn law_traced_driver_sends_to_configured_endpoint(
    tracing: ComputeDriverTracing,
    config: OtlpConfig,
)
    ensures
        endpoint_for(Some(tracing), Some(config)) == Some(config.endpoint@),
        endpoint_for(Some(tracing), None) is None,
        endpoint_for(None, Some(config)) is None,
        endpoint_for(None, None) is None,
{
}

/// What stands behind optional references and slices.
pub proof fn law_optional_references_show_their_values<A>(value: &A, text: &str)
    ensures
        referent(Some(value)) == Some(*value),
        referent::<A>(None) is None,
        slice_text(Some(text)) == Some(text@),
        slice_text(None) is None,
{
}

/// The provider of a traced driver is made by one request, which carries the
/// driver, the configured endpoint, the version and the gateway's attributes
/// as they are. Without a traced driver nothing is made and nothing fails.
pub proof fn law_driver_provider_is_made_as_configured<'a, P, E, B>(
    driver: ConfiguredComputeDriver,
    otlp_config: Option<&'a OtlpConfig>,
    version: &'a str,
    gateway: GatewayResourceAttributes<'a>,
    provider_for: B,
    provided: (Option<P>, Option<E>),
) where B: FnOnce(DriverProviderRequest<'a>) -> (Option<P>, Option<E>)
    requires
        driver_provided(
            selected_tracing(driver),
            endpoint_for(selected_tracing(driver), referent(otlp_config)),
            version,
            gateway,
            provider_for,
            provided,
        ),
    ensures
        match driver {
            ConfiguredComputeDriver::Remote { .. } => provided.0 is None && provided.1 is None,
            ConfiguredComputeDriver::Registered(registration) => {
                match registration.in_process_tracing {
                    None => provided.0 is None && provided.1 is None,
                    Some(tracing) => exists|request: DriverProviderRequest<'a>|
                        {
                            &&& #[trigger] call_ensures(provider_for, (request,), provided)
                            &&& request.driver == tracing
                            &&& request.endpoint is Some <==> otlp_config is Some
                            &&& otlp_config is Some ==> request.endpoint->0@
                                == otlp_config->0.endpoint@
                            &&& request.version == version
                            &&& request.gateway_name == gateway.name
                            &&& request.compute_driver == gateway.compute_driver
                        },
                }
            },
        },
{
    if selected_tracing(driver) is Some {
        let request = choose|request: DriverProviderRequest<'a>| #[trigger]
            call_ensures(provider_for, (request,), provided) && requests_provider(
                request,
                selected_tracing(driver)->0,
                endpoint_for(selected_tracing(driver), referent(otlp_config)),
                version,
                gateway,
            );
        assert(call_ensures(provider_for, (request,), provided));
        assert(slice_text(request.endpoint) is Some <==> request.endpoint is Some);
    }
}

/// The gateway's error is reported wherever there is one, and the driver's
/// only otherwise.
pub proof fn law_gateway_error_comes_first<E>(error: E, other: Option<E>)
    ensures
        reported_error(Some(error), other) == Some(error),
        reported_error(None, other) == other,
{
}

/// Each provider has its layer, and nothing else has one. The gateway's layer
/// leaves out the spans of the traced driver; the driver's layer is for it.
pub proof fn law_each_provider_has_its_layer<P>(
    plan: LayerPlan<'_, P>,
    gateway_provider: Option<P>,
    driver_provider: Option<P>,
    selected: Option<ComputeDriverTracing>,
)
    requires
        plans_layers(plan, gateway_provider, driver_provider, selected),
    ensures
        plan.gateway is Some <==> gateway_provider is Some,
        gateway_provider is Some ==> *(plan.gateway->0).0 == gateway_provider->0 && (plan.gateway->0).1
            == selected,
        plan.driver is Some <==> driver_provider is Some,
        driver_provider is Some ==> *(plan.driver->0).0 == driver_provider->0 && (selected is Some
            ==> (plan.driver->0).1 == selected->0),
{
}

/// Shutting one provider down calls `stop` with it; where that fails, `warn`
/// is called with the error and with the provider's owner, and otherwise
/// nothing more is done.
pub proof fn law_stopping_one_provider<P, S, E, F, W>(
    owner: TracerOwner,
    provider: P,
    stop: F,
    warn: W,
    before: S,
    after: S,
) where F: Fn(S, &P) -> (S, Result<(), E>), W: Fn(S, TracerOwner, E) -> S
    ensures
        stopped((owner, provider), stop, warn, before, after) <==> {
            ||| exists|done: ()| #[trigger]
                call_ensures(stop, (before, &provider), (after, Ok::<(), E>(done)))
            ||| exists|middle: S, error: E| #[trigger]
                call_ensures(stop, (before, &provider), (middle, Err::<(), E>(error)))
                    && call_ensures(warn, (middle, owner, error), after)
        },
{
    if stopped((owner, provider), stop, warn, before, after) {
        let end = choose|end: (S, Result<(), E>)| #[trigger]
            call_ensures(stop, (before, &provider), end) && match end.1 {
                Ok(_) => after == end.0,
                Err(error) => call_ensures(warn, (end.0, owner, error), after),
            };
        match end.1 {
            Ok(done) => {
                assert(end == (after, Ok::<(), E>(done)));
                assert(call_ensures(stop, (before, &provider), (after, Ok::<(), E>(done))));
            },
            Err(error) => {
                assert(end == (end.0, Err::<(), E>(error)));
                assert(call_ensures(stop, (before, &provider), (end.0, Err::<(), E>(error))));
            },
        }
    }
}

/// The providers that are there are the ones to stop, the gateway's first.
pub proof fn law_providers_to_stop<P>(handle: TracingHandle<P>)
    ensures
        match (handle.gateway_provider(), handle.driver_provider()) {
            (None, None) => handle.stop_order().len() == 0,
            (Some(gateway), None) => handle.stop_order() == seq![(TracerOwner::Gateway, gateway)],
            (None, Some(driver)) => handle.stop_order() == seq![(TracerOwner::Driver, driver)],
            (Some(gateway), Some(driver)) => handle.stop_order() == seq![
                (TracerOwner::Gateway, gateway),
                (TracerOwner::Driver, driver),
            ],
        },
{
    match (handle.gateway_provider(), handle.driver_provider()) {
        (None, None) => {},
        (Some(gateway), None) => {
            assert(handle.stop_order() =~= seq![(TracerOwner::Gateway, gateway)]);
        },
        (None, Some(driver)) => {
            assert(handle.stop_order() =~= seq![(TracerOwner::Driver, driver)]);
        },
        (Some(gateway), Some(driver)) => {
            assert(handle.stop_order() =~= seq![
                (TracerOwner::Gateway, gateway),
                (TracerOwner::Driver, driver),
            ]);
        },
    }
}

/// A list of providers shows each of them with its owner, at its place.
pub proof fn law_provider_list_shows_its_entries<P>(list: Seq<(TracerOwner, &P)>)
    ensures
        entries_of(list).len() == list.len(),
        forall|i: int|
            0 <= i < list.len() ==> (#[trigger] entries_of(list)[i]).0 == list[i].0
                && entries_of(list)[i].1 == *list[i].1,
{
}

} // verus!
