use openshell_core::tracing_setup::{
    driver_endpoint, in_process_driver_layer, in_process_driver_provider,
    in_process_driver_tracing, install, ComputeDriverRegistration, ComputeDriverTracing,
    ConfiguredComputeDriver, DriverProviderRequest, GatewayResourceAttributes, LayerPlan,
    OtlpConfig, TracerOwner, TracingHandle,
};
use std::cell::RefCell;

fn descriptor(name: &str) -> Option<ComputeDriverTracing> {
    match name {
        "podman" => Some(ComputeDriverTracing::new("podman")),
        "docker" => Some(ComputeDriverTracing::new("docker")),
        "kubernetes" => Some(ComputeDriverTracing::new("kubernetes")),
        _ => None,
    }
}

fn registered(name: &str) -> ConfiguredComputeDriver {
    ConfiguredComputeDriver::Registered(ComputeDriverRegistration {
        name: name.to_string(),
        in_process_tracing: descriptor(name),
    })
}

fn remote() -> ConfiguredComputeDriver {
    ConfiguredComputeDriver::Remote {
        name: "custom".to_string(),
    }
}

const GATEWAY: GatewayResourceAttributes<'static> = GatewayResourceAttributes {
    name: "gateway",
    compute_driver: "docker",
};

fn config() -> OtlpConfig {
    OtlpConfig {
        endpoint: "http://collector:4317".to_string(),
    }
}

#[test]
fn in_process_driver_tracing_selects_registered_compute_drivers() {
    assert_eq!(
        in_process_driver_tracing(&registered("podman")),
        Some(ComputeDriverTracing::new("podman"))
    );
    assert_eq!(
        in_process_driver_tracing(&registered("docker")),
        Some(ComputeDriverTracing::new("docker"))
    );
    assert_eq!(
        in_process_driver_tracing(&registered("kubernetes")),
        Some(ComputeDriverTracing::new("kubernetes"))
    );
    for name in ["podman", "docker", "kubernetes"] {
        let descriptor = in_process_driver_tracing(&registered(name))
            .unwrap_or_else(|| panic!("{name} registers an in-process descriptor"));
        assert_eq!(
            descriptor.compute_driver(),
            name,
            "{name} must register its own descriptor"
        );
    }
    assert_eq!(in_process_driver_tracing(&registered("vm")), None);
    assert_eq!(
        in_process_driver_tracing(&ConfiguredComputeDriver::Remote {
            name: "custom".to_string(),
        }),
        None
    );
}

#[test]
fn endpoints_are_for_traced_drivers() {
    let config = config();
    assert_eq!(
        driver_endpoint(&descriptor("docker"), Some(&config)),
        Some("http://collector:4317")
    );
    assert_eq!(driver_endpoint(&descriptor("docker"), None), None);
    assert_eq!(driver_endpoint(&None, Some(&config)), None);
}

#[test]
fn driver_providers_are_asked_for_with_the_gateway_attributes() {
    let provided: (Option<u8>, Option<String>) = in_process_driver_provider(
        descriptor("podman"),
        Some("endpoint"),
        "1.2.3",
        GATEWAY,
        |request: DriverProviderRequest<'_>| {
            assert_eq!(request.driver.compute_driver(), "podman");
            assert_eq!(request.endpoint, Some("endpoint"));
            assert_eq!(request.version, "1.2.3");
            assert_eq!(request.gateway_name, "gateway");
            assert_eq!(request.compute_driver, "docker");
            (Some(3), Some("late".to_string()))
        },
    );
    assert_eq!(provided, (Some(3), Some("late".to_string())));
    let nothing: (Option<u8>, Option<String>) =
        in_process_driver_provider(None, Some("endpoint"), "1.2.3", GATEWAY, |_| {
            panic!("no driver is traced")
        });
    assert_eq!(nothing, (None, None));
}

#[test]
fn driver_layers_come_with_a_provider() {
    let pair = |driver: ComputeDriverTracing, provider: &u8| (driver.compute_driver(), *provider);
    assert_eq!(
        in_process_driver_layer(&Some(4u8), descriptor("docker"), pair),
        Some(("docker", 4))
    );
    assert_eq!(in_process_driver_layer(&None, descriptor("docker"), pair), None);
    assert_eq!(in_process_driver_layer(&None, None, pair), None);
}

type Provided = (Option<&'static str>, Option<&'static str>);

/// Installs with the given providers and errors, and hands back the planned
/// layers beside the result.
#[allow(clippy::type_complexity)]
fn installed(
    driver: &ConfiguredComputeDriver,
    own: Provided,
    other: Provided,
) -> (
    TracingHandle<&'static str>,
    Option<&'static str>,
    Option<(&'static str, Option<ComputeDriverTracing>)>,
    Option<(&'static str, ComputeDriverTracing)>,
) {
    let config = config();
    let layers = RefCell::new((None, None));
    let (handle, error) = install(
        Some(&config),
        driver,
        "4.5.6",
        GATEWAY,
        |given: Option<&OtlpConfig>, gateway: GatewayResourceAttributes<'_>| {
            assert_eq!(given.unwrap().endpoint, "http://collector:4317");
            assert_eq!(gateway.name, "gateway");
            own
        },
        |request: DriverProviderRequest<'_>| {
            assert_eq!(request.endpoint, Some("http://collector:4317"));
            assert_eq!(request.version, "4.5.6");
            other
        },
        |plan: LayerPlan<'_, &'static str>| {
            *layers.borrow_mut() = (
                plan.gateway.map(|(provider, driver)| (*provider, driver)),
                plan.driver.map(|(provider, driver)| (*provider, driver)),
            );
        },
    );
    let (gateway, driver) = layers.into_inner();
    (handle, error, gateway, driver)
}

#[test]
fn each_provider_gets_its_layer() {
    let docker = ComputeDriverTracing::new("docker");
    let (_, error, gateway, driver) =
        installed(&registered("docker"), (Some("own"), None), (Some("other"), None));
    assert_eq!(error, None);
    assert_eq!(gateway, Some(("own", Some(docker))));
    assert_eq!(driver, Some(("other", docker)));

    let (_, _, gateway, driver) =
        installed(&remote(), (Some("own"), None), (Some("unasked"), None));
    assert_eq!(gateway, Some(("own", None)));
    assert_eq!(driver, None);

    let (_, _, gateway, driver) =
        installed(&registered("docker"), (None, None), (Some("other"), None));
    assert_eq!(gateway, None);
    assert_eq!(driver, Some(("other", docker)));

    let (_, _, gateway, driver) = installed(&registered("docker"), (None, None), (None, None));
    assert_eq!(gateway, None);
    assert_eq!(driver, None);
}

#[test]
fn the_gateway_error_is_reported_first() {
    let docker = registered("docker");
    let error = |driver: &ConfiguredComputeDriver, own: Provided, other: Provided| {
        installed(driver, own, other).1
    };
    assert_eq!(error(&docker, (None, Some("own")), (None, Some("other"))), Some("own"));
    assert_eq!(error(&docker, (None, None), (None, Some("other"))), Some("other"));
    assert_eq!(error(&docker, (None, Some("own")), (None, None)), Some("own"));
    assert_eq!(error(&remote(), (None, None), (None, Some("other"))), None);
}

/// Shuts down with a log of what was called, in order.
fn shut_down(handle: &TracingHandle<&'static str>, failing: &[&str]) -> Vec<String> {
    handle.shutdown(
        Vec::new(),
        |mut log: Vec<String>, provider: &&'static str| {
            log.push(format!("stop {provider}"));
            if failing.contains(provider) {
                (log, Err(format!("{provider} failed")))
            } else {
                (log, Ok(()))
            }
        },
        |mut log: Vec<String>, owner: TracerOwner, error: String| {
            log.push(format!("warn {owner:?}: {error}"));
            log
        },
    )
}

#[test]
fn shutdown_goes_on_after_a_failure() {
    let (handle, _, _, _) =
        installed(&registered("docker"), (Some("own"), None), (Some("other"), None));
    assert_eq!(shut_down(&handle, &[]), vec!["stop own", "stop other"]);
    assert_eq!(
        shut_down(&handle, &["own"]),
        vec!["stop own", "warn Gateway: own failed", "stop other"]
    );
    assert_eq!(
        shut_down(&handle, &["own", "other"]),
        vec![
            "stop own",
            "warn Gateway: own failed",
            "stop other",
            "warn Driver: other failed"
        ]
    );
}

#[test]
fn shutdown_stops_what_is_there() {
    let (gateway_only, _, _, _) = installed(&remote(), (Some("own"), None), (None, None));
    assert_eq!(shut_down(&gateway_only, &[]), vec!["stop own"]);
    let (driver_only, _, _, _) =
        installed(&registered("docker"), (None, None), (Some("other"), None));
    assert_eq!(
        shut_down(&driver_only, &["other"]),
        vec!["stop other", "warn Driver: other failed"]
    );
    let (nothing, _, _, _) = installed(&remote(), (None, None), (None, None));
    assert!(shut_down(&nothing, &["own", "other"]).is_empty());
}

#[test]
fn providers_are_listed_gateway_first() {
    let (handle, _, _, _) =
        installed(&registered("docker"), (Some("own"), None), (Some("other"), None));
    assert_eq!(
        handle.providers_to_stop(),
        vec![(TracerOwner::Gateway, &"own"), (TracerOwner::Driver, &"other")]
    );
}
