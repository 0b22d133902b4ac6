//! What the proxy is told to do, and what it refuses.

use sleepytale::address::SocketAddr;
use sleepytale::config::{
    normalize, BackendConfig, BackendProvider, Config, ConfigError, ServerConfig, DEFAULT_PORT,
};
use sleepytale::time::Duration;

fn v4(ip: [u8; 4], port: u16) -> SocketAddr {
    SocketAddr::V4 { ip: u32::from_be_bytes(ip), port }
}

fn v6(segments: [u16; 8], port: u16, scope_id: u32) -> SocketAddr {
    let mut ip = 0u128;
    for segment in segments {
        ip = ip << 16 | u128::from(segment);
    }
    SocketAddr::V6 { ip, port, flowinfo: 0, scope_id }
}

fn loopback(port: u16) -> SocketAddr {
    v4([127, 0, 0, 1], port)
}

fn route(port: u16) -> BackendConfig {
    BackendConfig {
        backend: loopback(port),
        server: ServerConfig {
            command: "creative-server".into(),
            ..ServerConfig::default()
        },
    }
}

#[test]
fn defaults_are_valid_and_do_not_collide() {
    let config = Config::default();
    config.validate().unwrap();
    assert_eq!(config.listen.port(), DEFAULT_PORT);
    assert_ne!(config.listen.port(), config.backend.port());
}

#[test]
fn bind_override_is_appended_to_server_args() {
    let config = Config::default();
    let args = config.default_backend().server_args();
    assert_eq!(&args[args.len() - 2..], &["-b", "127.0.0.1:5521"]);
}

#[test]
fn rejects_a_backend_sharing_the_public_port() {
    let mut config = Config::default();
    config.backend = config.listen;
    assert!(config.validate().is_err());
}

#[test]
fn routes_resolve_names_and_keep_complete_backend_configuration() {
    let mut config = Config::default();
    config.routes.insert(
        "Play.Hytale.com.".into(),
        BackendConfig {
            backend: v4([127, 0, 0, 1], 5531),
            server: ServerConfig {
                command: "creative-server".into(),
                ..ServerConfig::default()
            },
        },
    );
    config.validate().unwrap();
    let routes = config.routes();
    let route = routes.resolve(Some("play.hytale.com"));
    assert_eq!(route.backend, v4([127, 0, 0, 1], 5531));
    assert_eq!(route.server.command, "creative-server");
    assert_eq!(routes.resolve(None).backend, config.backend);
}

#[test]
fn the_defaults_are_the_documented_ones() {
    let config = Config::default();
    assert_eq!(config.listen.to_text(), "[::]:5520");
    assert_eq!(config.backend.to_text(), "127.0.0.1:5521");
    assert_eq!(config.idle_timeout, Duration::from_secs(900));
    assert_eq!(config.boot_timeout, Duration::from_secs(300));
    assert_eq!(config.session_timeout, Duration::from_secs(90));
    assert_eq!(config.shutdown_grace, Duration::from_secs(10));
    assert_eq!(config.server.provider, BackendProvider::Process);
    assert_eq!(config.server.command, "java");
    assert_eq!(config.server.args, ["-jar", "HytaleServer.jar"]);
    assert_eq!(config.server.working_dir, ".");
    assert!(config.server.forward_stdin);
    assert_eq!(config.routes.len(), 0);
}

#[test]
fn names_are_normalised_once() {
    assert_eq!(normalize("Play.Hytale.COM."), "play.hytale.com");
    assert_eq!(normalize("play.hytale.com"), "play.hytale.com");
    assert_eq!(normalize("two.dots.."), "two.dots.");
    assert_eq!(normalize("."), "");
    assert_eq!(normalize(""), "");
    assert_eq!(normalize("ÄÖÜ.Example"), "ÄÖÜ.example");
}

#[test]
fn every_backend_comes_after_the_default_in_name_order() {
    let mut config = Config::default();
    config.routes.insert("b.example".into(), route(5533));
    config.routes.insert("A.example".into(), route(5531));
    config.routes.insert("a.zone".into(), route(5532));
    config.validate().unwrap();
    let routes = config.routes();
    let ports: Vec<u16> = routes.all().iter().map(|b| b.backend.port()).collect();
    assert_eq!(ports, [5521, 5531, 5532, 5533]);
    assert_eq!(routes.slot(Some("A.ZONE.")), 2);
    assert_eq!(routes.slot(Some("nowhere")), 0);
    assert_eq!(routes.slot(None), 0);
}

#[test]
fn inserting_a_name_again_replaces_its_backend() {
    let mut config = Config::default();
    config.routes.insert("x.example".into(), route(5531));
    config.routes.insert("x.example".into(), route(5532));
    assert_eq!(config.routes.len(), 1);
    assert_eq!(
        config.routes.get("x.example").map(|b| b.backend),
        Some(loopback(5532))
    );
    assert!(config.routes.get("X.example").is_none());
}

fn refusal(config: &Config) -> (ConfigError, String) {
    let error = config.validate().unwrap_err();
    let message = error.message();
    (error, message)
}

#[test]
fn a_shared_address_is_refused_and_named() {
    let mut config = Config::default();
    config.listen = loopback(5520);
    config.backend = loopback(5520);
    let (error, message) = refusal(&config);
    assert!(matches!(error, ConfigError::SharedAddress { .. }));
    assert_eq!(
        message,
        "listen and backend must differ; the proxy and the server cannot share 127.0.0.1:5520"
    );
}

#[test]
fn ports_must_be_fixed() {
    let mut config = Config::default();
    config.listen = loopback(0);
    let (error, message) = refusal(&config);
    assert!(matches!(error, ConfigError::ListenPort));
    assert_eq!(
        message,
        "listen port must be fixed, not 0 — players need a stable port to reconnect to"
    );

    let mut config = Config::default();
    config.backend = loopback(0);
    let (error, message) = refusal(&config);
    assert!(matches!(error, ConfigError::BackendPort));
    assert!(message.starts_with("backend port must be fixed, not 0"));

    let mut config = Config::default();
    config.routes.insert("x.example".into(), route(0));
    let (error, message) = refusal(&config);
    assert!(matches!(error, ConfigError::RoutePort { .. }));
    assert_eq!(
        message,
        "route \"x.example\" must have a fixed backend port, not 0"
    );
}

#[test]
fn programs_must_be_given() {
    let mut config = Config::default();
    config.server.command = String::new();
    let (error, message) = refusal(&config);
    assert!(matches!(error, ConfigError::Command));
    assert_eq!(message, "server.command must not be empty");

    let mut config = Config::default();
    let mut backend = route(5531);
    backend.server.command = String::new();
    config.routes.insert("x.example".into(), backend);
    let (error, message) = refusal(&config);
    assert!(matches!(error, ConfigError::RouteCommand { .. }));
    assert_eq!(message, "route \"x.example\".command must not be empty");
}

#[test]
fn route_names_have_a_length() {
    let mut config = Config::default();
    config.routes.insert("x".repeat(253), route(5531));
    config.validate().unwrap();

    let mut config = Config::default();
    config.routes.insert("ä".repeat(127), route(5531));
    let (error, message) = refusal(&config);
    assert!(matches!(error, ConfigError::RouteName { len: 254, .. }));
    assert_eq!(
        message,
        format!(
            "route names must be 1 to 253 characters; {:?} is 254",
            "ä".repeat(127)
        )
    );

    let mut config = Config::default();
    config.routes.insert(String::new(), route(5531));
    let (_, message) = refusal(&config);
    assert_eq!(
        message,
        "route names must be 1 to 253 characters; \"\" is 0"
    );
}

#[test]
fn a_route_cannot_point_at_the_proxy() {
    let mut config = Config::default();
    config.listen = loopback(5520);
    config.routes.insert("x.example".into(), route(5520));
    let (error, message) = refusal(&config);
    assert!(matches!(error, ConfigError::RouteIsListen { .. }));
    assert_eq!(
        message,
        "route \"x.example\" points at 127.0.0.1:5520, which is the proxy's own listen address"
    );
}

#[test]
fn names_that_match_each_other_are_refused() {
    let mut config = Config::default();
    config.routes.insert("x.example".into(), route(5531));
    config.routes.insert("X.EXAMPLE.".into(), route(5532));
    let (error, message) = refusal(&config);
    assert!(matches!(error, ConfigError::SameName { .. }));
    assert_eq!(
        message,
        "routes \"X.EXAMPLE.\" and \"x.example\" are the same server name"
    );
}

#[test]
fn backends_that_share_an_address_are_refused() {
    let mut config = Config::default();
    config.routes.insert("x.example".into(), route(5521));
    let (error, message) = refusal(&config);
    assert!(matches!(
        error,
        ConfigError::SameBackend { other: None, .. }
    ));
    assert_eq!(
        message,
        "default backend and route \"x.example\" use the same backend address 127.0.0.1:5521"
    );

    let mut config = Config::default();
    config.routes.insert("x.example".into(), route(5531));
    config.routes.insert("y\n".into(), route(5531));
    let (_, message) = refusal(&config);
    assert_eq!(
        message,
        "route \"x.example\" and route \"y\\n\" use the same backend address 127.0.0.1:5531"
    );
}

#[test]
fn the_first_fault_in_name_order_is_reported() {
    let mut config = Config::default();
    config.routes.insert("z.example".into(), route(0));
    config.routes.insert("a.example".into(), route(5521));
    let (error, _) = refusal(&config);
    assert!(matches!(error, ConfigError::SameBackend { .. }));
}

#[test]
fn a_message_can_be_put_with_other_names() {
    let error = ConfigError::SameName { other: "a".into(), name: "b".into() };
    assert_eq!(
        error.message_about("<b>", "<a>"),
        "routes <a> and <b> are the same server name"
    );
}

#[test]
fn addresses_are_written_the_usual_way() {
    let cases = [
        (v4([0, 0, 0, 0], 0), "0.0.0.0:0"),
        (v4([255, 10, 200, 1], 65535), "255.10.200.1:65535"),
        (v6([0; 8], 1, 0), "[::]:1"),
        (v6([0, 0, 0, 0, 0, 0, 0, 1], 5520, 0), "[::1]:5520"),
        (
            v6([0x2001, 0xdb8, 0, 0, 1, 0, 0, 1], 80, 0),
            "[2001:db8::1:0:0:1]:80",
        ),
        (
            v6([0x2001, 0xdb8, 0, 1, 1, 1, 1, 1], 80, 0),
            "[2001:db8:0:1:1:1:1:1]:80",
        ),
        (v6([1, 0, 0, 2, 0, 0, 0, 3], 80, 0), "[1:0:0:2::3]:80"),
        (v6([1, 2, 3, 4, 5, 6, 0, 0], 80, 0), "[1:2:3:4:5:6::]:80"),
        (
            v6([0, 0, 0, 0, 0, 0xffff, 0xc0a8, 1], 80, 0),
            "[::ffff:192.168.0.1]:80",
        ),
        (v6([0xfe80, 0, 0, 0, 0, 0, 0, 0xabcd], 80, 4), "[fe80::abcd%4]:80"),
        (
            v6([1, 2, 3, 4, 5, 6, 7, 0xfffe], 80, 0),
            "[1:2:3:4:5:6:7:fffe]:80",
        ),
    ];
    for (address, text) in cases {
        assert_eq!(address.to_text(), text);
    }
}

#[test]
fn only_an_unspecified_ipv6_address_serves_both_families() {
    assert!(v6([0; 8], 5520, 0).is_dual_stack());
    assert!(!v6([0, 0, 0, 0, 0, 0, 0, 1], 5520, 0).is_dual_stack());
    assert!(!v4([0, 0, 0, 0], 5520).is_dual_stack());
}
