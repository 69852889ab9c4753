use hsrv::config::Configuration;

#[test]
fn configuration_holds_given_values() {
    let c = Configuration::new(3000, false, "opensesame".to_string());
    assert_eq!(c.port, 3000);
    assert!(!c.persist);
    assert_eq!(c.password, "opensesame");
}

#[test]
fn configuration_fields_are_plain_values() {
    let c = Configuration { port: 8080, persist: true, password: "pw".to_string() };
    assert_eq!(c.port, 8080);
    assert!(c.persist);
}
