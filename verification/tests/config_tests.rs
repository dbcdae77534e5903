use seekr_store::config::{Config, Level};
use seekr_store::entity::CreateClusterRequest;

#[test]
fn config_holds_its_parameters() {
    let config = Config::new(Level::Info, String::from("localhost"), 5000);
    assert!(matches!(config.log, Level::Info));
    assert_eq!(config.host, "localhost");
    assert_eq!(config.port, 5000);
}

#[test]
fn every_request_validates() {
    let req = CreateClusterRequest {
        name: b"anything".to_vec(),
        kind: 7,
        config: vec![],
    };
    assert!(req.validate().is_ok());
}
