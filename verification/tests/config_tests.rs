use hts_connector::influx::config::Config as InfluxConfig;
use hts_connector::text::config::Config as TextConfig;

#[test]
fn text_config_keeps_the_path() {
    let config = TextConfig::new("./text.txt".to_string());
    assert_eq!(config.path, "./text.txt");
}

#[test]
fn influx_config_keeps_the_fields() {
    let config = InfluxConfig::new(
        "http://localhost:8086".to_string(),
        "token".to_string(),
        "goboolean".to_string(),
        "sample-bucket".to_string(),
    );
    assert_eq!(config.url, "http://localhost:8086");
    assert_eq!(config.token, "token");
    assert_eq!(config.org, "goboolean");
    assert_eq!(config.bucket, "sample-bucket");
}
