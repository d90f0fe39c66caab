use lezeh::config::{BitlyConfig, Config as LezehConfig, DeploymentConfig, GhubConfig, PhabConfig};
use lezeh::url::{Config, ConfigError, LezehUrlClient, UrlCli};

#[test]
fn shorten_requests_carry_the_form_encoded_url() {
    let client = LezehUrlClient::new(Config { bitly: BitlyConfig { api_token: "tok".into() } });
    assert_eq!(
        client.shorten_request_url("https://example.com/a b?x=1&y=é"),
        "https://api-ssl.bitly.com/v3/shorten?access_token=tok&longUrl=https%3A%2F%2Fexample.com%2Fa+b%3Fx%3D1%26y%3D%C3%A9&format=txt"
    );
}

#[test]
fn config_error_messages() {
    let e = ConfigError::ReadConfigError { config_path: "/p".into(), root_err: "gone".into() };
    assert_eq!(e.to_string(), "Failed reading config /p err gone");
    let e = ConfigError::ConfigDeserializeError { config_path: "/p".into(), root_err: "bad".into() };
    assert_eq!(e.to_string(), "Could not deserialize config please check /p err bad");
}

#[test]
fn bitly_config_is_required() {
    let mut config = LezehConfig {
        phab: PhabConfig {
            host: "h".into(),
            api_token: "t".into(),
            pkcs12_path: "p".into(),
            pkcs12_password: "w".into(),
        },
        ghub: GhubConfig { api_token: "g".into() },
        bitly: None,
        deployment: DeploymentConfig { repositories: vec![], merge_feature_branches: None },
        db_by_name: None,
    };
    assert_eq!(UrlCli::bitly_config(&config).err(), Some("Could not get bitly config".to_owned()));
    config.bitly = Some(BitlyConfig { api_token: "x".into() });
    assert_eq!(UrlCli::bitly_config(&config).unwrap().api_token, "x");
}
