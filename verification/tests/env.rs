use almanac::env::{parse_env_file, read_config};

fn pairs(items: &[(&str, &str)]) -> Vec<(String, String)> {
    items.iter().map(|(k, v)| (k.to_string(), v.to_string())).collect()
}

#[test]
fn defaults_port_and_name() {
    let cfg = read_config(&[]);
    assert_eq!(cfg.port, 18788);
    assert_eq!(cfg.host, "localhost");
    assert_eq!(cfg.cal_name, "Almanac");
    assert_eq!(cfg.tls_key, "");
    assert_eq!(cfg.tls_cert, "");
}

#[test]
fn reads_env_values() {
    let env = pairs(&[
        ("PORT", "9000"),
        ("CAL_NAME", "Agents"),
        ("DB_PATH", "/tmp/c.db"),
        ("FEED_TOKEN", "feed"),
        ("AGENT_KEY", "key"),
    ]);
    let cfg = read_config(&env);
    assert_eq!(cfg.port, 9000);
    assert_eq!(cfg.cal_name, "Agents");
    assert_eq!(cfg.db_path, "/tmp/c.db");
    assert_eq!(cfg.feed_token, "feed");
    assert_eq!(cfg.agent_key, "key");

    let prod = read_config(&pairs(&[("HOST", "::"), ("PORT", "8000")]));
    assert_eq!(prod.host, "::");
    assert_eq!(prod.port, 8000);
}

#[test]
fn an_env_file_gives_its_assignments_in_order() {
    let got = parse_env_file("FEED_TOKEN=fromfile\nPORT=8123\n");
    assert_eq!(
        got,
        vec![
            ("FEED_TOKEN".to_string(), "fromfile".to_string()),
            ("PORT".to_string(), "8123".to_string())
        ]
    );
}
