use almanac::backup::BackupConfig;

fn pairs(items: &[(&str, &str)]) -> Vec<(String, String)> {
    items.iter().map(|(k, v)| (k.to_string(), v.to_string())).collect()
}

#[test]
fn backup_env_overrides_only_what_it_sets() {
    let env = pairs(&[("BACKUP_INTERVAL_HOURS", "0"), ("BACKUP_KEEP", "nope")]);
    let cfg = BackupConfig::from_env("/app/data/calendar.db", &env);
    assert_eq!(cfg.dir, "/app/data/backups");
    assert_eq!(cfg.interval_hours, 0);
    assert_eq!(cfg.keep, 7);

    let cfg = BackupConfig::from_env("x.db", &pairs(&[("BACKUP_DIR", "/mnt/off-volume")]));
    assert_eq!(cfg.dir, "/mnt/off-volume");
    assert_eq!(cfg.interval_hours, 6);
}

#[test]
fn backup_keeps_at_least_one_copy() {
    let cfg = BackupConfig::from_env("/d/c.db", &pairs(&[("BACKUP_KEEP", " 0 "), ("BACKUP_DIR", "   ")]));
    assert_eq!(cfg.keep, 1);
    assert_eq!(cfg.dir, "/d/backups");
}
