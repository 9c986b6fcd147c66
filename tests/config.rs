use rs3cache_extractor::cli::{merge_config, CommonOpts};
use rs3cache_extractor::config::{parse_chunk_range, parse_planes, parse_usize, Config, EnvValues};

#[test]
fn test_parse_planes_and_chunk_range() {
    assert_eq!(parse_planes(""), None);
    assert_eq!(parse_planes("0,1, 2"), Some(vec![0, 1, 2]));
    assert_eq!(parse_chunk_range("0:10,5:15"), Some((0, 10, 5, 15)));
    assert_eq!(parse_chunk_range("bad"), None);
}

#[test]
fn test_from_env_defaults_reads_values() {
    let env = EnvValues {
        tiles_db: Some("/tmp/tiles.db".to_string()),
        out_db: Some("/tmp/world.db".to_string()),
        planes: Some("0,1".to_string()),
        chunk_range: Some("1:2,3:4".to_string()),
        threads: Some("8".to_string()),
        dry_run: Some("true".to_string()),
        store_paths: Some("1".to_string()),
        log_level: Some("debug".to_string()),
    };
    let cfg = Config::from_env_defaults(env);
    assert_eq!(cfg.tiles_db.as_deref(), Some("/tmp/tiles.db"));
    assert_eq!(cfg.out_db.as_deref(), Some("/tmp/world.db"));
    assert_eq!(cfg.planes, Some(vec![0, 1]));
    assert_eq!(cfg.chunk_range, Some((1, 2, 3, 4)));
    assert_eq!(cfg.threads, Some(8));
    assert!(cfg.dry_run);
    assert!(cfg.store_paths);
    assert_eq!(cfg.log_level.as_deref(), Some("debug"));
}

#[test]
fn planes_skip_bad_and_blank_pieces() {
    assert_eq!(parse_planes(" 3 ,, x, -4 "), Some(vec![3, -4]));
    assert_eq!(parse_planes(",,"), None);
    assert_eq!(parse_planes("2147483648"), None);
    assert_eq!(parse_planes("+7,-2147483648"), Some(vec![7, -2147483648]));
}

#[test]
fn chunk_range_needs_two_pairs_of_bounds() {
    assert_eq!(parse_chunk_range(" -1 : 2 , 3:4 "), Some((-1, 2, 3, 4)));
    assert_eq!(parse_chunk_range("1:2"), None);
    assert_eq!(parse_chunk_range("1:2,3"), None);
    assert_eq!(parse_chunk_range("1:2,3:4,5:6"), None);
    assert_eq!(parse_chunk_range("1:a,3:4"), None);
}

#[test]
fn flags_and_threads_parse_strictly() {
    let env = EnvValues { dry_run: Some("TrUe".to_string()), store_paths: Some("yes".to_string()), threads: Some("x".to_string()), ..Default::default() };
    let cfg = Config::from_env_defaults(env);
    assert!(cfg.dry_run);
    assert!(!cfg.store_paths);
    assert_eq!(cfg.threads, None);
    assert_eq!(parse_usize("+12"), Some(12));
    assert_eq!(parse_usize("-1"), None);
}

#[test]
fn environment_overrides_command_line() {
    let common = CommonOpts {
        planes: Some(vec![5]),
        chunk_range: Some("0:1,2:3".to_string()),
        threads: Some(2),
        dry_run: false,
        store_paths: true,
        ..Default::default()
    };
    let env = Config { planes: Some(vec![9]), dry_run: true, ..Default::default() };
    let cfg = merge_config(common, env);
    assert_eq!(cfg.planes, Some(vec![9]));
    assert_eq!(cfg.chunk_range, Some((0, 1, 2, 3)));
    assert_eq!(cfg.threads, Some(2));
    assert!(cfg.dry_run);
    assert!(cfg.store_paths);
}

#[test]
fn scope_filters_by_plane_and_chunk() {
    let cfg = Config { planes: Some(vec![0]), chunk_range: Some((0, 0, -1, 0)), ..Default::default() };
    assert!(cfg.in_scope(0, 63, -64));
    assert!(!cfg.in_scope(0, 64, 0));
    assert!(!cfg.in_scope(0, 0, -65));
    assert!(!cfg.in_scope(1, 0, 0));
}
