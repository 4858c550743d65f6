use finddups::config::Config;
use std::path::PathBuf;

#[test]
fn config_new_keeps_every_setting() {
    let config = Config::new(PathBuf::from("/data/photos"), true, 3, false);
    assert_eq!(config.root_dir, PathBuf::from("/data/photos"));
    assert!(config.delete);
    assert_eq!(config.max_depth, 3);
    assert!(!config.include_hidden);
}
