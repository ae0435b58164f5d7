use storage_monitor::{app_info, APP_NAME, APP_VERSION};

#[test]
fn app_info_reports_name_and_crate_version() {
    let info = app_info();
    assert_eq!(info.name, "Storage Monitor");
    assert_eq!(info.version, "0.1.0");
    assert_eq!((info.name.as_str(), info.version.as_str()), (APP_NAME, APP_VERSION));
}
