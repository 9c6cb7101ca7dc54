use backup_inventory::json::Json;
use backup_inventory::version::{version_record, VersionCmd};

#[test]
fn the_plain_line_names_the_program() {
    assert_eq!(
        VersionCmd { json: false }.run("0.11.0-dev", true),
        "rustic 0.11.0-dev\n"
    );
}

#[test]
fn the_json_line_lists_the_capabilities() {
    let line = |linux: bool| {
        format!(
            "{{\"capabilities\":{{\"backup_admission\":1,\"backup_exclusion_inventory\":1,\
\"backup_inventory\":1,\"hole_aware_backup\":{linux},\"sparse_required_restore\":{linux},\
\"strict_backup\":true,\"strict_local_metadata\":1,\"strict_restore\":true}},\
\"schema_version\":1,\"version\":\"0.11.0\"}}"
        )
    };
    for linux in [true, false] {
        assert_eq!(
            VersionCmd { json: true }.run("0.11.0", linux),
            line(linux) + "\n"
        );
        assert_eq!(version_record("0.11.0", linux).into_text(), line(linux));
    }
}

#[test]
fn both_forms_report_the_same_version() {
    for version in ["0.11.0", "0.11.0-dev \"quoted\"\n"] {
        let machine = VersionCmd { json: true }.run(version, true);
        assert_eq!(machine.find('\n'), Some(machine.len() - 1));
        let Some(Json::Object(members)) = Json::read(machine.as_bytes()) else {
            panic!("the record is an object");
        };
        let reported = members.into_iter().find(|(key, _)| key == "version");
        assert_eq!(reported, Some(("version".to_string(), Json::text(version))));
        assert_eq!(
            VersionCmd { json: false }.run(version, true),
            format!("rustic {version}\n")
        );
    }
}

#[test]
fn the_output_depends_on_the_flag_the_version_and_the_platform_alone() {
    for json in [false, true] {
        let output = || VersionCmd { json }.run("0.11.0", true);
        assert_eq!(output(), output());
    }
}
