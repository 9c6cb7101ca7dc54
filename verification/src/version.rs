//! The `version` command: the program's version, and what a caller may rely on.
use crate::codec::{
    integer_text, joined, json_fragments, json_read, lemma_newline_is_one_byte, newline_free,
    on_one_line, readable, READ_DEPTH,
};
use crate::json::{put, Json, JsonView};
use crate::text::{canonical, decimal, decimal_text_reads_back, decimal_value};
use vstd::prelude::*;

verus! {

/// The `version` command.
#[derive(Debug)]
pub struct VersionCmd {
    /// Machine-readable capabilities; does not load profiles or repository data.
    pub json: bool,
}

/// The capability flags. Two of them depend on the platform.
pub open spec fn capabilities_view(on_linux: bool) -> JsonView {
    JsonView::Object(
        map![
            "strict_backup"@ => JsonView::Bool(true),
            "strict_local_metadata"@ => JsonView::Number(decimal(1)),
            "strict_restore"@ => JsonView::Bool(true),
            "sparse_required_restore"@ => JsonView::Bool(on_linux),
            "hole_aware_backup"@ => JsonView::Bool(on_linux),
            "backup_inventory"@ => JsonView::Number(decimal(1)),
            "backup_exclusion_inventory"@ => JsonView::Number(decimal(1)),
            "backup_admission"@ => JsonView::Number(decimal(1)),
        ],
    )
}

/// The machine-readable form of the version.
pub open spec fn version_view(version: Seq<char>, on_linux: bool) -> JsonView {
    JsonView::Object(
        map![
            "schema_version"@ => JsonView::Number(decimal(1)),
            "version"@ => JsonView::Text(version),
            "capabilities"@ => capabilities_view(on_linux),
        ],
    )
}

/// The machine-readable form of the version.
pub fn version_record(version: &str, on_linux: bool) -> (r: Json)
    ensures
        r@ == version_view(version@, on_linux),
{
    let mut capabilities: Vec<(String, Json)> = Vec::new();
    put(&mut capabilities, "strict_backup", Json::Bool(true));
    put(&mut capabilities, "strict_local_metadata", Json::unsigned(1));
    put(&mut capabilities, "strict_restore", Json::Bool(true));
    put(&mut capabilities, "sparse_required_restore", Json::Bool(on_linux));
    put(&mut capabilities, "hole_aware_backup", Json::Bool(on_linux));
    put(&mut capabilities, "backup_inventory", Json::unsigned(1));
    put(&mut capabilities, "backup_exclusion_inventory", Json::unsigned(1));
    put(&mut capabilities, "backup_admission", Json::unsigned(1));
    let mut members: Vec<(String, Json)> = Vec::new();
    put(&mut members, "schema_version", Json::unsigned(1));
    put(&mut members, "version", Json::text(version));
    put(&mut members, "capabilities", Json::Object(capabilities));
    Json::Object(members)
}

/// `output` is what the command prints of a version on a platform, one line: the record's
/// compact text, which reads as the record, where JSON was asked for; otherwise the program's
/// name and version. A newline ends it.
pub open spec fn prints(json: bool, version: Seq<char>, on_linux: bool, output: Seq<char>) -> bool {
    if json {
        let record = version_view(version, on_linux);
        let line = output.drop_last();
        &&& output.len() > 0
        &&& output.last() == '\n'
        &&& on_one_line(line)
        &&& vstd::utf8::encode_utf8(line) == joined(json_fragments(record))
        &&& json_read(vstd::utf8::encode_utf8(output)) == Some(record)
    } else {
        output == ("rustic "@ + version).push('\n')
    }
}

impl VersionCmd {
    /// What the command prints: the JSON record's text where it was asked for, otherwise the
    /// program's name and version, and a newline.
    pub fn run(&self, version: &str, on_linux: bool) -> (r: String)
        ensures
            prints(self.json, version@, on_linux, r@),
            self.json ==> newline_free(json_fragments(version_view(version@, on_linux))),
    {
        proof {
            reveal_strlit("\n");
        }
        if self.json {
            let mut output = version_record(version, on_linux).into_text();
            let ghost line = output@;
            output.append("\n");
            proof {
                lemma_version_is_readable(version@, on_linux);
                lemma_newline_is_one_byte(line);
                assert(output@ =~= line.push('\n'));
                assert(output@.drop_last() =~= line);
            }
            return output;
        }
        let mut output = "rustic ".to_owned();
        output.append(version);
        output.append("\n");
        assert(output@ =~= ("rustic "@ + version@).push('\n'));
        output
    }
}

proof fn lemma_version_is_readable(version: Seq<char>, on_linux: bool)
    ensures
        readable(version_view(version, on_linux), READ_DEPTH as nat),
{
    assert(integer_text(decimal(1)));
    let capabilities = capabilities_view(on_linux)->Object_0;
    assert forall|key: Seq<char>| #[trigger] capabilities.contains_key(key) implies readable(
        capabilities[key],
        (READ_DEPTH - 2) as nat,
    ) by {
        let value = capabilities[key];
        assert(value == JsonView::Number(decimal(1)) || value is Bool);
    }
    assert(readable(capabilities_view(on_linux), (READ_DEPTH - 1) as nat));
    let members = version_view(version, on_linux)->Object_0;
    assert forall|key: Seq<char>| #[trigger] members.contains_key(key) implies readable(
        members[key],
        (READ_DEPTH - 1) as nat,
    ) by {
        let value = members[key];
        assert(value == JsonView::Number(decimal(1)) || value is Text || value
            == capabilities_view(on_linux));
    }
}

/// Both forms report the same version: read as JSON, the machine-readable output is a record
/// whose version stands in the plain output behind the program's name.
pub proof fn both_forms_report_the_same_version(
    version: Seq<char>,
    on_linux: bool,
    plain: Seq<char>,
    machine: Seq<char>,
)
    ensures
        prints(false, version, on_linux, plain) && prints(true, version, on_linux, machine) ==> {
            &&& json_read(vstd::utf8::encode_utf8(machine)) matches Some(JsonView::Object(members))
            &&& members.contains_key("version"@)
            &&& members["version"@] matches JsonView::Text(reported)
            &&& plain == ("rustic "@ + reported).push('\n')
        },
{
    reveal_strlit("version");
    reveal_strlit("capabilities");
    assert("version"@[0] != "capabilities"@[0]);
}

/// What is printed depends on nothing but the form asked for, the version and the platform.
pub proof fn output_is_determined(
    json: bool,
    version: Seq<char>,
    on_linux: bool,
    first: Seq<char>,
    second: Seq<char>,
)
    ensures
        prints(json, version, on_linux, first) && prints(json, version, on_linux, second) ==> first
            == second,
{
    vstd::utf8::encode_utf8_decode_utf8(first.drop_last());
    vstd::utf8::encode_utf8_decode_utf8(second.drop_last());
    if json && prints(json, version, on_linux, first) && prints(json, version, on_linux, second) {
        assert(first =~= first.drop_last().push('\n'));
        assert(second =~= second.drop_last().push('\n'));
    }
}

/// The machine-readable record says what it is asked for: the version is the one given, whatever
/// it is, the two capabilities that need Linux are there exactly on Linux, and the others are
/// always.
pub proof fn version_record_tells_the_version(version: Seq<char>, on_linux: bool)
    ensures
        ({
            &&& version_view(version, on_linux) matches JsonView::Object(members)
            &&& members.dom() == set!["schema_version"@, "version"@, "capabilities"@]
            &&& members["schema_version"@] matches JsonView::Number(schema)
            &&& canonical(schema) && decimal_value(schema) == 1
            &&& members["version"@] == JsonView::Text(version)
            &&& members["capabilities"@] matches JsonView::Object(flags)
            &&& flags.dom() == set![
                "strict_backup"@,
                "strict_local_metadata"@,
                "strict_restore"@,
                "sparse_required_restore"@,
                "hole_aware_backup"@,
                "backup_inventory"@,
                "backup_exclusion_inventory"@,
                "backup_admission"@,
            ]
            &&& flags["strict_backup"@] == JsonView::Bool(true)
            &&& flags["strict_restore"@] == JsonView::Bool(true)
            &&& flags["sparse_required_restore"@] == JsonView::Bool(on_linux)
            &&& flags["hole_aware_backup"@] == JsonView::Bool(on_linux)
            &&& forall|key: Seq<char>|
                key == "strict_local_metadata"@ || key == "backup_inventory"@ || key
                    == "backup_exclusion_inventory"@ || key == "backup_admission"@ ==> {
                    &&& #[trigger] flags[key] matches JsonView::Number(level)
                    &&& canonical(level) && decimal_value(level) == 1
                }
        }),
{
    reveal_strlit("schema_version");
    reveal_strlit("version");
    reveal_strlit("capabilities");
    reveal_strlit("strict_backup");
    reveal_strlit("strict_local_metadata");
    reveal_strlit("strict_restore");
    reveal_strlit("sparse_required_restore");
    reveal_strlit("hole_aware_backup");
    reveal_strlit("backup_inventory");
    reveal_strlit("backup_exclusion_inventory");
    reveal_strlit("backup_admission");
    assert("schema_version"@.len() == 14);
    assert("version"@.len() == 7);
    assert("capabilities"@.len() == 12);
    assert("strict_backup"@.len() == 13);
    assert("strict_local_metadata"@.len() == 21);
    assert("strict_restore"@.len() == 14);
    assert("sparse_required_restore"@.len() == 23);
    assert("hole_aware_backup"@.len() == 17);
    assert("backup_inventory"@.len() == 16);
    assert("backup_exclusion_inventory"@.len() == 26);
    assert("backup_admission"@.len() == 16);
    assert("backup_inventory"@[7] != "backup_admission"@[7]);
    decimal_text_reads_back(1);
    assert(version_view(version, on_linux)->Object_0.dom() =~= set![
        "schema_version"@,
        "version"@,
        "capabilities"@,
    ]);
    assert(capabilities_view(on_linux)->Object_0.dom() =~= set![
        "strict_backup"@,
        "strict_local_metadata"@,
        "strict_restore"@,
        "sparse_required_restore"@,
        "hole_aware_backup"@,
        "backup_inventory"@,
        "backup_exclusion_inventory"@,
        "backup_admission"@,
    ]);
}

/// The plain form is one line with the program's name and the version given, whatever it is.
pub proof fn plain_output_tells_the_version(version: Seq<char>, on_linux: bool, plain: Seq<char>)
    ensures
        prints(false, version, on_linux, plain) <==> plain == "rustic "@ + version + "\n"@,
{
    reveal_strlit("\n");
    assert("\n"@ =~= seq!['\n']);
    assert(("rustic "@ + version).push('\n') =~= "rustic "@ + version + "\n"@);
}

/// The machine-readable form is one line: the compact text of a record that holds the version
/// given, and a newline.
pub proof fn machine_output_is_the_record(version: Seq<char>, on_linux: bool, machine: Seq<char>)
    ensures
        prints(true, version, on_linux, machine) ==> {
            &&& vstd::utf8::encode_utf8(machine) == joined(
                json_fragments(version_view(version, on_linux)),
            ).push(10u8)
            &&& machine.last() == '\n'
            &&& forall|i: int| 0 <= i < machine.len() - 1 ==> #[trigger] machine[i] != '\n'
        },
{
    if prints(true, version, on_linux, machine) {
        let line = machine.drop_last();
        lemma_newline_is_one_byte(line);
        assert(machine =~= line.push('\n'));
        assert forall|i: int| 0 <= i < machine.len() - 1 implies #[trigger] machine[i] != '\n' by {
            assert(machine[i] == line[i]);
        }
    }
}

} // verus!
