use language_evolution::commands::{
    append_row_command, file_count_command, record_count_command, record_slice_command,
    remove_line_command, search_command, version_command,
};

#[test]
fn version_command_reads_package_json() {
    assert_eq!(
        version_command("/tmp/ben"),
        r#"grep -Eo '\"version\": \"([\d.]*)\"' /tmp/ben/package.json | grep -Po '[\d\.]*'"#
    );
}

#[test]
fn log_commands_name_the_log_file() {
    assert_eq!(record_count_command("/r"), "xsv count /r/TYPESCRIPT_EVOLUTION.csv");
    assert_eq!(record_slice_command("/r", 5), "xsv slice -i 5 -n /r/TYPESCRIPT_EVOLUTION.csv");
    assert_eq!(record_slice_command("/r", -1), "xsv slice -i -1 -n /r/TYPESCRIPT_EVOLUTION.csv");
    assert_eq!(
        search_command("1", "0.2.0", "/r"),
        "xsv search -s 1 -n \"0.2.0\" /r/TYPESCRIPT_EVOLUTION.csv"
    );
    assert_eq!(remove_line_command("/r"), "sed -i '$d' /r/TYPESCRIPT_EVOLUTION.csv");
    assert_eq!(append_row_command("a,b", "/r"), "echo 'a,b' >> /r/TYPESCRIPT_EVOLUTION.csv");
}

#[test]
fn file_count_command_uses_rg_and_wc() {
    assert_eq!(
        file_count_command("ts", "ts,tsx", "/r", "web"),
        "rg --files --type-add 'ts:*{ts,tsx}' -tts /r/web | wc -l"
    );
}
