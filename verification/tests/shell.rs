use flip_finder::api::{check_if_snapshot_exists, get_snapshot_number_from_name, SnapshotNameError};
use flip_finder::commands::{parse_command, Command, CommandArg};

#[test]
fn snapshot_name_parses_epoch() {
    assert_eq!(get_snapshot_number_from_name("response_123.json"), Ok(123));
    assert_eq!(get_snapshot_number_from_name("response_0.json"), Ok(0));
}

#[test]
fn snapshot_name_without_markers_is_malformed() {
    assert_eq!(
        get_snapshot_number_from_name("response123json"),
        Err(SnapshotNameError::Malformed)
    );
    assert_eq!(
        get_snapshot_number_from_name("a.b_c"),
        Err(SnapshotNameError::Malformed)
    );
}

#[test]
fn snapshot_name_with_bad_number_is_invalid() {
    assert_eq!(
        get_snapshot_number_from_name("response_.json"),
        Err(SnapshotNameError::InvalidNumber)
    );
    assert_eq!(
        get_snapshot_number_from_name("response_12a.json"),
        Err(SnapshotNameError::InvalidNumber)
    );
    assert_eq!(
        get_snapshot_number_from_name("response_99999999999999999999.json"),
        Err(SnapshotNameError::InvalidNumber)
    );
}

#[test]
fn snapshot_lookup_finds_cached_epoch() {
    let names = vec![
        "response_7.json".to_string(),
        "garbage".to_string(),
        "response_123.json".to_string(),
    ];
    assert!(check_if_snapshot_exists(123, &names));
    assert!(check_if_snapshot_exists(7, &names));
    assert!(!check_if_snapshot_exists(8, &names));
}

#[test]
fn commands_without_arguments() {
    assert_eq!(parse_command("help"), Command::Help);
    assert_eq!(parse_command("quit"), Command::Quit);
    assert_eq!(parse_command("exit"), Command::Quit);
    assert_eq!(parse_command("refresh"), Command::Refresh);
    assert_eq!(parse_command("   "), Command::Empty);
    assert_eq!(parse_command(""), Command::Empty);
    assert_eq!(parse_command("frobnicate"), Command::Unknown);
}

#[test]
fn volume_command_reads_fixed_point() {
    assert_eq!(
        parse_command("volume 1000"),
        Command::Volume(CommandArg::Value(1_000_000_000))
    );
    assert_eq!(
        parse_command("volume 12.5"),
        Command::Volume(CommandArg::Value(12_500_000))
    );
    assert_eq!(parse_command("volume"), Command::Volume(CommandArg::Missing));
    assert_eq!(parse_command("volume abc"), Command::Volume(CommandArg::Invalid));
    assert_eq!(parse_command("volume -5"), Command::Volume(CommandArg::Invalid));
}

#[test]
fn profit_command_reads_fixed_point() {
    assert_eq!(
        parse_command("profit 0.05"),
        Command::Profit(CommandArg::Value(50_000))
    );
    assert_eq!(
        parse_command("profit 1.000001"),
        Command::Profit(CommandArg::Value(1_000_001))
    );
    assert_eq!(parse_command("profit 1.2345678"), Command::Profit(CommandArg::Invalid));
    assert_eq!(parse_command("profit ."), Command::Profit(CommandArg::Invalid));
}

#[test]
fn fixed_point_needs_digits_on_both_sides_of_the_dot() {
    assert_eq!(parse_command("volume 12."), Command::Volume(CommandArg::Invalid));
    assert_eq!(parse_command("volume .5"), Command::Volume(CommandArg::Invalid));
    assert_eq!(
        parse_command("volume 0.000001"),
        Command::Volume(CommandArg::Value(1))
    );
}

#[test]
fn top_command_reads_whole_number() {
    assert_eq!(parse_command("top 10"), Command::Top(CommandArg::Value(10)));
    assert_eq!(parse_command("  top   3  "), Command::Top(CommandArg::Value(3)));
    assert_eq!(parse_command("top 2.5"), Command::Top(CommandArg::Invalid));
    assert_eq!(parse_command("top"), Command::Top(CommandArg::Missing));
}
