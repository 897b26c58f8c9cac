use party_engine::command::Args;
use party_engine::command::command_rest;
use party_engine::numbers::parse_user_id;

#[test]
fn parse_mixed_arguments() {
    let a = Args::parse("Raid -ab --name alpha 123").unwrap();
    assert_eq!(a.args.len(), 2);
    assert_eq!(a.args[0], "Raid");
    assert_eq!(a.args[1], "123");
    assert_eq!(a.kwarg("name").unwrap(), "alpha");
    assert_eq!(a.flag_count('a'), 1);
    assert_eq!(a.flag_count('b'), 1);
    assert_eq!(a.flag_count('c'), 0);
}

#[test]
fn parse_quoted_argument() {
    let a = Args::parse("--name \"Big Raid\" go").unwrap();
    assert_eq!(a.kwarg("name").unwrap(), "Big Raid");
    assert_eq!(a.args.len(), 1);
    assert_eq!(a.args[0], "go");
}

#[test]
fn parse_adjacent_quotes() {
    let a = Args::parse("\"ab\"cd").unwrap();
    assert_eq!(a.args.len(), 2);
    assert_eq!(a.args[0], "ab");
    assert_eq!(a.args[1], "cd");
}

#[test]
fn parse_unterminated_quote_fails() {
    assert!(Args::parse("hello \"world").is_err());
}

#[test]
fn parse_dangling_marker_fails() {
    assert!(Args::parse("--name").is_err());
    assert!(Args::parse("--name --other x").is_err());
    assert!(Args::parse("--name -f x").is_err());
}

#[test]
fn parse_flag_counts_accumulate() {
    let a = Args::parse("-aa -a -ba").unwrap();
    assert_eq!(a.flag_count('a'), 4);
    assert_eq!(a.flag_count('b'), 1);
}

#[test]
fn parse_last_named_value_wins() {
    let a = Args::parse("--k one --k two").unwrap();
    assert_eq!(a.kwarg("k").unwrap(), "two");
}

#[test]
fn parse_dashes_fall_back_to_arguments() {
    let a = Args::parse("- -- -a1 --b2").unwrap();
    assert_eq!(a.args, vec!["-", "--", "-a1", "--b2"]);
    assert_eq!(a.flags.len(), 0);
    assert_eq!(a.kwargs.len(), 0);
}

#[test]
fn parse_empty_string() {
    let a = Args::parse("").unwrap();
    assert!(a.args.is_empty());
    assert!(a.kwargs.is_empty());
    assert!(a.flags.is_empty());
}

#[test]
fn user_id_arguments() {
    assert_eq!(parse_user_id("123"), Some(123));
    assert_eq!(parse_user_id("+5"), Some(5));
    assert_eq!(parse_user_id("0"), Some(0));
    assert_eq!(parse_user_id("18446744073709551615"), Some(u64::MAX));
    assert_eq!(parse_user_id("18446744073709551616"), None);
    assert_eq!(parse_user_id("99999999999999999999999"), None);
    assert_eq!(parse_user_id("12a"), None);
    assert_eq!(parse_user_id(""), None);
    assert_eq!(parse_user_id("+"), None);
    assert_eq!(parse_user_id("-3"), None);
}

#[test]
fn command_marker_split() {
    assert_eq!(command_rest("/party Raid").unwrap(), " Raid");
    assert_eq!(command_rest("/party"), Some(String::new()));
    assert!(command_rest("/part").is_none());
    assert!(command_rest("hello").is_none());
}
