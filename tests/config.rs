use mudcode::config::normalize_discord_token;

#[test]
fn normalize_discord_token_handles_common_copy_paste_issues() {
    assert_eq!(normalize_discord_token(""), "");
    assert_eq!(normalize_discord_token("   "), "");
    assert_eq!(normalize_discord_token("Bot abc.def.ghi"), "abc.def.ghi");
    assert_eq!(
        normalize_discord_token(" bearer abc.def.ghi "),
        "abc.def.ghi"
    );
    assert_eq!(normalize_discord_token("'abc.def.ghi'"), "abc.def.ghi");
    assert_eq!(normalize_discord_token("\"abc .def .ghi\""), "abc.def.ghi");
}
