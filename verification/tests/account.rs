use statusline::account::parse_email;

#[test]
fn parse_email_extracts_oauth_account() {
    let j =
        r#"{"a":"b","oauthAccount":{"accountUuid":"u","emailAddress":"me@example.com"},"c":1}"#;
    assert_eq!(parse_email(j), Some("me@example.com"));
    // an emailAddress before oauthAccount must not be picked up
    let j2 = r#"{"emailAddress":"decoy@x.io","oauthAccount":{"emailAddress":"real@x.io"}}"#;
    assert_eq!(parse_email(j2), Some("real@x.io"));
    assert_eq!(parse_email("{}"), None);
    assert_eq!(parse_email(r#"{"oauthAccount":{}}"#), None);
}

#[test]
fn parse_email_allows_white_space_around_the_colon() {
    let j = "{\"oauthAccount\": {\n  \"emailAddress\"\t:\u{3000} \"\u{e9}@x.io\"\n}}";
    assert_eq!(parse_email(j), Some("\u{e9}@x.io"));
}

#[test]
fn parse_email_takes_the_first_address_in_the_account() {
    let j = r#"{"oauthAccount":{"emailAddress":"one@x.io"},"emailAddress":"two@x.io"}"#;
    assert_eq!(parse_email(j), Some("one@x.io"));
    let j2 = r#"{"oauthAccount":{},"emailAddress":"two@x.io"}"#;
    assert_eq!(parse_email(j2), None);
    let j3 = r#"{"oauthAccount":{},"other":{"emailAddress":"x@y.io"}}"#;
    assert_eq!(parse_email(j3), None);
    let j4 = r#"{"oauthAccount":{"emailAddress":"one@x.io","emailAddress":"two@x.io"}}"#;
    assert_eq!(parse_email(j4), Some("one@x.io"));
    assert_eq!(parse_email(r#"{"oauthAccount":{"emailAddress":""}}"#), Some(""));
}

#[test]
fn parse_email_finds_the_end_of_the_account() {
    // objects within the account belong to it
    let j = r#"{"oauthAccount" : {"org":{"a":{}},"emailAddress":"me@x.io"},"c":1}"#;
    assert_eq!(parse_email(j), Some("me@x.io"));
    let j = r#"{"oauthAccount":{"org":{"emailAddress":"me@x.io"}}}"#;
    assert_eq!(parse_email(j), Some("me@x.io"));
    let j = r#"{"oauthAccount":{"org":{}},"emailAddress":"me@x.io"}"#;
    assert_eq!(parse_email(j), None);
    // braces in a string do not count
    let j = r#"{"oauthAccount":{"name":"}","emailAddress":"me@x.io"}}"#;
    assert_eq!(parse_email(j), Some("me@x.io"));
    let j = r#"{"oauthAccount":{"name":"{"},"emailAddress":"me@x.io"}"#;
    assert_eq!(parse_email(j), None);
    // nor does a quotation mark behind a backslash end one
    let j = r#"{"oauthAccount":{"name":"\"}","emailAddress":"me@x.io"}}"#;
    assert_eq!(parse_email(j), Some("me@x.io"));
    let j = r#"{"oauthAccount":{"name":"\\"},"emailAddress":"me@x.io"}"#;
    assert_eq!(parse_email(j), None);
    // an object that is not closed runs to the end
    let j = r#"{"oauthAccount":{"org":{},"emailAddress":"me@x.io""#;
    assert_eq!(parse_email(j), Some("me@x.io"));
    assert_eq!(parse_email(r#"{"oauthAccount":{"name":"\"#), None);
}

#[test]
fn parse_email_searches_on_past_keys_without_an_object() {
    let j = r#"{"x":{"oauthAccount":null},"oauthAccount":{"emailAddress":"a@b.c"}}"#;
    assert_eq!(parse_email(j), Some("a@b.c"));
    let j = r#"{"note":"oauthAccount","oauthAccount":{"emailAddress":"a@b.c"}}"#;
    assert_eq!(parse_email(j), Some("a@b.c"));
    let j = r#""oauthAccount"oauthAccount":{"emailAddress":"e"}"#;
    assert_eq!(parse_email(j), Some("e"));
    let j = r#""oauthAccount":"oauthAccount":"oauthAccount":{"emailAddress":"e"}"#;
    assert_eq!(parse_email(j), Some("e"));
    // the first object counts, also where it holds no address
    let j = r#"{"x":{"oauthAccount":{}},"oauthAccount":{"emailAddress":"a@b.c"}}"#;
    assert_eq!(parse_email(j), None);
}

#[test]
fn a_written_address_is_read_back() {
    for before in ["", "{", "\"oauthAccount", "{\"emailAddress\":\"no@x.io\",", "\"\"oauth\\"] {
        for address in ["", "me@x.io", "\u{e9}@\u{6771}.jp", "a\\", "\\\\", "}{", " : "] {
            for behind in ["", "}", ",\"oauthAccount\":{\"emailAddress\":\"no@x.io\"}}", "\""] {
                let account =
                    format!("\"oauthAccount\":{{\"emailAddress\":\"{address}\"}}");
                let data = format!("{before}{account}{behind}");
                assert_eq!(parse_email(&data), Some(address), "{data}");
            }
        }
    }
}

#[test]
fn parse_email_needs_an_account_object() {
    assert_eq!(parse_email(r#"{"oauthAccount":null,"emailAddress":"me@x.io"}"#), None);
    assert_eq!(parse_email(r#"{"oauthAccount":[{"emailAddress":"me@x.io"}]}"#), None);
    assert_eq!(parse_email(r#"{"oauthAccount" {"emailAddress":"me@x.io"}}"#), None);
    assert_eq!(parse_email(r#"["oauthAccount","emailAddress","me@x.io"]"#), None);
    assert_eq!(parse_email(r#"{"oauthAccount":"#), None);
}

#[test]
fn parse_email_rejects_what_is_no_string() {
    assert_eq!(parse_email(r#"{"oauthAccount":{"emailAddress" "x"}}"#), None);
    assert_eq!(parse_email(r#"{"oauthAccount":{"emailAddress":null}}"#), None);
    assert_eq!(parse_email(r#"{"oauthAccount":{"emailAddress":"open"#), None);
    assert_eq!(parse_email(r#"{"oauthAccount":{"emailAddress""#), None);
    assert_eq!(parse_email(r#"{"oauthAccount":{"emailAddress":"#), None);
    assert_eq!(parse_email(""), None);
}

#[test]
fn text_before_the_account_does_not_matter() {
    let account = r#""oauthAccount":{"emailAddress":"me@x.io"}"#;
    let long = format!("{{\"emailAddress\":\"no@x.io\",{account}");
    assert_eq!(parse_email(&long), parse_email(account));
}

#[test]
fn text_behind_the_account_does_not_matter() {
    for account in [r#"{"oauthAccount":{"emailAddress":"me@x.io"}"#, r#"{"oauthAccount":{}"#] {
        let long = format!("{account},\"oauthAccount\":{{\"emailAddress\":\"no@x.io\"}}}}");
        assert_eq!(parse_email(&long), parse_email(account));
    }
}
