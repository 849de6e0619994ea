use slackfmt::formatter::format_message;
use slackfmt::{Directory, Snapshot, Value};

fn entity(id: &str, name: &str) -> Value {
    Value::Record(vec![
        (String::from("id"), Value::Str(String::from(id))),
        (String::from("name"), Value::Str(String::from(name))),
    ])
}

fn make_directory() -> Directory {
    let snapshot = Snapshot {
        users: Some(vec![entity("U12345", "user12345"), entity("U99999", "user99999")]),
        channels: Some(vec![entity("C56789", "ch56789")]),
        groups: None,
        mpims: None,
        ims: None,
    };
    Directory::build(&snapshot)
}

fn empty_directory() -> Directory {
    let snapshot = Snapshot { users: None, channels: None, groups: None, mpims: None, ims: None };
    Directory::build(&snapshot)
}

#[test]
fn test_format_message() {
    let id_to_object = make_directory();

    assert_eq!(format_message("normal message", &id_to_object), "normal message");

    assert_eq!(
        format_message("<@U12345>, <@U99999> and <@U00000>", &id_to_object),
        "@user12345, @user99999 and @U00000",
    );

    assert_eq!(format_message("<#C56789> <#C56789|ch>", &id_to_object), "#ch56789 #ch");

    assert_eq!(
        format_message(
            "<https://www.example.com/|example> my site <https://www.example.com/>",
            &id_to_object
        ),
        "example my site https://www.example.com/",
    );

    assert_eq!(
        format_message("<!subteam^S00000000|@subteam> <!channnel> <!here>", &id_to_object),
        "@subteam @channnel @here",
    );

    assert_eq!(
        format_message("Foo &lt;!everyone&gt; bar <http://test.com>", &id_to_object),
        "Foo <!everyone> bar http://test.com",
    );
}

#[test]
fn plain_text_is_identity() {
    let dir = make_directory();
    assert_eq!(format_message("", &dir), "");
    assert_eq!(format_message("no tokens here. 100% plain > text!", &dir), "no tokens here. 100% plain > text!");
    assert_eq!(format_message("a|b#c@d!e;f", &dir), "a|b#c@d!e;f");
}

#[test]
fn escapes_resolve_to_characters() {
    let dir = empty_directory();
    assert_eq!(format_message("&amp;", &dir), "&");
    assert_eq!(format_message("&lt;", &dir), "<");
    assert_eq!(format_message("&gt;", &dir), ">");
    // only the three names are escapes
    assert_eq!(format_message("&foo;", &dir), "&foo;");
    assert_eq!(format_message("&amp", &dir), "&amp");
}

#[test]
fn known_user_mention_resolves_to_name() {
    let dir = make_directory();
    assert_eq!(format_message("<@U12345>", &dir), "@user12345");
}

#[test]
fn unknown_mention_keeps_sign_and_reference() {
    let dir = make_directory();
    assert_eq!(format_message("<@U00000>", &dir), "@U00000");
}

#[test]
fn title_wins_over_lookup() {
    // identical result whether the channel is absent or present: the
    // title renders (prefixed by the sign), never the looked-up name
    let absent = empty_directory();
    assert_eq!(format_message("<#C1|display>", &absent), "#display");
    let present = Directory::build(&Snapshot {
        users: None,
        channels: Some(vec![entity("C1", "general")]),
        groups: None,
        mpims: None,
        ims: None,
    });
    assert_eq!(format_message("<#C1|display>", &present), "#display");
}

#[test]
fn special_sign_with_title_strips_sign() {
    let dir = empty_directory();
    assert_eq!(format_message("<!subteam^S1|@subteam>", &dir), "@subteam");
}

#[test]
fn special_sign_without_title_prefixes_at() {
    let dir = empty_directory();
    assert_eq!(format_message("<!here>", &dir), "@here");
}

#[test]
fn bare_link_passes_reference_through() {
    let dir = empty_directory();
    assert_eq!(format_message("<https://x.test/>", &dir), "https://x.test/");
    assert_eq!(format_message("<https://x.test/|label>", &dir), "label");
}

#[test]
fn entity_without_name_falls_back_to_reference() {
    let no_name = Value::Record(vec![(String::from("id"), Value::Str(String::from("X1")))]);
    let dir = Directory::build(&Snapshot {
        users: Some(vec![no_name]),
        channels: None,
        groups: None,
        mpims: None,
        ims: None,
    });
    assert_eq!(format_message("<@X1>", &dir), "@X1");
}

#[test]
fn unmatched_markup_passes_through() {
    let dir = make_directory();
    // no closing bracket
    assert_eq!(format_message("a < b", &dir), "a < b");
    assert_eq!(format_message("<@U12345", &dir), "<@U12345");
    // a bracket never spans a line break
    assert_eq!(format_message("<a\nb>", &dir), "<a\nb>");
}

#[test]
fn pipe_and_close_edge_cases() {
    let dir = empty_directory();
    // an empty bracket renders as nothing
    assert_eq!(format_message("<>", &dir), "");
    // a pipe right before the close has no title: it joins the reference
    assert_eq!(format_message("<a|>", &dir), "a|");
    // unless a later close lets a title start with that `>`
    assert_eq!(format_message("<a|>x>", &dir), ">x");
    // the first pipe splits; later pipes belong to the title
    assert_eq!(format_message("<a|b|c>", &dir), "b|c");
}
