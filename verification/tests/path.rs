use wire_binding::path::{join_path, lookup, split_path, PathTemplate, Segment};
use wire_binding::text::{chars_of, key_order, same_text, KeyOrder};

fn pair(key: &str, value: &str) -> (String, String) {
    (key.to_owned(), value.to_owned())
}

#[test]
fn text_is_split_at_each_separator() {
    assert_eq!(split_path(""), vec!["".to_owned()]);
    assert_eq!(split_path("a"), vec!["a".to_owned()]);
    assert_eq!(split_path("/"), vec!["".to_owned(), "".to_owned()]);
    assert_eq!(
        split_path("/a//bé/"),
        vec!["".to_owned(), "a".to_owned(), "".to_owned(), "bé".to_owned(), "".to_owned()]
    );
}

#[test]
fn joining_undoes_splitting() {
    for text in ["", "/", "a/b", "/_matrix/é/{x}/", "//"] {
        assert_eq!(join_path(&split_path(text)), text);
    }
    assert_eq!(join_path(&vec![]), "");
    assert_eq!(join_path(&vec!["a".to_owned(), "b".to_owned()]), "a/b");
}

#[test]
fn a_template_is_cut_into_segments() {
    let template = PathTemplate::new("/_matrix/rooms/{room_id}/send/{}/{a/b}/x{y}");
    assert_eq!(
        template.segments,
        vec![
            Segment::Literal("".to_owned()),
            Segment::Literal("_matrix".to_owned()),
            Segment::Literal("rooms".to_owned()),
            Segment::Placeholder("room_id".to_owned()),
            Segment::Literal("send".to_owned()),
            Segment::Placeholder("".to_owned()),
            Segment::Literal("{a".to_owned()),
            Segment::Literal("b}".to_owned()),
            Segment::Literal("x{y}".to_owned()),
        ]
    );
    assert_eq!(PathTemplate::new("{").segments, vec![Segment::Literal("{".to_owned())]);
}

#[test]
fn placeholders_are_found_by_name() {
    let template = PathTemplate::new("/rooms/{room_id}/event/{event_id}");
    assert!(template.binds("room_id"));
    assert!(template.binds("event_id"));
    assert!(!template.binds("rooms"));
    assert!(!template.binds("room"));
    assert!(!template.binds("Room_id"));
    assert!(!template.binds(""));
}

#[test]
fn a_template_is_filled() {
    let template = PathTemplate::new("/rooms/{room_id}/event/{event_id}");
    let values = vec![pair("event_id", "$e"), pair("room_id", "!r:x"), pair("room_id", "other")];
    assert_eq!(template.render(&values), "/rooms/!r:x/event/$e");
    assert_eq!(template.render(&vec![pair("room_id", "!r:x")]), "/rooms/!r:x/event/{event_id}");
    assert_eq!(template.render(&vec![]), "/rooms/{room_id}/event/{event_id}");
    assert_eq!(PathTemplate::new("/plain").render(&values), "/plain");
    assert_eq!(PathTemplate::new("/{}/x").render(&vec![pair("", "v")]), "/v/x");
}

#[test]
fn a_path_is_matched_against_a_template() {
    let template = PathTemplate::new("/rooms/{room_id}/event/{event_id}");
    assert_eq!(
        template.capture("/rooms/!r:x/event/$e"),
        Some(vec![pair("room_id", "!r:x"), pair("event_id", "$e")])
    );
    assert_eq!(template.capture("/rooms//event/"), Some(vec![pair("room_id", ""), pair("event_id", "")]));
    assert_eq!(template.capture("/rooms/!r:x/events/$e"), None);
    assert_eq!(template.capture("/rooms/!r:x/event"), None);
    assert_eq!(template.capture("/rooms/!r:x/event/$e/"), None);
    assert_eq!(template.capture(""), None);
}

#[test]
fn the_first_pair_of_a_name_is_looked_up() {
    let values = vec![pair("a", "1"), pair("b", "2"), pair("a", "3")];
    assert_eq!(lookup(&values, "a"), Some("1".to_owned()));
    assert_eq!(lookup(&values, "b"), Some("2".to_owned()));
    assert_eq!(lookup(&values, "c"), None);
}

#[test]
fn keys_compare_by_their_bytes() {
    assert_eq!(key_order("a", "b"), KeyOrder::Less);
    assert_eq!(key_order("b", "a"), KeyOrder::Greater);
    assert_eq!(key_order("a", "a"), KeyOrder::Equal);
    assert_eq!(key_order("", ""), KeyOrder::Equal);
    assert_eq!(key_order("", "a"), KeyOrder::Less);
    assert_eq!(key_order("a", "ab"), KeyOrder::Less);
    assert_eq!(key_order("ab", "b"), KeyOrder::Less);
    assert_eq!(key_order("Z", "a"), KeyOrder::Less);
    assert_eq!(key_order("z", "é"), KeyOrder::Less);
    assert_eq!(key_order("é", "z"), KeyOrder::Greater);
    assert_eq!(key_order("\u{ffff}", "\u{10000}"), KeyOrder::Less);
    assert!(same_text("é", "é"));
    assert!(!same_text("e", "é"));
}

#[test]
fn key_order_agrees_with_the_order_of_strings() {
    let keys = ["", "a", "A", "ab", "b", "é", "e\u{301}", "z", "~", "\u{7f}", "\u{80}", "𝄞", "\u{ffff}"];
    for a in keys {
        for b in keys {
            let expected = match a.as_bytes().cmp(b.as_bytes()) {
                std::cmp::Ordering::Less => KeyOrder::Less,
                std::cmp::Ordering::Equal => KeyOrder::Equal,
                std::cmp::Ordering::Greater => KeyOrder::Greater,
            };
            assert_eq!(key_order(a, b), expected, "{a:?} {b:?}");
        }
    }
}

#[test]
fn the_characters_of_a_text_are_listed() {
    assert_eq!(chars_of("aé𝄞"), vec!['a', 'é', '𝄞']);
    assert_eq!(chars_of(""), vec![]);
}
