use graph_log::log::{
    cleanup, cleanup_is_defined, parse, parse_is_defined, to_tuple, Log,
};
use graph_log::text::white_space;
use graph_log::tokenize::{tokenize, tokenize_is_defined};

fn strs(v: &[&str]) -> Vec<String> {
    v.iter().map(|s| s.to_string()).collect()
}

fn pair(g: &str, n: &str) -> (String, String) {
    (g.to_string(), n.to_string())
}

#[test]
fn tokenize_plain_message() {
    assert_eq!(tokenize("a -> b"), strs(&["a", "-", ">", "b"]));
}

#[test]
fn tokenize_received_message() {
    assert_eq!(tokenize("a -> b ..."), strs(&["a", "-", ">", "b", "..."]));
}

#[test]
fn tokenize_message_with_args() {
    assert_eq!(
        tokenize("sup -start now-> fare:0"),
        strs(&["sup", "-", "start", "now", "-", ">", "fare:0"])
    );
}

#[test]
fn tokenize_keeps_inner_dash() {
    assert_eq!(tokenize("a-b c-d"), strs(&["a-b", "c-d"]));
}

#[test]
fn tokenize_keeps_spaces_in_quotes() {
    assert_eq!(tokenize("\"hello world\" x"), strs(&["\"hello world\"", "x"]));
    assert_eq!(
        tokenize("a -\"x y\"-> b"),
        strs(&["a", "-", "\"x y\"", "-", ">", "b"])
    );
}

#[test]
fn tokenize_quoted_dash_and_arrow() {
    assert_eq!(tokenize("\"a -> b\""), strs(&["\"a -> b\""]));
}

#[test]
fn tokenize_drops_repeated_spaces() {
    assert_eq!(tokenize("  a   b  "), strs(&["a", "b"]));
    assert_eq!(tokenize(""), Vec::<String>::new());
    assert_eq!(tokenize("   "), Vec::<String>::new());
}

#[test]
fn tokenize_arrow_head_alone() {
    assert_eq!(tokenize("a>b"), strs(&["a", ">", "b"]));
}

#[test]
fn tokenize_trailing_dash_ascii() {
    assert_eq!(tokenize("a-"), strs(&["a-"]));
    assert_eq!(tokenize("a -"), strs(&["a", "-"]));
}

#[test]
fn tokenize_defined_only_where_the_look_ahead_stays_in_the_line() {
    assert!(tokenize_is_defined("a-"));
    assert!(tokenize_is_defined("é -"));
    assert!(!tokenize_is_defined("é-"));
    assert!(!tokenize_is_defined("ab\u{e9}x-"));
    assert!(tokenize_is_defined("\"é-"));
    assert!(tokenize_is_defined(""));
}

#[test]
fn tokenize_non_ascii_inner_dash() {
    assert_eq!(tokenize("é-x"), strs(&["é-x"]));
}

#[test]
fn cleanup_trims_and_unquotes() {
    assert_eq!(cleanup("  'x'  "), "x");
    assert_eq!(cleanup("\"hello world\""), "hello world");
    assert_eq!(cleanup("\"\""), "");
    assert_eq!(cleanup("\t plain \n"), "plain");
}

#[test]
fn cleanup_keeps_mismatched_quotes() {
    assert_eq!(cleanup("\"x'"), "\"x'");
    assert_eq!(cleanup("'x"), "'x");
    assert_eq!(cleanup("\"'x'\""), "'x'");
}

#[test]
fn cleanup_defined_cases() {
    assert!(cleanup_is_defined("x"));
    assert!(cleanup_is_defined("\"\""));
    assert!(!cleanup_is_defined(""));
    assert!(!cleanup_is_defined(" \t "));
    assert!(!cleanup_is_defined("\""));
    assert!(!cleanup_is_defined(" ' "));
}

#[test]
fn to_tuple_forms() {
    assert_eq!(to_tuple("graph:node"), pair("graph", "node"));
    assert_eq!(to_tuple("node"), pair("top-level", "node"));
    assert_eq!(to_tuple(""), pair("top-level", ""));
    assert_eq!(to_tuple("a:"), pair("a", ""));
    assert_eq!(to_tuple(":"), pair("", ""));
}

#[test]
fn to_tuple_more_colons_drops_last_part() {
    assert_eq!(to_tuple("a:b:c"), pair("a", "b"));
    assert_eq!(to_tuple("a:b:c:d"), pair("a", "b:c"));
    assert_eq!(to_tuple("a::"), pair("a", ""));
}

#[test]
fn parse_register_forms() {
    match parse("graph:node") {
        Some(Log::Register(p)) => assert_eq!(p, pair("graph", "node")),
        other => panic!("unexpected {:?}", other),
    }
    match parse("node") {
        Some(Log::Register(p)) => assert_eq!(p, pair("top-level", "node")),
        other => panic!("unexpected {:?}", other),
    }
    match parse("\"quoted node\"") {
        Some(Log::Register(p)) => assert_eq!(p, pair("top-level", "quoted node")),
        other => panic!("unexpected {:?}", other),
    }
    assert!(parse("'two words'").is_none());
}

#[test]
fn parse_plain_send() {
    match parse("a -> b") {
        Some(Log::Send(s, r, args, received)) => {
            assert_eq!(s, pair("top-level", "a"));
            assert_eq!(r, pair("top-level", "b"));
            assert!(args.is_empty());
            assert!(!received);
        }
        other => panic!("unexpected {:?}", other),
    }
}

#[test]
fn parse_received_send() {
    match parse("g:a -> h:b ...") {
        Some(Log::Send(s, r, args, received)) => {
            assert_eq!(s, pair("g", "a"));
            assert_eq!(r, pair("h", "b"));
            assert!(args.is_empty());
            assert!(received);
        }
        other => panic!("unexpected {:?}", other),
    }
}

#[test]
fn parse_send_with_args() {
    match parse("sup -start \"two words\"-> fare:0 ...") {
        Some(Log::Send(s, r, args, received)) => {
            assert_eq!(s, pair("top-level", "sup"));
            assert_eq!(r, pair("fare", "0"));
            assert_eq!(args, strs(&["start", "two words"]));
            assert!(received);
        }
        other => panic!("unexpected {:?}", other),
    }
    match parse("sup -start now-> fare:0") {
        Some(Log::Send(_, r, args, received)) => {
            assert_eq!(r, pair("fare", "0"));
            assert_eq!(args, strs(&["start", "now"]));
            assert!(!received);
        }
        other => panic!("unexpected {:?}", other),
    }
}

#[test]
fn parse_rejects_malformed_lines() {
    assert!(parse("").is_none());
    assert!(parse("a b").is_none());
    assert!(parse("a -> b c").is_none());
    assert!(parse("a -> b ... c").is_none());
    assert!(parse("a -> b c d").is_none());
    assert!(parse("a -x y b").is_none());
    assert!(parse("a -x - b").is_none());
    assert!(parse("a -x-> b c").is_none());
    assert!(parse("a -x-> b .. ").is_none());
    assert!(parse("a -> b ..").is_none());
}

#[test]
fn parse_defined_cases() {
    assert!(parse_is_defined("a -> b"));
    assert!(parse_is_defined("a b"));
    assert!(parse_is_defined(""));
    assert!(!parse_is_defined("a -"));
    assert!(!parse_is_defined("\""));
    assert!(parse_is_defined("\" -> b"));
    assert!(!parse_is_defined("a -> \""));
    assert!(parse_is_defined("a -> \" c"));
    assert!(parse_is_defined("a -x \"-> b"));
    assert!(parse("a -x \"-> b").is_none());
    assert!(!parse_is_defined("a - \t -> b"));
    assert!(!parse_is_defined("é-"));
    assert!(parse_is_defined("a -x y b"));
    assert!(!parse_is_defined("a -x ' b"));
}

#[test]
fn tokens_hold_all_but_delimiting_spaces() {
    let line = "  sup -\"a b\" c-> fare:0 ... ";
    let tokens = tokenize(line);
    assert!(tokens.iter().all(|t| !t.is_empty()));
    let joined: String = tokens.concat();
    assert_eq!(joined, "sup-\"a b\"c->fare:0...");
}

#[test]
fn parse_laws_on_concrete_words() {
    match parse("g:n") {
        Some(Log::Register(p)) => assert_eq!(p, to_tuple("g:n")),
        other => panic!("unexpected {:?}", other),
    }
    match parse("x:1 -a b c-> y:2") {
        Some(Log::Send(s, r, args, received)) => {
            assert_eq!(s, pair("x", "1"));
            assert_eq!(r, pair("y", "2"));
            assert_eq!(args, strs(&["a", "b", "c"]));
            assert!(!received);
        }
        other => panic!("unexpected {:?}", other),
    }
}

#[test]
fn white_space_matches_std() {
    for u in 0u32..=0x10FFFF {
        if let Some(c) = char::from_u32(u) {
            assert_eq!(white_space(c), c.is_whitespace(), "char {:#x}", u);
        }
    }
}

#[test]
fn cleanup_trims_unicode_white_space_as_std() {
    for t in ["\u{a0}x\u{3000}", "\u{2028} \"q\" \u{85}", "\u{200b}x"] {
        let std_trimmed = t.trim();
        let expected = if std_trimmed.len() >= 2
            && ((std_trimmed.starts_with('"') && std_trimmed.ends_with('"'))
                || (std_trimmed.starts_with('\'') && std_trimmed.ends_with('\'')))
        {
            std_trimmed[1..std_trimmed.len() - 1].to_string()
        } else {
            std_trimmed.to_string()
        };
        assert_eq!(cleanup(t), expected);
    }
    assert_eq!(cleanup("\u{a0}x\u{3000}"), "x");
}
