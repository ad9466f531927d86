use nsa::link_rewriter::{
    plan_reply, rewrite_captured_link, rewrite_links, spoiler_ranges, url_captures, CompiledPattern,
    DiscordLinkRewriter, LinkReply, Rewrites, URL_PATTERN,
};

#[test]
fn rewrite_twitter() {
    let test_link = "https://twitter.com/FAKEURL";

    let caps = url_captures(test_link).unwrap();
    let result_link = rewrite_captured_link(&caps[0]).unwrap();
    assert_eq!(result_link, "https://fxtwitter.com/FAKEURL")
}

#[test]
fn rewrite_twitter_with_prefix_and_suffix() {
    let test_link = "Heres some stuff: https://twitter.com/FAKEURL and here's even more stuff";

    let caps = url_captures(test_link).unwrap();
    let result_link = rewrite_captured_link(&caps[0]).unwrap();
    assert_eq!(result_link, "https://fxtwitter.com/FAKEURL")
}

#[test]
fn rewrite_xcom() {
    let test_link = "https://x.com/FAKEURL";

    let caps = url_captures(test_link).unwrap();
    let result_link = rewrite_captured_link(&caps[0]).unwrap();
    assert_eq!(result_link, "https://fxtwitter.com/FAKEURL")
}

#[test]
fn rewrite_bluesky() {
    let test_link = "https://bsky.app/profile/FAKEHANDLE.bsky.social/post/FAKEPOST";

    let caps = url_captures(test_link).unwrap();
    let result_link = rewrite_captured_link(&caps[0]).unwrap();
    assert_eq!(
        result_link,
        "https://fxbsky.app/profile/FAKEHANDLE.bsky.social/post/FAKEPOST"
    )
}

#[test]
fn dont_rewrite_fxtwitter() {
    let test_link = "https://fxtwitter.com/FAKEURL";

    let caps = url_captures(test_link).unwrap();
    let result_link = rewrite_captured_link(&caps[0]);
    assert_eq!(result_link, None)
}

#[test]
fn dont_rewrite_fxbsky() {
    let test_link = "https://fxbsky.app/profile/FAKEHANDLE.bsky.social/post/FAKEPOST";

    let caps = url_captures(test_link).unwrap();
    let result_link = rewrite_captured_link(&caps[0]);
    assert_eq!(result_link, None)
}

#[test]
fn rewrite_pixiv() {
    let test_link = "https://www.pixiv.net/FAKEURL";

    let caps = url_captures(test_link).unwrap();
    let result_link = rewrite_captured_link(&caps[0]).unwrap();
    assert_eq!(result_link, "https://www.phixiv.net/FAKEURL")
}

#[test]
fn spoilered_link_yields_spoilered_rewrite() {
    let result = rewrite_links("||https://twitter.com/FAKEURL||").unwrap();
    assert_eq!(result.links, vec!["||https://fxtwitter.com/FAKEURL||"]);
}

#[test]
fn spoilered_link_with_surrounding_text() {
    let result = rewrite_links("look at this ||https://x.com/FAKEURL|| crazy").unwrap();
    assert_eq!(result.links, vec!["||https://fxtwitter.com/FAKEURL||"]);
}

#[test]
fn unspoilered_link_is_not_wrapped() {
    let result = rewrite_links("https://twitter.com/FAKEURL").unwrap();
    assert_eq!(result.links, vec!["https://fxtwitter.com/FAKEURL"]);
}

#[test]
fn mixed_spoilered_and_plain_links() {
    let result = rewrite_links("||https://twitter.com/A|| and https://bsky.app/B").unwrap();
    assert_eq!(
        result.links,
        vec!["||https://fxtwitter.com/A||", "https://fxbsky.app/B"]
    );
}

#[test]
fn unmatched_spoiler_delimiter_is_ignored() {
    // a lone trailing `||` doesn't open a spoiler region
    let result = rewrite_links("https://twitter.com/FAKEURL ||").unwrap();
    assert_eq!(result.links, vec!["https://fxtwitter.com/FAKEURL"]);
}

#[test]
fn bare_link_is_only_rewritten_links() {
    assert!(rewrite_links("https://twitter.com/FAKEURL").unwrap().only_rewritten_links);
}

#[test]
fn bare_link_with_surrounding_whitespace_is_only_rewritten_links() {
    assert!(rewrite_links("  https://twitter.com/FAKEURL\n").unwrap().only_rewritten_links);
}

#[test]
fn multiple_bare_links_are_only_rewritten_links() {
    assert!(rewrite_links("https://twitter.com/A https://bsky.app/B").unwrap().only_rewritten_links);
}

#[test]
fn spoilered_bare_link_is_only_rewritten_links() {
    // spoiler delimiters are formatting, not words
    assert!(rewrite_links("||https://twitter.com/FAKEURL||").unwrap().only_rewritten_links);
}

#[test]
fn formatted_bare_link_is_only_rewritten_links() {
    // bold markers are formatting, not words
    assert!(rewrite_links("**https://twitter.com/FAKEURL**").unwrap().only_rewritten_links);
}

#[test]
fn link_with_extra_text_is_not_only_rewritten_links() {
    assert!(!rewrite_links("look at this https://twitter.com/FAKEURL").unwrap().only_rewritten_links);
}

#[test]
fn link_with_text_inside_spoiler_is_not_only_rewritten_links() {
    assert!(!rewrite_links("||secret https://twitter.com/FAKEURL||").unwrap().only_rewritten_links);
}

#[test]
fn rewritten_link_alongside_foreign_link_is_not_only_rewritten_links() {
    // the unrewritten link is additional content we must not delete
    let result = rewrite_links("https://twitter.com/A https://youtube.com/B").unwrap();
    assert_eq!(result.links, vec!["https://fxtwitter.com/A"]);
    assert!(!result.only_rewritten_links);
}

#[test]
fn no_rewritten_links_is_not_only_rewritten_links() {
    assert!(!rewrite_links("just some text, no links").unwrap().only_rewritten_links);
}

#[test]
fn rewrite_nytimes() {
    let test_link = "https://www.nytimes.com/FAKEURL";

    let caps = url_captures(test_link).unwrap();
    let result_link = rewrite_captured_link(&caps[0]).unwrap();
    assert_eq!(
        result_link,
        "https://yeet.knx.pw/https://www.nytimes.com/FAKEURL"
    )
}

#[test]
fn rewrite_atlantic_keeps_whole_url_behind_proxy() {
    let result = rewrite_links("read https://www.atlantic.com/a/b?c=1").unwrap();
    assert_eq!(result.links, vec!["https://yeet.knx.pw/https://www.atlantic.com/a/b?c=1"]);
}

#[test]
fn url_captures_find_every_url_in_order() {
    let content = "a https://x.com/1 b https://example.org/2";
    let caps = url_captures(content).unwrap();
    assert_eq!(caps.len(), 2);
    assert_eq!(caps[0].url(), "https://x.com/1");
    assert_eq!(caps[1].url(), "https://example.org/2");
}

#[test]
fn url_captures_on_text_without_urls_is_empty() {
    assert!(url_captures("no links here").unwrap().is_empty());
}

#[test]
fn rewrite_keeps_multibyte_text_around_links() {
    let result = rewrite_links("ü https://twitter.com/ä ü").unwrap();
    assert_eq!(result.links, vec!["https://fxtwitter.com/"]);
    assert!(!result.only_rewritten_links);
}

#[test]
fn unicode_letters_count_as_words() {
    // 'é' is alphanumeric for Unicode, so the original is kept
    assert!(!rewrite_links("é https://twitter.com/A").unwrap().only_rewritten_links);
    // punctuation is not
    assert!(rewrite_links("-> https://twitter.com/A !").unwrap().only_rewritten_links);
}

#[test]
fn spoiler_ranges_pair_delimiters_greedily() {
    let r = spoiler_ranges("||a|| b ||c||");
    assert_eq!(r, vec![0..5, 8..13]);
    let r = spoiler_ranges("||a|| ||");
    assert_eq!(r, vec![0..5]);
    let r = spoiler_ranges("|||x||");
    assert_eq!(r, vec![0..6]);
    assert!(spoiler_ranges("no spoilers").is_empty());
}

#[test]
fn spoiler_ranges_use_byte_offsets() {
    let r = spoiler_ranges("ü||x||");
    assert_eq!(r, vec![2..7]);
}

#[test]
fn plan_reply_replaces_message_of_one_link_inline() {
    let rewrites = Rewrites { links: vec!["https://fxtwitter.com/A".to_string()], only_rewritten_links: true };
    match plan_reply("<@1>", &rewrites) {
        LinkReply::ReplaceOriginal(text) => assert_eq!(text, "<@1> sent: https://fxtwitter.com/A"),
        other => panic!("unexpected {:?}", other),
    }
}

#[test]
fn plan_reply_replaces_message_of_several_links_on_lines() {
    let rewrites = Rewrites {
        links: vec!["https://fxtwitter.com/A".to_string(), "https://fxbsky.app/B".to_string()],
        only_rewritten_links: true,
    };
    match plan_reply("<@1>", &rewrites) {
        LinkReply::ReplaceOriginal(text) => {
            assert_eq!(text, "<@1> sent:\nhttps://fxtwitter.com/A\nhttps://fxbsky.app/B")
        }
        other => panic!("unexpected {:?}", other),
    }
}

#[test]
fn plan_reply_replies_when_message_has_more() {
    let rewrites = Rewrites {
        links: vec!["https://fxtwitter.com/A".to_string(), "https://fxbsky.app/B".to_string()],
        only_rewritten_links: false,
    };
    match plan_reply("<@1>", &rewrites) {
        LinkReply::ReplyAndSuppress(text) => assert_eq!(text, "https://fxtwitter.com/A\nhttps://fxbsky.app/B"),
        other => panic!("unexpected {:?}", other),
    }
}

#[test]
fn plan_reply_does_nothing_without_links() {
    let rewrites = Rewrites { links: vec![], only_rewritten_links: false };
    assert!(matches!(plan_reply("<@1>", &rewrites), LinkReply::Nothing));
}

#[test]
fn answer_ignores_bots_and_plain_text() {
    let rewriter = DiscordLinkRewriter::new();
    assert!(matches!(rewriter.answer(true, "<@1>", "https://twitter.com/A"), Ok(LinkReply::Nothing)));
    assert!(matches!(rewriter.answer(false, "<@1>", "hello"), Ok(LinkReply::Nothing)));
    match rewriter.answer(false, "<@7>", "https://x.com/A") {
        Ok(LinkReply::ReplaceOriginal(text)) => assert_eq!(text, "<@7> sent: https://fxtwitter.com/A"),
        other => panic!("unexpected {:?}", other),
    }
    match rewriter.answer(false, "<@7>", "see https://x.com/A") {
        Ok(LinkReply::ReplyAndSuppress(text)) => assert_eq!(text, "https://fxtwitter.com/A"),
        other => panic!("unexpected {:?}", other),
    }
}

#[test]
fn url_pattern_compiles_and_broken_patterns_do_not() {
    assert!(CompiledPattern::new(URL_PATTERN).is_ok());
    assert!(CompiledPattern::new("https?://(").is_err());
}

#[test]
fn greeting_before_links_keeps_the_original() {
    let plain = rewrite_links("https://twitter.com/A https://bsky.app/B").unwrap();
    let greeted = rewrite_links("hi https://twitter.com/A https://bsky.app/B").unwrap();
    assert!(plain.only_rewritten_links);
    assert_eq!(greeted.links, plain.links);
    assert!(!greeted.only_rewritten_links);
}
