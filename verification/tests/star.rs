use dotbot::star::{
    displayed_emoji, first_post_title, most_common_unicode_reaction, star_title, starboard_description,
    starboard_image, AttachmentLink, ReplyPreview,
};

#[test]
fn plain_star_is_shown_glowing() {
    assert_eq!(displayed_emoji("\u{2b50}"), "\u{1f31f}");
    assert_eq!(displayed_emoji("\u{1f525}"), "\u{1f525}");
    assert_eq!(displayed_emoji("\u{2b50}\u{2b50}"), "\u{2b50}\u{2b50}");
}

#[test]
fn title_shows_count_and_emoji() {
    assert_eq!(star_title(5, "\u{1f31f}"), "5 \u{1f31f}");
    assert_eq!(star_title(12, "x"), "12 x");
    assert_eq!(star_title(0, "x"), "0 x");
    assert_eq!(first_post_title("x"), "3 x");
}

#[test]
fn description_of_a_plain_message() {
    let d = starboard_description(None, "hello", None, "https://l/1");
    assert_eq!(d, "hello\n\n[Jump to message](https://l/1)");
}

#[test]
fn description_of_a_reply_with_attachment() {
    let reply = ReplyPreview {
        author_name: String::from("ann"),
        link: String::from("https://l/0"),
        content: "a".repeat(120),
    };
    let att = AttachmentLink { filename: String::from("f.png"), url: String::from("https://c/f.png") };
    let d = starboard_description(Some(&reply), "hi", Some(&att), "https://l/1");
    let expected = format!(
        "<:reply:1176214702754377868> replying to [ann](https://l/0): {}\nhi\n[f.png](https://c/f.png)\n\n[Jump to message](https://l/1)",
        "a".repeat(100)
    );
    assert_eq!(d, expected);
}

#[test]
fn image_prefers_attachment_then_link() {
    assert_eq!(starboard_image("see http://x", Some("https://a")), Some(String::from("https://a")));
    assert_eq!(starboard_image("see http://x y", None), Some(String::from("http://x y")));
    assert_eq!(starboard_image("no link", None), None);
    assert_eq!(starboard_image("htt", None), None);
}

#[test]
fn most_common_reaction_adds_up_counts() {
    let rs = vec![
        (String::from("a"), 2u64),
        (String::from("b"), 3u64),
        (String::from("a"), 2u64),
    ];
    assert_eq!(most_common_unicode_reaction(&rs), Some(String::from("a")));
    assert_eq!(most_common_unicode_reaction(&vec![]), None);
    assert_eq!(most_common_unicode_reaction(&vec![(String::from("z"), 1u64)]), Some(String::from("z")));
}
