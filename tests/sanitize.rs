use telegram_queue::markup::{reenable_tags, sanitize};
use telegram_queue::telegram::TelegramQueueMessage;

fn sanitized(text: &str, max: usize) -> String {
    let mut m = TelegramQueueMessage::new(7, text.to_string(), true);
    m.sanitize_message(max);
    assert_eq!(m.chat_id, 7);
    assert!(m.force_send);
    m.message
}

#[test]
fn unknown_tag_stays_escaped() {
    assert_eq!(
        sanitized("<script>alert(1)</script>", 100),
        "&lt;script&gt;alert(1)&lt;/script&gt;"
    );
}

#[test]
fn cut_inside_close_tag() {
    assert_eq!(sanitized("<b>bold</b> and more", 10), "<b>bold&lt;/b...");
}

#[test]
fn empty_input_gives_empty_output() {
    assert_eq!(sanitized("", 10), "");
    assert_eq!(sanitized("", 0), "");
}

#[test]
fn input_at_limit_gets_no_marker() {
    assert_eq!(sanitized("abc", 3), "abc");
    assert_eq!(sanitized("abcd", 3), "abc...");
}

#[test]
fn input_under_limit_gets_no_marker() {
    assert_eq!(sanitized("wait...", 100), "wait...");
    assert_eq!(sanitized("plain", 6), "plain");
}

#[test]
fn limit_counts_characters_not_bytes() {
    assert_eq!(sanitized("h\u{e9}llo w\u{f6}rld", 5), "h\u{e9}llo...");
    assert_eq!(sanitized("\u{e9}\u{e9}\u{e9}", 3), "\u{e9}\u{e9}\u{e9}");
}

#[test]
fn cut_keeps_exactly_the_limit() {
    assert_eq!(sanitized("a<b>c", 4), "a<b>...");
    assert_eq!(sanitized("x&y", 2), "x&amp;...");
    assert_eq!(sanitized("abcdef", 0), "...");
}

#[test]
fn special_characters_are_escaped() {
    assert_eq!(sanitized("a & b", 100), "a &amp; b");
    assert_eq!(sanitized("\"q\" 'a'", 100), "&quot;q&quot; &#x27;a&#x27;");
    assert_eq!(sanitized("1 < 2 > 0", 100), "1 &lt; 2 &gt; 0");
}

#[test]
fn allowed_tags_are_live_again() {
    assert_eq!(sanitized("<b>x</b><i>y</i>", 100), "<b>x</b><i>y</i>");
    assert_eq!(
        sanitized("<tg-spoiler>s</tg-spoiler><blockquote>q</blockquote>", 100),
        "<tg-spoiler>s</tg-spoiler><blockquote>q</blockquote>"
    );
    assert_eq!(sanitized("<s>a</s><strike>b</strike>", 100), "<s>a</s><strike>b</strike>");
}

#[test]
fn other_markup_is_escaped() {
    assert_eq!(sanitized("<B>x</B>", 100), "&lt;B&gt;x&lt;/B&gt;");
    assert_eq!(sanitized("<b class=\"x\">y</b>", 100), "&lt;b class=&quot;x&quot;&gt;y</b>");
    assert_eq!(sanitized("<a href=1>z</a>", 100), "&lt;a href=1&gt;z&lt;/a&gt;");
}

#[test]
fn unbalanced_tags_are_each_re_enabled() {
    assert_eq!(sanitized("<b>open only", 100), "<b>open only");
    assert_eq!(sanitized("close only</code>", 100), "close only</code>");
}

#[test]
fn cut_between_bracket_and_name_stays_escaped() {
    assert_eq!(sanitized("ab<strong>", 3), "ab&lt;...");
}

#[test]
fn safe_text_round_trips() {
    let text = "<b>bold</b> and <i>it</i> <code>c</code> <pre>p</pre> <u>u</u> <em>e</em>";
    assert_eq!(sanitized(text, 200), text);
    let more = "<strong>s</strong><ins>i</ins><del>d</del>";
    assert_eq!(sanitized(more, more.chars().count()), more);
}

#[test]
fn escaped_input_is_escaped_again() {
    assert_eq!(sanitized("&lt;b&gt;", 100), "&amp;lt;b&amp;gt;");
}

#[test]
fn sanitize_function_matches_method() {
    assert_eq!(sanitize("<em>x</em> & y", 100), "<em>x</em> &amp; y");
}

#[test]
fn reenable_tags_turns_only_allowed_tags_live() {
    assert_eq!(
        reenable_tags("&lt;u&gt;x&lt;/u&gt; &lt;p&gt;"),
        "<u>x</u> &lt;p&gt;"
    );
    assert_eq!(reenable_tags("&lt;b&gt"), "&lt;b&gt");
}
