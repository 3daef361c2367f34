use telegram_queue::telegram::{MessageStatus, TelegramMessageBuilder, TelegramQueueMessage};

#[test]
fn error_status_message() {
    let m = TelegramMessageBuilder::new(42)
        .status(MessageStatus::Error)
        .job_name("ftp")
        .content("failed: timeout")
        .force_send(false)
        .build();
    assert_eq!(m.chat_id, 42);
    assert_eq!(m.message, "\u{1f6a8} - <i>ftp</i>\nfailed: timeout");
    assert!(!m.force_send);
}

#[test]
fn plain_status_has_no_prefix() {
    let m = TelegramQueueMessage::builder(1)
        .status(MessageStatus::Plain)
        .job_name("backup")
        .content("done")
        .build();
    assert_eq!(m.message, "<i>backup</i>\ndone");
}

#[test]
fn each_status_prefix() {
    let cases = [
        (MessageStatus::Info, "\u{2139}\u{fe0f} - "),
        (MessageStatus::Warn, "\u{26a0}\u{fe0f} - "),
        (MessageStatus::Error, "\u{1f6a8} - "),
        (MessageStatus::Success, "\u{2705} - "),
    ];
    for (status, prefix) in cases {
        let m = TelegramQueueMessage::builder(3).status(status).job_name("j").content("c").build();
        assert_eq!(m.message, format!("{}<i>j</i>\nc", prefix));
    }
}

#[test]
fn emoji_of_each_status() {
    assert_eq!(MessageStatus::Plain.emoji(), "");
    assert_eq!(MessageStatus::Info.emoji(), "\u{2139}\u{fe0f}");
    assert_eq!(MessageStatus::Warn.emoji(), "\u{26a0}\u{fe0f}");
    assert_eq!(MessageStatus::Error.emoji(), "\u{1f6a8}");
    assert_eq!(MessageStatus::Success.emoji(), "\u{2705}");
}

#[test]
fn defaults_of_a_fresh_builder() {
    let m = TelegramQueueMessage::builder(-5).build();
    assert_eq!(m.chat_id, -5);
    assert_eq!(m.message, "<i></i>\n");
    assert!(!m.force_send);
}

#[test]
fn force_send_is_copied() {
    let m = TelegramMessageBuilder::new(9).force_send(true).content("x").build();
    assert!(m.force_send);
    assert_eq!(m.message, "<i></i>\nx");
}

#[test]
fn later_setting_wins() {
    let m = TelegramMessageBuilder::new(9)
        .status(MessageStatus::Warn)
        .status(MessageStatus::Success)
        .job_name("a")
        .job_name("b")
        .build();
    assert_eq!(m.message, "\u{2705} - <i>b</i>\n");
}

#[test]
fn new_message_keeps_fields() {
    let m = TelegramQueueMessage::new(11, "hi".to_string(), true);
    assert_eq!(m.chat_id, 11);
    assert_eq!(m.message, "hi");
    assert!(m.force_send);
}

#[test]
fn built_message_sanitizes_to_same_markup() {
    let mut m = TelegramMessageBuilder::new(42)
        .status(MessageStatus::Error)
        .job_name("ftp")
        .content("a < b")
        .build();
    m.sanitize_message(4096);
    assert_eq!(m.message, "\u{1f6a8} - <i>ftp</i>\na &lt; b");
}
