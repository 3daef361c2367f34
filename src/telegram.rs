//! Status levels, queue messages and the builder that lays them out.
use vstd::prelude::*;
use vstd::string::StringExecFns;

use crate::markup::{sanitize, sanitized};

verus! {

/// The status level of a message, shown as a glyph in front of it.
#[derive(Clone, Copy, Debug, PartialEq, Eq, Structural)]
pub enum MessageStatus {
    Plain,
    Info,
    Warn,
    Error,
    Success,
}

/// The glyph that shows a status; empty for `Plain`.
pub open spec fn glyph(status: MessageStatus) -> Seq<char> {
    match status {
        MessageStatus::Plain => Seq::empty(),
        MessageStatus::Info => seq!['\u{2139}', '\u{fe0f}'],
        MessageStatus::Warn => seq!['\u{26a0}', '\u{fe0f}'],
        MessageStatus::Error => seq!['\u{1f6a8}'],
        MessageStatus::Success => seq!['\u{2705}'],
    }
}

/// What stands before the label: nothing for `Plain`, else the glyph and ` - `.
pub open spec fn status_prefix(status: MessageStatus) -> Seq<char> {
    if status == MessageStatus::Plain {
        Seq::empty()
    } else {
        glyph(status) + seq![' ', '-', ' ']
    }
}

/// The laid-out text: the status prefix, the label in italics, a line break
/// and the content.
pub open spec fn layout(status: MessageStatus, label: Seq<char>, content: Seq<char>) -> Seq<
    char,
> {
    status_prefix(status) + seq!['<', 'i', '>'] + label + seq!['<', '/', 'i', '>', '\n'] + content
}

impl MessageStatus {
    /// The glyph associated with the status.
    pub fn emoji(&self) -> (r: &'static str)
        ensures
            r@ == glyph(*self),
    {
        match self {
            MessageStatus::Plain => {
                proof {
                    reveal_strlit("");
                }
                ""
            },
            MessageStatus::Info => {
                proof {
                    reveal_strlit("\u{2139}\u{fe0f}");
                }
                let r = "\u{2139}\u{fe0f}";
                assert(r@ =~= glyph(*self));
                r
            },
            MessageStatus::Warn => {
                proof {
                    reveal_strlit("\u{26a0}\u{fe0f}");
                }
                let r = "\u{26a0}\u{fe0f}";
                assert(r@ =~= glyph(*self));
                r
            },
            MessageStatus::Error => {
                proof {
                    reveal_strlit("\u{1f6a8}");
                }
                let r = "\u{1f6a8}";
                assert(r@ =~= glyph(*self));
                r
            },
            MessageStatus::Success => {
                proof {
                    reveal_strlit("\u{2705}");
                }
                let r = "\u{2705}";
                assert(r@ =~= glyph(*self));
                r
            },
        }
    }
}

/// A message taken from the queue, to be delivered to a chat.
#[derive(Clone, Debug)]
pub struct TelegramQueueMessage {
    pub chat_id: i64,
    pub message: String,
    pub force_send: bool,
}

impl TelegramQueueMessage {
    /// A message with the given fields.
    pub fn new(chat_id: i64, message: String, force_send: bool) -> (r: Self)
        ensures
            r.chat_id == chat_id,
            r.message@ == message@,
            r.force_send == force_send,
    {
        TelegramQueueMessage { chat_id, message, force_send }
    }

    /// A builder for a laid-out message to the given chat.
    pub fn builder(chat_id: i64) -> (r: TelegramMessageBuilder)
        ensures
            r.is_fresh(chat_id),
    {
        TelegramMessageBuilder::new(chat_id)
    }

    /// Makes the text safe to send: keeps at most `max_message_length`
    /// characters, escapes it, appends `...` when something was cut, and
    /// re-enables the allowed formatting tags.
    pub fn sanitize_message(&mut self, max_message_length: usize)
        ensures
            final(self).message@ == sanitized(old(self).message@, max_message_length as nat),
            final(self).chat_id == old(self).chat_id,
            final(self).force_send == old(self).force_send,
    {
        self.message = sanitize(self.message.as_str(), max_message_length);
    }
}

/// Lays out a message from a status, a label and content.
pub struct TelegramMessageBuilder {
    chat_id: i64,
    status: MessageStatus,
    job_name: String,
    content: String,
    force_send: bool,
}

impl TelegramMessageBuilder {
    /// The chat the message goes to.
    pub closed spec fn spec_chat_id(&self) -> i64 {
        self.chat_id
    }

    /// The status level.
    pub closed spec fn spec_status(&self) -> MessageStatus {
        self.status
    }

    /// The label, shown in italics.
    pub closed spec fn spec_job_name(&self) -> Seq<char> {
        self.job_name@
    }

    /// The free text below the label.
    pub closed spec fn spec_content(&self) -> Seq<char> {
        self.content@
    }

    /// Whether the message bypasses batching on delivery.
    pub closed spec fn spec_force_send(&self) -> bool {
        self.force_send
    }

    /// A builder with nothing set but the chat.
    pub open spec fn is_fresh(&self, chat_id: i64) -> bool {
        &&& self.spec_chat_id() == chat_id
        &&& self.spec_status() == MessageStatus::Plain
        &&& self.spec_job_name() == Seq::<char>::empty()
        &&& self.spec_content() == Seq::<char>::empty()
        &&& !self.spec_force_send()
    }

    /// A builder for the given chat, with no status, an empty label, empty
    /// content and no forced delivery.
    pub fn new(chat_id: i64) -> (r: Self)
        ensures
            r.is_fresh(chat_id),
    {
        TelegramMessageBuilder {
            chat_id,
            status: MessageStatus::Plain,
            job_name: String::new(),
            content: String::new(),
            force_send: false,
        }
    }

    /// Sets the status level, which puts a glyph in front of the label.
    pub fn status(self, status: MessageStatus) -> (r: Self)
        ensures
            r.spec_status() == status,
            r.spec_chat_id() == self.spec_chat_id(),
            r.spec_job_name() == self.spec_job_name(),
            r.spec_content() == self.spec_content(),
            r.spec_force_send() == self.spec_force_send(),
    {
        TelegramMessageBuilder { status, ..self }
    }

    /// Sets the label, which is shown in italics.
    pub fn job_name(self, job_name: &str) -> (r: Self)
        ensures
            r.spec_job_name() == job_name@,
            r.spec_chat_id() == self.spec_chat_id(),
            r.spec_status() == self.spec_status(),
            r.spec_content() == self.spec_content(),
            r.spec_force_send() == self.spec_force_send(),
    {
        TelegramMessageBuilder { job_name: String::from_str(job_name), ..self }
    }

    /// Sets the content.
    pub fn content(self, content: &str) -> (r: Self)
        ensures
            r.spec_content() == content@,
            r.spec_chat_id() == self.spec_chat_id(),
            r.spec_status() == self.spec_status(),
            r.spec_job_name() == self.spec_job_name(),
            r.spec_force_send() == self.spec_force_send(),
    {
        TelegramMessageBuilder { content: String::from_str(content), ..self }
    }

    /// Sets whether the message bypasses batching on delivery.
    pub fn force_send(self, force_send: bool) -> (r: Self)
        ensures
            r.spec_force_send() == force_send,
            r.spec_chat_id() == self.spec_chat_id(),
            r.spec_status() == self.spec_status(),
            r.spec_job_name() == self.spec_job_name(),
            r.spec_content() == self.spec_content(),
    {
        TelegramMessageBuilder { force_send, ..self }
    }

    /// The message, laid out as `{glyph} - <i>{job_name}</i>\n{content}`,
    /// with no glyph and no ` - ` when the status is `Plain`.
    pub fn build(self) -> (r: TelegramQueueMessage)
        ensures
            r.chat_id == self.spec_chat_id(),
            r.message@ == layout(self.spec_status(), self.spec_job_name(), self.spec_content()),
            r.force_send == self.spec_force_send(),
    {
        broadcast use vstd::string::group_string_axioms;

        let mut message = if self.status == MessageStatus::Plain {
            String::new()
        } else {
            let sep = " - ";
            proof {
                reveal_strlit(" - ");
            }
            assert(sep@ =~= seq![' ', '-', ' ']);
            String::from_str(self.status.emoji()).concat(sep)
        };
        assert(message@ =~= status_prefix(self.status));
        let open = "<i>";
        let close = "</i>\n";
        proof {
            reveal_strlit("<i>");
            reveal_strlit("</i>\n");
        }
        assert(open@ =~= seq!['<', 'i', '>']);
        assert(close@ =~= seq!['<', '/', 'i', '>', '\n']);
        message.append(open);
        message.append(self.job_name.as_str());
        message.append(close);
        message.append(self.content.as_str());
        TelegramQueueMessage { chat_id: self.chat_id, message, force_send: self.force_send }
    }
}

} // verus!
