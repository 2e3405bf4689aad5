use vstd::prelude::*;

use crate::chars::to_chars;
use crate::chat::{elide, elided};
use crate::text::{trim, trim_chars};

verus! {

/// What pressing Send does with the composer's text and attachments.
#[derive(Debug, PartialEq, Eq)]
pub enum SendPlan {
    /// Nothing to send.
    Nothing,
    /// Attachments, but no peer online to receive them.
    NoRecipient,
    /// Send the text (trimmed, when there is any) and the attachments.
    Send { content: Option<String>, with_attachments: bool },
}

/// The view of a send plan.
pub enum PlanView {
    Nothing,
    NoRecipient,
    Send { content: Option<Seq<char>>, with_attachments: bool },
}

impl View for SendPlan {
    type V = PlanView;

    open spec fn view(&self) -> PlanView {
        match self {
            SendPlan::Nothing => PlanView::Nothing,
            SendPlan::NoRecipient => PlanView::NoRecipient,
            SendPlan::Send { content, with_attachments } => PlanView::Send {
                content: match content {
                    Some(c) => Some(c@),
                    None => None,
                },
                with_attachments: *with_attachments,
            },
        }
    }
}

/// What Send does: nothing without text or attachments; a refusal when
/// there are attachments and nobody to send them to; otherwise the trimmed
/// text, if it is not blank, and the attachments.
pub open spec fn plan_of(text: Seq<char>, attachments: nat, targets: nat) -> PlanView {
    let has_message = trim(text).len() > 0;
    let has_attachments = attachments > 0;
    if !has_message && !has_attachments {
        PlanView::Nothing
    } else if has_attachments && targets == 0 {
        PlanView::NoRecipient
    } else {
        PlanView::Send {
            content: if has_message {
                Some(trim(text))
            } else {
                None
            },
            with_attachments: has_attachments,
        }
    }
}

/// Decides what Send does with `text`, `attachments` pending attachments and
/// `targets` peers online in the conversation.
pub fn send_plan(text: &str, attachments: usize, targets: usize) -> (r: SendPlan)
    ensures
        r@ == plan_of(text@, attachments as nat, targets as nat),
{
    let trimmed = trim_chars(&to_chars(text));
    let has_message = trimmed.len() > 0;
    let has_attachments = attachments > 0;
    if !has_message && !has_attachments {
        return SendPlan::Nothing;
    }
    if has_attachments && targets == 0 {
        return SendPlan::NoRecipient;
    }
    let content = if has_message {
        proof {
            assert(trimmed@.subrange(0, trimmed@.len() as int) =~= trimmed@);
        }
        Some(crate::chars::string_of(trimmed.as_slice(), 0, trimmed.len()))
    } else {
        None
    };
    SendPlan::Send { content, with_attachments: has_attachments }
}

/// The largest message, in bytes on the wire, that a peer accepts (8 MiB);
/// the composer's own cap does not protect it.
pub const MAX_LOGICAL_MESSAGE: usize = 8388608;

/// How pressing Send ends.
#[derive(Clone, Copy, Debug, PartialEq, Eq, Structural)]
pub enum SendEnd {
    /// Nothing to send.
    Nothing,
    /// Attachments, but nobody online to receive them: the user is told.
    NoRecipient,
    /// The message is larger than a peer accepts: the user is told.
    TooLarge,
    /// The message could not be queued.
    NotQueued,
    /// Everything went: the composer is cleared.
    Sent,
}

/// Whether a message of `wire_size` bytes on the wire may be sent.
pub fn wire_size_allowed(wire_size: usize) -> (r: bool)
    ensures
        r == (wire_size <= MAX_LOGICAL_MESSAGE),
{
    wire_size <= MAX_LOGICAL_MESSAGE
}

/// How Send ends for `plan`, given the wire size of the message built from
/// its text and whether that message was queued (both read only when the
/// plan sends a text).
pub open spec fn send_end_of(plan: PlanView, wire_size: int, queued: bool) -> SendEnd {
    match plan {
        PlanView::Nothing => SendEnd::Nothing,
        PlanView::NoRecipient => SendEnd::NoRecipient,
        PlanView::Send { content, .. } => match content {
            Some(_) => if wire_size > MAX_LOGICAL_MESSAGE {
                SendEnd::TooLarge
            } else if !queued {
                SendEnd::NotQueued
            } else {
                SendEnd::Sent
            },
            None => SendEnd::Sent,
        },
    }
}

/// `t` without its last character when that is a line break.
pub open spec fn without_final_newline(t: Seq<char>) -> Seq<char> {
    if t.len() > 0 && t.last() == '\n' {
        t.drop_last()
    } else {
        t
    }
}

/// Ends a press of Send: when everything went, the composer is emptied
/// (no text, cursor at the start, no selection, no attachment, no reply);
/// otherwise it is kept, except that a text that was sent for has lost a
/// final line break.
pub fn finish_send(
    plan: &SendPlan,
    wire_size: usize,
    queued: bool,
    text: &mut String,
    cursor_char: &mut usize,
    selection_anchor: &mut Option<usize>,
    attachments: &mut Vec<String>,
    replying_to: &mut Option<u64>,
) -> (r: SendEnd)
    ensures
        r == send_end_of(plan@, wire_size as int, queued),
        r == SendEnd::Sent ==> {
            &&& final(text)@ == Seq::<char>::empty()
            &&& *final(cursor_char) == 0
            &&& *final(selection_anchor) == None::<usize>
            &&& final(attachments)@.len() == 0
            &&& *final(replying_to) == None::<u64>
        },
        r != SendEnd::Sent ==> {
            &&& final(text)@ == if plan@ matches PlanView::Send { content: Some(_), .. } {
                without_final_newline(old(text)@)
            } else {
                old(text)@
            }
            &&& *final(cursor_char) == *old(cursor_char)
            &&& *final(selection_anchor) == *old(selection_anchor)
            &&& final(attachments)@ == old(attachments)@
            &&& *final(replying_to) == *old(replying_to)
        },
{
    let has_text = match plan {
        SendPlan::Nothing => {
            return SendEnd::Nothing;
        },
        SendPlan::NoRecipient => {
            return SendEnd::NoRecipient;
        },
        SendPlan::Send { content, .. } => content.is_some(),
    };
    if has_text {
        let chars = to_chars(text.as_str());
        let n = chars.len();
        if n > 0 && chars[n - 1] == '\n' {
            *text = crate::chars::string_of(chars.as_slice(), 0, n - 1);
            proof {
                assert(text@ =~= old(text)@.drop_last());
            }
        }
        if !wire_size_allowed(wire_size) {
            return SendEnd::TooLarge;
        }
        if !queued {
            return SendEnd::NotQueued;
        }
    }
    *text = String::new();
    *cursor_char = 0;
    *selection_anchor = None;
    attachments.clear();
    *replying_to = None;
    SendEnd::Sent
}

/// A search query needs at least this many characters.
pub const MIN_QUERY_CHARS: usize = 2;

/// What submitting the search field does.
#[derive(Clone, Copy, Debug, PartialEq, Eq, Structural)]
pub enum SearchStep {
    /// Nothing: the search is closed, or the query was already submitted.
    Unchanged,
    /// The query is too short: the results are cleared.
    Cleared,
    /// The query is searched for.
    Run,
}

/// Submits the search field: the trimmed query becomes the submitted one,
/// unless the search is closed or the query was already submitted.
pub fn submit_search_step(open: bool, query: &str, submitted: &mut String) -> (r: SearchStep)
    ensures
        !open || trim(query@) == old(submitted)@ ==> r == SearchStep::Unchanged
            && final(submitted)@ == old(submitted)@,
        open && trim(query@) != old(submitted)@ ==> {
            &&& final(submitted)@ == trim(query@)
            &&& r == if trim(query@).len() < MIN_QUERY_CHARS {
                SearchStep::Cleared
            } else {
                SearchStep::Run
            }
        },
{
    if !open {
        return SearchStep::Unchanged;
    }
    let trimmed = trim_chars(&to_chars(query));
    proof {
        assert(trimmed@.subrange(0, trimmed@.len() as int) =~= trimmed@);
    }
    let q = crate::chars::string_of(trimmed.as_slice(), 0, trimmed.len());
    if crate::chars::text_eq(q.as_str(), submitted.as_str()) {
        return SearchStep::Unchanged;
    }
    let n = trimmed.len();
    *submitted = q;
    if n < MIN_QUERY_CHARS {
        SearchStep::Cleared
    } else {
        SearchStep::Run
    }
}

/// The body of a system notification for a message: its text, shortened to
/// 120 characters, when previews are on; otherwise `new_message_label`.
pub fn native_body(content: &str, preview: bool, new_message_label: &str) -> (r: String)
    ensures
        r@ == if preview {
            elided(content@, 120)
        } else {
            new_message_label@
        },
{
    if preview {
        elide(content, 120)
    } else {
        String::from_str(new_message_label)
    }
}

} // verus!
