//! What the chat client's screen shows, before any styling: how each log
//! line is laid out, how far the log scrolls, where the mention popup and
//! the input cursor go.

use crate::client::app::{ChatApp, ChatMessage, MessageState};
use crate::protocol::chat::{parse_chat_message, spec_mentions_from, spec_parse_chat};
use crate::text::{spec_starts_with, starts_with_str};
use vstd::prelude::*;
use vstd::string::*;

verus! {

/// How one line of the log is shown.
pub enum LineLayout {
    /// A notice of the client itself, shown as it is.
    System(String),
    /// A chat line, shown by its parts; a pending line is one the server
    /// has not echoed yet; a highlighted one mentions the user.
    Chat { username: String, timestamp: String, body: String, pending: bool, highlighted: bool },
    /// Any other line, shown as it is.
    Plain { text: String, pending: bool, highlighted: bool },
}

/// How a log line with text `text` and state `state` is shown to `user`.
pub open spec fn spec_line_layout(text: Seq<char>, state: MessageState, user: Seq<char>) -> (
    nat,
    Seq<Seq<char>>,
    bool,
    bool,
) {
    let pending = state == MessageState::Pending;
    if spec_starts_with(text, "[system]"@) {
        (0, seq![text], false, false)
    } else {
        match spec_parse_chat(text) {
            Some((u, t, b)) => (1, seq![u, t, b], pending, spec_mentions_from(b, user, 0)),
            None => (2, seq![text], pending, spec_mentions_from(text, user, 0)),
        }
    }
}

/// A layout as plain values: which kind it is, its texts, and whether it is
/// pending and highlighted.
pub open spec fn layout_view(l: LineLayout) -> (nat, Seq<Seq<char>>, bool, bool) {
    match l {
        LineLayout::System(t) => (0, seq![t@], false, false),
        LineLayout::Chat { username, timestamp, body, pending, highlighted } => (
            1,
            seq![username@, timestamp@, body@],
            pending,
            highlighted,
        ),
        LineLayout::Plain { text, pending, highlighted } => (2, seq![text@], pending, highlighted),
    }
}

/// Law: a line is shown as pending exactly when its message is pending,
/// chat lines included; notices of the client itself never are, and a
/// chat line is shown by the user, time and body it carries.
pub proof fn lemma_layout_pending(text: Seq<char>, state: MessageState, user: Seq<char>)
    ensures
        spec_starts_with(text, "[system]"@) ==> spec_line_layout(text, state, user).0 == 0
            && !spec_line_layout(text, state, user).2,
        !spec_starts_with(text, "[system]"@) ==> (spec_line_layout(text, state, user).2 <==> state
            is Pending),
        !spec_starts_with(text, "[system]"@) ==> (spec_parse_chat(text) matches Some((u, t, b))
            ==> spec_line_layout(text, state, user).0 == 1 && spec_line_layout(text, state, user).1
            == seq![u, t, b]),
{
}

/// How a log line is shown: notices as they are, chat lines by their parts,
/// anything else as it is; a line that mentions the user is highlighted.
pub fn line_layout(message: &ChatMessage, app: &ChatApp) -> (r: LineLayout)
    ensures
        layout_view(r) == spec_line_layout(message.text@, message.state, app.username@),
{
    let text = message.text.as_str();
    let pending = match message.state {
        MessageState::Pending => true,
        MessageState::Confirmed => false,
    };
    if starts_with_str(text, "[system]") {
        return LineLayout::System(message.text.clone());
    }
    match parse_chat_message(text) {
        Some((username, timestamp, body)) => {
            let highlighted = app.message_mentions_current_user(body);
            LineLayout::Chat {
                username: username.to_owned(),
                timestamp: timestamp.to_owned(),
                body: body.to_owned(),
                pending,
                highlighted,
            }
        },
        None => {
            let highlighted = app.message_mentions_current_user(text);
            LineLayout::Plain { text: message.text.clone(), pending, highlighted }
        },
    }
}

/// How many lines the log scrolls so that its last lines fill a panel of
/// `height` rows, one of which the border takes.
pub open spec fn spec_scroll_offset(total_lines: usize, height: u16) -> int {
    let visible = if height >= 1 {
        height - 1
    } else {
        0
    };
    if total_lines > visible {
        total_lines - visible
    } else {
        0
    }
}

/// How many lines the log scrolls; the count is cut to 16 bits, as the
/// screen's coordinates are.
pub fn message_scroll_offset(total_lines: usize, height: u16) -> (r: u16)
    ensures
        r == spec_scroll_offset(total_lines, height) as u16,
{
    let visible = height.saturating_sub(1) as usize;
    let offset = total_lines.saturating_sub(visible);
    #[verifier::truncate]
    (offset as u16)
}

/// A rectangle of the screen.
#[derive(Clone, Copy, Debug, PartialEq, Eq, Structural)]
pub struct Area {
    pub x: u16,
    pub y: u16,
    pub width: u16,
    pub height: u16,
}

/// The widest entry of the mention popup: each name is shown after an `@`
/// and inside the border; never narrower than 18 columns.
pub open spec fn spec_popup_width(lens: Seq<u16>) -> int
    decreases lens.len(),
{
    if lens.len() == 0 {
        18
    } else {
        let rest = spec_popup_width(lens.drop_last());
        let w = lens.last() + 3;
        if w > rest {
            w
        } else {
            rest
        }
    }
}

/// Where the mention popup goes for candidates whose byte lengths, cut to
/// 16 bits, are `lens`: just above the input panel at `input`, at most five
/// rows of names, as wide as the widest name needs but within the screen of
/// width `screen_width`.  No popup when there is no candidate.
pub open spec fn spec_popup_area(lens: Seq<u16>, input: Area, screen_width: u16) -> Option<Area> {
    if lens.len() == 0 {
        None
    } else {
        let height = (if lens.len() < 5 {
            lens.len()
        } else {
            5
        }) + 2;
        let room = if screen_width >= input.x {
            screen_width - input.x
        } else {
            0
        };
        let width = spec_popup_width(lens);
        Some(
            Area {
                x: input.x,
                y: (if input.y >= height + 1 {
                    input.y - (height + 1)
                } else {
                    0
                }) as u16,
                width: (if width < room {
                    width
                } else {
                    room
                }) as u16,
                height: height as u16,
            },
        )
    }
}

/// Where the mention popup goes, if anywhere.
pub fn mention_popup_area(lens: &[u16], input: Area, screen_width: u16) -> (r: Option<Area>)
    requires
        forall|i: int| 0 <= i < lens@.len() ==> lens@[i] + 3 <= u16::MAX,
    ensures
        r == spec_popup_area(lens@, input, screen_width),
{
    if lens.len() == 0 {
        return None;
    }
    let rows: u16 = if lens.len() < 5 {
        lens.len() as u16
    } else {
        5
    };
    let height: u16 = rows + 2;
    let mut width: u16 = 18;
    let mut i: usize = 0;
    while i < lens.len()
        invariant
            i <= lens@.len(),
            forall|k: int| 0 <= k < lens@.len() ==> lens@[k] + 3 <= u16::MAX,
            width == spec_popup_width(lens@.subrange(0, i as int)),
        decreases lens@.len() - i,
    {
        assert(lens@.subrange(0, i + 1).drop_last() =~= lens@.subrange(0, i as int));
        let w = lens[i] + 3;
        if w > width {
            width = w;
        }
        i = i + 1;
    }
    assert(lens@.subrange(0, lens@.len() as int) =~= lens@);
    let room = screen_width.saturating_sub(input.x);
    Some(
        Area {
            x: input.x,
            y: input.y.saturating_sub(height + 1),
            width: if width < room {
                width
            } else {
                room
            },
            height,
        },
    )
}

/// Where the input cursor goes inside the input panel's interior `inner`,
/// after `typed` characters: right after the text, but never past the last
/// column.  The count is cut to 16 bits, as the screen's coordinates are.
pub open spec fn spec_input_cursor(typed: usize, inner: Area) -> (u16, u16) {
    let after = inner.x + (typed as u16);
    let cursor = if after > u16::MAX {
        u16::MAX as int
    } else {
        after
    };
    let last = inner.x + (if inner.width >= 1 {
        inner.width - 1
    } else {
        0
    });
    let max = if last > u16::MAX {
        u16::MAX as int
    } else {
        last
    };
    ((if cursor < max {
        cursor
    } else {
        max
    }) as u16, inner.y)
}

/// Where the input cursor goes.
pub fn input_cursor(typed: usize, inner: Area) -> (r: (u16, u16))
    ensures
        r == spec_input_cursor(typed, inner),
{
    #[verifier::truncate]
    let count = typed as u16;
    let cursor = inner.x.saturating_add(count);
    let max = inner.x.saturating_add(inner.width.saturating_sub(1));
    (if cursor < max {
        cursor
    } else {
        max
    }, inner.y)
}

} // verus!
