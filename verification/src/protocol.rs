//! The lines that the dispatcher writes to a worker: one per file of the
//! worker's namespace, then a marker that ends the cycle.

use vstd::prelude::*;
use crate::text::same_text;

verus! {

/// What a line from the dispatcher says.
#[derive(Debug, PartialEq, Eq)]
pub enum Message {
    /// The file at this path is in use.
    PathReported(String),
    /// The scan cycle is over.
    CycleEnded,
}

/// A `Message` with its path as a sequence of characters.
pub enum MessageView {
    PathReported(Seq<char>),
    CycleEnded,
}

impl View for Message {
    type V = MessageView;

    open spec fn view(&self) -> MessageView {
        match self {
            Message::PathReported(path) => MessageView::PathReported(path@),
            Message::CycleEnded => MessageView::CycleEnded,
        }
    }
}

/// The text of the line that ends a cycle.
pub open spec fn marker() -> Seq<char> {
    seq!['.']
}

/// What ends every line.
pub open spec fn newline() -> Seq<char> {
    seq!['\n']
}

/// What a line, taken without its newline, says: the marker ends the cycle,
/// and every other line is a path.
pub open spec fn spec_decode(line: Seq<char>) -> MessageView {
    if line == marker() {
        MessageView::CycleEnded
    } else {
        MessageView::PathReported(line)
    }
}

/// The text that is written for a message, newline included.
pub open spec fn spec_encode(message: MessageView) -> Seq<char> {
    match message {
        MessageView::PathReported(path) => path + newline(),
        MessageView::CycleEnded => marker() + newline(),
    }
}

/// Reads a line that arrived without its newline.
pub fn decode(line: &str) -> (message: Message)
    ensures
        message@ == spec_decode(line@),
{
    proof {
        reveal_strlit(".");
        assert("."@ =~= marker());
    }
    if same_text(line, ".") {
        Message::CycleEnded
    } else {
        Message::PathReported(line.to_owned())
    }
}

/// The text to write for a message.
pub fn encode(message: &Message) -> (text: String)
    ensures
        text@ == spec_encode(message@),
{
    proof {
        reveal_strlit(".\n");
        reveal_strlit("\n");
        assert(".\n"@ =~= marker() + newline());
        assert("\n"@ =~= newline());
    }
    match message {
        Message::PathReported(path) => {
            let mut text = path.clone();
            text.append("\n");
            text
        },
        Message::CycleEnded => ".\n".to_owned(),
    }
}

/// What to write to a worker in one cycle: a line for each path, in the
/// order given, and the marker last. The caller writes them one by one and
/// stops at the first that fails, so that the marker goes out only after every
/// path did.
pub fn cycle_lines(paths: &Vec<String>) -> (lines: Vec<String>)
    ensures
        lines.len() == paths.len() + 1,
        forall|i: int|
            0 <= i < paths.len() ==> (#[trigger] lines[i])@ == spec_encode(
                MessageView::PathReported(paths[i]@),
            ),
        lines[paths.len() as int]@ == spec_encode(MessageView::CycleEnded),
{
    let mut lines: Vec<String> = Vec::new();
    let mut i: usize = 0;
    while i < paths.len()
        invariant
            i <= paths.len(),
            lines.len() == i,
            forall|k: int|
                0 <= k < i ==> (#[trigger] lines[k])@ == spec_encode(
                    MessageView::PathReported(paths[k]@),
                ),
        decreases paths.len() - i,
    {
        proof {
            reveal_strlit("\n");
            assert("\n"@ =~= newline());
        }
        let mut text = paths[i].clone();
        text.append("\n");
        lines.push(text);
        i += 1;
    }
    lines.push(encode(&Message::CycleEnded));
    lines
}

/// What was written for a message reads back as that message, once the
/// newline is taken off, unless the message is a path that is the very text
/// of the marker.
pub proof fn lemma_round_trip(message: MessageView)
    requires
        message != MessageView::PathReported(marker()),
    ensures
        spec_encode(message).len() > 0,
        spec_encode(message).last() == '\n',
        spec_decode(spec_encode(message).drop_last()) == message,
{
    match message {
        MessageView::PathReported(path) => {
            assert((path + newline()).drop_last() =~= path);
        },
        MessageView::CycleEnded => {
            assert((marker() + newline()).drop_last() =~= marker());
        },
    }
}

/// An absolute path is never taken for the marker.
pub proof fn lemma_absolute_path_is_no_marker(path: Seq<char>)
    requires
        path.len() > 0,
        path[0] == '/',
    ensures
        spec_decode(path) == MessageView::PathReported(path),
{
}

} // verus!
