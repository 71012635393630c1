//! Messages, as values in memory and as mathematical values.

use vstd::prelude::*;

verus! {

/// An emoticon.
#[derive(Debug, Clone, Copy, PartialEq, Eq, Structural)]
pub enum Emo {
    /// No emoticon.
    Nop,
    /// A laughing face.
    Laugh,
    /// A crying face.
    Cry,
}

impl View for Emo {
    type V = Emo;

    open spec fn view(&self) -> Emo {
        *self
    }
}

/// A decoded message.
#[derive(Debug, PartialEq, Eq)]
pub enum Message {
    /// A message without payload.
    Nop,
    /// A text.
    Text(String),
    /// An emoticon.
    Emo(Emo),
    /// An image, as its raw bytes. The wire format defines no payload for
    /// images yet, so the decoder never yields this variant.
    Image(Vec<u8>),
    /// Nested messages, in the order in which they were sent.
    Compound(Vec<Message>),
}

/// A message as a mathematical value: a text is a sequence of characters, and
/// nested messages are a sequence of such values.
pub enum MessageView {
    /// [`Message::Nop`].
    Nop,
    /// [`Message::Text`].
    Text(Seq<char>),
    /// [`Message::Emo`].
    Emo(Emo),
    /// [`Message::Image`].
    Image(Seq<u8>),
    /// [`Message::Compound`].
    Compound(Seq<MessageView>),
}

impl View for Message {
    type V = MessageView;

    open spec fn view(&self) -> MessageView
        decreases self,
    {
        match self {
            Message::Nop => MessageView::Nop,
            Message::Text(text) => MessageView::Text(text@),
            Message::Emo(emo) => MessageView::Emo(*emo),
            Message::Image(bytes) => MessageView::Image(bytes@),
            Message::Compound(parts) => MessageView::Compound(
                Seq::new(
                    parts.len() as nat,
                    |i: int|
                        if 0 <= i < parts.len() {
                            parts[i]@
                        } else {
                            MessageView::Nop
                        },
                ),
            ),
        }
    }
}

impl Clone for Message {
    /// Copies the message with all that is nested in it.
    fn clone(&self) -> (copy: Message)
        ensures
            copy@ == self@,
        decreases self,
    {
        match self {
            Message::Nop => Message::Nop,
            Message::Text(text) => Message::Text(text.clone()),
            Message::Emo(emo) => Message::Emo(*emo),
            Message::Image(bytes) => Message::Image(bytes.clone()),
            Message::Compound(parts) => {
                let mut copies: Vec<Message> = Vec::new();
                for i in 0..parts.len()
                    invariant
                        *self == Message::Compound(*parts),
                        copies.len() == i,
                        forall|j: int| 0 <= j < i ==> copies[j]@ == parts[j]@,
                {
                    assert(decreases_to!(self => self->Compound_0));
                    copies.push(parts[i].clone());
                }
                proof {
                    lemma_compound_view(copies);
                    lemma_compound_view(*parts);
                    assert(views(copies@) =~= views(parts@));
                }
                Message::Compound(copies)
            },
        }
    }
}

/// No image is in the message, at any depth.
pub open spec fn image_free(message: MessageView) -> bool
    decreases message,
{
    match message {
        MessageView::Image(_) => false,
        MessageView::Compound(parts) => forall|i: int|
            0 <= i < parts.len() ==> image_free(#[trigger] parts[i]),
        _ => true,
    }
}

/// The messages of a sequence as mathematical values, in the same order.
pub open spec fn views(parts: Seq<Message>) -> Seq<MessageView> {
    Seq::new(parts.len(), |i: int| parts[i]@)
}

/// A compound message is, as a mathematical value, the compound of its parts
/// as mathematical values.
pub proof fn lemma_compound_view(parts: Vec<Message>)
    ensures
        Message::Compound(parts)@ == MessageView::Compound(views(parts@)),
{
    assert(Message::Compound(parts)@->Compound_0 =~= views(parts@));
}

/// Adding a message at the end of a sequence adds its mathematical value at
/// the end of the sequence's.
pub proof fn lemma_views_push(parts: Seq<Message>, last: Message)
    ensures
        views(parts.push(last)) == views(parts) + seq![last@],
{
    assert(views(parts.push(last)) =~= views(parts) + seq![last@]);
}

} // verus!
