//! Requests to a model, its replies, and the conversation around them.
use vstd::prelude::*;

use crate::text;

verus! {

broadcast use vstd::seq::group_seq_axioms;

/// Who speaks in a message.
#[derive(Debug, Clone, Copy, PartialEq, Eq, Structural)]
pub enum MessageRole {
    User,
    Assistant,
}

/// One block of a message.
#[derive(Debug, Clone, PartialEq, Eq)]
pub enum ContentBlock {
    /// Text.
    Text { text: String },
    /// Anything that is not text, such as the use of a tool.
    Other,
}

/// What a block of a message holds.
pub enum ContentBlockView {
    Text { text: Seq<char> },
    Other,
}

impl View for ContentBlock {
    type V = ContentBlockView;

    open spec fn view(&self) -> ContentBlockView {
        match *self {
            ContentBlock::Text { text } => ContentBlockView::Text { text: text@ },
            ContentBlock::Other => ContentBlockView::Other,
        }
    }
}

/// What the blocks of a sequence hold.
pub open spec fn block_views(blocks: Seq<ContentBlock>) -> Seq<ContentBlockView> {
    Seq::new(blocks.len(), |i: int| blocks[i]@)
}

/// A message of a conversation.
#[derive(Debug, Clone, PartialEq, Eq)]
pub struct ConversationMessage {
    pub role: MessageRole,
    pub blocks: Vec<ContentBlock>,
}

/// What a message holds.
#[verifier::ext_equal]
pub struct ConversationMessageView {
    pub role: MessageRole,
    pub blocks: Seq<ContentBlockView>,
}

impl View for ConversationMessage {
    type V = ConversationMessageView;

    open spec fn view(&self) -> ConversationMessageView {
        ConversationMessageView { role: self.role, blocks: block_views(self.blocks@) }
    }
}

/// What the messages of a sequence hold.
pub open spec fn message_views(messages: Seq<ConversationMessage>) -> Seq<ConversationMessageView> {
    Seq::new(messages.len(), |i: int| messages[i]@)
}

/// A request to a model.
#[derive(Debug, Clone, PartialEq, Eq)]
pub struct ApiRequest {
    pub system_prompt: Vec<String>,
    pub messages: Vec<ConversationMessage>,
}

/// What a request holds.
#[verifier::ext_equal]
pub struct ApiRequestView {
    pub system_prompt: Seq<Seq<char>>,
    pub messages: Seq<ConversationMessageView>,
}

impl View for ApiRequest {
    type V = ApiRequestView;

    open spec fn view(&self) -> ApiRequestView {
        ApiRequestView {
            system_prompt: text::texts(self.system_prompt@),
            messages: message_views(self.messages@),
        }
    }
}

/// One event of a model's reply.
#[derive(Debug, Clone, PartialEq, Eq)]
pub enum AssistantEvent {
    /// The next stretch of the reply's text.
    TextDelta(String),
    /// The end of the reply.
    MessageStop,
    /// Anything else, such as the use of a tool or a count of tokens.
    Other,
}

/// What an event of a reply holds.
pub enum AssistantEventView {
    TextDelta(Seq<char>),
    MessageStop,
    Other,
}

impl View for AssistantEvent {
    type V = AssistantEventView;

    open spec fn view(&self) -> AssistantEventView {
        match *self {
            AssistantEvent::TextDelta(delta) => AssistantEventView::TextDelta(delta@),
            AssistantEvent::MessageStop => AssistantEventView::MessageStop,
            AssistantEvent::Other => AssistantEventView::Other,
        }
    }
}

/// What the events of a sequence hold.
pub open spec fn event_views(events: Seq<AssistantEvent>) -> Seq<AssistantEventView> {
    Seq::new(events.len(), |i: int| events[i]@)
}

/// The failure of a request or of a turn.
#[derive(Debug, Clone, PartialEq, Eq)]
pub struct RuntimeError {
    pub message: String,
}

/// What a reply holds: its events, or the text of the failure.
pub open spec fn reply_view(reply: Result<Vec<AssistantEvent>, RuntimeError>) -> Result<
    Seq<AssistantEventView>,
    Seq<char>,
> {
    match reply {
        Ok(events) => Ok(event_views(events@)),
        Err(error) => Err(error.message@),
    }
}

/// A connection to a model.
pub trait ApiClient: Sized {
    /// Whether the client, as it is, may answer the request with this reply and then be as
    /// `next` is. Of a client that says no more of itself this is left open.
    open spec fn answers(
        self,
        request: ApiRequestView,
        reply: Result<Seq<AssistantEventView>, Seq<char>>,
        next: Self,
    ) -> bool {
        true
    }

    /// Sends a request and returns the whole reply.
    fn stream(&mut self, request: ApiRequest) -> (reply: Result<Vec<AssistantEvent>, RuntimeError>)
        ensures
            old(self).answers(request@, reply_view(reply), *final(self)),
    ;
}

/// The session that a conversation belongs to. A path is whatever the caller takes for one.
#[derive(Debug, Clone, PartialEq, Eq)]
pub struct Session<P> {
    pub session_id: String,
    /// Where the session is kept, if it is.
    pub persistence_path: Option<P>,
}

/// A conversation: its session, the connection to the model, and what runs the tools.
pub struct ConversationRuntime<C, T, P> {
    pub session: Session<P>,
    pub api_client: C,
    pub tool_executor: T,
}

impl<C, T, P> ConversationRuntime<C, T, P> {
    /// The session that the conversation belongs to.
    pub fn session(&self) -> (session: &Session<P>)
        ensures
            *session == self.session,
    {
        &self.session
    }
}

// ---------------------------------------------------------------------------
// Laws
// ---------------------------------------------------------------------------

/// What is said of a block, a message, a request, an event and a reply is said of what they hold as
/// it is.
pub proof fn law_views_are_the_fields(
    block: ContentBlock,
    blocks: Seq<ContentBlock>,
    message: ConversationMessage,
    messages: Seq<ConversationMessage>,
    request: ApiRequest,
    event: AssistantEvent,
    events: Seq<AssistantEvent>,
    reply: Result<Vec<AssistantEvent>, RuntimeError>,
    i: int,
)
    ensures
        block@ == match block {
            ContentBlock::Text { text } => ContentBlockView::Text { text: text@ },
            ContentBlock::Other => ContentBlockView::Other,
        },
        block_views(blocks).len() == blocks.len(),
        0 <= i < blocks.len() ==> block_views(blocks)[i] == blocks[i]@,
        message@.role == message.role,
        message@.blocks == block_views(message.blocks@),
        message_views(messages).len() == messages.len(),
        0 <= i < messages.len() ==> message_views(messages)[i] == messages[i]@,
        request@.system_prompt == text::texts(request.system_prompt@),
        request@.messages == message_views(request.messages@),
        event@ == match event {
            AssistantEvent::TextDelta(delta) => AssistantEventView::TextDelta(delta@),
            AssistantEvent::MessageStop => AssistantEventView::MessageStop,
            AssistantEvent::Other => AssistantEventView::Other,
        },
        event_views(events).len() == events.len(),
        0 <= i < events.len() ==> event_views(events)[i] == events[i]@,
        reply is Ok ==> reply_view(reply) == Ok::<_, Seq<char>>(event_views(reply->Ok_0@)),
        reply is Err ==> reply_view(reply) == Err::<Seq<AssistantEventView>, _>(
            reply->Err_0.message@,
        ),
{
}

} // verus!
