//! What goes to a model and comes back from it.
use vstd::prelude::*;

use crate::text;

verus! {

broadcast use vstd::seq::group_seq_axioms;

/// A part of a message to a model.
#[derive(Debug, Clone, PartialEq, Eq)]
pub enum InputContentBlock {
    Text { text: String },
}

impl View for InputContentBlock {
    type V = Seq<char>;

    open spec fn view(&self) -> Seq<char> {
        match *self {
            InputContentBlock::Text { text } => text@,
        }
    }
}

/// The texts of the parts.
pub open spec fn input_texts(content: Seq<InputContentBlock>) -> Seq<Seq<char>> {
    Seq::new(content.len(), |i: int| content[i]@)
}

/// A message to a model.
#[derive(Debug, Clone, PartialEq, Eq)]
pub struct InputMessage {
    pub role: String,
    pub content: Vec<InputContentBlock>,
}

/// What a message holds.
pub struct InputMessageView {
    pub role: Seq<char>,
    pub content: Seq<Seq<char>>,
}

impl View for InputMessage {
    type V = InputMessageView;

    open spec fn view(&self) -> InputMessageView {
        InputMessageView { role: self.role@, content: input_texts(self.content@) }
    }
}

/// What each of the messages holds.
pub open spec fn input_views(messages: Seq<InputMessage>) -> Seq<InputMessageView> {
    Seq::new(messages.len(), |i: int| messages[i]@)
}

/// The message of one text, in a role.
pub open spec fn one_text(role: Seq<char>, text: Seq<char>) -> InputMessageView {
    InputMessageView { role, content: seq![text] }
}

impl InputMessage {
    /// The message of one text, in a role.
    pub fn of_text(role: &str, text: String) -> (message: Self)
        ensures
            message@ == one_text(role@, text@),
    {
        let mut content: Vec<InputContentBlock> = Vec::new();
        content.push(InputContentBlock::Text { text });
        proof {
            assert(input_texts(content@) =~= seq![text@]);
        }
        InputMessage { role: role.to_owned(), content }
    }

    /// The message of one text of the user.
    pub fn user_text(text: String) -> (message: Self)
        ensures
            message@ == one_text("user"@, text@),
    {
        InputMessage::of_text("user", text)
    }

    /// The same message once more.
    pub fn copy(&self) -> (message: Self)
        ensures
            message@ == self@,
    {
        let mut content: Vec<InputContentBlock> = Vec::new();
        let mut i: usize = 0;
        while i < self.content.len()
            invariant
                i <= self.content@.len(),
                content@.len() == i,
                forall|k: int| 0 <= k < i ==> (#[trigger] content@[k])@ == self.content@[k]@,
            decreases self.content@.len() - i,
        {
            match &self.content[i] {
                InputContentBlock::Text { text } => {
                    content.push(InputContentBlock::Text { text: text.clone() });
                },
            }
            i = i + 1;
        }
        proof {
            assert(input_texts(content@) =~= input_texts(self.content@));
        }
        InputMessage { role: self.role.clone(), content }
    }
}

/// The same messages once more.
pub fn copy_messages(messages: &Vec<InputMessage>) -> (r: Vec<InputMessage>)
    ensures
        input_views(r@) == input_views(messages@),
{
    let mut r: Vec<InputMessage> = Vec::new();
    let mut i: usize = 0;
    while i < messages.len()
        invariant
            i <= messages@.len(),
            r@.len() == i,
            forall|k: int| 0 <= k < i ==> (#[trigger] r@[k])@ == messages@[k]@,
        decreases messages@.len() - i,
    {
        r.push(messages[i].copy());
        i = i + 1;
    }
    proof {
        assert(input_views(r@) =~= input_views(messages@));
    }
    r
}

/// What a model is asked.
#[derive(Debug, Clone, PartialEq, Eq)]
pub struct MessageRequest {
    pub model: String,
    pub max_tokens: u32,
    pub messages: Vec<InputMessage>,
    pub system: Option<String>,
}

/// What a request holds.
pub struct MessageRequestView {
    pub model: Seq<char>,
    pub max_tokens: nat,
    pub messages: Seq<InputMessageView>,
    pub system: Option<Seq<char>>,
}

impl View for MessageRequest {
    type V = MessageRequestView;

    open spec fn view(&self) -> MessageRequestView {
        MessageRequestView {
            model: self.model@,
            max_tokens: self.max_tokens as nat,
            messages: input_views(self.messages@),
            system: text::optional_text(self.system),
        }
    }
}

/// A part of what a model replies.
#[derive(Debug, Clone, PartialEq, Eq)]
pub enum OutputContentBlock {
    Text { text: String },
    /// Anything that is no text.
    Other,
}

/// What a part of a reply holds.
pub enum OutputContentBlockView {
    Text { text: Seq<char> },
    Other,
}

impl View for OutputContentBlock {
    type V = OutputContentBlockView;

    open spec fn view(&self) -> OutputContentBlockView {
        match *self {
            OutputContentBlock::Text { text } => OutputContentBlockView::Text { text: text@ },
            OutputContentBlock::Other => OutputContentBlockView::Other,
        }
    }
}

/// What each part of a reply holds.
pub open spec fn output_views(content: Seq<OutputContentBlock>) -> Seq<OutputContentBlockView> {
    Seq::new(content.len(), |i: int| content[i]@)
}

/// The texts of a reply, in order.
pub open spec fn output_texts(content: Seq<OutputContentBlockView>) -> Seq<Seq<char>>
    decreases content.len(),
{
    if content.len() == 0 {
        Seq::empty()
    } else {
        let before = output_texts(content.drop_last());
        match content.last() {
            OutputContentBlockView::Text { text } => before.push(text),
            OutputContentBlockView::Other => before,
        }
    }
}

/// The texts of a reply, in order.
pub fn reply_texts(content: &[OutputContentBlock]) -> (found: Vec<String>)
    ensures
        text::texts(found@) == output_texts(output_views(content@)),
{
    let ghost views = output_views(content@);
    let mut found: Vec<String> = Vec::new();
    let mut i: usize = 0;
    proof {
        assert(text::texts(found@) =~= output_texts(views.take(0)));
    }
    while i < content.len()
        invariant
            i <= content@.len(),
            views == output_views(content@),
            text::texts(found@) == output_texts(views.take(i as int)),
        decreases content@.len() - i,
    {
        let ghost so_far = text::texts(found@);
        proof {
            let next = views.take(i + 1);
            assert(next.drop_last() =~= views.take(i as int));
            assert(next.last() == content@[i as int]@);
        }
        if let OutputContentBlock::Text { text } = &content[i] {
            found.push(text.clone());
            proof {
                assert(text::texts(found@) =~= so_far.push(text@));
            }
        }
        i = i + 1;
    }
    proof {
        assert(views.take(i as int) =~= views);
    }
    found
}

/// The first text of a reply; the empty text where it has none.
pub open spec fn first_text(content: Seq<OutputContentBlockView>) -> Seq<char> {
    let found = output_texts(content);
    if found.len() == 0 {
        Seq::empty()
    } else {
        found[0]
    }
}

/// The first text of a reply; the empty text where it has none.
pub fn first_reply_text(content: &[OutputContentBlock]) -> (r: String)
    ensures
        r@ == first_text(output_views(content@)),
{
    let found = reply_texts(content);
    if found.len() == 0 {
        return String::new();
    }
    proof {
        assert(text::texts(found@)[0] == found@[0]@);
    }
    found[0].clone()
}

// ---------------------------------------------------------------------------
// Laws
// ---------------------------------------------------------------------------

/// The texts among the parts of a reply, in order.
pub open spec fn texts_among(content: Seq<OutputContentBlockView>) -> Seq<Seq<char>> {
    content.filter(|block: OutputContentBlockView| block is Text).map_values(
        |block: OutputContentBlockView| block->text,
    )
}

/// The texts of a reply are its parts that are text, as they are and in order.
pub proof fn law_texts_of_a_reply(content: Seq<OutputContentBlockView>)
    ensures
        output_texts(content) == texts_among(content),
    decreases content.len(),
{
    reveal(Seq::filter);
    if content.len() > 0 {
        law_texts_of_a_reply(content.drop_last());
    }
    assert(output_texts(content) =~= texts_among(content));
}

/// The texts of two replies, one behind the other, are those of the first and then those of the
/// second.
pub proof fn law_texts_add_up(a: Seq<OutputContentBlockView>, b: Seq<OutputContentBlockView>)
    ensures
        output_texts(a + b) == output_texts(a) + output_texts(b),
    decreases b.len(),
{
    if b.len() == 0 {
        assert(a + b =~= a);
        assert(output_texts(a) + output_texts(b) =~= output_texts(a));
    } else {
        law_texts_add_up(a, b.drop_last());
        assert((a + b).drop_last() =~= a + b.drop_last());
        assert((a + b).last() == b.last());
        assert(output_texts(a + b) =~= output_texts(a) + output_texts(b));
    }
}

/// A part that is text gives its text, unchanged; any other gives none.
pub proof fn law_text_of_one_part(text: Seq<char>)
    ensures
        output_texts(seq![OutputContentBlockView::Text { text }]) == seq![text],
        output_texts(seq![OutputContentBlockView::Other]) == Seq::<Seq<char>>::empty(),
{
    let one = seq![OutputContentBlockView::Text { text }];
    let none = seq![OutputContentBlockView::Other];
    assert(one.drop_last() =~= Seq::empty());
    assert(none.drop_last() =~= Seq::empty());
    reveal_with_fuel(output_texts, 2);
    assert(output_texts(one) =~= seq![text]);
}

/// The first text of a reply is the first part that is text, unchanged, whatever comes before it
/// that is no text, and whatever comes behind it.
pub proof fn law_first_text_is_the_first(content: &[OutputContentBlock], n: int, r: String)
    requires
        call_ensures(first_reply_text, (content,), r),
        0 <= n < content@.len(),
        content@[n] is Text,
        forall|i: int| 0 <= i < n ==> #[trigger] content@[i] is Other,
    ensures
        r@ == content@[n]->text@,
{
    let views = output_views(content@);
    assert forall|i: int| 0 <= i < n implies #[trigger] views[i] is Other by {
        assert(content@[i] is Other);
    }
    lemma_first_text(views, n);
}

pub proof fn lemma_first_text(content: Seq<OutputContentBlockView>, n: int)
    requires
        0 <= n < content.len(),
        content[n] is Text,
        forall|i: int| 0 <= i < n ==> #[trigger] content[i] is Other,
    ensures
        first_text(content) == content[n]->text,
{
    let before = content.take(n);
    let one = seq![content[n]];
    let behind = content.skip(n + 1);
    assert(content =~= before + (one + behind));
    assert forall|i: int| 0 <= i < before.len() implies #[trigger] before[i] is Other by {
        assert(content[i] is Other);
    }
    lemma_no_texts(before);
    law_text_of_one_part(content[n]->text);
    law_texts_add_up(before, one + behind);
    law_texts_add_up(one, behind);
    assert(output_texts(content) =~= seq![content[n]->text] + output_texts(behind));
}

/// A reply without any part that is text has the empty text for its first.
pub proof fn law_no_text_is_the_empty_text(content: &[OutputContentBlock], r: String)
    requires
        call_ensures(first_reply_text, (content,), r),
        forall|i: int| 0 <= i < content@.len() ==> #[trigger] content@[i] is Other,
    ensures
        r@.len() == 0,
{
    let views = output_views(content@);
    assert forall|i: int| 0 <= i < views.len() implies #[trigger] views[i] is Other by {
        assert(content@[i] is Other);
    }
    lemma_no_texts(views);
}

proof fn lemma_no_texts(content: Seq<OutputContentBlockView>)
    requires
        forall|i: int| 0 <= i < content.len() ==> #[trigger] content[i] is Other,
    ensures
        output_texts(content) == Seq::<Seq<char>>::empty(),
    decreases content.len(),
{
    if content.len() > 0 {
        let before = content.drop_last();
        assert forall|i: int| 0 <= i < before.len() implies #[trigger] before[i] is Other by {
            assert(content[i] is Other);
        }
        lemma_no_texts(before);
        assert(content[content.len() - 1] is Other);
    }
}

/// What is said of a message, a request and a part of a reply is said of what they hold as it is.
pub proof fn law_views_are_the_fields(
    input: InputContentBlock,
    message: InputMessage,
    messages: Seq<InputMessage>,
    request: MessageRequest,
    block: OutputContentBlock,
    content: Seq<OutputContentBlock>,
    i: int,
)
    ensures
        input@ == input->text@,
        message@.role == message.role@,
        message@.content.len() == message.content@.len(),
        0 <= i < message.content@.len() ==> message@.content[i] == message.content@[i]@,
        input_views(messages).len() == messages.len(),
        0 <= i < messages.len() ==> input_views(messages)[i] == messages[i]@,
        request@.model == request.model@ && request@.max_tokens == request.max_tokens,
        request@.messages == input_views(request.messages@),
        request.system is Some ==> request@.system == Some(request.system->0@),
        request.system is None ==> request@.system is None,
        block@ == match block {
            OutputContentBlock::Text { text } => OutputContentBlockView::Text { text: text@ },
            OutputContentBlock::Other => OutputContentBlockView::Other,
        },
        output_views(content).len() == content.len(),
        0 <= i < content.len() ==> output_views(content)[i] == content[i]@,
{
}

} // verus!
