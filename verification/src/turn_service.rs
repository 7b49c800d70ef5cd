//! One turn of a conversation, and the dream that may follow it.
use vstd::prelude::*;

use crate::config::MemoryConfig;
use crate::conversation;
use crate::conversation::{
    ContentBlock, ContentBlockView, ConversationMessage, ConversationMessageView,
    ConversationRuntime, RuntimeError, Session,
};
use crate::dreamer;
use crate::dreamer::manager;
use crate::dreamer::manager::MemoryPlace;
use crate::dreamer::{DreamRun, DreamRunView, DreamerConfig, DreamerError, MAX_LOG_INPUT_BYTES};
use crate::paths::PathStyle;
use crate::text;

verus! {

broadcast use vstd::seq::group_seq_axioms;

/// What came of the dream after a turn.
#[derive(Debug, Clone, PartialEq, Eq)]
pub enum TurnDreamStatus<D> {
    Disabled,
    Skipped,
    Completed(DreamRun<D>),
    Failed(String),
}

/// What the status of a dream holds.
pub enum TurnDreamStatusView<D> {
    Disabled,
    Skipped,
    Completed { memory_dir: D, run: DreamRunView },
    Failed(Seq<char>),
}

impl<D> View for TurnDreamStatus<D> {
    type V = TurnDreamStatusView<D>;

    open spec fn view(&self) -> TurnDreamStatusView<D> {
        match *self {
            TurnDreamStatus::Disabled => TurnDreamStatusView::Disabled,
            TurnDreamStatus::Skipped => TurnDreamStatusView::Skipped,
            TurnDreamStatus::Completed(run) => TurnDreamStatusView::Completed {
                memory_dir: run.memory_dir,
                run: run@,
            },
            TurnDreamStatus::Failed(message) => TurnDreamStatusView::Failed(message@),
        }
    }
}

/// What a turn yields: the messages of the assistant, the count `U` of what was used, and the
/// event `A` of a compaction, if there was one.
#[derive(Debug, Clone, PartialEq, Eq)]
pub struct TurnSummary<U, A> {
    pub assistant_messages: Vec<ConversationMessage>,
    pub usage: U,
    pub auto_compaction: Option<A>,
}

/// What a turn and the dream after it yield, with a path `P` of the session and a path `D` of the
/// memory directory.
#[derive(Debug, Clone, PartialEq, Eq)]
pub struct TurnServiceOutput<U, A, P, D> {
    pub final_text: String,
    pub session_id: String,
    pub session_path: Option<P>,
    pub usage: U,
    pub auto_compaction: Option<A>,
    pub dream_status: TurnDreamStatus<D>,
}

// ---------------------------------------------------------------------------
// The text of a turn
// ---------------------------------------------------------------------------

/// The texts of the blocks that are text, in order.
pub open spec fn block_texts(blocks: Seq<ContentBlockView>) -> Seq<Seq<char>>
    decreases blocks.len(),
{
    if blocks.len() == 0 {
        Seq::empty()
    } else {
        let before = block_texts(blocks.drop_last());
        match blocks.last() {
            ContentBlockView::Text { text } => before.push(text),
            ContentBlockView::Other => before,
        }
    }
}

/// The texts of the text blocks of all messages, in order.
pub open spec fn message_texts(messages: Seq<ConversationMessageView>) -> Seq<Seq<char>>
    decreases messages.len(),
{
    if messages.len() == 0 {
        Seq::empty()
    } else {
        message_texts(messages.drop_last()) + block_texts(messages.last().blocks)
    }
}

/// The texts of the text blocks of all messages, each on a line of its own.
pub fn final_assistant_text_from_blocks(messages: &[ConversationMessage]) -> (r: String)
    ensures
        r@ == text::joined(message_texts(conversation::message_views(messages@)), "\n"@),
{
    let mut found: Vec<String> = Vec::new();
    let ghost views = conversation::message_views(messages@);
    let mut i: usize = 0;
    proof {
        assert(text::texts(found@) =~= Seq::empty());
    }
    while i < messages.len()
        invariant
            i <= messages@.len(),
            views == conversation::message_views(messages@),
            text::texts(found@) == message_texts(views.take(i as int)),
        decreases messages@.len() - i,
    {
        let blocks = &messages[i].blocks;
        let ghost before = text::texts(found@);
        let ghost contents = conversation::block_views(blocks@);
        let mut k: usize = 0;
        proof {
            let next = views.take(i + 1);
            assert(next.drop_last() =~= views.take(i as int));
            assert(next.last() == messages@[i as int]@);
            assert(contents.take(0) =~= Seq::empty());
            assert(before + Seq::empty() =~= before);
        }
        while k < blocks.len()
            invariant
                k <= blocks@.len(),
                contents == conversation::block_views(blocks@),
                text::texts(found@) == before + block_texts(contents.take(k as int)),
            decreases blocks@.len() - k,
        {
            let ghost done = block_texts(contents.take(k as int));
            let ghost so_far = text::texts(found@);
            proof {
                let next = contents.take(k + 1);
                assert(next.drop_last() =~= contents.take(k as int));
                assert(next.last() == blocks@[k as int]@);
            }
            if let ContentBlock::Text { text } = &blocks[k] {
                found.push(text.clone());
                proof {
                    assert(text::texts(found@) =~= so_far.push(text@));
                    assert(before + done.push(text@) =~= (before + done).push(text@));
                }
            }
            k = k + 1;
        }
        proof {
            assert(contents.take(k as int) =~= contents);
        }
        i = i + 1;
    }
    proof {
        assert(views.take(i as int) =~= views);
    }
    text::join(&found, "\n")
}

// ---------------------------------------------------------------------------
// The service
// ---------------------------------------------------------------------------

/// The status of a dream after a turn. A dream that fails never fails the turn.
pub open spec fn dream_status_of<D>(
    auto_dream_enabled: bool,
    dream: Result<Option<DreamRun<D>>, DreamerError>,
) -> TurnDreamStatusView<D> {
    if !auto_dream_enabled {
        TurnDreamStatusView::Disabled
    } else {
        match dream {
            Ok(Some(run)) => TurnDreamStatusView::Completed {
                memory_dir: run.memory_dir,
                run: run@,
            },
            Ok(None) => TurnDreamStatusView::Skipped,
            Err(error) => TurnDreamStatusView::Failed(dreamer::error_text(error@)),
        }
    }
}

/// The dream that is to be tried after a turn.
pub struct TurnDream<'a, P> {
    pub config: DreamerConfig<MemoryPlace<'a, P>>,
    /// Whether dreams start by themselves.
    pub auto_dream_enabled: bool,
}

/// A conversation with its workspace and the settings of its memory, on a machine that has its
/// paths in a style.
pub struct TurnService<C, T, P> {
    runtime: ConversationRuntime<C, T, P>,
    cwd: P,
    memory_config: MemoryConfig,
    style: PathStyle,
}

impl<C, T, P> TurnService<C, T, P> {
    /// The conversation.
    pub closed spec fn conversation(&self) -> ConversationRuntime<C, T, P> {
        self.runtime
    }

    /// The workspace.
    pub closed spec fn workspace(&self) -> P {
        self.cwd
    }

    /// The settings of the memory.
    pub closed spec fn settings(&self) -> MemoryConfig {
        self.memory_config
    }

    /// How the machine has its paths.
    pub closed spec fn path_style(&self) -> PathStyle {
        self.style
    }

    /// The service of a conversation in a workspace.
    #[must_use]
    pub fn new(
        runtime: ConversationRuntime<C, T, P>,
        cwd: P,
        memory_config: MemoryConfig,
        style: PathStyle,
    ) -> (service: Self)
        ensures
            service.conversation() == runtime,
            service.workspace() == cwd,
            service.settings() == memory_config,
            service.path_style() == style,
    {
        TurnService { runtime, cwd, memory_config, style }
    }

    /// The dream that is to be tried after a turn: none after a turn that failed, nor where dreams
    /// do not start by themselves. It is not forced.
    pub fn dream_after_turn<U, A>(&self, turn: &Result<TurnSummary<U, A>, RuntimeError>) -> (dream:
        Option<TurnDream<'_, P>>)
        ensures
            dream is Some <==> turn is Ok && self.settings().auto_dream_enabled,
            dream is Some ==> {
                &&& dream->0.auto_dream_enabled
                &&& dream->0.config.memory_dir@ == manager::resolved_memory_dir(
                    self.path_style(),
                    self.workspace(),
                    text::optional_text(self.settings().auto_memory_directory),
                )
                &&& dream->0.config.max_input_bytes == MAX_LOG_INPUT_BYTES
                &&& dream->0.config.force == false
            },
    {
        if turn.is_err() || !self.memory_config.auto_dream_enabled {
            return None;
        }
        let memory_dir = manager::resolve_memory_dir(&self.cwd, &self.memory_config, self.style);
        Some(TurnDream { config: DreamerConfig::new(memory_dir), auto_dream_enabled: true })
    }

    /// The status of the dream after a turn, given what came of it.
    pub fn maybe_dream_after_turn<D>(
        &self,
        dream: Result<Option<DreamRun<D>>, DreamerError>,
    ) -> (status: TurnDreamStatus<D>)
        ensures
            status@ == dream_status_of(self.settings().auto_dream_enabled, dream),
    {
        if !self.memory_config.auto_dream_enabled {
            return TurnDreamStatus::Disabled;
        }
        match dream {
            Ok(Some(run)) => TurnDreamStatus::Completed(run),
            Ok(None) => TurnDreamStatus::Skipped,
            Err(error) => TurnDreamStatus::Failed(error.message()),
        }
    }

    /// What a turn and the dream after it yield, given what came of each. A turn that failed
    /// yields its error.
    pub fn run_turn<U, A, D>(
        &self,
        turn: Result<TurnSummary<U, A>, RuntimeError>,
        dream: Result<Option<DreamRun<D>>, DreamerError>,
    ) -> (r: Result<TurnServiceOutput<U, A, P, D>, RuntimeError>) where P: Clone
        ensures
            match turn {
                Err(error) => r == Err::<TurnServiceOutput<U, A, P, D>, RuntimeError>(error),
                Ok(summary) => {
                    &&& r is Ok
                    &&& r->Ok_0.final_text@ == text::joined(
                        message_texts(conversation::message_views(summary.assistant_messages@)),
                        "\n"@,
                    )
                    &&& r->Ok_0.session_id == self.conversation().session.session_id
                    &&& cloned(
                        self.conversation().session.persistence_path,
                        r->Ok_0.session_path,
                    )
                    &&& r->Ok_0.usage == summary.usage
                    &&& r->Ok_0.auto_compaction == summary.auto_compaction
                    &&& r->Ok_0.dream_status@ == dream_status_of(
                        self.settings().auto_dream_enabled,
                        dream,
                    )
                },
            },
    {
        let summary = match turn {
            Ok(summary) => summary,
            Err(error) => return Err(error),
        };
        let dream_status = self.maybe_dream_after_turn(dream);
        let session = self.runtime.session();
        let session_path = session.persistence_path.clone();
        Ok(
            TurnServiceOutput {
                final_text: final_assistant_text_from_blocks(summary.assistant_messages.as_slice()),
                session_id: session.session_id.clone(),
                session_path,
                usage: summary.usage,
                auto_compaction: summary.auto_compaction,
                dream_status,
            },
        )
    }

    /// The session that the conversation belongs to.
    #[must_use]
    pub fn session(&self) -> (session: &Session<P>)
        ensures
            *session == self.conversation().session,
    {
        self.runtime.session()
    }

    /// The conversation.
    #[must_use]
    pub fn runtime(&self) -> (runtime: &ConversationRuntime<C, T, P>)
        ensures
            *runtime == self.conversation(),
    {
        &self.runtime
    }

    /// The conversation, to be changed.
    pub fn runtime_mut(&mut self) -> (runtime: &mut ConversationRuntime<C, T, P>)
        ensures
            *runtime == old(self).conversation(),
            final(self).conversation() == *final(runtime),
            final(self).workspace() == old(self).workspace(),
            final(self).settings() == old(self).settings(),
            final(self).path_style() == old(self).path_style(),
    {
        &mut self.runtime
    }

    /// The conversation by itself.
    #[must_use]
    pub fn into_runtime(self) -> (runtime: ConversationRuntime<C, T, P>)
        ensures
            runtime == self.conversation(),
    {
        self.runtime
    }
}

// ---------------------------------------------------------------------------
// Laws
// ---------------------------------------------------------------------------

proof fn lemma_block_texts_add(a: Seq<ContentBlockView>, b: Seq<ContentBlockView>)
    ensures
        block_texts(a + b) == block_texts(a) + block_texts(b),
    decreases b.len(),
{
    if b.len() == 0 {
        assert(a + b =~= a);
        assert(block_texts(a) + block_texts(b) =~= block_texts(a));
    } else {
        lemma_block_texts_add(a, b.drop_last());
        assert((a + b).drop_last() =~= a + b.drop_last());
        assert((a + b).last() == b.last());
        assert(block_texts(a + b) =~= block_texts(a) + block_texts(b));
    }
}

proof fn lemma_one_block(block: ContentBlockView)
    ensures
        block_texts(seq![block]) == match block {
            ContentBlockView::Text { text } => seq![text],
            ContentBlockView::Other => Seq::empty(),
        },
{
    assert(seq![block].drop_last() =~= Seq::empty());
    assert(block_texts(Seq::empty()) =~= Seq::empty());
    reveal_with_fuel(block_texts, 2);
    if let ContentBlockView::Text { text } = block {
        assert(block_texts(seq![block]) =~= seq![text]);
    }
}

/// The blocks of messages, one after another.
pub open spec fn blocks_of(messages: Seq<ConversationMessageView>) -> Seq<ContentBlockView> {
    messages.map_values(|message: ConversationMessageView| message.blocks).flatten()
}

/// The texts among blocks, in order.
pub open spec fn texts_among(blocks: Seq<ContentBlockView>) -> Seq<Seq<char>> {
    blocks.filter(|block: ContentBlockView| block is Text).map_values(
        |block: ContentBlockView| block->text,
    )
}

proof fn lemma_texts_among(blocks: Seq<ContentBlockView>)
    ensures
        block_texts(blocks) == texts_among(blocks),
    decreases blocks.len(),
{
    reveal(Seq::filter);
    if blocks.len() > 0 {
        lemma_texts_among(blocks.drop_last());
    }
    assert(block_texts(blocks) =~= texts_among(blocks));
}

proof fn lemma_texts_of_messages(messages: Seq<ConversationMessageView>)
    ensures
        message_texts(messages) == texts_among(blocks_of(messages)),
    decreases messages.len(),
{
    let f = |message: ConversationMessageView| message.blocks;
    if messages.len() == 0 {
        lemma_texts_among(blocks_of(messages));
        assert(message_texts(messages) =~= texts_among(blocks_of(messages)));
    } else {
        let before = messages.drop_last();
        lemma_texts_of_messages(before);
        assert(messages.map_values(f) =~= before.map_values(f).push(messages.last().blocks));
        before.map_values(f).lemma_flatten_push(messages.last().blocks);
        let front = blocks_of(before);
        lemma_block_texts_add(front, messages.last().blocks);
        lemma_texts_among(front);
        lemma_texts_among(messages.last().blocks);
        lemma_texts_among(blocks_of(messages));
    }
}

/// The final text of a turn holds every text among the blocks of its messages, whole, in order,
/// with one line feed between each two, and nothing else.
pub proof fn law_final_text_is_every_text(messages: &[ConversationMessage], r: String)
    requires
        call_ensures(final_assistant_text_from_blocks, (messages,), r),
    ensures
        r@ == text::joined(
            texts_among(blocks_of(conversation::message_views(messages@))),
            seq!['\n'],
        ),
{
    reveal_strlit("\n");
    assert("\n"@ =~= seq!['\n']);
    lemma_texts_of_messages(conversation::message_views(messages@));
}

/// A turn whose one message is one block of text has that text for its final text, whatever lines
/// and white space are in it.
pub proof fn law_one_block_is_the_final_text(messages: &[ConversationMessage], r: String)
    requires
        call_ensures(final_assistant_text_from_blocks, (messages,), r),
        messages@.len() == 1,
        messages@[0].blocks@.len() == 1,
        messages@[0].blocks@[0] is Text,
    ensures
        r@ == messages@[0].blocks@[0]->Text_text@,
{
    let views = conversation::message_views(messages@);
    let blocks = conversation::block_views(messages@[0].blocks@);
    assert(views.drop_last() =~= Seq::empty());
    assert(blocks =~= seq![messages@[0].blocks@[0]@]);
    lemma_one_block(blocks[0]);
    reveal_with_fuel(message_texts, 2);
    assert(message_texts(views) =~= seq![messages@[0].blocks@[0]->Text_text@]);
}

/// Messages below others add their final text to that of the others, below a line feed, and take
/// nothing from it; what has no text adds nothing.
pub proof fn law_final_texts_add_up(
    upper: &[ConversationMessage],
    lower: &[ConversationMessage],
    all: &[ConversationMessage],
    r: String,
    s: String,
    t: String,
)
    requires
        call_ensures(final_assistant_text_from_blocks, (upper,), r),
        call_ensures(final_assistant_text_from_blocks, (lower,), s),
        call_ensures(final_assistant_text_from_blocks, (all,), t),
        all@ == upper@ + lower@,
    ensures
        ({
            let a = texts_among(blocks_of(conversation::message_views(upper@)));
            let b = texts_among(blocks_of(conversation::message_views(lower@)));
            t@ == if a.len() == 0 {
                s@
            } else if b.len() == 0 {
                r@
            } else {
                r@ + seq!['\n'] + s@
            }
        }),
{
    reveal_strlit("\n");
    assert("\n"@ =~= seq!['\n']);
    let u = conversation::message_views(upper@);
    let l = conversation::message_views(lower@);
    assert(conversation::message_views(all@) =~= u + l);
    lemma_message_texts_add(u, l);
    lemma_texts_of_messages(u);
    lemma_texts_of_messages(l);
    let a = message_texts(u);
    let b = message_texts(l);
    if a.len() == 0 {
        assert(a + b =~= b);
    } else if b.len() == 0 {
        assert(a + b =~= a);
    } else {
        text::lemma_joined_add(a, b, "\n"@);
    }
}

proof fn lemma_message_texts_add(a: Seq<ConversationMessageView>, b: Seq<ConversationMessageView>)
    ensures
        message_texts(a + b) == message_texts(a) + message_texts(b),
    decreases b.len(),
{
    if b.len() == 0 {
        assert(a + b =~= a);
        assert(message_texts(a) + message_texts(b) =~= message_texts(a));
    } else {
        lemma_message_texts_add(a, b.drop_last());
        assert((a + b).drop_last() =~= a + b.drop_last());
        assert((a + b).last() == b.last());
        assert(message_texts(a + b) =~= message_texts(a) + message_texts(b));
    }
}

/// What a turn yields is what the conversation said and used, whatever came of the dream, and a
/// dream never turns a turn that succeeded into one that failed.
pub proof fn law_turns_keep_what_they_yield<C, T, P: Clone, U, A, D>(
    service: &TurnService<C, T, P>,
    turn: Result<TurnSummary<U, A>, RuntimeError>,
    dream: Result<Option<DreamRun<D>>, DreamerError>,
    other: Result<Option<DreamRun<D>>, DreamerError>,
    r: Result<TurnServiceOutput<U, A, P, D>, RuntimeError>,
    s: Result<TurnServiceOutput<U, A, P, D>, RuntimeError>,
)
    requires
        call_ensures(TurnService::<C, T, P>::run_turn::<U, A, D>, (service, turn, dream), r),
        call_ensures(TurnService::<C, T, P>::run_turn::<U, A, D>, (service, turn, other), s),
    ensures
        r is Ok <==> turn is Ok,
        turn is Err ==> r == Err::<TurnServiceOutput<U, A, P, D>, RuntimeError>(turn->Err_0),
        turn is Ok ==> {
            &&& r->Ok_0.final_text@ == text::joined(
                texts_among(
                    blocks_of(conversation::message_views(turn->Ok_0.assistant_messages@)),
                ),
                seq!['\n'],
            )
            &&& r->Ok_0.usage == turn->Ok_0.usage
            &&& r->Ok_0.auto_compaction == turn->Ok_0.auto_compaction
            &&& r->Ok_0.session_id == service.conversation().session.session_id
            &&& s->Ok_0.final_text@ == r->Ok_0.final_text@
            &&& s->Ok_0.usage == r->Ok_0.usage
            &&& s->Ok_0.session_id == r->Ok_0.session_id
        },
{
    if let Ok(summary) = turn {
        reveal_strlit("\n");
        assert("\n"@ =~= seq!['\n']);
        lemma_texts_of_messages(conversation::message_views(summary.assistant_messages@));
    }
}

/// The status after a turn tells what came of the dream: a run as it is, the text of an error, or
/// that there was none; and where dreams do not start by themselves, that alone.
pub proof fn law_status_tells_of_the_dream<C, T, P, D>(
    service: &TurnService<C, T, P>,
    dream: Result<Option<DreamRun<D>>, DreamerError>,
    status: TurnDreamStatus<D>,
)
    requires
        call_ensures(
            TurnService::<C, T, P>::maybe_dream_after_turn::<D>,
            (service, dream),
            status,
        ),
    ensures
        status is Disabled <==> !service.settings().auto_dream_enabled,
        !(status is Disabled) ==> {
            &&& status is Completed <==> dream is Ok && dream->Ok_0 is Some
            &&& status is Skipped <==> dream is Ok && dream->Ok_0 is None
            &&& status is Failed <==> dream is Err
            &&& status is Completed ==> status->Completed_0@ == dream->Ok_0->0@
                && status->Completed_0.memory_dir == dream->Ok_0->0.memory_dir
            &&& status is Failed ==> status->Failed_0@ == dreamer::error_text(dream->Err_0@)
        },
{
}

/// A dream is tried after a turn exactly where the turn succeeded and dreams start by themselves;
/// it is not forced, and it is of the memory directory of the workspace, with the default budget.
pub proof fn law_dream_after_a_turn<C, T, P, U, A>(
    service: &TurnService<C, T, P>,
    turn: &Result<TurnSummary<U, A>, RuntimeError>,
    dream: Option<TurnDream<'_, P>>,
)
    requires
        call_ensures(TurnService::<C, T, P>::dream_after_turn::<U, A>, (service, turn), dream),
    ensures
        dream is Some <==> *turn is Ok && service.settings().auto_dream_enabled,
        dream is Some ==> {
            &&& dream->0.auto_dream_enabled
            &&& !dream->0.config.force
            &&& dream->0.config.max_input_bytes == 131_072
            &&& dream->0.config.memory_dir@ == manager::resolved_memory_dir(
                service.path_style(),
                service.workspace(),
                text::optional_text(service.settings().auto_memory_directory),
            )
        },
{
}

/// What a turn that succeeded yields tells of the dream what the status after the turn tells, and of
/// the session where it is kept.
pub proof fn law_output_tells_of_the_dream<C, T, P: Clone, U, A, D>(
    service: &TurnService<C, T, P>,
    turn: Result<TurnSummary<U, A>, RuntimeError>,
    dream: Result<Option<DreamRun<D>>, DreamerError>,
    r: Result<TurnServiceOutput<U, A, P, D>, RuntimeError>,
    status: TurnDreamStatus<D>,
)
    requires
        call_ensures(TurnService::<C, T, P>::run_turn::<U, A, D>, (service, turn, dream), r),
        call_ensures(
            TurnService::<C, T, P>::maybe_dream_after_turn::<D>,
            (service, dream),
            status,
        ),
        turn is Ok,
    ensures
        r->Ok_0.dream_status@ == status@,
        r->Ok_0.dream_status is Disabled <==> !service.settings().auto_dream_enabled,
        service.settings().auto_dream_enabled ==> {
            &&& r->Ok_0.dream_status is Failed <==> dream is Err
            &&& r->Ok_0.dream_status is Completed <==> dream is Ok && dream->Ok_0 is Some
        },
        cloned(service.conversation().session.persistence_path, r->Ok_0.session_path),
{
}

/// A service hands out the conversation and the session that it was made of, and looks for its
/// memory by the workspace and the settings that it was made of.
pub proof fn law_service_is_what_it_was_made_of<C, T, P>(
    conversation: ConversationRuntime<C, T, P>,
    cwd: P,
    memory_config: MemoryConfig,
    style: PathStyle,
    service: TurnService<C, T, P>,
    session: &Session<P>,
    runtime: &ConversationRuntime<C, T, P>,
    given_back: ConversationRuntime<C, T, P>,
)
    requires
        call_ensures(
            TurnService::<C, T, P>::new,
            (conversation, cwd, memory_config, style),
            service,
        ),
        call_ensures(TurnService::<C, T, P>::session, (&service,), session),
        call_ensures(TurnService::<C, T, P>::runtime, (&service,), runtime),
        call_ensures(TurnService::<C, T, P>::into_runtime, (service,), given_back),
    ensures
        *session == conversation.session,
        *runtime == conversation,
        given_back == conversation,
        service.workspace() == cwd,
        service.settings() == memory_config,
        service.path_style() == style,
{
}

} // verus!
