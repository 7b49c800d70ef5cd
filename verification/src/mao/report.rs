//! The results of the agents, as a text and as JSON.
use vstd::prelude::*;

use super::{SubTaskResult, SubTaskResultView};
use crate::json;
use crate::json::JsonTree;
use crate::text;

verus! {

broadcast use vstd::seq::group_seq_axioms;

// ---------------------------------------------------------------------------
// Capitals
// ---------------------------------------------------------------------------

/// The text that `char::to_uppercase` gives for a character.
pub uninterp spec fn uppercase_of(c: char) -> Seq<char>;

/// `char::to_uppercase` gives the characters that stand for a character in upper case, as the
/// Unicode tables have them; which they are is left unsaid.
#[verifier::external_body]
fn uppercase(c: char) -> (r: String)
    ensures
        r@ == uppercase_of(c),
{
    c.to_uppercase().collect()
}

/// `s` with `capital` in place of its first character.
pub open spec fn with_capital(s: Seq<char>, capital: Seq<char>) -> Seq<char> {
    if s.len() == 0 {
        s
    } else {
        capital + s.skip(1)
    }
}

/// `s` with `capital` in place of its first character.
pub fn replace_first(s: &str, capital: &str) -> (r: String)
    ensures
        r@ == with_capital(s@, capital@),
{
    let chars = text::to_chars(s);
    if chars.len() == 0 {
        return String::new();
    }
    let rest = text::from_chars(&chars, 1, chars.len());
    proof {
        assert(rest@ =~= s@.skip(1));
    }
    text::concat(capital, rest.as_str())
}

/// `s` with its first character in upper case.
pub open spec fn capitalized(s: Seq<char>) -> Seq<char> {
    with_capital(s, uppercase_of(s[0]))
}

/// `s` with its first character in upper case.
pub fn capitalize(s: &str) -> (r: String)
    ensures
        r@ == capitalized(s@),
{
    let chars = text::to_chars(s);
    if chars.len() == 0 {
        return String::new();
    }
    replace_first(s, uppercase(chars[0]).as_str())
}

// ---------------------------------------------------------------------------
// The report as a text
// ---------------------------------------------------------------------------

/// What a report says of a result, of an agent under the given title.
pub open spec fn section(result: SubTaskResultView, title: Seq<char>) -> Seq<char> {
    "\n## Task "@ + text::decimal(result.task.id) + " — "@ + title + " agent\n\n**Brief:** "@
        + result.task.brief + "\n\n"@ + match result.error {
        Some(message) => "**Error:** "@ + message + "\n"@,
        None => result.output + "\n"@,
    } + "---\n"@
}

/// What a report says of a result, of an agent under the given title.
pub fn render_section(result: &SubTaskResult, title: &str) -> (r: String)
    ensures
        r@ == section(result@, title@),
{
    let mut r: String = "\n## Task ".to_owned();
    r.append(text::decimal_string(result.task.id as u128).as_str());
    r.append(" — ");
    r.append(title);
    r.append(" agent\n\n**Brief:** ");
    r.append(result.task.brief.as_str());
    r.append("\n\n");
    let mut outcome: String = String::new();
    match &result.error {
        Some(message) => {
            outcome.append("**Error:** ");
            outcome.append(message.as_str());
            outcome.append("\n");
            proof {
                assert(outcome@ =~= "**Error:** "@ + message@ + "\n"@);
            }
        },
        None => {
            outcome.append(result.output.as_str());
            outcome.append("\n");
            proof {
                assert(outcome@ =~= result.output@ + "\n"@);
            }
        },
    }
    r.append(outcome.as_str());
    r.append("---\n");
    r
}

/// What a report says of results, one after another, each agent under its name with a capital.
pub open spec fn sections(results: Seq<SubTaskResultView>) -> Seq<char>
    decreases results.len(),
{
    if results.len() == 0 {
        Seq::empty()
    } else {
        sections(results.drop_last()) + section(
            results.last(),
            capitalized(results.last().task.agent),
        )
    }
}

// ---------------------------------------------------------------------------
// The report as JSON
// ---------------------------------------------------------------------------

/// What a report holds of a result.
pub open spec fn result_tree(result: SubTaskResultView) -> JsonTree {
    JsonTree::Object(
        map![
            "id"@ => JsonTree::Number(result.task.id),
            "agent"@ => JsonTree::Text(result.task.agent),
            "brief"@ => JsonTree::Text(result.task.brief),
            "output"@ => JsonTree::Text(result.output),
            "error"@ => match result.error {
                Some(message) => JsonTree::Text(message),
                None => JsonTree::Null,
            },
        ],
    )
}

/// What a report holds of results.
pub open spec fn report_tree(results: Seq<SubTaskResultView>) -> JsonTree {
    JsonTree::Object(
        map![
            "type"@ => JsonTree::Text("orchestration_result"@),
            "phase"@ => JsonTree::Number(1),
            "task_count"@ => JsonTree::Number(results.len()),
            "tasks"@ => JsonTree::List(Seq::new(results.len(), |i: int| result_tree(results[i]))),
        ],
    )
}

/// What a report holds of a result.
pub fn result_value(result: &SubTaskResult) -> (value: serde_json::Value)
    ensures
        json::tree_of(value) == result_tree(result@),
{
    let error = match &result.error {
        Some(message) => json::text_value(message.clone()),
        None => json::null_value(),
    };
    let mut members = json::no_members();
    proof {
        assert(json::members_of(members) =~= Map::empty());
    }
    json::insert_member(&mut members, "id".to_owned(), json::number_value(result.task.id as u64));
    json::insert_member(
        &mut members,
        "agent".to_owned(),
        json::text_value(result.task.agent.clone()),
    );
    json::insert_member(
        &mut members,
        "brief".to_owned(),
        json::text_value(result.task.brief.clone()),
    );
    json::insert_member(&mut members, "output".to_owned(), json::text_value(result.output.clone()));
    json::insert_member(&mut members, "error".to_owned(), error);
    json::object_value(members)
}

/// The results of the agents.
pub struct OrchestrationOutput {
    pub results: Vec<SubTaskResult>,
}

impl View for OrchestrationOutput {
    type V = Seq<SubTaskResultView>;

    open spec fn view(&self) -> Seq<SubTaskResultView> {
        super::result_views(self.results@)
    }
}

impl OrchestrationOutput {
    /// The report as a text.
    pub fn render_text(&self) -> (r: String)
        ensures
            r@ == sections(self@),
    {
        let mut out: String = String::new();
        let mut i: usize = 0;
        proof {
            assert(out@ =~= sections(self@.take(0)));
        }
        while i < self.results.len()
            invariant
                i <= self.results@.len(),
                out@ == sections(self@.take(i as int)),
            decreases self.results@.len() - i,
        {
            let result = &self.results[i];
            let title = capitalize(result.task.agent.as_str());
            out.append(render_section(result, title.as_str()).as_str());
            proof {
                let next = self@.take(i + 1);
                assert(next.drop_last() =~= self@.take(i as int));
                assert(next.last() == result@);
            }
            i = i + 1;
        }
        proof {
            assert(self@.take(i as int) =~= self@);
        }
        out
    }

    /// The report as a JSON value.
    pub fn report_value(&self) -> (value: serde_json::Value)
        ensures
            json::tree_of(value) == report_tree(self@),
    {
        let mut tasks: Vec<serde_json::Value> = Vec::new();
        let mut i: usize = 0;
        while i < self.results.len()
            invariant
                i <= self.results@.len(),
                tasks@.len() == i,
                forall|k: int|
                    0 <= k < i ==> json::tree_of(#[trigger] tasks@[k]) == result_tree(
                        self.results@[k]@,
                    ),
            decreases self.results@.len() - i,
        {
            tasks.push(result_value(&self.results[i]));
            i = i + 1;
        }
        proof {
            let trees = Seq::new(self@.len(), |i: int| result_tree(self@[i]));
            assert(json::trees_of(tasks@) =~= trees);
        }
        let mut members = json::no_members();
        proof {
            assert(json::members_of(members) =~= Map::empty());
        }
        json::insert_member(
            &mut members,
            "type".to_owned(),
            json::text_value("orchestration_result".to_owned()),
        );
        json::insert_member(&mut members, "phase".to_owned(), json::number_value(1));
        json::insert_member(
            &mut members,
            "task_count".to_owned(),
            json::number_value(self.results.len() as u64),
        );
        json::insert_member(&mut members, "tasks".to_owned(), json::list_value(tasks));
        json::object_value(members)
    }

    /// The report as the text of a JSON value.
    pub fn render_json(&self) -> (r: String)
        ensures
            r@ == json::pretty_text(report_tree(self@)),
    {
        json::text_or_empty_object(json::to_pretty_text(&self.report_value()))
    }
}

// ---------------------------------------------------------------------------
// Laws
// ---------------------------------------------------------------------------

/// A report on more results begins with the report on the first of them.
pub proof fn law_reports_grow(results: Seq<SubTaskResultView>, more: Seq<SubTaskResultView>)
    ensures
        sections(results + more) == sections(results) + sections(more),
    decreases more.len(),
{
    if more.len() == 0 {
        assert(results + more =~= results);
        assert(sections(results) + sections(more) =~= sections(results));
    } else {
        law_reports_grow(results, more.drop_last());
        let all = results + more;
        let last = section(more.last(), capitalized(more.last().task.agent));
        assert(all.drop_last() =~= results + more.drop_last());
        assert(all.last() == more.last());
        assert(sections(results) + sections(more.drop_last()) + last =~= sections(results) + (
        sections(more.drop_last()) + last));
    }
}

/// What a report says of a result holds the number of its task, the title of its agent, the brief
/// and what came of it, each whole and unchanged: the output, or where there is an error, that.
pub proof fn law_section_holds_the_result(result: &SubTaskResult, title: &str, r: String)
    requires
        call_ensures(render_section, (result, title), r),
    ensures
        ({
            let start = "\n## Task "@ + text::decimal(result.task.id as nat) + " — "@ + title@
                + " agent\n\n**Brief:** "@ + result.task.brief@ + "\n\n"@;
            let end = match result.error {
                Some(message) => "**Error:** "@ + message@ + "\n---\n"@,
                None => result.output@ + "\n---\n"@,
            };
            r@ == start + end
        }),
{
    reveal_strlit("\n");
    reveal_strlit("---\n");
    reveal_strlit("\n---\n");
    let start = "\n## Task "@ + text::decimal(result.task.id as nat) + " — "@ + title@
        + " agent\n\n**Brief:** "@ + result.task.brief@ + "\n\n"@;
    assert("\n---\n"@ =~= "\n"@ + "---\n"@);
    match result.error {
        Some(message) => {
            assert(r@ =~= start + ("**Error:** "@ + message@ + "\n---\n"@));
        },
        None => {
            assert(r@ =~= start + (result.output@ + "\n---\n"@));
        },
    }
}

/// A report is what is said of each result, one after another, in their order, each under the name
/// of its agent with a capital.
pub proof fn law_report_tells_of_every_result(
    output: &OrchestrationOutput,
    i: int,
    title: String,
    told: String,
    r: String,
)
    requires
        call_ensures(OrchestrationOutput::render_text, (output,), r),
        0 <= i < output.results@.len(),
        title@ == capitalized(output.results@[i].task.agent@),
        told@ == section(output.results@[i]@, title@),
    ensures
        (sections(output@.take(i)) + told@).is_prefix_of(r@),
        sections(Seq::empty()) == Seq::<char>::empty(),
{
    let all = output@;
    let one = seq![all[i]];
    assert(all =~= all.take(i) + (one + all.skip(i + 1)));
    law_reports_grow(all.take(i), one + all.skip(i + 1));
    law_reports_grow(one, all.skip(i + 1));
    assert(one.drop_last() =~= Seq::empty());
    reveal_with_fuel(sections, 2);
    assert(sections(one) =~= told@);
    let start = sections(all.take(i)) + told@;
    assert(start =~= r@.subrange(0, start.len() as int));
}

/// A capital takes the place of the first character, and of nothing else.
pub proof fn law_only_the_first_character_changes(s: &str, capital: &str, r: String)
    requires
        call_ensures(replace_first, (s, capital), r),
    ensures
        s@.len() == 0 ==> r@.len() == 0,
        s@.len() > 0 ==> {
            &&& r@.len() == capital@.len() + s@.len() - 1
            &&& capital@.is_prefix_of(r@)
            &&& forall|i: int|
                1 <= i < s@.len() ==> r@[capital@.len() + i - 1] == #[trigger] s@[i]
        },
{
    if s@.len() > 0 {
        assert(capital@ =~= r@.subrange(0, capital@.len() as int));
    }
}

/// The JSON of a result holds its fields, each as it is.
pub proof fn law_json_holds_the_result(result: &SubTaskResult, value: serde_json::Value)
    requires
        call_ensures(result_value, (result,), value),
    ensures
        json::tree_of(value) is Object,
        ({
            let members = json::tree_of(value)->Object_0;
            &&& members.dom() == set!["id"@, "agent"@, "brief"@, "output"@, "error"@]
            &&& members["id"@] == JsonTree::Number(result.task.id as nat)
            &&& members["agent"@] == JsonTree::Text(result.task.agent@)
            &&& members["brief"@] == JsonTree::Text(result.task.brief@)
            &&& members["output"@] == JsonTree::Text(result.output@)
            &&& members["error"@] == match result.error {
                Some(message) => JsonTree::Text(message@),
                None => JsonTree::Null,
            }
        }),
{
    reveal_strlit("id");
    reveal_strlit("agent");
    reveal_strlit("brief");
    reveal_strlit("output");
    reveal_strlit("error");
    assert("agent"@[0] == 'a' && "brief"@[0] == 'b' && "error"@[0] == 'e');
    assert("id"@.len() == 2 && "output"@.len() == 6);
    let members = json::tree_of(value)->Object_0;
    assert(members.dom() =~= set!["id"@, "agent"@, "brief"@, "output"@, "error"@]);
}

/// The JSON of a report holds the number of the results and each of them, in their order.
pub proof fn law_json_holds_every_result(output: &OrchestrationOutput, value: serde_json::Value)
    requires
        call_ensures(OrchestrationOutput::report_value, (output,), value),
    ensures
        json::tree_of(value) is Object,
        ({
            let members = json::tree_of(value)->Object_0;
            &&& members.dom() == set!["type"@, "phase"@, "task_count"@, "tasks"@]
            &&& members["type"@] == JsonTree::Text("orchestration_result"@)
            &&& members["phase"@] == JsonTree::Number(1)
            &&& members["task_count"@] == JsonTree::Number(output.results@.len())
            &&& members["tasks"@] is List
            &&& members["tasks"@]->List_0.len() == output.results@.len()
            &&& forall|i: int|
                0 <= i < output.results@.len() ==> #[trigger] members["tasks"@]->List_0[i]
                    == result_tree(output.results@[i]@)
        }),
{
    reveal_strlit("type");
    reveal_strlit("phase");
    reveal_strlit("task_count");
    reveal_strlit("tasks");
    assert("type"@.len() == 4 && "phase"@.len() == 5 && "task_count"@.len() == 10);
    assert("phase"@[0] == 'p' && "tasks"@[0] == 't' && "tasks"@.len() == 5);
    let members = json::tree_of(value)->Object_0;
    assert(members.dom() =~= set!["type"@, "phase"@, "task_count"@, "tasks"@]);
}

/// The name of an agent is shown with its first character in upper case and the others as they are.
pub proof fn law_names_get_a_capital(s: &str, r: String)
    requires
        call_ensures(capitalize, (s,), r),
    ensures
        s@.len() == 0 ==> r@.len() == 0,
        s@.len() > 0 ==> r@ == uppercase_of(s@[0]) + s@.skip(1),
{
}

/// The JSON text of a report is the text of its JSON value.
pub proof fn law_json_text_is_of_the_report(
    output: &OrchestrationOutput,
    value: serde_json::Value,
    r: String,
)
    requires
        call_ensures(OrchestrationOutput::report_value, (output,), value),
        call_ensures(OrchestrationOutput::render_json, (output,), r),
    ensures
        r@ == json::pretty_text(json::tree_of(value)),
{
}

} // verus!
