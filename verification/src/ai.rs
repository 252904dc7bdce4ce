//! The tutor: what the service asks the language model and how it reads the
//! reply. Sending the request is left to the caller.

use vstd::prelude::*;

use crate::models::{AiAnswerContext, AiRequestContext, AiStatusResponse, Answer, MemorySummary, Question};
use crate::order::views_of;
use crate::quiz::{answer_key, key_text};
use crate::text::{debug_quoted, debug_text, decimal_text, owned, push_decimal, push_str, trim_text, trimmed};

verus! {

/// The model asked when none is configured.
pub const DEFAULT_OPENAI_MODEL: &'static str = "gpt-5.4";

/// The instructions the tutor is given before every question.
pub const SYSTEM_PROMPT: &'static str = r#"You are a concise tutor for beginners preparing for the German Einbuergerungstest.

Rules:
- You are not the judge of correctness.
- Correctness is already decided by the dataset and provided as fact.
- The quiz itself stays in German.
- Explanations must be short, beginner-friendly, and mostly English with important German words preserved.
- Use simple mappings like "Bundesland = state", "waehlen = vote", "Polizei = Sicherheit".
- Emoji must be concrete and mnemonic, not decorative.
- Prefer real-world object/action emoji that match the meaning:
  - Polizei -> 🚓 or 👮
  - Parlament -> 🏛️
  - Wahl / waehlen -> 🗳️
  - Schule -> 🏫
  - Gericht -> ⚖️
  - Arbeit / Firma -> 💼 or 🏢
- Avoid generic emoji like 👉, ✨, or random faces unless they clearly help memory.
- For each answer option, pick emoji that distinguish that option from the others.
- Avoid advanced grammar explanations.
- Keep memory tricks short and practical.
- Always return valid JSON matching the requested schema.
"#;

/// The fixed requirements that end every question prompt.
pub const PROMPT_REQUIREMENTS: &'static str = "\n\nRequirements:\n- emojiQuestion should add a few helpful emoji but keep the full German question.\n- emojiQuestion should use emoji that match the key nouns or actions in the meaning, not generic decoration.\n- emojiOptions should keep the answer keys and German answers.\n- emojiOptions should use distinct, concrete emoji that help a beginner guess the meaning from context.\n- Good examples: Polizei -> 🚓, Parlament -> 🏛️, Wahl -> 🗳️, Schule -> 🏫, Gericht -> ⚖️.\n- Bad example: adding the same generic emoji to every option.\n- hintTitle should be short.\n- hintText should be concise and use easy English + some German words.\n- feedbackText should explain the answer using the provided result status as fact.\n- memoryTrick should be short and memorable.\n- Keep the tone clear and encouraging.\n- Do not say you are uncertain about correctness.";

/// Texts joined with `sep` between neighbours.
pub open spec fn join_texts(parts: Seq<Seq<char>>, sep: Seq<char>) -> Seq<char>
    decreases parts.len(),
{
    if parts.len() == 0 {
        Seq::empty()
    } else if parts.len() == 1 {
        parts[0]
    } else {
        join_texts(parts.drop_last(), sep) + sep + parts.last()
    }
}

/// Appends `part` to a text holding the first `i` parts joined.
proof fn lemma_join_step(parts: Seq<Seq<char>>, sep: Seq<char>, i: int)
    requires
        0 <= i < parts.len(),
    ensures
        join_texts(parts.take(i + 1), sep) == if i == 0 {
            parts[0]
        } else {
            join_texts(parts.take(i), sep) + sep + parts[i]
        },
{
    assert(parts.take(i + 1).drop_last() =~= parts.take(i));
}

/// Joins strings with a separator (as `[String]::join`).
pub fn join_strings(parts: &Vec<String>, sep: &str) -> (r: String)
    ensures
        r@ == join_texts(views_of(parts@), sep@),
{
    let ghost v = views_of(parts@);
    let mut r = String::new();
    let mut i: usize = 0;
    assert(v.take(0) =~= Seq::<Seq<char>>::empty());
    while i < parts.len()
        invariant
            i <= parts.len(),
            v == views_of(parts@),
            r@ == join_texts(v.take(i as int), sep@),
        decreases parts.len() - i,
    {
        proof {
            lemma_join_step(v, sep@, i as int);
        }
        if i > 0 {
            push_str(&mut r, sep);
        }
        push_str(&mut r, parts[i].as_str());
        i = i + 1;
    }
    assert(v.take(parts.len() as int) =~= v);
    r
}

// ---------------------------------------------------------------------------
// The client's settings
// ---------------------------------------------------------------------------

/// The tutor's settings: the API key, if any, and the model to ask. The
/// tutor is enabled exactly when a key is set.
#[derive(Clone, Debug)]
pub struct AiClient {
    pub api_key: Option<String>,
    pub model: String,
}

impl AiClient {
    pub fn new(api_key: Option<String>, model: Option<String>) -> (r: AiClient)
        ensures
            r.api_key == api_key,
            r.model@ == match model {
                Some(m) => m@,
                None => DEFAULT_OPENAI_MODEL@,
            },
    {
        let model = match model {
            Some(m) => m,
            None => owned(DEFAULT_OPENAI_MODEL),
        };
        AiClient { api_key, model }
    }

    pub fn is_enabled(&self) -> (r: bool)
        ensures
            r == self.api_key is Some,
    {
        self.api_key.is_some()
    }

    /// The model asked, shown only when the tutor is enabled.
    pub fn model_name(&self) -> (r: Option<&str>)
        ensures
            match r {
                Some(m) => self.api_key is Some && m@ == self.model@,
                None => self.api_key is None,
            },
    {
        match &self.api_key {
            Some(_) => Some(self.model.as_str()),
            None => None,
        }
    }

    /// The key to send with a request, or the reason no request is made.
    pub fn api_key_for_call(&self) -> (r: Result<String, String>)
        ensures
            match r {
                Ok(k) => self.api_key == Some(k),
                Err(m) => self.api_key is None && m@ == "missing OPENAI_API_KEY"@,
            },
    {
        match &self.api_key {
            Some(k) => Ok(k.clone()),
            None => Err(owned("missing OPENAI_API_KEY")),
        }
    }

    /// Whether the tutor is on, and which model it asks.
    pub fn status(&self) -> (r: AiStatusResponse)
        ensures
            r.enabled == self.api_key is Some,
            match r.model {
                Some(m) => self.api_key is Some && m@ == self.model@,
                None => self.api_key is None,
            },
            r.status@ == if self.api_key is Some {
                "enabled"@
            } else {
                "disabled"@
            },
    {
        let enabled = self.is_enabled();
        let model = match self.model_name() {
            Some(m) => Some(owned(m)),
            None => None,
        };
        AiStatusResponse { enabled, model, status: if enabled { owned("enabled") } else { owned("disabled") } }
    }
}

// ---------------------------------------------------------------------------
// Prompts
// ---------------------------------------------------------------------------

/// An answer option as the prompt lists it: `key: original (translation)`.
pub open spec fn answer_line(a: AiAnswerContext) -> Seq<char> {
    a.key@ + ": "@ + a.answer_text_original@ + " ("@ + a.answer_text_translation@ + ")"@
}

/// The lines of the answer options.
pub open spec fn answer_lines(answers: Seq<AiAnswerContext>) -> Seq<Seq<char>> {
    answers.map_values(|a: AiAnswerContext| answer_line(a))
}

/// The answer options as the prompt lists them, separated by `; `.
pub open spec fn answers_text(answers: Seq<AiAnswerContext>) -> Seq<char> {
    join_texts(answer_lines(answers), "; "@)
}

/// Numbers in decimal.
pub open spec fn decimal_texts(ids: Seq<u32>) -> Seq<Seq<char>> {
    ids.map_values(|n: u32| decimal_text(n as nat))
}

/// A list of numbers as `Debug` writes it: `[1, 2, 3]`.
pub open spec fn id_list_text(ids: Seq<u32>) -> Seq<char> {
    "["@ + join_texts(decimal_texts(ids), ", "@) + "]"@
}

/// Texts quoted as `Debug` writes them.
pub open spec fn debug_texts(texts: Seq<Seq<char>>) -> Seq<Seq<char>> {
    texts.map_values(|t: Seq<char>| debug_text(t))
}

/// A list of texts as `Debug` writes it: each quoted, `["a", "b"]`.
pub open spec fn quoted_list_text(texts: Seq<Seq<char>>) -> Seq<char> {
    "["@ + join_texts(debug_texts(texts), ", "@) + "]"@
}

/// The selected key, or `none`.
pub open spec fn selected_text(selected: Option<String>) -> Seq<char> {
    match selected {
        Some(s) => s@,
        None => "none"@,
    }
}

/// The result of the answer as the prompt states it.
pub open spec fn status_text(is_correct: Option<bool>) -> Seq<char> {
    match is_correct {
        Some(true) => "correct"@,
        Some(false) => "incorrect"@,
        None => "not_answered"@,
    }
}

/// The question prompt for a context.
pub open spec fn user_prompt_text(c: AiRequestContext) -> Seq<char> {
    "Return JSON only.\n\nQuestion id: "@ + decimal_text(c.question_id as nat) + "\nGerman question: "@ + c.question_text_original@
        + "\nEnglish question: "@ + c.question_text_translation@ + "\nAnswers: "@ + answers_text(c.answers@)
        + "\nCorrect answer key: "@ + c.correct_key@ + "\nSelected answer key: "@ + selected_text(c.selected_key) + "\nResult status: "@
        + status_text(c.is_correct) + "\nMemory summary: frequent wrong question ids = "@ + id_list_text(c.memory_summary.frequent_wrong_questions@)
        + "; concept confusions = "@ + quoted_list_text(views_of(c.memory_summary.concept_confusions@))
        + "; vocabulary weaknesses = "@ + quoted_list_text(views_of(c.memory_summary.vocabulary_weaknesses@))
        + PROMPT_REQUIREMENTS@
}

fn answers_line(answers: &Vec<AiAnswerContext>) -> (r: String)
    ensures
        r@ == answers_text(answers@),
{
    let mut lines: Vec<String> = Vec::new();
    let mut i: usize = 0;
    while i < answers.len()
        invariant
            i <= answers.len(),
            views_of(lines@) == answer_lines(answers@.take(i as int)),
        decreases answers.len() - i,
    {
        let a = &answers[i];
        let mut line = a.key.clone();
        push_str(&mut line, ": ");
        push_str(&mut line, a.answer_text_original.as_str());
        push_str(&mut line, " (");
        push_str(&mut line, a.answer_text_translation.as_str());
        push_str(&mut line, ")");
        let ghost before = views_of(lines@);
        proof {
            assert(answer_lines(answers@.take(i + 1)) =~= answer_lines(answers@.take(i as int)).push(answer_line(answers@[i as int])));
        }
        lines.push(line);
        assert(views_of(lines@) =~= before.push(answer_line(answers@[i as int])));
        i = i + 1;
    }
    assert(answers@.take(answers.len() as int) =~= answers@);
    join_strings(&lines, "; ")
}

fn id_list(ids: &Vec<u32>) -> (r: String)
    ensures
        r@ == id_list_text(ids@),
{
    let mut parts: Vec<String> = Vec::new();
    let mut i: usize = 0;
    while i < ids.len()
        invariant
            i <= ids.len(),
            views_of(parts@) == decimal_texts(ids@.take(i as int)),
        decreases ids.len() - i,
    {
        let mut p = String::new();
        push_decimal(&mut p, ids[i] as u128);
        let ghost before = views_of(parts@);
        proof {
            assert(decimal_texts(ids@.take(i + 1)) =~= decimal_texts(ids@.take(i as int)).push(decimal_text(ids@[i as int] as nat)));
        }
        parts.push(p);
        assert(views_of(parts@) =~= before.push(decimal_text(ids@[i as int] as nat)));
        i = i + 1;
    }
    assert(ids@.take(ids.len() as int) =~= ids@);
    let mut r = owned("[");
    let inner = join_strings(&parts, ", ");
    push_str(&mut r, inner.as_str());
    push_str(&mut r, "]");
    r
}

fn quoted_list(texts: &Vec<String>) -> (r: String)
    ensures
        r@ == quoted_list_text(views_of(texts@)),
{
    let mut parts: Vec<String> = Vec::new();
    let mut i: usize = 0;
    while i < texts.len()
        invariant
            i <= texts.len(),
            views_of(parts@) == debug_texts(views_of(texts@).take(i as int)),
        decreases texts.len() - i,
    {
        let ghost before = views_of(parts@);
        proof {
            assert(debug_texts(views_of(texts@).take(i + 1)) =~= debug_texts(views_of(texts@).take(i as int)).push(debug_text(texts@[i as int]@)));
        }
        parts.push(debug_quoted(texts[i].as_str()));
        assert(views_of(parts@) =~= before.push(debug_text(texts@[i as int]@)));
        i = i + 1;
    }
    assert(views_of(texts@).take(texts.len() as int) =~= views_of(texts@));
    let mut r = owned("[");
    let inner = join_strings(&parts, ", ");
    push_str(&mut r, inner.as_str());
    push_str(&mut r, "]");
    r
}

/// The question prompt: the question, its answers, the result so far and
/// the learner's weak spots, then the fixed requirements.
pub fn build_user_prompt(context: &AiRequestContext) -> (r: String)
    ensures
        r@ == user_prompt_text(*context),
{
    let mut r = owned("Return JSON only.\n\nQuestion id: ");
    push_decimal(&mut r, context.question_id as u128);
    push_str(&mut r, "\nGerman question: ");
    push_str(&mut r, context.question_text_original.as_str());
    push_str(&mut r, "\nEnglish question: ");
    push_str(&mut r, context.question_text_translation.as_str());
    push_str(&mut r, "\nAnswers: ");
    let answers = answers_line(&context.answers);
    push_str(&mut r, answers.as_str());
    push_str(&mut r, "\nCorrect answer key: ");
    push_str(&mut r, context.correct_key.as_str());
    push_str(&mut r, "\nSelected answer key: ");
    match &context.selected_key {
        Some(s) => push_str(&mut r, s.as_str()),
        None => push_str(&mut r, "none"),
    }
    push_str(&mut r, "\nResult status: ");
    match context.is_correct {
        Some(true) => push_str(&mut r, "correct"),
        Some(false) => push_str(&mut r, "incorrect"),
        None => push_str(&mut r, "not_answered"),
    }
    push_str(&mut r, "\nMemory summary: frequent wrong question ids = ");
    let ids = id_list(&context.memory_summary.frequent_wrong_questions);
    push_str(&mut r, ids.as_str());
    push_str(&mut r, "; concept confusions = ");
    let confusions = quoted_list(&context.memory_summary.concept_confusions);
    push_str(&mut r, confusions.as_str());
    push_str(&mut r, "; vocabulary weaknesses = ");
    let words = quoted_list(&context.memory_summary.vocabulary_weaknesses);
    push_str(&mut r, words.as_str());
    push_str(&mut r, PROMPT_REQUIREMENTS);
    r
}

/// The answer options still without a translation, as `key: original`, in
/// order (of the first `n` answers).
pub open spec fn missing_translations(answers: Seq<Answer>, n: int) -> Seq<Seq<char>>
    decreases n,
{
    if n <= 0 {
        Seq::empty()
    } else {
        let prev = missing_translations(answers, n - 1);
        if trim_text(answers[n - 1].answer_text_translation@).len() == 0 {
            prev.push(key_text(n - 1) + ": "@ + answers[n - 1].answer_text_original@)
        } else {
            prev
        }
    }
}

/// The prompt asking for the missing translations of a question's answers.
pub open spec fn translation_prompt_text(q: Question) -> Seq<char> {
    "Question id: "@ + decimal_text(q.id as nat) + "\nGerman question: "@ + q.text_original@ + "\nEnglish question translation "@ + "from dataset: "@ + q.text_translation@
        + "\nTranslate only these missing answer options into simple English: "@ + join_texts(missing_translations(q.answers@, q.answers@.len() as int), "; "@)
}

pub fn build_translation_prompt(question: &Question) -> (r: String)
    ensures
        r@ == translation_prompt_text(*question),
{
    let mut missing: Vec<String> = Vec::new();
    let mut i: usize = 0;
    while i < question.answers.len()
        invariant
            i <= question.answers.len(),
            views_of(missing@) == missing_translations(question.answers@, i as int),
        decreases question.answers.len() - i,
    {
        let answer = &question.answers[i];
        if trimmed(answer.answer_text_translation.as_str()).is_empty() {
            let mut line = answer_key(i);
            push_str(&mut line, ": ");
            push_str(&mut line, answer.answer_text_original.as_str());
            missing.push(line);
            assert(views_of(missing@) =~= missing_translations(question.answers@, i + 1));
        } else {
            assert(views_of(missing@) =~= missing_translations(question.answers@, i + 1));
        }
        i = i + 1;
    }
    let mut r = owned("Question id: ");
    push_decimal(&mut r, question.id as u128);
    push_str(&mut r, "\nGerman question: ");
    push_str(&mut r, question.text_original.as_str());
    push_str(&mut r, "\nEnglish question translation ");
    push_str(&mut r, "from dataset: ");
    push_str(&mut r, question.text_translation.as_str());
    push_str(&mut r, "\nTranslate only these missing answer options into simple English: ");
    let list = join_strings(&missing, "; ");
    push_str(&mut r, list.as_str());
    r
}

// ---------------------------------------------------------------------------
// The sample prompts shown to users
// ---------------------------------------------------------------------------

/// The system prompt and a question prompt for an example question.
#[derive(Debug)]
pub struct PromptSamples {
    pub system_prompt: &'static str,
    pub user_prompt_template: String,
}

/// The example: question 286 answered with B where A is correct.
pub open spec fn is_sample_context(c: AiRequestContext) -> bool {
    &&& c.question_id == 286
    &&& c.question_text_original@ == "Welche Organisation in einer Firma hilft den Arbeitnehmern und Arbeitnehmerinnen bei Problemen mit dem Arbeitgeber / der Arbeitgeberin?"@
    &&& c.question_text_translation@ == "Which organization in a company helps employees with problems with the employer?"@
    &&& c.answers@.len() == 4
    &&& c.answers@[0].key@ == "A"@ && c.answers@[0].answer_text_original@ == "der Betriebsrat"@
        && c.answers@[0].answer_text_translation@ == "the works council"@
    &&& c.answers@[1].key@ == "B"@ && c.answers@[1].answer_text_original@ == "der Betriebspruefer / die Betriebsprueferin"@
        && c.answers@[1].answer_text_translation@ == "the auditor"@
    &&& c.answers@[2].key@ == "C"@ && c.answers@[2].answer_text_original@ == "die Betriebsgruppe"@
        && c.answers@[2].answer_text_translation@ == "the work group"@
    &&& c.answers@[3].key@ == "D"@ && c.answers@[3].answer_text_original@ == "das Betriebsmanagement"@
        && c.answers@[3].answer_text_translation@ == "the operations management"@
    &&& c.correct_key@ == "A"@
    &&& c.selected_key matches Some(k) && k@ == "B"@
    &&& c.is_correct == Some(false)
    &&& c.memory_summary.frequent_wrong_questions@ == seq![286u32]
    &&& views_of(c.memory_summary.concept_confusions@) == seq!["B -> A"@]
    &&& views_of(c.memory_summary.vocabulary_weaknesses@) == seq!["firma"@, "probleme"@]
}

fn sample_answer(key: &str, original: &str, translation: &str) -> (r: AiAnswerContext)
    ensures
        r.key@ == key@,
        r.answer_text_original@ == original@,
        r.answer_text_translation@ == translation@,
{
    AiAnswerContext { key: owned(key), answer_text_original: owned(original), answer_text_translation: owned(translation) }
}

/// The prompts as the tutor would get them for the example question.
pub fn prompt_samples() -> (r: PromptSamples)
    ensures
        r.system_prompt@ == SYSTEM_PROMPT@,
        exists|c: AiRequestContext| #[trigger] is_sample_context(c) && r.user_prompt_template@ == user_prompt_text(c),
{
    let mut answers: Vec<AiAnswerContext> = Vec::new();
    answers.push(sample_answer("A", "der Betriebsrat", "the works council"));
    answers.push(sample_answer("B", "der Betriebspruefer / die Betriebsprueferin", "the auditor"));
    answers.push(sample_answer("C", "die Betriebsgruppe", "the work group"));
    answers.push(sample_answer("D", "das Betriebsmanagement", "the operations management"));
    let mut frequent: Vec<u32> = Vec::new();
    frequent.push(286);
    let mut confusions: Vec<String> = Vec::new();
    confusions.push(owned("B -> A"));
    let mut words: Vec<String> = Vec::new();
    words.push(owned("firma"));
    words.push(owned("probleme"));
    let example = AiRequestContext {
        question_id: 286,
        question_text_original: owned(
            "Welche Organisation in einer Firma hilft den Arbeitnehmern und Arbeitnehmerinnen bei Problemen mit dem Arbeitgeber / der Arbeitgeberin?",
        ),
        question_text_translation: owned(
            "Which organization in a company helps employees with problems with the employer?",
        ),
        answers,
        correct_key: owned("A"),
        selected_key: Some(owned("B")),
        is_correct: Some(false),
        memory_summary: MemorySummary {
            frequent_wrong_questions: frequent,
            concept_confusions: confusions,
            vocabulary_weaknesses: words,
        },
    };
    assert(views_of(example.memory_summary.concept_confusions@) =~= seq!["B -> A"@]);
    assert(views_of(example.memory_summary.vocabulary_weaknesses@) =~= seq!["firma"@, "probleme"@]);
    assert(example.memory_summary.frequent_wrong_questions@ =~= seq![286u32]);
    assert(is_sample_context(example));
    let user_prompt_template = build_user_prompt(&example);
    PromptSamples { system_prompt: SYSTEM_PROMPT, user_prompt_template }
}

// ---------------------------------------------------------------------------
// Reading the model's reply
// ---------------------------------------------------------------------------

/// A piece of the model's output.
#[derive(Clone, Debug)]
pub struct OpenAiContent {
    pub text: Option<String>,
}

/// One output item of the model's reply.
#[derive(Clone, Debug)]
pub struct OpenAiOutput {
    pub content: Vec<OpenAiContent>,
}

/// The model's reply, as far as the service reads it.
#[derive(Clone, Debug)]
pub struct OpenAiResponsesPayload {
    pub output: Vec<OpenAiOutput>,
}

/// The texts of some pieces of output, in order, skipping those without one.
pub open spec fn content_texts(cs: Seq<OpenAiContent>) -> Seq<Seq<char>>
    decreases cs.len(),
{
    if cs.len() == 0 {
        Seq::empty()
    } else {
        let prev = content_texts(cs.drop_last());
        match cs.last().text {
            Some(t) => prev.push(t@),
            None => prev,
        }
    }
}

/// The texts of the output items, in order.
pub open spec fn output_texts(outs: Seq<OpenAiOutput>) -> Seq<Seq<char>>
    decreases outs.len(),
{
    if outs.len() == 0 {
        Seq::empty()
    } else {
        output_texts(outs.drop_last()) + content_texts(outs.last().content@)
    }
}

fn collect_texts(parts: &mut Vec<String>, cs: &Vec<OpenAiContent>)
    ensures
        views_of(final(parts)@) == views_of(old(parts)@) + content_texts(cs@),
{
    let ghost start = views_of(parts@);
    let mut i: usize = 0;
    assert(cs@.take(0) =~= Seq::<OpenAiContent>::empty());
    assert(start + content_texts(Seq::<OpenAiContent>::empty()) =~= start);
    while i < cs.len()
        invariant
            i <= cs.len(),
            views_of(parts@) == start + content_texts(cs@.take(i as int)),
        decreases cs.len() - i,
    {
        assert(cs@.take(i + 1).drop_last() =~= cs@.take(i as int));
        assert(cs@.take(i + 1).last() == cs@[i as int]);
        match &cs[i].text {
            Some(t) => {
                let ghost before = views_of(parts@);
                parts.push(t.clone());
                assert(views_of(parts@) =~= before.push(t@));
                assert(views_of(parts@) =~= start + content_texts(cs@.take(i + 1)));
            },
            None => {},
        }
        i = i + 1;
    }
    assert(cs@.take(cs.len() as int) =~= cs@);
}

impl OpenAiResponsesPayload {
    /// All texts of the reply joined by line breaks, or nothing when it has
    /// none.
    pub fn output_text(&self) -> (r: Option<String>)
        ensures
            match r {
                Some(t) => output_texts(self.output@).len() > 0 && t@ == join_texts(
                    output_texts(self.output@),
                    "\n"@,
                ),
                None => output_texts(self.output@).len() == 0,
            },
    {
        let mut parts: Vec<String> = Vec::new();
        let mut i: usize = 0;
        assert(self.output@.take(0) =~= Seq::<OpenAiOutput>::empty());
        assert(views_of(parts@) =~= Seq::<Seq<char>>::empty());
        while i < self.output.len()
            invariant
                i <= self.output.len(),
                views_of(parts@) == output_texts(self.output@.take(i as int)),
            decreases self.output.len() - i,
        {
            assert(self.output@.take(i + 1).drop_last() =~= self.output@.take(i as int));
            collect_texts(&mut parts, &self.output[i].content);
            i = i + 1;
        }
        assert(self.output@.take(self.output.len() as int) =~= self.output@);
        if parts.len() == 0 {
            None
        } else {
            Some(join_strings(&parts, "\n"))
        }
    }
}

} // verus!
