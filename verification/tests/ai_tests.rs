use einbuergerung::ai::{
    build_translation_prompt, build_user_prompt, join_strings, prompt_samples, AiClient, OpenAiContent, OpenAiOutput,
    OpenAiResponsesPayload, DEFAULT_OPENAI_MODEL, SYSTEM_PROMPT,
};
use einbuergerung::models::{AiAnswerContext, AiRequestContext, Answer, MemorySummary, Question};

fn context() -> AiRequestContext {
    AiRequestContext {
        question_id: 7,
        question_text_original: "Frage".to_string(),
        question_text_translation: "Question".to_string(),
        answers: vec![
            AiAnswerContext {
                key: "A".to_string(),
                answer_text_original: "ja".to_string(),
                answer_text_translation: "yes".to_string(),
            },
            AiAnswerContext {
                key: "B".to_string(),
                answer_text_original: "nein".to_string(),
                answer_text_translation: "no".to_string(),
            },
        ],
        correct_key: "A".to_string(),
        selected_key: None,
        is_correct: None,
        memory_summary: MemorySummary {
            frequent_wrong_questions: vec![3, 14],
            concept_confusions: vec!["B -> A".to_string(), "say \"hi\"\n".to_string()],
            vocabulary_weaknesses: vec![],
        },
    }
}

#[test]
fn client_without_key_is_disabled() {
    let c = AiClient::new(None, None);
    assert_eq!(c.model, DEFAULT_OPENAI_MODEL);
    assert_eq!(c.model, "gpt-5.4");
    assert!(!c.is_enabled());
    assert_eq!(c.model_name(), None);
    assert_eq!(c.api_key_for_call().unwrap_err(), "missing OPENAI_API_KEY");
    let s = c.status();
    assert!(!s.enabled);
    assert_eq!(s.model, None);
    assert_eq!(s.status, "disabled");
}

#[test]
fn client_with_key_is_enabled() {
    let c = AiClient::new(Some("key-123".to_string()), Some("small-model".to_string()));
    assert!(c.is_enabled());
    assert_eq!(c.model_name(), Some("small-model"));
    assert_eq!(c.api_key_for_call().unwrap(), "key-123");
    let s = c.status();
    assert!(s.enabled);
    assert_eq!(s.model.as_deref(), Some("small-model"));
    assert_eq!(s.status, "enabled");
}

#[test]
fn user_prompt_lists_question_and_memory() {
    let p = build_user_prompt(&context());
    let confusions = format!("{:?}", vec!["B -> A".to_string(), "say \"hi\"\n".to_string()]);
    let head = format!(
        "Return JSON only.\n\nQuestion id: 7\nGerman question: Frage\nEnglish question: Question\nAnswers: A: ja (yes); B: nein (no)\nCorrect answer key: A\nSelected answer key: none\nResult status: not_answered\nMemory summary: frequent wrong question ids = [3, 14]; concept confusions = {}; vocabulary weaknesses = []\n\nRequirements:\n",
        confusions
    );
    assert!(p.starts_with(&head), "{p}");
    assert!(confusions.contains("\\\"hi\\\"\\n"));
    assert!(p.ends_with("- Do not say you are uncertain about correctness."));
    assert!(p.contains("- Good examples: Polizei -> 🚓, Parlament -> 🏛️, Wahl -> 🗳️, Schule -> 🏫, Gericht -> ⚖️.\n"));
}

#[test]
fn user_prompt_states_the_result() {
    let mut c = context();
    c.selected_key = Some("B".to_string());
    c.is_correct = Some(false);
    let p = build_user_prompt(&c);
    assert!(p.contains("\nSelected answer key: B\nResult status: incorrect\n"));
    c.is_correct = Some(true);
    let p = build_user_prompt(&c);
    assert!(p.contains("\nResult status: correct\n"));
    c.answers.clear();
    c.memory_summary.frequent_wrong_questions.clear();
    let p = build_user_prompt(&c);
    assert!(p.contains("\nAnswers: \nCorrect answer key: A\n"));
    assert!(p.contains("frequent wrong question ids = []; "));
}

#[test]
fn translation_prompt_lists_missing_answers() {
    let q = Question {
        id: 9,
        text_original: "Frage 9".to_string(),
        text_translation: "Question 9".to_string(),
        answers: (0..4)
            .map(|i| Answer {
                answer_text_original: format!("Antwort 9-{i}"),
                answer_text_translation: match i {
                    1 => "  ".to_string(),
                    3 => String::new(),
                    _ => format!("Answer 9-{i}"),
                },
                correct: i == 0,
            })
            .collect(),
    };
    let expected = format!(
        "Question id: 9\nGerman question: Frage 9\nEnglish question translation {} Question 9\nTranslate only these missing answer options into simple English: B: Antwort 9-1; D: Antwort 9-3",
        "from dataset:"
    );
    assert_eq!(build_translation_prompt(&q), expected);
}

#[test]
fn sample_prompts_use_the_example_question() {
    let s = prompt_samples();
    assert_eq!(s.system_prompt, SYSTEM_PROMPT);
    assert!(s.system_prompt.starts_with("You are a concise tutor for beginners preparing for the German Einbuergerungstest.\n"));
    assert!(s.system_prompt.ends_with("- Always return valid JSON matching the requested schema.\n"));
    let u = &s.user_prompt_template;
    assert!(u.starts_with("Return JSON only.\n\nQuestion id: 286\nGerman question: Welche Organisation in einer Firma"));
    assert!(u.contains("\nAnswers: A: der Betriebsrat (the works council); B: der Betriebspruefer / die Betriebsprueferin (the auditor); C: die Betriebsgruppe (the work group); D: das Betriebsmanagement (the operations management)\n"));
    assert!(u.contains("\nCorrect answer key: A\nSelected answer key: B\nResult status: incorrect\n"));
    assert!(u.contains(
        "frequent wrong question ids = [286]; concept confusions = [\"B -> A\"]; vocabulary weaknesses = [\"firma\", \"probleme\"]\n"
    ));
}

#[test]
fn output_text_joins_all_texts() {
    let text = |t: Option<&str>| OpenAiContent { text: t.map(|s| s.to_string()) };
    let payload = OpenAiResponsesPayload {
        output: vec![
            OpenAiOutput { content: vec![text(Some("{\"a\":")), text(None)] },
            OpenAiOutput { content: vec![] },
            OpenAiOutput { content: vec![text(Some("1}"))] },
        ],
    };
    assert_eq!(payload.output_text(), Some("{\"a\":\n1}".to_string()));
    let empty = OpenAiResponsesPayload { output: vec![OpenAiOutput { content: vec![text(None)] }] };
    assert_eq!(empty.output_text(), None);
    assert_eq!(OpenAiResponsesPayload { output: vec![] }.output_text(), None);
}

#[test]
fn strings_join_with_separator() {
    let parts = vec!["a".to_string(), "b".to_string(), "c".to_string()];
    assert_eq!(join_strings(&parts, "; "), "a; b; c");
    assert_eq!(join_strings(&vec![], "; "), "");
    assert_eq!(join_strings(&vec!["x".to_string()], "; "), "x");
}
