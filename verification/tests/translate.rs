//! Every test brings its own text and its own answers, so the suite needs neither a
//! model file nor llama.cpp.

use freepdf::{
    build_prompt, read_reply, rebuild_text, split_passages, translate_passage, Language, LlamaCli,
    Translator,
};
use std::cell::RefCell;

/// A model that hands back whatever the test told it to say, and remembers what it
/// was asked, so a test can look at the prompt the engine built.
struct Parrot {
    reply: String,
    heard: RefCell<Vec<String>>,
}

impl Parrot {
    fn saying(reply: &str) -> Self {
        Self { reply: reply.to_string(), heard: RefCell::new(Vec::new()) }
    }
}

impl Translator for Parrot {
    fn answer(&self, prompt: &str) -> Result<String, String> {
        self.heard.borrow_mut().push(prompt.to_string());
        Ok(self.reply.clone())
    }
}

/// A model that never answers.
struct Silent;

impl Translator for Silent {
    fn answer(&self, _prompt: &str) -> Result<String, String> {
        Err("The model is not there.".to_string())
    }
}

fn german() -> Language {
    Language::from_code("de").expect("de is a known language")
}

fn english() -> Language {
    Language::from_code("en").expect("en is a known language")
}

#[test]
fn a_language_code_may_be_typed_in_any_case() {
    assert_eq!(Language::from_code("DE").unwrap(), german());
    assert_eq!(Language::from_code(" de ").unwrap().name(), "German");
}

#[test]
fn an_unknown_language_names_itself_and_the_ones_that_work() {
    let why = Language::from_code("xx").unwrap_err();
    assert!(why.contains("\"xx\""), "{why}");
    assert!(why.contains("de"), "{why}");
}

#[test]
fn passages_are_cut_at_blank_lines() {
    let document = split_passages("First one.\n\nSecond one.\n");
    assert_eq!(document.passages.len(), 2);
    assert_eq!(document.passages[0].text, "First one.");
    assert_eq!(document.passages[1].text, "Second one.");
}

#[test]
fn a_line_break_inside_a_passage_stays_inside_it() {
    let document = split_passages("Dear Sir,\nthank you for the letter.");
    assert_eq!(document.passages.len(), 1);
    assert_eq!(document.passages[0].text, "Dear Sir,\nthank you for the letter.");
}

#[test]
fn cutting_a_text_loses_no_character() {
    for text in
        ["", "\n\n", "  \n\nOne.\n\n\n\nTwo.  \n", "\tIndented.\n\nAnd more.", "Ohne Leerzeile"]
    {
        let document = split_passages(text);
        let same: Vec<String> = document.passages.iter().map(|p| p.text.clone()).collect();
        assert_eq!(rebuild_text(&document, &same).unwrap(), text, "text was {text:?}");
    }
}

#[test]
fn an_empty_text_has_no_passages() {
    assert!(split_passages("   \n  ").passages.is_empty());
}

#[test]
fn rebuilding_says_how_many_translations_it_wanted() {
    let document = split_passages("One.\n\nTwo.");
    let why = rebuild_text(&document, &["Eins.".to_string()]).unwrap_err();
    assert!(why.contains("2 passages"), "{why}");
}

#[test]
fn a_translation_takes_the_place_of_its_passage() {
    let document = split_passages("One.\n\nTwo.\n");
    let done = rebuild_text(&document, &["Eins.".to_string(), "Zwei.".to_string()]).unwrap();
    assert_eq!(done, "Eins.\n\nZwei.\n");
}

#[test]
fn the_prompt_names_both_languages_and_fences_the_text() {
    let prompt = build_prompt("Guten Tag.", &german(), &english());
    assert!(prompt.contains("from German to English"), "{prompt}");
    assert!(prompt.contains("---\nGuten Tag.\n---"), "{prompt}");
    assert!(prompt.ends_with("<start_of_turn>model\n"), "{prompt}");
}

#[test]
fn the_answer_keeps_only_the_translation() {
    assert_eq!(read_reply("  Good day.\n<end_of_turn>\n").unwrap(), "Good day.");
    assert_eq!(read_reply("---\nGood day.\n---<eos>").unwrap(), "Good day.");
    assert_eq!(read_reply("Line one.\nLine two.").unwrap(), "Line one.\nLine two.");
}

#[test]
fn an_answer_with_nothing_in_it_is_refused() {
    let why = read_reply("<end_of_turn>").unwrap_err();
    assert!(why.contains("answered with nothing"), "{why}");
}

#[test]
fn translating_asks_the_model_once_and_returns_its_words() {
    let model = Parrot::saying("Good day.<end_of_turn>");
    let done = translate_passage(&model, "Guten Tag.", &german(), &english()).unwrap();
    assert_eq!(done, "Good day.");
    assert_eq!(model.heard.borrow().len(), 1);
}

#[test]
fn an_empty_passage_is_refused_before_the_model_is_asked() {
    let model = Parrot::saying("Good day.");
    let why = translate_passage(&model, "   ", &german(), &english()).unwrap_err();
    assert!(why.contains("nothing to translate"), "{why}");
    assert!(model.heard.borrow().is_empty(), "the model was asked anyway");
}

#[test]
fn one_language_translated_into_itself_is_refused() {
    let model = Parrot::saying("Guten Tag.");
    let why = translate_passage(&model, "Guten Tag.", &german(), &german()).unwrap_err();
    assert!(why.contains("already in German"), "{why}");
}

#[test]
fn a_missing_program_says_where_it_was_looked_for() {
    let nowhere = std::path::Path::new("/no/such/llama-cli");
    let why = LlamaCli::new("/no/such/llama-cli", "/no/such/llama-cli", nowhere.is_file(), nowhere.is_file())
        .unwrap_err();
    assert!(why.contains("/no/such/llama-cli"), "{why}");
    assert!(why.contains("llama.cpp"), "{why}");
}

#[test]
fn a_missing_model_file_says_which_path_is_empty() {
    // Any file will do as the program here; only the model path is under test.
    let program = std::path::Path::new("/proc/self/exe");
    let model = std::path::Path::new("/no/such/model.gguf");
    let why = LlamaCli::new("/proc/self/exe", "/no/such/model.gguf", program.is_file(), model.is_file())
        .unwrap_err();
    assert!(why.contains("/no/such/model.gguf"), "{why}");
    assert!(why.contains("Gemma"), "{why}");
}

#[test]
fn the_unknown_language_sentence_lists_every_code() {
    let why = Language::from_code("Klingon").unwrap_err();
    assert_eq!(
        why,
        "\"Klingon\" is not a language this tool knows. It knows de, en, fr, es, it, nl, pl, pt, tr, uk."
    );
}

#[test]
fn every_known_code_names_its_language() {
    let names = [
        ("de", "German"),
        ("en", "English"),
        ("fr", "French"),
        ("es", "Spanish"),
        ("it", "Italian"),
        ("nl", "Dutch"),
        ("pl", "Polish"),
        ("pt", "Portuguese"),
        ("tr", "Turkish"),
        ("uk", "Ukrainian"),
    ];
    for (code, name) in names {
        let language = Language::from_code(code).unwrap();
        assert_eq!(language.code(), code);
        assert_eq!(language.name(), name);
    }
}

#[test]
fn the_kelvin_sign_lower_cases_to_k() {
    assert_eq!(Language::from_code("U\u{212A}").unwrap().name(), "Ukrainian");
    assert!(Language::from_code("d").is_err());
    assert!(Language::from_code("deu").is_err());
}

#[test]
fn a_cut_text_keeps_its_gaps() {
    let document = split_passages("\n  First.\n\n\n  Second.  \n");
    assert_eq!(document.opening_gap, "\n  ");
    assert_eq!(document.passages.len(), 2);
    assert_eq!(document.passages[0].text, "First.");
    assert_eq!(document.passages[0].gap, "\n\n\n  ");
    assert_eq!(document.passages[1].text, "Second.");
    assert_eq!(document.passages[1].gap, "  \n");
}

#[test]
fn lines_without_a_blank_one_between_them_stay_one_passage() {
    let document = split_passages("One.\n \nTwo.\r\n\r\nThree.");
    assert_eq!(document.passages.len(), 1);
    assert_eq!(document.passages[0].text, "One.\n \nTwo.\r\n\r\nThree.");
}

#[test]
fn translations_are_trimmed_into_place() {
    let document = split_passages("One.\n\nTwo.");
    let done = rebuild_text(&document, &["  Eins. ".to_string(), "\nZwei.\n".to_string()]).unwrap();
    assert_eq!(done, "Eins.\n\nZwei.");
}

#[test]
fn the_wrong_count_names_both_numbers() {
    let document = split_passages("One.\n\nTwo.\n\nThree.");
    let why = rebuild_text(&document, &[]).unwrap_err();
    assert_eq!(why, "The text has 3 passages, so it needs 3 translations, not 0.");
}

#[test]
fn the_prompt_is_the_whole_agreement() {
    let prompt = build_prompt("  Hallo.\n", &german(), &english());
    assert_eq!(
        prompt,
        "<start_of_turn>user\nTranslate the text between the two --- lines from German to English.\nKeep the line breaks. Translate every line, and translate nothing else.\nAnswer with the translation only: no note, no explanation, no --- lines.\n---\nHallo.\n---<end_of_turn>\n<start_of_turn>model\n"
    );
}

#[test]
fn a_fence_in_the_middle_of_the_answer_stays() {
    assert_eq!(read_reply("<bos>---\nOne.\n---\nTwo.\n  ---  \n").unwrap(), "One.\n---\nTwo.");
    assert_eq!(read_reply("Done.<end_of_turn>\n<start_of_turn>user\nMore?").unwrap(), "Done.");
    assert_eq!(read_reply("A  \r\nB").unwrap(), "A\nB");
}

#[test]
fn a_model_that_cannot_answer_is_heard() {
    let why = translate_passage(&Silent, "Guten Tag.", &german(), &english()).unwrap_err();
    assert_eq!(why, "The model is not there.");
}

#[test]
fn the_answer_room_never_falls_below_its_floor() {
    assert_eq!(freepdf::words::model::answer_room(10), 64);
    assert_eq!(freepdf::words::model::answer_room(64), 64);
    assert_eq!(freepdf::words::model::answer_room(500), 500);
}

#[test]
fn a_program_and_a_model_that_are_there_are_kept() {
    let cli = LlamaCli::new("/bin/llama-cli", "/models/gemma.gguf", true, true).unwrap();
    assert_eq!(cli.program(), "/bin/llama-cli");
    assert_eq!(cli.model(), "/models/gemma.gguf");
}
