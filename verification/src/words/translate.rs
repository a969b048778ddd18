//! The one step that turns a passage into its translation.

use vstd::prelude::*;
use super::chars;
use super::language::Language;
use super::model::Translator;
use super::prompt::{self, build_prompt, read_reply};

verus! {

pub open spec fn nothing_to_translate_sentence() -> Seq<char> {
    "There is nothing to translate in this passage."@
}

pub open spec fn already_sentence(name: Seq<char>) -> Seq<char> {
    "The text is already in "@ + name + ", so there is nothing to translate."@
}

/// Translates one passage.
///
/// A passage with nothing in it is refused before the model is asked, and so is one
/// whose two languages are the same. Otherwise the model is asked once, with
/// the prompt `build_prompt` makes, and its answer is read by `read_reply`: what
/// comes back is the model's own sentence, or what `read_reply` makes of the text it
/// wrote.
pub fn translate_passage<T: Translator + ?Sized>(model: &T, passage: &str, from: &Language, to: &Language) -> (res: Result<String, String>)
    ensures
        chars::trim(passage@).len() == 0 ==> (res matches Err(e) && e@ == nothing_to_translate_sentence()),
        chars::trim(passage@).len() > 0 && from@ == to@ ==> (res matches Err(e) && e@ == already_sentence(
            to@.1,
        )),
        chars::trim(passage@).len() > 0 && from@ != to@ ==> exists|answer: Result<String, String>|
            #[trigger] model.answers(prompt::prompt_text(passage@, from@.1, to@.1), answer) && match answer {
                Err(why) => res == Err::<String, String>(why),
                Ok(reply) => if prompt::reply_text(reply@).len() == 0 {
                    res matches Err(e) && e@ == prompt::nothing_sentence()
                } else {
                    res matches Ok(t) && t@ == prompt::reply_text(reply@)
                },
            },
{
    let body = chars::trimmed(chars::to_chars(passage).as_slice());
    if body.len() == 0 {
        return Err(String::from_str("There is nothing to translate in this passage."));
    }
    if from.same_as(to) {
        let mut why = String::from_str("The text is already in ");
        why.append(to.name());
        why.append(", so there is nothing to translate.");
        return Err(why);
    }
    let asked = build_prompt(passage, from, to);
    let answer = model.answer(asked.as_str());
    let ghost heard = answer;
    let reply = match answer {
        Ok(r) => r,
        Err(e) => {
            proof {
                assert(model.answers(prompt::prompt_text(passage@, from@.1, to@.1), heard));
            }
            return Err(e);
        },
    };
    let kept = read_reply(reply.as_str());
    proof {
        assert(model.answers(prompt::prompt_text(passage@, from@.1, to@.1), heard));
    }
    kept
}

} // verus!
