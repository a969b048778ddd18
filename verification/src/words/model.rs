//! Where the answer comes from.
//!
//! The engine never speaks to a model itself. It asks whatever is behind
//! `Translator`, so a test can answer without a model file and a client can swap the
//! runner later without touching a single step above this one.

use vstd::prelude::*;

verus! {

/// Anything that can answer a prompt.
pub trait Translator {
    /// Whether `res` is an answer this translator may give to `prompt`. A translator
    /// may say what it answers; one that does not may answer anything. The engine
    /// only needs to know which prompt an answer was to.
    closed spec fn answers(&self, prompt: Seq<char>, res: Result<String, String>) -> bool {
        true
    }

    /// Answers one prompt: everything the model wrote, or a sentence saying why it
    /// wrote nothing.
    fn answer(&self, prompt: &str) -> (res: Result<String, String>)
        ensures
            self.answers(prompt@, res),
    ;
}

/// How much room the answer gets, in tokens per character of the prompt. One token
/// is about four characters, so this is roughly four times what a translation needs:
/// a ceiling that is too low cuts the last sentence off silently.
pub const ANSWER_TOKENS_PER_CHARACTER: usize = 1;

/// Never fewer than this, so a two word passage still has room for punctuation.
pub const LEAST_ANSWER_TOKENS: usize = 64;

/// How many tokens the model may answer a prompt of `prompt_len` bytes with.
pub fn answer_room(prompt_len: usize) -> (n: usize)
    ensures
        n == (if prompt_len * ANSWER_TOKENS_PER_CHARACTER > LEAST_ANSWER_TOKENS {
            prompt_len * ANSWER_TOKENS_PER_CHARACTER
        } else {
            LEAST_ANSWER_TOKENS as int
        }),
{
    let room = prompt_len * ANSWER_TOKENS_PER_CHARACTER;
    if room > LEAST_ANSWER_TOKENS {
        room
    } else {
        LEAST_ANSWER_TOKENS
    }
}

pub open spec fn no_program_sentence(program: Seq<char>) -> Seq<char> {
    "There is no llama-cli program at "@ + program + ". Build llama.cpp first, then say where it is."@
}

pub open spec fn no_model_sentence(model: Seq<char>) -> Seq<char> {
    "There is no model file at "@ + model
        + ". Download a Gemma .gguf file first, then say where it is."@
}

/// A Gemma model in a local file, run by the `llama-cli` program of llama.cpp.
///
/// Both paths are files on this machine and llama.cpp is given no server and no URL,
/// so a translation cannot reach the network even when the machine is online.
#[derive(Debug)]
pub struct LlamaCli {
    program: String,
    model: String,
}

impl View for LlamaCli {
    type V = (Seq<char>, Seq<char>);

    closed spec fn view(&self) -> (Seq<char>, Seq<char>) {
        (self.program@, self.model@)
    }
}

impl LlamaCli {
    /// Points the engine at the program and the model file.
    ///
    /// `program_is_file` and `model_is_file` say whether a file stands at each path,
    /// which the caller looks up. A path without one is refused with a sentence
    /// naming it, the program's first.
    pub fn new(program: &str, model: &str, program_is_file: bool, model_is_file: bool) -> (res: Result<
        LlamaCli,
        String,
    >)
        ensures
            !program_is_file ==> (res matches Err(e) && e@ == no_program_sentence(program@)),
            program_is_file && !model_is_file ==> (res matches Err(e) && e@ == no_model_sentence(
                model@,
            )),
            program_is_file && model_is_file ==> (res matches Ok(l) && l@ == (program@, model@)),
    {
        if !program_is_file {
            let mut why = String::from_str("There is no llama-cli program at ");
            why.append(program);
            why.append(". Build llama.cpp first, then say where it is.");
            return Err(why);
        }
        if !model_is_file {
            let mut why = String::from_str("There is no model file at ");
            why.append(model);
            why.append(". Download a Gemma .gguf file first, then say where it is.");
            return Err(why);
        }
        Ok(LlamaCli { program: String::from_str(program), model: String::from_str(model) })
    }

    /// The `llama-cli` binary.
    pub fn program(&self) -> (p: &str)
        ensures
            p@ == self@.0,
    {
        self.program.as_str()
    }

    /// The `.gguf` model file.
    pub fn model(&self) -> (m: &str)
        ensures
            m@ == self@.1,
    {
        self.model.as_str()
    }
}

} // verus!
