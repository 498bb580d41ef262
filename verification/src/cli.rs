//! What the user can ask for.

use crate::text::{all_white, is_blank, law_trimming_takes_white_ends_only, trimmed, white};
use vstd::prelude::*;

verus! {

/// Subcommands that show what the history holds.
#[derive(Debug)]
pub enum Commands {
    /// Show the scorecard of the models.
    Scoreboard,
    /// Show recent debates.
    History {
        /// Number of debates to show.
        limit: usize,
        /// Name of the provider that took part.
        provider: Option<String>,
    },
}

/// How a debate is held.
#[derive(Clone, Copy, PartialEq, Eq, Structural, Debug)]
pub enum DebateMode {
    /// Parallel responses, no audit.
    Quick,
    /// Responses and cross-audit.
    General,
    /// Responses, audit and synthesis of a code review.
    Code,
    /// Responses, audit and synthesis of a diagnosis.
    Debug,
    /// Responses, adversarial audit and synthesis.
    Adversarial,
}

/// How the result is written.
#[derive(Clone, Copy, PartialEq, Eq, Structural, Debug)]
pub enum OutputFormat {
    Text,
    Json,
}

/// What a run of the program does.
#[derive(Debug)]
pub enum Task {
    /// Write an example configuration.
    Init,
    /// Show what the history holds.
    Show(Commands),
    /// Hold a debate.
    Debate,
}

/// Picks the task of a run: the example configuration comes before a subcommand, and a subcommand
/// before a debate.
pub fn choose_task(init: bool, command: Option<Commands>) -> (task: Task)
    ensures
        task == if init {
            Task::Init
        } else {
            match command {
                Some(c) => Task::Show(c),
                None => Task::Debate,
            }
        },
{
    if init {
        Task::Init
    } else {
        match command {
            Some(c) => Task::Show(c),
            None => Task::Debate,
        }
    }
}

/// A prompt with the contents of a file behind it, fenced as code.
pub open spec fn fenced(prompt: Seq<char>, content: Seq<char>) -> Seq<char> {
    prompt + "\n\n```\n"@ + content + "\n```"@
}

/// A prompt with further input behind it. Blank input adds nothing.
pub open spec fn extended(prompt: Seq<char>, input: Seq<char>) -> Seq<char> {
    if trimmed(input).len() == 0 {
        prompt
    } else {
        prompt + "\n\n"@ + input
    }
}

/// Adds the contents of a file to a prompt.
pub fn with_file(prompt: &str, content: &str) -> (message: String)
    ensures
        message@ == fenced(prompt@, content@),
{
    let mut message = prompt.to_owned();
    message.append("\n\n```\n");
    message.append(content);
    message.append("\n```");
    message
}

/// Adds further input to a prompt.
pub fn with_input(prompt: &str, input: &str) -> (message: String)
    ensures
        message@ == extended(prompt@, input@),
{
    let mut message = prompt.to_owned();
    if !is_blank(input) {
        message.append("\n\n");
        message.append(input);
    }
    message
}

/// A prompt stands at the start of what it is extended to, and the contents of a file or the input
/// stand whole behind it. Input of white space alone adds nothing.
pub proof fn law_nothing_of_a_prompt_is_lost(prompt: Seq<char>, more: Seq<char>)
    ensures
        prompt.is_prefix_of(fenced(prompt, more)),
        fenced(prompt, more).skip(prompt.len() as int) == "\n\n```\n"@ + more + "\n```"@,
        prompt.is_prefix_of(extended(prompt, more)),
        all_white(more) ==> extended(prompt, more) == prompt,
        !all_white(more) ==> extended(prompt, more).skip(prompt.len() as int) == "\n\n"@ + more,
{
    let (from, to) = law_trimming_takes_white_ends_only(more);
    if trimmed(more).len() == 0 {
        assert forall|k: int| 0 <= k < more.len() implies white(#[trigger] more[k]) by {
            if k < from {
                assert(white(more.take(from)[k]));
            } else {
                assert(white(more.skip(to)[k - to]));
            }
        }
    } else {
        assert(!white(more[from]));
        assert(extended(prompt, more).subrange(0, prompt.len() as int) == prompt);
        assert(extended(prompt, more).skip(prompt.len() as int) == "\n\n"@ + more);
    }
    assert(fenced(prompt, more).subrange(0, prompt.len() as int) == prompt);
    assert(fenced(prompt, more).skip(prompt.len() as int) == "\n\n```\n"@ + more + "\n```"@);
}

} // verus!
