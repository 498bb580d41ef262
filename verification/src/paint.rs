//! Text in colour, for terminals that show it.

use colored::Colorize;
use vstd::prelude::*;

verus! {

/// The control sequence that ends all colours and styles.
pub open spec fn reset() -> Seq<char> {
    seq!['\u{1b}', '[', '0', 'm']
}

/// The control sequence that starts the colours and styles with the given codes.
pub open spec fn sequence(codes: Seq<char>) -> Seq<char> {
    seq!['\u{1b}', '['] + codes + seq!['m']
}

/// A text in which the style starts anew behind each sequence that ends it.
pub open spec fn restyled(text: Seq<char>, style: Seq<char>) -> Seq<char>
    decreases text.len(),
{
    if text.len() == 0 {
        text
    } else if reset().is_prefix_of(text) {
        reset() + style + restyled(text.skip(4), style)
    } else {
        seq![text.first()] + restyled(text.drop_first(), style)
    }
}

/// Whether `out` is a text in the style with the given codes. It is the bare text where colours are
/// switched off, which is for the environment to say.
pub open spec fn painted(codes: Seq<char>, text: Seq<char>, out: Seq<char>) -> bool {
    out == text || out == sequence(codes) + restyled(text, sequence(codes)) + reset()
}

/// `bright_blue` of `colored::Colorize`, rendered: the text in that style, or the bare
/// text where colours are switched off.
#[verifier::external_body]
pub(crate) fn bright_blue(text: &str) -> (out: String)
    ensures
        painted("94"@, text@, out@),
{
    text.bright_blue().to_string()
}

/// `bright_cyan` of `colored::Colorize`, rendered: the text in that style, or the bare
/// text where colours are switched off.
#[verifier::external_body]
pub(crate) fn bright_cyan(text: &str) -> (out: String)
    ensures
        painted("96"@, text@, out@),
{
    text.bright_cyan().to_string()
}

/// `bright_green` of `colored::Colorize`, rendered: the text in that style, or the bare
/// text where colours are switched off.
#[verifier::external_body]
pub(crate) fn bright_green(text: &str) -> (out: String)
    ensures
        painted("92"@, text@, out@),
{
    text.bright_green().to_string()
}

/// `bright_yellow` of `colored::Colorize`, rendered: the text in that style, or the bare
/// text where colours are switched off.
#[verifier::external_body]
pub(crate) fn bright_yellow(text: &str) -> (out: String)
    ensures
        painted("93"@, text@, out@),
{
    text.bright_yellow().to_string()
}

/// `green` of `colored::Colorize`, rendered: the text in that style, or the bare
/// text where colours are switched off.
#[verifier::external_body]
pub(crate) fn green(text: &str) -> (out: String)
    ensures
        painted("32"@, text@, out@),
{
    text.green().to_string()
}

/// `red` of `colored::Colorize`, rendered: the text in that style, or the bare
/// text where colours are switched off.
#[verifier::external_body]
pub(crate) fn red(text: &str) -> (out: String)
    ensures
        painted("31"@, text@, out@),
{
    text.red().to_string()
}

/// `dimmed` of `colored::Colorize`, rendered: the text in that style, or the bare
/// text where colours are switched off.
#[verifier::external_body]
pub(crate) fn dimmed(text: &str) -> (out: String)
    ensures
        painted("2"@, text@, out@),
{
    text.dimmed().to_string()
}

/// `bright_white` and `bold` of `colored::Colorize`, rendered: the text in that style, or the bare
/// text where colours are switched off.
#[verifier::external_body]
pub(crate) fn bold_white(text: &str) -> (out: String)
    ensures
        painted("1;97"@, text@, out@),
{
    text.bright_white().bold().to_string()
}

} // verus!
