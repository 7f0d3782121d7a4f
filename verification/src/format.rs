//! Deterministic source formatting with Typstyle.

use vstd::prelude::*;

use crate::error::Error;

verus! {

/// Narrowest line width the formatter is asked for.
pub const MIN_FORMAT_WIDTH: usize = 40;

/// Widest line width the formatter is asked for.
pub const MAX_FORMAT_WIDTH: usize = 240;

/// Why Typstyle did not render a source.
#[derive(Debug)]
pub struct FormatFailure {
    /// The source has syntax errors (rather than failing to render).
    pub syntax: bool,
    /// Typstyle's message for the failure.
    pub message: String,
}

/// What Typstyle renders for a source at a line width: `None` where it
/// refuses the source (syntax errors) or fails to render it.
pub uninterp spec fn typstyle_output(source: Seq<char>, width: usize) -> Option<Seq<char>>;

/// Whether Typst's parser marks the syntax tree of a source as erroneous.
pub uninterp spec fn typst_syntax_erroneous(source: Seq<char>) -> bool;

/// Typstyle's message for a source it does not render.
pub open spec fn typstyle_failure_message(source: Seq<char>) -> Seq<char> {
    if typst_syntax_erroneous(source) {
        "The document has syntax errors"@
    } else {
        "An error occurred while rendering the document"@
    }
}

/// `Typstyle::new(Config::new().with_width(width)).format_text(source).render()`.
/// Succeeds exactly when the named output is there, and then returns it.
/// A source whose parsed tree is erroneous is refused before rendering,
/// with `Error::SyntaxError`; any other failure is `Error::RenderError`.
/// The failure is read back as its variant and its `Display` text.
#[verifier::external_body]
fn typstyle_render(source: &str, width: usize) -> (rendered: Result<String, FormatFailure>)
    ensures
        rendered is Ok <==> typstyle_output(source@, width) is Some,
        rendered matches Ok(text) ==> typstyle_output(source@, width) == Some(text@),
        typst_syntax_erroneous(source@) ==> rendered is Err,
        rendered matches Err(failure) ==> (failure.syntax <==> typst_syntax_erroneous(source@)),
        rendered matches Err(failure) ==> (failure.syntax ==> failure.message@
            == "The document has syntax errors"@),
        rendered matches Err(failure) ==> (!failure.syntax ==> failure.message@
            == "An error occurred while rendering the document"@),
{
    let style = typstyle_core::Typstyle::new(typstyle_core::Config::new().with_width(width));
    match style.format_text(source.to_owned()).render() {
        Ok(text) => Ok(text),
        Err(error @ typstyle_core::Error::SyntaxError) => {
            Err(FormatFailure { syntax: true, message: error.to_string() })
        },
        Err(error @ typstyle_core::Error::RenderError) => {
            Err(FormatFailure { syntax: false, message: error.to_string() })
        },
    }
}

/// The line width actually handed to Typstyle: `width` clamped to the
/// supported range.
pub open spec fn clamped_width(width: usize) -> usize {
    if width < MIN_FORMAT_WIDTH {
        MIN_FORMAT_WIDTH
    } else if width > MAX_FORMAT_WIDTH {
        MAX_FORMAT_WIDTH
    } else {
        width
    }
}

/// The text with exactly one final newline added when it does not already
/// end in one.
pub open spec fn with_final_newline(text: Seq<char>) -> Seq<char> {
    if text.len() > 0 && text.last() == '\n' {
        text
    } else {
        text.push('\n')
    }
}

/// Widths from 40 to 240 reach Typstyle unchanged; narrower widths become
/// 40 and wider ones 240, so a width and its clamped value format alike.
pub proof fn lemma_clamp_is_idempotent(width: usize)
    ensures
        40 <= width <= 240 ==> clamped_width(width) == width,
        width < 40 ==> clamped_width(width) == 40,
        width > 240 ==> clamped_width(width) == 240,
        clamped_width(clamped_width(width)) == clamped_width(width),
        MIN_FORMAT_WIDTH <= clamped_width(width) <= MAX_FORMAT_WIDTH,
{
}

/// Completed output always ends in a newline, adds at most that one
/// newline, and completing it a second time changes nothing.
pub proof fn lemma_final_newline_is_stable(text: Seq<char>)
    ensures
        with_final_newline(text).len() > 0,
        with_final_newline(text).last() == '\n',
        with_final_newline(text).len() <= text.len() + 1,
        with_final_newline(text).take(text.len() as int) == text,
        with_final_newline(with_final_newline(text)) == with_final_newline(text),
        text.len() > 0 && text[text.len() - 1] == '\n' ==> with_final_newline(text) == text,
        !(text.len() > 0 && text[text.len() - 1] == '\n') ==> with_final_newline(text) == text + seq!['\n'],
{
    assert(with_final_newline(text).take(text.len() as int) =~= text);
}

fn ends_with_newline(text: &str) -> (ends: bool)
    ensures
        ends == (text@.len() > 0 && text@.last() == '\n'),
{
    let mut last: Option<char> = None;
    for c in iter: text.chars()
        invariant
            iter.seq() == text@,
            iter.index() == 0 ==> last is None,
            iter.index() > 0 ==> last == Some(text@[iter.index() - 1]),
    {
        last = Some(c);
    }
    match last {
        Some(c) => c == '\n',
        None => false,
    }
}

/// Complete what Typstyle rendered into the formatter's output: the text,
/// ending in exactly one added newline unless it already ends in one.
pub fn finish_formatted(rendered: String) -> (formatted: String)
    ensures
        formatted@ == with_final_newline(rendered@),
{
    if ends_with_newline(rendered.as_str()) {
        rendered
    } else {
        let mut formatted = rendered;
        formatted.append("\n");
        proof {
            reveal_strlit("\n");
        }
        formatted
    }
}

/// Format Typst source deterministically: Typstyle at the clamped width,
/// with a final newline; a source Typstyle cannot format is an
/// `Error::Format` carrying Typstyle's message.
pub fn format_source(source: &str, width: usize) -> (formatted: Result<String, Error>)
    ensures
        formatted is Ok <==> typstyle_output(source@, clamped_width(width)) is Some,
        formatted matches Ok(text) ==> text@ == with_final_newline(
            typstyle_output(source@, clamped_width(width))->0,
        ),
        formatted matches Err(error) ==> (error matches Error::Format(message) && message@
            == typstyle_failure_message(source@)),
{
    let clamped = if width < MIN_FORMAT_WIDTH {
        MIN_FORMAT_WIDTH
    } else if width > MAX_FORMAT_WIDTH {
        MAX_FORMAT_WIDTH
    } else {
        width
    };
    match typstyle_render(source, clamped) {
        Ok(rendered) => Ok(finish_formatted(rendered)),
        Err(failure) => Err(Error::Format(failure.message)),
    }
}

} // verus!
