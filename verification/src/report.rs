//! What a diagnostic for a tokenizer error shows: its code and message, the
//! notes under it, and the labelled spans with their texts. A label may end with
//! a value worth highlighting, such as the byte to write instead.
use std::sync::Arc;

use snailquote::UnescapeError;
use vstd::prelude::*;
use vstd::string::StrSliceExecFns;

use crate::compiler::text::decimal;
use crate::compiler::text::decimal_string;
use crate::lexer::code_of;
use crate::lexer::message_of;
use crate::lexer::TokenizerError;
use crate::span::Span;
use crate::span::SpanModel;

verus! {

/// A span shown under a diagnostic, with its text: the primary span is the one
/// the error is about; a secondary span points at what caused it.
pub struct ReportLabel {
    pub primary: bool,
    pub span: Span,
    pub text: String,
    pub highlight: Option<String>,
}

/// The abstract value of a [`ReportLabel`].
pub struct LabelModel {
    pub primary: bool,
    pub span: SpanModel,
    pub text: Seq<char>,
    pub highlight: Option<Seq<char>>,
}

impl View for ReportLabel {
    type V = LabelModel;

    open spec fn view(&self) -> LabelModel {
        LabelModel {
            primary: self.primary,
            span: self.span@,
            text: self.text@,
            highlight: opt_text(self.highlight),
        }
    }
}

/// The content of a diagnostic.
pub struct Report {
    pub code: &'static str,
    pub message: &'static str,
    pub notes: Vec<String>,
    pub labels: Vec<ReportLabel>,
}

/// The labels as values.
pub open spec fn labels_view(labels: Seq<ReportLabel>) -> Seq<LabelModel> {
    labels.map_values(|l: ReportLabel| l@)
}

/// The notes as values.
pub open spec fn notes_view(notes: Seq<String>) -> Seq<Seq<char>> {
    notes.map_values(|n: String| n@)
}

/// The note under an internal compiler error.
pub open spec fn ice_note() -> Seq<char> {
    "This is a compiler error and should not have happened. Please report this bug."@
}

/// The notes under the diagnostic of `e`: the internal errors ask to be reported.
pub open spec fn notes_of(e: TokenizerError) -> Seq<Seq<char>> {
    match e {
        TokenizerError::ICEEmptyStringAsInteger(_) | TokenizerError::ICEValidIntegerFailed(_)
        | TokenizerError::ICEEmptyStringAsHex(_) | TokenizerError::ICEValidHexFailed(_)
        | TokenizerError::ICEStringCouldNotBeTrimmed(_) => seq![ice_note()],
        _ => Seq::empty(),
    }
}

/// A primary label with no highlighted value.
pub open spec fn plain(span: Span, text: Seq<char>) -> LabelModel {
    LabelModel { primary: true, span: span@, text, highlight: None }
}

/// A primary label that ends with the byte `n`.
pub open spec fn with_byte(span: Span, text: Seq<char>, n: u8) -> LabelModel {
    LabelModel { primary: true, span: span@, text, highlight: Some(decimal(n)) }
}

/// A string that may be there, as a value.
pub open spec fn opt_text(h: Option<String>) -> Option<Seq<char>> {
    match h {
        Some(t) => Some(t@),
        None => None,
    }
}

/// A label as a value.
pub open spec fn label_model(primary: bool, span: Span, text: Seq<char>, highlight: Option<Seq<char>>) -> LabelModel {
    LabelModel { primary, span: span@, text, highlight }
}

/// The label without its text.
pub open spec fn untexted(l: LabelModel) -> LabelModel {
    LabelModel { text: Seq::empty(), ..l }
}

/// The labels without their texts.
pub open spec fn shapes(ls: Seq<LabelModel>) -> Seq<LabelModel> {
    ls.map_values(|l: LabelModel| untexted(l))
}

/// `e` is an invalid escape, whose label text comes from the escape error.
pub open spec fn escape_error(e: TokenizerError) -> bool {
    e is InvalidEscapeSequence
}

/// The labels of the diagnostic of `e`. The text of the label of an invalid
/// escape is the escape error's own, which is not modelled here.
pub open spec fn labels_of(e: TokenizerError) -> Seq<LabelModel> {
    match e {
        TokenizerError::ICEEmptyStringAsInteger(s) => seq![
            plain(s, "Attempted to parse an empty string as integer"@),
        ],
        TokenizerError::NegativeInteger(s, n) => seq![
            with_byte(s, "Consider using the arithmetic inverse instead: "@, n),
        ],
        TokenizerError::LargeInteger(s, n) => seq![
            with_byte(s, "Consider using the result after overflow: "@, n),
        ],
        TokenizerError::ICEValidIntegerFailed(s) => seq![
            plain(s, "Failed to parse an integer string that should have succeeded"@),
        ],
        TokenizerError::ICEEmptyStringAsHex(s) => seq![
            plain(s, "Attempted to parse an empty string as hex integer"@),
        ],
        TokenizerError::NegativeHex(s, n) => seq![
            with_byte(s, "Consider using the arithmetic inverse instead: "@, n),
        ],
        TokenizerError::LargeHex(s, n) => seq![
            with_byte(s, "Consider using the modulo operator instead: "@, n),
        ],
        TokenizerError::ICEValidHexFailed(s) => seq![
            plain(s, "Failed to parse a hex string that should have succeeded"@),
        ],
        TokenizerError::ICEStringCouldNotBeTrimmed(s) => seq![plain(s, "Failed to trim a String type"@)],
        TokenizerError::InvalidEscapeSequence(s, _) => seq![plain(s, Seq::empty())],
        TokenizerError::NewlineInString(s, newline) => seq![
            LabelModel {
                primary: true,
                span: s@,
                text: "Consider using an escape code instead: "@,
                highlight: Some("\\n"@),
            },
            LabelModel {
                primary: false,
                span: newline@,
                text: "Newline found here"@,
                highlight: None,
            },
        ],
        TokenizerError::NonAsciiString(s, c) => seq![
            plain(s, "Strings with non-ascii characters are not yet supported"@),
            LabelModel {
                primary: false,
                span: c@,
                text: "Non-ascii character found here"@,
                highlight: None,
            },
        ],
        TokenizerError::UnknownToken(s) => seq![plain(s, "Invalid token."@)],
    }
}

/// The text `snailquote` gives an unescape error, through its `Display` impl. Its
/// contract claims nothing of the text: the error's fields are not visible here.
#[verifier::external_body]
fn escape_error_text(e: &Arc<UnescapeError>) -> (r: String) {
    e.to_string()
}

fn label(primary: bool, span: Span, text: &str, highlight: Option<String>) -> (r: ReportLabel)
    ensures
        r@ == label_model(primary, span, text@, opt_text(highlight)),
{
    ReportLabel { primary, span, text: String::from_str(text), highlight }
}

/// The diagnostic of a tokenizer error: its code and message, the note that asks
/// for an internal error to be reported, and the labelled spans. An invalid escape
/// is labelled with the escape error's own text.
pub fn tokenizer_report(err: &TokenizerError) -> (r: Report)
    ensures
        r.code@ == code_of(*err),
        r.message@ == message_of(*err),
        notes_view(r.notes@) == notes_of(*err),
        shapes(labels_view(r.labels@)) == shapes(labels_of(*err)),
        escape_error(*err) || labels_view(r.labels@) == labels_of(*err),
{
    let code = err.code();
    let message = err.message();
    let ice = matches!(
        err,
        TokenizerError::ICEEmptyStringAsInteger(_) | TokenizerError::ICEValidIntegerFailed(_)
            | TokenizerError::ICEEmptyStringAsHex(_) | TokenizerError::ICEValidHexFailed(_)
            | TokenizerError::ICEStringCouldNotBeTrimmed(_)
    );
    let mut notes: Vec<String> = Vec::new();
    if ice {
        notes.push(
            String::from_str(
                "This is a compiler error and should not have happened. Please report this bug.",
            ),
        );
    }
    let mut labels: Vec<ReportLabel> = Vec::new();
    match err {
        TokenizerError::ICEEmptyStringAsInteger(s) => {
            labels.push(label(true, *s, "Attempted to parse an empty string as integer", None));
        },
        TokenizerError::NegativeInteger(s, n) => {
            let h = decimal_string(*n);
            labels.push(label(true, *s, "Consider using the arithmetic inverse instead: ", Some(h)));
        },
        TokenizerError::LargeInteger(s, n) => {
            let h = decimal_string(*n);
            labels.push(label(true, *s, "Consider using the result after overflow: ", Some(h)));
        },
        TokenizerError::ICEValidIntegerFailed(s) => {
            labels.push(
                label(true, *s, "Failed to parse an integer string that should have succeeded", None),
            );
        },
        TokenizerError::ICEEmptyStringAsHex(s) => {
            labels.push(label(true, *s, "Attempted to parse an empty string as hex integer", None));
        },
        TokenizerError::NegativeHex(s, n) => {
            let h = decimal_string(*n);
            labels.push(label(true, *s, "Consider using the arithmetic inverse instead: ", Some(h)));
        },
        TokenizerError::LargeHex(s, n) => {
            let h = decimal_string(*n);
            labels.push(label(true, *s, "Consider using the modulo operator instead: ", Some(h)));
        },
        TokenizerError::ICEValidHexFailed(s) => {
            labels.push(
                label(true, *s, "Failed to parse a hex string that should have succeeded", None),
            );
        },
        TokenizerError::ICEStringCouldNotBeTrimmed(s) => {
            labels.push(label(true, *s, "Failed to trim a String type", None));
        },
        TokenizerError::InvalidEscapeSequence(s, e) => {
            let text = escape_error_text(e);
            labels.push(ReportLabel { primary: true, span: *s, text, highlight: None });
        },
        TokenizerError::NewlineInString(s, newline) => {
            let h = String::from_str("\\n");
            labels.push(label(true, *s, "Consider using an escape code instead: ", Some(h)));
            labels.push(label(false, *newline, "Newline found here", None));
        },
        TokenizerError::NonAsciiString(s, c) => {
            labels.push(
                label(true, *s, "Strings with non-ascii characters are not yet supported", None),
            );
            labels.push(label(false, *c, "Non-ascii character found here", None));
        },
        TokenizerError::UnknownToken(s) => {
            labels.push(label(true, *s, "Invalid token.", None));
        },
    }
    proof {
        assert(notes_view(notes@) =~= notes_of(*err));
        assert(labels_view(labels@).len() == labels@.len());
        if !escape_error(*err) {
            assert(labels_view(labels@) =~= labels_of(*err));
        }
        assert(shapes(labels_view(labels@)) =~= shapes(labels_of(*err)));
    }
    Report { code, message, notes, labels }
}

} // verus!
