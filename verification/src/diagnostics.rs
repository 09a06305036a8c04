//! What validation reports.
use vstd::prelude::*;

use crate::ast::NodeLocation;

verus! {

/// A remark on one place of a source file.
#[derive(Debug, PartialEq)]
pub struct Label {
    pub location: NodeLocation,
    pub text: String,
}

/// What is wrong.
#[derive(Debug, PartialEq)]
pub enum DiagnosticData {
    /// A field is selected under a response name that another selection already has, and the two
    /// cannot be merged.
    ConflictingField {
        field: String,
        original_selection: NodeLocation,
        redefined_selection: NodeLocation,
    },
    /// Anything that another rule found, in its words.
    Other { message: String },
}

/// One thing that validation found wrong.
#[derive(Debug, PartialEq)]
pub struct ApolloDiagnostic {
    pub location: NodeLocation,
    pub data: DiagnosticData,
    pub labels: Vec<Label>,
    pub help: Option<String>,
}

/// What a [`Label`] says.
pub struct LabelView {
    pub location: NodeLocation,
    pub text: Seq<char>,
}

/// What a [`DiagnosticData`] says.
pub enum DataView {
    ConflictingField {
        field: Seq<char>,
        original_selection: NodeLocation,
        redefined_selection: NodeLocation,
    },
    Other { message: Seq<char> },
}

/// What an [`ApolloDiagnostic`] says.
pub struct DiagnosticView {
    pub location: NodeLocation,
    pub data: DataView,
    pub labels: Seq<LabelView>,
    pub help: Option<Seq<char>>,
}

impl View for Label {
    type V = LabelView;

    open spec fn view(&self) -> LabelView {
        LabelView { location: self.location, text: self.text@ }
    }
}

impl View for DiagnosticData {
    type V = DataView;

    open spec fn view(&self) -> DataView {
        match self {
            DiagnosticData::ConflictingField { field, original_selection, redefined_selection } => {
                DataView::ConflictingField {
                    field: field@,
                    original_selection: *original_selection,
                    redefined_selection: *redefined_selection,
                }
            },
            DiagnosticData::Other { message } => DataView::Other { message: message@ },
        }
    }
}

impl View for ApolloDiagnostic {
    type V = DiagnosticView;

    open spec fn view(&self) -> DiagnosticView {
        DiagnosticView {
            location: self.location,
            data: self.data@,
            labels: self.labels@.map_values(|label: Label| label@),
            help: match self.help {
                Some(text) => Some(text@),
                None => None,
            },
        }
    }
}

/// What each of the diagnostics says, in their order.
pub open spec fn diagnostics_view(diagnostics: Seq<ApolloDiagnostic>) -> Seq<DiagnosticView> {
    diagnostics.map_values(|diagnostic: ApolloDiagnostic| diagnostic@)
}

impl Label {
    /// A remark on the given place.
    pub fn new(location: NodeLocation, text: String) -> (result: Label)
        ensures
            result@ == (LabelView { location, text: text@ }),
    {
        Label { location, text }
    }
}

impl ApolloDiagnostic {
    /// A diagnostic without labels or help.
    pub fn new(location: NodeLocation, data: DiagnosticData) -> (result: ApolloDiagnostic)
        ensures
            result@ == (DiagnosticView {
                location,
                data: data@,
                labels: Seq::empty(),
                help: None,
            }),
    {
        let result = ApolloDiagnostic { location, data, labels: Vec::new(), help: None };
        assert(result@.labels =~= Seq::empty());
        result
    }

    /// The diagnostic with one more label.
    pub fn label(self, label: Label) -> (result: ApolloDiagnostic)
        ensures
            result@ == (DiagnosticView { labels: self@.labels.push(label@), ..self@ }),
    {
        let mut result = self;
        result.labels.push(label);
        assert(result@.labels =~= self@.labels.push(label@));
        result
    }

    /// The diagnostic with the given help, in place of any that it had.
    pub fn help(self, text: &str) -> (result: ApolloDiagnostic)
        ensures
            result@ == (DiagnosticView { help: Some(text@), ..self@ }),
    {
        let mut result = self;
        result.help = Some(text.to_owned());
        result
    }
}

} // verus!
