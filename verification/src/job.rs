//! The description of a batch lemma-labeling job.
//!
//! The surrounding program reads tokenized sentences from `input`, attaches
//! to each token the serialized edit tree of its `(form, lemma)` pair under
//! the feature name `label_feature`, and writes the result to `output`. The
//! reading and writing live outside this crate; the description itself is
//! plain data.

use vstd::prelude::*;

verus! {

/// A lemma-to-edit-tree conversion job: where to read, the feature name the
/// label is stored under, and where to write. An absent path means the
/// standard stream.
pub struct Lemma {
    input: Option<String>,
    label_feature: String,
    output: Option<String>,
}

impl Lemma {
    /// Describes a job over the given paths and feature name.
    pub fn new(input: Option<String>, label_feature: String, output: Option<String>) -> (job:
        Lemma)
        ensures
            job.spec_input() == input,
            job.spec_label_feature() == label_feature,
            job.spec_output() == output,
    {
        Lemma { input, label_feature, output }
    }

    /// The input path, absent for the standard input stream.
    pub closed spec fn spec_input(&self) -> Option<String> {
        self.input
    }

    /// The feature name the label is stored under.
    pub closed spec fn spec_label_feature(&self) -> String {
        self.label_feature
    }

    /// The output path, absent for the standard output stream.
    pub closed spec fn spec_output(&self) -> Option<String> {
        self.output
    }

    /// The input path, absent for the standard input stream.
    pub fn input(&self) -> (r: &Option<String>)
        ensures
            *r == self.spec_input(),
    {
        &self.input
    }

    /// The feature name the label is stored under.
    pub fn label_feature(&self) -> (r: &String)
        ensures
            *r == self.spec_label_feature(),
    {
        &self.label_feature
    }

    /// The output path, absent for the standard output stream.
    pub fn output(&self) -> (r: &Option<String>)
        ensures
            *r == self.spec_output(),
    {
        &self.output
    }
}

} // verus!
