use vstd::prelude::*;
use crate::architecture::Architecture;
use crate::registry_key::RegistryKey;
use crate::registry_parser::{RegistryParser, LoadResult, ParseError, ParseStateView, ParseErrorView, spec_load};
use crate::registry_writer::{RegistryWriter, write_spec};
use crate::registry_comparator::{RegistryComparator, DiffResult, ChangeView, compare_spec};
use crate::registry_patcher::{RegistryPatcher, PatchOptions, PatchResult, apply_list_spec, order_spec};
use crate::registry_text_diff::{TextDiffExporter, TextDiffParser, export_spec, spec_parse_diff, opt_str_view};

verus! {

/// Options for rendering a registry: the relative-base annotation and the
/// architecture line.
pub struct EditorOptions {
    pub relative_base: String,
    pub architecture: Architecture,
}

impl Default for EditorOptions {
    fn default() -> (r: Self)
        ensures
            r.relative_base@ == Seq::<char>::empty(),
            r.architecture == Architecture::Unknown,
    {
        EditorOptions { relative_base: String::new(), architecture: Architecture::Unknown }
    }
}

/// A façade over the parser, writer, and comparator.
pub struct RegistryEditor;

impl RegistryEditor {
    /// Parse a registry from its textual form.
    pub fn load_from_text(text: &str) -> (r: Result<LoadResult, ParseError>)
        ensures
            match r {
                Ok(lr) => (spec_load(text@) matches Ok(st) && lr.root_key@ == st.root
                    && lr.relative_base@ == st.base && lr.architecture == st.arch)
                    && lr.root_key@.wf(),
                Err(e) => spec_load(text@) == Err::<ParseStateView, ParseErrorView>(e@),
            },
    {
        let parser = RegistryParser;
        parser.load_from_text(text)
    }

    /// Render a tree with the given options.
    pub fn write_to_string_with_options(key: &RegistryKey, options: EditorOptions) -> (r: String)
        requires
            key@.wf(),
        ensures
            r@ == write_spec(key@, options.relative_base@, options.architecture),
    {
        let writer = RegistryWriter {
            relative_base: options.relative_base,
            architecture: options.architecture,
        };
        writer.write_to_string(key)
    }

    /// Render a tree with no relative base and no architecture line.
    pub fn write_to_string_default(key: &RegistryKey) -> (r: String)
        requires
            key@.wf(),
        ensures
            r@ == write_spec(key@, Seq::<char>::empty(), Architecture::Unknown),
    {
        let writer = RegistryWriter::new();
        writer.write_to_string(key)
    }

    /// Compare two trees.
    pub fn compare_registries(key1: &RegistryKey, key2: &RegistryKey) -> (r: DiffResult)
        requires
            key1@.wf(),
            key2@.wf(),
        ensures
            r.changes.deep_view() == compare_spec(key1@, key2@),
    {
        let comparator = RegistryComparator;
        comparator.compare_registries(key1, key2)
    }
}

// ---------------------------------------------------------------------------
// Conveniences on the tree itself.
// ---------------------------------------------------------------------------
impl RegistryKey {
    /// Apply a change list with the given options.
    pub fn apply_patch_with(&mut self, diff: &DiffResult, options: PatchOptions) -> (r: PatchResult)
        requires
            old(self)@.wf(),
        ensures
            ({
                let (ft, ap, fl) = apply_list_spec(
                    old(self)@,
                    order_spec(diff.changes.deep_view()),
                    options,
                );
                final (self)@ == ft && r.applied.deep_view() == ap && r.failed.deep_view() == fl
                    && r.ignore_failures == options.ignore_failures
            }),
            final (self)@.wf(),
    {
        let patcher = RegistryPatcher;
        patcher.apply_patch(self, diff, options)
    }

    /// Apply a change list with the default options.
    pub fn apply_patch(&mut self, diff: &DiffResult) -> (r: PatchResult)
        requires
            old(self)@.wf(),
        ensures
            ({
                let (ft, ap, fl) = apply_list_spec(
                    old(self)@,
                    order_spec(diff.changes.deep_view()),
                    PatchOptions {
                        ignore_failures: false,
                        create_missing_keys: true,
                        overwrite_existing_values: true,
                        delete_empty_keys: true,
                        validate_before_apply: false,
                    },
                );
                final (self)@ == ft && r.applied.deep_view() == ap && r.failed.deep_view() == fl
                    && !r.ignore_failures
            }),
            final (self)@.wf(),
    {
        self.apply_patch_with(diff, PatchOptions::default())
    }

    /// Parse a textual diff and apply it.
    pub fn apply_text_patch(&mut self, text: &str, options: PatchOptions) -> (r: Result<
        PatchResult,
        String,
    >)
        requires
            old(self)@.wf(),
        ensures
            final (self)@.wf(),
            match r {
                Ok(pr) => (spec_parse_diff(text@) matches Ok(cs) && {
                    let (ft, ap, fl) = apply_list_spec(old(self)@, order_spec(cs), options);
                    final (self)@ == ft && pr.applied.deep_view() == ap && pr.failed.deep_view()
                        == fl && pr.ignore_failures == options.ignore_failures
                }),
                Err(m) => spec_parse_diff(text@) == Err::<Seq<ChangeView>, Seq<char>>(m@)
                    && final (self)@ == old(self)@,
            },
    {
        let parser = TextDiffParser;
        match parser.parse(text) {
            Ok(diff) => {
                let patcher = RegistryPatcher;
                Ok(patcher.apply_patch(self, &diff, options))
            },
            Err(m) => Err(m),
        }
    }

    /// The change list from this tree to another.
    pub fn compare_with(&self, other: &RegistryKey) -> (r: DiffResult)
        requires
            self@.wf(),
            other@.wf(),
        ensures
            r.changes.deep_view() == compare_spec(self@, other@),
    {
        let comparator = RegistryComparator;
        comparator.compare_registries(self, other)
    }

    /// The textual diff from this tree to another, with optional file
    /// annotations.
    pub fn export_diff_text(
        &self,
        other: &RegistryKey,
        from_file: Option<&str>,
        to_file: Option<&str>,
    ) -> (r: String)
        requires
            self@.wf(),
            other@.wf(),
        ensures
            exists|ts: Seq<char>|
                r@ == export_spec(
                    compare_spec(self@, other@),
                    opt_str_view(from_file),
                    opt_str_view(to_file),
                    ts,
                ) && (forall|i: int| 0 <= i < ts.len() ==> ts[i] != '\n'),
    {
        let comparator = RegistryComparator;
        let exporter = TextDiffExporter;
        let diff = comparator.compare_registries(self, other);
        exporter.export(&diff, from_file, to_file)
    }
}

} // verus!
