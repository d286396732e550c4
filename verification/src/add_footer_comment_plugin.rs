//! A plugin that appends a comment to the emitted chunk files.
use rspack_sources::{ConcatSource, RawSource, Source};
use vstd::prelude::*;
use vstd::string::*;

verus! {

/// `rspack_sources::ConcatSource`: a source made of sources in a row.
#[verifier::external_type_specification]
#[verifier::external_body]
pub struct ExConcatSource(ConcatSource);

/// The text of a `ConcatSource`: what `Source::source` returns for it, the
/// texts of its parts joined in their order.
pub uninterp spec fn concat_text(source: ConcatSource) -> Seq<char>;

/// `ConcatSource::default`: a source without parts, whose text is empty.
#[verifier::external_body]
fn empty_concat_source() -> (source: ConcatSource)
    ensures
        concat_text(source) == Seq::<char>::empty(),
{
    ConcatSource::default()
}

/// `ConcatSource::add` with a `RawSource` made from `text`: the raw source
/// becomes the last part, so the text of the whole grows by `text` at its
/// end.
#[verifier::external_body]
fn add_raw_source(source: &mut ConcatSource, text: &str)
    ensures
        concat_text(*final(source)) == concat_text(*old(source)) + text@,
{
    source.add(RawSource::from(text));
}

/// `Source::source` of a `ConcatSource`, as an owned string.
#[verifier::external_body]
fn concat_source_text(source: &ConcatSource) -> (text: String)
    ensures
        text@ == concat_text(*source),
{
    source.source().into_owned()
}

/// The comment as it is written into a file: a line break, then the
/// comment as a block comment.
pub open spec fn comment_block(comment: Seq<char>) -> Seq<char> {
    "\n/* "@ + comment + " */"@
}

/// The text of a file after the comment has been added: the text, a line
/// break, and the comment block.
pub open spec fn with_footer(text: Seq<char>, comment: Seq<char>) -> Seq<char> {
    text + "\n"@ + comment_block(comment)
}

/// A plugin that adds a comment at the end of every chunk file.
#[derive(Debug)]
pub struct AddFooterCommentPlugin {
    comment: String,
}

impl View for AddFooterCommentPlugin {
    type V = Seq<char>;

    /// The comment.
    closed spec fn view(&self) -> Seq<char> {
        self.comment@
    }
}

impl AddFooterCommentPlugin {
    /// A plugin that adds `comment`.
    pub fn new(comment: String) -> (plugin: Self)
        ensures
            plugin@ == comment@,
    {
        AddFooterCommentPlugin { comment }
    }

    /// The name of the plugin.
    pub fn name(&self) -> (name: &'static str)
        ensures
            name@ == "AddFooterCommentPlugin"@,
    {
        "AddFooterCommentPlugin"
    }

    /// The comment.
    pub fn comment(&self) -> (comment: &String)
        ensures
            comment@ == self@,
    {
        &self.comment
    }

    /// The comment as it is written into a file.
    pub fn footer(&self) -> (text: String)
        ensures
            text@ == comment_block(self@),
    {
        let mut text = String::from_str("\n/* ");
        text.append(self.comment.as_str());
        text.append(" */");
        text
    }

    /// Adds the comment at the end of `source`: first a line break, then
    /// the comment block, each as a raw source of its own.
    pub fn add_footer(&self, source: &mut ConcatSource)
        ensures
            concat_text(*final(source)) == with_footer(concat_text(*old(source)), self@),
    {
        add_raw_source(source, "\n");
        let footer = self.footer();
        add_raw_source(source, footer.as_str());
    }

    /// The text of a file after the plugin has added its comment.
    pub fn append_footer(&self, text: &str) -> (result: String)
        ensures
            result@ == with_footer(text@, self@),
    {
        let mut source = empty_concat_source();
        add_raw_source(&mut source, text);
        self.add_footer(&mut source);
        assert(Seq::<char>::empty() + text@ =~= text@);
        concat_source_text(&source)
    }
}

} // verus!
