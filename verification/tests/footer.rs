use rspack_sources::{ConcatSource, OriginalSource, RawSource, Source, SourceExt};
use share_module_split::add_footer_comment_plugin::AddFooterCommentPlugin;

#[test]
fn footer_is_a_block_comment_after_a_line_break() {
    let plugin = AddFooterCommentPlugin::new("built by us".to_string());
    assert_eq!(plugin.footer(), "\n/* built by us */");
    assert_eq!(plugin.comment(), "built by us");
    assert_eq!(plugin.name(), "AddFooterCommentPlugin");
}

#[test]
fn footer_follows_the_text_after_a_line_break() {
    let plugin = AddFooterCommentPlugin::new("end".to_string());
    assert_eq!(plugin.append_footer("let a = 1;"), "let a = 1;\n\n/* end */");
    assert_eq!(plugin.append_footer(""), "\n\n/* end */");
}

#[test]
fn empty_comment_gives_an_empty_block() {
    let plugin = AddFooterCommentPlugin::new(String::new());
    assert_eq!(plugin.footer(), "\n/*  */");
    assert_eq!(plugin.append_footer("x"), "x\n\n/*  */");
}

#[test]
fn footer_is_added_to_a_source_with_parts() {
    let plugin = AddFooterCommentPlugin::new("v1".to_string());
    let mut source = ConcatSource::new([
        RawSource::from("head\n").boxed(),
        OriginalSource::new("body();", "body.js").boxed(),
    ]);
    plugin.add_footer(&mut source);
    assert_eq!(source.source(), "head\nbody();\n\n/* v1 */");
    plugin.add_footer(&mut source);
    assert_eq!(source.source(), "head\nbody();\n\n/* v1 */\n\n/* v1 */");
}
