use bbclash::bbcode_to_html;
use bbclash::bbcode_to_html_ugly;
use bbclash::ASTElement;
use bbclash::BBCodeLexer;
use bbclash::BBCodeTokenizer;
use bbclash::GroupType;
use bbclash::HTMLConstructor;
use bbclash::Instruction;

#[test]
fn plain_text_is_escaped_once() {
    assert_eq!(bbcode_to_html("a<b>&\"'z"), "<p>a&ltb&gt&amp&quot&#x27z</p>");
}

#[test]
fn escaped_entities_are_escaped_again_at_source() {
    assert_eq!(bbcode_to_html("&amp"), "<p>&ampamp</p>");
}

#[test]
fn plain_text_ugly_matches_pretty() {
    assert_eq!(bbcode_to_html_ugly("no markup here"), "<p>no markup here</p>");
}

#[test]
fn backslash_escapes_bracket() {
    assert_eq!(bbcode_to_html("\\[b]x"), "<p>[b]x</p>");
}

#[test]
fn backslash_escapes_backslash() {
    assert_eq!(bbcode_to_html("a\\\\b"), "<p>a&#x2Fb</p>");
}

#[test]
fn empty_brackets_are_text() {
    assert_eq!(bbcode_to_html("[]"), "<p>[]</p>");
}

#[test]
fn unknown_tag_with_argument_is_text() {
    assert_eq!(bbcode_to_html("[foo=bar]x[/foo]"), "<p>[foo=bar]x[/foo]</p>");
}

#[test]
fn tag_with_wrong_arity_is_text() {
    assert_eq!(bbcode_to_html("[b=1]x"), "<p>[b=1]x</p>");
}

#[test]
fn nested_inline_tags_are_balanced() {
    let out = bbcode_to_html("[b][i][u]x[/u][/i][/b] [s]y[/s]");
    assert_eq!(out.matches("<b>").count(), out.matches("</b>").count());
    assert_eq!(out.matches("<i>").count(), out.matches("</i>").count());
    assert_eq!(out.matches("<s>").count(), out.matches("</s>").count());
    assert_eq!(out.matches("<span").count(), out.matches("</span>").count());
    assert_eq!(out, "<p><b><i><span class=\"underline\">x</span></i></b> <s>y</s></p>");
}

#[test]
fn url_other_scheme_is_broken() {
    assert_eq!(bbcode_to_html("[url=ftp://a.b]x[/url]"), "<p>x</p>");
    assert_eq!(bbcode_to_html_ugly("[url=ftp://a.b]x[/url]"), "<p>[url=ftp://a.b]x[/url]</p>");
}

#[test]
fn url_www_gets_http() {
    assert_eq!(bbcode_to_html("[url]www.a.b[/url]"),
        "<p><a href=\"http://www.a.b\" rel=\"nofollow\">www.a.b</a></p>");
}

#[test]
fn image_needs_accepted_extension() {
    assert_eq!(bbcode_to_html("[img]https://a.b/c.webp[/img]"), "<p><img src=\"https://a.b/c.webp\"></p>");
    assert_eq!(bbcode_to_html("[img]https://a.b/c.PNG[/img]"), "");
    assert_eq!(bbcode_to_html("[img]ftp://a.b/c.png[/img]"), "");
}

#[test]
fn opacity_exact_values() {
    assert_eq!(bbcode_to_html("[opacity=45%]x[/opacity]"), "<p><span style=\"opacity:0.45;\">x</span></p>");
    assert_eq!(bbcode_to_html("[opacity=2]x[/opacity]"), "<p><span style=\"opacity:1;\">x</span></p>");
    assert_eq!(bbcode_to_html("[opacity=-1]x[/opacity]"), "<p><span style=\"opacity:0;\">x</span></p>");
    assert_eq!(bbcode_to_html("[opacity=0.125]x[/opacity]"), "<p><span style=\"opacity:0.125;\">x</span></p>");
}

#[test]
fn opacity_rejects_two_points() {
    assert_eq!(bbcode_to_html_ugly("[opacity=0.1.2]x[/opacity]"), "<p>[opacity=0.1.2]x[/opacity]</p>");
}

#[test]
fn size_exact_values() {
    assert_eq!(bbcode_to_html("[size=12]x[/size]"), "<p><span style=\"font-size:0.75rem;\">x</span></p>");
    assert_eq!(bbcode_to_html("[size=1.5em]x[/size]"), "<p><span style=\"font-size:1.5rem;\">x</span></p>");
    assert_eq!(bbcode_to_html("[size=20]x[/size]"), "<p><span style=\"font-size:1.25rem;\">x</span></p>");
    assert_eq!(bbcode_to_html("[size=99999999999]x[/size]"), "<p><span style=\"font-size:2rem;\">x</span></p>");
}

#[test]
fn colour_short_hex_and_any_case_name() {
    assert_eq!(bbcode_to_html("[color=#abc]x[/color]"), "<p><span style=\"color:#abc;\">x</span></p>");
    assert_eq!(bbcode_to_html("[color=DarkRed]x[/color]"), "<p><span style=\"color:DarkRed;\">x</span></p>");
    assert_eq!(bbcode_to_html("[color=#ggg]x[/color]"), "<p>x</p>");
}

#[test]
fn list_ordered_and_styles() {
    assert_eq!(bbcode_to_html("[list=a][*]x[/list]"), "<ol type=\"a\"><li><p>x</p></li></ol>");
    assert_eq!(bbcode_to_html("[list=square][*]x[/list]"),
        "<ul style=\"list-style-type:square;\"><li><p>x</p></li></ul>");
}

#[test]
fn figure_without_argument_is_broken() {
    assert_eq!(bbcode_to_html_ugly("[figure]x[/figure]"), "<p>[figure]x[/figure]</p>");
}

#[test]
fn stray_block_close_is_dropped() {
    assert_eq!(bbcode_to_html("a[/quote]b"), "<p>ab</p>");
}

#[test]
fn tab_after_newline_breaks_paragraph() {
    assert_eq!(bbcode_to_html("a\n\tb"), "<p>a</p><p>b</p>");
}

#[test]
fn scenebreak_in_pre_is_kept() {
    assert_eq!(bbcode_to_html("[pre]a\n\n\nb[/pre]"), "<pre>a\n\n\nb</pre>");
}

#[test]
fn hr_between_paragraphs() {
    assert_eq!(bbcode_to_html("[hr]"), "<hr>");
}

#[test]
fn email_with_argument() {
    assert_eq!(bbcode_to_html("[email=a@b.c]mail me[/email]"),
        "<p><a href=\"mailto:a@b.c\">mail me</a></p>");
}

#[test]
fn tokenizer_reads_tag_with_argument() {
    let mut t = BBCodeTokenizer::new();
    let out = t.tokenize("x[b=\"y\"]");
    assert_eq!(out, vec![
        Instruction::Text("x".to_string()),
        Instruction::Tag("b".to_string(), Some("&quoty&quot".to_string())),
    ]);
}

#[test]
fn tokenizer_reads_breaks() {
    let mut t = BBCodeTokenizer::new();
    let out = t.tokenize("a\n \nb\n\n\nc\nd");
    assert_eq!(out, vec![
        Instruction::Text("a".to_string()),
        Instruction::Parabreak("\n\n".to_string()),
        Instruction::Text("b".to_string()),
        Instruction::Scenebreak,
        Instruction::Text("c".to_string()),
        Instruction::Linebreak,
        Instruction::Text("d".to_string()),
    ]);
}

#[test]
fn tokenizer_finishes_open_tag() {
    let mut t = BBCodeTokenizer::new();
    assert_eq!(t.tokenize("[url=x"), vec![Instruction::Tag("url".to_string(), Some("x".to_string()))]);
}

#[test]
fn lexer_and_constructor_by_hand() {
    let instructions = vec![
        Instruction::Tag("b".to_string(), None),
        Instruction::Text("x".to_string()),
        Instruction::Tag("/b".to_string(), None),
    ];
    let mut lexer = BBCodeLexer::new(false);
    let tree = lexer.lex(&instructions);
    let mut constructor = HTMLConstructor::new(3, true);
    assert_eq!(constructor.construct(tree), "<p><b>x</b></p>");
}

#[test]
fn lexer_empty_instructions() {
    let mut lexer = BBCodeLexer::new(true);
    let tree = lexer.lex(&Vec::new());
    let mut constructor = HTMLConstructor::new(0, false);
    assert_eq!(constructor.construct(tree), "");
}

#[test]
fn element_accessors() {
    let mut e = ASTElement::new(GroupType::Colour);
    assert!(!e.has_arg() && !e.has_text() && !e.is_void() && e.is_detachable() && !e.is_broken());
    e.set_arg(&"red".to_string());
    e.add_arg(&"dish".to_string());
    assert_eq!(e.argument(), &Some("reddish".to_string()));
    e.add_text(&"a".to_string());
    e.add_text(&"b".to_string());
    assert_eq!(e.text_contents(), &Some("ab".to_string()));
    e.mark_broken("color=reddish".to_string());
    assert!(e.is_broken());
    e.set_ele_type(GroupType::Size);
    assert_eq!(e.ele_type(), &GroupType::Size);
    assert!(!e.is_broken());
    e.set_void(true);
    e.set_detachable(false);
    assert!(e.is_void() && !e.is_detachable());
}


#[test]
fn unknown_tags_and_text_make_one_paragraph() {
    assert_eq!(bbcode_to_html("x [nope] y & z [a=b=c]"), "<p>x [nope] y &amp z [a=b=c]</p>");
    assert_eq!(bbcode_to_html_ugly("x [nope] y & z [a=b=c]"), "<p>x [nope] y &amp z [a=b=c]</p>");
}

#[test]
fn tokenizer_can_be_reused() {
    let mut t = BBCodeTokenizer::new();
    assert_eq!(t.tokenize("[b"), vec![Instruction::Tag("b".to_string(), None)]);
    assert_eq!(t.tokenize("x"), vec![Instruction::Text("x".to_string())]);
}

#[test]
fn pre_keeps_blank_line() {
    assert_eq!(bbcode_to_html("[pre]A\n\nB[/pre]"), "<pre>A\n\nB</pre>");
}

#[test]
fn code_keeps_tags_raw() {
    assert_eq!(bbcode_to_html("[code]a[b]b[/b]c[/code]"), "<p><code>a[b]b[/b]c</code></p>");
}

#[test]
fn script_url_is_dropped() {
    assert_eq!(bbcode_to_html("[url=javascript:get_ganked.js]x[/url]"), "<p>x</p>");
}
