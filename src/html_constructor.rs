//! The constructor: walks the element tree in order and writes the HTML for
//! the start and the end of every element.
use vstd::prelude::*;
use vstd::string::*;
use crate::{ASTElement, ElemV, GroupType};
use crate::args::is_ordered_style;
use crate::tree::{edges, DomTree};

verus! {

/// Relies on `String::with_capacity`: a new string is empty, whatever its capacity.
pub assume_specification[ String::with_capacity ](capacity: usize) -> (r: String)
    ensures
        r@ == Seq::<char>::empty(),
;

/// `pre`, the argument and `post`; nothing when the element has no argument.
pub open spec fn with_arg(e: ElemV, pre: Seq<char>, post: Seq<char>) -> Seq<char> {
    match e.arg {
        Some(a) => pre + a + post,
        None => seq![],
    }
}

/// `s` when the element has an argument, else nothing.
pub open spec fn if_arg(e: ElemV, s: Seq<char>) -> Seq<char> {
    match e.arg {
        Some(_) => s,
        None => seq![],
    }
}

/// The tag name in a broken tag's source form: everything before the first `=`.
pub open spec fn name_part(s: Seq<char>) -> Seq<char>
    decreases s.len(),
{
    if s.len() == 0 || s[0] == '=' {
        seq![]
    } else {
        seq![s[0]] + name_part(s.drop_first())
    }
}

/// The HTML written at the start of an element.
pub open spec fn open_text(e: ElemV, pretty: bool) -> Seq<char> {
    if e.broken {
        if pretty {
            seq![]
        } else {
            match e.arg {
                Some(a) => seq!['['] + a + seq![']'],
                None => seq![],
            }
        }
    } else {
        match e.kind {
            GroupType::Text => match e.text {
                Some(t) => t,
                None => seq![],
            },
            GroupType::Paragraph => "<p>"@,
            GroupType::Bold => "<b>"@,
            GroupType::Strong => "<strong>"@,
            GroupType::Italic => "<i>"@,
            GroupType::Emphasis => "<em>"@,
            GroupType::Underline => "<span class=\"underline\">"@,
            GroupType::Strikethrough => "<s>"@,
            GroupType::Smallcaps => "<span class=\"smallcaps\">"@,
            GroupType::Monospace => "<span class=\"monospace\">"@,
            GroupType::Subscript => "<sub>"@,
            GroupType::Superscript => "<sup>"@,
            GroupType::Spoiler => "<span class=\"spoiler\">"@,
            GroupType::Hr => "<hr>"@,
            GroupType::Br => "<br>"@,
            GroupType::Scenebreak => "<br><br><br>"@,
            GroupType::Center => "<div class=\"center\">"@,
            GroupType::Right => "<div class=\"right\">"@,
            GroupType::Colour => with_arg(e, "<span style=\"color:"@, ";\">"@),
            GroupType::Url => with_arg(e, "<a href=\""@, "\" rel=\"nofollow\">"@),
            GroupType::Email => with_arg(e, "<a href=\"mailto:"@, "\">"@),
            GroupType::Opacity => with_arg(e, "<span style=\"opacity:"@, ";\">"@),
            GroupType::Size => with_arg(e, "<span style=\"font-size:"@, "rem;\">"@),
            GroupType::Image => with_arg(e, "<img src=\""@, "\">"@),
            GroupType::Quote => match e.arg {
                Some(a) => "<blockquote data-author=\""@ + a + "\">"@,
                None => "<blockquote>"@,
            },
            GroupType::Footnote => match e.arg {
                Some(a) => "<span class=\"footnote\" data-symbol=\""@ + a + "\">"@,
                None => "<span class=\"footnote\">"@,
            },
            GroupType::Indent => with_arg(e, "<div class=\"indent-"@, "\">"@),
            GroupType::Pre => "<pre>"@,
            GroupType::Header => with_arg(e, "<h"@, ">"@),
            GroupType::Figure => with_arg(e, "<figure class=\"figure-"@, "\">"@),
            GroupType::List => match e.arg {
                Some(a) => if is_ordered_style(a) {
                    "<ol type=\""@ + a + "\">"@
                } else {
                    "<ul style=\"list-style-type:"@ + a + ";\">"@
                },
                None => "<ul>"@,
            },
            GroupType::ListItem => "<li>"@,
            GroupType::Embed => with_arg(e, "<div class=\"embed\" data-content=\""@, "\"></div>"@),
            GroupType::Code => "<code>"@,
            GroupType::CodeBlock => match e.arg {
                Some(a) => "<pre data-language=\""@ + a + "\">"@,
                None => "<pre>"@,
            },
            GroupType::Math => "<span class=\"math_container\">"@,
            GroupType::MathBlock => "<div class=\"math_container\">"@,
            GroupType::Table => "<table>"@,
            GroupType::TableRow => "<tr>"@,
            GroupType::TableData => "<td>"@,
            GroupType::TableHeader => "<th>"@,
            GroupType::TableCaption => "<caption>"@,
            _ => seq![],
        }
    }
}

/// The HTML written at the end of an element.
pub open spec fn close_text(e: ElemV, pretty: bool) -> Seq<char> {
    if e.broken {
        if pretty || e.void {
            seq![]
        } else {
            match e.arg {
                Some(a) => seq!['[', '/'] + name_part(a) + seq![']'],
                None => seq![],
            }
        }
    } else {
        match e.kind {
            GroupType::Paragraph => "</p>"@,
            GroupType::Bold => "</b>"@,
            GroupType::Strong => "</strong>"@,
            GroupType::Italic => "</i>"@,
            GroupType::Emphasis => "</em>"@,
            GroupType::Subscript => "</sub>"@,
            GroupType::Superscript => "</sup>"@,
            GroupType::Strikethrough => "</s>"@,
            GroupType::Underline | GroupType::Smallcaps | GroupType::Monospace | GroupType::Spoiler
            | GroupType::Footnote | GroupType::Math => "</span>"@,
            GroupType::Colour | GroupType::Opacity | GroupType::Size => if_arg(e, "</span>"@),
            GroupType::Url | GroupType::Email => if_arg(e, "</a>"@),
            GroupType::Quote => "</blockquote>"@,
            GroupType::Center | GroupType::Right | GroupType::MathBlock => "</div>"@,
            GroupType::Indent => if_arg(e, "</div>"@),
            GroupType::Figure => if_arg(e, "</figure>"@),
            GroupType::Header => with_arg(e, "</h"@, ">"@),
            GroupType::Pre | GroupType::CodeBlock => "</pre>"@,
            GroupType::Code => "</code>"@,
            GroupType::List => match e.arg {
                Some(a) => if is_ordered_style(a) {
                    "</ol>"@
                } else {
                    "</ul>"@
                },
                None => "</ul>"@,
            },
            GroupType::ListItem => "</li>"@,
            GroupType::Table => "</table>"@,
            GroupType::TableRow => "</tr>"@,
            GroupType::TableData => "</td>"@,
            GroupType::TableHeader => "</th>"@,
            GroupType::TableCaption => "</caption>"@,
            _ => seq![],
        }
    }
}

/// The HTML for one start or end of an element.
pub open spec fn edge_text(start: bool, e: ElemV, pretty: bool) -> Seq<char> {
    if start {
        open_text(e, pretty)
    } else {
        close_text(e, pretty)
    }
}

/// The HTML for a sequence of element starts and ends.
pub open spec fn render(es: Seq<(bool, ElemV)>, pretty: bool) -> Seq<char>
    decreases es.len(),
{
    if es.len() == 0 {
        seq![]
    } else {
        render(es.drop_last(), pretty) + edge_text(es.last().0, es.last().1, pretty)
    }
}

/// The reason recorded for a tag that failed validation: `name`, or `name=arg`.
pub open spec fn broken_reason(name: Seq<char>, arg: Option<Seq<char>>) -> Seq<char> {
    match arg {
        Some(a) => name + seq!['='] + a,
        None => name,
    }
}

proof fn lemma_name_part(name: Seq<char>, rest: Seq<char>)
    requires
        forall|i: int| 0 <= i < name.len() ==> #[trigger] name[i] != '=',
        rest.len() == 0 || rest[0] == '=',
    ensures
        name_part(name + rest) == name,
    decreases name.len(),
{
    if name.len() == 0 {
        assert(name + rest =~= rest);
    } else {
        assert((name + rest)[0] == name[0]);
        assert((name + rest).drop_first() =~= name.drop_first() + rest);
        assert forall|i: int| 0 <= i < name.drop_first().len() implies #[trigger] name.drop_first()[i]
            != '=' by {
            assert(name.drop_first()[i] == name[i + 1]);
        }
        lemma_name_part(name.drop_first(), rest);
        assert(name_part(name + rest) =~= seq![name[0]] + name.drop_first());
    }
}

/// In ugly output, a tag that failed validation is written back as it was read:
/// `[name]` or `[name=arg]` where it opened and `[/name]` where it closed; pretty
/// output leaves both out.
pub proof fn lemma_broken_written_back(e: ElemV, name: Seq<char>, arg: Option<Seq<char>>)
    requires
        e.broken,
        !e.void,
        e.arg == Some(broken_reason(name, arg)),
        forall|i: int| 0 <= i < name.len() ==> #[trigger] name[i] != '=',
    ensures
        open_text(e, false) == crate::bbcode_tokenizer::tag_literal(name, arg),
        close_text(e, false) == seq!['[', '/'] + name + seq![']'],
        open_text(e, true) == Seq::<char>::empty(),
        close_text(e, true) == Seq::<char>::empty(),
{
    match arg {
        Some(a) => {
            lemma_name_part(name, seq!['='] + a);
            assert(name + seq!['='] + a =~= name + (seq!['='] + a));
            assert(seq!['['] + broken_reason(name, arg) + seq![']'] =~= crate::bbcode_tokenizer::tag_literal(
                name,
                arg,
            ));
        },
        None => {
            lemma_name_part(name, seq![]);
            assert(name + Seq::<char>::empty() =~= name);
        },
    }
}

/// Inline formatting kinds, each written as an opening and a closing HTML tag.
pub open spec fn is_inline_template(k: GroupType) -> bool {
    match k {
        GroupType::Bold | GroupType::Strong | GroupType::Italic | GroupType::Emphasis
        | GroupType::Underline | GroupType::Smallcaps | GroupType::Strikethrough
        | GroupType::Monospace | GroupType::Subscript | GroupType::Superscript
        | GroupType::Spoiler | GroupType::Footnote | GroupType::Code | GroupType::Math
        | GroupType::Colour | GroupType::Opacity | GroupType::Size | GroupType::Url
        | GroupType::Email => true,
        _ => false,
    }
}

/// An inline formatting element that is not broken writes an opening tag at its
/// start exactly when it writes a closing tag at its end, so with every element
/// starting and ending once (`lemma_edges_balanced`) the opening and closing tags
/// of the output pair up.
pub proof fn lemma_inline_tags_pair(e: ElemV, pretty: bool)
    requires
        !e.broken,
        is_inline_template(e.kind),
    ensures
        (open_text(e, pretty).len() > 0) == (close_text(e, pretty).len() > 0),
{
    reveal_strlit("</span>");
    reveal_strlit("</a>");
    reveal_strlit("<span style=\"color:");
    reveal_strlit("<span style=\"opacity:");
    reveal_strlit("<span style=\"font-size:");
    reveal_strlit("<a href=\"");
    reveal_strlit("<a href=\"mailto:");
    reveal_strlit("<b>");
    reveal_strlit("</b>");
    reveal_strlit("<strong>");
    reveal_strlit("</strong>");
    reveal_strlit("<i>");
    reveal_strlit("</i>");
    reveal_strlit("<em>");
    reveal_strlit("</em>");
    reveal_strlit("<span class=\"underline\">");
    reveal_strlit("<span class=\"smallcaps\">");
    reveal_strlit("<s>");
    reveal_strlit("</s>");
    reveal_strlit("<span class=\"monospace\">");
    reveal_strlit("<sub>");
    reveal_strlit("</sub>");
    reveal_strlit("<sup>");
    reveal_strlit("</sup>");
    reveal_strlit("<span class=\"spoiler\">");
    reveal_strlit("<span class=\"footnote\">");
    reveal_strlit("<span class=\"footnote\" data-symbol=\"");
    reveal_strlit("<code>");
    reveal_strlit("</code>");
    reveal_strlit("<span class=\"math_container\">");
}

/// Struct for generation of HTML strings.
pub struct HTMLConstructor {
    output_string: String,
    pretty: bool,
}

impl HTMLConstructor {
    pub closed spec fn output(&self) -> Seq<char> {
        self.output_string@
    }

    pub closed spec fn is_pretty(&self) -> bool {
        self.pretty
    }

    /// Creates a new HTMLConstructor; `pretty` leaves out broken tags.
    pub fn new(out_len: usize, pretty: bool) -> (r: HTMLConstructor)
        ensures
            r.output() == Seq::<char>::empty(),
            r.is_pretty() == pretty,
    {
        let half = out_len / 2;
        let cap = if out_len <= usize::MAX - half {
            out_len + half
        } else {
            out_len
        };
        HTMLConstructor { output_string: String::with_capacity(cap), pretty }
    }

    /// Generates an HTML string from a tree.
    pub fn construct(&mut self, ast: DomTree) -> (r: String)
        requires
            ast.wf(),
        ensures
            r@ == old(self).output() + render(edges(ast.slots(), 0), old(self).is_pretty()),
            final(self).is_pretty() == old(self).is_pretty(),
    {
        let es = ast.edges();
        let ghost spec_edges = edges(ast.slots(), 0);
        let ghost start = self.output_string@;
        let mut i: usize = 0;
        while i < es.len()
            invariant
                es@.len() == spec_edges.len(),
                forall|k: int|
                    0 <= k < es@.len() ==> (#[trigger] es@[k]).0 == spec_edges[k].0 && es@[k].1@
                        == spec_edges[k].1,
                i <= es@.len(),
                self.pretty == old(self).pretty,
                self.output_string@ == start + render(spec_edges.take(i as int), self.pretty),
            decreases es@.len() - i,
        {
            let (is_start, ref e) = es[i];
            if is_start {
                self.start_element(e);
            } else {
                self.end_element(e);
            }
            proof {
                assert(spec_edges.take(i + 1).drop_last() =~= spec_edges.take(i as int));
                assert(start + render(spec_edges.take(i + 1), self.pretty) =~= start + render(
                    spec_edges.take(i as int),
                    self.pretty,
                ) + edge_text(spec_edges[i as int].0, spec_edges[i as int].1, self.pretty));
            }
            i = i + 1;
        }
        assert(spec_edges.take(es@.len() as int) =~= spec_edges);
        self.output_string.clone()
    }

    /// Appends `s`.
    fn push(&mut self, s: &str)
        ensures
            final(self).output_string@ == old(self).output_string@ + s@,
            final(self).pretty == old(self).pretty,
    {
        self.output_string.append(s);
    }

    /// Appends `pre`, the element's argument and `post`, when it has an argument.
    fn push_with_arg(&mut self, e: &ASTElement, pre: &str, post: &str)
        ensures
            final(self).output_string@ == old(self).output_string@ + with_arg(e@, pre@, post@),
            final(self).pretty == old(self).pretty,
    {
        match e.argument() {
            Some(a) => {
                self.output_string.append(pre);
                self.output_string.append(a.as_str());
                self.output_string.append(post);
                assert(self.output_string@ =~= old(self).output_string@ + with_arg(e@, pre@, post@));
            },
            None => {
                assert(with_arg(e@, pre@, post@) =~= seq![]);
                assert(self.output_string@ =~= old(self).output_string@ + with_arg(e@, pre@, post@));
            },
        }
    }

    /// Appends `s` when the element has an argument.
    fn push_if_arg(&mut self, e: &ASTElement, s: &str)
        ensures
            final(self).output_string@ == old(self).output_string@ + if_arg(e@, s@),
            final(self).pretty == old(self).pretty,
    {
        if e.has_arg() {
            self.output_string.append(s);
        } else {
            assert(old(self).output_string@ + if_arg(e@, s@) =~= old(self).output_string@);
        }
    }

    /// Opens an HTML tag.
    fn start_element(&mut self, element: &ASTElement)
        ensures
            final(self).output_string@ == old(self).output_string@ + open_text(element@, old(self).pretty),
            final(self).pretty == old(self).pretty,
    {
        if element.is_broken() {
            if self.pretty {
                assert(old(self).output_string@ + open_text(element@, self.pretty) =~= old(self).output_string@);
            } else {
                match element.argument() {
                    Some(a) => {
                        self.output_string.push('[');
                        self.output_string.append(a.as_str());
                        self.output_string.push(']');
                        assert(self.output_string@ =~= old(self).output_string@ + open_text(element@, self.pretty));
                    },
                    None => {
                        assert(old(self).output_string@ + open_text(element@, self.pretty) =~= old(self).output_string@);
                    },
                }
            }
            return;
        }
        match *element.ele_type() {
            GroupType::Text => match element.text_contents() {
                Some(t) => self.push(t.as_str()),
                None => {
                    assert(old(self).output_string@ + open_text(element@, self.pretty) =~= old(self).output_string@);
                },
            },
            GroupType::Paragraph => self.push("<p>"),
            GroupType::Bold => self.push("<b>"),
            GroupType::Strong => self.push("<strong>"),
            GroupType::Italic => self.push("<i>"),
            GroupType::Emphasis => self.push("<em>"),
            GroupType::Underline => self.push("<span class=\"underline\">"),
            GroupType::Strikethrough => self.push("<s>"),
            GroupType::Smallcaps => self.push("<span class=\"smallcaps\">"),
            GroupType::Monospace => self.push("<span class=\"monospace\">"),
            GroupType::Subscript => self.push("<sub>"),
            GroupType::Superscript => self.push("<sup>"),
            GroupType::Spoiler => self.push("<span class=\"spoiler\">"),
            GroupType::Hr => self.push("<hr>"),
            GroupType::Br => self.push("<br>"),
            GroupType::Scenebreak => self.push("<br><br><br>"),
            GroupType::Center => self.push("<div class=\"center\">"),
            GroupType::Right => self.push("<div class=\"right\">"),
            GroupType::Colour => self.push_with_arg(element, "<span style=\"color:", ";\">"),
            GroupType::Url => self.push_with_arg(element, "<a href=\"", "\" rel=\"nofollow\">"),
            GroupType::Email => self.push_with_arg(element, "<a href=\"mailto:", "\">"),
            GroupType::Opacity => self.push_with_arg(element, "<span style=\"opacity:", ";\">"),
            GroupType::Size => self.push_with_arg(element, "<span style=\"font-size:", "rem;\">"),
            GroupType::Image => self.push_with_arg(element, "<img src=\"", "\">"),
            GroupType::Quote => {
                if element.has_arg() {
                    self.push_with_arg(element, "<blockquote data-author=\"", "\">");
                } else {
                    self.push("<blockquote>");
                }
            },
            GroupType::Footnote => {
                if element.has_arg() {
                    self.push_with_arg(element, "<span class=\"footnote\" data-symbol=\"", "\">");
                } else {
                    self.push("<span class=\"footnote\">");
                }
            },
            GroupType::Indent => self.push_with_arg(element, "<div class=\"indent-", "\">"),
            GroupType::Pre => self.push("<pre>"),
            GroupType::Header => self.push_with_arg(element, "<h", ">"),
            GroupType::Figure => self.push_with_arg(element, "<figure class=\"figure-", "\">"),
            GroupType::List => match element.argument() {
                Some(a) => {
                    let style = crate::text::chars_of(a.as_str());
                    if crate::args::is_ordered_list_style(&style) {
                        self.push_with_arg(element, "<ol type=\"", "\">");
                    } else {
                        self.push_with_arg(element, "<ul style=\"list-style-type:", ";\">");
                    }
                },
                None => self.push("<ul>"),
            },
            GroupType::ListItem => self.push("<li>"),
            GroupType::Embed => self.push_with_arg(element, "<div class=\"embed\" data-content=\"", "\"></div>"),
            GroupType::Code => self.push("<code>"),
            GroupType::CodeBlock => {
                if element.has_arg() {
                    self.push_with_arg(element, "<pre data-language=\"", "\">");
                } else {
                    self.push("<pre>");
                }
            },
            GroupType::Math => self.push("<span class=\"math_container\">"),
            GroupType::MathBlock => self.push("<div class=\"math_container\">"),
            GroupType::Table => self.push("<table>"),
            GroupType::TableRow => self.push("<tr>"),
            GroupType::TableData => self.push("<td>"),
            GroupType::TableHeader => self.push("<th>"),
            GroupType::TableCaption => self.push("<caption>"),
            _ => {
                assert(old(self).output_string@ + open_text(element@, self.pretty) =~= old(self).output_string@);
            },
        }
    }

    /// Closes an HTML tag.
    fn end_element(&mut self, element: &ASTElement)
        ensures
            final(self).output_string@ == old(self).output_string@ + close_text(element@, old(self).pretty),
            final(self).pretty == old(self).pretty,
    {
        if element.is_broken() {
            if self.pretty || element.is_void() {
                assert(old(self).output_string@ + close_text(element@, self.pretty) =~= old(self).output_string@);
            } else {
                match element.argument() {
                    Some(a) => {
                        let name = name_of(a);
                        self.output_string.push('[');
                        self.output_string.push('/');
                        self.output_string.append(name.as_str());
                        self.output_string.push(']');
                        assert(self.output_string@ =~= old(self).output_string@ + close_text(element@, self.pretty));
                    },
                    None => {
                        assert(old(self).output_string@ + close_text(element@, self.pretty) =~= old(self).output_string@);
                    },
                }
            }
            return;
        }
        match *element.ele_type() {
            GroupType::Paragraph => self.push("</p>"),
            GroupType::Bold => self.push("</b>"),
            GroupType::Strong => self.push("</strong>"),
            GroupType::Italic => self.push("</i>"),
            GroupType::Emphasis => self.push("</em>"),
            GroupType::Subscript => self.push("</sub>"),
            GroupType::Superscript => self.push("</sup>"),
            GroupType::Strikethrough => self.push("</s>"),
            GroupType::Underline | GroupType::Smallcaps | GroupType::Monospace | GroupType::Spoiler
            | GroupType::Footnote | GroupType::Math => self.push("</span>"),
            GroupType::Colour | GroupType::Opacity | GroupType::Size => self.push_if_arg(element, "</span>"),
            GroupType::Url | GroupType::Email => self.push_if_arg(element, "</a>"),
            GroupType::Quote => self.push("</blockquote>"),
            GroupType::Center | GroupType::Right | GroupType::MathBlock => self.push("</div>"),
            GroupType::Indent => self.push_if_arg(element, "</div>"),
            GroupType::Figure => self.push_if_arg(element, "</figure>"),
            GroupType::Header => self.push_with_arg(element, "</h", ">"),
            GroupType::Pre | GroupType::CodeBlock => self.push("</pre>"),
            GroupType::Code => self.push("</code>"),
            GroupType::List => match element.argument() {
                Some(a) => {
                    let style = crate::text::chars_of(a.as_str());
                    if crate::args::is_ordered_list_style(&style) {
                        self.push("</ol>");
                    } else {
                        self.push("</ul>");
                    }
                },
                None => self.push("</ul>"),
            },
            GroupType::ListItem => self.push("</li>"),
            GroupType::Table => self.push("</table>"),
            GroupType::TableRow => self.push("</tr>"),
            GroupType::TableData => self.push("</td>"),
            GroupType::TableHeader => self.push("</th>"),
            GroupType::TableCaption => self.push("</caption>"),
            _ => {
                assert(old(self).output_string@ + close_text(element@, self.pretty) =~= old(self).output_string@);
            },
        }
    }
}

/// The tag name of a broken tag's source form.
fn name_of(s: &String) -> (r: String)
    ensures
        r@ == name_part(s@),
{
    let cs = crate::text::chars_of(s.as_str());
    let mut out = String::new();
    let mut i: usize = 0;
    assert(cs@.skip(0) =~= cs@);
    assert(out@ + name_part(cs@) =~= name_part(cs@));
    while i < cs.len() && cs[i] != '='
        invariant
            cs@ == s@,
            i <= cs@.len(),
            forall|k: int| 0 <= k < i ==> cs@[k] != '=',
            out@ + name_part(cs@.skip(i as int)) == name_part(cs@),
        decreases cs@.len() - i,
    {
        proof {
            assert(cs@.skip(i as int).drop_first() =~= cs@.skip(i + 1));
            assert(out@.push(cs@[i as int]) + name_part(cs@.skip(i + 1)) =~= out@ + name_part(cs@.skip(i as int)));
        }
        out.push(cs[i]);
        i = i + 1;
    }
    assert(name_part(cs@.skip(i as int)) =~= seq![]);
    assert(out@ =~= name_part(cs@));
    out
}

} // verus!
