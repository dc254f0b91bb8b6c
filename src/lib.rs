//! BBCode to HTML compiler: a tokenizer, a tree-building lexer and an HTML
//! constructor, with contracts checked by Verus.
//!
//! The pipeline is `source text -> Vec<Instruction> -> element tree -> String`.
use vstd::prelude::*;
use vstd::string::*;

pub mod text;
pub mod bbcode_tokenizer;
pub mod args;
pub mod tree;
pub mod bbcode_lexer;
pub mod lex_model;
pub mod html_constructor;

pub use crate::bbcode_tokenizer::BBCodeTokenizer;
pub use crate::bbcode_lexer::BBCodeLexer;
pub use crate::html_constructor::HTMLConstructor;

verus! {

/// A single Instruction output by the tokenizer.
#[derive(Debug, PartialEq, Clone)]
pub enum Instruction {
    Null,
    Tag(String, Option<String>),
    Text(String),
    Parabreak(String),
    Linebreak,
    Scenebreak,
}

/// The mathematical value of an [`Instruction`]: strings become character sequences.
pub enum InstrV {
    Null,
    Tag(Seq<char>, Option<Seq<char>>),
    Text(Seq<char>),
    Parabreak(Seq<char>),
    Linebreak,
    Scenebreak,
}

pub open spec fn opt_view(o: Option<String>) -> Option<Seq<char>> {
    match o {
        Some(s) => Some(s@),
        None => None,
    }
}

impl View for Instruction {
    type V = InstrV;

    open spec fn view(&self) -> InstrV {
        match self {
            Instruction::Null => InstrV::Null,
            Instruction::Tag(n, a) => InstrV::Tag(n@, opt_view(*a)),
            Instruction::Text(t) => InstrV::Text(t@),
            Instruction::Parabreak(w) => InstrV::Parabreak(w@),
            Instruction::Linebreak => InstrV::Linebreak,
            Instruction::Scenebreak => InstrV::Scenebreak,
        }
    }
}

/// The views of a sequence of instructions.
pub open spec fn instrs_view(s: Seq<Instruction>) -> Seq<InstrV> {
    s.map_values(|i: Instruction| i@)
}

/// Types of ASTElement.
///
/// A tag whose argument failed validation keeps the kind it would have had and
/// is marked broken on its [`ASTElement`].
#[derive(Debug, Clone, Copy, PartialEq, Eq, Structural)]
pub enum GroupType {
    Text,
    Hr,
    Br,
    Bold,
    Strong,
    Italic,
    Emphasis,
    Underline,
    Smallcaps,
    Strikethrough,
    Monospace,
    Superscript,
    Subscript,
    Spoiler,
    Colour,
    Url,
    Email,
    Opacity,
    Size,
    Center,
    Right,
    Image,
    Quote,
    Footnote,
    Indent,
    Pre,
    PreLine,
    Header,
    Figure,
    List,
    ListItem,
    Embed,
    Code,
    CodeBlock,
    Math,
    MathBlock,
    Table,
    TableRow,
    TableData,
    TableHeader,
    TableCaption,
    Paragraph,
    Scenebreak,
    Null,
    Document,
    Anchor,
}

///Types of argument for Instructions.
#[derive(Debug, Clone, PartialEq)]
pub enum Argument {
    Colour(String),
    Url(String),
    Quote(String),
}

/// The mathematical value of an [`ASTElement`].
pub struct ElemV {
    pub kind: GroupType,
    pub text: Option<Seq<char>>,
    pub arg: Option<Seq<char>>,
    pub void: bool,
    pub detachable: bool,
    pub broken: bool,
}

/// A single element of a BBCode AST.
///
/// A broken element stands for a tag that failed validation: its argument then
/// holds the tag as written between the brackets (`color=talapia`), so that it
/// can be given back literally.
#[derive(Debug, Clone)]
pub struct ASTElement {
    ele_type: GroupType,
    text_contents: Option<String>,
    argument: Option<String>,
    is_void: bool,
    detachable: bool,
    broken: bool,
}

impl View for ASTElement {
    type V = ElemV;

    closed spec fn view(&self) -> ElemV {
        ElemV {
            kind: self.ele_type,
            text: opt_view(self.text_contents),
            arg: opt_view(self.argument),
            void: self.is_void,
            detachable: self.detachable,
            broken: self.broken,
        }
    }
}

/// A copy of an optional string.
pub fn copy_opt(o: &Option<String>) -> (r: Option<String>)
    ensures
        opt_view(r) == opt_view(*o),
{
    match o {
        Some(s) => Some(s.clone()),
        None => None,
    }
}

/// The concatenation of an optional string and `more`.
fn joined(o: &Option<String>, more: &String) -> (r: Option<String>)
    ensures
        opt_view(r) == Some(
            match opt_view(*o) {
                Some(t) => t + more@,
                None => more@,
            },
        ),
{
    match o {
        Some(s) => {
            let mut t = s.clone();
            t.append(more.as_str());
            Some(t)
        },
        None => Some(more.clone()),
    }
}

impl ASTElement {
    /// Creates a new ASTElement.
    pub fn new(ele_type: GroupType) -> (r: ASTElement)
        ensures
            r@ == (ElemV {
                kind: ele_type,
                text: None,
                arg: None,
                void: false,
                detachable: true,
                broken: false,
            }),
    {
        ASTElement {
            ele_type,
            text_contents: None,
            argument: None,
            is_void: false,
            detachable: true,
            broken: false,
        }
    }

    /// A fresh element of the same kind, argument and marks, without text or
    /// void mark: what is opened again when formatting is carried across a close.
    pub fn reopened(&self) -> (r: ASTElement)
        ensures
            r@ == (ElemV { text: None, void: false, ..self@ }),
    {
        ASTElement {
            ele_type: self.ele_type,
            text_contents: None,
            argument: copy_opt(&self.argument),
            is_void: false,
            detachable: self.detachable,
            broken: self.broken,
        }
    }

    /// Sets an ASTElement's type; the element is then no longer broken.
    pub fn set_ele_type(&mut self, new_type: GroupType)
        ensures
            final(self)@ == (ElemV { kind: new_type, broken: false, ..old(self)@ }),
    {
        self.ele_type = new_type;
        self.broken = false;
    }

    /// Marks the element as a tag that failed validation, written `[reason]`.
    pub fn mark_broken(&mut self, reason: String)
        ensures
            final(self)@ == (ElemV { broken: true, arg: Some(reason@), ..old(self)@ }),
    {
        self.broken = true;
        self.argument = Some(reason);
    }

    /// Gets an immutable reference to an ASTElement's type.
    pub fn ele_type(&self) -> (r: &GroupType)
        ensures
            *r == self@.kind,
    {
        &self.ele_type
    }

    /// Sets an ASTElement's is_void field (indicates that the ASTElement does not contain text or children).
    pub fn set_void(&mut self, in_void: bool)
        ensures
            final(self)@ == (ElemV { void: in_void, ..old(self)@ }),
    {
        self.is_void = in_void;
    }

    /// gets the value of an ASTElement's is_void field.
    pub fn is_void(&self) -> (r: bool)
        ensures
            r == self@.void,
    {
        self.is_void
    }

    /// Adds text to an ASTElement.
    pub fn add_text(&mut self, new_text: &String)
        ensures
            final(self)@ == (ElemV {
                text: Some(
                    match old(self)@.text {
                        Some(t) => t + new_text@,
                        None => new_text@,
                    },
                ),
                ..old(self)@
            }),
    {
        self.text_contents = joined(&self.text_contents, new_text);
    }

    /// Gets whether or not an ASTElement has text.
    pub fn has_text(&self) -> (r: bool)
        ensures
            r == self@.text is Some,
    {
        self.text_contents.is_some()
    }

    /// Gets an immutable reference to an ASTElement's text_contents.
    pub fn text_contents(&self) -> (r: &Option<String>)
        ensures
            opt_view(*r) == self@.text,
    {
        &self.text_contents
    }

    /// Sets an ASTElement's Argument field.
    pub fn set_arg(&mut self, arg: &String)
        ensures
            final(self)@ == (ElemV { arg: Some(arg@), ..old(self)@ }),
    {
        self.argument = Some(arg.clone());
    }

    /// Adds to arg of an ASTElement.
    pub fn add_arg(&mut self, new_arg: &String)
        ensures
            final(self)@ == (ElemV {
                arg: Some(
                    match old(self)@.arg {
                        Some(t) => t + new_arg@,
                        None => new_arg@,
                    },
                ),
                ..old(self)@
            }),
    {
        self.argument = joined(&self.argument, new_arg);
    }

    /// Gets whether or not an ASTElement has an argument.
    pub fn has_arg(&self) -> (r: bool)
        ensures
            r == self@.arg is Some,
    {
        self.argument.is_some()
    }

    /// Gets an immutable reference to an ASTElement's argument field.
    pub fn argument(&self) -> (r: &Option<String>)
        ensures
            opt_view(*r) == self@.arg,
    {
        &self.argument
    }

    /// Sets an ASTElement's detachable field (indicates whether the element should be detatched if empty);
    pub fn set_detachable(&mut self, in_det: bool)
        ensures
            final(self)@ == (ElemV { detachable: in_det, ..old(self)@ }),
    {
        self.detachable = in_det;
    }

    /// Gets the value of an ASTElement's detachable field.
    pub fn is_detachable(&self) -> (r: bool)
        ensures
            r == self@.detachable,
    {
        self.detachable
    }

    /// Gets the value of an ASTElement's broken field.
    pub fn is_broken(&self) -> (r: bool)
        ensures
            r == self@.broken,
    {
        self.broken
    }
}

/// The HTML for text without markup: one paragraph holding its escape, or
/// nothing for the empty text.
pub open spec fn plain_html(s: Seq<char>) -> Seq<char> {
    if s.len() == 0 {
        seq![]
    } else {
        "<p>"@ + bbcode_tokenizer::escape_text(s) + "</p>"@
    }
}

proof fn lemma_render_push(es: Seq<(bool, ElemV)>, x: (bool, ElemV), pretty: bool)
    ensures
        html_constructor::render(es.push(x), pretty) == html_constructor::render(es, pretty)
            + html_constructor::edge_text(x.0, x.1, pretty),
{
    assert(es.push(x).drop_last() =~= es);
}

proof fn lemma_render_empty(pretty: bool)
    ensures
        html_constructor::render(bbcode_lexer::empty_document(), pretty) == Seq::<char>::empty(),
{
    let a = (true, bbcode_lexer::new_elem(GroupType::Anchor));
    let d = (true, bbcode_lexer::new_elem(GroupType::Document));
    let de = (false, bbcode_lexer::new_elem(GroupType::Document));
    let ae = (false, bbcode_lexer::new_elem(GroupType::Anchor));
    let e0: Seq<(bool, ElemV)> = seq![];
    lemma_render_push(e0, a, pretty);
    lemma_render_push(e0.push(a), d, pretty);
    lemma_render_push(e0.push(a).push(d), de, pretty);
    lemma_render_push(e0.push(a).push(d).push(de), ae, pretty);
    assert(e0.push(a).push(d).push(de).push(ae) =~= bbcode_lexer::empty_document());
    assert(html_constructor::render(bbcode_lexer::empty_document(), pretty) =~= Seq::<char>::empty());
}

/// The texts `ts` one after the other.
pub open spec fn joined_texts(ts: Seq<Seq<char>>) -> Seq<char>
    decreases ts.len(),
{
    if ts.len() == 0 {
        seq![]
    } else {
        ts[0] + joined_texts(ts.drop_first())
    }
}

proof fn lemma_joined_push(ts: Seq<Seq<char>>, x: Seq<char>)
    ensures
        joined_texts(ts.push(x)) == joined_texts(ts) + x,
    decreases ts.len(),
{
    if ts.len() == 0 {
        let e = Seq::<Seq<char>>::empty();
        assert(ts.push(x).drop_first() =~= e);
        assert(joined_texts(e) == Seq::<char>::empty());
        assert(ts.push(x)[0] == x);
        assert(joined_texts(ts) == Seq::<char>::empty());
        assert(joined_texts(ts.push(x)) =~= x);
    } else {
        assert(ts.push(x).drop_first() =~= ts.drop_first().push(x));
        lemma_joined_push(ts.drop_first(), x);
        assert(joined_texts(ts.push(x)) =~= joined_texts(ts) + x);
    }
}

proof fn lemma_texts_joined(is: Seq<InstrV>)
    ensures
        bbcode_tokenizer::texts_of(is) == joined_texts(bbcode_lexer::kept_texts(is)),
    decreases is.len(),
{
    if is.len() > 0 {
        lemma_texts_joined(is.drop_last());
        let k = bbcode_lexer::kept_texts(is.drop_last());
        assert(bbcode_lexer::kept_texts(is) =~= k.push(bbcode_tokenizer::instr_text(is.last())));
        lemma_joined_push(k, bbcode_tokenizer::instr_text(is.last()));
    } else {
        assert(bbcode_lexer::kept_texts(is) =~= Seq::<Seq<char>>::empty());
    }
}

proof fn lemma_render_concat(a: Seq<(bool, ElemV)>, b: Seq<(bool, ElemV)>, pretty: bool)
    ensures
        html_constructor::render(a + b, pretty) == html_constructor::render(a, pretty)
            + html_constructor::render(b, pretty),
    decreases b.len(),
{
    if b.len() == 0 {
        assert(a + b =~= a);
        assert(html_constructor::render(a, pretty) + html_constructor::render(b, pretty) =~= html_constructor::render(a, pretty));
    } else {
        assert((a + b).drop_last() =~= a + b.drop_last());
        assert((a + b).last() == b.last());
        lemma_render_concat(a, b.drop_last(), pretty);
        assert(html_constructor::render(a + b, pretty) =~= html_constructor::render(a, pretty)
            + html_constructor::render(b, pretty));
    }
}

proof fn lemma_render_texts(ts: Seq<Seq<char>>, pretty: bool)
    ensures
        html_constructor::render(bbcode_lexer::text_edges(ts), pretty) == joined_texts(ts),
    decreases ts.len(),
{
    if ts.len() > 0 {
        let x = (true, bbcode_lexer::text_elem(ts[0]));
        let xe = (false, bbcode_lexer::text_elem(ts[0]));
        let e0: Seq<(bool, ElemV)> = seq![];
        lemma_render_push(e0, x, pretty);
        lemma_render_push(e0.push(x), xe, pretty);
        assert(e0.push(x).push(xe) =~= seq![x, xe]);
        lemma_render_concat(seq![x, xe], bbcode_lexer::text_edges(ts.drop_first()), pretty);
        lemma_render_texts(ts.drop_first(), pretty);
        assert(html_constructor::render(seq![x, xe], pretty) =~= ts[0]);
    } else {
        assert(bbcode_lexer::text_edges(ts) =~= seq![]);
    }
}

proof fn lemma_render_paragraph(ts: Seq<Seq<char>>, pretty: bool)
    ensures
        html_constructor::render(bbcode_lexer::paragraph_edges(ts), pretty) == "<p>"@ + joined_texts(ts)
            + "</p>"@,
{
    let a = (true, bbcode_lexer::new_elem(GroupType::Anchor));
    let d = (true, bbcode_lexer::new_elem(GroupType::Document));
    let p = (true, bbcode_lexer::new_elem(GroupType::Paragraph));
    let pe = (false, bbcode_lexer::new_elem(GroupType::Paragraph));
    let de = (false, bbcode_lexer::new_elem(GroupType::Document));
    let ae = (false, bbcode_lexer::new_elem(GroupType::Anchor));
    let e0: Seq<(bool, ElemV)> = seq![];
    lemma_render_push(e0, a, pretty);
    lemma_render_push(e0.push(a), d, pretty);
    lemma_render_push(e0.push(a).push(d), p, pretty);
    assert(e0.push(a).push(d).push(p) =~= seq![a, d, p]);
    assert(html_constructor::render(seq![a, d, p], pretty) =~= "<p>"@);
    lemma_render_push(e0, pe, pretty);
    lemma_render_push(e0.push(pe), de, pretty);
    lemma_render_push(e0.push(pe).push(de), ae, pretty);
    assert(e0.push(pe).push(de).push(ae) =~= seq![pe, de, ae]);
    assert(html_constructor::render(seq![pe, de, ae], pretty) =~= "</p>"@);
    let mid = bbcode_lexer::text_edges(ts);
    lemma_render_concat(seq![a, d, p], mid, pretty);
    lemma_render_concat(seq![a, d, p] + mid, seq![pe, de, ae], pretty);
    lemma_render_texts(ts, pretty);
}

/// Source text without escapes or line breaks, not ending inside a tag, whose
/// tags are all outside the vocabulary: its tags are kept as text.
pub open spec fn has_no_markup(s: Seq<char>) -> bool {
    &&& bbcode_tokenizer::is_unbroken(s)
    &&& bbcode_tokenizer::tok_run(s).mode == bbcode_tokenizer::ReadMode::ParseText
    &&& forall|k: int|
        0 <= k < bbcode_tokenizer::tokenize_spec(s).len() ==> bbcode_lexer::is_inert(
            #[trigger] bbcode_tokenizer::tokenize_spec(s)[k],
        )
}

proof fn lemma_plain_has_no_markup(s: Seq<char>)
    requires
        bbcode_tokenizer::is_plain(s),
    ensures
        has_no_markup(s),
{
    bbcode_tokenizer::lemma_plain_text(s);
    assert(bbcode_tokenizer::is_unbroken(s));
    let ts = bbcode_tokenizer::tokenize_spec(s);
    assert forall|k: int| 0 <= k < ts.len() implies bbcode_lexer::is_inert(#[trigger] ts[k]) by {
        assert(ts[k] is Text);
    }
}

/// The HTML for source text `s`: its instructions, the tree built from them
/// (broken tags kept in ugly mode, that is when not `pretty`), written out.
pub open spec fn html_of(s: Seq<char>, pretty: bool) -> Seq<char> {
    html_constructor::render(
        tree::edges(lex_model::lex_spec(bbcode_tokenizer::tokenize_spec(s), !pretty).slots, 0),
        pretty,
    )
}

/// The HTML for BBCode source `input`: tokenize, build the tree, write it out.
/// `pretty` leaves out broken tags; otherwise they are kept as written.
pub fn compile(input: &str, pretty: bool) -> (r: String)
    ensures
        exists|t: tree::DomTree|
            #![trigger tree::edges(t.slots(), 0)]
            t.wf() && r@ == html_constructor::render(tree::edges(t.slots(), 0), pretty),
        bbcode_tokenizer::is_plain(input@) ==> r@ == plain_html(input@),
        has_no_markup(input@) ==> r@ == plain_html(input@),
        r@ == html_of(input@, pretty),
{
    let mut tokenizer = BBCodeTokenizer::new();
    let instructions = tokenizer.tokenize(input);
    let mut lexer = BBCodeLexer::new(!pretty);
    let ast = lexer.lex(&instructions);
    let ghost t = ast;
    let mut constructor = HTMLConstructor::new(input.len(), pretty);
    assert(constructor.output() == Seq::<char>::empty());
    let r = constructor.construct(ast);
    assert(r@ =~= html_constructor::render(tree::edges(t.slots(), 0), pretty));
    proof {
        if bbcode_tokenizer::is_plain(input@) {
            lemma_plain_has_no_markup(input@);
        }
        if has_no_markup(input@) {
            let views = instrs_view(instructions@);
            bbcode_tokenizer::lemma_unbroken_text(input@);
            assert(views.len() == instructions@.len());
            if input@.len() > 0 {
                lemma_texts_joined(views);
                lemma_render_paragraph(bbcode_lexer::kept_texts(views), pretty);
            } else {
                assert(input@ =~= Seq::<char>::empty());
                assert(bbcode_tokenizer::tokenize_spec(input@).len() == 0);
                lemma_render_empty(pretty);
            }
        }
    }
    r
}

/// Generates a string of HTML from an &str of BBCode.
/// This function produces *pretty* output, meaning that any erroneously written
/// BBCode encountered or empty tags will be removed from the final output.
pub fn bbcode_to_html(input: &str) -> (r: String)
    ensures
        exists|t: tree::DomTree|
            #![trigger tree::edges(t.slots(), 0)]
            t.wf() && r@ == html_constructor::render(tree::edges(t.slots(), 0), true),
        bbcode_tokenizer::is_plain(input@) ==> r@ == plain_html(input@),
        has_no_markup(input@) ==> r@ == plain_html(input@),
        r@ == html_of(input@, true),
{
    compile(input, true)
}

/// Generates a string of HTML from an &str of BBCode.
/// This function produces *ugly* output, meaning that any erroneously written
/// BBCode or empty tags encountered will be included in the final output.
pub fn bbcode_to_html_ugly(input: &str) -> (r: String)
    ensures
        exists|t: tree::DomTree|
            #![trigger tree::edges(t.slots(), 0)]
            t.wf() && r@ == html_constructor::render(tree::edges(t.slots(), 0), false),
        bbcode_tokenizer::is_plain(input@) ==> r@ == plain_html(input@),
        has_no_markup(input@) ==> r@ == plain_html(input@),
        r@ == html_of(input@, false),
{
    compile(input, false)
}

} // verus!
