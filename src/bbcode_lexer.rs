//! The lexer: interprets the instruction stream and builds the element tree,
//! dispatching on tag names, validating arguments and repairing bad nesting.
use vstd::prelude::*;
use vstd::string::*;
use crate::{ASTElement, ElemV, GroupType, InstrV, Instruction, instrs_view};
use crate::args::{
    image_source, image_target, is_bullet_list_style, is_ordered_list_style, is_valid_colour,
    is_valid_figure_side, is_valid_indent, is_word, link_target, opacity_arg, opacity_value,
    size_arg, size_value, url_target, valid_colour,
};
use crate::text::{char_string, chars_of};
use crate::lex_model::{
    pending_name, arg_tag_spec, ascend_spec, bare_tag_spec, block_kind_spec, break_spec,
    close_block_spec, close_into_spec, close_paragraph_spec, close_through_spec, climb,
    cursor_of, end_group_spec, execute_spec, header_spec, inline_kind_spec, instruction_spec,
    lex_init, lex_run, lex_spec, lex_start, new_broken_spec, new_group_spec, open_block_spec,
    parse_tag_spec, push_broken_void_spec, push_text_spec, push_void_spec, replay, reopen,
    set_arg_spec, take_arg_spec, trim_breaks, LexV,
};
use crate::bbcode_tokenizer::{instr_text, tag_literal};
use crate::tree::{
    appended, child_edges, detached_last, edges, lemma_cursor_is_last, DomTree, Slot,
};

verus! {

/// A tag waiting for the next text as its argument.
#[derive(Debug, Clone, Copy, PartialEq, Eq, Structural)]
pub enum PendingArg {
    Url,
    Email,
    Image,
    Embed,
}

/// Where the nearest element of some kind stands, seen from the cursor.
#[derive(Debug, Clone, Copy, PartialEq, Eq, Structural)]
pub enum Scope {
    Open,
    Broken,
    Absent,
}

/// Kinds that stand inside a paragraph.
pub open spec fn is_inline(k: GroupType) -> bool {
    match k {
        GroupType::Text | GroupType::Br | GroupType::Scenebreak | GroupType::Bold
        | GroupType::Strong | GroupType::Italic | GroupType::Emphasis | GroupType::Underline
        | GroupType::Smallcaps | GroupType::Strikethrough | GroupType::Monospace
        | GroupType::Superscript | GroupType::Subscript | GroupType::Spoiler
        | GroupType::Colour | GroupType::Url | GroupType::Email | GroupType::Opacity
        | GroupType::Size | GroupType::Footnote | GroupType::Code | GroupType::Math
        | GroupType::Image => true,
        _ => false,
    }
}

fn inline_kind(k: GroupType) -> (r: bool)
    ensures
        r == is_inline(k),
{
    match k {
        GroupType::Text | GroupType::Br | GroupType::Scenebreak | GroupType::Bold
        | GroupType::Strong | GroupType::Italic | GroupType::Emphasis | GroupType::Underline
        | GroupType::Smallcaps | GroupType::Strikethrough | GroupType::Monospace
        | GroupType::Superscript | GroupType::Subscript | GroupType::Spoiler
        | GroupType::Colour | GroupType::Url | GroupType::Email | GroupType::Opacity
        | GroupType::Size | GroupType::Footnote | GroupType::Code | GroupType::Math
        | GroupType::Image => true,
        _ => false,
    }
}

/// A fresh element of kind `k`.
pub open spec fn new_elem(k: GroupType) -> ElemV {
    ElemV { kind: k, text: None, arg: None, void: false, detachable: true, broken: false }
}

/// A text element holding `t`.
pub open spec fn text_elem(t: Seq<char>) -> ElemV {
    ElemV { text: Some(t), ..new_elem(GroupType::Text) }
}

/// The tree of an empty document, start and end of each element in order.
pub open spec fn empty_document() -> Seq<(bool, ElemV)> {
    seq![
        (true, new_elem(GroupType::Anchor)),
        (true, new_elem(GroupType::Document)),
        (false, new_elem(GroupType::Document)),
        (false, new_elem(GroupType::Anchor)),
    ]
}

/// The cursor's last child is a line break.
pub open spec fn ends_in_break(s: Seq<Slot>, c: nat) -> bool {
    s[c as int].children.len() > 0 && s[s[c as int].children.last() as int].elem.kind
        == GroupType::Br && !s[s[c as int].children.last() as int].elem.broken
}

/// The cursor's element is empty and may be dropped.
pub open spec fn prunable(s: Seq<Slot>, c: nat) -> bool {
    s[c as int].children.len() == 0 && s[c as int].elem.text is None && !s[c as int].elem.void
        && s[c as int].elem.detachable
}

/// The tree when reading starts: an anchor, its document, and an open paragraph.
pub open spec fn opened_document() -> Seq<Slot> {
    appended(
        appended(
            seq![Slot { elem: new_elem(GroupType::Anchor), parent: None, children: seq![] }],
            0,
            new_elem(GroupType::Document),
        ),
        1,
        new_elem(GroupType::Paragraph),
    )
}

proof fn lemma_opened_document_shape()
    ensures
        opened_document()[2].elem.kind == GroupType::Paragraph,
        opened_document()[2].parent == Some(1nat),
        prunable(opened_document(), 2),
{
    let s = opened_document();
    assert(s[2] == Slot { elem: new_elem(GroupType::Paragraph), parent: Some(1nat), children: seq![] });
}

/// Reading no instruction leaves an empty document.
proof fn lemma_empty_document_edges()
    ensures
        edges(detached_last(opened_document(), 1), 0) == empty_document(),
{
    let s = detached_last(opened_document(), 1);
    assert(s[1].children =~= Seq::<nat>::empty());
    assert(s[0].children =~= seq![1nat]);
    assert(child_edges(s, 1, s[1].children) =~= seq![]);
    let d = edges(s, 1);
    assert(d =~= seq![(true, new_elem(GroupType::Document)), (false, new_elem(GroupType::Document))]);
    assert(s[0].children.drop_first() =~= Seq::<nat>::empty());
    assert(child_edges(s, 0, s[0].children.drop_first()) =~= seq![]);
    assert(child_edges(s, 0, s[0].children) =~= d);
    assert(edges(s, 0) =~= empty_document());
}

/// Names of inline formatting tags, opening or closing.
pub open spec fn is_inline_tag_name(n: Seq<char>) -> bool {
    n == "b"@ || n == "/b"@ || n == "i"@ || n == "/i"@ || n == "s"@ || n == "/s"@ ||
        n == "strong"@ || n == "/strong"@ || n == "em"@ || n == "/em"@ || n == "u"@ ||
        n == "/u"@ || n == "smcaps"@ || n == "/smcaps"@ || n == "mono"@ || n == "/mono"@ ||
        n == "sub"@ || n == "/sub"@ || n == "sup"@ || n == "/sup"@ || n == "spoiler"@ ||
        n == "/spoiler"@ || n == "math"@ || n == "/math"@ || n == "footnote"@ ||
        n == "/footnote"@ || n == "/color"@ || n == "/colour"@ || n == "/opacity"@ ||
        n == "/size"@ || n == "/url"@ || n == "/email"@ || n == "/img"@
}

/// Names of block tags, opening or closing.
pub open spec fn is_block_tag_name(n: Seq<char>) -> bool {
    n == "center"@ || n == "/center"@ || n == "right"@ || n == "/right"@ || n == "quote"@ ||
        n == "/quote"@ || n == "indent"@ || n == "/indent"@ || n == "/figure"@ ||
        n == "mathblock"@ || n == "/mathblock"@ || n == "pre"@ || n == "/pre"@ ||
        n == "/codeblock"@ || n == "/embed"@ || n == "list"@ || n == "/list"@ ||
        n == "table"@ || n == "/table"@ || n == "/tr"@ || n == "/td"@ || n == "/th"@ ||
        n == "/caption"@
}

/// `h1` to `h6` and their closing forms.
pub open spec fn is_header_tag_name(n: Seq<char>) -> bool {
    (n.len() == 2 && n[0] == 'h' && '1' <= n[1] <= '6') || (n.len() == 3 && n[0] == '/' && n[1]
        == 'h' && '1' <= n[2] <= '6')
}

/// The other names of tags without an argument.
pub open spec fn is_other_bare_tag_name(n: Seq<char>) -> bool {
    n == "code"@ || n == "/code"@ || n == "codeblock"@ || n == "hr"@ || n == "url"@ ||
        n == "email"@ || n == "img"@ || n == "embed"@ || n == "color"@ || n == "colour"@ ||
        n == "opacity"@ || n == "size"@ || n == "figure"@ || n == "*"@ || n == "tr"@ ||
        n == "caption"@ || n == "td"@ || n == "th"@
}

/// The names of tags that take an argument.
pub open spec fn is_arg_tag_name(n: Seq<char>) -> bool {
    n == "color"@ || n == "colour"@ || n == "url"@ || n == "email"@ || n == "opacity"@ ||
        n == "size"@ || n == "quote"@ || n == "footnote"@ || n == "codeblock"@ ||
        n == "figure"@ || n == "indent"@ || n == "list"@
}

/// Whether a tag with name `n`, with or without an argument, is in the vocabulary.
pub open spec fn is_known_tag(n: Seq<char>, has_arg: bool) -> bool {
    if has_arg {
        is_arg_tag_name(n)
    } else {
        is_inline_tag_name(n) || is_block_tag_name(n) || is_header_tag_name(n)
            || is_other_bare_tag_name(n)
    }
}

/// The name of the tag that ends raw mode for an element of kind `raw`.
pub open spec fn raw_close_name(raw: GroupType) -> Seq<char> {
    if raw == GroupType::Code {
        "/code"@
    } else {
        "/codeblock"@
    }
}

/// An instruction that the lexer keeps as text: a text, or a tag outside the
/// vocabulary.
pub open spec fn is_inert(i: InstrV) -> bool {
    match i {
        InstrV::Text(_) => true,
        InstrV::Tag(n, a) => !is_known_tag(n, a is Some),
        _ => false,
    }
}

/// The tree after the texts `ts` have been read into the first paragraph.
pub open spec fn paragraph_slots(ts: Seq<Seq<char>>) -> Seq<Slot>
    decreases ts.len(),
{
    if ts.len() == 0 {
        opened_document()
    } else {
        appended(paragraph_slots(ts.drop_last()), 2, text_elem(ts.last()))
    }
}

/// The starts and ends of text elements holding `ts`, in order.
pub open spec fn text_edges(ts: Seq<Seq<char>>) -> Seq<(bool, ElemV)>
    decreases ts.len(),
{
    if ts.len() == 0 {
        seq![]
    } else {
        seq![(true, text_elem(ts[0])), (false, text_elem(ts[0]))] + text_edges(ts.drop_first())
    }
}

/// The tree of a document of one paragraph holding texts `ts`.
pub open spec fn paragraph_edges(ts: Seq<Seq<char>>) -> Seq<(bool, ElemV)> {
    seq![
        (true, new_elem(GroupType::Anchor)),
        (true, new_elem(GroupType::Document)),
        (true, new_elem(GroupType::Paragraph)),
    ] + text_edges(ts) + seq![
        (false, new_elem(GroupType::Paragraph)),
        (false, new_elem(GroupType::Document)),
        (false, new_elem(GroupType::Anchor)),
    ]
}

proof fn lemma_paragraph_slots(ts: Seq<Seq<char>>)
    ensures
        ({
            let s = paragraph_slots(ts);
            &&& s.len() == 3 + ts.len()
            &&& s[0] == Slot { elem: new_elem(GroupType::Anchor), parent: None, children: seq![1nat] }
            &&& s[1] == Slot { elem: new_elem(GroupType::Document), parent: Some(0nat), children: seq![2nat] }
            &&& s[2].elem == new_elem(GroupType::Paragraph)
            &&& s[2].parent == Some(1nat)
            &&& s[2].children.len() == ts.len()
            &&& forall|j: int| 0 <= j < ts.len() ==> #[trigger] s[2].children[j] == j + 3
            &&& forall|k: int| 3 <= k < s.len() ==> #[trigger] s[k] == (Slot {
                elem: text_elem(ts[k - 3]),
                parent: Some(2nat),
                children: seq![],
            })
        }),
    decreases ts.len(),
{
    if ts.len() == 0 {
        let s = opened_document();
        assert(s[0].children =~= seq![1nat]);
        assert(s[1].children =~= seq![2nat]);
        assert(s[2].children =~= Seq::<nat>::empty());
    } else {
        lemma_paragraph_slots(ts.drop_last());
        let p = paragraph_slots(ts.drop_last());
        let s = paragraph_slots(ts);
        assert(s == appended(p, 2, text_elem(ts.last())));
        assert forall|k: int| 3 <= k < s.len() implies #[trigger] s[k] == (Slot {
            elem: text_elem(ts[k - 3]),
            parent: Some(2nat),
            children: seq![],
        }) by {
            if k < p.len() {
                assert(s[k] == p[k]);
                assert(ts.drop_last()[k - 3] == ts[k - 3]);
            }
        }
        assert forall|j: int| 0 <= j < ts.len() implies #[trigger] s[2].children[j] == j + 3 by {
            if j < ts.len() - 1 {
                assert(s[2].children[j] == p[2].children[j]);
            }
        }
    }
}

proof fn lemma_paragraph_child_edges(ts: Seq<Seq<char>>, j: int)
    requires
        0 <= j <= ts.len(),
    ensures
        child_edges(paragraph_slots(ts), 2, paragraph_slots(ts)[2].children.skip(j)) == text_edges(
            ts.skip(j),
        ),
    decreases ts.len() - j,
{
    lemma_paragraph_slots(ts);
    let s = paragraph_slots(ts);
    let cs = s[2].children.skip(j);
    if j == ts.len() {
        assert(cs =~= Seq::<nat>::empty());
        assert(ts.skip(j) =~= Seq::<Seq<char>>::empty());
    } else {
        lemma_paragraph_child_edges(ts, j + 1);
        assert(cs[0] == j + 3);
        assert(cs.drop_first() =~= s[2].children.skip(j + 1));
        assert(ts.skip(j).drop_first() =~= ts.skip(j + 1));
        let k = (j + 3) as nat;
        assert(child_edges(s, k, s[k as int].children) =~= seq![]);
        assert(edges(s, k) =~= seq![(true, text_elem(ts[j])), (false, text_elem(ts[j]))]);
    }
}

/// Reading only inert instructions leaves one paragraph holding their texts.
proof fn lemma_paragraph_edges(ts: Seq<Seq<char>>)
    ensures
        edges(paragraph_slots(ts), 0) == paragraph_edges(ts),
{
    lemma_paragraph_slots(ts);
    lemma_paragraph_child_edges(ts, 0);
    let s = paragraph_slots(ts);
    assert(s[2].children.skip(0) =~= s[2].children);
    assert(ts.skip(0) =~= ts);
    let e: Seq<nat> = seq![];
    assert(s[1].children.drop_first() =~= e);
    assert(s[0].children.drop_first() =~= e);
    let t2 = edges(s, 2);
    assert(t2 =~= seq![(true, new_elem(GroupType::Paragraph))] + text_edges(ts) + seq![
        (false, new_elem(GroupType::Paragraph)),
    ]);
    assert(child_edges(s, 1, s[1].children.drop_first()) =~= seq![]);
    assert(child_edges(s, 1, s[1].children) =~= t2);
    let t1 = edges(s, 1);
    assert(child_edges(s, 0, s[0].children.drop_first()) =~= seq![]);
    assert(child_edges(s, 0, s[0].children) =~= t1);
    assert(edges(s, 0) =~= paragraph_edges(ts));
}

/// The texts that a sequence of inert instructions stands for.
pub open spec fn kept_texts(is: Seq<InstrV>) -> Seq<Seq<char>> {
    is.map_values(|i: InstrV| instr_text(i))
}

/// Where the nearest element of kind `k` stands in `es`, the elements from the
/// cursor up to the root; the search ends at the document.
pub open spec fn nearest_scope(es: Seq<ElemV>, k: GroupType) -> Scope
    decreases es.len(),
{
    if es.len() == 0 {
        Scope::Absent
    } else if es[0].kind == k {
        if es[0].broken {
            Scope::Broken
        } else {
            Scope::Open
        }
    } else if es[0].kind == GroupType::Document {
        Scope::Absent
    } else {
        nearest_scope(es.drop_first(), k)
    }
}

/// Whether the first element of `es` that is neither inline nor broken is a
/// paragraph.
pub open spec fn within_paragraph(es: Seq<ElemV>) -> bool
    decreases es.len(),
{
    if es.len() == 0 {
        false
    } else if !is_inline(es[0].kind) && !es[0].broken {
        es[0].kind == GroupType::Paragraph
    } else {
        within_paragraph(es.drop_first())
    }
}

/// The elements of the cursor and of its ancestors, from the cursor up.
pub open spec fn path_elems(s: Seq<Slot>, c: nat) -> Seq<ElemV> {
    crate::tree::path_up(s, c).map_values(|i: nat| s[i as int].elem)
}

/// The search for an element to close stops at `k` when closing `target`.
pub open spec fn is_boundary(k: GroupType, target: GroupType) -> bool {
    (k == GroupType::Paragraph && target != GroupType::Paragraph) || (k == GroupType::Document
        && target != GroupType::Document)
}

/// An element that a close of `target` passes over and opens again afterwards.
pub open spec fn is_carried(e: ElemV, target: GroupType) -> bool {
    e.kind != target && !e.void && !is_boundary(e.kind, target)
}

/// Struct for lexing BBCode Instructions into an ASTElement tree.
pub struct BBCodeLexer {
    tree: DomTree,
    next_text_as_arg: Option<PendingArg>,
    ignore_tags: Option<GroupType>,
    ignore_formatting: bool,
    ugly: bool,
}

/// The source form of a tag, as a string.
pub fn tag_text(name: &String, arg: &Option<String>) -> (r: String)
    ensures
        r@ == tag_literal(name@, crate::opt_view(*arg)),
{
    let mut r = String::new();
    r.push('[');
    r.append(name.as_str());
    match arg {
        Some(a) => {
            r.push('=');
            r.append(a.as_str());
        },
        None => {},
    }
    r.push(']');
    assert(r@ =~= tag_literal(name@, crate::opt_view(*arg)));
    r
}

impl BBCodeLexer {
    pub closed spec fn wf(&self) -> bool {
        self.tree.wf()
    }

    /// The lexer's state as a mathematical value.
    pub closed spec fn state(&self) -> LexV {
        LexV {
            slots: self.tree.slots(),
            cursor: self.tree.cursor(),
            pending: self.next_text_as_arg,
            raw: self.ignore_tags,
            fmt: self.ignore_formatting,
            ugly: self.ugly,
        }
    }

    /// Whether broken tags and empty elements are kept.
    pub open spec fn is_ugly(&self) -> bool {
        self.state().ugly
    }

    /// Creates a new BBCodeLexer; `ugly` keeps broken tags and empty elements
    /// in the output.
    pub fn new(ugly: bool) -> (r: BBCodeLexer)
        ensures
            r.wf(),
            r.state() == lex_init(ugly),
            r.is_ugly() == ugly,
    {
        let tree = DomTree::new(ASTElement::new(GroupType::Anchor));
        BBCodeLexer {
            tree,
            next_text_as_arg: None,
            ignore_tags: None,
            ignore_formatting: false,
            ugly,
        }
    }

    /// Lexes a vector of Instructions; the result is an `Anchor` holding the
    /// `Document`.
    pub fn lex(&mut self, instructions: &Vec<Instruction>) -> (r: DomTree)
        requires
            old(self).wf(),
        ensures
            r.wf(),
            final(self).wf(),
            r.slots() == lex_spec(instrs_view(instructions@), old(self).is_ugly()).slots,
            instructions@.len() == 0 ==> edges(r.slots(), 0) == empty_document(),
            instructions@.len() > 0 && (forall|k: int|
                0 <= k < instructions@.len() ==> is_inert(#[trigger] instrs_view(instructions@)[k]))
                ==> edges(r.slots(), 0) == paragraph_edges(kept_texts(instrs_view(instructions@))),
    {
        let mut tree = DomTree::new(ASTElement::new(GroupType::Anchor));
        std::mem::swap(&mut tree, &mut self.tree);
        self.tree.open_child(ASTElement::new(GroupType::Document));
        self.new_group(GroupType::Paragraph);
        self.next_text_as_arg = None;
        self.ignore_tags = None;
        self.ignore_formatting = false;
        let ghost start = self.tree.slots();
        let ghost views = instrs_view(instructions@);
        let ghost inert = forall|k: int| 0 <= k < instructions@.len() ==> is_inert(#[trigger] views[k]);
        let ghost ts = kept_texts(views);
        let ghost u = old(self).ugly;
        proof {
            assert(self.state() == lex_start(u));
            assert(views.take(0) =~= Seq::<InstrV>::empty());
            assert(start == opened_document());
            assert(ts.take(0) =~= Seq::<Seq<char>>::empty());
        }
        let mut i: usize = 0;
        while i < instructions.len()
            invariant
                self.wf(),
                i <= instructions@.len(),
                views == instrs_view(instructions@),
                u == old(self).ugly,
                self.state() == lex_run(views.take(i as int), u),
                ts == kept_texts(views),
                inert == (forall|k: int| 0 <= k < instructions@.len() ==> is_inert(#[trigger] views[k])),
                inert ==> self.tree.slots() == paragraph_slots(ts.take(i as int))
                    && self.tree.cursor() == 2 && self.next_text_as_arg is None
                    && self.ignore_tags is None,
                i == 0 ==> self.tree.slots() == start && self.tree.cursor() == 2
                    && self.next_text_as_arg is None,
            decreases instructions.len() - i,
        {
            proof {
                assert(views[i as int] == instructions@[i as int]@);
                assert(views.take(i + 1).drop_last() =~= views.take(i as int));
                assert(views.take(i + 1).last() == views[i as int]);
                if inert {
                    assert(is_inert(views[i as int]));
                    assert(ts.take(i + 1).drop_last() =~= ts.take(i as int));
                    assert(ts.take(i + 1).last() == instr_text(views[i as int]));
                }
            }
            self.execute(&instructions[i]);
            i = i + 1;
        }
        self.next_text_as_arg = None;
        proof {
            assert(views.take(instructions@.len() as int) =~= views);
            assert(self.state() == LexV { pending: None, ..lex_run(views, u) });
        }
        proof {
            if inert && instructions@.len() > 0 {
                assert(ts.take(instructions@.len() as int) =~= ts);
                lemma_paragraph_slots(ts);
                let s = paragraph_slots(ts);
                let n = ts.len();
                assert(s[2].children[n - 1] == n + 2);
                assert(s[(n + 2) as int].elem == text_elem(ts[n - 1]));
                assert(!ends_in_break(s, 2));
                assert(!prunable(s, 2));
                lemma_paragraph_edges(ts);
            }
        }
        proof {
            if instructions@.len() == 0 {
                lemma_opened_document_shape();
            }
        }
        self.end_group(GroupType::Paragraph);
        proof {
            if instructions@.len() == 0 {
                lemma_empty_document_edges();
            }
        }
        std::mem::swap(&mut tree, &mut self.tree);
        tree
    }

    /// Matches Instruction types (see `execute_spec`). Line, paragraph and scene
    /// breaks directly inside a list, table or table row are dropped.
    fn execute(&mut self, instruction: &Instruction)
        requires
            old(self).wf(),
        ensures
            final(self).wf(),
            old(self).next_text_as_arg is None && old(self).ignore_tags is None && is_inert(
                instruction@,
            ) ==> final(self).tree.slots() == appended(
                old(self).tree.slots(),
                old(self).tree.cursor(),
                text_elem(instr_text(instruction@)),
            ) && final(self).tree.cursor() == old(self).tree.cursor()
                && final(self).next_text_as_arg is None && final(self).ignore_tags is None,
            old(self).next_text_as_arg is None && instruction is Text ==> final(self).tree.slots()
                == appended(
                old(self).tree.slots(),
                old(self).tree.cursor(),
                text_elem(instruction->Text_0@),
            ) && final(self).tree.cursor() == old(self).tree.cursor(),
            ({
                let literal = appended(
                    old(self).tree.slots(),
                    old(self).tree.cursor(),
                    text_elem(
                        tag_literal(
                            instruction->Tag_0@,
                            crate::opt_view(instruction->Tag_1),
                        ),
                    ),
                );
                old(self).next_text_as_arg is None && instruction is Tag && (match old(self).ignore_tags {
                    None => !is_known_tag(instruction->Tag_0@, instruction->Tag_1 is Some),
                    Some(raw) => !(instruction->Tag_1 is None && instruction->Tag_0@ == raw_close_name(raw)),
                }) ==> final(self).tree.slots() == literal && final(self).tree.cursor() == old(
                    self,
                ).tree.cursor()
            }),
            final(self).state() == execute_spec(old(self).state(), instruction@),
    {
        reveal(execute_spec);
        if let Some(pending) = self.next_text_as_arg {
            self.next_text_as_arg = None;
            match instruction {
                Instruction::Text(param) => {
                    let ghost s0 = self.state();
                    assert(s0 == LexV { pending: None, ..old(self).state() });
                    self.take_arg(pending, param);
                    assert(instruction@ == InstrV::Text(param@));
                    assert(self.state() == take_arg_spec(s0, pending, param@));
                    return;
                },
                _ => {
                    assert(!(instruction@ is Text));
                    self.abandon_arg(pending);
                },
            }
        }
        assert(old(self).state().pending is Some ==> !(instruction@ is Text));
        let ghost mid = self.state();
        assert(mid == (match old(self).state().pending {
            Some(p) => break_spec(LexV { pending: None, ..old(self).state() }, pending_name(p)),
            None => old(self).state(),
        }));
        match instruction {
            Instruction::Text(param) => {
                self.push_text(param);
                assert(self.state() == instruction_spec(mid, instruction@));
                assert(mid == old(self).state());
                assert(old(self).state().pending is None);
                assert(execute_spec(old(self).state(), instruction@) == instruction_spec(mid, instruction@));
            },
            Instruction::Tag(param, arg) => {
                match self.ignore_tags {
                    Some(raw) => {
                        let closing = match arg {
                            None => self.is_close_of(param, raw),
                            Some(_) => false,
                        };
                        if closing {
                            self.parse_tag(param, arg);
                        } else {
                            let literal = tag_text(param, arg);
                            self.push_text(&literal);
                        }
                    },
                    None => self.parse_tag(param, arg),
                }
            },
            Instruction::Parabreak(param) => {
                if self.ignore_formatting {
                    self.push_text(param);
                } else if !self.in_container() {
                    self.end_group(GroupType::Paragraph);
                    self.new_group(GroupType::Paragraph);
                }
            },
            Instruction::Linebreak => {
                if self.ignore_formatting {
                    let t = char_string('\n');
                    self.push_text(&t);
                } else if !self.in_container() {
                    self.push_void(GroupType::Br);
                }
            },
            Instruction::Scenebreak => {
                if self.ignore_formatting {
                    let mut t = char_string('\n');
                    t.push('\n');
                    t.push('\n');
                    assert(t@ =~= seq!['\n', '\n', '\n']);
                    self.push_text(&t);
                } else if !self.in_container() {
                    self.push_void(GroupType::Scenebreak);
                }
            },
            Instruction::Null => {},
        }
    }

    /// Whether `name` closes the raw-mode element `raw`.
    fn is_close_of(&self, name: &String, raw: GroupType) -> (r: bool)
        ensures
            r == (name@ == raw_close_name(raw)),
    {
        let n = chars_of(name.as_str());
        match raw {
            GroupType::Code => is_word(&n, "/code"),
            _ => is_word(&n, "/codeblock"),
        }
    }

    /// Whether the cursor is at an element that holds only other elements.
    fn in_container(&self) -> (r: bool)
        requires
            self.wf(),
        ensures
            r == (!self.tree.at_cursor().broken && (self.tree.at_cursor().kind == GroupType::List
                || self.tree.at_cursor().kind == GroupType::Table || self.tree.at_cursor().kind
                == GroupType::TableRow)),
            r == crate::lex_model::in_container_spec(self.state()),
    {
        let e = self.tree.cursor_elem();
        let k = *e.ele_type();
        !e.is_broken() && (k == GroupType::List || k == GroupType::Table || k
            == GroupType::TableRow)
    }

    /// Creates a new ASTElement at the cursor and moves the cursor into it.
    fn new_group(&mut self, ele_type: GroupType)
        requires
            old(self).wf(),
        ensures
            final(self).wf(),
            final(self).ugly == old(self).ugly,
            final(self).tree.slots() == appended(
                old(self).tree.slots(),
                old(self).tree.cursor(),
                ElemV {
                    detachable: !(old(self).ugly && ele_type != GroupType::Paragraph),
                    ..new_elem(ele_type)
                },
            ),
            final(self).tree.cursor() == old(self).tree.slots().len(),
            final(self).state() == new_group_spec(old(self).state(), ele_type),
    {
        let mut e = ASTElement::new(ele_type);
        if self.ugly && ele_type != GroupType::Paragraph {
            e.set_detachable(false);
        }
        self.tree.open_child(e);
    }

    /// Opens an element for a tag that failed validation, written `[reason]`.
    fn new_broken_group(&mut self, ele_type: GroupType, reason: String)
        requires
            old(self).wf(),
        ensures
            final(self).wf(),
            final(self).tree.at_cursor().kind == ele_type,
            final(self).tree.at_cursor().broken,
            final(self).tree.at_cursor().arg == Some(reason@),
            final(self).state() == new_broken_spec(old(self).state(), ele_type, reason@),
    {
        let mut e = ASTElement::new(ele_type);
        if self.ugly {
            e.set_detachable(false);
        }
        e.mark_broken(reason);
        self.tree.open_child(e);
    }

    /// Adds a text element at the cursor.
    fn push_text(&mut self, text: &String)
        requires
            old(self).wf(),
        ensures
            final(self).wf(),
            final(self).ugly == old(self).ugly,
            final(self).tree.slots() == appended(
                old(self).tree.slots(),
                old(self).tree.cursor(),
                text_elem(text@),
            ),
            final(self).tree.cursor() == old(self).tree.cursor(),
            final(self).next_text_as_arg == old(self).next_text_as_arg,
            final(self).ignore_tags == old(self).ignore_tags,
            final(self).state() == push_text_spec(old(self).state(), text@),
    {
        let mut e = ASTElement::new(GroupType::Text);
        e.add_text(text);
        self.tree.open_child(e);
        self.tree.close_current();
    }

    /// Adds a void element at the cursor.
    fn push_void(&mut self, ele_type: GroupType)
        requires
            old(self).wf(),
        ensures
            final(self).wf(),
            final(self).state() == push_void_spec(old(self).state(), ele_type),
    {
        let mut e = ASTElement::new(ele_type);
        e.set_void(true);
        self.tree.open_child(e);
        self.tree.close_current();
    }

    /// Adds a void element for a tag that failed validation.
    fn push_broken_void(&mut self, ele_type: GroupType, reason: String)
        requires
            old(self).wf(),
        ensures
            final(self).wf(),
            final(self).state() == push_broken_void_spec(old(self).state(), ele_type, reason@),
    {
        let mut e = ASTElement::new(ele_type);
        e.set_void(true);
        e.mark_broken(reason);
        self.tree.open_child(e);
        self.tree.close_current();
    }

    /// Sets the argument of the element at the cursor.
    fn set_cursor_arg(&mut self, arg: &String, void: bool)
        requires
            old(self).wf(),
        ensures
            final(self).wf(),
            final(self).ugly == old(self).ugly,
            final(self).tree.cursor() == old(self).tree.cursor(),
            final(self).tree.slots() == old(self).tree.slots().update(
                old(self).tree.cursor() as int,
                Slot {
                    elem: ElemV {
                        arg: Some(arg@),
                        void: void || old(self).tree.at_cursor().void,
                        ..old(self).tree.at_cursor()
                    },
                    ..old(self).tree.slots()[old(self).tree.cursor() as int]
                },
            ),
            final(self).state() == set_arg_spec(old(self).state(), arg@, void),
    {
        let mut e = self.tree.cursor_elem();
        e.set_arg(arg);
        if void {
            e.set_void(true);
        }
        self.tree.set_cursor_elem(e);
    }

    /// Marks the element at the cursor as a tag that failed validation.
    fn break_cursor(&mut self, reason: String)
        requires
            old(self).wf(),
        ensures
            final(self).wf(),
            final(self).ugly == old(self).ugly,
            final(self).tree.cursor() == old(self).tree.cursor(),
            final(self).tree.slots() == old(self).tree.slots().update(
                old(self).tree.cursor() as int,
                Slot {
                    elem: ElemV { broken: true, arg: Some(reason@), ..old(self).tree.at_cursor() },
                    ..old(self).tree.slots()[old(self).tree.cursor() as int]
                },
            ),
            final(self).state() == break_spec(old(self).state(), reason@),
    {
        let mut e = self.tree.cursor_elem();
        e.mark_broken(reason);
        self.tree.set_cursor_elem(e);
    }

    /// Leaves the element at the cursor for its parent: trailing line breaks are
    /// dropped, and the element itself is dropped when it is empty and detachable.
    /// The result says whether there was a parent.
    fn ascend_pruning(&mut self) -> (r: bool)
        requires
            old(self).wf(),
        ensures
            final(self).wf(),
            final(self).ugly == old(self).ugly,
            r ==> final(self).tree.cursor() < old(self).tree.cursor(),
            !r ==> final(self).tree.cursor() == old(self).tree.cursor(),
            r == old(self).tree.slots()[old(self).tree.cursor() as int].parent is Some,
            r && !ends_in_break(old(self).tree.slots(), old(self).tree.cursor()) && !prunable(
                old(self).tree.slots(),
                old(self).tree.cursor(),
            ) ==> final(self).tree.slots() == old(self).tree.slots(),
            r && prunable(old(self).tree.slots(), old(self).tree.cursor())
                ==> final(self).tree.slots() == detached_last(
                old(self).tree.slots(),
                final(self).tree.cursor(),
            ),
            r ==> final(self).tree.cursor() == old(self).tree.slots()[old(
                self,
            ).tree.cursor() as int].parent->0,
            !r ==> final(self).tree.slots()[final(self).tree.cursor() as int].parent is None,
            (final(self).state(), r) == ascend_spec(old(self).state()),
    {
        loop
            invariant
                self.wf(),
                self.ugly == old(self).ugly,
                self.next_text_as_arg == old(self).next_text_as_arg,
                self.ignore_tags == old(self).ignore_tags,
                self.ignore_formatting == old(self).ignore_formatting,
                trim_breaks(self.tree.slots(), self.tree.cursor()) == trim_breaks(
                    old(self).tree.slots(),
                    old(self).tree.cursor(),
                ),
                self.tree.cursor() == old(self).tree.cursor(),
                !ends_in_break(old(self).tree.slots(), old(self).tree.cursor())
                    ==> self.tree.slots() == old(self).tree.slots(),
                self.tree.slots()[self.tree.cursor() as int].parent == old(self).tree.slots()[old(
                    self,
                ).tree.cursor() as int].parent,
            ensures
                self.wf(),
                self.ugly == old(self).ugly,
                self.next_text_as_arg == old(self).next_text_as_arg,
                self.ignore_tags == old(self).ignore_tags,
                self.ignore_formatting == old(self).ignore_formatting,
                trim_breaks(self.tree.slots(), self.tree.cursor()) == trim_breaks(
                    old(self).tree.slots(),
                    old(self).tree.cursor(),
                ),
                self.tree.cursor() == old(self).tree.cursor(),
                !ends_in_break(old(self).tree.slots(), old(self).tree.cursor())
                    ==> self.tree.slots() == old(self).tree.slots(),
                self.tree.slots()[self.tree.cursor() as int].parent == old(self).tree.slots()[old(
                    self,
                ).tree.cursor() as int].parent,
                !ends_in_break(self.tree.slots(), self.tree.cursor()),
            decreases self.tree.slots()[self.tree.cursor() as int].children.len(),
        {
            let ghost s0 = self.tree.slots();
            let ghost c0 = self.tree.cursor();
            match self.tree.last_child_elem() {
                Some(last) => {
                    if *last.ele_type() == GroupType::Br && !last.is_broken() {
                        proof {
                            assert(s0[c0 as int].children[s0[c0 as int].children.len() - 1]
                                == s0[c0 as int].children.last());
                        }
                        self.tree.drop_last_child();
                    } else {
                        break ;
                    }
                },
                None => {
                    break ;
                },
            }
        }
        proof {
            assert(trim_breaks(self.tree.slots(), self.tree.cursor()) == self.tree.slots());
        }
        let e = self.tree.cursor_elem();
        let empty = self.tree.last_child_elem().is_none() && !e.has_text() && !e.is_void()
            && e.is_detachable();
        let ghost s = self.tree.slots();
        let ghost c = self.tree.cursor();
        let up = self.tree.close_current();
        if up {
            proof {
                lemma_cursor_is_last(s, c);
            }
            if empty {
                self.tree.drop_last_child();
            }
        }
        up
    }

    /// Moves the cursor up to the parent of the nearest element of kind
    /// `ele_type`, opening again the inline elements it passed on the way.
    /// The search stops at the enclosing paragraph or document. Every element
    /// left loses its trailing line breaks, and is dropped when it is then empty
    /// and detachable (see `end_group_spec`).
    fn end_group(&mut self, ele_type: GroupType)
        requires
            old(self).wf(),
        ensures
            final(self).wf(),
            final(self).ugly == old(self).ugly,
            ({
                let s = old(self).tree.slots();
                let c = old(self).tree.cursor();
                s[c as int].elem.kind == ele_type && s[c as int].parent is Some ==> {
                    &&& final(self).tree.cursor() == s[c as int].parent->0
                    &&& !ends_in_break(s, c) && !prunable(s, c) ==> final(self).tree.slots() == s
                    &&& prunable(s, c) ==> final(self).tree.slots() == detached_last(
                        s,
                        s[c as int].parent->0,
                    )
                }
            }),
            is_boundary(old(self).tree.at_cursor().kind, ele_type) ==> final(self).tree == old(
                self,
            ).tree,
            is_carried(old(self).tree.at_cursor(), ele_type) ==> final(self).tree.at_cursor() == (
            ElemV { text: None, void: false, ..old(self).tree.at_cursor() }),
            final(self).state() == end_group_spec(old(self).state(), ele_type),
    {
        let e = self.tree.cursor_elem();
        if *e.ele_type() == ele_type {
            self.ascend_pruning();
            return;
        }
        let mut group_stack: Vec<ASTElement> = Vec::new();
        let ghost start = old(self).tree.at_cursor();
        let ghost carried = ElemV { text: None, void: false, ..start };
        let ghost mut moved = false;
        let ghost target = climb(old(self).state(), ele_type, seq![]);
        let ghost mut stk: Seq<ElemV> = seq![];
        loop
            invariant_except_break
                climb(self.state(), ele_type, stk) == target,
            invariant
                self.wf(),
                self.ugly == old(self).ugly,
                self.next_text_as_arg == old(self).next_text_as_arg,
                self.ignore_tags == old(self).ignore_tags,
                self.ignore_formatting == old(self).ignore_formatting,
                target == climb(old(self).state(), ele_type, seq![]),
                stk.len() == group_stack@.len(),
                forall|k: int| 0 <= k < stk.len() ==> (#[trigger] group_stack@[k])@ == stk[k],
                start == old(self).tree.at_cursor(),
                carried == (ElemV { text: None, void: false, ..start }),
                start.kind != ele_type,
                !moved ==> self.tree == old(self).tree && group_stack@.len() == 0,
                moved && is_carried(start, ele_type) ==> group_stack@.len() > 0
                    && group_stack@[0]@ == carried,
                is_boundary(start.kind, ele_type) ==> !moved,
            ensures
                self.wf(),
                self.ugly == old(self).ugly,
                self.next_text_as_arg == old(self).next_text_as_arg,
                self.ignore_tags == old(self).ignore_tags,
                self.ignore_formatting == old(self).ignore_formatting,
                (self.state(), stk) == climb(old(self).state(), ele_type, seq![]),
                stk.len() == group_stack@.len(),
                forall|k: int| 0 <= k < stk.len() ==> (#[trigger] group_stack@[k])@ == stk[k],
                is_boundary(start.kind, ele_type) ==> self.tree == old(self).tree
                    && group_stack@.len() == 0,
                is_carried(start, ele_type) ==> group_stack@.len() > 0 && group_stack@[0]@
                    == carried,
            decreases self.tree.cursor(),
        {
            let e = self.tree.cursor_elem();
            proof {
                if !moved {
                    assert(self.tree.at_cursor() == start);
                    assert(e@ == start);
                }
            }
            let my_type = *e.ele_type();
            if my_type == GroupType::Paragraph && ele_type != GroupType::Paragraph {
                break ;
            }
            if my_type == GroupType::Document && ele_type != GroupType::Document {
                break ;
            }
            let found = my_type == ele_type;
            if !found && !e.is_void() {
                let r = e.reopened();
                let ghost before = group_stack@;
                group_stack.push(r);
                proof {
                    if before.len() > 0 {
                        assert(group_stack@[0] == before[0]);
                    }
                    stk = stk.push(reopen(e@));
                    assert forall|k: int| 0 <= k < stk.len() implies (#[trigger] group_stack@[k])@
                        == stk[k] by {
                        if k < before.len() {
                            assert(group_stack@[k] == before[k]);
                        }
                    }
                }
            }
            proof {
                moved = true;
            }
            if !self.ascend_pruning() {
                break ;
            }
            if found {
                break ;
            }
        }
        let ghost climbed = self.state();
        while group_stack.len() > 0
            invariant
                self.wf(),
                self.ugly == old(self).ugly,
                replay(self.state(), stk) == end_group_spec(old(self).state(), ele_type),
                stk.len() == group_stack@.len(),
                forall|k: int| 0 <= k < stk.len() ==> (#[trigger] group_stack@[k])@ == stk[k],
                is_carried(start, ele_type) ==> (group_stack@.len() > 0 ==> group_stack@[0]@
                    == carried) && (group_stack@.len() == 0 ==> self.tree.at_cursor() == carried),
                is_boundary(start.kind, ele_type) ==> self.tree == old(self).tree
                    && group_stack@.len() == 0,
            decreases group_stack.len(),
        {
            let ghost before = group_stack@;
            match group_stack.pop() {
                Some(e) => {
                    proof {
                        assert(e@ == stk.last());
                        stk = stk.drop_last();
                        assert forall|k: int| 0 <= k < stk.len() implies (
                        #[trigger] group_stack@[k])@ == stk[k] by {
                            assert(group_stack@[k] == before[k]);
                        }
                    }
                    self.tree.open_child(e);
                },
                None => {},
            }
        }
    }

    /// Where the nearest element of kind `ele_type` stands, looking up from the
    /// cursor to the document.
    fn scope_of(&self, ele_type: GroupType) -> (r: Scope)
        requires
            self.wf(),
        ensures
            r == nearest_scope(path_elems(self.tree.slots(), self.tree.cursor()), ele_type),
    {
        let anc = self.tree.ancestor_elems();
        let ghost es = path_elems(self.tree.slots(), self.tree.cursor());
        proof {
            assert(es.skip(0) =~= es);
        }
        let mut i: usize = 0;
        while i < anc.len()
            invariant
                es == path_elems(self.tree.slots(), self.tree.cursor()),
                anc@.len() == es.len(),
                forall|k: int| 0 <= k < anc@.len() ==> (#[trigger] anc@[k])@ == es[k],
                i <= anc@.len(),
                nearest_scope(es.skip(i as int), ele_type) == nearest_scope(es, ele_type),
            decreases anc.len() - i,
        {
            proof {
                assert(es.skip(i as int)[0] == es[i as int]);
                assert(es.skip(i as int).drop_first() =~= es.skip(i + 1));
            }
            let k = *anc[i].ele_type();
            if k == ele_type {
                if anc[i].is_broken() {
                    return Scope::Broken;
                } else {
                    return Scope::Open;
                }
            }
            if k == GroupType::Document {
                return Scope::Absent;
            }
            i = i + 1;
        }
        proof {
            assert(es.skip(i as int) =~= Seq::<ElemV>::empty());
        }
        Scope::Absent
    }

    /// Whether the cursor stands in a paragraph, possibly inside inline elements.
    fn in_paragraph(&self) -> (r: bool)
        requires
            self.wf(),
        ensures
            r == within_paragraph(path_elems(self.tree.slots(), self.tree.cursor())),
    {
        let anc = self.tree.ancestor_elems();
        let ghost es = path_elems(self.tree.slots(), self.tree.cursor());
        proof {
            assert(es.skip(0) =~= es);
        }
        let mut i: usize = 0;
        while i < anc.len()
            invariant
                es == path_elems(self.tree.slots(), self.tree.cursor()),
                anc@.len() == es.len(),
                forall|k: int| 0 <= k < anc@.len() ==> (#[trigger] anc@[k])@ == es[k],
                i <= anc@.len(),
                within_paragraph(es.skip(i as int)) == within_paragraph(es),
            decreases anc.len() - i,
        {
            proof {
                assert(es.skip(i as int)[0] == es[i as int]);
                assert(es.skip(i as int).drop_first() =~= es.skip(i + 1));
            }
            let k = *anc[i].ele_type();
            if !inline_kind(k) && !anc[i].is_broken() {
                return k == GroupType::Paragraph;
            }
            i = i + 1;
        }
        proof {
            assert(es.skip(i as int) =~= Seq::<ElemV>::empty());
        }
        false
    }

    /// Closes the paragraph around the cursor, if there is one, before a block opens.
    fn close_paragraph(&mut self)
        requires
            old(self).wf(),
        ensures
            final(self).wf(),
            final(self).ugly == old(self).ugly,
            final(self).state() == close_paragraph_spec(old(self).state()),
    {
        if self.in_paragraph() {
            self.end_group(GroupType::Paragraph);
        }
    }

    /// Moves the cursor up until it stands at an open element of kind `ele_type`,
    /// closing everything inside it.
    fn close_into(&mut self, ele_type: GroupType)
        requires
            old(self).wf(),
        ensures
            final(self).wf(),
            final(self).ugly == old(self).ugly,
            (final(self).tree.at_cursor().kind == ele_type && !final(self).tree.at_cursor().broken)
                || final(self).tree.at_cursor().kind == GroupType::Document || final(self).tree.slots()[final(self).tree.cursor() as int].parent is None,
            final(self).state() == close_into_spec(old(self).state(), ele_type),
    {
        loop
            invariant_except_break
                close_into_spec(self.state(), ele_type) == close_into_spec(old(self).state(), ele_type),
            invariant
                self.wf(),
                self.ugly == old(self).ugly,
            ensures
                self.wf(),
                self.ugly == old(self).ugly,
                self.state() == close_into_spec(old(self).state(), ele_type),
                (self.tree.at_cursor().kind == ele_type && !self.tree.at_cursor().broken)
                    || self.tree.at_cursor().kind == GroupType::Document
                    || self.tree.slots()[self.tree.cursor() as int].parent is None,
            decreases self.tree.cursor(),
        {
            let e = self.tree.cursor_elem();
            let k = *e.ele_type();
            if (k == ele_type && !e.is_broken()) || k == GroupType::Document {
                break ;
            }
            if !self.ascend_pruning() {
                break ;
            }
        }
    }

    /// Closes the nearest open element of kind `ele_type` and everything inside it.
    fn close_through(&mut self, ele_type: GroupType)
        requires
            old(self).wf(),
        ensures
            final(self).wf(),
            final(self).ugly == old(self).ugly,
            final(self).state() == close_through_spec(old(self).state(), ele_type),
    {
        self.close_into(ele_type);
        let e = self.tree.cursor_elem();
        if *e.ele_type() == ele_type {
            self.ascend_pruning();
        }
    }

    /// Closes a block element: the whole block when it is open, only the tag
    /// when it was broken, nothing when it is not there. A paragraph is opened
    /// after a closed block when `reopen` is set.
    fn close_block(&mut self, ele_type: GroupType, reopen: bool)
        requires
            old(self).wf(),
        ensures
            final(self).wf(),
            nearest_scope(path_elems(old(self).tree.slots(), old(self).tree.cursor()), ele_type)
                == Scope::Absent ==> *final(self) == *old(self),
            final(self).state() == close_block_spec(old(self).state(), ele_type, reopen),
    {
        match self.scope_of(ele_type) {
            Scope::Open => {
                self.close_through(ele_type);
                if reopen {
                    self.new_group(GroupType::Paragraph);
                }
            },
            Scope::Broken => self.end_group(ele_type),
            Scope::Absent => {},
        }
    }

    /// Opens a block element after closing the paragraph around the cursor; a
    /// paragraph is opened inside it when `with_paragraph` is set.
    fn open_block(&mut self, ele_type: GroupType, arg: Option<&String>, with_paragraph: bool)
        requires
            old(self).wf(),
        ensures
            final(self).wf(),
            with_paragraph ==> final(self).tree.at_cursor().kind == GroupType::Paragraph,
            !with_paragraph ==> final(self).tree.at_cursor().kind == ele_type && !final(self).tree.at_cursor().broken && match arg {
                Some(a) => final(self).tree.at_cursor().arg == Some(a@),
                None => final(self).tree.at_cursor().arg is None,
            },
            final(self).state() == open_block_spec(
                old(self).state(),
                ele_type,
                match arg {
                    Some(a) => Some(a@),
                    None => None,
                },
                with_paragraph,
            ),
    {
        self.close_paragraph();
        self.new_group(ele_type);
        match arg {
            Some(a) => self.set_cursor_arg(a, false),
            None => {},
        }
        if with_paragraph {
            self.new_group(GroupType::Paragraph);
        }
    }

    /// Uses the text that follows a bare `[url]`, `[email]`, `[img]` or `[embed]`
    /// as the tag's argument.
    fn take_arg(&mut self, pending: PendingArg, text: &String)
        requires
            old(self).wf(),
        ensures
            final(self).wf(),
            ({
                let c = old(self).tree.cursor() as int;
                let e = final(self).tree.slots()[c].elem;
                &&& e.kind == old(self).tree.at_cursor().kind
                &&& pending == PendingArg::Url ==> match link_target(text@) {
                    Some(href) => e.arg == Some(href) && e.broken == old(self).tree.at_cursor().broken,
                    None => e.broken && e.arg == Some("url"@),
                }
                &&& pending == PendingArg::Image ==> match image_source(text@) {
                    Some(src) => e.arg == Some(src) && e.void && e.broken == old(
                        self,
                    ).tree.at_cursor().broken,
                    None => e.broken && e.arg == Some("img"@),
                }
            }),
            final(self).state() == take_arg_spec(old(self).state(), pending, text@),
    {
        let t = chars_of(text.as_str());
        let ghost c = self.tree.cursor() as int;
        match pending {
            PendingArg::Url => match url_target(&t) {
                Some(href) => {
                    self.set_cursor_arg(&href, false);
                    let ghost e = self.tree.slots()[c].elem;
                    self.push_text(text);
                    assert(self.tree.slots()[c].elem == e);
                },
                None => {
                    self.break_cursor(bare_reason("url"));
                    let ghost e = self.tree.slots()[c].elem;
                    if self.ugly {
                        self.push_text(text);
                    }
                    assert(self.tree.slots()[c].elem == e);
                },
            },
            PendingArg::Email => {
                self.set_cursor_arg(text, false);
                self.push_text(text);
            },
            PendingArg::Image => match image_target(&t) {
                Some(src) => self.set_cursor_arg(&src, true),
                None => {
                    self.break_cursor(bare_reason("img"));
                    let ghost e = self.tree.slots()[c].elem;
                    if self.ugly {
                        self.push_text(text);
                    }
                    assert(self.tree.slots()[c].elem == e);
                },
            },
            PendingArg::Embed => self.set_cursor_arg(text, true),
        }
    }

    /// A bare `[url]`, `[email]`, `[img]` or `[embed]` not followed by text is broken.
    fn abandon_arg(&mut self, pending: PendingArg)
        requires
            old(self).wf(),
        ensures
            final(self).wf(),
            final(self).state() == break_spec(old(self).state(), pending_name(pending)),
    {
        let reason = match pending {
            PendingArg::Url => bare_reason("url"),
            PendingArg::Email => bare_reason("email"),
            PendingArg::Image => bare_reason("img"),
            PendingArg::Embed => bare_reason("embed"),
        };
        self.break_cursor(reason);
    }

    /// Parses tag Instructions: known tags act on the tree, unknown ones are
    /// kept as text.
    fn parse_tag(&mut self, tag: &String, args: &Option<String>)
        requires
            old(self).wf(),
        ensures
            final(self).wf(),
            !is_known_tag(tag@, args is Some) ==> final(self).tree.slots() == appended(
                old(self).tree.slots(),
                old(self).tree.cursor(),
                text_elem(tag_literal(tag@, crate::opt_view(*args))),
            ) && final(self).tree.cursor() == old(self).tree.cursor()
                && final(self).next_text_as_arg == old(self).next_text_as_arg
                && final(self).ignore_tags == old(self).ignore_tags,
            final(self).state() == parse_tag_spec(old(self).state(), tag@, crate::opt_view(*args)),
    {
        let n = chars_of(tag.as_str());
        let known = match args {
            Some(a) => self.one_arg_tag(&n, tag, a),
            None => self.no_arg_tag(&n, tag),
        };
        if !known {
            let literal = tag_text(tag, args);
            self.push_text(&literal);
        }
    }

    /// Inline formatting: the kind opened by `[name]`, or closed by `[/name]`.
    fn inline_kind_of(n: &Vec<char>) -> (r: Option<(GroupType, bool)>)
        ensures
            r == inline_kind_spec(n@),
            r is Some ==> is_inline_tag_name(n@),
    {
        if is_word(n, "b") {
            Some((GroupType::Bold, true))
        } else if is_word(n, "/b") {
            Some((GroupType::Bold, false))
        } else if is_word(n, "i") {
            Some((GroupType::Italic, true))
        } else if is_word(n, "/i") {
            Some((GroupType::Italic, false))
        } else if is_word(n, "s") {
            Some((GroupType::Strikethrough, true))
        } else if is_word(n, "/s") {
            Some((GroupType::Strikethrough, false))
        } else if is_word(n, "strong") {
            Some((GroupType::Strong, true))
        } else if is_word(n, "/strong") {
            Some((GroupType::Strong, false))
        } else if is_word(n, "em") {
            Some((GroupType::Emphasis, true))
        } else if is_word(n, "/em") {
            Some((GroupType::Emphasis, false))
        } else if is_word(n, "u") {
            Some((GroupType::Underline, true))
        } else if is_word(n, "/u") {
            Some((GroupType::Underline, false))
        } else if is_word(n, "smcaps") {
            Some((GroupType::Smallcaps, true))
        } else if is_word(n, "/smcaps") {
            Some((GroupType::Smallcaps, false))
        } else if is_word(n, "mono") {
            Some((GroupType::Monospace, true))
        } else if is_word(n, "/mono") {
            Some((GroupType::Monospace, false))
        } else if is_word(n, "sub") {
            Some((GroupType::Subscript, true))
        } else if is_word(n, "/sub") {
            Some((GroupType::Subscript, false))
        } else if is_word(n, "sup") {
            Some((GroupType::Superscript, true))
        } else if is_word(n, "/sup") {
            Some((GroupType::Superscript, false))
        } else if is_word(n, "spoiler") {
            Some((GroupType::Spoiler, true))
        } else if is_word(n, "/spoiler") {
            Some((GroupType::Spoiler, false))
        } else if is_word(n, "math") {
            Some((GroupType::Math, true))
        } else if is_word(n, "/math") {
            Some((GroupType::Math, false))
        } else if is_word(n, "footnote") {
            Some((GroupType::Footnote, true))
        } else if is_word(n, "/footnote") {
            Some((GroupType::Footnote, false))
        } else if is_word(n, "/color") || is_word(n, "/colour") {
            Some((GroupType::Colour, false))
        } else if is_word(n, "/opacity") {
            Some((GroupType::Opacity, false))
        } else if is_word(n, "/size") {
            Some((GroupType::Size, false))
        } else if is_word(n, "/url") {
            Some((GroupType::Url, false))
        } else if is_word(n, "/email") {
            Some((GroupType::Email, false))
        } else if is_word(n, "/img") {
            Some((GroupType::Image, false))
        } else {
            None
        }
    }

    /// Block elements: the kind of `[name]` or `[/name]`, whether a paragraph
    /// goes inside it, and whether one follows it.
    fn block_kind_of(n: &Vec<char>) -> (r: Option<(GroupType, bool, bool)>)
        ensures
            r == block_kind_spec(n@),
            r is Some ==> is_block_tag_name(n@),
    {
        if is_word(n, "center") || is_word(n, "/center") {
            Some((GroupType::Center, true, true))
        } else if is_word(n, "right") || is_word(n, "/right") {
            Some((GroupType::Right, true, true))
        } else if is_word(n, "quote") || is_word(n, "/quote") {
            Some((GroupType::Quote, true, true))
        } else if is_word(n, "indent") || is_word(n, "/indent") {
            Some((GroupType::Indent, true, true))
        } else if is_word(n, "/figure") {
            Some((GroupType::Figure, true, true))
        } else if is_word(n, "mathblock") || is_word(n, "/mathblock") {
            Some((GroupType::MathBlock, false, true))
        } else if is_word(n, "pre") || is_word(n, "/pre") {
            Some((GroupType::Pre, false, true))
        } else if is_word(n, "/codeblock") {
            Some((GroupType::CodeBlock, false, true))
        } else if is_word(n, "/embed") {
            Some((GroupType::Embed, false, true))
        } else if is_word(n, "list") || is_word(n, "/list") {
            Some((GroupType::List, false, true))
        } else if is_word(n, "table") || is_word(n, "/table") {
            Some((GroupType::Table, false, true))
        } else if is_word(n, "/tr") {
            Some((GroupType::TableRow, false, false))
        } else if is_word(n, "/td") {
            Some((GroupType::TableData, true, false))
        } else if is_word(n, "/th") {
            Some((GroupType::TableHeader, true, false))
        } else if is_word(n, "/caption") {
            Some((GroupType::TableCaption, true, false))
        } else {
            None
        }
    }

    /// A header tag `h1` to `h6` (or its close): the level, and whether it opens.
    fn header_of(n: &Vec<char>) -> (r: Option<(char, bool)>)
        ensures
            r == header_spec(n@),
            r is Some ==> is_header_tag_name(n@),
    {
        if n.len() == 2 && n[0] == 'h' && '1' <= n[1] && n[1] <= '6' {
            Some((n[1], true))
        } else if n.len() == 3 && n[0] == '/' && n[1] == 'h' && '1' <= n[2] && n[2] <= '6' {
            Some((n[2], false))
        } else {
            None
        }
    }

    /// Handles a tag without an argument; the result says whether it was known.
    fn no_arg_tag(&mut self, n: &Vec<char>, tag: &String) -> (r: bool)
        requires
            old(self).wf(),
            n@ == tag@,
        ensures
            final(self).wf(),
            !is_known_tag(n@, false) ==> !r && *final(self) == *old(self),
            match bare_tag_spec(old(self).state(), n@) {
                Some(s) => r && final(self).state() == s,
                None => !r && *final(self) == *old(self),
            },
    {
        let closing = n.len() > 0 && n[0] == '/';
        if let Some((kind, opens)) = Self::inline_kind_of(n) {
            if opens {
                self.new_group(kind);
            } else {
                self.end_group(kind);
            }
            return true;
        }
        if let Some((kind, inner, after)) = Self::block_kind_of(n) {
            if closing {
                self.close_block(kind, after);
                if kind == GroupType::Pre || kind == GroupType::CodeBlock {
                    self.ignore_formatting = false;
                    self.ignore_tags = None;
                }
            } else if kind == GroupType::Indent {
                let depth = char_string('1');
                self.open_block(kind, Some(&depth), inner);
            } else {
                self.open_block(kind, None, inner);
                if kind == GroupType::Pre {
                    self.ignore_formatting = true;
                }
            }
            return true;
        }
        if let Some((level, opens)) = Self::header_of(n) {
            if opens {
                let l = char_string(level);
                self.open_block(GroupType::Header, Some(&l), false);
            } else {
                self.close_block(GroupType::Header, true);
            }
            return true;
        }
        if is_word(n, "code") {
            self.new_group(GroupType::Code);
            self.ignore_tags = Some(GroupType::Code);
        } else if is_word(n, "/code") {
            self.end_group(GroupType::Code);
            self.ignore_tags = None;
        } else if is_word(n, "codeblock") {
            self.open_block(GroupType::CodeBlock, None, false);
            self.ignore_tags = Some(GroupType::CodeBlock);
            self.ignore_formatting = true;
        } else if is_word(n, "hr") {
            self.close_paragraph();
            self.push_void(GroupType::Hr);
            self.new_group(GroupType::Paragraph);
        } else if is_word(n, "url") {
            self.new_group(GroupType::Url);
            self.next_text_as_arg = Some(PendingArg::Url);
        } else if is_word(n, "email") {
            self.new_group(GroupType::Email);
            self.next_text_as_arg = Some(PendingArg::Email);
        } else if is_word(n, "img") {
            self.new_group(GroupType::Image);
            self.next_text_as_arg = Some(PendingArg::Image);
        } else if is_word(n, "embed") {
            self.open_block(GroupType::Embed, None, false);
            self.next_text_as_arg = Some(PendingArg::Embed);
        } else if is_word(n, "color") || is_word(n, "colour") {
            self.new_broken_group(GroupType::Colour, tag.clone());
        } else if is_word(n, "opacity") {
            self.new_broken_group(GroupType::Opacity, tag.clone());
        } else if is_word(n, "size") {
            self.new_broken_group(GroupType::Size, tag.clone());
        } else if is_word(n, "figure") {
            self.new_broken_group(GroupType::Figure, tag.clone());
        } else if is_word(n, "*") {
            match self.scope_of(GroupType::List) {
                Scope::Open => {
                    self.close_into(GroupType::List);
                    self.new_group(GroupType::ListItem);
                    self.new_group(GroupType::Paragraph);
                },
                _ => self.push_broken_void(GroupType::ListItem, tag.clone()),
            }
        } else if is_word(n, "tr") {
            match self.scope_of(GroupType::Table) {
                Scope::Open => {
                    self.close_into(GroupType::Table);
                    self.new_group(GroupType::TableRow);
                },
                _ => self.new_broken_group(GroupType::TableRow, tag.clone()),
            }
        } else if is_word(n, "caption") {
            match self.scope_of(GroupType::Table) {
                Scope::Open => {
                    self.close_into(GroupType::Table);
                    self.new_group(GroupType::TableCaption);
                    self.new_group(GroupType::Paragraph);
                },
                _ => self.new_broken_group(GroupType::TableCaption, tag.clone()),
            }
        } else if is_word(n, "td") || is_word(n, "th") {
            let kind = if is_word(n, "td") {
                GroupType::TableData
            } else {
                GroupType::TableHeader
            };
            match self.scope_of(GroupType::TableRow) {
                Scope::Open => {
                    self.close_into(GroupType::TableRow);
                    self.new_group(kind);
                    self.new_group(GroupType::Paragraph);
                },
                _ => self.new_broken_group(kind, tag.clone()),
            }
        } else {
            return false;
        }
        true
    }

    /// Handles a tag with an argument; the result says whether it was known.
    fn one_arg_tag(&mut self, n: &Vec<char>, tag: &String, arg: &String) -> (r: bool)
        requires
            old(self).wf(),
            n@ == tag@,
        ensures
            final(self).wf(),
            !is_known_tag(n@, true) ==> !r && *final(self) == *old(self),
            (n@ == "color"@ || n@ == "colour"@) ==> final(self).tree.at_cursor().kind
                == GroupType::Colour && if valid_colour(arg@) {
                !final(self).tree.at_cursor().broken && final(self).tree.at_cursor().arg == Some(
                    arg@,
                )
            } else {
                final(self).tree.at_cursor().broken && final(self).tree.at_cursor().arg == Some(
                    n@ + seq!['='] + arg@,
                )
            },
            n@ == "url"@ ==> final(self).tree.at_cursor().kind == GroupType::Url && match link_target(
                arg@,
            ) {
                Some(href) => !final(self).tree.at_cursor().broken && final(self).tree.at_cursor().arg
                    == Some(href),
                None => final(self).tree.at_cursor().broken && final(self).tree.at_cursor().arg
                    == Some(n@ + seq!['='] + arg@),
            },
            n@ == "opacity"@ ==> final(self).tree.at_cursor().kind == GroupType::Opacity
                && match opacity_value(arg@) {
                Some(v) => !final(self).tree.at_cursor().broken && final(self).tree.at_cursor().arg
                    == Some(v),
                None => final(self).tree.at_cursor().broken && final(self).tree.at_cursor().arg
                    == Some(n@ + seq!['='] + arg@),
            },
            n@ == "size"@ ==> final(self).tree.at_cursor().kind == GroupType::Size && match size_value(
                arg@,
            ) {
                Some(v) => !final(self).tree.at_cursor().broken && final(self).tree.at_cursor().arg
                    == Some(v),
                None => final(self).tree.at_cursor().broken && final(self).tree.at_cursor().arg
                    == Some(n@ + seq!['='] + arg@),
            },
            match arg_tag_spec(old(self).state(), n@, arg@) {
                Some(s) => r && final(self).state() == s,
                None => !r && *final(self) == *old(self),
            },
    {
        proof {
            reveal_strlit("color");
            reveal_strlit("colour");
            reveal_strlit("url");
            reveal_strlit("email");
            reveal_strlit("opacity");
            reveal_strlit("size");
            assert("color"@.len() == 5 && "colour"@.len() == 6 && "url"@.len() == 3 && "email"@.len()
                == 5 && "opacity"@.len() == 7 && "size"@.len() == 4);
            assert("color"@[0] == 'c' && "email"@[0] == 'e');
        }
        let a = chars_of(arg.as_str());
        if is_word(n, "color") || is_word(n, "colour") {
            if is_valid_colour(&a) {
                self.new_group(GroupType::Colour);
                self.set_cursor_arg(arg, false);
            } else {
                self.new_broken_group(GroupType::Colour, arg_reason(tag, arg));
            }
        } else if is_word(n, "url") {
            match url_target(&a) {
                Some(href) => {
                    self.new_group(GroupType::Url);
                    self.set_cursor_arg(&href, false);
                },
                None => self.new_broken_group(GroupType::Url, arg_reason(tag, arg)),
            }
        } else if is_word(n, "email") {
            self.new_group(GroupType::Email);
            self.set_cursor_arg(arg, false);
        } else if is_word(n, "opacity") {
            match opacity_arg(&a) {
                Some(v) => {
                    self.new_group(GroupType::Opacity);
                    self.set_cursor_arg(&v, false);
                },
                None => self.new_broken_group(GroupType::Opacity, arg_reason(tag, arg)),
            }
        } else if is_word(n, "size") {
            match size_arg(&a) {
                Some(v) => {
                    self.new_group(GroupType::Size);
                    self.set_cursor_arg(&v, false);
                },
                None => self.new_broken_group(GroupType::Size, arg_reason(tag, arg)),
            }
        } else if is_word(n, "quote") {
            self.open_block(GroupType::Quote, Some(arg), true);
        } else if is_word(n, "footnote") {
            self.new_group(GroupType::Footnote);
            self.set_cursor_arg(arg, false);
        } else if is_word(n, "codeblock") {
            self.open_block(GroupType::CodeBlock, Some(arg), false);
            self.ignore_tags = Some(GroupType::CodeBlock);
            self.ignore_formatting = true;
        } else if is_word(n, "figure") {
            if is_valid_figure_side(&a) {
                self.open_block(GroupType::Figure, Some(arg), true);
            } else {
                self.new_broken_group(GroupType::Figure, arg_reason(tag, arg));
            }
        } else if is_word(n, "indent") {
            if is_valid_indent(&a) {
                self.open_block(GroupType::Indent, Some(arg), true);
            } else {
                self.new_broken_group(GroupType::Indent, arg_reason(tag, arg));
            }
        } else if is_word(n, "list") {
            if is_ordered_list_style(&a) || is_bullet_list_style(&a) {
                self.open_block(GroupType::List, Some(arg), false);
            } else {
                self.new_broken_group(GroupType::List, arg_reason(tag, arg));
            }
        } else {
            return false;
        }
        true
    }
}

/// The reason recorded for a bare tag that failed: its name.
fn bare_reason(name: &str) -> (r: String)
    ensures
        r@ == name@,
{
    String::from_str(name)
}

/// The reason recorded for a tag with an argument that failed: `name=arg`.
fn arg_reason(name: &String, arg: &String) -> (r: String)
    ensures
        r@ == name@ + seq!['='] + arg@,
{
    let mut r = name.clone();
    r.push('=');
    r.append(arg.as_str());
    r
}

} // verus!
