//! The lexer as mathematics: its state, and what each instruction does to it.
//! The lexer's methods are proved to follow these functions exactly.
use vstd::prelude::*;
use crate::{ElemV, GroupType, InstrV};
use crate::args::{
    image_source, is_bullet_style, is_figure_side, is_indent_depth, is_ordered_style,
    link_target, opacity_value, size_value, valid_colour,
};
use crate::bbcode_lexer::{
    ends_in_break, is_boundary, nearest_scope, new_elem, opened_document, path_elems, prunable,
    raw_close_name, text_elem, within_paragraph, PendingArg, Scope,
};
use crate::bbcode_tokenizer::tag_literal;
use crate::tree::{
    appended, detached_last, lemma_ascend_wf, lemma_cursor_is_last, lemma_descend_wf,
    lemma_detached_wf, lemma_replaced_wf, lemma_appended_wf, tree_wf, Slot,
};

verus! {

/// The state of the lexer: the tree and its cursor, the tag waiting for its
/// argument, the raw mode (the element whose close tag alone is read as a tag),
/// whether line breaks are kept as text, and the output mode.
pub struct LexV {
    pub slots: Seq<Slot>,
    pub cursor: nat,
    pub pending: Option<PendingArg>,
    pub raw: Option<GroupType>,
    pub fmt: bool,
    pub ugly: bool,
}

/// The element at the cursor.
pub open spec fn cursor_of(st: LexV) -> ElemV {
    st.slots[st.cursor as int].elem
}

pub open spec fn with_tree(st: LexV, s: Seq<Slot>, c: nat) -> LexV {
    LexV { slots: s, cursor: c, ..st }
}

/// A new element of kind `k`; in ugly mode only paragraphs may be dropped when empty.
pub open spec fn group_elem(ugly: bool, k: GroupType) -> ElemV {
    ElemV { detachable: !(ugly && k != GroupType::Paragraph), ..new_elem(k) }
}

/// A new element of kind `k` for a tag that failed validation, written `[reason]`.
pub open spec fn broken_elem(ugly: bool, k: GroupType, reason: Seq<char>) -> ElemV {
    ElemV { detachable: !ugly, broken: true, arg: Some(reason), ..new_elem(k) }
}

/// `e` becomes the last child of the cursor, and the cursor moves into it.
pub open spec fn open_elem(st: LexV, e: ElemV) -> LexV {
    with_tree(st, appended(st.slots, st.cursor, e), st.slots.len())
}

/// `e` becomes the last child of the cursor, and the cursor stays.
pub open spec fn add_leaf(st: LexV, e: ElemV) -> LexV {
    with_tree(st, appended(st.slots, st.cursor, e), st.cursor)
}

pub open spec fn new_group_spec(st: LexV, k: GroupType) -> LexV {
    open_elem(st, group_elem(st.ugly, k))
}

pub open spec fn new_broken_spec(st: LexV, k: GroupType, reason: Seq<char>) -> LexV {
    open_elem(st, broken_elem(st.ugly, k, reason))
}

pub open spec fn push_text_spec(st: LexV, t: Seq<char>) -> LexV {
    add_leaf(st, text_elem(t))
}

pub open spec fn push_void_spec(st: LexV, k: GroupType) -> LexV {
    add_leaf(st, ElemV { void: true, ..new_elem(k) })
}

pub open spec fn push_broken_void_spec(st: LexV, k: GroupType, reason: Seq<char>) -> LexV {
    add_leaf(st, ElemV { void: true, broken: true, arg: Some(reason), ..new_elem(k) })
}

/// The element at the cursor is replaced by `e`.
pub open spec fn replace_cursor(st: LexV, e: ElemV) -> LexV {
    with_tree(
        st,
        st.slots.update(st.cursor as int, Slot { elem: e, ..st.slots[st.cursor as int] }),
        st.cursor,
    )
}

pub open spec fn set_arg_spec(st: LexV, a: Seq<char>, void: bool) -> LexV {
    replace_cursor(st, ElemV { arg: Some(a), void: void || cursor_of(st).void, ..cursor_of(st) })
}

pub open spec fn break_spec(st: LexV, reason: Seq<char>) -> LexV {
    replace_cursor(st, ElemV { broken: true, arg: Some(reason), ..cursor_of(st) })
}

/// The trailing line breaks of node `c` are detached.
pub open spec fn trim_breaks(s: Seq<Slot>, c: nat) -> Seq<Slot>
    decreases s[c as int].children.len(),
    via trim_breaks_decreases
{
    if c < s.len() && ends_in_break(s, c) && s[c as int].children.last() < s.len() {
        trim_breaks(detached_last(s, c), c)
    } else {
        s
    }
}

#[via_fn]
proof fn trim_breaks_decreases(s: Seq<Slot>, c: nat) {
    if c < s.len() && ends_in_break(s, c) && s[c as int].children.last() < s.len() {
        let x = s[c as int].children.last();
        let s1 = s.update(c as int, Slot { children: s[c as int].children.drop_last(), ..s[c as int] });
        assert(s1[c as int].children.len() < s[c as int].children.len());
        let d = s1.update(x as int, Slot { parent: None, ..s1[x as int] });
        assert(d == detached_last(s, c));
        if x == c {
            assert(d[c as int].children == s1[c as int].children);
        } else {
            assert(d[c as int] == s1[c as int]);
        }
    }
}

/// Leaving the element at the cursor: its trailing line breaks are dropped, and
/// the cursor moves to the parent, dropping the element if it is empty and
/// detachable. The flag says whether there was a parent.
pub open spec fn ascend_spec(st: LexV) -> (LexV, bool) {
    let s1 = trim_breaks(st.slots, st.cursor);
    match s1[st.cursor as int].parent {
        Some(p) => (
            with_tree(
                st,
                if prunable(s1, st.cursor) {
                    detached_last(s1, p)
                } else {
                    s1
                },
                p,
            ),
            true,
        ),
        None => (with_tree(st, s1, st.cursor), false),
    }
}

/// A fresh copy of `e`, opened again after a close passed over it.
pub open spec fn reopen(e: ElemV) -> ElemV {
    ElemV { text: None, void: false, ..e }
}

/// Closing `k`: climbs from the cursor, leaving each element (see `ascend_spec`)
/// and collecting copies of the non-void ones that are not of kind `k`, until it
/// leaves an element of kind `k` or reaches a boundary (see `is_boundary`).
pub open spec fn climb(st: LexV, k: GroupType, stack: Seq<ElemV>) -> (LexV, Seq<ElemV>)
    decreases st.cursor,
{
    let e = cursor_of(st);
    if is_boundary(e.kind, k) {
        (st, stack)
    } else {
        let found = e.kind == k;
        let stack2 = if !found && !e.void {
            stack.push(reopen(e))
        } else {
            stack
        };
        let next = ascend_spec(st);
        if !next.1 || found || next.0.cursor >= st.cursor {
            (next.0, stack2)
        } else {
            climb(next.0, k, stack2)
        }
    }
}

/// Opens the collected copies again, the last collected first, each inside the previous.
pub open spec fn replay(st: LexV, stack: Seq<ElemV>) -> LexV
    decreases stack.len(),
{
    if stack.len() == 0 {
        st
    } else {
        replay(open_elem(st, stack.last()), stack.drop_last())
    }
}

/// Closing an element of kind `k`: at the cursor, just leave it; otherwise climb
/// and replay what was passed over.
pub open spec fn end_group_spec(st: LexV, k: GroupType) -> LexV {
    if cursor_of(st).kind == k {
        ascend_spec(st).0
    } else {
        let r = climb(st, k, seq![]);
        replay(r.0, r.1)
    }
}

pub open spec fn scope_spec(st: LexV, k: GroupType) -> Scope {
    nearest_scope(path_elems(st.slots, st.cursor), k)
}

pub open spec fn close_paragraph_spec(st: LexV) -> LexV {
    if within_paragraph(path_elems(st.slots, st.cursor)) {
        end_group_spec(st, GroupType::Paragraph)
    } else {
        st
    }
}

/// Leaves elements until the cursor stands at an open element of kind `k` or at
/// the document.
pub open spec fn close_into_spec(st: LexV, k: GroupType) -> LexV
    decreases st.cursor,
{
    let e = cursor_of(st);
    if (e.kind == k && !e.broken) || e.kind == GroupType::Document {
        st
    } else {
        let next = ascend_spec(st);
        if next.1 && next.0.cursor < st.cursor {
            close_into_spec(next.0, k)
        } else {
            next.0
        }
    }
}

pub open spec fn close_through_spec(st: LexV, k: GroupType) -> LexV {
    let s1 = close_into_spec(st, k);
    if cursor_of(s1).kind == k {
        ascend_spec(s1).0
    } else {
        s1
    }
}

pub open spec fn close_block_spec(st: LexV, k: GroupType, reopen_paragraph: bool) -> LexV {
    match scope_spec(st, k) {
        Scope::Open => {
            let s1 = close_through_spec(st, k);
            if reopen_paragraph {
                new_group_spec(s1, GroupType::Paragraph)
            } else {
                s1
            }
        },
        Scope::Broken => end_group_spec(st, k),
        Scope::Absent => st,
    }
}

pub open spec fn open_block_spec(
    st: LexV,
    k: GroupType,
    arg: Option<Seq<char>>,
    with_paragraph: bool,
) -> LexV {
    let s1 = new_group_spec(close_paragraph_spec(st), k);
    let s2 = match arg {
        Some(a) => set_arg_spec(s1, a, false),
        None => s1,
    };
    if with_paragraph {
        new_group_spec(s2, GroupType::Paragraph)
    } else {
        s2
    }
}

/// The name recorded for a bare tag that got no text to use as its argument.
pub open spec fn pending_name(p: PendingArg) -> Seq<char> {
    match p {
        PendingArg::Url => "url"@,
        PendingArg::Email => "email"@,
        PendingArg::Image => "img"@,
        PendingArg::Embed => "embed"@,
    }
}

/// The text `t` after a bare `[url]`, `[email]`, `[img]` or `[embed]`.
pub open spec fn take_arg_spec(st: LexV, p: PendingArg, t: Seq<char>) -> LexV {
    match p {
        PendingArg::Url => match link_target(t) {
            Some(href) => push_text_spec(set_arg_spec(st, href, false), t),
            None => {
                let s1 = break_spec(st, "url"@);
                if st.ugly {
                    push_text_spec(s1, t)
                } else {
                    s1
                }
            },
        },
        PendingArg::Email => push_text_spec(set_arg_spec(st, t, false), t),
        PendingArg::Image => match image_source(t) {
            Some(src) => set_arg_spec(st, src, true),
            None => {
                let s1 = break_spec(st, "img"@);
                if st.ugly {
                    push_text_spec(s1, t)
                } else {
                    s1
                }
            },
        },
        PendingArg::Embed => set_arg_spec(st, t, true),
    }
}

/// Inline formatting: the kind opened by `[name]`, or closed by `[/name]`.
pub open spec fn inline_kind_spec(n: Seq<char>) -> Option<(GroupType, bool)> {
    if n == "b"@ {
        Some((GroupType::Bold, true))
    } else if n == "/b"@ {
        Some((GroupType::Bold, false))
    } else if n == "i"@ {
        Some((GroupType::Italic, true))
    } else if n == "/i"@ {
        Some((GroupType::Italic, false))
    } else if n == "s"@ {
        Some((GroupType::Strikethrough, true))
    } else if n == "/s"@ {
        Some((GroupType::Strikethrough, false))
    } else if n == "strong"@ {
        Some((GroupType::Strong, true))
    } else if n == "/strong"@ {
        Some((GroupType::Strong, false))
    } else if n == "em"@ {
        Some((GroupType::Emphasis, true))
    } else if n == "/em"@ {
        Some((GroupType::Emphasis, false))
    } else if n == "u"@ {
        Some((GroupType::Underline, true))
    } else if n == "/u"@ {
        Some((GroupType::Underline, false))
    } else if n == "smcaps"@ {
        Some((GroupType::Smallcaps, true))
    } else if n == "/smcaps"@ {
        Some((GroupType::Smallcaps, false))
    } else if n == "mono"@ {
        Some((GroupType::Monospace, true))
    } else if n == "/mono"@ {
        Some((GroupType::Monospace, false))
    } else if n == "sub"@ {
        Some((GroupType::Subscript, true))
    } else if n == "/sub"@ {
        Some((GroupType::Subscript, false))
    } else if n == "sup"@ {
        Some((GroupType::Superscript, true))
    } else if n == "/sup"@ {
        Some((GroupType::Superscript, false))
    } else if n == "spoiler"@ {
        Some((GroupType::Spoiler, true))
    } else if n == "/spoiler"@ {
        Some((GroupType::Spoiler, false))
    } else if n == "math"@ {
        Some((GroupType::Math, true))
    } else if n == "/math"@ {
        Some((GroupType::Math, false))
    } else if n == "footnote"@ {
        Some((GroupType::Footnote, true))
    } else if n == "/footnote"@ {
        Some((GroupType::Footnote, false))
    } else if n == "/color"@ || n == "/colour"@ {
        Some((GroupType::Colour, false))
    } else if n == "/opacity"@ {
        Some((GroupType::Opacity, false))
    } else if n == "/size"@ {
        Some((GroupType::Size, false))
    } else if n == "/url"@ {
        Some((GroupType::Url, false))
    } else if n == "/email"@ {
        Some((GroupType::Email, false))
    } else if n == "/img"@ {
        Some((GroupType::Image, false))
    } else {
        None
    }
}

/// Block elements: the kind of `[name]` or `[/name]`, whether a paragraph goes
/// inside it, and whether one follows it.
pub open spec fn block_kind_spec(n: Seq<char>) -> Option<(GroupType, bool, bool)> {
    if n == "center"@ || n == "/center"@ {
        Some((GroupType::Center, true, true))
    } else if n == "right"@ || n == "/right"@ {
        Some((GroupType::Right, true, true))
    } else if n == "quote"@ || n == "/quote"@ {
        Some((GroupType::Quote, true, true))
    } else if n == "indent"@ || n == "/indent"@ {
        Some((GroupType::Indent, true, true))
    } else if n == "/figure"@ {
        Some((GroupType::Figure, true, true))
    } else if n == "mathblock"@ || n == "/mathblock"@ {
        Some((GroupType::MathBlock, false, true))
    } else if n == "pre"@ || n == "/pre"@ {
        Some((GroupType::Pre, false, true))
    } else if n == "/codeblock"@ {
        Some((GroupType::CodeBlock, false, true))
    } else if n == "/embed"@ {
        Some((GroupType::Embed, false, true))
    } else if n == "list"@ || n == "/list"@ {
        Some((GroupType::List, false, true))
    } else if n == "table"@ || n == "/table"@ {
        Some((GroupType::Table, false, true))
    } else if n == "/tr"@ {
        Some((GroupType::TableRow, false, false))
    } else if n == "/td"@ {
        Some((GroupType::TableData, true, false))
    } else if n == "/th"@ {
        Some((GroupType::TableHeader, true, false))
    } else if n == "/caption"@ {
        Some((GroupType::TableCaption, true, false))
    } else {
        None
    }
}

/// A header tag `h1` to `h6` (or its close): the level, and whether it opens.
pub open spec fn header_spec(n: Seq<char>) -> Option<(char, bool)> {
    if n.len() == 2 && n[0] == 'h' && '1' <= n[1] <= '6' {
        Some((n[1], true))
    } else if n.len() == 3 && n[0] == '/' && n[1] == 'h' && '1' <= n[2] <= '6' {
        Some((n[2], false))
    } else {
        None
    }
}

/// A bracket tag without an argument, or `None` when its name is not in the vocabulary.
pub open spec fn bare_tag_spec(st: LexV, n: Seq<char>) -> Option<LexV> {
    let closing = n.len() > 0 && n[0] == '/';
    match inline_kind_spec(n) {
        Some((k, opens)) => Some(
            if opens {
                new_group_spec(st, k)
            } else {
                end_group_spec(st, k)
            },
        ),
        None => match block_kind_spec(n) {
            Some((k, inner, after)) => Some(
                if closing {
                    let s1 = close_block_spec(st, k, after);
                    if k == GroupType::Pre || k == GroupType::CodeBlock {
                        LexV { fmt: false, raw: None, ..s1 }
                    } else {
                        s1
                    }
                } else if k == GroupType::Indent {
                    open_block_spec(st, k, Some(seq!['1']), inner)
                } else {
                    let s1 = open_block_spec(st, k, None, inner);
                    if k == GroupType::Pre {
                        LexV { fmt: true, ..s1 }
                    } else {
                        s1
                    }
                },
            ),
            None => match header_spec(n) {
                Some((level, opens)) => Some(
                    if opens {
                        open_block_spec(st, GroupType::Header, Some(seq![level]), false)
                    } else {
                        close_block_spec(st, GroupType::Header, true)
                    },
                ),
                None => other_bare_tag_spec(st, n),
            },
        },
    }
}

/// The bare tags that are neither inline, block nor header tags.
pub open spec fn other_bare_tag_spec(st: LexV, n: Seq<char>) -> Option<LexV> {
    if n == "code"@ {
        Some(LexV { raw: Some(GroupType::Code), ..new_group_spec(st, GroupType::Code) })
    } else if n == "/code"@ {
        Some(LexV { raw: None, ..end_group_spec(st, GroupType::Code) })
    } else if n == "codeblock"@ {
        Some(
            LexV {
                raw: Some(GroupType::CodeBlock),
                fmt: true,
                ..open_block_spec(st, GroupType::CodeBlock, None, false)
            },
        )
    } else if n == "hr"@ {
        Some(
            new_group_spec(
                push_void_spec(close_paragraph_spec(st), GroupType::Hr),
                GroupType::Paragraph,
            ),
        )
    } else if n == "url"@ {
        Some(LexV { pending: Some(PendingArg::Url), ..new_group_spec(st, GroupType::Url) })
    } else if n == "email"@ {
        Some(LexV { pending: Some(PendingArg::Email), ..new_group_spec(st, GroupType::Email) })
    } else if n == "img"@ {
        Some(LexV { pending: Some(PendingArg::Image), ..new_group_spec(st, GroupType::Image) })
    } else if n == "embed"@ {
        Some(
            LexV {
                pending: Some(PendingArg::Embed),
                ..open_block_spec(st, GroupType::Embed, None, false)
            },
        )
    } else if n == "color"@ || n == "colour"@ {
        Some(new_broken_spec(st, GroupType::Colour, n))
    } else if n == "opacity"@ {
        Some(new_broken_spec(st, GroupType::Opacity, n))
    } else if n == "size"@ {
        Some(new_broken_spec(st, GroupType::Size, n))
    } else if n == "figure"@ {
        Some(new_broken_spec(st, GroupType::Figure, n))
    } else if n == "*"@ {
        Some(
            if scope_spec(st, GroupType::List) == Scope::Open {
                new_group_spec(
                    new_group_spec(close_into_spec(st, GroupType::List), GroupType::ListItem),
                    GroupType::Paragraph,
                )
            } else {
                push_broken_void_spec(st, GroupType::ListItem, n)
            },
        )
    } else if n == "tr"@ {
        Some(
            if scope_spec(st, GroupType::Table) == Scope::Open {
                new_group_spec(close_into_spec(st, GroupType::Table), GroupType::TableRow)
            } else {
                new_broken_spec(st, GroupType::TableRow, n)
            },
        )
    } else if n == "caption"@ {
        Some(
            if scope_spec(st, GroupType::Table) == Scope::Open {
                new_group_spec(
                    new_group_spec(close_into_spec(st, GroupType::Table), GroupType::TableCaption),
                    GroupType::Paragraph,
                )
            } else {
                new_broken_spec(st, GroupType::TableCaption, n)
            },
        )
    } else if n == "td"@ || n == "th"@ {
        let k = if n == "td"@ {
            GroupType::TableData
        } else {
            GroupType::TableHeader
        };
        Some(
            if scope_spec(st, GroupType::TableRow) == Scope::Open {
                new_group_spec(
                    new_group_spec(close_into_spec(st, GroupType::TableRow), k),
                    GroupType::Paragraph,
                )
            } else {
                new_broken_spec(st, k, n)
            },
        )
    } else {
        None
    }
}

/// A bracket tag `[n=a]`, or `None` when `n` does not take an argument.
pub open spec fn arg_tag_spec(st: LexV, n: Seq<char>, a: Seq<char>) -> Option<LexV> {
    let reason = n + seq!['='] + a;
    if n == "color"@ || n == "colour"@ {
        Some(
            if valid_colour(a) {
                set_arg_spec(new_group_spec(st, GroupType::Colour), a, false)
            } else {
                new_broken_spec(st, GroupType::Colour, reason)
            },
        )
    } else if n == "url"@ {
        Some(
            match link_target(a) {
                Some(href) => set_arg_spec(new_group_spec(st, GroupType::Url), href, false),
                None => new_broken_spec(st, GroupType::Url, reason),
            },
        )
    } else if n == "email"@ {
        Some(set_arg_spec(new_group_spec(st, GroupType::Email), a, false))
    } else if n == "opacity"@ {
        Some(
            match opacity_value(a) {
                Some(v) => set_arg_spec(new_group_spec(st, GroupType::Opacity), v, false),
                None => new_broken_spec(st, GroupType::Opacity, reason),
            },
        )
    } else if n == "size"@ {
        Some(
            match size_value(a) {
                Some(v) => set_arg_spec(new_group_spec(st, GroupType::Size), v, false),
                None => new_broken_spec(st, GroupType::Size, reason),
            },
        )
    } else if n == "quote"@ {
        Some(open_block_spec(st, GroupType::Quote, Some(a), true))
    } else if n == "footnote"@ {
        Some(set_arg_spec(new_group_spec(st, GroupType::Footnote), a, false))
    } else if n == "codeblock"@ {
        Some(
            LexV {
                raw: Some(GroupType::CodeBlock),
                fmt: true,
                ..open_block_spec(st, GroupType::CodeBlock, Some(a), false)
            },
        )
    } else if n == "figure"@ {
        Some(
            if is_figure_side(a) {
                open_block_spec(st, GroupType::Figure, Some(a), true)
            } else {
                new_broken_spec(st, GroupType::Figure, reason)
            },
        )
    } else if n == "indent"@ {
        Some(
            if is_indent_depth(a) {
                open_block_spec(st, GroupType::Indent, Some(a), true)
            } else {
                new_broken_spec(st, GroupType::Indent, reason)
            },
        )
    } else if n == "list"@ {
        Some(
            if is_ordered_style(a) || is_bullet_style(a) {
                open_block_spec(st, GroupType::List, Some(a), false)
            } else {
                new_broken_spec(st, GroupType::List, reason)
            },
        )
    } else {
        None
    }
}

/// A tag: a known one acts on the tree, an unknown one is kept as text.
pub open spec fn parse_tag_spec(st: LexV, n: Seq<char>, arg: Option<Seq<char>>) -> LexV {
    let r = match arg {
        Some(a) => arg_tag_spec(st, n, a),
        None => bare_tag_spec(st, n),
    };
    match r {
        Some(s) => s,
        None => push_text_spec(st, tag_literal(n, arg)),
    }
}

/// The cursor is at a list, table or table row, which hold no text of their own:
/// line, paragraph and scene breaks there are dropped.
pub open spec fn in_container_spec(st: LexV) -> bool {
    let e = cursor_of(st);
    !e.broken && (e.kind == GroupType::List || e.kind == GroupType::Table || e.kind
        == GroupType::TableRow)
}

/// One instruction after the pending argument, if any, has been dealt with.
pub open spec fn instruction_spec(st: LexV, i: InstrV) -> LexV {
    match i {
        InstrV::Text(t) => push_text_spec(st, t),
        InstrV::Tag(n, a) => match st.raw {
            Some(raw) => if a is None && n == raw_close_name(raw) {
                parse_tag_spec(st, n, a)
            } else {
                push_text_spec(st, tag_literal(n, a))
            },
            None => parse_tag_spec(st, n, a),
        },
        InstrV::Parabreak(w) => if st.fmt {
            push_text_spec(st, w)
        } else if !in_container_spec(st) {
            new_group_spec(end_group_spec(st, GroupType::Paragraph), GroupType::Paragraph)
        } else {
            st
        },
        InstrV::Linebreak => if st.fmt {
            push_text_spec(st, seq!['\n'])
        } else if !in_container_spec(st) {
            push_void_spec(st, GroupType::Br)
        } else {
            st
        },
        InstrV::Scenebreak => if st.fmt {
            push_text_spec(st, seq!['\n', '\n', '\n'])
        } else if !in_container_spec(st) {
            push_void_spec(st, GroupType::Scenebreak)
        } else {
            st
        },
        InstrV::Null => st,
    }
}

/// One instruction: a pending bare tag takes a text as its argument (and is
/// broken by anything else), then the instruction acts.
#[verifier::opaque]
pub open spec fn execute_spec(st: LexV, i: InstrV) -> LexV {
    match st.pending {
        Some(p) => {
            let s0 = LexV { pending: None, ..st };
            match i {
                InstrV::Text(t) => take_arg_spec(s0, p, t),
                _ => instruction_spec(break_spec(s0, pending_name(p)), i),
            }
        },
        None => instruction_spec(st, i),
    }
}

/// A fresh lexer.
pub open spec fn lex_init(ugly: bool) -> LexV {
    LexV {
        slots: seq![Slot { elem: new_elem(GroupType::Anchor), parent: None, children: seq![] }],
        cursor: 0,
        pending: None,
        raw: None,
        fmt: false,
        ugly,
    }
}

/// The state when reading starts: an anchor, its document, an open paragraph.
pub open spec fn lex_start(ugly: bool) -> LexV {
    LexV { slots: opened_document(), cursor: 2, pending: None, raw: None, fmt: false, ugly }
}

/// The state after the instructions `is`.
pub open spec fn lex_run(is: Seq<InstrV>, ugly: bool) -> LexV
    decreases is.len(),
{
    if is.len() == 0 {
        lex_start(ugly)
    } else {
        execute_spec(lex_run(is.drop_last(), ugly), is.last())
    }
}

/// The tree built from the instructions `is`: after the last one, a pending tag
/// is forgotten and the paragraph is closed.
pub open spec fn lex_spec(is: Seq<InstrV>, ugly: bool) -> LexV {
    end_group_spec(LexV { pending: None, ..lex_run(is, ugly) }, GroupType::Paragraph)
}

/// A web address with an allowed scheme.
pub open spec fn is_web_address(a: Seq<char>) -> bool {
    crate::args::starts_with(a, "http://"@) || crate::args::starts_with(a, "https://"@)
}

/// A link or image that is written out has an allowed address.
pub open spec fn elem_ok(e: ElemV) -> bool {
    !e.broken && (e.kind == GroupType::Url || e.kind == GroupType::Image) && e.arg is Some
        ==> is_web_address(e.arg->0)
}

/// Every link in `s` is safe.
pub open spec fn slots_ok(s: Seq<Slot>) -> bool {
    forall|i: int| 0 <= i < s.len() ==> elem_ok(#[trigger] s[i].elem)
}

/// The lexer's state keeps links safe: the tree is well formed and its links are
/// safe, and a bare `[email]` or `[embed]` waiting for its text stands at its
/// own element.
pub open spec fn state_ok(st: LexV) -> bool {
    &&& tree_wf(st.slots, st.cursor)
    &&& slots_ok(st.slots)
    &&& st.pending == Some(PendingArg::Email) ==> cursor_of(st).kind == GroupType::Email
    &&& st.pending == Some(PendingArg::Embed) ==> cursor_of(st).kind == GroupType::Embed
}

proof fn lemma_appended_ok(s: Seq<Slot>, c: nat, e: ElemV)
    requires
        slots_ok(s),
        elem_ok(e),
        c < s.len(),
    ensures
        slots_ok(appended(s, c, e)),
{
    let a = appended(s, c, e);
    assert forall|i: int| 0 <= i < a.len() implies elem_ok(#[trigger] a[i].elem) by {
        if i < s.len() {
            assert(a[i].elem == s[i].elem);
        }
    }
}

proof fn lemma_detached_ok(s: Seq<Slot>, c: nat)
    requires
        slots_ok(s),
        tree_wf(s, c),
        s[c as int].children.len() > 0,
    ensures
        slots_ok(detached_last(s, c)),
        tree_wf(detached_last(s, c), c),
{
    lemma_detached_wf(s, c);
    let d = detached_last(s, c);
    let cs = s[c as int].children;
    assert(cs[cs.len() - 1] == cs.last());
    assert forall|i: int| 0 <= i < d.len() implies elem_ok(#[trigger] d[i].elem) by {
        assert(d[i].elem == s[i].elem);
    }
}

proof fn lemma_trim_ok(s: Seq<Slot>, c: nat)
    requires
        slots_ok(s),
        tree_wf(s, c),
    ensures
        slots_ok(trim_breaks(s, c)),
        tree_wf(trim_breaks(s, c), c),
    decreases s[c as int].children.len(),
{
    if c < s.len() && ends_in_break(s, c) && s[c as int].children.last() < s.len() {
        lemma_detached_ok(s, c);
        let d = detached_last(s, c);
        let x = s[c as int].children.last();
        let s1 = s.update(c as int, Slot { children: s[c as int].children.drop_last(), ..s[c as int] });
        assert(d == s1.update(x as int, Slot { parent: None, ..s1[x as int] }));
        assert(d[c as int].children.len() < s[c as int].children.len());
        lemma_trim_ok(d, c);
    }
}

proof fn lemma_ascend_ok(st: LexV)
    requires
        slots_ok(st.slots),
        tree_wf(st.slots, st.cursor),
    ensures
        slots_ok(ascend_spec(st).0.slots),
        tree_wf(ascend_spec(st).0.slots, ascend_spec(st).0.cursor),
        ascend_spec(st).0.pending == st.pending,
        ascend_spec(st).0.ugly == st.ugly,
{
    lemma_trim_ok(st.slots, st.cursor);
    let s1 = trim_breaks(st.slots, st.cursor);
    let c = st.cursor;
    match s1[c as int].parent {
        Some(p) => {
            lemma_ascend_wf(s1, c);
            lemma_cursor_is_last(s1, c);
            if prunable(s1, c) {
                lemma_detached_ok(s1, p);
            }
        },
        None => {},
    }
}

/// A state with safe links and no pending tag.
pub open spec fn settled_ok(st: LexV) -> bool {
    tree_wf(st.slots, st.cursor) && slots_ok(st.slots) && st.pending is None
}

proof fn lemma_open_ok(st: LexV, e: ElemV)
    requires
        settled_ok(st),
        elem_ok(e),
    ensures
        settled_ok(open_elem(st, e)),
        cursor_of(open_elem(st, e)) == e,
{
    lemma_appended_wf(st.slots, st.cursor, e);
    lemma_appended_ok(st.slots, st.cursor, e);
    let a = appended(st.slots, st.cursor, e);
    assert(a[st.cursor as int].children.last() == st.slots.len());
    lemma_descend_wf(a, st.cursor);
}

proof fn lemma_leaf_ok(st: LexV, e: ElemV)
    requires
        settled_ok(st),
        elem_ok(e),
    ensures
        settled_ok(add_leaf(st, e)),
{
    lemma_appended_wf(st.slots, st.cursor, e);
    lemma_appended_ok(st.slots, st.cursor, e);
}

proof fn lemma_replace_ok(st: LexV, e: ElemV)
    requires
        tree_wf(st.slots, st.cursor),
        slots_ok(st.slots),
        elem_ok(e),
    ensures
        tree_wf(replace_cursor(st, e).slots, st.cursor),
        slots_ok(replace_cursor(st, e).slots),
        cursor_of(replace_cursor(st, e)) == e,
{
    lemma_replaced_wf(st.slots, st.cursor, e);
    let r = replace_cursor(st, e).slots;
    assert forall|i: int| 0 <= i < r.len() implies elem_ok(#[trigger] r[i].elem) by {
        if i != st.cursor {
            assert(r[i] == st.slots[i]);
        }
    }
}

proof fn lemma_ascend_settled(st: LexV)
    requires
        settled_ok(st),
    ensures
        settled_ok(ascend_spec(st).0),
{
    lemma_ascend_ok(st);
}

proof fn lemma_climb_ok(st: LexV, k: GroupType, stack: Seq<ElemV>)
    requires
        settled_ok(st),
        forall|i: int| 0 <= i < stack.len() ==> elem_ok(#[trigger] stack[i]),
    ensures
        settled_ok(climb(st, k, stack).0),
        forall|i: int| 0 <= i < climb(st, k, stack).1.len() ==> elem_ok(#[trigger] climb(st, k, stack).1[i]),
    decreases st.cursor,
{
    let e = cursor_of(st);
    if !is_boundary(e.kind, k) {
        let found = e.kind == k;
        let stack2 = if !found && !e.void {
            stack.push(reopen(e))
        } else {
            stack
        };
        assert(elem_ok(e));
        assert forall|i: int| 0 <= i < stack2.len() implies elem_ok(#[trigger] stack2[i]) by {
            if i < stack.len() {
                assert(stack2[i] == stack[i]);
            }
        }
        let next = ascend_spec(st);
        lemma_ascend_settled(st);
        if !(!next.1 || found || next.0.cursor >= st.cursor) {
            lemma_climb_ok(next.0, k, stack2);
        }
    }
}

proof fn lemma_replay_ok(st: LexV, stack: Seq<ElemV>)
    requires
        settled_ok(st),
        forall|i: int| 0 <= i < stack.len() ==> elem_ok(#[trigger] stack[i]),
    ensures
        settled_ok(replay(st, stack)),
    decreases stack.len(),
{
    if stack.len() > 0 {
        assert(elem_ok(stack[stack.len() - 1]));
        lemma_open_ok(st, stack.last());
        lemma_replay_ok(open_elem(st, stack.last()), stack.drop_last());
    }
}

proof fn lemma_end_group_ok(st: LexV, k: GroupType)
    requires
        settled_ok(st),
    ensures
        settled_ok(end_group_spec(st, k)),
{
    if cursor_of(st).kind == k {
        lemma_ascend_settled(st);
    } else {
        lemma_climb_ok(st, k, seq![]);
        let r = climb(st, k, seq![]);
        lemma_replay_ok(r.0, r.1);
    }
}

proof fn lemma_close_into_ok(st: LexV, k: GroupType)
    requires
        settled_ok(st),
    ensures
        settled_ok(close_into_spec(st, k)),
    decreases st.cursor,
{
    let e = cursor_of(st);
    if !((e.kind == k && !e.broken) || e.kind == GroupType::Document) {
        lemma_ascend_settled(st);
        let next = ascend_spec(st);
        if next.1 && next.0.cursor < st.cursor {
            lemma_close_into_ok(next.0, k);
        }
    }
}

proof fn lemma_close_block_ok(st: LexV, k: GroupType, reopen_paragraph: bool)
    requires
        settled_ok(st),
    ensures
        settled_ok(close_block_spec(st, k, reopen_paragraph)),
{
    lemma_close_into_ok(st, k);
    let s1 = close_into_spec(st, k);
    lemma_ascend_settled(s1);
    let s2 = close_through_spec(st, k);
    lemma_open_ok(s2, group_elem(s2.ugly, GroupType::Paragraph));
    lemma_end_group_ok(st, k);
}

proof fn lemma_close_paragraph_ok(st: LexV)
    requires
        settled_ok(st),
    ensures
        settled_ok(close_paragraph_spec(st)),
{
    lemma_end_group_ok(st, GroupType::Paragraph);
}

proof fn lemma_set_arg_ok(st: LexV, a: Seq<char>, void: bool)
    requires
        settled_ok(st),
        !cursor_of(st).broken && (cursor_of(st).kind == GroupType::Url || cursor_of(st).kind
            == GroupType::Image) ==> is_web_address(a),
    ensures
        settled_ok(set_arg_spec(st, a, void)),
{
    lemma_replace_ok(st, ElemV { arg: Some(a), void: void || cursor_of(st).void, ..cursor_of(st) });
}

proof fn lemma_break_ok(st: LexV, reason: Seq<char>)
    requires
        tree_wf(st.slots, st.cursor),
        slots_ok(st.slots),
    ensures
        tree_wf(break_spec(st, reason).slots, st.cursor),
        slots_ok(break_spec(st, reason).slots),
{
    lemma_replace_ok(st, ElemV { broken: true, arg: Some(reason), ..cursor_of(st) });
}

proof fn lemma_open_block_ok(st: LexV, k: GroupType, arg: Option<Seq<char>>, with_paragraph: bool)
    requires
        settled_ok(st),
        k != GroupType::Url && k != GroupType::Image,
    ensures
        settled_ok(open_block_spec(st, k, arg, with_paragraph)),
        !with_paragraph ==> cursor_of(open_block_spec(st, k, arg, with_paragraph)).kind == k,
{
    lemma_close_paragraph_ok(st);
    let s0 = close_paragraph_spec(st);
    lemma_open_ok(s0, group_elem(s0.ugly, k));
    let s1 = new_group_spec(s0, k);
    match arg {
        Some(a) => {
            lemma_set_arg_ok(s1, a, false);
        },
        None => {},
    }
    let s2 = match arg {
        Some(a) => set_arg_spec(s1, a, false),
        None => s1,
    };
    lemma_open_ok(s2, group_elem(s2.ugly, GroupType::Paragraph));
}

proof fn lemma_new_group_ok(st: LexV, k: GroupType)
    requires
        settled_ok(st),
    ensures
        settled_ok(new_group_spec(st, k)),
        cursor_of(new_group_spec(st, k)) == group_elem(st.ugly, k),
{
    lemma_open_ok(st, group_elem(st.ugly, k));
}

proof fn lemma_new_broken_ok(st: LexV, k: GroupType, reason: Seq<char>)
    requires
        settled_ok(st),
    ensures
        settled_ok(new_broken_spec(st, k, reason)),
{
    lemma_open_ok(st, broken_elem(st.ugly, k, reason));
}

proof fn lemma_other_bare_ok(st: LexV, n: Seq<char>)
    requires
        settled_ok(st),
    ensures
        other_bare_tag_spec(st, n) matches Some(s) ==> state_ok(s),
{
    let p = GroupType::Paragraph;
    lemma_new_group_ok(st, GroupType::Code);
    lemma_end_group_ok(st, GroupType::Code);
    lemma_open_block_ok(st, GroupType::CodeBlock, None, false);
    lemma_close_paragraph_ok(st);
    let s0 = close_paragraph_spec(st);
    lemma_leaf_ok(s0, ElemV { void: true, ..new_elem(GroupType::Hr) });
    lemma_new_group_ok(push_void_spec(s0, GroupType::Hr), p);
    lemma_new_group_ok(st, GroupType::Url);
    lemma_new_group_ok(st, GroupType::Email);
    lemma_new_group_ok(st, GroupType::Image);
    lemma_open_block_ok(st, GroupType::Embed, None, false);
    lemma_new_broken_ok(st, GroupType::Colour, n);
    lemma_new_broken_ok(st, GroupType::Opacity, n);
    lemma_new_broken_ok(st, GroupType::Size, n);
    lemma_new_broken_ok(st, GroupType::Figure, n);
    lemma_new_broken_ok(st, GroupType::TableRow, n);
    lemma_new_broken_ok(st, GroupType::TableCaption, n);
    lemma_new_broken_ok(st, GroupType::TableData, n);
    lemma_new_broken_ok(st, GroupType::TableHeader, n);
    lemma_leaf_ok(st, ElemV { void: true, broken: true, arg: Some(n), ..new_elem(GroupType::ListItem) });
    lemma_close_into_ok(st, GroupType::List);
    let l = close_into_spec(st, GroupType::List);
    lemma_new_group_ok(l, GroupType::ListItem);
    lemma_new_group_ok(new_group_spec(l, GroupType::ListItem), p);
    lemma_close_into_ok(st, GroupType::Table);
    let t = close_into_spec(st, GroupType::Table);
    lemma_new_group_ok(t, GroupType::TableRow);
    lemma_new_group_ok(t, GroupType::TableCaption);
    lemma_new_group_ok(new_group_spec(t, GroupType::TableCaption), p);
    lemma_close_into_ok(st, GroupType::TableRow);
    let r = close_into_spec(st, GroupType::TableRow);
    lemma_new_group_ok(r, GroupType::TableData);
    lemma_new_group_ok(r, GroupType::TableHeader);
    lemma_new_group_ok(new_group_spec(r, GroupType::TableData), p);
    lemma_new_group_ok(new_group_spec(r, GroupType::TableHeader), p);
}

proof fn lemma_bare_ok(st: LexV, n: Seq<char>)
    requires
        settled_ok(st),
    ensures
        bare_tag_spec(st, n) matches Some(s) ==> state_ok(s),
{
    match inline_kind_spec(n) {
        Some((k, opens)) => {
            lemma_new_group_ok(st, k);
            lemma_end_group_ok(st, k);
        },
        None => match block_kind_spec(n) {
            Some((k, inner, after)) => {
                lemma_close_block_ok(st, k, after);
                lemma_open_block_ok(st, k, Some(seq!['1']), inner);
                lemma_open_block_ok(st, k, None, inner);
            },
            None => {
                lemma_open_block_ok(st, GroupType::Header, Some(seq![n[1]]), false);
                lemma_open_block_ok(st, GroupType::Header, Some(seq![n[2]]), false);
                lemma_close_block_ok(st, GroupType::Header, true);
                lemma_other_bare_ok(st, n);
            },
        },
    }
}

proof fn lemma_arg_ok(st: LexV, n: Seq<char>, a: Seq<char>)
    requires
        settled_ok(st),
    ensures
        arg_tag_spec(st, n, a) matches Some(s) ==> state_ok(s),
{
    let reason = n + seq!['='] + a;
    crate::args::lemma_link_schemes(a);
    lemma_new_group_ok(st, GroupType::Colour);
    lemma_set_arg_ok(new_group_spec(st, GroupType::Colour), a, false);
    lemma_new_group_ok(st, GroupType::Url);
    if link_target(a) is Some {
        lemma_set_arg_ok(new_group_spec(st, GroupType::Url), link_target(a)->0, false);
    }
    lemma_new_group_ok(st, GroupType::Email);
    lemma_set_arg_ok(new_group_spec(st, GroupType::Email), a, false);
    lemma_new_group_ok(st, GroupType::Opacity);
    if opacity_value(a) is Some {
        lemma_set_arg_ok(new_group_spec(st, GroupType::Opacity), opacity_value(a)->0, false);
    }
    lemma_new_group_ok(st, GroupType::Size);
    if size_value(a) is Some {
        lemma_set_arg_ok(new_group_spec(st, GroupType::Size), size_value(a)->0, false);
    }
    lemma_new_group_ok(st, GroupType::Footnote);
    lemma_set_arg_ok(new_group_spec(st, GroupType::Footnote), a, false);
    lemma_open_block_ok(st, GroupType::Quote, Some(a), true);
    lemma_open_block_ok(st, GroupType::CodeBlock, Some(a), false);
    lemma_open_block_ok(st, GroupType::Figure, Some(a), true);
    lemma_open_block_ok(st, GroupType::Indent, Some(a), true);
    lemma_open_block_ok(st, GroupType::List, Some(a), false);
    lemma_new_broken_ok(st, GroupType::Colour, reason);
    lemma_new_broken_ok(st, GroupType::Url, reason);
    lemma_new_broken_ok(st, GroupType::Opacity, reason);
    lemma_new_broken_ok(st, GroupType::Size, reason);
    lemma_new_broken_ok(st, GroupType::Figure, reason);
    lemma_new_broken_ok(st, GroupType::Indent, reason);
    lemma_new_broken_ok(st, GroupType::List, reason);
}

proof fn lemma_parse_tag_ok(st: LexV, n: Seq<char>, arg: Option<Seq<char>>)
    requires
        settled_ok(st),
    ensures
        state_ok(parse_tag_spec(st, n, arg)),
{
    match arg {
        Some(a) => lemma_arg_ok(st, n, a),
        None => lemma_bare_ok(st, n),
    }
    lemma_leaf_ok(st, text_elem(tag_literal(n, arg)));
}

proof fn lemma_instruction_ok(st: LexV, i: InstrV)
    requires
        settled_ok(st),
    ensures
        state_ok(instruction_spec(st, i)),
{
    match i {
        InstrV::Text(t) => lemma_leaf_ok(st, text_elem(t)),
        InstrV::Tag(n, a) => {
            lemma_parse_tag_ok(st, n, a);
            lemma_leaf_ok(st, text_elem(tag_literal(n, a)));
        },
        InstrV::Parabreak(w) => {
            lemma_leaf_ok(st, text_elem(w));
            lemma_end_group_ok(st, GroupType::Paragraph);
            lemma_new_group_ok(end_group_spec(st, GroupType::Paragraph), GroupType::Paragraph);
        },
        InstrV::Linebreak => {
            lemma_leaf_ok(st, text_elem(seq!['\n']));
            lemma_leaf_ok(st, ElemV { void: true, ..new_elem(GroupType::Br) });
        },
        InstrV::Scenebreak => {
            lemma_leaf_ok(st, text_elem(seq!['\n', '\n', '\n']));
            lemma_leaf_ok(st, ElemV { void: true, ..new_elem(GroupType::Scenebreak) });
        },
        InstrV::Null => {},
    }
}

proof fn lemma_take_arg_ok(st: LexV, p: PendingArg, t: Seq<char>)
    requires
        settled_ok(st),
        p == PendingArg::Email ==> cursor_of(st).kind == GroupType::Email,
        p == PendingArg::Embed ==> cursor_of(st).kind == GroupType::Embed,
    ensures
        state_ok(take_arg_spec(st, p, t)),
{
    crate::args::lemma_link_schemes(t);
    match p {
        PendingArg::Url => {
            match link_target(t) {
                Some(href) => {
                    lemma_set_arg_ok(st, href, false);
                    lemma_leaf_ok(set_arg_spec(st, href, false), text_elem(t));
                },
                None => {
                    lemma_break_ok(st, "url"@);
                    lemma_leaf_ok(break_spec(st, "url"@), text_elem(t));
                },
            }
        },
        PendingArg::Email => {
            lemma_set_arg_ok(st, t, false);
            lemma_leaf_ok(set_arg_spec(st, t, false), text_elem(t));
        },
        PendingArg::Image => {
            match image_source(t) {
                Some(src) => lemma_set_arg_ok(st, src, true),
                None => {
                    lemma_break_ok(st, "img"@);
                    lemma_leaf_ok(break_spec(st, "img"@), text_elem(t));
                },
            }
        },
        PendingArg::Embed => lemma_set_arg_ok(st, t, true),
    }
}

proof fn lemma_execute_ok(st: LexV, i: InstrV)
    requires
        state_ok(st),
    ensures
        state_ok(execute_spec(st, i)),
{
    reveal(execute_spec);
    match st.pending {
        Some(p) => {
            let s0 = LexV { pending: None, ..st };
            match i {
                InstrV::Text(t) => lemma_take_arg_ok(s0, p, t),
                _ => {
                    lemma_break_ok(s0, pending_name(p));
                    lemma_instruction_ok(break_spec(s0, pending_name(p)), i);
                },
            }
        },
        None => lemma_instruction_ok(st, i),
    }
}

proof fn lemma_start_ok(ugly: bool)
    ensures
        state_ok(lex_start(ugly)),
{
    let s0 = seq![Slot { elem: new_elem(GroupType::Anchor), parent: None, children: seq![] }];
    assert(crate::tree::path_up(s0, 0) == seq![0nat]);
    assert(tree_wf(s0, 0));
    lemma_appended_wf(s0, 0, new_elem(GroupType::Document));
    let s1 = appended(s0, 0, new_elem(GroupType::Document));
    assert(s1[0].children.last() == 1);
    lemma_descend_wf(s1, 0);
    lemma_appended_wf(s1, 1, new_elem(GroupType::Paragraph));
    let s2 = appended(s1, 1, new_elem(GroupType::Paragraph));
    assert(s2[1].children.last() == 2);
    lemma_descend_wf(s2, 1);
    assert(s2 == opened_document());
    assert forall|i: int| 0 <= i < s2.len() implies elem_ok(#[trigger] s2[i].elem) by {}
}

proof fn lemma_run_ok(is: Seq<InstrV>, ugly: bool)
    ensures
        state_ok(lex_run(is, ugly)),
    decreases is.len(),
{
    if is.len() == 0 {
        lemma_start_ok(ugly);
    } else {
        lemma_run_ok(is.drop_last(), ugly);
        lemma_execute_ok(lex_run(is.drop_last(), ugly), is.last());
    }
}

/// The tree built from any instructions is well formed, and every link and
/// image in it that is not broken (so is written out as `href`/`src`) has an
/// `http://` or `https://` address.
pub proof fn lemma_lex_links_safe(is: Seq<InstrV>, ugly: bool)
    ensures
        tree_wf(lex_spec(is, ugly).slots, lex_spec(is, ugly).cursor),
        forall|i: int|
            0 <= i < lex_spec(is, ugly).slots.len() ==> elem_ok(
                #[trigger] lex_spec(is, ugly).slots[i].elem,
            ),
{
    lemma_run_ok(is, ugly);
    lemma_end_group_ok(LexV { pending: None, ..lex_run(is, ugly) }, GroupType::Paragraph);
}

} // verus!
