//! The tokenizer: a character-driven state machine that turns BBCode source
//! into a sequence of [`Instruction`]s, escaping HTML delimiters on the way.
use vstd::prelude::*;
use vstd::string::*;
use crate::{Instruction, InstrV, instrs_view};

verus! {

/// Tokenizer modes.
#[derive(Debug, PartialEq, Eq, Structural, Clone, Copy)]
pub enum ReadMode {
    ParseText,
    ParseEscape,
    ParseTag,
    ParseTagPrimaryArg,
    ParseParabreak,
    ParseScenebreak,
}

/// The five characters that are significant in HTML text and attributes.
pub open spec fn is_html_delimiter(c: char) -> bool {
    c == '<' || c == '>' || c == '&' || c == '"' || c == '\''
}

/// Characters that are replaced by an entity wherever they are escaped.
pub open spec fn is_escaped(c: char) -> bool {
    is_html_delimiter(c) || c == '\\'
}

/// The entity written in place of an escaped character (no trailing semicolon).
pub open spec fn entity(c: char) -> Seq<char> {
    if c == '<' {
        seq!['&', 'l', 't']
    } else if c == '>' {
        seq!['&', 'g', 't']
    } else if c == '&' {
        seq!['&', 'a', 'm', 'p']
    } else if c == '"' {
        seq!['&', 'q', 'u', 'o', 't']
    } else if c == '\'' {
        seq!['&', '#', 'x', '2', '7']
    } else {
        seq!['&', '#', 'x', '2', 'F']
    }
}

/// The state of the tokenizer as a mathematical value.
pub struct TokV {
    pub mode: ReadMode,
    pub cur: InstrV,
    pub ws: Seq<char>,
    pub out: Seq<InstrV>,
}

pub open spec fn tok_init() -> TokV {
    TokV { mode: ReadMode::ParseText, cur: InstrV::Null, ws: seq![], out: seq![] }
}

/// Text accumulated into the pending instruction, which becomes a `Text` if it was not one.
pub open spec fn append_text(cur: InstrV, s: Seq<char>) -> InstrV {
    match cur {
        InstrV::Text(t) => InstrV::Text(t + s),
        _ => InstrV::Text(s),
    }
}

pub open spec fn push_name(cur: InstrV, s: Seq<char>) -> InstrV {
    match cur {
        InstrV::Tag(n, a) => InstrV::Tag(n + s, a),
        _ => cur,
    }
}

pub open spec fn push_arg(cur: InstrV, s: Seq<char>) -> InstrV {
    match cur {
        InstrV::Tag(n, Some(a)) => InstrV::Tag(n, Some(a + s)),
        InstrV::Tag(n, None) => InstrV::Tag(n, Some(s)),
        _ => cur,
    }
}

/// Emits the pending instruction, if there is one.
pub open spec fn flush(st: TokV) -> TokV {
    match st.cur {
        InstrV::Null => st,
        _ => TokV { cur: InstrV::Null, out: st.out.push(st.cur), ..st },
    }
}

/// Emits `i` and clears the pending instruction.
pub open spec fn emit(st: TokV, i: InstrV) -> TokV {
    TokV { cur: InstrV::Null, out: st.out.push(i), ..st }
}

pub open spec fn is_newline(c: char) -> bool {
    c == '\n' || c == '\r'
}

pub open spec fn text_step(st: TokV, c: char) -> TokV {
    if c == '\\' {
        TokV { mode: ReadMode::ParseEscape, ..st }
    } else if c == '[' {
        TokV { mode: ReadMode::ParseTag, cur: InstrV::Tag(seq![], None), ..flush(st) }
    } else if is_newline(c) {
        TokV { mode: ReadMode::ParseParabreak, ws: seq![c], ..flush(st) }
    } else if is_html_delimiter(c) {
        TokV { cur: append_text(st.cur, entity(c)), ..st }
    } else {
        TokV { cur: append_text(st.cur, seq![c]), ..st }
    }
}

pub open spec fn escape_step(st: TokV, c: char) -> TokV {
    if is_escaped(c) {
        TokV { mode: ReadMode::ParseText, cur: append_text(st.cur, entity(c)), ..st }
    } else {
        TokV { mode: ReadMode::ParseText, cur: append_text(st.cur, seq![c]), ..st }
    }
}

pub open spec fn tag_step(st: TokV, c: char) -> TokV {
    if c == ']' {
        TokV { mode: ReadMode::ParseText, ..flush(st) }
    } else if c == '=' {
        TokV { mode: ReadMode::ParseTagPrimaryArg, cur: push_arg(st.cur, seq![]), ..st }
    } else if is_escaped(c) {
        TokV { cur: push_name(st.cur, entity(c)), ..st }
    } else {
        TokV { cur: push_name(st.cur, seq![c]), ..st }
    }
}

pub open spec fn arg_step(st: TokV, c: char) -> TokV {
    if c == ']' {
        TokV { mode: ReadMode::ParseText, ..flush(st) }
    } else if is_escaped(c) {
        TokV { cur: push_arg(st.cur, entity(c)), ..st }
    } else {
        TokV { cur: push_arg(st.cur, seq![c]), ..st }
    }
}

pub open spec fn parabreak_step(st: TokV, c: char) -> TokV {
    if c == '\t' {
        TokV { mode: ReadMode::ParseText, ws: seq![], ..emit(st, InstrV::Parabreak(st.ws.push(c))) }
    } else if is_newline(c) {
        TokV { mode: ReadMode::ParseScenebreak, ws: st.ws.push(c), ..st }
    } else if c == ' ' {
        st
    } else {
        text_step(TokV { mode: ReadMode::ParseText, ..emit(st, InstrV::Linebreak) }, c)
    }
}

pub open spec fn scenebreak_step(st: TokV, c: char) -> TokV {
    if is_newline(c) {
        TokV { mode: ReadMode::ParseText, ..emit(st, InstrV::Scenebreak) }
    } else if c == ' ' {
        st
    } else {
        text_step(
            TokV { mode: ReadMode::ParseText, ws: seq![], ..emit(st, InstrV::Parabreak(st.ws)) },
            c,
        )
    }
}

/// One transition of the tokenizer on character `c`.
pub open spec fn tok_step(st: TokV, c: char) -> TokV {
    match st.mode {
        ReadMode::ParseText => text_step(st, c),
        ReadMode::ParseEscape => escape_step(st, c),
        ReadMode::ParseTag => tag_step(st, c),
        ReadMode::ParseTagPrimaryArg => arg_step(st, c),
        ReadMode::ParseParabreak => parabreak_step(st, c),
        ReadMode::ParseScenebreak => scenebreak_step(st, c),
    }
}

/// The state after reading all of `cs` from the initial state.
pub open spec fn tok_run(cs: Seq<char>) -> TokV
    decreases cs.len(),
{
    if cs.len() == 0 {
        tok_init()
    } else {
        tok_step(tok_run(cs.drop_last()), cs.last())
    }
}

/// The instructions produced for source text `s`.
pub open spec fn tokenize_spec(s: Seq<char>) -> Seq<InstrV> {
    flush(tok_run(s)).out
}

/// The escape of text: each HTML delimiter becomes its entity, every other
/// character stays as it is.
pub open spec fn escape_text(s: Seq<char>) -> Seq<char>
    decreases s.len(),
{
    if s.len() == 0 {
        seq![]
    } else {
        escape_text(s.drop_last()) + if is_html_delimiter(s.last()) {
            entity(s.last())
        } else {
            seq![s.last()]
        }
    }
}

/// Text with no tag, escape or line break in it.
pub open spec fn is_plain(s: Seq<char>) -> bool {
    forall|i: int| 0 <= i < s.len() ==> #[trigger] s[i] != '[' && s[i] != '\\' && !is_newline(s[i])
}

/// Plain text is read as a single text instruction holding its escape (none
/// for the empty text): each character is escaped once, where it is read.
pub proof fn lemma_plain_text(s: Seq<char>)
    requires
        is_plain(s),
    ensures
        tokenize_spec(s) == (if s.len() == 0 {
            seq![]
        } else {
            seq![InstrV::Text(escape_text(s))]
        }),
        tok_run(s).mode == ReadMode::ParseText,
    decreases s.len(),
{
    lemma_plain_run(s);
}

proof fn lemma_plain_run(s: Seq<char>)
    requires
        is_plain(s),
    ensures
        s.len() == 0 ==> tok_run(s) == tok_init(),
        s.len() > 0 ==> tok_run(s) == (TokV {
            mode: ReadMode::ParseText,
            cur: InstrV::Text(escape_text(s)),
            ws: seq![],
            out: seq![],
        }),
    decreases s.len(),
{
    if s.len() > 0 {
        let p = s.drop_last();
        assert(is_plain(p)) by {
            assert forall|i: int| 0 <= i < p.len() implies #[trigger] p[i] != '[' && p[i] != '\\'
                && !is_newline(p[i]) by {
                assert(p[i] == s[i]);
            }
        }
        lemma_plain_run(p);
        let c = s.last();
        assert(c == s[s.len() - 1]);
        if p.len() == 0 {
            assert(escape_text(p) =~= seq![]);
            assert(escape_text(s) =~= escape_text(p) + if is_html_delimiter(c) {
                entity(c)
            } else {
                seq![c]
            });
        }
    }
}

/// Escaped text holds no `<`, `>`, `"` or `'`: it cannot open a tag or leave an
/// attribute value.
pub proof fn lemma_escape_safe(s: Seq<char>)
    ensures
        forall|i: int|
            0 <= i < escape_text(s).len() ==> #[trigger] escape_text(s)[i] != '<' && escape_text(
                s,
            )[i] != '>' && escape_text(s)[i] != '"' && escape_text(s)[i] != '\'',
    decreases s.len(),
{
    if s.len() > 0 {
        lemma_escape_safe(s.drop_last());
        let c = s.last();
        let a = escape_text(s.drop_last());
        let b = if is_html_delimiter(c) {
            entity(c)
        } else {
            seq![c]
        };
        assert(escape_text(s) == a + b);
        assert forall|i: int| 0 <= i < escape_text(s).len() implies #[trigger] escape_text(s)[i]
            != '<' && escape_text(s)[i] != '>' && escape_text(s)[i] != '"' && escape_text(s)[i]
            != '\'' by {
            if i >= a.len() {
                assert(escape_text(s)[i] == b[i - a.len()]);
            } else {
                assert(escape_text(s)[i] == a[i]);
            }
        }
    }
}

/// The source form of a tag: `[name]` or `[name=arg]`.
pub open spec fn tag_literal(name: Seq<char>, arg: Option<Seq<char>>) -> Seq<char> {
    match arg {
        Some(a) => seq!['['] + name + seq!['='] + a + seq![']'],
        None => seq!['['] + name + seq![']'],
    }
}

/// The text an instruction stands for when it is kept as text.
pub open spec fn instr_text(i: InstrV) -> Seq<char> {
    match i {
        InstrV::Text(t) => t,
        InstrV::Tag(n, a) => tag_literal(n, a),
        _ => seq![],
    }
}

/// The texts of a sequence of instructions, one after the other.
pub open spec fn texts_of(is: Seq<InstrV>) -> Seq<char>
    decreases is.len(),
{
    if is.len() == 0 {
        seq![]
    } else {
        texts_of(is.drop_last()) + instr_text(is.last())
    }
}

/// What the pending instruction has read so far, as text.
pub open spec fn pending_text(cur: InstrV) -> Seq<char> {
    match cur {
        InstrV::Text(t) => t,
        InstrV::Tag(n, None) => seq!['['] + n,
        InstrV::Tag(n, Some(a)) => seq!['['] + n + seq!['='] + a,
        _ => seq![],
    }
}

/// Text with no escape and no line break in it.
pub open spec fn is_unbroken(s: Seq<char>) -> bool {
    forall|i: int| 0 <= i < s.len() ==> #[trigger] s[i] != '\\' && !is_newline(s[i])
}

/// Every instruction is a text or a tag.
pub open spec fn texts_and_tags(is: Seq<InstrV>) -> bool {
    forall|i: int| 0 <= i < is.len() ==> (#[trigger] is[i] is Text) || is[i] is Tag
}

/// Reading text without escapes or line breaks: what has been read is the escape
/// of the source, split into texts and tags.
proof fn lemma_unbroken_run(s: Seq<char>)
    requires
        is_unbroken(s),
    ensures
        ({
            let st = tok_run(s);
            &&& texts_and_tags(st.out)
            &&& texts_of(st.out) + pending_text(st.cur) == escape_text(s)
            &&& st.mode == ReadMode::ParseText ==> st.cur is Null || st.cur is Text
            &&& st.mode == ReadMode::ParseTag ==> st.cur is Tag && st.cur->Tag_1 is None
            &&& st.mode == ReadMode::ParseTagPrimaryArg ==> st.cur is Tag && st.cur->Tag_1 is Some
            &&& st.mode == ReadMode::ParseText || st.mode == ReadMode::ParseTag || st.mode
                == ReadMode::ParseTagPrimaryArg
        }),
    decreases s.len(),
{
    if s.len() > 0 {
        let p = s.drop_last();
        assert(is_unbroken(p)) by {
            assert forall|i: int| 0 <= i < p.len() implies #[trigger] p[i] != '\\' && !is_newline(
                p[i],
            ) by {
                assert(p[i] == s[i]);
            }
        }
        lemma_unbroken_run(p);
        let c = s.last();
        assert(c == s[s.len() - 1]);
        let st = tok_run(p);
        let add = if is_html_delimiter(c) {
            entity(c)
        } else {
            seq![c]
        };
        assert(escape_text(s) == escape_text(p) + add);
        let nst = tok_step(st, c);
        assert(tok_run(s) == nst);
        let f = flush(st);
        if !(st.cur is Null) {
            assert(f.out.drop_last() =~= st.out);
        }
        assert(st.mode == ReadMode::ParseText ==> texts_of(f.out) + pending_text(f.cur) =~= texts_of(
            st.out,
        ) + pending_text(st.cur));
        assert(texts_and_tags(f.out)) by {
            assert forall|i: int| 0 <= i < f.out.len() implies (#[trigger] f.out[i] is Text)
                || f.out[i] is Tag by {
                if i < st.out.len() {
                    assert(f.out[i] == st.out[i]);
                }
            }
        }
        match st.mode {
            ReadMode::ParseText => {
                if c == '[' {
                    assert(texts_of(nst.out) + pending_text(nst.cur) =~= escape_text(s));
                } else {
                    assert(texts_of(nst.out) + pending_text(nst.cur) =~= escape_text(s));
                }
            },
            ReadMode::ParseTag => {
                if c == ']' {
                    assert(f.out.drop_last() =~= st.out);
                    assert(texts_of(nst.out) + pending_text(nst.cur) =~= escape_text(s));
                } else {
                    assert(texts_of(nst.out) + pending_text(nst.cur) =~= escape_text(s));
                }
            },
            ReadMode::ParseTagPrimaryArg => {
                if c == ']' {
                    assert(f.out.drop_last() =~= st.out);
                    assert(texts_of(nst.out) + pending_text(nst.cur) =~= escape_text(s));
                } else {
                    assert(texts_of(nst.out) + pending_text(nst.cur) =~= escape_text(s));
                }
            },
            _ => {},
        }
    }
}

/// Text without escapes or line breaks that does not end inside a tag is read
/// as texts and tags whose texts, one after the other, are its escape.
pub proof fn lemma_unbroken_text(s: Seq<char>)
    requires
        is_unbroken(s),
        tok_run(s).mode == ReadMode::ParseText,
    ensures
        texts_and_tags(tokenize_spec(s)),
        texts_of(tokenize_spec(s)) == escape_text(s),
        s.len() > 0 ==> tokenize_spec(s).len() > 0,
{
    lemma_unbroken_run(s);
    let st = tok_run(s);
    let f = flush(st);
    if !(st.cur is Null) {
        assert(f.out.drop_last() =~= st.out);
    }
    assert(texts_of(f.out) =~= escape_text(s));
    assert(texts_and_tags(f.out)) by {
        assert forall|i: int| 0 <= i < f.out.len() implies (#[trigger] f.out[i] is Text)
            || f.out[i] is Tag by {
            if i < st.out.len() {
                assert(f.out[i] == st.out[i]);
            }
        }
    }
    if s.len() > 0 && f.out.len() == 0 {
        assert(texts_of(f.out) =~= seq![]);
        lemma_escape_nonempty(s);
    }
}

proof fn lemma_escape_nonempty(s: Seq<char>)
    requires
        s.len() > 0,
    ensures
        escape_text(s).len() > 0,
{
    let c = s.last();
    let add = if is_html_delimiter(c) {
        entity(c)
    } else {
        seq![c]
    };
    assert(escape_text(s) == escape_text(s.drop_last()) + add);
    assert(add.len() > 0);
}

/// A tag's name holds no `=`: the first `=` starts its argument.
pub open spec fn name_without_equals(i: InstrV) -> bool {
    match i {
        InstrV::Tag(n, _) => forall|k: int| 0 <= k < n.len() ==> #[trigger] n[k] != '=',
        _ => true,
    }
}

proof fn lemma_flush_names(t: TokV)
    requires
        forall|k: int| 0 <= k < t.out.len() ==> name_without_equals(#[trigger] t.out[k]),
        name_without_equals(t.cur),
    ensures
        forall|k: int| 0 <= k < flush(t).out.len() ==> name_without_equals(#[trigger] flush(t).out[k]),
        name_without_equals(flush(t).cur),
{
    assert forall|k: int| 0 <= k < flush(t).out.len() implies name_without_equals(
        #[trigger] flush(t).out[k],
    ) by {
        if k < t.out.len() {
            assert(flush(t).out[k] == t.out[k]);
        } else {
            assert(flush(t).out[k] == t.cur);
        }
    }
}

proof fn lemma_tag_names_run(s: Seq<char>)
    ensures
        forall|k: int|
            0 <= k < tok_run(s).out.len() ==> name_without_equals(#[trigger] tok_run(s).out[k]),
        name_without_equals(tok_run(s).cur),
    decreases s.len(),
{
    if s.len() > 0 {
        let p = s.drop_last();
        lemma_tag_names_run(p);
        let st = tok_run(p);
        let c = s.last();
        let nst = tok_step(st, c);
        assert(tok_run(s) == nst);
        assert forall|x: char| #![auto] is_escaped(x) ==> forall|k: int|
            0 <= k < entity(x).len() ==> entity(x)[k] != '=' by {}
        lemma_flush_names(st);
        lemma_flush_names(emit(st, InstrV::Linebreak));
        match st.mode {
            ReadMode::ParseTag => {
                if c != ']' && c != '=' {
                    let add = if is_escaped(c) {
                        entity(c)
                    } else {
                        seq![c]
                    };
                    match st.cur {
                        InstrV::Tag(n, a) => {
                            assert forall|k: int| 0 <= k < (n + add).len() implies #[trigger] (n
                                + add)[k] != '=' by {
                                if k >= n.len() {
                                    assert((n + add)[k] == add[k - n.len()]);
                                }
                            }
                        },
                        _ => {},
                    }
                }
            },
            _ => {},
        }
        assert forall|k: int| 0 <= k < nst.out.len() implies name_without_equals(
            #[trigger] nst.out[k],
        ) by {
            if k < st.out.len() {
                assert(nst.out[k] == st.out[k]);
            }
        }
    }
}

/// The tags that the tokenizer reads have no `=` in their names.
pub proof fn lemma_tag_names(s: Seq<char>)
    ensures
        forall|k: int|
            0 <= k < tokenize_spec(s).len() ==> name_without_equals(#[trigger] tokenize_spec(s)[k]),
{
    lemma_tag_names_run(s);
    let st = tok_run(s);
    assert forall|k: int| 0 <= k < flush(st).out.len() implies name_without_equals(
        #[trigger] flush(st).out[k],
    ) by {
        if k < st.out.len() {
            assert(flush(st).out[k] == st.out[k]);
        } else {
            assert(flush(st).out[k] == st.cur);
        }
    }
}

/// Instructions as the tokenizer gives them: no `Null`, no empty text, and no
/// two texts in a row (adjacent text is merged).
pub open spec fn well_merged(out: Seq<InstrV>) -> bool {
    &&& forall|k: int| 0 <= k < out.len() ==> !(#[trigger] out[k] is Null)
    &&& forall|k: int| 0 <= k < out.len() && (#[trigger] out[k] is Text) ==> out[k]->Text_0.len() > 0
    &&& forall|k: int| 0 <= k < out.len() - 1 ==> !((#[trigger] out[k] is Text) && out[k + 1] is Text)
}

pub open spec fn ends_in_text(out: Seq<InstrV>) -> bool {
    out.len() > 0 && out.last() is Text
}

/// What holds of the tokenizer's state between characters.
pub open spec fn merge_inv(st: TokV) -> bool {
    &&& well_merged(st.out)
    &&& st.cur is Text ==> st.cur->Text_0.len() > 0 && !ends_in_text(st.out)
    &&& (st.mode == ReadMode::ParseText || st.mode == ReadMode::ParseEscape) && st.cur is Null
        ==> !ends_in_text(st.out)
    &&& (st.mode == ReadMode::ParseText || st.mode == ReadMode::ParseEscape) ==> st.cur is Null
        || st.cur is Text
    &&& (st.mode == ReadMode::ParseTag || st.mode == ReadMode::ParseTagPrimaryArg) ==> st.cur is Tag
    &&& (st.mode == ReadMode::ParseParabreak || st.mode == ReadMode::ParseScenebreak) ==> st.cur is Null
}

proof fn lemma_push_merged(out: Seq<InstrV>, x: InstrV)
    requires
        well_merged(out),
        !(x is Null),
        x is Text ==> x->Text_0.len() > 0 && !ends_in_text(out),
    ensures
        well_merged(out.push(x)),
{
    let o = out.push(x);
    assert forall|k: int| 0 <= k < o.len() - 1 implies !((#[trigger] o[k] is Text) && o[k + 1] is Text) by {
        if k + 1 < out.len() {
            assert(o[k] == out[k] && o[k + 1] == out[k + 1]);
        } else {
            assert(o[k] == out.last());
        }
    }
    assert forall|k: int| 0 <= k < o.len() implies !(#[trigger] o[k] is Null) by {
        if k < out.len() {
            assert(o[k] == out[k]);
        }
    }
    assert forall|k: int| 0 <= k < o.len() && (#[trigger] o[k] is Text) implies o[k]->Text_0.len() > 0 by {
        if k < out.len() {
            assert(o[k] == out[k]);
        }
    }
}

proof fn lemma_entity_nonempty(c: char)
    ensures
        entity(c).len() > 0,
{
}

proof fn lemma_text_step_inv(st: TokV, c: char)
    requires
        merge_inv(st),
        st.mode == ReadMode::ParseText,
    ensures
        merge_inv(text_step(st, c)),
{
    lemma_entity_nonempty(c);
    if c == '[' || is_newline(c) {
        if st.cur is Text {
            lemma_push_merged(st.out, st.cur);
            assert(ends_in_text(st.out.push(st.cur)));
        }
    }
}

proof fn lemma_merge_step(st: TokV, c: char)
    requires
        merge_inv(st),
    ensures
        merge_inv(tok_step(st, c)),
{
    lemma_entity_nonempty(c);
    match st.mode {
        ReadMode::ParseText => lemma_text_step_inv(st, c),
        ReadMode::ParseEscape => {},
        ReadMode::ParseTag => {
            if c == ']' {
                lemma_push_merged(st.out, st.cur);
            }
        },
        ReadMode::ParseTagPrimaryArg => {
            if c == ']' {
                lemma_push_merged(st.out, st.cur);
            }
        },
        ReadMode::ParseParabreak => {
            if c == '\t' {
                lemma_push_merged(st.out, InstrV::Parabreak(st.ws.push(c)));
            } else if !is_newline(c) && c != ' ' {
                lemma_push_merged(st.out, InstrV::Linebreak);
                lemma_text_step_inv(TokV { mode: ReadMode::ParseText, ..emit(st, InstrV::Linebreak) }, c);
            }
        },
        ReadMode::ParseScenebreak => {
            if is_newline(c) {
                lemma_push_merged(st.out, InstrV::Scenebreak);
            } else if c != ' ' {
                lemma_push_merged(st.out, InstrV::Parabreak(st.ws));
                lemma_text_step_inv(
                    TokV { mode: ReadMode::ParseText, ws: seq![], ..emit(st, InstrV::Parabreak(st.ws)) },
                    c,
                );
            }
        },
    }
}

proof fn lemma_merge_run(s: Seq<char>)
    ensures
        merge_inv(tok_run(s)),
    decreases s.len(),
{
    if s.len() > 0 {
        lemma_merge_run(s.drop_last());
        lemma_merge_step(tok_run(s.drop_last()), s.last());
    }
}

/// The tokenizer emits no `Null`, no empty text and no two texts in a row.
pub proof fn lemma_tokens_well_merged(s: Seq<char>)
    ensures
        well_merged(tokenize_spec(s)),
{
    lemma_merge_run(s);
    let st = tok_run(s);
    if !(st.cur is Null) {
        lemma_push_merged(st.out, st.cur);
    }
}

/// Struct for BBCode tokenization.
pub struct BBCodeTokenizer {
    mode: ReadMode,
    current_instruction: Instruction,
    whitespace: String,
    instructions: Vec<Instruction>,
}

impl BBCodeTokenizer {
    pub closed spec fn state(&self) -> TokV {
        TokV {
            mode: self.mode,
            cur: self.current_instruction@,
            ws: self.whitespace@,
            out: instrs_view(self.instructions@),
        }
    }

    /// Creates a new BBCodeTokenizer
    pub fn new() -> (r: BBCodeTokenizer)
        ensures
            r.state() == tok_init(),
    {
        let r = BBCodeTokenizer {
            mode: ReadMode::ParseText,
            current_instruction: Instruction::Null,
            whitespace: String::new(),
            instructions: Vec::new(),
        };
        assert(instrs_view(r.instructions@) =~= seq![]);
        r
    }

    /// Reads and tokenizes BBCode into individual Instructions.
    pub fn tokenize(&mut self, bbcode: &str) -> (r: Vec<Instruction>)
        ensures
            instrs_view(r@) == tokenize_spec(bbcode@),
    {
        self.mode = ReadMode::ParseText;
        self.current_instruction = Instruction::Null;
        self.whitespace = String::new();
        self.instructions = Vec::new();
        assert(instrs_view(self.instructions@) =~= seq![]);
        let chars = crate::text::chars_of(bbcode);
        let mut i: usize = 0;
        while i < chars.len()
            invariant
                chars@ == bbcode@,
                i <= chars@.len(),
                self.state() == tok_run(chars@.take(i as int)),
            decreases chars@.len() - i,
        {
            let c = chars[i];
            proof {
                assert(chars@.take(i + 1).drop_last() =~= chars@.take(i as int));
            }
            match self.mode {
                ReadMode::ParseText => self.parse_text(c),
                ReadMode::ParseEscape => self.parse_escape(c),
                ReadMode::ParseTag => self.parse_tag(c),
                ReadMode::ParseTagPrimaryArg => self.parse_tag_primary_arg(c),
                ReadMode::ParseParabreak => self.parse_parabreak(c),
                ReadMode::ParseScenebreak => self.parse_scenebreak(c),
            }
            i = i + 1;
        }
        assert(chars@.take(chars@.len() as int) =~= chars@);
        self.set_cur_instruction();
        let mut out: Vec<Instruction> = Vec::new();
        std::mem::swap(&mut out, &mut self.instructions);
        out
    }

    /// Adds text to the pending instruction.
    fn push_text(&mut self, s: &str)
        ensures
            final(self).state() == (TokV { cur: append_text(old(self).state().cur, s@), ..old(self).state() }),
    {
        let mut cur = Instruction::Null;
        std::mem::swap(&mut cur, &mut self.current_instruction);
        let next = match cur {
            Instruction::Text(t) => {
                let mut t2 = t;
                t2.append(s);
                Instruction::Text(t2)
            },
            _ => Instruction::Text(String::from_str(s)),
        };
        self.current_instruction = next;
    }

    /// Adds one character to the pending text.
    fn push_text_char(&mut self, c: char)
        ensures
            final(self).state() == (TokV { cur: append_text(old(self).state().cur, seq![c]), ..old(self).state() }),
    {
        let t = crate::text::char_string(c);
        self.push_text(t.as_str());
    }

    /// Adds text to the name of the pending tag.
    fn push_tag_name(&mut self, s: &str)
        ensures
            final(self).state() == (TokV { cur: push_name(old(self).state().cur, s@), ..old(self).state() }),
    {
        let mut cur = Instruction::Null;
        std::mem::swap(&mut cur, &mut self.current_instruction);
        let next = match cur {
            Instruction::Tag(n, a) => {
                let mut n2 = n;
                n2.append(s);
                Instruction::Tag(n2, a)
            },
            other => other,
        };
        self.current_instruction = next;
    }

    /// Adds text to the argument of the pending tag, creating the argument if needed.
    fn push_tag_arg(&mut self, s: &str)
        ensures
            final(self).state() == (TokV { cur: push_arg(old(self).state().cur, s@), ..old(self).state() }),
    {
        let mut cur = Instruction::Null;
        std::mem::swap(&mut cur, &mut self.current_instruction);
        let next = match cur {
            Instruction::Tag(n, Some(a)) => {
                let mut a2 = a;
                a2.append(s);
                Instruction::Tag(n, Some(a2))
            },
            Instruction::Tag(n, None) => Instruction::Tag(n, Some(String::from_str(s))),
            other => other,
        };
        self.current_instruction = next;
    }

    /// Parses characters.
    fn parse_text(&mut self, character: char)
        ensures
            final(self).state() == text_step(old(self).state(), character),
    {
        if character == '\\' {
            self.mode = ReadMode::ParseEscape;
        } else if character == '[' {
            self.set_cur_instruction();
            self.current_instruction = Instruction::Tag(String::new(), None);
            self.mode = ReadMode::ParseTag;
        } else if character == '\n' || character == '\r' {
            self.set_cur_instruction();
            let mut ws = String::new();
            ws.push(character);
            assert(ws@ =~= seq![character]);
            self.whitespace = ws;
            self.mode = ReadMode::ParseParabreak;
        } else if character == '<' || character == '>' || character == '&' || character == '"'
            || character == '\'' {
            let san = self.sanitize(character);
            self.push_text(san.as_str());
        } else {
            self.push_text_char(character);
        }
    }

    /// Parses paragraph breaks.
    fn parse_parabreak(&mut self, character: char)
        requires
            old(self).state().mode == ReadMode::ParseParabreak,
        ensures
            final(self).state() == parabreak_step(old(self).state(), character),
    {
        if character == '\t' {
            let mut ws = String::new();
            std::mem::swap(&mut ws, &mut self.whitespace);
            ws.push(character);
            self.whitespace = String::new();
            self.set_new_instruction(Instruction::Parabreak(ws));
            self.mode = ReadMode::ParseText;
        } else if character == '\n' || character == '\r' {
            self.whitespace.push(character);
            self.mode = ReadMode::ParseScenebreak;
        } else if character == ' ' {
        } else {
            self.set_new_instruction(Instruction::Linebreak);
            self.mode = ReadMode::ParseText;
            self.parse_text(character);
        }
    }

    /// Parses scene breaks (three newlines).
    fn parse_scenebreak(&mut self, character: char)
        requires
            old(self).state().mode == ReadMode::ParseScenebreak,
        ensures
            final(self).state() == scenebreak_step(old(self).state(), character),
    {
        if character == '\n' || character == '\r' {
            self.set_new_instruction(Instruction::Scenebreak);
            self.mode = ReadMode::ParseText;
        } else if character == ' ' {
        } else {
            let mut ws = String::new();
            std::mem::swap(&mut ws, &mut self.whitespace);
            self.set_new_instruction(Instruction::Parabreak(ws));
            self.mode = ReadMode::ParseText;
            self.parse_text(character);
        }
    }

    /// Parses escaped characters.
    fn parse_escape(&mut self, character: char)
        ensures
            final(self).state() == escape_step(old(self).state(), character),
    {
        self.mode = ReadMode::ParseText;
        if character == '<' || character == '>' || character == '&' || character == '"'
            || character == '\'' || character == '\\' {
            let san = self.sanitize(character);
            self.push_text(san.as_str());
        } else {
            self.push_text_char(character);
        }
    }

    /// Parses BBCode tags.
    fn parse_tag(&mut self, character: char)
        ensures
            final(self).state() == tag_step(old(self).state(), character),
    {
        if character == ']' {
            self.set_cur_instruction();
            self.mode = ReadMode::ParseText;
        } else if character == '=' {
            let empty = String::new();
            self.push_tag_arg(empty.as_str());
            self.mode = ReadMode::ParseTagPrimaryArg;
        } else if character == '<' || character == '>' || character == '&' || character == '"'
            || character == '\'' || character == '\\' {
            let san = self.sanitize(character);
            self.push_tag_name(san.as_str());
        } else {
            let t = crate::text::char_string(character);
            self.push_tag_name(t.as_str());
        }
    }

    /// Parses BBCode tag arguments.
    fn parse_tag_primary_arg(&mut self, character: char)
        ensures
            final(self).state() == arg_step(old(self).state(), character),
    {
        if character == ']' {
            self.set_cur_instruction();
            self.mode = ReadMode::ParseText;
        } else if character == '<' || character == '>' || character == '&' || character == '"'
            || character == '\'' || character == '\\' {
            let san = self.sanitize(character);
            self.push_tag_arg(san.as_str());
        } else {
            let t = crate::text::char_string(character);
            self.push_tag_arg(t.as_str());
        }
    }

    /// Adds current instruction to instruction vector and resets current instruction.
    fn set_cur_instruction(&mut self)
        ensures
            final(self).state() == flush(old(self).state()),
    {
        let mut cur = Instruction::Null;
        std::mem::swap(&mut cur, &mut self.current_instruction);
        match cur {
            Instruction::Null => {},
            _ => {
                self.instructions.push(cur);
                assert(instrs_view(self.instructions@) =~= instrs_view(old(self).instructions@).push(old(self).current_instruction@));
            },
        }
    }

    /// Adds a given instruction to instruction vector and resets current instruction.
    fn set_new_instruction(&mut self, instruction: Instruction)
        ensures
            final(self).state() == emit(old(self).state(), instruction@),
    {
        self.instructions.push(instruction);
        self.current_instruction = Instruction::Null;
        assert(instrs_view(self.instructions@) =~= instrs_view(old(self).instructions@).push(instruction@));
    }

    /// Sanitizes characters for HTML.
    fn sanitize(&self, character: char) -> (r: String)
        requires
            is_escaped(character),
        ensures
            r@ == entity(character),
    {
        proof {
            reveal_strlit("&lt");
            reveal_strlit("&gt");
            reveal_strlit("&amp");
            reveal_strlit("&quot");
            reveal_strlit("&#x27");
            reveal_strlit("&#x2F");
        }
        let s = if character == '<' {
            "&lt"
        } else if character == '>' {
            "&gt"
        } else if character == '&' {
            "&amp"
        } else if character == '"' {
            "&quot"
        } else if character == '\'' {
            "&#x27"
        } else {
            "&#x2F"
        };
        let r = String::from_str(s);
        assert(r@ =~= entity(character));
        r
    }
}

} // verus!
