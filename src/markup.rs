//! Class-mode emission: scope changes from the tokenizer become nested
//! `<span class="...">` elements around escaped text.
use vstd::prelude::*;
use vstd::string::*;
use vstd::utf8::*;

use crate::trusted::{append_escaped, byte_slice, char_boundary, dots_to_spaces, escape, escape_char};

verus! {

broadcast use encode_utf8_decode_utf8;

/// One basic change of the scope stack, with the pushed scope written out as
/// its dotted name (`source.rust`).
pub enum ScopeEvent {
    Push(String),
    Pop,
}

/// What a [`ScopeEvent`] says, as plain values.
pub enum EventView {
    Push(Seq<char>),
    Pop,
}

impl View for ScopeEvent {
    type V = EventView;

    open spec fn view(&self) -> EventView {
        match self {
            ScopeEvent::Push(s) => EventView::Push(s@),
            ScopeEvent::Pop => EventView::Pop,
        }
    }
}

/// The scope changes that the tokenizer reports at one byte offset of a line.
pub struct ClassToken {
    pub offset: usize,
    pub events: Vec<ScopeEvent>,
}

pub struct TokenView {
    pub offset: nat,
    pub events: Seq<EventView>,
}

impl View for ClassToken {
    type V = TokenView;

    open spec fn view(&self) -> TokenView {
        TokenView { offset: self.offset as nat, events: self.events@.map_values(|e: ScopeEvent| e@) }
    }
}

pub open spec fn tokens_view(toks: Seq<ClassToken>) -> Seq<TokenView> {
    toks.map_values(|t: ClassToken| t@)
}

/// The pieces of class-mode output: escaped text, an opening span for a
/// scope, and a closing span.
pub enum Markup {
    Text(Seq<char>),
    Open(Seq<char>),
    Close,
}

pub open spec fn open_span_head() -> Seq<char> {
    seq!['<', 's', 'p', 'a', 'n', ' ', 'c', 'l', 'a', 's', 's', '=', '"']
}

pub open spec fn open_span_tail() -> Seq<char> {
    seq!['"', '>']
}

pub open spec fn close_span() -> Seq<char> {
    seq!['<', '/', 's', 'p', 'a', 'n', '>']
}

/// The class attribute of a scope: its atoms separated by spaces, escaped.
pub open spec fn scope_classes(name: Seq<char>) -> Seq<char> {
    escape(name.map_values(|c: char| if c == '.' { ' ' } else { c }))
}

pub open spec fn markup_html(m: Markup) -> Seq<char> {
    match m {
        Markup::Text(t) => escape(t),
        Markup::Open(n) => open_span_head() + scope_classes(n) + open_span_tail(),
        Markup::Close => close_span(),
    }
}

/// The HTML of a sequence of pieces, in order.
pub open spec fn render(ms: Seq<Markup>) -> Seq<char>
    decreases ms.len(),
{
    if ms.len() == 0 {
        seq![]
    } else {
        render(ms.drop_last()) + markup_html(ms.last())
    }
}

/// Number of opening spans among the pieces.
pub open spec fn count_open(ms: Seq<Markup>) -> nat
    decreases ms.len(),
{
    if ms.len() == 0 {
        0
    } else {
        count_open(ms.drop_last()) + if ms.last() is Open { 1nat } else { 0nat }
    }
}

/// Number of closing spans among the pieces.
pub open spec fn count_close(ms: Seq<Markup>) -> nat
    decreases ms.len(),
{
    if ms.len() == 0 {
        0
    } else {
        count_close(ms.drop_last()) + if ms.last() is Close { 1nat } else { 0nat }
    }
}

/// A push opens a span; a pop closes one if any is open and is ignored otherwise.
pub open spec fn event_markup(e: EventView, pending: nat) -> Seq<Markup> {
    match e {
        EventView::Push(n) => seq![Markup::Open(n)],
        EventView::Pop => if pending > 0 { seq![Markup::Close] } else { seq![] },
    }
}

pub open spec fn event_pending(e: EventView, pending: nat) -> nat {
    match e {
        EventView::Push(_) => pending + 1,
        EventView::Pop => if pending > 0 { (pending - 1) as nat } else { 0 },
    }
}

pub open spec fn events_pending(evs: Seq<EventView>, p: nat) -> nat
    decreases evs.len(),
{
    if evs.len() == 0 {
        p
    } else {
        event_pending(evs.last(), events_pending(evs.drop_last(), p))
    }
}

pub open spec fn events_markup(evs: Seq<EventView>, p: nat) -> Seq<Markup>
    decreases evs.len(),
{
    if evs.len() == 0 {
        seq![]
    } else {
        events_markup(evs.drop_last(), p) + event_markup(
            evs.last(),
            events_pending(evs.drop_last(), p),
        )
    }
}

/// Number of pushes among the events.
pub open spec fn push_count(evs: Seq<EventView>) -> nat
    decreases evs.len(),
{
    if evs.len() == 0 {
        0
    } else {
        push_count(evs.drop_last()) + if evs.last() is Push { 1nat } else { 0nat }
    }
}

pub open spec fn is_continuation(b: u8) -> bool {
    0x80 <= b < 0xC0
}

/// The first character boundary at or after `k`.
pub open spec fn next_boundary(bytes: Seq<u8>, k: int) -> int
    decreases bytes.len() - k,
{
    if k < 0 || k >= bytes.len() || !is_continuation(bytes[k]) {
        k
    } else {
        next_boundary(bytes, k + 1)
    }
}

/// Where the text of a line stops before a token: the first character
/// boundary at or after its offset, never before the previous stop nor past
/// the end of the line.
pub open spec fn advance(bytes: Seq<u8>, cursor: int, offset: int) -> int {
    let k = if offset > cursor { offset } else { cursor };
    next_boundary(bytes, if k > bytes.len() { bytes.len() as int } else { k })
}

pub open spec fn cursor_after(bytes: Seq<u8>, toks: Seq<TokenView>, i: int) -> int
    decreases i,
{
    if i <= 0 {
        0
    } else {
        advance(bytes, cursor_after(bytes, toks, i - 1), toks[i - 1].offset as int)
    }
}

pub open spec fn tokens_pending(toks: Seq<TokenView>, i: int, p: nat) -> nat
    decreases i,
{
    if i <= 0 {
        p
    } else {
        events_pending(toks[i - 1].events, tokens_pending(toks, i - 1, p))
    }
}

pub open spec fn text_between(bytes: Seq<u8>, a: int, b: int) -> Seq<char> {
    decode_utf8(bytes.subrange(a, b))
}

pub open spec fn tokens_markup(bytes: Seq<u8>, toks: Seq<TokenView>, i: int, p: nat) -> Seq<Markup>
    decreases i,
{
    if i <= 0 {
        seq![]
    } else {
        tokens_markup(bytes, toks, i - 1, p) + seq![
            Markup::Text(
                text_between(bytes, cursor_after(bytes, toks, i - 1), cursor_after(bytes, toks, i)),
            ),
        ] + events_markup(toks[i - 1].events, tokens_pending(toks, i - 1, p))
    }
}

/// The pieces of one line: the text before each token, then its scope
/// changes, and at the end the rest of the line.
pub open spec fn line_markup(line: Seq<char>, toks: Seq<TokenView>, p: nat) -> Seq<Markup> {
    let bytes = encode_utf8(line);
    tokens_markup(bytes, toks, toks.len() as int, p) + seq![
        Markup::Text(
            text_between(bytes, cursor_after(bytes, toks, toks.len() as int), bytes.len() as int),
        ),
    ]
}

/// Spans still open after the line.
pub open spec fn line_pending(toks: Seq<TokenView>, p: nat) -> nat {
    tokens_pending(toks, toks.len() as int, p)
}

pub open spec fn line_pushes(toks: Seq<TokenView>, i: int) -> nat
    decreases i,
{
    if i <= 0 {
        0
    } else {
        line_pushes(toks, i - 1) + push_count(toks[i - 1].events)
    }
}

pub proof fn lemma_render_append(a: Seq<Markup>, b: Seq<Markup>)
    ensures
        render(a + b) == render(a) + render(b),
    decreases b.len(),
{
    if b.len() == 0 {
        assert(a + b =~= a);
    } else {
        lemma_render_append(a, b.drop_last());
        assert((a + b).drop_last() =~= a + b.drop_last());
    }
}

proof fn lemma_events_pending_bound(evs: Seq<EventView>, p: nat)
    ensures
        events_pending(evs, p) <= p + push_count(evs),
    decreases evs.len(),
{
    if evs.len() > 0 {
        lemma_events_pending_bound(evs.drop_last(), p);
    }
}

proof fn lemma_next_boundary(bytes: Seq<u8>, k: int)
    requires
        0 <= k <= bytes.len(),
    ensures
        k <= next_boundary(bytes, k) <= bytes.len(),
        char_boundary(bytes, next_boundary(bytes, k)),
    decreases bytes.len() - k,
{
    if k < bytes.len() && is_continuation(bytes[k]) {
        lemma_next_boundary(bytes, k + 1);
    }
}

proof fn lemma_cursor(bytes: Seq<u8>, toks: Seq<TokenView>, i: int)
    requires
        0 <= i,
    ensures
        0 <= cursor_after(bytes, toks, i) <= bytes.len(),
        char_boundary(bytes, cursor_after(bytes, toks, i)),
    decreases i,
{
    if i > 0 {
        lemma_cursor(bytes, toks, i - 1);
        let c = cursor_after(bytes, toks, i - 1);
        let o = toks[i - 1].offset as int;
        let k = if o > c { o } else { c };
        lemma_next_boundary(bytes, if k > bytes.len() { bytes.len() as int } else { k });
    }
}

/// The first character boundary at or after `max(cursor, offset)`.
fn advance_cursor(bytes: &[u8], cursor: usize, offset: usize) -> (r: usize)
    requires
        cursor <= bytes@.len(),
    ensures
        r == advance(bytes@, cursor as int, offset as int),
        cursor <= r <= bytes@.len(),
{
    let mut k: usize = if offset > cursor { offset } else { cursor };
    if k > bytes.len() {
        k = bytes.len();
    }
    while k < bytes.len() && 0x80 <= bytes[k] && bytes[k] < 0xC0
        invariant
            cursor <= k <= bytes@.len(),
            next_boundary(bytes@, k as int) == advance(bytes@, cursor as int, offset as int),
        decreases bytes@.len() - k,
    {
        k = k + 1;
    }
    k
}

/// Appends the spans of one batch of scope changes. `pending` counts the
/// spans open so far.
fn emit_events(evs: &Vec<ScopeEvent>, html: &mut String, pending: &mut usize)
    requires
        *old(pending) + push_count(evs@.map_values(|e: ScopeEvent| e@)) <= usize::MAX,
    ensures
        final(html)@ == old(html)@ + render(
            events_markup(evs@.map_values(|e: ScopeEvent| e@), *old(pending) as nat),
        ),
        *final(pending) == events_pending(
            evs@.map_values(|e: ScopeEvent| e@),
            *old(pending) as nat,
        ),
{
    let ghost ev = evs@.map_values(|e: ScopeEvent| e@);
    let ghost p0 = *pending as nat;
    let mut j: usize = 0;
    while j < evs.len()
        invariant
            j <= evs@.len(),
            ev == evs@.map_values(|e: ScopeEvent| e@),
            p0 + push_count(ev) <= usize::MAX,
            html@ == old(html)@ + render(events_markup(ev.take(j as int), p0)),
            *pending == events_pending(ev.take(j as int), p0),
        decreases evs@.len() - j,
    {
        proof {
            assert(ev.take(j + 1).drop_last() =~= ev.take(j as int));
            lemma_events_pending_bound(ev.take(j as int), p0);
            lemma_push_count_prefix(ev, j as int);
            lemma_render_append(
                events_markup(ev.take(j as int), p0),
                event_markup(ev[j as int], events_pending(ev.take(j as int), p0)),
            );
        }
        match &evs[j] {
            ScopeEvent::Push(name) => {
                let spaced = dots_to_spaces(name.as_str());
                html.append("<span class=\"");
                append_escaped(html, spaced.as_str());
                html.append("\">");
                *pending = *pending + 1;
                proof {
                    reveal_strlit("<span class=\"");
                    reveal_strlit("\">");
                    let m = seq![Markup::Open(name@)];
                    assert(m.drop_last() =~= Seq::<Markup>::empty());
                    assert(render(Seq::<Markup>::empty()) =~= Seq::<char>::empty());
                    assert(render(m) =~= markup_html(Markup::Open(name@)));
                }
            },
            ScopeEvent::Pop => {
                if *pending > 0 {
                    html.append("</span>");
                    *pending = *pending - 1;
                    proof {
                        reveal_strlit("</span>");
                        let m = seq![Markup::Close];
                        assert(m.drop_last() =~= Seq::<Markup>::empty());
                        assert(render(Seq::<Markup>::empty()) =~= Seq::<char>::empty());
                        assert(render(m) =~= close_span());
                    }
                } else {
                    proof {
                        assert(render(Seq::<Markup>::empty()) =~= Seq::<char>::empty());
                    }
                }
            },
        }
        j = j + 1;
        proof {
            assert(html@ =~= old(html)@ + render(events_markup(ev.take(j as int), p0)));
        }
    }
    proof {
        assert(ev.take(evs@.len() as int) =~= ev);
    }
}

proof fn lemma_push_count_prefix(ev: Seq<EventView>, j: int)
    requires
        0 <= j < ev.len(),
    ensures
        push_count(ev.take(j)) + (if ev[j] is Push { 1nat } else { 0nat }) <= push_count(ev),
    decreases ev.len(),
{
    if j < ev.len() - 1 {
        lemma_push_count_prefix(ev.drop_last(), j);
        assert(ev.drop_last().take(j) =~= ev.take(j));
    } else {
        assert(ev.drop_last() =~= ev.take(j));
    }
}

/// Appends the class-mode HTML of one line: the escaped text between the
/// tokens, and a span opened or closed for each scope change. `pending`
/// counts the spans left open, across lines.
pub fn emit_class_line(line: &str, tokens: &Vec<ClassToken>, html: &mut String, pending: &mut usize)
    requires
        *old(pending) + line_pushes(tokens_view(tokens@), tokens@.len() as int) <= usize::MAX,
    ensures
        final(html)@ == old(html)@ + render(
            line_markup(line@, tokens_view(tokens@), *old(pending) as nat),
        ),
        *final(pending) == line_pending(tokens_view(tokens@), *old(pending) as nat),
{
    let ghost tv = tokens_view(tokens@);
    let ghost p0 = *pending as nat;
    let ghost h0 = html@;
    let bytes = line.as_bytes();
    let ghost bs = bytes@;
    assert(bs == encode_utf8(line@));
    let mut cursor: usize = 0;
    let mut i: usize = 0;
    while i < tokens.len()
        invariant
            i <= tokens@.len(),
            tv == tokens_view(tokens@),
            bs == bytes@,
            bs == line.spec_bytes(),
            p0 + line_pushes(tv, tokens@.len() as int) <= usize::MAX,
            cursor == cursor_after(bs, tv, i as int),
            html@ == h0 + render(tokens_markup(bs, tv, i as int, p0)),
            *pending == tokens_pending(tv, i as int, p0),
        decreases tokens@.len() - i,
    {
        proof {
            lemma_cursor(bs, tv, i as int);
            lemma_pending_bound(tv, i as int, p0);
            lemma_pushes_mono(tv, i as int + 1, tokens@.len() as int);
        }
        let tok = &tokens[i];
        assert(tok@ == tv[i as int]);
        let next = advance_cursor(bytes, cursor, tok.offset);
        proof {
            lemma_cursor(bs, tv, i as int + 1);
        }
        let piece = byte_slice(line, cursor, next);
        assert(piece@ == decode_utf8(encode_utf8(piece@)));
        append_escaped(html, piece);
        let ghost mid = html@;
        emit_events(&tok.events, html, pending);
        proof {
            let text = seq![Markup::Text(text_between(bs, cursor as int, next as int))];
            let evm = events_markup(tv[i as int].events, tokens_pending(tv, i as int, p0));
            assert(text.drop_last() =~= Seq::<Markup>::empty());
            assert(render(Seq::<Markup>::empty()) =~= Seq::<char>::empty());
            assert(render(text) =~= escape(piece@));
            lemma_render_append(tokens_markup(bs, tv, i as int, p0), text);
            lemma_render_append(tokens_markup(bs, tv, i as int, p0) + text, evm);
        }
        cursor = next;
        i = i + 1;
        proof {
            assert(html@ =~= h0 + render(tokens_markup(bs, tv, i as int, p0)));
        }
    }
    proof {
        lemma_cursor(bs, tv, i as int);
    }
    let rest = byte_slice(line, cursor, bytes.len());
    assert(rest@ == decode_utf8(encode_utf8(rest@)));
    append_escaped(html, rest);
    proof {
        let text = seq![Markup::Text(text_between(bs, cursor as int, bs.len() as int))];
        assert(text.drop_last() =~= Seq::<Markup>::empty());
        assert(render(Seq::<Markup>::empty()) =~= Seq::<char>::empty());
        assert(render(text) =~= escape(rest@));
        lemma_render_append(tokens_markup(bs, tv, i as int, p0), text);
        assert(html@ =~= h0 + render(line_markup(line@, tv, p0)));
    }
}

/// Whether `pending` plus the pushes of the tokens fits in a `usize`.
pub fn pushes_fit(tokens: &Vec<ClassToken>, pending: usize) -> (r: bool)
    ensures
        r == (pending + line_pushes(tokens_view(tokens@), tokens@.len() as int) <= usize::MAX),
{
    let ghost tv = tokens_view(tokens@);
    let mut room: usize = usize::MAX - pending;
    let mut i: usize = 0;
    while i < tokens.len()
        invariant
            i <= tokens@.len(),
            tv == tokens_view(tokens@),
            room + pending + line_pushes(tv, i as int) == usize::MAX,
        decreases tokens@.len() - i,
    {
        let evs = &tokens[i].events;
        assert(evs@.map_values(|e: ScopeEvent| e@) == tv[i as int].events);
        let mut j: usize = 0;
        while j < evs.len()
            invariant
                j <= evs@.len(),
                i < tokens@.len(),
                tv == tokens_view(tokens@),
                evs@.map_values(|e: ScopeEvent| e@) == tv[i as int].events,
                room + pending + line_pushes(tv, i as int) + push_count(
                    tv[i as int].events.take(j as int),
                ) == usize::MAX,
            decreases evs@.len() - j,
        {
            let ghost ev = tv[i as int].events;
            assert(ev.take(j + 1).drop_last() =~= ev.take(j as int));
            if let ScopeEvent::Push(_) = &evs[j] {
                if room == 0 {
                    proof {
                        lemma_push_count_prefix(ev, j as int);
                        lemma_pushes_mono(tv, i as int + 1, tokens@.len() as int);
                    }
                    return false;
                }
                room = room - 1;
            }
            j = j + 1;
        }
        assert(tv[i as int].events.take(evs@.len() as int) =~= tv[i as int].events);
        i = i + 1;
    }
    true
}

proof fn lemma_pushes_mono(tv: Seq<TokenView>, i: int, n: int)
    requires
        0 <= i <= n,
    ensures
        line_pushes(tv, i) <= line_pushes(tv, n),
    decreases n - i,
{
    if i < n {
        lemma_pushes_mono(tv, i, n - 1);
    }
}

proof fn lemma_pending_bound(tv: Seq<TokenView>, i: int, p: nat)
    requires
        0 <= i,
    ensures
        tokens_pending(tv, i, p) <= p + line_pushes(tv, i),
    decreases i,
{
    if i > 0 {
        lemma_pending_bound(tv, i - 1, p);
        lemma_events_pending_bound(tv[i - 1].events, tokens_pending(tv, i - 1, p));
    }
}

/// Spans still open after the first `i` lines.
pub open spec fn block_pending(toks: Seq<Seq<TokenView>>, i: int) -> nat
    decreases i,
{
    if i <= 0 {
        0
    } else {
        line_pending(toks[i - 1], block_pending(toks, i - 1))
    }
}

/// The pieces of the first `i` lines, the open spans carried from line to line.
pub open spec fn block_markup(lines: Seq<Seq<char>>, toks: Seq<Seq<TokenView>>, i: int) -> Seq<Markup>
    decreases i,
{
    if i <= 0 {
        seq![]
    } else {
        block_markup(lines, toks, i - 1) + line_markup(
            lines[i - 1],
            toks[i - 1],
            block_pending(toks, i - 1),
        )
    }
}

pub open spec fn closing(n: nat) -> Seq<Markup> {
    Seq::new(n, |_i: int| Markup::Close)
}

/// The class-mode pieces of a whole block: every line, then one closing span
/// for each span still open.
pub open spec fn class_body(lines: Seq<Seq<char>>, toks: Seq<Seq<TokenView>>) -> Seq<Markup> {
    block_markup(lines, toks, lines.len() as int) + closing(
        block_pending(toks, lines.len() as int),
    )
}

proof fn lemma_counts_append(a: Seq<Markup>, b: Seq<Markup>)
    ensures
        count_open(a + b) == count_open(a) + count_open(b),
        count_close(a + b) == count_close(a) + count_close(b),
    decreases b.len(),
{
    if b.len() == 0 {
        assert(a + b =~= a);
    } else {
        lemma_counts_append(a, b.drop_last());
        assert((a + b).drop_last() =~= a + b.drop_last());
    }
}

proof fn lemma_events_balance(evs: Seq<EventView>, p: nat)
    ensures
        count_open(events_markup(evs, p)) + p == count_close(events_markup(evs, p))
            + events_pending(evs, p),
    decreases evs.len(),
{
    if evs.len() > 0 {
        let q = events_pending(evs.drop_last(), p);
        lemma_events_balance(evs.drop_last(), p);
        let m = event_markup(evs.last(), q);
        lemma_counts_append(events_markup(evs.drop_last(), p), m);
        assert(count_open(Seq::<Markup>::empty()) == 0);
        assert(count_close(Seq::<Markup>::empty()) == 0);
        assert(m.len() == 0 || m.len() == 1);
        if m.len() == 1 {
            assert(m.drop_last() =~= Seq::<Markup>::empty());
        } else {
            assert(m =~= Seq::<Markup>::empty());
        }
    }
}

proof fn lemma_text_piece(t: Seq<char>)
    ensures
        count_open(seq![Markup::Text(t)]) == 0,
        count_close(seq![Markup::Text(t)]) == 0,
{
    assert(seq![Markup::Text(t)].drop_last() =~= Seq::<Markup>::empty());
    assert(count_open(Seq::<Markup>::empty()) == 0);
    assert(count_close(Seq::<Markup>::empty()) == 0);
}

proof fn lemma_tokens_balance(bytes: Seq<u8>, toks: Seq<TokenView>, i: int, p: nat)
    requires
        0 <= i <= toks.len(),
    ensures
        count_open(tokens_markup(bytes, toks, i, p)) + p == count_close(
            tokens_markup(bytes, toks, i, p),
        ) + tokens_pending(toks, i, p),
    decreases i,
{
    if i > 0 {
        lemma_tokens_balance(bytes, toks, i - 1, p);
        let prev = tokens_markup(bytes, toks, i - 1, p);
        let text = seq![
            Markup::Text(
                text_between(bytes, cursor_after(bytes, toks, i - 1), cursor_after(bytes, toks, i)),
            ),
        ];
        let q = tokens_pending(toks, i - 1, p);
        lemma_text_piece(text[0]->Text_0);
        lemma_counts_append(prev, text);
        lemma_counts_append(prev + text, events_markup(toks[i - 1].events, q));
        lemma_events_balance(toks[i - 1].events, q);
    }
}

proof fn lemma_line_balance(line: Seq<char>, toks: Seq<TokenView>, p: nat)
    ensures
        count_open(line_markup(line, toks, p)) + p == count_close(line_markup(line, toks, p))
            + line_pending(toks, p),
{
    let bytes = encode_utf8(line);
    let n = toks.len() as int;
    lemma_tokens_balance(bytes, toks, n, p);
    let text = seq![
        Markup::Text(text_between(bytes, cursor_after(bytes, toks, n), bytes.len() as int)),
    ];
    lemma_text_piece(text[0]->Text_0);
    lemma_counts_append(tokens_markup(bytes, toks, n, p), text);
}

proof fn lemma_block_balance(lines: Seq<Seq<char>>, toks: Seq<Seq<TokenView>>, i: int)
    requires
        0 <= i <= lines.len(),
        lines.len() == toks.len(),
    ensures
        count_open(block_markup(lines, toks, i)) == count_close(block_markup(lines, toks, i))
            + block_pending(toks, i),
    decreases i,
{
    if i > 0 {
        lemma_block_balance(lines, toks, i - 1);
        let q = block_pending(toks, i - 1);
        lemma_line_balance(lines[i - 1], toks[i - 1], q);
        lemma_counts_append(block_markup(lines, toks, i - 1), line_markup(lines[i - 1], toks[i - 1], q));
    }
}

proof fn lemma_closing_counts(n: nat)
    ensures
        count_open(closing(n)) == 0,
        count_close(closing(n)) == n,
    decreases n,
{
    if n > 0 {
        lemma_closing_counts((n - 1) as nat);
        assert(closing(n).drop_last() =~= closing((n - 1) as nat));
    }
}

/// Whatever scope changes the tokenizer reports on each line, a class-mode
/// block opens exactly as many spans as it closes.
pub proof fn lemma_tag_balance(lines: Seq<Seq<char>>, toks: Seq<Seq<TokenView>>)
    requires
        lines.len() == toks.len(),
    ensures
        count_open(class_body(lines, toks)) == count_close(class_body(lines, toks)),
{
    let n = lines.len() as int;
    lemma_block_balance(lines, toks, n);
    lemma_closing_counts(block_pending(toks, n));
    lemma_counts_append(block_markup(lines, toks, n), closing(block_pending(toks, n)));
}

/// `&` followed by the rest of one of the entities `&amp;`, `&lt;`, `&gt;`, `&quot;`.
pub open spec fn starts_entity(t: Seq<char>, i: int) -> bool {
    ||| i + 5 <= t.len() && t.subrange(i, i + 5) == seq!['&', 'a', 'm', 'p', ';']
    ||| i + 4 <= t.len() && t.subrange(i, i + 4) == seq!['&', 'l', 't', ';']
    ||| i + 4 <= t.len() && t.subrange(i, i + 4) == seq!['&', 'g', 't', ';']
    ||| i + 6 <= t.len() && t.subrange(i, i + 6) == seq!['&', 'q', 'u', 'o', 't', ';']
}

/// Escaped text holds no `<`, `>` or `"`, and each `&` in it starts one of
/// the entities `&amp;`, `&lt;`, `&gt;`, `&quot;`.
pub proof fn lemma_escape_is_inert(s: Seq<char>)
    ensures
        forall|i: int| 0 <= i < escape(s).len() ==> {
            let c = #[trigger] escape(s)[i];
            c != '<' && c != '>' && c != '"'
        },
        forall|i: int|
            0 <= i < escape(s).len() && #[trigger] escape(s)[i] == '&' ==> starts_entity(
                escape(s),
                i,
            ),
    decreases s.len(),
{
    if s.len() > 0 {
        lemma_escape_is_inert(s.drop_last());
        let a = escape(s.drop_last());
        let b = escape_char(s.last());
        let e = escape(s);
        assert(e == a + b);
        assert forall|i: int| 0 <= i < e.len() && #[trigger] e[i] == '&' implies starts_entity(
            e,
            i,
        ) by {
            if i < a.len() {
                assert(a[i] == '&');
                assert(starts_entity(a, i));
                if i + 5 <= a.len() && a.subrange(i, i + 5) == seq!['&', 'a', 'm', 'p', ';'] {
                    assert(e.subrange(i, i + 5) =~= a.subrange(i, i + 5));
                } else if i + 4 <= a.len() && a.subrange(i, i + 4) == seq!['&', 'l', 't', ';'] {
                    assert(e.subrange(i, i + 4) =~= a.subrange(i, i + 4));
                } else if i + 4 <= a.len() && a.subrange(i, i + 4) == seq!['&', 'g', 't', ';'] {
                    assert(e.subrange(i, i + 4) =~= a.subrange(i, i + 4));
                } else {
                    assert(e.subrange(i, i + 6) =~= a.subrange(i, i + 6));
                }
            } else {
                assert(i == a.len());
                assert(e.subrange(i, e.len() as int) =~= b);
            }
        }
    }
}

/// At `i` begins `<span class="` or `</span>`.
pub open spec fn starts_span_tag(t: Seq<char>, i: int) -> bool {
    ||| i + 13 <= t.len() && t.subrange(i, i + 13) == open_span_head()
    ||| i + 7 <= t.len() && t.subrange(i, i + 7) == close_span()
}

proof fn lemma_marks_extend(a: Seq<char>, b: Seq<char>, i: int)
    requires
        0 <= i < a.len(),
    ensures
        starts_span_tag(a, i) ==> starts_span_tag(a + b, i),
        starts_entity(a, i) ==> starts_entity(a + b, i),
{
    let e = a + b;
    if i + 13 <= a.len() {
        assert(e.subrange(i, i + 13) =~= a.subrange(i, i + 13));
    }
    if i + 7 <= a.len() {
        assert(e.subrange(i, i + 7) =~= a.subrange(i, i + 7));
    }
    if i + 6 <= a.len() {
        assert(e.subrange(i, i + 6) =~= a.subrange(i, i + 6));
    }
    if i + 5 <= a.len() {
        assert(e.subrange(i, i + 5) =~= a.subrange(i, i + 5));
    }
    if i + 4 <= a.len() {
        assert(e.subrange(i, i + 4) =~= a.subrange(i, i + 4));
    }
}

proof fn lemma_marks_shift(a: Seq<char>, b: Seq<char>, j: int)
    requires
        0 <= j < b.len(),
    ensures
        starts_span_tag(b, j) ==> starts_span_tag(a + b, a.len() + j),
        starts_entity(b, j) ==> starts_entity(a + b, a.len() + j),
{
    let e = a + b;
    let i = a.len() + j;
    if j + 13 <= b.len() {
        assert(e.subrange(i, i + 13) =~= b.subrange(j, j + 13));
    }
    if j + 7 <= b.len() {
        assert(e.subrange(i, i + 7) =~= b.subrange(j, j + 7));
    }
    if j + 6 <= b.len() {
        assert(e.subrange(i, i + 6) =~= b.subrange(j, j + 6));
    }
    if j + 5 <= b.len() {
        assert(e.subrange(i, i + 5) =~= b.subrange(j, j + 5));
    }
    if j + 4 <= b.len() {
        assert(e.subrange(i, i + 4) =~= b.subrange(j, j + 4));
    }
}

proof fn lemma_piece_marks(m: Markup)
    ensures
        forall|j: int|
            0 <= j < markup_html(m).len() && #[trigger] markup_html(m)[j] == '<'
                ==> starts_span_tag(markup_html(m), j),
        forall|j: int|
            0 <= j < markup_html(m).len() && #[trigger] markup_html(m)[j] == '&'
                ==> starts_entity(markup_html(m), j),
{
    let h = markup_html(m);
    match m {
        Markup::Text(t) => {
            lemma_escape_is_inert(t);
        },
        Markup::Open(n) => {
            let sp = n.map_values(|c: char| if c == '.' { ' ' } else { c });
            lemma_escape_is_inert(sp);
            let head = open_span_head();
            let cls = scope_classes(n);
            let tail = open_span_tail();
            assert(h == (head + cls) + tail);
            assert forall|j: int| 0 <= j < h.len() && #[trigger] h[j] == '<' implies starts_span_tag(
                h,
                j,
            ) by {
                if j >= head.len() + cls.len() {
                    assert(tail[j - head.len() - cls.len()] == h[j]);
                } else if j >= head.len() {
                    assert(cls[j - head.len()] == h[j]);
                } else {
                    assert(head[j] == h[j]);
                    assert(j == 0);
                    assert(h.subrange(0, 13) =~= head);
                }
            }
            assert forall|j: int| 0 <= j < h.len() && #[trigger] h[j] == '&' implies starts_entity(
                h,
                j,
            ) by {
                if j >= head.len() + cls.len() {
                    assert(tail[j - head.len() - cls.len()] == h[j]);
                } else if j >= head.len() {
                    let k = j - head.len();
                    assert(cls[k] == h[j]);
                    assert(starts_entity(cls, k));
                    lemma_marks_shift(head, cls, k);
                    lemma_marks_extend(head + cls, tail, j);
                } else {
                    assert(head[j] == h[j]);
                }
            }
        },
        Markup::Close => {
            assert forall|j: int| 0 <= j < h.len() && #[trigger] h[j] == '<' implies starts_span_tag(
                h,
                j,
            ) by {
                assert(j == 0);
                assert(h.subrange(0, 7) =~= close_span());
            }
        },
    }
}

/// In class-mode HTML every `<` opens a span tag (`<span class="` or
/// `</span>`) and every `&` starts an entity: text and scope names never
/// reach the output unescaped.
pub proof fn lemma_render_is_well_escaped(ms: Seq<Markup>)
    ensures
        forall|i: int|
            0 <= i < render(ms).len() && #[trigger] render(ms)[i] == '<' ==> starts_span_tag(
                render(ms),
                i,
            ),
        forall|i: int|
            0 <= i < render(ms).len() && #[trigger] render(ms)[i] == '&' ==> starts_entity(
                render(ms),
                i,
            ),
    decreases ms.len(),
{
    if ms.len() > 0 {
        let a = render(ms.drop_last());
        let b = markup_html(ms.last());
        lemma_render_is_well_escaped(ms.drop_last());
        lemma_piece_marks(ms.last());
        let e = render(ms);
        assert(e == a + b);
        assert forall|i: int| 0 <= i < e.len() && (#[trigger] e[i] == '<' || e[i] == '&') implies (
        e[i] == '<' ==> starts_span_tag(e, i)) && (e[i] == '&' ==> starts_entity(e, i)) by {
            if i < a.len() {
                assert(a[i] == e[i]);
                lemma_marks_extend(a, b, i);
            } else {
                assert(b[i - a.len()] == e[i]);
                lemma_marks_shift(a, b, i - a.len());
            }
        }
    }
}

/// The `"` at `i` is the one that opens or closes a class attribute.
pub open spec fn attribute_quote(t: Seq<char>, i: int) -> bool {
    ||| 12 <= i && i + 1 <= t.len() && t.subrange(i - 12, i + 1) == open_span_head()
    ||| i + 2 <= t.len() && t.subrange(i, i + 2) == open_span_tail()
}

/// `style="color:`
pub open spec fn inline_colour_attr() -> Seq<char> {
    seq!['s', 't', 'y', 'l', 'e', '=', '"', 'c', 'o', 'l', 'o', 'r', ':']
}

proof fn lemma_quote_extend(a: Seq<char>, b: Seq<char>, i: int)
    requires
        0 <= i < a.len(),
        attribute_quote(a, i),
    ensures
        attribute_quote(a + b, i),
{
    let e = a + b;
    if 12 <= i && a.subrange(i - 12, i + 1) == open_span_head() {
        assert(e.subrange(i - 12, i + 1) =~= a.subrange(i - 12, i + 1));
    } else {
        assert(e.subrange(i, i + 2) =~= a.subrange(i, i + 2));
    }
}

proof fn lemma_quote_shift(a: Seq<char>, b: Seq<char>, j: int)
    requires
        0 <= j < b.len(),
        attribute_quote(b, j),
    ensures
        attribute_quote(a + b, a.len() + j),
{
    let e = a + b;
    let i = a.len() + j;
    if 12 <= j && b.subrange(j - 12, j + 1) == open_span_head() {
        assert(e.subrange(i - 12, i + 1) =~= b.subrange(j - 12, j + 1));
    } else {
        assert(e.subrange(i, i + 2) =~= b.subrange(j, j + 2));
    }
}

proof fn lemma_piece_quotes(m: Markup)
    ensures
        forall|j: int|
            0 <= j < markup_html(m).len() && #[trigger] markup_html(m)[j] == '"'
                ==> attribute_quote(markup_html(m), j),
{
    let h = markup_html(m);
    match m {
        Markup::Text(t) => {
            lemma_escape_is_inert(t);
        },
        Markup::Open(n) => {
            let sp = n.map_values(|c: char| if c == '.' { ' ' } else { c });
            lemma_escape_is_inert(sp);
            let head = open_span_head();
            let cls = scope_classes(n);
            let tail = open_span_tail();
            assert(h == (head + cls) + tail);
            assert forall|j: int| 0 <= j < h.len() && #[trigger] h[j] == '"' implies attribute_quote(
                h,
                j,
            ) by {
                if j >= head.len() + cls.len() {
                    assert(tail[j - head.len() - cls.len()] == h[j]);
                    assert(j == head.len() + cls.len());
                    assert(h.subrange(j, j + 2) =~= tail);
                } else if j >= head.len() {
                    assert(cls[j - head.len()] == h[j]);
                } else {
                    assert(head[j] == h[j]);
                    assert(j == 12);
                    assert(h.subrange(0, 13) =~= head);
                }
            }
        },
        Markup::Close => {},
    }
}

/// Every `"` of class-mode HTML opens or closes a span's class attribute.
pub proof fn lemma_render_quotes(ms: Seq<Markup>)
    ensures
        forall|i: int|
            0 <= i < render(ms).len() && #[trigger] render(ms)[i] == '"' ==> attribute_quote(
                render(ms),
                i,
            ),
    decreases ms.len(),
{
    if ms.len() > 0 {
        let a = render(ms.drop_last());
        let b = markup_html(ms.last());
        lemma_render_quotes(ms.drop_last());
        lemma_piece_quotes(ms.last());
        let e = render(ms);
        assert(e == a + b);
        assert forall|i: int| 0 <= i < e.len() && #[trigger] e[i] == '"' implies attribute_quote(
            e,
            i,
        ) by {
            if i < a.len() {
                assert(a[i] == e[i]);
                lemma_quote_extend(a, b, i);
            } else {
                assert(b[i - a.len()] == e[i]);
                lemma_quote_shift(a, b, i - a.len());
            }
        }
    }
}

/// Class-mode HTML never holds an inline `style="color:` attribute.
pub proof fn lemma_no_inline_colour(ms: Seq<Markup>)
    ensures
        forall|i: int|
            0 <= i && i + 13 <= render(ms).len() ==> #[trigger] render(ms).subrange(i, i + 13)
                != inline_colour_attr(),
{
    let e = render(ms);
    lemma_render_quotes(ms);
    assert forall|i: int| 0 <= i && i + 13 <= e.len() implies #[trigger] e.subrange(i, i + 13)
        != inline_colour_attr() by {
        if e.subrange(i, i + 13) == inline_colour_attr() {
            assert(e[i + 6] == e.subrange(i, i + 13)[6]);
            assert(e[i + 6] == '"');
            assert(attribute_quote(e, i + 6));
            if 12 <= i + 6 && e.subrange(i + 6 - 12, i + 7) == open_span_head() {
                assert(e[i] == e.subrange(i - 6, i + 7)[6]);
                assert(e[i] == e.subrange(i, i + 13)[0]);
            } else {
                assert(e[i + 7] == e.subrange(i + 6, i + 8)[1]);
                assert(e[i + 7] == e.subrange(i, i + 13)[7]);
            }
        }
    }
}

/// No prefix of the pieces closes more spans than it opens, given `p`
/// spans already open.
pub open spec fn nested_from(ms: Seq<Markup>, p: nat) -> bool {
    forall|n: int|
        0 <= n <= ms.len() ==> #[trigger] count_close(ms.take(n)) <= count_open(ms.take(n)) + p
}

proof fn lemma_nested_concat(a: Seq<Markup>, b: Seq<Markup>, p: nat, q: nat)
    requires
        nested_from(a, p),
        count_open(a) + p == count_close(a) + q,
        nested_from(b, q),
    ensures
        nested_from(a + b, p),
{
    assert forall|n: int| 0 <= n <= (a + b).len() implies #[trigger] count_close((a + b).take(n))
        <= count_open((a + b).take(n)) + p by {
        if n <= a.len() {
            assert((a + b).take(n) =~= a.take(n));
        } else {
            let bt = b.take(n - a.len());
            assert((a + b).take(n) =~= a + bt);
            lemma_counts_append(a, bt);
            assert(count_close(b.take(n - a.len())) <= count_open(b.take(n - a.len())) + q);
        }
    }
}

proof fn lemma_nested_small(ms: Seq<Markup>, p: nat)
    requires
        ms.len() <= 1,
        ms.len() == 1 && ms[0] is Close ==> p > 0,
    ensures
        nested_from(ms, p),
{
    assert(count_open(Seq::<Markup>::empty()) == 0);
    assert(count_close(Seq::<Markup>::empty()) == 0);
    assert(ms.take(0) =~= Seq::<Markup>::empty());
    if ms.len() == 1 {
        assert(ms.take(1) =~= ms);
        assert(ms.drop_last() =~= Seq::<Markup>::empty());
    }
}

proof fn lemma_events_nested(evs: Seq<EventView>, p: nat)
    ensures
        nested_from(events_markup(evs, p), p),
    decreases evs.len(),
{
    if evs.len() == 0 {
        lemma_nested_small(Seq::<Markup>::empty(), p);
    } else {
        let q = events_pending(evs.drop_last(), p);
        lemma_events_nested(evs.drop_last(), p);
        lemma_events_balance(evs.drop_last(), p);
        lemma_nested_small(event_markup(evs.last(), q), q);
        lemma_nested_concat(events_markup(evs.drop_last(), p), event_markup(evs.last(), q), p, q);
    }
}

proof fn lemma_text_then(a: Seq<Markup>, t: Seq<char>, p: nat, q: nat)
    requires
        nested_from(a, p),
        count_open(a) + p == count_close(a) + q,
    ensures
        nested_from(a + seq![Markup::Text(t)], p),
        count_open(a + seq![Markup::Text(t)]) + p == count_close(a + seq![Markup::Text(t)]) + q,
{
    lemma_nested_small(seq![Markup::Text(t)], q);
    lemma_nested_concat(a, seq![Markup::Text(t)], p, q);
    lemma_text_piece(t);
    lemma_counts_append(a, seq![Markup::Text(t)]);
}

proof fn lemma_tokens_nested(bytes: Seq<u8>, toks: Seq<TokenView>, i: int, p: nat)
    requires
        0 <= i <= toks.len(),
    ensures
        nested_from(tokens_markup(bytes, toks, i, p), p),
    decreases i,
{
    if i == 0 {
        lemma_nested_small(Seq::<Markup>::empty(), p);
    } else {
        let prev = tokens_markup(bytes, toks, i - 1, p);
        let t = text_between(bytes, cursor_after(bytes, toks, i - 1), cursor_after(bytes, toks, i));
        let q = tokens_pending(toks, i - 1, p);
        lemma_tokens_nested(bytes, toks, i - 1, p);
        lemma_tokens_balance(bytes, toks, i - 1, p);
        lemma_text_then(prev, t, p, q);
        lemma_events_nested(toks[i - 1].events, q);
        lemma_nested_concat(prev + seq![Markup::Text(t)], events_markup(toks[i - 1].events, q), p, q);
    }
}

proof fn lemma_block_nested(lines: Seq<Seq<char>>, toks: Seq<Seq<TokenView>>, i: int)
    requires
        0 <= i <= lines.len(),
        lines.len() == toks.len(),
    ensures
        nested_from(block_markup(lines, toks, i), 0),
    decreases i,
{
    if i == 0 {
        lemma_nested_small(Seq::<Markup>::empty(), 0);
    } else {
        let q = block_pending(toks, i - 1);
        let line = lines[i - 1];
        let tv = toks[i - 1];
        let bytes = encode_utf8(line);
        let n = tv.len() as int;
        lemma_block_nested(lines, toks, i - 1);
        lemma_block_balance(lines, toks, i - 1);
        lemma_tokens_nested(bytes, tv, n, q);
        lemma_tokens_balance(bytes, tv, n, q);
        lemma_text_then(
            tokens_markup(bytes, tv, n, q),
            text_between(bytes, cursor_after(bytes, tv, n), bytes.len() as int),
            q,
            line_pending(tv, q),
        );
        lemma_nested_concat(block_markup(lines, toks, i - 1), line_markup(line, tv, q), 0, q);
    }
}

/// In a class-mode block no prefix closes more spans than it has opened,
/// and the closing spans at the end match exactly the spans left open.
pub proof fn lemma_spans_never_close_early(lines: Seq<Seq<char>>, toks: Seq<Seq<TokenView>>)
    requires
        lines.len() == toks.len(),
    ensures
        nested_from(class_body(lines, toks), 0),
        count_open(block_markup(lines, toks, lines.len() as int)) == count_close(
            block_markup(lines, toks, lines.len() as int),
        ) + block_pending(toks, lines.len() as int),
{
    let n = lines.len() as int;
    let k = block_pending(toks, n);
    lemma_block_nested(lines, toks, n);
    lemma_block_balance(lines, toks, n);
    assert forall|j: int| 0 <= j <= closing(k).len() implies #[trigger] count_close(
        closing(k).take(j),
    ) <= count_open(closing(k).take(j)) + k by {
        assert(closing(k).take(j) =~= closing(j as nat));
        lemma_closing_counts(j as nat);
    }
    lemma_nested_concat(block_markup(lines, toks, n), closing(k), 0, k);
}

} // verus!
