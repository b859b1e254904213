//! The inline markup of DSL definition lines and its rendering to HTML.
//!
//! A definition line mixes plain text with bracketed commands such as
//! `[m1]`, `[c red]...[/c]`, `[b]...[/b]`, escapes (`\[`) and ignored
//! `{{key=value}}` blocks. Rendering walks the line once, left to right,
//! keeping a stack of the commands that are still open.
use vstd::prelude::*;

use crate::text::{chars_of, push_char, push_range, texts};

verus! {

/// A snapshot of the renderer: the position in the line, the commands that
/// are open (innermost last) and the HTML produced so far.
pub struct RenderState {
    pub pos: int,
    pub cmds: Seq<Seq<char>>,
    pub out: Seq<char>,
}

/// The state in which rendering of every line starts.
pub open spec fn initial_state() -> RenderState {
    RenderState { pos: 0, cmds: Seq::empty(), out: Seq::empty() }
}

/// Whether `c` is one of the three stop characters.
pub open spec fn is_stop(c: char, a: char, b: char, d: char) -> bool {
    c == a || c == b || c == d
}

/// The first index at or after `i` that holds a stop character, or the length
/// of the line when there is none.
pub open spec fn scan_to(chars: Seq<char>, i: int, a: char, b: char, d: char) -> int
    decreases chars.len() - i,
{
    if 0 <= i < chars.len() && !is_stop(chars[i], a, b, d) {
        scan_to(chars, i + 1, a, b, d)
    } else {
        i
    }
}

/// How many characters of `expect`, from its `k`-th on, the line repeats from
/// index `start + k` on (stopping at the end of either).
pub open spec fn match_from(chars: Seq<char>, start: int, expect: Seq<char>, k: int) -> int
    decreases expect.len() - k,
{
    if 0 <= k < expect.len() && 0 <= start + k < chars.len() && chars[start + k] == expect[k] {
        match_from(chars, start, expect, k + 1)
    } else {
        k
    }
}

pub open spec fn is_digit(c: char) -> bool {
    '0' <= c <= '9'
}

/// The number that a sequence of decimal digits denotes.
pub open spec fn digits_value(d: Seq<char>) -> int
    decreases d.len(),
{
    if d.len() == 0 {
        0
    } else {
        digits_value(d.drop_last()) * 10 + (d.last() as int - 48)
    }
}

/// Whether every character of `d` is a decimal digit.
pub open spec fn all_digits(d: Seq<char>) -> bool {
    forall|i: int| 0 <= i < d.len() ==> is_digit(#[trigger] d[i])
}

/// The digits that `u32::from_str` reads: `s` without a leading `+`.
pub open spec fn unsigned_digits(s: Seq<char>) -> Seq<char> {
    if s.len() > 0 && s[0] == '+' {
        s.drop_first()
    } else {
        s
    }
}

/// What `u32::from_str` gives: an optional `+`, then at least one decimal
/// digit and nothing else, denoting a value that fits in a `u32`.
pub open spec fn parse_u32(s: Seq<char>) -> Option<u32> {
    let d = unsigned_digits(s);
    if d.len() > 0 && all_digits(d) && digits_value(d) <= u32::MAX {
        Some(digits_value(d) as u32)
    } else {
        None
    }
}

/// The decimal digits of `n`, most significant first, without leading zeros.
pub open spec fn decimal(n: nat) -> Seq<char>
    decreases n,
{
    if n < 10 {
        seq![(n + 48) as char]
    } else {
        decimal(n / 10).push(((n % 10) + 48) as char)
    }
}

/// The HTML that closes the command `cmd`.
pub open spec fn closing_tag(cmd: Seq<char>) -> Seq<char> {
    if cmd == seq!['c'] || cmd == seq!['p'] {
        "</span>"@
    } else if cmd == seq!['s'] {
        "]</span>"@
    } else if cmd == seq!['b'] {
        "</b>"@
    } else {
        Seq::empty()
    }
}

/// The HTML that opens the command `cmd` with parameter `para`.
pub open spec fn opening_tag(cmd: Seq<char>, para: Seq<char>) -> Seq<char> {
    if cmd == seq!['c'] {
        "<span style=\"color: "@ + para + "\">"@
    } else if cmd == seq!['b'] {
        "<b>"@
    } else if cmd == seq!['p'] {
        "<span style=\"color: green\">"@
    } else if cmd == seq!['s'] {
        "<span class=\"voice\">[sound:"@
    } else {
        Seq::empty()
    }
}

/// The HTML that opens an indented block.
pub open spec fn indent_tag(indent: nat) -> Seq<char> {
    "<div style=\"text-indent: "@ + decimal(indent) + "px\">"@
}

/// `\x` emits `x`; a backslash that ends the line has nothing to escape.
pub open spec fn step_escape(chars: Seq<char>, st: RenderState) -> Option<RenderState> {
    if st.pos + 1 < chars.len() {
        Some(RenderState { pos: st.pos + 2, out: st.out.push(chars[st.pos + 1]), ..st })
    } else {
        None
    }
}

/// A `/` is dropped together with the next character when the one after that
/// is `]`; otherwise it is emitted.
pub open spec fn step_slash(chars: Seq<char>, st: RenderState) -> Option<RenderState> {
    let p = st.pos + 1;
    if p + 1 < chars.len() && chars[p + 1] == ']' {
        Some(RenderState { pos: p + 1, ..st })
    } else {
        Some(RenderState { pos: p, out: st.out + "/"@, ..st })
    }
}

/// `{{...}}` is skipped; a lone `{` is emitted. `{{` with no `}` after it has
/// no end to look for.
pub open spec fn step_brace(chars: Seq<char>, st: RenderState) -> Option<RenderState> {
    let p = st.pos + 1;
    if p < chars.len() && chars[p] == '{' {
        let q = scan_to(chars, p, '}', '}', '}');
        if q >= chars.len() {
            None
        } else if q + 1 < chars.len() && chars[q + 1] == '}' {
            Some(RenderState { pos: q + 2, ..st })
        } else {
            Some(RenderState { pos: p, ..st })
        }
    } else {
        Some(RenderState { pos: p, out: st.out + "{"@, ..st })
    }
}

/// `[m<n>]` opens a block indented by `20 * n` pixels; a number that does not
/// parse skips the command, one whose indent overflows a `u32` has no result.
pub open spec fn step_indent(chars: Seq<char>, st: RenderState, left: int) -> Option<RenderState> {
    let e = scan_to(chars, left, ']', '[', '[');
    let next = if e < chars.len() && chars[e] != '[' { e + 1 } else { e };
    if left < e {
        match parse_u32(chars.subrange(left, e)) {
            None => Some(RenderState { pos: e, ..st }),
            Some(n) => if n * 20 > u32::MAX {
                None
            } else {
                Some(RenderState { pos: next, out: st.out + indent_tag((n * 20) as nat), ..st })
            },
        }
    } else {
        Some(RenderState { pos: next, out: st.out + indent_tag(0), ..st })
    }
}

/// `[/...]` closes the innermost open command.
pub open spec fn step_close(chars: Seq<char>, st: RenderState, p: int) -> Option<RenderState> {
    if st.cmds.len() == 0 {
        Some(RenderState { pos: p, ..st })
    } else {
        let expect = st.cmds.last();
        let m = match_from(chars, p, expect, 0);
        let closes = 0 < m && m == expect.len();
        let cmds1 = if closes { st.cmds.drop_last() } else { st.cmds };
        let out1 = if closes { st.out + closing_tag(expect) } else { st.out };
        let p1 = if closes { p + m } else { p };
        if p1 < chars.len() && chars[p1] == ']' {
            Some(RenderState { pos: p1 + 1, cmds: if closes { cmds1 } else { cmds1.drop_last() }, out: out1 })
        } else {
            Some(RenderState { pos: p1, cmds: cmds1, out: out1 })
        }
    }
}

/// `[name param]` opens the command `name`.
pub open spec fn step_command(chars: Seq<char>, st: RenderState, p: int) -> Option<RenderState> {
    let e = scan_to(chars, p + 1, ' ', ']', '[');
    let cmd = chars.subrange(p, e);
    let cmds = st.cmds.push(cmd);
    if e >= chars.len() {
        Some(RenderState { pos: e, cmds: cmds, out: st.out })
    } else {
        let q = if chars[e] == ' ' { e + 1 } else { e };
        let r = scan_to(chars, q, ']', '[', '[');
        let para = chars.subrange(q, r);
        let next = if r < chars.len() && chars[r] == ']' { r + 1 } else { r };
        Some(RenderState { pos: next, cmds: cmds, out: st.out + opening_tag(cmd, para) })
    }
}

/// A `[` starts a command: an indent, a closing one or an opening one.
pub open spec fn step_bracket(chars: Seq<char>, st: RenderState) -> Option<RenderState> {
    let p = st.pos + 1;
    if p >= chars.len() {
        Some(RenderState { pos: p, ..st })
    } else if chars[p] == 'm' {
        step_indent(chars, st, p + 1)
    } else if chars[p] == '/' {
        step_close(chars, st, p + 1)
    } else {
        step_command(chars, st, p)
    }
}

/// One step of rendering, from the character at `st.pos`. `None` where the
/// line cannot be rendered.
pub open spec fn step(chars: Seq<char>, st: RenderState) -> Option<RenderState> {
    let c = chars[st.pos];
    if c == '\\' {
        step_escape(chars, st)
    } else if c == '/' {
        step_slash(chars, st)
    } else if c == '{' {
        step_brace(chars, st)
    } else if c == '[' {
        step_bracket(chars, st)
    } else {
        Some(RenderState { pos: st.pos + 1, out: st.out.push(c), ..st })
    }
}

/// A scan never goes back and never passes the end of the line.
pub proof fn lemma_scan_to_bounds(chars: Seq<char>, i: int, a: char, b: char, d: char)
    requires
        0 <= i <= chars.len(),
    ensures
        i <= scan_to(chars, i, a, b, d) <= chars.len(),
    decreases chars.len() - i,
{
    if i < chars.len() && !is_stop(chars[i], a, b, d) {
        lemma_scan_to_bounds(chars, i + 1, a, b, d);
    }
}

/// The number of characters matched is between `k` and the length of `expect`,
/// and the matched characters are there in the line.
pub proof fn lemma_match_from_bounds(chars: Seq<char>, start: int, expect: Seq<char>, k: int)
    requires
        0 <= start <= chars.len(),
        0 <= k <= expect.len(),
    ensures
        k <= match_from(chars, start, expect, k) <= expect.len(),
        start + match_from(chars, start, expect, k) <= chars.len() || match_from(chars, start, expect, k) == k,
    decreases expect.len() - k,
{
    if 0 <= k < expect.len() && 0 <= start + k < chars.len() && chars[start + k] == expect[k] {
        lemma_match_from_bounds(chars, start, expect, k + 1);
    }
}

/// Every step moves forward, and never past the end of the line.
pub proof fn lemma_step_advances(chars: Seq<char>, st: RenderState)
    requires
        0 <= st.pos < chars.len(),
    ensures
        step(chars, st) matches Some(st2) ==> st.pos < st2.pos <= chars.len(),
{
    let p = st.pos + 1;
    if chars[st.pos] == '{' && p < chars.len() && chars[p] == '{' {
        lemma_scan_to_bounds(chars, p, '}', '}', '}');
    }
    if chars[st.pos] == '[' && p < chars.len() {
        if chars[p] == 'm' {
            lemma_scan_to_bounds(chars, p + 1, ']', '[', '[');
        } else if chars[p] == '/' {
            if st.cmds.len() > 0 {
                lemma_match_from_bounds(chars, p + 1, st.cmds.last(), 0);
            }
        } else {
            lemma_scan_to_bounds(chars, p + 1, ' ', ']', '[');
            let e = scan_to(chars, p + 1, ' ', ']', '[');
            if e < chars.len() {
                let q = if chars[e] == ' ' { e + 1 } else { e };
                lemma_scan_to_bounds(chars, q, ']', '[', '[');
            }
        }
    }
}

/// Rendering from state `st` to the end of the line: the state at the end,
/// or `None` where the line cannot be rendered.
pub open spec fn run(chars: Seq<char>, st: RenderState) -> Option<RenderState>
    decreases chars.len() - st.pos,
{
    if st.pos < 0 || st.pos >= chars.len() {
        Some(st)
    } else {
        match step(chars, st) {
            None => None,
            Some(st2) => {
                proof {
                    lemma_step_advances(chars, st);
                }
                run(chars, st2)
            },
        }
    }
}

/// The HTML for one definition line, or `None` where it cannot be rendered.
pub open spec fn render_line(chars: Seq<char>) -> Option<Seq<char>> {
    match run(chars, initial_state()) {
        Some(end) => Some(end.out),
        None => None,
    }
}

/// The commands of one definition line still open at its end, innermost
/// last, or `None` where the line cannot be rendered.
pub open spec fn open_commands(chars: Seq<char>) -> Option<Seq<Seq<char>>> {
    match run(chars, initial_state()) {
        Some(end) => Some(end.cmds),
        None => None,
    }
}

/// Whether `c` has a meaning in the markup: escape, slash, brace or bracket.
pub open spec fn is_markup_char(c: char) -> bool {
    c == '\\' || c == '/' || c == '{' || c == '['
}

proof fn lemma_run_plain(chars: Seq<char>, st: RenderState)
    requires
        0 <= st.pos <= chars.len(),
        forall|i: int| 0 <= i < chars.len() ==> !is_markup_char(#[trigger] chars[i]),
    ensures
        run(chars, st) matches Some(end) && end.out == st.out + chars.subrange(
            st.pos,
            chars.len() as int,
        ),
    decreases chars.len() - st.pos,
{
    if st.pos == chars.len() {
        assert(st.out + chars.subrange(st.pos, chars.len() as int) =~= st.out);
    } else {
        assert(!is_markup_char(chars[st.pos]));
        let st2 = RenderState { pos: st.pos + 1, out: st.out.push(chars[st.pos]), ..st };
        assert(step(chars, st) == Some(st2));
        lemma_run_plain(chars, st2);
        assert(st2.out + chars.subrange(st2.pos, chars.len() as int) =~= st.out + chars.subrange(
            st.pos,
            chars.len() as int,
        ));
    }
}

/// A line without any markup character renders to itself.
pub proof fn law_plain_text_unchanged(chars: Seq<char>)
    requires
        forall|i: int| 0 <= i < chars.len() ==> !is_markup_char(#[trigger] chars[i]),
    ensures
        render_line(chars) == Some(chars),
{
    lemma_run_plain(chars, initial_state());
    assert(Seq::<char>::empty() + chars.subrange(0, chars.len() as int) =~= chars);
}

/// Rendering over a stretch of plain characters copies them to the output.
proof fn lemma_run_plain_to(chars: Seq<char>, st: RenderState, j: int)
    requires
        0 <= st.pos <= j <= chars.len(),
        forall|i: int| st.pos <= i < j ==> !is_markup_char(#[trigger] chars[i]),
    ensures
        run(chars, st) == run(
            chars,
            RenderState { pos: j, out: st.out + chars.subrange(st.pos, j), ..st },
        ),
    decreases j - st.pos,
{
    if st.pos == j {
        assert(st.out + chars.subrange(st.pos, j) =~= st.out);
        assert(RenderState { pos: j, out: st.out + chars.subrange(st.pos, j), ..st } == st);
    } else {
        assert(!is_markup_char(chars[st.pos]));
        let st2 = RenderState { pos: st.pos + 1, out: st.out.push(chars[st.pos]), ..st };
        assert(step(chars, st) == Some(st2));
        lemma_run_plain_to(chars, st2, j);
        assert(st2.out + chars.subrange(st2.pos, j) =~= st.out + chars.subrange(st.pos, j));
    }
}

/// A scan over characters that are not stops ends at the first stop.
proof fn lemma_scan_to_at(chars: Seq<char>, i: int, j: int, a: char, b: char, d: char)
    requires
        0 <= i <= j <= chars.len(),
        forall|k: int| i <= k < j ==> !is_stop(#[trigger] chars[k], a, b, d),
        j == chars.len() || is_stop(chars[j], a, b, d),
    ensures
        scan_to(chars, i, a, b, d) == j,
    decreases j - i,
{
    if i < j {
        lemma_scan_to_at(chars, i + 1, j, a, b, d);
    }
}

/// Where the line repeats all of `expect`, all of it is matched.
proof fn lemma_match_from_all(chars: Seq<char>, start: int, expect: Seq<char>, k: int)
    requires
        0 <= start,
        start + expect.len() <= chars.len(),
        chars.subrange(start, start + expect.len()) == expect,
        0 <= k <= expect.len(),
    ensures
        match_from(chars, start, expect, k) == expect.len(),
    decreases expect.len() - k,
{
    if k < expect.len() {
        assert(chars.subrange(start, start + expect.len())[k] == chars[start + k]);
        lemma_match_from_all(chars, start, expect, k + 1);
    }
}

/// `[/]` closes the innermost open command, whatever it is: one command less
/// is open afterwards and nothing is written.
pub proof fn law_empty_closer_closes_innermost(chars: Seq<char>, st: RenderState)
    requires
        0 <= st.pos,
        st.pos + 2 < chars.len(),
        chars[st.pos] == '[',
        chars[st.pos + 1] == '/',
        chars[st.pos + 2] == ']',
        st.cmds.len() > 0,
    ensures
        step(chars, st) matches Some(next) && next.cmds == st.cmds.drop_last() && next.out
            == st.out,
{
    let p = st.pos + 2;
    let expect = st.cmds.last();
    lemma_match_from_bounds(chars, p, expect, 0);
    let m = match_from(chars, p, expect, 0);
    if 0 < m && m == expect.len() {
        assert(expect[0] == ']');
        assert(expect != seq!['c'] && expect != seq!['p'] && expect != seq!['s'] && expect
            != seq!['b']) by {
            if expect == seq!['c'] || expect == seq!['p'] || expect == seq!['s'] || expect
                == seq!['b'] {
                assert(expect[0] != ']');
            }
        }
        assert(st.out + closing_tag(expect) =~= st.out);
    }
}

/// Whether `n` can name a command that renders as nothing: it is not empty,
/// is not one of `c`, `b`, `p`, `s`, does not start as an indent (`m`) or a
/// closer (`/`) does, and holds no space or bracket.
pub open spec fn is_silent_command(n: Seq<char>) -> bool {
    &&& n.len() > 0
    &&& n[0] != 'm'
    &&& n[0] != '/'
    &&& n != seq!['c'] && n != seq!['b'] && n != seq!['p'] && n != seq!['s']
    &&& forall|i: int| 0 <= i < n.len() ==> !is_stop(#[trigger] n[i], ' ', ']', '[')
}

/// Whether no character of `s` has a meaning in the markup.
pub open spec fn is_plain(s: Seq<char>) -> bool {
    forall|i: int| 0 <= i < s.len() ==> !is_markup_char(#[trigger] s[i])
}

/// The line `s[n q]t[/n]`.
pub open spec fn enclosed_with_param(
    s: Seq<char>,
    n: Seq<char>,
    q: Seq<char>,
    t: Seq<char>,
) -> Seq<char> {
    s + seq!['['] + n + seq![' '] + q + seq![']'] + t + seq!['[', '/'] + n + seq![']']
}

/// The line `s[n]t[/n]`.
pub open spec fn enclosed(s: Seq<char>, n: Seq<char>, t: Seq<char>) -> Seq<char> {
    s + seq!['['] + n + seq![']'] + t + seq!['[', '/'] + n + seq![']']
}

/// Whether `n` can name a command: it is not empty, does not start as an
/// indent (`m`) or a closer (`/`) does, and holds no space or bracket.
pub open spec fn is_command_name(n: Seq<char>) -> bool {
    &&& n.len() > 0
    &&& n[0] != 'm'
    &&& n[0] != '/'
    &&& forall|i: int| 0 <= i < n.len() ==> !is_stop(#[trigger] n[i], ' ', ']', '[')
}

/// Rendering from the opening `[` of command `n` whose name ends at `e`, whose
/// parameter is `chars[q0..r]` and whose `]` is at `r`: the command's opening
/// markup is written and the command is open.
proof fn lemma_command_open(chars: Seq<char>, st: RenderState, n: Seq<char>, e: int, q0: int, r: int)
    requires
        is_command_name(n),
        0 <= st.pos,
        e == st.pos + 1 + n.len(),
        r < chars.len(),
        chars[st.pos] == '[',
        chars.subrange(st.pos + 1, e) == n,
        chars[e] == ' ' ==> q0 == e + 1,
        chars[e] != ' ' ==> q0 == e,
        chars[e] == ' ' || chars[e] == ']',
        e <= q0 <= r,
        forall|k: int| q0 <= k < r ==> !is_stop(#[trigger] chars[k], ']', '[', '['),
        chars[r] == ']',
    ensures
        run(chars, st) == run(
            chars,
            RenderState {
                pos: r + 1,
                cmds: st.cmds.push(n),
                out: st.out + opening_tag(n, chars.subrange(q0, r)),
            },
        ),
{
    let p = st.pos + 1;
    assert(chars[p] == n[0]) by {
        assert(chars.subrange(st.pos + 1, e)[0] == chars[p]);
    }
    assert forall|k: int| p + 1 <= k < e implies !is_stop(#[trigger] chars[k], ' ', ']', '[') by {
        assert(chars.subrange(st.pos + 1, e)[k - p] == chars[k]);
        assert(!is_stop(n[k - p], ' ', ']', '['));
    }
    lemma_scan_to_at(chars, p + 1, e, ' ', ']', '[');
    lemma_scan_to_at(chars, q0, r, ']', '[', '[');
    let next = RenderState {
        pos: r + 1,
        cmds: st.cmds.push(n),
        out: st.out + opening_tag(n, chars.subrange(q0, r)),
    };
    assert(step(chars, st) == Some(next));
}

/// Rendering from `[/n]`, with `n` the innermost open command: its closing
/// markup is written and the command is closed.
proof fn lemma_command_close(chars: Seq<char>, st: RenderState, n: Seq<char>)
    requires
        is_command_name(n),
        0 <= st.pos,
        st.pos + 2 + n.len() < chars.len(),
        chars[st.pos] == '[',
        chars[st.pos + 1] == '/',
        chars.subrange(st.pos + 2, st.pos + 2 + n.len()) == n,
        chars[st.pos + 2 + n.len()] == ']',
        st.cmds.len() > 0,
        st.cmds.last() == n,
    ensures
        run(chars, st) == run(
            chars,
            RenderState {
                pos: st.pos + 3 + n.len(),
                cmds: st.cmds.drop_last(),
                out: st.out + closing_tag(n),
            },
        ),
{
    lemma_match_from_all(chars, st.pos + 2, n, 0);
    let next = RenderState {
        pos: st.pos + 3 + n.len(),
        cmds: st.cmds.drop_last(),
        out: st.out + closing_tag(n),
    };
    assert(step(chars, st) == Some(next));
}

/// `s[n q]t[/n]` writes `s`, the opening markup of `n` with parameter `q`,
/// `t`, and the closing markup of `n`, with no command left open.
proof fn lemma_enclosed_with_param(s: Seq<char>, n: Seq<char>, q: Seq<char>, t: Seq<char>)
    requires
        is_plain(s),
        is_plain(t),
        is_command_name(n),
        forall|i: int| 0 <= i < q.len() ==> !is_stop(#[trigger] q[i], ']', '[', '['),
    ensures
        render_line(enclosed_with_param(s, n, q, t)) == Some(
            s + opening_tag(n, q) + t + closing_tag(n),
        ),
        open_commands(enclosed_with_param(s, n, q, t)) == Some(Seq::<Seq<char>>::empty()),
{
    let chars = enclosed_with_param(s, n, q, t);
    let ss = s.len() as int;
    let l = n.len() as int;
    let ql = q.len() as int;
    let a = ss + 3 + l + ql + t.len();
    assert(chars.len() == a + 3 + l);
    assert(chars.subrange(0, ss) =~= s);
    assert(chars[ss] == '[');
    assert(chars.subrange(ss + 1, ss + 1 + l) =~= n);
    assert(chars[ss + 1 + l] == ' ');
    assert(chars.subrange(ss + 2 + l, ss + 2 + l + ql) =~= q);
    assert(chars[ss + 2 + l + ql] == ']');
    assert(chars.subrange(ss + 3 + l + ql, a) =~= t);
    assert(chars[a] == '[');
    assert(chars[a + 1] == '/');
    assert(chars.subrange(a + 2, a + 2 + l) =~= n);
    assert(chars[a + 2 + l] == ']');

    assert forall|i: int| 0 <= i < ss implies !is_markup_char(#[trigger] chars[i]) by {
        assert(chars.subrange(0, ss)[i] == chars[i]);
    }
    lemma_run_plain_to(chars, initial_state(), ss);
    let st1 = RenderState { pos: ss, cmds: Seq::empty(), out: s };
    assert(Seq::<char>::empty() + chars.subrange(0, ss) =~= s);

    assert forall|k: int| ss + 2 + l <= k < ss + 2 + l + ql implies !is_stop(
        #[trigger] chars[k],
        ']',
        '[',
        '[',
    ) by {
        assert(chars.subrange(ss + 2 + l, ss + 2 + l + ql)[k - (ss + 2 + l)] == chars[k]);
    }
    lemma_command_open(chars, st1, n, ss + 1 + l, ss + 2 + l, ss + 2 + l + ql);
    let o = opening_tag(n, q);
    let st2 = RenderState { pos: ss + 3 + l + ql, cmds: seq![n], out: s + o };
    assert(Seq::<Seq<char>>::empty().push(n) =~= seq![n]);

    assert forall|i: int| ss + 3 + l + ql <= i < a implies !is_markup_char(#[trigger] chars[i]) by {
        assert(chars.subrange(ss + 3 + l + ql, a)[i - (ss + 3 + l + ql)] == chars[i]);
    }
    lemma_run_plain_to(chars, st2, a);
    let st3 = RenderState { pos: a, cmds: seq![n], out: s + o + t };
    assert(s + o + chars.subrange(st2.pos, a) =~= s + o + t);

    lemma_command_close(chars, st3, n);
    assert(seq![n].drop_last() =~= Seq::<Seq<char>>::empty());
}

/// `s[n]t[/n]` writes `s`, the opening markup of `n` without a parameter, `t`,
/// and the closing markup of `n`, with no command left open.
proof fn lemma_enclosed(s: Seq<char>, n: Seq<char>, t: Seq<char>)
    requires
        is_plain(s),
        is_plain(t),
        is_command_name(n),
    ensures
        render_line(enclosed(s, n, t)) == Some(
            s + opening_tag(n, Seq::empty()) + t + closing_tag(n),
        ),
        open_commands(enclosed(s, n, t)) == Some(Seq::<Seq<char>>::empty()),
{
    let chars = enclosed(s, n, t);
    let ss = s.len() as int;
    let l = n.len() as int;
    let a = ss + 2 + l + t.len();
    assert(chars.len() == a + 3 + l);
    assert(chars.subrange(0, ss) =~= s);
    assert(chars[ss] == '[');
    assert(chars.subrange(ss + 1, ss + 1 + l) =~= n);
    assert(chars[ss + 1 + l] == ']');
    assert(chars.subrange(ss + 2 + l, a) =~= t);
    assert(chars[a] == '[');
    assert(chars[a + 1] == '/');
    assert(chars.subrange(a + 2, a + 2 + l) =~= n);
    assert(chars[a + 2 + l] == ']');

    assert forall|i: int| 0 <= i < ss implies !is_markup_char(#[trigger] chars[i]) by {
        assert(chars.subrange(0, ss)[i] == chars[i]);
    }
    lemma_run_plain_to(chars, initial_state(), ss);
    let st1 = RenderState { pos: ss, cmds: Seq::empty(), out: s };
    assert(Seq::<char>::empty() + chars.subrange(0, ss) =~= s);

    lemma_command_open(chars, st1, n, ss + 1 + l, ss + 1 + l, ss + 1 + l);
    assert(chars.subrange(ss + 1 + l, ss + 1 + l) =~= Seq::<char>::empty());
    let o = opening_tag(n, Seq::empty());
    let st2 = RenderState { pos: ss + 2 + l, cmds: seq![n], out: s + o };
    assert(Seq::<Seq<char>>::empty().push(n) =~= seq![n]);

    assert forall|i: int| ss + 2 + l <= i < a implies !is_markup_char(#[trigger] chars[i]) by {
        assert(chars.subrange(ss + 2 + l, a)[i - (ss + 2 + l)] == chars[i]);
    }
    lemma_run_plain_to(chars, st2, a);
    let st3 = RenderState { pos: a, cmds: seq![n], out: s + o + t };
    assert(s + o + chars.subrange(st2.pos, a) =~= s + o + t);

    lemma_command_close(chars, st3, n);
    assert(seq![n].drop_last() =~= Seq::<Seq<char>>::empty());
}

/// A command that is not `c`, `b`, `p` or `s` adds nothing, whatever its
/// parameter: `s[n q]t[/n]` renders to `st`, with no command left open, for
/// plain `s` and `t`.
pub proof fn law_silent_command_with_param(s: Seq<char>, n: Seq<char>, q: Seq<char>, t: Seq<char>)
    requires
        is_plain(s),
        is_plain(t),
        is_silent_command(n),
        forall|i: int| 0 <= i < q.len() ==> !is_stop(#[trigger] q[i], ']', '[', '['),
    ensures
        render_line(enclosed_with_param(s, n, q, t)) == Some(s + t),
        open_commands(enclosed_with_param(s, n, q, t)) == Some(Seq::<Seq<char>>::empty()),
{
    lemma_enclosed_with_param(s, n, q, t);
    assert(s + opening_tag(n, q) + t + closing_tag(n) =~= s + t);
}

/// Opening and closing a command that is not exactly `c`, `p`, `s` or `b`
/// adds nothing: `s[n]t[/n]` renders to `st`, with no command left open, for
/// plain `s` and `t`.
pub proof fn law_silent_command(s: Seq<char>, n: Seq<char>, t: Seq<char>)
    requires
        is_plain(s),
        is_plain(t),
        is_silent_command(n),
    ensures
        render_line(enclosed(s, n, t)) == Some(s + t),
        open_commands(enclosed(s, n, t)) == Some(Seq::<Seq<char>>::empty()),
{
    lemma_enclosed(s, n, t);
    assert(s + opening_tag(n, Seq::empty()) + t + closing_tag(n) =~= s + t);
}

/// The one-letter command names are told apart by their letter.
proof fn lemma_letters_differ()
    ensures
        seq!['b'] != seq!['c'],
        seq!['p'] != seq!['c'],
        seq!['p'] != seq!['b'],
        seq!['s'] != seq!['c'],
        seq!['s'] != seq!['b'],
        seq!['s'] != seq!['p'],
{
    assert(seq!['b'][0] != seq!['c'][0]);
    assert(seq!['p'][0] != seq!['c'][0]);
    assert(seq!['p'][0] != seq!['b'][0]);
    assert(seq!['s'][0] != seq!['c'][0]);
    assert(seq!['s'][0] != seq!['b'][0]);
    assert(seq!['s'][0] != seq!['p'][0]);
}

/// `s[b]t[/b]` renders `t` in bold.
pub proof fn law_bold(s: Seq<char>, t: Seq<char>)
    requires
        is_plain(s),
        is_plain(t),
    ensures
        render_line(enclosed(s, seq!['b'], t)) == Some(s + "<b>"@ + t + "</b>"@),
{
    lemma_letters_differ();
    lemma_enclosed(s, seq!['b'], t);
}

/// `s[c q]t[/c]` renders `t` in the colour `q`.
pub proof fn law_colour(s: Seq<char>, q: Seq<char>, t: Seq<char>)
    requires
        is_plain(s),
        is_plain(t),
        forall|i: int| 0 <= i < q.len() ==> !is_stop(#[trigger] q[i], ']', '[', '['),
    ensures
        render_line(enclosed_with_param(s, seq!['c'], q, t)) == Some(
            s + "<span style=\"color: "@ + q + "\">"@ + t + "</span>"@,
        ),
{
    lemma_enclosed_with_param(s, seq!['c'], q, t);
    assert(s + ("<span style=\"color: "@ + q + "\">"@) + t + "</span>"@ =~= s
        + "<span style=\"color: "@ + q + "\">"@ + t + "</span>"@);
}

/// `s[p]t[/p]` renders `t` in green.
pub proof fn law_phonetics(s: Seq<char>, t: Seq<char>)
    requires
        is_plain(s),
        is_plain(t),
    ensures
        render_line(enclosed(s, seq!['p'], t)) == Some(
            s + "<span style=\"color: green\">"@ + t + "</span>"@,
        ),
{
    lemma_letters_differ();
    lemma_enclosed(s, seq!['p'], t);
}

/// `s[s]t[/s]` renders `t` as an Anki sound reference `[sound:t]`.
pub proof fn law_sound(s: Seq<char>, t: Seq<char>)
    requires
        is_plain(s),
        is_plain(t),
    ensures
        render_line(enclosed(s, seq!['s'], t)) == Some(
            s + "<span class=\"voice\">[sound:"@ + t + "]</span>"@,
        ),
{
    lemma_letters_differ();
    lemma_enclosed(s, seq!['s'], t);
}

/// The decimal digits of `n` are digits, denote `n`, and do not start with a
/// zero unless `n` is zero.
pub proof fn law_decimal_denotes(n: nat)
    ensures
        all_digits(decimal(n)),
        digits_value(decimal(n)) == n,
        decimal(n).len() > 0,
        n > 0 ==> decimal(n)[0] != '0',
    decreases n,
{
    if n < 10 {
        let c = (n + 48) as char;
        assert(c as int == n + 48);
        assert(seq![c].drop_last() =~= Seq::<char>::empty());
        assert(decimal(n) == seq![c]);
        assert(digits_value(Seq::<char>::empty()) == 0);
        assert(digits_value(seq![c]) == digits_value(Seq::<char>::empty()) * 10 + (c as int - 48));
    } else {
        law_decimal_denotes(n / 10);
        let d = decimal(n / 10);
        let c = ((n % 10) + 48) as char;
        assert(d.push(c).drop_last() =~= d);
        assert(d.push(c)[0] == d[0]);
        assert(c as int == (n % 10) + 48);
        assert(digits_value(d.push(c)) == digits_value(d) * 10 + (c as int - 48));
        assert((n / 10) * 10 + n % 10 == n);
        assert forall|i: int| 0 <= i < d.push(c).len() implies is_digit(#[trigger] d.push(c)[i]) by {
            if i < d.len() {
                assert(is_digit(d[i]));
            }
        }
    }
}

/// Digits, with or without a leading `+`, parse to the number they denote
/// when it fits in a `u32`, and to nothing when it does not.
pub proof fn law_parse_u32_digits(d: Seq<char>)
    requires
        d.len() > 0,
        all_digits(d),
    ensures
        parse_u32(d) == (if digits_value(d) <= u32::MAX {
            Some(digits_value(d) as u32)
        } else {
            None
        }),
        parse_u32(seq!['+'] + d) == parse_u32(d),
{
    assert(!(d[0] == '+')) by {
        assert(is_digit(d[0]));
    }
    assert(unsigned_digits(d) == d);
    assert((seq!['+'] + d).drop_first() =~= d);
}

/// The number of an indent is read back from its own decimal digits.
pub proof fn law_parse_u32_reads_decimal(n: u32)
    ensures
        parse_u32(decimal(n as nat)) == Some(n),
{
    law_decimal_denotes(n as nat);
    law_parse_u32_digits(decimal(n as nat));
}

/// A backslash writes the character after it, whatever that is, and nothing
/// else changes.
pub proof fn law_escape_writes_next(chars: Seq<char>, st: RenderState)
    requires
        0 <= st.pos,
        st.pos + 1 < chars.len(),
        chars[st.pos] == '\\',
    ensures
        step(chars, st) == Some(
            RenderState { pos: st.pos + 2, cmds: st.cmds, out: st.out.push(chars[st.pos + 1]) },
        ),
{
}

/// `{{k}}` is dropped: `s{{k}}t` renders to `st` for plain `s` and `t` and a
/// `k` without `}`.
pub proof fn law_double_braces_dropped(s: Seq<char>, k: Seq<char>, t: Seq<char>)
    requires
        is_plain(s),
        is_plain(t),
        !k.contains('}'),
    ensures
        render_line(s + seq!['{', '{'] + k + seq!['}', '}'] + t) == Some(s + t),
{
    let chars = s + seq!['{', '{'] + k + seq!['}', '}'] + t;
    let ss = s.len() as int;
    let kl = k.len() as int;
    let b = ss + 4 + kl;
    assert(chars.len() == b + t.len());
    assert(chars.subrange(0, ss) =~= s);
    assert(chars[ss] == '{');
    assert(chars[ss + 1] == '{');
    assert(chars.subrange(ss + 2, ss + 2 + kl) =~= k);
    assert(chars[ss + 2 + kl] == '}');
    assert(chars[ss + 3 + kl] == '}');
    assert(chars.subrange(b, chars.len() as int) =~= t);
    assert forall|i: int| 0 <= i < ss implies !is_markup_char(#[trigger] chars[i]) by {
        assert(chars.subrange(0, ss)[i] == chars[i]);
    }
    lemma_run_plain_to(chars, initial_state(), ss);
    assert(Seq::<char>::empty() + chars.subrange(0, ss) =~= s);
    let st1 = RenderState { pos: ss, cmds: Seq::empty(), out: s };
    assert forall|i: int| ss + 1 <= i < ss + 2 + kl implies !is_stop(
        #[trigger] chars[i],
        '}',
        '}',
        '}',
    ) by {
        if i >= ss + 2 {
            assert(chars.subrange(ss + 2, ss + 2 + kl)[i - (ss + 2)] == chars[i]);
            assert(k[i - (ss + 2)] != '}') by {
                if k[i - (ss + 2)] == '}' {
                    assert(k.contains('}'));
                }
            }
        }
    }
    lemma_scan_to_at(chars, ss + 1, ss + 2 + kl, '}', '}', '}');
    let st2 = RenderState { pos: b, cmds: Seq::empty(), out: s };
    assert(step(chars, st1) == Some(st2));
    assert forall|i: int| b <= i < chars.len() implies !is_markup_char(#[trigger] chars[i]) by {
        assert(chars.subrange(b, chars.len() as int)[i - b] == chars[i]);
    }
    lemma_run_plain_to(chars, st2, chars.len() as int);
}

/// The step at `[mN]`, with `N` decimal digits whose indent fits in a `u32`.
proof fn lemma_indent_step(chars: Seq<char>, st: RenderState, d: Seq<char>)
    requires
        0 <= st.pos,
        st.pos + 2 + d.len() < chars.len(),
        chars[st.pos] == '[',
        chars[st.pos + 1] == 'm',
        chars.subrange(st.pos + 2, st.pos + 2 + d.len()) == d,
        chars[st.pos + 2 + d.len()] == ']',
        d.len() > 0,
        all_digits(d),
        digits_value(d) * 20 <= u32::MAX,
    ensures
        step(chars, st) == Some(
            RenderState {
                pos: st.pos + 3 + d.len(),
                out: st.out + indent_tag((digits_value(d) * 20) as nat),
                ..st
            },
        ),
{
    let e = st.pos + 2 + d.len();
    assert forall|i: int| st.pos + 2 <= i < e implies !is_stop(#[trigger] chars[i], ']', '[', '[') by {
        assert(chars.subrange(st.pos + 2, e)[i - (st.pos + 2)] == chars[i]);
        assert(is_digit(d[i - (st.pos + 2)]));
    }
    lemma_scan_to_at(chars, st.pos + 2, e, ']', '[', '[');
    law_parse_u32_digits(d);
    let v = digits_value(d);
    lemma_digits_value_prefix(d, 0);
    assert(0 <= v);
    assert(parse_u32(chars.subrange(st.pos + 2, e)) == Some(v as u32));
    let n = v as u32;
    assert(n as int == v);
    assert(!(n * 20 > u32::MAX));
    assert(step_indent(chars, st, st.pos + 2) == Some(
        RenderState { pos: e + 1, out: st.out + indent_tag((n * 20) as nat), ..st },
    ));
    assert(step(chars, st) == step_indent(chars, st, st.pos + 2));
}

/// `[mN]` opens a block indented by `20 * N` pixels, written in decimal:
/// `s[mN]t` renders to `s`, the indented block's opening, then `t`, for plain
/// `s` and `t` and decimal digits `N` whose indent fits in a `u32`.
pub proof fn law_indent(s: Seq<char>, d: Seq<char>, t: Seq<char>)
    requires
        is_plain(s),
        is_plain(t),
        d.len() > 0,
        all_digits(d),
        digits_value(d) * 20 <= u32::MAX,
    ensures
        render_line(s + seq!['[', 'm'] + d + seq![']'] + t) == Some(
            s + "<div style=\"text-indent: "@ + decimal((digits_value(d) * 20) as nat) + "px\">"@
                + t,
        ),
{
    let chars = s + seq!['[', 'm'] + d + seq![']'] + t;
    let ss = s.len() as int;
    let dl = d.len() as int;
    let e = ss + 2 + dl;
    assert(chars.len() == e + 1 + t.len());
    assert(chars.subrange(0, ss) =~= s);
    assert(chars[ss] == '[');
    assert(chars[ss + 1] == 'm');
    assert(chars.subrange(ss + 2, e) =~= d);
    assert(chars[e] == ']');
    assert(chars.subrange(e + 1, chars.len() as int) =~= t);
    assert forall|i: int| 0 <= i < ss implies !is_markup_char(#[trigger] chars[i]) by {
        assert(chars.subrange(0, ss)[i] == chars[i]);
    }
    lemma_run_plain_to(chars, initial_state(), ss);
    assert(Seq::<char>::empty() + chars.subrange(0, ss) =~= s);
    let st1 = RenderState { pos: ss, cmds: Seq::empty(), out: s };
    lemma_indent_step(chars, st1, d);
    let v = digits_value(d);
    let o = indent_tag((v * 20) as nat);
    let st2 = RenderState { pos: e + 1, cmds: Seq::empty(), out: s + o };
    assert(step(chars, st1) == Some(st2));
    assert forall|i: int| e + 1 <= i < chars.len() implies !is_markup_char(#[trigger] chars[i]) by {
        assert(chars.subrange(e + 1, chars.len() as int)[i - (e + 1)] == chars[i]);
    }
    lemma_run_plain_to(chars, st2, chars.len() as int);
    assert(s + o + t =~= s + "<div style=\"text-indent: "@ + decimal((v * 20) as nat)
        + "px\">"@ + t);
}

/// The characters of each open command, innermost last.
pub open spec fn cmd_views(cmds: Seq<Vec<char>>) -> Seq<Seq<char>> {
    cmds.map_values(|v: Vec<char>| v@)
}

/// The renderer's state as the executable code holds it.
pub open spec fn state_of(pos: int, cmds: Seq<Vec<char>>, out: Seq<char>) -> RenderState {
    RenderState { pos: pos, cmds: cmd_views(cmds), out: out }
}

/// The executable step agrees with the specified one: it fails exactly where
/// the specified step has no result, and otherwise reaches the same state.
pub open spec fn follows(
    r: Option<RenderState>,
    next: Option<usize>,
    cmds: Seq<Vec<char>>,
    out: Seq<char>,
) -> bool {
    match r {
        None => next is None,
        Some(s) => next matches Some(p) && p as int == s.pos && s.cmds == cmd_views(cmds) && s.out
            == out,
    }
}

fn scan_exec(chars: &Vec<char>, i: usize, a: char, b: char, d: char) -> (j: usize)
    requires
        i <= chars@.len(),
    ensures
        j == scan_to(chars@, i as int, a, b, d),
{
    let mut j = i;
    while j < chars.len() && chars[j] != a && chars[j] != b && chars[j] != d
        invariant
            i <= j <= chars@.len(),
            scan_to(chars@, i as int, a, b, d) == scan_to(chars@, j as int, a, b, d),
        decreases chars@.len() - j,
    {
        j += 1;
    }
    j
}

fn match_exec(chars: &Vec<char>, start: usize, expect: &Vec<char>) -> (m: usize)
    requires
        start <= chars@.len(),
    ensures
        m == match_from(chars@, start as int, expect@, 0),
        m <= expect@.len(),
        start + m <= chars@.len(),
{
    let len = chars.len();
    let mut k: usize = 0;
    while start + k < len && k < expect.len() && chars[start + k] == expect[k]
        invariant
            len == chars@.len(),
            k <= expect@.len(),
            start + k <= chars@.len(),
            match_from(chars@, start as int, expect@, 0) == match_from(
                chars@,
                start as int,
                expect@,
                k as int,
            ),
        decreases expect@.len() - k,
    {
        k += 1;
    }
    k
}

/// The value of a prefix of a run of digits is at most the value of the run.
proof fn lemma_digits_value_prefix(d: Seq<char>, k: int)
    requires
        0 <= k <= d.len(),
        forall|i: int| 0 <= i < d.len() ==> is_digit(#[trigger] d[i]),
    ensures
        0 <= digits_value(d.take(k)) <= digits_value(d),
    decreases d.len(),
{
    if d.len() > 0 {
        let e = d.drop_last();
        assert forall|i: int| 0 <= i < e.len() implies is_digit(#[trigger] e[i]) by {
            assert(is_digit(d[i]));
        }
        if k == d.len() {
            assert(d.take(k) =~= d);
            lemma_digits_value_prefix(e, e.len() as int);
            assert(e.take(e.len() as int) =~= e);
        } else {
            assert(d.take(k) =~= e.take(k));
            lemma_digits_value_prefix(e, k);
            lemma_digits_value_prefix(e, e.len() as int);
            assert(e.take(e.len() as int) =~= e);
        }
    }
}

/// Reads `chars[from..to]` as `u32::from_str` does.
fn parse_u32_exec(chars: &Vec<char>, from: usize, to: usize) -> (r: Option<u32>)
    requires
        from <= to <= chars@.len(),
    ensures
        r == parse_u32(chars@.subrange(from as int, to as int)),
{
    let ghost s = chars@.subrange(from as int, to as int);
    let mut start = from;
    if from < to && chars[from] == '+' {
        start = from + 1;
    }
    let ghost d = chars@.subrange(start as int, to as int);
    assert(d =~= unsigned_digits(s));
    if start == to {
        return None;
    }
    let mut acc: u64 = 0;
    let mut i = start;
    while i < to
        invariant
            start <= i <= to <= chars@.len(),
            d == chars@.subrange(start as int, to as int),
            s == chars@.subrange(from as int, to as int),
            d == unsigned_digits(s),
            d.len() > 0,
            forall|j: int| 0 <= j < i - start ==> is_digit(#[trigger] d[j]),
            acc as int == digits_value(d.take(i - start)),
            acc <= u32::MAX,
        decreases to - i,
    {
        let c = chars[i];
        if !('0' <= c && c <= '9') {
            assert(!is_digit(d[i - start]));
            return None;
        }
        let ghost t = d.take(i - start + 1);
        assert(t.drop_last() =~= d.take(i - start));
        assert(t.last() == c);
        acc = acc * 10 + (c as u64 - 48);
        i += 1;
        if acc > 0xffff_ffff {
            proof {
                if all_digits(d) {
                    lemma_digits_value_prefix(d, i - start);
                }
            }
            return None;
        }
    }
    assert(d.take(d.len() as int) =~= d);
    Some(acc as u32)
}

/// Appends the decimal digits of `n`.
fn push_decimal(out: &mut String, n: u32)
    ensures
        final(out)@ == old(out)@ + decimal(n as nat),
    decreases n,
{
    if n >= 10 {
        push_decimal(out, n / 10);
    }
    let digit = (48u8 + (n % 10) as u8) as char;
    push_char(out, digit);
    if n >= 10 {
        assert(decimal(n as nat) == decimal((n / 10) as nat).push(digit));
    } else {
        assert(decimal(n as nat) =~= seq![digit]);
    }
}

fn is_single(cmd: &Vec<char>, c: char) -> (b: bool)
    ensures
        b == (cmd@ == seq![c]),
{
    if cmd.len() == 1 && cmd[0] == c {
        assert(cmd@ =~= seq![c]);
        true
    } else {
        false
    }
}

fn push_closing(out: &mut String, cmd: &Vec<char>)
    ensures
        final(out)@ == old(out)@ + closing_tag(cmd@),
{
    if is_single(cmd, 'c') || is_single(cmd, 'p') {
        out.append("</span>");
    } else if is_single(cmd, 's') {
        out.append("]</span>");
    } else if is_single(cmd, 'b') {
        out.append("</b>");
    } else {
        assert(old(out)@ + closing_tag(cmd@) =~= old(out)@);
    }
}

fn push_opening(out: &mut String, cmd: &Vec<char>, chars: &Vec<char>, q: usize, r: usize)
    requires
        q <= r <= chars@.len(),
    ensures
        final(out)@ == old(out)@ + opening_tag(cmd@, chars@.subrange(q as int, r as int)),
{
    if is_single(cmd, 'c') {
        out.append("<span style=\"color: ");
        push_range(out, chars, q, r);
        out.append("\">");
        assert(final(out)@ =~= old(out)@ + ("<span style=\"color: "@ + chars@.subrange(q as int, r as int) + "\">"@));
    } else if is_single(cmd, 'b') {
        out.append("<b>");
    } else if is_single(cmd, 'p') {
        out.append("<span style=\"color: green\">");
    } else if is_single(cmd, 's') {
        out.append("<span class=\"voice\">[sound:");
    } else {
        assert(old(out)@ + opening_tag(cmd@, chars@.subrange(q as int, r as int)) =~= old(out)@);
    }
}

fn exec_escape(chars: &Vec<char>, pos: usize, cmds: &mut Vec<Vec<char>>, out: &mut String) -> (r: Option<usize>)
    requires
        pos < chars@.len(),
    ensures
        follows(step_escape(chars@, state_of(pos as int, old(cmds)@, old(out)@)), r, final(cmds)@, final(out)@),
{
    let len = chars.len();
    if pos + 1 < len {
        push_char(out, chars[pos + 1]);
        Some(pos + 2)
    } else {
        None
    }
}

fn exec_slash(chars: &Vec<char>, pos: usize, cmds: &mut Vec<Vec<char>>, out: &mut String) -> (r: Option<usize>)
    requires
        pos < chars@.len(),
    ensures
        follows(step_slash(chars@, state_of(pos as int, old(cmds)@, old(out)@)), r, final(cmds)@, final(out)@),
{
    let len = chars.len();
    let p = pos + 1;
    if p < len && p + 1 < len && chars[p + 1] == ']' {
        Some(p + 1)
    } else {
        out.append("/");
        Some(p)
    }
}

fn exec_brace(chars: &Vec<char>, pos: usize, cmds: &mut Vec<Vec<char>>, out: &mut String) -> (r: Option<usize>)
    requires
        pos < chars@.len(),
    ensures
        follows(step_brace(chars@, state_of(pos as int, old(cmds)@, old(out)@)), r, final(cmds)@, final(out)@),
{
    let len = chars.len();
    let p = pos + 1;
    if p < len && chars[p] == '{' {
        let q = scan_exec(chars, p, '}', '}', '}');
        proof {
            lemma_scan_to_bounds(chars@, p as int, '}', '}', '}');
        }
        if q >= len {
            None
        } else if q + 1 < len && chars[q + 1] == '}' {
            Some(q + 2)
        } else {
            Some(p)
        }
    } else {
        out.append("{");
        Some(p)
    }
}

fn exec_indent(chars: &Vec<char>, pos: usize, left: usize, cmds: &mut Vec<Vec<char>>, out: &mut String) -> (r: Option<usize>)
    requires
        left <= chars@.len(),
    ensures
        follows(step_indent(chars@, state_of(pos as int, old(cmds)@, old(out)@), left as int), r, final(cmds)@, final(out)@),
{
    let len = chars.len();
    let e = scan_exec(chars, left, ']', '[', '[');
    proof {
        lemma_scan_to_bounds(chars@, left as int, ']', '[', '[');
    }
    let next = if e < len && chars[e] != '[' { e + 1 } else { e };
    let indent: u32;
    if left < e {
        match parse_u32_exec(chars, left, e) {
            None => {
                return Some(e);
            },
            Some(n) => {
                if n > 214748364 {
                    return None;
                }
                indent = n * 20;
            },
        }
    } else {
        indent = 0;
    }
    out.append("<div style=\"text-indent: ");
    push_decimal(out, indent);
    out.append("px\">");
    assert(final(out)@ =~= old(out)@ + indent_tag(indent as nat));
    Some(next)
}

fn exec_close(chars: &Vec<char>, pos: usize, p: usize, cmds: &mut Vec<Vec<char>>, out: &mut String) -> (r: Option<usize>)
    requires
        p <= chars@.len(),
    ensures
        follows(step_close(chars@, state_of(pos as int, old(cmds)@, old(out)@), p as int), r, final(cmds)@, final(out)@),
{
    let len = chars.len();
    let n = cmds.len();
    if n == 0 {
        return Some(p);
    }
    let ghost st = state_of(pos as int, old(cmds)@, old(out)@);
    let ghost expect = st.cmds.last();
    assert(cmds@[n - 1]@ == expect);
    let m = match_exec(chars, p, &cmds[n - 1]);
    let closes = 0 < m && m == cmds[n - 1].len();
    let mut p1 = p;
    if closes {
        push_closing(out, &cmds[n - 1]);
        cmds.pop();
        assert(cmd_views(cmds@) =~= st.cmds.drop_last());
        p1 = p + m;
    }
    if p1 < len && chars[p1] == ']' {
        if !closes {
            cmds.pop();
            assert(cmd_views(cmds@) =~= st.cmds.drop_last());
        }
        Some(p1 + 1)
    } else {
        Some(p1)
    }
}

fn exec_command(chars: &Vec<char>, pos: usize, p: usize, cmds: &mut Vec<Vec<char>>, out: &mut String) -> (r: Option<usize>)
    requires
        p < chars@.len(),
    ensures
        follows(step_command(chars@, state_of(pos as int, old(cmds)@, old(out)@), p as int), r, final(cmds)@, final(out)@),
{
    let len = chars.len();
    let e = scan_exec(chars, p + 1, ' ', ']', '[');
    proof {
        lemma_scan_to_bounds(chars@, p + 1, ' ', ']', '[');
    }
    let mut cmd: Vec<char> = Vec::new();
    let mut i = p;
    while i < e
        invariant
            p <= i <= e <= chars@.len(),
            cmd@ == chars@.subrange(p as int, i as int),
        decreases e - i,
    {
        cmd.push(chars[i]);
        assert(chars@.subrange(p as int, i + 1) =~= chars@.subrange(p as int, i as int).push(chars@[i as int]));
        i += 1;
    }
    let ghost cmd_v = cmd@;
    let ghost old_cmds = cmds@;
    if e >= len {
        cmds.push(cmd);
        assert(cmd_views(cmds@) =~= cmd_views(old_cmds).push(cmd_v));
        return Some(e);
    }
    let q = if chars[e] == ' ' { e + 1 } else { e };
    let r = scan_exec(chars, q, ']', '[', '[');
    proof {
        lemma_scan_to_bounds(chars@, q as int, ']', '[', '[');
    }
    let next = if r < len && chars[r] == ']' { r + 1 } else { r };
    push_opening(out, &cmd, chars, q, r);
    cmds.push(cmd);
    assert(cmd_views(cmds@) =~= cmd_views(old_cmds).push(cmd_v));
    Some(next)
}

fn exec_step(chars: &Vec<char>, pos: usize, cmds: &mut Vec<Vec<char>>, out: &mut String) -> (r: Option<usize>)
    requires
        pos < chars@.len(),
    ensures
        follows(step(chars@, state_of(pos as int, old(cmds)@, old(out)@)), r, final(cmds)@, final(out)@),
{
    let len = chars.len();
    let c = chars[pos];
    if c == '\\' {
        exec_escape(chars, pos, cmds, out)
    } else if c == '/' {
        exec_slash(chars, pos, cmds, out)
    } else if c == '{' {
        exec_brace(chars, pos, cmds, out)
    } else if c == '[' {
        let p = pos + 1;
        if p >= len {
            Some(p)
        } else if chars[p] == 'm' {
            exec_indent(chars, pos, p + 1, cmds, out)
        } else if chars[p] == '/' {
            exec_close(chars, pos, p + 1, cmds, out)
        } else {
            exec_command(chars, pos, p, cmds, out)
        }
    } else {
        push_char(out, c);
        Some(pos + 1)
    }
}

/// Renders one definition line; the HTML and the commands still open at its
/// end, or `None` where the line cannot be rendered.
fn render_exec(def: &str) -> (r: Option<(String, Vec<Vec<char>>)>)
    ensures
        match run(def@, initial_state()) {
            Some(end) => r matches Some((h, cmds)) && h@ == end.out && cmd_views(cmds@) == end.cmds,
            None => r is None,
        },
{
    let chars = chars_of(def);
    let mut pos: usize = 0;
    let mut cmds: Vec<Vec<char>> = Vec::new();
    let mut out = String::new();
    assert(state_of(0, cmds@, out@) == initial_state()) by {
        assert(cmd_views(cmds@) =~= Seq::<Seq<char>>::empty());
    }
    while pos < chars.len()
        invariant
            pos <= chars@.len(),
            chars@ == def@,
            run(def@, initial_state()) == run(chars@, state_of(pos as int, cmds@, out@)),
        decreases chars@.len() - pos,
    {
        let ghost st = state_of(pos as int, cmds@, out@);
        proof {
            lemma_step_advances(chars@, st);
        }
        match exec_step(&chars, pos, &mut cmds, &mut out) {
            None => {
                return None;
            },
            Some(p) => {
                assert(state_of(p as int, cmds@, out@) == step(chars@, st)->0);
                pos = p;
            },
        }
    }
    Some((out, cmds))
}

/// Renders one definition line to HTML; `None` exactly where the line cannot
/// be rendered (a backslash that ends it, `{{` without a `}` after it, or an
/// indent whose pixel width overflows a `u32`).
pub fn render_definition(def: &str) -> (r: Option<String>)
    ensures
        match render_line(def@) {
            Some(h) => r matches Some(s) && s@ == h,
            None => r is None,
        },
{
    match render_exec(def) {
        Some((h, _)) => Some(h),
        None => None,
    }
}

/// The commands of one definition line that are still open at its end,
/// innermost last; `None` where the line cannot be rendered.
pub fn unclosed_commands(def: &str) -> (r: Option<Vec<String>>)
    ensures
        match open_commands(def@) {
            Some(cmds) => r matches Some(v) && texts(v@) == cmds,
            None => r is None,
        },
{
    match render_exec(def) {
        None => None,
        Some((_, cmds)) => {
            let mut v: Vec<String> = Vec::new();
            let n = cmds.len();
            for i in 0..n
                invariant
                    n == cmds@.len(),
                    texts(v@) == cmd_views(cmds@).take(i as int),
            {
                let mut name = String::new();
                push_range(&mut name, &cmds[i], 0, cmds[i].len());
                assert(name@ =~= cmds@[i as int]@);
                let ghost before = v@;
                v.push(name);
                assert(texts(v@) =~= texts(before).push(name@));
                assert(cmd_views(cmds@).take(i + 1) =~= cmd_views(cmds@).take(i as int).push(
                    cmds@[i as int]@,
                ));
            }
            assert(cmd_views(cmds@).take(n as int) =~= cmd_views(cmds@));
            Some(v)
        },
    }
}

} // verus!
