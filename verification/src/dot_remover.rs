//! The dot remover: decides whether a message is a single sentence that ends
//! with a dot (or something that looks like one) and, if so, gives the message
//! back without that dot.
//!
//! Every pattern the bot looks for is stated here as a spec function over the
//! message's characters, and each executable step is proved to compute it.

use vstd::prelude::*;
use crate::text::{count_char, run_end, lemma_run_end, run_end_in, count_char_in, append_chars, chars_of, string_of};

verus! {

// ---------------------------------------------------------------------------
// Character classes
// ---------------------------------------------------------------------------

/// The characters that count as a dot, in the order the remover tries them.
pub open spec fn dot_chars() -> Seq<char> {
    seq![
        '.', '\u{b7}', '\u{2024}', '\u{2027}', '\u{22c5}', '\u{30fb}', '\u{2e31}', '\u{1427}',
        '\u{23fa}', '\u{25cf}', '\u{26ac}', '\u{2981}', '\u{2e30}', '\u{fe52}', '\u{2e31}',
        '\u{22c5}', '\u{3002}', '\u{ff0e}', '\u{ff61}', '\u{702}',
    ]
}

/// Whether `c` is one of the dot characters.
pub open spec fn is_dot(c: char) -> bool {
    ||| c == '.'
    ||| c == '\u{b7}'
    ||| c == '\u{2024}'
    ||| c == '\u{2027}'
    ||| c == '\u{22c5}'
    ||| c == '\u{30fb}'
    ||| c == '\u{2e31}'
    ||| c == '\u{1427}'
    ||| c == '\u{23fa}'
    ||| c == '\u{25cf}'
    ||| c == '\u{26ac}'
    ||| c == '\u{2981}'
    ||| c == '\u{2e30}'
    ||| c == '\u{fe52}'
    ||| c == '\u{3002}'
    ||| c == '\u{ff0e}'
    ||| c == '\u{ff61}'
    ||| c == '\u{702}'
}

/// `is_dot` holds exactly of the characters listed in `dot_chars`.
pub proof fn lemma_is_dot_iff_listed(c: char)
    ensures
        is_dot(c) <==> dot_chars().contains(c),
{
    let d = dot_chars();
    assert(d.len() == 20);
    if is_dot(c) {
        if c == '.' { assert(d[0] == c); }
        else if c == '\u{b7}' { assert(d[1] == c); }
        else if c == '\u{2024}' { assert(d[2] == c); }
        else if c == '\u{2027}' { assert(d[3] == c); }
        else if c == '\u{22c5}' { assert(d[4] == c); }
        else if c == '\u{30fb}' { assert(d[5] == c); }
        else if c == '\u{2e31}' { assert(d[6] == c); }
        else if c == '\u{1427}' { assert(d[7] == c); }
        else if c == '\u{23fa}' { assert(d[8] == c); }
        else if c == '\u{25cf}' { assert(d[9] == c); }
        else if c == '\u{26ac}' { assert(d[10] == c); }
        else if c == '\u{2981}' { assert(d[11] == c); }
        else if c == '\u{2e30}' { assert(d[12] == c); }
        else if c == '\u{fe52}' { assert(d[13] == c); }
        else if c == '\u{3002}' { assert(d[16] == c); }
        else if c == '\u{ff0e}' { assert(d[17] == c); }
        else if c == '\u{ff61}' { assert(d[18] == c); }
        else { assert(d[19] == c); }
    }
    if d.contains(c) {
        let k = choose|k: int| 0 <= k < d.len() && d[k] == c;
        assert(is_dot(d[k]));
    }
}

/// The dot characters, in the order they are tried.
pub fn dot_list() -> (v: Vec<char>)
    ensures
        v@ == dot_chars(),
{
    let v = vec![
        '.', '\u{b7}', '\u{2024}', '\u{2027}', '\u{22c5}', '\u{30fb}', '\u{2e31}', '\u{1427}',
        '\u{23fa}', '\u{25cf}', '\u{26ac}', '\u{2981}', '\u{2e30}', '\u{fe52}', '\u{2e31}',
        '\u{22c5}', '\u{3002}', '\u{ff0e}', '\u{ff61}', '\u{702}',
    ];
    assert(v@ =~= dot_chars());
    v
}

/// Whether `c` is a dot character.
pub fn is_dot_char(c: char) -> (b: bool)
    ensures
        b == is_dot(c),
{
    c == '.' || c == '\u{b7}' || c == '\u{2024}' || c == '\u{2027}' || c == '\u{22c5}'
        || c == '\u{30fb}' || c == '\u{2e31}' || c == '\u{1427}' || c == '\u{23fa}'
        || c == '\u{25cf}' || c == '\u{26ac}' || c == '\u{2981}' || c == '\u{2e30}'
        || c == '\u{fe52}' || c == '\u{3002}' || c == '\u{ff0e}' || c == '\u{ff61}'
        || c == '\u{702}'
}

/// Characters that may trail a dot without showing: the wide and zero-width
/// spaces U+2000, U+2001, U+2003..=U+200F, the Hangul filler U+3164, the
/// plain space and the backtick.
pub open spec fn is_tail_char(c: char) -> bool {
    let u = c as u32;
    ||| 0x2000 <= u <= 0x2001
    ||| 0x2003 <= u <= 0x200F
    ||| u == 0x3164
    ||| c == ' '
    ||| c == '`'
}

fn is_tail_char_exec(c: char) -> (b: bool)
    ensures
        b == is_tail_char(c),
{
    let u = c as u32;
    (0x2000 <= u && u <= 0x2001) || (0x2003 <= u && u <= 0x200F) || u == 0x3164 || c == ' '
        || c == '`'
}

} // verus!

verus! {

// ---------------------------------------------------------------------------
// The invisible tail that may follow a dot
// ---------------------------------------------------------------------------

/// The first index at or after `i` that is not a space or a newline.
pub open spec fn blank_run_end(t: Seq<char>, i: int) -> int
    decreases t.len() - i,
{
    if 0 <= i < t.len() && (t[i] == ' ' || t[i] == '\n') {
        blank_run_end(t, i + 1)
    } else {
        i
    }
}

pub proof fn lemma_blank_run_end(t: Seq<char>, i: int)
    requires
        0 <= i <= t.len(),
    ensures
        i <= blank_run_end(t, i) <= t.len(),
    decreases t.len() - i,
{
    if i < t.len() && (t[i] == ' ' || t[i] == '\n') {
        lemma_blank_run_end(t, i + 1);
    }
}

/// Length of a Markdown pair that renders as nothing and starts at `i`:
/// `_`, spaces or newlines, `_`; or `||`, spaces or newlines, `||`.
/// Zero when there is none.
pub open spec fn pair_len(t: Seq<char>, i: int) -> int {
    if 0 <= i < t.len() && t[i] == '_' {
        let e = blank_run_end(t, i + 1);
        if e < t.len() && t[e] == '_' {
            e + 1 - i
        } else {
            0
        }
    } else if 0 <= i && i + 1 < t.len() && t[i] == '|' && t[i + 1] == '|' {
        let e = blank_run_end(t, i + 2);
        if e + 1 < t.len() && t[e] == '|' && t[e + 1] == '|' {
            e + 2 - i
        } else {
            0
        }
    } else {
        0
    }
}

pub proof fn lemma_pair_len(t: Seq<char>, i: int)
    requires
        0 <= i <= t.len(),
    ensures
        0 <= pair_len(t, i) <= t.len() - i,
{
    if i < t.len() && t[i] == '_' {
        lemma_blank_run_end(t, i + 1);
    } else if i + 1 < t.len() && t[i] == '|' && t[i + 1] == '|' {
        lemma_blank_run_end(t, i + 2);
    }
}

/// Where the invisible tail that starts at `i` ends: the tail is the longest
/// run of tail characters and invisible Markdown pairs.
pub open spec fn tail_end(t: Seq<char>, i: int) -> int
    decreases t.len() - i,
{
    if 0 <= i < t.len() {
        if is_tail_char(t[i]) {
            tail_end(t, i + 1)
        } else if pair_len(t, i) > 0 {
            proof {
                lemma_pair_len(t, i);
            }
            tail_end(t, i + pair_len(t, i))
        } else {
            i
        }
    } else {
        i
    }
}

pub proof fn lemma_tail_end(t: Seq<char>, i: int)
    requires
        0 <= i <= t.len(),
    ensures
        i <= tail_end(t, i) <= t.len(),
    decreases t.len() - i,
{
    if i < t.len() {
        lemma_pair_len(t, i);
        if is_tail_char(t[i]) {
            lemma_tail_end(t, i + 1);
        } else if pair_len(t, i) > 0 {
            lemma_tail_end(t, i + pair_len(t, i));
        }
    }
}

fn blank_run_end_exec(t: &Vec<char>, i: usize) -> (e: usize)
    requires
        i <= t.len(),
    ensures
        e == blank_run_end(t@, i as int),
        i <= e <= t.len(),
{
    let mut j = i;
    while j < t.len() && (t[j] == ' ' || t[j] == '\n')
        invariant
            i <= j <= t.len(),
            blank_run_end(t@, i as int) == blank_run_end(t@, j as int),
        decreases t.len() - j,
    {
        j = j + 1;
    }
    j
}

fn pair_len_exec(t: &Vec<char>, i: usize) -> (n: usize)
    requires
        i < t.len(),
    ensures
        n == pair_len(t@, i as int),
{
    if t[i] == '_' {
        let e = blank_run_end_exec(t, i + 1);
        if e < t.len() && t[e] == '_' {
            e + 1 - i
        } else {
            0
        }
    } else if i + 1 < t.len() && t[i] == '|' && t[i + 1] == '|' {
        let e = blank_run_end_exec(t, i + 2);
        if e < t.len() && e + 1 < t.len() && t[e] == '|' && t[e + 1] == '|' {
            e + 2 - i
        } else {
            0
        }
    } else {
        0
    }
}

fn tail_end_exec(t: &Vec<char>, i: usize) -> (e: usize)
    requires
        i <= t.len(),
    ensures
        e == tail_end(t@, i as int),
        i <= e <= t.len(),
{
    let mut j = i;
    loop
        invariant
            i <= j <= t.len(),
            tail_end(t@, i as int) == tail_end(t@, j as int),
        ensures
            i <= j <= t.len(),
            tail_end(t@, i as int) == j,
        decreases t.len() - j,
    {
        if j >= t.len() {
            break;
        }
        if is_tail_char_exec(t[j]) {
            j = j + 1;
        } else {
            let p = pair_len_exec(t, j);
            proof {
                lemma_pair_len(t@, j as int);
            }
            if p > 0 {
                j = j + p;
            } else {
                break;
            }
        }
    }
    j
}

// ---------------------------------------------------------------------------
// Rewriting each dot together with its invisible tail
// ---------------------------------------------------------------------------

/// `t[i..]` with every occurrence of `d`, together with the invisible tail
/// that follows it, replaced by `r`.
pub open spec fn rewrite_dots(t: Seq<char>, i: int, d: char, r: Seq<char>) -> Seq<char>
    decreases t.len() - i,
{
    if 0 <= i < t.len() {
        if t[i] == d {
            proof {
                lemma_tail_end(t, i + 1);
            }
            r + rewrite_dots(t, tail_end(t, i + 1), d, r)
        } else {
            seq![t[i]] + rewrite_dots(t, i + 1, d, r)
        }
    } else {
        seq![]
    }
}

/// The first index at or after `i` holding `d`, or `t.len()` when there is none.
pub open spec fn first_index_of(t: Seq<char>, i: int, d: char) -> int
    decreases t.len() - i,
{
    if 0 <= i < t.len() && t[i] != d {
        first_index_of(t, i + 1, d)
    } else {
        i
    }
}

/// How a dot is written back in place of a dot and its tail: the dot `.`
/// comes back escaped as `\.`, any other dot as itself.
pub open spec fn dot_text(d: char) -> Seq<char> {
    if d == '.' {
        seq!['\\', '.']
    } else {
        seq![d]
    }
}

/// `k` backticks.
pub open spec fn backticks(k: nat) -> Seq<char> {
    Seq::new(k, |_j: int| '`')
}

/// The message with the invisible tail stripped from each occurrence of `d`:
/// each occurrence and its tail becomes `dot_text(d)` followed by as many
/// backticks as the tail of the first occurrence held.
pub open spec fn spec_remove_whitespace_from_end(t: Seq<char>, d: char) -> Seq<char> {
    let p = first_index_of(t, 0, d);
    if p < t.len() {
        let k = count_char(t.subrange(p + 1, tail_end(t, p + 1)), '`');
        rewrite_dots(t, 0, d, dot_text(d) + backticks(k))
    } else {
        t
    }
}

fn rewrite_dots_exec(t: &Vec<char>, d: char, r: &Vec<char>) -> (out: Vec<char>)
    ensures
        out@ == rewrite_dots(t@, 0, d, r@),
{
    let mut out: Vec<char> = Vec::new();
    let mut i: usize = 0;
    while i < t.len()
        invariant
            i <= t.len(),
            out@ + rewrite_dots(t@, i as int, d, r@) == rewrite_dots(t@, 0, d, r@),
        decreases t.len() - i,
    {
        let ghost before = out@;
        let ghost rest = rewrite_dots(t@, i as int, d, r@);
        if t[i] == d {
            append_chars(&mut out, r);
            let e = tail_end_exec(t, i + 1);
            assert(rest == r@ + rewrite_dots(t@, e as int, d, r@));
            assert(out@ + rewrite_dots(t@, e as int, d, r@) =~= before + rest);
            i = e;
        } else {
            out.push(t[i]);
            assert(rest == seq![t@[i as int]] + rewrite_dots(t@, i + 1, d, r@));
            assert(out@ + rewrite_dots(t@, i + 1, d, r@) =~= before + rest);
            i = i + 1;
        }
    }
    assert(out@ + rewrite_dots(t@, i as int, d, r@) =~= out@);
    out
}

fn first_index_of_exec(t: &Vec<char>, d: char) -> (p: usize)
    ensures
        p == first_index_of(t@, 0, d),
        p <= t.len(),
{
    let mut j: usize = 0;
    while j < t.len() && t[j] != d
        invariant
            j <= t.len(),
            first_index_of(t@, 0, d) == first_index_of(t@, j as int, d),
        decreases t.len() - j,
    {
        j = j + 1;
    }
    j
}

/// Strips the invisible tail after each occurrence of the dot `d`, as
/// `spec_remove_whitespace_from_end` states.
pub fn remove_whitespace_from_end(text: &Vec<char>, d: char) -> (out: Vec<char>)
    ensures
        out@ == spec_remove_whitespace_from_end(text@, d),
{
    let p = first_index_of_exec(text, d);
    if p < text.len() {
        let e = tail_end_exec(text, p + 1);
        let k = count_char_in(text, p + 1, e, '`');
        let mut r: Vec<char> = Vec::new();
        if d == '.' {
            r.push('\\');
        }
        r.push(d);
        let mut j: usize = 0;
        while j < k
            invariant
                j <= k,
                r@ == dot_text(d) + backticks(j as nat),
            decreases k - j,
        {
            r.push('`');
            j = j + 1;
            assert(r@ =~= dot_text(d) + backticks(j as nat));
        }
        rewrite_dots_exec(text, d, &r)
    } else {
        text.clone()
    }
}

} // verus!

verus! {

// ---------------------------------------------------------------------------
// Escaped dots
// ---------------------------------------------------------------------------

/// `t[i..]` with every run of backslashes that is followed by `d` removed:
/// the escape characters go, the dot stays.
pub open spec fn unescape_dots(t: Seq<char>, i: int, d: char) -> Seq<char>
    decreases t.len() - i,
{
    if 0 <= i < t.len() {
        let e = run_end(t, i, '\\');
        if t[i] == '\\' && e < t.len() && t[e] == d {
            proof {
                lemma_run_end(t, i, '\\');
            }
            seq![d] + unescape_dots(t, e + 1, d)
        } else {
            seq![t[i]] + unescape_dots(t, i + 1, d)
        }
    } else {
        seq![]
    }
}

fn unescape_dots_exec(t: &Vec<char>, d: char) -> (out: Vec<char>)
    ensures
        out@ == unescape_dots(t@, 0, d),
{
    let mut out: Vec<char> = Vec::new();
    let mut i: usize = 0;
    while i < t.len()
        invariant
            i <= t.len(),
            out@ + unescape_dots(t@, i as int, d) == unescape_dots(t@, 0, d),
        decreases t.len() - i,
    {
        let ghost before = out@;
        let ghost rest = unescape_dots(t@, i as int, d);
        let e = run_end_in(t, i, '\\');
        if t[i] == '\\' && e < t.len() && t[e] == d {
            out.push(d);
            assert(out@ + unescape_dots(t@, e + 1, d) =~= before + rest);
            i = e + 1;
        } else {
            out.push(t[i]);
            assert(out@ + unescape_dots(t@, i + 1, d) =~= before + rest);
            i = i + 1;
        }
    }
    assert(out@ + unescape_dots(t@, i as int, d) =~= out@);
    out
}

// ---------------------------------------------------------------------------
// A dot just before a closing backtick
// ---------------------------------------------------------------------------

/// The start of the run of spaces that ends just before `end`.
pub open spec fn spaces_start(u: Seq<char>, end: int) -> int
    decreases end,
{
    if 0 < end <= u.len() && u[end - 1] == ' ' {
        spaces_start(u, end - 1)
    } else {
        end
    }
}

pub proof fn lemma_spaces_start(u: Seq<char>, end: int)
    requires
        0 <= end <= u.len(),
    ensures
        0 <= spaces_start(u, end) <= end,
        forall|k: int| spaces_start(u, end) <= k < end ==> u[k] == ' ',
        spaces_start(u, end) > 0 ==> u[spaces_start(u, end) - 1] != ' ',
    decreases end,
{
    if 0 < end && u[end - 1] == ' ' {
        lemma_spaces_start(u, end - 1);
    }
}

/// For a message ending in a backtick, the index of the character before the
/// spaces that precede that backtick.
pub open spec fn before_tick_index(u: Seq<char>) -> int {
    spaces_start(u, u.len() - 1) - 1
}

/// Whether `u` ends with `n` copies of `d` (`1 <= n <= 3`), then any number
/// of spaces, then a backtick.
pub open spec fn dots_before_tick(u: Seq<char>, d: char, n: int) -> bool {
    let j = before_tick_index(u);
    &&& u.len() >= 1
    &&& u.last() == '`'
    &&& j - (n - 1) >= 0
    &&& u[j] == d
    &&& (n >= 2 ==> u[j - 1] == d)
    &&& (n >= 3 ==> u[j - 2] == d)
}

/// Whether `u` holds a backtick, then one or two copies of `d`, then a backtick.
pub open spec fn has_ticked_dot(u: Seq<char>, d: char) -> bool {
    exists|i: int| #![trigger u[i]] ticked_dot_at(u, d, i)
}

pub open spec fn ticked_dot_at(u: Seq<char>, d: char, i: int) -> bool {
    &&& 0 <= i
    &&& i + 2 < u.len()
    &&& u[i] == '`'
    &&& u[i + 1] == d
    &&& (u[i + 2] == '`' || (i + 3 < u.len() && u[i + 2] == d && u[i + 3] == '`'))
}

/// Whether the third to last character of `u` is `d` (the check the remover
/// makes before dropping two dots).
pub open spec fn dot_third_to_last(u: Seq<char>, d: char) -> bool {
    &&& u.len() > 2
    &&& u[u.len() - 3] == d
}

/// Whether the dot `d` sits just before a closing backtick in a single inline
/// code span, with no `` `d` `` or `` `dd` `` inside.
pub open spec fn tick_case(u: Seq<char>, d: char) -> bool {
    &&& dots_before_tick(u, d, 1)
    &&& count_char(u, '`') == 2
    &&& !dots_before_tick(u, d, 3)
    &&& !has_ticked_dot(u, d)
}

/// The result in the backtick case: the dot (or two dots) and the spaces
/// before the closing backtick are dropped.
pub open spec fn tick_strip(u: Seq<char>, d: char) -> Seq<char> {
    let j = before_tick_index(u);
    if dot_third_to_last(u, d) {
        if dots_before_tick(u, d, 2) {
            u.take(j - 1) + seq!['`']
        } else {
            u
        }
    } else {
        u.take(j) + seq!['`']
    }
}

fn dots_before_tick_exec(u: &Vec<char>, d: char, n: usize) -> (b: bool)
    requires
        1 <= n <= 3,
    ensures
        b == dots_before_tick(u@, d, n as int),
{
    if u.len() == 0 || u[u.len() - 1] != '`' {
        return false;
    }
    let s = spaces_start_exec(u, u.len() - 1);
    if s < n {
        return false;
    }
    let j = s - 1;
    u[j] == d && (n < 2 || u[j - 1] == d) && (n < 3 || u[j - 2] == d)
}

fn spaces_start_exec(u: &Vec<char>, end: usize) -> (s: usize)
    requires
        end <= u.len(),
    ensures
        s == spaces_start(u@, end as int),
        s <= end,
{
    let mut k = end;
    while k > 0 && u[k - 1] == ' '
        invariant
            k <= end <= u.len(),
            spaces_start(u@, end as int) == spaces_start(u@, k as int),
        decreases k,
    {
        k = k - 1;
    }
    k
}

fn has_ticked_dot_exec(u: &Vec<char>, d: char) -> (b: bool)
    ensures
        b == has_ticked_dot(u@, d),
{
    let mut i: usize = 0;
    while i < u.len() && u.len() - i > 2
        invariant
            forall|k: int| 0 <= k < i ==> !ticked_dot_at(u@, d, k),
        decreases u.len() - i,
    {
        if u[i] == '`' && u[i + 1] == d
            && (u[i + 2] == '`' || (i + 3 < u.len() && u[i + 2] == d && u[i + 3] == '`')) {
            assert(ticked_dot_at(u@, d, i as int));
            assert(u@[i as int] == '`');
            return true;
        }
        i = i + 1;
    }
    assert forall|k: int| #![trigger u@[k]] !ticked_dot_at(u@, d, k) by {
        if 0 <= k && k >= i {
            assert(!(k + 2 < u.len()));
        }
    }
    false
}

fn tick_strip_exec(u: &Vec<char>, d: char) -> (out: Vec<char>)
    requires
        dots_before_tick(u@, d, 1),
    ensures
        out@ == tick_strip(u@, d),
{
    let s = spaces_start_exec(u, u.len() - 1);
    let j = s - 1;
    let at3 = u.len() > 2 && u[u.len() - 3] == d;
    if at3 {
        if dots_before_tick_exec(u, d, 2) {
            let mut out = take_prefix(u, j - 1);
            out.push('`');
            out
        } else {
            u.clone()
        }
    } else {
        let mut out = take_prefix(u, j);
        out.push('`');
        out
    }
}

/// The first `n` characters of `u`.
fn take_prefix(u: &Vec<char>, n: usize) -> (out: Vec<char>)
    requires
        n <= u.len(),
    ensures
        out@ == u@.take(n as int),
{
    let mut out: Vec<char> = Vec::new();
    let mut i: usize = 0;
    while i < n
        invariant
            i <= n <= u.len(),
            out@ == u@.take(i as int),
        decreases n - i,
    {
        out.push(u[i]);
        i = i + 1;
        assert(out@ =~= u@.take(i as int));
    }
    out
}

} // verus!

verus! {

// ---------------------------------------------------------------------------
// Dots hidden between Markdown markers
// ---------------------------------------------------------------------------

/// The Markdown markers that make what they surround hard to see, in the
/// order they are tried.
pub open spec fn mark_chars() -> Seq<char> {
    seq!['*', '_', '~', '`']
}

/// Whether a marker `m`, one or two copies of `d`, and a marker `m` start at `i`.
pub open spec fn marked_dot_at(u: Seq<char>, d: char, m: char, i: int) -> bool {
    &&& 0 <= i
    &&& i + 2 < u.len()
    &&& u[i] == m
    &&& u[i + 1] == d
    &&& (u[i + 2] == m || (i + 3 < u.len() && u[i + 2] == d && u[i + 3] == m))
}

pub open spec fn has_marked_dot(u: Seq<char>, d: char, m: char) -> bool {
    exists|i: int| #![trigger u[i]] marked_dot_at(u, d, m, i)
}

/// `u[i..]` with every run of markers `m`, one or two copies of `d` and a run
/// of markers `m` removed, matches taken from left to right.
pub open spec fn strip_marked(u: Seq<char>, i: int, d: char, m: char) -> Seq<char>
    decreases u.len() - i,
{
    if 0 <= i < u.len() {
        if u[i] == m {
            let r = run_end(u, i, m);
            proof {
                lemma_run_end(u, i, m);
            }
            if r + 2 < u.len() && u[r] == d && u[r + 1] == d && u[r + 2] == m {
                proof {
                    lemma_run_end(u, r + 2, m);
                }
                strip_marked(u, run_end(u, r + 2, m), d, m)
            } else if r + 1 < u.len() && u[r] == d && u[r + 1] == m {
                proof {
                    lemma_run_end(u, r + 1, m);
                }
                strip_marked(u, run_end(u, r + 1, m), d, m)
            } else {
                seq![u[i]] + strip_marked(u, i + 1, d, m)
            }
        } else {
            seq![u[i]] + strip_marked(u, i + 1, d, m)
        }
    } else {
        seq![]
    }
}

/// The result of the first marker (from `mark_chars()[k]` on) that hides the
/// dot `d` in `u`: `u` with those hidden dots removed.
pub open spec fn strip_markdown(u: Seq<char>, d: char, k: int) -> Option<Seq<char>>
    decreases 4 - k,
{
    if 0 <= k < 4 {
        let m = mark_chars()[k];
        if has_marked_dot(u, d, m) {
            Some(strip_marked(u, 0, d, m))
        } else {
            strip_markdown(u, d, k + 1)
        }
    } else {
        None
    }
}

fn has_marked_dot_exec(u: &Vec<char>, d: char, m: char) -> (b: bool)
    ensures
        b == has_marked_dot(u@, d, m),
{
    let mut i: usize = 0;
    while i < u.len() && u.len() - i > 2
        invariant
            forall|k: int| 0 <= k < i ==> !marked_dot_at(u@, d, m, k),
        decreases u.len() - i,
    {
        if u[i] == m && u[i + 1] == d
            && (u[i + 2] == m || (i + 3 < u.len() && u[i + 2] == d && u[i + 3] == m)) {
            assert(marked_dot_at(u@, d, m, i as int));
            assert(u@[i as int] == m);
            return true;
        }
        i = i + 1;
    }
    assert forall|k: int| #![trigger u@[k]] !marked_dot_at(u@, d, m, k) by {
        if 0 <= k && k >= i {
            assert(!(k + 2 < u.len()));
        }
    }
    false
}

fn strip_marked_exec(u: &Vec<char>, d: char, m: char) -> (out: Vec<char>)
    ensures
        out@ == strip_marked(u@, 0, d, m),
{
    let mut out: Vec<char> = Vec::new();
    let mut i: usize = 0;
    while i < u.len()
        invariant
            i <= u.len(),
            out@ + strip_marked(u@, i as int, d, m) == strip_marked(u@, 0, d, m),
        decreases u.len() - i,
    {
        let ghost before = out@;
        let ghost rest = strip_marked(u@, i as int, d, m);
        if u[i] == m {
            let r = run_end_in(u, i, m);
            if r < u.len() && u.len() - r > 2 && u[r] == d && u[r + 1] == d && u[r + 2] == m {
                let e = run_end_in(u, r + 2, m);
                assert(rest == strip_marked(u@, e as int, d, m));
                i = e;
            } else if r < u.len() && u.len() - r > 1 && u[r] == d && u[r + 1] == m {
                let e = run_end_in(u, r + 1, m);
                assert(rest == strip_marked(u@, e as int, d, m));
                i = e;
            } else {
                out.push(u[i]);
                assert(out@ + strip_marked(u@, i + 1, d, m) =~= before + rest);
                i = i + 1;
            }
        } else {
            out.push(u[i]);
            assert(out@ + strip_marked(u@, i + 1, d, m) =~= before + rest);
            i = i + 1;
        }
    }
    assert(out@ + strip_marked(u@, i as int, d, m) =~= out@);
    out
}

fn strip_markdown_exec(u: &Vec<char>, d: char) -> (r: Option<Vec<char>>)
    ensures
        opt_chars(r) == strip_markdown(u@, d, 0),
{
    let marks = vec!['*', '_', '~', '`'];
    assert(marks@ =~= mark_chars());
    let mut k: usize = 0;
    while k < 4
        invariant
            k <= 4,
            marks@ == mark_chars(),
            strip_markdown(u@, d, 0) == strip_markdown(u@, d, k as int),
        decreases 4 - k,
    {
        let m = marks[k];
        if has_marked_dot_exec(u, d, m) {
            return Some(strip_marked_exec(u, d, m));
        }
        k = k + 1;
    }
    None
}

/// A character sequence in an `Option`, as a `Seq`.
pub open spec fn opt_chars(o: Option<Vec<char>>) -> Option<Seq<char>> {
    match o {
        Some(v) => Some(v@),
        None => None,
    }
}

/// A `String` in an `Option`, as a `Seq`.
pub open spec fn opt_string(o: Option<String>) -> Option<Seq<char>> {
    match o {
        Some(s) => Some(s@),
        None => None,
    }
}

// ---------------------------------------------------------------------------
// One dot, one pass
// ---------------------------------------------------------------------------

/// Whether `u` ends with `n` copies of `d`.
pub open spec fn ends_with_dots(u: Seq<char>, d: char, n: int) -> bool {
    &&& u.len() >= n
    &&& forall|k: int| 0 <= k < n ==> #[trigger] u[u.len() - 1 - k] == d
}

/// The message after the invisible tails of `d` are stripped and its escaped
/// copies unescaped.
pub open spec fn cleaned(t: Seq<char>, d: char) -> Seq<char> {
    unescape_dots(spec_remove_whitespace_from_end(t, d), 0, d)
}

/// What one pass does for the dot `d`: drop a single final dot, drop a dot
/// before the closing backtick of a code span, or remove dots hidden between
/// Markdown markers; `None` when none applies.
pub open spec fn try_dot(t: Seq<char>, d: char) -> Option<Seq<char>> {
    let u = cleaned(t, d);
    if ends_with_dots(u, d, 1) && !ends_with_dots(u, d, 3) {
        Some(u.drop_last())
    } else if tick_case(u, d) {
        Some(tick_strip(u, d))
    } else {
        strip_markdown(u, d, 0)
    }
}

/// The first dot (from `dot_chars()[k]` on) for which a pass applies, and what
/// it gives.
pub open spec fn try_dots(t: Seq<char>, k: int) -> Option<Seq<char>>
    decreases dot_chars().len() - k,
{
    if 0 <= k < dot_chars().len() {
        match try_dot(t, dot_chars()[k]) {
            Some(r) => Some(r),
            None => try_dots(t, k + 1),
        }
    } else {
        None
    }
}

/// Whether a sentence ends at `i`: a dot followed by a space or by the end.
pub open spec fn sentence_end_at(t: Seq<char>, i: int) -> bool {
    &&& 0 <= i < t.len()
    &&& is_dot(t[i])
    &&& (i == t.len() - 1 || t[i + 1] == ' ')
}

/// How many sentences end before position `n`.
pub open spec fn sentence_ends_before(t: Seq<char>, n: int) -> nat
    decreases n,
{
    if n <= 0 {
        0
    } else {
        sentence_ends_before(t, n - 1) + if sentence_end_at(t, n - 1) {
            1nat
        } else {
            0nat
        }
    }
}

/// How many sentences end in `t`.
pub open spec fn sentence_count(t: Seq<char>) -> nat {
    sentence_ends_before(t, t.len() as int)
}

/// One full pass of the remover: nothing for a message of several sentences,
/// else the result of the first dot for which a pass applies.
pub open spec fn spec_find_if_dot_logic(t: Seq<char>) -> Option<Seq<char>> {
    if sentence_count(t) > 1 {
        None
    } else {
        try_dots(t, 0)
    }
}

/// Whether `s` holds a dot character.
pub open spec fn contains_dot(s: Seq<char>) -> bool {
    exists|i: int| 0 <= i < s.len() && #[trigger] is_dot(s[i])
}

/// How many passes `find_if_dot` makes after the first one, at most.
pub open spec fn pass_limit() -> nat {
    10
}

/// Repeats the pass on its own result while that result still holds a dot,
/// at most `pass_limit()` more times.
pub open spec fn repeat_passes(r: Option<Seq<char>>, counter: nat) -> Option<Seq<char>>
    decreases pass_limit() - counter,
{
    match r {
        Some(s) => if contains_dot(s) && counter < pass_limit() {
            repeat_passes(spec_find_if_dot_logic(s), counter + 1)
        } else {
            r
        },
        None => None,
    }
}

/// The dot remover: the message without its final dot, or `None` when it is
/// left as it is.
pub open spec fn spec_find_if_dot(t: Seq<char>) -> Option<Seq<char>> {
    repeat_passes(spec_find_if_dot_logic(t), 0)
}

fn ends_with_dots_exec(u: &Vec<char>, d: char, n: usize) -> (b: bool)
    ensures
        b == ends_with_dots(u@, d, n as int),
{
    if u.len() < n {
        return false;
    }
    let mut k: usize = 0;
    while k < n
        invariant
            n <= u.len(),
            k <= n,
            forall|j: int| 0 <= j < k ==> #[trigger] u@[u.len() - 1 - j] == d,
        decreases n - k,
    {
        if u[u.len() - 1 - k] != d {
            return false;
        }
        k = k + 1;
    }
    true
}

fn try_dot_exec(t: &Vec<char>, d: char) -> (r: Option<Vec<char>>)
    ensures
        opt_chars(r) == try_dot(t@, d),
{
    let w = remove_whitespace_from_end(t, d);
    let u = unescape_dots_exec(&w, d);
    if ends_with_dots_exec(&u, d, 1) && !ends_with_dots_exec(&u, d, 3) {
        let out = take_prefix(&u, u.len() - 1);
        assert(out@ =~= u@.drop_last());
        return Some(out);
    }
    if dots_before_tick_exec(&u, d, 1) && count_char_in(&u, 0, u.len(), '`') == 2
        && !dots_before_tick_exec(&u, d, 3) && !has_ticked_dot_exec(&u, d) {
        assert(u@.subrange(0, u.len() as int) =~= u@);
        return Some(tick_strip_exec(&u, d));
    }
    assert(u@.subrange(0, u.len() as int) =~= u@);
    strip_markdown_exec(&u, d)
}

fn sentence_count_exec(t: &Vec<char>) -> (n: usize)
    ensures
        n == sentence_count(t@),
{
    let mut n: usize = 0;
    let mut i: usize = 0;
    while i < t.len()
        invariant
            i <= t.len(),
            n == sentence_ends_before(t@, i as int),
            n <= i,
        decreases t.len() - i,
    {
        if is_dot_char(t[i]) && (i == t.len() - 1 || t[i + 1] == ' ') {
            n = n + 1;
        }
        i = i + 1;
    }
    n
}

fn find_if_dot_logic_chars(t: &Vec<char>) -> (r: Option<Vec<char>>)
    ensures
        opt_chars(r) == spec_find_if_dot_logic(t@),
{
    if sentence_count_exec(t) > 1 {
        return None;
    }
    let dots = dot_list();
    let mut k: usize = 0;
    while k < dots.len()
        invariant
            dots@ == dot_chars(),
            k <= dots.len(),
            sentence_count(t@) <= 1,
            try_dots(t@, 0) == try_dots(t@, k as int),
        decreases dots.len() - k,
    {
        let r = try_dot_exec(t, dots[k]);
        assert(dots@[k as int] == dot_chars()[k as int]);
        if r.is_some() {
            assert(try_dots(t@, k as int) == opt_chars(r));
            return r;
        }
        k = k + 1;
    }
    None
}

fn contains_dot_exec(s: &Vec<char>) -> (b: bool)
    ensures
        b == contains_dot(s@),
{
    let mut i: usize = 0;
    while i < s.len()
        invariant
            i <= s.len(),
            forall|j: int| 0 <= j < i ==> !is_dot(#[trigger] s@[j]),
        decreases s.len() - i,
    {
        if is_dot_char(s[i]) {
            return true;
        }
        i = i + 1;
    }
    false
}

/// One pass of the dot remover over `text`: the text without its dot, or
/// `None` when no pass applies or the text holds more than one sentence.
pub fn find_if_dot_logic(text: &str) -> (r: Option<String>)
    ensures
        opt_string(r) == spec_find_if_dot_logic(text@),
{
    let t = chars_of(text);
    match find_if_dot_logic_chars(&t) {
        Some(v) => Some(string_of(&v)),
        None => None,
    }
}

/// The dot remover: repeats `find_if_dot_logic` on its own result while that
/// result still holds a dot, at most `pass_limit()` more times.
pub fn find_if_dot(text: &str) -> (r: Option<String>)
    ensures
        opt_string(r) == spec_find_if_dot(text@),
{
    let t = chars_of(text);
    let mut result = find_if_dot_logic_chars(&t);
    let mut counter: usize = 0;
    loop
        invariant
            counter <= 10,
            repeat_passes(opt_chars(result), counter as nat) == spec_find_if_dot(text@),
        decreases 10 - counter,
    {
        match result {
            Some(s) => {
                if contains_dot_exec(&s) && counter < 10 {
                    result = find_if_dot_logic_chars(&s);
                    counter = counter + 1;
                } else {
                    return Some(string_of(&s));
                }
            },
            None => {
                return None;
            },
        }
    }
}

} // verus!

verus! {

// ---------------------------------------------------------------------------
// Lemmas about texts without a given dot
// ---------------------------------------------------------------------------

/// `d` does not occur in `t`.
pub open spec fn lacks(t: Seq<char>, d: char) -> bool {
    forall|i: int| 0 <= i < t.len() ==> #[trigger] t[i] != d
}

proof fn lemma_first_index_absent(t: Seq<char>, i: int, d: char)
    requires
        0 <= i <= t.len(),
        lacks(t, d),
    ensures
        first_index_of(t, i, d) == t.len(),
    decreases t.len() - i,
{
    if i < t.len() {
        lemma_first_index_absent(t, i + 1, d);
    }
}

proof fn lemma_unescape_absent(t: Seq<char>, i: int, d: char)
    requires
        0 <= i <= t.len(),
        lacks(t, d),
    ensures
        unescape_dots(t, i, d) == t.subrange(i, t.len() as int),
    decreases t.len() - i,
{
    if i < t.len() {
        lemma_run_end(t, i, '\\');
        lemma_unescape_absent(t, i + 1, d);
        assert(t.subrange(i, t.len() as int) =~= seq![t[i]] + t.subrange(i + 1, t.len() as int));
    } else {
        assert(t.subrange(i, t.len() as int) =~= Seq::<char>::empty());
    }
}

/// Without `d` in the text, cleaning for `d` changes nothing.
proof fn lemma_cleaned_absent(t: Seq<char>, d: char)
    requires
        lacks(t, d),
    ensures
        cleaned(t, d) == t,
{
    lemma_first_index_absent(t, 0, d);
    lemma_unescape_absent(t, 0, d);
    assert(t.subrange(0, t.len() as int) =~= t);
}

proof fn lemma_strip_markdown_absent(u: Seq<char>, d: char, k: int)
    requires
        lacks(u, d),
        0 <= k <= 4,
    ensures
        strip_markdown(u, d, k) is None,
    decreases 4 - k,
{
    if k < 4 {
        let m = mark_chars()[k];
        assert(!has_marked_dot(u, d, m)) by {
            assert forall|i: int| #![trigger u[i]] !marked_dot_at(u, d, m, i) by {
                if 0 <= i && i + 2 < u.len() {
                    assert(u[i + 1] != d);
                }
            }
        }
        lemma_strip_markdown_absent(u, d, k + 1);
    }
}

/// A pass for a dot that the text lacks gives nothing.
proof fn lemma_try_dot_absent(t: Seq<char>, d: char)
    requires
        lacks(t, d),
    ensures
        try_dot(t, d) is None,
{
    lemma_cleaned_absent(t, d);
    let u = t;
    if u.len() >= 1 {
        assert(u[u.len() - 1 - 0] != d);
        assert(!ends_with_dots(u, d, 1));
        lemma_spaces_start(u, u.len() - 1);
        let j = before_tick_index(u);
        if j >= 0 {
            assert(u[j] != d);
        }
    }
    assert(!dots_before_tick(u, d, 1));
    lemma_strip_markdown_absent(u, d, 0);
}

proof fn lemma_try_dots_absent(t: Seq<char>, k: int)
    requires
        !contains_dot(t),
        0 <= k <= dot_chars().len(),
    ensures
        try_dots(t, k) is None,
    decreases dot_chars().len() - k,
{
    if k < dot_chars().len() {
        let d = dot_chars()[k];
        lemma_is_dot_iff_listed(d);
        assert(dot_chars().contains(d));
        assert(lacks(t, d)) by {
            assert forall|i: int| 0 <= i < t.len() implies #[trigger] t[i] != d by {
                if t[i] == d {
                    assert(is_dot(t[i]));
                }
            }
        }
        lemma_try_dot_absent(t, d);
        lemma_try_dots_absent(t, k + 1);
    }
}

// ---------------------------------------------------------------------------
// Laws
// ---------------------------------------------------------------------------

/// A message of more than one sentence is left as it is.
pub proof fn law_several_sentences_left_alone(t: Seq<char>)
    requires
        sentence_count(t) > 1,
    ensures
        spec_find_if_dot(t) is None,
{
}

/// A message without any dot character is left as it is.
pub proof fn law_dot_free_left_alone(t: Seq<char>)
    requires
        !contains_dot(t),
    ensures
        spec_find_if_dot(t) is None,
{
    lemma_try_dots_absent(t, 0);
    if sentence_count(t) <= 1 {
        assert(spec_find_if_dot_logic(t) == try_dots(t, 0));
    }
}

} // verus!

verus! {

// ---------------------------------------------------------------------------
// A plain sentence followed by one dot
// ---------------------------------------------------------------------------

/// Whether `c` is one of the characters that do not show after a dot: the
/// spaces U+2000, U+2001 and U+2003 to U+200F (zero-width ones among them),
/// the Hangul filler U+3164 and the plain space.
pub open spec fn is_quiet_char(c: char) -> bool {
    ||| 0x2000 <= c as int <= 0x2001
    ||| 0x2003 <= c as int <= 0x200F
    ||| c as int == 0x3164
    ||| c == ' '
}

/// Whether every character of `w` is one that does not show after a dot.
pub open spec fn quiet_tail(w: Seq<char>) -> bool {
    forall|i: int| 0 <= i < w.len() ==> is_quiet_char(#[trigger] w[i])
}

proof fn lemma_quiet_is_tail(c: char)
    requires
        is_quiet_char(c),
    ensures
        is_tail_char(c),
        c != '`',
{
}

proof fn lemma_quiet_not_dot(c: char)
    requires
        is_quiet_char(c),
    ensures
        !is_dot(c),
{
}

proof fn lemma_count_char_absent(s: Seq<char>, c: char)
    requires
        lacks(s, c),
    ensures
        count_char(s, c) == 0,
    decreases s.len(),
{
    if s.len() > 0 {
        assert(s.last() == s[s.len() - 1]);
        assert(lacks(s.drop_last(), c)) by {
            assert forall|i: int| 0 <= i < s.drop_last().len() implies #[trigger] s.drop_last()[i] != c by {
                assert(s.drop_last()[i] == s[i]);
            }
        }
        lemma_count_char_absent(s.drop_last(), c);
    }
}

proof fn lemma_no_dot_lacks(s: Seq<char>, d: char)
    requires
        !contains_dot(s),
        is_dot(d),
    ensures
        lacks(s, d),
{
    assert forall|i: int| 0 <= i < s.len() implies #[trigger] s[i] != d by {
        if s[i] == d {
            assert(is_dot(s[i]));
        }
    }
}

/// In `s`, a dot, then a quiet tail, at most one sentence ends: the one at
/// the dot.
proof fn lemma_sentence_ends_tail(s: Seq<char>, d: char, w: Seq<char>, k: int)
    requires
        !contains_dot(s),
        quiet_tail(w),
        0 <= k <= s.len() + 1 + w.len(),
    ensures
        sentence_ends_before(s.push(d) + w, k) <= if k > s.len() { 1int } else { 0int },
    decreases k,
{
    let t = s.push(d) + w;
    let n = s.len() as int;
    if k > 0 {
        lemma_sentence_ends_tail(s, d, w, k - 1);
        if k - 1 < n {
            assert(t[k - 1] == s[k - 1]);
            assert(!is_dot(s[k - 1]));
        } else if k - 1 > n {
            assert(t[k - 1] == w[k - 2 - n]);
            lemma_quiet_not_dot(w[k - 2 - n]);
        }
    }
}

proof fn lemma_rewrite_final_dot(s: Seq<char>, d: char, w: Seq<char>, r: Seq<char>, i: int)
    requires
        lacks(s, d),
        quiet_tail(w),
        0 <= i <= s.len(),
    ensures
        rewrite_dots(s.push(d) + w, i, d, r) == s.subrange(i, s.len() as int) + r,
    decreases s.len() - i,
{
    let t = s.push(d) + w;
    let n = s.len() as int;
    if i < n {
        assert(t[i] == s[i]);
        lemma_rewrite_final_dot(s, d, w, r, i + 1);
        assert(s.subrange(i, n) + r =~= seq![s[i]] + (s.subrange(i + 1, n) + r));
    } else {
        assert(t[i] == d);
        assert forall|k: int| n + 1 <= k < t.len() implies is_tail_char(#[trigger] t[k]) by {
            assert(t[k] == w[k - n - 1]);
            lemma_quiet_is_tail(w[k - n - 1]);
        }
        lemma_tail_over_run(t, n + 1, t.len() as int);
        assert(tail_end(t, t.len() as int) == t.len());
        assert(rewrite_dots(t, t.len() as int, d, r) =~= Seq::<char>::empty());
        assert(s.subrange(i, n) + r =~= r + Seq::<char>::empty());
    }
}

proof fn lemma_first_index_final_dot(s: Seq<char>, d: char, w: Seq<char>, i: int)
    requires
        lacks(s, d),
        0 <= i <= s.len(),
    ensures
        first_index_of(s.push(d) + w, i, d) == s.len(),
    decreases s.len() - i,
{
    if i < s.len() {
        assert((s.push(d) + w)[i] == s[i]);
        lemma_first_index_final_dot(s, d, w, i + 1);
    } else {
        assert((s.push(d) + w)[i] == d);
    }
}

proof fn lemma_unescape_final_dot(s: Seq<char>, d: char, i: int)
    requires
        lacks(s, d),
        is_dot(d),
        s.len() == 0 || s.last() != '\\',
        0 <= i <= s.len(),
    ensures
        unescape_dots(s + dot_text(d), i, d) == s.subrange(i, s.len() as int).push(d),
    decreases s.len() - i,
{
    let w = s + dot_text(d);
    let n = s.len() as int;
    if i < n {
        assert(w[i] == s[i]);
        lemma_run_end(w, i, '\\');
        let e = run_end(w, i, '\\');
        if w[i] == '\\' {
            if e >= n {
                assert(w[n - 1] == '\\');
                assert(s.last() == s[n - 1]);
            }
            assert(e < n);
            assert(w[e] == s[e]);
        }
        lemma_unescape_final_dot(s, d, i + 1);
        assert(s.subrange(i, n).push(d) =~= seq![s[i]] + s.subrange(i + 1, n).push(d));
    } else {
        if d == '.' {
            assert(w[n] == '\\');
            assert(w[n + 1] == '.');
            lemma_run_end(w, n + 1, '\\');
            assert(run_end(w, n + 1, '\\') == n + 1);
            assert(run_end(w, n, '\\') == n + 1);
            assert(unescape_dots(w, n + 2, d) =~= Seq::<char>::empty());
        } else {
            assert(w[n] == d);
            assert(unescape_dots(w, n + 1, d) =~= Seq::<char>::empty());
        }
        assert(s.subrange(i, n).push(d) =~= seq![d]);
    }
}

proof fn lemma_try_dot_final_dot(s: Seq<char>, d: char, w: Seq<char>)
    requires
        !contains_dot(s),
        is_dot(d),
        s.len() == 0 || s.last() != '\\',
        quiet_tail(w),
    ensures
        try_dot(s.push(d) + w, d) == Some(s),
{
    let t = s.push(d) + w;
    let n = s.len() as int;
    lemma_no_dot_lacks(s, d);
    lemma_first_index_final_dot(s, d, w, 0);
    assert forall|k: int| n + 1 <= k < t.len() implies is_tail_char(#[trigger] t[k]) by {
        assert(t[k] == w[k - n - 1]);
        lemma_quiet_is_tail(w[k - n - 1]);
    }
    lemma_tail_over_run(t, n + 1, t.len() as int);
    assert(tail_end(t, n + 1) == t.len());
    assert(t.subrange(n + 1, t.len() as int) =~= w);
    assert(lacks(w, '`')) by {
        assert forall|i: int| 0 <= i < w.len() implies #[trigger] w[i] != '`' by {
            lemma_quiet_is_tail(w[i]);
        }
    }
    lemma_count_char_absent(w, '`');
    assert(backticks(0) =~= Seq::<char>::empty());
    assert(dot_text(d) + backticks(0) =~= dot_text(d));
    lemma_rewrite_final_dot(s, d, w, dot_text(d), 0);
    assert(s.subrange(0, n) =~= s);
    assert(spec_remove_whitespace_from_end(t, d) == s + dot_text(d));
    lemma_unescape_final_dot(s, d, 0);
    let u = cleaned(t, d);
    assert(u == s.push(d));
    assert(ends_with_dots(u, d, 1));
    if u.len() >= 3 {
        assert(u[u.len() - 1 - 1] == s[n - 1]);
        assert(!ends_with_dots(u, d, 3));
    }
    assert(u.drop_last() =~= s);
}

proof fn lemma_try_dots_final_dot(s: Seq<char>, d: char, w: Seq<char>, k: int)
    requires
        !contains_dot(s),
        is_dot(d),
        s.len() == 0 || s.last() != '\\',
        quiet_tail(w),
        0 <= k <= dot_chars().len(),
        dot_chars().subrange(k, dot_chars().len() as int).contains(d),
    ensures
        try_dots(s.push(d) + w, k) == Some(s),
    decreases dot_chars().len() - k,
{
    let t = s.push(d) + w;
    let n = s.len() as int;
    let dc = dot_chars();
    let j = choose|j: int| 0 <= j < dc.subrange(k, dc.len() as int).len()
        && dc.subrange(k, dc.len() as int)[j] == d;
    assert(dc[k + j] == d);
    if dc[k] == d {
        lemma_try_dot_final_dot(s, d, w);
    } else {
        let e = dc[k];
        lemma_is_dot_iff_listed(e);
        assert(dc.contains(e));
        assert(lacks(t, e)) by {
            assert forall|i: int| 0 <= i < t.len() implies #[trigger] t[i] != e by {
                if i < n {
                    assert(t[i] == s[i]);
                    if s[i] == e {
                        assert(is_dot(s[i]));
                    }
                } else if i > n {
                    assert(t[i] == w[i - n - 1]);
                    lemma_quiet_not_dot(w[i - n - 1]);
                }
            }
        }
        lemma_try_dot_absent(t, e);
        assert(dc.subrange(k + 1, dc.len() as int)[j - 1] == d);
        lemma_try_dots_final_dot(s, d, w, k + 1);
    }
}

/// A single sentence ending in one dot, followed by any run of characters
/// that do not show (the spaces U+2000, U+2001, U+2003..=U+200F, the Hangul
/// filler U+3164 and the plain space), comes back as the sentence without
/// the dot and without that run, when the sentence itself holds no dot and
/// does not end in a backslash.
pub proof fn law_final_dot_removed_with_quiet_tail(s: Seq<char>, d: char, w: Seq<char>)
    requires
        is_dot(d),
        !contains_dot(s),
        s.len() == 0 || s.last() != '\\',
        quiet_tail(w),
    ensures
        spec_find_if_dot(s.push(d) + w) == Some(s),
{
    let t = s.push(d) + w;
    lemma_sentence_ends_tail(s, d, w, t.len() as int);
    assert(sentence_count(t) <= 1);
    lemma_is_dot_iff_listed(d);
    assert(dot_chars().subrange(0, dot_chars().len() as int) =~= dot_chars());
    lemma_try_dots_final_dot(s, d, w, 0);
    assert(spec_find_if_dot_logic(t) == Some(s));
}

/// A single sentence ending in one dot comes back without that dot, when the
/// sentence itself holds no dot and does not end in a backslash.
pub proof fn law_final_dot_removed(s: Seq<char>, d: char)
    requires
        is_dot(d),
        !contains_dot(s),
        s.len() == 0 || s.last() != '\\',
    ensures
        spec_find_if_dot(s.push(d)) == Some(s),
{
    let w = Seq::<char>::empty();
    assert(s.push(d) + w =~= s.push(d));
    law_final_dot_removed_with_quiet_tail(s, d, w);
}

} // verus!

verus! {

/// The text the bot posts in place of a new or edited message: messages by
/// bots are left alone; for others the dot remover decides.
pub fn repost_text(author_is_bot: bool, content: &str) -> (r: Option<String>)
    ensures
        author_is_bot ==> r is None,
        !author_is_bot ==> opt_string(r) == spec_find_if_dot(content@),
{
    if author_is_bot {
        return None;
    }
    find_if_dot(content)
}

} // verus!

verus! {

// ---------------------------------------------------------------------------
// Stripping the invisible tails twice changes nothing more (dots other than `.`)
// ---------------------------------------------------------------------------

proof fn lemma_dot_is_plain(d: char)
    requires
        is_dot(d),
    ensures
        !is_tail_char(d),
        d != '_',
        d != '|',
        d != ' ',
        d != '\n',
        d != '`',
{
}

proof fn lemma_blank_shift(p: Seq<char>, s: Seq<char>, j: int)
    requires
        0 <= j <= s.len(),
    ensures
        blank_run_end(p + s, p.len() + j) == p.len() + blank_run_end(s, j),
    decreases s.len() - j,
{
    if j < s.len() {
        assert((p + s)[p.len() + j] == s[j]);
        lemma_blank_shift(p, s, j + 1);
    }
}

proof fn lemma_pair_shift(p: Seq<char>, s: Seq<char>, j: int)
    requires
        0 <= j <= s.len(),
    ensures
        pair_len(p + s, p.len() + j) == pair_len(s, j),
{
    let x = p + s;
    let n = p.len();
    if j < s.len() {
        assert(x[n + j] == s[j]);
        lemma_blank_shift(p, s, j + 1);
        lemma_blank_run_end(s, j + 1);
        let e = blank_run_end(s, j + 1);
        if e < s.len() {
            assert(x[n + e] == s[e]);
        }
        if j + 1 < s.len() {
            assert(x[n + j + 1] == s[j + 1]);
            lemma_blank_shift(p, s, j + 2);
            lemma_blank_run_end(s, j + 2);
            let f = blank_run_end(s, j + 2);
            if f < s.len() {
                assert(x[n + f] == s[f]);
            }
            if f + 1 < s.len() {
                assert(x[n + f + 1] == s[f + 1]);
            }
        }
    }
}

proof fn lemma_tail_shift(p: Seq<char>, s: Seq<char>, j: int)
    requires
        0 <= j <= s.len(),
    ensures
        tail_end(p + s, p.len() + j) == p.len() + tail_end(s, j),
    decreases s.len() - j,
{
    if j < s.len() {
        assert((p + s)[p.len() + j] == s[j]);
        lemma_pair_shift(p, s, j);
        lemma_pair_len(s, j);
        if is_tail_char(s[j]) {
            lemma_tail_shift(p, s, j + 1);
        } else if pair_len(s, j) > 0 {
            lemma_tail_shift(p, s, j + pair_len(s, j));
        }
    }
}

proof fn lemma_rewrite_shift(p: Seq<char>, s: Seq<char>, j: int, d: char, r: Seq<char>)
    requires
        0 <= j <= s.len(),
    ensures
        rewrite_dots(p + s, p.len() + j, d, r) == rewrite_dots(s, j, d, r),
    decreases s.len() - j,
{
    if j < s.len() {
        assert((p + s)[p.len() + j] == s[j]);
        if s[j] == d {
            lemma_tail_shift(p, s, j + 1);
            lemma_tail_end(s, j + 1);
            lemma_rewrite_shift(p, s, tail_end(s, j + 1), d, r);
        } else {
            lemma_rewrite_shift(p, s, j + 1, d, r);
        }
    }
}

/// A run of tail characters does not change where the tail ends.
proof fn lemma_tail_over_run(x: Seq<char>, a: int, b: int)
    requires
        0 <= a <= b <= x.len(),
        forall|k: int| a <= k < b ==> is_tail_char(#[trigger] x[k]),
    ensures
        tail_end(x, a) == tail_end(x, b),
    decreases b - a,
{
    if a < b {
        lemma_tail_over_run(x, a + 1, b);
    }
}

/// A stretch of the text without `d` is copied as it is.
proof fn lemma_rewrite_copies(t: Seq<char>, a: int, b: int, d: char, r: Seq<char>)
    requires
        0 <= a <= b <= t.len(),
        forall|k: int| a <= k < b ==> #[trigger] t[k] != d,
    ensures
        rewrite_dots(t, a, d, r) == t.subrange(a, b) + rewrite_dots(t, b, d, r),
    decreases b - a,
{
    if a < b {
        lemma_rewrite_copies(t, a + 1, b, d, r);
        assert(t.subrange(a, b) + rewrite_dots(t, b, d, r) =~= seq![t[a]] + (t.subrange(a + 1, b)
            + rewrite_dots(t, b, d, r)));
    } else {
        assert(t.subrange(a, b) + rewrite_dots(t, b, d, r) =~= rewrite_dots(t, b, d, r));
    }
}

proof fn lemma_tail_end_stops(t: Seq<char>, j: int)
    requires
        0 <= j <= t.len(),
    ensures
        tail_end(t, tail_end(t, j)) == tail_end(t, j),
    decreases t.len() - j,
{
    if j < t.len() {
        lemma_pair_len(t, j);
        if is_tail_char(t[j]) {
            lemma_tail_end_stops(t, j + 1);
        } else if pair_len(t, j) > 0 {
            lemma_tail_end_stops(t, j + pair_len(t, j));
        }
    }
}

/// A run of spaces and newlines does not change where the blank run ends.
proof fn lemma_blank_over_run(x: Seq<char>, a: int, b: int)
    requires
        0 <= a <= b <= x.len(),
        forall|k: int| a <= k < b ==> (#[trigger] x[k] == ' ' || x[k] == '\n'),
    ensures
        blank_run_end(x, a) == blank_run_end(x, b),
    decreases b - a,
{
    if a < b {
        lemma_blank_over_run(x, a + 1, b);
    }
}

proof fn lemma_blank_run_before(t: Seq<char>, a: int, k: int)
    requires
        0 <= a <= k < blank_run_end(t, a),
        a <= t.len(),
    ensures
        t[k] == ' ' || t[k] == '\n',
    decreases k - a,
{
    if a < k {
        lemma_blank_run_before(t, a + 1, k);
    }
}

/// In `q + rest`, where `q[a..]` is blank and `rest` does not start with a
/// blank, the blank run from `a` ends at `q.len()`.
proof fn lemma_blank_stops_at_rest(q: Seq<char>, rest: Seq<char>, a: int)
    requires
        0 <= a <= q.len(),
        forall|k: int| a <= k < q.len() ==> (#[trigger] q[k] == ' ' || q[k] == '\n'),
        rest.len() > 0 ==> rest[0] != ' ' && rest[0] != '\n',
    ensures
        blank_run_end(q + rest, a) == q.len(),
{
    let w = q + rest;
    assert forall|k: int| a <= k < q.len() implies (#[trigger] w[k] == ' ' || w[k] == '\n') by {
        assert(w[k] == q[k]);
    }
    lemma_blank_over_run(w, a, q.len() as int);
    if rest.len() > 0 {
        assert(w[q.len() as int] == rest[0]);
    }
}

/// After the blank run that starts at `a` and ends at `f`, the rewritten
/// text goes on with a character that is not blank (or ends).
proof fn lemma_rest_not_blank(t: Seq<char>, a: int, d: char, r: Seq<char>)
    requires
        is_dot(d),
        r.len() > 0,
        r[0] == d,
        0 <= a <= t.len(),
    ensures
        ({
            let f = blank_run_end(t, a);
            let rest = rewrite_dots(t, f, d, r);
            &&& rest.len() > 0 ==> rest[0] != ' ' && rest[0] != '\n'
            &&& f < t.len() && t[f] != d ==> rest[0] == t[f]
            &&& f < t.len() && t[f] == d ==> rest[0] == d
            &&& f == t.len() ==> rest.len() == 0
        }),
{
    lemma_dot_is_plain(d);
    lemma_blank_run_end(t, a);
    let f = blank_run_end(t, a);
    lemma_blank_run_end_stops(t, a);
    lemma_rewrite_head(t, f, d, r);
}

proof fn lemma_blank_run_end_stops(t: Seq<char>, a: int)
    requires
        0 <= a <= t.len(),
    ensures
        blank_run_end(t, a) < t.len() ==> t[blank_run_end(t, a)] != ' ' && t[blank_run_end(t, a)] != '\n',
    decreases t.len() - a,
{
    if a < t.len() && (t[a] == ' ' || t[a] == '\n') {
        lemma_blank_run_end_stops(t, a + 1);
    }
}

/// What `rewrite_dots` makes of the text from a position where a tail stops
/// starts with no tail of its own.
proof fn lemma_rewrite_starts_plain(t: Seq<char>, e: int, d: char, r: Seq<char>)
    requires
        is_dot(d),
        r.len() > 0,
        r[0] == d,
        0 <= e <= t.len(),
        tail_end(t, e) == e,
    ensures
        tail_end(rewrite_dots(t, e, d, r), 0) == 0,
{
    lemma_dot_is_plain(d);
    let w = rewrite_dots(t, e, d, r);
    lemma_rewrite_head(t, e, d, r);
    if e < t.len() {
        lemma_pair_len(t, e);
        lemma_tail_end(t, e + 1);
        if pair_len(t, e) > 0 {
            lemma_tail_end(t, e + pair_len(t, e));
        }
        assert(!is_tail_char(t[e]));
        assert(pair_len(t, e) == 0);
        if t[e] == d {
            assert(w[0] == d);
        } else {
            assert(w[0] == t[e]);
            if t[e] == '_' {
                lemma_blank_run_end(t, e + 1);
                let f = blank_run_end(t, e + 1);
                assert forall|k: int| e + 1 <= k < f implies #[trigger] t[k] != d by {
                    lemma_blank_run_before(t, e + 1, k);
                }
                lemma_rewrite_copies(t, e + 1, f, d, r);
                let rest = rewrite_dots(t, f, d, r);
                let q = seq![t[e]] + t.subrange(e + 1, f);
                assert(w =~= q + rest);
                assert forall|k: int| 1 <= k < q.len() implies (#[trigger] q[k] == ' ' || q[k] == '\n') by {
                    lemma_blank_run_before(t, e + 1, e + k);
                }
                lemma_rest_not_blank(t, e + 1, d, r);
                lemma_blank_stops_at_rest(q, rest, 1);
                assert(blank_run_end(w, 1) == q.len());
                if q.len() < w.len() {
                    assert(w[q.len() as int] == rest[0]);
                }
                assert(pair_len(w, 0) == 0);
            } else if t[e] == '|' {
                if e + 1 < t.len() && t[e + 1] == '|' {
                    lemma_blank_run_end(t, e + 2);
                    let f = blank_run_end(t, e + 2);
                    assert forall|k: int| e + 1 <= k < f implies #[trigger] t[k] != d by {
                        if k >= e + 2 {
                            lemma_blank_run_before(t, e + 2, k);
                        }
                    }
                    lemma_rewrite_copies(t, e + 1, f, d, r);
                    let rest = rewrite_dots(t, f, d, r);
                    let q = seq![t[e]] + t.subrange(e + 1, f);
                    assert(w =~= q + rest);
                    assert forall|k: int| 2 <= k < q.len() implies (#[trigger] q[k] == ' ' || q[k] == '\n') by {
                        lemma_blank_run_before(t, e + 2, e + k);
                    }
                    assert(w[1] == '|');
                    lemma_rest_not_blank(t, e + 2, d, r);
                    lemma_blank_stops_at_rest(q, rest, 2);
                    assert(blank_run_end(w, 2) == q.len());
                    if q.len() < w.len() {
                        assert(w[q.len() as int] == rest[0]);
                        if f < t.len() && t[f] == '|' {
                            lemma_rewrite_head(t, f + 1, d, r);
                            assert(rest == seq![t[f]] + rewrite_dots(t, f + 1, d, r));
                            if q.len() + 1 < w.len() {
                                assert(w[q.len() as int + 1] == rewrite_dots(t, f + 1, d, r)[0]);
                            }
                        }
                    }
                    assert(pair_len(w, 0) == 0);
                } else {
                    lemma_rewrite_head(t, e + 1, d, r);
                    if e + 1 < t.len() {
                        assert(w[1] == rewrite_dots(t, e + 1, d, r)[0]);
                    } else {
                        assert(w.len() == 1);
                    }
                    assert(pair_len(w, 0) == 0);
                }
            }
        }
    }
}

/// The first character of what `rewrite_dots` makes of `t[f..]`, when `f`
/// ends a blank run or follows a pair's start: it is `d` or `t[f]`.
proof fn lemma_rewrite_head(t: Seq<char>, f: int, d: char, r: Seq<char>)
    requires
        0 <= f <= t.len(),
        r.len() > 0,
        r[0] == d,
    ensures
        f == t.len() ==> rewrite_dots(t, f, d, r).len() == 0,
        f < t.len() && t[f] == d ==> rewrite_dots(t, f, d, r).len() > 0 && rewrite_dots(t, f, d, r)[0] == d,
        f < t.len() && t[f] != d ==> rewrite_dots(t, f, d, r) == seq![t[f]] + rewrite_dots(t, f + 1, d, r),
{
    if f < t.len() && t[f] == d {
        lemma_tail_end(t, f + 1);
    }
}

} // verus!

verus! {

proof fn lemma_backticks_count(k: nat)
    ensures
        count_char(backticks(k), '`') == k,
    decreases k,
{
    if k > 0 {
        lemma_backticks_count((k - 1) as nat);
        assert(backticks(k).drop_last() =~= backticks((k - 1) as nat));
    }
}

proof fn lemma_first_index_found(t: Seq<char>, i: int, d: char)
    requires
        0 <= i <= t.len(),
    ensures
        i <= first_index_of(t, i, d) <= t.len(),
        forall|k: int| i <= k < first_index_of(t, i, d) ==> #[trigger] t[k] != d,
        first_index_of(t, i, d) < t.len() ==> t[first_index_of(t, i, d)] == d,
    decreases t.len() - i,
{
    if i < t.len() && t[i] != d {
        lemma_first_index_found(t, i + 1, d);
    }
}

proof fn lemma_first_index_at(x: Seq<char>, i: int, p: int, d: char)
    requires
        0 <= i <= p < x.len(),
        forall|k: int| i <= k < p ==> #[trigger] x[k] != d,
        x[p] == d,
    ensures
        first_index_of(x, i, d) == p,
    decreases p - i,
{
    if i < p {
        lemma_first_index_at(x, i + 1, p, d);
    }
}

/// Rewriting what `rewrite_dots` gave with the same replacement changes
/// nothing, when the replacement is the dot followed by backticks.
proof fn lemma_rewrite_stable(t: Seq<char>, i: int, d: char, k: nat)
    requires
        is_dot(d),
        0 <= i <= t.len(),
    ensures
        ({
            let r = seq![d] + backticks(k);
            rewrite_dots(rewrite_dots(t, i, d, r), 0, d, r) == rewrite_dots(t, i, d, r)
        }),
    decreases t.len() - i,
{
    let r = seq![d] + backticks(k);
    let w = rewrite_dots(t, i, d, r);
    lemma_dot_is_plain(d);
    if i == t.len() {
        assert(w.len() == 0);
    } else if t[i] != d {
        let w1 = rewrite_dots(t, i + 1, d, r);
        assert(w == seq![t[i]] + w1);
        assert(w[0] == t[i]);
        lemma_rewrite_shift(seq![t[i]], w1, 0, d, r);
        lemma_rewrite_stable(t, i + 1, d, k);
        assert(rewrite_dots(w, 0, d, r) == seq![t[i]] + rewrite_dots(w, 1, d, r));
    } else {
        lemma_tail_end(t, i + 1);
        let e = tail_end(t, i + 1);
        let w2 = rewrite_dots(t, e, d, r);
        assert(w == r + w2);
        assert(w[0] == d);
        assert forall|m: int| 1 <= m < r.len() implies is_tail_char(#[trigger] w[m]) by {
            assert(w[m] == r[m]);
            assert(r[m] == backticks(k)[m - 1]);
        }
        lemma_tail_over_run(w, 1, r.len() as int);
        lemma_tail_shift(r, w2, 0);
        lemma_tail_end_stops(t, i + 1);
        lemma_rewrite_starts_plain(t, e, d, r);
        assert(tail_end(w, 1) == r.len());
        lemma_rewrite_shift(r, w2, 0, d, r);
        lemma_rewrite_stable(t, e, d, k);
        assert(rewrite_dots(w, 0, d, r) == r + rewrite_dots(w, r.len() as int, d, r));
    }
}

/// Stripping the invisible tails after a dot other than `.` a second time
/// changes nothing.  (The plain dot is written back escaped, so a second
/// pass adds another backslash, as the bot's own code does.)
pub proof fn law_remove_whitespace_idempotent(t: Seq<char>, d: char)
    requires
        is_dot(d),
        d != '.',
    ensures
        spec_remove_whitespace_from_end(spec_remove_whitespace_from_end(t, d), d)
            == spec_remove_whitespace_from_end(t, d),
{
    lemma_first_index_found(t, 0, d);
    let p = first_index_of(t, 0, d);
    if p < t.len() {
        lemma_tail_end(t, p + 1);
        let k = count_char(t.subrange(p + 1, tail_end(t, p + 1)), '`');
        let r = seq![d] + backticks(k);
        assert(dot_text(d) + backticks(k) == r);
        let u = rewrite_dots(t, 0, d, r);
        assert(spec_remove_whitespace_from_end(t, d) == u);
        lemma_rewrite_copies(t, 0, p, d, r);
        let e = tail_end(t, p + 1);
        let w2 = rewrite_dots(t, e, d, r);
        assert(rewrite_dots(t, p, d, r) == r + w2);
        let q = t.subrange(0, p) + r;
        assert(u =~= q + w2);
        assert forall|m: int| 0 <= m < p implies #[trigger] u[m] != d by {
            assert(u[m] == t[m]);
        }
        assert(u[p] == d);
        lemma_first_index_at(u, 0, p, d);
        assert forall|m: int| p + 1 <= m < q.len() implies is_tail_char(#[trigger] u[m]) by {
            assert(u[m] == q[m]);
            assert(q[m] == r[m - p]);
            assert(r[m - p] == backticks(k)[m - p - 1]);
        }
        lemma_tail_over_run(u, p + 1, q.len() as int);
        lemma_tail_shift(q, w2, 0);
        lemma_tail_end_stops(t, p + 1);
        lemma_dot_is_plain(d);
        lemma_rewrite_starts_plain(t, e, d, r);
        assert(tail_end(u, p + 1) == q.len());
        assert(u.subrange(p + 1, q.len() as int) =~= backticks(k));
        lemma_backticks_count(k);
        lemma_rewrite_stable(t, 0, d, k);
    }
}

} // verus!
