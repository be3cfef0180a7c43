//! The `eval` command: which language a request names, which code it sends,
//! and how the answer is shown.

use vstd::prelude::*;
use crate::text::{chars_of, newline_at_or_after, owned, push_str_chars, str_eq, string_of};

verus! {

/// The language a name stands for: the short names `js`, `py`, `ts`,
/// `node.js`, `c#`, `c++` and `cpp` stand for the service's own names; any
/// other name stands for itself.
pub open spec fn spec_resolve_lang(l: Seq<char>) -> Seq<char> {
    if l == "js"@ {
        "javascript"@
    } else if l == "py"@ {
        "python"@
    } else if l == "ts"@ {
        "typescript"@
    } else if l == "node.js"@ {
        "nodejs"@
    } else if l == "c#"@ {
        "csharp"@
    } else if l == "c++"@ {
        "c_cpp"@
    } else if l == "cpp"@ {
        "c_cpp"@
    } else {
        l
    }
}

/// The language a name stands for.
pub fn resolve_lang(lang: &str) -> (r: String)
    ensures
        r@ == spec_resolve_lang(lang@),
{
    if str_eq(lang, "js") {
        owned("javascript")
    } else if str_eq(lang, "py") {
        owned("python")
    } else if str_eq(lang, "ts") {
        owned("typescript")
    } else if str_eq(lang, "node.js") {
        owned("nodejs")
    } else if str_eq(lang, "c#") {
        owned("csharp")
    } else if str_eq(lang, "c++") {
        owned("c_cpp")
    } else if str_eq(lang, "cpp") {
        owned("c_cpp")
    } else {
        owned(lang)
    }
}

/// The languages the compile service runs.
pub open spec fn supported_langs() -> Seq<Seq<char>> {
    seq![
        "php"@, "python"@, "c"@, "c_cpp"@, "csharp"@, "kotlin"@, "golang"@, "r"@, "java"@,
        "typescript"@, "nodejs"@, "ruby"@, "perl"@, "swift"@, "fortran"@, "bash"@,
    ]
}

/// Whether the compile service runs the language `lang`.
pub fn is_supported_lang(lang: &str) -> (b: bool)
    ensures
        b == supported_langs().contains(lang@),
{
    let names = vec![
        "php", "python", "c", "c_cpp", "csharp", "kotlin", "golang", "r", "java", "typescript",
        "nodejs", "ruby", "perl", "swift", "fortran", "bash",
    ];
    let ghost views = supported_langs();
    assert(names@.len() == 16);
    assert(forall|k: int| 0 <= k < 16 ==> #[trigger] names@[k]@ == views[k]);
    let mut k: usize = 0;
    while k < names.len()
        invariant
            names@.len() == 16,
            views == supported_langs(),
            forall|j: int| 0 <= j < 16 ==> #[trigger] names@[j]@ == views[j],
            k <= 16,
            forall|j: int| 0 <= j < k ==> views[j] != lang@,
        decreases 16 - k,
    {
        if str_eq(names[k], lang) {
            assert(views[k as int] == lang@);
            return true;
        }
        k = k + 1;
    }
    false
}

// ---------------------------------------------------------------------------
// Code fences
// ---------------------------------------------------------------------------

/// How much of the start of the code is an opening fence: three backticks
/// with the rest of their line and its newline; else one backtick; else none.
pub open spec fn opening_fence_len(c: Seq<char>) -> int {
    if c.len() >= 3 && c[0] == '`' && c[1] == '`' && c[2] == '`' && newline_at_or_after(c, 3) < c.len() {
        newline_at_or_after(c, 3) + 1
    } else if c.len() >= 1 && c[0] == '`' {
        1
    } else {
        0
    }
}

/// Length of the run of backticks that ends the text.
pub open spec fn trailing_ticks(c: Seq<char>, end: int) -> int
    decreases end,
{
    if 0 < end <= c.len() && c[end - 1] == '`' {
        trailing_ticks(c, end - 1) + 1
    } else {
        0
    }
}

/// How many backticks are cut from the end once the opening fence is gone:
/// those of the final run, at most three, and none that the fence took.
pub open spec fn closing_fence_len(c: Seq<char>) -> int {
    let p = opening_fence_len(c);
    let r = trailing_ticks(c, c.len() as int);
    let m = if r < 3 { r } else { 3 };
    if m < c.len() - p { m } else { c.len() - p }
}

/// The code without its opening and closing fence.
pub open spec fn spec_strip_code_fences(c: Seq<char>) -> Seq<char> {
    c.subrange(opening_fence_len(c), c.len() - closing_fence_len(c))
}

proof fn lemma_trailing_ticks(c: Seq<char>, end: int)
    requires
        0 <= end <= c.len(),
    ensures
        0 <= trailing_ticks(c, end) <= end,
    decreases end,
{
    if 0 < end && c[end - 1] == '`' {
        lemma_trailing_ticks(c, end - 1);
    }
}

/// The code of a request without the Markdown code fence around it.
pub fn strip_code_fences(code: &str) -> (r: String)
    ensures
        r@ == spec_strip_code_fences(code@),
{
    let c = chars_of(code);
    let n = c.len();
    let mut p: usize = 0;
    if n >= 3 && c[0] == '`' && c[1] == '`' && c[2] == '`' {
        let mut k: usize = 3;
        while k < n && c[k] != '\n'
            invariant
                3 <= k <= n,
                n == c.len(),
                newline_at_or_after(c@, 3) == newline_at_or_after(c@, k as int),
            decreases n - k,
        {
            k = k + 1;
        }
        if k < n {
            p = k + 1;
        } else {
            p = 1;
        }
    } else if n >= 1 && c[0] == '`' {
        p = 1;
    }
    assert(p == opening_fence_len(c@));
    let mut r: usize = 0;
    while r < n && r < 3 && c[n - 1 - r] == '`'
        invariant
            n == c.len(),
            r <= n,
            r <= 3,
            trailing_ticks(c@, n as int) == r + trailing_ticks(c@, n - r),
        decreases n - r,
    {
        r = r + 1;
    }
    proof {
        lemma_trailing_ticks(c@, n - r);
        lemma_trailing_ticks(c@, n as int);
    }
    let m: usize = if r < n - p { r } else { n - p };
    assert(m == closing_fence_len(c@));
    let mut out: Vec<char> = Vec::new();
    let mut i: usize = p;
    while i < n - m
        invariant
            p <= i <= n - m,
            m <= n - p,
            n == c.len(),
            out@ == c@.subrange(p as int, i as int),
        decreases n - m - i,
    {
        out.push(c[i]);
        i = i + 1;
        assert(out@ =~= c@.subrange(p as int, i as int));
    }
    string_of(&out)
}

/// The output of a run as shown: when its second to last character is a
/// newline, that newline is removed.
pub open spec fn spec_trim_output(o: Seq<char>) -> Seq<char> {
    if o.len() >= 2 && o[o.len() - 2] == '\n' {
        o.take(o.len() - 2).push(o.last())
    } else {
        o
    }
}

/// The output of a run as shown.
pub fn trim_output(output: &str) -> (r: String)
    ensures
        r@ == spec_trim_output(output@),
{
    let mut v = chars_of(output);
    if v.len() >= 2 && v[v.len() - 2] == '\n' {
        let i = v.len() - 2;
        v.remove(i);
        assert(v@ =~= output@.take(output@.len() - 2).push(output@.last()));
    }
    string_of(&v)
}

/// The answer to a request: the output in a code block marked with the
/// language.
pub open spec fn spec_eval_reply(lang: Seq<char>, output: Seq<char>) -> Seq<char> {
    "```"@ + lang + "\n"@ + output + "```"@
}

/// The answer to a request: the output in a code block marked with the
/// language.
pub fn eval_reply(lang: &str, output: &str) -> (r: String)
    ensures
        r@ == spec_eval_reply(lang@, output@),
{
    let mut out: Vec<char> = Vec::new();
    push_str_chars(&mut out, "```");
    push_str_chars(&mut out, lang);
    push_str_chars(&mut out, "\n");
    push_str_chars(&mut out, output);
    push_str_chars(&mut out, "```");
    assert(out@ =~= spec_eval_reply(lang@, output@));
    string_of(&out)
}

/// What a request sends to the compile service: the language it names and
/// its code without the fence; `None` when the service does not run that
/// language.
pub fn eval_request(lang: &str, code: &str) -> (r: Option<(String, String)>)
    ensures
        match r {
            Some((l, c)) => {
                &&& supported_langs().contains(spec_resolve_lang(lang@))
                &&& l@ == spec_resolve_lang(lang@)
                &&& c@ == spec_strip_code_fences(code@)
            },
            None => !supported_langs().contains(spec_resolve_lang(lang@)),
        },
{
    let stripped = strip_code_fences(code);
    let l = resolve_lang(lang);
    if !is_supported_lang(l.as_str()) {
        return None;
    }
    Some((l, stripped))
}

} // verus!

verus! {

/// Code that is not in a code block (it neither starts nor ends with a
/// backtick) is sent as it is.
pub proof fn law_plain_code_unchanged(c: Seq<char>)
    requires
        c.len() == 0 || (c[0] != '`' && c.last() != '`'),
    ensures
        spec_strip_code_fences(c) == c,
{
    assert(opening_fence_len(c) == 0);
    if c.len() > 0 {
        assert(c[c.len() - 1] == c.last());
    }
    assert(trailing_ticks(c, c.len() as int) == 0);
    assert(closing_fence_len(c) == 0);
    assert(c.subrange(0, c.len() as int) =~= c);
}


/// A code block fenced by three backticks loses its whole opening line,
/// whatever language tag that line holds (none too), and its three closing
/// backticks: what is sent is exactly the code inside, when that code does
/// not itself end in a backtick.
pub proof fn law_fenced_block_sends_inner_code(tag: Seq<char>, code: Seq<char>)
    requires
        forall|i: int| 0 <= i < tag.len() ==> #[trigger] tag[i] != '\n',
        code.len() == 0 || code.last() != '`',
    ensures
        spec_strip_code_fences(seq!['`', '`', '`'] + tag + seq!['\n'] + code + seq!['`', '`', '`'])
            == code,
{
    let fence = seq!['`', '`', '`'];
    let c = fence + tag + seq!['\n'] + code + fence;
    let n = c.len() as int;
    let t = tag.len() as int;
    let q = code.len() as int;
    assert(n == t + q + 7);
    assert forall|k: int| 3 <= k < 3 + t implies c[k] != '\n' by {
        assert(c[k] == tag[k - 3]);
    }
    assert(c[3 + t] == '\n');
    lemma_newline_stops(c, 3, 3 + t);
    assert(opening_fence_len(c) == 4 + t);
    assert(c[n - 1] == '`' && c[n - 2] == '`' && c[n - 3] == '`');
    if q > 0 {
        assert(c[n - 4] == code[q - 1]);
        assert(code.last() == code[q - 1]);
    } else {
        assert(c[n - 4] == '\n');
    }
    assert(trailing_ticks(c, n - 3) == 0);
    assert(trailing_ticks(c, n - 2) == 1);
    assert(trailing_ticks(c, n - 1) == 2);
    assert(trailing_ticks(c, n) == 3);
    assert(closing_fence_len(c) == 3);
    assert(c.subrange(4 + t, n - 3) =~= code);
}

/// The first newline at or after `i` is at `j` when `c[j]` is a newline and
/// none comes between.
proof fn lemma_newline_stops(c: Seq<char>, i: int, j: int)
    requires
        0 <= i <= j < c.len(),
        c[j] == '\n',
        forall|k: int| i <= k < j ==> c[k] != '\n',
    ensures
        newline_at_or_after(c, i) == j,
    decreases j - i,
{
    if i < j {
        lemma_newline_stops(c, i + 1, j);
    }
}

} // verus!
