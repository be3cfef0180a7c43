//! What the bot writes on the starboard: the title with the star count, the
//! description of a starred message, its picture, and which emoji to show.

use vstd::prelude::*;
use crate::starboard::MIN_STARS;
use crate::text::{
    append_chars, chars_of, decimal, digits_value, is_ascii_digit, law_decimal_reads_back,
    push_decimal, push_str_chars, string_of,
};

verus! {

/// The star emoji that the starboard shows as the glowing star.
pub open spec fn plain_star() -> Seq<char> {
    seq!['\u{2b50}']
}

/// The glowing star emoji.
pub open spec fn glowing_star() -> Seq<char> {
    seq!['\u{1f31f}']
}

/// The emoji the starboard shows for the most used reaction `emoji`: the
/// plain star becomes the glowing star, any other emoji stays.
pub open spec fn spec_displayed_emoji(emoji: Seq<char>) -> Seq<char> {
    if emoji == plain_star() {
        glowing_star()
    } else {
        emoji
    }
}

/// The emoji the starboard shows for the most used reaction `emoji`.
pub fn displayed_emoji(emoji: &str) -> (r: String)
    ensures
        r@ == spec_displayed_emoji(emoji@),
{
    let v = chars_of(emoji);
    if v.len() == 1 && v[0] == '\u{2b50}' {
        assert(v@ =~= plain_star());
        let mut out: Vec<char> = Vec::new();
        out.push('\u{1f31f}');
        assert(out@ =~= glowing_star());
        string_of(&out)
    } else {
        assert(v@ != plain_star()) by {
            if v@ == plain_star() {
                assert(v@[0] == '\u{2b50}');
            }
        }
        string_of(&v)
    }
}

/// The title of a starboard post: the star count, a space, the emoji.
pub open spec fn spec_star_title(count: nat, emoji: Seq<char>) -> Seq<char> {
    decimal(count) + seq![' '] + emoji
}

/// The title of a starboard post: the star count, a space, the emoji.
pub fn star_title(count: usize, emoji: &str) -> (r: String)
    ensures
        r@ == spec_star_title(count as nat, emoji@),
{
    let mut out: Vec<char> = Vec::new();
    push_decimal(&mut out, count as u64);
    out.push(' ');
    push_str_chars(&mut out, emoji);
    assert(out@ =~= spec_star_title(count as nat, emoji@));
    string_of(&out)
}

/// The title of a message's first starboard post.
pub fn first_post_title(emoji: &str) -> (r: String)
    ensures
        r@ == spec_star_title(MIN_STARS as nat, emoji@),
{
    star_title(MIN_STARS, emoji)
}

/// The message a starred message replies to, as the starboard shows it.
pub struct ReplyPreview {
    pub author_name: String,
    pub link: String,
    pub content: String,
}

/// The first attachment of a starred message.
pub struct AttachmentLink {
    pub filename: String,
    pub url: String,
}

/// The first `n` characters of `s` (all of `s` when it is shorter).
pub open spec fn first_chars(s: Seq<char>, n: nat) -> Seq<char> {
    if s.len() <= n {
        s
    } else {
        s.take(n as int)
    }
}

/// The line that introduces a reply: the reply emoji, the replied-to
/// author linked to the replied-to message, and the first hundred characters
/// of that message.
pub open spec fn reply_line(name: Seq<char>, link: Seq<char>, content: Seq<char>) -> Seq<char> {
    "<:reply:1176214702754377868> replying to ["@ + name + "]("@ + link + "): "@ + first_chars(
        content,
        100,
    ) + "\n"@
}

/// The line that names the first attachment and links to it.
pub open spec fn attachment_line(filename: Seq<char>, url: Seq<char>) -> Seq<char> {
    "\n["@ + filename + "]("@ + url + ")"@
}

/// The description of a starboard post: the reply line (if the message is a
/// reply), the message, the attachment line (if it has one), and a link back
/// to the message.
pub open spec fn spec_starboard_description(
    reply: Option<(Seq<char>, Seq<char>, Seq<char>)>,
    content: Seq<char>,
    attachment: Option<(Seq<char>, Seq<char>)>,
    link: Seq<char>,
) -> Seq<char> {
    let r = match reply {
        Some(p) => reply_line(p.0, p.1, p.2),
        None => seq![],
    };
    let a = match attachment {
        Some(f) => attachment_line(f.0, f.1),
        None => seq![],
    };
    r + content + a + "\n\n[Jump to message]("@ + link + ")"@
}

pub open spec fn reply_view(reply: Option<&ReplyPreview>) -> Option<(Seq<char>, Seq<char>, Seq<char>)> {
    match reply {
        Some(p) => Some((p.author_name@, p.link@, p.content@)),
        None => None,
    }
}

pub open spec fn attachment_view(attachment: Option<&AttachmentLink>) -> Option<(Seq<char>, Seq<char>)> {
    match attachment {
        Some(f) => Some((f.filename@, f.url@)),
        None => None,
    }
}

/// The description of a starboard post for a message with text `content`
/// and link `link`.
pub fn starboard_description(
    reply: Option<&ReplyPreview>,
    content: &str,
    attachment: Option<&AttachmentLink>,
    link: &str,
) -> (r: String)
    ensures
        r@ == spec_starboard_description(reply_view(reply), content@, attachment_view(attachment), link@),
{
    let mut out: Vec<char> = Vec::new();
    match reply {
        Some(p) => {
            push_str_chars(&mut out, "<:reply:1176214702754377868> replying to [");
            push_str_chars(&mut out, p.author_name.as_str());
            push_str_chars(&mut out, "](");
            push_str_chars(&mut out, p.link.as_str());
            push_str_chars(&mut out, "): ");
            let c = chars_of(p.content.as_str());
            let mut i: usize = 0;
            let ghost start = out@;
            while i < c.len() && i < 100
                invariant
                    i <= c.len(),
                    i <= 100,
                    out@ == start + c@.take(i as int),
                decreases c.len() - i,
            {
                out.push(c[i]);
                i = i + 1;
                assert(out@ =~= start + c@.take(i as int));
            }
            assert(c@.take(i as int) =~= first_chars(c@, 100));
            push_str_chars(&mut out, "\n");
            assert(out@ =~= reply_line(p.author_name@, p.link@, p.content@));
        },
        None => {},
    }
    let ghost after_reply = out@;
    push_str_chars(&mut out, content);
    let ghost after_content = out@;
    match attachment {
        Some(f) => {
            push_str_chars(&mut out, "\n[");
            push_str_chars(&mut out, f.filename.as_str());
            push_str_chars(&mut out, "](");
            push_str_chars(&mut out, f.url.as_str());
            push_str_chars(&mut out, ")");
            assert(out@ =~= after_content + attachment_line(f.filename@, f.url@));
        },
        None => {
            assert(out@ =~= after_content + Seq::<char>::empty());
        },
    }
    push_str_chars(&mut out, "\n\n[Jump to message](");
    push_str_chars(&mut out, link);
    push_str_chars(&mut out, ")");
    assert(out@ =~= spec_starboard_description(reply_view(reply), content@, attachment_view(attachment), link@));
    string_of(&out)
}

/// Whether `pat` occurs in `s` at `k`.
pub open spec fn occurs_at(s: Seq<char>, pat: Seq<char>, k: int) -> bool {
    0 <= k && k + pat.len() <= s.len() && s.subrange(k, k + pat.len()) == pat
}

/// The first index at or after `i` where `pat` occurs in `s`, or -1.
pub open spec fn first_occurrence(s: Seq<char>, pat: Seq<char>, i: int) -> int
    decreases s.len() + 1 - i,
{
    if i < 0 || i + pat.len() > s.len() {
        -1
    } else if occurs_at(s, pat, i) {
        i
    } else {
        first_occurrence(s, pat, i + 1)
    }
}

/// The picture of a starboard post: the first attachment, or else the
/// message text from its first `http` on; none when there is neither.
pub open spec fn spec_starboard_image(content: Seq<char>, attachment_url: Option<Seq<char>>) -> Option<Seq<char>> {
    match attachment_url {
        Some(u) => Some(u),
        None => {
            let p = first_occurrence(content, "http"@, 0);
            if p >= 0 {
                Some(content.subrange(p, content.len() as int))
            } else {
                None
            }
        },
    }
}

pub open spec fn opt_str_view(o: Option<&str>) -> Option<Seq<char>> {
    match o {
        Some(s) => Some(s@),
        None => None,
    }
}

pub open spec fn opt_string_view(o: Option<String>) -> Option<Seq<char>> {
    match o {
        Some(s) => Some(s@),
        None => None,
    }
}

/// The picture of a starboard post.
pub fn starboard_image(content: &str, attachment_url: Option<&str>) -> (r: Option<String>)
    ensures
        opt_string_view(r) == spec_starboard_image(content@, opt_str_view(attachment_url)),
{
    match attachment_url {
        Some(u) => {
            let v = chars_of(u);
            Some(string_of(&v))
        },
        None => {
            proof {
                reveal_strlit("http");
            }
            let c = chars_of(content);
            let pat = chars_of("http");
            let mut i: usize = 0;
            while i < c.len() && c.len() - i >= pat.len()
                invariant
                    attachment_url is None,
                    c@ == content@,
                    pat@ == "http"@,
                    first_occurrence(c@, pat@, 0) == first_occurrence(c@, pat@, i as int),
                    i <= c.len(),
                decreases c.len() - i,
            {
                let mut k: usize = 0;
                let mut same = true;
                while k < pat.len()
                    invariant
                        k <= pat.len(),
                        i + pat.len() <= c.len(),
                        same <==> (forall|j: int| 0 <= j < k ==> c@[i + j] == pat@[j]),
                    decreases pat.len() - k,
                {
                    if c[i + k] != pat[k] {
                        same = false;
                    }
                    k = k + 1;
                }
                if same {
                    assert(c@.subrange(i as int, i + pat.len()) =~= pat@);
                    assert(occurs_at(c@, pat@, i as int));
                    assert(first_occurrence(c@, pat@, i as int) == i);
                    let mut out: Vec<char> = Vec::new();
                    let mut j: usize = i;
                    while j < c.len()
                        invariant
                            i <= j <= c.len(),
                            out@ == c@.subrange(i as int, j as int),
                        decreases c.len() - j,
                    {
                        out.push(c[j]);
                        j = j + 1;
                        assert(out@ =~= c@.subrange(i as int, j as int));
                    }
                    return Some(string_of(&out));
                } else {
                    assert(!occurs_at(c@, pat@, i as int)) by {
                        let j = choose|j: int| 0 <= j < pat.len() && c@[i + j] != pat@[j];
                        if occurs_at(c@, pat@, i as int) {
                            assert(c@.subrange(i as int, i + pat.len())[j] == c@[i + j]);
                        }
                    }
                }
                i = i + 1;
            }
            None
        },
    }
}

// ---------------------------------------------------------------------------
// The most used reaction
// ---------------------------------------------------------------------------

/// How many reactions with emoji `e` the list holds, counts added up.
pub open spec fn emoji_total(rs: Seq<(String, u64)>, e: Seq<char>) -> nat
    decreases rs.len(),
{
    if rs.len() == 0 {
        0
    } else {
        emoji_total(rs.drop_last(), e) + if rs.last().0@ == e {
            rs.last().1 as nat
        } else {
            0nat
        }
    }
}

proof fn lemma_emoji_total_prefix(rs: Seq<(String, u64)>, e: Seq<char>, i: int)
    requires
        0 <= i <= rs.len(),
    ensures
        emoji_total(rs.take(i), e) <= emoji_total(rs, e),
    decreases rs.len() - i,
{
    if i < rs.len() {
        lemma_emoji_total_prefix(rs, e, i + 1);
        assert(rs.take(i + 1).drop_last() =~= rs.take(i));
    } else {
        assert(rs.take(i) =~= rs);
    }
}

proof fn lemma_emoji_total_absent(rs: Seq<(String, u64)>, e: Seq<char>)
    requires
        forall|k: int| 0 <= k < rs.len() ==> rs[k].0@ != e,
    ensures
        emoji_total(rs, e) == 0,
    decreases rs.len(),
{
    if rs.len() > 0 {
        lemma_emoji_total_absent(rs.drop_last(), e);
    }
}

/// The total count of the reactions with emoji `reactions[i].0`.
fn total_of(reactions: &Vec<(String, u64)>, i: usize) -> (t: u64)
    requires
        i < reactions.len(),
        emoji_total(reactions@, reactions@[i as int].0@) <= u64::MAX,
    ensures
        t == emoji_total(reactions@, reactions@[i as int].0@),
{
    let ghost rs = reactions@;
    let ghost e = rs[i as int].0@;
    let mut acc: u64 = 0;
    let mut k: usize = 0;
    while k < reactions.len()
        invariant
            rs == reactions@,
            e == rs[i as int].0@,
            i < rs.len(),
            k <= rs.len(),
            acc == emoji_total(rs.take(k as int), e),
            emoji_total(rs, e) <= u64::MAX,
        decreases rs.len() - k,
    {
        proof {
            lemma_emoji_total_prefix(rs, e, k + 1);
            assert(rs.take(k + 1).drop_last() =~= rs.take(k as int));
            assert(rs.take(k + 1).last() == rs[k as int]);
        }
        if reactions[k].0 == reactions[i].0 {
            acc = acc + reactions[k].1;
        }
        k = k + 1;
    }
    proof {
        assert(rs.take(k as int) =~= rs);
    }
    acc
}

/// The emoji used most in the reactions (counts of the same emoji added up);
/// `None` when there are none.  Among emoji used equally often the first to
/// appear is taken.
pub fn most_common_unicode_reaction(reactions: &Vec<(String, u64)>) -> (r: Option<String>)
    requires
        forall|i: int| 0 <= i < reactions.len() ==> emoji_total(reactions@, #[trigger] reactions@[i].0@) <= u64::MAX,
    ensures
        r is None <==> reactions.len() == 0,
        r matches Some(s) ==> {
            &&& exists|i: int| 0 <= i < reactions.len() && #[trigger] reactions@[i].0@ == s@
                && forall|k: int| 0 <= k < i ==> emoji_total(reactions@, #[trigger] reactions@[k].0@)
                    < emoji_total(reactions@, s@)
            &&& forall|i: int| 0 <= i < reactions.len() ==> emoji_total(reactions@, #[trigger] reactions@[i].0@)
                <= emoji_total(reactions@, s@)
        },
{
    if reactions.len() == 0 {
        return None;
    }
    let mut b: usize = 0;
    let mut best = total_of(reactions, 0);
    let mut j: usize = 1;
    while j < reactions.len()
        invariant
            b < j <= reactions.len(),
            forall|i: int| 0 <= i < reactions.len() ==> emoji_total(reactions@, #[trigger] reactions@[i].0@) <= u64::MAX,
            best == emoji_total(reactions@, reactions@[b as int].0@),
            forall|i: int| 0 <= i < j ==> emoji_total(reactions@, #[trigger] reactions@[i].0@) <= best,
            forall|i: int| 0 <= i < b ==> emoji_total(reactions@, #[trigger] reactions@[i].0@) < best,
        decreases reactions.len() - j,
    {
        let t = total_of(reactions, j);
        if t > best {
            b = j;
            best = t;
        }
        j = j + 1;
    }
    let s = reactions[b].0.clone();
    assert(reactions@[b as int].0@ == s@);
    assert(forall|k: int| 0 <= k < b ==> emoji_total(reactions@, #[trigger] reactions@[k].0@)
        < emoji_total(reactions@, s@));
    Some(s)
}

} // verus!

verus! {

// ---------------------------------------------------------------------------
// Laws
// ---------------------------------------------------------------------------

/// The title starts with the star count written in base ten: a run of ASCII
/// digits that reads back as `count`, then a space, then the emoji.
pub proof fn law_title_shows_count(count: nat, emoji: Seq<char>)
    ensures
        exists|k: int|
            #![trigger spec_star_title(count, emoji).take(k)]
            {
                let t = spec_star_title(count, emoji);
                &&& 1 <= k < t.len()
                &&& forall|i: int| 0 <= i < k ==> is_ascii_digit(#[trigger] t[i])
                &&& digits_value(t.take(k)) == count
                &&& t[k] == ' '
                &&& t.skip(k + 1) == emoji
            },
{
    law_decimal_reads_back(count);
    let t = spec_star_title(count, emoji);
    let k = decimal(count).len() as int;
    assert(t.take(k) =~= decimal(count));
    assert(t.skip(k + 1) =~= emoji);
    assert(t[k] == ' ');
    assert forall|i: int| 0 <= i < k implies is_ascii_digit(#[trigger] t[i]) by {
        assert(t[i] == decimal(count)[i]);
    }
}

/// An attachment adds its line, `\n[filename](url)`, right after the
/// message text, just before the link back to the message: the description
/// is the one of the same message without attachment whose text ends with
/// that line.  This holds whether or not the message is a reply.
pub proof fn law_attachment_line_follows_content(
    reply: Option<(Seq<char>, Seq<char>, Seq<char>)>,
    content: Seq<char>,
    filename: Seq<char>,
    url: Seq<char>,
    link: Seq<char>,
)
    ensures
        spec_starboard_description(reply, content, Some((filename, url)), link)
            == spec_starboard_description(
            reply,
            content + "\n["@ + filename + "]("@ + url + ")"@,
            None,
            link,
        ),
{
    let r = match reply {
        Some(p) => reply_line(p.0, p.1, p.2),
        None => seq![],
    };
    let a = "\n["@ + filename + "]("@ + url + ")"@;
    let j = "\n\n[Jump to message]("@ + link + ")"@;
    assert(r + content + a + j =~= r + (content + a) + Seq::<char>::empty() + j);
}

/// Whatever the message replies to, its description ends with its text, the
/// attachment line when it has an attachment, and the link back to it; a
/// message that is no reply has nothing before its text.
pub proof fn law_description_ends_with_content(
    reply: Option<(Seq<char>, Seq<char>, Seq<char>)>,
    content: Seq<char>,
    attachment: Option<(Seq<char>, Seq<char>)>,
    link: Seq<char>,
)
    ensures
        ({
            let d = spec_starboard_description(reply, content, attachment, link);
            let a = match attachment {
                Some(f) => "\n["@ + f.0 + "]("@ + f.1 + ")"@,
                None => Seq::<char>::empty(),
            };
            let tail = content + a + "\n\n[Jump to message]("@ + link + ")"@;
            &&& tail.len() <= d.len()
            &&& d.subrange(d.len() - tail.len(), d.len() as int) == tail
            &&& reply is None ==> d == tail
        }),
{
    let d = spec_starboard_description(reply, content, attachment, link);
    let r = match reply {
        Some(p) => reply_line(p.0, p.1, p.2),
        None => seq![],
    };
    let a = match attachment {
        Some(f) => "\n["@ + f.0 + "]("@ + f.1 + ")"@,
        None => Seq::<char>::empty(),
    };
    let tail = content + a + "\n\n[Jump to message]("@ + link + ")"@;
    assert(d =~= r + tail);
    assert(d.subrange(d.len() - tail.len(), d.len() as int) =~= tail);
}

} // verus!
