//! Escaping, tag re-enabling and the models that describe them.
use vstd::prelude::*;
use vstd::std_specs::iter::IteratorSpec;
use vstd::string::StrSliceExecFns;
use vstd::string::StringExecFns;

verus! {

/// The entity that stands for one character in escaped text; characters
/// without special meaning stand for themselves.
pub open spec fn escape_char(c: char) -> Seq<char> {
    if c == '&' {
        seq!['&', 'a', 'm', 'p', ';']
    } else if c == '<' {
        seq!['&', 'l', 't', ';']
    } else if c == '>' {
        seq!['&', 'g', 't', ';']
    } else if c == '"' {
        seq!['&', 'q', 'u', 'o', 't', ';']
    } else if c == '\'' {
        seq!['&', '#', 'x', '2', '7', ';']
    } else {
        seq![c]
    }
}

/// Entity escaping of a whole text, character by character.
pub open spec fn escape(s: Seq<char>) -> Seq<char>
    decreases s.len(),
{
    if s.len() == 0 {
        Seq::empty()
    } else {
        escape_char(s[0]) + escape(s.skip(1))
    }
}

/// Relies on html_escape::encode_quoted_attribute, which replaces each of
/// `&`, `<`, `>`, `"` and `'` by its entity and keeps every other character.
#[verifier::external_body]
pub(crate) fn escape_html(text: &str) -> (r: String)
    ensures
        r@ == escape(text@),
{
    html_escape::encode_quoted_attribute(text).into_owned()
}

/// Whether `s` begins with `p`.
pub open spec fn starts_with(s: Seq<char>, p: Seq<char>) -> bool {
    p.len() <= s.len() && s.take(p.len() as int) == p
}

/// Every occurrence of `pat` replaced by `rep`, left to right and without
/// overlap.
pub open spec fn replace_all(s: Seq<char>, pat: Seq<char>, rep: Seq<char>) -> Seq<char>
    decreases s.len(),
{
    if s.len() == 0 {
        Seq::empty()
    } else if pat.len() > 0 && starts_with(s, pat) {
        rep + replace_all(s.skip(pat.len() as int), pat, rep)
    } else {
        seq![s[0]] + replace_all(s.skip(1), pat, rep)
    }
}

/// Number of inline formatting tags that may stay live in a message.
pub const TAG_COUNT: usize = 13;

/// The names of the inline formatting tags that may stay live, in order.
pub open spec fn tag_name(k: int) -> Seq<char> {
    if k == 0 {
        seq!['b']
    } else if k == 1 {
        seq!['s', 't', 'r', 'o', 'n', 'g']
    } else if k == 2 {
        seq!['i']
    } else if k == 3 {
        seq!['e', 'm']
    } else if k == 4 {
        seq!['u']
    } else if k == 5 {
        seq!['i', 'n', 's']
    } else if k == 6 {
        seq!['s']
    } else if k == 7 {
        seq!['s', 't', 'r', 'i', 'k', 'e']
    } else if k == 8 {
        seq!['d', 'e', 'l']
    } else if k == 9 {
        seq!['c', 'o', 'd', 'e']
    } else if k == 10 {
        seq!['p', 'r', 'e']
    } else if k == 11 {
        seq!['b', 'l', 'o', 'c', 'k', 'q', 'u', 'o', 't', 'e']
    } else {
        seq!['t', 'g', '-', 's', 'p', 'o', 'i', 'l', 'e', 'r']
    }
}

/// `<name>`
pub open spec fn open_tag(name: Seq<char>) -> Seq<char> {
    seq!['<'] + name + seq!['>']
}

/// `</name>`
pub open spec fn close_tag(name: Seq<char>) -> Seq<char> {
    seq!['<', '/'] + name + seq!['>']
}

/// `&lt;name&gt;`, an open tag after escaping.
pub open spec fn escaped_open_tag(name: Seq<char>) -> Seq<char> {
    seq!['&', 'l', 't', ';'] + name + seq!['&', 'g', 't', ';']
}

/// `&lt;/name&gt;`, a close tag after escaping.
pub open spec fn escaped_close_tag(name: Seq<char>) -> Seq<char> {
    seq!['&', 'l', 't', ';', '/'] + name + seq!['&', 'g', 't', ';']
}

/// The text after the escaped open and close tags of the first `n` allowed
/// names have been turned back into live tags.
pub open spec fn rearm(s: Seq<char>, n: nat) -> Seq<char>
    decreases n,
{
    if n == 0 {
        s
    } else {
        let name = tag_name(n - 1);
        let t = rearm(s, (n - 1) as nat);
        replace_all(
            replace_all(t, escaped_open_tag(name), open_tag(name)),
            escaped_close_tag(name),
            close_tag(name),
        )
    }
}

/// The text with every allowed tag re-enabled.
pub open spec fn rearm_all(s: Seq<char>) -> Seq<char> {
    rearm(s, TAG_COUNT as nat)
}

/// Relies on String::push: appends one character.
#[verifier::external_body]
fn push_char(s: &mut String, c: char)
    ensures
        final(s)@ == old(s)@.push(c),
{
    s.push(c)
}

/// The characters of a text.
pub(crate) fn chars_of(text: &str) -> (r: Vec<char>)
    ensures
        r@ == text@,
{
    broadcast use vstd::string::group_string_axioms;

    let mut it = text.chars();
    let mut r: Vec<char> = Vec::new();
    loop
        invariant
            it.obeys_prophetic_iter_laws(),
            it.decrease() is Some,
            r@ + it.remaining() == text@,
        ensures
            r@ == text@,
        decreases it.decrease()->0,
    {
        match it.next() {
            Some(c) => {
                r.push(c);
            },
            None => {
                break;
            },
        }
    }
    r
}

/// A text made of the given characters.
pub(crate) fn string_of(cs: &Vec<char>) -> (r: String)
    ensures
        r@ == cs@,
{
    let mut r = String::new();
    let mut i: usize = 0;
    while i < cs.len()
        invariant
            i <= cs@.len(),
            r@ == cs@.take(i as int),
        decreases cs@.len() - i,
    {
        push_char(&mut r, cs[i]);
        assert(cs@.take(i + 1) == cs@.take(i as int).push(cs@[i as int]));
        i += 1;
    }
    assert(cs@.take(cs@.len() as int) == cs@);
    r
}

/// Whether `pat` occurs in `s` at position `i`.
fn occurs_at(s: &Vec<char>, i: usize, pat: &Vec<char>) -> (r: bool)
    requires
        i <= s@.len(),
    ensures
        r == starts_with(s@.skip(i as int), pat@),
{
    if pat.len() > s.len() - i {
        return false;
    }
    let mut j: usize = 0;
    while j < pat.len()
        invariant
            j <= pat@.len(),
            i <= s@.len(),
            i + pat@.len() <= s@.len(),
            forall|k: int| 0 <= k < j ==> s@[i + k] == pat@[k],
        decreases pat@.len() - j,
    {
        let n = s.len();
        assert(i + j < n);
        if s[i + j] != pat[j] {
            assert(s@.skip(i as int).take(pat@.len() as int)[j as int] != pat@[j as int]);
            return false;
        }
        j += 1;
    }
    assert(s@.skip(i as int).take(pat@.len() as int) =~= pat@);
    true
}

fn append_chars(r: &mut Vec<char>, tail: &Vec<char>)
    ensures
        final(r)@ == old(r)@ + tail@,
{
    let mut j: usize = 0;
    while j < tail.len()
        invariant
            j <= tail@.len(),
            r@ == old(r)@ + tail@.take(j as int),
        decreases tail@.len() - j,
    {
        r.push(tail[j]);
        assert(tail@.take(j + 1) == tail@.take(j as int).push(tail@[j as int]));
        j += 1;
    }
    assert(tail@.take(tail@.len() as int) == tail@);
}

/// Every occurrence of `pat` in `s` replaced by `rep`, left to right and
/// without overlap.
pub(crate) fn replace_chars(s: &Vec<char>, pat: &Vec<char>, rep: &Vec<char>) -> (r: Vec<char>)
    requires
        pat@.len() > 0,
    ensures
        r@ == replace_all(s@, pat@, rep@),
{
    let mut r: Vec<char> = Vec::new();
    let mut i: usize = 0;
    assert(s@.skip(0) =~= s@);
    while i < s.len()
        invariant
            i <= s@.len(),
            pat@.len() > 0,
            replace_all(s@, pat@, rep@) == r@ + replace_all(s@.skip(i as int), pat@, rep@),
        decreases s@.len() - i,
    {
        let rest = Ghost(s@.skip(i as int));
        if occurs_at(s, i, pat) {
            assert(rest@.skip(pat@.len() as int) =~= s@.skip(i + pat@.len()));
            append_chars(&mut r, rep);
            i += pat.len();
        } else {
            assert(rest@.skip(1) =~= s@.skip(i + 1));
            r.push(s[i]);
            i += 1;
        }
    }
    assert(s@.skip(i as int) =~= Seq::<char>::empty());
    r
}

/// The characters of the `k`-th allowed tag name.
fn tag_chars(k: usize) -> (r: Vec<char>)
    requires
        k < TAG_COUNT,
    ensures
        r@ == tag_name(k as int),
{
    let r = if k == 0 {
        vec!['b']
    } else if k == 1 {
        vec!['s', 't', 'r', 'o', 'n', 'g']
    } else if k == 2 {
        vec!['i']
    } else if k == 3 {
        vec!['e', 'm']
    } else if k == 4 {
        vec!['u']
    } else if k == 5 {
        vec!['i', 'n', 's']
    } else if k == 6 {
        vec!['s']
    } else if k == 7 {
        vec!['s', 't', 'r', 'i', 'k', 'e']
    } else if k == 8 {
        vec!['d', 'e', 'l']
    } else if k == 9 {
        vec!['c', 'o', 'd', 'e']
    } else if k == 10 {
        vec!['p', 'r', 'e']
    } else if k == 11 {
        vec!['b', 'l', 'o', 'c', 'k', 'q', 'u', 'o', 't', 'e']
    } else {
        vec!['t', 'g', '-', 's', 'p', 'o', 'i', 'l', 'e', 'r']
    };
    assert(r@ =~= tag_name(k as int));
    r
}

/// `head`, then `name`, then `tail`.
fn wrap(head: Vec<char>, name: &Vec<char>, tail: &Vec<char>) -> (r: Vec<char>)
    ensures
        r@ == head@ + name@ + tail@,
{
    let mut r = head;
    append_chars(&mut r, name);
    append_chars(&mut r, tail);
    r
}

/// Turns the escaped form of every allowed open and close tag back into a
/// live tag; everything else is left as it is.
pub fn reenable_tags(text: &str) -> (r: String)
    ensures
        r@ == rearm_all(text@),
{
    let mut cs = chars_of(text);
    let mut k: usize = 0;
    while k < TAG_COUNT
        invariant
            k <= TAG_COUNT,
            cs@ == rearm(text@, k as nat),
        decreases TAG_COUNT - k,
    {
        let name = tag_chars(k);
        let gt = vec!['&', 'g', 't', ';'];
        let esc_open = wrap(vec!['&', 'l', 't', ';'], &name, &gt);
        let esc_close = wrap(vec!['&', 'l', 't', ';', '/'], &name, &gt);
        let live_open = wrap(vec!['<'], &name, &vec!['>']);
        let live_close = wrap(vec!['<', '/'], &name, &vec!['>']);
        assert(esc_open@ =~= escaped_open_tag(name@));
        assert(esc_close@ =~= escaped_close_tag(name@));
        assert(live_open@ =~= open_tag(name@));
        assert(live_close@ =~= close_tag(name@));
        let opened = replace_chars(&cs, &esc_open, &live_open);
        cs = replace_chars(&opened, &esc_close, &live_close);
        k += 1;
    }
    string_of(&cs)
}

/// The first `max` characters of `s`, or all of it when it is no longer.
pub open spec fn truncated(s: Seq<char>, max: nat) -> Seq<char> {
    if s.len() <= max {
        s
    } else {
        s.take(max as int)
    }
}

/// The marker appended to a text that was cut short.
pub open spec fn ellipsis() -> Seq<char> {
    seq!['.', '.', '.']
}

/// The kept part of `s`, escaped, with the marker when something was cut.
pub open spec fn escaped_and_marked(s: Seq<char>, max: nat) -> Seq<char> {
    if s.len() <= max {
        escape(s)
    } else {
        escape(s.take(max as int)) + ellipsis()
    }
}

/// What sanitizing `s` with the limit `max` yields.
pub open spec fn sanitized(s: Seq<char>, max: nat) -> Seq<char> {
    rearm_all(escaped_and_marked(s, max))
}

/// Bounds `text` to `max_length` characters, escapes it, marks a cut with
/// `...`, and re-enables the allowed formatting tags.
pub fn sanitize(text: &str, max_length: usize) -> (r: String)
    ensures
        r@ == sanitized(text@, max_length as nat),
{
    broadcast use vstd::string::group_string_axioms;

    let n = text.unicode_len();
    let overflow = n > max_length;
    let cut = if overflow {
        max_length
    } else {
        n
    };
    let kept = text.substring_char(0, cut);
    assert(text@.subrange(0, n as int) =~= text@);
    let mut escaped = escape_html(kept);
    if overflow {
        let marker = "...";
        proof {
            reveal_strlit("...");
        }
        assert(marker@ =~= ellipsis());
        escaped.append(marker);
    }
    reenable_tags(escaped.as_str())
}

} // verus!
