//! What holds of every sanitized text: the characters a reader sees, and the
//! only markup that stays live.
use vstd::prelude::*;

use crate::markup::{
    close_tag, ellipsis, escape, escape_char, escaped_and_marked, escaped_close_tag,
    escaped_open_tag, open_tag, rearm, rearm_all, replace_all, sanitized, starts_with, tag_name,
    truncated, TAG_COUNT,
};

verus! {

/// Whether `s` holds neither `<` nor `>`.
pub open spec fn no_angles(s: Seq<char>) -> bool {
    forall|i: int| 0 <= i < s.len() ==> s[i] != '<' && s[i] != '>'
}

/// A live tag turned back into the text it was escaped from.
pub open spec fn disarm_char(c: char) -> Seq<char> {
    if c == '<' {
        seq!['&', 'l', 't', ';']
    } else if c == '>' {
        seq!['&', 'g', 't', ';']
    } else {
        seq![c]
    }
}

/// Every `<` and `>` of a text written as its entity again.
pub open spec fn disarm(s: Seq<char>) -> Seq<char>
    decreases s.len(),
{
    if s.len() == 0 {
        Seq::empty()
    } else {
        disarm_char(s[0]) + disarm(s.skip(1))
    }
}

/// Entities decoded back into the characters they stand for.
pub open spec fn unescape(s: Seq<char>) -> Seq<char>
    decreases s.len(),
{
    if s.len() == 0 {
        Seq::empty()
    } else if starts_with(s, escape_char('&')) {
        seq!['&'] + unescape(s.skip(5))
    } else if starts_with(s, escape_char('<')) {
        seq!['<'] + unescape(s.skip(4))
    } else if starts_with(s, escape_char('>')) {
        seq!['>'] + unescape(s.skip(4))
    } else if starts_with(s, escape_char('"')) {
        seq!['"'] + unescape(s.skip(6))
    } else if starts_with(s, escape_char('\'')) {
        seq!['\''] + unescape(s.skip(6))
    } else {
        seq![s[0]] + unescape(s.skip(1))
    }
}

/// The text that a sanitized message stands for, with its live tags read as
/// plain characters and its entities decoded.
pub open spec fn visible(s: Seq<char>) -> Seq<char> {
    unescape(disarm(s))
}

proof fn lemma_disarm_concat(a: Seq<char>, b: Seq<char>)
    ensures
        disarm(a + b) == disarm(a) + disarm(b),
    decreases a.len(),
{
    if a.len() == 0 {
        assert(a + b =~= b);
    } else {
        assert((a + b).skip(1) =~= a.skip(1) + b);
        lemma_disarm_concat(a.skip(1), b);
        assert(disarm(a + b) =~= disarm_char(a[0]) + disarm(a.skip(1) + b));
        assert(disarm(a + b) =~= disarm(a) + disarm(b));
    }
}

proof fn lemma_disarm_plain(s: Seq<char>)
    requires
        no_angles(s),
    ensures
        disarm(s) == s,
    decreases s.len(),
{
    if s.len() > 0 {
        lemma_disarm_plain(s.skip(1));
        assert(disarm(s) =~= s);
    }
}

proof fn lemma_disarm_replace(s: Seq<char>, pat: Seq<char>, rep: Seq<char>)
    requires
        pat.len() > 0,
        no_angles(pat),
        disarm(rep) == pat,
    ensures
        disarm(replace_all(s, pat, rep)) == disarm(s),
    decreases s.len(),
{
    if s.len() == 0 {
    } else if starts_with(s, pat) {
        let rest = s.skip(pat.len() as int);
        lemma_disarm_replace(rest, pat, rep);
        lemma_disarm_concat(rep, replace_all(rest, pat, rep));
        assert(s =~= pat + rest);
        lemma_disarm_concat(pat, rest);
        lemma_disarm_plain(pat);
    } else {
        lemma_disarm_replace(s.skip(1), pat, rep);
        lemma_disarm_concat(seq![s[0]], replace_all(s.skip(1), pat, rep));
        reveal_with_fuel(disarm, 2);
        assert(seq![s[0]].skip(1) =~= Seq::<char>::empty());
        assert(disarm(seq![s[0]]) =~= disarm_char(s[0]));
    }
}

proof fn lemma_tag_name_plain(k: int)
    requires
        0 <= k < TAG_COUNT,
    ensures
        no_angles(tag_name(k)),
        forall|i: int| 0 <= i < tag_name(k).len() ==> tag_name(k)[i] != '&',
        forall|i: int|
            0 <= i < tag_name(k).len() ==> tag_name(k)[i] != '"' && tag_name(k)[i] != '\'' && tag_name(
                k,
            )[i] != '/',
        tag_name(k).len() > 0,
{
}

proof fn lemma_disarm_tags(k: int)
    requires
        0 <= k < TAG_COUNT,
    ensures
        disarm(open_tag(tag_name(k))) == escaped_open_tag(tag_name(k)),
        disarm(close_tag(tag_name(k))) == escaped_close_tag(tag_name(k)),
        no_angles(escaped_open_tag(tag_name(k))),
        no_angles(escaped_close_tag(tag_name(k))),
{
    let name = tag_name(k);
    lemma_tag_name_plain(k);
    lemma_disarm_plain(name);
    lemma_disarm_concat(seq!['<'] + name, seq!['>']);
    lemma_disarm_concat(seq!['<'], name);
    lemma_disarm_concat(seq!['<', '/'] + name, seq!['>']);
    lemma_disarm_concat(seq!['<', '/'], name);
    reveal_with_fuel(disarm, 3);
    assert(seq!['<'].skip(1) =~= Seq::<char>::empty());
    assert(seq!['>'].skip(1) =~= Seq::<char>::empty());
    assert(seq!['<', '/'].skip(1) =~= seq!['/']);
    assert(seq!['/'].skip(1) =~= Seq::<char>::empty());
    assert(disarm(seq!['<']) =~= seq!['&', 'l', 't', ';']);
    assert(disarm(seq!['>']) =~= seq!['&', 'g', 't', ';']);
    assert(disarm(seq!['<', '/']) =~= seq!['&', 'l', 't', ';', '/']);
    assert(disarm(open_tag(name)) =~= escaped_open_tag(name));
    assert(disarm(close_tag(name)) =~= escaped_close_tag(name));
}

proof fn lemma_disarm_rearm(s: Seq<char>, n: nat)
    requires
        n <= TAG_COUNT,
    ensures
        disarm(rearm(s, n)) == disarm(s),
    decreases n,
{
    if n > 0 {
        let k = n - 1;
        let name = tag_name(k);
        lemma_disarm_rearm(s, (n - 1) as nat);
        lemma_disarm_tags(k);
        let t = rearm(s, (n - 1) as nat);
        let u = replace_all(t, escaped_open_tag(name), open_tag(name));
        lemma_disarm_replace(t, escaped_open_tag(name), open_tag(name));
        lemma_disarm_replace(u, escaped_close_tag(name), close_tag(name));
    }
}

proof fn lemma_escape_plain(t: Seq<char>)
    ensures
        no_angles(escape(t)),
    decreases t.len(),
{
    if t.len() > 0 {
        lemma_escape_plain(t.skip(1));
        let e = escape_char(t[0]);
        assert(no_angles(e));
        assert forall|i: int| 0 <= i < escape(t).len() implies escape(t)[i] != '<' && escape(t)[i]
            != '>' by {
            if i >= e.len() {
                assert(escape(t)[i] == escape(t.skip(1))[i - e.len()]);
            }
        }
    }
}

proof fn lemma_differs_at(x: Seq<char>, p: Seq<char>, i: int)
    requires
        0 <= i < p.len(),
        i < x.len(),
        x[i] != p[i],
    ensures
        !starts_with(x, p),
{
    if starts_with(x, p) {
        assert(x.take(p.len() as int)[i] == x[i]);
    }
}

proof fn lemma_unescape_one(c: char, w: Seq<char>)
    ensures
        unescape(escape_char(c) + w) == seq![c] + unescape(w),
{
    let e = escape_char(c);
    let x = e + w;
    assert(x.skip(e.len() as int) =~= w);
    assert(x.take(e.len() as int) =~= e);
    assert(x[0] == e[0]);
    if e.len() > 1 {
        assert(x[1] == e[1]);
    }
    if c == '<' {
        lemma_differs_at(x, escape_char('&'), 1);
    } else if c == '>' {
        lemma_differs_at(x, escape_char('&'), 1);
        lemma_differs_at(x, escape_char('<'), 1);
    } else if c == '"' {
        lemma_differs_at(x, escape_char('&'), 1);
        lemma_differs_at(x, escape_char('<'), 1);
        lemma_differs_at(x, escape_char('>'), 1);
    } else if c == '\'' {
        lemma_differs_at(x, escape_char('&'), 1);
        lemma_differs_at(x, escape_char('<'), 1);
        lemma_differs_at(x, escape_char('>'), 1);
        lemma_differs_at(x, escape_char('"'), 1);
    } else if c != '&' {
        lemma_differs_at(x, escape_char('&'), 0);
        lemma_differs_at(x, escape_char('<'), 0);
        lemma_differs_at(x, escape_char('>'), 0);
        lemma_differs_at(x, escape_char('"'), 0);
        lemma_differs_at(x, escape_char('\''), 0);
    }
}

proof fn lemma_unescape_escape(t: Seq<char>, w: Seq<char>)
    ensures
        unescape(escape(t) + w) == t + unescape(w),
    decreases t.len(),
{
    if t.len() == 0 {
        assert(escape(t) + w =~= w);
        assert(t + unescape(w) =~= unescape(w));
    } else {
        lemma_unescape_escape(t.skip(1), w);
        assert(escape(t) + w =~= escape_char(t[0]) + (escape(t.skip(1)) + w));
        lemma_unescape_one(t[0], escape(t.skip(1)) + w);
        assert(t =~= seq![t[0]] + t.skip(1));
    }
}

proof fn lemma_unescape_ellipsis()
    ensures
        unescape(ellipsis()) == ellipsis(),
{
    lemma_unescape_escape(ellipsis(), Seq::empty());
    reveal_with_fuel(escape, 4);
    assert(seq!['.'].skip(1) =~= Seq::<char>::empty());
    assert(seq!['.', '.'].skip(1) =~= seq!['.']);
    assert(ellipsis().skip(1) =~= seq!['.', '.']);
    assert(escape(ellipsis()) =~= ellipsis());
    assert(ellipsis() + Seq::<char>::empty() =~= ellipsis());
}

/// The text a reader sees in a sanitized message is the original text when
/// it fits the limit, and otherwise exactly its first `max` characters
/// followed by `...`.
pub proof fn law_visible_text(s: Seq<char>, max: nat)
    ensures
        visible(sanitized(s, max)) == if s.len() <= max {
            s
        } else {
            truncated(s, max) + ellipsis()
        },
{
    let m = escaped_and_marked(s, max);
    lemma_disarm_rearm(m, TAG_COUNT as nat);
    let t = truncated(s, max);
    lemma_escape_plain(t);
    if s.len() <= max {
        lemma_disarm_plain(escape(s));
        lemma_unescape_escape(s, Seq::empty());
        assert(escape(s) + Seq::<char>::empty() =~= escape(s));
        assert(s + Seq::<char>::empty() =~= s);
    } else {
        assert(no_angles(ellipsis()));
        assert(no_angles(m));
        lemma_disarm_plain(m);
        lemma_unescape_escape(t, ellipsis());
        lemma_unescape_ellipsis();
    }
}

/// A text that fits the limit gets no `...` marker: its sanitized form is the
/// whole of it escaped, with the allowed tags re-enabled, and it reads as the
/// text itself.
pub proof fn law_no_marker_within_limit(s: Seq<char>, max: nat)
    requires
        s.len() <= max,
    ensures
        sanitized(s, max) == rearm_all(escape(s)),
        visible(sanitized(s, max)) == s,
{
    law_visible_text(s, max);
}

/// A text over the limit reads as exactly `max` of its characters, its first
/// ones, followed by `...`.
pub proof fn law_cut_keeps_limit(s: Seq<char>, max: nat)
    requires
        s.len() > max,
    ensures
        visible(sanitized(s, max)) == s.take(max as int) + ellipsis(),
        s.take(max as int).len() == max,
{
    law_visible_text(s, max);
}

/// Whether `m` is the open or close tag of an allowed name.
pub open spec fn is_allowed_tag(m: Seq<char>) -> bool {
    exists|k: int|
        0 <= k < TAG_COUNT && (m == open_tag(tag_name(k)) || m == close_tag(tag_name(k)))
}

/// The length of the allowed tag that `s` begins with, looking at the names
/// from the `k`-th on; zero when there is none.
pub open spec fn tag_len_from(s: Seq<char>, k: int) -> nat
    decreases TAG_COUNT - k,
{
    if k < 0 || k >= TAG_COUNT {
        0
    } else if starts_with(s, open_tag(tag_name(k))) {
        open_tag(tag_name(k)).len()
    } else if starts_with(s, close_tag(tag_name(k))) {
        close_tag(tag_name(k)).len()
    } else {
        tag_len_from(s, k + 1)
    }
}

/// Whether `s` is made of characters other than `<` and `>`, and of whole
/// allowed tags: every `<` opens an allowed tag, and every `>` closes one.
pub open spec fn well_marked(s: Seq<char>) -> bool
    decreases s.len(),
{
    if s.len() == 0 {
        true
    } else if s[0] == '<' {
        let n = tag_len_from(s, 0);
        0 < n <= s.len() && well_marked(s.skip(n as int))
    } else {
        s[0] != '>' && well_marked(s.skip(1))
    }
}

proof fn lemma_tag_shape(k: int)
    requires
        0 <= k < TAG_COUNT,
    ensures
        open_tag(tag_name(k))[0] == '<',
        close_tag(tag_name(k))[0] == '<',
        open_tag(tag_name(k)).last() == '>',
        close_tag(tag_name(k)).last() == '>',
        forall|i: int|
            0 <= i < open_tag(tag_name(k)).len() - 1 ==> open_tag(tag_name(k))[i] != '>',
        forall|i: int|
            0 <= i < close_tag(tag_name(k)).len() - 1 ==> close_tag(tag_name(k))[i] != '>',
{
    lemma_tag_name_plain(k);
    let name = tag_name(k);
    assert forall|i: int| 0 <= i < open_tag(name).len() - 1 implies open_tag(name)[i] != '>' by {
        if 1 <= i {
            assert(open_tag(name)[i] == name[i - 1]);
        }
    }
    assert forall|i: int| 0 <= i < close_tag(name).len() - 1 implies close_tag(name)[i] != '>' by {
        if 2 <= i {
            assert(close_tag(name)[i] == name[i - 2]);
        }
    }
}

/// Two tags that each end in their only `>` cannot one begin the other
/// unless they are the same.
proof fn lemma_prefix_free(a: Seq<char>, b: Seq<char>, t: Seq<char>)
    requires
        a.len() > 0,
        b.len() > 0,
        a.last() == '>',
        b.last() == '>',
        forall|i: int| 0 <= i < a.len() - 1 ==> a[i] != '>',
        forall|i: int| 0 <= i < b.len() - 1 ==> b[i] != '>',
        starts_with(a + t, b),
    ensures
        a == b,
{
    let x = a + t;
    assert(x.take(b.len() as int)[b.len() - 1] == x[b.len() - 1]);
    if b.len() < a.len() {
        assert(x[b.len() - 1] == a[b.len() - 1]);
    } else if b.len() > a.len() {
        assert(x.take(b.len() as int)[a.len() - 1] == x[a.len() - 1]);
        assert(x[a.len() - 1] == a[a.len() - 1]);
    } else {
        assert(x.take(b.len() as int) =~= a);
    }
}

proof fn lemma_tag_len_sound(s: Seq<char>, k: int)
    requires
        tag_len_from(s, k) > 0,
    ensures
        tag_len_from(s, k) <= s.len(),
        is_allowed_tag(s.take(tag_len_from(s, k) as int)),
    decreases TAG_COUNT - k,
{
    if starts_with(s, open_tag(tag_name(k))) {
        assert(is_allowed_tag(s.take(tag_len_from(s, k) as int)));
    } else if starts_with(s, close_tag(tag_name(k))) {
        assert(is_allowed_tag(s.take(tag_len_from(s, k) as int)));
    } else {
        lemma_tag_len_sound(s, k + 1);
    }
}

proof fn lemma_tag_len_of_tag(m: Seq<char>, t: Seq<char>, j: int, k: int)
    requires
        0 <= j < TAG_COUNT,
        m == open_tag(tag_name(j)) || m == close_tag(tag_name(j)),
        0 <= k <= j,
    ensures
        tag_len_from(m + t, k) == m.len(),
    decreases j - k,
{
    let x = m + t;
    lemma_tag_shape(j);
    lemma_tag_shape(k);
    assert(x.take(m.len() as int) =~= m);
    if starts_with(x, open_tag(tag_name(k))) {
        lemma_prefix_free(m, open_tag(tag_name(k)), t);
    } else if starts_with(x, close_tag(tag_name(k))) {
        lemma_prefix_free(m, close_tag(tag_name(k)), t);
    } else {
        lemma_tag_len_of_tag(m, t, j, k + 1);
    }
}

proof fn lemma_plain_well_marked(s: Seq<char>)
    requires
        no_angles(s),
    ensures
        well_marked(s),
    decreases s.len(),
{
    if s.len() > 0 {
        lemma_plain_well_marked(s.skip(1));
    }
}

proof fn lemma_tag_then(m: Seq<char>, t: Seq<char>)
    requires
        is_allowed_tag(m),
        well_marked(t),
    ensures
        well_marked(m + t),
{
    let j = choose|j: int|
        0 <= j < TAG_COUNT && (m == open_tag(tag_name(j)) || m == close_tag(tag_name(j)));
    let x = m + t;
    lemma_tag_shape(j);
    lemma_tag_len_of_tag(m, t, j, 0);
    assert(x.skip(m.len() as int) =~= t);
    assert(x[0] == m[0]);
}

proof fn lemma_char_then(c: char, t: Seq<char>)
    requires
        c != '<',
        c != '>',
        well_marked(t),
    ensures
        well_marked(seq![c] + t),
{
    assert((seq![c] + t).skip(1) =~= t);
}

proof fn lemma_skip_plain(s: Seq<char>, m: int)
    requires
        well_marked(s),
        0 <= m <= s.len(),
        no_angles(s.take(m)),
    ensures
        well_marked(s.skip(m)),
    decreases m,
{
    if m > 0 {
        assert(s.take(m)[0] == s[0]);
        assert(s.skip(1).take(m - 1) =~= s.take(m).skip(1));
        lemma_skip_plain(s.skip(1), m - 1);
        assert(s.skip(1).skip(m - 1) =~= s.skip(m));
    } else {
        assert(s.skip(0) =~= s);
    }
}

proof fn lemma_replace_after(u: Seq<char>, v: Seq<char>, pat: Seq<char>, rep: Seq<char>)
    requires
        pat.len() > 0,
        forall|i: int| 0 <= i < u.len() ==> u[i] != pat[0],
    ensures
        replace_all(u + v, pat, rep) == u + replace_all(v, pat, rep),
    decreases u.len(),
{
    if u.len() == 0 {
        assert(u + v =~= v);
    } else {
        let x = u + v;
        lemma_differs_at(x, pat, 0);
        assert(x.skip(1) =~= u.skip(1) + v);
        lemma_replace_after(u.skip(1), v, pat, rep);
        assert(x =~= seq![u[0]] + x.skip(1));
        assert(u =~= seq![u[0]] + u.skip(1));
    }
}

proof fn lemma_tag_has_no_amp(k: int)
    requires
        0 <= k < TAG_COUNT,
    ensures
        forall|i: int| 0 <= i < open_tag(tag_name(k)).len() ==> open_tag(tag_name(k))[i] != '&',
        forall|i: int|
            0 <= i < close_tag(tag_name(k)).len() ==> close_tag(tag_name(k))[i] != '&',
{
    lemma_tag_name_plain(k);
    let name = tag_name(k);
    assert forall|i: int| 0 <= i < open_tag(name).len() implies open_tag(name)[i] != '&' by {
        if 1 <= i < 1 + name.len() {
            assert(open_tag(name)[i] == name[i - 1]);
        }
    }
    assert forall|i: int| 0 <= i < close_tag(name).len() implies close_tag(name)[i] != '&' by {
        if 2 <= i < 2 + name.len() {
            assert(close_tag(name)[i] == name[i - 2]);
        }
    }
}

proof fn lemma_replace_well_marked(s: Seq<char>, pat: Seq<char>, rep: Seq<char>)
    requires
        well_marked(s),
        pat.len() > 0,
        pat[0] == '&',
        no_angles(pat),
        is_allowed_tag(rep),
    ensures
        well_marked(replace_all(s, pat, rep)),
    decreases s.len(),
{
    if s.len() == 0 {
    } else if starts_with(s, pat) {
        let rest = s.skip(pat.len() as int);
        lemma_skip_plain(s, pat.len() as int);
        lemma_replace_well_marked(rest, pat, rep);
        lemma_tag_then(rep, replace_all(rest, pat, rep));
    } else if s[0] == '<' {
        let n = tag_len_from(s, 0) as int;
        lemma_tag_len_sound(s, 0);
        let m = s.take(n);
        let k = choose|k: int|
            0 <= k < TAG_COUNT && (m == open_tag(tag_name(k)) || m == close_tag(tag_name(k)));
        lemma_tag_has_no_amp(k);
        lemma_replace_after(m.skip(1), s.skip(n), pat, rep);
        assert(s.skip(1) =~= m.skip(1) + s.skip(n));
        lemma_replace_well_marked(s.skip(n), pat, rep);
        lemma_tag_then(m, replace_all(s.skip(n), pat, rep));
        assert(m =~= seq![s[0]] + m.skip(1));
        assert(seq![s[0]] + (m.skip(1) + replace_all(s.skip(n), pat, rep)) =~= m + replace_all(
            s.skip(n),
            pat,
            rep,
        ));
    } else {
        lemma_replace_well_marked(s.skip(1), pat, rep);
        lemma_char_then(s[0], replace_all(s.skip(1), pat, rep));
    }
}

proof fn lemma_rearm_well_marked(s: Seq<char>, n: nat)
    requires
        well_marked(s),
        n <= TAG_COUNT,
    ensures
        well_marked(rearm(s, n)),
    decreases n,
{
    if n > 0 {
        let k = n - 1;
        let name = tag_name(k);
        lemma_rearm_well_marked(s, (n - 1) as nat);
        lemma_disarm_tags(k);
        let t = rearm(s, (n - 1) as nat);
        let u = replace_all(t, escaped_open_tag(name), open_tag(name));
        assert(is_allowed_tag(open_tag(name)));
        assert(is_allowed_tag(close_tag(name)));
        lemma_replace_well_marked(t, escaped_open_tag(name), open_tag(name));
        lemma_replace_well_marked(u, escaped_close_tag(name), close_tag(name));
    }
}

/// Whatever the input, a sanitized text holds `<` and `>` only as parts of
/// whole allowed open and close tags.
pub proof fn law_only_allowed_markup(s: Seq<char>, max: nat)
    ensures
        well_marked(sanitized(s, max)),
{
    let t = truncated(s, max);
    lemma_escape_plain(t);
    let m = escaped_and_marked(s, max);
    assert(no_angles(m)) by {
        if s.len() > max {
            assert forall|i: int| 0 <= i < m.len() implies m[i] != '<' && m[i] != '>' by {
                if i >= escape(t).len() {
                    assert(m[i] == ellipsis()[i - escape(t).len()]);
                }
            }
        }
    }
    lemma_plain_well_marked(m);
    lemma_rearm_well_marked(m, TAG_COUNT as nat);
}

/// Whether `s` is text that needs no escaping: plain characters other than
/// `&`, `"` and `'`, and whole allowed tags.
pub open spec fn is_safe_text(s: Seq<char>) -> bool {
    &&& well_marked(s)
    &&& forall|i: int| 0 <= i < s.len() ==> s[i] != '&' && s[i] != '"' && s[i] != '\''
}

proof fn lemma_escape_concat(a: Seq<char>, b: Seq<char>)
    ensures
        escape(a + b) == escape(a) + escape(b),
    decreases a.len(),
{
    if a.len() == 0 {
        assert(a + b =~= b);
    } else {
        assert((a + b).skip(1) =~= a.skip(1) + b);
        lemma_escape_concat(a.skip(1), b);
        assert(escape(a + b) =~= escape(a) + escape(b));
    }
}

proof fn lemma_escape_identity(s: Seq<char>)
    requires
        forall|i: int|
            0 <= i < s.len() ==> s[i] != '&' && s[i] != '<' && s[i] != '>' && s[i] != '"' && s[i]
                != '\'',
    ensures
        escape(s) == s,
    decreases s.len(),
{
    if s.len() > 0 {
        lemma_escape_identity(s.skip(1));
        assert(escape(s) =~= s);
    }
}

proof fn lemma_escape_single(c: char)
    ensures
        escape(seq![c]) == escape_char(c),
{
    reveal_with_fuel(escape, 2);
    assert(seq![c].skip(1) =~= Seq::<char>::empty());
    assert(escape(seq![c]) =~= escape_char(c));
}

proof fn lemma_escape_name(k: int)
    requires
        0 <= k < TAG_COUNT,
    ensures
        escape(tag_name(k)) == tag_name(k),
        escape(open_tag(tag_name(k))) == escaped_open_tag(tag_name(k)),
        escape(close_tag(tag_name(k))) == escaped_close_tag(tag_name(k)),
{
    let name = tag_name(k);
    lemma_tag_name_plain(k);
    lemma_escape_identity(name);
    lemma_escape_concat(seq!['<'] + name, seq!['>']);
    lemma_escape_concat(seq!['<'], name);
    lemma_escape_concat(seq!['<', '/'] + name, seq!['>']);
    lemma_escape_concat(seq!['<', '/'], name);
    lemma_escape_concat(seq!['<'], seq!['/']);
    assert(seq!['<'] + seq!['/'] =~= seq!['<', '/']);
    lemma_escape_single('<');
    lemma_escape_single('>');
    lemma_escape_single('/');
    assert(escape(open_tag(name)) =~= escaped_open_tag(name));
    assert(escape(close_tag(name)) =~= escaped_close_tag(name));
}

/// The facts about an escaped allowed tag that rule out overlapping matches.
pub open spec fn escaped_tag_shape(e: Seq<char>) -> bool {
    &&& e.len() >= 9
    &&& e[0] == '&'
    &&& e[1] == 'l'
    &&& e[e.len() - 4] == '&'
    &&& e[e.len() - 3] == 'g'
    &&& forall|i: int| 0 < i < e.len() && i != e.len() - 4 ==> e[i] != '&'
}

proof fn lemma_escaped_tag_shape(k: int)
    requires
        0 <= k < TAG_COUNT,
    ensures
        escaped_tag_shape(escaped_open_tag(tag_name(k))),
        escaped_tag_shape(escaped_close_tag(tag_name(k))),
{
    lemma_tag_name_plain(k);
    let name = tag_name(k);
    let a = escaped_open_tag(name);
    let b = escaped_close_tag(name);
    assert forall|i: int| 0 < i < a.len() && i != a.len() - 4 implies a[i] != '&' by {
        if 4 <= i < 4 + name.len() {
            assert(a[i] == name[i - 4]);
        }
    }
    assert forall|i: int| 0 < i < b.len() && i != b.len() - 4 implies b[i] != '&' by {
        if 5 <= i < 5 + name.len() {
            assert(b[i] == name[i - 5]);
        }
    }
}

proof fn lemma_escaped_prefix_free(a: Seq<char>, b: Seq<char>, t: Seq<char>)
    requires
        escaped_tag_shape(a),
        escaped_tag_shape(b),
        starts_with(a + t, b),
    ensures
        a == b,
{
    let x = a + t;
    let la = a.len() as int;
    let lb = b.len() as int;
    assert(x.take(lb)[lb - 4] == x[lb - 4]);
    if lb < la {
        assert(x[lb - 4] == a[lb - 4]);
    } else if lb > la {
        assert(x.take(lb)[la - 4] == x[la - 4]);
        assert(x[la - 4] == a[la - 4]);
    } else {
        assert(x.take(lb) =~= a);
    }
}

proof fn lemma_replace_past(u: Seq<char>, v: Seq<char>, pat: Seq<char>, rep: Seq<char>)
    requires
        pat.len() > 0,
        forall|i: int| 0 <= i < u.len() ==> !starts_with(#[trigger] (u + v).skip(i), pat),
    ensures
        replace_all(u + v, pat, rep) == u + replace_all(v, pat, rep),
    decreases u.len(),
{
    let x = u + v;
    if u.len() == 0 {
        assert(x =~= v);
    } else {
        assert(x.skip(0) =~= x);
        assert(x.skip(1) =~= u.skip(1) + v);
        assert forall|i: int| 0 <= i < u.skip(1).len() implies !starts_with(
            #[trigger] (u.skip(1) + v).skip(i),
            pat,
        ) by {
            assert((u.skip(1) + v).skip(i) =~= x.skip(i + 1));
        }
        lemma_replace_past(u.skip(1), v, pat, rep);
        assert(x =~= seq![u[0]] + x.skip(1));
        assert(u =~= seq![u[0]] + u.skip(1));
    }
}

/// An escaped allowed tag is left whole by the replacement of any other one.
proof fn lemma_replace_other_tag(e: Seq<char>, w: Seq<char>, pat: Seq<char>, rep: Seq<char>)
    requires
        escaped_tag_shape(e),
        escaped_tag_shape(pat),
        e != pat,
    ensures
        replace_all(e + w, pat, rep) == e + replace_all(w, pat, rep),
{
    let x = e + w;
    assert forall|i: int| 0 <= i < e.len() implies !starts_with(#[trigger] x.skip(i), pat) by {
        if i == 0 {
            assert(x.skip(0) =~= x);
            if starts_with(x, pat) {
                lemma_escaped_prefix_free(e, pat, w);
            }
        } else if i == e.len() - 4 {
            assert(x.skip(i)[1] == e[i + 1]);
            lemma_differs_at(x.skip(i), pat, 1);
        } else {
            assert(x.skip(i)[0] == e[i]);
            lemma_differs_at(x.skip(i), pat, 0);
        }
    }
    lemma_replace_past(e, w, pat, rep);
}

proof fn lemma_rearm_plain_char(c: char, y: Seq<char>, n: nat)
    requires
        c != '&',
        n <= TAG_COUNT,
    ensures
        rearm(seq![c] + y, n) == seq![c] + rearm(y, n),
    decreases n,
{
    if n > 0 {
        let k = n - 1;
        let name = tag_name(k);
        lemma_rearm_plain_char(c, y, (n - 1) as nat);
        lemma_escaped_tag_shape(k);
        let r = rearm(y, (n - 1) as nat);
        lemma_replace_after(seq![c], r, escaped_open_tag(name), open_tag(name));
        lemma_replace_after(
            seq![c],
            replace_all(r, escaped_open_tag(name), open_tag(name)),
            escaped_close_tag(name),
            close_tag(name),
        );
    }
}

proof fn lemma_names_differ(j: int, k: int)
    requires
        0 <= j < TAG_COUNT,
        0 <= k < TAG_COUNT,
        j != k,
    ensures
        tag_name(j) != tag_name(k),
{
    if tag_name(j) == tag_name(k) {
        assert(tag_name(j).len() == tag_name(k).len());
        assert(tag_name(j)[0] == tag_name(k)[0]);
        assert(tag_name(j).last() == tag_name(k).last());
    }
}

/// The live open (`is_open`) or close tag of the `j`-th name.
pub open spec fn live_tag(j: int, is_open: bool) -> Seq<char> {
    if is_open {
        open_tag(tag_name(j))
    } else {
        close_tag(tag_name(j))
    }
}

/// The escaped open (`is_open`) or close tag of the `j`-th name.
pub open spec fn dead_tag(j: int, is_open: bool) -> Seq<char> {
    if is_open {
        escaped_open_tag(tag_name(j))
    } else {
        escaped_close_tag(tag_name(j))
    }
}

proof fn lemma_dead_tags_distinct(j: int, is_open: bool, k: int, k_open: bool)
    requires
        0 <= j < TAG_COUNT,
        0 <= k < TAG_COUNT,
        j != k || is_open != k_open,
    ensures
        dead_tag(j, is_open) != dead_tag(k, k_open),
{
    let e = dead_tag(j, is_open);
    let p = dead_tag(k, k_open);
    lemma_tag_name_plain(j);
    lemma_tag_name_plain(k);
    if is_open != k_open {
        if is_open {
            assert(p[4] == '/');
        } else {
            assert(e[4] == '/');
        }
    } else {
        lemma_names_differ(j, k);
        let off: int = if is_open {
            4
        } else {
            5
        };
        if e == p {
            assert(e.subrange(off, e.len() - 4) =~= tag_name(j));
            assert(p.subrange(off, p.len() - 4) =~= tag_name(k));
        }
    }
}

proof fn lemma_replace_tag_step(j: int, is_open: bool, head: Seq<char>, r: Seq<char>, k: int)
    requires
        0 <= j < TAG_COUNT,
        0 <= k < TAG_COUNT,
        head == live_tag(j, is_open) || head == dead_tag(j, is_open),
        head == dead_tag(j, is_open) ==> j >= k,
    ensures
        replace_all(
            replace_all(head + r, escaped_open_tag(tag_name(k)), open_tag(tag_name(k))),
            escaped_close_tag(tag_name(k)),
            close_tag(tag_name(k)),
        ) == (if head == live_tag(j, is_open) || j == k {
            live_tag(j, is_open)
        } else {
            head
        }) + replace_all(
            replace_all(r, escaped_open_tag(tag_name(k)), open_tag(tag_name(k))),
            escaped_close_tag(tag_name(k)),
            close_tag(tag_name(k)),
        ),
{
    let kname = tag_name(k);
    let po = escaped_open_tag(kname);
    let pc = escaped_close_tag(kname);
    let m = live_tag(j, is_open);
    let e = dead_tag(j, is_open);
    let ro = replace_all(r, po, open_tag(kname));
    lemma_escaped_tag_shape(j);
    lemma_escaped_tag_shape(k);
    lemma_tag_has_no_amp(j);
    assert(po == dead_tag(k, true));
    assert(pc == dead_tag(k, false));
    if head == m {
        lemma_replace_after(m, r, po, open_tag(kname));
        lemma_replace_after(m, ro, pc, close_tag(kname));
    } else if j == k {
        assert((e + r).take(e.len() as int) =~= e);
        assert((e + r).skip(e.len() as int) =~= r);
        assert((e + ro).take(e.len() as int) =~= e);
        assert((e + ro).skip(e.len() as int) =~= ro);
        if is_open {
            lemma_replace_after(m, ro, pc, close_tag(kname));
        } else {
            lemma_dead_tags_distinct(j, is_open, k, true);
            lemma_replace_other_tag(e, r, po, open_tag(kname));
        }
    } else {
        lemma_dead_tags_distinct(j, is_open, k, true);
        lemma_dead_tags_distinct(j, is_open, k, false);
        lemma_replace_other_tag(e, r, po, open_tag(kname));
        lemma_replace_other_tag(e, ro, pc, close_tag(kname));
    }
}

/// Re-enabling the first `n` names turns an escaped tag of the `j`-th name
/// live when `j < n` and leaves it escaped otherwise, whatever follows it.
proof fn lemma_rearm_tag(j: int, is_open: bool, y: Seq<char>, n: nat)
    requires
        0 <= j < TAG_COUNT,
        n <= TAG_COUNT,
    ensures
        rearm(dead_tag(j, is_open) + y, n) == (if j < n {
            live_tag(j, is_open)
        } else {
            dead_tag(j, is_open)
        }) + rearm(y, n),
    decreases n,
{
    if n > 0 {
        lemma_rearm_tag(j, is_open, y, (n - 1) as nat);
        let head = if j < n - 1 {
            live_tag(j, is_open)
        } else {
            dead_tag(j, is_open)
        };
        lemma_replace_tag_step(j, is_open, head, rearm(y, (n - 1) as nat), n - 1);
    }
}

proof fn lemma_rearm_empty(n: nat)
    requires
        n <= TAG_COUNT,
    ensures
        rearm(Seq::empty(), n) == Seq::<char>::empty(),
    decreases n,
{
    if n > 0 {
        lemma_rearm_empty((n - 1) as nat);
    }
}

proof fn lemma_safe_round_trip(s: Seq<char>)
    requires
        is_safe_text(s),
    ensures
        rearm_all(escape(s)) == s,
    decreases s.len(),
{
    if s.len() == 0 {
        lemma_rearm_empty(TAG_COUNT as nat);
    } else if s[0] == '<' {
        let n = tag_len_from(s, 0) as int;
        lemma_tag_len_sound(s, 0);
        let m = s.take(n);
        let rest = s.skip(n);
        let j = choose|j: int|
            0 <= j < TAG_COUNT && (m == open_tag(tag_name(j)) || m == close_tag(tag_name(j)));
        let is_open = m == open_tag(tag_name(j));
        assert(m == live_tag(j, is_open));
        assert(s =~= m + rest);
        assert(is_safe_text(rest)) by {
            assert forall|i: int| 0 <= i < rest.len() implies rest[i] != '&' && rest[i] != '"'
                && rest[i] != '\'' by {
                assert(rest[i] == s[i + n]);
            }
        }
        lemma_safe_round_trip(rest);
        lemma_escape_concat(m, rest);
        lemma_escape_name(j);
        assert(escape(m) == dead_tag(j, is_open));
        lemma_rearm_tag(j, is_open, escape(rest), TAG_COUNT as nat);
    } else {
        let c = s[0];
        let rest = s.skip(1);
        assert(is_safe_text(rest)) by {
            assert forall|i: int| 0 <= i < rest.len() implies rest[i] != '&' && rest[i] != '"'
                && rest[i] != '\'' by {
                assert(rest[i] == s[i + 1]);
            }
        }
        lemma_safe_round_trip(rest);
        assert(escape(s) == seq![c] + escape(rest));
        lemma_rearm_plain_char(c, escape(rest), TAG_COUNT as nat);
        assert(s =~= seq![c] + rest);
    }
}

/// Text that already needs no escaping, made only of plain characters and
/// whole allowed tags and within the limit, comes out of sanitizing
/// unchanged: escaping and re-enabling its tags undo each other.
pub proof fn law_safe_text_unchanged(s: Seq<char>, max: nat)
    requires
        is_safe_text(s),
        s.len() <= max,
    ensures
        sanitized(s, max) == s,
{
    lemma_safe_round_trip(s);
}

} // verus!
