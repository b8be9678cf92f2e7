//! Request routing of the simulated panel's local web preview: the page
//! at `/` and the current frame at `/screencap.png`.

use vstd::prelude::*;
use vstd::string::StrSliceExecFns;
use crate::text::{has_prefix, is_ws, lemma_trim_start_at, starts_with, str_eq, trim_start, ws};

verus! {

/// What a request asks for.
#[derive(Debug, Clone, Copy, PartialEq, Eq, Structural)]
pub enum PreviewRoute {
    /// The page that shows the frame and reloads it.
    Index,
    /// The frame as a PNG.
    Screencap,
    /// Anything else.
    NotFound,
}

/// Leading run of non-whitespace characters of `s`.
pub open spec fn take_word(s: Seq<char>) -> Seq<char>
    decreases s.len(),
{
    if s.len() == 0 || is_ws(s[0]) {
        Seq::empty()
    } else {
        seq![s[0]] + take_word(s.drop_first())
    }
}

/// Path of a request: its second whitespace-separated word, `/` when it
/// has none.
pub open spec fn request_path(head: Seq<char>) -> Seq<char> {
    let rest = trim_start(head);
    let after = rest.subrange(take_word(rest).len() as int, rest.len() as int);
    let p = take_word(trim_start(after));
    if p.len() == 0 { "/"@ } else { p }
}

/// Route of a request head.
pub open spec fn route_spec(head: Seq<char>) -> PreviewRoute {
    let p = request_path(head);
    if p == "/"@ {
        PreviewRoute::Index
    } else if has_prefix(p, "/screencap.png"@) {
        PreviewRoute::Screencap
    } else {
        PreviewRoute::NotFound
    }
}

proof fn lemma_take_word_at(s: Seq<char>, j: int)
    requires
        0 <= j <= s.len(),
        forall|k: int| 0 <= k < j ==> !is_ws(#[trigger] s[k]),
        j < s.len() ==> is_ws(s[j]),
    ensures
        take_word(s) == s.subrange(0, j),
    decreases j,
{
    if j == 0 {
        assert(s.subrange(0, 0) =~= Seq::<char>::empty());
    } else {
        let t = s.drop_first();
        assert forall|k: int| 0 <= k < j - 1 implies !is_ws(#[trigger] t[k]) by {
            assert(t[k] == s[k + 1]);
        }
        if j - 1 < t.len() {
            assert(t[j - 1] == s[j]);
        }
        lemma_take_word_at(t, j - 1);
        assert(!is_ws(s[0]));
        assert(seq![s[0]] + t.subrange(0, j - 1) =~= s.subrange(0, j));
    }
}

/// First index at or after `i` that is not whitespace.
fn skip_spaces(s: &str, i: usize) -> (j: usize)
    requires
        i <= s@.len(),
    ensures
        i <= j <= s@.len(),
        s@.subrange(j as int, s@.len() as int) == trim_start(s@.subrange(i as int, s@.len() as int)),
{
    let n = s.unicode_len();
    let mut j = i;
    while j < n && ws(s.get_char(j))
        invariant
            i <= j <= n,
            n == s@.len(),
            forall|k: int| i <= k < j ==> is_ws(#[trigger] s@[k]),
        decreases n - j,
    {
        j = j + 1;
    }
    proof {
        let t = s@.subrange(i as int, n as int);
        assert forall|k: int| 0 <= k < j - i implies is_ws(#[trigger] t[k]) by {
            assert(t[k] == s@[i + k]);
        }
        if j < n {
            assert(t[j - i] == s@[j as int]);
        }
        lemma_trim_start_at(t, j - i);
        assert(t.subrange(j - i, t.len() as int) =~= s@.subrange(j as int, n as int));
    }
    j
}

/// End of the word that starts at `i`.
fn word_end(s: &str, i: usize) -> (j: usize)
    requires
        i <= s@.len(),
    ensures
        i <= j <= s@.len(),
        s@.subrange(i as int, j as int) == take_word(s@.subrange(i as int, s@.len() as int)),
{
    let n = s.unicode_len();
    let mut j = i;
    while j < n && !ws(s.get_char(j))
        invariant
            i <= j <= n,
            n == s@.len(),
            forall|k: int| i <= k < j ==> !is_ws(#[trigger] s@[k]),
        decreases n - j,
    {
        j = j + 1;
    }
    proof {
        let t = s@.subrange(i as int, n as int);
        assert forall|k: int| 0 <= k < j - i implies !is_ws(#[trigger] t[k]) by {
            assert(t[k] == s@[i + k]);
        }
        if j < n {
            assert(t[j - i] == s@[j as int]);
        }
        lemma_take_word_at(t, j - i);
        assert(t.subrange(0, j - i) =~= s@.subrange(i as int, j as int));
    }
    j
}

/// Route of a request from its head (request line and headers).
pub fn preview_route(head: &str) -> (r: PreviewRoute)
    ensures
        r == route_spec(head@),
{
    let n = head.unicode_len();
    let a = skip_spaces(head, 0);
    let b = word_end(head, a);
    let c = skip_spaces(head, b);
    let d = word_end(head, c);
    proof {
        let s = head@;
        assert(s.subrange(0, n as int) =~= s);
        let rest = trim_start(s);
        assert(rest == s.subrange(a as int, n as int));
        assert(take_word(rest) == s.subrange(a as int, b as int));
        let after = rest.subrange(take_word(rest).len() as int, rest.len() as int);
        assert(after =~= s.subrange(b as int, n as int));
        assert(trim_start(after) == s.subrange(c as int, n as int));
        assert(take_word(trim_start(after)) == s.subrange(c as int, d as int));
    }
    if d == c {
        proof {
            reveal_strlit("/");
        }
        return PreviewRoute::Index;
    }
    let p = head.substring_char(c, d);
    if str_eq(p, "/") {
        PreviewRoute::Index
    } else if starts_with(p, "/screencap.png") {
        PreviewRoute::Screencap
    } else {
        PreviewRoute::NotFound
    }
}

} // verus!
