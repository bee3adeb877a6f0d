//! Reading the summary of `ping`: the text of the packet loss and of the
//! average round trip. The numbers themselves are floating point and are
//! read by the caller from the texts found here.
use crate::lists::{
    is_white_space, is_white_space_char, lemma_trim_start, lines_of, split_lines, trim, trim_start_of, trimmed,
};
use crate::text::strs;
use vstd::prelude::*;

verus! {

/// The first position from `k` on where `t` occurs in `s`.
pub open spec fn find_from(s: Seq<char>, t: Seq<char>, k: int) -> Option<int>
    decreases s.len() + 1 - k,
{
    if k < 0 || k + t.len() > s.len() {
        None
    } else if s.subrange(k, k + t.len()) == t {
        Some(k)
    } else {
        find_from(s, t, k + 1)
    }
}

/// The first position where `t` occurs in `s`.
pub open spec fn find_sub(s: Seq<char>, t: Seq<char>) -> Option<int> {
    find_from(s, t, 0)
}

/// The last position of a character in `s` before `k`.
pub open spec fn last_index_before(s: Seq<char>, c: char, k: int) -> Option<int>
    decreases k,
{
    if k <= 0 || k > s.len() {
        None
    } else if s[k - 1] == c {
        Some(k - 1)
    } else {
        last_index_before(s, c, k - 1)
    }
}

/// The characters of a text up to its first white space.
pub open spec fn word_of(t: Seq<char>) -> Seq<char>
    decreases t.len(),
{
    if t.len() == 0 || is_white_space(t[0]) {
        Seq::empty()
    } else {
        seq![t[0]] + word_of(t.drop_first())
    }
}

/// The first white-space-separated word of a text, as
/// `str::split_whitespace` yields it first: the text after its leading white
/// space, up to the next white space; none when only white space is left.
pub open spec fn first_word_of(s: Seq<char>) -> Option<Seq<char>> {
    if trim_start_of(s).len() == 0 {
        None
    } else {
        Some(word_of(trim_start_of(s)))
    }
}

/// A word runs up to the first white space.
proof fn lemma_word_of(t: Seq<char>, j: int)
    requires
        0 <= j <= t.len(),
        forall|k: int| 0 <= k < j ==> !is_white_space(#[trigger] t[k]),
        j == t.len() || is_white_space(t[j]),
    ensures
        word_of(t) == t.subrange(0, j),
    decreases j,
{
    if j > 0 {
        let u = t.drop_first();
        assert forall|k: int| 0 <= k < j - 1 implies !is_white_space(#[trigger] u[k]) by {
            assert(u[k] == t[k + 1]);
        }
        if j < t.len() {
            assert(u[j - 1] == t[j]);
        }
        lemma_word_of(u, j - 1);
        assert(seq![t[0]] + u.subrange(0, j - 1) =~= t.subrange(0, j));
    } else {
        assert(t.subrange(0, 0) =~= Seq::<char>::empty());
    }
}

/// `str::split_whitespace`, first item: the first word of a text.
fn first_word(s: &str) -> (r: Option<&str>)
    ensures
        match r {
            Some(w) => first_word_of(s@) == Some(w@),
            None => first_word_of(s@) is None,
        },
{
    let n = s.unicode_len();
    let mut i: usize = 0;
    while i < n && is_white_space_char(s.get_char(i))
        invariant
            i <= n,
            n == s@.len(),
            forall|j: int| 0 <= j < i ==> is_white_space(#[trigger] s@[j]),
        decreases n - i,
    {
        i = i + 1;
    }
    proof {
        lemma_trim_start(s@, i as int);
    }
    if i == n {
        return None;
    }
    let mut j: usize = i;
    while j < n && !is_white_space_char(s.get_char(j))
        invariant
            i <= j <= n,
            n == s@.len(),
            forall|k: int| i <= k < j ==> !is_white_space(#[trigger] s@[k]),
        decreases n - j,
    {
        j = j + 1;
    }
    proof {
        let t = s@.subrange(i as int, n as int);
        assert forall|k: int| 0 <= k < j - i implies !is_white_space(#[trigger] t[k]) by {
            assert(t[k] == s@[k + i]);
        }
        if j < n {
            assert(t[j - i] == s@[j as int]);
        }
        lemma_word_of(t, j - i);
        assert(t.subrange(0, j - i) =~= s@.subrange(i as int, j as int));
    }
    Some(s.substring_char(i, j))
}

/// The second field of a text split at slashes.
pub open spec fn second_field(w: Seq<char>) -> Option<Seq<char>> {
    match find_sub(w, seq!['/']) {
        None => None,
        Some(a) => {
            let rest = w.subrange(a + 1, w.len() as int);
            match find_sub(rest, seq!['/']) {
                None => Some(rest),
                Some(b) => Some(rest.subrange(0, b)),
            }
        },
    }
}

/// The packet loss text of a summary line: the trimmed text between the
/// last comma and `% packet loss`.
pub open spec fn loss_text_of(line: Seq<char>) -> Option<Seq<char>> {
    match find_sub(line, "% packet loss"@) {
        None => None,
        Some(p) => match last_index_before(line, ',', p) {
            None => None,
            Some(q) => Some(trimmed(line.subrange(q + 1, p))),
        },
    }
}

/// The average round trip text of a statistics line (one that mentions
/// `min/avg/max` or `round-trip`): the second slash-separated field of the
/// first word after the `=`.
pub open spec fn latency_text_of(line: Seq<char>) -> Option<Seq<char>> {
    if find_sub(line, "min/avg/max"@) is None && find_sub(line, "round-trip"@) is None {
        None
    } else {
        match find_sub(line, seq!['=']) {
            None => None,
            Some(e) => match first_word_of(trimmed(line.subrange(e + 1, line.len() as int))) {
                None => None,
                Some(w) => second_field(w),
            },
        }
    }
}

/// Where `t` first occurs in `s` (see [`find_sub`]).
pub fn find_str(s: &str, t: &str) -> (r: Option<usize>)
    ensures
        match r {
            Some(i) => find_sub(s@, t@) == Some(i as int) && i + t@.len() <= s@.len(),
            None => find_sub(s@, t@) is None,
        },
{
    let n = s.unicode_len();
    let m = t.unicode_len();
    if m == 0 {
        assert(s@.subrange(0, 0) =~= t@);
        return Some(0);
    }
    if m > n {
        return None;
    }
    let mut k: usize = 0;
    while k <= n - m
        invariant
            n == s@.len(),
            m == t@.len(),
            1 <= m <= n,
            k <= n - m + 1,
            find_sub(s@, t@) == find_from(s@, t@, k as int),
        decreases n - m + 1 - k,
    {
        if crate::text::str_eq(s.substring_char(k, k + m), t) {
            return Some(k);
        }
        k = k + 1;
    }
    None
}

/// The last position of a character before `k`.
fn last_index(s: &str, c: char, k: usize) -> (r: Option<usize>)
    requires
        k <= s@.len(),
    ensures
        match r {
            Some(i) => last_index_before(s@, c, k as int) == Some(i as int) && i < k,
            None => last_index_before(s@, c, k as int) is None,
        },
{
    let mut j: usize = k;
    while j > 0
        invariant
            j <= k,
            k <= s@.len(),
            last_index_before(s@, c, k as int) == last_index_before(s@, c, j as int),
        decreases j,
    {
        if s.get_char(j - 1) == c {
            return Some(j - 1);
        }
        j = j - 1;
    }
    None
}

/// The packet loss text of a line (see [`loss_text_of`]).
pub fn loss_text(line: &str) -> (r: Option<String>)
    ensures
        crate::text::opt_str(r) == loss_text_of(line@),
{
    proof {
        reveal_strlit("% packet loss");
    }
    let p = match find_str(line, "% packet loss") {
        Some(p) => p,
        None => return None,
    };
    let q = match last_index(line, ',', p) {
        Some(q) => q,
        None => return None,
    };
    Some(String::from_str(trim(line.substring_char(q + 1, p))))
}

proof fn lemma_last_index_before(s: Seq<char>, c: char, k: int)
    ensures
        match last_index_before(s, c, k) {
            Some(i) => 0 <= i < k,
            None => true,
        },
    decreases k,
{
    if 0 < k <= s.len() && s[k - 1] != c {
        lemma_last_index_before(s, c, k - 1);
    }
}

proof fn lemma_find_from(s: Seq<char>, t: Seq<char>, k: int)
    ensures
        match find_from(s, t, k) {
            Some(i) => k <= i && i + t.len() <= s.len(),
            None => true,
        },
    decreases s.len() + 1 - k,
{
    if 0 <= k && k + t.len() <= s.len() && s.subrange(k, k + t.len()) != t {
        if t.len() == 0 {
            assert(s.subrange(k, k) =~= t);
        }
        lemma_find_from(s, t, k + 1);
    }
}

/// The second slash-separated field of a word (see [`second_field`]).
fn second_field_of(w: &str) -> (r: Option<String>)
    ensures
        crate::text::opt_str(r) == second_field(w@),
{
    let a = match find_str(w, "/") {
        Some(a) => a,
        None => {
            proof {
                reveal_strlit("/");
                assert("/"@ =~= seq!['/']);
            }
            return None;
        },
    };
    proof {
        reveal_strlit("/");
        assert("/"@ =~= seq!['/']);
        lemma_find_from(w@, seq!['/'], 0);
    }
    let n = w.unicode_len();
    let rest = w.substring_char(a + 1, n);
    match find_str(rest, "/") {
        None => Some(String::from_str(rest)),
        Some(b) => {
            proof {
                lemma_find_from(rest@, seq!['/'], 0);
            }
            Some(String::from_str(rest.substring_char(0, b)))
        },
    }
}

/// The average round trip text of a line (see [`latency_text_of`]).
pub fn latency_text(line: &str) -> (r: Option<String>)
    ensures
        crate::text::opt_str(r) == latency_text_of(line@),
{
    proof {
        reveal_strlit("min/avg/max");
        reveal_strlit("round-trip");
        reveal_strlit("=");
        assert("="@ =~= seq!['=']);
    }
    if find_str(line, "min/avg/max").is_none() && find_str(line, "round-trip").is_none() {
        return None;
    }
    let e = match find_str(line, "=") {
        Some(e) => e,
        None => return None,
    };
    proof {
        lemma_find_from(line@, seq!['='], 0);
    }
    let n = line.unicode_len();
    let after = trim(line.substring_char(e + 1, n));
    match first_word(after) {
        None => None,
        Some(w) => second_field_of(w),
    }
}

/// The loss and latency texts of every line of a ping output, in order.
pub open spec fn ping_texts_of(output: Seq<char>) -> (Seq<Seq<char>>, Seq<Seq<char>>) {
    (
        lines_of(output).filter(|l: Seq<char>| loss_text_of(l) is Some).map_values(
            |l: Seq<char>| loss_text_of(l)->0,
        ),
        lines_of(output).filter(|l: Seq<char>| latency_text_of(l) is Some).map_values(
            |l: Seq<char>| latency_text_of(l)->0,
        ),
    )
}

/// The candidate packet loss texts and average round trip texts of a ping
/// output, each in line order; the first that reads as a number counts.
pub fn ping_texts(output: &str) -> (r: (Vec<String>, Vec<String>))
    ensures
        (strs(r.0@), strs(r.1@)) == ping_texts_of(output@),
{
    let lines = split_lines(output);
    let ghost ls = lines_of(output@);
    let ghost pl = |l: Seq<char>| loss_text_of(l) is Some;
    let ghost fl = |l: Seq<char>| loss_text_of(l)->0;
    let ghost pt = |l: Seq<char>| latency_text_of(l) is Some;
    let ghost ft = |l: Seq<char>| latency_text_of(l)->0;
    let mut loss: Vec<String> = Vec::new();
    let mut lat: Vec<String> = Vec::new();
    let mut k: usize = 0;
    while k < lines.len()
        invariant
            k <= lines.len(),
            ls == strs(lines@),
            pl == (|l: Seq<char>| loss_text_of(l) is Some),
            fl == (|l: Seq<char>| loss_text_of(l)->0),
            pt == (|l: Seq<char>| latency_text_of(l) is Some),
            ft == (|l: Seq<char>| latency_text_of(l)->0),
            strs(loss@) == ls.take(k as int).filter(pl).map_values(fl),
            strs(lat@) == ls.take(k as int).filter(pt).map_values(ft),
        decreases lines.len() - k,
    {
        let line = lines[k].as_str();
        proof {
            assert(ls[k as int] == line@);
            assert(ls.take(k + 1) =~= ls.take(k as int).push(line@));
            ls.take(k as int).lemma_filter_push(line@, pl);
            ls.take(k as int).lemma_filter_push(line@, pt);
        }
        let ghost l0 = loss@;
        let ghost t0 = lat@;
        match loss_text(line) {
            Some(v) => {
                loss.push(v);
                assert(strs(loss@) =~= strs(l0).push(fl(line@)));
            },
            None => {},
        }
        match latency_text(line) {
            Some(v) => {
                lat.push(v);
                assert(strs(lat@) =~= strs(t0).push(ft(line@)));
            },
            None => {},
        }
        k = k + 1;
    }
    assert(ls.take(lines.len() as int) =~= ls);
    (loss, lat)
}

/// Whether the error output of `ping` says that the host cannot be reached
/// through the interface.
pub open spec fn says_unreachable(stderr: Seq<char>) -> bool {
    find_sub(stderr, "Network is unreachable"@) is Some || find_sub(stderr, "No route to host"@)
        is Some || find_sub(stderr, "Address family not supported by protocol"@) is Some
}

/// Whether the error output of `ping` says that the host cannot be reached.
pub fn is_unreachable(stderr: &str) -> (r: bool)
    ensures
        r == says_unreachable(stderr@),
{
    find_str(stderr, "Network is unreachable").is_some() || find_str(stderr, "No route to host").is_some()
        || find_str(stderr, "Address family not supported by protocol").is_some()
}

} // verus!
