//! Downloaded lists: which lines of a download become entries, when a list
//! is due for an update, and how the stored subnets and domains are merged
//! with the first occurrence of each winning.
use crate::domains::{DomainRule, IpRule};
use crate::policy::PolicyId;
use crate::sync::StoredSubnet;
use crate::text::{copy_opt_string, strs};
use crate::domains::trim_trailing_dots;
use std::collections::HashMap;
use vstd::prelude::*;
use vstd::std_specs::iter::IteratorSpec;

verus! {

/// Whether a character has the Unicode `White_Space` property, the test of
/// `char::is_whitespace` that `str::trim` and `str::split_whitespace` use.
pub open spec fn is_white_space(c: char) -> bool {
    ('\u{9}' <= c <= '\u{d}') || c == ' ' || c == '\u{85}' || c == '\u{a0}' || c == '\u{1680}'
        || ('\u{2000}' <= c <= '\u{200a}') || c == '\u{2028}' || c == '\u{2029}' || c == '\u{202f}'
        || c == '\u{205f}' || c == '\u{3000}'
}

/// Whether a character has the Unicode `White_Space` property.
pub fn is_white_space_char(c: char) -> (r: bool)
    ensures
        r == is_white_space(c),
{
    ('\u{9}' <= c && c <= '\u{d}') || c == ' ' || c == '\u{85}' || c == '\u{a0}' || c == '\u{1680}'
        || ('\u{2000}' <= c && c <= '\u{200a}') || c == '\u{2028}' || c == '\u{2029}' || c
        == '\u{202f}' || c == '\u{205f}' || c == '\u{3000}'
}

/// A text without its leading white space.
pub open spec fn trim_start_of(s: Seq<char>) -> Seq<char>
    decreases s.len(),
{
    if s.len() > 0 && is_white_space(s[0]) {
        trim_start_of(s.drop_first())
    } else {
        s
    }
}

/// A text without its trailing white space.
pub open spec fn trim_end_of(s: Seq<char>) -> Seq<char>
    decreases s.len(),
{
    if s.len() > 0 && is_white_space(s.last()) {
        trim_end_of(s.drop_last())
    } else {
        s
    }
}

/// The text that `str::trim` leaves of a line: the line without leading and
/// trailing white space.
pub open spec fn trimmed(s: Seq<char>) -> Seq<char> {
    trim_end_of(trim_start_of(s))
}

/// Skipping leading white space up to the first other character.
pub proof fn lemma_trim_start(s: Seq<char>, i: int)
    requires
        0 <= i <= s.len(),
        forall|j: int| 0 <= j < i ==> is_white_space(#[trigger] s[j]),
        i == s.len() || !is_white_space(s[i]),
    ensures
        trim_start_of(s) == s.subrange(i, s.len() as int),
    decreases i,
{
    if i > 0 {
        let t = s.drop_first();
        assert forall|j: int| 0 <= j < i - 1 implies is_white_space(#[trigger] t[j]) by {
            assert(t[j] == s[j + 1]);
        }
        if i < s.len() {
            assert(t[i - 1] == s[i]);
        }
        lemma_trim_start(t, i - 1);
        assert(t.subrange(i - 1, t.len() as int) =~= s.subrange(i, s.len() as int));
    } else {
        assert(s.subrange(0, s.len() as int) =~= s);
    }
}

/// Dropping trailing white space back to the last other character.
proof fn lemma_trim_end(s: Seq<char>, j: int)
    requires
        0 <= j <= s.len(),
        forall|k: int| j <= k < s.len() ==> is_white_space(#[trigger] s[k]),
        j == 0 || !is_white_space(s[j - 1]),
    ensures
        trim_end_of(s) == s.subrange(0, j),
    decreases s.len() - j,
{
    if j < s.len() {
        let t = s.drop_last();
        assert(is_white_space(s[s.len() - 1]));
        assert forall|k: int| j <= k < t.len() implies is_white_space(#[trigger] t[k]) by {
            assert(t[k] == s[k]);
        }
        if j > 0 {
            assert(t[j - 1] == s[j - 1]);
        }
        lemma_trim_end(t, j);
        assert(t.subrange(0, j) =~= s.subrange(0, j));
    } else {
        assert(s.subrange(0, j) =~= s);
    }
}

/// `str::trim`: the line without leading and trailing white space.
pub(crate) fn trim(s: &str) -> (r: &str)
    ensures
        r@ == trimmed(s@),
{
    let n = s.unicode_len();
    let mut i: usize = 0;
    while i < n && is_white_space_char(s.get_char(i))
        invariant
            i <= n,
            n == s@.len(),
            forall|j: int| 0 <= j < i ==> is_white_space(#[trigger] s@[j]),
        decreases n - i,
    {
        i = i + 1;
    }
    let mut j: usize = n;
    while j > i && is_white_space_char(s.get_char(j - 1))
        invariant
            i <= j <= n,
            n == s@.len(),
            forall|k: int| j <= k < n ==> is_white_space(#[trigger] s@[k]),
        decreases j - i,
    {
        j = j - 1;
    }
    proof {
        lemma_trim_start(s@, i as int);
        let t = s@.subrange(i as int, n as int);
        assert forall|k: int| j - i <= k < t.len() implies is_white_space(#[trigger] t[k]) by {
            assert(t[k] == s@[k + i]);
        }
        if j > i {
            assert(t[j - i - 1] == s@[j - 1]);
        }
        lemma_trim_end(t, j - i);
        assert(t.subrange(0, j - i) =~= s@.subrange(i as int, j as int));
    }
    s.substring_char(i, j)
}

/// A line without the carriage return of a `\r\n` ending.
pub open spec fn strip_cr(l: Seq<char>) -> Seq<char> {
    if l.len() > 0 && l.last() == '\r' {
        l.drop_last()
    } else {
        l
    }
}

/// The lines of `cur + rest`, where `cur` holds no line feed: each line
/// ends at a line feed, which is dropped together with a carriage return
/// just before it; a last line without a line feed is kept as it is, and an
/// empty text after the last line feed is no line.
pub open spec fn lines_from(cur: Seq<char>, rest: Seq<char>) -> Seq<Seq<char>>
    decreases rest.len(),
{
    if rest.len() == 0 {
        if cur.len() == 0 {
            Seq::empty()
        } else {
            seq![cur]
        }
    } else if rest[0] == '\n' {
        seq![strip_cr(cur)] + lines_from(Seq::empty(), rest.drop_first())
    } else {
        lines_from(cur.push(rest[0]), rest.drop_first())
    }
}

/// The lines that `str::lines` splits a text into: split at each `\n` or
/// `\r\n`, with an optional final line ending.
pub open spec fn lines_of(s: Seq<char>) -> Seq<Seq<char>> {
    lines_from(Seq::empty(), s)
}

/// A line without the carriage return of a `\r\n` ending, as a string.
fn strip_cr_string(l: &String) -> (r: String)
    ensures
        r@ == strip_cr(l@),
{
    let n = l.as_str().unicode_len();
    if n > 0 && l.as_str().get_char(n - 1) == '\r' {
        String::from_str(l.as_str().substring_char(0, n - 1))
    } else {
        l.clone()
    }
}

/// `str::lines`: the lines of a text, each as a string.
pub(crate) fn split_lines(s: &str) -> (r: Vec<String>)
    ensures
        strs(r@) == lines_of(s@),
{
    broadcast use vstd::string::axiom_spec_iter, vstd::string::next_postcondition;

    let mut it = s.chars();
    let mut out: Vec<String> = Vec::new();
    let mut cur = String::new();
    loop
        invariant_except_break
            strs(out@) + lines_from(cur@, it.remaining()) == lines_of(s@),
            it.decrease() is Some,
        ensures
            strs(out@) + lines_from(cur@, Seq::empty()) == lines_of(s@),
        decreases it.decrease()->0,
    {
        let ghost rest = it.remaining();
        let ghost prev_cur = cur@;
        let ghost before = strs(out@);
        match it.next() {
            Some(c) => {
                assert(rest.len() > 0 && c == rest[0] && it.remaining() == rest.drop_first());
                if c == '\n' {
                    let line = strip_cr_string(&cur);
                    out.push(line);
                    cur = String::new();
                    assert(strs(out@) =~= before.push(strip_cr(prev_cur)));
                    assert(lines_from(prev_cur, rest) == seq![strip_cr(prev_cur)] + lines_from(
                        Seq::empty(),
                        rest.drop_first(),
                    ));
                    assert(cur@ =~= Seq::<char>::empty());
                    assert(before.push(strip_cr(prev_cur)) + lines_from(cur@, it.remaining()) =~= before + (
                    seq![strip_cr(prev_cur)] + lines_from(Seq::empty(), rest.drop_first())));
                } else {
                    crate::policy::push_char(&mut cur, c);
                    assert(lines_from(prev_cur, rest) == lines_from(prev_cur.push(c), rest.drop_first()));
                }
            },
            None => {
                assert(rest.len() == 0);
                break;
            },
        }
    }
    if cur.as_str().unicode_len() > 0 {
        let ghost before = strs(out@);
        let ghost last = cur@;
        out.push(cur);
        assert(strs(out@) =~= before.push(last));
        assert(before.push(last) =~= before + seq![last]);
    } else {
        assert(strs(out@) + lines_from(cur@, Seq::empty()) =~= strs(out@));
    }
    out
}

/// What a list holds: domains or subnets.
#[derive(Debug, Clone, Copy, PartialEq, Eq, Structural)]
pub enum ListKind {
    Domain,
    Ip,
}

/// The entry a line of a download stands for: the trimmed line, without
/// trailing dots for domains.
pub open spec fn processed_line(kind: ListKind, line: Seq<char>) -> Seq<char> {
    match kind {
        ListKind::Domain => trim_trailing_dots(trimmed(line)),
        ListKind::Ip => trimmed(line),
    }
}

/// Whether an entry is kept: it is neither empty nor a comment.
pub open spec fn keeps_entry(e: Seq<char>) -> bool {
    e.len() > 0 && e[0] != '#'
}

/// The entries of a download: each line processed, empty lines and comments
/// left out, in order.
pub open spec fn list_entries_of(kind: ListKind, text: Seq<char>) -> Seq<Seq<char>> {
    lines_of(text).map_values(|l: Seq<char>| processed_line(kind, l)).filter(
        |e: Seq<char>| keeps_entry(e),
    )
}

/// The entry a line of a download stands for (see [`processed_line`]).
pub fn process_line(kind: ListKind, line: &str) -> (r: String)
    ensures
        r@ == processed_line(kind, line@),
{
    let t = trim(line);
    match kind {
        ListKind::Domain => String::from_str(crate::domains::trim_dots(t)),
        ListKind::Ip => String::from_str(t),
    }
}

/// The entries of a download (see [`list_entries_of`]).
pub fn list_entries(kind: ListKind, text: &str) -> (r: Vec<String>)
    ensures
        strs(r@) == list_entries_of(kind, text@),
{
    let lines = split_lines(text);
    let ghost ls = strs(lines@);
    let ghost f = |l: Seq<char>| processed_line(kind, l);
    let ghost keep = |e: Seq<char>| keeps_entry(e);
    let mut r: Vec<String> = Vec::new();
    let mut k: usize = 0;
    while k < lines.len()
        invariant
            k <= lines.len(),
            ls == strs(lines@),
            ls == lines_of(text@),
            f == (|l: Seq<char>| processed_line(kind, l)),
            keep == (|e: Seq<char>| keeps_entry(e)),
            strs(r@) == ls.take(k as int).map_values(f).filter(keep),
        decreases lines.len() - k,
    {
        let e = process_line(kind, lines[k].as_str());
        proof {
            assert(ls[k as int] == lines@[k as int]@);
            assert(ls.take(k + 1).map_values(f) =~= ls.take(k as int).map_values(f).push(e@));
            ls.take(k as int).map_values(f).lemma_filter_push(e@, keep);
        }
        let n = e.as_str().unicode_len();
        if n > 0 && e.as_str().get_char(0) != '#' {
            let ghost prev = r@;
            r.push(e);
            assert(strs(r@) =~= strs(prev).push(e@));
        }
        k = k + 1;
    }
    assert(ls.take(lines.len() as int) =~= ls);
    r
}

/// Whether a list's address is a geosite or geoip category, which is not
/// downloaded.
pub open spec fn is_virtual_geo_url_of(url: Seq<char>) -> bool {
    crate::nft::starts_with(url, "geosite://"@) || crate::nft::starts_with(url, "geoip://"@)
}

/// Whether a list's address is a geosite or geoip category.
pub fn is_virtual_geo_url(url: &str) -> (r: bool)
    ensures
        r == is_virtual_geo_url_of(url@),
{
    proof {
        reveal_strlit("geosite://");
        reveal_strlit("geoip://");
    }
    let n = url.unicode_len();
    (n >= 10 && crate::text::str_eq(url.substring_char(0, 10), "geosite://")) || (n >= 8
        && crate::text::str_eq(url.substring_char(0, 8), "geoip://"))
}

/// Whole seconds in a span of milliseconds, rounded toward zero.
pub open spec fn whole_seconds(ms: int) -> int {
    if ms >= 0 {
        ms / 1000
    } else {
        -((-ms) / 1000)
    }
}

/// Whether a list is due for an update at `now_ms`: it never was updated, or
/// the whole seconds since its last update reach its interval.
pub open spec fn is_due(last_updated_ms: Option<i64>, interval_seconds: i64, now_ms: i64) -> bool {
    match last_updated_ms {
        None => true,
        Some(last) => whole_seconds(now_ms - last) >= interval_seconds,
    }
}

/// Whether a list is due for an update at `now_ms` (see [`is_due`]).
pub fn should_update(last_updated_ms: Option<i64>, interval_seconds: i64, now_ms: i64) -> (r: bool)
    ensures
        r == is_due(last_updated_ms, interval_seconds, now_ms),
{
    match last_updated_ms {
        None => true,
        Some(last) => {
            let d: i128 = now_ms as i128 - last as i128;
            let secs: i128 = if d >= 0 {
                d / 1000
            } else {
                -((-d) / 1000)
            };
            secs >= interval_seconds as i128
        },
    }
}

/// The list priorities that an ordering of list ids assigns: the first id
/// gets zero, and each next one less by one, so that the lists' default
/// priority of zero stays lowest.
pub open spec fn reordered_priorities_of(ids: Seq<i64>) -> Seq<(i64, i64)> {
    Seq::new(ids.len(), |i: int| (ids[i], (-i) as i64))
}

/// The priority of each list id for an ordering of the lists, first highest.
pub fn reordered_priorities(ids: &Vec<i64>) -> (r: Vec<(i64, i64)>)
    requires
        ids.len() <= i64::MAX,
    ensures
        r@ == reordered_priorities_of(ids@),
{
    let n = ids.len();
    let mut r: Vec<(i64, i64)> = Vec::new();
    let mut k: usize = 0;
    while k < n
        invariant
            k <= n,
            n == ids.len(),
            n <= i64::MAX,
            r@ =~= reordered_priorities_of(ids@).take(k as int),
        decreases n - k,
    {
        let p: i64 = -(k as i64);
        r.push((ids[k], p));
        k = k + 1;
    }
    assert(reordered_priorities_of(ids@).take(n as int) =~= reordered_priorities_of(ids@));
    r
}

/// The modulus of the bucket hash of names, the prime 2^61 - 1.
pub const HASH_MODULUS: u64 = 0x1fff_ffff_ffff_ffff;

/// The bucket hash of a name: a polynomial in its characters.
pub open spec fn name_hash(s: Seq<char>) -> u64
    decreases s.len(),
{
    if s.len() == 0 {
        0
    } else {
        ((name_hash(s.drop_last()) as int * 131 + (s.last() as u32) as int) % (HASH_MODULUS as int)) as u64
    }
}

/// The bucket hash of a name.
fn hash_name(s: &str) -> (h: u64)
    ensures
        h == name_hash(s@),
{
    let n = s.unicode_len();
    let mut h: u64 = 0;
    let mut k: usize = 0;
    while k < n
        invariant
            k <= n,
            n == s@.len(),
            h == name_hash(s@.take(k as int)),
            h < HASH_MODULUS,
        decreases n - k,
    {
        let c = s.get_char(k);
        proof {
            assert(s@.take(k + 1).drop_last() =~= s@.take(k as int));
            assert(s@.take(k + 1).last() == c);
        }
        let v: u128 = (h as u128) * 131 + (c as u32) as u128;
        h = (v % (HASH_MODULUS as u128)) as u64;
        k = k + 1;
    }
    assert(s@.take(n as int) =~= s@);
    h
}

/// Whether position `i` holds the first occurrence of its name.
pub open spec fn is_first(names: Seq<Seq<char>>, i: int) -> bool {
    forall|j: int| 0 <= j < i ==> names[j] != names[i]
}

/// Positions of names that are first occurrences, with buckets by hash.
struct SeenNames {
    buckets: HashMap<u64, Vec<String>>,
}

impl SeenNames {
    spec fn holds(&self, names: Set<Seq<char>>) -> bool {
        &&& forall|n: Seq<char>| #[trigger] names.contains(n) ==> self.buckets@.contains_key(
            name_hash(n),
        ) && strs(self.buckets@[name_hash(n)]@).contains(n)
        &&& forall|h: u64, i: int|
            #![trigger self.buckets@[h]@[i]]
            self.buckets@.contains_key(h) && 0 <= i < self.buckets@[h]@.len() ==> names.contains(
                self.buckets@[h]@[i]@,
            )
    }

    fn new() -> (r: Self)
        ensures
            r.holds(Set::empty()),
    {
        SeenNames { buckets: HashMap::new() }
    }

    /// Records a name; whether it had not been seen before.
    fn insert(&mut self, name: &String, Ghost(names): Ghost<Set<Seq<char>>>) -> (fresh: bool)
        requires
            old(self).holds(names),
        ensures
            final(self).holds(names.insert(name@)),
            fresh == !names.contains(name@),
    {
        broadcast use vstd::std_specs::hash::group_hash_axioms;

        let h = hash_name(name.as_str());
        let mut bucket: Vec<String> = match self.buckets.get(&h) {
            Some(b) => crate::text::copy_strings(b),
            None => Vec::new(),
        };
        let ghost old_bucket = bucket@;
        let mut k: usize = 0;
        while k < bucket.len()
            invariant
                k <= bucket.len(),
                bucket@ == old_bucket,
                self.holds(names),
                h == name_hash(name@),
                self.buckets@.contains_key(h) ==> bucket@ == self.buckets@[h]@,
                !self.buckets@.contains_key(h) ==> bucket@.len() == 0,
                forall|j: int| 0 <= j < k ==> bucket@[j]@ != name@,
            decreases bucket.len() - k,
        {
            if bucket[k] == *name {
                proof {
                    assert(self.buckets@.contains_key(h));
                    assert(names.contains(self.buckets@[h]@[k as int]@));
                    assert(names.insert(name@) =~= names);
                }
                return false;
            }
            k = k + 1;
        }
        proof {
            if names.contains(name@) {
                assert(strs(self.buckets@[h]@).contains(name@));
                let j = choose|j: int| 0 <= j < strs(self.buckets@[h]@).len() && strs(self.buckets@[h]@)[j] == name@;
                assert(bucket@[j]@ == name@);
            }
        }
        bucket.push(name.clone());
        let ghost nb = bucket@;
        self.buckets.insert(h, bucket);
        assert forall|n: Seq<char>| #[trigger] names.insert(name@).contains(n) implies self.buckets@.contains_key(
            name_hash(n),
        ) && strs(self.buckets@[name_hash(n)]@).contains(n) by {
            if n == name@ {
                assert(strs(nb)[nb.len() - 1] == n);
            } else if name_hash(n) == h {
                let j = choose|j: int| 0 <= j < strs(old_bucket).len() && strs(old_bucket)[j] == n;
                assert(strs(nb)[j] == n);
            }
        }
        true
    }
}

/// Which positions of a list of names hold the first occurrence of their name.
pub fn first_occurrences(names: &Vec<String>) -> (r: Vec<bool>)
    ensures
        r@.len() == names@.len(),
        forall|i: int| 0 <= i < names@.len() ==> r@[i] == is_first(strs(names@), i),
{
    let ghost ns = strs(names@);
    let mut seen = SeenNames::new();
    let mut r: Vec<bool> = Vec::new();
    let mut k: usize = 0;
    while k < names.len()
        invariant
            k <= names.len(),
            ns == strs(names@),
            seen.holds(ns.take(k as int).to_set()),
            r@.len() == k,
            forall|i: int| 0 <= i < k ==> r@[i] == is_first(ns, i),
        decreases names.len() - k,
    {
        let ghost before = ns.take(k as int).to_set();
        let fresh = seen.insert(&names[k], Ghost(before));
        proof {
            assert(ns[k as int] == names@[k as int]@);
            assert(ns.take(k + 1) =~= ns.take(k as int).push(ns[k as int]));
            ns.take(k as int).lemma_push_to_set_commute(ns[k as int]);
            if fresh {
                assert forall|j: int| 0 <= j < k implies ns[j] != ns[k as int] by {
                    if ns[j] == ns[k as int] {
                        assert(ns.take(k as int)[j] == ns[j]);
                        assert(ns.take(k as int).contains(ns[k as int]));
                    }
                }
            } else {
                assert(ns.take(k as int).contains(ns[k as int]));
                let j = choose|j: int| 0 <= j < k && ns.take(k as int)[j] == ns[k as int];
                assert(ns[j] == ns[k as int]);
            }
        }
        r.push(fresh);
        k = k + 1;
    }
    r
}

/// A subnet of a downloaded IP list or geoip category, as the store returns
/// it: highest list priority first, then lowest list id.
#[derive(Debug, Clone)]
pub struct ListSubnetRow {
    pub subnet: String,
    pub interface: Option<String>,
    pub priority: i64,
    pub list_id: i64,
}

/// The priority that IP rules take over every list.
pub const IP_RULE_PRIORITY: i64 = 1000000;

/// The subnets of the IP rules, then of the list rows, in order.
pub open spec fn subnet_names_of(rules: Seq<IpRule>, rows: Seq<ListSubnetRow>) -> Seq<Seq<char>> {
    rules.map_values(|r: IpRule| r.subnet@) + rows.map_values(|r: ListSubnetRow| r.subnet@)
}

/// The mathematical value of a stored subnet.
pub open spec fn stored_view(s: StoredSubnet) -> (Seq<char>, Option<Seq<char>>, i64, PolicyId) {
    (s.subnet@, crate::text::opt_str(s.interface), s.priority, s.policy_id)
}

/// The stored subnet at position `i` of the rules followed by the rows: an
/// IP rule with the rule priority, or a list subnet with its list's priority.
pub open spec fn merged_entry(rules: Seq<IpRule>, rows: Seq<ListSubnetRow>, i: int) -> (Seq<char>, Option<Seq<char>>, i64, PolicyId) {
    if i < rules.len() {
        (
            rules[i].subnet@,
            crate::text::opt_str(rules[i].interface),
            IP_RULE_PRIORITY,
            PolicyId::IpRule(rules[i].id->0),
        )
    } else {
        let w = rows[i - rules.len()];
        (w.subnet@, crate::text::opt_str(w.interface), w.priority, PolicyId::IpList(w.list_id))
    }
}

/// The merged subnets among the first `k` positions: each first occurrence
/// of a subnet, in order.
pub open spec fn merged_subnets_upto(rules: Seq<IpRule>, rows: Seq<ListSubnetRow>, k: int) -> Seq<(Seq<char>, Option<Seq<char>>, i64, PolicyId)>
    decreases k,
{
    if k <= 0 {
        Seq::empty()
    } else {
        let prev = merged_subnets_upto(rules, rows, k - 1);
        if is_first(subnet_names_of(rules, rows), k - 1) {
            prev.push(merged_entry(rules, rows, k - 1))
        } else {
            prev
        }
    }
}

/// Where a merged subnet comes from: a list subnet keeps its row's subnet,
/// interface and priority under its list's policy, and an IP rule keeps its
/// subnet and interface under its own policy at the rule priority.
pub open spec fn comes_from(
    rules: Seq<IpRule>,
    rows: Seq<ListSubnetRow>,
    t: (Seq<char>, Option<Seq<char>>, i64, PolicyId),
) -> bool {
    match t.3 {
        PolicyId::IpList(id) => exists|j: int|
            0 <= j < rows.len() && (#[trigger] rows[j]).list_id == id && t.0 == rows[j].subnet@ && t.1
                == crate::text::opt_str(rows[j].interface) && t.2 == rows[j].priority,
        PolicyId::IpRule(id) => exists|j: int|
            0 <= j < rules.len() && t.3 == PolicyId::IpRule((#[trigger] rules[j]).id->0) && t.0
                == rules[j].subnet@ && t.1 == crate::text::opt_str(rules[j].interface) && t.2
                == IP_RULE_PRIORITY,
        _ => false,
    }
}

/// Every merged subnet keeps the interface, priority and policy of the rule
/// or list row it comes from.
pub proof fn lemma_merged_subnets_keep_origin(rules: Seq<IpRule>, rows: Seq<ListSubnetRow>, k: int)
    requires
        k <= rules.len() + rows.len(),
    ensures
        forall|m: int|
            0 <= m < merged_subnets_upto(rules, rows, k).len() ==> comes_from(
                rules,
                rows,
                #[trigger] merged_subnets_upto(rules, rows, k)[m],
            ),
    decreases k,
{
    if k > 0 {
        lemma_merged_subnets_keep_origin(rules, rows, k - 1);
        let prev = merged_subnets_upto(rules, rows, k - 1);
        let cur = merged_subnets_upto(rules, rows, k);
        let e = merged_entry(rules, rows, k - 1);
        assert(comes_from(rules, rows, e)) by {
            if k - 1 < rules.len() {
                assert(rules[k - 1].subnet@ == e.0);
            } else {
                let j = k - 1 - rules.len();
                assert(rows[j].list_id == rows[j].list_id);
            }
        }
        assert forall|m: int| 0 <= m < cur.len() implies comes_from(rules, rows, #[trigger] cur[m]) by {
            if m < prev.len() {
                assert(cur[m] == prev[m]);
            }
        }
    }
}

/// The first IP rule, among first occurrences, that has no id.
pub open spec fn rule_without_id_from(rules: Seq<IpRule>, rows: Seq<ListSubnetRow>, k: int) -> Option<int>
    decreases rules.len() - k,
{
    if k < 0 || k >= rules.len() {
        None
    } else if is_first(subnet_names_of(rules, rows), k) && rules[k].id is None {
        Some(k)
    } else {
        rule_without_id_from(rules, rows, k + 1)
    }
}

/// The stored subnets: IP rules first, then list subnets, each subnet taken
/// from its first occurrence only. An IP rule without an id that would be
/// taken is an error, which names its subnet.
pub fn merge_subnets(rules: &Vec<IpRule>, rows: &Vec<ListSubnetRow>) -> (r: Result<Vec<StoredSubnet>, String>)
    requires
        rules.len() + rows.len() <= usize::MAX,
    ensures
        match rule_without_id_from(rules@, rows@, 0) {
            Some(i) => r matches Err(e) && e@ == rules@[i].subnet@,
            None => r matches Ok(v) && v@.map_values(|s: StoredSubnet| stored_view(s))
                == merged_subnets_upto(rules@, rows@, (rules@.len() + rows@.len()) as int),
        },
        r matches Ok(v) ==> forall|m: int|
            0 <= m < v@.len() ==> comes_from(rules@, rows@, stored_view(#[trigger] v@[m])),
{
    let ghost ns = subnet_names_of(rules@, rows@);
    let mut names: Vec<String> = Vec::new();
    let mut k: usize = 0;
    while k < rules.len()
        invariant
            k <= rules.len(),
            names@.len() == k,
            forall|j: int| 0 <= j < k ==> names@[j]@ == rules@[j].subnet@,
        decreases rules.len() - k,
    {
        names.push(rules[k].subnet.clone());
        k = k + 1;
    }
    let mut k: usize = 0;
    while k < rows.len()
        invariant
            k <= rows.len(),
            names@.len() == rules.len() + k,
            forall|j: int| 0 <= j < rules.len() ==> names@[j]@ == rules@[j].subnet@,
            forall|j: int| 0 <= j < k ==> names@[rules.len() + j]@ == rows@[j].subnet@,
        decreases rows.len() - k,
    {
        names.push(rows[k].subnet.clone());
        k = k + 1;
    }
    assert(strs(names@) =~= ns);
    let first = first_occurrences(&names);
    let n = names.len();
    let mut out: Vec<StoredSubnet> = Vec::new();
    let mut k: usize = 0;
    while k < n
        invariant
            k <= n,
            n == rules.len() + rows.len(),
            ns == subnet_names_of(rules@, rows@),
            first@.len() == n,
            forall|i: int| 0 <= i < n ==> first@[i] == is_first(ns, i),
            rule_without_id_from(rules@, rows@, 0) == (if k <= rules.len() {
                rule_without_id_from(rules@, rows@, k as int)
            } else {
                rule_without_id_from(rules@, rows@, rules.len() as int)
            }),
            out@.map_values(|s: StoredSubnet| stored_view(s)) == merged_subnets_upto(
                rules@,
                rows@,
                k as int,
            ),
        decreases n - k,
    {
        let ghost prev = out@;
        if first[k] {
            if k < rules.len() {
                let rule = &rules[k];
                match rule.id {
                    Some(id) => {
                        out.push(
                            StoredSubnet {
                                subnet: rule.subnet.clone(),
                                interface: copy_opt_string(&rule.interface),
                                priority: IP_RULE_PRIORITY,
                                policy_id: PolicyId::IpRule(id),
                            },
                        );
                    },
                    None => {
                        assert(rule_without_id_from(rules@, rows@, k as int) == Some(k as int));
                        return Err(rule.subnet.clone());
                    },
                }
            } else {
                let row = &rows[k - rules.len()];
                out.push(
                    StoredSubnet {
                        subnet: row.subnet.clone(),
                        interface: copy_opt_string(&row.interface),
                        priority: row.priority,
                        policy_id: PolicyId::IpList(row.list_id),
                    },
                );
            }
            assert(out@.map_values(|s: StoredSubnet| stored_view(s)) =~= prev.map_values(
                |s: StoredSubnet| stored_view(s),
            ).push(merged_entry(rules@, rows@, k as int)));
        }
        k = k + 1;
    }
    assert(rule_without_id_from(rules@, rows@, rules.len() as int) is None);
    proof {
        let total = (rules@.len() + rows@.len()) as int;
        lemma_merged_subnets_keep_origin(rules@, rows@, total);
        assert forall|m: int| 0 <= m < out@.len() implies comes_from(rules@, rows@, stored_view(
            #[trigger] out@[m],
        )) by {
            assert(out@.map_values(|s: StoredSubnet| stored_view(s))[m] == stored_view(out@[m]));
        }
    }
    Ok(out)
}

/// The domains of the domain rules, then of the list rows, in order.
pub open spec fn domain_names_of(rules: Seq<DomainRule>, rows: Seq<String>) -> Seq<Seq<char>> {
    rules.map_values(|r: DomainRule| r.domain@) + strs(rows)
}

/// The first occurrences among a list of names, in order.
pub open spec fn first_occurrences_of(names: Seq<Seq<char>>) -> Seq<Seq<char>> {
    Seq::new(names.len(), |i: int| i).filter(|i: int| is_first(names, i)).map_values(
        |i: int| names[i],
    )
}

/// The stored domains: those of the domain rules, then those of the lists,
/// each once, at its first occurrence.
pub fn merge_domains(rules: &Vec<DomainRule>, rows: &Vec<String>) -> (r: Vec<String>)
    requires
        rules.len() + rows.len() <= usize::MAX,
    ensures
        strs(r@) == first_occurrences_of(domain_names_of(rules@, rows@)),
{
    let ghost ns = domain_names_of(rules@, rows@);
    let mut names: Vec<String> = Vec::new();
    let mut k: usize = 0;
    while k < rules.len()
        invariant
            k <= rules.len(),
            names@.len() == k,
            forall|j: int| 0 <= j < k ==> names@[j]@ == rules@[j].domain@,
        decreases rules.len() - k,
    {
        names.push(rules[k].domain.clone());
        k = k + 1;
    }
    let mut k: usize = 0;
    while k < rows.len()
        invariant
            k <= rows.len(),
            names@.len() == rules.len() + k,
            forall|j: int| 0 <= j < rules.len() ==> names@[j]@ == rules@[j].domain@,
            forall|j: int| 0 <= j < k ==> names@[rules.len() + j]@ == rows@[j]@,
        decreases rows.len() - k,
    {
        names.push(rows[k].clone());
        k = k + 1;
    }
    assert(strs(names@) =~= ns);
    let first = first_occurrences(&names);
    let ghost idx = Seq::new(ns.len(), |i: int| i);
    let ghost pick = |i: int| is_first(ns, i);
    let ghost at = |i: int| ns[i];
    let mut out: Vec<String> = Vec::new();
    let mut k: usize = 0;
    while k < names.len()
        invariant
            k <= names.len(),
            ns == strs(names@),
            idx == Seq::new(ns.len(), |i: int| i),
            pick == (|i: int| is_first(ns, i)),
            at == (|i: int| ns[i]),
            first@.len() == names.len(),
            forall|i: int| 0 <= i < names.len() ==> first@[i] == is_first(ns, i),
            strs(out@) == idx.take(k as int).filter(pick).map_values(at),
        decreases names.len() - k,
    {
        proof {
            assert(idx.take(k + 1) =~= idx.take(k as int).push(k as int));
            idx.take(k as int).lemma_filter_push(k as int, pick);
        }
        if first[k] {
            let ghost prev = out@;
            out.push(names[k].clone());
            assert(strs(out@) =~= strs(prev).push(ns[k as int]));
            assert(strs(out@) =~= idx.take(k + 1).filter(pick).map_values(at));
        }
        k = k + 1;
    }
    assert(idx.take(names.len() as int) =~= idx);
    out
}

/// The stored domains hold each domain once, and every domain of a rule or
/// of a list row among them.
pub proof fn lemma_merged_domains_once(names: Seq<Seq<char>>)
    ensures
        forall|a: int, b: int|
            0 <= a < b < first_occurrences_of(names).len() ==> first_occurrences_of(names)[a]
                != first_occurrences_of(names)[b],
        forall|i: int| 0 <= i < names.len() ==> first_occurrences_of(names).contains(names[i]),
{
    let idx = Seq::new(names.len(), |i: int| i);
    let pick = |i: int| is_first(names, i);
    let f = idx.filter(pick);
    let out = first_occurrences_of(names);
    assert forall|a: int, b: int| 0 <= a < b < out.len() implies out[a] != out[b] by {
        idx.filter_lemma(pick);
        lemma_filter_strictly_increasing(names.len() as int, pick, a, b);
        assert(f[a] < f[b]);
        assert(pick(f[b]));
        assert(idx.contains(f[a])) by {
            idx.lemma_filter_contains_rev(pick, f[a]);
        }
        assert(0 <= f[a]) by {
            let j = choose|j: int| 0 <= j < idx.len() && idx[j] == f[a];
        }
        assert(names[f[a]] != names[f[b]]);
    }
    assert forall|i: int| 0 <= i < names.len() implies out.contains(names[i]) by {
        let j = first_index_of(names, i);
        assert(pick(j));
        assert(idx[j] == j);
        idx.lemma_filter_contains(pick, j);
        assert(f.contains(j));
        let a = choose|a: int| 0 <= a < f.len() && f[a] == j;
        assert(out[a] == names[j]);
    }
}

/// The position where the name at `i` first occurs.
proof fn first_index_of(names: Seq<Seq<char>>, i: int) -> (j: int)
    requires
        0 <= i < names.len(),
    ensures
        0 <= j <= i,
        is_first(names, j),
        names[j] == names[i],
    decreases i,
{
    if is_first(names, i) {
        i
    } else {
        let k = choose|k: int| 0 <= k < i && names[k] == names[i];
        first_index_of(names, k)
    }
}

/// Filtering the positions of a list keeps them in increasing order.
proof fn lemma_filter_strictly_increasing(n: int, pick: spec_fn(int) -> bool, a: int, b: int)
    requires
        0 <= n,
        0 <= a < b < Seq::new(n as nat, |i: int| i).filter(pick).len(),
    ensures
        Seq::new(n as nat, |i: int| i).filter(pick)[a] < Seq::new(n as nat, |i: int| i).filter(
            pick,
        )[b],
    decreases n,
{
    let idx = Seq::new(n as nat, |i: int| i);
    let prev = Seq::new((n - 1) as nat, |i: int| i);
    assert(idx =~= prev.push(n - 1));
    prev.lemma_filter_push(n - 1, pick);
    let f = prev.filter(pick);
    if pick(n - 1) && b == f.len() {
        prev.lemma_filter_pred(pick, a);
        assert(f.contains(f[a]));
        prev.lemma_filter_contains_rev(pick, f[a]);
        let j = choose|j: int| 0 <= j < prev.len() && prev[j] == f[a];
    } else {
        lemma_filter_strictly_increasing(n - 1, pick, a, b);
    }
}

} // verus!
