//! Decisions of the HTTP interface: who may call it, and what the export
//! endpoints answer.
use crate::text::strs;
use vstd::prelude::*;

verus! {

/// The geosite and geoip categories that rules can name.
#[derive(Debug, Clone)]
pub struct AvailableGeoOptions {
    pub geosite: Vec<String>,
    pub geoip: Vec<String>,
}

/// Whether a request may use the API: no password is set, or the request's
/// key header holds exactly the password.
pub open spec fn api_key_accepted_of(expected: Option<Seq<char>>, given: Option<Seq<char>>) -> bool {
    match expected {
        None => true,
        Some(p) => given == Some(p),
    }
}

/// Whether a request may use the API (see [`api_key_accepted_of`]).
pub fn api_key_accepted(expected: Option<&str>, given: Option<&str>) -> (r: bool)
    ensures
        r == api_key_accepted_of(
            crate::config::opt_str_ref(expected),
            crate::config::opt_str_ref(given),
        ),
{
    match expected {
        None => true,
        Some(p) => match given {
            Some(g) => crate::text::str_eq(g, p),
            None => false,
        },
    }
}

/// Names joined by a separator.
pub open spec fn joined(s: Seq<Seq<char>>, sep: Seq<char>) -> Seq<char>
    decreases s.len(),
{
    if s.len() == 0 {
        Seq::empty()
    } else if s.len() == 1 {
        s[0]
    } else {
        joined(s.drop_last(), sep) + sep + s.last()
    }
}

/// The body of an export: one entry per line, without a final line break.
pub fn export_body(entries: &Vec<String>) -> (r: String)
    ensures
        r@ == joined(strs(entries@), "\n"@),
{
    let mut r = String::new();
    let mut k: usize = 0;
    while k < entries.len()
        invariant
            k <= entries.len(),
            r@ == joined(strs(entries@).take(k as int), "\n"@),
        decreases entries.len() - k,
    {
        proof {
            assert(strs(entries@).take(k + 1).drop_last() =~= strs(entries@).take(k as int));
            assert(strs(entries@).take(k + 1).last() == entries@[k as int]@);
        }
        if k > 0 {
            r.append("\n");
        }
        r.append(entries[k].as_str());
        proof {
            if k == 0 {
                assert(r@ =~= strs(entries@).take(1)[0]);
            }
        }
        k = k + 1;
    }
    assert(strs(entries@).take(entries.len() as int) =~= strs(entries@));
    r
}

} // verus!
