//! The process boundary: parsing of line-oriented caller commands.
//!
//! A line is `GET <key>`, `GET_PROVIDERS <key>`, `PUT <key> <value>` or
//! `PUT_PROVIDER <key>`; any other non-empty line is free text, published
//! verbatim to the active topic.  A malformed command line — a missing key
//! or value — is rejected locally with a diagnostic and touches no state.

use vstd::prelude::*;
use crate::bytes::sub_bytes;

verus! {

/// The bytes of `"GET "`.
pub open spec fn kw_get() -> Seq<u8> {
    seq![71u8, 69u8, 84u8, 32u8]
}

/// The bytes of `"GET_PROVIDERS "`.
pub open spec fn kw_get_providers() -> Seq<u8> {
    seq![71u8, 69u8, 84u8, 95u8, 80u8, 82u8, 79u8, 86u8, 73u8, 68u8, 69u8, 82u8, 83u8, 32u8]
}

/// The bytes of `"PUT "`.
pub open spec fn kw_put() -> Seq<u8> {
    seq![80u8, 85u8, 84u8, 32u8]
}

/// The bytes of `"PUT_PROVIDER "`.
pub open spec fn kw_put_provider() -> Seq<u8> {
    seq![80u8, 85u8, 84u8, 95u8, 80u8, 82u8, 79u8, 86u8, 73u8, 68u8, 69u8, 82u8, 32u8]
}

/// Whether `s` begins with `p`.
pub open spec fn starts_with(s: Seq<u8>, p: Seq<u8>) -> bool {
    p.len() <= s.len() && s.subrange(0, p.len() as int) == p
}

/// The index of the first space at or after `i`, or the length if none.
pub open spec fn first_space(s: Seq<u8>, i: int) -> int
    decreases s.len() - i when 0 <= i <= s.len()
{
    if i >= s.len() {
        s.len() as int
    } else if s[i] == 32 {
        i
    } else {
        first_space(s, i + 1)
    }
}

/// One parsed caller line.
pub enum ParsedLine {
    /// Look a record up in the DHT.
    Get { key: Vec<u8> },
    /// Find the providers of a key.
    GetProviders { key: Vec<u8> },
    /// Store a record in the DHT.
    Put { key: Vec<u8>, value: Vec<u8> },
    /// Announce this node as a provider of a key.
    PutProvider { key: Vec<u8> },
    /// Free text: published verbatim to the active topic.
    Publish { payload: Vec<u8> },
    /// A command line missing its key or value, or an empty line: rejected
    /// with a diagnostic, no effect on swarm state.
    Malformed,
}

/// Whether `s` begins with the bytes of `p`.
fn starts_with_bytes(s: &Vec<u8>, p: &Vec<u8>) -> (r: bool)
    ensures
        r == starts_with(s@, p@),
{
    if p.len() > s.len() {
        return false;
    }
    let mut i: usize = 0;
    while i < p.len()
        invariant
            i <= p@.len() <= s@.len(),
            forall|j: int| 0 <= j < i ==> s@[j] == p@[j],
        decreases p@.len() - i,
    {
        if s[i] != p[i] {
            proof {
                if starts_with(s@, p@) {
                    assert(s@.subrange(0, p@.len() as int)[i as int] == p@[i as int]);
                }
            }
            return false;
        }
        i = i + 1;
    }
    proof {
        assert(s@.subrange(0, p@.len() as int) =~= p@);
    }
    true
}

/// Below `i`, and `from` to `i` holds no space; so the first space at or
/// after `from` is `i` itself if `i` is one, else further right.
proof fn lemma_first_space(s: Seq<u8>, from: int, i: int)
    requires
        0 <= from <= i <= s.len(),
        forall|j: int| from <= j < i ==> s[j] != 32,
        i == s.len() || s[i] == 32,
    ensures
        first_space(s, from) == i,
    decreases i - from,
{
    if from < i {
        lemma_first_space(s, from + 1, i);
    }
}

/// Finds the first space at or after `from`, or the length if none.
fn find_space(s: &Vec<u8>, from: usize) -> (r: usize)
    requires
        from <= s@.len(),
    ensures
        r == first_space(s@, from as int),
        from <= r <= s@.len(),
        r < s@.len() ==> s@[r as int] == 32,
        forall|j: int| from <= j < r ==> s@[j] != 32,
{
    let mut i: usize = from;
    while i < s.len()
        invariant
            from <= i <= s@.len(),
            forall|j: int| from <= j < i ==> s@[j] != 32,
        decreases s@.len() - i,
    {
        if s[i] == 32 {
            proof {
                lemma_first_space(s@, from as int, i as int);
            }
            return i;
        }
        i = i + 1;
    }
    proof {
        lemma_first_space(s@, from as int, s@.len() as int);
    }
    s.len()
}

/// Builds the keyword `"GET "`.
fn make_kw_get() -> (r: Vec<u8>)
    ensures
        r@ == kw_get(),
{
    let mut v: Vec<u8> = Vec::new();
    v.push(71);
    v.push(69);
    v.push(84);
    v.push(32);
    proof {
        assert(v@ =~= kw_get());
    }
    v
}

/// Builds the keyword `"GET_PROVIDERS "`.
fn make_kw_get_providers() -> (r: Vec<u8>)
    ensures
        r@ == kw_get_providers(),
{
    let mut v: Vec<u8> = Vec::new();
    v.push(71);
    v.push(69);
    v.push(84);
    v.push(95);
    v.push(80);
    v.push(82);
    v.push(79);
    v.push(86);
    v.push(73);
    v.push(68);
    v.push(69);
    v.push(82);
    v.push(83);
    v.push(32);
    proof {
        assert(v@ =~= kw_get_providers());
    }
    v
}

/// Builds the keyword `"PUT "`.
fn make_kw_put() -> (r: Vec<u8>)
    ensures
        r@ == kw_put(),
{
    let mut v: Vec<u8> = Vec::new();
    v.push(80);
    v.push(85);
    v.push(84);
    v.push(32);
    proof {
        assert(v@ =~= kw_put());
    }
    v
}

/// Builds the keyword `"PUT_PROVIDER "`.
fn make_kw_put_provider() -> (r: Vec<u8>)
    ensures
        r@ == kw_put_provider(),
{
    let mut v: Vec<u8> = Vec::new();
    v.push(80);
    v.push(85);
    v.push(84);
    v.push(95);
    v.push(80);
    v.push(82);
    v.push(79);
    v.push(86);
    v.push(73);
    v.push(68);
    v.push(69);
    v.push(82);
    v.push(32);
    proof {
        assert(v@ =~= kw_put_provider());
    }
    v
}

/// Parses one caller line.
///
/// Keyword lines yield their command with the keyword stripped; a command
/// whose key — or, for a put, whose value — is missing is malformed, as is
/// an empty line.  Everything else is free text to publish.
pub fn parse_line(s: &Vec<u8>) -> (r: ParsedLine)
    ensures
        (if starts_with(s@, kw_get_providers()) {
            let key = s@.subrange(kw_get_providers().len() as int, s@.len() as int);
            if key.len() == 0 {
                r == ParsedLine::Malformed
            } else {
                r matches ParsedLine::GetProviders { key: k } && k@ == key
            }
        } else if starts_with(s@, kw_get()) {
            let key = s@.subrange(kw_get().len() as int, s@.len() as int);
            if key.len() == 0 {
                r == ParsedLine::Malformed
            } else {
                r matches ParsedLine::Get { key: k } && k@ == key
            }
        } else if starts_with(s@, kw_put_provider()) {
            let key = s@.subrange(kw_put_provider().len() as int, s@.len() as int);
            if key.len() == 0 {
                r == ParsedLine::Malformed
            } else {
                r matches ParsedLine::PutProvider { key: k } && k@ == key
            }
        } else if starts_with(s@, kw_put()) {
            let rest = s@.subrange(kw_put().len() as int, s@.len() as int);
            let sp = first_space(rest, 0);
            if sp == 0 || sp >= rest.len() - 1 {
                r == ParsedLine::Malformed
            } else {
                r matches ParsedLine::Put { key: k, value: v } && k@ == rest.subrange(0, sp)
                    && v@ == rest.subrange(sp + 1, rest.len() as int)
            }
        } else if s@.len() == 0 {
            r == ParsedLine::Malformed
        } else {
            r matches ParsedLine::Publish { payload } && payload@ == s@
        }),
{
    let kw_gp = make_kw_get_providers();
    if starts_with_bytes(s, &kw_gp) {
        if s.len() == kw_gp.len() {
            return ParsedLine::Malformed;
        }
        let key = sub_bytes(s, kw_gp.len(), s.len());
        return ParsedLine::GetProviders { key };
    }
    let kw_g = make_kw_get();
    if starts_with_bytes(s, &kw_g) {
        if s.len() == kw_g.len() {
            return ParsedLine::Malformed;
        }
        let key = sub_bytes(s, kw_g.len(), s.len());
        return ParsedLine::Get { key };
    }
    let kw_pp = make_kw_put_provider();
    if starts_with_bytes(s, &kw_pp) {
        if s.len() == kw_pp.len() {
            return ParsedLine::Malformed;
        }
        let key = sub_bytes(s, kw_pp.len(), s.len());
        return ParsedLine::PutProvider { key };
    }
    let kw_p = make_kw_put();
    if starts_with_bytes(s, &kw_p) {
        let rest = sub_bytes(s, kw_p.len(), s.len());
        let sp = find_space(&rest, 0);
        if sp == 0 || sp + 1 >= rest.len() {
            return ParsedLine::Malformed;
        }
        let key = sub_bytes(&rest, 0, sp);
        let value = sub_bytes(&rest, sp + 1, rest.len());
        return ParsedLine::Put { key, value };
    }
    if s.len() == 0 {
        return ParsedLine::Malformed;
    }
    let payload = sub_bytes(s, 0, s.len());
    proof {
        assert(payload@ =~= s@);
    }
    ParsedLine::Publish { payload }
}

} // verus!
