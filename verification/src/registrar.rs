//! Adding a domain: replace any existing hosts entry for it and append a
//! fresh managed line.
//!
//! A line is a duplicate for `domain` when — after dropping leading
//! whitespace, one optional `#`, whitespace again, and everything from
//! the next `#` on (an inline comment) — it splits on whitespace into
//! an IP-looking first token followed by host tokens, one of which equals
//! `domain` exactly.  This deliberately does not require the managed tag:
//! adding claims ownership of any existing mapping for the domain.  A
//! line where `domain` appears only inside a longer token, or only in a
//! comment, is kept.  The new line always lands last, active.

use vstd::prelude::*;
use vstd::string::StrSliceExecFns;

use crate::codec::{
    alias_or_empty, decode_spec, encode_parts, encoded_entry, encoded_line, ip_shaped,
    lemma_decode_encoded, lemma_ip_token_chars, EntryView,
};
use crate::text::{
    comment_start, comment_start_in, contains_seq, contains_str, is_space, lemma_comment_start,
    lemma_comment_start_at, lemma_skip_spaces, lemma_skip_spaces_at, lemma_token_end,
    lemma_token_end_at, skip_spaces, skip_spaces_in, str_eq, token_end, token_end_in,
};

verus! {

/// Some whitespace-delimited token of `r` at or after position `i`
/// equals `domain`.
pub open spec fn dup_token_from(r: Seq<char>, i: int, domain: Seq<char>) -> bool
    decreases r.len() - i,
    via dup_token_from_decreases
{
    if i < 0 || i >= r.len() {
        false
    } else {
        let a = skip_spaces(r, i);
        if a >= r.len() {
            false
        } else {
            let b = token_end(r, a);
            r.subrange(a, b) == domain || dup_token_from(r, b, domain)
        }
    }
}

#[via_fn]
proof fn dup_token_from_decreases(r: Seq<char>, i: int, domain: Seq<char>) {
    if 0 <= i < r.len() {
        lemma_skip_spaces(r, i);
        let a = skip_spaces(r, i);
        if a < r.len() {
            lemma_token_end(r, a);
        }
    }
}

/// Where the host tokens of `l` start: after leading whitespace, one
/// optional `#`, and whitespace again.  A second `#` is not stripped: it
/// opens the inline comment instead.
pub open spec fn content_start(l: Seq<char>) -> int {
    let lead = skip_spaces(l, 0);
    let after_hash: int = if lead < l.len() && l[lead] == '#' {
        lead + 1
    } else {
        lead
    };
    skip_spaces(l, after_hash)
}

/// The part of `l` the duplicate check reads: from `content_start` up to
/// the first `#` after it.
pub open spec fn content_region(l: Seq<char>) -> Seq<char> {
    l.subrange(content_start(l), comment_start(l, content_start(l)))
}

/// `l` is an existing hosts entry for `domain`: its content region has a
/// first token and some later token equal to `domain`.
pub open spec fn is_duplicate(l: Seq<char>, domain: Seq<char>) -> bool {
    let r = content_region(l);
    let a = skip_spaces(r, 0);
    a < r.len() && dup_token_from(r, token_end(r, a), domain)
}

/// The lines an add keeps: every line that is not a duplicate for
/// `domain`, in their original order and byte for byte.
pub open spec fn kept_lines(lines: Seq<Seq<char>>, domain: Seq<char>) -> Seq<Seq<char>>
    decreases lines.len(),
{
    if lines.len() == 0 {
        Seq::empty()
    } else {
        let rest = kept_lines(lines.drop_last(), domain);
        if is_duplicate(lines.last(), domain) {
            rest
        } else {
            rest.push(lines.last())
        }
    }
}

/// Some line is a duplicate for `domain`.
pub open spec fn has_duplicate(lines: Seq<Seq<char>>, domain: Seq<char>) -> bool {
    exists|k: int| 0 <= k < lines.len() && is_duplicate(#[trigger] lines[k], domain)
}

/// The whole file after an add.
pub open spec fn add_result(
    lines: Seq<Seq<char>>,
    domain: Seq<char>,
    ip: Seq<char>,
    alias: Seq<char>,
) -> Seq<Seq<char>> {
    kept_lines(lines, domain).push(encoded_line(ip, domain, alias))
}

/// Decide whether `l` is a duplicate for `domain`.
pub fn is_duplicate_line(l: &str, domain: &str) -> (res: bool)
    ensures
        res == is_duplicate(l@, domain@),
{
    let n: usize = l.unicode_len();
    let lead_end: usize = skip_spaces_in(l, 0);
    let hash_end: usize = if lead_end < n && l.get_char(lead_end) == '#' {
        lead_end + 1
    } else {
        lead_end
    };
    let cs: usize = skip_spaces_in(l, hash_end);
    let ce: usize = comment_start_in(l, cs);
    let region: &str = l.substring_char(cs, ce);
    proof {
        assert(region@ == content_region(l@));
    }
    let rn: usize = region.unicode_len();
    let a: usize = skip_spaces_in(region, 0);
    if a >= rn {
        return false;
    }
    let mut pos: usize = token_end_in(region, a);
    loop
        invariant
            pos <= rn,
            rn as int == region@.len(),
            region@ == content_region(l@),
            is_duplicate(l@, domain@) == dup_token_from(region@, pos as int, domain@),
        decreases rn - pos,
    {
        if pos >= rn {
            return false;
        }
        let a2: usize = skip_spaces_in(region, pos);
        if a2 >= rn {
            return false;
        }
        let b2: usize = token_end_in(region, a2);
        let tok: &str = region.substring_char(a2, b2);
        if str_eq(tok, domain) {
            return true;
        }
        proof {
            lemma_skip_spaces(region@, pos as int);
            lemma_token_end(region@, a2 as int);
        }
        pos = b2;
    }
}

/// A duplicate line contains `domain` as a contiguous run of characters,
/// which is what lets the cheap substring pre-filter keep a line without
/// looking closer.
pub proof fn lemma_dup_token_has_substring(r: Seq<char>, i: int, domain: Seq<char>)
    requires
        0 <= i <= r.len(),
        dup_token_from(r, i, domain),
    ensures
        exists|a: int, b: int| 0 <= a <= b <= r.len() && r.subrange(a, b) == domain,
    decreases r.len() - i,
{
    let a = skip_spaces(r, i);
    lemma_skip_spaces(r, i);
    let b = token_end(r, a);
    lemma_token_end(r, a);
    if r.subrange(a, b) == domain {
        assert(0 <= a <= b <= r.len() && r.subrange(a, b) == domain);
    } else {
        lemma_dup_token_has_substring(r, b, domain);
    }
}

pub proof fn lemma_duplicate_contains(l: Seq<char>, domain: Seq<char>)
    requires
        is_duplicate(l, domain),
    ensures
        contains_seq(l, domain),
{
    let r = content_region(l);
    let lead = skip_spaces(l, 0);
    lemma_skip_spaces(l, 0);
    let after_hash: int = if lead < l.len() && l[lead] == '#' {
        lead + 1
    } else {
        lead
    };
    lemma_skip_spaces(l, after_hash);
    let cs = content_start(l);
    lemma_comment_start(l, cs);
    let a0 = skip_spaces(r, 0);
    lemma_skip_spaces(r, 0);
    let b0 = token_end(r, a0);
    lemma_token_end(r, a0);
    lemma_dup_token_has_substring(r, b0, domain);
    let (a, b) = choose|a: int, b: int| 0 <= a <= b <= r.len() && r.subrange(a, b) == domain;
    assert(l.subrange(cs + a, cs + b) =~= r.subrange(a, b));
    assert(b - a == domain.len());
    assert(l.subrange(cs + a, cs + a + domain.len() as int) == domain);
}

/// Drop every existing entry for `domain` and append the fresh managed
/// line `"{ip} {domain} #muko: {alias}"`; report whether anything was
/// replaced.
pub fn add(lines: &Vec<String>, domain: &str, ip: &str, alias: &str) -> (r: (Vec<String>, bool))
    ensures
        r.0.deep_view() == add_result(lines.deep_view(), domain@, ip@, alias@),
        r.1 == has_duplicate(lines.deep_view(), domain@),
{
    let ghost lv = lines.deep_view();
    let ghost dv = domain@;
    let n: usize = lines.len();
    let mut out: Vec<String> = Vec::new();
    let mut replaced: bool = false;
    let mut i: usize = 0;
    while i < n
        invariant
            i <= n,
            n == lines.len(),
            lv == lines.deep_view(),
            dv == domain@,
            out.deep_view() == kept_lines(lv.take(i as int), dv),
            replaced == has_duplicate(lv.take(i as int), dv),
        decreases n - i,
    {
        let line: &String = &lines[i];
        proof {
            assert(lv[i as int] == line@);
        }
        let mut keep: bool = true;
        if !contains_str(line.as_str(), domain) {
            proof {
                if is_duplicate(line@, dv) {
                    lemma_duplicate_contains(line@, dv);
                }
            }
        } else if is_duplicate_line(line.as_str(), domain) {
            keep = false;
            replaced = true;
        }
        if keep {
            out.push(line.clone());
        }
        proof {
            assert(lv.take(i as int + 1).drop_last() =~= lv.take(i as int));
            assert(lv.take(i as int + 1).last() == lv[i as int]);
            assert(out.deep_view() =~= kept_lines(lv.take(i as int + 1), dv));
            assert(has_duplicate(lv.take(i as int + 1), dv) == (has_duplicate(
                lv.take(i as int),
                dv,
            ) || is_duplicate(lv[i as int], dv))) by {
                if is_duplicate(lv[i as int], dv) {
                    assert(lv.take(i as int + 1)[i as int] == lv[i as int]);
                } else if has_duplicate(lv.take(i as int), dv) {
                    let k = choose|k: int|
                        0 <= k < lv.take(i as int).len() && is_duplicate(
                            #[trigger] lv.take(i as int)[k],
                            dv,
                        );
                    assert(lv.take(i as int + 1)[k] == lv[k]);
                } else if has_duplicate(lv.take(i as int + 1), dv) {
                    let k = choose|k: int|
                        0 <= k < lv.take(i as int + 1).len() && is_duplicate(
                            #[trigger] lv.take(i as int + 1)[k],
                            dv,
                        );
                    if k < i as int {
                        assert(lv.take(i as int)[k] == lv[k]);
                    }
                }
            }
        }
        i = i + 1;
    }
    let new_line: String = encode_parts(ip, domain, alias);
    out.push(new_line);
    proof {
        assert(lv.take(n as int) =~= lv);
        assert(out.deep_view() =~= add_result(lv, dv, ip@, alias@));
    }
    (out, replaced)
}

/// After an add, the appended managed line is the single entry for
/// `domain`: it stands last and no kept line is an entry for `domain`.
pub proof fn lemma_add_single_owner(
    lines: Seq<Seq<char>>,
    domain: Seq<char>,
    ip: Seq<char>,
    alias: Seq<char>,
)
    ensures
        add_result(lines, domain, ip, alias).len() >= 1,
        add_result(lines, domain, ip, alias).last() == encoded_line(ip, domain, alias),
        forall|k: int|
            0 <= k < add_result(lines, domain, ip, alias).len() - 1 ==> !is_duplicate(
                #[trigger] add_result(lines, domain, ip, alias)[k],
                domain,
            ),
    decreases lines.len(),
{
    if lines.len() == 0 {
    } else {
        lemma_add_single_owner(lines.drop_last(), domain, ip, alias);
        let prev = add_result(lines.drop_last(), domain, ip, alias);
        let cur = add_result(lines, domain, ip, alias);
        if is_duplicate(lines.last(), domain) {
            assert(cur =~= prev);
        } else {
            assert forall|k: int| 0 <= k < cur.len() - 1 implies !is_duplicate(
                #[trigger] cur[k],
                domain,
            ) by {
                if k < cur.len() - 2 {
                    assert(cur[k] == prev[k]);
                } else {
                    assert(cur[k] == lines.last());
                }
            }
        }
    }
}

/// When no line is an entry for `domain`, an add is a pure append: the
/// file comes back with every line in place and the new line last.
pub proof fn lemma_add_keeps_unrelated(
    lines: Seq<Seq<char>>,
    domain: Seq<char>,
    ip: Seq<char>,
    alias: Seq<char>,
)
    requires
        forall|k: int| 0 <= k < lines.len() ==> !is_duplicate(#[trigger] lines[k], domain),
    ensures
        add_result(lines, domain, ip, alias) == lines.push(encoded_line(ip, domain, alias)),
    decreases lines.len(),
{
    lemma_kept_all(lines, domain);
}

/// The line an add appends decodes as the fresh managed entry: active,
/// with the given IP and domain, and with the alias exactly when one was
/// given.
pub proof fn lemma_added_line_is_managed(domain: Seq<char>, ip: Seq<char>, alias: Seq<char>)
    requires
        ip_shaped(ip),
        domain.len() > 0,
        forall|k: int| 0 <= k < domain.len() ==> !is_space(#[trigger] domain[k]),
        forall|k: int| 0 <= k < alias.len() ==> !is_space(#[trigger] alias[k]),
    ensures
        decode_spec(encoded_line(ip, domain, alias)) == Some(
            EntryView {
                ip,
                domain,
                alias: if alias.len() == 0 {
                    None
                } else {
                    Some(alias)
                },
                active: true,
                prod_ip: None,
            },
        ),
{
    let e = EntryView {
        ip,
        domain,
        alias: if alias.len() == 0 {
            None::<Seq<char>>
        } else {
            Some(alias)
        },
        active: true,
        prod_ip: None,
    };
    assert(alias_or_empty(e.alias) =~= alias);
    assert(encoded_entry(e) == encoded_line(ip, domain, alias));
    lemma_decode_encoded(e);
}

/// The line an add appends is itself an entry for its domain, so a later
/// add for the same domain replaces it in turn.
pub proof fn lemma_added_line_is_duplicate(domain: Seq<char>, ip: Seq<char>, alias: Seq<char>)
    requires
        ip_shaped(ip),
        domain.len() > 0,
        forall|k: int| 0 <= k < domain.len() ==> !is_space(#[trigger] domain[k]) && domain[k]
            != '#',
    ensures
        is_duplicate(encoded_line(ip, domain, alias), domain),
{
    let l = encoded_line(ip, domain, alias);
    let li = ip.len() as int;
    let ld = domain.len() as int;
    lemma_ip_token_chars(ip);
    assert forall|k: int| 0 <= k < li implies l[k] == ip[k] by {}
    assert(l[li] == ' ');
    assert forall|k: int| 0 <= k < ld implies l[li + 1 + k] == domain[k] by {}
    assert(l[li + ld + 1] == ' ');
    assert(l[li + ld + 2] == '#');
    // the content region starts at the first character
    assert(!is_space(l[0]) && l[0] != '#');
    assert(skip_spaces(l, 0) == 0);
    assert(content_start(l) == 0);
    // and runs up to the tag's hash
    assert forall|k: int| 0 <= k < li + ld + 2 implies #[trigger] l[k] != '#' by {
        if k < li {
            assert(l[k] == ip[k]);
        } else if li + 1 <= k < li + 1 + ld {
            assert(l[k] == domain[k - li - 1]);
        }
    }
    lemma_comment_start_at(l, 0, li + ld + 2);
    let r = content_region(l);
    assert(r =~= l.subrange(0, li + ld + 2));
    // first token: the IP
    assert(!is_space(r[0]));
    assert(skip_spaces(r, 0) == 0);
    assert forall|k: int| 0 <= k < li implies !is_space(#[trigger] r[k]) by {
        assert(r[k] == ip[k]);
    }
    assert(is_space(r[li]));
    lemma_token_end_at(r, 0, li);
    // second token: the domain, which is what makes the line a duplicate
    lemma_skip_spaces_at(r, li, li + 1);
    assert forall|k: int| li + 1 <= k < li + 1 + ld implies !is_space(#[trigger] r[k]) by {
        assert(r[k] == domain[k - li - 1]);
    }
    assert(is_space(r[li + 1 + ld]));
    lemma_token_end_at(r, li + 1, li + 1 + ld);
    assert(r.subrange(li + 1, li + 1 + ld) =~= domain);
    assert(dup_token_from(r, li, domain));
    assert(is_duplicate(l, domain));
}

/// Adding the same domain again replaces what the first add appended:
/// two adds leave exactly the state of the second alone.
pub proof fn lemma_add_replaces_prior_add(
    lines: Seq<Seq<char>>,
    domain: Seq<char>,
    ip1: Seq<char>,
    alias1: Seq<char>,
    ip2: Seq<char>,
    alias2: Seq<char>,
)
    requires
        ip_shaped(ip1),
        domain.len() > 0,
        forall|k: int| 0 <= k < domain.len() ==> !is_space(#[trigger] domain[k]) && domain[k]
            != '#',
    ensures
        add_result(add_result(lines, domain, ip1, alias1), domain, ip2, alias2) == add_result(
            lines,
            domain,
            ip2,
            alias2,
        ),
{
    let kept = kept_lines(lines, domain);
    let new1 = encoded_line(ip1, domain, alias1);
    let first = add_result(lines, domain, ip1, alias1);
    lemma_added_line_is_duplicate(domain, ip1, alias1);
    assert(first.drop_last() =~= kept);
    assert(kept_lines(first, domain) == kept_lines(kept, domain));
    lemma_add_single_owner(lines, domain, ip1, alias1);
    assert forall|k: int| 0 <= k < kept.len() implies !is_duplicate(#[trigger] kept[k], domain) by {
        assert(first[k] == kept[k]);
    }
    lemma_kept_all(kept, domain);
}

proof fn lemma_kept_all(lines: Seq<Seq<char>>, domain: Seq<char>)
    requires
        forall|k: int| 0 <= k < lines.len() ==> !is_duplicate(#[trigger] lines[k], domain),
    ensures
        kept_lines(lines, domain) == lines,
    decreases lines.len(),
{
    if lines.len() > 0 {
        lemma_kept_all(lines.drop_last(), domain);
        assert(kept_lines(lines.drop_last(), domain).push(lines.last()) =~= lines);
    }
}

} // verus!
