//! Switching a managed entry between DEV (active) and PROD (commented
//! out), identified by its domain or its alias.
//!
//! Every matching managed line is brought to the wanted state with a
//! minimal edit: commenting prepends a single `#`, uncommenting strips
//! the `#` and the whitespace right after it and keeps the rest of the
//! line byte for byte.  Every other line passes through unchanged.  If no
//! line matches, the switch fails and nothing is to be written back.

use vstd::prelude::*;
use vstd::string::{StrSliceExecFns, StringExecFns};

use crate::codec::{
    alias_or_empty, decode, decode_spec, lemma_decode_comment, lemma_decode_uncomment,
    lemma_decoded_shape, uncommented, ManagedEntry,
};
use crate::text::{skip_spaces_in, str_eq};

verus! {

/// The identifier matched no managed line; the caller must leave the
/// file untouched.
#[derive(Debug, Clone, PartialEq, Eq)]
pub struct NotFoundError {
}

/// `l` is a managed line whose domain or alias token equals `id`; a line
/// without an alias carries the empty alias token.
pub open spec fn line_is_match(l: Seq<char>, id: Seq<char>) -> bool {
    match decode_spec(l) {
        Some(e) => e.domain == id || alias_or_empty(e.alias) == id,
        None => false,
    }
}

/// A matching line, brought to the wanted state.
pub open spec fn toggled_line(l: Seq<char>, want_active: bool) -> Seq<char> {
    match decode_spec(l) {
        Some(e) => if e.active == want_active {
            l
        } else if want_active {
            uncommented(l)
        } else {
            seq!['#'] + l
        },
        None => l,
    }
}

/// One line after the switch.
pub open spec fn switched_line(l: Seq<char>, id: Seq<char>, want_active: bool) -> Seq<char> {
    if line_is_match(l, id) {
        toggled_line(l, want_active)
    } else {
        l
    }
}

/// The whole file after the switch.
pub open spec fn switched_lines(lines: Seq<Seq<char>>, id: Seq<char>, want_active: bool) -> Seq<
    Seq<char>,
> {
    lines.map_values(|l: Seq<char>| switched_line(l, id, want_active))
}

/// Some line is a managed entry for `id`.
pub open spec fn some_match(lines: Seq<Seq<char>>, id: Seq<char>) -> bool {
    exists|k: int| 0 <= k < lines.len() && line_is_match(#[trigger] lines[k], id)
}

/// Rewrite `lines`, bringing every managed entry for `identifier` to the
/// wanted state; fails, with nothing rewritten, when there is none.
pub fn toggle(lines: &Vec<String>, identifier: &str, want_active: bool) -> (r: Result<
    Vec<String>,
    NotFoundError,
>)
    ensures
        r is Ok <==> some_match(lines.deep_view(), identifier@),
        r matches Ok(out) ==> out.deep_view() == switched_lines(
            lines.deep_view(),
            identifier@,
            want_active,
        ),
{
    let ghost lv = lines.deep_view();
    let ghost id = identifier@;
    let n: usize = lines.len();
    let mut out: Vec<String> = Vec::new();
    let mut found: bool = false;
    let mut i: usize = 0;
    while i < n
        invariant
            i <= n,
            n == lines.len(),
            lv == lines.deep_view(),
            id == identifier@,
            out.deep_view() == switched_lines(lv.take(i as int), id, want_active),
            found == some_match(lv.take(i as int), id),
        decreases n - i,
    {
        let line: &String = &lines[i];
        proof {
            assert(lv[i as int] == line@);
        }
        let decoded: Option<ManagedEntry> = decode(line.as_str());
        let mut matched: bool = false;
        let mut new_line: String = line.clone();
        match &decoded {
            Some(entry) => {
                let domain_hit: bool = str_eq(entry.domain.as_str(), identifier);
                let alias_hit: bool = match &entry.alias {
                    Some(a) => str_eq(a.as_str(), identifier),
                    None => {
                        proof {
                            if identifier@.len() == 0 {
                                assert(identifier@ =~= Seq::<char>::empty());
                            }
                        }
                        identifier.unicode_len() == 0
                    },
                };
                if domain_hit || alias_hit {
                    matched = true;
                    if entry.active == want_active {
                        // already in the wanted state
                    } else if want_active {
                        proof {
                            lemma_decoded_shape(line@, entry@);
                        }
                        let n_line: usize = line.as_str().unicode_len();
                        let strip: usize = skip_spaces_in(line.as_str(), 1);
                        new_line = String::from_str(line.as_str().substring_char(strip, n_line));
                    } else {
                        let mut commented: String = String::from_str("#");
                        commented.append(line.as_str());
                        proof {
                            reveal_strlit("#");
                            assert(commented@ =~= seq!['#'] + line@);
                        }
                        new_line = commented;
                    }
                }
            },
            None => {},
        }
        proof {
            assert(matched == line_is_match(lv[i as int], id));
            assert(new_line@ == switched_line(lv[i as int], id, want_active));
        }
        out.push(new_line);
        found = found || matched;
        proof {
            assert(out.deep_view() =~= switched_lines(lv.take(i as int), id, want_active).push(
                switched_line(lv[i as int], id, want_active),
            ));
            assert(switched_lines(lv.take(i as int + 1), id, want_active) =~= switched_lines(
                lv.take(i as int),
                id,
                want_active,
            ).push(switched_line(lv[i as int], id, want_active)));
            assert(some_match(lv.take(i as int + 1), id) == (some_match(lv.take(i as int), id)
                || line_is_match(lv[i as int], id))) by {
                if line_is_match(lv[i as int], id) {
                    assert(lv.take(i as int + 1)[i as int] == lv[i as int]);
                } else if some_match(lv.take(i as int), id) {
                    let k = choose|k: int|
                        0 <= k < lv.take(i as int).len() && line_is_match(
                            #[trigger] lv.take(i as int)[k],
                            id,
                        );
                    assert(lv.take(i as int + 1)[k] == lv[k]);
                } else if some_match(lv.take(i as int + 1), id) {
                    let k = choose|k: int|
                        0 <= k < lv.take(i as int + 1).len() && line_is_match(
                            #[trigger] lv.take(i as int + 1)[k],
                            id,
                        );
                    if k < i as int {
                        assert(lv.take(i as int)[k] == lv[k]);
                    }
                }
            }
        }
        i = i + 1;
    }
    proof {
        assert(lv.take(n as int) =~= lv);
    }
    if found {
        Ok(out)
    } else {
        Err(NotFoundError {  })
    }
}

/// Switching one line is idempotent, and a switched line matches the
/// identifier exactly when the line did.
pub proof fn lemma_switched_line_stable(l: Seq<char>, id: Seq<char>, want_active: bool)
    ensures
        switched_line(switched_line(l, id, want_active), id, want_active) == switched_line(
            l,
            id,
            want_active,
        ),
        line_is_match(switched_line(l, id, want_active), id) == line_is_match(l, id),
{
    if line_is_match(l, id) {
        match decode_spec(l) {
            Some(e) => {
                if e.active == want_active {
                } else if want_active {
                    lemma_decode_uncomment(l, e);
                } else {
                    lemma_decode_comment(l, e);
                }
            },
            None => {},
        }
    }
}

/// Applying the same switch twice yields what applying it once does.
pub proof fn lemma_switch_idempotent(lines: Seq<Seq<char>>, id: Seq<char>, want_active: bool)
    ensures
        switched_lines(switched_lines(lines, id, want_active), id, want_active) == switched_lines(
            lines,
            id,
            want_active,
        ),
        some_match(switched_lines(lines, id, want_active), id) == some_match(lines, id),
{
    let once = switched_lines(lines, id, want_active);
    let twice = switched_lines(once, id, want_active);
    assert forall|k: int| 0 <= k < lines.len() implies #[trigger] twice[k] == once[k]
        && line_is_match(once[k], id) == line_is_match(lines[k], id) by {
        lemma_switched_line_stable(lines[k], id, want_active);
    }
    assert(twice =~= once);
    if some_match(lines, id) {
        let k = choose|k: int| 0 <= k < lines.len() && line_is_match(#[trigger] lines[k], id);
        assert(line_is_match(once[k], id));
    }
    if some_match(once, id) {
        let k = choose|k: int| 0 <= k < once.len() && line_is_match(#[trigger] once[k], id);
        assert(line_is_match(lines[k], id));
    }
}

/// A line that is not a managed entry — whatever else it holds — comes
/// out of a switch byte-identical, at its place.
pub proof fn lemma_switch_preserves_foreign(
    lines: Seq<Seq<char>>,
    id: Seq<char>,
    want_active: bool,
    k: int,
)
    requires
        0 <= k < lines.len(),
        decode_spec(lines[k]) is None,
    ensures
        switched_lines(lines, id, want_active).len() == lines.len(),
        switched_lines(lines, id, want_active)[k] == lines[k],
{
}

} // verus!
