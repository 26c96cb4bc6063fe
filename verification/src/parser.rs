//! Parsing helpers for operator-facing tooling.

use vstd::prelude::*;
use vstd::string::StrSliceExecFns;

use crate::error::{CommonResult, NeptuneError};

verus! {

/// Whether character `j` is the first comma.
pub open spec fn spec_comma_first(s: Seq<char>, j: int) -> bool {
    0 <= j < s.len() && s[j] == ',' && (forall|l: int| 0 <= l < j ==> s[l] != ',')
}

pub open spec fn spec_has_comma(s: Seq<char>) -> bool {
    exists|j: int| spec_comma_first(s, j)
}

pub open spec fn spec_first_comma(s: Seq<char>) -> int {
    choose|j: int| spec_comma_first(s, j)
}

/// Where the second comma-separated field ends: at the next comma, or at
/// the end of the text.
pub open spec fn spec_second_end(s: Seq<char>) -> int {
    let c1 = spec_first_comma(s);
    let rest = s.skip(c1 + 1);
    if spec_has_comma(rest) {
        c1 + 1 + spec_first_comma(rest)
    } else {
        s.len() as int
    }
}

proof fn lemma_comma_first_unique(s: Seq<char>, i: int, j: int)
    requires
        spec_comma_first(s, i),
        spec_comma_first(s, j),
    ensures
        i == j,
{
    if i < j {
        assert(s[i] != ',');
    } else if j < i {
        assert(s[j] != ',');
    }
}

/// Splits off the first two comma-separated fields of the text, exactly as
/// written (later fields are ignored). The caller parses the fields; a
/// text without a comma has no second field and is excluded, as the
/// original indexed it unconditionally.
pub fn tuple_parser(s: &str) -> (r: CommonResult<(String, String)>)
    requires
        spec_has_comma(s@),
    ensures
        r matches Ok(p) && p.0@ == s@.subrange(0, spec_first_comma(s@)) && p.1@ == s@.subrange(
            spec_first_comma(s@) + 1,
            spec_second_end(s@),
        ),
{
    let n = s.unicode_len();
    let mut i: usize = 0;
    let mut found = false;
    while i < n && !found
        invariant
            0 <= i <= n,
            n == s@.len(),
            !found ==> forall|l: int| 0 <= l < i ==> s@[l] != ',',
            found ==> spec_comma_first(s@, i as int),
        decreases n - i + (if found {
            0int
        } else {
            1int
        }),
    {
        if s.get_char(i) == ',' {
            found = true;
        } else {
            i += 1;
        }
    }
    proof {
        if !found {
            assert(!spec_has_comma(s@)) by {
                if spec_has_comma(s@) {
                    let j = spec_first_comma(s@);
                    assert(spec_comma_first(s@, j));
                    assert(s@[j] != ',');
                }
            }
        }
    }
    if !found {
        return Err(NeptuneError::Conversion);
    }
    let c1 = i;
    proof {
        lemma_comma_first_unique(s@, c1 as int, spec_first_comma(s@));
    }
    // Find the end of the second field.
    let ghost rest = s@.skip(c1 + 1);
    let mut j: usize = c1 + 1;
    let mut found2 = false;
    while j < n && !found2
        invariant
            c1 + 1 <= j <= n,
            n == s@.len(),
            rest == s@.skip(c1 + 1),
            rest.len() == n - c1 - 1,
            forall|l: int| 0 <= l < rest.len() ==> rest[l] == s@[c1 + 1 + l],
            !found2 ==> forall|l: int| 0 <= l < j - c1 - 1 ==> rest[l] != ',',
            found2 ==> spec_comma_first(rest, j - c1 - 1),
        decreases n - j + (if found2 {
            0int
        } else {
            1int
        }),
    {
        if s.get_char(j) == ',' {
            found2 = true;
        } else {
            j += 1;
        }
    }
    proof {
        if found2 {
            lemma_comma_first_unique(rest, j - c1 - 1, spec_first_comma(rest));
            assert(spec_second_end(s@) == j as int);
        } else {
            assert(!spec_has_comma(rest)) by {
                if spec_has_comma(rest) {
                    let l = spec_first_comma(rest);
                    assert(spec_comma_first(rest, l));
                    assert(rest[l] != ',');
                }
            }
            assert(spec_second_end(s@) == n as int);
        }
    }
    let first = s.substring_char(0, c1).to_owned();
    let second = s.substring_char(c1 + 1, j).to_owned();
    Ok((first, second))
}

} // verus!
