use crate::search::Branch;
use vstd::prelude::*;
use vstd::string::{StrSliceExecFns, StringExecFns};

verus! {

/// The digits to the base 36, in rising order.
pub open spec fn digits36() -> Seq<char> {
    "0123456789abcdefghijklmnopqrstuvwxyz"@
}

/// The digit to the base 36 that stands for `k`, or a star when `k` is
/// too large for one digit.
pub open spec fn code(k: nat) -> Seq<char> {
    if k < 36 {
        digits36().subrange(k as int, k as int + 1)
    } else {
        "*"@
    }
}

/// The code of a place in a column: its digit, or a question mark when
/// the place is not known.
pub open spec fn place_code(position: Option<usize>) -> Seq<char> {
    match position {
        Some(k) => code(k as nat),
        None => "?"@,
    }
}

/// The codes of the levels, each followed by a space: for each level the
/// place of the cell tried and the size of its column.
pub open spec fn codes(branches: Seq<Branch>) -> Seq<char>
    decreases branches.len(),
{
    if branches.len() == 0 {
        Seq::empty()
    } else {
        codes(branches.drop_last()) + place_code(branches.last().position) + code(
            branches.last().length as nat,
        ) + " "@
    }
}

/// The codes of the levels as a progress report shows them: cut off after
/// `3 * level_limit` characters with an ellipsis if they are longer, and
/// without the last space otherwise.
pub open spec fn branch_text(branches: Seq<Branch>, level_limit: usize) -> Seq<char> {
    let full = codes(branches);
    if full.len() > 3 * level_limit {
        full.take(3 * level_limit) + "..."@
    } else if full.len() > 0 {
        full.drop_last()
    } else {
        full
    }
}

/// Every level takes three characters.
pub proof fn lemma_codes_len(branches: Seq<Branch>)
    ensures
        codes(branches).len() == 3 * branches.len(),
    decreases branches.len(),
{
    reveal_strlit("0123456789abcdefghijklmnopqrstuvwxyz");
    reveal_strlit("*");
    reveal_strlit("?");
    reveal_strlit(" ");
    if branches.len() > 0 {
        lemma_codes_len(branches.drop_last());
    }
}

/// The digit to the base 36 that stands for `k`, or a star.
pub fn code_str(k: usize) -> (r: &'static str)
    ensures
        r@ == code(k as nat),
{
    if k < 36 {
        let all = "0123456789abcdefghijklmnopqrstuvwxyz";
        proof {
            reveal_strlit("0123456789abcdefghijklmnopqrstuvwxyz");
        }
        all.substring_ascii(k, k + 1)
    } else {
        "*"
    }
}

/// Writes the codes of the levels as a progress report shows them.
pub fn branch_code(branches: &Vec<Branch>, level_limit: usize) -> (r: String)
    ensures
        r@ == branch_text(branches@, level_limit),
{
    let mut full = String::new();
    let mut t: usize = 0;
    proof {
        assert(branches@.take(0) =~= Seq::<Branch>::empty());
    }
    while t < branches.len()
        invariant
            0 <= t <= branches@.len(),
            full@ == codes(branches@.take(t as int)),
        decreases branches@.len() - t,
    {
        proof {
            assert(branches@.take(t + 1).drop_last() =~= branches@.take(t as int));
            assert(branches@.take(t + 1).last() == branches@[t as int]);
        }
        match branches[t].position {
            Some(k) => {
                full.append(code_str(k));
            },
            None => {
                full.append("?");
            },
        }
        full.append(code_str(branches[t].length));
        full.append(" ");
        t += 1;
    }
    proof {
        assert(branches@.take(t as int) =~= branches@);
        lemma_codes_len(branches@);
    }
    let len = full.as_str().unicode_len();
    let fits = match level_limit.checked_mul(3) {
        Some(cap) => len <= cap,
        None => true,
    };
    if !fits {
        let mut cut = String::from_str(full.as_str().substring_char(0, 3 * level_limit));
        cut.append("...");
        proof {
            assert(full@.subrange(0, 3 * level_limit) =~= full@.take(3 * level_limit));
        }
        cut
    } else if len > 0 {
        proof {
            assert(full@.subrange(0, len - 1) =~= full@.drop_last());
        }
        String::from_str(full.as_str().substring_char(0, len - 1))
    } else {
        full
    }
}

} // verus!
